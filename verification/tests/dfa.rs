use regdfa::reg::dfa::Dfa;
use regdfa::reg::nfa::nfa::Nfa;
use regdfa::reg::re::Re;
use regdfa::reg::state_set::StateSet;

fn gen_re_1() -> Re<char> {
    Re::alt(
        'a'.into(),
        Re::cat(Re::cat('a'.into(), 'b'.into()).star(), 'c'.into()),
    )
}

fn gen_nfa_1() -> Nfa<char> {
    gen_re_1().build_nfa().build()
}

fn accepts(dfa: &Dfa<char>, word: &str) -> bool {
    let mut state: &StateSet = dfa.start();
    for c in word.chars() {
        match dfa.next(state, &c) {
            Some(next) => state = next,
            None => return false,
        }
    }
    dfa.is_accepting(state)
}

fn members(set: &StateSet) -> Vec<usize> {
    (0..set.len()).map(|i| set.get(i)).collect()
}

#[test]
fn dfa() {
    let _ = gen_nfa_1().build_dfa();
}

#[test]
fn dfa_accepts_a_c_and_ab_runs_before_c() {
    let dfa = gen_nfa_1().build_dfa();
    assert!(accepts(&dfa, "a"));
    assert!(accepts(&dfa, "c"));
    assert!(accepts(&dfa, "abc"));
    assert!(accepts(&dfa, "ababc"));
    assert!(accepts(&dfa, "abababc"));
    assert!(!accepts(&dfa, "ab"));
    assert!(!accepts(&dfa, "b"));
    assert!(!accepts(&dfa, "ac"));
    assert!(!accepts(&dfa, ""));
    assert!(!accepts(&dfa, "aa"));
    assert!(!accepts(&dfa, "abcc"));
    assert!(!accepts(&dfa, "abab"));
}

#[test]
fn dfa_of_nil_accepts_at_start_and_reads_nothing() {
    let dfa = Re::<char>::Nil.build_nfa().build().build_dfa();
    assert_eq!(members(dfa.start()), vec![0, 1]);
    assert!(dfa.is_accepting(dfa.start()));
    for c in ['a', 'b', 'c', 'x'] {
        assert!(dfa.next(dfa.start(), &c).is_none());
    }
    let (table, start, accept) = dfa.into_parts();
    assert_eq!(table.len(), 1);
    assert_eq!(table[0].0, start);
    assert!(table[0].1.is_empty());
    assert_eq!(accept, vec![start]);
}

#[test]
fn dfa_states_accept_exactly_when_they_hold_the_tail() {
    let nfa = gen_nfa_1();
    let tail = nfa.tail();
    let dfa = nfa.build_dfa();
    assert!(!dfa.states().is_empty());
    for (state, _) in dfa.states() {
        assert_eq!(dfa.is_accepting(state), state.contains(tail));
    }
}

#[test]
fn dfa_of_a_repetition_ends_and_loops() {
    let dfa = Re::cat(Re::Lit('a'), Re::Lit('b')).star().build_nfa().build().build_dfa();
    assert!(accepts(&dfa, ""));
    assert!(accepts(&dfa, "ab"));
    assert!(accepts(&dfa, "abab"));
    assert!(!accepts(&dfa, "a"));
    assert!(!accepts(&dfa, "aba"));
    assert!(!accepts(&dfa, "ba"));
    // start, after `a`, after `ab`
    assert_eq!(dfa.states().len(), 3);
}

#[test]
fn dfa_transitions_are_closures_of_the_targets() {
    // a | b: nodes 0,1 (alt), 2,3 (a), 4,5 (b)
    let dfa = Re::alt(Re::Lit('a'), Re::Lit('b')).build_nfa().build().build_dfa();
    assert_eq!(members(dfa.start()), vec![0, 2, 4]);
    assert_eq!(members(dfa.next(dfa.start(), &'a').unwrap()), vec![1, 3]);
    assert_eq!(members(dfa.next(dfa.start(), &'b').unwrap()), vec![1, 5]);
    assert!(dfa.next(dfa.start(), &'c').is_none());
    assert!(!dfa.is_accepting(dfa.start()));
    assert!(dfa.is_accepting(dfa.next(dfa.start(), &'a').unwrap()));
}

#[test]
fn state_sets_are_kept_in_one_form() {
    let mut one = StateSet::new();
    assert!(one.insert(3));
    assert!(one.insert(1));
    assert!(one.insert(2));
    assert!(!one.insert(3));
    let mut other = StateSet::new();
    assert!(other.insert(2));
    assert!(other.insert(3));
    assert!(other.insert(1));
    assert!(one.same(&other));
    assert_eq!(one, other);
    assert_eq!(members(&one), vec![1, 2, 3]);
    assert!(one.contains(2));
    assert!(!one.contains(0));
    assert!(other.insert(0));
    assert!(!one.same(&other));
    assert!(one.duplicate().same(&one));
}

#[test]
fn dfa_over_bytes() {
    let re: Re<u8> = Re::cat(Re::Lit(1), Re::Lit(200).plus());
    let dfa = re.build_nfa().build().build_dfa();
    let run = |word: &[u8]| {
        let mut state = dfa.start();
        for b in word {
            match dfa.next(state, b) {
                Some(next) => state = next,
                None => return false,
            }
        }
        dfa.is_accepting(state)
    };
    assert!(run(&[1, 200]));
    assert!(run(&[1, 200, 200, 200]));
    assert!(!run(&[1]));
    assert!(!run(&[200]));
    assert!(!run(&[]));
    assert!(dfa.dot().contains("[label=\"200\"];"));
}
