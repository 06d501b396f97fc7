use regdfa::reg::nfa::builder::{NfaBuilder, NfaNodeRef};
use regdfa::reg::nfa::nfa::Nfa;
use regdfa::reg::re::Re;

fn gen_re_1() -> Re<char> {
    Re::alt(
        'a'.into(),
        Re::cat(Re::cat('a'.into(), 'b'.into()).star(), 'c'.into()),
    )
}

#[test]
fn builder() {
    let _ = gen_re_1().build_nfa();
}

#[test]
fn nfa() {
    let _ = gen_re_1().build_nfa().build();
}

#[test]
fn thompson_nil_is_one_epsilon_edge() {
    let (table, head, tail) = Re::<char>::Nil.build_nfa().build().into_parts();
    assert_eq!(table, vec![vec![(None, 1)], vec![]]);
    assert_eq!((head, tail), (0, 1));
}

#[test]
fn thompson_literal_is_one_symbol_edge() {
    let (table, head, tail) = Re::Lit('x').build_nfa().build().into_parts();
    assert_eq!(table, vec![vec![(Some('x'), 1)], vec![]]);
    assert_eq!((head, tail), (0, 1));
}

#[test]
fn thompson_repetition_loops_back() {
    let (table, head, tail) = Re::Lit('x').star().build_nfa().build().into_parts();
    assert_eq!(
        table,
        vec![
            vec![(None, 1), (None, 2)],
            vec![],
            vec![(Some('x'), 3)],
            vec![(None, 2), (None, 1)],
        ]
    );
    assert_eq!((head, tail), (0, 1));
}

#[test]
fn thompson_concatenation_chains_the_parts() {
    let (table, head, tail) = Re::cat(Re::Lit('x'), Re::Lit('y')).build_nfa().build().into_parts();
    assert_eq!(
        table,
        vec![
            vec![(None, 2)],
            vec![],
            vec![(Some('x'), 3)],
            vec![(None, 4)],
            vec![(Some('y'), 5)],
            vec![(None, 1)],
        ]
    );
    assert_eq!((head, tail), (0, 1));
}

#[test]
fn thompson_alternation_forks_and_joins() {
    let (table, head, tail) = Re::alt(Re::Lit('x'), Re::Nil).build_nfa().build().into_parts();
    assert_eq!(
        table,
        vec![
            vec![(None, 2), (None, 4)],
            vec![],
            vec![(Some('x'), 3)],
            vec![(None, 1)],
            vec![(None, 5)],
            vec![(None, 1)],
        ]
    );
    assert_eq!((head, tail), (0, 1));
}

#[test]
fn two_nodes_for_each_node_of_the_tree_and_no_edge_leaves() {
    // gen_re_1 has 8 nodes: Alt, Lit, Cat, Rep, Cat, Lit, Lit, Lit.
    let builder = gen_re_1().build_nfa();
    let count = builder.nodes().len();
    assert_eq!(count, 16);
    let (table, head, tail) = builder.build().into_parts();
    assert_eq!(table.len(), count);
    assert!(head < count && tail < count);
    for row in &table {
        for (_, to) in row {
            assert!(*to < count);
        }
    }
}

#[test]
fn finishing_keeps_nodes_head_and_tail() {
    let mut builder: NfaBuilder<char> = NfaBuilder::new();
    let extra = builder.add_node();
    assert_eq!(extra, NfaNodeRef { index: 2 });
    let head = *builder.head();
    let tail = *builder.tail();
    assert!(builder.connect(head, Some('a'), extra));
    assert!(builder.connect(extra, None, tail));
    assert!(!builder.connect(extra, None, tail));
    assert!(extra.upgrade(&builder).is_some());
    assert!(NfaNodeRef { index: 3 }.upgrade(&builder).is_none());
    let (table, h, t) = builder.build().into_parts();
    assert_eq!(table, vec![vec![(Some('a'), 2)], vec![], vec![(None, 1)]]);
    assert_eq!((h, t), (0, 1));
}

#[test]
fn from_re_is_build_nfa_then_build() {
    let re = gen_re_1();
    let direct = Nfa::from_re(&re).into_parts();
    let staged = re.build_nfa().build().into_parts();
    assert_eq!(direct, staged);
}

#[test]
fn closure_ends_despite_the_loop() {
    // (ab)* holds an epsilon cycle through the body of the repetition.
    let nfa = Re::cat(Re::Lit('a'), Re::Lit('b')).star().build_nfa().build();
    let closure = nfa.epsilon_closure(nfa.head());
    let members: Vec<usize> = (0..closure.len()).map(|i| closure.get(i)).collect();
    assert_eq!(members, vec![0, 1, 2, 4]);
    let back = nfa.epsilon_closure(3);
    let members: Vec<usize> = (0..back.len()).map(|i| back.get(i)).collect();
    assert_eq!(members, vec![1, 2, 3, 4]);
}

#[test]
fn builder_from_an_expression_by_into() {
    let by_into: NfaBuilder<char> = gen_re_1().into();
    let by_method = gen_re_1().build_nfa();
    assert_eq!(by_into.dot(), by_method.dot());
    assert_eq!(by_into.build().into_parts(), by_method.build().into_parts());
}

#[test]
fn take_outs_leaves_the_node_empty() {
    let mut builder: NfaBuilder<char> = Re::Lit('q').into();
    let (mut nodes, head, tail) = {
        let extra = builder.add_node();
        let head = *builder.head();
        builder.connect(head, None, extra);
        builder.into_parts()
    };
    assert_eq!((head.index, tail.index), (0, 1));
    let outs = nodes[0].take_outs();
    assert_eq!(outs, vec![(Some('q'), NfaNodeRef { index: 1 }), (None, NfaNodeRef { index: 2 })]);
    assert!(nodes[0].take_outs().is_empty());
    assert!(nodes[0].connect(None, NfaNodeRef { index: 1 }));
    assert!(!nodes[0].connect(None, NfaNodeRef { index: 1 }));
}
