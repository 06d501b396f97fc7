use regdfa::reg::re::Re;

fn gen_re_1() -> Re<char> {
    Re::alt(
        'a'.into(),
        Re::cat(Re::cat('a'.into(), 'b'.into()).star(), 'c'.into()),
    )
}

#[test]
fn dot() {
    let re = gen_re_1();

    let builder = re.build_nfa();
    let builder_text = builder.dot();

    let nfa = builder.build();
    let nfa_text = nfa.dot();

    let dfa = nfa.build_dfa();
    let dfa_text = dfa.dot();

    assert_eq!(builder_text, nfa_text);
    for text in [&builder_text, &nfa_text, &dfa_text] {
        assert!(text.starts_with("digraph{edge[arrowhead=normal,arrowtail=dot];"));
        assert!(text.ends_with("}"));
    }
    assert!(nfa_text.contains("\"1\"[peripheries=2];"));
    assert!(nfa_text.contains("[label=\"λ\"];"));
    assert!(dfa_text.contains("[label=\"'c'\"];"));
}

#[test]
fn dot_of_a_literal_builder() {
    assert_eq!(
        Re::Lit('a').build_nfa().dot(),
        "digraph{edge[arrowhead=normal,arrowtail=dot];\"0\";\"1\"[peripheries=2];\"0\"->\"1\"[label=\"'a'\"];}"
    );
}

#[test]
fn dot_of_an_empty_expression_marks_epsilon() {
    assert_eq!(
        Re::<char>::Nil.build_nfa().build().dot(),
        "digraph{edge[arrowhead=normal,arrowtail=dot];\"0\";\"1\"[peripheries=2];\"0\"->\"1\"[label=\"λ\"];}"
    );
}

#[test]
fn dot_of_a_literal_dfa_names_states_by_members() {
    assert_eq!(
        Re::Lit('a').build_nfa().build().build_dfa().dot(),
        "digraph{edge[arrowhead=normal,arrowtail=dot];\"{0}\";\"{1}\"[peripheries=2];\"{0}\"->\"{1}\"[label=\"'a'\"];}"
    );
}

#[test]
fn dot_writes_numbers_in_decimal_and_sets_with_commas() {
    // a | b: twelve or more nodes are needed for two digits, so nest.
    let re = Re::cat(
        Re::cat(Re::cat(Re::Lit('a'), Re::Lit('b')), Re::Lit('c')),
        Re::cat(Re::Lit('d'), Re::Lit('e')),
    );
    let nfa = re.build_nfa().build();
    let text = nfa.dot();
    assert!(text.contains("\"17\";"));
    assert!(text.contains("\"10\"->\"11\""));
    let dfa = Re::alt(Re::Lit('a'), Re::Lit('b')).build_nfa().build().build_dfa();
    let text = dfa.dot();
    assert!(text.contains("\"{0, 2, 4}\";"));
    assert!(text.contains("\"{0, 2, 4}\"->\"{1, 3}\"[label=\"'a'\"];"));
    assert!(text.contains("\"{1, 5}\"[peripheries=2];"));
}

#[test]
fn dot_escapes_a_quote_in_a_label() {
    let text = Re::Lit('"').build_nfa().dot();
    assert!(text.contains("[label=\"'\\\"'\"];"));
}
