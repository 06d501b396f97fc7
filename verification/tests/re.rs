use regdfa::reg::re::Re;

#[test]
fn cat_all() {
    assert_eq!(
        Re::cat('a'.into(), Re::cat('b'.into(), 'c'.into())),
        Re::cat_all(vec!['a'.into(), 'b'.into(), 'c'.into()])
    );
}

#[test]
fn alt_all() {
    assert_eq!(
        Re::alt('a'.into(), Re::alt('b'.into(), 'c'.into())),
        Re::alt_all(vec!['a'.into(), 'b'.into(), 'c'.into()]),
    )
}

#[test]
fn dup() {
    let re: Re<_> = 'a'.into();

    assert_eq!(
        Re::cat_all(vec![re.clone(), re.clone(), re.clone()]),
        re.dup(3),
    );
}

#[test]
fn rep() {
    let re: Re<_> = 'a'.into();

    assert_eq!(re.clone().star(), re.clone().rep(0, None));
    assert_eq!(re.clone().plus(), re.clone().rep(1, None));
    assert_eq!(re.clone().opt(), re.clone().rep(0, Some(1)));
    assert_eq!(re.dup(3), re.clone().rep(3, Some(3)));

    assert_eq!(
        Re::cat_all(vec![re.clone(), re.clone(), re.clone(), re.clone().star()]),
        re.clone().rep(3, None)
    );

    assert_eq!(
        Re::cat_all(vec![
            re.clone(),
            re.clone(),
            re.clone(),
            Re::alt(Re::Nil, Re::cat(re.clone(), Re::alt(Re::Nil, re.clone())))
        ]),
        re.clone().rep(3, Some(5))
    )
}

#[test]
fn test_disp() {
    assert_eq!("ϵ", Re::Nil::<char>.to_string());

    assert_eq!("｢a｣", {
        let r: Re<_> = 'a'.into();
        r
    }.to_string());

    assert_eq!(
        "｢a｣|(｢a｣~｢b｣)*~｢c｣",
        Re::alt(
            'a'.into(),
            Re::cat(Re::cat('a'.into(), 'b'.into()).star(), 'c'.into()),
        ).to_string()
    );
}

#[test]
fn chain_of_one_is_the_item() {
    let a: Re<char> = 'a'.into();
    assert_eq!(a, Re::cat_all(vec![a.clone()]));
    assert_eq!(a, Re::alt_all(vec![a.clone()]));
    assert_eq!(a, a.dup(1));
    assert_eq!(a, a.rep(1, Some(1)));
}

#[test]
fn rep_with_a_range_nests_options_to_the_right() {
    let a: Re<u8> = 7.into();
    assert_eq!(
        Re::cat(a.clone(), Re::alt(Re::Nil, a.clone())),
        a.rep(1, Some(2))
    );
    assert_eq!(
        Re::alt(Re::Nil, Re::cat(a.clone(), Re::alt(Re::Nil, a.clone()))),
        a.rep(0, Some(2))
    );
}

#[test]
fn display_parenthesizes_by_precedence() {
    let a: Re<char> = 'a'.into();
    let b: Re<char> = 'b'.into();
    assert_eq!("｢a｣*", a.clone().star().to_string());
    assert_eq!("｢a｣**", a.clone().star().star().to_string());
    assert_eq!("(｢a｣|｢b｣)*", Re::alt(a.clone(), b.clone()).star().to_string());
    assert_eq!("(｢a｣|｢b｣)~｢a｣", Re::cat(Re::alt(a.clone(), b.clone()), a.clone()).to_string());
    assert_eq!("｢a｣~｢b｣|｢a｣", Re::alt(Re::cat(a.clone(), b.clone()), a.clone()).to_string());
    assert_eq!("ϵ|｢a｣", a.clone().opt().to_string());
    assert_eq!("｢a｣~｢b｣~｢a｣", Re::cat(a.clone(), Re::cat(b.clone(), a.clone())).to_string());
}

#[test]
fn display_of_byte_symbols_is_decimal() {
    let r: Re<u8> = Re::cat(Re::Lit(0), Re::alt(Re::Lit(42), Re::Lit(255)));
    assert_eq!("｢0｣~(｢42｣|｢255｣)", r.to_string());
}
