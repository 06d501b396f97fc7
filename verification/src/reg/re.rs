//! The regular-expression syntax tree and its combinators.
use vstd::prelude::*;
use crate::reg::nfa::builder::{thompson, NfaBuilder};
use crate::reg::symbol::Symbol;
use crate::reg::text::{push_char, push_text};

verus! {

/// A regular expression over symbols of type `T`.
#[derive(Debug, PartialEq)]
pub enum Re<T> {
    /// The empty string.
    Nil,
    /// Exactly one occurrence of a symbol.
    Lit(T),
    /// Zero or more repetitions (Kleene star).
    Rep(Box<Re<T>>),
    /// Concatenation: the first, then the second.
    Cat(Box<Re<T>>, Box<Re<T>>),
    /// Alternation: the first or the second.
    Alt(Box<Re<T>>, Box<Re<T>>),
}

impl<T> Re<T> {
    /// `a` followed by `b`.
    pub fn cat(a: Self, b: Self) -> (r: Self)
        ensures
            r == Re::Cat(Box::new(a), Box::new(b)),
    {
        Re::Cat(Box::new(a), Box::new(b))
    }

    /// Either `a` or `b`.
    pub fn alt(a: Self, b: Self) -> (r: Self)
        ensures
            r == Re::Alt(Box::new(a), Box::new(b)),
    {
        Re::Alt(Box::new(a), Box::new(b))
    }

    /// The number of nodes of the syntax tree.
    pub open spec fn size(self) -> nat
        decreases self,
    {
        match self {
            Re::Nil => 1,
            Re::Lit(_) => 1,
            Re::Rep(r) => 1 + r.size(),
            Re::Cat(a, b) => 1 + a.size() + b.size(),
            Re::Alt(a, b) => 1 + a.size() + b.size(),
        }
    }

    /// Whether the expression matches the word `w`: nothing matches the
    /// empty word; a symbol matches the word of that symbol alone; a
    /// repetition matches the empty word and any word that splits into a
    /// non-empty part matched by its body and a rest matched by the
    /// repetition; a concatenation matches a word that splits into a part
    /// for the first and a part for the second; an alternation matches what
    /// either side matches.
    pub open spec fn matches(self, w: Seq<T>) -> bool
        decreases self, w.len(),
    {
        match self {
            Re::Nil => w.len() == 0,
            Re::Lit(a) => w.len() == 1 && w[0] == a,
            Re::Rep(r) => w.len() == 0 || exists|k: int|
                0 < k <= w.len() && r.matches(#[trigger] w.subrange(0, k)) && self.matches(
                    w.subrange(k, w.len() as int),
                ),
            Re::Cat(a, b) => exists|k: int|
                0 <= k <= w.len() && a.matches(#[trigger] w.subrange(0, k)) && b.matches(
                    w.subrange(k, w.len() as int),
                ),
            Re::Alt(a, b) => a.matches(w) || b.matches(w),
        }
    }

    /// Zero or more repetitions of `self`.
    pub open spec fn spec_star(self) -> Re<T> {
        Re::Rep(Box::new(self))
    }

    /// `self` or nothing.
    pub open spec fn spec_opt(self) -> Re<T> {
        Re::Alt(Box::new(Re::Nil), Box::new(self))
    }

    /// Zero or more repetitions of `self`.
    pub fn star(self) -> (r: Self)
        ensures
            r == self.spec_star(),
    {
        Re::Rep(Box::new(self))
    }

    /// `self` or nothing.
    pub fn opt(self) -> (r: Self)
        ensures
            r == self.spec_opt(),
    {
        Re::alt(Re::Nil, self)
    }
}

impl<T> Re<T> {
    /// The items of a non-empty sequence joined by concatenation, nested to
    /// the right: `[a, b, c]` gives `Cat(a, Cat(b, c))`, and `[a]` gives `a`.
    pub open spec fn cat_chain(items: Seq<Re<T>>) -> Re<T>
        recommends
            items.len() > 0,
        decreases items.len(),
    {
        if items.len() <= 1 {
            items.first()
        } else {
            Re::Cat(Box::new(items.first()), Box::new(Self::cat_chain(items.drop_first())))
        }
    }

    /// The items of a non-empty sequence joined by alternation, nested to
    /// the right: `[a, b, c]` gives `Alt(a, Alt(b, c))`, and `[a]` gives `a`.
    pub open spec fn alt_chain(items: Seq<Re<T>>) -> Re<T>
        recommends
            items.len() > 0,
        decreases items.len(),
    {
        if items.len() <= 1 {
            items.first()
        } else {
            Re::Alt(Box::new(items.first()), Box::new(Self::alt_chain(items.drop_first())))
        }
    }

    /// Joining the last two items of a sequence first does not change its
    /// concatenation.
    proof fn lemma_cat_chain_fold(items: Seq<Re<T>>, a: Re<T>, b: Re<T>)
        ensures
            Self::cat_chain(items.push(a).push(b)) == Self::cat_chain(
                items.push(Re::Cat(Box::new(a), Box::new(b))),
            ),
        decreases items.len(),
    {
        let long = items.push(a).push(b);
        let short = items.push(Re::Cat(Box::new(a), Box::new(b)));
        if items.len() == 0 {
            assert(long.drop_first() =~= seq![b]);
            assert(Self::cat_chain(seq![b]) == b);
        } else {
            let rest = items.drop_first();
            assert(long.drop_first() =~= rest.push(a).push(b));
            assert(short.drop_first() =~= rest.push(Re::Cat(Box::new(a), Box::new(b))));
            Self::lemma_cat_chain_fold(rest, a, b);
        }
    }

    /// Joining the last two items of a sequence first does not change its
    /// alternation.
    proof fn lemma_alt_chain_fold(items: Seq<Re<T>>, a: Re<T>, b: Re<T>)
        ensures
            Self::alt_chain(items.push(a).push(b)) == Self::alt_chain(
                items.push(Re::Alt(Box::new(a), Box::new(b))),
            ),
        decreases items.len(),
    {
        let long = items.push(a).push(b);
        let short = items.push(Re::Alt(Box::new(a), Box::new(b)));
        if items.len() == 0 {
            assert(long.drop_first() =~= seq![b]);
            assert(Self::alt_chain(seq![b]) == b);
        } else {
            let rest = items.drop_first();
            assert(long.drop_first() =~= rest.push(a).push(b));
            assert(short.drop_first() =~= rest.push(Re::Alt(Box::new(a), Box::new(b))));
            Self::lemma_alt_chain_fold(rest, a, b);
        }
    }

    /// The concatenation of all of `it`, nested to the right.
    pub fn cat_all(it: Vec<Self>) -> (r: Self)
        requires
            it.len() > 0,
        ensures
            r == Self::cat_chain(it@),
    {
        let mut it = it;
        let ghost all = it@;
        let mut ret = it.pop().unwrap();
        assert(it@.push(ret) =~= all);
        while it.len() > 0
            invariant
                Self::cat_chain(it@.push(ret)) == Self::cat_chain(all),
            decreases it.len(),
        {
            let ghost before = it@;
            let ghost joined = ret;
            let re = it.pop().unwrap();
            proof {
                assert(before =~= it@.push(re));
                Self::lemma_cat_chain_fold(it@, re, joined);
            }
            ret = Re::cat(re, ret);
        }
        assert(it@.push(ret) =~= seq![ret]);
        ret
    }

    /// The alternation of all of `it`, nested to the right.
    pub fn alt_all(it: Vec<Self>) -> (r: Self)
        requires
            it.len() > 0,
        ensures
            r == Self::alt_chain(it@),
    {
        let mut it = it;
        let ghost all = it@;
        let mut ret = it.pop().unwrap();
        assert(it@.push(ret) =~= all);
        while it.len() > 0
            invariant
                Self::alt_chain(it@.push(ret)) == Self::alt_chain(all),
            decreases it.len(),
        {
            let ghost before = it@;
            let ghost joined = ret;
            let re = it.pop().unwrap();
            proof {
                assert(before =~= it@.push(re));
                Self::lemma_alt_chain_fold(it@, re, joined);
            }
            ret = Re::alt(re, ret);
        }
        assert(it@.push(ret) =~= seq![ret]);
        ret
    }

    /// `n` copies of `self`, each followed by the next, and `rest` after
    /// the last.
    pub open spec fn prepended(self, n: nat, rest: Re<T>) -> Re<T>
        decreases n,
    {
        if n == 0 {
            rest
        } else {
            self.prepended((n - 1) as nat, Re::Cat(Box::new(self), Box::new(rest)))
        }
    }

    /// Between zero and `extra + 1` copies of `self`:
    /// `Alt(Nil, self)` wrapped `extra` times as `Alt(Nil, Cat(self, ..))`.
    pub open spec fn optional_run(self, extra: nat) -> Re<T>
        decreases extra,
    {
        if extra == 0 {
            Re::Alt(Box::new(Re::Nil), Box::new(self))
        } else {
            Re::Alt(
                Box::new(Re::Nil),
                Box::new(
                    Re::Cat(Box::new(self), Box::new(self.optional_run((extra - 1) as nat))),
                ),
            )
        }
    }

    /// `self` once, then any number of further times.
    pub open spec fn spec_plus(self) -> Re<T> {
        Re::Cat(Box::new(self), Box::new(Re::Rep(Box::new(self))))
    }

    /// The sequence of `n` copies of `self`.
    pub open spec fn copies(self, n: nat) -> Seq<Re<T>> {
        Seq::new(n, |i: int| self)
    }

    /// `n` copies of `self` in a row.
    pub open spec fn spec_dup(self, n: nat) -> Re<T>
        recommends
            n > 0,
    {
        Self::cat_chain(self.copies(n))
    }

    /// Between `min` and `max` copies of `self` in a row; with no `max`, `min`
    /// or more.
    pub open spec fn spec_rep(self, min: nat, max: Option<nat>) -> Re<T>
        recommends
            max matches Some(m) ==> min <= m && 0 < m,
    {
        match max {
            Some(m) => {
                if m == min {
                    self.spec_dup(min)
                } else {
                    self.prepended(min, self.optional_run((m - min - 1) as nat))
                }
            },
            None => self.prepended(min, Re::Rep(Box::new(self))),
        }
    }
}

impl<T: Copy> Clone for Re<T> {
    fn clone(&self) -> (r: Self)
        ensures
            r == *self,
        decreases *self,
    {
        match self {
            Re::Nil => Re::Nil,
            Re::Lit(l) => Re::Lit(*l),
            Re::Rep(a) => Re::Rep(Box::new((**a).clone())),
            Re::Cat(a, b) => Re::Cat(Box::new((**a).clone()), Box::new((**b).clone())),
            Re::Alt(a, b) => Re::Alt(Box::new((**a).clone()), Box::new((**b).clone())),
        }
    }
}

impl<T: Copy> Re<T> {
    /// One or more repetitions of `self`.
    pub fn plus(self) -> (r: Self)
        ensures
            r == self.spec_plus(),
    {
        Re::cat(self.clone(), self.star())
    }

    /// `n` copies of `self` in a row.
    pub fn dup(&self, n: u32) -> (r: Self)
        requires
            n > 0,
        ensures
            r == self.spec_dup(n as nat),
    {
        let mut copies: Vec<Self> = Vec::new();
        let mut i: u32 = 0;
        while i < n
            invariant
                i <= n,
                copies@ == self.copies(i as nat),
            decreases n - i,
        {
            copies.push(self.clone());
            i = i + 1;
        }
        Re::cat_all(copies)
    }

    /// Between `min` and `max` copies of `self` in a row; with no `max`, `min`
    /// or more.
    pub fn rep(&self, min: u32, max: Option<u32>) -> (r: Self)
        requires
            max matches Some(m) ==> min <= m && 0 < m,
        ensures
            r == self.spec_rep(
                min as nat,
                match max {
                    Some(m) => Some(m as nat),
                    None => None,
                },
            ),
    {
        let mut ret = match max {
            Some(max) => {
                if max == min {
                    return self.dup(min);
                }
                let mut ret = Re::alt(Re::Nil, self.clone());
                let extra: u32 = max - min - 1;
                let mut i: u32 = 0;
                while i < extra
                    invariant
                        i <= extra,
                        ret == self.optional_run(i as nat),
                    decreases extra - i,
                {
                    ret = Re::alt(Re::Nil, Re::cat(self.clone(), ret));
                    i = i + 1;
                }
                ret
            },
            None => self.clone().star(),
        };
        let ghost last = ret;
        let mut i: u32 = 0;
        while i < min
            invariant
                i <= min,
                self.prepended((min - i) as nat, ret) == self.prepended(min as nat, last),
            decreases min - i,
        {
            ret = Re::cat(self.clone(), ret);
            i = i + 1;
        }
        ret
    }
}

impl<T: Symbol> Re<T> {
    /// How tightly the outermost operator binds: a repetition tighter than a
    /// concatenation, a concatenation tighter than an alternation, and an
    /// expression without an operator tightest of all.
    pub open spec fn precedence(self) -> nat {
        match self {
            Re::Nil => 3,
            Re::Lit(_) => 3,
            Re::Rep(_) => 2,
            Re::Cat(_, _) => 1,
            Re::Alt(_, _) => 0,
        }
    }

    /// The expression written out, without the parentheses that its place
    /// may ask for.
    pub open spec fn rendered_bare(self) -> Seq<char>
        decreases self, 0nat,
    {
        match self {
            Re::Nil => seq!['ϵ'],
            Re::Lit(l) => seq!['｢'] + l.shown() + seq!['｣'],
            Re::Rep(r) => r.rendered(2) + seq!['*'],
            Re::Cat(a, b) => a.rendered(1) + seq!['~'] + b.rendered(1),
            Re::Alt(a, b) => a.rendered(0) + seq!['|'] + b.rendered(0),
        }
    }

    /// The expression written out for a place that asks for a precedence of
    /// at least `min_prec`: in parentheses if its own precedence is lower.
    pub open spec fn rendered(self, min_prec: nat) -> Seq<char>
        decreases self, 1nat,
    {
        if self.precedence() < min_prec {
            seq!['('] + self.rendered_bare() + seq![')']
        } else {
            self.rendered_bare()
        }
    }

    /// Thompson's construction: the graph for `self`, with one entry and one
    /// exit node for each node of the syntax tree and no edge that leaves the
    /// graph. The graph accepts the words that `self` matches
    /// (`lemma_thompson_language`).
    pub fn build_nfa(self) -> (b: NfaBuilder<T>)
        ensures
            b@ == thompson(self),
            b@.wf(),
            b@.nodes.len() == 2 * self.size(),
    {
        NfaBuilder::from(self)
    }

    /// Appends the expression to `out`, written for a place that asks for a
    /// precedence of at least `prec`.
    pub fn disp_prec(&self, prec: u32, out: &mut String)
        ensures
            final(out)@ == old(out)@ + self.rendered(prec as nat),
        decreases *self,
    {
        let my_prec: u32 = match self {
            Re::Nil => 3,
            Re::Lit(_) => 3,
            Re::Rep(_) => 2,
            Re::Cat(_, _) => 1,
            Re::Alt(_, _) => 0,
        };
        let ghost start = out@;
        if my_prec < prec {
            push_char(out, '(');
        }
        let ghost opened = out@;
        match self {
            Re::Nil => {
                push_char(out, 'ϵ');
            },
            Re::Lit(l) => {
                push_char(out, '｢');
                let text = l.show();
                push_text(out, text.as_str());
                push_char(out, '｣');
            },
            Re::Rep(r) => {
                r.disp_prec(my_prec, out);
                push_char(out, '*');
            },
            Re::Cat(a, b) => {
                a.disp_prec(my_prec, out);
                push_char(out, '~');
                b.disp_prec(my_prec, out);
            },
            Re::Alt(a, b) => {
                a.disp_prec(my_prec, out);
                push_char(out, '|');
                b.disp_prec(my_prec, out);
            },
        }
        assert(out@ =~= opened + self.rendered_bare());
        if my_prec < prec {
            push_char(out, ')');
        }
        assert(out@ =~= start + self.rendered(prec as nat));
    }

    /// The expression written out: `ϵ` for the empty string, a symbol
    /// between `｢` and `｣`, `*` after a repetition, `~` between
    /// the parts of a concatenation and `|` between those of an alternation.
    pub fn to_string(&self) -> (s: String)
        ensures
            s@ == self.rendered(0),
    {
        let mut s = String::new();
        self.disp_prec(0, &mut s);
        assert(s@ =~= self.rendered(0));
        s
    }
}

/// Repeating an expression exactly `n` times is `n` copies of it in a row:
/// `rep` with equal bounds gives what `dup` gives, the concatenation of `n`
/// equal copies.
pub proof fn lemma_rep_exact_is_dup<T>(r: Re<T>, n: nat)
    ensures
        r.spec_rep(n, Some(n)) == r.spec_dup(n),
        r.spec_dup(n) == Re::cat_chain(r.copies(n)),
        r.copies(n).len() == n,
        forall|i: int| 0 <= i < n ==> (#[trigger] r.copies(n)[i]) == r,
{
}

/// Without an upper bound, `rep` from zero is `star` and `rep` from one is
/// `plus`; `rep` from zero to one is `opt`.
pub proof fn lemma_rep_special_cases<T>(r: Re<T>)
    ensures
        r.spec_rep(0, None) == r.spec_star(),
        r.spec_rep(1, None) == r.spec_plus(),
        r.spec_rep(0, Some(1nat)) == r.spec_opt(),
{
    reveal_with_fuel(Re::prepended, 2);
}

/// A chain of one item is that item, and a chain of three nests to the
/// right.
pub proof fn lemma_chain_small<T>(a: Re<T>, b: Re<T>, c: Re<T>)
    ensures
        Re::cat_chain(seq![a]) == a,
        Re::alt_chain(seq![a]) == a,
        Re::cat_chain(seq![a, b, c]) == Re::Cat(
            Box::new(a),
            Box::new(Re::Cat(Box::new(b), Box::new(c))),
        ),
        Re::alt_chain(seq![a, b, c]) == Re::Alt(
            Box::new(a),
            Box::new(Re::Alt(Box::new(b), Box::new(c))),
        ),
{
    reveal_with_fuel(Re::cat_chain, 3);
    reveal_with_fuel(Re::alt_chain, 3);
    assert(seq![a, b, c].drop_first() =~= seq![b, c]);
    assert(seq![b, c].drop_first() =~= seq![c]);
}

impl<T> From<T> for Re<T> {
    /// The expression that matches `lit` alone.
    fn from(lit: T) -> (r: Self) {
        Re::Lit(lit)
    }
}

impl<T> vstd::std_specs::convert::FromSpecImpl<T> for Re<T> {
    open spec fn obeys_from_spec() -> bool {
        true
    }

    open spec fn from_spec(lit: T) -> Self {
        Re::Lit(lit)
    }
}

} // verus!
