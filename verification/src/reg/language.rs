//! The words that an automaton accepts, and why the subset construction
//! keeps them.
use vstd::prelude::*;
use crate::reg::graph::{DfaView, Graph};
use crate::reg::nfa::builder::{fragment, lemma_fragment, thompson};
use crate::reg::re::Re;

verus! {

impl<T> Graph<T> {
    /// The automaton can go from node `p` to node `q` reading `word`: along
    /// epsilon edges alone if the word is empty, and else by reading all but
    /// the last symbol, then the last symbol on an edge, then along epsilon
    /// edges.
    pub open spec fn reads(self, p: int, word: Seq<T>, q: int) -> bool
        decreases word.len(),
    {
        if word.len() == 0 {
            self.eps_reach(p, q)
        } else {
            exists|r: int, s: int|
                self.reads(p, word.drop_last(), r) && #[trigger] self.has_edge(
                    r,
                    Some(word.last()),
                    s,
                ) && self.eps_reach(s, q)
        }
    }

    /// The automaton can go from its head to its tail reading `word`.
    pub open spec fn accepts(self, word: Seq<T>) -> bool {
        self.reads(self.head, word, self.tail)
    }

    /// The nodes that a readable word reaches are those to which the
    /// automaton can go from its head reading the word; a word that cannot
    /// be read leads nowhere.
    pub proof fn lemma_run_is_reads(self, word: Seq<T>, q: int)
        ensures
            self.reads(self.head, word, q) <==> self.runnable(word) && self.run(word).contains(q),
        decreases word.len(),
    {
        if word.len() > 0 {
            let front = word.drop_last();
            let a = word.last();
            if self.reads(self.head, word, q) {
                let (r, s) = choose|r: int, s: int|
                    self.reads(self.head, front, r) && #[trigger] self.has_edge(r, Some(a), s)
                        && self.eps_reach(s, q);
                self.lemma_run_is_reads(front, r);
                assert(self.run(front).contains(r) && self.has_edge(r, Some(a), s));
            }
            if self.runnable(word) && self.run(word).contains(q) {
                let (r, s) = choose|r: int, s: int|
                    self.run(front).contains(r) && #[trigger] self.has_edge(r, Some(a), s)
                        && self.eps_reach(s, q);
                self.lemma_run_is_reads(front, r);
            }
        }
    }

    /// What reaches a node reaches whatever that node reaches.
    pub proof fn lemma_reach_trans(self, p: int, q: int, r: int)
        requires
            self.eps_reach(p, q),
            self.eps_reach(q, r),
        ensures
            self.eps_reach(p, r),
    {
        self.lemma_closure_idempotent(p, q);
        assert(self.closure(q).contains(r));
    }

    /// A word that leads to a node leads to whatever that node reaches
    /// along epsilon edges.
    pub proof fn lemma_reads_then_reach(self, p: int, w: Seq<T>, q: int, r: int)
        requires
            self.reads(p, w, q),
            self.eps_reach(q, r),
        ensures
            self.reads(p, w, r),
    {
        if w.len() == 0 {
            self.lemma_reach_trans(p, q, r);
        } else {
            let (x, s) = choose|x: int, s: int|
                self.reads(p, w.drop_last(), x) && #[trigger] self.has_edge(x, Some(w.last()), s)
                    && self.eps_reach(s, q);
            self.lemma_reach_trans(s, q, r);
        }
    }

    /// A word that leads from `p` to `q`, followed by a word that leads from
    /// `q` to `r`, leads from `p` to `r`.
    pub proof fn lemma_reads_concat(self, p: int, u: Seq<T>, q: int, v: Seq<T>, r: int)
        requires
            self.reads(p, u, q),
            self.reads(q, v, r),
        ensures
            self.reads(p, u + v, r),
        decreases v.len(),
    {
        if v.len() == 0 {
            self.lemma_reads_then_reach(p, u, q, r);
            assert(u + v =~= u);
        } else {
            let (x, s) = choose|x: int, s: int|
                self.reads(q, v.drop_last(), x) && #[trigger] self.has_edge(x, Some(v.last()), s)
                    && self.eps_reach(s, r);
            self.lemma_reads_concat(p, u, q, v.drop_last(), x);
            assert((u + v).drop_last() =~= u + v.drop_last());
            assert((u + v).last() == v.last());
        }
    }

    /// An epsilon edge reads the empty word.
    pub proof fn lemma_edge_reads_nothing(self, p: int, q: int)
        requires
            self.has_edge(p, None, q),
        ensures
            self.reads(p, Seq::empty(), q),
    {
        self.lemma_reach_self(p);
        self.lemma_reach_step(p, p, q);
    }

    /// An edge with a symbol reads the word of that symbol alone.
    pub proof fn lemma_edge_reads_symbol(self, p: int, a: T, q: int)
        requires
            self.has_edge(p, Some(a), q),
        ensures
            self.reads(p, seq![a], q),
    {
        self.lemma_reach_self(p);
        self.lemma_reach_self(q);
        let w = seq![a];
        assert(w.drop_last() =~= Seq::<T>::empty());
        assert(self.reads(p, w.drop_last(), p));
        assert(self.has_edge(p, Some(w.last()), q));
    }

    /// What a readable word reaches is a state of the deterministic
    /// automaton.
    pub proof fn lemma_run_is_state(self, word: Seq<T>)
        requires
            self.runnable(word),
        ensures
            self.dfa_state(self.run(word)),
    {
    }
}

impl<T> DfaView<T> {
    /// The state in which the automaton is after reading `word`, if it can
    /// read the word: each symbol in turn must have a transition from the
    /// state reached before it.
    pub open spec fn reached(self, word: Seq<T>) -> Option<Set<int>>
        decreases word.len(),
    {
        if word.len() == 0 {
            Some(self.start)
        } else {
            match self.reached(word.drop_last()) {
                Some(c) => {
                    if self.table.dom().contains(c) && self.table[c].dom().contains(word.last()) {
                        Some(self.table[c][word.last()])
                    } else {
                        None
                    }
                },
                None => None,
            }
        }
    }

    /// The automaton can read `word` and is in an accepting state after it.
    pub open spec fn accepts(self, word: Seq<T>) -> bool {
        self.reached(word) matches Some(c) && self.accept.contains(c)
    }
}

/// The deterministic automaton of `g` can read exactly the words that `g`
/// can read, and is then in the state that holds the nodes which `g`
/// reaches.
pub proof fn lemma_determinized_reached<T>(g: Graph<T>, word: Seq<T>)
    ensures
        g.determinized().reached(word) == if g.runnable(word) {
            Some(g.run(word))
        } else {
            None
        },
    decreases word.len(),
{
    if word.len() > 0 {
        let front = word.drop_last();
        lemma_determinized_reached(g, front);
        if g.runnable(front) {
            g.lemma_run_is_state(front);
        }
    }
}

/// The subset construction keeps the language: the deterministic automaton
/// of `g` accepts a word if and only if `g` can go from its head to its tail
/// reading it.
pub proof fn lemma_determinized_accepts<T>(g: Graph<T>, word: Seq<T>)
    ensures
        g.determinized().accepts(word) <==> g.accepts(word),
{
    lemma_determinized_reached(g, word);
    g.lemma_run_is_reads(word, g.tail);
    if g.runnable(word) {
        g.lemma_run_is_state(word);
    }
}

/// The word that an edge reads: its symbol, or nothing.
spec fn label_word<T>(by: Option<T>) -> Seq<T> {
    match by {
        Some(a) => seq![a],
        None => Seq::empty(),
    }
}

/// What can be said of every word `u` that leads from the entry of the
/// fragment of `re` at `base` to its node `p`: at the entry the word is
/// empty, at the exit the expression matches it, and inside a part it is a
/// word that leads to `p` within the part, after whatever had to be matched
/// before the part was entered.
spec fn arrives<T>(re: Re<T>, base: int, p: int, u: Seq<T>) -> bool
    decreases re,
{
    if p == base {
        u.len() == 0
    } else if p == base + 1 {
        re.matches(u)
    } else {
        match re {
            Re::Nil => false,
            Re::Lit(_) => false,
            Re::Rep(r) => exists|k: int|
                0 <= k <= u.len() && re.matches(#[trigger] u.subrange(0, k)) && arrives(
                    *r,
                    base + 2,
                    p,
                    u.subrange(k, u.len() as int),
                ),
            Re::Cat(a, b) => {
                let mid = base + 2 + 2 * a.size();
                if p < mid {
                    arrives(*a, base + 2, p, u)
                } else {
                    exists|k: int|
                        0 <= k <= u.len() && a.matches(#[trigger] u.subrange(0, k)) && arrives(
                            *b,
                            mid,
                            p,
                            u.subrange(k, u.len() as int),
                        )
                }
            },
            Re::Alt(a, b) => {
                let mid = base + 2 + 2 * a.size();
                if p < mid {
                    arrives(*a, base + 2, p, u)
                } else {
                    arrives(*b, mid, p, u)
                }
            },
        }
    }
}

/// A word matched by a repetition, followed by a word matched by its body,
/// is matched by the repetition.
pub proof fn lemma_star_snoc<T>(r: Re<T>, x: Seq<T>, y: Seq<T>)
    requires
        Re::Rep(Box::new(r)).matches(x),
        r.matches(y),
    ensures
        Re::Rep(Box::new(r)).matches(x + y),
    decreases x.len(),
{
    let star = Re::Rep(Box::new(r));
    let w = x + y;
    if x.len() == 0 {
        assert(w =~= y);
        if y.len() > 0 {
            let k = y.len() as int;
            assert(w.subrange(0, k) =~= y);
            assert(star.matches(w.subrange(k, w.len() as int)));
        }
    } else {
        let k = choose|k: int|
            0 < k <= x.len() && r.matches(#[trigger] x.subrange(0, k)) && star.matches(
                x.subrange(k, x.len() as int),
            );
        lemma_star_snoc(r, x.subrange(k, x.len() as int), y);
        assert(w.subrange(0, k) =~= x.subrange(0, k));
        assert(w.subrange(k, w.len() as int) =~= x.subrange(k, x.len() as int) + y);
    }
}

/// Every edge of a fragment keeps what `arrives` says: if it holds of a
/// word at the source of an edge, it holds at the target of the word with
/// what the edge reads behind it.
proof fn lemma_edge_arrives<T>(re: Re<T>, base: int, i: int, k: int, u: Seq<T>)
    requires
        0 <= i < fragment(re, base).len(),
        0 <= k < fragment(re, base)[i].len(),
        arrives(re, base, base + i, u),
    ensures
        arrives(
            re,
            base,
            fragment(re, base)[i][k].1,
            u + label_word(fragment(re, base)[i][k].0),
        ),
    decreases re.size(), 1nat,
{
    let f = fragment(re, base);
    let v = u + label_word(f[i][k].0);
    match re {
        Re::Nil => {
            assert(i == 0);
            assert(v =~= u);
        },
        Re::Lit(a) => {
            assert(i == 0);
            assert(v =~= seq![a]);
        },
        Re::Rep(r) => {
            lemma_edge_arrives_rep(*r, base, i, k, u);
        },
        Re::Cat(a, b) => {
            lemma_edge_arrives_cat(*a, *b, base, i, k, u);
        },
        Re::Alt(a, b) => {
            lemma_edge_arrives_alt(*a, *b, base, i, k, u);
        },
    }
}

/// Every syntax tree has a node.
proof fn lemma_size_positive<T>(re: Re<T>)
    ensures
        re.size() >= 1,
{
}

/// The edges of the fragment of a repetition keep what `arrives` says.
proof fn lemma_edge_arrives_rep<T>(r: Re<T>, base: int, i: int, k: int, u: Seq<T>)
    requires
        0 <= i < fragment(Re::Rep(Box::new(r)), base).len(),
        0 <= k < fragment(Re::Rep(Box::new(r)), base)[i].len(),
        arrives(Re::Rep(Box::new(r)), base, base + i, u),
    ensures
        arrives(
            Re::Rep(Box::new(r)),
            base,
            fragment(Re::Rep(Box::new(r)), base)[i][k].1,
            u + label_word(fragment(Re::Rep(Box::new(r)), base)[i][k].0),
        ),
    decreases 1 + r.size(), 0nat,
{
    let re = Re::Rep(Box::new(r));
    let f = fragment(re, base);
    let v = u + label_word(f[i][k].0);
    let t = f[i][k].1;
    let inner = fragment(r, base + 2);
    lemma_fragment(r, base + 2);
    lemma_size_positive(r);
    let top = seq![seq![(None::<T>, base + 1), (None::<T>, base + 2)], seq![]];
    let body = inner.update(1, inner[1].push((None, base + 2)).push((None, base + 1)));
    assert(f == top + body);
    if i == 0 {
        assert(v =~= u);
        assert(f[0] == top[0]);
        if k == 1 {
            assert(v.subrange(0, 0) =~= Seq::<T>::empty());
            assert(v.subrange(0, v.len() as int) =~= Seq::<T>::empty());
            assert(re.matches(v.subrange(0, 0)));
            assert(arrives(r, base + 2, base + 2, v.subrange(0, v.len() as int)));
            assert(arrives(re, base, t, v));
        }
    } else {
        assert(i >= 2);
        let j = i - 2;
        assert(f[i] == body[j]);
        let k1 = choose|k1: int|
            0 <= k1 <= u.len() && re.matches(#[trigger] u.subrange(0, k1)) && arrives(
                r,
                base + 2,
                base + i,
                u.subrange(k1, u.len() as int),
            );
        let u1 = u.subrange(0, k1);
        let u2 = u.subrange(k1, u.len() as int);
        if j == 1 {
            lemma_star_snoc(r, u1, u2);
            assert(u1 + u2 =~= u);
            assert(v =~= u);
            if k == 0 {
                let n = v.len() as int;
                assert(v.subrange(0, n) =~= v);
                assert(v.subrange(n, n) =~= Seq::<T>::empty());
                assert(re.matches(v.subrange(0, n)));
                assert(arrives(r, base + 2, base + 2, v.subrange(n, n)));
                assert(arrives(re, base, t, v));
            }
        } else {
            assert(f[i][k] == inner[j][k]);
            lemma_edge_arrives(r, base + 2, j, k, u2);
            assert(v.subrange(0, k1) =~= u1);
            assert(v.subrange(k1, v.len() as int) =~= u2 + label_word(f[i][k].0));
            assert(re.matches(v.subrange(0, k1)));
            assert(arrives(re, base, t, v));
        }
    }
}

/// The edges of the fragment of a concatenation keep what `arrives` says.
proof fn lemma_edge_arrives_cat<T>(a: Re<T>, b: Re<T>, base: int, i: int, k: int, u: Seq<T>)
    requires
        0 <= i < fragment(Re::Cat(Box::new(a), Box::new(b)), base).len(),
        0 <= k < fragment(Re::Cat(Box::new(a), Box::new(b)), base)[i].len(),
        arrives(Re::Cat(Box::new(a), Box::new(b)), base, base + i, u),
    ensures
        arrives(
            Re::Cat(Box::new(a), Box::new(b)),
            base,
            fragment(Re::Cat(Box::new(a), Box::new(b)), base)[i][k].1,
            u + label_word(fragment(Re::Cat(Box::new(a), Box::new(b)), base)[i][k].0),
        ),
    decreases 1 + a.size() + b.size(), 0nat,
{
    let re = Re::Cat(Box::new(a), Box::new(b));
    let f = fragment(re, base);
    let v = u + label_word(f[i][k].0);
    let t = f[i][k].1;
    let first = fragment(a, base + 2);
    let mid = base + 2 + first.len();
    let second = fragment(b, mid);
    lemma_fragment(a, base + 2);
    lemma_fragment(b, mid);
    lemma_size_positive(a);
    lemma_size_positive(b);
    let top = seq![seq![(None::<T>, base + 2)], seq![]];
    let left = first.update(1, first[1].push((None, mid)));
    let right = second.update(1, second[1].push((None, base + 1)));
    assert(f == top + left + right);
    if i == 0 {
        assert(v =~= u);
        assert(f[0] == top[0]);
        assert(arrives(a, base + 2, base + 2, v));
        assert(arrives(re, base, t, v));
    } else if i < 2 + first.len() {
        assert(i >= 2);
        let j = i - 2;
        assert(f[i] == left[j]);
        assert(arrives(a, base + 2, base + i, u));
        if j == 1 {
            assert(v =~= u);
            let n = v.len() as int;
            assert(v.subrange(0, n) =~= v);
            assert(v.subrange(n, n) =~= Seq::<T>::empty());
            assert(a.matches(v.subrange(0, n)));
            assert(arrives(b, mid, mid, v.subrange(n, n)));
            assert(arrives(re, base, t, v));
        } else {
            assert(f[i][k] == first[j][k]);
            lemma_edge_arrives(a, base + 2, j, k, u);
            assert(arrives(re, base, t, v));
        }
    } else {
        let j = i - 2 - first.len();
        assert(f[i] == right[j]);
        let k1 = choose|k1: int|
            0 <= k1 <= u.len() && a.matches(#[trigger] u.subrange(0, k1)) && arrives(
                b,
                mid,
                base + i,
                u.subrange(k1, u.len() as int),
            );
        let u1 = u.subrange(0, k1);
        let u2 = u.subrange(k1, u.len() as int);
        if j == 1 {
            assert(v =~= u);
            assert(arrives(re, base, t, v));
        } else {
            assert(f[i][k] == second[j][k]);
            lemma_edge_arrives(b, mid, j, k, u2);
            assert(v.subrange(0, k1) =~= u1);
            assert(v.subrange(k1, v.len() as int) =~= u2 + label_word(f[i][k].0));
            assert(a.matches(v.subrange(0, k1)));
            assert(arrives(re, base, t, v));
        }
    }
}

/// The edges of the fragment of an alternation keep what `arrives` says.
proof fn lemma_edge_arrives_alt<T>(a: Re<T>, b: Re<T>, base: int, i: int, k: int, u: Seq<T>)
    requires
        0 <= i < fragment(Re::Alt(Box::new(a), Box::new(b)), base).len(),
        0 <= k < fragment(Re::Alt(Box::new(a), Box::new(b)), base)[i].len(),
        arrives(Re::Alt(Box::new(a), Box::new(b)), base, base + i, u),
    ensures
        arrives(
            Re::Alt(Box::new(a), Box::new(b)),
            base,
            fragment(Re::Alt(Box::new(a), Box::new(b)), base)[i][k].1,
            u + label_word(fragment(Re::Alt(Box::new(a), Box::new(b)), base)[i][k].0),
        ),
    decreases 1 + a.size() + b.size(), 0nat,
{
    let re = Re::Alt(Box::new(a), Box::new(b));
    let f = fragment(re, base);
    let v = u + label_word(f[i][k].0);
    let t = f[i][k].1;
    let first = fragment(a, base + 2);
    let mid = base + 2 + first.len();
    let second = fragment(b, mid);
    lemma_fragment(a, base + 2);
    lemma_fragment(b, mid);
    lemma_size_positive(a);
    lemma_size_positive(b);
    let top = seq![seq![(None::<T>, base + 2), (None::<T>, mid)], seq![]];
    let left = first.update(1, first[1].push((None, base + 1)));
    let right = second.update(1, second[1].push((None, base + 1)));
    assert(f == top + left + right);
    if i == 0 {
        assert(v =~= u);
        assert(f[0] == top[0]);
        assert(arrives(a, base + 2, base + 2, v));
        assert(arrives(b, mid, mid, v));
        assert(arrives(re, base, t, v));
    } else if i < 2 + first.len() {
        assert(i >= 2);
        let j = i - 2;
        assert(f[i] == left[j]);
        assert(arrives(a, base + 2, base + i, u));
        if j == 1 {
            assert(v =~= u);
            assert(arrives(re, base, t, v));
        } else {
            assert(f[i][k] == first[j][k]);
            lemma_edge_arrives(a, base + 2, j, k, u);
            assert(arrives(re, base, t, v));
        }
    } else {
        let j = i - 2 - first.len();
        assert(f[i] == right[j]);
        assert(arrives(b, mid, base + i, u));
        if j == 1 {
            assert(v =~= u);
            assert(arrives(re, base, t, v));
        } else {
            assert(f[i][k] == second[j][k]);
            lemma_edge_arrives(b, mid, j, k, u);
            assert(arrives(re, base, t, v));
        }
    }
}

/// In the graph of `re`, what `arrives` says of a word at the source of an
/// edge holds at its target of the word with what the edge reads behind
/// it.
proof fn lemma_step_arrives<T>(re: Re<T>, p: int, by: Option<T>, q: int, u: Seq<T>)
    requires
        thompson(re).has_edge(p, by, q),
        arrives(re, 0, p, u),
    ensures
        arrives(re, 0, q, u + label_word(by)),
{
    let f = fragment(re, 0);
    let k = choose|k: int| 0 <= k < f[p].len() && f[p][k] == (by, q);
    lemma_edge_arrives(re, 0, p, k, u);
}

/// In the graph of `re`, what `arrives` says of a word at the start of a
/// walk along epsilon edges holds all along the walk.
proof fn lemma_path_arrives<T>(re: Re<T>, path: Seq<int>, i: int, u: Seq<T>)
    requires
        thompson(re).eps_path(path),
        arrives(re, 0, path.first(), u),
        0 <= i < path.len(),
    ensures
        arrives(re, 0, path[i], u),
    decreases i,
{
    if i > 0 {
        lemma_path_arrives(re, path, i - 1, u);
        assert(thompson(re).has_edge(path[i - 1], None, path[i - 1 + 1]));
        lemma_step_arrives(re, path[i - 1], None, path[i], u);
        assert(u + label_word(None::<T>) =~= u);
    }
}

/// In the graph of `re`, `arrives` holds of every word at every node to
/// which the word leads from the head.
proof fn lemma_reads_arrives<T>(re: Re<T>, w: Seq<T>, q: int)
    requires
        thompson(re).reads(0, w, q),
    ensures
        arrives(re, 0, q, w),
    decreases w.len(),
{
    let g = thompson(re);
    if w.len() == 0 {
        let path = choose|path: Seq<int>|
            #![auto]
            g.eps_path(path) && path.first() == 0 && path.last() == q;
        lemma_path_arrives(re, path, path.len() - 1, w);
    } else {
        let front = w.drop_last();
        let a = w.last();
        let (r, s) = choose|r: int, s: int|
            g.reads(0, front, r) && #[trigger] g.has_edge(r, Some(a), s) && g.eps_reach(s, q);
        lemma_reads_arrives(re, front, r);
        lemma_step_arrives(re, r, Some(a), s, front);
        assert(front + label_word(Some(a)) =~= w);
        let path = choose|path: Seq<int>|
            #![auto]
            g.eps_path(path) && path.first() == s && path.last() == q;
        lemma_path_arrives(re, path, path.len() - 1, w);
    }
}

/// The graph of `re` accepts only words that `re` matches.
pub proof fn lemma_thompson_sound<T>(re: Re<T>, w: Seq<T>)
    requires
        thompson(re).accepts(w),
    ensures
        re.matches(w),
{
    lemma_reads_arrives(re, w, 1);
}

/// The graph `g` has every edge of the fragment of `re` at `base`.
spec fn embeds<T>(g: Graph<T>, re: Re<T>, base: int) -> bool {
    forall|i: int, k: int|
        0 <= i < fragment(re, base).len() && 0 <= k < fragment(re, base)[i].len() ==> g.has_edge(
            base + i,
            (#[trigger] fragment(re, base)[i][k]).0,
            fragment(re, base)[i][k].1,
        )
}

/// A graph with the fragment of a repetition has the fragment of its body
/// and the four edges around it.
proof fn lemma_embeds_rep<T>(g: Graph<T>, r: Re<T>, base: int)
    requires
        embeds(g, Re::Rep(Box::new(r)), base),
    ensures
        embeds(g, r, base + 2),
        g.has_edge(base, None, base + 1),
        g.has_edge(base, None, base + 2),
        g.has_edge(base + 3, None, base + 2),
        g.has_edge(base + 3, None, base + 1),
{
    let re = Re::Rep(Box::new(r));
    let f = fragment(re, base);
    let inner = fragment(r, base + 2);
    lemma_fragment(r, base + 2);
    lemma_size_positive(r);
    let top = seq![seq![(None::<T>, base + 1), (None::<T>, base + 2)], seq![]];
    let body = inner.update(1, inner[1].push((None, base + 2)).push((None, base + 1)));
    assert(f == top + body);
    assert(f[0] == top[0]);
    assert(f[0][0] == (None::<T>, base + 1));
    assert(f[0][1] == (None::<T>, base + 2));
    assert(f[3] == body[1]);
    assert(f[3][0] == (None::<T>, base + 2));
    assert(f[3][1] == (None::<T>, base + 1));
    assert forall|i: int, k: int| 0 <= i < inner.len() && 0 <= k < inner[i].len() implies g.has_edge(
        base + 2 + i,
        (#[trigger] inner[i][k]).0,
        inner[i][k].1,
    ) by {
        assert(f[i + 2] == body[i]);
        assert(i != 1);
        assert(f[i + 2][k] == inner[i][k]);
    }
}

/// A graph with the fragment of a concatenation has the fragments of both
/// parts and the three edges that join them.
proof fn lemma_embeds_cat<T>(g: Graph<T>, a: Re<T>, b: Re<T>, base: int)
    requires
        embeds(g, Re::Cat(Box::new(a), Box::new(b)), base),
    ensures
        embeds(g, a, base + 2),
        embeds(g, b, base + 2 + 2 * a.size()),
        g.has_edge(base, None, base + 2),
        g.has_edge(base + 3, None, base + 2 + 2 * a.size()),
        g.has_edge(base + 2 + 2 * a.size() + 1, None, base + 1),
{
    let re = Re::Cat(Box::new(a), Box::new(b));
    let f = fragment(re, base);
    let first = fragment(a, base + 2);
    let mid = base + 2 + first.len();
    let second = fragment(b, mid);
    lemma_fragment(a, base + 2);
    lemma_fragment(b, mid);
    lemma_size_positive(a);
    lemma_size_positive(b);
    let top = seq![seq![(None::<T>, base + 2)], seq![]];
    let left = first.update(1, first[1].push((None, mid)));
    let right = second.update(1, second[1].push((None, base + 1)));
    assert(f == top + left + right);
    assert(f[0] == top[0]);
    assert(f[0][0] == (None::<T>, base + 2));
    assert(f[3] == left[1]);
    assert(f[3][0] == (None::<T>, mid));
    assert(f[mid - base + 1] == right[1]);
    assert(f[mid - base + 1][0] == (None::<T>, base + 1));
    assert forall|i: int, k: int| 0 <= i < first.len() && 0 <= k < first[i].len() implies g.has_edge(
        base + 2 + i,
        (#[trigger] first[i][k]).0,
        first[i][k].1,
    ) by {
        assert(f[i + 2] == left[i]);
        assert(i != 1);
        assert(f[i + 2][k] == first[i][k]);
    }
    assert forall|i: int, k: int| 0 <= i < second.len() && 0 <= k < second[i].len() implies g.has_edge(
        mid + i,
        (#[trigger] second[i][k]).0,
        second[i][k].1,
    ) by {
        assert(f[mid - base + i] == right[i]);
        assert(i != 1);
        assert(f[mid - base + i][k] == second[i][k]);
    }
}

/// A graph with the fragment of an alternation has the fragments of both
/// sides and the four edges that fork and join.
proof fn lemma_embeds_alt<T>(g: Graph<T>, a: Re<T>, b: Re<T>, base: int)
    requires
        embeds(g, Re::Alt(Box::new(a), Box::new(b)), base),
    ensures
        embeds(g, a, base + 2),
        embeds(g, b, base + 2 + 2 * a.size()),
        g.has_edge(base, None, base + 2),
        g.has_edge(base, None, base + 2 + 2 * a.size()),
        g.has_edge(base + 3, None, base + 1),
        g.has_edge(base + 2 + 2 * a.size() + 1, None, base + 1),
{
    let re = Re::Alt(Box::new(a), Box::new(b));
    let f = fragment(re, base);
    let first = fragment(a, base + 2);
    let mid = base + 2 + first.len();
    let second = fragment(b, mid);
    lemma_fragment(a, base + 2);
    lemma_fragment(b, mid);
    lemma_size_positive(a);
    lemma_size_positive(b);
    let top = seq![seq![(None::<T>, base + 2), (None::<T>, mid)], seq![]];
    let left = first.update(1, first[1].push((None, base + 1)));
    let right = second.update(1, second[1].push((None, base + 1)));
    assert(f == top + left + right);
    assert(f[0] == top[0]);
    assert(f[0][0] == (None::<T>, base + 2));
    assert(f[0][1] == (None::<T>, mid));
    assert(f[3] == left[1]);
    assert(f[3][0] == (None::<T>, base + 1));
    assert(f[mid - base + 1] == right[1]);
    assert(f[mid - base + 1][0] == (None::<T>, base + 1));
    assert forall|i: int, k: int| 0 <= i < first.len() && 0 <= k < first[i].len() implies g.has_edge(
        base + 2 + i,
        (#[trigger] first[i][k]).0,
        first[i][k].1,
    ) by {
        assert(f[i + 2] == left[i]);
        assert(i != 1);
        assert(f[i + 2][k] == first[i][k]);
    }
    assert forall|i: int, k: int| 0 <= i < second.len() && 0 <= k < second[i].len() implies g.has_edge(
        mid + i,
        (#[trigger] second[i][k]).0,
        second[i][k].1,
    ) by {
        assert(f[mid - base + i] == right[i]);
        assert(i != 1);
        assert(f[mid - base + i][k] == second[i][k]);
    }
}

/// In a graph with the fragment of `re` at `base`, every word that `re`
/// matches leads from the entry of the fragment to its exit.
proof fn lemma_matches_reads<T>(g: Graph<T>, re: Re<T>, base: int, w: Seq<T>)
    requires
        embeds(g, re, base),
        re.matches(w),
    ensures
        g.reads(base, w, base + 1),
    decreases re.size(), w.len(), 1nat,
{
    match re {
        Re::Nil => {
            assert(fragment(re, base)[0][0] == (None::<T>, base + 1));
            g.lemma_edge_reads_nothing(base, base + 1);
            assert(w =~= Seq::<T>::empty());
        },
        Re::Lit(a) => {
            assert(fragment(re, base)[0][0] == (Some(a), base + 1));
            g.lemma_edge_reads_symbol(base, a, base + 1);
            assert(w =~= seq![a]);
        },
        Re::Rep(r) => {
            lemma_embeds_rep(g, *r, base);
            if w.len() == 0 {
                g.lemma_edge_reads_nothing(base, base + 1);
                assert(w =~= Seq::<T>::empty());
            } else {
                g.lemma_edge_reads_nothing(base, base + 2);
                lemma_matches_reads_again(g, *r, base, w);
                g.lemma_reads_concat(base, Seq::empty(), base + 2, w, base + 1);
                assert(Seq::<T>::empty() + w =~= w);
            }
        },
        Re::Cat(a, b) => {
            lemma_embeds_cat(g, *a, *b, base);
            let mid = base + 2 + 2 * a.size();
            let k = choose|k: int|
                0 <= k <= w.len() && a.matches(#[trigger] w.subrange(0, k)) && b.matches(
                    w.subrange(k, w.len() as int),
                );
            let u = w.subrange(0, k);
            let v = w.subrange(k, w.len() as int);
            lemma_matches_reads(g, *a, base + 2, u);
            lemma_matches_reads(g, *b, mid, v);
            g.lemma_edge_reads_nothing(base, base + 2);
            g.lemma_edge_reads_nothing(base + 3, mid);
            g.lemma_edge_reads_nothing(mid + 1, base + 1);
            g.lemma_reads_concat(base, Seq::empty(), base + 2, u, base + 3);
            assert(Seq::<T>::empty() + u =~= u);
            g.lemma_reads_concat(base, u, base + 3, Seq::empty(), mid);
            assert(u + Seq::<T>::empty() =~= u);
            g.lemma_reads_concat(base, u, mid, v, mid + 1);
            g.lemma_reads_concat(base, u + v, mid + 1, Seq::empty(), base + 1);
            assert(u + v + Seq::<T>::empty() =~= w);
        },
        Re::Alt(a, b) => {
            lemma_embeds_alt(g, *a, *b, base);
            let mid = base + 2 + 2 * a.size();
            if a.matches(w) {
                lemma_matches_reads(g, *a, base + 2, w);
                g.lemma_edge_reads_nothing(base, base + 2);
                g.lemma_edge_reads_nothing(base + 3, base + 1);
                g.lemma_reads_concat(base, Seq::empty(), base + 2, w, base + 3);
                assert(Seq::<T>::empty() + w =~= w);
                g.lemma_reads_concat(base, w, base + 3, Seq::empty(), base + 1);
                assert(w + Seq::<T>::empty() =~= w);
            } else {
                lemma_matches_reads(g, *b, mid, w);
                g.lemma_edge_reads_nothing(base, mid);
                g.lemma_edge_reads_nothing(mid + 1, base + 1);
                g.lemma_reads_concat(base, Seq::empty(), mid, w, mid + 1);
                assert(Seq::<T>::empty() + w =~= w);
                g.lemma_reads_concat(base, w, mid + 1, Seq::empty(), base + 1);
                assert(w + Seq::<T>::empty() =~= w);
            }
        },
    }
}

/// In a graph with the fragment of the repetition of `r` at `base`, every
/// non-empty word that the repetition matches leads from the entry of the
/// body through the body, any number of times, to the exit of the
/// repetition.
proof fn lemma_matches_reads_again<T>(g: Graph<T>, r: Re<T>, base: int, w: Seq<T>)
    requires
        embeds(g, Re::Rep(Box::new(r)), base),
        Re::Rep(Box::new(r)).matches(w),
        w.len() > 0,
    ensures
        g.reads(base + 2, w, base + 1),
    decreases 1 + r.size(), w.len(), 0nat,
{
    let star = Re::Rep(Box::new(r));
    lemma_embeds_rep(g, r, base);
    let k = choose|k: int|
        0 < k <= w.len() && r.matches(#[trigger] w.subrange(0, k)) && star.matches(
            w.subrange(k, w.len() as int),
        );
    let u = w.subrange(0, k);
    let v = w.subrange(k, w.len() as int);
    lemma_matches_reads(g, r, base + 2, u);
    if v.len() == 0 {
        g.lemma_edge_reads_nothing(base + 3, base + 1);
        g.lemma_reads_concat(base + 2, u, base + 3, Seq::empty(), base + 1);
        assert(u + Seq::<T>::empty() =~= w);
    } else {
        g.lemma_edge_reads_nothing(base + 3, base + 2);
        lemma_matches_reads_again(g, r, base, v);
        g.lemma_reads_concat(base + 2, u, base + 3, Seq::empty(), base + 2);
        assert(u + Seq::<T>::empty() =~= u);
        g.lemma_reads_concat(base + 2, u, base + 2, v, base + 1);
        assert(u + v =~= w);
    }
}

/// The graph of `re` accepts every word that `re` matches.
pub proof fn lemma_thompson_complete<T>(re: Re<T>, w: Seq<T>)
    requires
        re.matches(w),
    ensures
        thompson(re).accepts(w),
{
    let g = thompson(re);
    lemma_fragment(re, 0);
    assert(embeds(g, re, 0)) by {
        assert forall|i: int, k: int|
            0 <= i < fragment(re, 0).len() && 0 <= k < fragment(re, 0)[i].len() implies g.has_edge(
            0 + i,
            (#[trigger] fragment(re, 0)[i][k]).0,
            fragment(re, 0)[i][k].1,
        ) by {
            assert(g.nodes[i].contains(fragment(re, 0)[i][k]));
        }
    }
    lemma_matches_reads(g, re, 0, w);
}

/// Thompson's construction keeps the language: its graph accepts a word if
/// and only if the expression matches it.
pub proof fn lemma_thompson_language<T>(re: Re<T>, w: Seq<T>)
    ensures
        thompson(re).accepts(w) <==> re.matches(w),
{
    if thompson(re).accepts(w) {
        lemma_thompson_sound(re, w);
    }
    if re.matches(w) {
        lemma_thompson_complete(re, w);
    }
}

/// From the expression to the deterministic automaton the language is
/// kept: the automaton made from the graph of `re` accepts a word if and
/// only if `re` matches it.
pub proof fn lemma_compiled_language<T>(re: Re<T>, w: Seq<T>)
    ensures
        thompson(re).determinized().accepts(w) <==> re.matches(w),
{
    lemma_determinized_accepts(thompson(re), w);
    lemma_thompson_language(re, w);
}

} // verus!
