//! The mathematical model of an automaton with epsilon edges: numbered nodes,
//! labelled edges, and what can be reached along them.
use vstd::prelude::*;

verus! {

/// A graph of nodes numbered from zero. Each node lists its outgoing edges in
/// the order in which they were added: a label, which is a symbol or nothing
/// (an epsilon edge), and the number of the target node.
pub struct Graph<T> {
    /// The outgoing edges of each node.
    pub nodes: Seq<Seq<(Option<T>, int)>>,
    /// The node at which every run starts.
    pub head: int,
    /// The node at which an accepting run ends.
    pub tail: int,
}

/// The mathematical model of a deterministic automaton whose states are
/// sets of nodes of a graph.
#[verifier::reject_recursive_types(T)]
pub struct DfaView<T> {
    /// For each state, the state that each symbol leads to.
    pub table: Map<Set<int>, Map<T, Set<int>>>,
    /// The state in which every run starts.
    pub start: Set<int>,
    /// The states in which a run may end to accept.
    pub accept: Set<Set<int>>,
}

/// The sets of numbers from `0` up to, not including, `n`.
pub open spec fn subsets_below(n: nat) -> Set<Set<int>> {
    Set::new(|c: Set<int>| forall|x: int| c.contains(x) ==> 0 <= x < n)
}

/// There are finitely many sets of numbers below `n`.
pub proof fn lemma_subsets_finite(n: nat)
    ensures
        subsets_below(n).finite(),
    decreases n,
{
    if n == 0 {
        assert forall|c: Set<int>| subsets_below(0).contains(c) implies c == Set::<int>::empty() by {
            assert(c =~= Set::<int>::empty());
        }
        assert(subsets_below(0) =~= set![Set::<int>::empty()]);
    } else {
        let m = (n - 1) as nat;
        let smaller = subsets_below(m);
        lemma_subsets_finite(m);
        let with_last = |c: Set<int>| c.insert(m as int);
        smaller.lemma_map_finite(with_last);
        let both = smaller.union(smaller.map(with_last));
        assert forall|c: Set<int>| subsets_below(n).contains(c) implies both.contains(c) by {
            if c.contains(m as int) {
                let rest = c.remove(m as int);
                assert(smaller.contains(rest));
                assert(with_last(rest) =~= c);
                assert(smaller.map(with_last).contains(c));
            } else {
                assert(smaller.contains(c));
            }
        }
        assert(subsets_below(n).subset_of(both));
        vstd::set_lib::lemma_set_subset_finite(both, subsets_below(n));
    }
}

impl<T> Graph<T> {
    /// Every edge leads to a node of the graph and is listed once; head and
    /// tail are nodes of the graph.
    pub open spec fn wf(self) -> bool {
        &&& 0 <= self.head < self.nodes.len()
        &&& 0 <= self.tail < self.nodes.len()
        &&& forall|p: int, k: int|
            0 <= p < self.nodes.len() && 0 <= k < self.nodes[p].len() ==> 0 <= (
            #[trigger] self.nodes[p][k]).1 < self.nodes.len()
        &&& forall|p: int| 0 <= p < self.nodes.len() ==> (#[trigger] self.nodes[p]).no_duplicates()
    }

    /// There is an edge from `p` to `q` labelled `by`.
    pub open spec fn has_edge(self, p: int, by: Option<T>, q: int) -> bool {
        0 <= p < self.nodes.len() && self.nodes[p].contains((by, q))
    }

    /// `path` is a walk along epsilon edges: it is not empty, and each node
    /// but the last has an epsilon edge to the next.
    pub open spec fn eps_path(self, path: Seq<int>) -> bool {
        &&& path.len() > 0
        &&& forall|i: int|
            0 <= i < path.len() - 1 ==> self.has_edge(#[trigger] path[i], None, path[i + 1])
    }

    /// `q` can be reached from `p` along epsilon edges alone (none at all, if
    /// `q` is `p`).
    pub open spec fn eps_reach(self, p: int, q: int) -> bool {
        exists|path: Seq<int>|
            #![auto]
            self.eps_path(path) && path.first() == p && path.last() == q
    }

    /// The epsilon-closure of `p`: every node that can be reached from `p`
    /// along epsilon edges alone, `p` itself among them.
    pub open spec fn closure(self, p: int) -> Set<int> {
        Set::new(|q: int| self.eps_reach(p, q))
    }

    /// No epsilon edge leads out of `s`.
    pub open spec fn eps_closed(self, s: Set<int>) -> bool {
        forall|p: int, q: int| s.contains(p) && #[trigger] self.has_edge(p, None, q) ==> s.contains(q)
    }

    /// Some node of `c` has an edge labelled with the symbol `a`.
    pub open spec fn enabled(self, c: Set<int>, a: T) -> bool {
        exists|p: int, q: int| c.contains(p) && #[trigger] self.has_edge(p, Some(a), q)
    }

    /// The nodes in which the automaton can be after reading `a` in one of the
    /// nodes of `c`: the targets of the edges labelled `a` that leave `c`,
    /// and all that can be reached from those along epsilon edges.
    pub open spec fn step(self, c: Set<int>, a: T) -> Set<int> {
        Set::new(
            |r: int|
                exists|p: int, q: int|
                    c.contains(p) && #[trigger] self.has_edge(p, Some(a), q) && self.eps_reach(
                        q,
                        r,
                    ),
        )
    }

    /// The nodes in which the automaton can be before reading anything.
    pub open spec fn start(self) -> Set<int> {
        self.closure(self.head)
    }

    /// The nodes in which the automaton can be after reading `word`.
    pub open spec fn run(self, word: Seq<T>) -> Set<int>
        decreases word.len(),
    {
        if word.len() == 0 {
            self.start()
        } else {
            self.step(self.run(word.drop_last()), word.last())
        }
    }

    /// Each symbol of `word` can be read when its turn comes: some node
    /// reached by the symbols before it has an edge for it.
    pub open spec fn runnable(self, word: Seq<T>) -> bool
        decreases word.len(),
    {
        if word.len() == 0 {
            true
        } else {
            self.runnable(word.drop_last()) && self.enabled(
                self.run(word.drop_last()),
                word.last(),
            )
        }
    }

    /// `c` is a state of the deterministic automaton: the set of nodes
    /// reached by some word that can be read.
    pub open spec fn dfa_state(self, c: Set<int>) -> bool {
        exists|word: Seq<T>| #![auto] self.runnable(word) && self.run(word) == c
    }

    /// The deterministic automaton of the subset construction: its states
    /// are the sets of nodes that some readable word reaches, its transition
    /// from a state on a symbol that the state can read is one step, it
    /// starts in the closure of the head, and it accepts in the states that
    /// hold the tail.
    pub open spec fn determinized(self) -> DfaView<T> {
        DfaView {
            table: Map::new(
                |c: Set<int>| self.dfa_state(c),
                |c: Set<int>| Map::new(|a: T| self.enabled(c, a), |a: T| self.step(c, a)),
            ),
            start: self.start(),
            accept: Set::new(|c: Set<int>| self.dfa_state(c) && c.contains(self.tail)),
        }
    }

    /// The start state is a state of the deterministic automaton.
    pub proof fn lemma_start_is_state(self)
        ensures
            self.dfa_state(self.start()),
    {
        let word = Seq::<T>::empty();
        assert(self.runnable(word) && self.run(word) == self.start());
    }

    /// One step from a state of the deterministic automaton, on a symbol
    /// that it can read, leads to a state of the deterministic automaton.
    pub proof fn lemma_step_is_state(self, c: Set<int>, a: T)
        requires
            self.dfa_state(c),
            self.enabled(c, a),
        ensures
            self.dfa_state(self.step(c, a)),
    {
        let word = choose|word: Seq<T>| #![auto] self.runnable(word) && self.run(word) == c;
        let longer = word.push(a);
        assert(longer.drop_last() =~= word);
        assert(longer.last() == a);
        assert(self.runnable(longer) && self.run(longer) == self.step(c, a));
    }

    /// A collection of sets that holds the start state and, with each of its
    /// sets, the step from it on every symbol that it can read, holds
    /// whatever a readable word reaches.
    pub proof fn lemma_run_stays(self, keys: Set<Set<int>>, word: Seq<T>)
        requires
            keys.contains(self.start()),
            forall|c: Set<int>, a: T|
                keys.contains(c) && self.enabled(c, a) ==> keys.contains(#[trigger] self.step(c, a)),
            self.runnable(word),
        ensures
            keys.contains(self.run(word)),
        decreases word.len(),
    {
        if word.len() > 0 {
            self.lemma_run_stays(keys, word.drop_last());
        }
    }

    /// Every node reaches itself.
    pub proof fn lemma_reach_self(self, p: int)
        ensures
            self.eps_reach(p, p),
    {
        let path = seq![p];
        assert(self.eps_path(path) && path.first() == p && path.last() == p);
    }

    /// What reaches the source of an epsilon edge reaches its target.
    pub proof fn lemma_reach_step(self, p: int, q: int, r: int)
        requires
            self.eps_reach(p, q),
            self.has_edge(q, None, r),
        ensures
            self.eps_reach(p, r),
    {
        let path = choose|path: Seq<int>|
            #![auto]
            self.eps_path(path) && path.first() == p && path.last() == q;
        let longer = path.push(r);
        assert forall|i: int| 0 <= i < longer.len() - 1 implies self.has_edge(
            #[trigger] longer[i],
            None,
            longer[i + 1],
        ) by {
            if i < path.len() - 1 {
                assert(self.has_edge(path[i], None, path[i + 1]));
            }
        }
        assert(self.eps_path(longer) && longer.first() == p && longer.last() == r);
    }

    /// A walk along epsilon edges that starts in a set which no epsilon edge
    /// leaves stays in it.
    proof fn lemma_path_stays(self, s: Set<int>, path: Seq<int>, i: int)
        requires
            self.eps_closed(s),
            self.eps_path(path),
            s.contains(path.first()),
            0 <= i < path.len(),
        ensures
            s.contains(path[i]),
        decreases i,
    {
        if i > 0 {
            self.lemma_path_stays(s, path, i - 1);
            assert(self.has_edge(path[i - 1], None, path[i - 1 + 1]));
        }
    }

    /// The closure of `p` is the least set that holds `p` and that no epsilon
    /// edge leaves.
    pub proof fn lemma_closure_least(self, s: Set<int>, p: int)
        requires
            self.eps_closed(s),
            s.contains(p),
        ensures
            self.closure(p).subset_of(s),
    {
        assert forall|q: int| self.closure(p).contains(q) implies s.contains(q) by {
            let path = choose|path: Seq<int>|
                #![auto]
                self.eps_path(path) && path.first() == p && path.last() == q;
            self.lemma_path_stays(s, path, path.len() - 1);
        }
    }

    /// No epsilon edge leaves a closure.
    pub proof fn lemma_closure_closed(self, p: int)
        ensures
            self.eps_closed(self.closure(p)),
            self.closure(p).contains(p),
    {
        self.lemma_reach_self(p);
        assert forall|x: int, y: int|
            self.closure(p).contains(x) && #[trigger] self.has_edge(x, None, y) implies self.closure(
            p,
        ).contains(y) by {
            self.lemma_reach_step(p, x, y);
        }
    }

    /// Taking the closure again adds nothing: the closure of a node of a
    /// closure lies within that closure, whatever cycles of epsilon edges
    /// the graph holds.
    pub proof fn lemma_closure_idempotent(self, p: int, q: int)
        requires
            self.closure(p).contains(q),
        ensures
            self.closure(q).subset_of(self.closure(p)),
    {
        self.lemma_closure_closed(p);
        self.lemma_closure_least(self.closure(p), q);
    }
}

} // verus!
