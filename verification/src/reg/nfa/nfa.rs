//! The finished automaton: a table from each state to its edges.
use vstd::prelude::*;
use std::collections::VecDeque;
use crate::reg::dfa::Dfa;
use crate::reg::dot::{
    edges_text, graph_dot, node_text, nodes_text, push_edge, push_node_end, push_quoted_number,
    quoted_number, row_text,
};
use crate::reg::graph::Graph;
use crate::reg::nfa::builder::{edge_views, thompson, NfaBuilder};
use crate::reg::re::Re;
use crate::reg::state_set::StateSet;
use crate::reg::symbol::Symbol;
use crate::reg::text::push_text;

verus! {

/// The edges of the states of an automaton: the row at place `s` lists the
/// edges that leave state `s`, each with its label and its target state.
pub type NfaTable<T> = Vec<Vec<(Option<T>, usize)>>;

/// The edges of one row as pairs of a label and the number of the target.
pub open spec fn row_view<T>(row: Seq<(Option<T>, usize)>) -> Seq<(Option<T>, int)> {
    row.map_values(|e: (Option<T>, usize)| (e.0, e.1 as int))
}

/// The edge lists of a table, state by state.
pub open spec fn table_view<T>(table: Seq<Vec<(Option<T>, usize)>>) -> Seq<Seq<(Option<T>, int)>> {
    table.map_values(|row: Vec<(Option<T>, usize)>| row_view(row@))
}

/// A nondeterministic automaton with epsilon edges. Its states are the
/// numbers from zero up to the number of rows of its table.
pub struct Nfa<T> {
    states: NfaTable<T>,
    head: usize,
    tail: usize,
}

impl<T> View for Nfa<T> {
    type V = Graph<T>;

    closed spec fn view(&self) -> Graph<T> {
        Graph { nodes: table_view(self.states@), head: self.head as int, tail: self.tail as int }
    }
}

impl<T> Nfa<T> {
    /// Takes the automaton apart: its table, its head and its tail.
    pub fn into_parts(self) -> (parts: (NfaTable<T>, usize, usize))
        ensures
            table_view(parts.0@) == self@.nodes,
            parts.1 as int == self@.head,
            parts.2 as int == self@.tail,
    {
        (self.states, self.head, self.tail)
    }
}

impl<T: Symbol> Nfa<T> {
    /// Turns the graph of a builder into a table. Each node becomes the state
    /// with the node's number, and each edge an entry in the row of its
    /// source, so the table has as many states as the builder had nodes and
    /// the same head, tail and edges.
    pub fn from(builder: NfaBuilder<T>) -> (nfa: Self)
        requires
            builder@.wf(),
        ensures
            nfa@ == builder@,
            nfa@.nodes.len() == builder@.nodes.len(),
            nfa@.wf(),
    {
        let ghost graph = builder@;
        let (mut nodes, head, tail) = builder.into_parts();
        let mut states: NfaTable<T> = Vec::new();
        let mut i: usize = 0;
        while i < nodes.len()
            invariant
                i <= nodes.len(),
                nodes.len() == graph.nodes.len(),
                states.len() == i,
                forall|k: int| i <= k < nodes.len() ==> (#[trigger] nodes[k])@ == graph.nodes[k],
                forall|k: int| 0 <= k < i ==> row_view((#[trigger] states[k])@) == graph.nodes[k],
            decreases nodes.len() - i,
        {
            let outs = nodes[i].take_outs();
            let mut row: Vec<(Option<T>, usize)> = Vec::new();
            let mut j: usize = 0;
            while j < outs.len()
                invariant
                    j <= outs.len(),
                    row.len() == j,
                    row_view(row@) == edge_views(outs@).subrange(0, j as int),
                decreases outs.len() - j,
            {
                let ghost before = row@;
                let (by, to) = outs[j];
                row.push((by, to.index));
                assert forall|k: int| 0 <= k < j + 1 implies row_view(row@)[k] == edge_views(
                    outs@,
                )[k] by {
                    if k < j {
                        assert(row_view(before)[k] == edge_views(outs@).subrange(0, j as int)[k]);
                    }
                }
                assert(row_view(row@) =~= edge_views(outs@).subrange(0, j + 1));
                j = j + 1;
            }
            assert(edge_views(outs@).subrange(0, outs.len() as int) =~= edge_views(outs@));
            states.push(row);
            i = i + 1;
        }
        let nfa = Nfa { states, head: head.index, tail: tail.index };
        assert(nfa@.nodes =~= graph.nodes);
        nfa
    }
}

/// Whether `y` waits in the queue `q`.
pub open spec fn queued(q: Seq<usize>, y: int) -> bool {
    exists|i: int| 0 <= i < q.len() && #[trigger] q[i] as int == y
}

/// Every member of `s` is a number from `0` up to, not including, `n`.
pub open spec fn below(s: Set<int>, n: int) -> bool {
    forall|x: int| s.contains(x) ==> 0 <= x < n
}

impl<T: Symbol> Nfa<T> {
    /// The automaton of `re`: Thompson's construction, finished as a table.
    pub fn from_re(re: &Re<T>) -> (nfa: Self)
        ensures
            nfa@ == thompson(*re),
            nfa@.wf(),
            nfa@.nodes.len() == 2 * re.size(),
    {
        Nfa::from(NfaBuilder::from(re.clone()))
    }

    /// The deterministic automaton of the subset construction. A state of
    /// it accepts if and only if it holds the tail of `self`, and it accepts
    /// the words that `self` accepts (`lemma_determinized_accepts`).
    pub fn build_dfa(self) -> (dfa: Dfa<T>)
        requires
            self@.wf(),
        ensures
            dfa@ == self@.determinized(),
            dfa.wf(),
            forall|c: Set<int>|
                dfa@.table.dom().contains(c) ==> (dfa@.accept.contains(c) <==> c.contains(
                    self@.tail,
                )),
    {
        Dfa::from(self)
    }

    /// A description of the automaton for drawing: a line for each state,
    /// the tail with a double border, and a line for each edge, an edge
    /// without a symbol labelled with a lambda.
    pub fn dot(&self) -> (s: String)
        ensures
            s@ == graph_dot(self@),
    {
        let ghost g = self@;
        let mut s = String::new();
        push_text(&mut s, "digraph{edge[arrowhead=normal,arrowtail=dot];");
        let ghost opening = s@;
        let mut i: usize = 0;
        while i < self.states.len()
            invariant
                i <= self.states.len(),
                g == self@,
                s@ == opening + nodes_text(g, i as nat),
            decreases self.states.len() - i,
        {
            let ghost before = s@;
            push_quoted_number(&mut s, i);
            push_node_end(&mut s, i == self.tail);
            assert(s@ =~= before + node_text(quoted_number(i as nat), i as int == g.tail));
            i = i + 1;
        }
        let ghost listed = s@;
        let mut i: usize = 0;
        while i < self.states.len()
            invariant
                i <= self.states.len(),
                g == self@,
                s@ == listed + edges_text(g, i as nat),
            decreases self.states.len() - i,
        {
            let ghost before = s@;
            let row = &self.states[i];
            let mut j: usize = 0;
            while j < row.len()
                invariant
                    j <= row.len(),
                    g == self@,
                    i < self.states.len(),
                    row_view(row@) == g.nodes[i as int],
                    s@ == before + row_text(i as nat, g.nodes[i as int], j as nat),
                decreases row.len() - j,
            {
                push_edge(&mut s, i, &row[j].0, row[j].1);
                assert(g.nodes[i as int][j as int] == (row[j as int].0, row[j as int].1 as int));
                assert(s@ =~= before + row_text(i as nat, g.nodes[i as int], (j + 1) as nat));
                j = j + 1;
            }
            assert(s@ =~= listed + edges_text(g, (i + 1) as nat));
            i = i + 1;
        }
        push_text(&mut s, "}");
        assert(s@ =~= graph_dot(g));
        s
    }

    /// The number of states.
    pub fn len(&self) -> (n: usize)
        ensures
            n == self@.nodes.len(),
    {
        self.states.len()
    }

    /// The state at which every run starts.
    pub fn head(&self) -> (head: usize)
        ensures
            head as int == self@.head,
    {
        self.head
    }

    /// The state at which an accepting run ends.
    pub fn tail(&self) -> (tail: usize)
        ensures
            tail as int == self@.tail,
    {
        self.tail
    }

    /// The edges that leave `state`.
    pub fn edges(&self, state: usize) -> (row: &Vec<(Option<T>, usize)>)
        requires
            state < self@.nodes.len(),
        ensures
            row_view(row@) == self@.nodes[state as int],
    {
        &self.states[state]
    }

    /// Adds to `set` all that can be reached from `state` along epsilon edges
    /// alone, `state` itself included. The set must be one that no epsilon
    /// edge leaves, as the empty set is, and as this function leaves it.
    pub(crate) fn collect_states(&self, state: usize, set: &mut StateSet)
        requires
            self@.wf(),
            state < self@.nodes.len(),
            old(set).wf(),
            below(old(set)@, self@.nodes.len() as int),
            self@.eps_closed(old(set)@),
        ensures
            final(set).wf(),
            final(set)@ == old(set)@.union(self@.closure(state as int)),
            below(final(set)@, self@.nodes.len() as int),
            self@.eps_closed(final(set)@),
    {
        let ghost g = self@;
        let ghost n = self@.nodes.len() as int;
        let ghost start = set@;
        let mut q: VecDeque<usize> = VecDeque::new();
        q.push_back(state);
        proof {
            g.lemma_reach_self(state as int);
            assert(q@[0] as int == state as int);
            set.lemma_bounded(n);
        }
        while q.len() > 0
            invariant
                g == self@,
                n == g.nodes.len(),
                g.wf(),
                0 <= state < n,
                set.wf(),
                below(set@, n),
                set.listing().len() <= n,
                start.subset_of(set@),
                forall|x: int| set@.contains(x) ==> start.contains(x) || g.eps_reach(state as int, x),
                forall|i: int| 0 <= i < q@.len() ==> (#[trigger] q@[i]) < n,
                forall|i: int| 0 <= i < q@.len() ==> g.eps_reach(state as int, (#[trigger] q@[i]) as int),
                set@.contains(state as int) || queued(q@, state as int),
                forall|x: int, y: int|
                    set@.contains(x) && #[trigger] g.has_edge(x, None, y) ==> set@.contains(y)
                        || queued(q@, y),
            decreases n - set.listing().len(), q@.len(),
        {
            let ghost q_before = q@;
            let ghost set_before = set@;
            let curr = q.pop_front().unwrap();
            assert(curr == q_before[0]);
            assert forall|y: int| queued(q_before, y) implies y == curr as int || queued(q@, y) by {
                let i = choose|i: int| 0 <= i < q_before.len() && #[trigger] q_before[i] as int == y;
                if i > 0 {
                    assert(q@[i - 1] == q_before[i]);
                }
            }
            assert forall|i: int| 0 <= i < q@.len() implies (#[trigger] q@[i]) < n && g.eps_reach(
                state as int,
                q@[i] as int,
            ) by {
                assert(q@[i] == q_before[i + 1]);
            }
            if set.insert(curr) {
                proof {
                    set.lemma_bounded(n);
                }
                let row = self.edges(curr);
                let ghost q_mid = q@;
                let mut j: usize = 0;
                while j < row.len()
                    invariant
                        j <= row.len(),
                        g == self@,
                        n == g.nodes.len(),
                        g.wf(),
                        0 <= curr < n,
                        row_view(row@) == g.nodes[curr as int],
                        g.eps_reach(state as int, curr as int),
                        forall|i: int| 0 <= i < q@.len() ==> (#[trigger] q@[i]) < n,
                        forall|i: int|
                            0 <= i < q@.len() ==> g.eps_reach(
                                state as int,
                                (#[trigger] q@[i]) as int,
                            ),
                        forall|y: int| queued(q_mid, y) ==> queued(q@, y),
                        forall|k: int|
                            0 <= k < j && (#[trigger] g.nodes[curr as int][k]).0 is None ==> queued(
                                q@,
                                g.nodes[curr as int][k].1,
                            ),
                    decreases row.len() - j,
                {
                    let ghost q_old = q@;
                    let (by, to) = row[j];
                    assert(g.nodes[curr as int][j as int] == (by, to as int));
                    if by.is_none() {
                        q.push_back(to);
                        proof {
                            assert(g.nodes[curr as int].contains((None, to as int)));
                            assert(g.has_edge(curr as int, None, to as int));
                            g.lemma_reach_step(state as int, curr as int, to as int);
                            assert(q@[q_old.len() as int] as int == to as int);
                            assert forall|y: int| queued(q_old, y) implies queued(q@, y) by {
                                let i = choose|i: int|
                                    0 <= i < q_old.len() && #[trigger] q_old[i] as int == y;
                                assert(q@[i] == q_old[i]);
                            }
                        }
                    }
                    j = j + 1;
                }
                proof {
                    assert forall|x: int, y: int|
                        set@.contains(x) && #[trigger] g.has_edge(x, None, y) implies set@.contains(y)
                            || queued(q@, y) by {
                        if x == curr as int {
                            let k = choose|k: int|
                                0 <= k < g.nodes[x].len() && g.nodes[x][k] == (None::<T>, y);
                            assert(g.nodes[curr as int][k].0 is None);
                        } else {
                            assert(set_before.contains(x));
                        }
                    }
                }
            }
        }
        proof {
            assert forall|x: int, y: int| set@.contains(x) && #[trigger] g.has_edge(x, None, y) implies set@.contains(
                y,
            ) by {
                if queued(q@, y) {
                }
            }
            g.lemma_closure_least(set@, state as int);
            assert(set@ =~= start.union(g.closure(state as int)));
        }
    }

    /// The epsilon-closure of `state`: all that can be reached from it along
    /// epsilon edges alone, `state` itself included.
    pub fn epsilon_closure(&self, state: usize) -> (set: StateSet)
        requires
            self@.wf(),
            state < self@.nodes.len(),
        ensures
            set.wf(),
            set@ == self@.closure(state as int),
            below(set@, self@.nodes.len() as int),
    {
        let mut set = StateSet::new();
        self.collect_states(state, &mut set);
        assert(set@ =~= self@.closure(state as int));
        set
    }
}

} // verus!
