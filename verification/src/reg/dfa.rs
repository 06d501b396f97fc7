//! The subset construction: from a nondeterministic automaton to a
//! deterministic one whose states are sets of the other's states.
use vstd::prelude::*;
use std::collections::VecDeque;
use crate::reg::dot::{edge_text, label_text, node_text, push_label, push_node_end};
use crate::reg::graph::{lemma_subsets_finite, subsets_below, DfaView, Graph};
use crate::reg::nfa::nfa::{below, row_view, Nfa};
use crate::reg::state_set::StateSet;
use crate::reg::symbol::Symbol;
use crate::reg::text::{decimal, push_char, push_decimal, push_text};

verus! {

/// The transitions that leave one state: each symbol that the state can
/// read, once, with the state that it leads to.
pub type DfaRow<T> = Vec<(T, StateSet)>;

/// The states of a deterministic automaton, each with its transitions.
pub type DfaTable<T> = Vec<(StateSet, DfaRow<T>)>;

/// `moves` lists an edge with the symbol `a` to the state `t`.
spec fn moved<T>(moves: Seq<(T, usize)>, a: T, t: int) -> bool {
    exists|i: int| 0 <= i < moves.len() && (#[trigger] moves[i]).0 == a && moves[i].1 as int == t
}

/// Some state of `c` has an edge with the symbol `a` to the state `t`.
spec fn moves_from<T>(g: Graph<T>, c: Set<int>, a: T, t: int) -> bool {
    exists|p: int| c.contains(p) && #[trigger] g.has_edge(p, Some(a), t)
}

/// The edges with a symbol that leave the states of `curr`, each as the
/// symbol and the target.
fn symbol_moves<T: Symbol>(nfa: &Nfa<T>, curr: &StateSet) -> (moves: Vec<(T, usize)>)
    requires
        nfa@.wf(),
        below(curr@, nfa@.nodes.len() as int),
    ensures
        forall|i: int| 0 <= i < moves.len() ==> (#[trigger] moves[i]).1 < nfa@.nodes.len(),
        forall|a: T, t: int| #[trigger] moved(moves@, a, t) <==> moves_from(nfa@, curr@, a, t),
{
    let ghost g = nfa@;
    let ghost n = nfa@.nodes.len() as int;
    let ghost members = curr.listing();
    let mut moves: Vec<(T, usize)> = Vec::new();
    let mut mi: usize = 0;
    while mi < curr.len()
        invariant
            mi <= curr.listing().len(),
            g == nfa@,
            n == g.nodes.len(),
            g.wf(),
            members == curr.listing(),
            below(curr@, n),
            forall|i: int| 0 <= i < moves.len() ==> (#[trigger] moves[i]).1 < n,
            forall|i: int|
                0 <= i < moves.len() ==> moves_from(
                    g,
                    curr@,
                    (#[trigger] moves[i]).0,
                    moves[i].1 as int,
                ),
            forall|m: int, k: int|
                0 <= m < mi && 0 <= k < g.nodes[members[m]].len() && (
                #[trigger] g.nodes[members[m]][k]).0 is Some ==> moved(
                    moves@,
                    g.nodes[members[m]][k].0->0,
                    g.nodes[members[m]][k].1,
                ),
        decreases curr.listing().len() - mi,
    {
        let p = curr.get(mi);
        assert(members.contains(p as int));
        assert(curr@.contains(p as int));
        let row = nfa.edges(p);
        let mut ei: usize = 0;
        while ei < row.len()
            invariant
                ei <= row.len(),
                mi < curr.listing().len(),
                g == nfa@,
                n == g.nodes.len(),
                g.wf(),
                members == curr.listing(),
                p as int == members[mi as int],
                curr@.contains(p as int),
                0 <= p < n,
                row_view(row@) == g.nodes[p as int],
                forall|i: int| 0 <= i < moves.len() ==> (#[trigger] moves[i]).1 < n,
                forall|i: int|
                    0 <= i < moves.len() ==> moves_from(
                        g,
                        curr@,
                        (#[trigger] moves[i]).0,
                        moves[i].1 as int,
                    ),
                forall|m: int, k: int|
                    0 <= m < mi && 0 <= k < g.nodes[members[m]].len() && (
                    #[trigger] g.nodes[members[m]][k]).0 is Some ==> moved(
                        moves@,
                        g.nodes[members[m]][k].0->0,
                        g.nodes[members[m]][k].1,
                    ),
                forall|k: int|
                    0 <= k < ei && (#[trigger] g.nodes[p as int][k]).0 is Some ==> moved(
                        moves@,
                        g.nodes[p as int][k].0->0,
                        g.nodes[p as int][k].1,
                    ),
            decreases row.len() - ei,
        {
            let ghost before = moves@;
            let (by, to) = row[ei];
            assert(g.nodes[p as int][ei as int] == (by, to as int));
            match by {
                Some(a) => {
                    moves.push((a, to));
                    proof {
                        assert(g.nodes[p as int].contains((Some(a), to as int)));
                        assert(g.has_edge(p as int, Some(a), to as int));
                        assert(moves_from(g, curr@, a, to as int));
                        assert(moves@[before.len() as int] == (a, to));
                        assert forall|b: T, t: int| moved(before, b, t) implies moved(moves@, b, t) by {
                            let i = choose|i: int|
                                0 <= i < before.len() && (#[trigger] before[i]).0 == b
                                    && before[i].1 as int == t;
                            assert(moves@[i] == before[i]);
                        }
                        assert forall|i: int| 0 <= i < moves.len() implies moves_from(
                            g,
                            curr@,
                            (#[trigger] moves[i]).0,
                            moves[i].1 as int,
                        ) by {
                            if i < before.len() {
                                assert(moves@[i] == before[i]);
                            }
                        }
                    }
                },
                None => {},
            }
            ei = ei + 1;
        }
        mi = mi + 1;
    }
    proof {
        assert forall|a: T, t: int| #[trigger] moved(moves@, a, t) <==> moves_from(g, curr@, a, t) by {
            if moves_from(g, curr@, a, t) {
                let p = choose|p: int| curr@.contains(p) && #[trigger] g.has_edge(p, Some(a), t);
                let m = choose|m: int| 0 <= m < members.len() && members[m] == p;
                let k = choose|k: int|
                    0 <= k < g.nodes[p].len() && g.nodes[p][k] == (Some(a), t);
                assert(g.nodes[members[m]][k].0 is Some);
            }
            if moved(moves@, a, t) {
                let i = choose|i: int|
                    0 <= i < moves.len() && (#[trigger] moves[i]).0 == a && moves[i].1 as int == t;
                assert(moves_from(g, curr@, moves[i].0, moves[i].1 as int));
            }
        }
    }
    moves
}

/// `row` has a transition on the symbol `a`.
pub open spec fn has_symbol<T>(row: Seq<(T, StateSet)>, a: T) -> bool {
    exists|j: int| 0 <= j < row.len() && (#[trigger] row[j]).0 == a
}

/// One of the first `upto` edges of `moves` has the symbol `a`.
spec fn seen_symbol<T>(moves: Seq<(T, usize)>, upto: int, a: T) -> bool {
    exists|i: int| 0 <= i < upto && (#[trigger] moves[i]).0 == a
}

/// The state `r` can be reached along epsilon edges from the target of one
/// of the first `upto` edges of `moves` that have the symbol `a`.
spec fn gathered<T>(g: Graph<T>, moves: Seq<(T, usize)>, upto: int, a: T, r: int) -> bool {
    exists|i: int|
        0 <= i < upto && (#[trigger] moves[i]).0 == a && g.eps_reach(moves[i].1 as int, r)
}

/// `row` holds the transitions of the state `c` of the deterministic
/// automaton of `g`: one for each symbol that `c` can read and for no
/// other, each to the step from `c` on its symbol.
spec fn row_of<T>(g: Graph<T>, c: Set<int>, row: Seq<(T, StateSet)>) -> bool {
    &&& forall|j: int|
        0 <= j < row.len() ==> (#[trigger] row[j]).1.wf() && below(row[j].1@, g.nodes.len() as int)
            && row[j].1@ == g.step(c, row[j].0)
    &&& forall|a: T| #[trigger] has_symbol(row, a) <==> g.enabled(c, a)
    &&& forall|j: int, k: int|
        0 <= j < row.len() && 0 <= k < row.len() && j != k ==> (#[trigger] row[j]).0 != (
        #[trigger] row[k]).0
}

/// The place of the transition on `a` in `row`, if there is one.
fn find_symbol<T: Symbol>(row: &Vec<(T, StateSet)>, a: &T) -> (place: Option<usize>)
    ensures
        match place {
            Some(j) => j < row.len() && row[j as int].0 == *a,
            None => !has_symbol(row@, *a),
        },
{
    let mut j: usize = 0;
    while j < row.len()
        invariant
            j <= row.len(),
            forall|k: int| 0 <= k < j ==> (#[trigger] row[k]).0 != *a,
        decreases row.len() - j,
    {
        if row[j].0.same(a) {
            return Some(j);
        }
        j = j + 1;
    }
    None
}

/// The transitions that leave the state `curr` of the deterministic
/// automaton: for each symbol on an edge out of a member of `curr`, the
/// targets of all such edges and whatever they reach along epsilon edges.
fn successors<T: Symbol>(nfa: &Nfa<T>, curr: &StateSet) -> (row: Vec<(T, StateSet)>)
    requires
        nfa@.wf(),
        below(curr@, nfa@.nodes.len() as int),
    ensures
        row_of(nfa@, curr@, row@),
{
    let ghost g = nfa@;
    let ghost n = nfa@.nodes.len() as int;
    let ghost c = curr@;
    let moves = symbol_moves(nfa, curr);
    let mut outs: Vec<(T, StateSet)> = Vec::new();
    let mut idx: usize = 0;
    while idx < moves.len()
        invariant
            idx <= moves.len(),
            g == nfa@,
            n == g.nodes.len(),
            g.wf(),
            forall|i: int| 0 <= i < moves.len() ==> (#[trigger] moves[i]).1 < n,
            forall|j: int|
                0 <= j < outs.len() ==> (#[trigger] outs[j]).1.wf() && below(outs[j].1@, n)
                    && g.eps_closed(outs[j].1@),
            forall|j: int, k: int|
                0 <= j < outs.len() && 0 <= k < outs.len() && j != k ==> (#[trigger] outs[j]).0 != (
                #[trigger] outs[k]).0,
            forall|j: int, r: int|
                0 <= j < outs.len() ==> ((#[trigger] outs[j]).1@.contains(r) <==> #[trigger] gathered(
                    g,
                    moves@,
                    idx as int,
                    outs[j].0,
                    r,
                )),
            forall|a: T| #[trigger] has_symbol(outs@, a) <==> seen_symbol(moves@, idx as int, a),
        decreases moves.len() - idx,
    {
        let (a, t) = moves[idx];
        let ghost before = outs@;
        let found = find_symbol(&outs, &a);
        let j: usize = match found {
            Some(j) => j,
            None => {
                outs.push((a, StateSet::new()));
                outs.len() - 1
            },
        };
        let ghost mid = outs@;
        proof {
            assert(mid[j as int].0 == a);
            assert forall|k: int| 0 <= k < mid.len() && k != j implies (#[trigger] mid[k]) == before[k]
                && mid[k].0 != a by {
                if found is None {
                    assert(before[k].0 != a) by {
                        if before[k].0 == a {
                            assert(has_symbol(before, a));
                        }
                    }
                }
            }
            assert forall|r: int| mid[j as int].1@.contains(r) <==> gathered(
                g,
                moves@,
                idx as int,
                a,
                r,
            ) by {
                if found is None {
                    if gathered(g, moves@, idx as int, a, r) {
                        let i = choose|i: int|
                            0 <= i < idx && (#[trigger] moves@[i]).0 == a && g.eps_reach(
                                moves@[i].1 as int,
                                r,
                            );
                        assert(seen_symbol(moves@, idx as int, a));
                        assert(has_symbol(before, a));
                    }
                } else {
                    assert(mid[j as int] == before[j as int]);
                }
            }
        }
        nfa.collect_states(t, &mut outs[j].1);
        proof {
            assert(outs@.len() == mid.len());
            assert(outs@[j as int].0 == a);
            assert forall|k: int| 0 <= k < outs.len() && k != j implies #[trigger] outs@[k] == mid[k] by {}
            assert forall|k: int, r: int| 0 <= k < outs.len() implies ((#[trigger] outs[k]).1@.contains(
                r,
            ) <==> #[trigger] gathered(g, moves@, idx + 1, outs[k].0, r)) by {
                if k == j {
                    if gathered(g, moves@, idx + 1, a, r) {
                        let i = choose|i: int|
                            0 <= i < idx + 1 && (#[trigger] moves@[i]).0 == a && g.eps_reach(
                                moves@[i].1 as int,
                                r,
                            );
                        if i < idx {
                            assert(gathered(g, moves@, idx as int, a, r));
                        }
                    }
                    if mid[j as int].1@.contains(r) {
                        let i = choose|i: int|
                            0 <= i < idx && (#[trigger] moves@[i]).0 == a && g.eps_reach(
                                moves@[i].1 as int,
                                r,
                            );
                        assert(gathered(g, moves@, idx + 1, a, r));
                    }
                    if g.eps_reach(t as int, r) {
                        assert(moves@[idx as int].0 == a);
                        assert(gathered(g, moves@, idx + 1, a, r));
                    }
                } else {
                    let b = outs[k].0;
                    assert(outs@[k] == mid[k]);
                    assert(mid[k] == before[k]);
                    if gathered(g, moves@, idx + 1, b, r) {
                        let i = choose|i: int|
                            0 <= i < idx + 1 && (#[trigger] moves@[i]).0 == b && g.eps_reach(
                                moves@[i].1 as int,
                                r,
                            );
                        assert(i < idx);
                        assert(gathered(g, moves@, idx as int, b, r));
                    }
                    if gathered(g, moves@, idx as int, b, r) {
                        let i = choose|i: int|
                            0 <= i < idx && (#[trigger] moves@[i]).0 == b && g.eps_reach(
                                moves@[i].1 as int,
                                r,
                            );
                        assert(gathered(g, moves@, idx + 1, b, r));
                    }
                }
            }
            assert forall|b: T| #[trigger] has_symbol(outs@, b) <==> seen_symbol(
                moves@,
                idx + 1,
                b,
            ) by {
                if has_symbol(outs@, b) {
                    let k = choose|k: int| 0 <= k < outs@.len() && (#[trigger] outs@[k]).0 == b;
                    if k == j {
                        assert(moves@[idx as int].0 == b);
                    } else {
                        assert(before[k].0 == b);
                        assert(has_symbol(before, b));
                        let i = choose|i: int| 0 <= i < idx && (#[trigger] moves@[i]).0 == b;
                        assert(seen_symbol(moves@, idx + 1, b));
                    }
                }
                if seen_symbol(moves@, idx + 1, b) {
                    let i = choose|i: int| 0 <= i < idx + 1 && (#[trigger] moves@[i]).0 == b;
                    if i < idx {
                        assert(seen_symbol(moves@, idx as int, b));
                        assert(has_symbol(before, b));
                        let k = choose|k: int| 0 <= k < before.len() && (#[trigger] before[k]).0 == b;
                        assert(mid[k] == before[k]);
                        assert(outs@[k].0 == b);
                    } else {
                        assert(outs@[j as int].0 == b);
                    }
                }
            }
            assert forall|k: int, l: int|
                0 <= k < outs.len() && 0 <= l < outs.len() && k != l implies (#[trigger] outs[k]).0 != (
            #[trigger] outs[l]).0 by {
                if k != j && l != j {
                    assert(before[k].0 != before[l].0);
                }
            }
        }
        idx = idx + 1;
    }
    proof {
        assert forall|a: T| #[trigger] has_symbol(outs@, a) <==> g.enabled(c, a) by {
            if seen_symbol(moves@, idx as int, a) {
                let i = choose|i: int| 0 <= i < idx && (#[trigger] moves@[i]).0 == a;
                assert(moved(moves@, a, moves@[i].1 as int));
                assert(moves_from(g, c, a, moves@[i].1 as int));
            }
            if g.enabled(c, a) {
                let (p, q) = choose|p: int, q: int|
                    c.contains(p) && #[trigger] g.has_edge(p, Some(a), q);
                assert(moves_from(g, c, a, q));
                assert(moved(moves@, a, q));
            }
        }
        assert forall|j: int| 0 <= j < outs.len() implies (#[trigger] outs[j]).1@ == g.step(
            c,
            outs[j].0,
        ) by {
            let a = outs[j].0;
            assert forall|r: int| outs[j].1@.contains(r) <==> g.step(c, a).contains(r) by {
                if gathered(g, moves@, idx as int, a, r) {
                    let i = choose|i: int|
                        0 <= i < idx && (#[trigger] moves@[i]).0 == a && g.eps_reach(
                            moves@[i].1 as int,
                            r,
                        );
                    assert(moved(moves@, a, moves@[i].1 as int));
                    assert(moves_from(g, c, a, moves@[i].1 as int));
                }
                if g.step(c, a).contains(r) {
                    let (p, q) = choose|p: int, q: int|
                        c.contains(p) && #[trigger] g.has_edge(p, Some(a), q) && g.eps_reach(q, r);
                    assert(moves_from(g, c, a, q));
                    assert(moved(moves@, a, q));
                    let i = choose|i: int|
                        0 <= i < moves@.len() && (#[trigger] moves@[i]).0 == a && moves@[i].1 as int
                            == q;
                    assert(gathered(g, moves@, idx as int, a, r));
                }
            }
            assert(outs[j].1@ =~= g.step(c, a));
        }
    }
    outs
}

/// `table` has the state `c`.
pub open spec fn is_key<T>(table: Seq<(StateSet, Vec<(T, StateSet)>)>, c: Set<int>) -> bool {
    exists|i: int| 0 <= i < table.len() && (#[trigger] table[i]).0@ == c
}

/// `sets` lists the set `c`.
pub open spec fn listed(sets: Seq<StateSet>, c: Set<int>) -> bool {
    exists|k: int| 0 <= k < sets.len() && (#[trigger] sets[k])@ == c
}

/// The transitions of `row` as a map from the symbol to the target.
pub open spec fn row_map<T>(row: Seq<(T, StateSet)>) -> Map<T, Set<int>> {
    Map::new(
        |a: T| has_symbol(row, a),
        |a: T| row[choose|j: int| 0 <= j < row.len() && (#[trigger] row[j]).0 == a].1@,
    )
}

/// The states of `table` as a map from the state to its transitions.
pub open spec fn table_map<T>(table: Seq<(StateSet, Vec<(T, StateSet)>)>) -> Map<
    Set<int>,
    Map<T, Set<int>>,
> {
    Map::new(
        |c: Set<int>| is_key(table, c),
        |c: Set<int>|
            row_map(table[choose|i: int| 0 <= i < table.len() && (#[trigger] table[i]).0@ == c].1@),
    )
}

/// Each entry of `table` is a state of the deterministic automaton of `g`,
/// in canonical form and listed once, with the transitions of that state.
spec fn table_of<T>(g: Graph<T>, table: Seq<(StateSet, Vec<(T, StateSet)>)>) -> bool {
    &&& forall|i: int|
        0 <= i < table.len() ==> (#[trigger] table[i]).0.wf() && below(
            table[i].0@,
            g.nodes.len() as int,
        ) && g.dfa_state(table[i].0@) && row_of(g, table[i].0@, table[i].1@)
    &&& forall|i: int, j: int|
        0 <= i < table.len() && 0 <= j < table.len() && i != j ==> (#[trigger] table[i]).0@ != (
        #[trigger] table[j]).0@
}

/// A table that holds every state of the deterministic automaton of `g`,
/// each with its transitions, is the table of that automaton.
proof fn lemma_table_map<T>(g: Graph<T>, table: Seq<(StateSet, Vec<(T, StateSet)>)>)
    requires
        table_of(g, table),
        forall|c: Set<int>| g.dfa_state(c) ==> is_key(table, c),
    ensures
        table_map(table) == g.determinized().table,
{
    let want = g.determinized().table;
    let have = table_map(table);
    assert forall|c: Set<int>| have.dom().contains(c) <==> want.dom().contains(c) by {
        if is_key(table, c) {
            let i = choose|i: int| 0 <= i < table.len() && (#[trigger] table[i]).0@ == c;
            assert(g.dfa_state(table[i].0@));
        }
    }
    assert forall|c: Set<int>| #[trigger] have.dom().contains(c) implies have[c] == want[c] by {
        let i = choose|i: int| 0 <= i < table.len() && (#[trigger] table[i]).0@ == c;
        let row = table[i].1@;
        assert(row_of(g, c, row));
        assert forall|a: T| row_map(row).dom().contains(a) <==> want[c].dom().contains(a) by {
            assert(has_symbol(row, a) <==> g.enabled(c, a));
        }
        assert forall|a: T| #[trigger] row_map(row).dom().contains(a) implies row_map(row)[a]
            == want[c][a] by {
            let j = choose|j: int| 0 <= j < row.len() && (#[trigger] row[j]).0 == a;
            assert(row[j].1@ == g.step(c, row[j].0));
        }
        assert(row_map(row) =~= want[c]);
    }
    assert(have =~= want);
}

/// A deterministic automaton made by the subset construction. Each of its
/// states is a set of states of the automaton that it was made from.
pub struct Dfa<T> {
    states: DfaTable<T>,
    start: StateSet,
    accept: Vec<StateSet>,
}

impl<T> Dfa<T> {
    /// The states in the order in which they were found, each with its
    /// transitions in the order in which their symbols were found.
    pub closed spec fn table(&self) -> Seq<(StateSet, Vec<(T, StateSet)>)> {
        self.states@
    }

    /// The start state as it is kept.
    pub closed spec fn initial(&self) -> StateSet {
        self.start
    }

    /// The accepting states in the order in which they were found.
    pub closed spec fn accepting(&self) -> Seq<StateSet> {
        self.accept@
    }

    /// The sets are kept in canonical form; no state is listed twice, no
    /// state has two transitions on one symbol, and no accepting state is
    /// listed twice.
    pub open spec fn wf(&self) -> bool {
        &&& self.initial().wf()
        &&& forall|i: int| 0 <= i < self.table().len() ==> (#[trigger] self.table()[i]).0.wf()
        &&& forall|i: int, j: int|
            0 <= i < self.table().len() && 0 <= j < self.table()[i].1.len() ==> (
            #[trigger] self.table()[i].1[j]).1.wf()
        &&& forall|i: int, j: int|
            0 <= i < self.table().len() && 0 <= j < self.table().len() && i != j ==> (
            #[trigger] self.table()[i]).0@ != (#[trigger] self.table()[j]).0@
        &&& forall|i: int, j: int, k: int|
            0 <= i < self.table().len() && 0 <= j < self.table()[i].1.len() && 0 <= k
                < self.table()[i].1.len() && j != k ==> (#[trigger] self.table()[i].1[j]).0 != (
            #[trigger] self.table()[i].1[k]).0
        &&& forall|k: int| 0 <= k < self.accepting().len() ==> (#[trigger] self.accepting()[k]).wf()
        &&& forall|k: int, l: int|
            0 <= k < self.accepting().len() && 0 <= l < self.accepting().len() && k != l ==> (
            #[trigger] self.accepting()[k])@ != (#[trigger] self.accepting()[l])@
    }
}

impl<T> View for Dfa<T> {
    type V = DfaView<T>;

    /// The table maps each listed state to its listed transitions, and the
    /// accepting states are those listed as accepting.
    open spec fn view(&self) -> DfaView<T> {
        DfaView {
            table: table_map(self.table()),
            start: self.initial()@,
            accept: Set::new(|c: Set<int>| listed(self.accepting(), c)),
        }
    }
}

/// The numerals of the first `upto` of `items`, with a comma and a space
/// between each and the next.
pub open spec fn items_text(items: Seq<int>, upto: nat) -> Seq<char>
    decreases upto,
{
    if upto == 0 {
        Seq::empty()
    } else if upto == 1 {
        decimal(items[0] as nat)
    } else {
        items_text(items, (upto - 1) as nat) + ", "@ + decimal(items[upto - 1] as nat)
    }
}

/// The name of a set of states in a description: its members in increasing
/// order between braces, and the whole between double quotes.
pub open spec fn set_name(items: Seq<int>) -> Seq<char> {
    seq!['"', '{'] + items_text(items, items.len()) + seq!['}', '"']
}

/// The lines for the first `upto` states of `table`, those of `accept` with
/// a double border.
pub open spec fn dfa_nodes_text<T>(
    table: Seq<(StateSet, Vec<(T, StateSet)>)>,
    accept: Set<Set<int>>,
    upto: nat,
) -> Seq<char>
    decreases upto,
{
    if upto == 0 {
        Seq::empty()
    } else {
        let last = (upto - 1) as int;
        dfa_nodes_text(table, accept, (upto - 1) as nat) + node_text(
            set_name(table[last].0.listing()),
            accept.contains(table[last].0@),
        )
    }
}

/// The lines for the first `upto` transitions of `row`, which leave the
/// state with the members `from`.
pub open spec fn dfa_row_text<T: Symbol>(from: Seq<int>, row: Seq<(T, StateSet)>, upto: nat) -> Seq<
    char,
>
    decreases upto,
{
    if upto == 0 {
        Seq::empty()
    } else {
        let last = (upto - 1) as int;
        dfa_row_text(from, row, (upto - 1) as nat) + edge_text(
            set_name(from),
            set_name(row[last].1.listing()),
            label_text(Some(row[last].0)),
        )
    }
}

/// The lines for the transitions that leave the first `upto` states of
/// `table`.
pub open spec fn dfa_edges_text<T: Symbol>(
    table: Seq<(StateSet, Vec<(T, StateSet)>)>,
    upto: nat,
) -> Seq<char>
    decreases upto,
{
    if upto == 0 {
        Seq::empty()
    } else {
        let last = (upto - 1) as int;
        dfa_edges_text(table, (upto - 1) as nat) + dfa_row_text(
            table[last].0.listing(),
            table[last].1@,
            table[last].1@.len(),
        )
    }
}

/// The description of a deterministic automaton: the opening, a line for
/// each state, a line for each transition, and the closing brace.
pub open spec fn dfa_dot<T: Symbol>(
    table: Seq<(StateSet, Vec<(T, StateSet)>)>,
    accept: Set<Set<int>>,
) -> Seq<char> {
    "digraph{edge[arrowhead=normal,arrowtail=dot];"@ + dfa_nodes_text(table, accept, table.len())
        + dfa_edges_text(table, table.len()) + "}"@
}

/// Appends the name of `set`.
fn push_set_name(out: &mut String, set: &StateSet)
    ensures
        final(out)@ == old(out)@ + set_name(set.listing()),
{
    push_char(out, '"');
    push_char(out, '{');
    let ghost opened = out@;
    let mut i: usize = 0;
    while i < set.len()
        invariant
            i <= set.listing().len(),
            out@ == opened + items_text(set.listing(), i as nat),
        decreases set.listing().len() - i,
    {
        if i > 0 {
            push_text(out, ", ");
        }
        push_decimal(out, set.get(i));
        assert(out@ =~= opened + items_text(set.listing(), (i + 1) as nat));
        i = i + 1;
    }
    push_char(out, '}');
    push_char(out, '"');
    assert(out@ =~= old(out)@ + set_name(set.listing()));
}

/// In the deterministic automaton of `g`, a state accepts if and only if it
/// holds the tail of `g`.
pub proof fn lemma_accepting_iff_tail<T>(g: Graph<T>, c: Set<int>)
    requires
        g.determinized().table.dom().contains(c),
    ensures
        g.determinized().accept.contains(c) <==> c.contains(g.tail),
{
}

/// The place of the state `c` in `table`, if it is there.
fn find_state<T>(table: &DfaTable<T>, c: &StateSet) -> (place: Option<usize>)
    requires
        c.wf(),
        forall|i: int| 0 <= i < table.len() ==> (#[trigger] table[i]).0.wf(),
    ensures
        match place {
            Some(i) => i < table.len() && table[i as int].0@ == c@,
            None => !is_key(table@, c@),
        },
{
    let mut i: usize = 0;
    while i < table.len()
        invariant
            i <= table.len(),
            c.wf(),
            forall|k: int| 0 <= k < table.len() ==> (#[trigger] table[k]).0.wf(),
            forall|k: int| 0 <= k < i ==> (#[trigger] table[k]).0@ != c@,
        decreases table.len() - i,
    {
        if table[i].0.same(c) {
            return Some(i);
        }
        i = i + 1;
    }
    None
}

/// The sets of numbers below `n` that `table` does not have as states.
spec fn unkeyed<T>(table: Seq<(StateSet, Vec<(T, StateSet)>)>, n: nat) -> Set<Set<int>> {
    Set::new(|c: Set<int>| subsets_below(n).contains(c) && !is_key(table, c))
}

/// The target of each transition of `table` is a state of `table` or waits
/// in `queue`.
spec fn targets_known<T>(
    table: Seq<(StateSet, Vec<(T, StateSet)>)>,
    queue: Seq<StateSet>,
) -> bool {
    forall|i: int, j: int|
        0 <= i < table.len() && 0 <= j < table[i].1.len() ==> is_key(
            table,
            (#[trigger] table[i].1[j]).1@,
        ) || listed(queue, table[i].1[j].1@)
}

/// A table with one state more leaves one set less without a state.
proof fn lemma_new_key<T>(
    table: Seq<(StateSet, Vec<(T, StateSet)>)>,
    entry: (StateSet, Vec<(T, StateSet)>),
    n: nat,
)
    requires
        !is_key(table, entry.0@),
        below(entry.0@, n as int),
    ensures
        forall|c: Set<int>| is_key(table.push(entry), c) <==> is_key(table, c) || c == entry.0@,
        unkeyed(table, n).finite(),
        unkeyed(table.push(entry), n).len() < unkeyed(table, n).len(),
{
    let longer = table.push(entry);
    assert forall|c: Set<int>| is_key(longer, c) <==> is_key(table, c) || c == entry.0@ by {
        if is_key(longer, c) {
            let i = choose|i: int| 0 <= i < longer.len() && (#[trigger] longer[i]).0@ == c;
            if i < table.len() {
                assert(table[i].0@ == c);
            }
        }
        if is_key(table, c) {
            let i = choose|i: int| 0 <= i < table.len() && (#[trigger] table[i]).0@ == c;
            assert(longer[i].0@ == c);
        }
        if c == entry.0@ {
            assert(longer[table.len() as int].0@ == c);
        }
    }
    lemma_subsets_finite(n);
    vstd::set_lib::lemma_set_subset_finite(subsets_below(n), unkeyed(table, n));
    assert(unkeyed(table, n).contains(entry.0@));
    assert(unkeyed(longer, n) =~= unkeyed(table, n).remove(entry.0@));
}

impl<T: Symbol> Dfa<T> {
    /// Takes the automaton apart: its states with their transitions, its
    /// start state and its accepting states.
    pub fn into_parts(self) -> (parts: (DfaTable<T>, StateSet, Vec<StateSet>))
        ensures
            parts.0@ == self.table(),
            parts.1 == self.initial(),
            parts.2@ == self.accepting(),
    {
        (self.states, self.start, self.accept)
    }

    /// The states, each with its transitions.
    pub fn states(&self) -> (states: &DfaTable<T>)
        ensures
            states@ == self.table(),
    {
        &self.states
    }

    /// The state in which every run starts.
    pub fn start(&self) -> (start: &StateSet)
        ensures
            *start == self.initial(),
    {
        &self.start
    }

    /// Whether a run may end in `state` to accept.
    pub fn is_accepting(&self, state: &StateSet) -> (accepting: bool)
        requires
            self.wf(),
            state.wf(),
        ensures
            accepting == self@.accept.contains(state@),
    {
        let mut k: usize = 0;
        while k < self.accept.len()
            invariant
                k <= self.accept.len(),
                self.wf(),
                state.wf(),
                forall|l: int| 0 <= l < k ==> (#[trigger] self.accept[l])@ != state@,
            decreases self.accept.len() - k,
        {
            assert(self.accept@[k as int] == self.accepting()[k as int]);
            if self.accept[k].same(state) {
                assert(listed(self.accept@, state@));
                return true;
            }
            k = k + 1;
        }
        false
    }

    /// The state that `symbol` leads to from `state`, if `state` is a state
    /// of the automaton and can read `symbol`.
    pub fn next(&self, state: &StateSet, symbol: &T) -> (target: Option<&StateSet>)
        requires
            self.wf(),
            state.wf(),
        ensures
            target is Some <==> self@.table.dom().contains(state@) && self@.table[state@].dom().contains(
                *symbol,
            ),
            target matches Some(t) ==> t.wf() && t@ == self@.table[state@][*symbol],
    {
        assert(self.states@ == self.table());
        match find_state(&self.states, state) {
            Some(i) => {
                let ghost row = self.states@[i as int].1@;
                proof {
                    let i2 = choose|i2: int|
                        0 <= i2 < self.states@.len() && (#[trigger] self.states@[i2]).0@ == state@;
                    assert(i2 == i);
                    assert(self@.table[state@] == row_map(row));
                }
                match find_symbol(&self.states[i].1, symbol) {
                    Some(j) => {
                        proof {
                            assert(has_symbol(row, *symbol));
                            let j2 = choose|j2: int|
                                0 <= j2 < row.len() && (#[trigger] row[j2]).0 == *symbol;
                            assert(self.states[i as int].1[j2] == row[j2]);
                            assert(self.states[i as int].1[j as int] == row[j as int]);
                            assert(j2 == j);
                        }
                        Some(&self.states[i].1[j].1)
                    },
                    None => None,
                }
            },
            None => None,
        }
    }

    /// A description of the automaton for drawing: a line for each state,
    /// named by its members, the accepting ones with a double border, and a
    /// line for each transition.
    pub fn dot(&self) -> (s: String)
        requires
            self.wf(),
        ensures
            s@ == dfa_dot(self.table(), self@.accept),
    {
        let ghost table = self.states@;
        let ghost accept = self@.accept;
        let mut s = String::new();
        push_text(&mut s, "digraph{edge[arrowhead=normal,arrowtail=dot];");
        let ghost opening = s@;
        let mut i: usize = 0;
        while i < self.states.len()
            invariant
                i <= self.states.len(),
                self.wf(),
                table == self.states@,
                accept == self@.accept,
                s@ == opening + dfa_nodes_text(table, accept, i as nat),
            decreases self.states.len() - i,
        {
            let ghost before = s@;
            push_set_name(&mut s, &self.states[i].0);
            let accepting = self.is_accepting(&self.states[i].0);
            push_node_end(&mut s, accepting);
            assert(s@ =~= before + node_text(
                set_name(table[i as int].0.listing()),
                accept.contains(table[i as int].0@),
            ));
            i = i + 1;
        }
        let ghost listed = s@;
        let mut i: usize = 0;
        while i < self.states.len()
            invariant
                i <= self.states.len(),
                table == self.states@,
                s@ == listed + dfa_edges_text(table, i as nat),
            decreases self.states.len() - i,
        {
            let ghost before = s@;
            let from = &self.states[i].0;
            let row = &self.states[i].1;
            let mut j: usize = 0;
            while j < row.len()
                invariant
                    j <= row.len(),
                    i < self.states.len(),
                    table == self.states@,
                    *from == table[i as int].0,
                    *row == table[i as int].1,
                    s@ == before + dfa_row_text(from.listing(), row@, j as nat),
                decreases row.len() - j,
            {
                let ghost at = s@;
                push_set_name(&mut s, from);
                push_text(&mut s, "->");
                push_set_name(&mut s, &row[j].1);
                push_text(&mut s, "[label=");
                push_label(&mut s, &Some(row[j].0));
                push_text(&mut s, "];");
                assert(s@ =~= at + edge_text(
                    set_name(from.listing()),
                    set_name(row[j as int].1.listing()),
                    label_text(Some(row[j as int].0)),
                ));
                assert(s@ =~= before + dfa_row_text(from.listing(), row@, (j + 1) as nat));
                j = j + 1;
            }
            assert(s@ =~= listed + dfa_edges_text(table, (i + 1) as nat));
            i = i + 1;
        }
        push_text(&mut s, "}");
        assert(s@ =~= dfa_dot(table, accept));
        s
    }

    /// The subset construction. The automaton starts in the epsilon-closure
    /// of the head of `nfa`. From a work queue that begins with that state,
    /// each set that has no entry yet gets one: for every symbol on an edge
    /// out of one of its members, the closure of the targets of all such
    /// edges; the sets so found are queued in turn. A state accepts if it
    /// holds the tail of `nfa`.
    pub fn from(nfa: Nfa<T>) -> (dfa: Self)
        requires
            nfa@.wf(),
        ensures
            dfa@ == nfa@.determinized(),
            dfa.wf(),
    {
        let ghost g = nfa@;
        let ghost n = nfa@.nodes.len();
        let tail = nfa.tail();
        let start = nfa.epsilon_closure(nfa.head());
        let mut states: DfaTable<T> = Vec::new();
        let mut accept: Vec<StateSet> = Vec::new();
        let mut q: VecDeque<StateSet> = VecDeque::new();
        q.push_back(start.duplicate());
        proof {
            g.lemma_start_is_state();
            assert(q@[0]@ == start@);
        }
        while q.len() > 0
            invariant
                g == nfa@,
                n == g.nodes.len(),
                g.wf(),
                tail as int == g.tail,
                start.wf(),
                start@ == g.start(),
                table_of(g, states@),
                forall|k: int|
                    0 <= k < q@.len() ==> (#[trigger] q@[k]).wf() && below(q@[k]@, n as int)
                        && g.dfa_state(q@[k]@),
                is_key(states@, start@) || listed(q@, start@),
                targets_known(states@, q@),
                forall|c: Set<int>|
                    #[trigger] listed(accept@, c) <==> is_key(states@, c) && c.contains(g.tail),
                forall|k: int| 0 <= k < accept.len() ==> (#[trigger] accept[k]).wf(),
                forall|k: int, l: int|
                    0 <= k < accept.len() && 0 <= l < accept.len() && k != l ==> (
                    #[trigger] accept[k])@ != (#[trigger] accept[l])@,
            decreases unkeyed(states@, n).len(), q@.len(),
        {
            let ghost q_before = q@;
            let ghost table_before = states@;
            let ghost accept_before = accept@;
            let curr = q.pop_front().unwrap();
            proof {
                assert(curr == q_before[0]);
                assert forall|c: Set<int>| listed(q_before, c) implies c == curr@ || listed(q@, c) by {
                    let k = choose|k: int| 0 <= k < q_before.len() && (#[trigger] q_before[k])@ == c;
                    if k > 0 {
                        assert(q@[k - 1] == q_before[k]);
                    }
                }
                assert forall|k: int| 0 <= k < q@.len() implies (#[trigger] q@[k]).wf() && below(
                    q@[k]@,
                    n as int,
                ) && g.dfa_state(q@[k]@) by {
                    assert(q@[k] == q_before[k + 1]);
                }
            }
            if find_state(&states, &curr).is_none() {
                let outs = successors(&nfa, &curr);
                let accepting = curr.contains(tail);
                let key = curr.duplicate();
                proof {
                    lemma_new_key(table_before, (key, outs), n);
                }
                states.push((key, outs));
                let last = states.len() - 1;
                let ghost row = states@[last as int].1@;
                let ghost q_mid = q@;
                proof {
                    assert(states@[last as int].0@ == curr@);
                    assert(row_of(g, curr@, row));
                    assert forall|i: int| 0 <= i < states.len() implies (#[trigger] states[i]).0.wf()
                        && below(states[i].0@, g.nodes.len() as int) && g.dfa_state(states[i].0@)
                        && row_of(g, states[i].0@, states[i].1@) by {
                        if i < table_before.len() {
                            assert(states@[i] == table_before[i]);
                        }
                    }
                    assert forall|i: int, j: int|
                        0 <= i < states.len() && 0 <= j < states.len() && i != j implies (
                    #[trigger] states[i]).0@ != (#[trigger] states[j]).0@ by {
                        if i < table_before.len() {
                            assert(states@[i] == table_before[i]);
                        }
                        if j < table_before.len() {
                            assert(states@[j] == table_before[j]);
                        }
                    }
                }
                let mut j: usize = 0;
                while j < states[last].1.len()
                    invariant
                        j <= row.len(),
                        last == states.len() - 1,
                        row == states@[last as int].1@,
                        g == nfa@,
                        n == g.nodes.len(),
                        table_of(g, states@),
                        states@[last as int].0@ == curr@,
                        forall|k: int|
                            0 <= k < q@.len() ==> (#[trigger] q@[k]).wf() && below(q@[k]@, n as int)
                                && g.dfa_state(q@[k]@),
                        forall|c: Set<int>| listed(q_mid, c) ==> listed(q@, c),
                        forall|k: int|
                            0 <= k < j ==> is_key(states@, (#[trigger] row[k]).1@) || listed(
                                q@,
                                row[k].1@,
                            ),
                    decreases row.len() - j,
                {
                    let ghost q_old = q@;
                    let to = &states[last].1[j].1;
                    proof {
                        assert(row_of(g, curr@, row));
                        assert(to == row[j as int].1);
                        assert(has_symbol(row, row[j as int].0));
                        g.lemma_step_is_state(curr@, row[j as int].0);
                    }
                    if find_state(&states, to).is_none() {
                        q.push_back(to.duplicate());
                        proof {
                            assert(q@[q_old.len() as int]@ == to@);
                            assert forall|c: Set<int>| listed(q_old, c) implies listed(q@, c) by {
                                let k = choose|k: int|
                                    0 <= k < q_old.len() && (#[trigger] q_old[k])@ == c;
                                assert(q@[k] == q_old[k]);
                            }
                            assert forall|k: int| 0 <= k < q@.len() implies (#[trigger] q@[k]).wf()
                                && below(q@[k]@, n as int) && g.dfa_state(q@[k]@) by {
                                if k < q_old.len() {
                                    assert(q@[k] == q_old[k]);
                                }
                            }
                        }
                    }
                    j = j + 1;
                }
                proof {
                    assert(targets_known(states@, q@)) by {
                        assert forall|i: int, k: int|
                            0 <= i < states@.len() && 0 <= k < states@[i].1.len() implies is_key(
                            states@,
                            (#[trigger] states@[i].1[k]).1@,
                        ) || listed(q@, states@[i].1[k].1@) by {
                            if i < table_before.len() {
                                assert(states@[i] == table_before[i]);
                                let c = table_before[i].1[k].1@;
                                assert(is_key(table_before, c) || listed(q_before, c));
                            } else {
                                assert(states@[i].1@ == row);
                                assert(states@[i].1[k] == row[k]);
                            }
                        }
                    }
                }
                if accepting {
                    accept.push(curr);
                    proof {
                        assert(accept@[accept_before.len() as int]@ == curr@);
                        assert forall|c: Set<int>|
                            #[trigger] listed(accept@, c) <==> is_key(states@, c) && c.contains(
                                g.tail,
                            ) by {
                            if listed(accept@, c) {
                                let k = choose|k: int|
                                    0 <= k < accept@.len() && (#[trigger] accept@[k])@ == c;
                                if k < accept_before.len() {
                                    assert(accept_before[k]@ == c);
                                    assert(listed(accept_before, c));
                                }
                            }
                            if is_key(states@, c) && c.contains(g.tail) {
                                if c != curr@ {
                                    assert(listed(accept_before, c));
                                    let k = choose|k: int|
                                        0 <= k < accept_before.len() && (
                                        #[trigger] accept_before[k])@ == c;
                                    assert(accept@[k]@ == c);
                                }
                            }
                        }
                        assert forall|k: int, l: int|
                            0 <= k < accept.len() && 0 <= l < accept.len() && k != l implies (
                        #[trigger] accept[k])@ != (#[trigger] accept[l])@ by {
                            if k < accept_before.len() {
                                assert(accept@[k] == accept_before[k]);
                                assert(listed(accept_before, accept@[k]@));
                            }
                            if l < accept_before.len() {
                                assert(accept@[l] == accept_before[l]);
                                assert(listed(accept_before, accept@[l]@));
                            }
                        }
                    }
                } else {
                    proof {
                        assert forall|c: Set<int>|
                            #[trigger] listed(accept@, c) <==> is_key(states@, c) && c.contains(
                                g.tail,
                            ) by {
                            assert(listed(accept_before, c) <==> is_key(table_before, c)
                                && c.contains(g.tail));
                        }
                    }
                }
            } else {
                proof {
                    assert(targets_known(states@, q@)) by {
                        assert forall|i: int, k: int|
                            0 <= i < states@.len() && 0 <= k < states@[i].1.len() implies is_key(
                            states@,
                            (#[trigger] states@[i].1[k]).1@,
                        ) || listed(q@, states@[i].1[k].1@) by {
                            let c = states@[i].1[k].1@;
                            assert(is_key(states@, c) || listed(q_before, c));
                        }
                    }
                }
            }
        }
        let dfa = Dfa { states, start, accept };
        proof {
            let keys = Set::new(|c: Set<int>| is_key(dfa.states@, c));
            assert forall|c: Set<int>, a: T| keys.contains(c) && g.enabled(c, a) implies keys.contains(
                #[trigger] g.step(c, a),
            ) by {
                let i = choose|i: int| 0 <= i < dfa.states@.len() && (#[trigger] dfa.states@[i]).0@ == c;
                let row = dfa.states@[i].1@;
                assert(row_of(g, c, row));
                assert(has_symbol(row, a));
                let j = choose|j: int| 0 <= j < row.len() && (#[trigger] row[j]).0 == a;
                assert(dfa.states@[i].1[j] == row[j]);
                assert(is_key(dfa.states@, dfa.states@[i].1[j].1@) || listed(
                    q@,
                    dfa.states@[i].1[j].1@,
                ));
            }
            assert forall|c: Set<int>| g.dfa_state(c) implies is_key(dfa.states@, c) by {
                let word = choose|word: Seq<T>| #![auto] g.runnable(word) && g.run(word) == c;
                g.lemma_run_stays(keys, word);
            }
            lemma_table_map(g, dfa.states@);
            assert(dfa@.accept =~= g.determinized().accept) by {
                assert forall|c: Set<int>| dfa@.accept.contains(c) <==> g.determinized().accept.contains(
                    c,
                ) by {
                    assert(listed(dfa.accept@, c) <==> is_key(dfa.states@, c) && c.contains(g.tail));
                    if is_key(dfa.states@, c) {
                        let i = choose|i: int|
                            0 <= i < dfa.states@.len() && (#[trigger] dfa.states@[i]).0@ == c;
                    }
                }
            }
            assert(dfa.wf()) by {
                assert forall|i: int, j: int|
                    0 <= i < dfa.states.len() && 0 <= j < dfa.states[i].1.len() implies (
                #[trigger] dfa.states[i].1[j]).1.wf() by {
                    assert(row_of(g, dfa.states[i].0@, dfa.states[i].1@));
                    assert(dfa.states[i].1@[j].1.wf());
                }
                assert forall|i: int, j: int, k: int|
                    0 <= i < dfa.states.len() && 0 <= j < dfa.states[i].1.len() && 0 <= k
                        < dfa.states[i].1.len() && j != k implies (#[trigger] dfa.states[i].1[j]).0 != (
                #[trigger] dfa.states[i].1[k]).0 by {
                    assert(row_of(g, dfa.states[i].0@, dfa.states[i].1@));
                    assert(dfa.states[i].1@[j].0 != dfa.states[i].1@[k].0);
                }
            }
        }
        dfa
    }
}

} // verus!
