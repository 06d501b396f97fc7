//! Thompson's construction: from an expression to a graph of nodes joined by
//! symbol and epsilon edges.
use vstd::prelude::*;
use crate::reg::dot::{
    edges_text, graph_dot, node_text, nodes_text, push_edge, push_node_end, push_quoted_number,
    quoted_number, row_text,
};
use crate::reg::graph::Graph;
use crate::reg::nfa::nfa::Nfa;
use crate::reg::re::Re;
use crate::reg::symbol::{same_label, Symbol};
use crate::reg::text::push_text;

verus! {

/// A reference to a node of a builder: the node's place in the builder's
/// collection. It owns nothing, so edges may form cycles.
#[derive(Clone, Copy, Debug, PartialEq, Eq, Hash, Structural)]
pub struct NfaNodeRef {
    /// The place of the node among the builder's nodes.
    pub index: usize,
}

impl View for NfaNodeRef {
    type V = int;

    open spec fn view(&self) -> int {
        self.index as int
    }
}

impl NfaNodeRef {
    /// The node that the reference stands for, if `builder` has a node at
    /// that place.
    pub fn upgrade<'a, T: Symbol>(&self, builder: &'a NfaBuilder<T>) -> (node: Option<
        &'a NfaNode<T>,
    >)
        ensures
            node is Some <==> self@ < builder@.nodes.len(),
            node matches Some(n) ==> n@ == builder@.nodes[self@],
    {
        let nodes = builder.nodes();
        if self.index < nodes.len() {
            Some(&nodes[self.index])
        } else {
            None
        }
    }
}

/// The edges of `edges` as pairs of a label and the number of the target.
pub open spec fn edge_views<T>(edges: Seq<(Option<T>, NfaNodeRef)>) -> Seq<(Option<T>, int)> {
    edges.map_values(|e: (Option<T>, NfaNodeRef)| (e.0, e.1@))
}

/// A node under construction: its outgoing edges, each listed once, in the
/// order in which they were added.
pub struct NfaNode<T> {
    outs: Vec<(Option<T>, NfaNodeRef)>,
}

impl<T> View for NfaNode<T> {
    type V = Seq<(Option<T>, int)>;

    closed spec fn view(&self) -> Seq<(Option<T>, int)> {
        edge_views(self.outs@)
    }
}

/// The edge lists of `nodes`, node by node.
pub open spec fn node_views<T>(nodes: Seq<NfaNode<T>>) -> Seq<Seq<(Option<T>, int)>> {
    nodes.map_values(|n: NfaNode<T>| n@)
}

impl<T: Symbol> NfaNode<T> {
    /// A node without edges.
    pub fn new() -> (node: Self)
        ensures
            node@ == Seq::<(Option<T>, int)>::empty(),
    {
        let node = NfaNode { outs: Vec::new() };
        assert(node@ =~= Seq::<(Option<T>, int)>::empty());
        node
    }

    /// Adds an edge labelled `by` to the node `to`, unless the node has that
    /// edge already. Returns whether the edge was added.
    pub fn connect(&mut self, by: Option<T>, to: NfaNodeRef) -> (added: bool)
        ensures
            added == !old(self)@.contains((by, to@)),
            added ==> final(self)@ == old(self)@.push((by, to@)),
            !added ==> final(self)@ == old(self)@,
            old(self)@.no_duplicates() ==> final(self)@.no_duplicates(),
    {
        let mut i: usize = 0;
        while i < self.outs.len()
            invariant
                i <= self.outs.len(),
                *self == *old(self),
                forall|k: int| 0 <= k < i ==> (#[trigger] self@[k]) != (by, to@),
            decreases self.outs.len() - i,
        {
            if same_label(&self.outs[i].0, &by) && self.outs[i].1.index == to.index {
                assert(self@[i as int] == (by, to@));
                return false;
            }
            i = i + 1;
        }
        self.outs.push((by, to));
        assert(self@ =~= old(self)@.push((by, to@)));
        assert(old(self)@.no_duplicates() ==> self@.no_duplicates()) by {
            if old(self)@.no_duplicates() {
                assert forall|a: int, b: int| 0 <= a < self@.len() && 0 <= b < self@.len() && a != b implies self@[a] != self@[b] by {
                    if a < old(self)@.len() {
                        assert(self@[a] == old(self)@[a]);
                    }
                    if b < old(self)@.len() {
                        assert(self@[b] == old(self)@[b]);
                    }
                }
            }
        }
        true
    }

    /// Takes the edges away from the node, which is left without any.
    pub fn take_outs(&mut self) -> (outs: Vec<(Option<T>, NfaNodeRef)>)
        ensures
            edge_views(outs@) == old(self)@,
            final(self)@ == Seq::<(Option<T>, int)>::empty(),
    {
        let mut ret: Vec<(Option<T>, NfaNodeRef)> = Vec::new();
        std::mem::swap(&mut ret, &mut self.outs);
        assert(self@ =~= Seq::<(Option<T>, int)>::empty());
        ret
    }
}

/// A graph under construction. The builder owns all of its nodes in one flat
/// collection; edges refer to nodes by their place in it.
pub struct NfaBuilder<T> {
    nodes: Vec<NfaNode<T>>,
    head: NfaNodeRef,
    tail: NfaNodeRef,
}

impl<T> View for NfaBuilder<T> {
    type V = Graph<T>;

    closed spec fn view(&self) -> Graph<T> {
        Graph { nodes: node_views(self.nodes@), head: self.head@, tail: self.tail@ }
    }
}

impl<T> NfaBuilder<T> {
    /// Takes the builder apart: its nodes, its head and its tail.
    pub fn into_parts(self) -> (parts: (Vec<NfaNode<T>>, NfaNodeRef, NfaNodeRef))
        ensures
            node_views(parts.0@) == self@.nodes,
            parts.1@ == self@.head,
            parts.2@ == self@.tail,
    {
        (self.nodes, self.head, self.tail)
    }
}

impl<T: Symbol> NfaBuilder<T> {
    /// A builder with a head and a tail and no edge.
    pub fn new() -> (b: Self)
        ensures
            b@ == (Graph::<T> { nodes: seq![seq![], seq![]], head: 0, tail: 1 }),
    {
        let mut nodes: Vec<NfaNode<T>> = Vec::new();
        nodes.push(NfaNode::new());
        nodes.push(NfaNode::new());
        let b = NfaBuilder { nodes, head: NfaNodeRef { index: 0 }, tail: NfaNodeRef { index: 1 } };
        assert(b@.nodes =~= seq![seq![], seq![]]);
        b
    }

    /// The nodes, in the order in which they were added.
    pub fn nodes(&self) -> (nodes: &Vec<NfaNode<T>>)
        ensures
            node_views(nodes@) == self@.nodes,
    {
        &self.nodes
    }

    /// The node at which every run starts.
    pub fn head(&self) -> (head: &NfaNodeRef)
        ensures
            head@ == self@.head,
    {
        &self.head
    }

    /// The node at which an accepting run ends.
    pub fn tail(&self) -> (tail: &NfaNodeRef)
        ensures
            tail@ == self@.tail,
    {
        &self.tail
    }

    /// Adds a node without edges and returns the reference to it.
    pub fn add_node(&mut self) -> (node: NfaNodeRef)
        ensures
            node@ == old(self)@.nodes.len(),
            final(self)@ == (Graph {
                nodes: old(self)@.nodes.push(seq![]),
                head: old(self)@.head,
                tail: old(self)@.tail,
            }),
    {
        let index = self.nodes.len();
        self.nodes.push(NfaNode::new());
        assert(self@.nodes =~= old(self)@.nodes.push(seq![]));
        NfaNodeRef { index }
    }

    /// Adds an edge labelled `by` from the node `from` to the node `to`,
    /// unless it is there already. Returns whether the edge was added.
    pub fn connect(&mut self, from: NfaNodeRef, by: Option<T>, to: NfaNodeRef) -> (added: bool)
        requires
            from@ < old(self)@.nodes.len(),
        ensures
            added == !old(self)@.has_edge(from@, by, to@),
            final(self)@ == (Graph {
                nodes: old(self)@.nodes.update(
                    from@,
                    if added {
                        old(self)@.nodes[from@].push((by, to@))
                    } else {
                        old(self)@.nodes[from@]
                    },
                ),
                head: old(self)@.head,
                tail: old(self)@.tail,
            }),
    {
        let added = self.nodes[from.index].connect(by, to);
        assert(self@.nodes =~= old(self)@.nodes.update(
            from@,
            if added {
                old(self)@.nodes[from@].push((by, to@))
            } else {
                old(self)@.nodes[from@]
            },
        ));
        added
    }

    /// Finishes the graph: the automaton with the same states, edges, head
    /// and tail, as a table.
    pub fn build(self) -> (nfa: Nfa<T>)
        requires
            self@.wf(),
        ensures
            nfa@ == self@,
            nfa@.nodes.len() == self@.nodes.len(),
            nfa@.wf(),
    {
        Nfa::from(self)
    }

    /// A description of the graph for drawing: a line for each node, the
    /// tail with a double border, and a line for each edge, an edge without a
    /// symbol labelled with a lambda.
    pub fn dot(&self) -> (s: String)
        ensures
            s@ == graph_dot(self@),
    {
        let ghost g = self@;
        let mut s = String::new();
        push_text(&mut s, "digraph{edge[arrowhead=normal,arrowtail=dot];");
        let ghost opening = s@;
        let mut i: usize = 0;
        while i < self.nodes.len()
            invariant
                i <= self.nodes.len(),
                g == self@,
                s@ == opening + nodes_text(g, i as nat),
            decreases self.nodes.len() - i,
        {
            let ghost before = s@;
            push_quoted_number(&mut s, i);
            push_node_end(&mut s, i == self.tail.index);
            assert(s@ =~= before + node_text(quoted_number(i as nat), i as int == g.tail));
            i = i + 1;
        }
        let ghost listed = s@;
        let mut i: usize = 0;
        while i < self.nodes.len()
            invariant
                i <= self.nodes.len(),
                g == self@,
                s@ == listed + edges_text(g, i as nat),
            decreases self.nodes.len() - i,
        {
            let ghost before = s@;
            let row = &self.nodes[i].outs;
            let mut j: usize = 0;
            while j < row.len()
                invariant
                    j <= row.len(),
                    g == self@,
                    i < self.nodes.len(),
                    edge_views(row@) == g.nodes[i as int],
                    s@ == before + row_text(i as nat, g.nodes[i as int], j as nat),
                decreases row.len() - j,
            {
                push_edge(&mut s, i, &row[j].0, row[j].1.index);
                assert(g.nodes[i as int][j as int] == (row[j as int].0, row[j as int].1@));
                assert(s@ =~= before + row_text(i as nat, g.nodes[i as int], (j + 1) as nat));
                j = j + 1;
            }
            assert(s@ =~= listed + edges_text(g, (i + 1) as nat));
            i = i + 1;
        }
        push_text(&mut s, "}");
        assert(s@ =~= graph_dot(g));
        s
    }

    /// Builds the fragment of `re` on the two newest nodes, `entry` and
    /// `exit`, adding the nodes of the parts of `re` behind them.
    fn fill(&mut self, re: &Re<T>, entry: NfaNodeRef, exit: NfaNodeRef)
        requires
            old(self)@.nodes.len() == entry@ + 2,
            exit@ == entry@ + 1,
            old(self)@.nodes[entry@] == Seq::<(Option<T>, int)>::empty(),
            old(self)@.nodes[exit@] == Seq::<(Option<T>, int)>::empty(),
        ensures
            final(self)@ == (Graph {
                nodes: old(self)@.nodes.subrange(0, entry@) + fragment(*re, entry@),
                head: old(self)@.head,
                tail: old(self)@.tail,
            }),
        decreases re.size(), 1nat,
    {
        let ghost base = entry@;
        let ghost before = old(self)@.nodes.subrange(0, base);
        match re {
            Re::Nil => {
                self.connect(entry, None, exit);
                assert(self@.nodes =~= before + fragment(*re, base));
            },
            Re::Lit(l) => {
                self.connect(entry, Some(*l), exit);
                assert(self@.nodes =~= before + fragment(*re, base));
            },
            Re::Rep(r) => {
                self.fill_rep(r, entry, exit);
            },
            Re::Cat(a, b) => {
                self.fill_cat(a, b, entry, exit);
            },
            Re::Alt(a, b) => {
                self.fill_alt(a, b, entry, exit);
            },
        }
    }

    /// Adds an entry and an exit node and builds the fragment of `part` on
    /// them. Returns the two nodes.
    fn add_part(&mut self, part: &Re<T>) -> (ends: (NfaNodeRef, NfaNodeRef))
        ensures
            ends.0@ == old(self)@.nodes.len(),
            ends.1@ == old(self)@.nodes.len() + 1,
            final(self)@ == (Graph {
                nodes: old(self)@.nodes + fragment(*part, old(self)@.nodes.len() as int),
                head: old(self)@.head,
                tail: old(self)@.tail,
            }),
        decreases part.size(), 2nat,
    {
        let head = self.add_node();
        let tail = self.add_node();
        self.fill(part, head, tail);
        assert(self@.nodes =~= old(self)@.nodes + fragment(*part, old(self)@.nodes.len() as int));
        (head, tail)
    }

    /// Builds the fragment of the repetition of `r` on `entry` and `exit`.
    fn fill_rep(&mut self, r: &Re<T>, entry: NfaNodeRef, exit: NfaNodeRef)
        requires
            old(self)@.nodes.len() == entry@ + 2,
            exit@ == entry@ + 1,
            old(self)@.nodes[entry@] == Seq::<(Option<T>, int)>::empty(),
            old(self)@.nodes[exit@] == Seq::<(Option<T>, int)>::empty(),
        ensures
            final(self)@ == (Graph {
                nodes: old(self)@.nodes.subrange(0, entry@) + fragment(
                    Re::Rep(Box::new(*r)),
                    entry@,
                ),
                head: old(self)@.head,
                tail: old(self)@.tail,
            }),
        decreases 1 + r.size(), 0nat,
    {
        let ghost base = entry@;
        let ghost before = old(self)@.nodes.subrange(0, base);
        let ghost inner = fragment(*r, base + 2);
        self.connect(entry, None, exit);
        let ghost top = self@.nodes;
        let (r_head, r_tail) = self.add_part(r);
        proof {
            lemma_fragment(*r, base + 2);
            assert(self@.nodes[base] == top[base]);
            assert(self@.nodes[base + 3] == inner[1]);
        }
        self.connect(entry, None, r_head);
        self.connect(r_tail, None, r_head);
        self.connect(r_tail, None, exit);
        assert(self@.nodes[base] =~= seq![(None, base + 1), (None, base + 2)]);
        assert(self@.nodes =~= before + fragment(Re::Rep(Box::new(*r)), base));
    }

    /// Builds the fragment of the concatenation of `a` and `b` on `entry`
    /// and `exit`.
    fn fill_cat(&mut self, a: &Re<T>, b: &Re<T>, entry: NfaNodeRef, exit: NfaNodeRef)
        requires
            old(self)@.nodes.len() == entry@ + 2,
            exit@ == entry@ + 1,
            old(self)@.nodes[entry@] == Seq::<(Option<T>, int)>::empty(),
            old(self)@.nodes[exit@] == Seq::<(Option<T>, int)>::empty(),
        ensures
            final(self)@ == (Graph {
                nodes: old(self)@.nodes.subrange(0, entry@) + fragment(
                    Re::Cat(Box::new(*a), Box::new(*b)),
                    entry@,
                ),
                head: old(self)@.head,
                tail: old(self)@.tail,
            }),
        decreases 1 + a.size() + b.size(), 0nat,
    {
        let ghost base = entry@;
        let ghost before = old(self)@.nodes.subrange(0, base);
        let ghost top = self@.nodes;
        let ghost first = fragment(*a, base + 2);
        let ghost mid = base + 2 + first.len();
        let ghost second = fragment(*b, mid);
        let (a_head, a_tail) = self.add_part(a);
        let (b_head, b_tail) = self.add_part(b);
        proof {
            lemma_fragment(*a, base + 2);
            lemma_fragment(*b, mid);
            assert(self@.nodes =~= top + first + second);
            assert(self@.nodes[base] == top[base]);
            assert(self@.nodes[base + 3] == first[1]);
            assert(self@.nodes[mid + 1] == second[1]);
        }
        self.connect(entry, None, a_head);
        self.connect(a_tail, None, b_head);
        self.connect(b_tail, None, exit);
        assert(self@.nodes =~= before + fragment(Re::Cat(Box::new(*a), Box::new(*b)), base));
    }

    /// Builds the fragment of the alternation of `a` and `b` on `entry` and
    /// `exit`.
    fn fill_alt(&mut self, a: &Re<T>, b: &Re<T>, entry: NfaNodeRef, exit: NfaNodeRef)
        requires
            old(self)@.nodes.len() == entry@ + 2,
            exit@ == entry@ + 1,
            old(self)@.nodes[entry@] == Seq::<(Option<T>, int)>::empty(),
            old(self)@.nodes[exit@] == Seq::<(Option<T>, int)>::empty(),
        ensures
            final(self)@ == (Graph {
                nodes: old(self)@.nodes.subrange(0, entry@) + fragment(
                    Re::Alt(Box::new(*a), Box::new(*b)),
                    entry@,
                ),
                head: old(self)@.head,
                tail: old(self)@.tail,
            }),
        decreases 1 + a.size() + b.size(), 0nat,
    {
        let ghost base = entry@;
        let ghost before = old(self)@.nodes.subrange(0, base);
        let ghost top = self@.nodes;
        let ghost first = fragment(*a, base + 2);
        let ghost mid = base + 2 + first.len();
        let ghost second = fragment(*b, mid);
        let (a_head, a_tail) = self.add_part(a);
        let (b_head, b_tail) = self.add_part(b);
        proof {
            lemma_fragment(*a, base + 2);
            lemma_fragment(*b, mid);
            assert(self@.nodes =~= top + first + second);
            assert(self@.nodes[base] == top[base]);
            assert(self@.nodes[base + 3] == first[1]);
            assert(self@.nodes[mid + 1] == second[1]);
        }
        self.connect(entry, None, a_head);
        self.connect(entry, None, b_head);
        self.connect(a_tail, None, exit);
        self.connect(b_tail, None, exit);
        assert(self@.nodes[base] =~= seq![(None, base + 2), (None, mid)]);
        assert(self@.nodes =~= before + fragment(Re::Alt(Box::new(*a), Box::new(*b)), base));
    }

}

impl<T: Symbol> From<Re<T>> for NfaBuilder<T> {
    /// Thompson's construction: the graph for `re`, with one entry and one
    /// exit node for each node of the syntax tree.
    fn from(re: Re<T>) -> (b: Self)
        ensures
            b@ == thompson(re),
            b@.wf(),
            b@.nodes.len() == 2 * re.size(),
    {
        let mut b = NfaBuilder::new();
        let head = NfaNodeRef { index: 0 };
        let tail = NfaNodeRef { index: 1 };
        b.fill(&re, head, tail);
        proof {
            lemma_thompson_wf(re);
            assert(b@.nodes =~= fragment(re, 0));
        }
        b
    }
}

/// A builder is described by its view alone, so the conversion names no
/// value: what it returns is stated by the contract of `from`.
impl<T: Symbol> vstd::std_specs::convert::FromSpecImpl<Re<T>> for NfaBuilder<T> {
    open spec fn obeys_from_spec() -> bool {
        false
    }

    open spec fn from_spec(re: Re<T>) -> Self {
        arbitrary()
    }
}

/// The graph that Thompson's construction builds for `re`, as it stands among
/// the nodes of a larger graph from number `base` on. Its first node is the
/// entry and its second the exit; the nodes of the parts of `re` follow, the
/// first part's before the second's.
///
/// - Nothing: an epsilon edge from entry to exit.
/// - A symbol: an edge with that symbol from entry to exit.
/// - A repetition: epsilon edges from entry to exit and to the part's entry,
///   and from the part's exit back to the part's entry and on to the exit.
/// - A concatenation: epsilon edges from entry to the first part's entry,
///   from the first part's exit to the second part's entry, and from the
///   second part's exit to the exit.
/// - An alternation: epsilon edges from entry to both parts' entries, and
///   from both parts' exits to the exit.
pub open spec fn fragment<T>(re: Re<T>, base: int) -> Seq<Seq<(Option<T>, int)>>
    decreases re,
{
    match re {
        Re::Nil => seq![seq![(None, base + 1)], seq![]],
        Re::Lit(l) => seq![seq![(Some(l), base + 1)], seq![]],
        Re::Rep(r) => {
            let inner = fragment(*r, base + 2);
            seq![seq![(None, base + 1), (None, base + 2)], seq![]] + inner.update(
                1,
                inner[1].push((None, base + 2)).push((None, base + 1)),
            )
        },
        Re::Cat(a, b) => {
            let first = fragment(*a, base + 2);
            let mid = base + 2 + first.len();
            let second = fragment(*b, mid);
            seq![seq![(None, base + 2)], seq![]] + first.update(1, first[1].push((None, mid)))
                + second.update(1, second[1].push((None, base + 1)))
        },
        Re::Alt(a, b) => {
            let first = fragment(*a, base + 2);
            let mid = base + 2 + first.len();
            let second = fragment(*b, mid);
            seq![seq![(None, base + 2), (None, mid)], seq![]] + first.update(
                1,
                first[1].push((None, base + 1)),
            ) + second.update(1, second[1].push((None, base + 1)))
        },
    }
}

/// The graph that Thompson's construction builds for `re`: the fragment of
/// `re` from node 0 on, with node 0 as head and node 1 as tail.
pub open spec fn thompson<T>(re: Re<T>) -> Graph<T> {
    Graph { nodes: fragment(re, 0), head: 0, tail: 1 }
}

/// A fragment has two nodes for each node of the syntax tree; no edge leaves
/// its exit; every edge leads to a node of the fragment; and no node lists an
/// edge twice.
pub proof fn lemma_fragment<T>(re: Re<T>, base: int)
    ensures
        fragment(re, base).len() == 2 * re.size(),
        fragment(re, base)[1] == Seq::<(Option<T>, int)>::empty(),
        forall|p: int, k: int|
            0 <= p < fragment(re, base).len() && 0 <= k < fragment(re, base)[p].len() ==> base <= (
            #[trigger] fragment(re, base)[p][k]).1 < base + fragment(re, base).len(),
        forall|p: int|
            0 <= p < fragment(re, base).len() ==> (#[trigger] fragment(re, base)[p]).no_duplicates(),
    decreases re,
{
    let f = fragment(re, base);
    match re {
        Re::Nil => {
            assert(f[1] =~= Seq::<(Option<T>, int)>::empty());
        },
        Re::Lit(l) => {
            assert(f[1] =~= Seq::<(Option<T>, int)>::empty());
        },
        Re::Rep(r) => {
            let inner = fragment(*r, base + 2);
            lemma_fragment(*r, base + 2);
            let top = seq![seq![(None::<T>, base + 1), (None::<T>, base + 2)], seq![]];
            let body = inner.update(1, inner[1].push((None, base + 2)).push((None, base + 1)));
            assert(f == top + body);
            assert(f[1] =~= Seq::<(Option<T>, int)>::empty());
            assert forall|p: int, k: int| 0 <= p < f.len() && 0 <= k < f[p].len() implies base <= (
            #[trigger] f[p][k]).1 < base + f.len() by {
                if p >= 2 {
                    assert(f[p] == body[p - 2]);
                    if p - 2 != 1 {
                        assert(body[p - 2] == inner[p - 2]);
                        assert(base + 2 <= inner[p - 2][k].1 < base + 2 + inner.len());
                    }
                }
            }
            assert forall|p: int| 0 <= p < f.len() implies (#[trigger] f[p]).no_duplicates() by {
                if p >= 2 {
                    assert(f[p] == body[p - 2]);
                    if p - 2 != 1 {
                        assert(body[p - 2] == inner[p - 2]);
                    }
                }
            }
        },
        Re::Cat(a, b) => {
            let first = fragment(*a, base + 2);
            let mid = base + 2 + first.len();
            let second = fragment(*b, mid);
            lemma_fragment(*a, base + 2);
            lemma_fragment(*b, mid);
            let top = seq![seq![(None::<T>, base + 2)], seq![]];
            let left = first.update(1, first[1].push((None, mid)));
            let right = second.update(1, second[1].push((None, base + 1)));
            assert(f == top + left + right);
            assert(f[1] =~= Seq::<(Option<T>, int)>::empty());
            assert forall|p: int, k: int| 0 <= p < f.len() && 0 <= k < f[p].len() implies base <= (
            #[trigger] f[p][k]).1 < base + f.len() by {
                if 2 <= p < 2 + first.len() {
                    assert(f[p] == left[p - 2]);
                    if p - 2 != 1 {
                        assert(left[p - 2] == first[p - 2]);
                        assert(base + 2 <= first[p - 2][k].1 < base + 2 + first.len());
                    }
                } else if p >= 2 + first.len() {
                    let j = p - 2 - first.len();
                    assert(f[p] == right[j]);
                    if j != 1 {
                        assert(right[j] == second[j]);
                        assert(mid <= second[j][k].1 < mid + second.len());
                    }
                }
            }
            assert forall|p: int| 0 <= p < f.len() implies (#[trigger] f[p]).no_duplicates() by {
                if 2 <= p < 2 + first.len() {
                    assert(f[p] == left[p - 2]);
                    if p - 2 != 1 {
                        assert(left[p - 2] == first[p - 2]);
                    }
                } else if p >= 2 + first.len() {
                    let j = p - 2 - first.len();
                    assert(f[p] == right[j]);
                    if j != 1 {
                        assert(right[j] == second[j]);
                    }
                }
            }
        },
        Re::Alt(a, b) => {
            let first = fragment(*a, base + 2);
            let mid = base + 2 + first.len();
            let second = fragment(*b, mid);
            lemma_fragment(*a, base + 2);
            lemma_fragment(*b, mid);
            let top = seq![seq![(None::<T>, base + 2), (None::<T>, mid)], seq![]];
            let left = first.update(1, first[1].push((None, base + 1)));
            let right = second.update(1, second[1].push((None, base + 1)));
            assert(f == top + left + right);
            assert(f[1] =~= Seq::<(Option<T>, int)>::empty());
            assert forall|p: int, k: int| 0 <= p < f.len() && 0 <= k < f[p].len() implies base <= (
            #[trigger] f[p][k]).1 < base + f.len() by {
                if 2 <= p < 2 + first.len() {
                    assert(f[p] == left[p - 2]);
                    if p - 2 != 1 {
                        assert(left[p - 2] == first[p - 2]);
                        assert(base + 2 <= first[p - 2][k].1 < base + 2 + first.len());
                    }
                } else if p >= 2 + first.len() {
                    let j = p - 2 - first.len();
                    assert(f[p] == right[j]);
                    if j != 1 {
                        assert(right[j] == second[j]);
                        assert(mid <= second[j][k].1 < mid + second.len());
                    }
                }
            }
            assert forall|p: int| 0 <= p < f.len() implies (#[trigger] f[p]).no_duplicates() by {
                if 2 <= p < 2 + first.len() {
                    assert(f[p] == left[p - 2]);
                    if p - 2 != 1 {
                        assert(left[p - 2] == first[p - 2]);
                    }
                } else if p >= 2 + first.len() {
                    let j = p - 2 - first.len();
                    assert(f[p] == right[j]);
                    if j != 1 {
                        assert(right[j] == second[j]);
                    }
                }
            }
        },
    }
}

/// Thompson's construction makes one entry and one exit node for each node of
/// the syntax tree, and every edge of its graph leads to a node of the
/// graph.
pub proof fn lemma_thompson_wf<T>(re: Re<T>)
    ensures
        thompson(re).nodes.len() == 2 * re.size(),
        thompson(re).wf(),
{
    lemma_fragment(re, 0);
}

} // verus!
