//! Sets of automaton states, kept in one canonical form.
use vstd::prelude::*;

verus! {

/// Each item of `s` is less than the next.
pub open spec fn strictly_increasing(s: Seq<int>) -> bool {
    forall|i: int, j: int| 0 <= i < j < s.len() ==> s[i] < s[j]
}

/// A strictly increasing sequence of numbers from `0` up to, not including,
/// `n` has at most `n` items.
pub proof fn lemma_increasing_bounded(s: Seq<int>, n: int)
    requires
        0 <= n,
        strictly_increasing(s),
        forall|i: int| 0 <= i < s.len() ==> 0 <= #[trigger] s[i] < n,
    ensures
        s.len() <= n,
{
    if s.len() > 0 {
        lemma_increasing_from(s, s.len() - 1);
        assert(s[s.len() - 1] < n);
    }
}

/// The item at place `i` of a strictly increasing sequence of natural numbers
/// is at least `i`.
proof fn lemma_increasing_from(s: Seq<int>, i: int)
    requires
        strictly_increasing(s),
        forall|i: int| 0 <= i < s.len() ==> 0 <= #[trigger] s[i],
        0 <= i < s.len(),
    ensures
        s[i] >= i,
    decreases i,
{
    if i > 0 {
        lemma_increasing_from(s, i - 1);
    }
}

/// Two strictly increasing sequences with the same items are the same
/// sequence.
pub proof fn lemma_increasing_unique(a: Seq<int>, b: Seq<int>)
    requires
        strictly_increasing(a),
        strictly_increasing(b),
        a.to_set() == b.to_set(),
    ensures
        a == b,
    decreases a.len(),
{
    if a.len() == 0 {
        if b.len() > 0 {
            assert(b.contains(b[0]));
            assert(a.to_set().contains(b[0]));
            assert(a.contains(b[0]));
        }
        assert(a =~= b);
    } else if b.len() == 0 {
        assert(a.contains(a[0]));
        assert(b.to_set().contains(a[0]));
        assert(b.contains(a[0]));
    } else {
        let x = a.last();
        let y = b.last();
        assert(a.contains(x));
        assert(b.to_set().contains(x));
        assert(b.contains(x));
        assert(b.contains(y));
        assert(a.to_set().contains(y));
        assert(a.contains(y));
        assert(x == y);
        let a0 = a.drop_last();
        let b0 = b.drop_last();
        assert forall|v: int| a0.to_set().contains(v) <==> b0.to_set().contains(v) by {
            if a0.contains(v) {
                let i = choose|i: int| 0 <= i < a0.len() && a0[i] == v;
                assert(a[i] == v);
                assert(a.contains(v));
                assert(b.to_set().contains(v));
                let j = choose|j: int| 0 <= j < b.len() && b[j] == v;
                assert(v < x);
                assert(j < b.len() - 1);
                assert(b0[j] == v);
            }
            if b0.contains(v) {
                let i = choose|i: int| 0 <= i < b0.len() && b0[i] == v;
                assert(b[i] == v);
                assert(b.contains(v));
                assert(a.to_set().contains(v));
                let j = choose|j: int| 0 <= j < a.len() && a[j] == v;
                assert(v < y);
                assert(j < a.len() - 1);
                assert(a0[j] == v);
            }
        }
        assert(a0.to_set() =~= b0.to_set());
        lemma_increasing_unique(a0, b0);
        assert(a =~= a0.push(x));
        assert(b =~= b0.push(y));
    }
}

/// A set of states. Its members are kept in increasing order, each once, so
/// that two sets with the same members are represented alike, in whatever
/// order the members were added.
#[derive(Debug, PartialEq, Eq, Hash)]
pub struct StateSet {
    members: Vec<usize>,
}

impl View for StateSet {
    type V = Set<int>;

    open spec fn view(&self) -> Set<int> {
        self.listing().to_set()
    }
}

impl StateSet {
    /// The members, in the order in which they are kept.
    pub closed spec fn listing(&self) -> Seq<int> {
        self.members@.map_values(|x: usize| x as int)
    }

    /// The members are kept in increasing order, each once.
    pub open spec fn wf(&self) -> bool {
        strictly_increasing(self.listing())
    }

    /// A set of numbers below `n` has at most `n` members.
    pub proof fn lemma_bounded(&self, n: int)
        requires
            self.wf(),
            0 <= n,
            forall|x: int| self@.contains(x) ==> 0 <= x < n,
        ensures
            self.listing().len() <= n,
    {
        assert forall|i: int| 0 <= i < self.listing().len() implies 0 <= #[trigger] self.listing()[i]
            < n by {
            let x = self.listing()[i];
            assert(self.listing().contains(x));
            assert(self@.contains(x));
        }
        lemma_increasing_bounded(self.listing(), n);
    }

    /// The empty set.
    pub fn new() -> (s: Self)
        ensures
            s.listing() == Seq::<int>::empty(),
            s@ == Set::<int>::empty(),
            s.wf(),
    {
        let s = StateSet { members: Vec::new() };
        assert(s.listing() =~= Seq::<int>::empty());
        assert(s@ =~= Set::<int>::empty());
        s
    }

    /// The number of members.
    pub fn len(&self) -> (n: usize)
        ensures
            n == self.listing().len(),
    {
        self.members.len()
    }

    /// The member at place `i`, counting from the least.
    pub fn get(&self, i: usize) -> (x: usize)
        requires
            i < self.listing().len(),
        ensures
            x as int == self.listing()[i as int],
    {
        self.members[i]
    }

    /// Whether `x` is a member.
    pub fn contains(&self, x: usize) -> (found: bool)
        ensures
            found == self@.contains(x as int),
    {
        let mut i: usize = 0;
        while i < self.members.len()
            invariant
                i <= self.members.len(),
                forall|k: int| 0 <= k < i ==> self.listing()[k] != x as int,
            decreases self.members.len() - i,
        {
            if self.members[i] == x {
                assert(self.listing()[i as int] == x as int);
                return true;
            }
            i = i + 1;
        }
        false
    }

    /// Makes `x` a member. Returns whether it was none before.
    pub fn insert(&mut self, x: usize) -> (added: bool)
        requires
            old(self).wf(),
        ensures
            final(self).wf(),
            final(self)@ == old(self)@.insert(x as int),
            added == !old(self)@.contains(x as int),
            !added ==> final(self).listing() == old(self).listing(),
            added ==> final(self).listing().len() == old(self).listing().len() + 1,
    {
        let mut i: usize = 0;
        while i < self.members.len() && self.members[i] < x
            invariant
                i <= self.members.len(),
                *self == *old(self),
                forall|k: int| 0 <= k < i ==> self.listing()[k] < x as int,
            decreases self.members.len() - i,
        {
            i = i + 1;
        }
        if i < self.members.len() && self.members[i] == x {
            assert(self.listing()[i as int] == x as int);
            assert(self@ =~= old(self)@.insert(x as int));
            return false;
        }
        let ghost before = self.listing();
        assert(!before.contains(x as int)) by {
            if before.contains(x as int) {
                let k = choose|k: int| 0 <= k < before.len() && before[k] == x as int;
                if k >= i {
                    assert(before[i as int] <= before[k]);
                }
            }
        }
        self.members.insert(i, x);
        assert(self.listing() =~= before.insert(i as int, x as int));
        assert(strictly_increasing(self.listing())) by {
            assert forall|a: int, b: int| 0 <= a < b < self.listing().len() implies self.listing()[a]
                < self.listing()[b] by {
                let la = if a < i { a } else { a - 1 };
                let lb = if b < i { b } else { b - 1 };
                if a != i && b != i {
                    assert(before[la] < before[lb]);
                } else if a == i {
                    assert(self.listing()[b] == before[lb]);
                    assert(before[i as int] <= before[lb]);
                } else {
                    assert(self.listing()[a] == before[la]);
                }
            }
        }
        assert(self@ =~= old(self)@.insert(x as int)) by {
            assert forall|v: int| self@.contains(v) <==> old(self)@.insert(x as int).contains(v) by {
                if self.listing().contains(v) {
                    let k = choose|k: int| 0 <= k < self.listing().len() && self.listing()[k] == v;
                    if k < i {
                        assert(before[k] == v);
                    } else if k > i {
                        assert(before[k - 1] == v);
                    }
                }
                if before.contains(v) {
                    let k = choose|k: int| 0 <= k < before.len() && before[k] == v;
                    if k < i {
                        assert(self.listing()[k] == v);
                    } else {
                        assert(self.listing()[k + 1] == v);
                    }
                }
                if v == x as int {
                    assert(self.listing()[i as int] == v);
                }
            }
        }
        true
    }

    /// Whether `self` and `other` have the same members.
    pub fn same(&self, other: &StateSet) -> (equal: bool)
        requires
            self.wf(),
            other.wf(),
        ensures
            equal == (self@ == other@),
    {
        if self.members.len() != other.members.len() {
            proof {
                assert(self.listing().len() != other.listing().len());
                if self@ == other@ {
                    lemma_increasing_unique(self.listing(), other.listing());
                }
            }
            return false;
        }
        let mut i: usize = 0;
        while i < self.members.len()
            invariant
                i <= self.members.len(),
                self.members.len() == other.members.len(),
                self.wf(),
                other.wf(),
                forall|k: int| 0 <= k < i ==> self.listing()[k] == other.listing()[k],
            decreases self.members.len() - i,
        {
            if self.members[i] != other.members[i] {
                proof {
                    assert(self.listing()[i as int] != other.listing()[i as int]);
                    if self@ == other@ {
                        lemma_increasing_unique(self.listing(), other.listing());
                    }
                }
                return false;
            }
            i = i + 1;
        }
        assert(self.listing() =~= other.listing());
        true
    }

    /// A copy of the set.
    pub fn duplicate(&self) -> (copy: Self)
        ensures
            copy.listing() == self.listing(),
            copy@ == self@,
            copy.wf() == self.wf(),
    {
        let mut members: Vec<usize> = Vec::new();
        let mut i: usize = 0;
        while i < self.members.len()
            invariant
                i <= self.members.len(),
                members@ == self.members@.subrange(0, i as int),
            decreases self.members.len() - i,
        {
            members.push(self.members[i]);
            i = i + 1;
        }
        assert(members@ =~= self.members@);
        StateSet { members }
    }
}

} // verus!
