use vstd::prelude::*;

verus! {

/// A sequence of `usize` values is sorted in non-decreasing order.
pub open spec fn sorted(s: Seq<usize>) -> bool {
    forall|i: int, j: int| 0 <= i <= j < s.len() ==> s[i] <= s[j]
}

/// A sequence of `usize` values is strictly increasing, so it is sorted and
/// holds no value twice.
pub open spec fn strictly_sorted(s: Seq<usize>) -> bool {
    forall|i: int, j: int| 0 <= i < j < s.len() ==> s[i] < s[j]
}

/// A set of integers implemented as a strictly sorted vector.
#[derive(Clone, Debug, Eq)]
pub struct IntSet(Vec<usize>);

impl View for IntSet {
    type V = Seq<usize>;

    closed spec fn view(&self) -> Seq<usize> {
        self.0@
    }
}

impl PartialEq for IntSet {
    fn eq(&self, other: &IntSet) -> (r: bool) {
        let r = self.0 == other.0;
        proof {
            if r {
                assert(self@ =~= other@);
            }
        }
        r
    }
}

impl vstd::std_specs::cmp::PartialEqSpecImpl for IntSet {
    open spec fn obeys_eq_spec() -> bool {
        true
    }

    open spec fn eq_spec(&self, other: &IntSet) -> bool {
        self@ == other@
    }
}

/// Insert `v` into a strictly sorted vector, keeping it strictly sorted and
/// dropping the value when it is already present.
fn sorted_set_insert(out: &mut Vec<usize>, v: usize)
    requires
        strictly_sorted(old(out)@),
    ensures
        strictly_sorted(final(out)@),
        final(out)@.to_set() == old(out)@.to_set().insert(v),
{
    let ghost out0 = out@;
    let mut i: usize = 0;
    while i < out.len() && out[i] < v
        invariant
            out@ == out0,
            strictly_sorted(out@),
            i <= out@.len(),
            forall|k: int| 0 <= k < i ==> out@[k] < v,
        decreases out@.len() - i,
    {
        i += 1;
    }
    if i == out.len() {
        out.push(v);
        proof {
            assert forall|x: usize| out@.to_set().contains(x) implies out0.to_set().insert(
                v,
            ).contains(x) by {
                let k = choose|k: int| 0 <= k < out@.len() && out@[k] == x;
                if k < out0.len() {
                    assert(out0[k] == x);
                }
            }
            assert forall|x: usize| out0.to_set().insert(v).contains(x) implies out@.to_set()
                .contains(x) by {
                if x == v {
                    assert(out@[out0.len() as int] == v);
                } else {
                    let k = choose|k: int| 0 <= k < out0.len() && out0[k] == x;
                    assert(out@[k] == x);
                }
            }
            assert(out@.to_set() =~= out0.to_set().insert(v));
        }
    } else if out[i] == v {
        proof {
            assert(out0[i as int] == v);
            assert(out0.to_set().contains(v));
            assert(out@.to_set() =~= out0.to_set().insert(v));
        }
    } else {
        out.insert(i, v);
        proof {
            out0.insert_ensures(i as int, v);
            assert forall|p: int, q: int| 0 <= p < q < out@.len() implies out@[p] < out@[q] by {
                if p < i {
                    assert(out@[p] == out0[p]);
                }
                if q < i {
                    assert(out@[q] == out0[q]);
                }
                if p > i {
                    assert(out@[p] == out0[p - 1]);
                }
                if q > i {
                    assert(out@[q] == out0[q - 1]);
                    assert(out0[i as int] > v);
                    if q - 1 > i {
                        assert(out0[i as int] <= out0[q - 1]);
                    }
                }
            }
            assert forall|x: usize| out@.to_set().contains(x) implies out0.to_set().insert(
                v,
            ).contains(x) by {
                let k = choose|k: int| 0 <= k < out@.len() && out@[k] == x;
                if k < i {
                    assert(out0[k] == x);
                } else if k > i {
                    assert(out0[k - 1] == x);
                }
            }
            assert forall|x: usize| out0.to_set().insert(v).contains(x) implies out@.to_set()
                .contains(x) by {
                if x == v {
                    assert(out@[i as int] == v);
                } else {
                    let k = choose|k: int| 0 <= k < out0.len() && out0[k] == x;
                    if k < i {
                        assert(out@[k] == x);
                    } else {
                        assert(out@[k + 1] == x);
                    }
                }
            }
            assert(out@.to_set() =~= out0.to_set().insert(v));
        }
    }
}

impl IntSet {
    /// The representation invariant: the stored values are strictly
    /// increasing, so the vector really is a duplicate-free ordered set.
    pub open spec fn inv(&self) -> bool {
        strictly_sorted(self@)
    }

    /// Create a new set from the given values. Duplicates are removed and
    /// the values are sorted ascending.
    pub fn from(values: Vec<usize>) -> (r: IntSet)
        ensures
            r.inv(),
            r@.to_set() == values@.to_set(),
    {
        let mut out: Vec<usize> = Vec::new();
        let mut i: usize = 0;
        proof {
            assert(out@.to_set() =~= values@.take(0).to_set());
        }
        while i < values.len()
            invariant
                i <= values@.len(),
                strictly_sorted(out@),
                out@.to_set() == values@.take(i as int).to_set(),
            decreases values@.len() - i,
        {
            sorted_set_insert(&mut out, values[i]);
            proof {
                assert(values@.take(i + 1).drop_last() == values@.take(i as int));
                assert forall|x: usize| values@.take(i + 1).to_set().contains(x) implies values@
                    .take(i as int).to_set().insert(values@[i as int]).contains(x) by {
                    let k = choose|k: int| 0 <= k <= i && #[trigger] values@.take(i + 1)[k] == x;
                    if k < i {
                        assert(values@.take(i as int)[k] == x);
                    }
                }
                assert forall|x: usize|
                    values@.take(i as int).to_set().insert(values@[i as int]).contains(
                        x,
                    ) implies values@.take(i + 1).to_set().contains(x) by {
                    if x == values@[i as int] {
                        assert(values@.take(i + 1)[i as int] == x);
                    } else {
                        let k = choose|k: int| 0 <= k < i && values@.take(i as int)[k] == x;
                        assert(values@.take(i + 1)[k] == x);
                    }
                }
                assert(values@.take(i + 1).to_set() =~= values@.take(i as int).to_set().insert(
                    values@[i as int],
                ));
            }
            i += 1;
        }
        proof {
            assert(values@.take(values@.len() as int) == values@);
        }
        IntSet(out)
    }

    /// The number of items in the set.
    pub fn len(&self) -> (n: usize)
        ensures
            n == self@.len(),
    {
        self.0.len()
    }

    /// Get the item at position `i` of the ascending order.
    pub fn at(&self, i: usize) -> (v: usize)
        requires
            i < self@.len(),
        ensures
            v == self@[i as int],
    {
        self.0[i]
    }

    /// Get the items as a slice, in ascending order.
    pub fn as_slice(&self) -> (s: &[usize])
        ensures
            s@ == self@,
    {
        self.0.as_slice()
    }

    /// Iterate over the items in ascending order.
    pub fn iter(&self) -> (it: std::slice::Iter<'_, usize>)
        ensures
            vstd::std_specs::iter::IteratorSpec::remaining(&it) == self@.as_ref(),
    {
        proof {
            broadcast use vstd::std_specs::slice::axiom_spec_slice_iter;
        }
        self.0.as_slice().iter()
    }
}

/// A multiset of integers implemented as a sorted vector; duplicates are
/// retained.
#[derive(Clone, Debug, Eq)]
pub struct IntMultiset(Vec<usize>);

impl View for IntMultiset {
    type V = Seq<usize>;

    closed spec fn view(&self) -> Seq<usize> {
        self.0@
    }
}

impl PartialEq for IntMultiset {
    fn eq(&self, other: &IntMultiset) -> (r: bool) {
        let r = self.0 == other.0;
        proof {
            if r {
                assert(self@ =~= other@);
            }
        }
        r
    }
}

impl vstd::std_specs::cmp::PartialEqSpecImpl for IntMultiset {
    open spec fn obeys_eq_spec() -> bool {
        true
    }

    open spec fn eq_spec(&self, other: &IntMultiset) -> bool {
        self@ == other@
    }
}

/// Insert `v` into a sorted vector, keeping it sorted and keeping every
/// copy of every value.
fn sorted_multiset_insert(out: &mut Vec<usize>, v: usize)
    requires
        sorted(old(out)@),
    ensures
        sorted(final(out)@),
        final(out)@.to_multiset() == old(out)@.to_multiset().insert(v),
        final(out)@.len() == old(out)@.len() + 1,
{
    let ghost out0 = out@;
    let mut i: usize = 0;
    while i < out.len() && out[i] < v
        invariant
            out@ == out0,
            sorted(out@),
            i <= out@.len(),
            forall|k: int| 0 <= k < i ==> out@[k] < v,
        decreases out@.len() - i,
    {
        i += 1;
    }
    out.insert(i, v);
    proof {
        out0.insert_ensures(i as int, v);
        assert forall|p: int, q: int| 0 <= p <= q < out@.len() implies out@[p] <= out@[q] by {
            if p < i {
                assert(out@[p] == out0[p]);
            }
            if q < i {
                assert(out@[q] == out0[q]);
            }
            if p > i {
                assert(out@[p] == out0[p - 1]);
            }
            if q > i {
                assert(out@[q] == out0[q - 1]);
                assert(out0[i as int] >= v);
                if q - 1 > i {
                    assert(out0[i as int] <= out0[q - 1]);
                }
            }
        }
        vstd::seq_lib::to_multiset_insert(out0, i as int, v);
    }
}

impl IntMultiset {
    /// The representation invariant: the stored values are sorted ascending.
    pub open spec fn inv(&self) -> bool {
        sorted(self@)
    }

    /// Create a new multiset from the given values: the values sorted
    /// ascending, none dropped.
    pub fn from(values: Vec<usize>) -> (r: IntMultiset)
        ensures
            r.inv(),
            r@.to_multiset() == values@.to_multiset(),
            r@.len() == values@.len(),
    {
        let mut out: Vec<usize> = Vec::new();
        let mut i: usize = 0;
        proof {
            broadcast use vstd::seq_lib::group_to_multiset_ensures;

            assert(out@.to_multiset() =~= values@.take(0).to_multiset());
        }
        while i < values.len()
            invariant
                i <= values@.len(),
                sorted(out@),
                out@.len() == i,
                out@.to_multiset() == values@.take(i as int).to_multiset(),
            decreases values@.len() - i,
        {
            sorted_multiset_insert(&mut out, values[i]);
            proof {
                broadcast use vstd::seq_lib::group_to_multiset_ensures;

                assert(values@.take(i + 1).drop_last() == values@.take(i as int));
                assert(values@.take(i + 1) == values@.take(i as int).push(values@[i as int]));
            }
            i += 1;
        }
        proof {
            assert(values@.take(values@.len() as int) == values@);
            broadcast use vstd::seq_lib::to_multiset_len;

        }
        IntMultiset(out)
    }

    /// The number of items in the multiset including duplicates.
    pub fn len(&self) -> (n: usize)
        ensures
            n == self@.len(),
    {
        self.0.len()
    }

    /// Get the items as a slice, in ascending order.
    pub fn as_slice(&self) -> (s: &[usize])
        ensures
            s@ == self@,
    {
        self.0.as_slice()
    }

    /// Test whether this multiset is a set, meaning that no value occurs
    /// twice. Since the values are sorted only adjacent values need to be
    /// compared.
    pub fn is_set(&self) -> (r: bool)
        requires
            self.inv(),
        ensures
            r <==> self@.no_duplicates(),
            r <==> (forall|i: int| 0 < i < self@.len() ==> #[trigger] self@[i - 1] != self@[i]),
    {
        let n = self.0.len();
        let mut i: usize = 1;
        while i < n
            invariant
                n == self@.len(),
                1 <= i,
                sorted(self@),
                forall|k: int| 0 < k < i && k < self@.len() ==> #[trigger] self@[k - 1] != self@[k],
            decreases n - i,
        {
            if self.0[i] == self.0[i - 1] {
                proof {
                    assert(!self@.no_duplicates());
                    assert(!(forall|k: int|
                        0 < k < self@.len() ==> #[trigger] self@[k - 1] != self@[k])) by {
                        assert(self@[i as int - 1] == self@[i as int]);
                    }
                }
                return false;
            }
            i += 1;
        }
        proof {
            assert forall|p: int, q: int|
                0 <= p < self@.len() && 0 <= q < self@.len() && p != q implies self@[p]
                != self@[q] by {
                let lo = if p < q {
                    p
                } else {
                    q
                };
                let hi = if p < q {
                    q
                } else {
                    p
                };
                assert(self@[lo] <= self@[lo + 1]);
                assert(self@[lo + 1] <= self@[hi]);
                assert(self@[(lo + 1) - 1] != self@[lo + 1]);
            }
        }
        true
    }
}

/// Whether a sequence holds some value twice depends only on which values
/// it holds and how often: two sequences with the same multiset of values
/// agree on the duplicate test. In particular sorting preserves it.
pub proof fn lemma_no_duplicates_permutation(v: Seq<usize>, w: Seq<usize>)
    requires
        v.to_multiset() == w.to_multiset(),
    ensures
        v.no_duplicates() <==> w.no_duplicates(),
{
    if v.no_duplicates() {
        v.lemma_multiset_has_no_duplicates();
        w.lemma_multiset_has_no_duplicates_conv();
    }
    if w.no_duplicates() {
        w.lemma_multiset_has_no_duplicates();
        v.lemma_multiset_has_no_duplicates_conv();
    }
}

/// Two strictly sorted sequences holding the same set of values are equal.
/// In particular, rebuilding a set from its own elements gives the set back
/// unchanged: construction is a fixed point on already sorted,
/// duplicate-free data.
pub proof fn lemma_strictly_sorted_same_set(x: Seq<usize>, y: Seq<usize>)
    requires
        strictly_sorted(x),
        strictly_sorted(y),
        x.to_set() == y.to_set(),
    ensures
        x == y,
{
    let leq = |a: usize, b: usize| a <= b;
    assert forall|v: usize| x.to_multiset().count(v) == y.to_multiset().count(v) by {
        broadcast use vstd::seq_lib::group_to_multiset_ensures;

        x.lemma_multiset_has_no_duplicates();
        y.lemma_multiset_has_no_duplicates();
        if x.contains(v) {
            assert(x.to_set().contains(v));
            assert(y.contains(v));
        }
        if y.contains(v) {
            assert(y.to_set().contains(v));
            assert(x.contains(v));
        }
    }
    assert(x.to_multiset() =~= y.to_multiset());
    vstd::seq_lib::lemma_sorted_unique(x, y, leq);
}

} // verus!
