use vstd::prelude::*;

use crate::int_set::{strictly_sorted, IntMultiset, IntSet};

verus! {

/// The differences between `s[i]` and each later element of `s`, in order.
pub open spec fn row_diffs(s: Seq<usize>, i: int) -> Seq<usize> {
    Seq::new((s.len() - i - 1) as nat, |k: int| ((s[i + 1 + k] - s[i]) as usize))
}

/// The pairwise differences `s[j] - s[i]` of all index pairs `i < j`,
/// row by row: first the differences against `s[0]`, then against `s[1]`,
/// and so on.
pub open spec fn diffs_from(s: Seq<usize>, i: int) -> Seq<usize>
    decreases s.len() - i,
{
    if i < 0 || i >= s.len() {
        Seq::empty()
    } else {
        row_diffs(s, i) + diffs_from(s, i + 1)
    }
}

/// All pairwise differences of `s`, row by row.
pub open spec fn diffs(s: Seq<usize>) -> Seq<usize> {
    diffs_from(s, 0)
}

/// The number of unordered pairs of `n` elements.
pub open spec fn pair_count(n: int) -> int {
    if n <= 0 {
        0
    } else {
        n * (n - 1) / 2
    }
}

/// Normalized lengths in an interferometer.
#[derive(Clone, Debug, Eq)]
pub struct Lengths {
    /// The normalized lengths of the axes, treated with set semantics.
    pub lengths: IntSet,
    /// The number of axes in the interferometer: one per unordered pair of
    /// lengths.
    pub axes: usize,
    /// The normalized optical path differences in the interferometer.
    pub opds: IntMultiset,
    /// Whether the interferometer is totally demodulatable, meaning that
    /// all optical path differences are unique.
    pub is_demodulatable: bool,
}

impl PartialEq for Lengths {
    fn eq(&self, other: &Lengths) -> (r: bool) {
        self.lengths == other.lengths && self.axes == other.axes && self.opds == other.opds
            && self.is_demodulatable == other.is_demodulatable
    }
}

impl vstd::std_specs::cmp::PartialEqSpecImpl for Lengths {
    open spec fn obeys_eq_spec() -> bool {
        true
    }

    open spec fn eq_spec(&self, other: &Lengths) -> bool {
        &&& self.lengths@ == other.lengths@
        &&& self.axes == other.axes
        &&& self.opds@ == other.opds@
        &&& self.is_demodulatable == other.is_demodulatable
    }
}

impl Lengths {
    /// The derived fields agree with `lengths`: `axes` counts the unordered
    /// pairs, `opds` holds exactly the pairwise differences sorted
    /// ascending, and `is_demodulatable` reports that no difference occurs
    /// twice.
    pub open spec fn wf(&self) -> bool {
        &&& self.lengths.inv()
        &&& self.opds.inv()
        &&& self.opds@.to_multiset() == diffs(self.lengths@).to_multiset()
        &&& self.axes == pair_count(self.lengths@.len() as int)
        &&& (self.is_demodulatable <==> self.opds@.no_duplicates())
    }

    /// Create a new configuration with the given normalized lengths,
    /// computing the pair count, the pairwise differences and the
    /// uniqueness flag once.
    pub fn from(lengths: IntSet) -> (r: Lengths)
        requires
            lengths.inv(),
            lengths@.len() * (lengths@.len() - 1) <= usize::MAX,
        ensures
            r.wf(),
            r.lengths == lengths,
    {
        let ghost s = lengths@;
        let n = lengths.len();
        let axes: usize = if n == 0 {
            0
        } else {
            n * (n - 1) / 2
        };
        proof {
            assert(axes == pair_count(s.len() as int));
        }
        let mut raw: Vec<usize> = Vec::new();
        proof {
            assert(raw@ + diffs_from(s, 0) =~= diffs(s));
        }
        let mut i: usize = 0;
        while i < n
            invariant
                n == s.len(),
                s == lengths@,
                strictly_sorted(s),
                i <= n,
                raw@ + diffs_from(s, i as int) == diffs(s),
            decreases n - i,
        {
            let ghost row_start = raw@;
            let base = lengths.at(i);
            let mut j: usize = i + 1;
            proof {
                assert(raw@ =~= row_start + row_diffs(s, i as int).take(0));
            }
            while j < n
                invariant
                    n == s.len(),
                    s == lengths@,
                    strictly_sorted(s),
                    i < n,
                    i + 1 <= j <= n,
                    base == s[i as int],
                    raw@ == row_start + row_diffs(s, i as int).take(j - i - 1),
                decreases n - j,
            {
                let v = lengths.at(j);
                raw.push(v - base);
                proof {
                    let row = row_diffs(s, i as int);
                    assert(row[j - i - 1] == v - base);
                    assert(row.take(j - i) =~= row.take(j - i - 1).push(row[j - i - 1]));
                    assert(raw@ =~= row_start + row.take(j - i));
                }
                j += 1;
            }
            proof {
                let row = row_diffs(s, i as int);
                assert(row.take(n - i - 1) =~= row);
                assert(raw@ == row_start + row);
                assert(diffs_from(s, i as int) == row + diffs_from(s, i + 1));
                assert((row_start + row) + diffs_from(s, i + 1) =~= row_start + (row + diffs_from(
                    s,
                    i + 1,
                )));
                assert(raw@ + diffs_from(s, i + 1) == diffs(s));
            }
            i += 1;
        }
        proof {
            assert(diffs_from(s, n as int) == Seq::<usize>::empty());
            assert(raw@ + Seq::<usize>::empty() =~= raw@);
        }
        let opds = IntMultiset::from(raw);
        let is_demodulatable = opds.is_set();
        Lengths { lengths, axes, opds, is_demodulatable }
    }

    /// The normalized lengths of the axes, treated with set semantics.
    pub fn lengths(&self) -> (r: &IntSet)
        ensures
            r == self.lengths,
    {
        &self.lengths
    }
}

/// A well-formed configuration is demodulatable exactly when the sequence
/// of its pairwise differences holds no value twice.
pub proof fn lemma_demodulatable_unique_diffs(l: Lengths)
    requires
        l.wf(),
    ensures
        l.is_demodulatable <==> diffs(l.lengths@).no_duplicates(),
{
    crate::int_set::lemma_no_duplicates_permutation(l.opds@, diffs(l.lengths@));
}

/// Every strictly increasing sequence of `k` values drawn from the
/// half-open interval `[lo, hi)`, in lexicographic order: first the
/// sequences beginning with `lo`, then those beginning with a larger value.
pub open spec fn combos(k: nat, lo: int, hi: int) -> Seq<Seq<usize>>
    decreases hi - lo,
{
    if k == 0 {
        seq![Seq::<usize>::empty()]
    } else if lo >= hi {
        Seq::<Seq<usize>>::empty()
    } else {
        combos((k - 1) as nat, lo + 1, hi).map_values(|c: Seq<usize>| seq![lo as usize] + c)
            + combos(k, lo + 1, hi)
    }
}

/// Each combination has length `k`, is strictly increasing, and draws its
/// values from `[lo, hi)`.
pub proof fn lemma_combos_element_props(k: nat, lo: int, hi: int, x: int)
    requires
        0 <= lo,
        hi <= usize::MAX,
        0 <= x < combos(k, lo, hi).len(),
    ensures
        combos(k, lo, hi)[x].len() == k,
        strictly_sorted(combos(k, lo, hi)[x]),
        forall|j: int|
            0 <= j < k ==> lo <= #[trigger] combos(k, lo, hi)[x][j] < hi,
    decreases hi - lo,
{
    if k == 0 {
        assert(combos(k, lo, hi)[x] == Seq::<usize>::empty());
    } else if lo >= hi {
        // no combinations at all
    } else {
        let first = combos((k - 1) as nat, lo + 1, hi).map_values(
            |c: Seq<usize>| seq![lo as usize] + c,
        );
        let rest = combos(k, lo + 1, hi);
        if x < first.len() {
            let c = combos((k - 1) as nat, lo + 1, hi)[x];
            lemma_combos_element_props((k - 1) as nat, lo + 1, hi, x);
            assert(combos(k, lo, hi)[x] == seq![lo as usize] + c);
            let w = seq![lo as usize] + c;
            assert(w.len() == k);
            assert forall|p: int, q: int| 0 <= p < q < w.len() implies w[p] < w[q] by {
                if p == 0 {
                    assert(w[q] == c[q - 1]);
                } else {
                    assert(w[p] == c[p - 1]);
                    assert(w[q] == c[q - 1]);
                }
            }
            assert forall|j: int| 0 <= j < k implies lo <= #[trigger] w[j] < hi by {
                if j > 0 {
                    assert(w[j] == c[j - 1]);
                }
            }
        } else {
            lemma_combos_element_props(k, lo + 1, hi, x - first.len());
            assert(combos(k, lo, hi)[x] == rest[x - first.len()]);
        }
    }
}

/// Mapping a function over a concatenation maps it over both halves.
proof fn lemma_map_values_distributes_add<A, B>(a: Seq<A>, b: Seq<A>, f: spec_fn(A) -> B)
    ensures
        (a + b).map_values(f) == a.map_values(f) + b.map_values(f),
{
    assert forall|x: int| 0 <= x < (a + b).len() implies #[trigger] (a + b).map_values(f)[x] == (
    a.map_values(f) + b.map_values(f))[x] by {
        if x < a.len() {
            assert((a + b)[x] == a[x]);
        } else {
            assert((a + b)[x] == b[x - a.len()]);
        }
    }
    assert((a + b).map_values(f) =~= a.map_values(f) + b.map_values(f));
}

/// Generate every strictly increasing sequence of `k` values from the
/// half-open interval `[lo, hi)`, in lexicographic order.
fn gen_combos(k: usize, lo: usize, hi: usize) -> (r: Vec<Vec<usize>>)
    requires
        lo <= hi,
    ensures
        r@.map_values(|v: Vec<usize>| v@) == combos(k as nat, lo as int, hi as int),
    decreases hi - lo, k,
{
    if k == 0 {
        let mut r: Vec<Vec<usize>> = Vec::new();
        let empty: Vec<usize> = Vec::new();
        r.push(empty);
        proof {
            assert(r@.map_values(|v: Vec<usize>| v@) =~= seq![Seq::<usize>::empty()]);
        }
        r
    } else if lo >= hi {
        let r: Vec<Vec<usize>> = Vec::new();
        proof {
            assert(r@.map_values(|v: Vec<usize>| v@) =~= Seq::<Seq<usize>>::empty());
        }
        r
    } else {
        let ghost cfirst = combos((k - 1) as nat, lo as int + 1, hi as int).map_values(
            |c: Seq<usize>| seq![lo as usize] + c,
        );
        let ghost crest = combos(k as nat, lo as int + 1, hi as int);
        let with_lo = gen_combos(k - 1, lo + 1, hi);
        let mut r: Vec<Vec<usize>> = Vec::new();
        let mut i: usize = 0;
        proof {
            assert(r@.map_values(|v: Vec<usize>| v@) =~= cfirst.take(0));
        }
        while i < with_lo.len()
            invariant
                i <= with_lo@.len(),
                with_lo@.map_values(|v: Vec<usize>| v@) == combos(
                    (k - 1) as nat,
                    lo as int + 1,
                    hi as int,
                ),
                cfirst == combos((k - 1) as nat, lo as int + 1, hi as int).map_values(
                    |c: Seq<usize>| seq![lo as usize] + c,
                ),
                r@.map_values(|v: Vec<usize>| v@) == cfirst.take(i as int),
            decreases with_lo@.len() - i,
        {
            let mut nv: Vec<usize> = Vec::new();
            nv.push(lo);
            nv.extend_from_slice(with_lo[i].as_slice());
            proof {
                assert(with_lo@.map_values(|v: Vec<usize>| v@)[i as int] == with_lo@[i as int]@);
                assert(nv@ == seq![lo as usize] + with_lo@[i as int]@);
                assert(cfirst[i as int] == seq![lo as usize] + combos(
                    (k - 1) as nat,
                    lo as int + 1,
                    hi as int,
                )[i as int]);
            }
            let ghost rprev = r@;
            r.push(nv);
            proof {
                broadcast use vstd::prelude::Seq::lemma_push_map_commute;

                assert(r@ == rprev.push(nv));
                assert(r@.map_values(|v: Vec<usize>| v@) == rprev.map_values(
                    |v: Vec<usize>| v@,
                ).push(nv@));
                assert(r@.map_values(|v: Vec<usize>| v@) =~= cfirst.take(i + 1));
            }
            i += 1;
        }
        proof {
            assert(cfirst.take(cfirst.len() as int) == cfirst);
        }
        let mut rest = gen_combos(k, lo + 1, hi);
        let ghost r0 = r@;
        let ghost rest0 = rest@;
        r.append(&mut rest);
        proof {
            lemma_map_values_distributes_add(r0, rest0, |v: Vec<usize>| v@);
            assert(r@ == r0 + rest0);
            assert(combos(k as nat, lo as int, hi as int) == cfirst + crest);
        }
        r
    }
}

/// One candidate position sequence for a choice `c` of interior values:
/// 0, then the interior values, then `largest`.
pub open spec fn case_positions(c: Seq<usize>, largest: int) -> Seq<usize> {
    seq![0usize] + c + seq![(largest as usize)]
}

/// Every candidate position sequence of `size` values with smallest value
/// 0 and largest value `largest`, in the order the enumerator yields them.
pub open spec fn case_list(size: int, largest: int) -> Seq<Seq<usize>> {
    combos((size - 2) as nat, 1, largest).map_values(
        |c: Seq<usize>| case_positions(c, largest),
    )
}

/// An enumerator of candidate [`Lengths`], yielded one at a time.
pub struct Cases {
    /// The configurations not yet yielded, in order.
    items: Vec<Lengths>,
}

impl Cases {
    /// The configurations still to be yielded, in order.
    pub closed spec fn remaining(&self) -> Seq<Lengths> {
        self.items@
    }

    /// The position sequences of the configurations still to be yielded.
    pub open spec fn remaining_positions(&self) -> Seq<Seq<usize>> {
        self.remaining().map_values(|l: Lengths| l.lengths@)
    }

    /// Every configuration still to be yielded is well formed.
    pub open spec fn wf(&self) -> bool {
        forall|x: int|
            0 <= x < self.remaining().len() ==> (#[trigger] self.remaining()[x]).wf()
    }

    /// Generate candidate [`Lengths`] of a given `size`: every valid
    /// configuration whose smallest value is 0 and whose largest value is
    /// `largest`, in lexicographic order of the interior values.
    pub fn up_to(size: usize, largest: usize) -> (r: Cases)
        requires
            size >= 2,
            largest >= size - 1,
            size * (size - 1) <= usize::MAX,
        ensures
            r.wf(),
            r.remaining_positions() == case_list(size as int, largest as int),
    {
        let ghost cs = combos((size - 2) as nat, 1, largest as int);
        let ghost cl = case_list(size as int, largest as int);
        let combo_vecs = gen_combos(size - 2, 1, largest);
        let mut items: Vec<Lengths> = Vec::new();
        let mut i: usize = 0;
        proof {
            assert(items@.map_values(|l: Lengths| l.lengths@) =~= cl.take(0));
        }
        while i < combo_vecs.len()
            invariant
                size >= 2,
                largest >= size - 1,
                size * (size - 1) <= usize::MAX,
                combo_vecs@.map_values(|v: Vec<usize>| v@) == cs,
                cs == combos((size - 2) as nat, 1, largest as int),
                cl == case_list(size as int, largest as int),
                i <= combo_vecs@.len(),
                items@.map_values(|l: Lengths| l.lengths@) == cl.take(i as int),
                forall|x: int| 0 <= x < items@.len() ==> (#[trigger] items@[x]).wf(),
            decreases combo_vecs@.len() - i,
        {
            let ghost c = cs[i as int];
            let mut pv: Vec<usize> = Vec::new();
            pv.push(0);
            pv.extend_from_slice(combo_vecs[i].as_slice());
            pv.push(largest);
            proof {
                assert(combo_vecs@.map_values(|v: Vec<usize>| v@)[i as int] == combo_vecs@[i as int]@);
                assert(pv@ =~= seq![0usize] + c + seq![largest]);
                lemma_combos_element_props((size - 2) as nat, 1, largest as int, i as int);
                assert forall|p: int, q: int| 0 <= p < q < pv@.len() implies pv@[p] < pv@[q] by {
                    assert(pv@[0] == 0);
                    assert(pv@[pv@.len() - 1] == largest);
                    if 0 < p {
                        assert(pv@[p] == c[p - 1]);
                    }
                    if q < pv@.len() - 1 {
                        assert(pv@[q] == c[q - 1]);
                    }
                }
            }
            let set = IntSet::from(pv);
            proof {
                crate::int_set::lemma_strictly_sorted_same_set(set@, pv@);
                assert(set@.len() == size);
            }
            let l = Lengths::from(set);
            let ghost items_prev = items@;
            items.push(l);
            proof {
                broadcast use vstd::prelude::Seq::lemma_push_map_commute;

                assert(items@ == items_prev.push(l));
                assert(cl[i as int] == case_positions(c, largest as int));
                assert(items@.map_values(|l: Lengths| l.lengths@) =~= cl.take(i + 1));
            }
            i += 1;
        }
        proof {
            assert(cl.take(cl.len() as int) == cl);
            assert(combo_vecs@.len() == cs.len());
            assert(cl.len() == cs.len());
        }
        Cases { items }
    }

    /// The number of configurations still to be yielded.
    pub fn len(&self) -> (n: usize)
        ensures
            n == self.remaining().len(),
    {
        self.items.len()
    }

    /// Yield the next configuration, or `None` once every configuration
    /// has been yielded.
    pub fn next(&mut self) -> (r: Option<Lengths>)
        ensures
            old(self).remaining().len() > 0 ==> r == Some(old(self).remaining()[0])
                && final(self).remaining() == old(self).remaining().drop_first(),
            old(self).remaining().len() == 0 ==> r is None && final(self).remaining() == old(
                self,
            ).remaining(),
    {
        if self.items.len() > 0 {
            let l = self.items.remove(0);
            proof {
                assert(self.items@ =~= old(self).remaining().drop_first());
            }
            Some(l)
        } else {
            None
        }
    }
}

/// The position sequences of a sequence of configurations.
pub open spec fn positions_of(ls: Seq<Lengths>) -> Seq<Seq<usize>> {
    ls.map_values(|l: Lengths| l.lengths@)
}

/// The members of a sequence of position sequences whose pairwise
/// differences are all distinct, in order.
pub open spec fn demodulatable_of(ps: Seq<Seq<usize>>) -> Seq<Seq<usize>> {
    ps.filter(|p: Seq<usize>| diffs(p).no_duplicates())
}

/// The demodulatable candidates of a given size and largest value, in
/// enumeration order.
pub open spec fn solution_list(size: int, largest: int) -> Seq<Seq<usize>> {
    demodulatable_of(case_list(size, largest))
}

/// What a successful search returns: the whole solution list of the first
/// largest value at or above `start` whose solution list is non-empty.
pub open spec fn is_find_result(size: int, start: int, r: Seq<Seq<usize>>) -> bool {
    exists|m: int|
        {
            &&& start <= m <= usize::MAX
            &&& r == #[trigger] solution_list(size, m)
            &&& r.len() > 0
            &&& forall|m2: int| start <= m2 < m ==> solution_list(size, m2).len() == 0
        }
}

/// The solutions for an interferometer: every demodulatable configuration
/// of the requested size, found at the first tried span that has one.
pub struct Solutions(Vec<Lengths>);

impl View for Solutions {
    type V = Seq<Lengths>;

    closed spec fn view(&self) -> Seq<Lengths> {
        self.0@
    }
}

impl Solutions {
    /// The position sequences of the solutions, in order.
    pub open spec fn positions(&self) -> Seq<Seq<usize>> {
        positions_of(self@)
    }

    /// Every solution is a well-formed, demodulatable configuration.
    pub open spec fn wf(&self) -> bool {
        forall|x: int|
            0 <= x < self@.len() ==> (#[trigger] self@[x]).wf() && self@[x].is_demodulatable
    }

    /// Find all solutions for an interferometer of a given `size` (which
    /// is the number of lengths), starting at the given maximum length.
    ///
    /// The allowed largest length is incremented until one or more
    /// solutions are found for it; all solutions for the first largest
    /// length that has one are returned. If no largest length that fits a
    /// `usize` has a solution the result is empty; for the sizes this
    /// search is used on a solution exists long before that bound.
    pub fn find_starting_at(size: usize, largest: usize) -> (r: Solutions)
        requires
            size >= 2,
            largest >= size - 1,
            size * (size - 1) <= usize::MAX,
        ensures
            r.wf(),
            (exists|m: int|
                largest <= m <= usize::MAX && (#[trigger] solution_list(size as int, m)).len()
                    > 0) ==> is_find_result(size as int, largest as int, r.positions()),
            !(exists|m: int|
                largest <= m <= usize::MAX && (#[trigger] solution_list(size as int, m)).len()
                    > 0) ==> r@.len() == 0,
    {
        let mut span = largest;
        loop
            invariant
                size >= 2,
                largest >= size - 1,
                size * (size - 1) <= usize::MAX,
                largest <= span <= usize::MAX,
                span >= size - 1,
                forall|m2: int|
                    largest <= m2 < span ==> solution_list(size as int, m2).len() == 0,
            decreases usize::MAX - span,
        {
            let ghost full = case_list(size as int, span as int);
            let mut cases = Cases::up_to(size, span);
            let mut found: Vec<Lengths> = Vec::new();
            let ghost mut done: Seq<Seq<usize>> = Seq::empty();
            let mut n_left = cases.len();
            proof {
                reveal(Seq::filter);
                assert(done + cases.remaining_positions() =~= full);
                assert(demodulatable_of(done) =~= Seq::<Seq<usize>>::empty());
                assert(positions_of(found@) =~= Seq::<Seq<usize>>::empty());
            }
            while n_left > 0
                invariant
                    cases.wf(),
                    n_left == cases.remaining().len(),
                    done + cases.remaining_positions() == full,
                    positions_of(found@) == demodulatable_of(done),
                    forall|x: int|
                        0 <= x < found@.len() ==> (#[trigger] found@[x]).wf()
                            && found@[x].is_demodulatable,
                decreases n_left,
            {
                let ghost done_prev = done;
                let ghost rem_prev = cases.remaining();
                let l = cases.next().unwrap();
                proof {
                    assert(l == rem_prev[0]);
                    assert(l.wf());
                    let p = l.lengths@;
                    done = done.push(p);
                    // the processed prefix grows by one position sequence
                    assert(positions_of(rem_prev)[0] == p);
                    assert(positions_of(rem_prev).drop_first() =~= positions_of(
                        cases.remaining(),
                    ));
                    assert(done + positions_of(cases.remaining()) =~= done_prev + positions_of(
                        rem_prev,
                    ));
                    // filtering the grown prefix keeps or adds exactly `p`
                    reveal(Seq::filter);
                    assert(done.drop_last() =~= done_prev);
                    assert(done.last() == p);
                    lemma_demodulatable_unique_diffs(l);
                    if l.is_demodulatable {
                        assert(demodulatable_of(done) == demodulatable_of(done_prev).push(p));
                    } else {
                        assert(demodulatable_of(done) == demodulatable_of(done_prev));
                    }
                }
                if l.is_demodulatable {
                    let ghost found_prev = found@;
                    found.push(l);
                    proof {
                        broadcast use vstd::prelude::Seq::lemma_push_map_commute;

                        assert(found@ == found_prev.push(l));
                        assert(positions_of(found@) == positions_of(found_prev).push(
                            l.lengths@,
                        ));
                    }
                }
                n_left = n_left - 1;
            }
            proof {
                assert(cases.remaining_positions().len() == 0);
                assert(done =~= full);
            }
            if found.len() > 0 {
                let r = Solutions(found);
                proof {
                    assert(r.positions() == solution_list(size as int, span as int));
                    assert(r.positions().len() > 0);
                    assert(is_find_result(size as int, largest as int, r.positions()));
                }
                return r;
            }
            proof {
                assert(positions_of(found@).len() == 0);
                assert(solution_list(size as int, span as int).len() == 0);
            }
            if span == usize::MAX {
                let r = Solutions(found);
                proof {
                    assert forall|m: int|
                        largest <= m <= usize::MAX implies solution_list(size as int, m).len()
                        == 0 by {
                        if m < span {
                        } else {
                            assert(m == span);
                        }
                    }
                    assert(r@.len() == 0);
                }
                return r;
            }
            span = span + 1;
        }
    }

    /// The number of solutions found.
    pub fn len(&self) -> (n: usize)
        ensures
            n == self@.len(),
    {
        self.0.len()
    }

    /// The solutions as a slice, in the order the enumerator produced
    /// them.
    pub fn as_slice(&self) -> (s: &[Lengths])
        ensures
            s@ == self@,
    {
        self.0.as_slice()
    }
}

/// The search result is a function of its arguments alone: any two
/// position listings that satisfy the search contract for the same size
/// and starting largest length are equal.
pub proof fn lemma_find_result_deterministic(
    size: int,
    start: int,
    r1: Seq<Seq<usize>>,
    r2: Seq<Seq<usize>>,
)
    requires
        is_find_result(size, start, r1),
        is_find_result(size, start, r2),
    ensures
        r1 == r2,
{
    let m1 = choose|m: int|
        {
            &&& start <= m <= usize::MAX
            &&& r1 == #[trigger] solution_list(size, m)
            &&& r1.len() > 0
            &&& forall|m2: int| start <= m2 < m ==> solution_list(size, m2).len() == 0
        };
    let m2 = choose|m: int|
        {
            &&& start <= m <= usize::MAX
            &&& r2 == #[trigger] solution_list(size, m)
            &&& r2.len() > 0
            &&& forall|m2: int| start <= m2 < m ==> solution_list(size, m2).len() == 0
        };
    if m1 < m2 {
        assert(solution_list(size, m1).len() == 0);
    }
    if m2 < m1 {
        assert(solution_list(size, m2).len() == 0);
    }
}

/// Every configuration a successful search returns has `size` strictly
/// increasing values, minimum 0, maximum at least the starting largest
/// length (namely the largest length at which the search stopped), and
/// pairwise differences that are all distinct.
pub proof fn lemma_find_result_element_shape(
    size: int,
    start: int,
    r: Seq<Seq<usize>>,
    x: int,
)
    requires
        2 <= size,
        size - 1 <= start,
        is_find_result(size, start, r),
        0 <= x < r.len(),
    ensures
        r[x].len() == size,
        strictly_sorted(r[x]),
        r[x][0] == 0,
        r[x][size - 1] >= start,
        diffs(r[x]).no_duplicates(),
{
    let m = choose|m: int|
        {
            &&& start <= m <= usize::MAX
            &&& r == #[trigger] solution_list(size, m)
            &&& r.len() > 0
            &&& forall|m2: int| start <= m2 < m ==> solution_list(size, m2).len() == 0
        };
    let pred = |p: Seq<usize>| diffs(p).no_duplicates();
    let cl = case_list(size, m);
    cl.lemma_filter_pred(pred, x);
    assert(cl.filter(pred).contains(r[x]));
    cl.lemma_filter_contains_rev(pred, r[x]);
    let y = choose|y: int| 0 <= y < cl.len() && cl[y] == r[x];
    let c = combos((size - 2) as nat, 1, m)[y];
    assert(r[x] == case_positions(c, m));
    lemma_combos_element_props((size - 2) as nat, 1, m, y);
    let w = r[x];
    assert(w[0] == 0);
    assert(w[size - 1] == m);
    assert forall|p: int, q: int| 0 <= p < q < w.len() implies w[p] < w[q] by {
        if 0 < p {
            assert(w[p] == c[p - 1]);
        }
        if q < w.len() - 1 {
            assert(w[q] == c[q - 1]);
        }
    }
}

} // verus!
