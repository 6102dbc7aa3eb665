//! Sparse region diff between two equal-length byte buffers.
//!
//! A diff is a strictly increasing sequence of half-open index ranges — the
//! maximal regions where the two buffers differ — together with the altered
//! byte value for every covered index, in index order.

use vstd::prelude::*;

verus! {

/// One half-open interval `[begin, end)` of buffer indices.
struct Range {
    begin: usize,
    end: usize,
}

impl Range {
    /// True exactly when `index` lies in `[begin, end)`.
    fn contains(&self, index: usize) -> (r: bool)
        ensures
            r == (self.begin <= index < self.end),
    {
        index >= self.begin && index < self.end
    }
}

/// True when some range of `rs` contains index `i`.
pub open spec fn covered(rs: Seq<(usize, usize)>, i: int) -> bool {
    exists|k: int| 0 <= k < rs.len() && (#[trigger] rs[k]).0 <= i < rs[k].1
}

/// Well-formed range sequence over a buffer of length `n`: every range is
/// non-empty and within bounds, and ranges are strictly increasing with a gap
/// of at least one index between consecutive ranges (adjacent differing
/// indices are always merged into one range).
pub open spec fn wf_ranges(rs: Seq<(usize, usize)>, n: int) -> bool {
    &&& (forall|k: int| 0 <= k < rs.len() ==> (#[trigger] rs[k]).0 < rs[k].1 <= n)
    &&& (forall|j: int, k: int|
        0 <= j < k < rs.len() ==> (#[trigger] rs[j]).1 < (#[trigger] rs[k]).0)
}

/// Number of indices in `[0, i)` covered by some range of `rs`.
pub open spec fn count_covered(rs: Seq<(usize, usize)>, i: int) -> nat
    decreases i,
{
    if i <= 0 {
        0
    } else {
        count_covered(rs, i - 1) + (if covered(rs, i - 1) {
            1nat
        } else {
            0nat
        })
    }
}

/// `(rs, vals)` is exactly the diff of `o` against `a`: the ranges cover
/// precisely the differing indices, and `vals` holds the altered byte of each
/// differing index, in index order (the value for index `i` sits at the rank
/// of `i` among all covered indices).
pub open spec fn is_diff_of(
    rs: Seq<(usize, usize)>,
    vals: Seq<u8>,
    o: Seq<u8>,
    a: Seq<u8>,
) -> bool {
    &&& o.len() == a.len()
    &&& wf_ranges(rs, o.len() as int)
    &&& (forall|i: int| 0 <= i < o.len() ==> (covered(rs, i) <==> o[i] != a[i]))
    &&& vals.len() == count_covered(rs, o.len() as int)
    &&& (forall|i: int|
        0 <= i < o.len() && o[i] != a[i] ==> vals[count_covered(rs, i) as int] == a[i])
}

/// The buffer obtained from `o` by substituting, at every covered index, the
/// value of rank `count_covered(rs, i)` from `vals`.
pub open spec fn apply_diff(rs: Seq<(usize, usize)>, vals: Seq<u8>, o: Seq<u8>) -> Seq<u8> {
    Seq::new(
        o.len(),
        |i: int|
            if covered(rs, i) {
                vals[count_covered(rs, i) as int]
            } else {
                o[i]
            },
    )
}

/// The alternating `[begin0, end0, begin1, end1, ...]` form of a range
/// sequence.
pub open spec fn flatten_ranges(rs: Seq<(usize, usize)>) -> Seq<usize>
    decreases rs.len(),
{
    if rs.len() == 0 {
        Seq::empty()
    } else {
        flatten_ranges(rs.drop_last()) + seq![rs.last().0, rs.last().1]
    }
}

pub proof fn lemma_flatten_ranges_len(rs: Seq<(usize, usize)>)
    ensures
        flatten_ranges(rs).len() == 2 * rs.len(),
    decreases rs.len(),
{
    if rs.len() > 0 {
        lemma_flatten_ranges_len(rs.drop_last());
    }
}

proof fn lemma_flatten_ranges_index(rs: Seq<(usize, usize)>, k: int)
    requires
        0 <= k < rs.len(),
    ensures
        flatten_ranges(rs)[2 * k] == rs[k].0,
        flatten_ranges(rs)[2 * k + 1] == rs[k].1,
    decreases rs.len(),
{
    lemma_flatten_ranges_len(rs);
    if rs.len() > 0 {
        lemma_flatten_ranges_len(rs.drop_last());
        if k < rs.len() - 1 {
            lemma_flatten_ranges_index(rs.drop_last(), k);
        }
    }
}

/// Serialization round trip: range pairs rebuilt two at a time from the
/// flattened `[begin0, end0, begin1, end1, ...]` form are the ranges that
/// were flattened.
pub proof fn lemma_flatten_unflatten(rs: Seq<(usize, usize)>, rebuilt: Seq<(usize, usize)>)
    requires
        rebuilt.len() == flatten_ranges(rs).len() / 2,
        forall|k: int|
            0 <= k < rebuilt.len() ==> #[trigger] rebuilt[k] == (
                flatten_ranges(rs)[2 * k],
                flatten_ranges(rs)[2 * k + 1],
            ),
    ensures
        rebuilt == rs,
{
    lemma_flatten_ranges_len(rs);
    assert forall|k: int| 0 <= k < rs.len() implies rebuilt[k] == rs[k] by {
        lemma_flatten_ranges_index(rs, k);
    }
    assert(rebuilt =~= rs);
}

proof fn lemma_count_covered_agree(rs1: Seq<(usize, usize)>, rs2: Seq<(usize, usize)>, i: int)
    requires
        forall|j: int| 0 <= j < i ==> (covered(rs1, j) <==> covered(rs2, j)),
    ensures
        count_covered(rs1, i) == count_covered(rs2, i),
    decreases i,
{
    if i > 0 {
        lemma_count_covered_agree(rs1, rs2, i - 1);
    }
}

proof fn lemma_count_covered_mono(rs: Seq<(usize, usize)>, i: int, j: int)
    requires
        i <= j,
    ensures
        count_covered(rs, i) <= count_covered(rs, j),
    decreases j - i,
{
    if i < j {
        lemma_count_covered_mono(rs, i, j - 1);
    }
}

/// The view of a vector of ranges as a sequence of `(begin, end)` pairs.
spec fn ranges_view(v: Seq<Range>) -> Seq<(usize, usize)> {
    v.map_values(|r: Range| (r.begin, r.end))
}

/// Loop invariant of the diff scan: after the first `idx` indices, `rs` and
/// `vals` are exactly the diff of the two prefixes, and every range ends at or
/// before `idx`.
spec fn diff_scan_inv(
    rs: Seq<(usize, usize)>,
    vals: Seq<u8>,
    o: Seq<u8>,
    a: Seq<u8>,
    idx: int,
) -> bool {
    &&& wf_ranges(rs, idx)
    &&& (forall|i: int| 0 <= i < idx ==> (covered(rs, i) <==> o[i] != a[i]))
    &&& (forall|k: int| 0 <= k < rs.len() ==> (#[trigger] rs[k]).1 <= idx)
    &&& vals.len() == count_covered(rs, idx)
    &&& (forall|i: int| 0 <= i < idx && o[i] != a[i] ==> vals[count_covered(rs, i) as int] == a[i])
}

/// The sparse diff of two equal-length buffers.
pub struct Diff {
    differing_regions: Vec<Range>,
    diff: Vec<u8>,
}

impl Diff {
    /// The `(begin, end)` pairs of the differing regions.
    pub closed spec fn regions(&self) -> Seq<(usize, usize)> {
        ranges_view(self.differing_regions@)
    }

    /// The altered byte values, one per covered index, in index order.
    pub closed spec fn values(&self) -> Seq<u8> {
        self.diff@
    }

    /// Scans both buffers index by index and records every differing index,
    /// merging adjacent differing indices into one range.
    pub fn from_original_and_altered(original: &[u8], altered: &[u8]) -> (r: Self)
        requires
            original@.len() == altered@.len(),
        ensures
            is_diff_of(r.regions(), r.values(), original@, altered@),
    {
        let ghost o = original@;
        let ghost a = altered@;
        let mut differing_regions: Vec<Range> = Vec::new();
        let mut diff: Vec<u8> = Vec::new();
        let mut index: usize = 0;
        while index < original.len()
            invariant
                o == original@,
                a == altered@,
                o.len() == a.len(),
                0 <= index <= o.len(),
                diff_scan_inv(ranges_view(differing_regions@), diff@, o, a, index as int),
            decreases o.len() - index,
        {
            let ghost rs1 = ranges_view(differing_regions@);
            let ghost vals1 = diff@;
            let ob = original[index];
            let ab = altered[index];
            if ob == ab {
                proof {
                    assert(!covered(rs1, index as int));
                    assert(count_covered(rs1, index + 1) == count_covered(rs1, index as int));
                }
            } else {
                let m = differing_regions.len();
                if m > 0 && differing_regions[m - 1].end == index {
                    let b = differing_regions[m - 1].begin;
                    differing_regions[m - 1] = Range { begin: b, end: index + 1 };
                    diff.push(ab);
                    proof {
                        let rs2 = ranges_view(differing_regions@);
                        assert(rs2 =~= rs1.update(m - 1, (b, (index + 1) as usize)));
                        lemma_diff_scan_extend(rs1, rs2, vals1, diff@, o, a, index as int, ab);
                    }
                } else {
                    proof {
                        if m > 0 {
                            assert(rs1[m - 1].1 < index);
                        }
                    }
                    differing_regions.push(Range { begin: index, end: index + 1 });
                    diff.push(ab);
                    proof {
                        let rs2 = ranges_view(differing_regions@);
                        assert(rs2 =~= rs1.push((index, (index + 1) as usize)));
                        lemma_diff_scan_push(rs1, rs2, vals1, diff@, o, a, index as int, ab);
                    }
                }
            }
            index = index + 1;
        }
        Diff { differing_regions, diff }
    }

    /// Rebuilds a diff from its flattened range bounds (paired two at a time)
    /// and its value bytes.  The bounds are taken as given; nothing is checked
    /// beyond the pairing.
    pub fn from_regions_and_diff(regions: &[usize], diff: &[u8]) -> (r: Self)
        requires
            regions@.len() % 2 == 0,
        ensures
            r.regions().len() == regions@.len() / 2,
            forall|k: int|
                0 <= k < r.regions().len() ==> #[trigger] r.regions()[k] == (
                    regions@[2 * k],
                    regions@[2 * k + 1],
                ),
            r.values() == diff@,
    {
        let mut differing_regions: Vec<Range> = Vec::new();
        let mut k: usize = 0;
        while k + 1 < regions.len()
            invariant
                regions@.len() % 2 == 0,
                k % 2 == 0,
                0 <= k <= regions@.len(),
                ranges_view(differing_regions@).len() == k / 2,
                forall|j: int|
                    0 <= j < k / 2 ==> #[trigger] ranges_view(differing_regions@)[j] == (
                        regions@[2 * j],
                        regions@[2 * j + 1],
                    ),
            decreases regions@.len() - k,
        {
            let ghost rv0 = ranges_view(differing_regions@);
            differing_regions.push(Range { begin: regions[k], end: regions[k + 1] });
            proof {
                let rv1 = ranges_view(differing_regions@);
                assert(rv1 =~= rv0.push((regions@[k as int], regions@[k as int + 1])));
                assert((k + 2) / 2 == k / 2 + 1);
                assert(2 * ((k as int) / 2) == k as int);
            }
            k = k + 2;
        }
        proof {
            assert(k == regions@.len());
        }
        Diff { differing_regions, diff: vstd::slice::slice_to_vec(diff) }
    }

    /// Walks `original` index by index, substituting the next unread diff
    /// value at every covered index and passing every other byte through.
    pub fn reconstruct_frame(&self, original: &[u8]) -> (r: Vec<u8>)
        requires
            self.values().len() == count_covered(self.regions(), original@.len() as int),
        ensures
            r@ == apply_diff(self.regions(), self.values(), original@),
    {
        let ghost o = original@;
        let ghost rs = self.regions();
        let ghost vals = self.values();
        let dlen = self.diff.len();
        let mut out: Vec<u8> = Vec::new();
        let mut diff_index: usize = 0;
        let mut index: usize = 0;
        while index < original.len()
            invariant
                o == original@,
                rs == self.regions(),
                vals == self.values(),
                vals.len() == dlen,
                vals.len() == count_covered(rs, o.len() as int),
                0 <= index <= o.len(),
                diff_index == count_covered(rs, index as int),
                out@.len() == index,
                forall|j: int| 0 <= j < index ==> out@[j] == apply_diff(rs, vals, o)[j],
            decreases o.len() - index,
        {
            if self.index_differs(index) {
                proof {
                    assert(count_covered(rs, index + 1) == count_covered(rs, index as int) + 1);
                    lemma_count_covered_mono(rs, index + 1, o.len() as int);
                }
                let d = self.diff[diff_index];
                out.push(d);
                diff_index = diff_index + 1;
            } else {
                proof {
                    assert(count_covered(rs, index + 1) == count_covered(rs, index as int));
                }
                out.push(original[index]);
            }
            index = index + 1;
        }
        proof {
            assert(out@ =~= apply_diff(rs, vals, o));
        }
        out
    }

    /// True exactly when `index` lies in one of the differing regions.
    pub fn index_differs(&self, index: usize) -> (r: bool)
        ensures
            r == covered(self.regions(), index as int),
    {
        let ghost rs = self.regions();
        let mut k: usize = 0;
        while k < self.differing_regions.len()
            invariant
                rs == self.regions(),
                0 <= k <= rs.len(),
                forall|j: int| 0 <= j < k ==> !((#[trigger] rs[j]).0 <= index < rs[j].1),
            decreases rs.len() - k,
        {
            if self.differing_regions[k].contains(index) {
                proof {
                    assert(rs[k as int].0 <= index < rs[k as int].1);
                }
                return true;
            }
            k = k + 1;
        }
        false
    }

    /// The regions as the alternating `[begin0, end0, begin1, end1, ...]`
    /// sequence used by the emitted arrays.
    pub fn flattened_regions(&self) -> (r: Vec<usize>)
        ensures
            r@ == flatten_ranges(self.regions()),
    {
        let ghost rs = self.regions();
        let mut out: Vec<usize> = Vec::new();
        let mut k: usize = 0;
        while k < self.differing_regions.len()
            invariant
                rs == self.regions(),
                0 <= k <= rs.len(),
                out@ == flatten_ranges(rs.take(k as int)),
            decreases rs.len() - k,
        {
            let ghost out0 = out@;
            out.push(self.differing_regions[k].begin);
            out.push(self.differing_regions[k].end);
            k = k + 1;
            proof {
                let prefix = rs.take(k as int);
                assert(prefix.drop_last() =~= rs.take(k - 1));
                assert(out@ =~= flatten_ranges(prefix.drop_last()) + seq![
                    prefix.last().0,
                    prefix.last().1,
                ]);
            }
        }
        proof {
            assert(rs.take(rs.len() as int) =~= rs);
        }
        out
    }

    /// The value bytes of the diff.
    pub fn diff_bytes(&self) -> (r: &Vec<u8>)
        ensures
            r@ == self.values(),
    {
        &self.diff
    }
}

/// Step of the diff scan that widens the last range by one index.
proof fn lemma_diff_scan_extend(
    rs1: Seq<(usize, usize)>,
    rs2: Seq<(usize, usize)>,
    vals1: Seq<u8>,
    vals2: Seq<u8>,
    o: Seq<u8>,
    a: Seq<u8>,
    idx: int,
    ab: u8,
)
    requires
        o.len() == a.len(),
        o.len() <= usize::MAX,
        0 <= idx < o.len(),
        o[idx] != a[idx],
        a[idx] == ab,
        diff_scan_inv(rs1, vals1, o, a, idx),
        rs1.len() > 0,
        rs1.last().1 == idx,
        rs2 == rs1.update(rs1.len() - 1, (rs1.last().0, (idx + 1) as usize)),
        vals2 == vals1.push(ab),
    ensures
        diff_scan_inv(rs2, vals2, o, a, idx + 1),
{
    let m = rs1.len() - 1;
    assert(rs1[m].0 < rs1[m].1);
    assert forall|i: int| 0 <= i < idx implies (covered(rs2, i) <==> covered(rs1, i)) by {
        if covered(rs2, i) {
            let k = choose|k: int| 0 <= k < rs2.len() && (#[trigger] rs2[k]).0 <= i < rs2[k].1;
            if k == m {
                assert(rs1[k].0 <= i < rs1[k].1);
            } else {
                assert(rs1[k].0 <= i < rs1[k].1);
            }
        }
        if covered(rs1, i) {
            let k = choose|k: int| 0 <= k < rs1.len() && (#[trigger] rs1[k]).0 <= i < rs1[k].1;
            assert(rs2[k].0 <= i < rs2[k].1);
        }
    }
    assert(covered(rs2, idx)) by {
        assert(rs2[m].0 <= idx < rs2[m].1);
    }
    assert forall|i: int| 0 <= i <= idx implies count_covered(rs2, i) == count_covered(rs1, i) by {
        lemma_count_covered_agree(rs1, rs2, i);
    }
    assert(count_covered(rs2, idx + 1) == count_covered(rs2, idx) + 1);
    assert forall|i: int| 0 <= i < idx + 1 && o[i] != a[i] implies vals2[count_covered(
        rs2,
        i,
    ) as int] == a[i] by {
        if i < idx {
            assert(covered(rs1, i));
            assert(count_covered(rs1, i + 1) == count_covered(rs1, i) + 1);
            lemma_count_covered_mono(rs1, i + 1, idx);
            assert(count_covered(rs1, i) < vals1.len());
            assert(vals1[count_covered(rs1, i) as int] == a[i]);
        } else {
            assert(count_covered(rs2, idx) == vals1.len());
        }
    }
}

/// Step of the diff scan that opens a new single-index range.
proof fn lemma_diff_scan_push(
    rs1: Seq<(usize, usize)>,
    rs2: Seq<(usize, usize)>,
    vals1: Seq<u8>,
    vals2: Seq<u8>,
    o: Seq<u8>,
    a: Seq<u8>,
    idx: int,
    ab: u8,
)
    requires
        o.len() == a.len(),
        o.len() <= usize::MAX,
        0 <= idx < o.len(),
        o[idx] != a[idx],
        a[idx] == ab,
        diff_scan_inv(rs1, vals1, o, a, idx),
        rs1.len() == 0 || rs1.last().1 < idx,
        rs2 == rs1.push((idx as usize, (idx + 1) as usize)),
        vals2 == vals1.push(ab),
    ensures
        diff_scan_inv(rs2, vals2, o, a, idx + 1),
{
    let m = rs1.len() as int;
    assert forall|j: int| 0 <= j < m implies (#[trigger] rs1[j]).1 < idx by {
        if j < m - 1 {
            assert(rs1[j].1 < rs1[m - 1].0);
            assert(rs1[m - 1].0 < rs1[m - 1].1);
        }
    }
    assert forall|i: int| 0 <= i < idx implies (covered(rs2, i) <==> covered(rs1, i)) by {
        if covered(rs2, i) {
            let k = choose|k: int| 0 <= k < rs2.len() && (#[trigger] rs2[k]).0 <= i < rs2[k].1;
            if k == m {
                assert(false);
            } else {
                assert(rs1[k].0 <= i < rs1[k].1);
            }
        }
        if covered(rs1, i) {
            let k = choose|k: int| 0 <= k < rs1.len() && (#[trigger] rs1[k]).0 <= i < rs1[k].1;
            assert(rs2[k].0 <= i < rs2[k].1);
        }
    }
    assert(covered(rs2, idx)) by {
        assert(rs2[m].0 <= idx < rs2[m].1);
    }
    assert forall|i: int| 0 <= i <= idx implies count_covered(rs2, i) == count_covered(rs1, i) by {
        lemma_count_covered_agree(rs1, rs2, i);
    }
    assert(count_covered(rs2, idx + 1) == count_covered(rs2, idx) + 1);
    assert forall|i: int| 0 <= i < idx + 1 && o[i] != a[i] implies vals2[count_covered(
        rs2,
        i,
    ) as int] == a[i] by {
        if i < idx {
            assert(covered(rs1, i));
            assert(count_covered(rs1, i + 1) == count_covered(rs1, i) + 1);
            lemma_count_covered_mono(rs1, i + 1, idx);
            assert(count_covered(rs1, i) < vals1.len());
            assert(vals1[count_covered(rs1, i) as int] == a[i]);
        } else {
            assert(count_covered(rs2, idx) == vals1.len());
        }
    }
}

/// Round trip of diffing: applying the diff of `o` against `a` back onto `o`
/// reconstructs `a` exactly.
pub proof fn lemma_apply_diff_round_trip(
    rs: Seq<(usize, usize)>,
    vals: Seq<u8>,
    o: Seq<u8>,
    a: Seq<u8>,
)
    requires
        is_diff_of(rs, vals, o, a),
    ensures
        apply_diff(rs, vals, o) == a,
{
    assert forall|i: int| 0 <= i < o.len() implies apply_diff(rs, vals, o)[i] == a[i] by {
        if covered(rs, i) {
            assert(o[i] != a[i]);
        } else {
            assert(o[i] == a[i]);
        }
    }
    assert(apply_diff(rs, vals, o) =~= a);
}

proof fn lemma_wf_covered_unique(rs1: Seq<(usize, usize)>, rs2: Seq<(usize, usize)>, n: int)
    requires
        wf_ranges(rs1, n),
        wf_ranges(rs2, n),
        forall|i: int| 0 <= i < n ==> (covered(rs1, i) <==> covered(rs2, i)),
    ensures
        rs1 == rs2,
    decreases rs1.len(),
{
    if rs1.len() == 0 {
        if rs2.len() > 0 {
            let i = rs2[0].0 as int;
            assert(covered(rs2, i)) by {
                assert(rs2[0].0 <= i < rs2[0].1);
            }
            assert(covered(rs1, i));
            assert(false);
        }
        assert(rs1 =~= rs2);
    } else {
        let b1 = rs1[0].0 as int;
        assert(covered(rs1, b1)) by {
            assert(rs1[0].0 <= b1 < rs1[0].1);
        }
        assert(covered(rs2, b1));
        assert(rs2.len() > 0);
        let b2 = rs2[0].0 as int;
        assert(b2 <= b1) by {
            let k = choose|k: int| 0 <= k < rs2.len() && (#[trigger] rs2[k]).0 <= b1 < rs2[k].1;
            if k > 0 {
                assert(rs2[0].1 < rs2[k].0);
            }
        }
        assert(b1 <= b2) by {
            assert(covered(rs2, b2)) by {
                assert(rs2[0].0 <= b2 < rs2[0].1);
            }
            assert(covered(rs1, b2));
            let k = choose|k: int| 0 <= k < rs1.len() && (#[trigger] rs1[k]).0 <= b2 < rs1[k].1;
            if k > 0 {
                assert(rs1[0].1 < rs1[k].0);
            }
        }
        let e1 = rs1[0].1 as int;
        let e2 = rs2[0].1 as int;
        if e1 < e2 {
            assert(covered(rs2, e1)) by {
                assert(rs2[0].0 <= e1 < rs2[0].1);
            }
            assert(covered(rs1, e1));
            let k = choose|k: int| 0 <= k < rs1.len() && (#[trigger] rs1[k]).0 <= e1 < rs1[k].1;
            if k > 0 {
                assert(rs1[0].1 < rs1[k].0);
            }
            assert(false);
        }
        if e2 < e1 {
            assert(covered(rs1, e2)) by {
                assert(rs1[0].0 <= e2 < rs1[0].1);
            }
            assert(covered(rs2, e2));
            let k = choose|k: int| 0 <= k < rs2.len() && (#[trigger] rs2[k]).0 <= e2 < rs2[k].1;
            if k > 0 {
                assert(rs2[0].1 < rs2[k].0);
            }
            assert(false);
        }
        let t1 = rs1.subrange(1, rs1.len() as int);
        let t2 = rs2.subrange(1, rs2.len() as int);
        assert(wf_ranges(t1, n));
        assert(wf_ranges(t2, n));
        assert forall|i: int| 0 <= i < n implies (covered(t1, i) <==> covered(t2, i)) by {
            lemma_covered_tail(rs1, i);
            lemma_covered_tail(rs2, i);
        }
        lemma_wf_covered_unique(t1, t2, n);
        assert(rs1.len() == rs2.len());
        assert forall|k: int| 0 <= k < rs1.len() implies rs1[k] == rs2[k] by {
            if k == 0 {
                assert(rs1[0].0 == rs2[0].0);
                assert(rs1[0].1 == rs2[0].1);
            } else {
                assert(rs1[k] == t1[k - 1]);
                assert(rs2[k] == t2[k - 1]);
            }
        }
        assert(rs1 =~= rs2);
    }
}

/// Coverage of the tail of a well-formed range sequence: an index is covered
/// by the tail exactly when it is covered by the whole and lies at or past the
/// end of the first range.
proof fn lemma_covered_tail(rs: Seq<(usize, usize)>, i: int)
    requires
        rs.len() > 0,
        forall|j: int, k: int|
            0 <= j < k < rs.len() ==> (#[trigger] rs[j]).1 < (#[trigger] rs[k]).0,
    ensures
        covered(rs.subrange(1, rs.len() as int), i) <==> (covered(rs, i) && i >= rs[0].1),
{
    let t = rs.subrange(1, rs.len() as int);
    if covered(t, i) {
        let k = choose|k: int| 0 <= k < t.len() && (#[trigger] t[k]).0 <= i < t[k].1;
        assert(t[k] == rs[k + 1]);
        assert(rs[0].1 < rs[k + 1].0);
        assert(covered(rs, i)) by {
            assert(rs[k + 1].0 <= i < rs[k + 1].1);
        }
    }
    if covered(rs, i) && i >= rs[0].1 {
        let k = choose|k: int| 0 <= k < rs.len() && (#[trigger] rs[k]).0 <= i < rs[k].1;
        assert(k > 0);
        assert(t[k - 1] == rs[k]);
        assert(covered(t, i)) by {
            assert(t[k - 1].0 <= i < t[k - 1].1);
        }
    }
}

/// Every rank below the covered count is reached by some covered index.
proof fn lemma_rank_surjective(rs: Seq<(usize, usize)>, i: int, r: int)
    requires
        0 <= r < count_covered(rs, i),
    ensures
        exists|j: int|
            0 <= j < i && #[trigger] covered(rs, j) && count_covered(rs, j) == r,
    decreases i,
{
    assert(i > 0);
    if covered(rs, i - 1) && count_covered(rs, i - 1) == r {
        assert(0 <= i - 1 < i && covered(rs, i - 1) && count_covered(rs, i - 1) == r);
    } else {
        lemma_rank_surjective(rs, i - 1, r);
        let j = choose|j: int|
            0 <= j < i - 1 && #[trigger] covered(rs, j) && count_covered(rs, j) == r;
        assert(0 <= j < i && covered(rs, j) && count_covered(rs, j) == r);
    }
}

/// Canonicity of diffing: two diffs of the same pair of buffers are
/// identical.  In particular a frame's stored diff is determined by the base
/// buffer and that frame alone, never by any other frame.
pub proof fn lemma_diff_of_unique(
    rs1: Seq<(usize, usize)>,
    vals1: Seq<u8>,
    rs2: Seq<(usize, usize)>,
    vals2: Seq<u8>,
    o: Seq<u8>,
    a: Seq<u8>,
)
    requires
        is_diff_of(rs1, vals1, o, a),
        is_diff_of(rs2, vals2, o, a),
    ensures
        rs1 == rs2,
        vals1 == vals2,
{
    let n = o.len() as int;
    lemma_wf_covered_unique(rs1, rs2, n);
    assert forall|r: int| 0 <= r < vals1.len() implies vals1[r] == vals2[r] by {
        lemma_rank_surjective(rs1, n, r);
        let j = choose|j: int|
            0 <= j < n && #[trigger] covered(rs1, j) && count_covered(rs1, j) == r;
        assert(o[j] != a[j]);
        assert(vals1[r] == a[j]);
        assert(vals2[r] == a[j]);
    }
    assert(vals1 =~= vals2);
}

} // verus!
