//! Animation packer.
//!
//! A packed animation holds one base diff — the first frame, stored as a diff
//! against an implicit all-zero buffer — and one diff per input frame, each
//! computed against the reconstructed base frame (never against the previous
//! frame).  For emission the diffs are flattened into concatenated arrays
//! with cumulative boundary offsets marking each frame's contribution.

use vstd::prelude::*;

use crate::codec::zero_run;
use crate::diff::Diff;
use crate::diff::apply_diff;
use crate::diff::count_covered;
use crate::diff::flatten_ranges;
use crate::diff::is_diff_of;
use crate::diff::lemma_apply_diff_round_trip;
use crate::diff::lemma_flatten_ranges_len;
use crate::diff::wf_ranges;

verus! {

/// `(rs, vals)` has the shape of a diff over buffers of length `n`: ranges
/// well-formed, one value per covered index.
pub open spec fn diff_shape_ok(rs: Seq<(usize, usize)>, vals: Seq<u8>, n: int) -> bool {
    &&& wf_ranges(rs, n)
    &&& vals.len() == count_covered(rs, n)
}

/// A whole animation, packed as a base diff plus one diff per frame.
pub struct CompactAnimation {
    frame_len: usize,
    original: Diff,
    all_frames: Vec<Diff>,
}

impl CompactAnimation {
    /// The common length of every frame buffer.
    pub closed spec fn spec_frame_len(&self) -> usize {
        self.frame_len
    }

    /// The regions of the base diff (first frame against the zero buffer).
    pub closed spec fn base_regions(&self) -> Seq<(usize, usize)> {
        self.original.regions()
    }

    /// The value bytes of the base diff.
    pub closed spec fn base_values(&self) -> Seq<u8> {
        self.original.values()
    }

    /// The number of per-frame diffs.
    pub closed spec fn num_frames(&self) -> nat {
        self.all_frames@.len()
    }

    /// The regions of the diff of frame `k`.
    pub closed spec fn frame_regions(&self, k: int) -> Seq<(usize, usize)> {
        self.all_frames@[k].regions()
    }

    /// The value bytes of the diff of frame `k`.
    pub closed spec fn frame_values(&self, k: int) -> Seq<u8> {
        self.all_frames@[k].values()
    }

    /// Every stored diff has the shape of a diff over frame-length buffers.
    pub open spec fn wf(&self) -> bool {
        &&& diff_shape_ok(self.base_regions(), self.base_values(), self.spec_frame_len() as int)
        &&& (forall|k: int|
            0 <= k < self.num_frames() ==> diff_shape_ok(
                #[trigger] self.frame_regions(k),
                self.frame_values(k),
                self.spec_frame_len() as int,
            ))
    }

    /// The reconstructed base frame: the base diff applied to the zero buffer.
    pub open spec fn base_frame(&self) -> Seq<u8> {
        apply_diff(
            self.base_regions(),
            self.base_values(),
            zero_run(self.spec_frame_len() as nat),
        )
    }

    /// The common frame length.
    pub fn frame_len_value(&self) -> (r: usize)
        ensures
            r == self.spec_frame_len(),
    {
        self.frame_len
    }

    /// An all-zero buffer of the given length.
    pub fn construct_empty_frame(frame_len: usize) -> (r: Vec<u8>)
        ensures
            r@ == zero_run(frame_len as nat),
    {
        let mut v: Vec<u8> = Vec::new();
        let mut i: usize = 0;
        while i < frame_len
            invariant
                0 <= i <= frame_len,
                v@ == zero_run(i as nat),
            decreases frame_len - i,
        {
            v.push(0);
            i = i + 1;
            proof {
                assert(v@ =~= zero_run(i as nat));
            }
        }
        v
    }

    /// Reconstructs the base frame from the base diff.
    pub fn original_frame(&self) -> (r: Vec<u8>)
        requires
            self.wf(),
        ensures
            r@ == self.base_frame(),
    {
        let empty = Self::construct_empty_frame(self.frame_len);
        self.original.reconstruct_frame(empty.as_slice())
    }

    /// Starts a pack from its first frame, stored as a diff against an
    /// all-zero buffer of the same length (mostly blank frames make this
    /// smaller than storing the frame raw).
    pub fn from_original(original: &[u8]) -> (r: Self)
        ensures
            r.wf(),
            r.spec_frame_len() == original@.len(),
            is_diff_of(
                r.base_regions(),
                r.base_values(),
                zero_run(original@.len()),
                original@,
            ),
            r.num_frames() == 0,
    {
        let frame_len = original.len();
        let empty = Self::construct_empty_frame(frame_len);
        let original_diff = Diff::from_original_and_altered(empty.as_slice(), original);
        CompactAnimation { frame_len, original: original_diff, all_frames: Vec::new() }
    }

    /// Appends one frame, stored as a diff against the reconstructed base
    /// frame — not against the previously appended frame.
    pub fn with_frame(self, other_frame: &[u8]) -> (r: Self)
        requires
            self.wf(),
            other_frame@.len() == self.spec_frame_len(),
        ensures
            r.wf(),
            r.spec_frame_len() == self.spec_frame_len(),
            r.base_regions() == self.base_regions(),
            r.base_values() == self.base_values(),
            r.num_frames() == self.num_frames() + 1,
            forall|k: int|
                0 <= k < self.num_frames() ==> #[trigger] r.frame_regions(k)
                    == self.frame_regions(k) && r.frame_values(k) == self.frame_values(k),
            is_diff_of(
                r.frame_regions(self.num_frames() as int),
                r.frame_values(self.num_frames() as int),
                self.base_frame(),
                other_frame@,
            ),
    {
        let ghost before = self;
        let original_frame = self.original_frame();
        let diff = Diff::from_original_and_altered(original_frame.as_slice(), other_frame);
        let mut packed = self;
        packed.all_frames.push(diff);
        proof {
            assert(packed.all_frames@ == before.all_frames@.push(diff));
            assert(before.base_frame().len() == before.spec_frame_len());
            assert forall|k: int| 0 <= k < packed.num_frames() implies diff_shape_ok(
                #[trigger] packed.frame_regions(k),
                packed.frame_values(k),
                packed.spec_frame_len() as int,
            ) by {
                if k < before.num_frames() {
                    assert(packed.frame_regions(k) == before.frame_regions(k));
                    assert(packed.frame_values(k) == before.frame_values(k));
                } else {
                    assert(packed.frame_regions(k) == diff.regions());
                    assert(packed.frame_values(k) == diff.values());
                }
            }
        }
        packed
    }

    /// Cumulative count of flattened-region entries after the base diff and
    /// the first `k` frame diffs (two entries per region).
    pub open spec fn regions_boundary(&self, k: int) -> int
        decreases k,
    {
        if k <= 0 {
            2 * (self.base_regions().len() as int)
        } else {
            self.regions_boundary(k - 1) + 2 * (self.frame_regions(k - 1).len() as int)
        }
    }

    /// Cumulative count of diff value bytes after the base diff and the first
    /// `k` frame diffs.
    pub open spec fn bytes_boundary(&self, k: int) -> int
        decreases k,
    {
        if k <= 0 {
            self.base_values().len() as int
        } else {
            self.bytes_boundary(k - 1) + self.frame_values(k - 1).len() as int
        }
    }

    /// The flattened regions of the base diff and the first `k` frame diffs,
    /// concatenated in frame order.
    pub open spec fn regions_cat(&self, k: int) -> Seq<usize>
        decreases k,
    {
        if k <= 0 {
            flatten_ranges(self.base_regions())
        } else {
            self.regions_cat(k - 1) + flatten_ranges(self.frame_regions(k - 1))
        }
    }

    /// The value bytes of the base diff and the first `k` frame diffs,
    /// concatenated in frame order.
    pub open spec fn bytes_cat(&self, k: int) -> Seq<u8>
        decreases k,
    {
        if k <= 0 {
            self.base_values()
        } else {
            self.bytes_cat(k - 1) + self.frame_values(k - 1)
        }
    }

    proof fn lemma_regions_boundary_nonneg(&self, k: int)
        ensures
            self.regions_boundary(k) >= 0,
        decreases (if k > 0 { k } else { 0 }),
    {
        if k > 0 {
            self.lemma_regions_boundary_nonneg(k - 1);
        }
    }

    pub proof fn lemma_regions_boundary_mono(&self, i: int, j: int)
        requires
            i <= j,
        ensures
            0 <= self.regions_boundary(i) <= self.regions_boundary(j),
        decreases j - i,
    {
        self.lemma_regions_boundary_nonneg(i);
        if i < j {
            self.lemma_regions_boundary_mono(i, j - 1);
        }
    }

    proof fn lemma_bytes_boundary_nonneg(&self, k: int)
        ensures
            self.bytes_boundary(k) >= 0,
        decreases (if k > 0 { k } else { 0 }),
    {
        if k > 0 {
            self.lemma_bytes_boundary_nonneg(k - 1);
        }
    }

    pub proof fn lemma_bytes_boundary_mono(&self, i: int, j: int)
        requires
            i <= j,
        ensures
            0 <= self.bytes_boundary(i) <= self.bytes_boundary(j),
        decreases j - i,
    {
        self.lemma_bytes_boundary_nonneg(i);
        if i < j {
            self.lemma_bytes_boundary_mono(i, j - 1);
        }
    }

    /// The length of the concatenated region entries equals the last
    /// boundary offset.
    pub proof fn lemma_regions_cat_len(&self, k: int)
        requires
            k >= 0,
        ensures
            self.regions_cat(k).len() == self.regions_boundary(k),
        decreases k,
    {
        lemma_flatten_ranges_len(self.base_regions());
        if k > 0 {
            self.lemma_regions_cat_len(k - 1);
            lemma_flatten_ranges_len(self.frame_regions(k - 1));
        }
    }

    /// The length of the concatenated value bytes equals the last boundary
    /// offset.
    pub proof fn lemma_bytes_cat_len(&self, k: int)
        requires
            k >= 0,
        ensures
            self.bytes_cat(k).len() == self.bytes_boundary(k),
        decreases k,
    {
        if k > 0 {
            self.lemma_bytes_cat_len(k - 1);
        }
    }

    /// The cumulative region-entry offsets, one entry for the base diff and
    /// one per frame.
    pub fn differing_regions_boundaries(&self) -> (r: Vec<usize>)
        requires
            self.regions_boundary(self.num_frames() as int) <= usize::MAX,
        ensures
            r@.len() == 1 + self.num_frames(),
            forall|j: int| 0 <= j <= self.num_frames() ==> r@[j] == self.regions_boundary(j),
    {
        let mut out: Vec<usize> = Vec::new();
        let fl = self.original.flattened_regions();
        proof {
            lemma_flatten_ranges_len(self.base_regions());
            self.lemma_regions_boundary_mono(0, self.num_frames() as int);
        }
        let mut index: usize = fl.len();
        out.push(index);
        let mut k: usize = 0;
        while k < self.all_frames.len()
            invariant
                self.regions_boundary(self.num_frames() as int) <= usize::MAX,
                0 <= k <= self.num_frames(),
                index == self.regions_boundary(k as int),
                out@.len() == 1 + k,
                forall|j: int| 0 <= j <= k ==> out@[j] == self.regions_boundary(j),
            decreases self.num_frames() - k,
        {
            let fl = self.all_frames[k].flattened_regions();
            proof {
                lemma_flatten_ranges_len(self.frame_regions(k as int));
                self.lemma_regions_boundary_mono(k + 1, self.num_frames() as int);
            }
            index = index + fl.len();
            out.push(index);
            k = k + 1;
        }
        out
    }

    /// The flattened region bounds of every diff, concatenated in frame
    /// order.
    pub fn differing_regions(&self) -> (r: Vec<usize>)
        ensures
            r@ == self.regions_cat(self.num_frames() as int),
    {
        let mut out = self.original.flattened_regions();
        let mut k: usize = 0;
        while k < self.all_frames.len()
            invariant
                0 <= k <= self.num_frames(),
                out@ == self.regions_cat(k as int),
            decreases self.num_frames() - k,
        {
            let mut fl = self.all_frames[k].flattened_regions();
            out.append(&mut fl);
            k = k + 1;
        }
        out
    }

    /// The cumulative diff-byte offsets, one entry for the base diff and one
    /// per frame.
    pub fn differing_bytes_boundaries(&self) -> (r: Vec<usize>)
        requires
            self.bytes_boundary(self.num_frames() as int) <= usize::MAX,
        ensures
            r@.len() == 1 + self.num_frames(),
            forall|j: int| 0 <= j <= self.num_frames() ==> r@[j] == self.bytes_boundary(j),
    {
        let mut out: Vec<usize> = Vec::new();
        proof {
            self.lemma_bytes_boundary_mono(0, self.num_frames() as int);
        }
        let mut index: usize = self.original.diff_bytes().len();
        out.push(index);
        let mut k: usize = 0;
        while k < self.all_frames.len()
            invariant
                self.bytes_boundary(self.num_frames() as int) <= usize::MAX,
                0 <= k <= self.num_frames(),
                index == self.bytes_boundary(k as int),
                out@.len() == 1 + k,
                forall|j: int| 0 <= j <= k ==> out@[j] == self.bytes_boundary(j),
            decreases self.num_frames() - k,
        {
            proof {
                self.lemma_bytes_boundary_mono(k + 1, self.num_frames() as int);
            }
            index = index + self.all_frames[k].diff_bytes().len();
            out.push(index);
            k = k + 1;
        }
        out
    }

    /// The diff value bytes of every diff, concatenated in frame order.
    pub fn differing_bytes(&self) -> (r: Vec<u8>)
        ensures
            r@ == self.bytes_cat(self.num_frames() as int),
    {
        let mut out = vstd::slice::slice_to_vec(self.original.diff_bytes().as_slice());
        let mut k: usize = 0;
        while k < self.all_frames.len()
            invariant
                0 <= k <= self.num_frames(),
                out@ == self.bytes_cat(k as int),
            decreases self.num_frames() - k,
        {
            let mut bytes = vstd::slice::slice_to_vec(self.all_frames[k].diff_bytes().as_slice());
            out.append(&mut bytes);
            k = k + 1;
        }
        out
    }

    /// The reported storage cost: one byte per diff value, two bytes per
    /// boundary-table entry and two bytes per flattened region bound (so four
    /// bytes per differing region).
    pub open spec fn spec_total_size(&self) -> int {
        self.bytes_boundary(self.num_frames() as int) + 2 * ((1 + self.num_frames())
            + self.regions_boundary(self.num_frames() as int) + (1 + self.num_frames()))
    }

    /// Computes the storage cost of the packed animation.
    pub fn total_size(&self) -> (r: usize)
        requires
            self.spec_total_size() <= usize::MAX,
        ensures
            r == self.spec_total_size(),
    {
        let ghost n = self.num_frames() as int;
        proof {
            self.lemma_bytes_boundary_mono(0, n);
            self.lemma_regions_boundary_mono(0, n);
            self.lemma_bytes_cat_len(n);
            self.lemma_regions_cat_len(n);
        }
        let bytes = self.differing_bytes();
        let bytes_bounds = self.differing_bytes_boundaries();
        let regions = self.differing_regions();
        let region_bounds = self.differing_regions_boundaries();
        bytes.len() + 2 * (bytes_bounds.len() + regions.len() + region_bounds.len())
    }
}

/// Packs a list of equal-length frames: the first frame becomes the base
/// diff, and every frame (the first included) is then diffed against the
/// reconstructed base frame.
pub fn compress_frames(all_frames: &[Vec<u8>]) -> (r: CompactAnimation)
    requires
        all_frames@.len() > 0,
        forall|k: int|
            0 <= k < all_frames@.len() ==> (#[trigger] all_frames@[k])@.len()
                == all_frames@[0]@.len(),
    ensures
        r.wf(),
        r.spec_frame_len() == all_frames@[0]@.len(),
        is_diff_of(
            r.base_regions(),
            r.base_values(),
            zero_run(all_frames@[0]@.len()),
            all_frames@[0]@,
        ),
        r.base_frame() == all_frames@[0]@,
        r.num_frames() == all_frames@.len(),
        forall|k: int|
            0 <= k < all_frames@.len() ==> is_diff_of(
                #[trigger] r.frame_regions(k),
                r.frame_values(k),
                all_frames@[0]@,
                all_frames@[k]@,
            ),
{
    let first = &all_frames[0];
    let mut slim = CompactAnimation::from_original(first.as_slice());
    proof {
        lemma_apply_diff_round_trip(
            slim.base_regions(),
            slim.base_values(),
            zero_run(all_frames@[0]@.len()),
            all_frames@[0]@,
        );
    }
    let mut k: usize = 0;
    while k < all_frames.len()
        invariant
            all_frames@.len() > 0,
            forall|j: int|
                0 <= j < all_frames@.len() ==> (#[trigger] all_frames@[j])@.len()
                    == all_frames@[0]@.len(),
            slim.wf(),
            slim.spec_frame_len() == all_frames@[0]@.len(),
            is_diff_of(
                slim.base_regions(),
                slim.base_values(),
                zero_run(all_frames@[0]@.len()),
                all_frames@[0]@,
            ),
            slim.base_frame() == all_frames@[0]@,
            0 <= k <= all_frames@.len(),
            slim.num_frames() == k,
            forall|j: int|
                0 <= j < k ==> is_diff_of(
                    #[trigger] slim.frame_regions(j),
                    slim.frame_values(j),
                    all_frames@[0]@,
                    all_frames@[j]@,
                ),
        decreases all_frames@.len() - k,
    {
        slim = slim.with_frame(all_frames[k].as_slice());
        k = k + 1;
    }
    slim
}

} // verus!
