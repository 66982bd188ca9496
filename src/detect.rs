use vstd::prelude::*;
use crate::candidates::{CandidateSet, get_smallest_stride_phase2, stride_of};
use crate::frame::Frame;
use crate::runs::{frame_candidates, frame_disproved, frame_stride};
use crate::scanner::get_smallest_stride_phase1;

verus! {

/// Some frame of the sequence holds a counted run of one pixel.
pub open spec fn animation_disproved(frames: Seq<Frame>, ignore_border: bool) -> bool {
    exists|k: int| 0 <= k < frames.len() && #[trigger] frame_disproved(&frames[k], ignore_border)
}

/// The candidates of all frames of the sequence together.
pub open spec fn animation_candidates(frames: Seq<Frame>, ignore_border: bool) -> Set<int> {
    Set::new(
        |n: int|
            exists|k: int|
                0 <= k < frames.len() && #[trigger] frame_candidates(&frames[k], ignore_border).contains(
                    n,
                ),
    )
}

/// The stride detected in a sequence of frames: 1 when any frame is
/// disproved, else the stride of all their candidates together.
pub open spec fn animation_stride(frames: Seq<Frame>, ignore_border: bool) -> int {
    if animation_disproved(frames, ignore_border) {
        1
    } else {
        stride_of(animation_candidates(frames, ignore_border))
    }
}

/// Every frame stores exactly its pixels.
pub open spec fn all_wf(frames: Seq<Frame>) -> bool {
    forall|k: int| 0 <= k < frames.len() ==> #[trigger] frames[k].wf()
}

/// The stride of one still image, or 1 when none is detected.
pub fn get_smallest_stride(img: &Frame, ignore_border: bool) -> (r: u32)
    requires
        img.wf(),
    ensures
        r as int == frame_stride(img, ignore_border),
{
    let mut strides = CandidateSet::new();
    if !get_smallest_stride_phase1(img, &mut strides, ignore_border) {
        return 1;
    }
    assert(strides@ =~= frame_candidates(img, ignore_border));
    get_smallest_stride_phase2(&strides)
}

/// The stride of a sequence of frames, scanning each of them into one set of
/// candidates; the first disproved frame ends the scan with 1.
pub fn get_smallest_stride_from_animation(frames: &Vec<Frame>, ignore_border: bool) -> (r: u32)
    requires
        all_wf(frames@),
    ensures
        r as int == animation_stride(frames@, ignore_border),
{
    let mut strides = CandidateSet::new();
    let mut k: usize = 0;
    while k < frames.len()
        invariant
            all_wf(frames@),
            k <= frames@.len(),
            strides.wf(),
            strides@ == animation_candidates(frames@.subrange(0, k as int), ignore_border),
            !animation_disproved(frames@.subrange(0, k as int), ignore_border),
        decreases frames@.len() - k,
    {
        let ghost before = strides@;
        let ghost prefix = frames@.subrange(0, k as int);
        let ghost next = frames@.subrange(0, k + 1);
        assert(frames@[k as int].wf());
        if !get_smallest_stride_phase1(&frames[k], &mut strides, ignore_border) {
            assert(frame_disproved(&frames@[k as int], ignore_border));
            return 1;
        }
        assert forall|j: int| 0 <= j < k + 1 implies #[trigger] next[j] == frames@[j] by {}
        assert(strides@ =~= animation_candidates(next, ignore_border)) by {
            assert forall|n: int| strides@.contains(n) implies animation_candidates(
                next,
                ignore_border,
            ).contains(n) by {
                if before.contains(n) {
                    let j = choose|j: int|
                        0 <= j < prefix.len() && #[trigger] frame_candidates(
                            &prefix[j],
                            ignore_border,
                        ).contains(n);
                    assert(next[j] == prefix[j]);
                } else {
                    assert(next[k as int] == frames@[k as int]);
                    assert(frame_candidates(&next[k as int], ignore_border).contains(n));
                }
            }
            assert forall|n: int| animation_candidates(next, ignore_border).contains(n) implies strides@.contains(n) by {
                let j = choose|j: int|
                    0 <= j < next.len() && #[trigger] frame_candidates(&next[j], ignore_border).contains(n);
                if j < k {
                    assert(next[j] == prefix[j]);
                    assert(frame_candidates(&prefix[j], ignore_border).contains(n));
                }
            }
        }
        assert(!animation_disproved(next, ignore_border)) by {
            if animation_disproved(next, ignore_border) {
                let j = choose|j: int| 0 <= j < next.len() && #[trigger] frame_disproved(&next[j], ignore_border);
                if j < k {
                    assert(next[j] == prefix[j]);
                    assert(frame_disproved(&prefix[j], ignore_border));
                }
            }
        }
        k = k + 1;
    }
    assert(frames@.subrange(0, frames@.len() as int) =~= frames@);
    get_smallest_stride_phase2(&strides)
}

/// The stride of the first frame alone, or 1 for an empty sequence.
pub fn get_smallest_stride_of_first_frame(frames: &Vec<Frame>, ignore_border: bool) -> (r: u32)
    requires
        all_wf(frames@),
    ensures
        r as int == (if frames@.len() == 0 {
            1
        } else {
            frame_stride(&frames@[0], ignore_border)
        }),
{
    if frames.len() == 0 {
        return 1;
    }
    assert(frames@[0].wf());
    get_smallest_stride(&frames[0], ignore_border)
}

} // verus!
