//! Colour animations: keyframed gradients over the unit interval, the
//! choice of the two keyframes between which a sample point falls, and the
//! colour at a sample point.

use vstd::prelude::*;
use crate::arith::zero;
use crate::color::{linear_interpolation, linear_interpolation_spec, Rgba};
use crate::number::{Single, ONE_BITS};

verus! {

/// A colour at a point of the unit interval.
#[derive(Clone, Copy, Debug, PartialEq, Eq, Structural)]
pub struct Keyframe {
    /// Where the colour stands, between zero and one.
    pub timestamp: Single,
    pub color: Rgba,
}

/// A named gradient: keyframes in strictly increasing order of timestamp.
#[derive(Clone, Debug)]
pub struct ColorAnimation {
    pub name: String,
    pub keyframes: Vec<Keyframe>,
}

/// Number of sample points a wide kernel handles at once.
pub const LANES: usize = 16;

/// The two ends between which a sample is interpolated.
#[derive(Clone, Copy, Debug, PartialEq, Eq, Structural)]
pub struct Segment {
    pub previous: Keyframe,
    pub next: Keyframe,
}

/// Every timestamp lies in the unit range and each is greater than the one
/// before it.
pub open spec fn strictly_increasing(kfs: Seq<Keyframe>) -> bool {
    &&& forall|i: int| 0 <= i < kfs.len() ==> (#[trigger] kfs[i]).timestamp.is_unit()
    &&& forall|i: int, j: int|
        0 <= i < j < kfs.len() ==> (#[trigger] kfs[i]).timestamp.bits < (
        #[trigger] kfs[j]).timestamp.bits
}

/// Number of keyframes whose timestamp is at or before `s`.
pub open spec fn count_at_or_before(kfs: Seq<Keyframe>, s: Single) -> nat
    decreases kfs.len(),
{
    if kfs.len() == 0 {
        0
    } else {
        count_at_or_before(kfs.drop_last(), s) + if kfs.last().timestamp.bits <= s.bits {
            1nat
        } else {
            0nat
        }
    }
}

/// The segment for a sample point that has `n` keyframes at or before it.
/// Before the first keyframe the first colour holds from timestamp zero;
/// after the last keyframe the last colour holds up to timestamp one.
pub open spec fn segment_at(kfs: Seq<Keyframe>, n: nat) -> Segment
    recommends
        kfs.len() > 0,
        n <= kfs.len(),
{
    if n == 0 {
        Segment {
            previous: Keyframe { timestamp: Single { bits: 0 }, color: kfs[0].color },
            next: kfs[0],
        }
    } else if n < kfs.len() {
        Segment { previous: kfs[n - 1], next: kfs[n as int] }
    } else {
        Segment {
            previous: kfs[n - 1],
            next: Keyframe { timestamp: Single { bits: ONE_BITS }, color: kfs[n - 1].color },
        }
    }
}

/// In a sorted sequence the keyframes at or before `s` are exactly the first
/// `count_at_or_before` ones: the last of them is the latest keyframe not
/// after `s`, and the one that follows is the earliest keyframe after `s`.
pub proof fn lemma_count_splits(kfs: Seq<Keyframe>, s: Single)
    requires
        strictly_increasing(kfs),
    ensures
        count_at_or_before(kfs, s) <= kfs.len(),
        forall|i: int|
            0 <= i < count_at_or_before(kfs, s) ==> (#[trigger] kfs[i]).timestamp.bits <= s.bits,
        forall|i: int|
            count_at_or_before(kfs, s) <= i < kfs.len() ==> (#[trigger] kfs[i]).timestamp.bits
                > s.bits,
    decreases kfs.len(),
{
    if kfs.len() > 0 {
        let front = kfs.drop_last();
        assert forall|i: int| 0 <= i < front.len() implies front[i] == kfs[i] by {}
        lemma_count_splits(front, s);
        if kfs.last().timestamp.bits <= s.bits {
            lemma_split_is_count(front, s, front.len());
        }
    }
}

/// A position that has only keyframes at or before `s` in front of it and
/// only later ones from it on is the count.
pub proof fn lemma_split_is_count(kfs: Seq<Keyframe>, s: Single, n: nat)
    requires
        n <= kfs.len(),
        forall|i: int| 0 <= i < n ==> (#[trigger] kfs[i]).timestamp.bits <= s.bits,
        forall|i: int| n <= i < kfs.len() ==> (#[trigger] kfs[i]).timestamp.bits > s.bits,
    ensures
        count_at_or_before(kfs, s) == n,
    decreases kfs.len(),
{
    if kfs.len() > 0 {
        let front = kfs.drop_last();
        assert forall|i: int| 0 <= i < front.len() implies front[i] == kfs[i] by {}
        if n == kfs.len() {
            lemma_split_is_count(front, s, (n - 1) as nat);
        } else {
            lemma_split_is_count(front, s, n);
        }
    }
}

/// The share of the way from the previous keyframe to the next at which
/// the sample point `s` lies: `(s - t_prev) / (t_next - t_prev)`, or zero
/// where the two keyframes stand at the same timestamp.
pub open spec fn share_spec(seg: Segment, s: Single) -> Single {
    let span = seg.next.timestamp.sub_spec(seg.previous.timestamp);
    if span.is_zero() {
        zero(false)
    } else {
        s.sub_spec(seg.previous.timestamp).div_spec(span)
    }
}

/// Samples an animation: the colour at the sample point, interpolated
/// between the keyframes around it.
pub fn sample_animation(sample_point: Single, animation: &ColorAnimation) -> (c: Rgba)
    requires
        animation.wf(),
        sample_point.is_unit(),
    ensures
        c == animation.sample_spec(sample_point),
{
    let seg = animation.segment(sample_point);
    let span = seg.next.timestamp.sub(seg.previous.timestamp);
    let share = if span.is_zero_value() {
        Single::zero()
    } else {
        sample_point.sub(seg.previous.timestamp).div(span)
    };
    linear_interpolation(seg.previous.color, seg.next.color, share)
}

impl ColorAnimation {
    /// The colour of the animation at the sample point `s`.
    pub open spec fn sample_spec(&self, s: Single) -> Rgba {
        let seg = self.segment_spec(s);
        linear_interpolation_spec(seg.previous.color, seg.next.color, share_spec(seg, s))
    }

    /// The animation can be sampled: it has a keyframe, and its keyframes
    /// are in the unit range and strictly increasing.
    pub open spec fn wf(&self) -> bool {
        &&& self.keyframes@.len() > 0
        &&& strictly_increasing(self.keyframes@)
    }

    /// The segment in which the sample point `s` falls.
    pub open spec fn segment_spec(&self, s: Single) -> Segment {
        segment_at(self.keyframes@, count_at_or_before(self.keyframes@, s))
    }

    /// Tells whether the animation can be sampled.
    pub fn is_valid(&self) -> (ok: bool)
        ensures
            ok == self.wf(),
    {
        let n = self.keyframes.len();
        if n == 0 {
            return false;
        }
        if self.keyframes[0].timestamp.bits > ONE_BITS {
            return false;
        }
        let mut i: usize = 1;
        while i < n
            invariant
                1 <= i <= n,
                n == self.keyframes@.len(),
                strictly_increasing(self.keyframes@.take(i as int)),
            decreases n - i,
        {
            let t: u32 = self.keyframes[i].timestamp.bits;
            if t > ONE_BITS || self.keyframes[i - 1].timestamp.bits >= t {
                return false;
            }
            proof {
                let before = self.keyframes@.take(i as int);
                let after = self.keyframes@.take(i + 1);
                assert forall|a: int, b: int| 0 <= a < b < after.len() implies (
                #[trigger] after[a]).timestamp.bits < (#[trigger] after[b]).timestamp.bits by {
                    if b < i {
                        assert(before[a].timestamp.bits < before[b].timestamp.bits);
                    } else if a < i - 1 {
                        assert(before[a].timestamp.bits < before[i - 1].timestamp.bits);
                    }
                }
                assert forall|a: int| 0 <= a < after.len() implies (
                #[trigger] after[a]).timestamp.is_unit() by {
                    if a < i {
                        assert(before[a].timestamp.is_unit());
                    }
                }
            }
            i += 1;
        }
        assert(self.keyframes@.take(n as int) =~= self.keyframes@);
        true
    }

    /// Counts the keyframes at or before `s`, looking at every keyframe.
    pub fn count_at_or_before(&self, s: Single) -> (n: usize)
        ensures
            n == count_at_or_before(self.keyframes@, s),
    {
        let total = self.keyframes.len();
        let mut n: usize = 0;
        let mut i: usize = 0;
        while i < total
            invariant
                i <= total,
                total == self.keyframes@.len(),
                n <= i,
                n == count_at_or_before(self.keyframes@.take(i as int), s),
            decreases total - i,
        {
            proof {
                assert(self.keyframes@.take(i + 1).drop_last() =~= self.keyframes@.take(i as int));
            }
            if self.keyframes[i].timestamp.bits <= s.bits {
                n += 1;
            }
            i += 1;
        }
        assert(self.keyframes@.take(total as int) =~= self.keyframes@);
        n
    }

    /// Finds the segment of each of sixteen sample points, as a wide kernel
    /// does: by counting, for each point, the keyframes at or before it.
    /// Lane for lane the result is what `segment` finds.
    pub fn segments(&self, points: &[Single; 16]) -> (segs: [Segment; 16])
        requires
            self.wf(),
            forall|k: int| 0 <= k < 16 ==> (#[trigger] points[k]).is_unit(),
        ensures
            forall|k: int| 0 <= k < 16 ==> #[trigger] segs[k] == self.segment_spec(points[k]),
    {
        let mut segs: [Segment; 16] = [self.segment(points[0]); 16];
        let mut k: usize = 1;
        while k < LANES
            invariant
                1 <= k <= 16,
                self.wf(),
                forall|j: int| 0 <= j < k ==> #[trigger] segs[j] == self.segment_spec(points[j]),
            decreases 16 - k,
        {
            let n = self.count_at_or_before(points[k]);
            proof {
                lemma_count_splits(self.keyframes@, points[k as int]);
            }
            let seg = if n == 0 {
                let first = self.keyframes[0];
                Segment {
                    previous: Keyframe { timestamp: Single::zero(), color: first.color },
                    next: first,
                }
            } else if n < self.keyframes.len() {
                Segment { previous: self.keyframes[n - 1], next: self.keyframes[n] }
            } else {
                let last = self.keyframes[n - 1];
                Segment {
                    previous: last,
                    next: Keyframe { timestamp: Single::one(), color: last.color },
                }
            };
            segs[k] = seg;
            k += 1;
        }
        segs
    }

    /// Finds the keyframes around the sample point `s`: the latest one not
    /// after `s` and the earliest one after `s`.
    pub fn segment(&self, s: Single) -> (seg: Segment)
        requires
            self.wf(),
            s.is_unit(),
        ensures
            seg == self.segment_spec(s),
    {
        let n = self.keyframes.len();
        let mut i: usize = 0;
        while i < n && self.keyframes[i].timestamp.bits <= s.bits
            invariant
                i <= n,
                n == self.keyframes@.len(),
                forall|j: int| 0 <= j < i ==> (#[trigger] self.keyframes@[j]).timestamp.bits <= s.bits,
            decreases n - i,
        {
            i += 1;
        }
        proof {
            let kfs = self.keyframes@;
            assert forall|j: int| i <= j < kfs.len() implies (#[trigger] kfs[j]).timestamp.bits
                > s.bits by {
                if j > i {
                    assert(kfs[i as int].timestamp.bits < kfs[j].timestamp.bits);
                }
            }
            lemma_split_is_count(kfs, s, i as nat);
        }
        if i == 0 {
            let first = self.keyframes[0];
            Segment {
                previous: Keyframe { timestamp: Single::zero(), color: first.color },
                next: first,
            }
        } else if i < n {
            Segment { previous: self.keyframes[i - 1], next: self.keyframes[i] }
        } else {
            let last = self.keyframes[i - 1];
            Segment {
                previous: last,
                next: Keyframe { timestamp: Single::one(), color: last.color },
            }
        }
    }
}

} // verus!
