//! Stamped samples and the interpolation recipes that sampling hands back.
//!
//! The library never does arithmetic on a rigid transform itself: it carries the
//! payload `T` (a translation and a rotation, in whatever representation the user
//! keeps) through its histories and answers lookups with recipes that say which
//! stored transforms to combine, and with what integer time weights.
use vstd::prelude::*;

use crate::time::Time;

verus! {

/// A transform from frame `frame_id` (the parent) to `child_frame_id`, valid at `stamp`.
#[derive(Clone, Debug)]
pub struct StampedTransform<P> {
    pub frame_id: String,
    pub child_frame_id: String,
    pub stamp: Time,
    pub transform: P,
}

/// The mathematical content of a `StampedTransform`.
pub struct StampedView<P> {
    pub frame_id: Seq<char>,
    pub child_frame_id: Seq<char>,
    pub stamp: Time,
    pub transform: P,
}

impl<P> View for StampedTransform<P> {
    type V = StampedView<P>;

    open spec fn view(&self) -> StampedView<P> {
        StampedView {
            frame_id: self.frame_id@,
            child_frame_id: self.child_frame_id@,
            stamp: self.stamp,
            transform: self.transform,
        }
    }
}

impl<P> StampedView<P> {
    /// The stamp as a nanosecond count.
    pub open spec fn ns(self) -> int {
        self.stamp.ns()
    }
}

/// How the transform of one edge at one query time is obtained from stored samples.
#[derive(Clone, Copy, Debug, PartialEq)]
pub enum Segment<T> {
    /// A stored transform, used as it is.
    Exact(T),
    /// The interpolation of two adjacent stored transforms. The query lies
    /// `elapsed_ns` after the older sample, and the newer one `span_ns` after it,
    /// so the weight of `older` is `1 - elapsed_ns / span_ns` (with
    /// `0 < elapsed_ns < span_ns`).
    Blend { older: T, newer: T, elapsed_ns: i64, span_ns: i64 },
}

impl<P: Copy> StampedTransform<P> {
    /// A copy of this sample.
    pub fn duplicate(&self) -> (r: Self)
        ensures
            r@ == self@,
    {
        StampedTransform {
            frame_id: self.frame_id.clone(),
            child_frame_id: self.child_frame_id.clone(),
            stamp: self.stamp,
            transform: self.transform,
        }
    }
}

/// A transform as it was received, or the inverse of one. The buffer files each
/// received parent-to-child transform under its own edge and, inverted, under the
/// reverse edge, so that lookups can walk the graph either way.
#[derive(Clone, Copy, Debug, PartialEq)]
pub enum Oriented<T> {
    Forward(T),
    Inverse(T),
}

/// `x` filed under its own edge.
pub open spec fn forward_view<T>(x: StampedView<T>) -> StampedView<Oriented<T>> {
    StampedView {
        frame_id: x.frame_id,
        child_frame_id: x.child_frame_id,
        stamp: x.stamp,
        transform: Oriented::Forward(x.transform),
    }
}

/// `x` filed, inverted, under the reverse edge: the frames swap, the stamp stays.
pub open spec fn inverse_view<T>(x: StampedView<T>) -> StampedView<Oriented<T>> {
    StampedView {
        frame_id: x.child_frame_id,
        child_frame_id: x.frame_id,
        stamp: x.stamp,
        transform: Oriented::Inverse(x.transform),
    }
}

impl<T: Copy> StampedTransform<T> {
    /// This transform, marked as received.
    pub fn forward(&self) -> (r: StampedTransform<Oriented<T>>)
        ensures
            r@ == forward_view(self@),
    {
        StampedTransform {
            frame_id: self.frame_id.clone(),
            child_frame_id: self.child_frame_id.clone(),
            stamp: self.stamp,
            transform: Oriented::Forward(self.transform),
        }
    }

    /// The inverse of this transform: from the child frame to the parent, at the
    /// same stamp.
    pub fn inverse(&self) -> (r: StampedTransform<Oriented<T>>)
        ensures
            r@ == inverse_view(self@),
    {
        StampedTransform {
            frame_id: self.child_frame_id.clone(),
            child_frame_id: self.frame_id.clone(),
            stamp: self.stamp,
            transform: Oriented::Inverse(self.transform),
        }
    }
}

/// A sequence of samples whose stamps strictly increase.
pub open spec fn stamps_sorted<P>(s: Seq<StampedView<P>>) -> bool {
    forall|i: int, j: int| 0 <= i < j < s.len() ==> #[trigger] s[i].ns() < #[trigger] s[j].ns()
}

/// Keeping the elements that satisfy `p`, where they are exactly those at positions
/// `lo..hi`, keeps that range.
pub proof fn lemma_filter_range<A>(s: Seq<A>, p: spec_fn(A) -> bool, lo: int, hi: int)
    requires
        0 <= lo <= hi <= s.len(),
        forall|i: int| 0 <= i < s.len() ==> (p(#[trigger] s[i]) <==> lo <= i < hi),
    ensures
        s.filter(p) == s.subrange(lo, hi),
    decreases s.len(),
{
    reveal(Seq::filter);
    if s.len() == 0 {
        assert(s.filter(p) =~= s.subrange(lo, hi));
    } else {
        let d = s.drop_last();
        assert(d.len() == s.len() - 1);
        assert(forall|i: int| 0 <= i < d.len() ==> d[i] == s[i]);
        assert(s.last() == s[s.len() - 1]);
        if hi == s.len() && lo < hi {
            lemma_filter_range(d, p, lo, hi - 1);
            assert(p(s[s.len() - 1]));
            assert(s.filter(p) == d.filter(p).push(s.last()));
            assert(s.filter(p) =~= s.subrange(lo, hi));
        } else {
            let l = if hi == s.len() { d.len() as int } else { lo };
            let h = if hi == s.len() { d.len() as int } else { hi };
            assert forall|i: int| 0 <= i < d.len() implies (p(#[trigger] d[i]) <==> l <= i < h) by {
                assert(d[i] == s[i]);
            }
            lemma_filter_range(d, p, l, h);
            assert(!p(s[s.len() - 1]));
            assert(s.filter(p) == d.filter(p));
            assert(s.filter(p) =~= s.subrange(lo, hi));
        }
    }
}

} // verus!
