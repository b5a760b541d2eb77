//! The time-ordered, time-bounded sample history of one directed edge.
use vstd::prelude::*;

use crate::error::{outcome, TfError, TfErrorView};
use crate::stamped::{lemma_filter_range, stamps_sorted, Segment, StampedTransform, StampedView};
use crate::time::{
    duration_as_ns_i64, is_time_in_range_eq, lemma_ns_bounds, time_as_ns_i64, Duration, Time,
};

verus! {

/// The mathematical content of an edge history.
pub struct HistoryView<T> {
    pub static_tf: bool,
    pub cache_duration: Duration,
    pub samples: Seq<StampedView<T>>,
    /// The sample inserted last, whatever its stamp.
    pub recent: Option<StampedView<T>>,
}

/// The samples of one (parent, child) edge, sorted by stamp, none older than the
/// cache duration before the newest, and the sample inserted last.
#[derive(Clone, Debug)]
pub struct TfIndividualTransformChain<T> {
    cache_duration: Duration,
    static_tf: bool,
    transform_chain: Vec<StampedTransform<T>>,
    last_inserted: Option<StampedTransform<T>>,
}

/// The views of a sequence of samples.
pub open spec fn samples_of<P>(v: Seq<StampedTransform<P>>) -> Seq<StampedView<P>> {
    v.map_values(|s: StampedTransform<P>| s@)
}

impl<T> View for TfIndividualTransformChain<T> {
    type V = HistoryView<T>;

    closed spec fn view(&self) -> HistoryView<T> {
        HistoryView {
            static_tf: self.static_tf,
            cache_duration: self.cache_duration,
            samples: samples_of(self.transform_chain@),
            recent: match self.last_inserted {
                Some(x) => Some(x@),
                None => None,
            },
        }
    }
}

/// A history with no sample yet.
pub open spec fn empty_history<T>(static_tf: bool, cache: Duration) -> HistoryView<T> {
    HistoryView { static_tf, cache_duration: cache, samples: Seq::empty(), recent: None }
}

/// The history after `x` goes in: it joins the samples in stamp order, those out of
/// the retention window are dropped, and it becomes the sample inserted last.
pub open spec fn after_insert<T>(h: HistoryView<T>, x: StampedView<T>) -> HistoryView<T> {
    HistoryView {
        samples: retained(inserted(h.samples, x), h.cache_duration),
        recent: Some(x),
        ..h
    }
}

/// Whether the history has something to answer with: a static edge needs a sample
/// inserted at some time, another edge a sample still held.
pub open spec fn has_data<T>(h: HistoryView<T>) -> bool {
    if h.static_tf {
        h.recent is Some
    } else {
        h.samples.len() > 0
    }
}

/// Samples with the stamp of `x` give way to `x`; the others keep their order.
pub open spec fn inserted<P>(s: Seq<StampedView<P>>, x: StampedView<P>) -> Seq<StampedView<P>> {
    s.filter(|y: StampedView<P>| y.ns() < x.ns()).push(x) + s.filter(
        |y: StampedView<P>| y.ns() > x.ns(),
    )
}

/// Where the newest stamp exceeds `cache` above zero, the samples older than
/// `cache` before the newest are dropped.
pub open spec fn retained<P>(s: Seq<StampedView<P>>, cache: Duration) -> Seq<StampedView<P>> {
    if s.len() > 0 && s.last().ns() > cache.ns() {
        s.filter(|y: StampedView<P>| y.ns() >= s.last().ns() - cache.ns())
    } else {
        s
    }
}

/// No sample is older than `cache` before the newest, once the newest exceeds `cache`.
pub open spec fn within_retention<P>(s: Seq<StampedView<P>>, cache: Duration) -> bool {
    s.len() > 0 && s.last().ns() > cache.ns() ==> forall|i: int|
        0 <= i < s.len() ==> #[trigger] s[i].ns() >= s.last().ns() - cache.ns()
}

/// A well-formed history: sorted strictly by stamp and within its retention window.
pub open spec fn history_wf<T>(h: HistoryView<T>) -> bool {
    stamps_sorted(h.samples) && within_retention(h.samples, h.cache_duration)
}

/// Whether the history can answer a query at `t`.
pub open spec fn valid_at<T>(h: HistoryView<T>, t: Time) -> bool {
    has_data(h) && (h.static_tf || t.is_latest() || (h.samples[0].ns() <= t.ns()
        && t.ns() <= h.samples.last().ns()))
}

/// A stored sample, answered as it is.
pub open spec fn exact<T>(x: StampedView<T>) -> StampedView<Segment<T>> {
    StampedView {
        frame_id: x.frame_id,
        child_frame_id: x.child_frame_id,
        stamp: x.stamp,
        transform: Segment::Exact(x.transform),
    }
}

/// The interpolation at `t` between samples `i - 1` and `i`, carrying the frame ids
/// of the newer one.
pub open spec fn blend<T>(s: Seq<StampedView<T>>, i: int, t: Time) -> StampedView<Segment<T>> {
    StampedView {
        frame_id: s[i].frame_id,
        child_frame_id: s[i].child_frame_id,
        stamp: t,
        transform: Segment::Blend {
            older: s[i - 1].transform,
            newer: s[i].transform,
            elapsed_ns: (t.ns() - s[i - 1].ns()) as i64,
            span_ns: (s[i].ns() - s[i - 1].ns()) as i64,
        },
    }
}

/// What a history with data answers at `t`: a static edge, the sample inserted
/// last; the "latest" sentinel, the newest sample; otherwise the sample at `t`, the
/// blend of the two around it, or an error when `t` lies outside them.
pub open spec fn closest<T>(h: HistoryView<T>, t: Time) -> Result<
    StampedView<Segment<T>>,
    TfErrorView<T>,
> {
    let s = h.samples;
    if h.static_tf {
        Ok(exact(h.recent->Some_0))
    } else if t.is_latest() {
        Ok(exact(s.last()))
    } else if exists|i: int| 0 <= i < s.len() && #[trigger] s[i].ns() == t.ns() {
        Ok(exact(s[choose|i: int| 0 <= i < s.len() && #[trigger] s[i].ns() == t.ns()]))
    } else if t.ns() < s[0].ns() {
        Err(TfErrorView::AttemptedLookupInPast(t, s[0]))
    } else if t.ns() > s.last().ns() {
        Err(TfErrorView::AttemptedLookUpInFuture(s.last(), t))
    } else {
        Ok(
            blend(
                s,
                choose|i: int| 0 < i < s.len() && s[i - 1].ns() < t.ns() && t.ns() < #[trigger] s[i].ns(),
                t,
            ),
        )
    }
}

/// Every sample of `s` names the edge from `parent` to `child`.
pub open spec fn all_named<T>(s: Seq<StampedView<T>>, parent: Seq<char>, child: Seq<char>) -> bool {
    forall|i: int|
        0 <= i < s.len() ==> (#[trigger] s[i]).frame_id == parent && s[i].child_frame_id == child
}

/// Inserting a sample that names an edge into samples that all name it, and
/// dropping old ones, leaves samples that all name it.
pub proof fn lemma_insert_keeps_names<T>(
    s: Seq<StampedView<T>>,
    x: StampedView<T>,
    cache: Duration,
    parent: Seq<char>,
    child: Seq<char>,
)
    requires
        all_named(s, parent, child),
        x.frame_id == parent,
        x.child_frame_id == child,
    ensures
        all_named(retained(inserted(s, x), cache), parent, child),
{
    let lt = |y: StampedView<T>| y.ns() < x.ns();
    let gt = |y: StampedView<T>| y.ns() > x.ns();
    let a = s.filter(lt);
    let b = s.filter(gt);
    let u = inserted(s, x);
    assert(u == a.push(x) + b);
    assert forall|i: int| 0 <= i < u.len() implies (#[trigger] u[i]).frame_id == parent
        && u[i].child_frame_id == child by {
        if i < a.len() {
            assert(a.contains(a[i]));
            s.lemma_filter_contains_rev(lt, a[i]);
            assert(u[i] == a[i]);
        } else if i > a.len() {
            let j = i - a.len() - 1;
            assert(u[i] == b[j]);
            assert(b.contains(b[j]));
            s.lemma_filter_contains_rev(gt, b[j]);
        } else {
            assert(u[i] == x);
        }
    }
    if u.len() > 0 && u.last().ns() > cache.ns() {
        let keep = |y: StampedView<T>| y.ns() >= u.last().ns() - cache.ns();
        let r = u.filter(keep);
        assert forall|i: int| 0 <= i < r.len() implies (#[trigger] r[i]).frame_id == parent
            && r[i].child_frame_id == child by {
            assert(r.contains(r[i]));
            u.lemma_filter_contains_rev(keep, r[i]);
        }
    }
}

/// Every history at every instant holds its samples strictly sorted by stamp, and
/// none older than its cache duration before the newest once the newest exceeds it.
pub proof fn lemma_history_invariants<T: Copy>(h: TfIndividualTransformChain<T>)
    requires
        h.wf(),
    ensures
        forall|i: int, j: int|
            0 <= i < j < h@.samples.len() ==> #[trigger] h@.samples[i].ns() < #[trigger] h@.samples[j].ns(),
        h@.samples.len() > 0 && h@.samples.last().ns() > h@.cache_duration.ns() ==> h@.samples.last().ns()
            - h@.samples[0].ns() <= h@.cache_duration.ns(),
{
}

/// Inserting a sample whose stamp the history already holds keeps the number of
/// samples and puts the new sample in the place of the one with that stamp.
pub proof fn lemma_exact_hit_replaces<T>(h: HistoryView<T>, x: StampedView<T>, i: int)
    requires
        history_wf(h),
        0 <= i < h.samples.len(),
        h.samples[i].ns() == x.ns(),
    ensures
        retained(inserted(h.samples, x), h.cache_duration) == h.samples.update(i, x),
        retained(inserted(h.samples, x), h.cache_duration).len() == h.samples.len(),
{
    let s = h.samples;
    let lt = |y: StampedView<T>| y.ns() < x.ns();
    let gt = |y: StampedView<T>| y.ns() > x.ns();
    assert forall|j: int| 0 <= j < s.len() implies (lt(#[trigger] s[j]) <==> 0 <= j < i) && (gt(
        s[j],
    ) <==> i + 1 <= j < s.len()) by {
        if j < i {
            assert(s[j].ns() < s[i].ns());
        } else if j > i {
            assert(s[j].ns() > s[i].ns());
        }
    }
    lemma_filter_range(s, lt, 0, i);
    lemma_filter_range(s, gt, i + 1, s.len() as int);
    let u = s.update(i, x);
    assert(inserted(s, x) =~= u);
    assert(u.last().ns() == s.last().ns());
    if u.last().ns() > h.cache_duration.ns() {
        let keep = |y: StampedView<T>| y.ns() >= u.last().ns() - h.cache_duration.ns();
        assert forall|j: int| 0 <= j < u.len() implies (keep(#[trigger] u[j]) <==> 0 <= j < u.len()) by {
            assert(s[j].ns() >= s.last().ns() - h.cache_duration.ns());
        }
        lemma_filter_range(u, keep, 0, u.len() as int);
        assert(u.subrange(0, u.len() as int) =~= u);
    }
}

/// A static edge answers every query with the sample inserted into it last, whatever
/// its stamp.
pub proof fn lemma_static_answers_last_inserted<T>(h: HistoryView<T>, x: StampedView<T>, t: Time)
    requires
        h.static_tf,
    ensures
        valid_at(after_insert(h, x), t),
        closest(after_insert(h, x), t) == Ok::<StampedView<Segment<T>>, TfErrorView<T>>(exact(x)),
{
}

/// A history that reports itself valid at `t` answers the query at `t`.
pub proof fn lemma_valid_answers<T>(h: HistoryView<T>, t: Time)
    requires
        history_wf(h),
        valid_at(h, t),
    ensures
        closest(h, t) is Ok,
{
}

/// `Ok(i)` where sample `i` has the stamp `ns`; otherwise `Err(i)`, the position at
/// which such a sample would keep the order.
fn binary_search_time<P>(chain: &Vec<StampedTransform<P>>, ns: i64) -> (r: Result<usize, usize>)
    requires
        stamps_sorted(samples_of(chain@)),
    ensures
        match r {
            Ok(i) => i < chain@.len() && chain@[i as int].stamp.ns() == ns,
            Err(i) => i <= chain@.len() && (forall|j: int|
                0 <= j < i ==> #[trigger] chain@[j].stamp.ns() < ns) && (forall|j: int|
                i <= j < chain@.len() ==> #[trigger] chain@[j].stamp.ns() > ns),
        },
{
    let ghost s = samples_of(chain@);
    assert(forall|j: int| 0 <= j < chain@.len() ==> #[trigger] chain@[j].stamp.ns() == s[j].ns());
    let mut lo: usize = 0;
    let mut hi: usize = chain.len();
    while lo < hi
        invariant
            lo <= hi <= chain@.len(),
            s == samples_of(chain@),
            stamps_sorted(s),
            forall|j: int| 0 <= j < chain@.len() ==> #[trigger] chain@[j].stamp.ns() == s[j].ns(),
            forall|j: int| 0 <= j < lo ==> #[trigger] chain@[j].stamp.ns() < ns,
            forall|j: int| hi <= j < chain@.len() ==> #[trigger] chain@[j].stamp.ns() > ns,
        decreases hi - lo,
    {
        let mid = lo + (hi - lo) / 2;
        let m = time_as_ns_i64(&chain[mid].stamp);
        if m == ns {
            return Ok(mid);
        } else if m < ns {
            assert forall|j: int| 0 <= j < mid + 1 implies #[trigger] chain@[j].stamp.ns() < ns by {
                if j < mid {
                    assert(s[j].ns() < s[mid as int].ns());
                }
            }
            lo = mid + 1;
        } else {
            assert forall|j: int| mid <= j < chain@.len() implies #[trigger] chain@[j].stamp.ns()
                > ns by {
                if j > mid {
                    assert(s[mid as int].ns() < s[j].ns());
                }
            }
            hi = mid;
        }
    }
    Err(lo)
}

/// A stored sample as an exact answer.
fn exact_sample<T: Copy>(x: &StampedTransform<T>) -> (r: StampedTransform<Segment<T>>)
    ensures
        r@ == exact(x@),
{
    StampedTransform {
        frame_id: x.frame_id.clone(),
        child_frame_id: x.child_frame_id.clone(),
        stamp: x.stamp,
        transform: Segment::Exact(x.transform),
    }
}

impl<T: Copy> TfIndividualTransformChain<T> {
    pub open spec fn wf(&self) -> bool {
        history_wf(self@)
    }

    /// An empty history.
    pub fn new(static_tf: bool, cache_duration: Duration) -> (r: Self)
        ensures
            r.wf(),
            r@ == empty_history::<T>(static_tf, cache_duration),
    {
        let r = TfIndividualTransformChain {
            cache_duration,
            static_tf,
            transform_chain: Vec::new(),
            last_inserted: None,
        };
        assert(r@.samples =~= Seq::empty());
        r
    }

    /// Whether samples are valid at every query time.
    pub fn is_static(&self) -> (r: bool)
        ensures
            r == self@.static_tf,
    {
        self.static_tf
    }

    /// The number of samples held.
    pub fn len(&self) -> (r: usize)
        ensures
            r == self@.samples.len(),
    {
        self.transform_chain.len()
    }

    /// The sample at position `i`, oldest first.
    pub fn get(&self, i: usize) -> (r: Option<StampedTransform<T>>)
        ensures
            i < self@.samples.len() ==> r.is_some() && r.unwrap()@ == self@.samples[i as int],
            i >= self@.samples.len() ==> r.is_none(),
    {
        if i < self.transform_chain.len() {
            Some(self.transform_chain[i].duplicate())
        } else {
            None
        }
    }

    /// Inserts `msg` in stamp order, replacing a sample with the same stamp, then
    /// drops the samples that fall out of the retention window of the newest;
    /// `msg` becomes the sample inserted last.
    pub fn add_to_buffer(&mut self, msg: StampedTransform<T>)
        requires
            old(self).wf(),
        ensures
            final(self).wf(),
            final(self)@ == after_insert(old(self)@, msg@),
    {
        let kept = msg.duplicate();
        let ghost s0 = self@.samples;
        let ghost x = msg@;
        let ns = time_as_ns_i64(&msg.stamp);
        let ghost lt = |y: StampedView<T>| y.ns() < x.ns();
        let ghost gt = |y: StampedView<T>| y.ns() > x.ns();
        assert(forall|j: int| 0 <= j < s0.len() ==> #[trigger] s0[j] == self.transform_chain@[j]@);
        match binary_search_time(&self.transform_chain, ns) {
            Ok(i) => {
                assert forall|j: int| 0 <= j < s0.len() implies (lt(#[trigger] s0[j]) <==> 0 <= j
                    < i) && (gt(s0[j]) <==> i + 1 <= j < s0.len()) by {
                    assert(s0[i as int].ns() == x.ns());
                    if j < i {
                        assert(s0[j].ns() < s0[i as int].ns());
                    } else if j > i {
                        assert(s0[j].ns() > s0[i as int].ns());
                    }
                }
                proof {
                    lemma_filter_range(s0, lt, 0, i as int);
                    lemma_filter_range(s0, gt, i as int + 1, s0.len() as int);
                }
                self.transform_chain.set(i, msg);
                assert(self@.samples =~= inserted(s0, x));
            },
            Err(i) => {
                assert forall|j: int| 0 <= j < s0.len() implies (lt(#[trigger] s0[j]) <==> 0 <= j
                    < i) && (gt(s0[j]) <==> i <= j < s0.len()) by {
                    assert(s0[j].ns() == self.transform_chain@[j].stamp.ns());
                }
                proof {
                    lemma_filter_range(s0, lt, 0, i as int);
                    lemma_filter_range(s0, gt, i as int, s0.len() as int);
                }
                self.transform_chain.insert(i, msg);
                assert(self@.samples =~= inserted(s0, x));
            },
        }
        self.evict();
        self.last_inserted = Some(kept);
    }

    /// Drops the samples older than the cache duration before the newest, once the
    /// newest exceeds the cache duration.
    fn evict(&mut self)
        requires
            stamps_sorted(old(self)@.samples),
            old(self)@.samples.len() > 0,
        ensures
            final(self).wf(),
            final(self)@.static_tf == old(self)@.static_tf,
            final(self)@.cache_duration == old(self)@.cache_duration,
            final(self)@.samples == retained(old(self)@.samples, old(self)@.cache_duration),
            final(self).last_inserted == old(self).last_inserted,
    {
        let ghost s1 = self@.samples;
        let n = self.transform_chain.len();
        let newest_ns = time_as_ns_i64(&self.transform_chain[n - 1].stamp);
        let cache_ns = duration_as_ns_i64(&self.cache_duration);
        if newest_ns > cache_ns {
            let cut = newest_ns - cache_ns;
            let found = binary_search_time(&self.transform_chain, cut);
            let k = match found {
                Ok(k) => k,
                Err(k) => k,
            };
            let ghost keep = |y: StampedView<T>| y.ns() >= s1.last().ns() - self.cache_duration.ns();
            assert(forall|j: int| 0 <= j < s1.len() ==> #[trigger] s1[j] == self.transform_chain@[j]@);
            assert(s1.last() == s1[n - 1]);
            assert(cut == s1.last().ns() - self.cache_duration.ns());
            assert forall|j: int| 0 <= j < s1.len() implies (keep(#[trigger] s1[j]) <==> k <= j
                < s1.len()) by {
                assert(s1[j].ns() == self.transform_chain@[j].stamp.ns());
                match found {
                    Ok(i) => {
                        assert(i == k);
                        assert(s1[k as int].ns() == cut);
                        if j < k {
                            assert(s1[j].ns() < s1[k as int].ns());
                        } else if j > k {
                            assert(s1[j].ns() > s1[k as int].ns());
                        }
                    },
                    Err(i) => {
                        assert(i == k);
                    },
                }
            }
            proof {
                lemma_filter_range(s1, keep, k as int, s1.len() as int);
            }
            let kept = self.transform_chain.split_off(k);
            self.transform_chain = kept;
            assert(self@.samples =~= s1.subrange(k as int, s1.len() as int));
        }
    }

    /// What the history answers at `time`: the sample inserted last on a static
    /// edge, the newest sample for the "latest" sentinel; otherwise a stored sample
    /// with that stamp, the blend of the two samples around it, or an error when it
    /// lies outside them.
    pub fn get_closest_transform(&self, time: &Time) -> (r: Result<
        StampedTransform<Segment<T>>,
        TfError<T>,
    >)
        requires
            self.wf(),
            has_data(self@),
        ensures
            outcome(r) == closest(self@, *time),
    {
        let ghost s = self@.samples;
        let ghost t = *time;
        assert(forall|j: int| 0 <= j < s.len() ==> #[trigger] s[j] == self.transform_chain@[j]@);
        if self.static_tf {
            return Ok(exact_sample(self.last_inserted.as_ref().unwrap()));
        }
        let n = self.transform_chain.len();
        let time_ns = time_as_ns_i64(time);
        if time_ns == 0 {
            return Ok(exact_sample(&self.transform_chain[n - 1]));
        }
        match binary_search_time(&self.transform_chain, time_ns) {
            Ok(i) => {
                proof {
                    let c = choose|c: int| 0 <= c < s.len() && #[trigger] s[c].ns() == t.ns();
                    if c < i {
                        assert(s[c].ns() < s[i as int].ns());
                    } else if c > i {
                        assert(s[c].ns() > s[i as int].ns());
                    }
                }
                Ok(exact_sample(&self.transform_chain[i]))
            },
            Err(i) => {
                assert(!exists|j: int| 0 <= j < s.len() && #[trigger] s[j].ns() == t.ns()) by {
                    assert(forall|j: int| 0 <= j < s.len() ==> #[trigger] s[j].ns() != t.ns());
                }
                if i == 0 {
                    Err(TfError::AttemptedLookupInPast(*time, Box::new(self.transform_chain[0].duplicate())))
                } else if i >= n {
                    Err(
                        TfError::AttemptedLookUpInFuture(
                            Box::new(self.transform_chain[n - 1].duplicate()),
                            *time,
                        ),
                    )
                } else {
                    let older = &self.transform_chain[i - 1];
                    let newer = &self.transform_chain[i];
                    let older_ns = time_as_ns_i64(&older.stamp);
                    let newer_ns = time_as_ns_i64(&newer.stamp);
                    proof {
                        lemma_ns_bounds(older.stamp.sec, older.stamp.nanosec);
                        lemma_ns_bounds(newer.stamp.sec, newer.stamp.nanosec);
                        lemma_ns_bounds(time.sec, time.nanosec);
                        let c = choose|c: int|
                            0 < c < s.len() && s[c - 1].ns() < t.ns() && t.ns() < #[trigger] s[c].ns();
                        assert(0 < i < s.len() && s[i - 1].ns() < t.ns() && t.ns() < s[i as int].ns());
                        if c < i {
                            assert(s[c].ns() <= s[i - 1].ns());
                        } else if c > i {
                            assert(s[i as int].ns() <= s[c - 1].ns());
                        }
                    }
                    let r = StampedTransform {
                        frame_id: newer.frame_id.clone(),
                        child_frame_id: newer.child_frame_id.clone(),
                        stamp: *time,
                        transform: Segment::Blend {
                            older: older.transform,
                            newer: newer.transform,
                            elapsed_ns: time_ns - older_ns,
                            span_ns: newer_ns - older_ns,
                        },
                    };
                    assert(r@ == blend(s, i as int, t));
                    Ok(r)
                }
            },
        }
    }

    /// Whether the history can answer at `time`: a static edge once a sample went
    /// in; another edge while it holds a sample, for the "latest" sentinel or for a
    /// `time` between the oldest and the newest stamp.
    pub fn has_valid_transform(&self, time: &Time) -> (r: bool)
        ensures
            r == valid_at(self@, *time),
    {
        if self.static_tf {
            return self.last_inserted.is_some();
        }
        let n = self.transform_chain.len();
        if n == 0 {
            return false;
        }
        proof {
            assert(self@.samples[0] == self.transform_chain@[0]@);
            assert(self@.samples.last() == self.transform_chain@[n - 1]@);
        }
        time_as_ns_i64(time) == 0 || is_time_in_range_eq(
            time,
            &self.transform_chain[0].stamp,
            &self.transform_chain[n - 1].stamp,
        )
    }

    /// A copy of this history.
    pub fn copy(&self) -> (r: Self)
        ensures
            r@ == self@,
    {
        let mut chain: Vec<StampedTransform<T>> = Vec::new();
        let mut i: usize = 0;
        while i < self.transform_chain.len()
            invariant
                i <= self.transform_chain@.len(),
                samples_of(chain@) == samples_of(self.transform_chain@).subrange(0, i as int),
            decreases self.transform_chain@.len() - i,
        {
            let ghost before = chain@;
            chain.push(self.transform_chain[i].duplicate());
            assert(samples_of(chain@) =~= samples_of(before).push(self.transform_chain@[i as int]@));
            assert(samples_of(self.transform_chain@).subrange(0, i + 1) =~= samples_of(
                self.transform_chain@,
            ).subrange(0, i as int).push(self.transform_chain@[i as int]@));
            i = i + 1;
        }
        assert(samples_of(self.transform_chain@).subrange(0, i as int) =~= samples_of(
            self.transform_chain@,
        ));
        let last_inserted = match &self.last_inserted {
            Some(x) => Some(x.duplicate()),
            None => None,
        };
        TfIndividualTransformChain {
            cache_duration: self.cache_duration,
            static_tf: self.static_tf,
            transform_chain: chain,
            last_inserted,
        }
    }

    /// The stamp of the newest sample.
    pub fn newest_stamp(&self) -> (r: Option<Time>)
        ensures
            self@.samples.len() == 0 ==> r.is_none(),
            self@.samples.len() > 0 ==> r == Some(self@.samples.last().stamp),
    {
        let n = self.transform_chain.len();
        if n == 0 {
            None
        } else {
            Some(self.transform_chain[n - 1].stamp)
        }
    }
}

} // verus!
