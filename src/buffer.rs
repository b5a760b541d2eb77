//! The frame graph: named frames, one sample history per directed edge, ingestion
//! and multi-hop lookup.
use vstd::prelude::*;

use crate::error::{edge_names, TfError, TfErrorView};
use crate::history::{
    after_insert, all_named, empty_history, has_data, closest, history_wf, inserted, lemma_insert_keeps_names, lemma_valid_answers,
    retained, samples_of, valid_at, HistoryView, TfIndividualTransformChain,
};
use crate::stamped::{forward_view, inverse_view, Oriented, Segment, StampedTransform, StampedView};
use crate::time::{Duration, Time};

verus! {

/// A directed edge, named by its (parent, child) frames.
pub type EdgeKey = (Seq<char>, Seq<char>);

/// Default retention of a history: ten seconds.
pub const DEFAULT_CACHE_DURATION_SECONDS: i32 = 10;

/// The history of one edge, with the frames it joins as positions in the frame table.
#[derive(Clone, Debug)]
struct EdgeSlot<T> {
    parent: usize,
    child: usize,
    chain: TfIndividualTransformChain<T>,
}

/// A buffer of stamped transforms between named frames.
///
/// Each frame name is stored once; each directed (parent, child) edge has one
/// history; for each frame, the index lists the edges that leave it.
#[derive(Clone, Debug)]
pub struct TfBuffer<T> {
    frames: Vec<String>,
    child_transform_index: Vec<Vec<usize>>,
    transform_data: Vec<EdgeSlot<T>>,
    cache_duration: Duration,
}

/// The edges after `x` goes into the history of its (parent, child) edge; a new
/// edge gets `static_tf` and the cache duration `cache`.
pub open spec fn added<T>(
    m: Map<EdgeKey, HistoryView<T>>,
    cache: Duration,
    x: StampedView<T>,
    static_tf: bool,
) -> Map<EdgeKey, HistoryView<T>> {
    let k = (x.frame_id, x.child_frame_id);
    let h = if m.contains_key(k) {
        m[k]
    } else {
        empty_history(static_tf, cache)
    };
    m.insert(k, after_insert(h, x))
}

/// `path` names frames from `from` to `to`, each step an edge valid at `t`.
pub open spec fn is_valid_path<T>(
    edges: Map<EdgeKey, HistoryView<T>>,
    from: Seq<char>,
    to: Seq<char>,
    path: Seq<Seq<char>>,
    t: Time,
) -> bool {
    &&& path.len() >= 1
    &&& path[0] == from
    &&& path.last() == to
    &&& forall|i: int|
        0 <= i < path.len() - 1 ==> edges.contains_key((path[i], #[trigger] path[i + 1])) && valid_at(
            edges[(path[i], path[i + 1])],
            t,
        )
}

/// `path` is valid at `t` and no valid path from `from` to `to` has fewer frames.
pub open spec fn is_shortest_path<T>(
    edges: Map<EdgeKey, HistoryView<T>>,
    from: Seq<char>,
    to: Seq<char>,
    path: Seq<Seq<char>>,
    t: Time,
) -> bool {
    &&& is_valid_path(edges, from, to, path, t)
    &&& forall|other: Seq<Seq<char>>|
        #[trigger] is_valid_path(edges, from, to, other, t) ==> path.len() <= other.len()
}

/// Some edge of `m` leaves frame `p`.
pub open spec fn is_parent<V>(m: Map<EdgeKey, V>, p: Seq<char>) -> bool {
    exists|c: Seq<char>| #[trigger] m.contains_key((p, c))
}

/// Some path from `from` to `to` is valid at `t`.
pub open spec fn connected<T>(
    edges: Map<EdgeKey, HistoryView<T>>,
    from: Seq<char>,
    to: Seq<char>,
    t: Time,
) -> bool {
    exists|path: Seq<Seq<char>>| is_valid_path(edges, from, to, path, t)
}

/// What the history `h`, valid at `t`, answers there.
pub open spec fn answer<T>(h: HistoryView<T>, t: Time) -> Segment<T> {
    (closest(h, t)->Ok_0).transform
}

/// What each step of `path` answers at `t`, in order.
pub open spec fn path_segments<T>(
    edges: Map<EdgeKey, HistoryView<T>>,
    path: Seq<Seq<char>>,
    t: Time,
) -> Seq<Segment<T>> {
    Seq::new((path.len() - 1) as nat, |i: int| answer(edges[(path[i], path[i + 1])], t))
}

/// The parts of a transform across two query times: the chain from the target
/// frame to the fixed frame at the second time, to be composed with the inverse
/// of the chain from the source frame to the fixed frame at the first time.
#[derive(Clone, Debug)]
pub struct TimeTravel<T> {
    pub to_fixed: Vec<Segment<T>>,
    pub from_fixed: Vec<Segment<T>>,
}

/// The edges after each transform of `batch`, in order, goes in under its own edge
/// and, inverted, under the reverse edge.
pub open spec fn ingested<T>(
    m: Map<EdgeKey, HistoryView<Oriented<T>>>,
    cache: Duration,
    batch: Seq<StampedView<T>>,
    static_tf: bool,
) -> Map<EdgeKey, HistoryView<Oriented<T>>>
    decreases batch.len(),
{
    if batch.len() == 0 {
        m
    } else {
        let before = ingested(m, cache, batch.drop_last(), static_tf);
        added(
            added(before, cache, forward_view(batch.last()), static_tf),
            cache,
            inverse_view(batch.last()),
            static_tf,
        )
    }
}

/// Every edge comes with its reverse.
pub open spec fn reverse_closed<V>(m: Map<EdgeKey, V>) -> bool {
    forall|k: EdgeKey| #[trigger] m.contains_key(k) ==> m.contains_key((k.1, k.0))
}

/// After a batch goes in, an edge map in which every edge came with its reverse
/// still has that property, and it holds each transform's edge and its reverse.
pub proof fn lemma_inverse_closure<T>(
    m: Map<EdgeKey, HistoryView<Oriented<T>>>,
    cache: Duration,
    batch: Seq<StampedView<T>>,
    static_tf: bool,
)
    requires
        reverse_closed(m),
    ensures
        reverse_closed(ingested(m, cache, batch, static_tf)),
        forall|i: int|
            0 <= i < batch.len() ==> ingested(m, cache, batch, static_tf).contains_key(
                (#[trigger] batch[i].frame_id, batch[i].child_frame_id),
            ) && ingested(m, cache, batch, static_tf).contains_key(
                (batch[i].child_frame_id, batch[i].frame_id),
            ),
    decreases batch.len(),
{
    if batch.len() > 0 {
        let d = batch.drop_last();
        lemma_inverse_closure(m, cache, d, static_tf);
        let before = ingested(m, cache, d, static_tf);
        let x = batch.last();
        let after = ingested(m, cache, batch, static_tf);
        assert(after.dom() =~= before.dom().insert((x.frame_id, x.child_frame_id)).insert(
            (x.child_frame_id, x.frame_id),
        ));
        assert forall|i: int| 0 <= i < batch.len() implies after.contains_key(
            (#[trigger] batch[i].frame_id, batch[i].child_frame_id),
        ) && after.contains_key((batch[i].child_frame_id, batch[i].frame_id)) by {
            if i < d.len() {
                assert(d[i] == batch[i]);
            }
        }
    }
}

/// With the "latest" sentinel, every edge with data is valid, and each step of a
/// valid path answers with the newest sample of its edge, or, on a static edge,
/// with the sample inserted last.
pub proof fn lemma_latest_uses_newest<T>(
    edges: Map<EdgeKey, HistoryView<T>>,
    from: Seq<char>,
    to: Seq<char>,
    path: Seq<Seq<char>>,
    t: Time,
)
    requires
        t.is_latest(),
    ensures
        forall|k: EdgeKey|
            #[trigger] edges.contains_key(k) ==> (valid_at(edges[k], t) <==> has_data(edges[k])),
        is_valid_path(edges, from, to, path, t) ==> forall|i: int|
            0 <= i < path.len() - 1 ==> #[trigger] path_segments(edges, path, t)[i] == Segment::Exact(
                if edges[(path[i], path[i + 1])].static_tf {
                    edges[(path[i], path[i + 1])].recent->Some_0.transform
                } else {
                    edges[(path[i], path[i + 1])].samples.last().transform
                },
            ),
{
}

/// Where at most one path without repeated frames leads from `from` to `to` at `t`,
/// as in a tree, any two such paths answer with the same steps: a lookup, whose
/// path repeats no frame, has only one possible result.
pub proof fn lemma_tree_lookup_unique<T>(
    edges: Map<EdgeKey, HistoryView<T>>,
    from: Seq<char>,
    to: Seq<char>,
    t: Time,
    p1: Seq<Seq<char>>,
    p2: Seq<Seq<char>>,
)
    requires
        forall|p: Seq<Seq<char>>, q: Seq<Seq<char>>|
            #[trigger] is_valid_path(edges, from, to, p, t) && p.no_duplicates()
                && #[trigger] is_valid_path(edges, from, to, q, t) && q.no_duplicates() ==> p == q,
        is_valid_path(edges, from, to, p1, t),
        p1.no_duplicates(),
        is_valid_path(edges, from, to, p2, t),
        p2.no_duplicates(),
    ensures
        path_segments(edges, p1, t) == path_segments(edges, p2, t),
{
    assert(p1 == p2);
}

/// The state of a breadth-first search over the frame graph: which frames were
/// reached, through which slot, and the queue of frames in the order reached.
struct Search {
    visited: Vec<bool>,
    reached_by: Vec<usize>,
    queue: Vec<usize>,
    rank: Ghost<Seq<int>>,
    dist: Ghost<Seq<int>>,
    seen: Ghost<Set<int>>,
}

impl Search {
    /// Every reached frame but `from` was reached through a valid slot from a
    /// frame that was reached before it.
    spec fn sound<T: Copy>(&self, b: &TfBuffer<T>, from: int, t: Time) -> bool {
        forall|v: int|
            0 <= v < b.frames@.len() && #[trigger] self.visited@[v] && v != from ==> {
                let e = self.reached_by@[v] as int;
                &&& 0 <= e < b.transform_data@.len()
                &&& b.transform_data@[e].child == v
                &&& b.slot_valid(e, t)
                &&& self.visited@[b.transform_data@[e].parent as int]
                &&& self.rank@[b.transform_data@[e].parent as int] < self.rank@[v]
            }
    }

    /// Every valid slot that leaves one of the first `head` queued frames reaches a
    /// visited frame.
    spec fn explored<T: Copy>(&self, b: &TfBuffer<T>, head: int, t: Time) -> bool {
        forall|j: int, k: int|
            0 <= j < head && 0 <= k < b.child_transform_index@[self.queue@[j] as int]@.len()
                && b.slot_valid(#[trigger] b.child_transform_index@[self.queue@[j] as int]@[k] as int, t)
                ==> self.visited@[b.transform_data@[b.child_transform_index@[self.queue@[j] as int]@[k] as int].child as int]
    }

    /// `dist` counts the steps of each reached frame's path back to `from`.
    spec fn steps<T: Copy>(&self, b: &TfBuffer<T>, from: int) -> bool {
        &&& self.dist@.len() == b.frames@.len()
        &&& self.dist@[from] == 0
        &&& forall|v: int|
            0 <= v < b.frames@.len() && #[trigger] self.visited@[v] && v != from ==> self.dist@[v]
                == self.dist@[b.transform_data@[self.reached_by@[v] as int].parent as int] + 1
    }

    /// Queued frames come in order of `dist`, none more than one step beyond the
    /// frame at `head`.
    spec fn layered(&self, head: int) -> bool {
        &&& forall|j: int, k: int|
            0 <= j < k < self.queue@.len() ==> self.dist@[#[trigger] self.queue@[j] as int]
                <= self.dist@[#[trigger] self.queue@[k] as int]
        &&& head < self.queue@.len() ==> forall|j: int|
            0 <= j < self.queue@.len() ==> self.dist@[#[trigger] self.queue@[j] as int]
                <= self.dist@[self.queue@[head] as int] + 1
    }

    /// Every valid slot that leaves one of the first `head` queued frames reaches a
    /// frame at most one step further from `from`.
    spec fn explored_near<T: Copy>(&self, b: &TfBuffer<T>, head: int, t: Time) -> bool {
        forall|j: int, k: int|
            0 <= j < head && 0 <= k < b.child_transform_index@[self.queue@[j] as int]@.len()
                && b.slot_valid(#[trigger] b.child_transform_index@[self.queue@[j] as int]@[k] as int, t)
                ==> self.dist@[b.transform_data@[b.child_transform_index@[self.queue@[j] as int]@[k] as int].child as int]
                <= self.dist@[self.queue@[j] as int] + 1
    }

    spec fn inv<T: Copy>(&self, b: &TfBuffer<T>, from: int, head: int, t: Time) -> bool {
        let n = b.frames@.len();
        &&& b.wf()
        &&& 0 <= from < n
        &&& self.visited@.len() == n
        &&& self.reached_by@.len() == n
        &&& self.rank@.len() == n
        &&& 0 <= head <= self.queue@.len()
        &&& self.visited@[from]
        &&& forall|j: int|
            0 <= j < self.queue@.len() ==> #[trigger] self.queue@[j] < n && self.visited@[self.queue@[j] as int]
                && self.rank@[self.queue@[j] as int] == j
        &&& forall|v: int|
            0 <= v < n && #[trigger] self.visited@[v] ==> 0 <= self.rank@[v] < self.queue@.len()
                && self.queue@[self.rank@[v]] == v
        &&& self.sound(b, from, t)
        &&& self.explored(b, head, t)
        &&& self.steps(b, from)
        &&& self.layered(head)
        &&& self.explored_near(b, head, t)
        &&& self.seen@.finite()
        &&& self.seen@.len() == self.queue@.len()
        &&& forall|v: int| #[trigger] self.seen@.contains(v) <==> 0 <= v < n && self.visited@[v]
    }

    /// No more frames are queued than the graph has.
    proof fn lemma_queue_bound<T: Copy>(&self, b: &TfBuffer<T>, from: int, head: int, t: Time)
        requires
            self.inv(b, from, head, t),
        ensures
            self.queue@.len() <= b.frames@.len(),
    {
        let r = vstd::set_lib::set_int_range(0, b.frames@.len() as int);
        vstd::set_lib::lemma_int_range(0, b.frames@.len() as int);
        assert(self.seen@.subset_of(r));
        vstd::set_lib::lemma_len_subset(self.seen@, r);
    }

    /// Once every queued frame is expanded, the frame that a valid slot path from
    /// `from` reaches after `i` steps was reached, at most `i` steps from `from`.
    #[verifier::spinoff_prover]
    #[verifier::rlimit(30)]
    proof fn lemma_reached_within<T: Copy>(
        &self,
        b: &TfBuffer<T>,
        from: int,
        to: int,
        es: Seq<usize>,
        t: Time,
        i: int,
    )
        requires
            self.inv(b, from, self.queue@.len() as int, t),
            b.is_slot_path(from, to, es, t),
            0 <= i <= es.len(),
        ensures
            ({
                let x = if i == 0 { from } else { b.transform_data@[es[i - 1] as int].child as int };
                self.visited@[x] && self.dist@[x] <= i
            }),
        decreases i,
    {
        if i > 0 {
            self.lemma_reached_within(b, from, to, es, t, i - 1);
            let x = if i - 1 == 0 { from } else { b.transform_data@[es[i - 2] as int].child as int };
            let e = es[i - 1] as int;
            assert(es[i - 1] < b.transform_data@.len() && b.slot_valid(e, t));
            if i - 1 > 0 {
                let j = i - 2;
                assert(b.transform_data@[es[j] as int].child == b.transform_data@[es[j + 1] as int].parent);
            }
            assert(b.transform_data@[e].parent == x);
            let s = b.transform_data@[e];
            let k = choose|k: int|
                0 <= k < b.child_transform_index@[s.parent as int]@.len()
                    && #[trigger] b.child_transform_index@[s.parent as int]@[k] == e;
            let j = self.rank@[x];
            assert(self.queue@[j] == x);
            assert(b.child_transform_index@[self.queue@[j] as int]@[k] == e);
        }
    }

    /// A search that has reached only `from`.
    fn start<T: Copy>(b: &TfBuffer<T>, from: usize, time: &Time) -> (s: Search)
        requires
            b.wf(),
            from < b.frames@.len(),
        ensures
            s.inv(b, from as int, 0, *time),
            s.queue@.len() == 1,
    {
        let n = b.frames.len();
        let mut visited: Vec<bool> = Vec::new();
        let mut reached_by: Vec<usize> = Vec::new();
        let mut i: usize = 0;
        while i < n
            invariant
                i <= n,
                visited@.len() == i,
                reached_by@.len() == i,
                forall|j: int| 0 <= j < i ==> !#[trigger] visited@[j],
            decreases n - i,
        {
            visited.push(false);
            reached_by.push(0);
            i = i + 1;
        }
        visited.set(from, true);
        let mut queue: Vec<usize> = Vec::new();
        queue.push(from);
        let s = Search {
            visited,
            reached_by,
            queue,
            rank: Ghost(Seq::new(n as nat, |v: int| 0)),
            dist: Ghost(Seq::new(n as nat, |v: int| 0)),
            seen: Ghost(Set::empty().insert(from as int)),
        };
        assert(s.seen@.len() == 1);
        assert forall|v: int| #[trigger] s.seen@.contains(v) <==> 0 <= v < n && s.visited@[v] by {
            if 0 <= v < n && v != from {
                assert(!s.visited@[v]);
            }
        }
        assert forall|v: int| 0 <= v < n && #[trigger] s.visited@[v] implies 0 <= s.rank@[v] < s.queue@.len()
            && s.queue@[s.rank@[v]] == v by {
            if v != from {
                assert(!s.visited@[v]);
            }
        }
        assert forall|v: int| 0 <= v < n && #[trigger] s.visited@[v] && v != from implies s.dist@[v]
            == s.dist@[b.transform_data@[s.reached_by@[v] as int].parent as int] + 1 by {
            assert(!s.visited@[v]);
        }
        s
    }

    /// Follows every valid slot that leaves the queued frame at `head`.
    #[verifier::spinoff_prover]
    fn expand<T: Copy>(&mut self, b: &TfBuffer<T>, from: usize, head: usize, time: &Time)
        requires
            old(self).inv(b, from as int, head as int, *time),
            head < old(self).queue@.len(),
        ensures
            final(self).inv(b, from as int, head as int + 1, *time),
            final(self).queue@.len() >= old(self).queue@.len(),
    {
        let ghost t = *time;
        let ghost n = b.frames@.len();
        let u = self.queue[head];
        let out = &b.child_transform_index[u];
        let mut k: usize = 0;
        while k < out.len()
            invariant
                self.inv(b, from as int, head as int, t),
                t == *time,
                n == b.frames@.len(),
                u < n,
                head < self.queue@.len(),
                self.queue@[head as int] == u,
                out == b.child_transform_index@[u as int],
                k <= out@.len(),
                forall|k2: int|
                    0 <= k2 < k && b.slot_valid(#[trigger] out@[k2] as int, t)
                        ==> self.visited@[b.transform_data@[out@[k2] as int].child as int]
                        && self.dist@[b.transform_data@[out@[k2] as int].child as int]
                        <= self.dist@[u as int] + 1,
                self.queue@.len() >= old(self).queue@.len(),
            decreases out@.len() - k,
        {
            let e = out[k];
            assert(b.child_transform_index@[u as int]@[k as int] == e);
            let v = b.transform_data[e].child;
            let ghost old_visited = self.visited@;
            let ghost old_dist = self.dist@;
            let ghost old_rank = self.rank@;
            let ghost old_queue = self.queue@;
            assert(old_dist[u as int] == self.dist@[self.queue@[head as int] as int]);
            let slot = &b.transform_data[e];
            assert(*slot == b.transform_data@[e as int]);
            let valid = slot.chain.has_valid_transform(time);
            assert(valid == b.slot_valid(e as int, t));
            if !self.visited[v] && valid {
                let ghost s0 = *self;
                proof {
                    s0.lemma_queue_bound(b, from as int, head as int, t);
                    assert(s0.rank@[u as int] == head);
                    assert(!s0.seen@.contains(v as int));
                }
                self.visited.set(v, true);
                self.reached_by.set(v, e);
                self.queue.push(v);
                self.rank = Ghost(self.rank@.update(v as int, self.queue@.len() - 1));
                self.dist = Ghost(self.dist@.update(v as int, self.dist@[u as int] + 1));
                self.seen = Ghost(self.seen@.insert(v as int));
                let ghost s1 = *self;
                assert forall|w: int| 0 <= w < n && s0.visited@[w] implies s1.dist@[w] == s0.dist@[w] by {
                    assert(w != v);
                }
                assert(s1.steps(b, from as int)) by {
                    assert forall|w: int|
                        0 <= w < n && #[trigger] s1.visited@[w] && w != from implies s1.dist@[w]
                        == s1.dist@[b.transform_data@[s1.reached_by@[w] as int].parent as int] + 1 by {
                        if w != v {
                            assert(s0.visited@[w]);
                            let pw = b.transform_data@[s0.reached_by@[w] as int].parent as int;
                            assert(s0.visited@[pw]);
                        } else {
                            assert(b.transform_data@[e as int].parent == u);
                            assert(s0.visited@[u as int]);
                        }
                    }
                }
                assert(s1.layered(head as int)) by {
                    assert forall|j: int| 0 <= j < s0.queue@.len() implies s1.queue@[j] == s0.queue@[j]
                        && s1.dist@[s1.queue@[j] as int] == s0.dist@[s0.queue@[j] as int] by {
                        assert(s0.visited@[s0.queue@[j] as int]);
                    }
                    assert(s1.queue@[s0.queue@.len() as int] == v);
                    assert forall|j: int, k2: int|
                        0 <= j < k2 < s1.queue@.len() implies s1.dist@[#[trigger] s1.queue@[j] as int]
                        <= s1.dist@[#[trigger] s1.queue@[k2] as int] by {
                        if k2 == s0.queue@.len() {
                            assert(s0.dist@[s0.queue@[j] as int] <= s0.dist@[s0.queue@[head as int] as int] + 1);
                        } else {
                            assert(s0.dist@[s0.queue@[j] as int] <= s0.dist@[s0.queue@[k2] as int]);
                        }
                    }
                    assert forall|j: int| 0 <= j < s1.queue@.len() implies s1.dist@[#[trigger] s1.queue@[j] as int]
                        <= s1.dist@[s1.queue@[head as int] as int] + 1 by {
                        if j < s0.queue@.len() {
                            assert(s0.dist@[s0.queue@[j] as int] <= s0.dist@[s0.queue@[head as int] as int] + 1);
                        }
                    }
                }
                assert(s1.explored_near(b, head as int, t)) by {
                    assert forall|j: int, k2: int|
                        0 <= j < head && 0 <= k2 < b.child_transform_index@[s1.queue@[j] as int]@.len()
                            && b.slot_valid(#[trigger] b.child_transform_index@[s1.queue@[j] as int]@[k2] as int, t)
                            implies s1.dist@[b.transform_data@[b.child_transform_index@[s1.queue@[j] as int]@[k2] as int].child as int]
                            <= s1.dist@[s1.queue@[j] as int] + 1 by {
                        assert(s1.queue@[j] == s0.queue@[j]);
                        let ej = b.child_transform_index@[s0.queue@[j] as int]@[k2];
                        assert(b.child_transform_index@[s1.queue@[j] as int]@[k2] == ej);
                        let w = b.transform_data@[ej as int].child as int;
                        assert(s0.visited@[w]);
                        assert(s0.visited@[s0.queue@[j] as int]);
                    }
                }
                assert(s1.visited@ == old_visited.update(v as int, true));
                assert forall|j: int| 0 <= j < s1.queue@.len() implies #[trigger] s1.queue@[j] < n
                    && s1.visited@[s1.queue@[j] as int] && s1.rank@[s1.queue@[j] as int] == j by {
                    if j < s0.queue@.len() {
                        assert(s0.queue@[j] == s1.queue@[j]);
                        assert(s0.visited@[s0.queue@[j] as int]);
                    }
                }
                assert forall|w: int| 0 <= w < n && #[trigger] s1.visited@[w] implies 0 <= s1.rank@[w]
                    < s1.queue@.len() && s1.queue@[s1.rank@[w]] == w by {
                    if w != v {
                        assert(s0.visited@[w]);
                    }
                }
                assert(s1.sound(b, from as int, t)) by {
                    assert forall|w: int| 0 <= w < n && #[trigger] s1.visited@[w] && w != from implies {
                        let e = s1.reached_by@[w] as int;
                        &&& 0 <= e < b.transform_data@.len()
                        &&& b.transform_data@[e].child == w
                        &&& b.slot_valid(e, t)
                        &&& s1.visited@[b.transform_data@[e].parent as int]
                        &&& s1.rank@[b.transform_data@[e].parent as int] < s1.rank@[w]
                    } by {
                        if w != v {
                            assert(s0.visited@[w]);
                            assert(b.slot_valid(s0.reached_by@[w] as int, t));
                            assert(s1.reached_by@[w] == s0.reached_by@[w]);
                            assert(s1.rank@[w] == s0.rank@[w]);
                            let pw = b.transform_data@[s0.reached_by@[w] as int].parent as int;
                            assert(s0.visited@[pw]);
                            assert(pw != v);
                            assert(s1.rank@[pw] == s0.rank@[pw]);
                        } else {
                            assert(b.transform_data@[e as int].parent == u);
                            assert(s0.visited@[u as int]);
                            assert(u != v);
                            assert(s1.rank@[u as int] == head);
                            assert(s1.reached_by@[w] == e);
                        }
                    }
                }
                assert(s1.explored(b, head as int, t)) by {
                    assert forall|j: int, k2: int|
                        0 <= j < head && 0 <= k2 < b.child_transform_index@[s1.queue@[j] as int]@.len()
                            && b.slot_valid(#[trigger] b.child_transform_index@[s1.queue@[j] as int]@[k2] as int, t)
                            implies s1.visited@[b.transform_data@[b.child_transform_index@[s1.queue@[j] as int]@[k2] as int].child as int] by {
                        assert(s1.queue@[j] == s0.queue@[j]);
                        assert(b.child_transform_index@[s0.queue@[j] as int]@[k2] == b.child_transform_index@[s1.queue@[j] as int]@[k2]);
                    }
                }
                assert(s1.seen@.len() == s1.queue@.len());
                assert forall|w: int| #[trigger] s1.seen@.contains(w) <==> 0 <= w < n && s1.visited@[w] by {
                    if w != v {
                        assert(s0.seen@.contains(w) <==> 0 <= w < n && s0.visited@[w]);
                    }
                }
            }
            assert forall|k2: int|
                0 <= k2 < k + 1 && b.slot_valid(#[trigger] out@[k2] as int, t)
                    implies self.visited@[b.transform_data@[out@[k2] as int].child as int] by {
                let w = b.transform_data@[out@[k2] as int].child as int;
                if k2 < k {
                    assert(old_visited[w]);
                    assert(old_visited[w] ==> self.visited@[w]);
                    assert(self.dist@[w] == old_dist[w]);
                } else {
                    assert(out@[k2] == e);
                    if old_visited[w] {
                        let j = old_rank[w];
                        assert(old_queue[j] == w);
                        assert(old_dist[w] <= old_dist[u as int] + 1);
                        assert(self.dist@[w] == old_dist[w]);
                    }
                }
            }
            k = k + 1;
        }
        assert(self.explored_near(b, head as int + 1, t)) by {
            assert forall|j: int, k2: int|
                0 <= j < head + 1 && 0 <= k2 < b.child_transform_index@[self.queue@[j] as int]@.len()
                    && b.slot_valid(#[trigger] b.child_transform_index@[self.queue@[j] as int]@[k2] as int, t)
                    implies self.dist@[b.transform_data@[b.child_transform_index@[self.queue@[j] as int]@[k2] as int].child as int]
                    <= self.dist@[self.queue@[j] as int] + 1 by {
                if j == head {
                    assert(out@[k2] == b.child_transform_index@[self.queue@[j] as int]@[k2]);
                }
            }
        }
        assert(self.layered(head as int + 1)) by {
            if head + 1 < self.queue@.len() {
                assert forall|j: int| 0 <= j < self.queue@.len() implies self.dist@[#[trigger] self.queue@[j] as int]
                    <= self.dist@[self.queue@[head + 1] as int] + 1 by {
                    assert(self.dist@[self.queue@[j] as int] <= self.dist@[self.queue@[head as int] as int] + 1);
                    assert(self.dist@[self.queue@[head as int] as int] <= self.dist@[self.queue@[head + 1] as int]);
                }
            }
        }
        assert(self.explored(b, head as int + 1, t)) by {
            assert forall|j: int, k2: int|
                0 <= j < head + 1 && 0 <= k2 < b.child_transform_index@[self.queue@[j] as int]@.len()
                    && b.slot_valid(#[trigger] b.child_transform_index@[self.queue@[j] as int]@[k2] as int, t)
                    implies self.visited@[b.transform_data@[b.child_transform_index@[self.queue@[j] as int]@[k2] as int].child as int] by {
                if j == head {
                    assert(out@[k2] == b.child_transform_index@[self.queue@[j] as int]@[k2]);
                }
            }
        }
    }
}

impl<T: Copy> TfBuffer<T> {
    /// The name of frame `i`.
    spec fn name(&self, i: int) -> Seq<char> {
        self.frames@[i]@
    }

    /// The (parent, child) names of edge slot `e`.
    spec fn key(&self, e: int) -> EdgeKey {
        (self.name(self.transform_data@[e].parent as int), self.name(self.transform_data@[e].child as int))
    }

    /// A slot whose names are `k`.
    spec fn slot_of(&self, k: EdgeKey) -> int {
        choose|e: int| 0 <= e < self.transform_data@.len() && self.key(e) == k
    }

    /// The history of every edge the buffer knows, by (parent, child) names.
    pub closed spec fn edges(&self) -> Map<EdgeKey, HistoryView<T>> {
        Map::new(
            |k: EdgeKey| exists|e: int| 0 <= e < self.transform_data@.len() && self.key(e) == k,
            |k: EdgeKey| self.transform_data@[self.slot_of(k)].chain@,
        )
    }

    /// The retention that new histories get.
    pub closed spec fn cache(&self) -> Duration {
        self.cache_duration
    }

    /// Frame names are distinct; every slot joins two known frames, holds a
    /// well-formed history with the buffer's retention, and is listed under its
    /// parent; no two slots join the same (parent, child) pair; each frame's list
    /// names distinct slots that leave that frame.
    pub closed spec fn wf(&self) -> bool {
        &&& forall|i: int, j: int|
            0 <= i < j < self.frames@.len() ==> #[trigger] self.name(i) != #[trigger] self.name(j)
        &&& self.child_transform_index@.len() == self.frames@.len()
        &&& forall|e: int|
            0 <= e < self.transform_data@.len() ==> {
                let s = #[trigger] self.transform_data@[e];
                &&& s.parent < self.frames@.len()
                &&& s.child < self.frames@.len()
                &&& history_wf(s.chain@)
                &&& s.chain@.cache_duration == self.cache_duration
                &&& all_named(s.chain@.samples, self.name(s.parent as int), self.name(s.child as int))
                &&& exists|k: int|
                    0 <= k < self.child_transform_index@[s.parent as int]@.len()
                        && #[trigger] self.child_transform_index@[s.parent as int]@[k] == e
            }
        &&& forall|e1: int, e2: int|
            0 <= e1 < e2 < self.transform_data@.len() ==> {
                ||| #[trigger] self.transform_data@[e1].parent != #[trigger] self.transform_data@[e2].parent
                ||| self.transform_data@[e1].child != self.transform_data@[e2].child
            }
        &&& forall|u: int, k: int|
            0 <= u < self.child_transform_index@.len() && 0 <= k
                < self.child_transform_index@[u]@.len() ==> {
                let e = #[trigger] self.child_transform_index@[u]@[k];
                &&& e < self.transform_data@.len()
                &&& self.transform_data@[e as int].parent == u
            }
        &&& forall|u: int, k1: int, k2: int|
            0 <= u < self.child_transform_index@.len() && 0 <= k1 < k2
                < self.child_transform_index@[u]@.len() ==> #[trigger] self.child_transform_index@[u]@[k1]
                != #[trigger] self.child_transform_index@[u]@[k2]
    }

    /// Slot `e` is the history of the edge named `key(e)`.
    proof fn lemma_slot(&self, e: int)
        requires
            self.wf(),
            0 <= e < self.transform_data@.len(),
        ensures
            self.edges().contains_key(self.key(e)),
            self.edges()[self.key(e)] == self.transform_data@[e].chain@,
            self.slot_of(self.key(e)) == e,
    {
        let f = self.slot_of(self.key(e));
        assert(0 <= f < self.transform_data@.len() && self.key(f) == self.key(e));
        let sf = self.transform_data@[f];
        let se = self.transform_data@[e];
        if sf.parent != se.parent {
            assert(self.name(sf.parent as int) != self.name(se.parent as int));
        }
        if sf.child != se.child {
            assert(self.name(sf.child as int) != self.name(se.child as int));
        }
        if f < e {
            assert(self.transform_data@[f].parent != self.transform_data@[e].parent
                || self.transform_data@[f].child != self.transform_data@[e].child);
        } else if e < f {
            assert(self.transform_data@[e].parent != self.transform_data@[f].parent
                || self.transform_data@[e].child != self.transform_data@[f].child);
        }
    }

    /// A map that holds, for every slot, its key and history, and nothing else, is
    /// the buffer's edge map.
    proof fn lemma_edges_are(&self, m: Map<EdgeKey, HistoryView<T>>)
        requires
            self.wf(),
            forall|e: int|
                0 <= e < self.transform_data@.len() ==> #[trigger] m.contains_key(self.key(e))
                    && m[self.key(e)] == self.transform_data@[e].chain@,
            forall|k: EdgeKey|
                #[trigger] m.contains_key(k) ==> exists|e: int|
                    0 <= e < self.transform_data@.len() && self.key(e) == k,
        ensures
            self.edges() == m,
    {
        assert forall|k: EdgeKey| #[trigger] self.edges().contains_key(k) implies m.contains_key(k)
            && self.edges()[k] == m[k] by {
            let e = self.slot_of(k);
            self.lemma_slot(e);
        }
        assert(self.edges() =~= m);
    }

    /// An empty buffer whose histories keep `cache_duration` of samples.
    pub fn new_with_duration(cache_duration: Duration) -> (r: Self)
        ensures
            r.wf(),
            r.edges() == Map::<EdgeKey, HistoryView<T>>::empty(),
            r.cache() == cache_duration,
    {
        let r = TfBuffer {
            frames: Vec::new(),
            child_transform_index: Vec::new(),
            transform_data: Vec::new(),
            cache_duration,
        };
        assert(r.edges() =~= Map::<EdgeKey, HistoryView<T>>::empty());
        r
    }

    /// An empty buffer with the default retention of ten seconds.
    pub fn new() -> (r: Self)
        ensures
            r.wf(),
            r.edges() == Map::<EdgeKey, HistoryView<T>>::empty(),
            r.cache() == (Duration { sec: DEFAULT_CACHE_DURATION_SECONDS, nanosec: 0 }),
    {
        Self::new_with_duration(Duration { sec: DEFAULT_CACHE_DURATION_SECONDS, nanosec: 0 })
    }

    /// The position of the frame named `name`, if the buffer knows it.
    fn find_frame(&self, name: &String) -> (r: Option<usize>)
        ensures
            r matches Some(i) ==> i < self.frames@.len() && self.name(i as int) == name@,
            r is None ==> forall|i: int| 0 <= i < self.frames@.len() ==> self.name(i) != name@,
    {
        let mut i: usize = 0;
        while i < self.frames.len()
            invariant
                i <= self.frames@.len(),
                forall|j: int| 0 <= j < i ==> self.name(j) != name@,
            decreases self.frames@.len() - i,
        {
            if self.frames[i] == *name {
                return Some(i);
            }
            i = i + 1;
        }
        None
    }

    /// The position of the frame named `name`, added to the table if it is new.
    fn intern(&mut self, name: &String) -> (r: usize)
        requires
            old(self).wf(),
        ensures
            final(self).wf(),
            r < final(self).frames@.len(),
            final(self).name(r as int) == name@,
            final(self).frames@.len() >= old(self).frames@.len(),
            forall|i: int| 0 <= i < old(self).frames@.len() ==> final(self).name(i) == old(self).name(i),
            final(self).transform_data@ == old(self).transform_data@,
            final(self).cache_duration == old(self).cache_duration,
            final(self).edges() == old(self).edges(),
    {
        match self.find_frame(name) {
            Some(i) => i,
            None => {
                let ghost b0 = *self;
                self.frames.push(name.clone());
                self.child_transform_index.push(Vec::new());
                let ghost b1 = *self;
                assert forall|i: int| 0 <= i < b0.frames@.len() implies b1.name(i) == b0.name(i) by {
                    assert(b1.frames@[i] == b0.frames@[i]);
                }
                assert(b1.name(b0.frames@.len() as int) == name@);
                assert forall|e: int| 0 <= e < b1.transform_data@.len() implies b1.key(e) == b0.key(e) by {}
                assert(b1.wf()) by {
                    assert forall|i: int, j: int|
                        0 <= i < j < b1.frames@.len() implies #[trigger] b1.name(i) != #[trigger] b1.name(j) by {
                        if j < b0.frames@.len() {
                            assert(b0.name(i) != b0.name(j));
                        }
                    }
                    assert forall|u: int, k: int|
                        0 <= u < b1.child_transform_index@.len() && 0 <= k
                            < b1.child_transform_index@[u]@.len() implies {
                            let e = #[trigger] b1.child_transform_index@[u]@[k];
                            &&& e < b1.transform_data@.len()
                            &&& b1.transform_data@[e as int].parent == u
                        } by {
                        assert(u < b0.child_transform_index@.len());
                        assert(b1.child_transform_index@[u] == b0.child_transform_index@[u]);
                    }
                    assert forall|u: int, k1: int, k2: int|
                        0 <= u < b1.child_transform_index@.len() && 0 <= k1 < k2
                            < b1.child_transform_index@[u]@.len() implies #[trigger] b1.child_transform_index@[u]@[k1]
                        != #[trigger] b1.child_transform_index@[u]@[k2] by {
                        assert(u < b0.child_transform_index@.len());
                        assert(b1.child_transform_index@[u] == b0.child_transform_index@[u]);
                    }
                    assert forall|e: int| 0 <= e < b1.transform_data@.len() implies {
                        let s = #[trigger] b1.transform_data@[e];
                        exists|k: int|
                            0 <= k < b1.child_transform_index@[s.parent as int]@.len()
                                && #[trigger] b1.child_transform_index@[s.parent as int]@[k] == e
                    } by {
                        let s = b0.transform_data@[e];
                        assert(b1.child_transform_index@[s.parent as int] == b0.child_transform_index@[s.parent as int]);
                    }
                }
                assert(b1.edges() =~= b0.edges());
                self.frames.len() - 1
            },
        }
    }

    /// The slot of the edge from frame `p` to frame `c`, if there is one.
    fn find_edge(&self, p: usize, c: usize) -> (r: Option<usize>)
        requires
            self.wf(),
            p < self.frames@.len(),
        ensures
            r matches Some(e) ==> e < self.transform_data@.len() && self.transform_data@[e as int].parent
                == p && self.transform_data@[e as int].child == c,
            r is None ==> forall|e: int|
                0 <= e < self.transform_data@.len() ==> !(#[trigger] self.transform_data@[e].parent == p
                    && self.transform_data@[e].child == c),
    {
        let out = &self.child_transform_index[p];
        let mut k: usize = 0;
        while k < out.len()
            invariant
                self.wf(),
                p < self.frames@.len(),
                out == self.child_transform_index@[p as int],
                k <= out@.len(),
                forall|j: int| 0 <= j < k ==> self.transform_data@[#[trigger] out@[j] as int].child != c,
            decreases out@.len() - k,
        {
            let e = out[k];
            assert(self.child_transform_index@[p as int]@[k as int] == e);
            if self.transform_data[e].child == c {
                return Some(e);
            }
            k = k + 1;
        }
        assert forall|e: int|
            0 <= e < self.transform_data@.len() implies !(#[trigger] self.transform_data@[e].parent == p
                && self.transform_data@[e].child == c) by {
            if self.transform_data@[e].parent == p {
                let s = self.transform_data@[e];
                let j = choose|j: int|
                    0 <= j < self.child_transform_index@[s.parent as int]@.len()
                        && #[trigger] self.child_transform_index@[s.parent as int]@[j] == e;
                assert(out@[j] == e);
            }
        }
        None
    }

    /// Puts `msg` into the history of slot `e`.
    #[verifier::spinoff_prover]
    fn update_edge(&mut self, e: usize, msg: StampedTransform<T>)
        requires
            old(self).wf(),
            e < old(self).transform_data@.len(),
            (msg@.frame_id, msg@.child_frame_id) == old(self).key(e as int),
        ensures
            final(self).wf(),
            final(self).cache() == old(self).cache(),
            final(self).frames@ == old(self).frames@,
            final(self).edges() == old(self).edges().insert(
                old(self).key(e as int),
                after_insert(old(self).edges()[old(self).key(e as int)], msg@),
            ),
    {
        let ghost b1 = *self;
        proof {
            b1.lemma_slot(e as int);
            let s1 = b1.transform_data@[e as int];
            lemma_insert_keeps_names(
                s1.chain@.samples,
                msg@,
                s1.chain@.cache_duration,
                b1.name(s1.parent as int),
                b1.name(s1.child as int),
            );
        }
        let ghost kx = b1.key(e as int);
        let ghost h = b1.edges()[kx];
        let ghost m = b1.edges().insert(
            kx,
            after_insert(h, msg@),
        );
        self.transform_data[e].chain.add_to_buffer(msg);
        let ghost b2 = *self;
        assert forall|f: int| 0 <= f < b2.transform_data@.len() && f != e implies #[trigger] b2.transform_data@[f]
            == b1.transform_data@[f] by {}
        assert forall|i: int, j: int|
            0 <= i < j < b2.frames@.len() implies #[trigger] b2.name(i) != #[trigger] b2.name(j) by {
            assert(b1.name(i) != b1.name(j));
        }
        assert forall|f: int| 0 <= f < b2.transform_data@.len() implies #[trigger] b2.key(f) == b1.key(f) by {}
        assert(b2.wf()) by {
            assert forall|f: int| 0 <= f < b2.transform_data@.len() implies {
                let s = #[trigger] b2.transform_data@[f];
                &&& s.parent < b2.frames@.len()
                &&& s.child < b2.frames@.len()
                &&& history_wf(s.chain@)
                &&& s.chain@.cache_duration == b2.cache_duration
                &&& all_named(s.chain@.samples, b2.name(s.parent as int), b2.name(s.child as int))
                &&& exists|k: int|
                    0 <= k < b2.child_transform_index@[s.parent as int]@.len()
                        && #[trigger] b2.child_transform_index@[s.parent as int]@[k] == f
            } by {
                let s1 = b1.transform_data@[f];
                let s2 = b2.transform_data@[f];
                assert(s2.parent == s1.parent && s2.child == s1.child);
                if f == e {
                    assert(history_wf(s2.chain@));
                } else {
                    assert(s2 == s1);
                }
                let k = choose|k: int|
                    0 <= k < b1.child_transform_index@[s1.parent as int]@.len()
                        && #[trigger] b1.child_transform_index@[s1.parent as int]@[k] == f;
                assert(b2.child_transform_index@[s1.parent as int]@[k] == f);
            }
            assert forall|e1: int, e2: int|
                0 <= e1 < e2 < b2.transform_data@.len() implies {
                ||| #[trigger] b2.transform_data@[e1].parent != #[trigger] b2.transform_data@[e2].parent
                ||| b2.transform_data@[e1].child != b2.transform_data@[e2].child
            } by {
                assert(b1.transform_data@[e1].parent != b1.transform_data@[e2].parent
                    || b1.transform_data@[e1].child != b1.transform_data@[e2].child);
            }
        }
        proof {
            assert forall|f: int|
                0 <= f < b2.transform_data@.len() implies #[trigger] m.contains_key(b2.key(f))
                && m[b2.key(f)] == b2.transform_data@[f].chain@ by {
                if f != e {
                    b1.lemma_slot(f);
                    if b1.key(f) == kx {
                        assert(b1.slot_of(kx) == f);
                    }
                }
            }
            assert forall|k: EdgeKey| #[trigger] m.contains_key(k) implies exists|f: int|
                0 <= f < b2.transform_data@.len() && b2.key(f) == k by {
                if k == kx {
                    assert(b2.key(e as int) == k);
                } else {
                    let f = b1.slot_of(k);
                    assert(b2.key(f) == b1.key(f));
                }
            }
            b2.lemma_edges_are(m);
        }
    }

    /// Opens a history for the edge from frame `p` to frame `c`, holding `msg`.
    #[verifier::spinoff_prover]
    fn new_edge(&mut self, p: usize, c: usize, static_tf: bool, msg: StampedTransform<T>)
        requires
            old(self).wf(),
            p < old(self).frames@.len(),
            c < old(self).frames@.len(),
            msg@.frame_id == old(self).name(p as int),
            msg@.child_frame_id == old(self).name(c as int),
            forall|e: int|
                0 <= e < old(self).transform_data@.len() ==> !(#[trigger] old(self).transform_data@[e].parent
                    == p && old(self).transform_data@[e].child == c),
        ensures
            final(self).wf(),
            final(self).cache() == old(self).cache(),
            final(self).frames@ == old(self).frames@,
            final(self).edges() == old(self).edges().insert(
                (old(self).name(p as int), old(self).name(c as int)),
                after_insert(empty_history(static_tf, old(self).cache_duration), msg@),
            ),
    {
        let ghost b1 = *self;
        let ghost kx = (b1.name(p as int), b1.name(c as int));
        let ghost m = b1.edges().insert(
            kx,
            after_insert(empty_history(static_tf, b1.cache_duration), msg@),
        );
        let mut chain = TfIndividualTransformChain::new(static_tf, self.cache_duration);
        assert(chain@.samples =~= Seq::empty());
        proof {
            lemma_insert_keeps_names(
                chain@.samples,
                msg@,
                chain@.cache_duration,
                b1.name(p as int),
                b1.name(c as int),
            );
        }
        chain.add_to_buffer(msg);
        let target = self.transform_data.len();
        self.transform_data.push(EdgeSlot { parent: p, child: c, chain });
        self.child_transform_index[p].push(target);
        let ghost b2 = *self;
        assert forall|f: int| 0 <= f < b1.transform_data@.len() implies #[trigger] b2.transform_data@[f]
            == b1.transform_data@[f] by {}
        assert forall|i: int, j: int|
            0 <= i < j < b2.frames@.len() implies #[trigger] b2.name(i) != #[trigger] b2.name(j) by {
            assert(b1.name(i) != b1.name(j));
        }
        assert forall|f: int| 0 <= f < b1.transform_data@.len() implies #[trigger] b2.key(f) == b1.key(f) by {}
        assert(b2.key(target as int) == kx);
        assert(b2.wf()) by {
            assert forall|f: int| 0 <= f < b2.transform_data@.len() implies {
                let s = #[trigger] b2.transform_data@[f];
                &&& s.parent < b2.frames@.len()
                &&& s.child < b2.frames@.len()
                &&& history_wf(s.chain@)
                &&& s.chain@.cache_duration == b2.cache_duration
                &&& all_named(s.chain@.samples, b2.name(s.parent as int), b2.name(s.child as int))
                &&& exists|k: int|
                    0 <= k < b2.child_transform_index@[s.parent as int]@.len()
                        && #[trigger] b2.child_transform_index@[s.parent as int]@[k] == f
            } by {
                if f == target {
                    let k = b1.child_transform_index@[p as int]@.len() as int;
                    assert(b2.transform_data@[f].parent == p);
                    assert(b2.child_transform_index@[p as int]@[k] == f);
                } else {
                    let s1 = b1.transform_data@[f];
                    assert(b2.transform_data@[f] == s1);
                    let k = choose|k: int|
                        0 <= k < b1.child_transform_index@[s1.parent as int]@.len()
                            && #[trigger] b1.child_transform_index@[s1.parent as int]@[k] == f;
                    if s1.parent == p {
                        assert(b2.child_transform_index@[p as int]@ == b1.child_transform_index@[p as int]@.push(target));
                    } else {
                        assert(b2.child_transform_index@[s1.parent as int] == b1.child_transform_index@[s1.parent as int]);
                    }
                    assert(b2.child_transform_index@[s1.parent as int]@[k] == f);
                }
            }
            assert forall|e1: int, e2: int|
                0 <= e1 < e2 < b2.transform_data@.len() implies {
                ||| #[trigger] b2.transform_data@[e1].parent != #[trigger] b2.transform_data@[e2].parent
                ||| b2.transform_data@[e1].child != b2.transform_data@[e2].child
            } by {
                if e2 == target {
                    assert(!(b1.transform_data@[e1].parent == p && b1.transform_data@[e1].child == c));
                } else {
                    assert(b1.transform_data@[e1].parent != b1.transform_data@[e2].parent
                        || b1.transform_data@[e1].child != b1.transform_data@[e2].child);
                }
            }
            assert forall|u: int, k: int|
                0 <= u < b2.child_transform_index@.len() && 0 <= k
                    < b2.child_transform_index@[u]@.len() implies {
                let e = #[trigger] b2.child_transform_index@[u]@[k];
                &&& e < b2.transform_data@.len()
                &&& b2.transform_data@[e as int].parent == u
            } by {
                if u == p && k == b1.child_transform_index@[u]@.len() {
                } else {
                    assert(b2.child_transform_index@[u]@[k] == b1.child_transform_index@[u]@[k]);
                }
            }
            assert forall|u: int, k1: int, k2: int|
                0 <= u < b2.child_transform_index@.len() && 0 <= k1 < k2
                    < b2.child_transform_index@[u]@.len() implies #[trigger] b2.child_transform_index@[u]@[k1]
                != #[trigger] b2.child_transform_index@[u]@[k2] by {
                assert(b2.child_transform_index@[u]@[k1] == b1.child_transform_index@[u]@[k1]);
                if u == p && k2 == b1.child_transform_index@[u]@.len() {
                    assert(b1.child_transform_index@[u]@[k1] < b1.transform_data@.len());
                } else {
                    assert(b2.child_transform_index@[u]@[k2] == b1.child_transform_index@[u]@[k2]);
                }
            }
        }
        proof {
            assert(!b1.edges().contains_key(kx)) by {
                if b1.edges().contains_key(kx) {
                    let f = b1.slot_of(kx);
                    let sf = b1.transform_data@[f];
                    if sf.parent != p {
                        assert(b1.name(sf.parent as int) != b1.name(p as int));
                    }
                    if sf.child != c {
                        assert(b1.name(sf.child as int) != b1.name(c as int));
                    }
                }
            }
            assert forall|f: int|
                0 <= f < b2.transform_data@.len() implies #[trigger] m.contains_key(b2.key(f))
                && m[b2.key(f)] == b2.transform_data@[f].chain@ by {
                if f != target {
                    b1.lemma_slot(f);
                }
            }
            assert forall|k: EdgeKey| #[trigger] m.contains_key(k) implies exists|f: int|
                0 <= f < b2.transform_data@.len() && b2.key(f) == k by {
                if k == kx {
                    assert(b2.key(target as int) == k);
                } else {
                    let f = b1.slot_of(k);
                    assert(b2.key(f) == b1.key(f));
                }
            }
            b2.lemma_edges_are(m);
        }
    }

    /// Puts `transform` into the history of its (parent, child) edge, creating the
    /// history, with `static_tf`, if the edge is new. An existing history keeps its
    /// static flag.
    #[verifier::spinoff_prover]
    pub fn add_transform(&mut self, transform: &StampedTransform<T>, static_tf: bool)
        requires
            old(self).wf(),
        ensures
            final(self).wf(),
            final(self).cache() == old(self).cache(),
            final(self).edges() == added(old(self).edges(), old(self).cache(), transform@, static_tf),
    {
        let ghost b0 = *self;
        let p = self.intern(&transform.frame_id);
        let c = self.intern(&transform.child_frame_id);
        let ghost b1 = *self;
        let ghost kx = (transform@.frame_id, transform@.child_frame_id);
        match self.find_edge(p, c) {
            Some(e) => {
                assert(b1.key(e as int) == kx);
                self.update_edge(e, transform.duplicate());
            },
            None => {
                assert(!b0.edges().contains_key(kx)) by {
                    if b1.edges().contains_key(kx) {
                        let f = b1.slot_of(kx);
                        let sf = b1.transform_data@[f];
                        if sf.parent != p {
                            assert(b1.name(sf.parent as int) != b1.name(p as int));
                        }
                        if sf.child != c {
                            assert(b1.name(sf.child as int) != b1.name(c as int));
                        }
                    }
                }
                self.new_edge(p, c, static_tf, transform.duplicate());
            },
        }
    }

    /// Slot `e` can answer a query at `t`.
    spec fn slot_valid(&self, e: int, t: Time) -> bool {
        valid_at(self.transform_data@[e].chain@, t)
    }

    /// Slots `es` lead from frame `from` to frame `to`, each valid at `t`.
    spec fn is_slot_path(&self, from: int, to: int, es: Seq<usize>, t: Time) -> bool {
        &&& forall|i: int|
            0 <= i < es.len() ==> #[trigger] es[i] < self.transform_data@.len() && self.slot_valid(
                es[i] as int,
                t,
            )
        &&& if es.len() == 0 {
            from == to
        } else {
            &&& self.transform_data@[es[0] as int].parent == from
            &&& self.transform_data@[es.last() as int].child == to
            &&& forall|i: int|
                0 <= i < es.len() - 1 ==> self.transform_data@[#[trigger] es[i] as int].child
                    == self.transform_data@[es[i + 1] as int].parent
        }
    }

    /// No edge valid at `t` leaves the set of frames `reach`.
    spec fn closed_under(&self, reach: Set<int>, t: Time) -> bool {
        forall|e: int|
            0 <= e < self.transform_data@.len() && reach.contains(
                self.transform_data@[e].parent as int,
            ) && #[trigger] self.slot_valid(e, t) ==> reach.contains(
                self.transform_data@[e].child as int,
            )
    }

    /// A breadth-first search from frame `from` over the edges valid at `time`: the
    /// slots of a shortest such path to frame `to`, which visits no frame twice, or
    /// `None` with a set of frames that holds `from`, not `to`, and that no valid
    /// edge leaves.
    #[verifier::spinoff_prover]
    fn retrieve_transform_path(&self, from: usize, to: usize, time: &Time) -> (r: Option<Vec<usize>>)
        requires
            self.wf(),
            from < self.frames@.len(),
            to < self.frames@.len(),
        ensures
            r matches Some(es) ==> self.is_slot_path(from as int, to as int, es@, *time),
            r matches Some(es) ==> forall|i: int, j: int|
                0 <= i < j < es@.len() ==> self.transform_data@[#[trigger] es@[i] as int].child
                    != self.transform_data@[#[trigger] es@[j] as int].child,
            r matches Some(es) ==> forall|i: int|
                0 <= i < es@.len() ==> self.transform_data@[#[trigger] es@[i] as int].child != from,
            r matches Some(es) ==> forall|other: Seq<usize>|
                #[trigger] self.is_slot_path(from as int, to as int, other, *time) ==> es@.len()
                    <= other.len(),
            r is None ==> exists|reach: Set<int>|
                reach.contains(from as int) && !reach.contains(to as int) && self.closed_under(
                    reach,
                    *time,
                ),
    {
        let ghost t = *time;
        let mut search = Search::start(self, from, time);
        let mut head: usize = 0;
        while head < search.queue.len()
            invariant
                search.inv(self, from as int, head as int, t),
                t == *time,
            decreases self.frames@.len() - head,
        {
            proof {
                search.lemma_queue_bound(self, from as int, head as int, t);
            }
            search.expand(self, from, head, time);
            head = head + 1;
        }
        if !search.visited[to] {
            let ghost reach = search.seen@;
            assert(self.closed_under(reach, t)) by {
                assert forall|e: int|
                    0 <= e < self.transform_data@.len() && reach.contains(
                        self.transform_data@[e].parent as int,
                    ) && #[trigger] self.slot_valid(e, t) implies reach.contains(
                        self.transform_data@[e].child as int,
                    ) by {
                    let s = self.transform_data@[e];
                    let p = s.parent as int;
                    assert(search.visited@[p]);
                    let j = search.rank@[p];
                    let k = choose|k: int|
                        0 <= k < self.child_transform_index@[s.parent as int]@.len()
                            && #[trigger] self.child_transform_index@[s.parent as int]@[k] == e;
                    assert(search.queue@[j] == p);
                    assert(self.child_transform_index@[search.queue@[j] as int]@[k] == e);
                }
            }
            assert(reach.contains(from as int));
            return None;
        }
        let mut path: Vec<usize> = Vec::new();
        let mut r = to;
        assert(search.sound(self, from as int, t));
        assert(search.steps(self, from as int));
        let ghost d_to = search.dist@[to as int];
        while r != from
            invariant
                self.wf(),
                search.sound(self, from as int, t),
                search.visited@.len() == self.frames@.len(),
                search.reached_by@.len() == self.frames@.len(),
                search.rank@.len() == self.frames@.len(),
                forall|v: int|
                    0 <= v < self.frames@.len() && #[trigger] search.visited@[v] ==> 0 <= search.rank@[v],
                r < self.frames@.len(),
                search.visited@[r as int],
                self.is_slot_path(r as int, to as int, path@, t),
                search.steps(self, from as int),
                path@.len() + search.dist@[r as int] == d_to,
                forall|i: int, j: int|
                    0 <= i < j < path@.len() ==> search.rank@[self.transform_data@[#[trigger] path@[i] as int].child as int]
                        < search.rank@[self.transform_data@[#[trigger] path@[j] as int].child as int],
                forall|i: int|
                    0 <= i < path@.len() ==> search.rank@[r as int] < search.rank@[self.transform_data@[#[trigger] path@[i] as int].child as int],
            decreases search.rank@[r as int],
        {
            assert(search.visited@[r as int]);
            let e = search.reached_by[r];
            let ghost old_path = path@;
            path.insert(0, e);
            assert(path@ == seq![e].add(old_path));
            assert(path@[0] == e);
            assert forall|i: int|
                0 <= i < path@.len() - 1 implies self.transform_data@[#[trigger] path@[i] as int].child
                == self.transform_data@[path@[i + 1] as int].parent by {
                if i > 0 {
                    assert(path@[i] == old_path[i - 1]);
                    assert(path@[i + 1] == old_path[i]);
                } else if old_path.len() > 0 {
                    assert(path@[1] == old_path[0]);
                }
            }
            assert forall|i: int| 0 <= i < path@.len() implies #[trigger] path@[i] < self.transform_data@.len()
                && self.slot_valid(path@[i] as int, t) by {
                if i > 0 {
                    assert(path@[i] == old_path[i - 1]);
                }
            }
            proof {
                if old_path.len() > 0 {
                    assert(path@.last() == old_path.last());
                }
                let ghost next = self.transform_data@[e as int].parent as int;
                assert(search.rank@[next] < search.rank@[r as int]);
                assert forall|i: int, j: int|
                    0 <= i < j < path@.len() implies search.rank@[self.transform_data@[#[trigger] path@[i] as int].child as int]
                    < search.rank@[self.transform_data@[#[trigger] path@[j] as int].child as int] by {
                    assert(path@[j] == old_path[j - 1]);
                    if i > 0 {
                        assert(path@[i] == old_path[i - 1]);
                    }
                }
                assert forall|i: int|
                    0 <= i < path@.len() implies search.rank@[next] < search.rank@[self.transform_data@[#[trigger] path@[i] as int].child as int] by {
                    if i > 0 {
                        assert(path@[i] == old_path[i - 1]);
                    }
                }
            }
            r = self.transform_data[e].parent;
        }
        proof {
            assert forall|other: Seq<usize>|
                #[trigger] self.is_slot_path(from as int, to as int, other, t) implies path@.len()
                <= other.len() by {
                search.lemma_reached_within(self, from as int, to as int, other, t, other.len() as int);
                if other.len() == 0 {
                    assert(to == from);
                }
            }
            assert forall|i: int, j: int|
                0 <= i < j < path@.len() implies self.transform_data@[#[trigger] path@[i] as int].child
                != self.transform_data@[#[trigger] path@[j] as int].child by {
                let ci = self.transform_data@[path@[i] as int].child as int;
                let cj = self.transform_data@[path@[j] as int].child as int;
                assert(search.rank@[ci] < search.rank@[cj]);
            }
        }
        Some(path)
    }

    /// The (parent, child) names of every slot, in slot order.
    spec fn slot_keys(&self) -> Seq<EdgeKey> {
        Seq::new(self.transform_data@.len(), |e: int| self.key(e))
    }

    /// The (parent, child) names of every edge the buffer knows.
    fn edge_list(&self) -> (r: Vec<(String, String)>)
        requires
            self.wf(),
        ensures
            edge_names(r@) == self.slot_keys(),
            edge_names(r@).to_set() == self.edges().dom(),
    {
        let mut r: Vec<(String, String)> = Vec::new();
        let mut e: usize = 0;
        while e < self.transform_data.len()
            invariant
                self.wf(),
                e <= self.transform_data@.len(),
                edge_names(r@) == self.slot_keys().subrange(0, e as int),
            decreases self.transform_data@.len() - e,
        {
            let s = &self.transform_data[e];
            let pair = (self.frames[s.parent].clone(), self.frames[s.child].clone());
            let ghost before = r@;
            r.push(pair);
            assert(edge_names(r@) =~= edge_names(before).push((pair.0@, pair.1@)));
            assert(self.slot_keys().subrange(0, e + 1) =~= self.slot_keys().subrange(0, e as int).push(
                self.key(e as int),
            ));
            e = e + 1;
        }
        assert(self.slot_keys().subrange(0, e as int) =~= self.slot_keys());
        assert forall|k: EdgeKey| #[trigger] self.edges().dom().contains(k) implies self.slot_keys().to_set().contains(k) by {
            let f = self.slot_of(k);
            assert(self.slot_keys()[f] == k);
        }
        assert forall|k: EdgeKey| #[trigger] self.slot_keys().to_set().contains(k) implies self.edges().dom().contains(k) by {
            let f = choose|f: int| 0 <= f < self.slot_keys().len() && self.slot_keys()[f] == k;
            self.lemma_slot(f);
        }
        assert(self.slot_keys().to_set() =~= self.edges().dom());
        r
    }

    /// Two known frames with one name are one frame.
    proof fn lemma_name_unique(&self, i: int, j: int)
        requires
            self.wf(),
            0 <= i < self.frames@.len(),
            0 <= j < self.frames@.len(),
            self.name(i) == self.name(j),
        ensures
            i == j,
    {
        if i < j {
            assert(self.name(i) != self.name(j));
        } else if j < i {
            assert(self.name(j) != self.name(i));
        }
    }

    /// The slots of a valid path between two known frames, one per step.
    proof fn lemma_slots_of_path(&self, from: int, to: int, q: Seq<Seq<char>>, t: Time) -> (es: Seq<
        usize,
    >)
        requires
            self.wf(),
            0 <= from < self.frames@.len(),
            0 <= to < self.frames@.len(),
            is_valid_path(self.edges(), self.name(from), self.name(to), q, t),
        ensures
            self.is_slot_path(from, to, es, t),
            es.len() == q.len() - 1,
    {
        let es = Seq::new((q.len() - 1) as nat, |i: int| self.slot_of((q[i], q[i + 1])) as usize);
        assert forall|i: int| 0 <= i < es.len() implies #[trigger] es[i] < self.transform_data@.len()
            && self.slot_valid(es[i] as int, t) && self.key(es[i] as int) == (q[i], q[i + 1]) by {
            assert(self.edges().contains_key((q[i], q[i + 1])));
            let e = self.slot_of((q[i], q[i + 1]));
            self.lemma_slot(e);
        }
        if es.len() == 0 {
            self.lemma_name_unique(from, to);
        } else {
            let z: int = 0;
            assert(self.key(es[z] as int) == (q[z], q[z + 1]));
            self.lemma_name_unique(self.transform_data@[es[0] as int].parent as int, from);
            let m = es.len() - 1;
            assert(self.key(es[m] as int) == (q[m], q[m + 1]));
            self.lemma_name_unique(self.transform_data@[es[m] as int].child as int, to);
            assert forall|i: int| 0 <= i < es.len() - 1 implies self.transform_data@[#[trigger] es[i] as int].child
                == self.transform_data@[es[i + 1] as int].parent by {
                assert(self.key(es[i] as int) == (q[i], q[i + 1]));
                assert(self.key(es[i + 1] as int) == (q[i + 1], q[i + 2]));
                self.lemma_name_unique(
                    self.transform_data@[es[i] as int].child as int,
                    self.transform_data@[es[i + 1] as int].parent as int,
                );
            }
        }
        es
    }

    /// Along a valid path, every frame is one of `reach`, which holds `from` and
    /// which no valid edge leaves.
    proof fn lemma_path_stays(
        &self,
        reach: Set<int>,
        from: int,
        path: Seq<Seq<char>>,
        t: Time,
        i: int,
    )
        requires
            self.wf(),
            self.closed_under(reach, t),
            0 <= from < self.frames@.len(),
            reach.contains(from),
            path.len() >= 1,
            path[0] == self.name(from),
            forall|j: int|
                0 <= j < path.len() - 1 ==> self.edges().contains_key((path[j], #[trigger] path[j + 1]))
                    && valid_at(self.edges()[(path[j], path[j + 1])], t),
            0 <= i < path.len(),
        ensures
            exists|v: int| 0 <= v < self.frames@.len() && reach.contains(v) && self.name(v) == path[i],
        decreases i,
    {
        if i > 0 {
            self.lemma_path_stays(reach, from, path, t, i - 1);
            let v = choose|v: int| 0 <= v < self.frames@.len() && reach.contains(v) && self.name(v) == path[i - 1];
            let j = i - 1;
            assert(self.edges().contains_key((path[j], path[j + 1])));
            let k = (path[i - 1], path[i]);
            assert(self.edges().contains_key(k) && valid_at(self.edges()[k], t));
            let e = self.slot_of(k);
            self.lemma_slot(e);
            let s = self.transform_data@[e];
            if s.parent != v {
                assert(self.name(s.parent as int) != self.name(v));
            }
            assert(self.slot_valid(e, t));
        } else {
            assert(self.name(from) == path[0]);
        }
    }

    /// A valid path between two different frames starts at a known frame and ends
    /// at one.
    proof fn lemma_path_ends_known(&self, from: Seq<char>, to: Seq<char>, path: Seq<Seq<char>>, t: Time)
        requires
            self.wf(),
            from != to,
            is_valid_path(self.edges(), from, to, path, t),
        ensures
            exists|v: int| 0 <= v < self.frames@.len() && self.name(v) == from,
            exists|v: int| 0 <= v < self.frames@.len() && self.name(v) == to,
    {
        assert(path.len() >= 2);
        let z: int = 0;
        assert(self.edges().contains_key((path[z], path[z + 1])));
        let k0 = (path[0], path[1]);
        assert(self.edges().contains_key(k0));
        let e0 = self.slot_of(k0);
        self.lemma_slot(e0);
        assert(self.name(self.transform_data@[e0].parent as int) == from);
        let n = path.len() - 1;
        let m = n - 1;
        assert(self.edges().contains_key((path[m], path[m + 1])));
        let k1 = (path[n - 1], path[n]);
        assert(self.edges().contains_key(k1));
        let e1 = self.slot_of(k1);
        self.lemma_slot(e1);
        assert(self.name(self.transform_data@[e1].child as int) == to);
    }

    /// Looks up the transform from frame `from` to frame `to` at `time`: the
    /// answers of the edges along a shortest path valid at `time`, in order, to be
    /// chained starting from the identity. The "latest" sentinel makes every edge
    /// with data valid, answering with its newest sample (on a static edge, the
    /// sample inserted last).
    #[verifier::spinoff_prover]
    pub fn lookup_transform(&self, from: &str, to: &str, time: &Time) -> (r: Result<
        StampedTransform<Vec<Segment<T>>>,
        TfError<T>,
    >)
        requires
            self.wf(),
        ensures
            r is Ok <==> connected(self.edges(), from@, to@, *time),
            r matches Ok(v) ==> {
                &&& v.frame_id@ == from@
                &&& v.child_frame_id@ == to@
                &&& v.stamp == *time
                &&& exists|path: Seq<Seq<char>>|
                    is_shortest_path(self.edges(), from@, to@, path, *time) && path.no_duplicates()
                        && v.transform@ == path_segments(self.edges(), path, *time)
            },
            r matches Err(e) ==> e@ matches TfErrorView::CouldNotFindTransform(a, b, edges) && a
                == from@ && b == to@ && edges.to_set() == self.edges().dom(),
    {
        let ghost t = *time;
        let from_s = from.to_owned();
        let to_s = to.to_owned();
        if from_s == to_s {
            let ghost path = seq![from@];
            assert(is_valid_path(self.edges(), from@, to@, path, t));
            assert(path.no_duplicates());
            assert(is_shortest_path(self.edges(), from@, to@, path, t));
            let r = StampedTransform {
                frame_id: from_s,
                child_frame_id: to_s,
                stamp: *time,
                transform: Vec::new(),
            };
            assert(r.transform@ =~= path_segments(self.edges(), path, t));
            return Ok(r);
        }
        let found = match (self.find_frame(&from_s), self.find_frame(&to_s)) {
            (Some(f), Some(g)) => match self.retrieve_transform_path(f, g, time) {
                Some(es) => Some((f, g, es)),
                None => {
                    proof {
                        let reach = choose|reach: Set<int>|
                            reach.contains(f as int) && !reach.contains(g as int) && self.closed_under(
                                reach,
                                t,
                            );
                        assert forall|path: Seq<Seq<char>>|
                            !is_valid_path(self.edges(), from@, to@, path, t) by {
                            if is_valid_path(self.edges(), from@, to@, path, t) {
                                self.lemma_path_stays(reach, f as int, path, t, path.len() - 1);
                                let v = choose|v: int|
                                    0 <= v < self.frames@.len() && reach.contains(v) && self.name(v)
                                        == path[path.len() - 1];
                                if v != g {
                                    assert(self.name(v) != self.name(g as int));
                                }
                            }
                        }
                    }
                    None
                },
            },
            _ => {
                proof {
                    assert forall|path: Seq<Seq<char>>|
                        !is_valid_path(self.edges(), from@, to@, path, t) by {
                        if is_valid_path(self.edges(), from@, to@, path, t) {
                            self.lemma_path_ends_known(from@, to@, path, t);
                        }
                    }
                }
                None
            },
        };
        match found {
            None => Err(TfError::CouldNotFindTransform(from_s, to_s, self.edge_list())),
            Some((f, g, es)) => {
                let ghost path = seq![from@] + Seq::new(es@.len(), |i: int| self.name(self.transform_data@[es@[i] as int].child as int));
                let mut segments: Vec<Segment<T>> = Vec::new();
                let mut i: usize = 0;
                while i < es.len()
                    invariant
                        self.wf(),
                        t == *time,
                        f < self.frames@.len(),
                        self.name(f as int) == from@,
                        self.is_slot_path(f as int, g as int, es@, t),
                        path == seq![from@] + Seq::new(es@.len(), |i: int| self.name(self.transform_data@[es@[i] as int].child as int)),
                        i <= es@.len(),
                        segments@.len() == i,
                        forall|j: int| 0 <= j < i ==> #[trigger] segments@[j] == answer(self.edges()[(path[j], path[j + 1])], t),
                        forall|j: int| 0 <= j < es@.len() ==> (path[j], #[trigger] path[j + 1]) == self.key(es@[j] as int),
                    decreases es@.len() - i,
                {
                    let e = es[i];
                    proof {
                        self.lemma_slot(e as int);
                        lemma_valid_answers(self.transform_data@[e as int].chain@, t);
                        assert((path[i as int], path[i + 1]) == self.key(e as int));
                    }
                    match self.transform_data[e].chain.get_closest_transform(time) {
                        Ok(x) => {
                            segments.push(x.transform);
                        },
                        Err(err) => {
                            return Err(err);
                        },
                    }
                    i = i + 1;
                }
                let r = StampedTransform {
                    frame_id: from_s,
                    child_frame_id: to_s,
                    stamp: *time,
                    transform: segments,
                };
                assert(is_valid_path(self.edges(), from@, to@, path, t));
                assert(r.transform@ =~= path_segments(self.edges(), path, t));
                assert forall|other: Seq<Seq<char>>|
                    #[trigger] is_valid_path(self.edges(), from@, to@, other, t) implies path.len()
                    <= other.len() by {
                    let es2 = self.lemma_slots_of_path(f as int, g as int, other, t);
                }
                assert(path.no_duplicates()) by {
                    assert forall|i: int, j: int| 0 <= i < path.len() && 0 <= j < path.len() && i != j implies path[i]
                        != path[j] by {
                        let fi = if i == 0 { f as int } else { self.transform_data@[es@[i - 1] as int].child as int };
                        let fj = if j == 0 { f as int } else { self.transform_data@[es@[j - 1] as int].child as int };
                        assert(path[i] == self.name(fi));
                        assert(path[j] == self.name(fj));
                        assert(fi != fj);
                        if fi < fj {
                            assert(self.name(fi) != self.name(fj));
                        } else {
                            assert(self.name(fj) != self.name(fi));
                        }
                    }
                }
                Ok(r)
            },
        }
    }

    /// Looks up the transform that maps a point known in `from` at `time1` into
    /// `to` at `time2`, through `fixed_frame`, which stands still in the world: the
    /// lookup from `to` to the fixed frame at `time2`, composed with the inverse of
    /// the lookup from `from` to the fixed frame at `time1`, stamped `time1`.
    #[verifier::spinoff_prover]
    pub fn lookup_transform_with_time_travel(
        &self,
        to: &str,
        time2: Time,
        from: &str,
        time1: Time,
        fixed_frame: &str,
    ) -> (r: Result<StampedTransform<TimeTravel<T>>, TfError<T>>)
        requires
            self.wf(),
        ensures
            r is Ok <==> connected(self.edges(), from@, fixed_frame@, time1) && connected(
                self.edges(),
                to@,
                fixed_frame@,
                time2,
            ),
            r matches Ok(v) ==> {
                &&& v.frame_id@ == from@
                &&& v.child_frame_id@ == to@
                &&& v.stamp == time1
                &&& exists|path: Seq<Seq<char>>|
                    is_shortest_path(self.edges(), from@, fixed_frame@, path, time1)
                        && path.no_duplicates() && v.transform.from_fixed@ == path_segments(self.edges(), path, time1)
                &&& exists|path: Seq<Seq<char>>|
                    is_shortest_path(self.edges(), to@, fixed_frame@, path, time2)
                        && path.no_duplicates() && v.transform.to_fixed@ == path_segments(self.edges(), path, time2)
            },
            r matches Err(e) ==> e@ matches TfErrorView::CouldNotFindTransform(a, b, edges) && b
                == fixed_frame@ && edges.to_set() == self.edges().dom() && (if connected(
                self.edges(),
                from@,
                fixed_frame@,
                time1,
            ) {
                a == to@
            } else {
                a == from@
            }),
    {
        let tf1 = match self.lookup_transform(from, fixed_frame, &time1) {
            Ok(x) => x,
            Err(e) => {
                return Err(e);
            },
        };
        let tf2 = match self.lookup_transform(to, fixed_frame, &time2) {
            Ok(x) => x,
            Err(e) => {
                return Err(e);
            },
        };
        Ok(
            StampedTransform {
                frame_id: from.to_owned(),
                child_frame_id: to.to_owned(),
                stamp: time1,
                transform: TimeTravel { to_fixed: tf2.transform, from_fixed: tf1.transform },
            },
        )
    }

    /// Every history of the buffer holds its samples strictly sorted by stamp, each
    /// naming the history's own (parent, child) edge, keeps the buffer's cache
    /// duration, and spans no more than it once its newest stamp exceeds it.
    pub proof fn lemma_histories_well_formed(&self)
        requires
            self.wf(),
        ensures
            forall|k: EdgeKey| #[trigger] self.edges().contains_key(k) ==> {
                let h = self.edges()[k];
                &&& history_wf(h)
                &&& all_named(h.samples, k.0, k.1)
                &&& h.cache_duration == self.cache()
                &&& forall|i: int, j: int|
                    0 <= i < j < h.samples.len() ==> #[trigger] h.samples[i].ns()
                        < #[trigger] h.samples[j].ns()
                &&& h.samples.len() > 0 && h.samples.last().ns() > h.cache_duration.ns() ==> h.samples.last().ns()
                    - h.samples[0].ns() <= h.cache_duration.ns()
            },
    {
        assert forall|k: EdgeKey| #[trigger] self.edges().contains_key(k) implies {
            let h = self.edges()[k];
            &&& history_wf(h)
            &&& all_named(h.samples, k.0, k.1)
            &&& h.cache_duration == self.cache()
            &&& forall|i: int, j: int|
                0 <= i < j < h.samples.len() ==> #[trigger] h.samples[i].ns()
                    < #[trigger] h.samples[j].ns()
            &&& h.samples.len() > 0 && h.samples.last().ns() > h.cache_duration.ns() ==> h.samples.last().ns()
                - h.samples[0].ns() <= h.cache_duration.ns()
        } by {
            let e = self.slot_of(k);
            self.lemma_slot(e);
            let h = self.edges()[k];
            if h.samples.len() > 0 && h.samples.last().ns() > h.cache_duration.ns() {
                assert(h.samples[0].ns() >= h.samples.last().ns() - h.cache_duration.ns());
            }
        }
    }

    /// A copy of the history of the edge from `parent` to `child`, if the buffer
    /// knows it.
    pub fn history(&self, parent: &str, child: &str) -> (r: Option<TfIndividualTransformChain<T>>)
        requires
            self.wf(),
        ensures
            r is Some <==> self.edges().contains_key((parent@, child@)),
            r matches Some(h) ==> h@ == self.edges()[(parent@, child@)],
    {
        let ghost k = (parent@, child@);
        let p = match self.find_frame(&parent.to_owned()) {
            Some(p) => p,
            None => {
                proof {
                    if self.edges().contains_key(k) {
                        let e = self.slot_of(k);
                        self.lemma_slot(e);
                        assert(self.name(self.transform_data@[e].parent as int) == parent@);
                    }
                }
                return None;
            },
        };
        let c = match self.find_frame(&child.to_owned()) {
            Some(c) => c,
            None => {
                proof {
                    if self.edges().contains_key(k) {
                        let e = self.slot_of(k);
                        self.lemma_slot(e);
                        assert(self.name(self.transform_data@[e].child as int) == child@);
                    }
                }
                return None;
            },
        };
        match self.find_edge(p, c) {
            Some(e) => {
                proof {
                    self.lemma_slot(e as int);
                }
                Some(self.transform_data[e].chain.copy())
            },
            None => {
                proof {
                    if self.edges().contains_key(k) {
                        let f = self.slot_of(k);
                        self.lemma_slot(f);
                        let sf = self.transform_data@[f];
                        if sf.parent != p {
                            assert(self.name(sf.parent as int) != self.name(p as int));
                        }
                        if sf.child != c {
                            assert(self.name(sf.child as int) != self.name(c as int));
                        }
                    }
                }
                None
            },
        }
    }

    /// The frames that some edge leads to from `parent`, each once.
    pub fn children(&self, parent: &str) -> (r: Vec<String>)
        requires
            self.wf(),
        ensures
            forall|c: Seq<char>|
                #[trigger] self.edges().contains_key((parent@, c)) <==> exists|i: int|
                    0 <= i < r@.len() && r@[i]@ == c,
            forall|i: int, j: int| 0 <= i < j < r@.len() ==> r@[i]@ != r@[j]@,
    {
        let mut r: Vec<String> = Vec::new();
        let p = match self.find_frame(&parent.to_owned()) {
            Some(p) => p,
            None => {
                proof {
                    assert forall|c: Seq<char>| !#[trigger] self.edges().contains_key((parent@, c)) by {
                        if self.edges().contains_key((parent@, c)) {
                            let e = self.slot_of((parent@, c));
                            self.lemma_slot(e);
                            assert(self.name(self.transform_data@[e].parent as int) == parent@);
                        }
                    }
                }
                return r;
            },
        };
        let out = &self.child_transform_index[p];
        let mut k: usize = 0;
        while k < out.len()
            invariant
                self.wf(),
                p < self.frames@.len(),
                self.name(p as int) == parent@,
                out == self.child_transform_index@[p as int],
                k <= out@.len(),
                r@.len() == k,
                forall|j: int|
                    0 <= j < k ==> #[trigger] r@[j]@ == self.name(
                        self.transform_data@[out@[j] as int].child as int,
                    ),
            decreases out@.len() - k,
        {
            let e = out[k];
            assert(self.child_transform_index@[p as int]@[k as int] == e);
            r.push(self.frames[self.transform_data[e].child].clone());
            k = k + 1;
        }
        assert forall|c: Seq<char>| #[trigger] self.edges().contains_key((parent@, c)) implies exists|i: int|
            0 <= i < r@.len() && r@[i]@ == c by {
            let e = self.slot_of((parent@, c));
            self.lemma_slot(e);
            let s = self.transform_data@[e];
            if s.parent != p {
                assert(self.name(s.parent as int) != self.name(p as int));
            }
            let j = choose|j: int|
                0 <= j < self.child_transform_index@[s.parent as int]@.len()
                    && #[trigger] self.child_transform_index@[s.parent as int]@[j] == e;
            assert(r@[j]@ == c);
        }
        assert forall|c: Seq<char>| (exists|i: int| 0 <= i < r@.len() && r@[i]@ == c) implies #[trigger] self.edges().contains_key(
            (parent@, c),
        ) by {
            let i = choose|i: int| 0 <= i < r@.len() && r@[i]@ == c;
            let e = out@[i] as int;
            assert(self.child_transform_index@[p as int]@[i] == out@[i]);
            self.lemma_slot(e);
        }
        assert forall|i: int, j: int| 0 <= i < j < r@.len() implies r@[i]@ != r@[j]@ by {
            let ei = out@[i] as int;
            let ej = out@[j] as int;
            assert(self.child_transform_index@[p as int]@[i] == out@[i]);
            assert(self.child_transform_index@[p as int]@[j] == out@[j]);
            let si = self.transform_data@[ei];
            let sj = self.transform_data@[ej];
            if si.child != sj.child {
                assert(self.name(si.child as int) != self.name(sj.child as int));
            } else {
                if ei < ej {
                    assert(self.transform_data@[ei].parent != self.transform_data@[ej].parent
                        || self.transform_data@[ei].child != self.transform_data@[ej].child);
                } else if ej < ei {
                    assert(self.transform_data@[ej].parent != self.transform_data@[ei].parent
                        || self.transform_data@[ej].child != self.transform_data@[ei].child);
                } else {
                    assert(self.child_transform_index@[p as int]@[i] != self.child_transform_index@[p as int]@[j]);
                }
            }
        }
        r
    }

    /// The number of edges the buffer knows.
    pub fn edge_count(&self) -> (r: usize)
        requires
            self.wf(),
        ensures
            r == self.edges().dom().len(),
    {
        let ghost keys = self.slot_keys();
        assert(keys.no_duplicates()) by {
            assert forall|i: int, j: int| 0 <= i < keys.len() && 0 <= j < keys.len() && i != j implies keys[i]
                != keys[j] by {
                self.lemma_slot(i);
                self.lemma_slot(j);
            }
        }
        proof {
            keys.unique_seq_to_set();
            assert forall|k: EdgeKey| #[trigger] self.edges().dom().contains(k) implies keys.to_set().contains(k) by {
                let f = self.slot_of(k);
                assert(keys[f] == k);
            }
            assert forall|k: EdgeKey| #[trigger] keys.to_set().contains(k) implies self.edges().dom().contains(k) by {
                let f = choose|f: int| 0 <= f < keys.len() && keys[f] == k;
                self.lemma_slot(f);
            }
            assert(keys.to_set() =~= self.edges().dom());
        }
        self.transform_data.len()
    }

    /// The frames that some edge leaves, each once.
    pub fn parents(&self) -> (r: Vec<String>)
        requires
            self.wf(),
        ensures
            forall|p: Seq<char>|
                #[trigger] is_parent(self.edges(), p) <==> exists|i: int| 0 <= i < r@.len() && r@[i]@ == p,
            forall|i: int, j: int| 0 <= i < j < r@.len() ==> r@[i]@ != r@[j]@,
    {
        let mut r: Vec<String> = Vec::new();
        let ghost mut at: Seq<int> = Seq::empty();
        let mut u: usize = 0;
        while u < self.frames.len()
            invariant
                self.wf(),
                u <= self.frames@.len(),
                at.len() == r@.len(),
                forall|i: int| 0 <= i < r@.len() ==> 0 <= #[trigger] at[i] < u && r@[i]@ == self.name(at[i])
                    && self.child_transform_index@[at[i]]@.len() > 0,
                forall|i: int, j: int| 0 <= i < j < r@.len() ==> at[i] < at[j],
                forall|v: int|
                    0 <= v < u && self.child_transform_index@[v]@.len() > 0 ==> exists|i: int|
                        0 <= i < r@.len() && #[trigger] at[i] == v,
            decreases self.frames@.len() - u,
        {
            let ghost at0 = at;
            if self.child_transform_index[u].len() > 0 {
                r.push(self.frames[u].clone());
                proof {
                    at = at.push(u as int);
                    assert(at[at.len() - 1] == u);
                }
            }
            assert forall|v: int|
                0 <= v < u + 1 && self.child_transform_index@[v]@.len() > 0 implies exists|i: int|
                0 <= i < r@.len() && #[trigger] at[i] == v by {
                if v < u {
                    let i = choose|i: int| 0 <= i < at0.len() && #[trigger] at0[i] == v;
                    assert(at[i] == v);
                } else {
                    assert(at[at.len() - 1] == v);
                }
            }
            u = u + 1;
        }
        assert forall|p: Seq<char>| #[trigger] is_parent(self.edges(), p) implies exists|i: int|
            0 <= i < r@.len() && r@[i]@ == p by {
            let c = choose|c: Seq<char>| #[trigger] self.edges().contains_key((p, c));
            let e = self.slot_of((p, c));
            self.lemma_slot(e);
            let v = self.transform_data@[e].parent as int;
            let k = choose|k: int|
                0 <= k < self.child_transform_index@[v]@.len()
                    && #[trigger] self.child_transform_index@[v]@[k] == e;
            let i = choose|i: int| 0 <= i < r@.len() && #[trigger] at[i] == v;
            assert(r@[i]@ == p);
        }
        assert forall|p: Seq<char>|
            (exists|i: int| 0 <= i < r@.len() && r@[i]@ == p) implies #[trigger] is_parent(self.edges(), p) by {
            let i = choose|i: int| 0 <= i < r@.len() && r@[i]@ == p;
            let v = at[i];
            let e = self.child_transform_index@[v]@[0] as int;
            self.lemma_slot(e);
            assert(self.edges().contains_key((p, self.key(e).1)));
        }
        assert forall|i: int, j: int| 0 <= i < j < r@.len() implies r@[i]@ != r@[j]@ by {
            assert(at[i] < at[j]);
            assert(self.name(at[i]) != self.name(at[j]));
        }
        r
    }

}

impl<T: Copy> TfBuffer<Oriented<T>> {
    /// Takes in a batch of transforms: each goes, in order, into the history of its
    /// own edge and, inverted, into that of the reverse edge. New edges get
    /// `static_tf`.
    pub fn handle_incoming_transforms(&mut self, transforms: Vec<StampedTransform<T>>, static_tf: bool)
        requires
            old(self).wf(),
        ensures
            final(self).wf(),
            final(self).cache() == old(self).cache(),
            final(self).edges() == ingested(
                old(self).edges(),
                old(self).cache(),
                samples_of(transforms@),
                static_tf,
            ),
            reverse_closed(old(self).edges()) ==> reverse_closed(final(self).edges()),
    {
        let ghost m0 = self.edges();
        let ghost batch = samples_of(transforms@);
        let mut i: usize = 0;
        while i < transforms.len()
            invariant
                self.wf(),
                self.cache() == old(self).cache(),
                m0 == old(self).edges(),
                batch == samples_of(transforms@),
                i <= transforms@.len(),
                self.edges() == ingested(m0, self.cache(), batch.subrange(0, i as int), static_tf),
            decreases transforms@.len() - i,
        {
            let x = &transforms[i];
            self.add_transform(&x.forward(), static_tf);
            self.add_transform(&x.inverse(), static_tf);
            assert(batch.subrange(0, i + 1).drop_last() =~= batch.subrange(0, i as int));
            assert(batch.subrange(0, i + 1).last() == x@);
            i = i + 1;
        }
        assert(batch.subrange(0, i as int) =~= batch);
        proof {
            if reverse_closed(m0) {
                lemma_inverse_closure(m0, self.cache(), batch, static_tf);
            }
        }
    }
}

} // verus!
