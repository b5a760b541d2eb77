//! The closed set of lookup errors.
use vstd::prelude::*;

use crate::stamped::{StampedTransform, StampedView};
use crate::time::Time;

verus! {

/// Why a lookup produced no transform.
#[derive(Clone, Debug)]
#[non_exhaustive]
pub enum TfError<T> {
    /// The query time precedes the oldest sample that an edge still holds.
    AttemptedLookupInPast(Time, Box<StampedTransform<T>>),
    /// The query time follows the newest sample of an edge.
    AttemptedLookUpInFuture(Box<StampedTransform<T>>, Time),
    /// No path between the two frames is valid at the query time; the last field
    /// lists the (parent, child) pairs of every edge the buffer knows.
    CouldNotFindTransform(String, String, Vec<(String, String)>),
    /// A concurrent writer held the buffer.
    CouldNotAcquireLock,
}

/// The mathematical content of a `TfError`.
pub enum TfErrorView<T> {
    AttemptedLookupInPast(Time, StampedView<T>),
    AttemptedLookUpInFuture(StampedView<T>, Time),
    CouldNotFindTransform(Seq<char>, Seq<char>, Seq<(Seq<char>, Seq<char>)>),
    CouldNotAcquireLock,
}

/// The names of an edge list.
pub open spec fn edge_names(v: Seq<(String, String)>) -> Seq<(Seq<char>, Seq<char>)> {
    v.map_values(|p: (String, String)| (p.0@, p.1@))
}

impl<T> View for TfError<T> {
    type V = TfErrorView<T>;

    open spec fn view(&self) -> TfErrorView<T> {
        match self {
            TfError::AttemptedLookupInPast(t, s) => TfErrorView::AttemptedLookupInPast(*t, s@),
            TfError::AttemptedLookUpInFuture(s, t) => TfErrorView::AttemptedLookUpInFuture(s@, *t),
            TfError::CouldNotFindTransform(a, b, edges) => TfErrorView::CouldNotFindTransform(
                a@,
                b@,
                edge_names(edges@),
            ),
            TfError::CouldNotAcquireLock => TfErrorView::CouldNotAcquireLock,
        }
    }
}

/// The mathematical content of a lookup's outcome.
pub open spec fn outcome<P, T>(r: Result<StampedTransform<P>, TfError<T>>) -> Result<
    StampedView<P>,
    TfErrorView<T>,
> {
    match r {
        Ok(s) => Ok(s@),
        Err(e) => Err(e@),
    }
}

} // verus!
