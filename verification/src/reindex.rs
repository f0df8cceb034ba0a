use vstd::prelude::*;

verus! {

/// The answer to a request to rebuild the file index.
#[derive(PartialEq, Eq, Structural)]
pub enum ReindexReply {
    /// A walk is running already; the request is refused.
    AlreadyIndexing,
    /// No walk was running; a new one starts.
    Started,
}

/// Decides a request to rebuild the index, given whether a walk was running
/// when the request claimed the indexing flag. At most one walk runs at a
/// time: while one runs, every further request is refused.
pub fn answer_reindex(was_indexing: bool) -> (r: ReindexReply)
    ensures
        r == (if was_indexing { ReindexReply::AlreadyIndexing } else { ReindexReply::Started }),
{
    if was_indexing {
        ReindexReply::AlreadyIndexing
    } else {
        ReindexReply::Started
    }
}

impl ReindexReply {
    /// Whether this answer starts a walk of the data folder.
    pub fn starts_walk(&self) -> (r: bool)
        ensures
            r == (*self == ReindexReply::Started),
    {
        match self {
            ReindexReply::AlreadyIndexing => false,
            ReindexReply::Started => true,
        }
    }

    /// The text sent back for this answer.
    pub fn message(&self) -> (r: &'static str)
        ensures
            r@ == (if *self == ReindexReply::Started { "Reindex started"@ } else {
                "Already indexing..."@
            }),
    {
        match self {
            ReindexReply::AlreadyIndexing => "Already indexing...",
            ReindexReply::Started => "Reindex started",
        }
    }
}

} // verus!
