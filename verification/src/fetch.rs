//! When the git texts of the open file are fetched, and which fetch counts.
//!
//! The git reads run on a background thread, so a large repository never stalls the
//! editor. A [`DiffFetcher`] says what to fetch and hands the fetched texts on when a
//! later poll finds them.

use vstd::prelude::*;

verus! {

/// What is to be done for a request.
#[derive(Clone, Copy, Debug, PartialEq, Eq, Structural)]
pub enum FetchAction {
    /// Read the texts of the current path on a worker, and report them as done with this
    /// stamp.
    Read { stamp: u64 },
    /// Report no texts as done with this stamp.
    Clear { stamp: u64 },
}

/// What has come of the latest request, at the time of a poll.
#[derive(Debug)]
pub enum FetchEvent {
    /// Nothing yet.
    Pending,
    /// The worker is gone without a result.
    Disconnected,
    /// The HEAD and index texts, with the stamp of the request that they are for.
    Done { stamp: u64, head: Option<String>, index: Option<String> },
}

/// The state of a fetcher.
#[verifier::ext_equal]
pub struct FetcherState<P> {
    /// The open file.
    pub path: Option<P>,
    /// The stamp of the latest request.
    pub stamp: u64,
    /// Whether the latest request is still to be answered.
    pub waiting: bool,
}

/// Owns the open file's path and drives background git fetches of the HEAD and index
/// texts. The editor requests a fetch on load, focus and save; a later
/// [`poll`](Self::poll) delivers the pair once the worker has finished, so the main
/// thread never blocks on git.
pub struct DiffFetcher<P> {
    path: Option<P>,
    /// Bumped per request; a worker stamps its result with the stamp that it was for, so
    /// a result of a superseded request (the path changed during the fetch) is discarded.
    stamp: u64,
    waiting: bool,
}

impl<P> View for DiffFetcher<P> {
    type V = FetcherState<P>;

    closed spec fn view(&self) -> FetcherState<P> {
        FetcherState { path: self.path, stamp: self.stamp, waiting: self.waiting }
    }
}

/// The stamp after `stamp`; stamps start over after the last one.
pub open spec fn next_stamp(stamp: u64) -> u64 {
    if stamp == u64::MAX {
        0
    } else {
        (stamp + 1) as u64
    }
}

/// The state after a request.
pub open spec fn requested<P>(s: FetcherState<P>) -> FetcherState<P> {
    FetcherState { path: s.path, stamp: next_stamp(s.stamp), waiting: true }
}

/// What is to be done for the latest request.
pub open spec fn request_action<P>(s: FetcherState<P>) -> FetchAction {
    if s.path is Some {
        FetchAction::Read { stamp: s.stamp }
    } else {
        FetchAction::Clear { stamp: s.stamp }
    }
}

/// The state after a poll that finds `event`.
pub open spec fn polled<P>(s: FetcherState<P>, event: FetchEvent) -> FetcherState<P> {
    FetcherState { path: s.path, stamp: s.stamp, waiting: s.waiting && event is Pending }
}

/// What a poll that finds `event` delivers.
pub open spec fn delivered<P>(s: FetcherState<P>, event: FetchEvent) -> Option<
    (Option<String>, Option<String>),
> {
    match event {
        FetchEvent::Done { stamp, head, index } if s.waiting && stamp == s.stamp => Some(
            (head, index),
        ),
        _ => None,
    }
}

impl<P> DiffFetcher<P> {
    /// A fetcher without a file, for which nothing was requested yet.
    pub fn new() -> (r: Self)
        ensures
            r@ == (FetcherState::<P> { path: None, stamp: 0, waiting: false }),
    {
        DiffFetcher { path: None, stamp: 0, waiting: false }
    }

    /// The open file.
    pub fn path(&self) -> (r: &Option<P>)
        ensures
            *r == self@.path,
    {
        &self.path
    }

    /// Point at a new file (none clears the markers) and kick a fetch.
    pub fn set_path(&mut self, path: Option<P>) -> (action: FetchAction)
        ensures
            final(self)@ == requested(
                FetcherState { path, stamp: old(self)@.stamp, waiting: old(self)@.waiting },
            ),
            action == request_action(final(self)@),
    {
        self.path = path;
        self.request()
    }

    /// Fetch the texts for the current path again (on focus, after a save, or when the
    /// branch changed). Without a path this clears on the next poll.
    pub fn request(&mut self) -> (action: FetchAction)
        ensures
            final(self)@ == requested(old(self)@),
            action == request_action(final(self)@),
    {
        self.stamp = self.stamp.wrapping_add(1);
        self.waiting = true;
        match &self.path {
            Some(_) => FetchAction::Read { stamp: self.stamp },
            None => FetchAction::Clear { stamp: self.stamp },
        }
    }

    /// Deliver a finished fetch, if any: `Some((head, index))` for the latest request
    /// (both `None` means to clear the markers); `None` while it is still pending or
    /// already delivered. A stale result, of a superseded request, is dropped.
    pub fn poll(&mut self, event: FetchEvent) -> (r: Option<(Option<String>, Option<String>)>)
        ensures
            final(self)@ == polled(old(self)@, event),
            r == delivered(old(self)@, event),
    {
        if !self.waiting {
            return None;
        }
        match event {
            FetchEvent::Done { stamp, head, index } => {
                self.waiting = false;
                if stamp == self.stamp {
                    Some((head, index))
                } else {
                    None
                }
            },
            FetchEvent::Pending => None,
            FetchEvent::Disconnected => {
                self.waiting = false;
                None
            },
        }
    }

    /// What follows a stage or unstage of one hunk. `wrote` says whether the new index
    /// content was written for the current path. The result says whether the change is
    /// staged, which it is not without a path, and what to do then: read the index again.
    pub fn stage(&mut self, wrote: bool) -> (r: (bool, Option<FetchAction>))
        ensures
            r.0 == (wrote && old(self)@.path is Some),
            r.0 ==> final(self)@ == requested(old(self)@) && r.1 == Some(
                request_action(final(self)@),
            ),
            !r.0 ==> final(self)@ == old(self)@ && r.1 is None,
    {
        let has_path = match &self.path {
            Some(_) => true,
            None => false,
        };
        if has_path && wrote {
            (true, Some(self.request()))
        } else {
            (false, None)
        }
    }
}

impl<P> Default for DiffFetcher<P> {
    fn default() -> (r: Self)
        ensures
            r@ == (FetcherState::<P> { path: None, stamp: 0, waiting: false }),
    {
        DiffFetcher::new()
    }
}

/// How many of the polls that find `events`, one after the other, deliver something.
pub open spec fn deliveries<P>(s: FetcherState<P>, events: Seq<FetchEvent>) -> nat
    decreases events.len(),
{
    if events.len() == 0 {
        0
    } else {
        (if delivered(s, events[0]) is Some {
            1nat
        } else {
            0nat
        }) + deliveries(polled(s, events[0]), events.drop_first())
    }
}

/// A request is answered at most once, whatever the polls after it find; without a
/// request nothing is delivered.
pub proof fn law_delivered_once<P>(s: FetcherState<P>, events: Seq<FetchEvent>)
    ensures
        deliveries(s, events) <= 1,
        !s.waiting ==> deliveries(s, events) == 0,
    decreases events.len(),
{
    if events.len() > 0 {
        law_delivered_once(polled(s, events[0]), events.drop_first());
    }
}

/// `n` requests after each other.
pub open spec fn requested_times<P>(s: FetcherState<P>, n: nat) -> FetcherState<P>
    decreases n,
{
    if n == 0 {
        s
    } else {
        requested(requested_times(s, (n - 1) as nat))
    }
}

/// The result of a superseded request is dropped: once further requests were made, fewer
/// than there are stamps, a result with the stamp of the first one delivers nothing.
pub proof fn law_superseded_is_dropped<P>(
    s: FetcherState<P>,
    n: nat,
    head: Option<String>,
    index: Option<String>,
)
    requires
        0 < n <= u64::MAX,
    ensures
        delivered(requested_times(s, n), FetchEvent::Done { stamp: s.stamp, head, index }) is None,
{
    lemma_stamp_after(s, n);
}

proof fn lemma_stamp_after<P>(s: FetcherState<P>, n: nat)
    requires
        n <= u64::MAX,
    ensures
        requested_times(s, n).stamp == if s.stamp + n <= u64::MAX {
            s.stamp + n
        } else {
            s.stamp + n - u64::MAX - 1
        },
        requested_times(s, n).path == s.path,
    decreases n,
{
    if n > 0 {
        lemma_stamp_after(s, (n - 1) as nat);
    }
}

/// What the latest request asked for is delivered by the poll that finds it, however many
/// polls found it pending before.
pub proof fn law_latest_is_delivered<P>(
    s: FetcherState<P>,
    head: Option<String>,
    index: Option<String>,
)
    ensures
        polled(requested(s), FetchEvent::Pending) == requested(s),
        delivered(requested(s), FetchEvent::Pending) is None,
        delivered(
            requested(s),
            FetchEvent::Done { stamp: requested(s).stamp, head, index },
        ) == Some((head, index)),
{
}

/// A request keeps the path, has a new stamp, and waits for an answer with that stamp. There
/// is something to read for it exactly when there is a path.
pub proof fn law_request_waits_for_its_stamp<P>(s: FetcherState<P>)
    ensures
        requested(s).path == s.path,
        requested(s).waiting,
        requested(s).stamp != s.stamp,
        s.stamp < u64::MAX ==> requested(s).stamp == s.stamp + 1,
        s.stamp == u64::MAX ==> requested(s).stamp == 0,
        s.path is Some ==> request_action(s) == (FetchAction::Read { stamp: s.stamp }),
        s.path is None ==> request_action(s) == (FetchAction::Clear { stamp: s.stamp }),
{
}

/// A poll delivers the texts it finds exactly when an answer is waited for and they have the
/// stamp of the latest request. It waits on only while nothing has come, and changes neither
/// the path nor the stamp.
pub proof fn law_poll_delivers_the_awaited<P>(
    s: FetcherState<P>,
    stamp: u64,
    head: Option<String>,
    index: Option<String>,
)
    ensures
        delivered(s, FetchEvent::Done { stamp, head, index }) == if s.waiting && stamp == s.stamp {
            Some((head, index))
        } else {
            None
        },
        delivered(s, FetchEvent::Pending) is None,
        delivered(s, FetchEvent::Disconnected) is None,
        polled(s, FetchEvent::Pending) == s,
        polled(s, FetchEvent::Done { stamp, head, index }) == (FetcherState { waiting: false, ..s }),
        polled(s, FetchEvent::Disconnected) == (FetcherState { waiting: false, ..s }),
{
}

} // verus!
