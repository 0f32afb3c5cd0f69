use vstd::prelude::*;
use crate::event::{Event, ListenError};
use crate::listener::{counted, is_count, Listener, ListenerView};
use crate::scan::{file_count, unreadable, Visit, VisitView};

verus! {

/// Whether scan `k` ends a watch whose scans are `scans`, the first of them
/// being the baseline: the watched path could not be read or listed, or the
/// scan counts another number of files than the baseline does.
pub open spec fn decisive(scans: Seq<Seq<VisitView>>, k: int) -> bool {
    unreadable(scans[k]) || file_count(scans[k]) != file_count(scans[0])
}

/// Whether none of the first `n` scans ends the watch.
pub open spec fn quiet(scans: Seq<Seq<VisitView>>, n: int) -> bool {
    forall|k: int| 0 <= k < n ==> !#[trigger] decisive(scans, k)
}

/// Whether the watch ends with scan `k` and not before.
pub open spec fn ends_at(scans: Seq<Seq<VisitView>>, k: int) -> bool {
    0 <= k < scans.len() && quiet(scans, k) && decisive(scans, k)
}

impl ListenerView {
    /// The listener after the given scans, each recorded in turn.
    pub open spec fn gathering(self, scans: Seq<Seq<VisitView>>) -> ListenerView
        decreases scans.len(),
    {
        if scans.len() == 0 {
            self
        } else {
            self.gathering(scans.drop_last()).recording(scans.last())
        }
    }
}

/// Whether a listener that was `before` and is given `scans` to watch ends
/// with `res` and as `after`.
///
/// The watch reads the scans in order and stops at the first decisive one.
/// `Ok(Some(k))`: scan `k` is that one, and it counts another number of files
/// than the baseline. `Err(PathUnreadable)`: the first decisive scan is
/// unreadable. `Ok(None)`: no scan is decisive. The listener has recorded the
/// scans that were read, and no others.
pub open spec fn replayed(
    before: ListenerView,
    scans: Seq<Seq<VisitView>>,
    res: Result<Option<usize>, ListenError>,
    after: ListenerView,
) -> bool {
    match res {
        Ok(Some(k)) => {
            &&& ends_at(scans, k as int)
            &&& !unreadable(scans[k as int])
            &&& after == before.gathering(scans.take(k + 1))
        },
        Ok(None) => quiet(scans, scans.len() as int) && after == before.gathering(scans),
        Err(e) => {
            &&& e == ListenError::PathUnreadable
            &&& exists|k: int|
                {
                    &&& #[trigger] ends_at(scans, k)
                    &&& unreadable(scans[k])
                    &&& after == before.gathering(scans.take(k + 1))
                }
        },
    }
}

/// Whether `scans` can be the scans that a listener made while it watched,
/// from `before` to the result `res` and the listener `after`.
///
/// There is the baseline and at most `max_polls` further scans. Each but the
/// last left the watch undecided. `Ok(true)`: the last scan counts another
/// number of files than the baseline. `Ok(false)`: it does not, and the polls
/// are used up. `Err(PathUnreadable)`: the last scan is unreadable. The
/// listener has recorded every one of the scans.
pub open spec fn watched(
    before: ListenerView,
    scans: Seq<Seq<VisitView>>,
    res: Result<bool, ListenError>,
    after: ListenerView,
) -> bool {
    &&& 1 <= scans.len() <= before.max_polls + 1
    &&& quiet(scans, scans.len() - 1)
    &&& after == before.gathering(scans)
    &&& match res {
        Ok(changed) => {
            &&& !unreadable(scans.last())
            &&& changed == (file_count(scans.last()) != file_count(scans[0]))
            &&& !changed ==> scans.len() == before.max_polls + 1
        },
        Err(e) => e == ListenError::PathUnreadable && unreadable(scans.last()),
    }
}

/// What a watch found, told from what listening returned: whether the
/// function was run, or the error.
pub open spec fn found<R>(res: Result<Option<R>, ListenError>) -> Result<bool, ListenError> {
    match res {
        Ok(ran) => Ok(ran is Some),
        Err(e) => Err(e),
    }
}

/// Recording one scan more: `gathering` goes through the scans from the first.
pub proof fn lemma_gathering_push(before: ListenerView, scans: Seq<Seq<VisitView>>, walk: Seq<VisitView>)
    ensures
        before.gathering(Seq::empty()) == before,
        before.gathering(scans.push(walk)) == before.gathering(scans).recording(walk),
{
    assert(scans.push(walk).drop_last() =~= scans);
}

/// The first `k + 1` scans are the first `k` and then scan `k`.
proof fn lemma_gathering_take(before: ListenerView, scans: Seq<Seq<VisitView>>, k: int)
    requires
        0 <= k < scans.len(),
    ensures
        before.gathering(scans.take(0)) == before,
        before.gathering(scans.take(k + 1)) == before.gathering(scans.take(k)).recording(scans[k]),
{
    assert(scans.take(k + 1) =~= scans.take(k).push(scans[k]));
    lemma_gathering_push(before, scans.take(k), scans[k]);
    assert(scans.take(0) =~= Seq::<Seq<VisitView>>::empty());
}

/// Runs `func` on `arg` if a change was found, and not otherwise.
pub fn dispatch<T, R>(changed: bool, arg: T, func: impl FnOnce(T) -> R) -> (ran: Option<R>)
    requires
        changed ==> func.requires((arg,)),
    ensures
        changed ==> (ran matches Some(r) && func.ensures((arg,), r)),
        !changed ==> ran is None,
{
    if changed {
        Some(func(arg))
    } else {
        None
    }
}

impl Listener {
    /// Watches a series of scans in place of the disk: the first scan is the
    /// baseline, and the result is the index of the first later scan that
    /// counts another number of files.
    ///
    /// The scans are tallied in order, up to the one that ends the watch. An
    /// unreadable scan ends it with an error, the baseline too.
    pub fn replay(&mut self, scans: &Vec<Vec<Visit>>) -> (res: Result<Option<usize>, ListenError>)
        ensures
            replayed(old(self)@, scans.deep_view(), res, final(self)@),
    {
        let ghost before = self@;
        let ghost model = scans.deep_view();
        if scans.len() == 0 {
            return Ok(None);
        }
        proof {
            lemma_gathering_take(before, model, 0);
        }
        let baseline = match self.tally(&scans[0]) {
            Ok(count) => count,
            Err(e) => {
                assert(ends_at(model, 0));
                return Err(e);
            },
        };
        let mut k: usize = 1;
        while k < scans.len()
            invariant
                1 <= k <= scans.len(),
                before == old(self)@,
                model == scans.deep_view(),
                quiet(model, k as int),
                baseline == file_count(model[0]),
                self@ == before.gathering(model.take(k as int)),
            decreases scans.len() - k,
        {
            proof {
                lemma_gathering_take(before, model, k as int);
            }
            let count = match self.tally(&scans[k]) {
                Ok(count) => count,
                Err(e) => {
                    assert(ends_at(model, k as int));
                    return Err(e);
                },
            };
            if count != baseline {
                return Ok(Some(k));
            }
            k = k + 1;
        }
        proof {
            assert(model.take(k as int) =~= model);
        }
        Ok(None)
    }

    /// Waits until the number of files in `path` differs from what the first
    /// scan counted, scanning again and again without a pause, or until
    /// `max_polls` further scans have found no difference.
    ///
    /// Returns whether a difference was found. What the scans find is the
    /// disk's to decide: the contract says that the result and the listener
    /// are those of some series of scans that was watched to its end.
    pub fn file_change_listener(&mut self, path: &str) -> (res: Result<bool, ListenError>)
        ensures
            exists|scans: Seq<Seq<VisitView>>| #[trigger] watched(old(self)@, scans, res, final(self)@),
    {
        let ghost before = self@;
        let first = self.count_directory_files(path);
        let ghost after_first = self@;
        let ghost walk = choose|walk: Seq<VisitView>|
            is_count(first, #[trigger] counted(walk)) && after_first == before.recording(walk);
        let ghost mut scans = Seq::<Seq<VisitView>>::empty().push(walk);
        proof {
            lemma_gathering_push(before, Seq::empty(), walk);
        }
        let baseline = match first {
            Ok(count) => count,
            Err(e) => {
                assert(watched(before, scans, Err(e), self@));
                return Err(e);
            },
        };
        let mut polls: u64 = 0;
        while polls < self.max_polls
            invariant
                scans.len() == polls + 1,
                polls <= self.max_polls,
                before == old(self)@,
                self.max_polls == before.max_polls,
                quiet(scans, scans.len() as int),
                baseline == file_count(scans[0]),
                self@ == before.gathering(scans),
            decreases self.max_polls - polls,
        {
            let ghost prior = self@;
            let next = self.count_directory_files(path);
            let ghost after_next = self@;
            proof {
                let walk = choose|walk: Seq<VisitView>|
                    is_count(next, #[trigger] counted(walk)) && after_next == prior.recording(walk);
                let longer = scans.push(walk);
                lemma_gathering_push(before, scans, walk);
                assert forall|k: int| 0 <= k < scans.len() implies !#[trigger] decisive(longer, k) by {
                    assert(!decisive(scans, k));
                }
                scans = longer;
            }
            match next {
                Ok(count) => {
                    if count != baseline {
                        assert(watched(before, scans, Ok(true), self@));
                        return Ok(true);
                    }
                },
                Err(e) => {
                    assert(watched(before, scans, Err(e), self@));
                    return Err(e);
                },
            }
            polls = polls + 1;
        }
        assert(watched(before, scans, Ok(false), self@)) by {
            assert(!decisive(scans, scans.len() - 1));
        }
        Ok(false)
    }

    /// Listens on a series of scans in place of the disk, and runs `func` on
    /// `arg` once a scan counts another number of files than the first.
    ///
    /// A listener for an unsupported event fails at once: it reads no scan
    /// and does not run `func`.
    pub fn listen_over<T, R>(
        &mut self,
        scans: &Vec<Vec<Visit>>,
        arg: T,
        func: impl FnOnce(T) -> R,
    ) -> (res: Result<Option<R>, ListenError>)
        requires
            func.requires((arg,)),
        ensures
            !old(self)@.event.supported() ==> (res matches Err(e) && e == ListenError::NotImplemented)
                && final(self)@ == old(self)@,
            old(self)@.event.supported() ==> match res {
                Ok(Some(r)) => func.ensures((arg,), r) && exists|k: usize|
                    #[trigger] replayed(old(self)@, scans.deep_view(), Ok(Some(k)), final(self)@),
                Ok(None) => replayed(old(self)@, scans.deep_view(), Ok(None), final(self)@),
                Err(e) => replayed(old(self)@, scans.deep_view(), Err(e), final(self)@),
            },
    {
        match self.event {
            Event::OnFileChange => match self.replay(scans) {
                Ok(at) => Ok(dispatch(at.is_some(), arg, func)),
                Err(e) => Err(e),
            },
            Event::OnFileAdd => Err(ListenError::NotImplemented),
            Event::OnFileRemove => Err(ListenError::NotImplemented),
        }
    }

    /// Listens on `path`, and runs `func` on `arg` once the number of files
    /// in it has changed.
    ///
    /// Returns what `func` returned, or `None` if `max_polls` scans after the
    /// first found no change. A listener for an unsupported event fails at
    /// once: it does not scan and does not run `func`.
    pub fn listen<T, R>(&mut self, path: &str, arg: T, func: impl FnOnce(T) -> R) -> (res: Result<
        Option<R>,
        ListenError,
    >)
        requires
            func.requires((arg,)),
        ensures
            !old(self)@.event.supported() ==> (res matches Err(e) && e == ListenError::NotImplemented)
                && final(self)@ == old(self)@,
            old(self)@.event.supported() ==> exists|scans: Seq<Seq<VisitView>>| #[trigger]
                watched(old(self)@, scans, found(res), final(self)@),
            res matches Ok(Some(r)) ==> func.ensures((arg,), r),
    {
        match self.event {
            Event::OnFileChange => match self.file_change_listener(path) {
                Ok(changed) => Ok(dispatch(changed, arg, func)),
                Err(e) => Err(e),
            },
            Event::OnFileAdd => Err(ListenError::NotImplemented),
            Event::OnFileRemove => Err(ListenError::NotImplemented),
        }
    }
}

/// Listens on `path` for `event`, and runs `func` on `arg` when it happens.
///
/// `path` is the directory to listen on, `event` the event to listen for,
/// `arg` the argument to pass to `func`, and `func` the function to run once
/// the event has happened. Returns what `func` returned.
pub fn listen<T, R>(path: &str, event: Event, arg: T, func: impl FnOnce(T) -> R) -> (res: Result<
    Option<R>,
    ListenError,
>)
    requires
        func.requires((arg,)),
    ensures
        !event.supported() ==> (res matches Err(e) && e == ListenError::NotImplemented),
        event.supported() ==> exists|scans: Seq<Seq<VisitView>>, after: ListenerView| #[trigger]
            watched(fresh(event), scans, found(res), after),
        res matches Ok(Some(r)) ==> func.ensures((arg,), r),
{
    internal_listener(path, event, arg, func)
}

/// A new listener's value, set to listen for `event`.
pub open spec fn fresh(event: Event) -> ListenerView {
    ListenerView { event, store_files: false, max_polls: u64::MAX as nat, files: Seq::empty() }
}

fn internal_listener<T, R>(path: &str, event: Event, arg: T, func: impl FnOnce(T) -> R) -> (res:
    Result<Option<R>, ListenError>)
    requires
        func.requires((arg,)),
    ensures
        !event.supported() ==> (res matches Err(e) && e == ListenError::NotImplemented),
        event.supported() ==> exists|scans: Seq<Seq<VisitView>>, after: ListenerView| #[trigger]
            watched(fresh(event), scans, found(res), after),
        res matches Ok(Some(r)) ==> func.ensures((arg,), r),
{
    let mut listener = Listener::new();
    listener.event = event;
    listener.listen(path, arg, func)
}

} // verus!
