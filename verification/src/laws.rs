//! What holds of every scan and of every watch.

use vstd::prelude::*;
use crate::event::ListenError;
use crate::listener::ListenerView;
use crate::scan::{
    file_count, lemma_file_count_push, lemma_stored_paths_push, lemma_unreadable_push,
    stored_paths, unreadable, VisitView,
};
use crate::watch::{decisive, ends_at, lemma_gathering_push, quiet, replayed, watched};

verus! {

/// Whether every file that the scan lists has a path that can be stored.
pub open spec fn all_files_named(walk: Seq<VisitView>) -> bool {
    forall|i: int| 0 <= i < walk.len() && (#[trigger] walk[i]).is_file() ==> walk[i].stored() is Some
}

/// The files of two scans laid end to end are counted and stored one scan
/// after the other, and the whole is unreadable when a part is.
pub proof fn lemma_scan_concat(a: Seq<VisitView>, b: Seq<VisitView>)
    ensures
        file_count(a + b) == file_count(a) + file_count(b),
        stored_paths(a + b) == stored_paths(a) + stored_paths(b),
        unreadable(a + b) == (unreadable(a) || unreadable(b)),
    decreases b.len(),
{
    if b.len() == 0 {
        assert(a + b =~= a);
        assert(b =~= Seq::empty());
        reveal(Seq::filter);
        assert(file_count(b) == 0);
        assert(stored_paths(b) =~= Seq::empty());
        assert(stored_paths(a) + stored_paths(b) =~= stored_paths(a));
    } else {
        let front = b.drop_last();
        let v = b.last();
        assert(b =~= front.push(v));
        assert(a + b =~= (a + front).push(v));
        lemma_scan_concat(a, front);
        lemma_file_count_push(a + front, v);
        lemma_file_count_push(front, v);
        lemma_stored_paths_push(a + front, v);
        lemma_stored_paths_push(front, v);
        lemma_unreadable_push(a + front, v);
        lemma_unreadable_push(front, v);
        match v.stored() {
            Some(path) => {
                assert((stored_paths(a) + stored_paths(front)).push(path) =~= stored_paths(a)
                    + stored_paths(front).push(path));
            },
            None => {},
        }
    }
}

/// A scan of one visit counts one if the visit is a file and nothing
/// otherwise, and stores the visit's path if it has one to store.
pub proof fn lemma_scan_single(v: VisitView)
    ensures
        file_count(seq![v]) == if v.is_file() {
            1nat
        } else {
            0nat
        },
        stored_paths(seq![v]) == match v.stored() {
            Some(path) => seq![path],
            None => Seq::empty(),
        },
        unreadable(seq![v]) == v.blocks_listing(),
{
    let none = Seq::<VisitView>::empty();
    assert(seq![v] =~= none.push(v));
    lemma_file_count_push(none, v);
    lemma_stored_paths_push(none, v);
    lemma_unreadable_push(none, v);
    reveal(Seq::filter);
    assert(file_count(none) == 0);
    assert(stored_paths(none) =~= Seq::empty());
    match v.stored() {
        Some(path) => {
            assert(Seq::<Seq<char>>::empty().push(path) =~= seq![path]);
        },
        None => {},
    }
}

/// Listing one visit more, at any place of a scan, adds what that visit alone
/// counts and stores.
pub proof fn lemma_scan_insert(walk: Seq<VisitView>, i: int, v: VisitView)
    requires
        0 <= i <= walk.len(),
    ensures
        file_count(walk.insert(i, v)) == file_count(walk) + file_count(seq![v]),
        stored_paths(walk.insert(i, v)).len() == stored_paths(walk).len() + stored_paths(
            seq![v],
        ).len(),
        unreadable(walk.insert(i, v)) == (unreadable(walk) || v.blocks_listing()),
{
    let head = walk.take(i);
    let tail = walk.skip(i);
    assert(walk =~= head + tail);
    assert(walk.insert(i, v) =~= (head + seq![v]) + tail);
    lemma_scan_concat(head, tail);
    lemma_scan_concat(head, seq![v]);
    lemma_scan_concat(head + seq![v], tail);
    lemma_scan_single(v);
}

/// Dropping one visit, at any place of a scan, takes away what that visit
/// alone counts and stores.
pub proof fn lemma_scan_remove(walk: Seq<VisitView>, i: int)
    requires
        0 <= i < walk.len(),
    ensures
        file_count(walk) == file_count(walk.remove(i)) + file_count(seq![walk[i]]),
        stored_paths(walk).len() == stored_paths(walk.remove(i)).len() + stored_paths(
            seq![walk[i]],
        ).len(),
        unreadable(walk) == (unreadable(walk.remove(i)) || walk[i].blocks_listing()),
{
    assert(walk.remove(i).insert(i, walk[i]) =~= walk);
    lemma_scan_insert(walk.remove(i), i, walk[i]);
}

/// Directories do not count. A directory listed among the files of a scan,
/// at any place, changes neither the number that the scan counts nor the
/// paths that it stores, so a scan that lists `n` files counts `n` however
/// many directories it lists beside them.
pub proof fn law_directories_do_not_count(
    walk: Seq<VisitView>,
    i: int,
    depth: nat,
    path: Option<Seq<char>>,
)
    requires
        0 <= i <= walk.len(),
    ensures
        file_count(walk.insert(i, VisitView::Entry { depth, is_dir: true, path })) == file_count(walk),
        stored_paths(walk.insert(i, VisitView::Entry { depth, is_dir: true, path })) == stored_paths(walk),
        unreadable(walk.insert(i, VisitView::Entry { depth, is_dir: true, path })) == unreadable(walk),
{
    let v = VisitView::Entry { depth, is_dir: true, path };
    let head = walk.take(i);
    let tail = walk.skip(i);
    assert(walk =~= head + tail);
    assert(walk.insert(i, v) =~= (head + seq![v]) + tail);
    lemma_scan_concat(head, tail);
    lemma_scan_concat(head, seq![v]);
    lemma_scan_concat(head + seq![v], tail);
    lemma_scan_single(v);
    assert(stored_paths(head) + Seq::<Seq<char>>::empty() =~= stored_paths(head));
}

/// A child that could not be read is skipped: it changes neither the number
/// that the scan counts nor the paths that it stores, and the scan stays
/// readable.
pub proof fn law_failed_children_are_skipped(walk: Seq<VisitView>, i: int, depth: nat)
    requires
        0 <= i <= walk.len(),
        depth > 0,
    ensures
        file_count(walk.insert(i, VisitView::Failed { depth })) == file_count(walk),
        stored_paths(walk.insert(i, VisitView::Failed { depth })) == stored_paths(walk),
        unreadable(walk.insert(i, VisitView::Failed { depth })) == unreadable(walk),
{
    let v = VisitView::Failed { depth };
    let head = walk.take(i);
    let tail = walk.skip(i);
    assert(walk =~= head + tail);
    assert(walk.insert(i, v) =~= (head + seq![v]) + tail);
    lemma_scan_concat(head, tail);
    lemma_scan_concat(head, seq![v]);
    lemma_scan_concat(head + seq![v], tail);
    lemma_scan_single(v);
    assert(stored_paths(head) + Seq::<Seq<char>>::empty() =~= stored_paths(head));
}

/// A scan stores at most one path for each file that it counts, and exactly
/// one where every file has a path that can be stored.
pub proof fn law_stored_paths_match_count(walk: Seq<VisitView>)
    ensures
        stored_paths(walk).len() <= file_count(walk),
        all_files_named(walk) ==> stored_paths(walk).len() == file_count(walk),
    decreases walk.len(),
{
    if walk.len() == 0 {
        reveal(Seq::filter);
        assert(stored_paths(walk) =~= Seq::empty());
    } else {
        let front = walk.drop_last();
        let v = walk.last();
        assert(walk =~= front.push(v));
        law_stored_paths_match_count(front);
        lemma_file_count_push(front, v);
        lemma_stored_paths_push(front, v);
        if all_files_named(walk) {
            assert forall|i: int| 0 <= i < front.len() && (#[trigger] front[i]).is_file() implies front[i].stored() is Some by {
                assert(walk[i].is_file());
            }
            assert(walk[walk.len() - 1] == v);
        }
    }
}

/// A watch changes nothing of a listener but its list of files, and a
/// listener that does not store keeps that list too.
pub proof fn law_watch_keeps_settings(before: ListenerView, scans: Seq<Seq<VisitView>>)
    ensures
        before.gathering(scans).event == before.event,
        before.gathering(scans).store_files == before.store_files,
        before.gathering(scans).max_polls == before.max_polls,
        !before.store_files ==> before.gathering(scans) == before,
        before.gathering(scans).files.len() >= before.files.len(),
        before.gathering(scans).files.take(before.files.len() as int) == before.files,
    decreases scans.len(),
{
    if scans.len() > 0 {
        law_watch_keeps_settings(before, scans.drop_last());
        let earlier = before.gathering(scans.drop_last());
        assert(before.gathering(scans).files.take(before.files.len() as int) =~= earlier.files.take(
            before.files.len() as int,
        ));
    } else {
        assert(before.files.take(before.files.len() as int) =~= before.files);
    }
}

/// The list grows scan by scan. Every readable scan appends its paths to the
/// list of a storing listener, so that after a watch the list ends with the
/// paths of the last scan, behind those of all the scans before it.
pub proof fn law_list_ends_with_last_scan(before: ListenerView, scans: Seq<Seq<VisitView>>)
    requires
        before.store_files,
        scans.len() >= 1,
        !unreadable(scans.last()),
    ensures
        before.gathering(scans).files == before.gathering(scans.drop_last()).files + stored_paths(
            scans.last(),
        ),
{
    law_watch_keeps_settings(before, scans.drop_last());
}

/// Scans that count no file leave the list as it was.
proof fn lemma_empty_scans_store_nothing(before: ListenerView, scans: Seq<Seq<VisitView>>)
    requires
        forall|k: int| 0 <= k < scans.len() ==> file_count(#[trigger] scans[k]) == 0,
    ensures
        before.gathering(scans) == before,
    decreases scans.len(),
{
    if scans.len() > 0 {
        let earlier = scans.drop_last();
        assert forall|k: int| 0 <= k < earlier.len() implies file_count(#[trigger] earlier[k]) == 0 by {
            assert(earlier[k] == scans[k]);
        }
        lemma_empty_scans_store_nothing(before, earlier);
        law_stored_paths_match_count(scans.last());
        assert(file_count(scans[scans.len() - 1]) == 0);
        assert(stored_paths(scans.last()) =~= Seq::empty());
        assert(before.files + Seq::<Seq<char>>::empty() =~= before.files);
    }
}

/// The list of a watch that began with no file. Where a storing listener
/// with an empty list watches a directory that holds no file at first, the
/// list after the watch holds the paths of the files of the last scan, one
/// for each file that the scan counts if each has a path that can be stored.
///
/// Where the directory holds files at first, the list holds their paths once
/// for every scan that listed them, before those of the last scan.
pub proof fn law_list_after_watch_from_empty(
    before: ListenerView,
    scans: Seq<Seq<VisitView>>,
    after: ListenerView,
)
    requires
        watched(before, scans, Ok(true), after),
        before.store_files,
        before.files.len() == 0,
        file_count(scans[0]) == 0,
    ensures
        after.files == stored_paths(scans.last()),
        all_files_named(scans.last()) ==> after.files.len() == file_count(scans.last()),
{
    let earlier = scans.drop_last();
    assert forall|k: int| 0 <= k < earlier.len() implies file_count(#[trigger] earlier[k]) == 0 by {
        assert(!decisive(scans, k));
        assert(earlier[k] == scans[k]);
    }
    lemma_empty_scans_store_nothing(before, earlier);
    law_list_ends_with_last_scan(before, scans);
    assert(before.files =~= Seq::empty());
    assert(before.files + stored_paths(scans.last()) =~= stored_paths(scans.last()));
    law_stored_paths_match_count(scans.last());
}

/// What one scan more does to a watch that is still undecided: it ends the
/// watch if it is unreadable or counts another number of files than the
/// baseline, and leaves it undecided otherwise.
pub proof fn lemma_next_scan(scans: Seq<Seq<VisitView>>, next: Seq<VisitView>)
    requires
        scans.len() >= 1,
        quiet(scans, scans.len() as int),
    ensures
        !unreadable(scans.last()),
        file_count(scans.last()) == file_count(scans[0]),
        decisive(scans.push(next), scans.len() as int) == (unreadable(next) || file_count(next)
            != file_count(scans[0])),
        quiet(scans.push(next), scans.len() as int),
        decisive(scans.push(next), scans.len() as int) ==> ends_at(
            scans.push(next),
            scans.len() as int,
        ),
        !decisive(scans.push(next), scans.len() as int) ==> quiet(
            scans.push(next),
            scans.len() + 1 as int,
        ),
{
    let longer = scans.push(next);
    assert(!decisive(scans, scans.len() - 1));
    assert forall|k: int| 0 <= k < scans.len() implies !#[trigger] decisive(longer, k) by {
        assert(!decisive(scans, k));
    }
}

/// A watch has one end. Two results of replaying the same scans from the
/// same listener are the same result, and leave the same listener.
pub proof fn law_replay_is_determined(
    before: ListenerView,
    scans: Seq<Seq<VisitView>>,
    res1: Result<Option<usize>, ListenError>,
    after1: ListenerView,
    res2: Result<Option<usize>, ListenError>,
    after2: ListenerView,
)
    requires
        replayed(before, scans, res1, after1),
        replayed(before, scans, res2, after2),
    ensures
        res1 == res2,
        after1 == after2,
{
    let end1 = first_end(before, scans, res1, after1);
    let end2 = first_end(before, scans, res2, after2);
    if end1 is Some && end2 is Some {
        let k1 = end1->Some_0;
        let k2 = end2->Some_0;
        if k1 < k2 {
            assert(!decisive(scans, k1));
        }
        if k2 < k1 {
            assert(!decisive(scans, k2));
        }
    } else if end1 is Some {
        assert(!decisive(scans, end1->Some_0));
    } else if end2 is Some {
        assert(!decisive(scans, end2->Some_0));
    }
}

/// The scan at which a replayed watch ended, if it ended.
proof fn first_end(
    before: ListenerView,
    scans: Seq<Seq<VisitView>>,
    res: Result<Option<usize>, ListenError>,
    after: ListenerView,
) -> (end: Option<int>)
    requires
        replayed(before, scans, res, after),
    ensures
        match end {
            Some(k) => {
                &&& ends_at(scans, k)
                &&& after == before.gathering(scans.take(k + 1))
                &&& unreadable(scans[k]) == (res is Err)
                &&& res is Err ==> res == Err::<Option<usize>, ListenError>(
                    ListenError::PathUnreadable,
                )
                &&& res matches Ok(at) ==> at == Some(k as usize) && k as usize == k
            },
            None => {
                &&& quiet(scans, scans.len() as int)
                &&& after == before.gathering(scans)
                &&& res == Ok::<Option<usize>, ListenError>(None)
            },
        },
{
    match res {
        Ok(Some(k)) => Some(k as int),
        Ok(None) => None,
        Err(e) => {
            let k = choose|k: int|
                {
                    &&& #[trigger] ends_at(scans, k)
                    &&& unreadable(scans[k])
                    &&& after == before.gathering(scans.take(k + 1))
                };
            Some(k)
        },
    }
}

/// Adding a file is noticed. While a watch is undecided, a scan that lists
/// what the last scan listed and one file more ends the watch: replaying
/// stops at that scan with a change, and a listener whose scans these were
/// reports a change.
pub proof fn law_added_file_is_detected(scans: Seq<Seq<VisitView>>, i: int, file: VisitView)
    requires
        scans.len() >= 1,
        quiet(scans, scans.len() as int),
        0 <= i <= scans.last().len(),
        file.is_file(),
    ensures
        forall|before: ListenerView, res: Result<Option<usize>, ListenError>, after: ListenerView|
            #[trigger] replayed(before, scans.push(scans.last().insert(i, file)), res, after)
                ==> (res matches Ok(Some(k)) && k == scans.len()),
        forall|before: ListenerView, res: Result<bool, ListenError>, after: ListenerView|
            #[trigger] watched(before, scans.push(scans.last().insert(i, file)), res, after)
                ==> res == Ok::<bool, ListenError>(true),
{
    let next = scans.last().insert(i, file);
    lemma_scan_insert(scans.last(), i, file);
    lemma_scan_single(file);
    lemma_next_scan(scans, next);
    lemma_changed_scan_ends_watch(scans, next);
}

/// Removing a file is noticed. While a watch is undecided, a scan that lists
/// what the last scan listed but for one of its files ends the watch:
/// replaying stops at that scan with a change, and a listener whose scans
/// these were reports a change.
pub proof fn law_removed_file_is_detected(scans: Seq<Seq<VisitView>>, i: int)
    requires
        scans.len() >= 1,
        quiet(scans, scans.len() as int),
        0 <= i < scans.last().len(),
        scans.last()[i].is_file(),
    ensures
        forall|before: ListenerView, res: Result<Option<usize>, ListenError>, after: ListenerView|
            #[trigger] replayed(before, scans.push(scans.last().remove(i)), res, after) ==> (res matches Ok(
                Some(k),
            ) && k == scans.len()),
        forall|before: ListenerView, res: Result<bool, ListenError>, after: ListenerView|
            #[trigger] watched(before, scans.push(scans.last().remove(i)), res, after) ==> res
                == Ok::<bool, ListenError>(true),
{
    let next = scans.last().remove(i);
    lemma_scan_remove(scans.last(), i);
    lemma_scan_single(scans.last()[i]);
    lemma_next_scan(scans, next);
    lemma_changed_scan_ends_watch(scans, next);
}

/// One file for another goes unnoticed. While a watch is undecided, a scan
/// that lists what the last scan listed, with one file taken away and another
/// put in, leaves the watch undecided: replaying reports no change, and a
/// listener whose scans these were reports none either, and only once its
/// polls are used up.
pub proof fn law_swapped_file_is_not_detected(
    scans: Seq<Seq<VisitView>>,
    gone: int,
    i: int,
    file: VisitView,
)
    requires
        scans.len() >= 1,
        quiet(scans, scans.len() as int),
        0 <= gone < scans.last().len(),
        scans.last()[gone].is_file(),
        0 <= i < scans.last().len(),
        file.is_file(),
    ensures
        forall|before: ListenerView, res: Result<Option<usize>, ListenError>, after: ListenerView|
            #[trigger] replayed(
                before,
                scans.push(scans.last().remove(gone).insert(i, file)),
                res,
                after,
            ) ==> res == Ok::<Option<usize>, ListenError>(None),
        forall|before: ListenerView, res: Result<bool, ListenError>, after: ListenerView|
            #[trigger] watched(
                before,
                scans.push(scans.last().remove(gone).insert(i, file)),
                res,
                after,
            ) ==> res == Ok::<bool, ListenError>(false) && scans.len() == before.max_polls,
{
    let fewer = scans.last().remove(gone);
    let next = fewer.insert(i, file);
    lemma_scan_remove(scans.last(), gone);
    lemma_scan_single(scans.last()[gone]);
    lemma_scan_insert(fewer, i, file);
    lemma_scan_single(file);
    lemma_next_scan(scans, next);
    lemma_same_count_keeps_watch(scans, next);
}

/// A readable scan that counts another number of files than the baseline
/// ends an undecided watch with a change.
pub proof fn lemma_changed_scan_ends_watch(scans: Seq<Seq<VisitView>>, next: Seq<VisitView>)
    requires
        scans.len() >= 1,
        quiet(scans, scans.len() as int),
        !unreadable(next),
        file_count(next) != file_count(scans[0]),
    ensures
        forall|before: ListenerView, res: Result<Option<usize>, ListenError>, after: ListenerView|
            #[trigger] replayed(before, scans.push(next), res, after) ==> (res matches Ok(Some(k))
                && k == scans.len()),
        forall|before: ListenerView, res: Result<bool, ListenError>, after: ListenerView|
            #[trigger] watched(before, scans.push(next), res, after) ==> res == Ok::<
                bool,
                ListenError,
            >(true),
{
    let longer = scans.push(next);
    lemma_next_scan(scans, next);
    assert forall|before: ListenerView, res: Result<Option<usize>, ListenError>, after: ListenerView|
        #[trigger] replayed(before, longer, res, after) implies (res matches Ok(Some(k)) && k
        == scans.len()) by {
        let end = first_end(before, longer, res, after);
        match end {
            Some(k) => {
                if k < scans.len() {
                    assert(!decisive(longer, k));
                }
            },
            None => {
                assert(!decisive(longer, scans.len() as int));
            },
        }
    }
}

/// A readable scan that counts the baseline's number of files leaves an
/// undecided watch undecided.
pub proof fn lemma_same_count_keeps_watch(scans: Seq<Seq<VisitView>>, next: Seq<VisitView>)
    requires
        scans.len() >= 1,
        quiet(scans, scans.len() as int),
        !unreadable(next),
        file_count(next) == file_count(scans[0]),
    ensures
        forall|before: ListenerView, res: Result<Option<usize>, ListenError>, after: ListenerView|
            #[trigger] replayed(before, scans.push(next), res, after) ==> res == Ok::<
                Option<usize>,
                ListenError,
            >(None),
        forall|before: ListenerView, res: Result<bool, ListenError>, after: ListenerView|
            #[trigger] watched(before, scans.push(next), res, after) ==> res == Ok::<
                bool,
                ListenError,
            >(false) && scans.len() == before.max_polls,
{
    let longer = scans.push(next);
    lemma_next_scan(scans, next);
    assert forall|before: ListenerView, res: Result<Option<usize>, ListenError>, after: ListenerView|
        #[trigger] replayed(before, longer, res, after) implies res == Ok::<
        Option<usize>,
        ListenError,
    >(None) by {
        let end = first_end(before, longer, res, after);
        match end {
            Some(k) => {
                assert(!decisive(longer, k));
            },
            None => {},
        }
    }
}

} // verus!
