use vstd::prelude::*;
use crate::event::{Event, ListenError};
use crate::scan::{
    file_count, lemma_file_count_push, lemma_stored_paths_push, lemma_unreadable_push, scan,
    stored_paths, unreadable, Visit, VisitView,
};

verus! {

/// A listener for changes in one directory.
#[derive(Debug)]
pub struct Listener {
    /// The event to listen for.
    pub event: Event,
    /// If true, every scan appends the paths of the files it lists to
    /// `files`; otherwise `files` is left alone.
    pub store_files: bool,
    /// How many times the directory is scanned again, after the first scan,
    /// before the listener gives up waiting for a change.
    pub max_polls: u64,
    /// The paths of the files listed by the scans made so far.
    pub files: Vec<String>,
}

/// The mathematical value of a [`Listener`].
pub struct ListenerView {
    pub event: Event,
    pub store_files: bool,
    pub max_polls: nat,
    pub files: Seq<Seq<char>>,
}

impl View for Listener {
    type V = ListenerView;

    open spec fn view(&self) -> ListenerView {
        ListenerView {
            event: self.event,
            store_files: self.store_files,
            max_polls: self.max_polls as nat,
            files: self.files@.map_values(|path: String| path@),
        }
    }
}

impl ListenerView {
    /// The listener after one scan: a readable scan adds its files' paths to
    /// those of a storing listener, and nothing else ever changes.
    pub open spec fn recording(self, walk: Seq<VisitView>) -> ListenerView {
        if self.store_files && !unreadable(walk) {
            ListenerView { files: self.files + stored_paths(walk), ..self }
        } else {
            self
        }
    }
}

/// What counting a scan returns: the number of files, unless the scan says
/// that the watched path could not be read or listed.
pub open spec fn counted(walk: Seq<VisitView>) -> Result<nat, ListenError> {
    if unreadable(walk) {
        Err(ListenError::PathUnreadable)
    } else {
        Ok(file_count(walk))
    }
}

/// Whether `res` is the machine form of `expected`.
pub open spec fn is_count(res: Result<usize, ListenError>, expected: Result<nat, ListenError>) -> bool {
    match res {
        Ok(n) => expected == Ok::<nat, ListenError>(n as nat),
        Err(e) => expected == Err::<nat, ListenError>(e),
    }
}

/// Whether some visit of the scan is a failure at the watched path itself.
pub fn blocks_listing(walk: &Vec<Visit>) -> (yes: bool)
    ensures
        yes == unreadable(walk.deep_view()),
{
    let ghost model = walk.deep_view();
    let mut i: usize = 0;
    while i < walk.len()
        invariant
            i <= walk.len(),
            model == walk.deep_view(),
            !unreadable(model.take(i as int)),
        decreases walk.len() - i,
    {
        proof {
            assert(model.take(i + 1) =~= model.take(i as int).push(model[i as int]));
            lemma_unreadable_push(model.take(i as int), model[i as int]);
        }
        match &walk[i] {
            Visit::Failed { depth } => {
                if *depth == 0 {
                    proof {
                        assert(model[i as int].blocks_listing());
                    }
                    return true;
                }
            },
            Visit::Entry { .. } => {},
        }
        i = i + 1;
    }
    proof {
        assert(model.take(i as int) =~= model);
    }
    false
}

impl Listener {
    /// A listener for any change, which stores nothing and polls for as long
    /// as a counter of polls can tell.
    pub fn new() -> (listener: Listener)
        ensures
            listener@ == (ListenerView {
                event: Event::OnFileChange,
                store_files: false,
                max_polls: u64::MAX as nat,
                files: Seq::empty(),
            }),
    {
        let listener = Listener {
            event: Event::OnFileChange,
            store_files: false,
            max_polls: u64::MAX,
            files: Vec::new(),
        };
        assert(listener@.files =~= Seq::empty());
        listener
    }

    /// Counts the files of one scan and, in a storing listener, appends their
    /// paths to `files`.
    ///
    /// Directories are not counted, and neither are children that could not
    /// be read. A scan that reports a failure at the watched path itself is
    /// rejected, and leaves the listener as it was.
    pub fn tally(&mut self, walk: &Vec<Visit>) -> (res: Result<usize, ListenError>)
        ensures
            is_count(res, counted(walk.deep_view())),
            final(self)@ == old(self)@.recording(walk.deep_view()),
    {
        if blocks_listing(walk) {
            return Err(ListenError::PathUnreadable);
        }
        let ghost model = walk.deep_view();
        let mut count: usize = 0;
        let mut i: usize = 0;
        while i < walk.len()
            invariant
                i <= walk.len(),
                model == walk.deep_view(),
                count == file_count(model.take(i as int)),
                count <= i,
                self.event == old(self).event,
                self.store_files == old(self).store_files,
                self.max_polls == old(self).max_polls,
                self@.files == old(self)@.files + if self.store_files {
                    stored_paths(model.take(i as int))
                } else {
                    Seq::empty()
                },
            decreases walk.len() - i,
        {
            proof {
                assert(model.take(i + 1) =~= model.take(i as int).push(model[i as int]));
                lemma_file_count_push(model.take(i as int), model[i as int]);
                lemma_stored_paths_push(model.take(i as int), model[i as int]);
            }
            match &walk[i] {
                Visit::Entry { is_dir, path, .. } => {
                    if !*is_dir {
                        count = count + 1;
                        if self.store_files {
                            match path {
                                Some(file) => {
                                    let ghost before = self@.files;
                                    self.files.push(file.clone());
                                    assert(self@.files =~= before.push(file@));
                                },
                                None => {},
                            }
                        }
                    }
                },
                Visit::Failed { .. } => {},
            }
            i = i + 1;
        }
        proof {
            assert(model.take(i as int) =~= model);
            assert(old(self)@.files + Seq::<Seq<char>>::empty() =~= old(self)@.files);
        }
        Ok(count)
    }

    /// Scans `path` and counts its files, as [`Listener::tally`] does for a
    /// scan that is given.
    ///
    /// What the scan finds is the disk's to decide: the contract says that the
    /// result and the listener are those of tallying some scan.
    pub fn count_directory_files(&mut self, path: &str) -> (res: Result<usize, ListenError>)
        ensures
            exists|walk: Seq<VisitView>|
                is_count(res, #[trigger] counted(walk)) && final(self)@ == old(self)@.recording(walk),
    {
        let walk = scan(path);
        self.tally(&walk)
    }
}

impl Default for Listener {
    fn default() -> (listener: Listener)
        ensures
            listener@ == (ListenerView {
                event: Event::OnFileChange,
                store_files: false,
                max_polls: u64::MAX as nat,
                files: Seq::empty(),
            }),
    {
        Listener::new()
    }
}

} // verus!
