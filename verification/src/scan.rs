use vstd::prelude::*;
use walkdir::WalkDir;

verus! {

/// One item of a directory scan, as plain data.
#[derive(Debug, PartialEq, Eq)]
pub enum Visit {
    /// Something that was found: the watched path itself or one of its
    /// children.
    Entry {
        /// How far below the watched path it lies: 0 for the path itself, 1
        /// for one of its children.
        depth: usize,
        /// Whether it is a directory, or a link to one.
        is_dir: bool,
        /// Its path, where the path is valid Unicode.
        path: Option<String>,
    },
    /// A read that failed.
    Failed {
        /// How far below the watched path the failure lies: 0 when the path
        /// itself could not be read or listed, 1 for one of its children.
        depth: usize,
    },
}

/// The mathematical value of a [`Visit`].
pub enum VisitView {
    Entry { depth: nat, is_dir: bool, path: Option<Seq<char>> },
    Failed { depth: nat },
}

impl View for Visit {
    type V = VisitView;

    open spec fn view(&self) -> VisitView {
        match self {
            Visit::Entry { depth, is_dir, path } => VisitView::Entry {
                depth: *depth as nat,
                is_dir: *is_dir,
                path: match path {
                    Some(text) => Some(text@),
                    None => None,
                },
            },
            Visit::Failed { depth } => VisitView::Failed { depth: *depth as nat },
        }
    }
}

impl Clone for Visit {
    fn clone(&self) -> (copy: Visit)
        ensures
            copy@ == self@,
    {
        match self {
            Visit::Entry { depth, is_dir, path } => Visit::Entry {
                depth: *depth,
                is_dir: *is_dir,
                path: match path {
                    Some(text) => Some(text.clone()),
                    None => None,
                },
            },
            Visit::Failed { depth } => Visit::Failed { depth: *depth },
        }
    }
}

impl DeepView for Visit {
    type V = VisitView;

    open spec fn deep_view(&self) -> VisitView {
        self@
    }
}

impl VisitView {
    /// How far below the watched path the visit lies.
    pub open spec fn depth(self) -> nat {
        match self {
            VisitView::Entry { depth, .. } => depth,
            VisitView::Failed { depth } => depth,
        }
    }

    /// An entry that is not a directory: what a scan counts.
    pub open spec fn is_file(self) -> bool {
        self matches VisitView::Entry { is_dir, .. } && !is_dir
    }

    /// A failure to read or list the watched path itself.
    pub open spec fn blocks_listing(self) -> bool {
        self matches VisitView::Failed { depth } && depth == 0
    }

    /// The path that a storing listener keeps for this visit, if any.
    pub open spec fn stored(self) -> Option<Seq<char>> {
        match self {
            VisitView::Entry { is_dir, path, .. } => if is_dir {
                None
            } else {
                path
            },
            VisitView::Failed { .. } => None,
        }
    }
}

/// The number of files that a scan lists.
pub open spec fn file_count(walk: Seq<VisitView>) -> nat {
    walk.filter(|v: VisitView| v.is_file()).len()
}

/// The paths of the files that a scan lists, in the order of the scan.
pub open spec fn stored_paths(walk: Seq<VisitView>) -> Seq<Seq<char>> {
    walk.filter_map(|v: VisitView| v.stored())
}

/// Whether the scan says that the watched path could not be read or listed.
pub open spec fn unreadable(walk: Seq<VisitView>) -> bool {
    exists|i: int| 0 <= i < walk.len() && (#[trigger] walk[i]).blocks_listing()
}

/// Whether a scan starts at the watched path and goes no deeper than `limit`
/// below it: there is a first visit, it is for the path itself, and no visit
/// lies deeper than `limit`.
pub open spec fn reaches(walk: Seq<VisitView>, limit: nat) -> bool {
    &&& walk.len() >= 1
    &&& walk[0].depth() == 0
    &&& forall|i: int| 0 <= i < walk.len() ==> (#[trigger] walk[i]).depth() <= limit
}

/// Counting one more visit adds one exactly when the visit is a file.
pub proof fn lemma_file_count_push(walk: Seq<VisitView>, v: VisitView)
    ensures
        file_count(walk.push(v)) == file_count(walk) + if v.is_file() {
            1nat
        } else {
            0nat
        },
{
    reveal(Seq::filter);
    assert(walk.push(v).drop_last() =~= walk);
}

/// Storing one more visit appends its path exactly when it has one to store.
pub proof fn lemma_stored_paths_push(walk: Seq<VisitView>, v: VisitView)
    ensures
        stored_paths(walk.push(v)) == match v.stored() {
            Some(path) => stored_paths(walk).push(path),
            None => stored_paths(walk),
        },
{
    assert(walk.push(v).drop_last() =~= walk);
    match v.stored() {
        Some(path) => {
            assert(stored_paths(walk) + seq![path] =~= stored_paths(walk).push(path));
        },
        None => {},
    }
}

/// A scan is unreadable with one more visit exactly when it was before or the
/// visit is a failure at the watched path.
pub proof fn lemma_unreadable_push(walk: Seq<VisitView>, v: VisitView)
    ensures
        unreadable(walk.push(v)) == (unreadable(walk) || v.blocks_listing()),
{
    let longer = walk.push(v);
    if unreadable(walk) {
        let i = choose|i: int| 0 <= i < walk.len() && (#[trigger] walk[i]).blocks_listing();
        assert(longer[i].blocks_listing());
    }
    if v.blocks_listing() {
        assert(longer[walk.len() as int].blocks_listing());
    }
    if unreadable(longer) {
        let i = choose|i: int| 0 <= i < longer.len() && (#[trigger] longer[i]).blocks_listing();
        if i < walk.len() {
            assert(walk[i].blocks_listing());
        }
    }
}

/// `walkdir::DirEntry`, what a walk yields for something it found. Its
/// contents are hidden: it is only handed on to the functions below.
#[verifier::external_type_specification]
#[verifier::external_body]
pub struct ExDirEntry(walkdir::DirEntry);

/// `walkdir::Error`, what a walk yields for a read that failed. Its contents
/// are hidden: only its depth is asked for.
#[verifier::external_type_specification]
#[verifier::external_body]
pub struct ExWalkError(walkdir::Error);

/// Runs `walkdir::WalkDir::new(path).max_depth(max_depth)` to its end and
/// hands back every item it yielded, in order, each with the depth that
/// `walkdir::DirEntry::depth` or `walkdir::Error::depth` gives for it.
///
/// What is found depends on the disk. Claimed is what the walk does whatever
/// it finds: it yields the path itself first, as an entry or as an error of
/// depth 0, and it yields nothing that lies deeper than `max_depth`.
#[verifier::external_body]
fn walk_dir(path: &str, max_depth: usize) -> (items: Vec<
    (usize, Result<walkdir::DirEntry, walkdir::Error>),
>)
    ensures
        items@.len() >= 1,
        items@[0].0 == 0,
        forall|i: int| 0 <= i < items@.len() ==> (#[trigger] items@[i]).0 <= max_depth,
{
    WalkDir::new(path).max_depth(max_depth).into_iter().map(
        |item| match item {
            Ok(entry) => (entry.depth(), Ok(entry)),
            Err(error) => (error.depth(), Err(error)),
        },
    ).collect()
}

/// `std::path::Path::is_dir` on `walkdir::DirEntry::path`: whether the entry's
/// path is, at this moment, a directory. The answer depends on the disk, so
/// nothing is claimed of it.
#[verifier::external_body]
fn entry_is_dir(entry: &walkdir::DirEntry) -> (yes: bool) {
    entry.path().is_dir()
}

/// `std::path::Path::to_str` on `walkdir::DirEntry::path`, copied into a
/// `String`: the entry's path where it is valid Unicode. Nothing is claimed of
/// the text.
#[verifier::external_body]
fn entry_path(entry: &walkdir::DirEntry) -> (text: Option<String>) {
    entry.path().to_str().map(String::from)
}

/// Scans `path` and its immediate children, never anything below them.
///
/// The first visit is for `path` itself, the others for its children in the
/// order in which the filesystem lists them. What the visits hold is the
/// disk's to decide; how deep they lie is not.
pub fn scan(path: &str) -> (visits: Vec<Visit>)
    ensures
        reaches(visits.deep_view(), 1),
{
    let items = walk_dir(path, 1);
    let mut visits: Vec<Visit> = Vec::new();
    let mut i: usize = 0;
    while i < items.len()
        invariant
            i <= items.len(),
            visits@.len() == i,
            forall|j: int| 0 <= j < i ==> (#[trigger] visits@[j])@.depth() == items@[j].0,
        decreases items.len() - i,
    {
        let item = &items[i];
        let depth = item.0;
        let visit = match &item.1 {
            Ok(entry) => Visit::Entry { depth, is_dir: entry_is_dir(entry), path: entry_path(entry) },
            Err(_) => Visit::Failed { depth },
        };
        visits.push(visit);
        i = i + 1;
    }
    proof {
        let model = visits.deep_view();
        assert forall|j: int| 0 <= j < model.len() implies (#[trigger] model[j]).depth() <= 1 by {
            assert(model[j] == visits@[j]@);
            assert(items@[j].0 <= 1);
        }
        assert(model[0] == visits@[0]@);
    }
    visits
}

} // verus!
