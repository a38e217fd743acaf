use vstd::prelude::*;
use crate::error::ApiError;
use crate::path::{clone_path, lemma_segs_push, segs};

verus! {

/// The kind of a local filesystem entry, as observed at ingestion time.
#[derive(Clone, Copy, Debug, PartialEq, Eq, Structural)]
pub enum EntryKind {
    RegularFile,
    Directory,
    /// A symbolic link, whatever it points to.
    Symlink,
    /// A socket, a device, a pipe or another special file.
    Special,
    /// Nothing exists at the path.
    Missing,
}

/// Whether an entry can become part of a content-addressed tree.
pub open spec fn is_tree_kind(k: EntryKind) -> bool {
    k == EntryKind::RegularFile || k == EntryKind::Directory
}

/// One entry of a local directory listing.
#[derive(Clone, Debug, PartialEq, Eq)]
pub struct DirEntry {
    pub name: String,
    pub kind: EntryKind,
    pub size: u64,
}

/// What the content-addressing builder is asked to do for an ingestion.
#[derive(Clone, Copy, Debug, PartialEq, Eq, Structural)]
pub enum AddRequest {
    /// Add a single file, wrapped in a synthetic directory when `wrap` is set.
    File { wrap: bool },
    /// Add a directory, its whole subtree when `recursive` is set, else its
    /// direct files only. A directory is its own root and is never wrapped.
    Directory { recursive: bool },
}

/// What ingesting an entry of kind `kind` asks of the builder. Wrapping
/// applies to a single file only: a directory request does not depend on
/// `no_wrap`. A symbolic link is a special file that is not supported; any
/// other entry that is neither a file nor a directory is invalid.
pub open spec fn add_spec(kind: EntryKind, recursive: bool, no_wrap: bool) -> Result<AddRequest, ApiError> {
    match kind {
        EntryKind::Directory => Ok(AddRequest::Directory { recursive }),
        EntryKind::RegularFile => Ok(AddRequest::File { wrap: !no_wrap }),
        EntryKind::Symlink => Err(ApiError::UnsupportedEntryKind),
        EntryKind::Special => Err(ApiError::InvalidEntryKind),
        EntryKind::Missing => Err(ApiError::InvalidEntryKind),
    }
}

/// Decides how the entry at the ingestion path is handed to the builder: a
/// directory with the walk's depth, a file on its own, wrapped in a
/// synthetic directory unless `no_wrap` is set; a symbolic link, a special
/// file or a missing entry is refused before any content addressing starts.
pub fn add(kind: EntryKind, recursive: bool, no_wrap: bool) -> (r: Result<AddRequest, ApiError>)
    ensures
        r == add_spec(kind, recursive, no_wrap),
{
    match kind {
        EntryKind::Directory => Ok(AddRequest::Directory { recursive }),
        EntryKind::RegularFile => Ok(AddRequest::File { wrap: !no_wrap }),
        EntryKind::Symlink => Err(ApiError::UnsupportedEntryKind),
        EntryKind::Special => Err(ApiError::InvalidEntryKind),
        EntryKind::Missing => Err(ApiError::InvalidEntryKind),
    }
}

/// What an ingestion walk does with one entry of a directory.
#[derive(Clone, Debug, PartialEq, Eq)]
pub enum IngestStep {
    /// Content-address this file, of this many bytes.
    AddFile { name: String, size: u64 },
    /// Walk into this sub-directory.
    Descend { name: String },
}

/// The mathematical form of an ingestion step.
pub enum IngestStepView {
    AddFile(Seq<char>, u64),
    Descend(Seq<char>),
}

/// The mathematical form of an ingestion step.
pub open spec fn step_view(s: IngestStep) -> IngestStepView {
    match s {
        IngestStep::AddFile { name, size } => IngestStepView::AddFile(name@, size),
        IngestStep::Descend { name } => IngestStepView::Descend(name@),
    }
}

/// The mathematical form of a sequence of ingestion steps.
pub open spec fn steps_view(v: Seq<IngestStep>) -> Seq<IngestStepView> {
    v.map_values(|s: IngestStep| step_view(s))
}

/// The steps for a listing of files and directories only, in its
/// order: every file is added; a sub-directory is walked into when the walk
/// is recursive and skipped otherwise.
pub open spec fn kept_steps(e: Seq<DirEntry>, recursive: bool) -> Seq<IngestStepView>
    decreases e.len(),
{
    if e.len() == 0 {
        seq![]
    } else {
        let r = kept_steps(e.drop_last(), recursive);
        let d = e.last();
        match d.kind {
            EntryKind::RegularFile => r.push(IngestStepView::AddFile(d.name@, d.size)),
            EntryKind::Directory => if recursive {
                r.push(IngestStepView::Descend(d.name@))
            } else {
                r
            },
            _ => r,
        }
    }
}

/// What walking a listing does: an entry anywhere that is neither a file nor
/// a directory (a symbolic link, a special file) fails the whole ingestion
/// as unsupported; otherwise the kept steps.
pub open spec fn ingest_steps(e: Seq<DirEntry>, recursive: bool) -> Result<Seq<IngestStepView>, ApiError> {
    if exists|i: int| 0 <= i < e.len() && !is_tree_kind((#[trigger] e[i]).kind) {
        Err(ApiError::UnsupportedEntryKind)
    } else {
        Ok(kept_steps(e, recursive))
    }
}

/// Decides, entry by entry, what walking a directory listing does.
pub fn plan_dir_entries(entries: &Vec<DirEntry>, recursive: bool) -> (r: Result<Vec<IngestStep>, ApiError>)
    ensures
        match (r, ingest_steps(entries@, recursive)) {
            (Ok(a), Ok(b)) => steps_view(a@) == b,
            (Err(x), Err(y)) => x == y,
            _ => false,
        },
{
    let mut out: Vec<IngestStep> = Vec::new();
    let mut i: usize = 0;
    proof {
        assert(steps_view(out@) =~= seq![]);
    }
    while i < entries.len()
        invariant
            0 <= i <= entries@.len(),
            forall|j: int| 0 <= j < i ==> is_tree_kind((#[trigger] entries@[j]).kind),
            kept_steps(entries@.subrange(0, i as int), recursive) == steps_view(out@),
        decreases entries@.len() - i,
    {
        let d = &entries[i];
        let ghost pre = entries@.subrange(0, i as int);
        let ghost cur = entries@.subrange(0, i + 1);
        assert(cur.drop_last() =~= pre);
        let ghost prev = out@;
        match d.kind {
            EntryKind::RegularFile => {
                out.push(IngestStep::AddFile { name: d.name.clone(), size: d.size });
                proof {
                    assert(steps_view(out@) =~= steps_view(prev).push(step_view(out@.last())));
                }
            },
            EntryKind::Directory => {
                if recursive {
                    out.push(IngestStep::Descend { name: d.name.clone() });
                    proof {
                        assert(steps_view(out@) =~= steps_view(prev).push(step_view(out@.last())));
                    }
                }
            },
            _ => {
                proof {
                    assert(!is_tree_kind(entries@[i as int].kind));
                }
                return Err(ApiError::UnsupportedEntryKind);
            },
        }
        i = i + 1;
    }
    proof {
        assert(entries@.subrange(0, entries@.len() as int) =~= entries@);
    }
    Ok(out)
}

/// A file found at an ingestion path, with its size in bytes; or a directory.
#[derive(Clone, Debug, PartialEq, Eq)]
pub enum FileInfo {
    File(Vec<String>, u64),
    Dir(Vec<String>),
}

/// A found entry as its path and, for a file, its size.
pub open spec fn file_info_view(f: FileInfo) -> (Seq<Seq<char>>, Option<u64>) {
    match f {
        FileInfo::File(p, n) => (segs(p@), Some(n)),
        FileInfo::Dir(p) => (segs(p@), None),
    }
}

/// The mathematical form of a sequence of found entries.
pub open spec fn file_infos_view(v: Seq<FileInfo>) -> Seq<(Seq<Seq<char>>, Option<u64>)> {
    v.map_values(|f: FileInfo| file_info_view(f))
}

/// The regular files of a listing of directory `dir`, in listing order.
pub open spec fn listed_files(dir: Seq<Seq<char>>, e: Seq<DirEntry>) -> Seq<(Seq<Seq<char>>, Option<u64>)>
    decreases e.len(),
{
    if e.len() == 0 {
        seq![]
    } else {
        let r = listed_files(dir, e.drop_last());
        if e.last().kind == EntryKind::RegularFile {
            r.push((dir.push(e.last().name@), Some(e.last().size)))
        } else {
            r
        }
    }
}

/// The files that a non-recursive ingestion of `path` sees: the path itself
/// with its byte length `size` when it is a file; its direct regular files with
/// their sizes when it is a directory listed as `entries`, sub-directories
/// and other entries skipped; an unsupported-entry error when `path` itself
/// is a symbolic link, a special file or missing.
pub fn get_file_info(path: &Vec<String>, kind: EntryKind, size: u64, entries: &Vec<DirEntry>) -> (r: Result<Vec<FileInfo>, ApiError>)
    ensures
        kind == EntryKind::RegularFile ==> r is Ok
            && file_infos_view(r->Ok_0@) == seq![(segs(path@), Some(size))],
        kind == EntryKind::Directory ==> r is Ok
            && file_infos_view(r->Ok_0@) == listed_files(segs(path@), entries@),
        !is_tree_kind(kind) ==> r == Err::<Vec<FileInfo>, ApiError>(ApiError::UnsupportedEntryKind),
{
    match kind {
        EntryKind::RegularFile => {
            let mut v: Vec<FileInfo> = Vec::new();
            v.push(FileInfo::File(clone_path(path), size));
            proof {
                assert(file_infos_view(v@) =~= seq![(segs(path@), Some(size))]);
            }
            Ok(v)
        },
        EntryKind::Directory => {
            let mut v: Vec<FileInfo> = Vec::new();
            let mut i: usize = 0;
            proof {
                assert(file_infos_view(v@) =~= seq![]);
            }
            while i < entries.len()
                invariant
                    0 <= i <= entries@.len(),
                    file_infos_view(v@) == listed_files(segs(path@), entries@.subrange(0, i as int)),
                decreases entries@.len() - i,
            {
                let d = &entries[i];
                let ghost cur = entries@.subrange(0, i + 1);
                assert(cur.drop_last() =~= entries@.subrange(0, i as int));
                if d.kind == EntryKind::RegularFile {
                    let ghost prev = v@;
                    let mut p = clone_path(path);
                    let ghost pp = p@;
                    p.push(d.name.clone());
                    proof {
                        lemma_segs_push(pp, d.name);
                    }
                    v.push(FileInfo::File(p, d.size));
                    proof {
                        assert(file_infos_view(v@) =~= file_infos_view(prev).push(file_info_view(v@.last())));
                    }
                }
                i = i + 1;
            }
            proof {
                assert(entries@.subrange(0, entries@.len() as int) =~= entries@);
            }
            Ok(v)
        },
        _ => Err(ApiError::UnsupportedEntryKind),
    }
}

} // verus!
