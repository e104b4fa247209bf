//! The tree resolver: expands a root directory message into a flat sandbox
//! layout by dereferencing child digests through the content store.

use vstd::prelude::*;
use crate::cas::ContentAddressableStorage;
use crate::digest::DigestView;
use crate::execution::{Entry, EntryView, ExecuteError};
use crate::wire::{DirectoryMsg, DirectoryView, DirectoryNodeView, FileNodeView, SymlinkNodeView,
    dec_directory, decode_directory};

verus! {

/// A path segment appended under a parent path, with `/` as separator; the
/// empty parent is the sandbox root itself.
pub open spec fn join_path(root: Seq<char>, name: Seq<char>) -> Seq<char> {
    if root.len() == 0 {
        name
    } else {
        root + seq!['/'] + name
    }
}

pub fn join_path_exec(root: &str, name: &str) -> (r: String)
    ensures
        r@ == join_path(root@, name@),
{
    if root.unicode_len() == 0 {
        String::from_str(name)
    } else {
        proof {
            reveal_strlit("/");
        }
        let mut s = String::from_str(root);
        s.append("/");
        s.append(name);
        proof {
            assert(s@ =~= join_path(root@, name@));
        }
        s
    }
}

/// Why resolution stopped.
pub ghost enum ResolveErr {
    /// A file or directory node carried no digest.
    MissingDigest,
    /// The blob for this digest is absent from the store.
    Blob(DigestView),
    /// The blob under this digest is not a directory message.
    BadProto(DigestView),
    /// The recursion cap was reached.
    Depth,
}

/// File entries of one directory level, from index `i` on.
pub open spec fn file_entries(
    files: Seq<FileNodeView>,
    root: Seq<char>,
    i: int,
) -> Result<Seq<EntryView>, ResolveErr>
    decreases files.len() - i
        when 0 <= i <= files.len()
{
    if i >= files.len() {
        Ok(Seq::empty())
    } else {
        match files[i].digest {
            None => Err(ResolveErr::MissingDigest),
            Some(d) => match file_entries(files, root, i + 1) {
                Err(e) => Err(e),
                Ok(rest) => Ok(
                    seq![
                        EntryView::File {
                            path: join_path(root, files[i].name),
                            digest: d,
                            executable: files[i].is_executable,
                        },
                    ] + rest,
                ),
            },
        }
    }
}

/// Symlink entries of one directory level, from index `i` on.
pub open spec fn symlink_entries(links: Seq<SymlinkNodeView>, root: Seq<char>, i: int) -> Seq<
    EntryView,
>
    decreases links.len() - i
        when 0 <= i <= links.len()
{
    if i >= links.len() {
        Seq::empty()
    } else {
        seq![
            EntryView::Symlink {
                original: links[i].target,
                link: join_path(root, links[i].name),
            },
        ] + symlink_entries(links, root, i + 1)
    }
}

/// Entries reachable through the child directories, from index `i` on:
/// each child's message is fetched from the store by digest, decoded, and
/// expanded under its own path.
pub open spec fn dir_entries(
    cas: Map<DigestView, Seq<u8>>,
    dirs: Seq<DirectoryNodeView>,
    root: Seq<char>,
    fuel: int,
    i: int,
) -> Result<Seq<EntryView>, ResolveErr>
    decreases fuel, 0int, dirs.len() - i
        when 0 <= i <= dirs.len() && fuel >= 0
{
    if i >= dirs.len() {
        Ok(Seq::empty())
    } else {
        match dirs[i].digest {
            None => Err(ResolveErr::MissingDigest),
            Some(d) => if !cas.contains_key(d) {
                Err(ResolveErr::Blob(d))
            } else {
                match dec_directory(cas[d], 0, cas[d].len() as int) {
                    None => Err(ResolveErr::BadProto(d)),
                    Some(child) => if fuel == 0 {
                        Err(ResolveErr::Depth)
                    } else {
                        match spec_resolve(cas, child, join_path(root, dirs[i].name), fuel - 1) {
                            Err(e) => Err(e),
                            Ok(sub) => match dir_entries(cas, dirs, root, fuel, i + 1) {
                                Err(e) => Err(e),
                                Ok(rest) => Ok(sub + rest),
                            },
                        }
                    },
                }
            },
        }
    }
}

/// The flat layout a directory level denotes: its files, its symlinks, and
/// everything reachable through its child directories, all relative to
/// `root`.  A function of the store's contents and the directory alone.
pub open spec fn spec_resolve(
    cas: Map<DigestView, Seq<u8>>,
    dir: DirectoryView,
    root: Seq<char>,
    fuel: int,
) -> Result<Seq<EntryView>, ResolveErr>
    decreases fuel, 1int, 0int
        when fuel >= 0
{
    match file_entries(dir.files, root, 0) {
        Err(e) => Err(e),
        Ok(fs) => {
            let ls = symlink_entries(dir.symlinks, root, 0);
            match dir_entries(cas, dir.directories, root, fuel, 0) {
                Err(e) => Err(e),
                Ok(ds) => Ok(fs + ls + ds),
            }
        },
    }
}

/// Whether an execution error is the one a resolution error denotes.
pub open spec fn matches_resolve_err(e: ResolveErr, r: &ExecuteError) -> bool {
    match e {
        ResolveErr::MissingDigest => r matches ExecuteError::InvalidArgument(_),
        ResolveErr::Blob(d) => r matches ExecuteError::BlobNotFound(b) && b@ == d,
        ResolveErr::BadProto(_) => r matches ExecuteError::InvalidArgument(_),
        ResolveErr::Depth => r matches ExecuteError::Internal(_),
    }
}

fn resolve_files(files: &Vec<crate::wire::FileNode>, root: &str, i: usize) -> (r: Result<
    Vec<Entry>,
    ExecuteError,
>)
    requires
        i <= files@.len(),
    ensures
        ({
            let gfiles = files@.map_values(|f: crate::wire::FileNode| f@);
            match file_entries(gfiles, root@, i as int) {
                Ok(es) => r matches Ok(v) && v@.map_values(|e: Entry| e@) == es,
                Err(e) => r matches Err(x) && matches_resolve_err(e, &x),
            }
        }),
    decreases files@.len() - i,
{
    let ghost gfiles = files@.map_values(|f: crate::wire::FileNode| f@);
    if i >= files.len() {
        let empty: Vec<Entry> = Vec::new();
        proof {
            assert(empty@.map_values(|e: Entry| e@) =~= Seq::<EntryView>::empty());
        }
        return Ok(empty);
    }
    match &files[i].digest {
        None => Err(
            ExecuteError::InvalidArgument(String::from_str("no digest in file entry")),
        ),
        Some(d) => {
            match resolve_files(files, root, i + 1) {
                Err(e) => Err(e),
                Ok(rest) => {
                    let entry = Entry::File {
                        path: join_path_exec(root, files[i].name.as_str()),
                        digest: d.clone(),
                        executable: files[i].is_executable,
                    };
                    let mut out: Vec<Entry> = Vec::new();
                    out.push(entry);
                    let mut rest = rest;
                    out.append(&mut rest);
                    proof {
                        let es = file_entries(gfiles, root@, i as int)->Ok_0;
                        assert(out@.map_values(|e: Entry| e@) =~= es);
                    }
                    Ok(out)
                },
            }
        },
    }
}

fn resolve_symlinks(links: &Vec<crate::wire::SymlinkNode>, root: &str, i: usize) -> (r: Vec<Entry>)
    requires
        i <= links@.len(),
    ensures
        r@.map_values(|e: Entry| e@) == symlink_entries(
            links@.map_values(|l: crate::wire::SymlinkNode| l@),
            root@,
            i as int,
        ),
    decreases links@.len() - i,
{
    let ghost glinks = links@.map_values(|l: crate::wire::SymlinkNode| l@);
    if i >= links.len() {
        let empty: Vec<Entry> = Vec::new();
        proof {
            assert(empty@.map_values(|e: Entry| e@) =~= Seq::<EntryView>::empty());
        }
        return empty;
    }
    let entry = Entry::Symlink {
        original: links[i].target.clone(),
        link: join_path_exec(root, links[i].name.as_str()),
    };
    let mut rest = resolve_symlinks(links, root, i + 1);
    let mut out: Vec<Entry> = Vec::new();
    out.push(entry);
    out.append(&mut rest);
    proof {
        assert(out@.map_values(|e: Entry| e@) =~= symlink_entries(glinks, root@, i as int));
    }
    out
}

fn resolve_dirs<C: ContentAddressableStorage>(
    cas: &C,
    dirs: &Vec<crate::wire::DirectoryNode>,
    root: &str,
    fuel: usize,
    i: usize,
) -> (r: Result<Vec<Entry>, ExecuteError>)
    requires
        cas.wf(),
        i <= dirs@.len(),
    ensures
        ({
            let gdirs = dirs@.map_values(|d: crate::wire::DirectoryNode| d@);
            match dir_entries(cas.contents(), gdirs, root@, fuel as int, i as int) {
                Ok(es) => r matches Ok(v) && v@.map_values(|e: Entry| e@) == es,
                Err(e) => r matches Err(x) && matches_resolve_err(e, &x),
            }
        }),
    decreases fuel, 0int, dirs@.len() - i,
{
    let ghost gdirs = dirs@.map_values(|d: crate::wire::DirectoryNode| d@);
    if i >= dirs.len() {
        let empty: Vec<Entry> = Vec::new();
        proof {
            assert(empty@.map_values(|e: Entry| e@) =~= Seq::<EntryView>::empty());
        }
        return Ok(empty);
    }
    match &dirs[i].digest {
        None => Err(
            ExecuteError::InvalidArgument(String::from_str("no digest in directory node")),
        ),
        Some(d) => {
            match cas.read_blob(d.clone()) {
                Err(_) => Err(ExecuteError::BlobNotFound(d.clone())),
                Ok(blob) => {
                    match decode_directory(&blob) {
                        None => Err(
                            ExecuteError::InvalidArgument(
                                String::from_str("blob is not a directory message"),
                            ),
                        ),
                        Some(child) => {
                            if fuel == 0 {
                                Err(
                                    ExecuteError::Internal(
                                        String::from_str("directory recursion cap reached"),
                                    ),
                                )
                            } else {
                                let child_root = join_path_exec(root, dirs[i].name.as_str());
                                match resolve_directory(cas, &child, child_root.as_str(), fuel - 1) {
                                    Err(e) => Err(e),
                                    Ok(sub) => {
                                        match resolve_dirs(cas, dirs, root, fuel, i + 1) {
                                            Err(e) => Err(e),
                                            Ok(rest) => {
                                                let mut out = sub;
                                                let mut rest = rest;
                                                out.append(&mut rest);
                                                proof {
                                                    let es = dir_entries(
                                                        cas.contents(),
                                                        gdirs,
                                                        root@,
                                                        fuel as int,
                                                        i as int,
                                                    )->Ok_0;
                                                    assert(out@.map_values(|e: Entry| e@) =~= es);
                                                }
                                                Ok(out)
                                            },
                                        }
                                    },
                                }
                            }
                        },
                    }
                },
            }
        },
    }
}

/// Expands one directory level into the flat sandbox layout it denotes,
/// reading every referenced directory message from the store.  The result
/// is exactly `spec_resolve` of the store's contents: file and symlink
/// entries of this level, then everything below, with paths joined under
/// `root`.
pub fn resolve_directory<C: ContentAddressableStorage>(
    cas: &C,
    dir: &DirectoryMsg,
    root: &str,
    fuel: usize,
) -> (r: Result<Vec<Entry>, ExecuteError>)
    requires
        cas.wf(),
    ensures
        match spec_resolve(cas.contents(), dir@, root@, fuel as int) {
            Ok(es) => r matches Ok(v) && v@.map_values(|e: Entry| e@) == es,
            Err(e) => r matches Err(x) && matches_resolve_err(e, &x),
        },
    decreases fuel, 1int, 0int,
{
    match resolve_files(&dir.files, root, 0) {
        Err(e) => Err(e),
        Ok(fs) => {
            let ls = resolve_symlinks(&dir.symlinks, root, 0);
            match resolve_dirs(cas, &dir.directories, root, fuel, 0) {
                Err(e) => Err(e),
                Ok(ds) => {
                    let mut out = fs;
                    let mut ls = ls;
                    let mut ds = ds;
                    out.append(&mut ls);
                    out.append(&mut ds);
                    proof {
                        let es = spec_resolve(cas.contents(), dir@, root@, fuel as int)->Ok_0;
                        assert(out@.map_values(|e: Entry| e@) =~= es);
                    }
                    Ok(out)
                },
            }
        },
    }
}

/// Tree determinism: resolution is a function of the store's contents and
/// the root directory alone, so two actions with equal command and input
/// root digests applied to the same store lay out byte-identical sandboxes.
pub proof fn lemma_resolve_deterministic(
    cas1: Map<DigestView, Seq<u8>>,
    cas2: Map<DigestView, Seq<u8>>,
    dir1: DirectoryView,
    dir2: DirectoryView,
    root: Seq<char>,
    fuel: int,
)
    requires
        cas1 == cas2,
        dir1 == dir2,
    ensures
        spec_resolve(cas1, dir1, root, fuel) == spec_resolve(cas2, dir2, root, fuel),
{
}

} // verus!
