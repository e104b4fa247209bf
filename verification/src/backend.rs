//! The compute half of the reference execution backend: turning a resolved
//! layout into a concrete sandbox plan, and ingesting declared outputs back
//! into the content store as blobs, directory messages and trees.
//!
//! The filesystem and process work itself is done by the embedding program,
//! which materializes the plan under a fresh temporary directory, runs the
//! command there, and reports what it found at each declared output path.

use vstd::prelude::*;
use vstd::map::*;
use crate::cas::ContentAddressableStorage;
use crate::digest::DigestView;
use crate::error::CasError;
use crate::execution::{DirectoryLayout, Entry, EntryView, ExecuteError, LayoutView};
use crate::hashing::spec_digest_of;
use crate::wire::{DirectoryMsg, DirectoryNode, DirectoryNodeView, DirectoryView, FileNode,
    FileNodeView, TreeMsg, enc_directory, enc_tree, encode_directory, encode_tree};

verus! {

/// One step of materializing a sandbox, with paths relative to its root.
pub enum SandboxOp {
    /// Create this directory and any missing parents.
    MkDirAll(String),
    /// Create the missing parents of this path.
    MkDirParent(String),
    /// Create the parents of `path`, then write `contents` there; mark the
    /// file executable when asked.
    WriteFile { path: String, contents: Vec<u8>, executable: bool },
    /// Create the parents of `original`, then link `link` to it.
    Symlink { original: String, link: String },
}

pub ghost enum SandboxOpView {
    MkDirAll(Seq<char>),
    MkDirParent(Seq<char>),
    WriteFile { path: Seq<char>, contents: Seq<u8>, executable: bool },
    Symlink { original: Seq<char>, link: Seq<char> },
}

impl View for SandboxOp {
    type V = SandboxOpView;

    open spec fn view(&self) -> SandboxOpView {
        match self {
            SandboxOp::MkDirAll(p) => SandboxOpView::MkDirAll(p@),
            SandboxOp::MkDirParent(p) => SandboxOpView::MkDirParent(p@),
            SandboxOp::WriteFile { path, contents, executable } => SandboxOpView::WriteFile {
                path: path@,
                contents: contents@,
                executable: *executable,
            },
            SandboxOp::Symlink { original, link } => SandboxOpView::Symlink {
                original: original@,
                link: link@,
            },
        }
    }
}

/// The steps for the layout's entries from index `i` on: a directory op per
/// directory entry, a write with the stored bytes per file entry, a link op
/// per symlink entry.  Stops at the first file whose blob is absent.
pub open spec fn plan_entries(
    cas: Map<DigestView, Seq<u8>>,
    entries: Seq<EntryView>,
    i: int,
) -> Result<Seq<SandboxOpView>, DigestView>
    decreases entries.len() - i
        when 0 <= i <= entries.len()
{
    if i >= entries.len() {
        Ok(Seq::empty())
    } else {
        let op_or_err: Result<SandboxOpView, DigestView> = match entries[i] {
            EntryView::File { path, digest, executable } => if cas.contains_key(digest) {
                Ok(SandboxOpView::WriteFile { path, contents: cas[digest], executable })
            } else {
                Err(digest)
            },
            EntryView::Directory { path, digest: _ } => Ok(SandboxOpView::MkDirAll(path)),
            EntryView::Symlink { original, link } => Ok(
                SandboxOpView::Symlink { original, link },
            ),
        };
        match op_or_err {
            Err(d) => Err(d),
            Ok(op) => match plan_entries(cas, entries, i + 1) {
                Err(d) => Err(d),
                Ok(rest) => Ok(seq![op] + rest),
            },
        }
    }
}

/// A parent-creation step per declared output path, from index `i` on:
/// leading directories exist before the command runs even when they are not
/// part of the input tree.
pub open spec fn plan_outputs(paths: Seq<Seq<char>>, i: int) -> Seq<SandboxOpView>
    decreases paths.len() - i
        when 0 <= i <= paths.len()
{
    if i >= paths.len() {
        Seq::empty()
    } else {
        seq![SandboxOpView::MkDirParent(paths[i])] + plan_outputs(paths, i + 1)
    }
}

/// The whole sandbox plan a layout denotes under a store: entry steps in
/// layout order, then output-parent steps.
pub open spec fn spec_sandbox_plan(
    cas: Map<DigestView, Seq<u8>>,
    layout: LayoutView,
) -> Result<Seq<SandboxOpView>, DigestView> {
    match plan_entries(cas, layout.entries, 0) {
        Err(d) => Err(d),
        Ok(ops) => Ok(ops + plan_outputs(layout.output_paths, 0)),
    }
}

fn plan_entries_exec<C: ContentAddressableStorage>(
    cas: &C,
    entries: &Vec<Entry>,
    i: usize,
) -> (r: Result<Vec<SandboxOp>, ExecuteError>)
    requires
        cas.wf(),
        i <= entries@.len(),
    ensures
        ({
            let ge = entries@.map_values(|e: Entry| e@);
            match plan_entries(cas.contents(), ge, i as int) {
                Ok(ops) => r matches Ok(v) && v@.map_values(|o: SandboxOp| o@) == ops,
                Err(d) => r matches Err(x) && (x matches ExecuteError::CasError(c) && (
                c matches CasError::BlobNotFound(b) && b@ == d)),
            }
        }),
    decreases entries@.len() - i,
{
    let ghost ge = entries@.map_values(|e: Entry| e@);
    if i >= entries.len() {
        let empty: Vec<SandboxOp> = Vec::new();
        proof {
            assert(empty@.map_values(|o: SandboxOp| o@) =~= Seq::<SandboxOpView>::empty());
        }
        return Ok(empty);
    }
    let op: SandboxOp = match &entries[i] {
        Entry::File { path, digest, executable } => {
            match cas.read_blob(digest.clone()) {
                Err(_) => {
                    return Err(
                        ExecuteError::CasError(CasError::BlobNotFound(digest.clone())),
                    );
                },
                Ok(contents) => SandboxOp::WriteFile {
                    path: path.clone(),
                    contents,
                    executable: *executable,
                },
            }
        },
        Entry::Directory { path, digest: _ } => SandboxOp::MkDirAll(path.clone()),
        Entry::Symlink { original, link } => SandboxOp::Symlink {
            original: original.clone(),
            link: link.clone(),
        },
    };
    match plan_entries_exec(cas, entries, i + 1) {
        Err(e) => Err(e),
        Ok(rest) => {
            let mut out: Vec<SandboxOp> = Vec::new();
            out.push(op);
            let mut rest = rest;
            out.append(&mut rest);
            proof {
                let ops = plan_entries(cas.contents(), ge, i as int)->Ok_0;
                assert(out@.map_values(|o: SandboxOp| o@) =~= ops);
            }
            Ok(out)
        },
    }
}

fn plan_outputs_exec(paths: &Vec<String>, i: usize) -> (r: Vec<SandboxOp>)
    requires
        i <= paths@.len(),
    ensures
        r@.map_values(|o: SandboxOp| o@) == plan_outputs(
            paths@.map_values(|s: String| s@),
            i as int,
        ),
    decreases paths@.len() - i,
{
    let ghost gp = paths@.map_values(|s: String| s@);
    if i >= paths.len() {
        let empty: Vec<SandboxOp> = Vec::new();
        proof {
            assert(empty@.map_values(|o: SandboxOp| o@) =~= Seq::<SandboxOpView>::empty());
        }
        return empty;
    }
    let op = SandboxOp::MkDirParent(paths[i].clone());
    let mut rest = plan_outputs_exec(paths, i + 1);
    let mut out: Vec<SandboxOp> = Vec::new();
    out.push(op);
    out.append(&mut rest);
    proof {
        assert(out@.map_values(|o: SandboxOp| o@) =~= plan_outputs(gp, i as int));
    }
    out
}

/// Computes the sandbox plan for a resolved layout: what to create, write
/// and link, in order, with every file's bytes read from the store.
pub fn sandbox_plan<C: ContentAddressableStorage>(cas: &C, layout: &DirectoryLayout) -> (r: Result<
    Vec<SandboxOp>,
    ExecuteError,
>)
    requires
        cas.wf(),
    ensures
        match spec_sandbox_plan(cas.contents(), layout@) {
            Ok(ops) => r matches Ok(v) && v@.map_values(|o: SandboxOp| o@) == ops,
            Err(d) => r matches Err(x) && (x matches ExecuteError::CasError(c) && (
            c matches CasError::BlobNotFound(b) && b@ == d)),
        },
{
    match plan_entries_exec(cas, &layout.entries, 0) {
        Err(e) => Err(e),
        Ok(ops) => {
            let mut out = ops;
            let mut tail = plan_outputs_exec(&layout.output_paths, 0);
            out.append(&mut tail);
            proof {
                let full = spec_sandbox_plan(cas.contents(), layout@)->Ok_0;
                assert(out@.map_values(|o: SandboxOp| o@) =~= full);
            }
            Ok(out)
        },
    }
}

/// A directory found at a declared output path after the command ran, as
/// the embedding program walked it: files with their bytes, and child
/// directories, one level per node.
pub struct OutDir {
    pub files: Vec<(String, Vec<u8>)>,
    pub dirs: Vec<(String, OutDir)>,
}

/// What was found at one declared output path.
pub enum FoundOutput {
    /// Nothing: the path is omitted from the results.
    Missing,
    /// A regular file with these bytes.
    File(Vec<u8>),
    /// A directory tree.
    Dir(OutDir),
    /// A symbolic link to this target.
    SymlinkTo(String),
}

pub ghost struct IngestFilesOut {
    pub cas: Map<DigestView, Seq<u8>>,
    pub nodes: Seq<FileNodeView>,
}

pub ghost struct IngestNodesOut {
    pub cas: Map<DigestView, Seq<u8>>,
    pub nodes: Seq<DirectoryNodeView>,
    pub children: Seq<DirectoryView>,
}

pub ghost struct IngestDirOut {
    pub cas: Map<DigestView, Seq<u8>>,
    pub dir: DirectoryView,
    pub children: Seq<DirectoryView>,
}

/// Uploading the files of one found directory level, from index `i` on:
/// each file's bytes enter the store under their content digest and become
/// a file node.  Nothing is produced when a blob cannot be represented.
pub open spec fn spec_ingest_files(
    cas: Map<DigestView, Seq<u8>>,
    files: Seq<(String, Vec<u8>)>,
    i: int,
) -> Option<IngestFilesOut>
    decreases files.len() - i
        when 0 <= i <= files.len()
{
    if i >= files.len() {
        Some(IngestFilesOut { cas, nodes: Seq::empty() })
    } else {
        let p = files[i];
        if p.1@.len() > i64::MAX as int {
            None
        } else {
            let d = spec_digest_of(p.1@);
            match spec_ingest_files(cas.insert(d, p.1@), files, i + 1) {
                None => None,
                Some(o) => Some(
                    IngestFilesOut {
                        cas: o.cas,
                        nodes: seq![
                            FileNodeView { name: p.0@, digest: Some(d), is_executable: false },
                        ] + o.nodes,
                    },
                ),
            }
        }
    }
}

/// Uploading one found directory tree: files of this level, then each child
/// tree, whose own message enters the store by digest; the level's message
/// lists them all.  `children` collects every descendant level, descendants
/// of a child before the child itself.
pub open spec fn spec_ingest_dir(cas: Map<DigestView, Seq<u8>>, d: OutDir) -> Option<IngestDirOut>
    decreases d, 1int, 0int,
{
    match spec_ingest_files(cas, d.files@, 0) {
        None => None,
        Some(f) => match spec_ingest_nodes(f.cas, d.dirs@, 0) {
            None => None,
            Some(n) => Some(
                IngestDirOut {
                    cas: n.cas,
                    dir: DirectoryView {
                        files: f.nodes,
                        directories: n.nodes,
                        symlinks: Seq::empty(),
                    },
                    children: n.children,
                },
            ),
        },
    }
}

/// Uploading the child directories of a level, from index `i` on.
pub open spec fn spec_ingest_nodes(
    cas: Map<DigestView, Seq<u8>>,
    dirs: Seq<(String, OutDir)>,
    i: int,
) -> Option<IngestNodesOut>
    decreases dirs, 0int, dirs.len() - i
        when 0 <= i <= dirs.len()
{
    if i >= dirs.len() {
        Some(IngestNodesOut { cas, nodes: Seq::empty(), children: Seq::empty() })
    } else {
        let p = dirs[i];
        match spec_ingest_dir(cas, p.1) {
            None => None,
            Some(sub) => {
                let e = enc_directory(sub.dir);
                if e.len() > i64::MAX as int {
                    None
                } else {
                    let dd = spec_digest_of(e);
                    match spec_ingest_nodes(sub.cas.insert(dd, e), dirs, i + 1) {
                        None => None,
                        Some(rest) => Some(
                            IngestNodesOut {
                                cas: rest.cas,
                                nodes: seq![DirectoryNodeView { name: p.0@, digest: Some(dd) }]
                                    + rest.nodes,
                                children: sub.children + seq![sub.dir] + rest.children,
                            },
                        ),
                    }
                }
            },
        }
    }
}

fn ingest_files<C: ContentAddressableStorage>(
    cas: &mut C,
    files: &Vec<(String, Vec<u8>)>,
    i: usize,
) -> (r: Result<Vec<FileNode>, ExecuteError>)
    requires
        old(cas).wf(),
        i <= files@.len(),
    ensures
        final(cas).wf(),
        match spec_ingest_files(old(cas).contents(), files@, i as int) {
            Some(o) => r matches Ok(v) && final(cas).contents() == o.cas && v@.map_values(
                |f: FileNode| f@,
            ) == o.nodes,
            None => r is Err,
        },
    decreases files@.len() - i,
{
    if i >= files.len() {
        let empty: Vec<FileNode> = Vec::new();
        proof {
            assert(empty@.map_values(|f: FileNode| f@) =~= Seq::<FileNodeView>::empty());
        }
        return Ok(empty);
    }
    if files[i].1.len() as u64 > i64::MAX as u64 {
        return Err(ExecuteError::Internal(String::from_str("blob too large")));
    }
    match cas.write_blob(files[i].1.as_slice(), None) {
        Err(_) => Err(ExecuteError::Internal(String::from_str("store rejected a blob"))),
        Ok(d) => {
            match ingest_files(cas, files, i + 1) {
                Err(e) => Err(e),
                Ok(rest) => {
                    let node = FileNode {
                        name: files[i].0.clone(),
                        digest: Some(d),
                        is_executable: false,
                    };
                    let mut out: Vec<FileNode> = Vec::new();
                    out.push(node);
                    let mut rest = rest;
                    out.append(&mut rest);
                    proof {
                        let o = spec_ingest_files(old(cas).contents(), files@, i as int)->Some_0;
                        assert(out@.map_values(|f: FileNode| f@) =~= o.nodes);
                    }
                    Ok(out)
                },
            }
        },
    }
}

fn ingest_nodes<C: ContentAddressableStorage>(
    cas: &mut C,
    dirs: &Vec<(String, OutDir)>,
    i: usize,
) -> (r: Result<(Vec<DirectoryNode>, Vec<DirectoryMsg>), ExecuteError>)
    requires
        old(cas).wf(),
        i <= dirs@.len(),
    ensures
        final(cas).wf(),
        match spec_ingest_nodes(old(cas).contents(), dirs@, i as int) {
            Some(o) => r matches Ok(v) && final(cas).contents() == o.cas && v.0@.map_values(
                |n: DirectoryNode| n@,
            ) == o.nodes && v.1@.map_values(|m: DirectoryMsg| m@) == o.children,
            None => r is Err,
        },
    decreases dirs@, 0int, dirs@.len() - i,
{
    if i >= dirs.len() {
        let empty: (Vec<DirectoryNode>, Vec<DirectoryMsg>) = (Vec::new(), Vec::new());
        proof {
            assert(empty.0@.map_values(|n: DirectoryNode| n@) =~= Seq::<
                DirectoryNodeView,
            >::empty());
            assert(empty.1@.map_values(|m: DirectoryMsg| m@) =~= Seq::<DirectoryView>::empty());
        }
        return Ok(empty);
    }
    match ingest_out_dir(cas, &dirs[i].1) {
        Err(e) => Err(e),
        Ok((sub_msg, sub_children)) => {
            let encoded = encode_directory(&sub_msg);
            if encoded.len() as u64 > i64::MAX as u64 {
                return Err(
                    ExecuteError::Internal(String::from_str("directory message too large")),
                );
            }
            match cas.write_blob(encoded.as_slice(), None) {
                Err(_) => Err(
                    ExecuteError::Internal(String::from_str("store rejected a blob")),
                ),
                Ok(dd) => {
                    match ingest_nodes(cas, dirs, i + 1) {
                        Err(e) => Err(e),
                        Ok((rest_nodes, rest_children)) => {
                            let node = DirectoryNode { name: dirs[i].0.clone(), digest: Some(dd) };
                            let mut nodes: Vec<DirectoryNode> = Vec::new();
                            nodes.push(node);
                            let mut rest_nodes = rest_nodes;
                            nodes.append(&mut rest_nodes);
                            let mut children = sub_children;
                            children.push(sub_msg);
                            let mut rest_children = rest_children;
                            children.append(&mut rest_children);
                            proof {
                                let o = spec_ingest_nodes(
                                    old(cas).contents(),
                                    dirs@,
                                    i as int,
                                )->Some_0;
                                assert(nodes@.map_values(|n: DirectoryNode| n@) =~= o.nodes);
                                assert(children@.map_values(|m: DirectoryMsg| m@) =~= o.children);
                            }
                            Ok((nodes, children))
                        },
                    }
                },
            }
        },
    }
}

/// Uploads one found output directory tree into the store: every file's
/// bytes and every level's message, each under its content digest.  Returns
/// the level's own message and the list of every descendant level.
pub fn ingest_out_dir<C: ContentAddressableStorage>(cas: &mut C, d: &OutDir) -> (r: Result<
    (DirectoryMsg, Vec<DirectoryMsg>),
    ExecuteError,
>)
    requires
        old(cas).wf(),
    ensures
        final(cas).wf(),
        match spec_ingest_dir(old(cas).contents(), *d) {
            Some(o) => r matches Ok(v) && final(cas).contents() == o.cas && v.0@ == o.dir
                && v.1@.map_values(|m: DirectoryMsg| m@) == o.children,
            None => r is Err,
        },
    decreases *d, 1int, 0int,
{
    match ingest_files(cas, &d.files, 0) {
        Err(e) => Err(e),
        Ok(file_nodes) => {
            match ingest_nodes(cas, &d.dirs, 0) {
                Err(e) => Err(e),
                Ok((dir_nodes, children)) => {
                    let msg = DirectoryMsg {
                        files: file_nodes,
                        directories: dir_nodes,
                        symlinks: Vec::new(),
                    };
                    proof {
                        let o = spec_ingest_dir(old(cas).contents(), *d)->Some_0;
                        assert(msg@.symlinks =~= o.dir.symlinks);
                        assert(msg@ == o.dir);
                    }
                    Ok((msg, children))
                },
            }
        },
    }
}

pub ghost struct CollectOut {
    pub cas: Map<DigestView, Seq<u8>>,
    pub entries: Seq<EntryView>,
}

/// Collecting the declared outputs, from index `i` on: a missing path is
/// omitted; a file is uploaded and recorded; a directory tree is uploaded
/// level by level, its tree message stored, and recorded by the tree's
/// digest; a symlink is recorded verbatim, never read through.
pub open spec fn spec_collect(
    cas: Map<DigestView, Seq<u8>>,
    paths: Seq<Seq<char>>,
    found: Seq<FoundOutput>,
    i: int,
) -> Option<CollectOut>
    decreases paths.len() - i
        when 0 <= i <= paths.len() && found.len() == paths.len()
{
    if i >= paths.len() {
        Some(CollectOut { cas, entries: Seq::empty() })
    } else {
        match found[i] {
            FoundOutput::Missing => spec_collect(cas, paths, found, i + 1),
            FoundOutput::File(data) => if data@.len() > i64::MAX as int {
                None
            } else {
                let d = spec_digest_of(data@);
                match spec_collect(cas.insert(d, data@), paths, found, i + 1) {
                    None => None,
                    Some(o) => Some(
                        CollectOut {
                            cas: o.cas,
                            entries: seq![
                                EntryView::File { path: paths[i], digest: d, executable: false },
                            ] + o.entries,
                        },
                    ),
                }
            },
            FoundOutput::Dir(d) => match spec_ingest_dir(cas, d) {
                None => None,
                Some(o) => {
                    let tv = crate::wire::TreeView { root: Some(o.dir), children: o.children };
                    let e = enc_tree(tv);
                    if e.len() > i64::MAX as int {
                        None
                    } else {
                        let dd = spec_digest_of(e);
                        match spec_collect(o.cas.insert(dd, e), paths, found, i + 1) {
                            None => None,
                            Some(rest) => Some(
                                CollectOut {
                                    cas: rest.cas,
                                    entries: seq![
                                        EntryView::Directory { path: paths[i], digest: dd },
                                    ] + rest.entries,
                                },
                            ),
                        }
                    }
                },
            },
            FoundOutput::SymlinkTo(target) => match spec_collect(cas, paths, found, i + 1) {
                None => None,
                Some(o) => Some(
                    CollectOut {
                        cas: o.cas,
                        entries: seq![
                            EntryView::Symlink { original: paths[i], link: target@ },
                        ] + o.entries,
                    },
                ),
            },
        }
    }
}

#[verifier::rlimit(80)]
fn collect_outputs_from<C: ContentAddressableStorage>(
    cas: &mut C,
    paths: &Vec<String>,
    found: &Vec<FoundOutput>,
    i: usize,
) -> (r: Result<Vec<Entry>, ExecuteError>)
    requires
        old(cas).wf(),
        i <= paths@.len(),
        found@.len() == paths@.len(),
    ensures
        final(cas).wf(),
        ({
            let gp = paths@.map_values(|s: String| s@);
            match spec_collect(old(cas).contents(), gp, found@, i as int) {
                Some(o) => r matches Ok(v) && final(cas).contents() == o.cas && v@.map_values(
                    |e: Entry| e@,
                ) == o.entries,
                None => r is Err,
            }
        }),
    decreases paths@.len() - i,
{
    let ghost gp = paths@.map_values(|s: String| s@);
    if i >= paths.len() {
        let empty: Vec<Entry> = Vec::new();
        proof {
            assert(empty@.map_values(|e: Entry| e@) =~= Seq::<EntryView>::empty());
        }
        return Ok(empty);
    }
    match &found[i] {
        FoundOutput::Missing => collect_outputs_from(cas, paths, found, i + 1),
        FoundOutput::File(data) => {
            if data.len() as u64 > i64::MAX as u64 {
                return Err(ExecuteError::Internal(String::from_str("blob too large")));
            }
            match cas.write_blob(data.as_slice(), None) {
                Err(_) => Err(
                    ExecuteError::Internal(String::from_str("store rejected a blob")),
                ),
                Ok(d) => {
                    match collect_outputs_from(cas, paths, found, i + 1) {
                        Err(e) => Err(e),
                        Ok(rest) => {
                            let entry = Entry::File {
                                path: paths[i].clone(),
                                digest: d,
                                executable: false,
                            };
                            let mut out: Vec<Entry> = Vec::new();
                            out.push(entry);
                            let mut rest = rest;
                            out.append(&mut rest);
                            proof {
                                let o = spec_collect(
                                    old(cas).contents(),
                                    gp,
                                    found@,
                                    i as int,
                                )->Some_0;
                                assert(out@.map_values(|e: Entry| e@) =~= o.entries);
                            }
                            Ok(out)
                        },
                    }
                },
            }
        },
        FoundOutput::Dir(d) => {
            match ingest_out_dir(cas, d) {
                Err(e) => Err(e),
                Ok((root_msg, children)) => {
                    let tree = TreeMsg { root: Some(root_msg), children };
                    let encoded = encode_tree(&tree);
                    if encoded.len() as u64 > i64::MAX as u64 {
                        return Err(
                            ExecuteError::Internal(String::from_str("tree message too large")),
                        );
                    }
                    match cas.write_blob(encoded.as_slice(), None) {
                        Err(_) => Err(
                            ExecuteError::Internal(String::from_str("store rejected a blob")),
                        ),
                        Ok(dd) => {
                            match collect_outputs_from(cas, paths, found, i + 1) {
                                Err(e) => Err(e),
                                Ok(rest) => {
                                    let entry = Entry::Directory {
                                        path: paths[i].clone(),
                                        digest: dd,
                                    };
                                    let mut out: Vec<Entry> = Vec::new();
                                    out.push(entry);
                                    let mut rest = rest;
                                    out.append(&mut rest);
                                    proof {
                                        let o = spec_collect(
                                            old(cas).contents(),
                                            gp,
                                            found@,
                                            i as int,
                                        )->Some_0;
                                        assert(out@.map_values(|e: Entry| e@) =~= o.entries);
                                    }
                                    Ok(out)
                                },
                            }
                        },
                    }
                },
            }
        },
        FoundOutput::SymlinkTo(target) => {
            match collect_outputs_from(cas, paths, found, i + 1) {
                Err(e) => Err(e),
                Ok(rest) => {
                    let entry = Entry::Symlink {
                        original: paths[i].clone(),
                        link: target.clone(),
                    };
                    let mut out: Vec<Entry> = Vec::new();
                    out.push(entry);
                    let mut rest = rest;
                    out.append(&mut rest);
                    proof {
                        let o = spec_collect(old(cas).contents(), gp, found@, i as int)->Some_0;
                        assert(out@.map_values(|e: Entry| e@) =~= o.entries);
                    }
                    Ok(out)
                },
            }
        },
    }
}

/// Ingests what the command left at each declared output path and returns
/// the typed output entries, in path order, omitting missing outputs.
pub fn collect_outputs<C: ContentAddressableStorage>(
    cas: &mut C,
    paths: &Vec<String>,
    found: &Vec<FoundOutput>,
) -> (r: Result<Vec<Entry>, ExecuteError>)
    requires
        old(cas).wf(),
        found@.len() == paths@.len(),
    ensures
        final(cas).wf(),
        ({
            let gp = paths@.map_values(|s: String| s@);
            match spec_collect(old(cas).contents(), gp, found@, 0) {
                Some(o) => r matches Ok(v) && final(cas).contents() == o.cas && v@.map_values(
                    |e: Entry| e@,
                ) == o.entries,
                None => r is Err,
            }
        }),
{
    collect_outputs_from(cas, paths, found, 0)
}

/// Sandbox determinism: the plan is a function of the store's contents and
/// the layout alone, so equal layouts over equal stores materialize
/// byte-identical sandboxes.
pub proof fn lemma_sandbox_plan_deterministic(
    cas1: Map<DigestView, Seq<u8>>,
    cas2: Map<DigestView, Seq<u8>>,
    layout1: LayoutView,
    layout2: LayoutView,
)
    requires
        cas1 == cas2,
        layout1 == layout2,
    ensures
        spec_sandbox_plan(cas1, layout1) == spec_sandbox_plan(cas2, layout2),
{
}

} // verus!
