//! A client-side helper for driving the node: builds and uploads commands,
//! actions and input directories, and turns a finished operation stream
//! back into the files the action produced.

use vstd::prelude::*;
use vstd::map::*;
use crate::cas::ContentAddressableStorage;
use crate::digest::{Digest, DigestView};
use crate::execution::ExecuteError;
use crate::hashing::spec_digest_of;
use crate::operations::{Operation, OutputFileMsg};
use crate::resolver::join_path;
use crate::rpc::CODE_OK;
use crate::wire::{enc_action, enc_command, enc_directory, encode_action, encode_command,
    encode_directory, dec_directory, dec_tree, decode_directory, decode_tree, ActionMsg,
    ActionView, CommandMsg, CommandView, DirectoryMsg, DirectoryView, FileNode, FileNodeView,
    SymlinkNode};

verus! {

/// The digest of an uploaded action message.
pub struct ActionDigest(pub Digest);

/// The digest of an uploaded command message.
pub struct CommandDigest(pub Digest);

/// The digest of an uploaded directory message.
pub struct DirectoryDigest(pub Digest);

/// One file of a client-side directory: its path relative to the root, its
/// bytes, and its executable flag.
#[derive(PartialEq, Debug)]
pub struct File {
    pub name: String,
    pub contents: Vec<u8>,
    pub executable: bool,
}

/// One symlink of a client-side directory.
#[derive(PartialEq, Debug)]
pub struct Symlink {
    pub path: String,
    pub target: String,
}

/// A client-side directory: the files and symlinks it holds, with paths
/// relative to its root.
#[derive(PartialEq, Debug)]
pub struct Directory {
    files: Vec<File>,
    symlinks: Vec<Symlink>,
}

/// The files a client-side directory holds, as values.
pub open spec fn files_view(d: &Directory) -> Seq<(Seq<char>, Seq<u8>, bool)> {
    d.files_internal()@.map_values(|f: File| (f.name@, f.contents@, f.executable))
}

/// The symlinks a client-side directory holds, as values.
pub open spec fn symlinks_view(d: &Directory) -> Seq<(Seq<char>, Seq<char>)> {
    d.symlinks_internal()@.map_values(|l: Symlink| (l.path@, l.target@))
}

impl Directory {
    pub closed spec fn files_internal(&self) -> &Vec<File> {
        &self.files
    }

    pub closed spec fn symlinks_internal(&self) -> &Vec<Symlink> {
        &self.symlinks
    }

    /// An empty directory.
    pub fn root() -> (r: Self)
        ensures
            files_view(&r).len() == 0,
            symlinks_view(&r).len() == 0,
    {
        let r = Directory { files: Vec::new(), symlinks: Vec::new() };
        proof {
            assert(files_view(&r) =~= Seq::<(Seq<char>, Seq<u8>, bool)>::empty());
            assert(symlinks_view(&r) =~= Seq::<(Seq<char>, Seq<char>)>::empty());
        }
        r
    }

    /// Records a symlink.
    pub fn add_symlink(&mut self, path: &str, target: &str)
        ensures
            symlinks_view(final(self)) == symlinks_view(old(self)).push((path@, target@)),
            files_view(final(self)) == files_view(old(self)),
    {
        self.symlinks.push(
            Symlink { path: String::from_str(path), target: String::from_str(target) },
        );
        proof {
            assert(symlinks_view(final(self)) =~= symlinks_view(old(self)).push((path@, target@)));
            assert(files_view(final(self)) =~= files_view(old(self)));
        }
    }

    /// Records a file at a relative path; with no contents only the path's
    /// directories are implied, and nothing is recorded.
    pub fn add_entry(&mut self, path: &str, contents: Option<&[u8]>, executable: bool)
        requires
            path@.len() > 0 && path@[0] != '/',
        ensures
            symlinks_view(final(self)) == symlinks_view(old(self)),
            match contents {
                Some(c) => files_view(final(self)) == files_view(old(self)).push(
                    (path@, c@, executable),
                ),
                None => files_view(final(self)) == files_view(old(self)),
            },
    {
        match contents {
            None => {},
            Some(c) => {
                self.files.push(
                    File {
                        name: String::from_str(path),
                        contents: vstd::slice::slice_to_vec(c),
                        executable,
                    },
                );
                proof {
                    assert(files_view(final(self)) =~= files_view(old(self)).push(
                        (path@, c@, executable),
                    ));
                }
            },
        }
        proof {
            assert(symlinks_view(final(self)) =~= symlinks_view(old(self)));
        }
    }

    /// Records an executable file.
    pub fn add_exec(&mut self, path: &str, contents: Option<&[u8]>)
        requires
            path@.len() > 0 && path@[0] != '/',
        ensures
            symlinks_view(final(self)) == symlinks_view(old(self)),
            match contents {
                Some(c) => files_view(final(self)) == files_view(old(self)).push(
                    (path@, c@, true),
                ),
                None => files_view(final(self)) == files_view(old(self)),
            },
    {
        self.add_entry(path, contents, true)
    }

    /// Records a regular file.
    pub fn add_path(&mut self, path: &str, contents: Option<&[u8]>)
        requires
            path@.len() > 0 && path@[0] != '/',
        ensures
            symlinks_view(final(self)) == symlinks_view(old(self)),
            match contents {
                Some(c) => files_view(final(self)) == files_view(old(self)).push(
                    (path@, c@, false),
                ),
                None => files_view(final(self)) == files_view(old(self)),
            },
    {
        self.add_entry(path, contents, false)
    }
}

/// What the executed action produced, from the client's point of view.
pub struct ActionResult {
    pub exit_code: i32,
    pub stderr: Vec<u8>,
    pub stdout: Vec<u8>,
    pub directory: Directory,
}

/// Uploads one blob under its own content digest.
pub fn upload_blob<C: ContentAddressableStorage>(cas: &mut C, data: &[u8]) -> (r: Result<
    Digest,
    ExecuteError,
>)
    requires
        old(cas).wf(),
    ensures
        final(cas).wf(),
        data@.len() <= i64::MAX as int <==> r is Ok,
        r matches Ok(d) ==> d@ == spec_digest_of(data@) && final(cas).contents() == old(
            cas,
        ).contents().insert(spec_digest_of(data@), data@),
        r is Err ==> final(cas).contents() == old(cas).contents(),
{
    if data.len() as u64 > i64::MAX as u64 {
        return Err(ExecuteError::Internal(String::from_str("blob too large")));
    }
    match cas.write_blob(data, None) {
        Ok(d) => Ok(d),
        Err(_) => Err(ExecuteError::Internal(String::from_str("store rejected the blob"))),
    }
}

/// The command message built from arguments and declared output paths.
pub open spec fn spec_command_msg(
    arguments: Seq<Seq<char>>,
    output_paths: Seq<Seq<char>>,
) -> CommandView {
    CommandView {
        arguments,
        environment_variables: Seq::empty(),
        output_files: Seq::empty(),
        output_directories: Seq::empty(),
        output_paths,
    }
}

/// Builds a command message and uploads it, returning its digest.
pub fn add_command<C: ContentAddressableStorage>(
    cas: &mut C,
    arguments: Vec<String>,
    output_paths: Vec<String>,
) -> (r: Result<CommandDigest, ExecuteError>)
    requires
        old(cas).wf(),
    ensures
        final(cas).wf(),
        ({
            let e = enc_command(
                spec_command_msg(
                    arguments@.map_values(|s: String| s@),
                    output_paths@.map_values(|s: String| s@),
                ),
            );
            &&& e.len() <= i64::MAX as int <==> r is Ok
            &&& r matches Ok(d) ==> d.0@ == spec_digest_of(e) && final(cas).contents() == old(
                cas,
            ).contents().insert(spec_digest_of(e), e)
        }),
{
    let msg = CommandMsg {
        arguments,
        environment_variables: Vec::new(),
        output_files: Vec::new(),
        output_directories: Vec::new(),
        output_paths,
    };
    proof {
        assert(msg@.environment_variables =~= Seq::<crate::wire::EnvVarView>::empty());
        assert(msg@.output_files =~= Seq::<Seq<char>>::empty());
        assert(msg@.output_directories =~= Seq::<Seq<char>>::empty());
    }
    let encoded = encode_command(&msg);
    match upload_blob(cas, encoded.as_slice()) {
        Ok(d) => Ok(CommandDigest(d)),
        Err(e) => Err(e),
    }
}

/// The action message naming a command and an input root.
pub open spec fn spec_action_msg(cd: DigestView, rd: DigestView) -> ActionView {
    ActionView { command_digest: Some(cd), input_root_digest: Some(rd) }
}

/// Builds an action message and uploads it, returning its digest.
pub fn add_action<C: ContentAddressableStorage>(
    cas: &mut C,
    command_digest: CommandDigest,
    input_root_digest: DirectoryDigest,
) -> (r: Result<ActionDigest, ExecuteError>)
    requires
        old(cas).wf(),
    ensures
        final(cas).wf(),
        ({
            let e = enc_action(spec_action_msg(command_digest.0@, input_root_digest.0@));
            &&& e.len() <= i64::MAX as int <==> r is Ok
            &&& r matches Ok(d) ==> d.0@ == spec_digest_of(e) && final(cas).contents() == old(
                cas,
            ).contents().insert(spec_digest_of(e), e)
        }),
{
    let msg = ActionMsg {
        command_digest: Some(command_digest.0),
        input_root_digest: Some(input_root_digest.0),
    };
    let encoded = encode_action(&msg);
    match upload_blob(cas, encoded.as_slice()) {
        Ok(d) => Ok(ActionDigest(d)),
        Err(e) => Err(e),
    }
}

pub ghost struct ClientDirOut {
    pub cas: Map<DigestView, Seq<u8>>,
    pub nodes: Seq<FileNodeView>,
}

/// Uploading a client directory's files, from index `i` on: each blob
/// enters the store under its digest and becomes a file node named by its
/// path.
pub open spec fn spec_upload_files(
    cas: Map<DigestView, Seq<u8>>,
    files: Seq<(Seq<char>, Seq<u8>, bool)>,
    i: int,
) -> Option<ClientDirOut>
    decreases files.len() - i
        when 0 <= i <= files.len()
{
    if i >= files.len() {
        Some(ClientDirOut { cas, nodes: Seq::empty() })
    } else {
        let f = files[i];
        if f.1.len() > i64::MAX as int {
            None
        } else {
            let d = spec_digest_of(f.1);
            match spec_upload_files(cas.insert(d, f.1), files, i + 1) {
                None => None,
                Some(o) => Some(
                    ClientDirOut {
                        cas: o.cas,
                        nodes: seq![
                            FileNodeView { name: f.0, digest: Some(d), is_executable: f.2 },
                        ] + o.nodes,
                    },
                ),
            }
        }
    }
}

/// The directory message a client directory denotes, given its uploaded
/// file nodes.
pub open spec fn spec_client_dir_msg(
    nodes: Seq<FileNodeView>,
    symlinks: Seq<(Seq<char>, Seq<char>)>,
) -> DirectoryView {
    DirectoryView {
        files: nodes,
        directories: Seq::empty(),
        symlinks: symlinks.map_values(
            |l: (Seq<char>, Seq<char>)|
                crate::wire::SymlinkNodeView { name: l.0, target: l.1 },
        ),
    }
}

fn upload_files_from<C: ContentAddressableStorage>(
    cas: &mut C,
    files: &Vec<File>,
    i: usize,
) -> (r: Result<Vec<FileNode>, ExecuteError>)
    requires
        old(cas).wf(),
        i <= files@.len(),
    ensures
        final(cas).wf(),
        ({
            let gf = files@.map_values(|f: File| (f.name@, f.contents@, f.executable));
            match spec_upload_files(old(cas).contents(), gf, i as int) {
                Some(o) => r matches Ok(v) && final(cas).contents() == o.cas && v@.map_values(
                    |n: FileNode| n@,
                ) == o.nodes,
                None => r is Err,
            }
        }),
    decreases files@.len() - i,
{
    let ghost gf = files@.map_values(|f: File| (f.name@, f.contents@, f.executable));
    if i >= files.len() {
        let empty: Vec<FileNode> = Vec::new();
        proof {
            assert(empty@.map_values(|n: FileNode| n@) =~= Seq::<FileNodeView>::empty());
        }
        return Ok(empty);
    }
    let d = match upload_blob(cas, files[i].contents.as_slice()) {
        Ok(d) => d,
        Err(e) => {
            return Err(e);
        },
    };
    match upload_files_from(cas, files, i + 1) {
        Err(e) => Err(e),
        Ok(rest) => {
            let node = FileNode {
                name: files[i].name.clone(),
                digest: Some(d),
                is_executable: files[i].executable,
            };
            let mut out: Vec<FileNode> = Vec::new();
            out.push(node);
            let mut rest = rest;
            out.append(&mut rest);
            proof {
                let o = spec_upload_files(old(cas).contents(), gf, i as int)->Some_0;
                assert(out@.map_values(|n: FileNode| n@) =~= o.nodes);
            }
            Ok(out)
        },
    }
}

/// Uploads a client directory: its file blobs first, then one directory
/// message listing them with the directory's symlinks; returns the
/// message's digest.
pub fn add_directory<C: ContentAddressableStorage>(cas: &mut C, root: &Directory) -> (r: Result<
    DirectoryDigest,
    ExecuteError,
>)
    requires
        old(cas).wf(),
    ensures
        final(cas).wf(),
        match spec_upload_files(old(cas).contents(), files_view(root), 0) {
            Some(o) => {
                let e = enc_directory(spec_client_dir_msg(o.nodes, symlinks_view(root)));
                &&& (e.len() <= i64::MAX as int <==> r is Ok)
                &&& r matches Ok(d) ==> d.0@ == spec_digest_of(e) && final(cas).contents()
                    == o.cas.insert(spec_digest_of(e), e)
            },
            None => r is Err,
        },
{
    let file_nodes = match upload_files_from(cas, root.files_ref(), 0) {
        Ok(v) => v,
        Err(e) => {
            return Err(e);
        },
    };
    let mut symlink_nodes: Vec<SymlinkNode> = Vec::new();
    let n = root.symlinks_ref().len();
    let mut i: usize = 0;
    while i < n
        invariant
            n == root.symlinks_internal()@.len(),
            0 <= i <= n,
            symlink_nodes@.len() == i,
            forall|k: int|
                0 <= k < i ==> (#[trigger] symlink_nodes@[k]).name@
                    == root.symlinks_internal()@[k].path@ && symlink_nodes@[k].target@
                    == root.symlinks_internal()@[k].target@,
        decreases n - i,
    {
        symlink_nodes.push(
            SymlinkNode {
                name: root.symlinks_ref()[i].path.clone(),
                target: root.symlinks_ref()[i].target.clone(),
            },
        );
        i = i + 1;
    }
    let msg = DirectoryMsg { files: file_nodes, directories: Vec::new(), symlinks: symlink_nodes };
    proof {
        let o = spec_upload_files(old(cas).contents(), files_view(root), 0)->Some_0;
        assert(msg@.directories =~= Seq::<crate::wire::DirectoryNodeView>::empty());
        assert(msg@.symlinks =~= spec_client_dir_msg(o.nodes, symlinks_view(root)).symlinks);
        assert(msg@ == spec_client_dir_msg(o.nodes, symlinks_view(root)));
    }
    let encoded = encode_directory(&msg);
    match upload_blob(cas, encoded.as_slice()) {
        Ok(d) => Ok(DirectoryDigest(d)),
        Err(e) => Err(e),
    }
}

impl Directory {
    /// The directory's files, for reading.
    pub fn files_ref(&self) -> (r: &Vec<File>)
        ensures
            r == self.files_internal(),
    {
        &self.files
    }

    /// The directory's symlinks, for reading.
    pub fn symlinks_ref(&self) -> (r: &Vec<Symlink>)
        ensures
            r == self.symlinks_internal(),
    {
        &self.symlinks
    }
}

/// How deep an output tree may nest before the client stops walking it.
pub const WALK_DEPTH_LIMIT: usize = 4096;

/// Why interpreting an operation stream failed.
pub ghost enum WalkErr {
    /// No operation in the stream is done.
    NoTerminal,
    /// The terminal operation's name is not under `operations/`.
    BadName,
    /// The terminal operation carries no response or no status.
    NoResponse,
    /// The embedded status is not `OK`.
    NotOk,
    /// The response carries no action result.
    NoResult,
    /// A node carries no digest.
    MissingDigest,
    /// A referenced blob is absent.
    Blob(DigestView),
    /// A referenced blob does not decode as expected.
    BadProto(DigestView),
    /// A walked directory level holds symlinks, which the walk does not
    /// support.
    SymlinksUnsupported,
    /// The recursion cap was reached.
    Depth,
}

/// The files of one walked directory level, from index `i` on: each is
/// fetched from the store by digest and recorded under its joined path.
pub open spec fn spec_walk_files(
    contents: Map<DigestView, Seq<u8>>,
    files: Seq<FileNodeView>,
    path: Seq<char>,
    i: int,
) -> Result<Seq<(Seq<char>, Seq<u8>, bool)>, WalkErr>
    decreases files.len() - i
        when 0 <= i <= files.len()
{
    if i >= files.len() {
        Ok(Seq::empty())
    } else {
        match files[i].digest {
            None => Err(WalkErr::MissingDigest),
            Some(d) => if !contents.contains_key(d) {
                Err(WalkErr::Blob(d))
            } else {
                match spec_walk_files(contents, files, path, i + 1) {
                    Err(e) => Err(e),
                    Ok(rest) => Ok(
                        seq![(join_path(path, files[i].name), contents[d], false)] + rest,
                    ),
                }
            },
        }
    }
}

/// Everything under one walked directory level: its files, then each child
/// level fetched from the store and walked under its own path.
pub open spec fn spec_walk_dir(
    contents: Map<DigestView, Seq<u8>>,
    dir: DirectoryView,
    path: Seq<char>,
    fuel: int,
) -> Result<Seq<(Seq<char>, Seq<u8>, bool)>, WalkErr>
    decreases fuel, 1int, 0int
        when fuel >= 0
{
    if dir.symlinks.len() > 0 {
        Err(WalkErr::SymlinksUnsupported)
    } else {
        match spec_walk_files(contents, dir.files, path, 0) {
            Err(e) => Err(e),
            Ok(fs) => match spec_walk_dirs(contents, dir.directories, path, fuel, 0) {
                Err(e) => Err(e),
                Ok(ds) => Ok(fs + ds),
            },
        }
    }
}

pub open spec fn spec_walk_dirs(
    contents: Map<DigestView, Seq<u8>>,
    dirs: Seq<crate::wire::DirectoryNodeView>,
    path: Seq<char>,
    fuel: int,
    i: int,
) -> Result<Seq<(Seq<char>, Seq<u8>, bool)>, WalkErr>
    decreases fuel, 0int, dirs.len() - i
        when 0 <= i <= dirs.len() && fuel >= 0
{
    if i >= dirs.len() {
        Ok(Seq::empty())
    } else {
        match dirs[i].digest {
            None => Err(WalkErr::MissingDigest),
            Some(d) => if !contents.contains_key(d) {
                Err(WalkErr::Blob(d))
            } else {
                match dec_directory(contents[d], 0, contents[d].len() as int) {
                    None => Err(WalkErr::BadProto(d)),
                    Some(child) => if fuel == 0 {
                        Err(WalkErr::Depth)
                    } else {
                        match spec_walk_dir(contents, child, join_path(path, dirs[i].name), fuel
                            - 1) {
                            Err(e) => Err(e),
                            Ok(sub) => match spec_walk_dirs(contents, dirs, path, fuel, i + 1) {
                                Err(e) => Err(e),
                                Ok(rest) => Ok(sub + rest),
                            },
                        }
                    },
                }
            },
        }
    }
}

fn walk_files<C: ContentAddressableStorage>(
    cas: &C,
    files: &Vec<FileNode>,
    path: &str,
    i: usize,
) -> (r: Result<Vec<File>, ExecuteError>)
    requires
        cas.wf(),
        i <= files@.len(),
    ensures
        ({
            let gf = files@.map_values(|f: FileNode| f@);
            match spec_walk_files(cas.contents(), gf, path@, i as int) {
                Ok(es) => r matches Ok(v) && v@.map_values(
                    |f: File| (f.name@, f.contents@, f.executable),
                ) == es,
                Err(_) => r is Err,
            }
        }),
    decreases files@.len() - i,
{
    let ghost gf = files@.map_values(|f: FileNode| f@);
    if i >= files.len() {
        let empty: Vec<File> = Vec::new();
        proof {
            assert(empty@.map_values(|f: File| (f.name@, f.contents@, f.executable)) =~= Seq::<
                (Seq<char>, Seq<u8>, bool),
            >::empty());
        }
        return Ok(empty);
    }
    let d = match &files[i].digest {
        None => {
            return Err(
                ExecuteError::InvalidArgument(String::from_str("no digest in file node")),
            );
        },
        Some(d) => d.clone(),
    };
    let contents = match cas.read_blob(d) {
        Err(_) => {
            return Err(
                ExecuteError::InvalidArgument(String::from_str("output blob not found")),
            );
        },
        Ok(b) => b,
    };
    match walk_files(cas, files, path, i + 1) {
        Err(e) => Err(e),
        Ok(rest) => {
            let file = File {
                name: crate::resolver::join_path_exec(path, files[i].name.as_str()),
                contents,
                executable: false,
            };
            let mut out: Vec<File> = Vec::new();
            out.push(file);
            let mut rest = rest;
            out.append(&mut rest);
            proof {
                let es = spec_walk_files(cas.contents(), gf, path@, i as int)->Ok_0;
                assert(out@.map_values(|f: File| (f.name@, f.contents@, f.executable)) =~= es);
            }
            Ok(out)
        },
    }
}

fn walk_dir<C: ContentAddressableStorage>(
    cas: &C,
    dir: &DirectoryMsg,
    path: &str,
    fuel: usize,
) -> (r: Result<Vec<File>, ExecuteError>)
    requires
        cas.wf(),
    ensures
        match spec_walk_dir(cas.contents(), dir@, path@, fuel as int) {
            Ok(es) => r matches Ok(v) && v@.map_values(
                |f: File| (f.name@, f.contents@, f.executable),
            ) == es,
            Err(_) => r is Err,
        },
    decreases fuel, 1int, 0int,
{
    if dir.symlinks.len() > 0 {
        return Err(
            ExecuteError::Internal(String::from_str("symlinks in output trees are not supported")),
        );
    }
    let fs = match walk_files(cas, &dir.files, path, 0) {
        Err(e) => {
            return Err(e);
        },
        Ok(v) => v,
    };
    match walk_dirs(cas, &dir.directories, path, fuel, 0) {
        Err(e) => Err(e),
        Ok(ds) => {
            let mut out = fs;
            let mut ds = ds;
            out.append(&mut ds);
            proof {
                let es = spec_walk_dir(cas.contents(), dir@, path@, fuel as int)->Ok_0;
                assert(out@.map_values(|f: File| (f.name@, f.contents@, f.executable)) =~= es);
            }
            Ok(out)
        },
    }
}

fn walk_dirs<C: ContentAddressableStorage>(
    cas: &C,
    dirs: &Vec<crate::wire::DirectoryNode>,
    path: &str,
    fuel: usize,
    i: usize,
) -> (r: Result<Vec<File>, ExecuteError>)
    requires
        cas.wf(),
        i <= dirs@.len(),
    ensures
        ({
            let gd = dirs@.map_values(|d: crate::wire::DirectoryNode| d@);
            match spec_walk_dirs(cas.contents(), gd, path@, fuel as int, i as int) {
                Ok(es) => r matches Ok(v) && v@.map_values(
                    |f: File| (f.name@, f.contents@, f.executable),
                ) == es,
                Err(_) => r is Err,
            }
        }),
    decreases fuel, 0int, dirs@.len() - i,
{
    let ghost gd = dirs@.map_values(|d: crate::wire::DirectoryNode| d@);
    if i >= dirs.len() {
        let empty: Vec<File> = Vec::new();
        proof {
            assert(empty@.map_values(|f: File| (f.name@, f.contents@, f.executable)) =~= Seq::<
                (Seq<char>, Seq<u8>, bool),
            >::empty());
        }
        return Ok(empty);
    }
    let d = match &dirs[i].digest {
        None => {
            return Err(
                ExecuteError::InvalidArgument(String::from_str("no digest in directory node")),
            );
        },
        Some(d) => d.clone(),
    };
    let blob = match cas.read_blob(d) {
        Err(_) => {
            return Err(
                ExecuteError::InvalidArgument(String::from_str("child directory blob not found")),
            );
        },
        Ok(b) => b,
    };
    let child = match decode_directory(&blob) {
        None => {
            return Err(
                ExecuteError::InvalidArgument(String::from_str("blob is not a directory message")),
            );
        },
        Some(c) => c,
    };
    if fuel == 0 {
        return Err(ExecuteError::Internal(String::from_str("directory recursion cap reached")));
    }
    let child_path = crate::resolver::join_path_exec(path, dirs[i].name.as_str());
    let sub = match walk_dir(cas, &child, child_path.as_str(), fuel - 1) {
        Err(e) => {
            return Err(e);
        },
        Ok(v) => v,
    };
    match walk_dirs(cas, dirs, path, fuel, i + 1) {
        Err(e) => Err(e),
        Ok(rest) => {
            let mut out = sub;
            let mut rest = rest;
            out.append(&mut rest);
            proof {
                let es = spec_walk_dirs(cas.contents(), gd, path@, fuel as int, i as int)->Ok_0;
                assert(out@.map_values(|f: File| (f.name@, f.contents@, f.executable)) =~= es);
            }
            Ok(out)
        },
    }
}

/// Index of the first done operation in the stream.
pub open spec fn spec_first_done(ops: Seq<Operation>, i: int) -> Option<int>
    decreases ops.len() - i
        when 0 <= i <= ops.len()
{
    if i >= ops.len() {
        None
    } else if ops[i].done {
        Some(i)
    } else {
        spec_first_done(ops, i + 1)
    }
}

/// What interpreting a finished operation stream yields.
pub ghost struct InterpretOut {
    pub exit_code: int,
    pub stdout: Seq<u8>,
    pub stderr: Seq<u8>,
    pub files: Seq<(Seq<char>, Seq<u8>, bool)>,
    pub symlinks: Seq<(Seq<char>, Seq<char>)>,
}

/// What the first done operation of a stream denotes under a store: its
/// embedded result's exit code and raw output, its produced files read out
/// of the store (plain files first, then each output directory's tree
/// walked under its path), and its symlinks.
pub open spec fn spec_interpret(
    contents: Map<DigestView, Seq<u8>>,
    ops: Seq<Operation>,
    fuel: int,
) -> Result<InterpretOut, WalkErr> {
    match spec_first_done(ops, 0) {
        None => Err(WalkErr::NoTerminal),
        Some(k) => {
            let op = ops[k];
            if !(op.name@.len() >= 11 && op.name@.subrange(0, 11) == "operations/"@) {
                Err(WalkErr::BadName)
            } else {
                match op.result {
                    None => Err(WalkErr::NoResponse),
                    Some(resp) => match resp.value.status {
                        None => Err(WalkErr::NoResponse),
                        Some(st) => if st.code != CODE_OK {
                            Err(WalkErr::NotOk)
                        } else {
                            match resp.value.result {
                                None => Err(WalkErr::NoResult),
                                Some(ar) => match spec_walk_files(
                                    contents,
                                    ar.output_files@.map_values(
                                        |f: OutputFileMsg| out_file_node_view(f),
                                    ),
                                    Seq::empty(),
                                    0,
                                ) {
                                    Err(e) => Err(e),
                                    Ok(fs) => match spec_walk_out_dirs(
                                        contents,
                                        ar.output_directories@,
                                        fuel,
                                        0,
                                    ) {
                                        Err(e) => Err(e),
                                        Ok(ds) => Ok(
                                            InterpretOut {
                                                exit_code: ar.exit_code as int,
                                                stdout: ar.stdout_raw@,
                                                stderr: ar.stderr_raw@,
                                                files: fs + ds,
                                                symlinks: ar.output_symlinks@.map_values(
                                                    |l: crate::operations::OutputSymlinkMsg|
                                                        (l.path@, l.target@),
                                                ),
                                            },
                                        ),
                                    },
                                },
                            }
                        },
                    },
                }
            }
        },
    }
}

/// An output file message seen as a file node: same name, digest and flag.
pub open spec fn out_file_node_view(f: OutputFileMsg) -> FileNodeView {
    FileNodeView {
        name: f.path@,
        digest: crate::wire::opt_digest_view(&f.digest),
        is_executable: f.is_executable,
    }
}

/// The trees of the declared output directories, walked in order.
pub open spec fn spec_walk_out_dirs(
    contents: Map<DigestView, Seq<u8>>,
    dirs: Seq<crate::operations::OutputDirectoryMsg>,
    fuel: int,
    i: int,
) -> Result<Seq<(Seq<char>, Seq<u8>, bool)>, WalkErr>
    decreases dirs.len() - i
        when 0 <= i <= dirs.len()
{
    if i >= dirs.len() {
        Ok(Seq::empty())
    } else {
        match dirs[i].tree_digest {
            None => Err(WalkErr::MissingDigest),
            Some(d) => if !contents.contains_key(d@) {
                Err(WalkErr::Blob(d@))
            } else {
                match dec_tree(contents[d@], 0, contents[d@].len() as int) {
                    None => Err(WalkErr::BadProto(d@)),
                    Some(tree) => match tree.root {
                        None => Err(WalkErr::BadProto(d@)),
                        Some(root) => if fuel < 0 {
                            Err(WalkErr::Depth)
                        } else {
                            match spec_walk_dir(contents, root, dirs[i].path@, fuel) {
                                Err(e) => Err(e),
                                Ok(sub) => match spec_walk_out_dirs(contents, dirs, fuel, i + 1) {
                                    Err(e) => Err(e),
                                    Ok(rest) => Ok(sub + rest),
                                },
                            }
                        },
                    },
                }
            },
        }
    }
}

fn walk_out_dirs<C: ContentAddressableStorage>(
    cas: &C,
    dirs: &Vec<crate::operations::OutputDirectoryMsg>,
    fuel: usize,
    i: usize,
) -> (r: Result<Vec<File>, ExecuteError>)
    requires
        cas.wf(),
        i <= dirs@.len(),
    ensures
        match spec_walk_out_dirs(cas.contents(), dirs@, fuel as int, i as int) {
            Ok(es) => r matches Ok(v) && v@.map_values(
                |f: File| (f.name@, f.contents@, f.executable),
            ) == es,
            Err(_) => r is Err,
        },
    decreases dirs@.len() - i,
{
    if i >= dirs.len() {
        let empty: Vec<File> = Vec::new();
        proof {
            assert(empty@.map_values(|f: File| (f.name@, f.contents@, f.executable)) =~= Seq::<
                (Seq<char>, Seq<u8>, bool),
            >::empty());
        }
        return Ok(empty);
    }
    let d = match &dirs[i].tree_digest {
        None => {
            return Err(
                ExecuteError::InvalidArgument(String::from_str("no tree digest in output")),
            );
        },
        Some(d) => d.clone(),
    };
    let blob = match cas.read_blob(d) {
        Err(_) => {
            return Err(ExecuteError::InvalidArgument(String::from_str("tree blob not found")));
        },
        Ok(b) => b,
    };
    let tree = match decode_tree(&blob) {
        None => {
            return Err(
                ExecuteError::InvalidArgument(String::from_str("blob is not a tree message")),
            );
        },
        Some(t) => t,
    };
    let root = match tree.root {
        None => {
            return Err(ExecuteError::InvalidArgument(String::from_str("tree has no root")));
        },
        Some(r) => r,
    };
    let sub = match walk_dir(cas, &root, dirs[i].path.as_str(), fuel) {
        Err(e) => {
            return Err(e);
        },
        Ok(v) => v,
    };
    match walk_out_dirs(cas, dirs, fuel, i + 1) {
        Err(e) => Err(e),
        Ok(rest) => {
            let mut out = sub;
            let mut rest = rest;
            out.append(&mut rest);
            proof {
                let es = spec_walk_out_dirs(cas.contents(), dirs@, fuel as int, i as int)->Ok_0;
                assert(out@.map_values(|f: File| (f.name@, f.contents@, f.executable)) =~= es);
            }
            Ok(out)
        },
    }
}

fn first_done(ops: &Vec<Operation>, i: usize) -> (r: Option<usize>)
    requires
        i <= ops@.len(),
    ensures
        match spec_first_done(ops@, i as int) {
            None => r is None,
            Some(k) => r matches Some(e) && e as int == k && e < ops@.len(),
        },
    decreases ops@.len() - i,
{
    if i >= ops.len() {
        None
    } else if ops[i].done {
        Some(i)
    } else {
        first_done(ops, i + 1)
    }
}

/// Turns a finished operation stream back into the action's result: the
/// exit code, the raw output, and a client directory holding every file
/// the action produced, read out of the store.
pub fn collect_action_result<C: ContentAddressableStorage>(cas: &C, ops: &Vec<Operation>) -> (r:
    Result<ActionResult, ExecuteError>)
    requires
        cas.wf(),
    ensures
        match spec_interpret(cas.contents(), ops@, WALK_DEPTH_LIMIT as int) {
            Ok(o) => r matches Ok(ar) && ({
                &&& ar.exit_code as int == o.exit_code
                &&& ar.stdout@ == o.stdout
                &&& ar.stderr@ == o.stderr
                &&& files_view(&ar.directory) == o.files
                &&& symlinks_view(&ar.directory) == o.symlinks
            }),
            Err(_) => r is Err,
        },
{
    let k = match first_done(ops, 0) {
        None => {
            return Err(
                ExecuteError::Internal(String::from_str("no terminal operation in stream")),
            );
        },
        Some(k) => k,
    };
    let op = &ops[k];
    proof {
        reveal_strlit("operations/");
    }
    if !(op.name.as_str().unicode_len() >= 11 && str_eq(
        op.name.as_str().substring_char(0, 11),
        "operations/",
    )) {
        return Err(ExecuteError::Internal(String::from_str("operation name is malformed")));
    }
    let resp = match &op.result {
        None => {
            return Err(ExecuteError::Internal(String::from_str("terminal operation lacks a response")));
        },
        Some(resp) => resp,
    };
    let st = match &resp.value.status {
        None => {
            return Err(ExecuteError::Internal(String::from_str("response lacks a status")));
        },
        Some(st) => st,
    };
    if st.code != CODE_OK {
        return Err(ExecuteError::Internal(String::from_str("execution did not succeed")));
    }
    let ar = match &resp.value.result {
        None => {
            return Err(ExecuteError::Internal(String::from_str("response lacks a result")));
        },
        Some(ar) => ar,
    };
    let file_nodes = out_files_as_nodes(&ar.output_files, 0);
    proof {
        reveal_strlit("");
        assert(""@ =~= Seq::<char>::empty());
        assert forall|k: int| 0 <= k < ar.output_files@.len() implies #[trigger] file_nodes@[k]@
            == out_file_node_view(ar.output_files@[k]) by {
            assert(file_nodes@[k - 0]@ == out_file_node_view(ar.output_files@[k]));
        }
        assert(file_nodes@.map_values(|f: FileNode| f@) =~= ar.output_files@.map_values(
            |f: OutputFileMsg| out_file_node_view(f),
        ));
    }
    let fs = match walk_files(cas, &file_nodes, "", 0) {
        Err(e) => {
            return Err(e);
        },
        Ok(v) => v,
    };
    let ds = match walk_out_dirs(cas, &ar.output_directories, WALK_DEPTH_LIMIT, 0) {
        Err(e) => {
            return Err(e);
        },
        Ok(v) => v,
    };
    let ghost gfs = fs@;
    let ghost gds = ds@;
    let mut files = fs;
    let mut ds = ds;
    files.append(&mut ds);
    proof {
        assert(files@ == gfs + gds);
    }
    let mut symlinks: Vec<Symlink> = Vec::new();
    let n = ar.output_symlinks.len();
    let mut i: usize = 0;
    while i < n
        invariant
            n == ar.output_symlinks@.len(),
            0 <= i <= n,
            symlinks@.len() == i,
            forall|j: int|
                0 <= j < i ==> (#[trigger] symlinks@[j]).path@ == ar.output_symlinks@[j].path@
                    && symlinks@[j].target@ == ar.output_symlinks@[j].target@,
        decreases n - i,
    {
        symlinks.push(
            Symlink {
                path: ar.output_symlinks[i].path.clone(),
                target: ar.output_symlinks[i].target.clone(),
            },
        );
        i = i + 1;
    }
    let directory = Directory { files, symlinks };
    let result = ActionResult {
        exit_code: ar.exit_code,
        stderr: clone_bytes(&ar.stderr_raw),
        stdout: clone_bytes(&ar.stdout_raw),
        directory,
    };
    proof {
        let o = spec_interpret(cas.contents(), ops@, WALK_DEPTH_LIMIT as int)->Ok_0;
        assert(files_view(&result.directory) =~= o.files);
        assert(symlinks_view(&result.directory) =~= o.symlinks);
    }
    Ok(result)
}

fn out_files_as_nodes(files: &Vec<OutputFileMsg>, i: usize) -> (r: Vec<FileNode>)
    requires
        i <= files@.len(),
    ensures
        r@.len() == files@.len() - i,
        forall|k: int|
            i <= k < files@.len() ==> (#[trigger] r@[k - i])@ == out_file_node_view(files@[k]),
    decreases files@.len() - i,
{
    if i >= files.len() {
        let empty: Vec<FileNode> = Vec::new();
        return empty;
    }
    let node = FileNode {
        name: files[i].path.clone(),
        digest: match &files[i].digest {
            Some(d) => Some(d.clone()),
            None => None,
        },
        is_executable: files[i].is_executable,
    };
    let mut rest = out_files_as_nodes(files, i + 1);
    let ghost grest = rest@;
    let mut out: Vec<FileNode> = Vec::new();
    out.push(node);
    out.append(&mut rest);
    proof {
        assert forall|k: int| i <= k < files@.len() implies (#[trigger] out@[k - i])@
            == out_file_node_view(files@[k]) by {
            if k == i {
                assert(out@[0]@ == out_file_node_view(files@[i as int]));
            } else {
                assert(out@[k - i] == grest[k - (i + 1)]);
            }
        }
    }
    out
}

/// Whether two strings hold the same characters.
fn str_eq(a: &str, b: &str) -> (r: bool)
    ensures
        r == (a@ == b@),
{
    let an = a.unicode_len();
    let bn = b.unicode_len();
    if an != bn {
        return false;
    }
    let mut i: usize = 0;
    while i < an
        invariant
            an == a@.len(),
            bn == b@.len(),
            an == bn,
            0 <= i <= an,
            forall|j: int| 0 <= j < i ==> a@[j] == b@[j],
        decreases an - i,
    {
        if a.get_char(i) != b.get_char(i) {
            return false;
        }
        i = i + 1;
    }
    proof {
        assert(a@ =~= b@);
    }
    true
}

/// Copies a byte vector.
fn clone_bytes(v: &Vec<u8>) -> (r: Vec<u8>)
    ensures
        r@ == v@,
{
    vstd::slice::slice_to_vec(v.as_slice())
}

} // verus!
