//! The execution model: commands, sandbox layout entries, lifecycle status
//! values and the execution error vocabulary.

use vstd::prelude::*;
use crate::digest::{Digest, DigestView};
use crate::error::CasError;

verus! {

/// A command to run: binary and arguments, plus the environment handed to
/// the child process.
pub struct Command {
    pub arguments: Vec<String>,
    pub env_vars: Vec<(String, String)>,
}

pub ghost struct CommandVals {
    pub arguments: Seq<Seq<char>>,
    pub env_vars: Seq<(Seq<char>, Seq<char>)>,
}

impl View for Command {
    type V = CommandVals;

    open spec fn view(&self) -> CommandVals {
        CommandVals {
            arguments: self.arguments@.map_values(|s: String| s@),
            env_vars: self.env_vars@.map_values(|p: (String, String)| (p.0@, p.1@)),
        }
    }
}

/// Information on a digest reified into the filesystem.
///
/// The two `Symlink` fields follow the reference backend's two conventions.
/// On input entries (tree resolution, the sandbox plan) `original` is the
/// link's target and `link` is the path of the symlink itself.  On output
/// entries (collected after the command ran) the roles are swapped:
/// `original` is the path of the symlink under the output root and `link`
/// is its target; the operation mapping reads output entries under that
/// convention when it builds the reported symlinks.
pub enum Entry {
    File { path: String, digest: Digest, executable: bool },
    Directory { path: String, digest: Digest },
    Symlink { original: String, link: String },
}

pub ghost enum EntryView {
    File { path: Seq<char>, digest: DigestView, executable: bool },
    Directory { path: Seq<char>, digest: DigestView },
    Symlink { original: Seq<char>, link: Seq<char> },
}

impl View for Entry {
    type V = EntryView;

    open spec fn view(&self) -> EntryView {
        match self {
            Entry::File { path, digest, executable } => EntryView::File {
                path: path@,
                digest: digest@,
                executable: *executable,
            },
            Entry::Directory { path, digest } => EntryView::Directory {
                path: path@,
                digest: digest@,
            },
            Entry::Symlink { original, link } => EntryView::Symlink {
                original: original@,
                link: link@,
            },
        }
    }
}

/// Description of how to lay out the execution directory structure.
pub struct DirectoryLayout {
    /// Entries for laying out directory structure before execution.
    pub entries: Vec<Entry>,
    /// Expected paths to be generated by execution.
    pub output_paths: Vec<String>,
}

pub ghost struct LayoutView {
    pub entries: Seq<EntryView>,
    pub output_paths: Seq<Seq<char>>,
}

impl View for DirectoryLayout {
    type V = LayoutView;

    open spec fn view(&self) -> LayoutView {
        LayoutView {
            entries: self.entries@.map_values(|e: Entry| e@),
            output_paths: self.output_paths@.map_values(|s: String| s@),
        }
    }
}

impl Default for DirectoryLayout {
    /// An empty layout: no entries, no declared outputs.
    fn default() -> (r: Self)
        ensures
            r@.entries.len() == 0,
            r@.output_paths.len() == 0,
    {
        DirectoryLayout { entries: Vec::new(), output_paths: Vec::new() }
    }
}

/// Why an execution failed before or while running.
#[derive(Debug)]
pub enum ExecuteError {
    /// One or more arguments of the request are invalid.
    InvalidArgument(String),
    /// A blob was missing while the action was being set up; the client may
    /// upload it and retry.
    BlobNotFound(Digest),
    /// An internal input/output failure.
    IoError(String),
    /// An internal failure of the content store.
    CasError(CasError),
    /// An internal failure of the engine or the worker.
    Internal(String),
}

/// What a finished execution produced.
pub struct ExecuteResponse {
    pub exit_status: i32,
    pub output_paths: Vec<Entry>,
    pub stderr: Vec<u8>,
    pub stdout: Vec<u8>,
}

/// How far an execution has progressed.
pub enum ExecuteStage {
    Queued,
    Running,
    Done(ExecuteResponse),
    Error(ExecuteError),
}

impl ExecuteStage {
    /// Whether this stage ends the execution.
    pub open spec fn is_terminal(&self) -> bool {
        match self {
            ExecuteStage::Queued => false,
            ExecuteStage::Running => false,
            ExecuteStage::Done(_) => true,
            ExecuteStage::Error(_) => true,
        }
    }
}

/// One lifecycle event of an execution.
pub struct ExecuteStatus {
    pub uuid: crate::engine::Uuid,
    pub action_digest: Option<Digest>,
    pub stage: ExecuteStage,
}

} // verus!
