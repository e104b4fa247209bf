//! Mapping lifecycle events onto long-running operations: each engine event
//! becomes one `Operation` carrying staged metadata, and the terminal event
//! carries the typed execute response with its status and details.

use vstd::prelude::*;
use crate::digest::{Digest, DigestView};
use crate::execution::{Entry, ExecuteError, ExecuteStage, ExecuteStatus};
use crate::num::{dec_str_i64, i64_to_dec};
use crate::rpc::{PreconditionFailure, PreconditionFailureAny, RpcStatus, Violation,
    CODE_FAILED_PRECONDITION,
    CODE_INTERNAL, CODE_INVALID_ARGUMENT, CODE_OK};
use crate::wire::opt_digest_view;

verus! {

pub const STAGE_UNKNOWN: i32 = 0;

pub const STAGE_QUEUED: i32 = 2;

pub const STAGE_EXECUTING: i32 = 3;

pub const STAGE_COMPLETED: i32 = 4;

/// The type URL under which execute-operation metadata travels in an `Any`.
pub fn exec_op_metadata_url() -> (r: &'static str)
    ensures
        r@ == "type.googleapis.com/build.bazel.remote.execution.v2.ExecuteOperationMetadata"@,
{
    "type.googleapis.com/build.bazel.remote.execution.v2.ExecuteOperationMetadata"
}

/// The type URL under which an execute response travels in an `Any`.
pub fn exec_response_url() -> (r: &'static str)
    ensures
        r@ == "type.googleapis.com/build.bazel.remote.execution.v2.ExecuteResponse"@,
{
    "type.googleapis.com/build.bazel.remote.execution.v2.ExecuteResponse"
}

/// The type URL under which a precondition failure travels in an `Any`.
pub fn precondition_failure_url() -> (r: &'static str)
    ensures
        r@ == "type.googleapis.com/com.google.rpc.PreconditionFailure"@,
{
    "type.googleapis.com/com.google.rpc.PreconditionFailure"
}

/// Staged progress attached to every operation.
pub struct ExecuteOperationMetadata {
    pub stage: i32,
    pub action_digest: Option<Digest>,
    pub stdout_stream_name: String,
    pub stderr_stream_name: String,
}

/// One produced file in an action result.
pub struct OutputFileMsg {
    pub path: String,
    pub digest: Option<Digest>,
    pub is_executable: bool,
    pub contents: Vec<u8>,
}

/// One produced directory in an action result, recorded by its tree digest.
pub struct OutputDirectoryMsg {
    pub path: String,
    pub tree_digest: Option<Digest>,
    pub is_topologically_sorted: bool,
}

/// One produced symlink in an action result.
pub struct OutputSymlinkMsg {
    pub path: String,
    pub target: String,
}

/// The typed result of a finished execution.
pub struct ActionResultMsg {
    pub output_files: Vec<OutputFileMsg>,
    pub output_symlinks: Vec<OutputSymlinkMsg>,
    pub output_directories: Vec<OutputDirectoryMsg>,
    pub exit_code: i32,
    pub stdout_raw: Vec<u8>,
    pub stderr_raw: Vec<u8>,
}

/// The execute response embedded in a terminal operation.
pub struct ExecuteResponseMsg {
    pub result: Option<ActionResultMsg>,
    pub cached_result: bool,
    pub status: Option<RpcStatus>,
    pub message: String,
}

/// Metadata payload with the type URL it travels under.
pub struct OperationMetadataAny {
    pub type_url: String,
    pub value: ExecuteOperationMetadata,
}

/// Response payload with the type URL it travels under.
pub struct OperationResponseAny {
    pub type_url: String,
    pub value: ExecuteResponseMsg,
}

/// One long-running operation as reported on the execute stream.
pub struct Operation {
    pub name: String,
    pub done: bool,
    pub metadata: Option<OperationMetadataAny>,
    pub result: Option<OperationResponseAny>,
}

/// The stage value reported for an engine event.
pub open spec fn spec_stage_value(stage: &ExecuteStage) -> i32 {
    match stage {
        ExecuteStage::Queued => STAGE_QUEUED,
        ExecuteStage::Running => STAGE_EXECUTING,
        ExecuteStage::Done(_) => STAGE_COMPLETED,
        ExecuteStage::Error(_) => STAGE_UNKNOWN,
    }
}

/// The status code reported for a failed execution.
pub open spec fn spec_error_code(e: &ExecuteError) -> i32 {
    match e {
        ExecuteError::InvalidArgument(_) => CODE_INVALID_ARGUMENT,
        ExecuteError::BlobNotFound(_) => CODE_FAILED_PRECONDITION,
        ExecuteError::IoError(_) => CODE_INTERNAL,
        ExecuteError::CasError(_) => CODE_INTERNAL,
        ExecuteError::Internal(_) => CODE_INTERNAL,
    }
}

/// The subject of a missing-blob violation: `blobs/<hash>/<size>`.
pub open spec fn spec_violation_subject(d: DigestView) -> Seq<char> {
    "blobs/"@ + d.hash + "/"@ + dec_str_i64(d.size_bytes)
}

/// The file entries of a result, in order: `(path, digest, executable)`.
pub open spec fn spec_out_files(es: Seq<Entry>, i: int) -> Seq<(Seq<char>, Option<DigestView>, bool)>
    decreases es.len() - i
        when 0 <= i <= es.len()
{
    if i >= es.len() {
        Seq::empty()
    } else {
        match es[i] {
            Entry::File { path, digest, executable } => seq![(path@, Some(digest@), executable)]
                + spec_out_files(es, i + 1),
            _ => spec_out_files(es, i + 1),
        }
    }
}

/// The directory entries of a result, in order: `(path, tree digest)`.
pub open spec fn spec_out_dirs(es: Seq<Entry>, i: int) -> Seq<(Seq<char>, Option<DigestView>)>
    decreases es.len() - i
        when 0 <= i <= es.len()
{
    if i >= es.len() {
        Seq::empty()
    } else {
        match es[i] {
            Entry::Directory { path, digest } => seq![(path@, Some(digest@))] + spec_out_dirs(es, i + 1),
            _ => spec_out_dirs(es, i + 1),
        }
    }
}

/// The symlink entries of a result, in order: `(path, target)`.
pub open spec fn spec_out_symlinks(es: Seq<Entry>, i: int) -> Seq<(Seq<char>, Seq<char>)>
    decreases es.len() - i
        when 0 <= i <= es.len()
{
    if i >= es.len() {
        Seq::empty()
    } else {
        match es[i] {
            Entry::Symlink { original, link } => seq![(original@, link@)] + spec_out_symlinks(
                es,
                i + 1,
            ),
            _ => spec_out_symlinks(es, i + 1),
        }
    }
}

fn build_output_files(es: &Vec<Entry>, i: usize) -> (r: Vec<OutputFileMsg>)
    requires
        i <= es@.len(),
    ensures
        r@.map_values(|f: OutputFileMsg| (f.path@, opt_view_of(&f.digest), f.is_executable))
            == spec_out_files(es@, i as int),
        forall|j: int| 0 <= j < r@.len() ==> (#[trigger] r@[j]).contents@.len() == 0,
    decreases es@.len() - i,
{
    if i >= es.len() {
        let empty: Vec<OutputFileMsg> = Vec::new();
        proof {
            assert(empty@.map_values(
                |f: OutputFileMsg| (f.path@, opt_view_of(&f.digest), f.is_executable),
            ) =~= spec_out_files(es@, i as int));
        }
        return empty;
    }
    let mut rest = build_output_files(es, i + 1);
    match &es[i] {
        Entry::File { path, digest, executable } => {
            let msg = OutputFileMsg {
                path: path.clone(),
                digest: Some(digest.clone()),
                is_executable: *executable,
                contents: Vec::new(),
            };
            let mut out: Vec<OutputFileMsg> = Vec::new();
            out.push(msg);
            out.append(&mut rest);
            proof {
                assert(out@.map_values(
                    |f: OutputFileMsg| (f.path@, opt_view_of(&f.digest), f.is_executable),
                ) =~= spec_out_files(es@, i as int));
            }
            out
        },
        _ => rest,
    }
}

/// View of an optional digest.
pub open spec fn opt_view_of(o: &Option<Digest>) -> Option<DigestView> {
    opt_digest_view(o)
}

fn build_output_dirs(es: &Vec<Entry>, i: usize) -> (r: Vec<OutputDirectoryMsg>)
    requires
        i <= es@.len(),
    ensures
        r@.map_values(|d: OutputDirectoryMsg| (d.path@, opt_view_of(&d.tree_digest)))
            == spec_out_dirs(es@, i as int),
        forall|j: int| 0 <= j < r@.len() ==> !(#[trigger] r@[j]).is_topologically_sorted,
    decreases es@.len() - i,
{
    if i >= es.len() {
        let empty: Vec<OutputDirectoryMsg> = Vec::new();
        proof {
            assert(empty@.map_values(
                |d: OutputDirectoryMsg| (d.path@, opt_view_of(&d.tree_digest)),
            ) =~= spec_out_dirs(es@, i as int));
        }
        return empty;
    }
    let mut rest = build_output_dirs(es, i + 1);
    match &es[i] {
        Entry::Directory { path, digest } => {
            let msg = OutputDirectoryMsg {
                path: path.clone(),
                tree_digest: Some(digest.clone()),
                is_topologically_sorted: false,
            };
            let mut out: Vec<OutputDirectoryMsg> = Vec::new();
            out.push(msg);
            out.append(&mut rest);
            proof {
                assert(out@.map_values(
                    |d: OutputDirectoryMsg| (d.path@, opt_view_of(&d.tree_digest)),
                ) =~= spec_out_dirs(es@, i as int));
            }
            out
        },
        _ => rest,
    }
}

fn build_output_symlinks(es: &Vec<Entry>, i: usize) -> (r: Vec<OutputSymlinkMsg>)
    requires
        i <= es@.len(),
    ensures
        r@.map_values(|l: OutputSymlinkMsg| (l.path@, l.target@)) == spec_out_symlinks(
            es@,
            i as int,
        ),
    decreases es@.len() - i,
{
    if i >= es.len() {
        let empty: Vec<OutputSymlinkMsg> = Vec::new();
        proof {
            assert(empty@.map_values(|l: OutputSymlinkMsg| (l.path@, l.target@))
                =~= spec_out_symlinks(es@, i as int));
        }
        return empty;
    }
    let mut rest = build_output_symlinks(es, i + 1);
    match &es[i] {
        Entry::Symlink { original, link } => {
            let msg = OutputSymlinkMsg { path: original.clone(), target: link.clone() };
            let mut out: Vec<OutputSymlinkMsg> = Vec::new();
            out.push(msg);
            out.append(&mut rest);
            proof {
                assert(out@.map_values(|l: OutputSymlinkMsg| (l.path@, l.target@))
                    =~= spec_out_symlinks(es@, i as int));
            }
            out
        },
        _ => rest,
    }
}

/// Builds the status value for a failed execution: its canonical code, and
/// for a missing blob the `PreconditionFailure` detail whose violation has
/// type `MISSING` and subject `blobs/<hash>/<size>`.
fn error_status(e: &ExecuteError) -> (r: RpcStatus)
    ensures
        r.code == spec_error_code(e),
        e matches ExecuteError::BlobNotFound(d) ==> r.details@.len() == 1 && r.details@[0].type_url@
            == "type.googleapis.com/com.google.rpc.PreconditionFailure"@
            && r.details@[0].value.violations@.len() == 1 && ({
            let v = r.details@[0].value.violations@[0];
            &&& v.violation_type@ == "MISSING"@
            &&& v.subject@ == spec_violation_subject(d@)
        }),
        !(e matches ExecuteError::BlobNotFound(_)) ==> r.details@.len() == 0,
{
    match e {
        ExecuteError::InvalidArgument(info) => {
            proof {
                reveal_strlit("Invalid Argument: ");
            }
            let mut message = String::from_str("Invalid Argument: ");
            message.append(info.as_str());
            RpcStatus { code: CODE_INVALID_ARGUMENT, message, details: Vec::new() }
        },
        ExecuteError::BlobNotFound(digest) => {
            proof {
                reveal_strlit("blobs/");
                reveal_strlit("/");
                reveal_strlit(" not found");
            }
            let mut subject = String::from_str("blobs/");
            subject.append(digest.hash());
            subject.append("/");
            let size_text = i64_to_dec(digest.size_bytes());
            subject.append(size_text.as_str());
            proof {
                assert(subject@ =~= spec_violation_subject(digest@));
            }
            let violation = Violation {
                violation_type: String::from_str("MISSING"),
                subject,
                description: String::from_str("blob not found"),
            };
            let mut violations: Vec<Violation> = Vec::new();
            violations.push(violation);
            let mut details: Vec<PreconditionFailureAny> = Vec::new();
            details.push(
                PreconditionFailureAny {
                    type_url: String::from_str(precondition_failure_url()),
                    value: PreconditionFailure { violations },
                },
            );
            let mut message = digest.to_text();
            message.append(" not found");
            RpcStatus { code: CODE_FAILED_PRECONDITION, message, details }
        },
        ExecuteError::IoError(info) => {
            proof {
                reveal_strlit("Internal Failure: ");
            }
            let mut message = String::from_str("Internal Failure: ");
            message.append(info.as_str());
            RpcStatus { code: CODE_INTERNAL, message, details: Vec::new() }
        },
        ExecuteError::CasError(_) => {
            RpcStatus {
                code: CODE_INTERNAL,
                message: String::from_str("Internal Failure: content store error."),
                details: Vec::new(),
            }
        },
        ExecuteError::Internal(info) => {
            proof {
                reveal_strlit("Internal Failure: ");
            }
            let mut message = String::from_str("Internal Failure: ");
            message.append(info.as_str());
            RpcStatus { code: CODE_INTERNAL, message, details: Vec::new() }
        },
    }
}

/// What `convert_to_op` promises of the operation built for one lifecycle
/// event: it is named `operations/<uuid>`; it is done exactly on a terminal
/// event; metadata always carries the stage and the action digest; the
/// embedded response appears exactly when done, is never cached, and
/// carries either the typed result with status `OK` or the error's status
/// with its details.  The `Operation.error` field does not exist here at
/// all: errors always travel inside the response.
pub open spec fn op_matches(r: Operation, exec_status: ExecuteStatus) -> bool {
    &&& r.name@ == "operations/"@ + exec_status.uuid@
    &&& r.done == exec_status.stage.is_terminal()
    &&& r.metadata matches Some(m) && m.type_url@
        == "type.googleapis.com/build.bazel.remote.execution.v2.ExecuteOperationMetadata"@
        && m.value.stage == spec_stage_value(&exec_status.stage) && opt_view_of(
        &m.value.action_digest,
    ) == opt_view_of(&exec_status.action_digest)
    &&& r.result is Some <==> exec_status.stage.is_terminal()
    &&& r.result matches Some(resp) ==> resp.type_url@
        == "type.googleapis.com/build.bazel.remote.execution.v2.ExecuteResponse"@
        && !resp.value.cached_result
    &&& exec_status.stage matches ExecuteStage::Done(d) ==> r.result matches Some(resp) && ({
        &&& resp.value.status matches Some(st) && st.code == CODE_OK
        &&& resp.value.result matches Some(ar) && ({
            &&& ar.exit_code == d.exit_status
            &&& ar.stdout_raw@ == d.stdout@
            &&& ar.stderr_raw@ == d.stderr@
            &&& ar.output_files@.map_values(
                |f: OutputFileMsg| (f.path@, opt_view_of(&f.digest), f.is_executable),
            ) == spec_out_files(d.output_paths@, 0)
            &&& ar.output_directories@.map_values(
                |dm: OutputDirectoryMsg| (dm.path@, opt_view_of(&dm.tree_digest)),
            ) == spec_out_dirs(d.output_paths@, 0)
            &&& ar.output_symlinks@.map_values(|l: OutputSymlinkMsg| (l.path@, l.target@))
                == spec_out_symlinks(d.output_paths@, 0)
        })
    })
    &&& exec_status.stage matches ExecuteStage::Error(e) ==> r.result matches Some(resp) && ({
        &&& resp.value.result is None
        &&& resp.value.status matches Some(st) && st.code == spec_error_code(&e)
        &&& (e matches ExecuteError::BlobNotFound(bd) ==> resp.value.status matches Some(st2)
            && st2.details@.len() == 1 && st2.details@[0].type_url@
            == "type.googleapis.com/com.google.rpc.PreconditionFailure"@
            && st2.details@[0].value.violations@.len() == 1 && ({
            let v = st2.details@[0].value.violations@[0];
            &&& v.violation_type@ == "MISSING"@
            &&& v.subject@ == spec_violation_subject(bd@)
        }))
    })
}

/// Maps one lifecycle event to the operation reported on the stream.
pub fn convert_to_op(exec_status: ExecuteStatus) -> (r: Operation)
    ensures
        op_matches(r, exec_status),
{
    proof {
        reveal_strlit("operations/");
    }
    let metadata_stage: i32 = match &exec_status.stage {
        ExecuteStage::Queued => STAGE_QUEUED,
        ExecuteStage::Running => STAGE_EXECUTING,
        ExecuteStage::Done(_) => STAGE_COMPLETED,
        ExecuteStage::Error(_) => STAGE_UNKNOWN,
    };
    let action_digest_copy: Option<Digest> = match &exec_status.action_digest {
        Some(d) => Some(d.clone()),
        None => None,
    };
    let metadata = ExecuteOperationMetadata {
        stage: metadata_stage,
        action_digest: action_digest_copy,
        stdout_stream_name: String::new(),
        stderr_stream_name: String::new(),
    };
    let mut name = String::from_str("operations/");
    name.append(exec_status.uuid.text());
    let (done, result): (bool, Option<OperationResponseAny>) = match &exec_status.stage {
        ExecuteStage::Queued => (false, None),
        ExecuteStage::Running => (false, None),
        ExecuteStage::Error(err) => {
            let status = error_status(err);
            let response = ExecuteResponseMsg {
                result: None,
                cached_result: false,
                status: Some(status),
                message: String::new(),
            };
            (
                true,
                Some(
                    OperationResponseAny {
                        type_url: String::from_str(exec_response_url()),
                        value: response,
                    },
                ),
            )
        },
        ExecuteStage::Done(resp) => {
            let output_files = build_output_files(&resp.output_paths, 0);
            let output_directories = build_output_dirs(&resp.output_paths, 0);
            let output_symlinks = build_output_symlinks(&resp.output_paths, 0);
            let result_msg = ActionResultMsg {
                output_files,
                output_symlinks,
                output_directories,
                exit_code: resp.exit_status,
                stdout_raw: clone_bytes(&resp.stdout),
                stderr_raw: clone_bytes(&resp.stderr),
            };
            let response = ExecuteResponseMsg {
                result: Some(result_msg),
                cached_result: false,
                status: Some(
                    RpcStatus { code: CODE_OK, message: String::new(), details: Vec::new() },
                ),
                message: String::new(),
            };
            (
                true,
                Some(
                    OperationResponseAny {
                        type_url: String::from_str(exec_response_url()),
                        value: response,
                    },
                ),
            )
        },
    };
    Operation {
        name,
        done,
        metadata: Some(
            OperationMetadataAny {
                type_url: String::from_str(exec_op_metadata_url()),
                value: metadata,
            },
        ),
        result,
    }
}

/// Copies a byte vector.
fn clone_bytes(v: &Vec<u8>) -> (r: Vec<u8>)
    ensures
        r@ == v@,
{
    vstd::slice::slice_to_vec(v.as_slice())
}

} // verus!
