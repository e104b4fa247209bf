//! The execution endpoint: validates an execute request, resolves its
//! action, command and input tree out of the store, drives the engine, and
//! reports each lifecycle event as a long-running operation.

use vstd::prelude::*;
use vstd::map::*;
use crate::cas::ContentAddressableStorage;
use crate::digest::{Digest, DigestView};
use crate::engine::{staged_order, ExecutionBackend, ExecutionEngine};
use crate::execution::{Command, CommandVals, DirectoryLayout, ExecuteError, LayoutView};
use crate::operations::{convert_to_op, op_matches, spec_error_code, Operation};
use crate::resolver::{matches_resolve_err, resolve_directory, spec_resolve, ResolveErr};
use crate::rpc::{RpcError, CODE_FAILED_PRECONDITION, CODE_INTERNAL, CODE_INVALID_ARGUMENT};
use crate::wire::{decode_action, decode_command, decode_directory, dec_action, dec_command,
    dec_directory, EnvVar};

verus! {

/// How deep an input tree may nest before resolution is refused; inputs
/// are legal at any depth, this cap only bounds the recursion defensively.
pub const RESOLVE_DEPTH_LIMIT: usize = 4096;

/// An execute request as it arrives at the service.
pub struct ExecuteRequest {
    pub instance_name: String,
    pub action_digest: Option<Digest>,
    pub skip_cache_lookup: bool,
}

/// Why setting an execution up failed.
pub ghost enum PrepErr {
    /// The request carried no action digest.
    NoActionDigest,
    /// A referenced blob is absent from the store.
    Blob(DigestView),
    /// A referenced blob does not decode as the expected message.
    BadProto(DigestView),
    /// The action names no command digest.
    NoCommandDigest,
    /// The action names no input root digest.
    NoRootDigest,
    /// Expanding the input tree failed.
    Resolve(ResolveErr),
    /// A deprecated output field is present.
    LegacyOutputs,
    /// No output paths are declared.
    NoOutputs,
}

/// The environment pairs a command message declares.
pub open spec fn spec_env_pairs(evs: Seq<crate::wire::EnvVarView>) -> Seq<(Seq<char>, Seq<char>)> {
    evs.map_values(|e: crate::wire::EnvVarView| (e.name, e.value))
}

/// What setting up an execution yields under a store: the action digest,
/// the command to run, and the resolved sandbox layout — or the exact
/// reason it is refused.  The action, its command and its input root are
/// all fetched from the store by digest and decoded; the tree is expanded
/// under the empty root path; requests using the deprecated output fields
/// or declaring no outputs are refused after resolution.
pub open spec fn spec_prepare(
    contents: Map<DigestView, Seq<u8>>,
    req: ExecuteRequest,
    fuel: int,
) -> Result<(DigestView, CommandVals, LayoutView), PrepErr> {
    match req.action_digest {
        None => Err(PrepErr::NoActionDigest),
        Some(ad) => if !contents.contains_key(ad@) {
            Err(PrepErr::Blob(ad@))
        } else {
            match dec_action(contents[ad@], 0, contents[ad@].len() as int) {
                None => Err(PrepErr::BadProto(ad@)),
                Some(action) => match action.command_digest {
                    None => Err(PrepErr::NoCommandDigest),
                    Some(cd) => if !contents.contains_key(cd) {
                        Err(PrepErr::Blob(cd))
                    } else {
                        match dec_command(contents[cd], 0, contents[cd].len() as int) {
                            None => Err(PrepErr::BadProto(cd)),
                            Some(command) => match action.input_root_digest {
                                None => Err(PrepErr::NoRootDigest),
                                Some(rd) => if !contents.contains_key(rd) {
                                    Err(PrepErr::Blob(rd))
                                } else {
                                    match dec_directory(
                                        contents[rd],
                                        0,
                                        contents[rd].len() as int,
                                    ) {
                                        None => Err(PrepErr::BadProto(rd)),
                                        Some(root_dir) => match spec_resolve(
                                            contents,
                                            root_dir,
                                            Seq::empty(),
                                            fuel,
                                        ) {
                                            Err(e) => Err(PrepErr::Resolve(e)),
                                            Ok(entries) => if command.output_directories.len() > 0
                                                || command.output_files.len() > 0 {
                                                Err(PrepErr::LegacyOutputs)
                                            } else if command.output_paths.len() == 0 {
                                                Err(PrepErr::NoOutputs)
                                            } else {
                                                Ok(
                                                    (
                                                        ad@,
                                                        CommandVals {
                                                            arguments: command.arguments,
                                                            env_vars: spec_env_pairs(
                                                                command.environment_variables,
                                                            ),
                                                        },
                                                        LayoutView {
                                                            entries,
                                                            output_paths: command.output_paths,
                                                        },
                                                    ),
                                                )
                                            },
                                        },
                                    }
                                },
                            },
                        }
                    },
                },
            }
        },
    }
}

/// Whether an execution error is the one a setup failure denotes.
pub open spec fn matches_prep_err(pe: PrepErr, e: &ExecuteError) -> bool {
    match pe {
        PrepErr::NoActionDigest => e matches ExecuteError::InvalidArgument(_),
        PrepErr::Blob(d) => e matches ExecuteError::BlobNotFound(b) && b@ == d,
        PrepErr::BadProto(_) => e matches ExecuteError::InvalidArgument(_),
        PrepErr::NoCommandDigest => e matches ExecuteError::InvalidArgument(_),
        PrepErr::NoRootDigest => e matches ExecuteError::InvalidArgument(_),
        PrepErr::Resolve(re) => matches_resolve_err(re, e),
        PrepErr::LegacyOutputs => e matches ExecuteError::InvalidArgument(_),
        PrepErr::NoOutputs => e matches ExecuteError::InvalidArgument(_),
    }
}

/// The digest of the blob a setup failure found missing, at whichever step:
/// the action, its command, its input root, or any directory reached while
/// resolving the tree.
pub open spec fn prep_missing_blob(pe: PrepErr) -> Option<DigestView> {
    match pe {
        PrepErr::Blob(d) => Some(d),
        PrepErr::Resolve(re) => match re {
            ResolveErr::Blob(d) => Some(d),
            _ => None,
        },
        _ => None,
    }
}

/// The status code a setup failure surfaces as inside the terminal
/// response.
pub open spec fn prep_err_code(pe: PrepErr) -> i32 {
    match pe {
        PrepErr::NoActionDigest => CODE_INVALID_ARGUMENT,
        PrepErr::Blob(_) => CODE_FAILED_PRECONDITION,
        PrepErr::BadProto(_) => CODE_INVALID_ARGUMENT,
        PrepErr::NoCommandDigest => CODE_INVALID_ARGUMENT,
        PrepErr::NoRootDigest => CODE_INVALID_ARGUMENT,
        PrepErr::Resolve(re) => match re {
            ResolveErr::MissingDigest => CODE_INVALID_ARGUMENT,
            ResolveErr::Blob(_) => CODE_FAILED_PRECONDITION,
            ResolveErr::BadProto(_) => CODE_INVALID_ARGUMENT,
            ResolveErr::Depth => CODE_INTERNAL,
        },
        PrepErr::LegacyOutputs => CODE_INVALID_ARGUMENT,
        PrepErr::NoOutputs => CODE_INVALID_ARGUMENT,
    }
}

fn env_pairs(evs: &Vec<EnvVar>) -> (r: Vec<(String, String)>)
    ensures
        r@.map_values(|p: (String, String)| (p.0@, p.1@)) == spec_env_pairs(
            evs@.map_values(|e: EnvVar| e@),
        ),
{
    let ghost gv = evs@.map_values(|e: EnvVar| e@);
    let mut out: Vec<(String, String)> = Vec::new();
    let n = evs.len();
    let mut i: usize = 0;
    while i < n
        invariant
            n == evs@.len(),
            0 <= i <= n,
            gv == evs@.map_values(|e: EnvVar| e@),
            out@.len() == i,
            forall|k: int|
                0 <= k < i ==> (#[trigger] out@[k]).0@ == gv[k].name && out@[k].1@ == gv[k].value,
        decreases n - i,
    {
        out.push((evs[i].name.clone(), evs[i].value.clone()));
        i = i + 1;
    }
    proof {
        assert(out@.map_values(|p: (String, String)| (p.0@, p.1@)) =~= spec_env_pairs(gv));
    }
    out
}

/// Resolves an execute request into what the engine needs: the action
/// digest, the command, and the sandbox layout, fetching the action, its
/// command and its input root from the store.
#[verifier::rlimit(100)]
pub fn prepare_execution<C: ContentAddressableStorage>(cas: &C, request: &ExecuteRequest) -> (r:
    Result<(Digest, Command, DirectoryLayout), ExecuteError>)
    requires
        cas.wf(),
    ensures
        match spec_prepare(cas.contents(), *request, RESOLVE_DEPTH_LIMIT as int) {
            Ok(t) => r matches Ok(v) && v.0@ == t.0 && v.1@ == t.1 && v.2@ == t.2,
            Err(pe) => r matches Err(e) && matches_prep_err(pe, &e),
        },
{
    let action_digest = match &request.action_digest {
        None => {
            return Err(
                ExecuteError::InvalidArgument(String::from_str("no action digest specified")),
            );
        },
        Some(d) => d.clone(),
    };
    let action_blob = match cas.read_blob(action_digest.clone()) {
        Err(_) => {
            return Err(ExecuteError::BlobNotFound(action_digest));
        },
        Ok(b) => b,
    };
    let action = match decode_action(&action_blob) {
        None => {
            return Err(
                ExecuteError::InvalidArgument(String::from_str("blob is not an action message")),
            );
        },
        Some(a) => a,
    };
    let command_digest = match &action.command_digest {
        None => {
            return Err(
                ExecuteError::InvalidArgument(
                    String::from_str("invalid action: no command digest specified"),
                ),
            );
        },
        Some(d) => d.clone(),
    };
    let command_blob = match cas.read_blob(command_digest.clone()) {
        Err(_) => {
            return Err(ExecuteError::BlobNotFound(command_digest));
        },
        Ok(b) => b,
    };
    let command = match decode_command(&command_blob) {
        None => {
            return Err(
                ExecuteError::InvalidArgument(String::from_str("blob is not a command message")),
            );
        },
        Some(c) => c,
    };
    let root_digest = match &action.input_root_digest {
        None => {
            return Err(
                ExecuteError::InvalidArgument(
                    String::from_str("invalid action: no root digest specified"),
                ),
            );
        },
        Some(d) => d.clone(),
    };
    let root_blob = match cas.read_blob(root_digest.clone()) {
        Err(_) => {
            return Err(ExecuteError::BlobNotFound(root_digest));
        },
        Ok(b) => b,
    };
    let root_dir = match decode_directory(&root_blob) {
        None => {
            return Err(
                ExecuteError::InvalidArgument(String::from_str("blob is not a directory message")),
            );
        },
        Some(d) => d,
    };
    proof {
        reveal_strlit("");
        assert(""@ =~= Seq::<char>::empty());
    }
    let entries = match resolve_directory(cas, &root_dir, "", RESOLVE_DEPTH_LIMIT) {
        Err(e) => {
            return Err(e);
        },
        Ok(es) => es,
    };
    if command.output_directories.len() > 0 || command.output_files.len() > 0 {
        return Err(
            ExecuteError::InvalidArgument(
                String::from_str("only RBE v2.1+ supported; use output_paths"),
            ),
        );
    }
    if command.output_paths.len() == 0 {
        return Err(
            ExecuteError::InvalidArgument(String::from_str("no output_paths were specified")),
        );
    }
    let env_vars = env_pairs(&command.environment_variables);
    let cmd = Command { arguments: command.arguments, env_vars };
    let layout = DirectoryLayout { entries, output_paths: command.output_paths };
    proof {
        let t = spec_prepare(cas.contents(), *request, RESOLVE_DEPTH_LIMIT as int)->Ok_0;
        assert(cmd@.arguments =~= t.1.arguments);
        assert(layout@.output_paths =~= t.2.output_paths);
        assert(cmd@ == t.1);
        assert(layout@ == t.2);
    }
    Ok((action_digest, cmd, layout))
}

/// The execution endpoint over a store and an engine.
pub struct ExecutionService<C, B> {
    pub instance: String,
    pub cas: C,
    pub engine: ExecutionEngine<B>,
}

impl<C: ContentAddressableStorage, B: ExecutionBackend<C>> ExecutionService<C, B> {
    pub fn new(instance: &str, cas: C, engine: ExecutionEngine<B>) -> (r: Self)
        ensures
            r.instance@ == instance@,
            r.cas == cas,
    {
        ExecutionService { instance: String::from_str(instance), cas, engine }
    }

    /// Runs one execute request.  A request for another instance — and only
    /// such a request — is refused before acceptance, leaving the store
    /// untouched; every accepted request yields a stream of operations, and
    /// every later failure travels inside the terminal operation.  The
    /// operations all carry one name `operations/<uuid>` for a fresh
    /// identifier; only the last is done; when setup fails it is the only
    /// operation, carrying the failure's status code — and for a blob found
    /// missing at any setup step, the `MISSING` violation with its
    /// `blobs/<hash>/<size>` subject.
    pub fn execute(&mut self, request: ExecuteRequest) -> (r: Result<Vec<Operation>, RpcError>)
        requires
            old(self).cas.wf(),
        ensures
            final(self).cas.wf(),
            final(self).instance == old(self).instance,
            request.instance_name@ == old(self).instance@ <==> r is Ok,
            request.instance_name@ != old(self).instance@ <==> (r matches Err(e) && (
            e matches RpcError::PermissionDenied(_))),
            r is Err ==> final(self).cas.contents() == old(self).cas.contents(),
            r matches Ok(ops) ==> ({
                &&& 1 <= ops@.len() <= 3
                &&& ops@[ops@.len() - 1].done
                &&& forall|i: int| 0 <= i < ops@.len() - 1 ==> !(#[trigger] ops@[i]).done
                &&& ops@[0].name@.len() == 47
                &&& ops@[0].name@.subrange(0, 11) == "operations/"@
                &&& forall|j: int|
                    0 <= j < ops@.len() ==> (#[trigger] ops@[j]).name@ == ops@[0].name@
                &&& exists|events: Seq<crate::execution::ExecuteStatus>|
                    #![trigger staged_order(events)]
                    {
                        &&& staged_order(events)
                        &&& events.len() == ops@.len()
                        &&& forall|j: int|
                            0 <= j < events.len() ==> (#[trigger] events[j]).uuid@
                                == events[0].uuid@ && events[j].uuid@.len() == 36
                        &&& forall|j: int|
                            0 <= j < ops@.len() ==> op_matches(#[trigger] ops@[j], events[j])
                        &&& (spec_prepare(
                            old(self).cas.contents(),
                            request,
                            RESOLVE_DEPTH_LIMIT as int,
                        ) matches Ok(t) ==> forall|j: int|
                            0 <= j < events.len() ==> ((#[trigger] events[j]).action_digest
                                matches Some(ad) && ad@ == t.0))
                    }
                &&& match spec_prepare(
                    old(self).cas.contents(),
                    request,
                    RESOLVE_DEPTH_LIMIT as int,
                ) {
                    Err(pe) => {
                        &&& ops@.len() == 1
                        &&& ops@[0].result matches Some(resp) && (resp.value.status matches Some(
                            st,
                        ) && st.code == prep_err_code(pe))
                        &&& (prep_missing_blob(pe) matches Some(d) ==> ops@[0].result matches Some(
                            resp2,
                        ) && (resp2.value.status matches Some(st2) && st2.details@.len() == 1
                            && st2.details@[0].type_url@
                            == "type.googleapis.com/com.google.rpc.PreconditionFailure"@
                            && st2.details@[0].value.violations@.len() == 1 && ({
                            let v = st2.details@[0].value.violations@[0];
                            &&& v.violation_type@ == "MISSING"@
                            &&& v.subject@ == crate::operations::spec_violation_subject(d)
                        })))
                    },
                    Ok(_) => ops@.len() == 3,
                }
            }),
    {
        if !(request.instance_name == self.instance) {
            return Err(
                RpcError::PermissionDenied(
                    String::from_str("request sent to invalid instance"),
                ),
            );
        }
        let setup = prepare_execution(&self.cas, &request);
        let ghost gsetup = setup;
        let ghost prep = spec_prepare(
            old(self).cas.contents(),
            request,
            RESOLVE_DEPTH_LIMIT as int,
        );
        let mut events = self.engine.execute(&mut self.cas, setup);
        let ghost ev0 = events@;
        let mut ops: Vec<Operation> = Vec::new();
        proof {
            assert(ev0.subrange(0, ev0.len() as int) =~= ev0);
        }
        while events.len() > 0
            invariant
                ops@.len() + events@.len() == ev0.len(),
                events@ =~= ev0.subrange(ops@.len() as int, ev0.len() as int),
                forall|j: int| 0 <= j < ops@.len() ==> op_matches(#[trigger] ops@[j], ev0[j]),
            decreases events@.len(),
        {
            let event = events.remove(0);
            proof {
                assert(event == ev0[ops@.len() as int]);
            }
            let op = convert_to_op(event);
            ops.push(op);
            proof {
                assert(events@ =~= ev0.subrange(ops@.len() as int, ev0.len() as int));
            }
        }
        proof {
            assert(ops@.len() == ev0.len());
            assert(op_matches(ops@[0], ev0[0]));
            assert forall|j: int| 0 <= j < ops@.len() implies (#[trigger] ops@[j]).name@
                == ops@[0].name@ by {
                assert(op_matches(ops@[j], ev0[j]));
                assert(ev0[j].uuid@ == ev0[0].uuid@);
            }
            reveal_strlit("operations/");
            assert(ops@[0].name@ == "operations/"@ + ev0[0].uuid@);
            assert(ev0[0].uuid@.len() == 36);
            assert(ops@[0].name@.len() == 47);
            assert(ops@[0].name@.subrange(0, 11) =~= "operations/"@);
            assert(staged_order(ev0));
            if prep is Ok {
                let t = prep->Ok_0;
                assert forall|j: int| 0 <= j < ev0.len() implies ((#[trigger] ev0[j]).action_digest
                    matches Some(ad) && ad@ == t.0) by {
                    assert(gsetup matches Ok(v) && v.0@ == t.0);
                }
            }
            if prep is Err {
                let pe = prep->Err_0;
                let e = gsetup->Err_0;
                assert(matches_prep_err(pe, &e));
                assert(ev0[0].stage matches crate::execution::ExecuteStage::Error(e2) && e2 == e);
                assert(spec_error_code(&e) == prep_err_code(pe));
                if prep_missing_blob(pe) is Some {
                    let d = prep_missing_blob(pe)->Some_0;
                    assert(e matches crate::execution::ExecuteError::BlobNotFound(b) && b@ == d);
                }
            }
        }
        Ok(ops)
    }

    /// Reattaching to a running operation is out of scope for this release.
    pub fn wait_execution(&self) -> (r: Result<Vec<Operation>, RpcError>)
        ensures
            r matches Err(e) && e matches RpcError::NotFound(_),
    {
        Err(RpcError::NotFound(String::from_str("WaitExecution: Not yet implemented")))
    }
}

} // verus!
