use oryx::backend::{collect_outputs, sandbox_plan, FoundOutput, OutDir};
use oryx::cas::{ContentAddressableStorage, InMemory};
use oryx::client::{add_action, add_command, add_directory, collect_action_result, Directory};
use oryx::digest::Digest;
use oryx::engine::{ExecutionBackend, ExecutionEngine, Hermetic};
use oryx::exec_service::{ExecuteRequest, ExecutionService};
use oryx::execution::{Command, DirectoryLayout, ExecuteError, ExecuteResponse, ExecuteStage};
use oryx::rpc::{CODE_FAILED_PRECONDITION, CODE_INVALID_ARGUMENT, CODE_OK};

/// A backend that pretends the shell command ran and left the configured
/// outputs behind; it still materializes the plan against the store, so
/// missing input blobs fail exactly as in a real run.
struct FakeShell {
    found: Vec<FoundOutput>,
}

impl ExecutionBackend<InMemory> for FakeShell {
    fn run_command(
        &mut self,
        cas: &mut InMemory,
        _command: Command,
        dir: DirectoryLayout,
    ) -> Result<ExecuteResponse, ExecuteError> {
        let _plan = sandbox_plan(cas, &dir)?;
        let found = std::mem::take(&mut self.found);
        assert_eq!(found.len(), dir.output_paths.len());
        let entries = collect_outputs(cas, &dir.output_paths, &found)?;
        Ok(ExecuteResponse {
            exit_status: 0,
            output_paths: entries,
            stderr: Vec::new(),
            stdout: Vec::new(),
        })
    }
}

fn strings(items: &[&str]) -> Vec<String> {
    items.iter().map(|s| String::from(*s)).collect()
}

fn request(action_digest: Option<Digest>) -> ExecuteRequest {
    ExecuteRequest {
        instance_name: String::new(),
        action_digest,
        skip_cache_lookup: false,
    }
}

fn terminal_status_code(ops: &Vec<oryx::operations::Operation>) -> i32 {
    let last = ops.last().unwrap();
    assert!(last.done);
    let resp = last.result.as_ref().unwrap();
    resp.value.status.as_ref().unwrap().code
}

#[test]
fn invalid_no_action_digest() {
    let engine = ExecutionEngine::new(FakeShell { found: Vec::new() });
    let mut service = ExecutionService::new("", InMemory::default(), engine);
    let ops = service.execute(request(None)).unwrap();
    assert_eq!(ops.len(), 1);
    assert!(ops[0].name.starts_with("operations/"));
    assert!(ops[0].done);
    assert_eq!(terminal_status_code(&ops), CODE_INVALID_ARGUMENT);
}

#[test]
fn blob_precondition_failure() {
    let missing_digest = Digest::from_str("aaaa:5").unwrap();
    let engine = ExecutionEngine::new(FakeShell { found: Vec::new() });
    let mut service = ExecutionService::new("", InMemory::default(), engine);
    let ops = service.execute(request(Some(missing_digest))).unwrap();
    assert_eq!(ops.len(), 1);
    assert!(ops[0].name.starts_with("operations/"));
    assert_eq!(terminal_status_code(&ops), CODE_FAILED_PRECONDITION);
    let resp = ops[0].result.as_ref().unwrap();
    let status = resp.value.status.as_ref().unwrap();
    assert_eq!(status.details.len(), 1);
    assert_eq!(
        status.details[0].type_url,
        "type.googleapis.com/com.google.rpc.PreconditionFailure"
    );
    let violation = &status.details[0].value.violations[0];
    assert_eq!(violation.violation_type, "MISSING");
    assert_eq!(violation.subject, "blobs/aaaa/5");
}

#[test]
fn execute_rejects_wrong_instance() {
    let engine = ExecutionEngine::new(FakeShell { found: Vec::new() });
    let mut service = ExecutionService::new("prod", InMemory::default(), engine);
    let r = service.execute(request(None));
    assert!(matches!(r, Err(oryx::rpc::RpcError::PermissionDenied(_))));
}

#[test]
fn basic_req() {
    let mut cas = InMemory::default();
    let command_digest = add_command(
        &mut cas,
        strings(&["/bin/sh", "-c", "echo magic > out.txt"]),
        strings(&["out.txt"]),
    )
    .unwrap();
    let root_dir_digest = add_directory(&mut cas, &Directory::root()).unwrap();
    let action_digest = add_action(&mut cas, command_digest, root_dir_digest).unwrap();

    let engine = ExecutionEngine::new(FakeShell {
        found: vec![FoundOutput::File(b"magic\n".to_vec())],
    });
    let mut service = ExecutionService::new("", cas, engine);
    let ops = service.execute(request(Some(action_digest.0))).unwrap();
    assert_eq!(ops.len(), 3);
    assert_eq!(terminal_status_code(&ops), CODE_OK);

    let result = collect_action_result(&service.cas, &ops).unwrap();
    assert_eq!(result.exit_code, 0);

    let mut expected_directory = Directory::root();
    expected_directory.add_path("out.txt", Some(b"magic\n"));
    assert_eq!(result.directory, expected_directory);
}

#[test]
fn basic_req_with_file_output() {
    let mut cas = InMemory::default();
    let command_digest = add_command(
        &mut cas,
        strings(&["/bin/sh", "-c", "ls > out.txt"]),
        strings(&["out.txt"]),
    )
    .unwrap();
    let mut root_dir = Directory::root();
    root_dir.add_path("file0.txt", Some(b"0\n"));
    let root_dir_digest = add_directory(&mut cas, &root_dir).unwrap();
    let action_digest = add_action(&mut cas, command_digest, root_dir_digest).unwrap();

    let engine = ExecutionEngine::new(FakeShell {
        found: vec![FoundOutput::File(b"file0.txt\nout.txt\n".to_vec())],
    });
    let mut service = ExecutionService::new("", cas, engine);
    let ops = service.execute(request(Some(action_digest.0))).unwrap();
    assert_eq!(terminal_status_code(&ops), CODE_OK);

    let result = collect_action_result(&service.cas, &ops).unwrap();
    assert_eq!(result.exit_code, 0);

    let mut expected_directory = Directory::root();
    expected_directory.add_path("out.txt", Some(b"file0.txt\nout.txt\n"));
    assert_eq!(result.directory, expected_directory);
}

#[test]
fn basic_req_with_dir_output() {
    let mut cas = InMemory::default();
    let command_digest = add_command(
        &mut cas,
        strings(&[
            "/bin/sh",
            "-c",
            "mkdir -p a/b/dir/foo && echo 'bar bar bar' > a/b/dir/bar && echo 'baz baz baz' > a/b/dir/foo/baz",
        ]),
        strings(&["a/b/dir"]),
    )
    .unwrap();
    let root_dir_digest = add_directory(&mut cas, &Directory::root()).unwrap();
    let action_digest = add_action(&mut cas, command_digest, root_dir_digest).unwrap();

    let out_tree = OutDir {
        files: vec![(String::from("bar"), b"bar bar bar\n".to_vec())],
        dirs: vec![(
            String::from("foo"),
            OutDir {
                files: vec![(String::from("baz"), b"baz baz baz\n".to_vec())],
                dirs: Vec::new(),
            },
        )],
    };
    let engine = ExecutionEngine::new(FakeShell { found: vec![FoundOutput::Dir(out_tree)] });
    let mut service = ExecutionService::new("", cas, engine);
    let ops = service.execute(request(Some(action_digest.0))).unwrap();
    assert_eq!(terminal_status_code(&ops), CODE_OK);

    let result = collect_action_result(&service.cas, &ops).unwrap();
    assert_eq!(result.exit_code, 0);

    let mut expected_directory = Directory::root();
    expected_directory.add_path("a/b/dir/bar", Some(b"bar bar bar\n"));
    expected_directory.add_path("a/b/dir/foo/baz", Some(b"baz baz baz\n"));
    assert_eq!(result.directory, expected_directory);
}

#[test]
fn execute_rejects_undecodable_action() {
    let mut cas = InMemory::default();
    // An action digest pointing at bytes that are not an action message:
    // a raw blob whose first byte opens a truncated field.
    let garbage = vec![0xffu8, 0xff, 0xff];
    let d = cas.write_blob(&garbage, None).unwrap();
    let engine = ExecutionEngine::new(FakeShell { found: Vec::new() });
    let mut service = ExecutionService::new("", cas, engine);
    let ops = service.execute(request(Some(d))).unwrap();
    assert_eq!(ops.len(), 1);
    assert_eq!(terminal_status_code(&ops), CODE_INVALID_ARGUMENT);
}

#[test]
fn engine_emits_staged_events_in_order() {
    let mut cas = InMemory::default();
    let d = cas.write_blob(b"anything", None).unwrap();
    let mut engine = ExecutionEngine::new(Hermetic::new().unwrap());
    let setup = Ok((
        d,
        Command { arguments: strings(&["/bin/true"]), env_vars: Vec::new() },
        DirectoryLayout { entries: Vec::new(), output_paths: strings(&["out"]) },
    ));
    let events = engine.execute(&mut cas, setup);
    assert_eq!(events.len(), 3);
    assert!(matches!(events[0].stage, ExecuteStage::Queued));
    assert!(matches!(events[1].stage, ExecuteStage::Running));
    // The hermetic backend is not implemented, so the terminal event is an
    // internal error; the action digest, known since setup, is still
    // carried on it.
    assert!(matches!(events[2].stage, ExecuteStage::Error(ExecuteError::Internal(_))));
    assert!(events.iter().all(|e| e.action_digest.is_some()));
    assert!(events.iter().all(|e| e.uuid.text() == events[0].uuid.text()));
    assert_eq!(events[0].uuid.text().len(), 36);
}

#[test]
fn engine_emits_single_error_on_setup_failure() {
    let mut cas = InMemory::default();
    let mut engine = ExecutionEngine::new(Hermetic::new().unwrap());
    let setup = Err(ExecuteError::InvalidArgument(String::from("bad request")));
    let events = engine.execute(&mut cas, setup);
    assert_eq!(events.len(), 1);
    assert!(matches!(events[0].stage, ExecuteStage::Error(ExecuteError::InvalidArgument(_))));
    assert!(events[0].action_digest.is_none());
}

#[test]
fn collect_outputs_omits_missing_paths() {
    let mut cas = InMemory::default();
    let entries = collect_outputs(
        &mut cas,
        &strings(&["gone.txt", "here.txt"]),
        &vec![FoundOutput::Missing, FoundOutput::File(b"hi".to_vec())],
    )
    .unwrap();
    assert_eq!(entries.len(), 1);
    match &entries[0] {
        oryx::execution::Entry::File { path, digest, executable } => {
            assert_eq!(path, "here.txt");
            assert!(!executable);
            let stored = cas.read_blob(digest.clone()).unwrap();
            assert_eq!(stored, b"hi".to_vec());
        },
        _ => panic!("expected a file entry"),
    }
}
