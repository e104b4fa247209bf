use oryx::backend::{sandbox_plan, SandboxOp};
use oryx::cas::{ContentAddressableStorage, InMemory};
use oryx::digest::Digest;
use oryx::execution::{DirectoryLayout, Entry, ExecuteError};
use oryx::hashing::compute_digest;
use oryx::resolver::resolve_directory;
use oryx::wire::{encode_directory, DirectoryMsg, DirectoryNode, FileNode, SymlinkNode};

fn entry_key(e: &Entry) -> (String, String, String) {
    match e {
        Entry::File { path, digest, executable } => (
            String::from("file"),
            format!("{}+{}", path, executable),
            digest.to_text(),
        ),
        Entry::Directory { path, digest } => {
            (String::from("dir"), path.clone(), digest.to_text())
        },
        Entry::Symlink { original, link } => {
            (String::from("symlink"), original.clone(), link.clone())
        },
    }
}

/// An input tree two levels deep: the root holds `top.txt` and a child
/// directory `sub` holding `inner.txt`.
fn nested_input(cas: &mut InMemory) -> DirectoryMsg {
    let inner_digest = cas.write_blob(b"inner contents", None).unwrap();
    let child = DirectoryMsg {
        files: vec![FileNode {
            name: String::from("inner.txt"),
            digest: Some(inner_digest),
            is_executable: false,
        }],
        directories: Vec::new(),
        symlinks: Vec::new(),
    };
    let child_bytes = encode_directory(&child);
    let child_digest = cas.write_blob(&child_bytes, None).unwrap();
    let top_digest = cas.write_blob(b"top contents", None).unwrap();
    DirectoryMsg {
        files: vec![FileNode {
            name: String::from("top.txt"),
            digest: Some(top_digest),
            is_executable: true,
        }],
        directories: vec![DirectoryNode {
            name: String::from("sub"),
            digest: Some(child_digest),
        }],
        symlinks: vec![SymlinkNode {
            name: String::from("here"),
            target: String::from("top.txt"),
        }],
    }
}

#[test]
fn resolver_expands_nested_input() {
    let mut cas = InMemory::default();
    let root = nested_input(&mut cas);
    let entries = resolve_directory(&cas, &root, "", 64).unwrap();
    let keys: Vec<_> = entries.iter().map(entry_key).collect();
    assert_eq!(keys.len(), 3);
    assert_eq!(keys[0].0, "file");
    assert_eq!(keys[0].1, "top.txt+true");
    assert_eq!(keys[1].0, "symlink");
    assert_eq!(keys[1].1, "top.txt");
    assert_eq!(keys[1].2, "here");
    assert_eq!(keys[2].0, "file");
    assert_eq!(keys[2].1, "sub/inner.txt+false");
}

#[test]
fn resolver_reports_missing_child_blob() {
    let cas = InMemory::default();
    let absent = Digest::from_str("aaaa:5").unwrap();
    let root = DirectoryMsg {
        files: Vec::new(),
        directories: vec![DirectoryNode { name: String::from("sub"), digest: Some(absent.clone()) }],
        symlinks: Vec::new(),
    };
    match resolve_directory(&cas, &root, "", 64) {
        Err(ExecuteError::BlobNotFound(d)) => assert!(d == absent),
        _ => panic!("expected a missing-blob failure"),
    }
}

#[test]
fn resolver_rejects_node_without_digest() {
    let cas = InMemory::default();
    let root = DirectoryMsg {
        files: vec![FileNode { name: String::from("x"), digest: None, is_executable: false }],
        directories: Vec::new(),
        symlinks: Vec::new(),
    };
    assert!(matches!(
        resolve_directory(&cas, &root, "", 64),
        Err(ExecuteError::InvalidArgument(_))
    ));
}

#[test]
fn cas_reads_match_their_digest() {
    // Integrity: what read_blob returns hashes to the digest it was asked
    // for, with the exact advertised length.
    let mut cas = InMemory::default();
    let d = cas.write_blob(b"some stored content", None).unwrap();
    let bytes = cas.read_blob(d.clone()).unwrap();
    let recomputed = compute_digest(&bytes);
    assert!(recomputed == d);
    assert_eq!(bytes.len() as i64, d.size_bytes());
}

#[test]
fn identical_layouts_plan_identical_sandboxes() {
    // Tree determinism: the same store and layout produce byte-identical
    // sandbox plans, twice over.
    let mut cas = InMemory::default();
    let root = nested_input(&mut cas);
    let entries1 = resolve_directory(&cas, &root, "", 64).unwrap();
    let entries2 = resolve_directory(&cas, &root, "", 64).unwrap();
    let keys1: Vec<_> = entries1.iter().map(entry_key).collect();
    let keys2: Vec<_> = entries2.iter().map(entry_key).collect();
    assert_eq!(keys1, keys2);

    let layout1 = DirectoryLayout { entries: entries1, output_paths: vec![String::from("o")] };
    let layout2 = DirectoryLayout { entries: entries2, output_paths: vec![String::from("o")] };
    let plan1 = sandbox_plan(&cas, &layout1).unwrap();
    let plan2 = sandbox_plan(&cas, &layout2).unwrap();
    assert_eq!(plan1.len(), plan2.len());
    for (a, b) in plan1.iter().zip(plan2.iter()) {
        match (a, b) {
            (SandboxOp::MkDirAll(x), SandboxOp::MkDirAll(y)) => assert_eq!(x, y),
            (SandboxOp::MkDirParent(x), SandboxOp::MkDirParent(y)) => assert_eq!(x, y),
            (
                SandboxOp::WriteFile { path: p1, contents: c1, executable: e1 },
                SandboxOp::WriteFile { path: p2, contents: c2, executable: e2 },
            ) => {
                assert_eq!(p1, p2);
                assert_eq!(c1, c2);
                assert_eq!(e1, e2);
            },
            (
                SandboxOp::Symlink { original: o1, link: l1 },
                SandboxOp::Symlink { original: o2, link: l2 },
            ) => {
                assert_eq!(o1, o2);
                assert_eq!(l1, l2);
            },
            _ => panic!("plans differ in shape"),
        }
    }
}

#[test]
fn sandbox_plan_reports_missing_file_blob() {
    let cas = InMemory::default();
    let absent = Digest::from_str("aaaa:5").unwrap();
    let layout = DirectoryLayout {
        entries: vec![Entry::File {
            path: String::from("gone.txt"),
            digest: absent,
            executable: false,
        }],
        output_paths: Vec::new(),
    };
    assert!(matches!(
        sandbox_plan(&cas, &layout),
        Err(ExecuteError::CasError(oryx::error::CasError::BlobNotFound(_)))
    ));
}
