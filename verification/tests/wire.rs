use oryx::digest::Digest;
use oryx::wire::{
    decode_action, decode_command, decode_directory, decode_tree, encode_action, encode_command,
    encode_directory, encode_tree, ActionMsg, CommandMsg, DirectoryMsg, DirectoryNode, EnvVar,
    FileNode, SymlinkNode, TreeMsg,
};

fn sample_directory() -> DirectoryMsg {
    DirectoryMsg {
        files: vec![
            FileNode {
                name: String::from("hello.txt"),
                digest: Some(Digest::new(String::from("aabb"), 12)),
                is_executable: false,
            },
            FileNode {
                name: String::from("run.sh"),
                digest: Some(Digest::new(String::from("ccdd"), 99)),
                is_executable: true,
            },
        ],
        directories: vec![DirectoryNode {
            name: String::from("sub"),
            digest: Some(Digest::new(String::from("eeff"), 3)),
        }],
        symlinks: vec![SymlinkNode {
            name: String::from("link"),
            target: String::from("hello.txt"),
        }],
    }
}

fn assert_directory_eq(a: &DirectoryMsg, b: &DirectoryMsg) {
    assert_eq!(a.files.len(), b.files.len());
    for (x, y) in a.files.iter().zip(b.files.iter()) {
        assert_eq!(x.name, y.name);
        assert_eq!(x.is_executable, y.is_executable);
        match (&x.digest, &y.digest) {
            (Some(dx), Some(dy)) => assert!(dx == dy),
            (None, None) => {},
            _ => panic!("digest presence differs"),
        }
    }
    assert_eq!(a.directories.len(), b.directories.len());
    for (x, y) in a.directories.iter().zip(b.directories.iter()) {
        assert_eq!(x.name, y.name);
        match (&x.digest, &y.digest) {
            (Some(dx), Some(dy)) => assert!(dx == dy),
            (None, None) => {},
            _ => panic!("digest presence differs"),
        }
    }
    assert_eq!(a.symlinks.len(), b.symlinks.len());
    for (x, y) in a.symlinks.iter().zip(b.symlinks.iter()) {
        assert_eq!(x.name, y.name);
        assert_eq!(x.target, y.target);
    }
}

#[test]
fn wire_directory_round_trip() {
    let msg = sample_directory();
    let bytes = encode_directory(&msg);
    let back = decode_directory(&bytes).unwrap();
    assert_directory_eq(&msg, &back);
}

#[test]
fn wire_empty_directory_round_trip() {
    let msg = DirectoryMsg { files: Vec::new(), directories: Vec::new(), symlinks: Vec::new() };
    let bytes = encode_directory(&msg);
    assert!(bytes.is_empty());
    let back = decode_directory(&bytes).unwrap();
    assert_directory_eq(&msg, &back);
}

#[test]
fn wire_tree_round_trip() {
    let child = DirectoryMsg {
        files: vec![FileNode {
            name: String::from("baz"),
            digest: Some(Digest::new(String::from("1234"), 8)),
            is_executable: false,
        }],
        directories: Vec::new(),
        symlinks: Vec::new(),
    };
    let msg = TreeMsg { root: Some(sample_directory()), children: vec![child] };
    let bytes = encode_tree(&msg);
    let back = decode_tree(&bytes).unwrap();
    assert_directory_eq(msg.root.as_ref().unwrap(), back.root.as_ref().unwrap());
    assert_eq!(back.children.len(), 1);
    assert_directory_eq(&msg.children[0], &back.children[0]);
}

#[test]
fn wire_command_round_trip() {
    let msg = CommandMsg {
        arguments: vec![String::from("/bin/sh"), String::from("-c"), String::from("ls")],
        environment_variables: vec![EnvVar {
            name: String::from("PATH"),
            value: String::from("/usr/bin"),
        }],
        output_files: Vec::new(),
        output_directories: Vec::new(),
        output_paths: vec![String::from("out.txt")],
    };
    let bytes = encode_command(&msg);
    let back = decode_command(&bytes).unwrap();
    assert_eq!(back.arguments, msg.arguments);
    assert_eq!(back.output_paths, msg.output_paths);
    assert!(back.output_files.is_empty());
    assert!(back.output_directories.is_empty());
    assert_eq!(back.environment_variables.len(), 1);
    assert_eq!(back.environment_variables[0].name, "PATH");
    assert_eq!(back.environment_variables[0].value, "/usr/bin");
}

#[test]
fn wire_action_round_trip() {
    let msg = ActionMsg {
        command_digest: Some(Digest::new(String::from("aa"), 1)),
        input_root_digest: Some(Digest::new(String::from("bb"), 2)),
    };
    let bytes = encode_action(&msg);
    let back = decode_action(&bytes).unwrap();
    assert!(back.command_digest.unwrap() == Digest::new(String::from("aa"), 1));
    assert!(back.input_root_digest.unwrap() == Digest::new(String::from("bb"), 2));
}

#[test]
fn wire_decode_rejects_truncated_field() {
    // A length-delimited field promising more bytes than exist.
    let bytes = vec![0x0au8, 0x05, 0x01];
    assert!(decode_directory(&bytes).is_none());
}

#[test]
fn wire_decode_skips_unknown_fields() {
    // Field 15 (varint wire type) is unknown to Directory and is skipped.
    let bytes = vec![0x78u8, 0x2a];
    let back = decode_directory(&bytes).unwrap();
    assert!(back.files.is_empty());
    assert!(back.directories.is_empty());
    assert!(back.symlinks.is_empty());
}
