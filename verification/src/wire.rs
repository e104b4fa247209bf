//! The wire form of the protocol's storage-resident messages: directories,
//! trees, commands and actions, encoded as protobuf bytes.  Both directions
//! are specified against spec-level grammars: `enc_*` gives the canonical
//! bytes of a message, `dec_*` gives the message any byte string denotes.

use vstd::prelude::*;
use crate::digest::{Digest, DigestView};
use vstd::utf8::encode_utf8;

verus! {

// ---------------------------------------------------------------------------
// Message types and their views
// ---------------------------------------------------------------------------

/// One file in a directory level: name, content digest, executable flag.
pub struct FileNode {
    pub name: String,
    pub digest: Option<Digest>,
    pub is_executable: bool,
}

pub ghost struct FileNodeView {
    pub name: Seq<char>,
    pub digest: Option<DigestView>,
    pub is_executable: bool,
}

/// One child directory: name and the digest of the child's own message.
pub struct DirectoryNode {
    pub name: String,
    pub digest: Option<Digest>,
}

pub ghost struct DirectoryNodeView {
    pub name: Seq<char>,
    pub digest: Option<DigestView>,
}

/// One symbolic link: name and target path.
pub struct SymlinkNode {
    pub name: String,
    pub target: String,
}

pub ghost struct SymlinkNodeView {
    pub name: Seq<char>,
    pub target: Seq<char>,
}

/// One filesystem level of the Merkle tree.
pub struct DirectoryMsg {
    pub files: Vec<FileNode>,
    pub directories: Vec<DirectoryNode>,
    pub symlinks: Vec<SymlinkNode>,
}

pub ghost struct DirectoryView {
    pub files: Seq<FileNodeView>,
    pub directories: Seq<DirectoryNodeView>,
    pub symlinks: Seq<SymlinkNodeView>,
}

/// A root directory with every descendant level, used when reporting output
/// directories.
pub struct TreeMsg {
    pub root: Option<DirectoryMsg>,
    pub children: Vec<DirectoryMsg>,
}

pub ghost struct TreeView {
    pub root: Option<DirectoryView>,
    pub children: Seq<DirectoryView>,
}

/// One environment variable of a command.
pub struct EnvVar {
    pub name: String,
    pub value: String,
}

pub ghost struct EnvVarView {
    pub name: Seq<char>,
    pub value: Seq<char>,
}

/// The command of an action: arguments, environment, declared outputs.
pub struct CommandMsg {
    pub arguments: Vec<String>,
    pub environment_variables: Vec<EnvVar>,
    pub output_files: Vec<String>,
    pub output_directories: Vec<String>,
    pub output_paths: Vec<String>,
}

pub ghost struct CommandView {
    pub arguments: Seq<Seq<char>>,
    pub environment_variables: Seq<EnvVarView>,
    pub output_files: Seq<Seq<char>>,
    pub output_directories: Seq<Seq<char>>,
    pub output_paths: Seq<Seq<char>>,
}

/// The action itself: the digests of its command and of its input root.
pub struct ActionMsg {
    pub command_digest: Option<Digest>,
    pub input_root_digest: Option<Digest>,
}

pub ghost struct ActionView {
    pub command_digest: Option<DigestView>,
    pub input_root_digest: Option<DigestView>,
}

pub open spec fn opt_digest_view(o: &Option<Digest>) -> Option<DigestView> {
    match o {
        Some(d) => Some(d@),
        None => None,
    }
}

impl View for FileNode {
    type V = FileNodeView;

    open spec fn view(&self) -> FileNodeView {
        FileNodeView {
            name: self.name@,
            digest: opt_digest_view(&self.digest),
            is_executable: self.is_executable,
        }
    }
}

impl View for DirectoryNode {
    type V = DirectoryNodeView;

    open spec fn view(&self) -> DirectoryNodeView {
        DirectoryNodeView { name: self.name@, digest: opt_digest_view(&self.digest) }
    }
}

impl View for SymlinkNode {
    type V = SymlinkNodeView;

    open spec fn view(&self) -> SymlinkNodeView {
        SymlinkNodeView { name: self.name@, target: self.target@ }
    }
}

impl View for DirectoryMsg {
    type V = DirectoryView;

    open spec fn view(&self) -> DirectoryView {
        DirectoryView {
            files: self.files@.map_values(|f: FileNode| f@),
            directories: self.directories@.map_values(|d: DirectoryNode| d@),
            symlinks: self.symlinks@.map_values(|l: SymlinkNode| l@),
        }
    }
}

impl View for TreeMsg {
    type V = TreeView;

    open spec fn view(&self) -> TreeView {
        TreeView {
            root: match self.root {
                Some(ref r) => Some(r@),
                None => None,
            },
            children: self.children@.map_values(|d: DirectoryMsg| d@),
        }
    }
}

impl View for EnvVar {
    type V = EnvVarView;

    open spec fn view(&self) -> EnvVarView {
        EnvVarView { name: self.name@, value: self.value@ }
    }
}

impl View for CommandMsg {
    type V = CommandView;

    open spec fn view(&self) -> CommandView {
        CommandView {
            arguments: self.arguments@.map_values(|s: String| s@),
            environment_variables: self.environment_variables@.map_values(|e: EnvVar| e@),
            output_files: self.output_files@.map_values(|s: String| s@),
            output_directories: self.output_directories@.map_values(|s: String| s@),
            output_paths: self.output_paths@.map_values(|s: String| s@),
        }
    }
}

impl View for ActionMsg {
    type V = ActionView;

    open spec fn view(&self) -> ActionView {
        ActionView {
            command_digest: opt_digest_view(&self.command_digest),
            input_root_digest: opt_digest_view(&self.input_root_digest),
        }
    }
}

// ---------------------------------------------------------------------------
// Spec-level encoding
// ---------------------------------------------------------------------------

/// Base-128 varint bytes of a non-negative value, least significant group
/// first, continuation bit on every byte but the last.
pub open spec fn enc_varint(n: int) -> Seq<u8>
    decreases n
        when n >= 0
{
    if n < 128 {
        seq![n as u8]
    } else {
        seq![(n % 128 + 128) as u8] + enc_varint(n / 128)
    }
}

/// A 64-bit signed value as protobuf stores it in a varint: two's
/// complement.
pub open spec fn to_u64(v: int) -> int {
    if v >= 0 {
        v
    } else {
        v + 0x1_0000_0000_0000_0000
    }
}

/// The key byte(s) before a field: field number and wire type.
pub open spec fn enc_key(field: int, wire: int) -> Seq<u8> {
    enc_varint(field * 8 + wire)
}

/// A length-delimited field: key, payload length, payload.
pub open spec fn enc_len_field(field: int, payload: Seq<u8>) -> Seq<u8> {
    enc_key(field, 2) + enc_varint(payload.len() as int) + payload
}

/// A string field; empty strings are omitted entirely.
pub open spec fn enc_str_field(field: int, s: Seq<char>) -> Seq<u8> {
    if s.len() == 0 {
        Seq::empty()
    } else {
        enc_len_field(field, encode_utf8(s))
    }
}

/// A 64-bit integer field; zero is omitted entirely.
pub open spec fn enc_i64_field(field: int, v: int) -> Seq<u8> {
    if v == 0 {
        Seq::empty()
    } else {
        enc_key(field, 0) + enc_varint(to_u64(v))
    }
}

/// A boolean field; false is omitted entirely.
pub open spec fn enc_bool_field(field: int, b: bool) -> Seq<u8> {
    if b {
        enc_key(field, 0) + enc_varint(1)
    } else {
        Seq::empty()
    }
}

pub open spec fn enc_digest(v: DigestView) -> Seq<u8> {
    enc_str_field(1, v.hash) + enc_i64_field(2, v.size_bytes)
}

/// An optional embedded digest; present messages are emitted even when
/// their own encoding is empty.
pub open spec fn enc_opt_digest(field: int, o: Option<DigestView>) -> Seq<u8> {
    match o {
        None => Seq::empty(),
        Some(d) => enc_len_field(field, enc_digest(d)),
    }
}

pub open spec fn enc_file_node(v: FileNodeView) -> Seq<u8> {
    enc_str_field(1, v.name) + enc_opt_digest(2, v.digest) + enc_bool_field(4, v.is_executable)
}

pub open spec fn enc_directory_node(v: DirectoryNodeView) -> Seq<u8> {
    enc_str_field(1, v.name) + enc_opt_digest(2, v.digest)
}

pub open spec fn enc_symlink_node(v: SymlinkNodeView) -> Seq<u8> {
    enc_str_field(1, v.name) + enc_str_field(2, v.target)
}

pub open spec fn enc_file_nodes(s: Seq<FileNodeView>) -> Seq<u8>
    decreases s.len(),
{
    if s.len() == 0 {
        Seq::empty()
    } else {
        enc_file_nodes(s.drop_last()) + enc_len_field(1, enc_file_node(s.last()))
    }
}

pub open spec fn enc_directory_nodes(s: Seq<DirectoryNodeView>) -> Seq<u8>
    decreases s.len(),
{
    if s.len() == 0 {
        Seq::empty()
    } else {
        enc_directory_nodes(s.drop_last()) + enc_len_field(2, enc_directory_node(s.last()))
    }
}

pub open spec fn enc_symlink_nodes(s: Seq<SymlinkNodeView>) -> Seq<u8>
    decreases s.len(),
{
    if s.len() == 0 {
        Seq::empty()
    } else {
        enc_symlink_nodes(s.drop_last()) + enc_len_field(3, enc_symlink_node(s.last()))
    }
}

pub open spec fn enc_directory(v: DirectoryView) -> Seq<u8> {
    enc_file_nodes(v.files) + enc_directory_nodes(v.directories) + enc_symlink_nodes(v.symlinks)
}

pub open spec fn enc_tree_children(s: Seq<DirectoryView>) -> Seq<u8>
    decreases s.len(),
{
    if s.len() == 0 {
        Seq::empty()
    } else {
        enc_tree_children(s.drop_last()) + enc_len_field(2, enc_directory(s.last()))
    }
}

pub open spec fn enc_tree(v: TreeView) -> Seq<u8> {
    (match v.root {
        None => Seq::<u8>::empty(),
        Some(r) => enc_len_field(1, enc_directory(r)),
    }) + enc_tree_children(v.children)
}

pub open spec fn enc_env_var(v: EnvVarView) -> Seq<u8> {
    enc_str_field(1, v.name) + enc_str_field(2, v.value)
}

/// A repeated string field: one length-delimited entry per element, empty
/// elements included.
pub open spec fn enc_str_list(field: int, s: Seq<Seq<char>>) -> Seq<u8>
    decreases s.len(),
{
    if s.len() == 0 {
        Seq::empty()
    } else {
        enc_str_list(field, s.drop_last()) + enc_len_field(field, encode_utf8(s.last()))
    }
}

pub open spec fn enc_env_vars(s: Seq<EnvVarView>) -> Seq<u8>
    decreases s.len(),
{
    if s.len() == 0 {
        Seq::empty()
    } else {
        enc_env_vars(s.drop_last()) + enc_len_field(2, enc_env_var(s.last()))
    }
}

pub open spec fn enc_command(v: CommandView) -> Seq<u8> {
    enc_str_list(1, v.arguments) + enc_env_vars(v.environment_variables) + enc_str_list(
        3,
        v.output_files,
    ) + enc_str_list(4, v.output_directories) + enc_str_list(7, v.output_paths)
}

pub open spec fn enc_action(v: ActionView) -> Seq<u8> {
    enc_opt_digest(1, v.command_digest) + enc_opt_digest(2, v.input_root_digest)
}

// ---------------------------------------------------------------------------
// Executable encoding
// ---------------------------------------------------------------------------

fn put_varint(out: &mut Vec<u8>, n: u64)
    ensures
        final(out)@ == old(out)@ + enc_varint(n as int),
    decreases n,
{
    if n < 128 {
        out.push(n as u8);
        proof {
            assert(final(out)@ =~= old(out)@ + enc_varint(n as int));
        }
    } else {
        out.push((n % 128 + 128) as u8);
        put_varint(out, n / 128);
        proof {
            assert(final(out)@ =~= old(out)@ + enc_varint(n as int));
        }
    }
}

fn put_key(out: &mut Vec<u8>, field: u64, wire: u64)
    requires
        1 <= field <= 100,
        wire <= 5,
    ensures
        final(out)@ == old(out)@ + enc_key(field as int, wire as int),
{
    put_varint(out, field * 8 + wire);
}

fn put_bytes_field(out: &mut Vec<u8>, field: u64, payload: &[u8])
    requires
        1 <= field <= 100,
    ensures
        final(out)@ == old(out)@ + enc_len_field(field as int, payload@),
{
    put_key(out, field, 2);
    put_varint(out, payload.len() as u64);
    out.extend_from_slice(payload);
    proof {
        assert(final(out)@ =~= old(out)@ + enc_len_field(field as int, payload@));
    }
}

fn put_str_field(out: &mut Vec<u8>, field: u64, s: &str)
    requires
        1 <= field <= 100,
    ensures
        final(out)@ == old(out)@ + enc_str_field(field as int, s@),
{
    if s.unicode_len() == 0 {
        proof {
            assert(final(out)@ =~= old(out)@ + enc_str_field(field as int, s@));
        }
    } else {
        put_bytes_field(out, field, s.as_bytes());
        proof {
            assert(final(out)@ =~= old(out)@ + enc_str_field(field as int, s@));
        }
    }
}

fn put_i64_field(out: &mut Vec<u8>, field: u64, v: i64)
    requires
        1 <= field <= 100,
    ensures
        final(out)@ == old(out)@ + enc_i64_field(field as int, v as int),
{
    if v != 0 {
        put_key(out, field, 0);
        let u: u64 = if v >= 0 {
            v as u64
        } else {
            u64::MAX - ((-(v + 1)) as u64)
        };
        proof {
            assert(u as int == to_u64(v as int));
        }
        put_varint(out, u);
        proof {
            assert(final(out)@ =~= old(out)@ + enc_i64_field(field as int, v as int));
        }
    } else {
        proof {
            assert(final(out)@ =~= old(out)@ + enc_i64_field(field as int, v as int));
        }
    }
}

fn put_bool_field(out: &mut Vec<u8>, field: u64, b: bool)
    requires
        1 <= field <= 100,
    ensures
        final(out)@ == old(out)@ + enc_bool_field(field as int, b),
{
    if b {
        put_key(out, field, 0);
        put_varint(out, 1);
        proof {
            assert(final(out)@ =~= old(out)@ + enc_bool_field(field as int, b));
        }
    } else {
        proof {
            assert(final(out)@ =~= old(out)@ + enc_bool_field(field as int, b));
        }
    }
}

fn put_digest(out: &mut Vec<u8>, d: &Digest)
    ensures
        final(out)@ == old(out)@ + enc_digest(d@),
{
    put_str_field(out, 1, d.hash());
    put_i64_field(out, 2, d.size_bytes());
    proof {
        assert(final(out)@ =~= old(out)@ + enc_digest(d@));
    }
}

fn put_opt_digest(out: &mut Vec<u8>, field: u64, o: &Option<Digest>)
    requires
        1 <= field <= 100,
    ensures
        final(out)@ == old(out)@ + enc_opt_digest(field as int, opt_digest_view(o)),
{
    match o {
        None => {
            proof {
                assert(final(out)@ =~= old(out)@ + enc_opt_digest(
                    field as int,
                    opt_digest_view(o),
                ));
            }
        },
        Some(d) => {
            let mut sub: Vec<u8> = Vec::new();
            put_digest(&mut sub, d);
            put_bytes_field(out, field, sub.as_slice());
            proof {
                assert(final(out)@ =~= old(out)@ + enc_opt_digest(
                    field as int,
                    opt_digest_view(o),
                ));
            }
        },
    }
}

fn put_file_node(out: &mut Vec<u8>, v: &FileNode)
    ensures
        final(out)@ == old(out)@ + enc_file_node(v@),
{
    put_str_field(out, 1, self_str(&v.name));
    put_opt_digest(out, 2, &v.digest);
    put_bool_field(out, 4, v.is_executable);
    proof {
        assert(final(out)@ =~= old(out)@ + enc_file_node(v@));
    }
}

/// Borrows a `String` as a `&str` with the same view.
fn self_str(s: &String) -> (r: &str)
    ensures
        r@ == s@,
{
    s.as_str()
}

fn put_directory_node(out: &mut Vec<u8>, v: &DirectoryNode)
    ensures
        final(out)@ == old(out)@ + enc_directory_node(v@),
{
    put_str_field(out, 1, self_str(&v.name));
    put_opt_digest(out, 2, &v.digest);
    proof {
        assert(final(out)@ =~= old(out)@ + enc_directory_node(v@));
    }
}

fn put_symlink_node(out: &mut Vec<u8>, v: &SymlinkNode)
    ensures
        final(out)@ == old(out)@ + enc_symlink_node(v@),
{
    put_str_field(out, 1, self_str(&v.name));
    put_str_field(out, 2, self_str(&v.target));
    proof {
        assert(final(out)@ =~= old(out)@ + enc_symlink_node(v@));
    }
}

fn put_directory(out: &mut Vec<u8>, v: &DirectoryMsg)
    ensures
        final(out)@ == old(out)@ + enc_directory(v@),
{
    let ghost fs = v@.files;
    let n = v.files.len();
    let mut i: usize = 0;
    while i < n
        invariant
            n == v.files@.len(),
            0 <= i <= n,
            fs == v@.files,
            out@ == old(out)@ + enc_file_nodes(fs.take(i as int)),
        decreases n - i,
    {
        let mut sub: Vec<u8> = Vec::new();
        put_file_node(&mut sub, &v.files[i]);
        put_bytes_field(out, 1, sub.as_slice());
        proof {
            assert(fs.take(i + 1).drop_last() =~= fs.take(i as int));
            assert(fs.take(i + 1).last() == fs[i as int]);
            assert(fs[i as int] == v.files@[i as int]@);
            assert(out@ =~= old(out)@ + enc_file_nodes(fs.take(i + 1)));
        }
        i = i + 1;
    }
    proof {
        assert(fs.take(n as int) =~= fs);
    }
    let dn = v.directories.len();
    let ghost ds = v@.directories;
    let mut j: usize = 0;
    while j < dn
        invariant
            dn == v.directories@.len(),
            0 <= j <= dn,
            ds == v@.directories,
            fs == v@.files,
            out@ == old(out)@ + enc_file_nodes(fs) + enc_directory_nodes(ds.take(j as int)),
        decreases dn - j,
    {
        let mut sub: Vec<u8> = Vec::new();
        put_directory_node(&mut sub, &v.directories[j]);
        put_bytes_field(out, 2, sub.as_slice());
        proof {
            assert(ds.take(j + 1).drop_last() =~= ds.take(j as int));
            assert(ds.take(j + 1).last() == ds[j as int]);
            assert(ds[j as int] == v.directories@[j as int]@);
            assert(out@ =~= old(out)@ + enc_file_nodes(fs) + enc_directory_nodes(ds.take(j + 1)));
        }
        j = j + 1;
    }
    proof {
        assert(ds.take(dn as int) =~= ds);
    }
    let ln = v.symlinks.len();
    let ghost ls = v@.symlinks;
    let mut k: usize = 0;
    while k < ln
        invariant
            ln == v.symlinks@.len(),
            0 <= k <= ln,
            ls == v@.symlinks,
            ds == v@.directories,
            fs == v@.files,
            out@ == old(out)@ + enc_file_nodes(fs) + enc_directory_nodes(ds) + enc_symlink_nodes(
                ls.take(k as int),
            ),
        decreases ln - k,
    {
        let mut sub: Vec<u8> = Vec::new();
        put_symlink_node(&mut sub, &v.symlinks[k]);
        put_bytes_field(out, 3, sub.as_slice());
        proof {
            assert(ls.take(k + 1).drop_last() =~= ls.take(k as int));
            assert(ls.take(k + 1).last() == ls[k as int]);
            assert(ls[k as int] == v.symlinks@[k as int]@);
            assert(out@ =~= old(out)@ + enc_file_nodes(fs) + enc_directory_nodes(ds)
                + enc_symlink_nodes(ls.take(k + 1)));
        }
        k = k + 1;
    }
    proof {
        assert(ls.take(ln as int) =~= ls);
        assert(final(out)@ =~= old(out)@ + enc_directory(v@));
    }
}

/// Encodes one directory level as its wire bytes.
pub fn encode_directory(v: &DirectoryMsg) -> (r: Vec<u8>)
    ensures
        r@ == enc_directory(v@),
{
    let mut out: Vec<u8> = Vec::new();
    put_directory(&mut out, v);
    proof {
        assert(out@ =~= enc_directory(v@));
    }
    out
}

/// Encodes a tree message as its wire bytes.
pub fn encode_tree(v: &TreeMsg) -> (r: Vec<u8>)
    ensures
        r@ == enc_tree(v@),
{
    let mut out: Vec<u8> = Vec::new();
    match &v.root {
        None => {},
        Some(root) => {
            let sub = encode_directory(root);
            put_bytes_field(&mut out, 1, sub.as_slice());
        },
    }
    proof {
        assert(out@ =~= match v@.root {
            None => Seq::<u8>::empty(),
            Some(r) => enc_len_field(1, enc_directory(r)),
        });
    }
    let ghost base = out@;
    let ghost cs = v@.children;
    let n = v.children.len();
    let mut i: usize = 0;
    while i < n
        invariant
            n == v.children@.len(),
            0 <= i <= n,
            cs == v@.children,
            out@ == base + enc_tree_children(cs.take(i as int)),
        decreases n - i,
    {
        let sub = encode_directory(&v.children[i]);
        put_bytes_field(&mut out, 2, sub.as_slice());
        proof {
            assert(cs.take(i + 1).drop_last() =~= cs.take(i as int));
            assert(cs.take(i + 1).last() == cs[i as int]);
            assert(cs[i as int] == v.children@[i as int]@);
            assert(out@ =~= base + enc_tree_children(cs.take(i + 1)));
        }
        i = i + 1;
    }
    proof {
        assert(cs.take(n as int) =~= cs);
        assert(out@ =~= enc_tree(v@));
    }
    out
}

fn put_str_list(out: &mut Vec<u8>, field: u64, items: &Vec<String>)
    requires
        1 <= field <= 100,
    ensures
        final(out)@ == old(out)@ + enc_str_list(
            field as int,
            items@.map_values(|s: String| s@),
        ),
{
    let ghost vs = items@.map_values(|s: String| s@);
    let n = items.len();
    let mut i: usize = 0;
    while i < n
        invariant
            1 <= field <= 100,
            n == items@.len(),
            0 <= i <= n,
            vs == items@.map_values(|s: String| s@),
            out@ == old(out)@ + enc_str_list(field as int, vs.take(i as int)),
        decreases n - i,
    {
        put_bytes_field(out, field, items[i].as_str().as_bytes());
        proof {
            assert(vs.take(i + 1).drop_last() =~= vs.take(i as int));
            assert(vs.take(i + 1).last() == vs[i as int]);
            assert(vs[i as int] == items@[i as int]@);
            assert(out@ =~= old(out)@ + enc_str_list(field as int, vs.take(i + 1)));
        }
        i = i + 1;
    }
    proof {
        assert(vs.take(n as int) =~= vs);
    }
}

fn put_env_var(out: &mut Vec<u8>, v: &EnvVar)
    ensures
        final(out)@ == old(out)@ + enc_env_var(v@),
{
    put_str_field(out, 1, self_str(&v.name));
    put_str_field(out, 2, self_str(&v.value));
    proof {
        assert(final(out)@ =~= old(out)@ + enc_env_var(v@));
    }
}

/// Encodes a command message as its wire bytes.
pub fn encode_command(v: &CommandMsg) -> (r: Vec<u8>)
    ensures
        r@ == enc_command(v@),
{
    let mut out: Vec<u8> = Vec::new();
    put_str_list(&mut out, 1, &v.arguments);
    let ghost base = out@;
    let ghost es = v@.environment_variables;
    let n = v.environment_variables.len();
    let mut i: usize = 0;
    while i < n
        invariant
            n == v.environment_variables@.len(),
            0 <= i <= n,
            es == v@.environment_variables,
            out@ == base + enc_env_vars(es.take(i as int)),
        decreases n - i,
    {
        let mut sub: Vec<u8> = Vec::new();
        put_env_var(&mut sub, &v.environment_variables[i]);
        put_bytes_field(&mut out, 2, sub.as_slice());
        proof {
            assert(es.take(i + 1).drop_last() =~= es.take(i as int));
            assert(es.take(i + 1).last() == es[i as int]);
            assert(es[i as int] == v.environment_variables@[i as int]@);
            assert(out@ =~= base + enc_env_vars(es.take(i + 1)));
        }
        i = i + 1;
    }
    proof {
        assert(es.take(n as int) =~= es);
    }
    put_str_list(&mut out, 3, &v.output_files);
    put_str_list(&mut out, 4, &v.output_directories);
    put_str_list(&mut out, 7, &v.output_paths);
    proof {
        assert(out@ =~= enc_command(v@));
    }
    out
}

/// Encodes an action message as its wire bytes.
pub fn encode_action(v: &ActionMsg) -> (r: Vec<u8>)
    ensures
        r@ == enc_action(v@),
{
    let mut out: Vec<u8> = Vec::new();
    put_opt_digest(&mut out, 1, &v.command_digest);
    put_opt_digest(&mut out, 2, &v.input_root_digest);
    proof {
        assert(out@ =~= enc_action(v@));
    }
    out
}

// ---------------------------------------------------------------------------
// Spec-level decoding primitives
// ---------------------------------------------------------------------------

/// Reads one varint between `pos` and `end`: its value and the position
/// after it, or nothing when the bytes end early or the value overflows
/// 64 bits.
pub open spec fn dec_varint(b: Seq<u8>, pos: int, end: int) -> Option<(int, int)>
    decreases end - pos
        when 0 <= pos <= end <= b.len()
{
    if pos >= end {
        None
    } else {
        let byte = b[pos];
        if byte < 128 {
            Some((byte as int, pos + 1))
        } else {
            match dec_varint(b, pos + 1, end) {
                None => None,
                Some((v, p)) => {
                    let val = (byte as int - 128) + 128 * v;
                    if val > u64::MAX as int {
                        None
                    } else {
                        Some((val, p))
                    }
                },
            }
        }
    }
}

/// A decoded varint sits strictly between its start and `end`.
pub proof fn lemma_dec_varint_advances(b: Seq<u8>, pos: int, end: int)
    requires
        0 <= pos <= end <= b.len(),
    ensures
        dec_varint(b, pos, end) matches Some(vp) ==> pos < vp.1 <= end && 0 <= vp.0
            <= u64::MAX as int,
    decreases end - pos,
{
    if pos < end && b[pos] >= 128 {
        lemma_dec_varint_advances(b, pos + 1, end);
    }
}

/// The varint layer of the wire format is invertible: a varint decodes back
/// to exactly the value it encodes, wherever it sits in a larger buffer,
/// consuming exactly its own bytes.
pub proof fn lemma_dec_varint_of_enc(b: Seq<u8>, pos: int, end: int, n: int)
    requires
        0 <= n <= u64::MAX as int,
        0 <= pos,
        pos + enc_varint(n).len() <= end <= b.len(),
        b.subrange(pos, pos + enc_varint(n).len()) == enc_varint(n),
    ensures
        dec_varint(b, pos, end) == Some((n, pos + enc_varint(n).len())),
    decreases n,
{
    let e = enc_varint(n);
    assert(b[pos] == e[0]) by {
        assert(b.subrange(pos, pos + e.len())[0] == b[pos]);
    }
    if n < 128 {
        assert(e == seq![n as u8]);
        assert(e[0] == n as u8);
        assert(b[pos] < 128);
    } else {
        let rest = enc_varint(n / 128);
        assert(e == seq![(n % 128 + 128) as u8] + rest);
        assert(e[0] == (n % 128 + 128) as u8);
        assert(b[pos] >= 128);
        assert(b.subrange(pos + 1, pos + 1 + rest.len()) =~= rest) by {
            assert(forall|i: int|
                0 <= i < e.len() ==> b.subrange(pos, pos + e.len())[i] == #[trigger] b[pos + i]);
            assert(forall|i: int| 0 <= i < rest.len() ==> e[i + 1] == #[trigger] rest[i]);
        }
        lemma_dec_varint_of_enc(b, pos + 1, end, n / 128);
        assert(dec_varint(b, pos + 1, end) == Some((n / 128, pos + 1 + rest.len())));
        assert((b[pos] as int - 128) + 128 * (n / 128) == n);
    }
}

/// Position after one field of the given wire type, or nothing when the
/// bytes are malformed.
pub open spec fn skip_field(b: Seq<u8>, pos: int, end: int, wire: int) -> Option<int> {
    if wire == 0 {
        match dec_varint(b, pos, end) {
            None => None,
            Some((_v, p)) => Some(p),
        }
    } else if wire == 2 {
        match dec_varint(b, pos, end) {
            None => None,
            Some((len, p)) => if p + len <= end {
                Some(p + len)
            } else {
                None
            },
        }
    } else if wire == 1 {
        if pos + 8 <= end {
            Some(pos + 8)
        } else {
            None
        }
    } else if wire == 5 {
        if pos + 4 <= end {
            Some(pos + 4)
        } else {
            None
        }
    } else {
        None
    }
}

/// The signed 64-bit value a varint denotes: two's complement.
pub open spec fn from_u64(v: int) -> int {
    if v > i64::MAX as int {
        v - 0x1_0000_0000_0000_0000
    } else {
        v
    }
}

// ---------------------------------------------------------------------------
// Executable decoding primitives
// ---------------------------------------------------------------------------

fn read_varint(b: &Vec<u8>, pos: usize, end: usize) -> (r: Option<(u64, usize)>)
    requires
        pos <= end <= b@.len(),
    ensures
        match dec_varint(b@, pos as int, end as int) {
            None => r is None,
            Some(vp) => r matches Some(e) && e.0 as int == vp.0 && e.1 as int == vp.1,
        },
        r matches Some(e) ==> pos < e.1 <= end,
    decreases end - pos,
{
    if pos >= end {
        return None;
    }
    let byte = b[pos];
    if byte < 128 {
        Some((byte as u64, pos + 1))
    } else {
        match read_varint(b, pos + 1, end) {
            None => None,
            Some((v, p)) => {
                let low = (byte - 128) as u64;
                if v > (u64::MAX - low) / 128 {
                    proof {
                        assert((u64::MAX - low) as int / 128 * 128 + 128 > u64::MAX as int
                            - low as int);
                        assert(low as int + 128 * (v as int) > u64::MAX as int);
                    }
                    None
                } else {
                    proof {
                        assert(v as int * 128 <= (u64::MAX - low) as int / 128 * 128);
                        assert((u64::MAX - low) as int / 128 * 128 <= u64::MAX as int - low as int);
                    }
                    Some((low + 128 * v, p))
                }
            },
        }
    }
}

fn exec_skip_field(b: &Vec<u8>, pos: usize, end: usize, wire: u64) -> (r: Option<usize>)
    requires
        pos <= end <= b@.len(),
    ensures
        match skip_field(b@, pos as int, end as int, wire as int) {
            None => r is None,
            Some(p) => r matches Some(e) && e as int == p,
        },
        r matches Some(p) ==> pos <= p <= end,
{
    if wire == 0 {
        match read_varint(b, pos, end) {
            None => None,
            Some((_v, p)) => Some(p),
        }
    } else if wire == 2 {
        match read_varint(b, pos, end) {
            None => None,
            Some((len, p)) => {
                if len <= (end - p) as u64 {
                    Some(p + len as usize)
                } else {
                    None
                }
            },
        }
    } else if wire == 1 {
        if end - pos >= 8 {
            Some(pos + 8)
        } else {
            None
        }
    } else if wire == 5 {
        if end - pos >= 4 {
            Some(pos + 4)
        } else {
            None
        }
    } else {
        None
    }
}

/// Relies on `core::str::from_utf8` (with `str::to_owned`): succeeds exactly
/// on valid UTF-8 and returns a string of those very bytes.
#[verifier::external_body]
fn bytes_to_string(v: &[u8]) -> (r: Option<String>)
    ensures
        r is Some <==> vstd::utf8::valid_utf8(v@),
        r matches Some(s) ==> encode_utf8(s@) == v@,
{
    match core::str::from_utf8(v) {
        Ok(s) => Some(s.to_owned()),
        Err(_) => None,
    }
}

/// The characters a valid UTF-8 payload denotes.
fn payload_to_string(b: &Vec<u8>, start: usize, stop: usize) -> (r: Option<String>)
    requires
        start <= stop <= b@.len(),
    ensures
        r is Some <==> vstd::utf8::valid_utf8(b@.subrange(start as int, stop as int)),
        r matches Some(s) ==> s@ == vstd::utf8::decode_utf8(b@.subrange(start as int, stop as int)),
{
    let payload = vstd::slice::slice_subrange(b.as_slice(), start, stop);
    let r = bytes_to_string(payload);
    proof {
        if r is Some {
            let s = r->Some_0;
            assert(encode_utf8(s@) == b@.subrange(start as int, stop as int));
            vstd::utf8::encode_utf8_decode_utf8(s@);
        }
    }
    r
}

fn exec_from_u64(v: u64) -> (r: i64)
    ensures
        r as int == from_u64(v as int),
{
    if v > i64::MAX as u64 {
        -((u64::MAX - v) as i64) - 1
    } else {
        v as i64
    }
}

// ---------------------------------------------------------------------------
// Message decoding
// ---------------------------------------------------------------------------

pub open spec fn empty_digest_view() -> DigestView {
    DigestView { hash: Seq::empty(), size_bytes: 0 }
}

/// Field loop of a digest message between `pos` and `end`.
pub open spec fn dec_digest_fields(
    b: Seq<u8>,
    pos: int,
    end: int,
    acc: DigestView,
    fuel: int,
) -> Option<DigestView>
    decreases fuel
        when 0 <= pos <= end <= b.len() && fuel >= 0
{
    if pos == end {
        Some(acc)
    } else if fuel <= 0 {
        None
    } else {
        match dec_varint(b, pos, end) {
            None => None,
            Some((tag, p)) => {
                if tag / 8 == 1 && tag % 8 == 2 {
                    match dec_varint(b, p, end) {
                        None => None,
                        Some((len, q)) => if q + len <= end {
                            if vstd::utf8::valid_utf8(b.subrange(q, q + len)) {
                                dec_digest_fields(
                                    b,
                                    q + len,
                                    end,
                                    DigestView {
                                        hash: vstd::utf8::decode_utf8(b.subrange(q, q + len)),
                                        ..acc
                                    },
                                    fuel - 1,
                                )
                            } else {
                                None
                            }
                        } else {
                            None
                        },
                    }
                } else if tag / 8 == 2 && tag % 8 == 0 {
                    match dec_varint(b, p, end) {
                        None => None,
                        Some((v, q)) => dec_digest_fields(
                            b,
                            q,
                            end,
                            DigestView { size_bytes: from_u64(v), ..acc },
                            fuel - 1,
                        ),
                    }
                } else {
                    match skip_field(b, p, end, tag % 8) {
                        None => None,
                        Some(q) => dec_digest_fields(b, q, end, acc, fuel - 1),
                    }
                }
            },
        }
    }
}

/// The digest message a byte range denotes.
pub open spec fn dec_digest(b: Seq<u8>, pos: int, end: int) -> Option<DigestView> {
    dec_digest_fields(b, pos, end, empty_digest_view(), end - pos)
}

fn read_digest_fields(
    b: &Vec<u8>,
    pos: usize,
    end: usize,
    hash: String,
    size: i64,
    fuel: usize,
) -> (r: Option<Digest>)
    requires
        pos <= end <= b@.len(),
    ensures
        ({
            let gacc = DigestView { hash: hash@, size_bytes: size as int };
            match dec_digest_fields(b@, pos as int, end as int, gacc, fuel as int) {
                Some(v) => r matches Some(d) && d@ == v,
                None => r is None,
            }
        }),
    decreases fuel,
{
    if pos == end {
        return Some(Digest::new(hash, size));
    }
    if fuel == 0 {
        return None;
    }
    proof {
        lemma_dec_varint_advances(b@, pos as int, end as int);
    }
    match read_varint(b, pos, end) {
        None => None,
        Some((tag, p)) => {
            proof {
                lemma_dec_varint_advances(b@, p as int, end as int);
            }
            if tag / 8 == 1 && tag % 8 == 2 {
                match read_varint(b, p, end) {
                    None => None,
                    Some((len, q)) => {
                        if len <= (end - q) as u64 {
                            let stop = q + len as usize;
                            match payload_to_string(b, q, stop) {
                                None => None,
                                Some(s) => read_digest_fields(b, stop, end, s, size, fuel - 1),
                            }
                        } else {
                            None
                        }
                    },
                }
            } else if tag / 8 == 2 && tag % 8 == 0 {
                match read_varint(b, p, end) {
                    None => None,
                    Some((v, q)) => read_digest_fields(
                        b,
                        q,
                        end,
                        hash,
                        exec_from_u64(v),
                        fuel - 1,
                    ),
                }
            } else {
                match exec_skip_field(b, p, end, tag % 8) {
                    None => None,
                    Some(q) => read_digest_fields(b, q, end, hash, size, fuel - 1),
                }
            }
        },
    }
}

/// Reading a hash field moves the field loop one step: consuming the
/// encoded string field sets the hash and continues after it.
proof fn lemma_digest_hash_field_step(
    b: Seq<u8>,
    pos: int,
    end: int,
    acc: DigestView,
    fuel: int,
    h: Seq<char>,
)
    requires
        h.len() > 0,
        encode_utf8(h).len() <= u64::MAX as int,
        0 <= pos,
        pos + enc_str_field(1, h).len() <= end <= b.len(),
        fuel >= 1,
        b.subrange(pos, pos + enc_str_field(1, h).len()) == enc_str_field(1, h),
    ensures
        dec_digest_fields(b, pos, end, acc, fuel) == dec_digest_fields(
            b,
            pos + enc_str_field(1, h).len(),
            end,
            DigestView { hash: h, ..acc },
            fuel - 1,
        ),
{
    let s = enc_str_field(1, h);
    let payload = encode_utf8(h);
    let plen = payload.len() as int;
    let lenv = enc_varint(plen);
    assert(enc_key(1, 2) == enc_varint(10));
    assert(enc_varint(10) =~= seq![10u8]);
    assert(s =~= seq![10u8] + lenv + payload);
    assert(forall|i: int| 0 <= i < s.len() ==> #[trigger] b[pos + i] == s[i]) by {
        assert(forall|i: int|
            0 <= i < s.len() ==> b.subrange(pos, pos + s.len())[i] == #[trigger] b[pos + i]);
    }
    assert(b.subrange(pos, pos + 1) =~= enc_varint(10));
    lemma_dec_varint_of_enc(b, pos, end, 10);
    assert(dec_varint(b, pos, end) == Some((10int, pos + 1)));
    assert forall|k: int| 0 <= k < lenv.len() implies b[pos + 1 + k] == lenv[k] by {
        assert(b[pos + (1 + k)] == s[1 + k]);
    }
    assert(b.subrange(pos + 1, pos + 1 + lenv.len()) =~= lenv);
    lemma_dec_varint_of_enc(b, pos + 1, end, plen);
    let q = pos + 1 + lenv.len();
    assert(dec_varint(b, pos + 1, end) == Some((plen, q)));
    assert(q + plen <= end);
    assert forall|k: int| 0 <= k < plen implies b[q + k] == payload[k] by {
        assert(b[pos + (1 + lenv.len() + k)] == s[1 + lenv.len() + k]);
        assert(s[1 + lenv.len() + k] == payload[k]);
    }
    assert(b.subrange(q, q + plen) =~= payload);
    vstd::utf8::encode_utf8_valid_utf8(h);
    vstd::utf8::encode_utf8_decode_utf8(h);
    assert(vstd::utf8::valid_utf8(payload));
    assert(vstd::utf8::decode_utf8(payload) == h);
    assert(pos < end);
    assert(q + plen == pos + s.len());
}

/// Reading a size field moves the field loop one step: consuming the
/// encoded integer field sets the size and continues after it.
proof fn lemma_digest_size_field_step(
    b: Seq<u8>,
    pos: int,
    end: int,
    acc: DigestView,
    fuel: int,
    sz: int,
)
    requires
        sz != 0,
        i64::MIN as int <= sz <= i64::MAX as int,
        0 <= pos,
        pos + enc_i64_field(2, sz).len() <= end <= b.len(),
        fuel >= 1,
        b.subrange(pos, pos + enc_i64_field(2, sz).len()) == enc_i64_field(2, sz),
    ensures
        dec_digest_fields(b, pos, end, acc, fuel) == dec_digest_fields(
            b,
            pos + enc_i64_field(2, sz).len(),
            end,
            DigestView { size_bytes: sz, ..acc },
            fuel - 1,
        ),
{
    let s = enc_i64_field(2, sz);
    let u = to_u64(sz);
    let uv = enc_varint(u);
    assert(enc_key(2, 0) == enc_varint(16));
    assert(enc_varint(16) =~= seq![16u8]);
    assert(s =~= seq![16u8] + uv);
    assert(forall|i: int| 0 <= i < s.len() ==> #[trigger] b[pos + i] == s[i]) by {
        assert(forall|i: int|
            0 <= i < s.len() ==> b.subrange(pos, pos + s.len())[i] == #[trigger] b[pos + i]);
    }
    assert(b.subrange(pos, pos + 1) =~= enc_varint(16));
    lemma_dec_varint_of_enc(b, pos, end, 16);
    assert forall|k: int| 0 <= k < uv.len() implies b[pos + 1 + k] == uv[k] by {
        assert(b[pos + (1 + k)] == s[1 + k]);
    }
    assert(b.subrange(pos + 1, pos + 1 + uv.len()) =~= uv);
    lemma_dec_varint_of_enc(b, pos + 1, end, u);
    assert(from_u64(u) == sz);
    assert(pos < end);
}

/// A digest whose canonical encoding the decoders can read back: the hash
/// text and the whole message fit the length varints, and the size is a
/// 64-bit value.
pub open spec fn digest_enc_ok(v: DigestView) -> bool {
    &&& encode_utf8(v.hash).len() <= u64::MAX as int
    &&& i64::MIN as int <= v.size_bytes <= i64::MAX as int
    &&& enc_digest(v).len() <= u64::MAX as int
}

/// The digest message layer is invertible: wherever the canonical encoding
/// of a digest sits in a larger buffer, decoding exactly its bytes returns
/// that digest.
pub proof fn lemma_dec_digest_of_enc(b: Seq<u8>, pos: int, v: DigestView)
    requires
        digest_enc_ok(v),
        0 <= pos,
        pos + enc_digest(v).len() <= b.len(),
        b.subrange(pos, pos + enc_digest(v).len()) == enc_digest(v),
    ensures
        dec_digest(b, pos, pos + enc_digest(v).len()) == Some(v),
{
    let s = enc_str_field(1, v.hash);
    let i = enc_i64_field(2, v.size_bytes);
    let e = enc_digest(v);
    let end = pos + e.len();
    let fuel = e.len() as int;
    assert(e == s + i);
    assert(forall|k: int| 0 <= k < e.len() ==> #[trigger] b[pos + k] == e[k]) by {
        assert(forall|k: int|
            0 <= k < e.len() ==> b.subrange(pos, pos + e.len())[k] == #[trigger] b[pos + k]);
    }
    if v.hash.len() == 0 && v.size_bytes == 0 {
        assert(e =~= Seq::<u8>::empty());
        assert(v.hash =~= Seq::<char>::empty());
        assert(empty_digest_view() == v);
    } else if v.hash.len() > 0 && v.size_bytes == 0 {
        assert(e =~= s);
        assert(b.subrange(pos, pos + s.len()) =~= s);
        lemma_digest_hash_field_step(b, pos, end, empty_digest_view(), fuel, v.hash);
        assert(DigestView { hash: v.hash, ..empty_digest_view() } == v);
    } else if v.hash.len() == 0 && v.size_bytes != 0 {
        assert(e =~= i);
        assert(b.subrange(pos, pos + i.len()) =~= i);
        lemma_digest_size_field_step(b, pos, end, empty_digest_view(), fuel, v.size_bytes);
        assert(v.hash =~= Seq::<char>::empty());
        assert(DigestView { size_bytes: v.size_bytes, ..empty_digest_view() } == v);
    } else {
        assert(b.subrange(pos, pos + s.len()) =~= s);
        assert(b.subrange(pos + s.len(), end) =~= i) by {
            assert(forall|k: int| 0 <= k < i.len() ==> e[s.len() + k] == #[trigger] i[k]);
        }
        lemma_digest_hash_field_step(b, pos, end, empty_digest_view(), fuel, v.hash);
        let acc1 = DigestView { hash: v.hash, ..empty_digest_view() };
        lemma_digest_size_field_step(b, pos + s.len(), end, acc1, fuel - 1, v.size_bytes);
        assert(DigestView { size_bytes: v.size_bytes, ..acc1 } == v);
    }
}

fn read_digest(b: &Vec<u8>, pos: usize, end: usize) -> (r: Option<Digest>)
    requires
        pos <= end <= b@.len(),
    ensures
        match dec_digest(b@, pos as int, end as int) {
            Some(v) => r matches Some(d) && d@ == v,
            None => r is None,
        },
{
    read_digest_fields(b, pos, end, String::new(), 0, end - pos)
}

pub open spec fn empty_file_node_view() -> FileNodeView {
    FileNodeView { name: Seq::empty(), digest: None, is_executable: false }
}

pub open spec fn dec_file_node_fields(
    b: Seq<u8>,
    pos: int,
    end: int,
    acc: FileNodeView,
    fuel: int,
) -> Option<FileNodeView>
    decreases fuel
        when 0 <= pos <= end <= b.len() && fuel >= 0
{
    if pos == end {
        Some(acc)
    } else if fuel <= 0 {
        None
    } else {
        match dec_varint(b, pos, end) {
            None => None,
            Some((tag, p)) => {
                if tag / 8 == 1 && tag % 8 == 2 {
                    match dec_varint(b, p, end) {
                        None => None,
                        Some((len, q)) => if q + len <= end {
                            if vstd::utf8::valid_utf8(b.subrange(q, q + len)) {
                                dec_file_node_fields(
                                    b,
                                    q + len,
                                    end,
                                    FileNodeView {
                                        name: vstd::utf8::decode_utf8(b.subrange(q, q + len)),
                                        ..acc
                                    },
                                    fuel - 1,
                                )
                            } else {
                                None
                            }
                        } else {
                            None
                        },
                    }
                } else if tag / 8 == 2 && tag % 8 == 2 {
                    match dec_varint(b, p, end) {
                        None => None,
                        Some((len, q)) => if q + len <= end {
                            match dec_digest(b, q, q + len) {
                                None => None,
                                Some(d) => dec_file_node_fields(
                                    b,
                                    q + len,
                                    end,
                                    FileNodeView { digest: Some(d), ..acc },
                                    fuel - 1,
                                ),
                            }
                        } else {
                            None
                        },
                    }
                } else if tag / 8 == 4 && tag % 8 == 0 {
                    match dec_varint(b, p, end) {
                        None => None,
                        Some((v, q)) => dec_file_node_fields(
                            b,
                            q,
                            end,
                            FileNodeView { is_executable: v != 0, ..acc },
                            fuel - 1,
                        ),
                    }
                } else {
                    match skip_field(b, p, end, tag % 8) {
                        None => None,
                        Some(q) => dec_file_node_fields(b, q, end, acc, fuel - 1),
                    }
                }
            },
        }
    }
}

pub open spec fn dec_file_node(b: Seq<u8>, pos: int, end: int) -> Option<FileNodeView> {
    dec_file_node_fields(b, pos, end, empty_file_node_view(), end - pos)
}

fn read_file_node_fields(b: &Vec<u8>, pos: usize, end: usize, acc: FileNode, fuel: usize) -> (r:
    Option<FileNode>)
    requires
        pos <= end <= b@.len(),
    ensures
        match dec_file_node_fields(b@, pos as int, end as int, acc@, fuel as int) {
            Some(v) => r matches Some(m) && m@ == v,
            None => r is None,
        },
    decreases fuel,
{
    if pos == end {
        return Some(acc);
    }
    if fuel == 0 {
        return None;
    }
    proof {
        lemma_dec_varint_advances(b@, pos as int, end as int);
    }
    match read_varint(b, pos, end) {
        None => None,
        Some((tag, p)) => {
            proof {
                lemma_dec_varint_advances(b@, p as int, end as int);
            }
            if tag / 8 == 1 && tag % 8 == 2 {
                match read_varint(b, p, end) {
                    None => None,
                    Some((len, q)) => {
                        if len <= (end - q) as u64 {
                            let stop = q + len as usize;
                            match payload_to_string(b, q, stop) {
                                None => None,
                                Some(s) => read_file_node_fields(
                                    b,
                                    stop,
                                    end,
                                    FileNode { name: s, ..acc },
                                    fuel - 1,
                                ),
                            }
                        } else {
                            None
                        }
                    },
                }
            } else if tag / 8 == 2 && tag % 8 == 2 {
                match read_varint(b, p, end) {
                    None => None,
                    Some((len, q)) => {
                        if len <= (end - q) as u64 {
                            let stop = q + len as usize;
                            match read_digest(b, q, stop) {
                                None => None,
                                Some(d) => read_file_node_fields(
                                    b,
                                    stop,
                                    end,
                                    FileNode { digest: Some(d), ..acc },
                                    fuel - 1,
                                ),
                            }
                        } else {
                            None
                        }
                    },
                }
            } else if tag / 8 == 4 && tag % 8 == 0 {
                match read_varint(b, p, end) {
                    None => None,
                    Some((v, q)) => read_file_node_fields(
                        b,
                        q,
                        end,
                        FileNode { is_executable: v != 0, ..acc },
                        fuel - 1,
                    ),
                }
            } else {
                match exec_skip_field(b, p, end, tag % 8) {
                    None => None,
                    Some(q) => read_file_node_fields(b, q, end, acc, fuel - 1),
                }
            }
        },
    }
}

fn read_file_node(b: &Vec<u8>, pos: usize, end: usize) -> (r: Option<FileNode>)
    requires
        pos <= end <= b@.len(),
    ensures
        match dec_file_node(b@, pos as int, end as int) {
            Some(v) => r matches Some(m) && m@ == v,
            None => r is None,
        },
{
    let acc = FileNode { name: String::new(), digest: None, is_executable: false };
    read_file_node_fields(b, pos, end, acc, end - pos)
}

/// A file node whose canonical encoding the decoders can read back.
pub open spec fn file_node_enc_ok(v: FileNodeView) -> bool {
    &&& encode_utf8(v.name).len() <= u64::MAX as int
    &&& (v.digest matches Some(d) ==> digest_enc_ok(d))
    &&& enc_file_node(v).len() <= u64::MAX as int
}

/// Reading a name field moves a file-node field loop one step.
#[verifier::rlimit(100)]
proof fn lemma_file_node_name_step(
    b: Seq<u8>,
    pos: int,
    end: int,
    acc: FileNodeView,
    fuel: int,
    h: Seq<char>,
)
    requires
        h.len() > 0,
        encode_utf8(h).len() <= u64::MAX as int,
        0 <= pos,
        pos + enc_str_field(1, h).len() <= end <= b.len(),
        fuel >= 1,
        b.subrange(pos, pos + enc_str_field(1, h).len()) == enc_str_field(1, h),
    ensures
        dec_file_node_fields(b, pos, end, acc, fuel) == dec_file_node_fields(
            b,
            pos + enc_str_field(1, h).len(),
            end,
            FileNodeView { name: h, ..acc },
            fuel - 1,
        ),
{
    let s = enc_str_field(1, h);
    let payload = encode_utf8(h);
    let plen = payload.len() as int;
    let lenv = enc_varint(plen);
    assert(enc_key(1, 2) == enc_varint(10));
    assert(enc_varint(10) =~= seq![10u8]);
    assert(s =~= seq![10u8] + lenv + payload);
    assert(forall|i: int| 0 <= i < s.len() ==> #[trigger] b[pos + i] == s[i]) by {
        assert(forall|i: int|
            0 <= i < s.len() ==> b.subrange(pos, pos + s.len())[i] == #[trigger] b[pos + i]);
    }
    assert(b.subrange(pos, pos + 1) =~= enc_varint(10));
    lemma_dec_varint_of_enc(b, pos, end, 10);
    assert forall|k: int| 0 <= k < lenv.len() implies b[pos + 1 + k] == lenv[k] by {
        assert(b[pos + (1 + k)] == s[1 + k]);
    }
    assert(b.subrange(pos + 1, pos + 1 + lenv.len()) =~= lenv);
    lemma_dec_varint_of_enc(b, pos + 1, end, plen);
    let q = pos + 1 + lenv.len();
    assert(q + plen <= end);
    assert forall|k: int| 0 <= k < plen implies b[q + k] == payload[k] by {
        assert(b[pos + (1 + lenv.len() + k)] == s[1 + lenv.len() + k]);
        assert(s[1 + lenv.len() + k] == payload[k]);
    }
    assert(b.subrange(q, q + plen) =~= payload);
    vstd::utf8::encode_utf8_valid_utf8(h);
    vstd::utf8::encode_utf8_decode_utf8(h);
    assert(pos < end);
    assert(q + plen == pos + s.len());
}

/// Reading a digest field moves a file-node field loop one step.
#[verifier::rlimit(100)]
proof fn lemma_file_node_digest_step(
    b: Seq<u8>,
    pos: int,
    end: int,
    acc: FileNodeView,
    fuel: int,
    dv: DigestView,
)
    requires
        digest_enc_ok(dv),
        0 <= pos,
        pos + enc_opt_digest(2, Some(dv)).len() <= end <= b.len(),
        fuel >= 1,
        b.subrange(pos, pos + enc_opt_digest(2, Some(dv)).len()) == enc_opt_digest(2, Some(dv)),
    ensures
        dec_file_node_fields(b, pos, end, acc, fuel) == dec_file_node_fields(
            b,
            pos + enc_opt_digest(2, Some(dv)).len(),
            end,
            FileNodeView { digest: Some(dv), ..acc },
            fuel - 1,
        ),
{
    let payload = enc_digest(dv);
    let plen = payload.len() as int;
    let lenv = enc_varint(plen);
    let s = enc_opt_digest(2, Some(dv));
    assert(enc_key(2, 2) == enc_varint(18));
    assert(enc_varint(18) =~= seq![18u8]);
    assert(s =~= seq![18u8] + lenv + payload);
    assert(forall|i: int| 0 <= i < s.len() ==> #[trigger] b[pos + i] == s[i]) by {
        assert(forall|i: int|
            0 <= i < s.len() ==> b.subrange(pos, pos + s.len())[i] == #[trigger] b[pos + i]);
    }
    assert(b.subrange(pos, pos + 1) =~= enc_varint(18));
    lemma_dec_varint_of_enc(b, pos, end, 18);
    assert forall|k: int| 0 <= k < lenv.len() implies b[pos + 1 + k] == lenv[k] by {
        assert(b[pos + (1 + k)] == s[1 + k]);
    }
    assert(b.subrange(pos + 1, pos + 1 + lenv.len()) =~= lenv);
    lemma_dec_varint_of_enc(b, pos + 1, end, plen);
    let q = pos + 1 + lenv.len();
    assert(q + plen <= end);
    assert forall|k: int| 0 <= k < plen implies b[q + k] == payload[k] by {
        assert(b[pos + (1 + lenv.len() + k)] == s[1 + lenv.len() + k]);
        assert(s[1 + lenv.len() + k] == payload[k]);
    }
    assert(b.subrange(q, q + plen) =~= payload);
    lemma_dec_digest_of_enc(b, q, dv);
    assert(pos < end);
    assert(q + plen == pos + s.len());
}

/// Reading an executable-flag field moves a file-node field loop one step.
proof fn lemma_file_node_exec_step(b: Seq<u8>, pos: int, end: int, acc: FileNodeView, fuel: int)
    requires
        0 <= pos,
        pos + 2 <= end <= b.len(),
        fuel >= 1,
        b.subrange(pos, pos + 2) == enc_bool_field(4, true),
    ensures
        dec_file_node_fields(b, pos, end, acc, fuel) == dec_file_node_fields(
            b,
            pos + 2,
            end,
            FileNodeView { is_executable: true, ..acc },
            fuel - 1,
        ),
{
    assert(enc_key(4, 0) == enc_varint(32));
    assert(enc_varint(32) =~= seq![32u8]);
    assert(enc_varint(1) =~= seq![1u8]);
    assert(enc_bool_field(4, true) =~= seq![32u8, 1u8]);
    assert(b[pos] == 32u8) by {
        assert(b.subrange(pos, pos + 2)[0] == b[pos]);
    }
    assert(b[pos + 1] == 1u8) by {
        assert(b.subrange(pos, pos + 2)[1] == b[pos + 1]);
    }
    assert(dec_varint(b, pos, end) == Some((32int, pos + 1)));
    assert(dec_varint(b, pos + 1, end) == Some((1int, pos + 2)));
}

/// The file-node message layer is invertible: wherever the canonical
/// encoding of a file node sits, decoding exactly its bytes returns it.
#[verifier::rlimit(100)]
pub proof fn lemma_dec_file_node_of_enc(b: Seq<u8>, pos: int, v: FileNodeView)
    requires
        file_node_enc_ok(v),
        0 <= pos,
        pos + enc_file_node(v).len() <= b.len(),
        b.subrange(pos, pos + enc_file_node(v).len()) == enc_file_node(v),
    ensures
        dec_file_node(b, pos, pos + enc_file_node(v).len()) == Some(v),
{
    let s1 = enc_str_field(1, v.name);
    let s2 = enc_opt_digest(2, v.digest);
    let s3 = enc_bool_field(4, v.is_executable);
    let e = enc_file_node(v);
    assert(e == s1 + s2 + s3);
    let end = pos + e.len();
    let p1 = pos + s1.len();
    let p2 = p1 + s2.len();
    let f0 = e.len() as int;
    assert(forall|k: int| 0 <= k < e.len() ==> #[trigger] b[pos + k] == e[k]) by {
        assert(forall|k: int|
            0 <= k < e.len() ==> b.subrange(pos, pos + e.len())[k] == #[trigger] b[pos + k]);
    }
    assert(b.subrange(pos, p1) =~= s1) by {
        assert(forall|k: int| 0 <= k < s1.len() ==> e[k] == #[trigger] s1[k]);
    }
    assert(b.subrange(p1, p2) =~= s2) by {
        assert(forall|k: int| 0 <= k < s2.len() ==> e[s1.len() + k] == #[trigger] s2[k]);
    }
    assert(b.subrange(p2, end) =~= s3) by {
        assert(forall|k: int| 0 <= k < s3.len() ==> e[s1.len() + s2.len() + k] == #[trigger] s3[k]);
    }
    let acc0 = empty_file_node_view();
    let acc1 = if v.name.len() > 0 {
        FileNodeView { name: v.name, ..acc0 }
    } else {
        acc0
    };
    let f1 = if v.name.len() > 0 {
        f0 - 1
    } else {
        f0
    };
    if v.name.len() > 0 {
        assert(enc_varint(encode_utf8(v.name).len() as int).len() >= 1);
        assert(s2.len() + s3.len() >= 1 ==> f1 >= 1);
        lemma_file_node_name_step(b, pos, end, acc0, f0, v.name);
    } else {
        assert(s1 =~= Seq::<u8>::empty());
    }
    assert(dec_file_node_fields(b, pos, end, acc0, f0) == dec_file_node_fields(
        b,
        p1,
        end,
        acc1,
        f1,
    ));
    let acc2 = match v.digest {
        Some(dv) => FileNodeView { digest: Some(dv), ..acc1 },
        None => acc1,
    };
    let f2 = if v.digest is Some {
        f1 - 1
    } else {
        f1
    };
    match v.digest {
        Some(dv) => {
            assert(enc_varint(enc_digest(dv).len() as int).len() >= 1);
            assert(s2.len() >= 2);
            assert(f1 >= s2.len() + s3.len());
            lemma_file_node_digest_step(b, p1, end, acc1, f1, dv);
        },
        None => {
            assert(s2 =~= Seq::<u8>::empty());
        },
    }
    assert(dec_file_node_fields(b, p1, end, acc1, f1) == dec_file_node_fields(
        b,
        p2,
        end,
        acc2,
        f2,
    ));
    let acc3 = if v.is_executable {
        FileNodeView { is_executable: true, ..acc2 }
    } else {
        acc2
    };
    let f3 = if v.is_executable {
        f2 - 1
    } else {
        f2
    };
    if v.is_executable {
        assert(enc_varint(33int) =~= seq![33u8]);
        assert(s3.len() == 2);
        assert(f2 >= s3.len());
        lemma_file_node_exec_step(b, p2, end, acc2, f2);
    } else {
        assert(s3 =~= Seq::<u8>::empty());
    }
    assert(dec_file_node_fields(b, p2, end, acc2, f2) == dec_file_node_fields(
        b,
        end,
        end,
        acc3,
        f3,
    ));
    assert(f3 >= 0);
    assert(dec_file_node_fields(b, end, end, acc3, f3) == Some(acc3));
    assert(acc3.name == v.name) by {
        if v.name.len() == 0 {
            assert(v.name =~= Seq::<char>::empty());
        }
    }
    assert(acc3 == v);
}

pub open spec fn empty_directory_node_view() -> DirectoryNodeView {
    DirectoryNodeView { name: Seq::empty(), digest: None }
}

pub open spec fn dec_directory_node_fields(
    b: Seq<u8>,
    pos: int,
    end: int,
    acc: DirectoryNodeView,
    fuel: int,
) -> Option<DirectoryNodeView>
    decreases fuel
        when 0 <= pos <= end <= b.len() && fuel >= 0
{
    if pos == end {
        Some(acc)
    } else if fuel <= 0 {
        None
    } else {
        match dec_varint(b, pos, end) {
            None => None,
            Some((tag, p)) => {
                if tag / 8 == 1 && tag % 8 == 2 {
                    match dec_varint(b, p, end) {
                        None => None,
                        Some((len, q)) => if q + len <= end {
                            if vstd::utf8::valid_utf8(b.subrange(q, q + len)) {
                                dec_directory_node_fields(
                                    b,
                                    q + len,
                                    end,
                                    DirectoryNodeView {
                                        name: vstd::utf8::decode_utf8(b.subrange(q, q + len)),
                                        ..acc
                                    },
                                    fuel - 1,
                                )
                            } else {
                                None
                            }
                        } else {
                            None
                        },
                    }
                } else if tag / 8 == 2 && tag % 8 == 2 {
                    match dec_varint(b, p, end) {
                        None => None,
                        Some((len, q)) => if q + len <= end {
                            match dec_digest(b, q, q + len) {
                                None => None,
                                Some(d) => dec_directory_node_fields(
                                    b,
                                    q + len,
                                    end,
                                    DirectoryNodeView { digest: Some(d), ..acc },
                                    fuel - 1,
                                ),
                            }
                        } else {
                            None
                        },
                    }
                } else {
                    match skip_field(b, p, end, tag % 8) {
                        None => None,
                        Some(q) => dec_directory_node_fields(b, q, end, acc, fuel - 1),
                    }
                }
            },
        }
    }
}

pub open spec fn dec_directory_node(b: Seq<u8>, pos: int, end: int) -> Option<DirectoryNodeView> {
    dec_directory_node_fields(b, pos, end, empty_directory_node_view(), end - pos)
}

fn read_directory_node_fields(
    b: &Vec<u8>,
    pos: usize,
    end: usize,
    acc: DirectoryNode,
    fuel: usize,
) -> (r: Option<DirectoryNode>)
    requires
        pos <= end <= b@.len(),
    ensures
        match dec_directory_node_fields(b@, pos as int, end as int, acc@, fuel as int) {
            Some(v) => r matches Some(m) && m@ == v,
            None => r is None,
        },
    decreases fuel,
{
    if pos == end {
        return Some(acc);
    }
    if fuel == 0 {
        return None;
    }
    proof {
        lemma_dec_varint_advances(b@, pos as int, end as int);
    }
    match read_varint(b, pos, end) {
        None => None,
        Some((tag, p)) => {
            proof {
                lemma_dec_varint_advances(b@, p as int, end as int);
            }
            if tag / 8 == 1 && tag % 8 == 2 {
                match read_varint(b, p, end) {
                    None => None,
                    Some((len, q)) => {
                        if len <= (end - q) as u64 {
                            let stop = q + len as usize;
                            match payload_to_string(b, q, stop) {
                                None => None,
                                Some(s) => read_directory_node_fields(
                                    b,
                                    stop,
                                    end,
                                    DirectoryNode { name: s, ..acc },
                                    fuel - 1,
                                ),
                            }
                        } else {
                            None
                        }
                    },
                }
            } else if tag / 8 == 2 && tag % 8 == 2 {
                match read_varint(b, p, end) {
                    None => None,
                    Some((len, q)) => {
                        if len <= (end - q) as u64 {
                            let stop = q + len as usize;
                            match read_digest(b, q, stop) {
                                None => None,
                                Some(d) => read_directory_node_fields(
                                    b,
                                    stop,
                                    end,
                                    DirectoryNode { digest: Some(d), ..acc },
                                    fuel - 1,
                                ),
                            }
                        } else {
                            None
                        }
                    },
                }
            } else {
                match exec_skip_field(b, p, end, tag % 8) {
                    None => None,
                    Some(q) => read_directory_node_fields(b, q, end, acc, fuel - 1),
                }
            }
        },
    }
}

fn read_directory_node(b: &Vec<u8>, pos: usize, end: usize) -> (r: Option<DirectoryNode>)
    requires
        pos <= end <= b@.len(),
    ensures
        match dec_directory_node(b@, pos as int, end as int) {
            Some(v) => r matches Some(m) && m@ == v,
            None => r is None,
        },
{
    let acc = DirectoryNode { name: String::new(), digest: None };
    read_directory_node_fields(b, pos, end, acc, end - pos)
}

/// A directory node whose canonical encoding the decoders can read back.
pub open spec fn directory_node_enc_ok(v: DirectoryNodeView) -> bool {
    &&& encode_utf8(v.name).len() <= u64::MAX as int
    &&& (v.digest matches Some(d) ==> digest_enc_ok(d))
    &&& enc_directory_node(v).len() <= u64::MAX as int
}

/// Reading a name field moves a directory-node field loop one step.
#[verifier::rlimit(100)]
proof fn lemma_directory_node_name_step(
    b: Seq<u8>,
    pos: int,
    end: int,
    acc: DirectoryNodeView,
    fuel: int,
    h: Seq<char>,
)
    requires
        h.len() > 0,
        encode_utf8(h).len() <= u64::MAX as int,
        0 <= pos,
        pos + enc_str_field(1, h).len() <= end <= b.len(),
        fuel >= 1,
        b.subrange(pos, pos + enc_str_field(1, h).len()) == enc_str_field(1, h),
    ensures
        dec_directory_node_fields(b, pos, end, acc, fuel) == dec_directory_node_fields(
            b,
            pos + enc_str_field(1, h).len(),
            end,
            DirectoryNodeView { name: h, ..acc },
            fuel - 1,
        ),
{
    let s = enc_str_field(1, h);
    let payload = encode_utf8(h);
    let plen = payload.len() as int;
    let lenv = enc_varint(plen);
    assert(enc_key(1, 2) == enc_varint(10));
    assert(enc_varint(10) =~= seq![10u8]);
    assert(s =~= seq![10u8] + lenv + payload);
    assert(forall|i: int| 0 <= i < s.len() ==> #[trigger] b[pos + i] == s[i]) by {
        assert(forall|i: int|
            0 <= i < s.len() ==> b.subrange(pos, pos + s.len())[i] == #[trigger] b[pos + i]);
    }
    assert(b.subrange(pos, pos + 1) =~= enc_varint(10));
    lemma_dec_varint_of_enc(b, pos, end, 10);
    assert forall|k: int| 0 <= k < lenv.len() implies b[pos + 1 + k] == lenv[k] by {
        assert(b[pos + (1 + k)] == s[1 + k]);
    }
    assert(b.subrange(pos + 1, pos + 1 + lenv.len()) =~= lenv);
    lemma_dec_varint_of_enc(b, pos + 1, end, plen);
    let q = pos + 1 + lenv.len();
    assert(q + plen <= end);
    assert forall|k: int| 0 <= k < plen implies b[q + k] == payload[k] by {
        assert(b[pos + (1 + lenv.len() + k)] == s[1 + lenv.len() + k]);
        assert(s[1 + lenv.len() + k] == payload[k]);
    }
    assert(b.subrange(q, q + plen) =~= payload);
    vstd::utf8::encode_utf8_valid_utf8(h);
    vstd::utf8::encode_utf8_decode_utf8(h);
    assert(pos < end);
    assert(q + plen == pos + s.len());
}

/// Reading a digest field moves a directory-node field loop one step.
#[verifier::rlimit(100)]
proof fn lemma_directory_node_digest_step(
    b: Seq<u8>,
    pos: int,
    end: int,
    acc: DirectoryNodeView,
    fuel: int,
    dv: DigestView,
)
    requires
        digest_enc_ok(dv),
        0 <= pos,
        pos + enc_opt_digest(2, Some(dv)).len() <= end <= b.len(),
        fuel >= 1,
        b.subrange(pos, pos + enc_opt_digest(2, Some(dv)).len()) == enc_opt_digest(2, Some(dv)),
    ensures
        dec_directory_node_fields(b, pos, end, acc, fuel) == dec_directory_node_fields(
            b,
            pos + enc_opt_digest(2, Some(dv)).len(),
            end,
            DirectoryNodeView { digest: Some(dv), ..acc },
            fuel - 1,
        ),
{
    let payload = enc_digest(dv);
    let plen = payload.len() as int;
    let lenv = enc_varint(plen);
    let s = enc_opt_digest(2, Some(dv));
    assert(enc_key(2, 2) == enc_varint(18));
    assert(enc_varint(18) =~= seq![18u8]);
    assert(s =~= seq![18u8] + lenv + payload);
    assert(forall|i: int| 0 <= i < s.len() ==> #[trigger] b[pos + i] == s[i]) by {
        assert(forall|i: int|
            0 <= i < s.len() ==> b.subrange(pos, pos + s.len())[i] == #[trigger] b[pos + i]);
    }
    assert(b.subrange(pos, pos + 1) =~= enc_varint(18));
    lemma_dec_varint_of_enc(b, pos, end, 18);
    assert forall|k: int| 0 <= k < lenv.len() implies b[pos + 1 + k] == lenv[k] by {
        assert(b[pos + (1 + k)] == s[1 + k]);
    }
    assert(b.subrange(pos + 1, pos + 1 + lenv.len()) =~= lenv);
    lemma_dec_varint_of_enc(b, pos + 1, end, plen);
    let q = pos + 1 + lenv.len();
    assert(q + plen <= end);
    assert forall|k: int| 0 <= k < plen implies b[q + k] == payload[k] by {
        assert(b[pos + (1 + lenv.len() + k)] == s[1 + lenv.len() + k]);
        assert(s[1 + lenv.len() + k] == payload[k]);
    }
    assert(b.subrange(q, q + plen) =~= payload);
    lemma_dec_digest_of_enc(b, q, dv);
    assert(pos < end);
    assert(q + plen == pos + s.len());
}

/// The directory-node message layer is invertible.
#[verifier::rlimit(100)]
pub proof fn lemma_dec_directory_node_of_enc(b: Seq<u8>, pos: int, v: DirectoryNodeView)
    requires
        directory_node_enc_ok(v),
        0 <= pos,
        pos + enc_directory_node(v).len() <= b.len(),
        b.subrange(pos, pos + enc_directory_node(v).len()) == enc_directory_node(v),
    ensures
        dec_directory_node(b, pos, pos + enc_directory_node(v).len()) == Some(v),
{
    let s1 = enc_str_field(1, v.name);
    let s2 = enc_opt_digest(2, v.digest);
    let e = enc_directory_node(v);
    assert(e == s1 + s2);
    let end = pos + e.len();
    let p1 = pos + s1.len();
    let f0 = e.len() as int;
    assert(forall|k: int| 0 <= k < e.len() ==> #[trigger] b[pos + k] == e[k]) by {
        assert(forall|k: int|
            0 <= k < e.len() ==> b.subrange(pos, pos + e.len())[k] == #[trigger] b[pos + k]);
    }
    assert(b.subrange(pos, p1) =~= s1) by {
        assert(forall|k: int| 0 <= k < s1.len() ==> e[k] == #[trigger] s1[k]);
    }
    assert(b.subrange(p1, end) =~= s2) by {
        assert(forall|k: int| 0 <= k < s2.len() ==> e[s1.len() + k] == #[trigger] s2[k]);
    }
    let acc0 = empty_directory_node_view();
    let acc1 = if v.name.len() > 0 {
        DirectoryNodeView { name: v.name, ..acc0 }
    } else {
        acc0
    };
    let f1 = if v.name.len() > 0 {
        f0 - 1
    } else {
        f0
    };
    if v.name.len() > 0 {
        assert(enc_varint(encode_utf8(v.name).len() as int).len() >= 1);
        lemma_directory_node_name_step(b, pos, end, acc0, f0, v.name);
    } else {
        assert(s1 =~= Seq::<u8>::empty());
    }
    assert(dec_directory_node_fields(b, pos, end, acc0, f0) == dec_directory_node_fields(
        b,
        p1,
        end,
        acc1,
        f1,
    ));
    let acc2 = match v.digest {
        Some(dv) => DirectoryNodeView { digest: Some(dv), ..acc1 },
        None => acc1,
    };
    let f2 = if v.digest is Some {
        f1 - 1
    } else {
        f1
    };
    match v.digest {
        Some(dv) => {
            assert(enc_varint(enc_digest(dv).len() as int).len() >= 1);
            assert(s2.len() >= 2);
            assert(f1 >= s2.len());
            lemma_directory_node_digest_step(b, p1, end, acc1, f1, dv);
        },
        None => {
            assert(s2 =~= Seq::<u8>::empty());
        },
    }
    assert(dec_directory_node_fields(b, p1, end, acc1, f1) == dec_directory_node_fields(
        b,
        end,
        end,
        acc2,
        f2,
    ));
    assert(f2 >= 0);
    assert(acc2.name == v.name) by {
        if v.name.len() == 0 {
            assert(v.name =~= Seq::<char>::empty());
        }
    }
    assert(acc2 == v);
}

pub open spec fn empty_symlink_node_view() -> SymlinkNodeView {
    SymlinkNodeView { name: Seq::empty(), target: Seq::empty() }
}

pub open spec fn dec_symlink_node_fields(
    b: Seq<u8>,
    pos: int,
    end: int,
    acc: SymlinkNodeView,
    fuel: int,
) -> Option<SymlinkNodeView>
    decreases fuel
        when 0 <= pos <= end <= b.len() && fuel >= 0
{
    if pos == end {
        Some(acc)
    } else if fuel <= 0 {
        None
    } else {
        match dec_varint(b, pos, end) {
            None => None,
            Some((tag, p)) => {
                if (tag / 8 == 1 || tag / 8 == 2) && tag % 8 == 2 {
                    match dec_varint(b, p, end) {
                        None => None,
                        Some((len, q)) => if q + len <= end {
                            if vstd::utf8::valid_utf8(b.subrange(q, q + len)) {
                                dec_symlink_node_fields(
                                    b,
                                    q + len,
                                    end,
                                    if tag / 8 == 1 {
                                        SymlinkNodeView {
                                            name: vstd::utf8::decode_utf8(b.subrange(q, q + len)),
                                            ..acc
                                        }
                                    } else {
                                        SymlinkNodeView {
                                            target: vstd::utf8::decode_utf8(b.subrange(q, q + len)),
                                            ..acc
                                        }
                                    },
                                    fuel - 1,
                                )
                            } else {
                                None
                            }
                        } else {
                            None
                        },
                    }
                } else {
                    match skip_field(b, p, end, tag % 8) {
                        None => None,
                        Some(q) => dec_symlink_node_fields(b, q, end, acc, fuel - 1),
                    }
                }
            },
        }
    }
}

pub open spec fn dec_symlink_node(b: Seq<u8>, pos: int, end: int) -> Option<SymlinkNodeView> {
    dec_symlink_node_fields(b, pos, end, empty_symlink_node_view(), end - pos)
}

fn read_symlink_node_fields(
    b: &Vec<u8>,
    pos: usize,
    end: usize,
    acc: SymlinkNode,
    fuel: usize,
) -> (r: Option<SymlinkNode>)
    requires
        pos <= end <= b@.len(),
    ensures
        match dec_symlink_node_fields(b@, pos as int, end as int, acc@, fuel as int) {
            Some(v) => r matches Some(m) && m@ == v,
            None => r is None,
        },
    decreases fuel,
{
    if pos == end {
        return Some(acc);
    }
    if fuel == 0 {
        return None;
    }
    proof {
        lemma_dec_varint_advances(b@, pos as int, end as int);
    }
    match read_varint(b, pos, end) {
        None => None,
        Some((tag, p)) => {
            proof {
                lemma_dec_varint_advances(b@, p as int, end as int);
            }
            if (tag / 8 == 1 || tag / 8 == 2) && tag % 8 == 2 {
                match read_varint(b, p, end) {
                    None => None,
                    Some((len, q)) => {
                        if len <= (end - q) as u64 {
                            let stop = q + len as usize;
                            match payload_to_string(b, q, stop) {
                                None => None,
                                Some(s) => {
                                    let acc2 = if tag / 8 == 1 {
                                        SymlinkNode { name: s, ..acc }
                                    } else {
                                        SymlinkNode { target: s, ..acc }
                                    };
                                    read_symlink_node_fields(b, stop, end, acc2, fuel - 1)
                                },
                            }
                        } else {
                            None
                        }
                    },
                }
            } else {
                match exec_skip_field(b, p, end, tag % 8) {
                    None => None,
                    Some(q) => read_symlink_node_fields(b, q, end, acc, fuel - 1),
                }
            }
        },
    }
}

fn read_symlink_node(b: &Vec<u8>, pos: usize, end: usize) -> (r: Option<SymlinkNode>)
    requires
        pos <= end <= b@.len(),
    ensures
        match dec_symlink_node(b@, pos as int, end as int) {
            Some(v) => r matches Some(m) && m@ == v,
            None => r is None,
        },
{
    let acc = SymlinkNode { name: String::new(), target: String::new() };
    read_symlink_node_fields(b, pos, end, acc, end - pos)
}

/// A symlink node whose canonical encoding the decoders can read back.
pub open spec fn symlink_node_enc_ok(v: SymlinkNodeView) -> bool {
    &&& encode_utf8(v.name).len() <= u64::MAX as int
    &&& encode_utf8(v.target).len() <= u64::MAX as int
    &&& enc_symlink_node(v).len() <= u64::MAX as int
}

/// Reading a name or target field moves a symlink-node field loop one
/// step; `field` is 1 for the name, 2 for the target.
#[verifier::rlimit(100)]
proof fn lemma_symlink_node_str_step(
    b: Seq<u8>,
    pos: int,
    end: int,
    acc: SymlinkNodeView,
    fuel: int,
    field: int,
    h: Seq<char>,
)
    requires
        field == 1 || field == 2,
        h.len() > 0,
        encode_utf8(h).len() <= u64::MAX as int,
        0 <= pos,
        pos + enc_str_field(field, h).len() <= end <= b.len(),
        fuel >= 1,
        b.subrange(pos, pos + enc_str_field(field, h).len()) == enc_str_field(field, h),
    ensures
        dec_symlink_node_fields(b, pos, end, acc, fuel) == dec_symlink_node_fields(
            b,
            pos + enc_str_field(field, h).len(),
            end,
            if field == 1 {
                SymlinkNodeView { name: h, ..acc }
            } else {
                SymlinkNodeView { target: h, ..acc }
            },
            fuel - 1,
        ),
{
    let s = enc_str_field(field, h);
    let payload = encode_utf8(h);
    let plen = payload.len() as int;
    let lenv = enc_varint(plen);
    let tag = field * 8 + 2;
    assert(enc_key(field, 2) == enc_varint(tag));
    assert(enc_varint(10) =~= seq![10u8]);
    assert(enc_varint(18) =~= seq![18u8]);
    assert(s =~= seq![tag as u8] + lenv + payload);
    assert(forall|i: int| 0 <= i < s.len() ==> #[trigger] b[pos + i] == s[i]) by {
        assert(forall|i: int|
            0 <= i < s.len() ==> b.subrange(pos, pos + s.len())[i] == #[trigger] b[pos + i]);
    }
    assert(b.subrange(pos, pos + 1) =~= enc_varint(tag));
    lemma_dec_varint_of_enc(b, pos, end, tag);
    assert forall|k: int| 0 <= k < lenv.len() implies b[pos + 1 + k] == lenv[k] by {
        assert(b[pos + (1 + k)] == s[1 + k]);
    }
    assert(b.subrange(pos + 1, pos + 1 + lenv.len()) =~= lenv);
    lemma_dec_varint_of_enc(b, pos + 1, end, plen);
    let q = pos + 1 + lenv.len();
    assert(q + plen <= end);
    assert forall|k: int| 0 <= k < plen implies b[q + k] == payload[k] by {
        assert(b[pos + (1 + lenv.len() + k)] == s[1 + lenv.len() + k]);
        assert(s[1 + lenv.len() + k] == payload[k]);
    }
    assert(b.subrange(q, q + plen) =~= payload);
    vstd::utf8::encode_utf8_valid_utf8(h);
    vstd::utf8::encode_utf8_decode_utf8(h);
    assert(pos < end);
    assert(q + plen == pos + s.len());
}

/// The symlink-node message layer is invertible.
#[verifier::rlimit(100)]
pub proof fn lemma_dec_symlink_node_of_enc(b: Seq<u8>, pos: int, v: SymlinkNodeView)
    requires
        symlink_node_enc_ok(v),
        0 <= pos,
        pos + enc_symlink_node(v).len() <= b.len(),
        b.subrange(pos, pos + enc_symlink_node(v).len()) == enc_symlink_node(v),
    ensures
        dec_symlink_node(b, pos, pos + enc_symlink_node(v).len()) == Some(v),
{
    let s1 = enc_str_field(1, v.name);
    let s2 = enc_str_field(2, v.target);
    let e = enc_symlink_node(v);
    assert(e == s1 + s2);
    let end = pos + e.len();
    let p1 = pos + s1.len();
    let f0 = e.len() as int;
    assert(forall|k: int| 0 <= k < e.len() ==> #[trigger] b[pos + k] == e[k]) by {
        assert(forall|k: int|
            0 <= k < e.len() ==> b.subrange(pos, pos + e.len())[k] == #[trigger] b[pos + k]);
    }
    assert(b.subrange(pos, p1) =~= s1) by {
        assert(forall|k: int| 0 <= k < s1.len() ==> e[k] == #[trigger] s1[k]);
    }
    assert(b.subrange(p1, end) =~= s2) by {
        assert(forall|k: int| 0 <= k < s2.len() ==> e[s1.len() + k] == #[trigger] s2[k]);
    }
    let acc0 = empty_symlink_node_view();
    let acc1 = if v.name.len() > 0 {
        SymlinkNodeView { name: v.name, ..acc0 }
    } else {
        acc0
    };
    let f1 = if v.name.len() > 0 {
        f0 - 1
    } else {
        f0
    };
    if v.name.len() > 0 {
        assert(enc_varint(encode_utf8(v.name).len() as int).len() >= 1);
        lemma_symlink_node_str_step(b, pos, end, acc0, f0, 1, v.name);
    } else {
        assert(s1 =~= Seq::<u8>::empty());
    }
    assert(dec_symlink_node_fields(b, pos, end, acc0, f0) == dec_symlink_node_fields(
        b,
        p1,
        end,
        acc1,
        f1,
    ));
    let acc2 = if v.target.len() > 0 {
        SymlinkNodeView { target: v.target, ..acc1 }
    } else {
        acc1
    };
    let f2 = if v.target.len() > 0 {
        f1 - 1
    } else {
        f1
    };
    if v.target.len() > 0 {
        assert(enc_varint(encode_utf8(v.target).len() as int).len() >= 1);
        assert(s2.len() >= 2);
        assert(f1 >= s2.len());
        lemma_symlink_node_str_step(b, p1, end, acc1, f1, 2, v.target);
    } else {
        assert(s2 =~= Seq::<u8>::empty());
    }
    assert(dec_symlink_node_fields(b, p1, end, acc1, f1) == dec_symlink_node_fields(
        b,
        end,
        end,
        acc2,
        f2,
    ));
    assert(f2 >= 0);
    assert(acc2.name == v.name) by {
        if v.name.len() == 0 {
            assert(v.name =~= Seq::<char>::empty());
        }
    }
    assert(acc2.target == v.target) by {
        if v.target.len() == 0 {
            assert(v.target =~= Seq::<char>::empty());
        }
    }
    assert(acc2 == v);
}

pub open spec fn empty_directory_view() -> DirectoryView {
    DirectoryView { files: Seq::empty(), directories: Seq::empty(), symlinks: Seq::empty() }
}

pub open spec fn dec_directory_fields(
    b: Seq<u8>,
    pos: int,
    end: int,
    acc: DirectoryView,
    fuel: int,
) -> Option<DirectoryView>
    decreases fuel
        when 0 <= pos <= end <= b.len() && fuel >= 0
{
    if pos == end {
        Some(acc)
    } else if fuel <= 0 {
        None
    } else {
        match dec_varint(b, pos, end) {
            None => None,
            Some((tag, p)) => {
                if (tag / 8 == 1 || tag / 8 == 2 || tag / 8 == 3) && tag % 8 == 2 {
                    match dec_varint(b, p, end) {
                        None => None,
                        Some((len, q)) => if q + len <= end {
                            if tag / 8 == 1 {
                                match dec_file_node(b, q, q + len) {
                                    None => None,
                                    Some(f) => dec_directory_fields(
                                        b,
                                        q + len,
                                        end,
                                        DirectoryView { files: acc.files.push(f), ..acc },
                                        fuel - 1,
                                    ),
                                }
                            } else if tag / 8 == 2 {
                                match dec_directory_node(b, q, q + len) {
                                    None => None,
                                    Some(d) => dec_directory_fields(
                                        b,
                                        q + len,
                                        end,
                                        DirectoryView {
                                            directories: acc.directories.push(d),
                                            ..acc
                                        },
                                        fuel - 1,
                                    ),
                                }
                            } else {
                                match dec_symlink_node(b, q, q + len) {
                                    None => None,
                                    Some(l) => dec_directory_fields(
                                        b,
                                        q + len,
                                        end,
                                        DirectoryView { symlinks: acc.symlinks.push(l), ..acc },
                                        fuel - 1,
                                    ),
                                }
                            }
                        } else {
                            None
                        },
                    }
                } else {
                    match skip_field(b, p, end, tag % 8) {
                        None => None,
                        Some(q) => dec_directory_fields(b, q, end, acc, fuel - 1),
                    }
                }
            },
        }
    }
}

/// The directory message a byte range denotes.
pub open spec fn dec_directory(b: Seq<u8>, pos: int, end: int) -> Option<DirectoryView> {
    dec_directory_fields(b, pos, end, empty_directory_view(), end - pos)
}

fn read_directory_fields(
    b: &Vec<u8>,
    pos: usize,
    end: usize,
    acc: DirectoryMsg,
    fuel: usize,
) -> (r: Option<DirectoryMsg>)
    requires
        pos <= end <= b@.len(),
    ensures
        match dec_directory_fields(b@, pos as int, end as int, acc@, fuel as int) {
            Some(v) => r matches Some(m) && m@ == v,
            None => r is None,
        },
    decreases fuel,
{
    if pos == end {
        return Some(acc);
    }
    if fuel == 0 {
        return None;
    }
    proof {
        lemma_dec_varint_advances(b@, pos as int, end as int);
    }
    match read_varint(b, pos, end) {
        None => None,
        Some((tag, p)) => {
            proof {
                lemma_dec_varint_advances(b@, p as int, end as int);
            }
            if (tag / 8 == 1 || tag / 8 == 2 || tag / 8 == 3) && tag % 8 == 2 {
                match read_varint(b, p, end) {
                    None => None,
                    Some((len, q)) => {
                        if len <= (end - q) as u64 {
                            let stop = q + len as usize;
                            if tag / 8 == 1 {
                                match read_file_node(b, q, stop) {
                                    None => None,
                                    Some(f) => {
                                        let ghost acc0 = acc@;
                                        let ghost fv = f@;
                                        let mut acc2 = acc;
                                        acc2.files.push(f);
                                        proof {
                                            assert(acc2@.files =~= acc0.files.push(fv));
                                            assert(acc2@.directories =~= acc0.directories);
                                            assert(acc2@.symlinks =~= acc0.symlinks);
                                        }
                                        read_directory_fields(b, stop, end, acc2, fuel - 1)
                                    },
                                }
                            } else if tag / 8 == 2 {
                                match read_directory_node(b, q, stop) {
                                    None => None,
                                    Some(d) => {
                                        let ghost acc0 = acc@;
                                        let ghost dv = d@;
                                        let mut acc2 = acc;
                                        acc2.directories.push(d);
                                        proof {
                                            assert(acc2@.directories =~= acc0.directories.push(dv));
                                            assert(acc2@.files =~= acc0.files);
                                            assert(acc2@.symlinks =~= acc0.symlinks);
                                        }
                                        read_directory_fields(b, stop, end, acc2, fuel - 1)
                                    },
                                }
                            } else {
                                match read_symlink_node(b, q, stop) {
                                    None => None,
                                    Some(l) => {
                                        let ghost acc0 = acc@;
                                        let ghost lv = l@;
                                        let mut acc2 = acc;
                                        acc2.symlinks.push(l);
                                        proof {
                                            assert(acc2@.symlinks =~= acc0.symlinks.push(lv));
                                            assert(acc2@.files =~= acc0.files);
                                            assert(acc2@.directories =~= acc0.directories);
                                        }
                                        read_directory_fields(b, stop, end, acc2, fuel - 1)
                                    },
                                }
                            }
                        } else {
                            None
                        }
                    },
                }
            } else {
                match exec_skip_field(b, p, end, tag % 8) {
                    None => None,
                    Some(q) => read_directory_fields(b, q, end, acc, fuel - 1),
                }
            }
        },
    }
}

/// Decodes one directory level from its wire bytes.
pub fn decode_directory(b: &Vec<u8>) -> (r: Option<DirectoryMsg>)
    ensures
        match dec_directory(b@, 0, b@.len() as int) {
            Some(v) => r matches Some(m) && m@ == v,
            None => r is None,
        },
{
    let acc = DirectoryMsg { files: Vec::new(), directories: Vec::new(), symlinks: Vec::new() };
    proof {
        assert(acc@.files =~= empty_directory_view().files);
        assert(acc@.directories =~= empty_directory_view().directories);
        assert(acc@.symlinks =~= empty_directory_view().symlinks);
    }
    let n = b.len();
    read_directory_fields(b, 0, n, acc, n)
}

/// A repeated file-node field peels from the front: its first item's
/// wrapper, then the rest.
proof fn lemma_enc_file_nodes_first(s: Seq<FileNodeView>)
    requires
        s.len() > 0,
    ensures
        enc_file_nodes(s) == enc_len_field(1, enc_file_node(s[0])) + enc_file_nodes(
            s.drop_first(),
        ),
        enc_file_nodes(s).len() >= s.len(),
    decreases s.len(),
{
    let item = enc_len_field(1, enc_file_node(s[0]));
    assert(enc_varint(10).len() >= 1);
    assert(item.len() >= 1);
    if s.len() == 1 {
        assert(s.drop_last() =~= Seq::<FileNodeView>::empty());
        assert(s.drop_first() =~= Seq::<FileNodeView>::empty());
        assert(s.last() == s[0]);
        assert(Seq::<u8>::empty() + enc_len_field(1, enc_file_node(s.last())) =~= enc_len_field(
            1,
            enc_file_node(s.last()),
        ));
        assert(enc_len_field(1, enc_file_node(s[0])) + Seq::<u8>::empty() =~= enc_len_field(
            1,
            enc_file_node(s[0]),
        ));
    } else {
        let p = s.drop_last();
        lemma_enc_file_nodes_first(p);
        assert(p[0] == s[0]);
        assert(s.drop_first().drop_last() =~= p.drop_first());
        assert(s.drop_first().last() == s.last());
        assert(enc_file_nodes(s.drop_first()) == enc_file_nodes(p.drop_first()) + enc_len_field(
            1,
            enc_file_node(s.last()),
        ));
        assert((item + enc_file_nodes(p.drop_first())) + enc_len_field(
            1,
            enc_file_node(s.last()),
        ) =~= item + (enc_file_nodes(p.drop_first()) + enc_len_field(
            1,
            enc_file_node(s.last()),
        )));
    }
}

proof fn lemma_enc_directory_nodes_first(s: Seq<DirectoryNodeView>)
    requires
        s.len() > 0,
    ensures
        enc_directory_nodes(s) == enc_len_field(2, enc_directory_node(s[0]))
            + enc_directory_nodes(s.drop_first()),
        enc_directory_nodes(s).len() >= s.len(),
    decreases s.len(),
{
    let item = enc_len_field(2, enc_directory_node(s[0]));
    assert(enc_varint(18).len() >= 1);
    assert(item.len() >= 1);
    if s.len() == 1 {
        assert(s.drop_last() =~= Seq::<DirectoryNodeView>::empty());
        assert(s.drop_first() =~= Seq::<DirectoryNodeView>::empty());
        assert(s.last() == s[0]);
        assert(Seq::<u8>::empty() + enc_len_field(2, enc_directory_node(s.last()))
            =~= enc_len_field(2, enc_directory_node(s.last())));
        assert(enc_len_field(2, enc_directory_node(s[0])) + Seq::<u8>::empty() =~= enc_len_field(
            2,
            enc_directory_node(s[0]),
        ));
    } else {
        let p = s.drop_last();
        lemma_enc_directory_nodes_first(p);
        assert(p[0] == s[0]);
        assert(s.drop_first().drop_last() =~= p.drop_first());
        assert(s.drop_first().last() == s.last());
        assert(enc_directory_nodes(s.drop_first()) == enc_directory_nodes(p.drop_first())
            + enc_len_field(2, enc_directory_node(s.last())));
        assert((item + enc_directory_nodes(p.drop_first())) + enc_len_field(
            2,
            enc_directory_node(s.last()),
        ) =~= item + (enc_directory_nodes(p.drop_first()) + enc_len_field(
            2,
            enc_directory_node(s.last()),
        )));
    }
}

proof fn lemma_enc_symlink_nodes_first(s: Seq<SymlinkNodeView>)
    requires
        s.len() > 0,
    ensures
        enc_symlink_nodes(s) == enc_len_field(3, enc_symlink_node(s[0])) + enc_symlink_nodes(
            s.drop_first(),
        ),
        enc_symlink_nodes(s).len() >= s.len(),
    decreases s.len(),
{
    let item = enc_len_field(3, enc_symlink_node(s[0]));
    assert(enc_varint(26).len() >= 1);
    assert(item.len() >= 1);
    if s.len() == 1 {
        assert(s.drop_last() =~= Seq::<SymlinkNodeView>::empty());
        assert(s.drop_first() =~= Seq::<SymlinkNodeView>::empty());
        assert(s.last() == s[0]);
        assert(Seq::<u8>::empty() + enc_len_field(3, enc_symlink_node(s.last())) =~= enc_len_field(
            3,
            enc_symlink_node(s.last()),
        ));
        assert(enc_len_field(3, enc_symlink_node(s[0])) + Seq::<u8>::empty() =~= enc_len_field(
            3,
            enc_symlink_node(s[0]),
        ));
    } else {
        let p = s.drop_last();
        lemma_enc_symlink_nodes_first(p);
        assert(p[0] == s[0]);
        assert(s.drop_first().drop_last() =~= p.drop_first());
        assert(s.drop_first().last() == s.last());
        assert(enc_symlink_nodes(s.drop_first()) == enc_symlink_nodes(p.drop_first())
            + enc_len_field(3, enc_symlink_node(s.last())));
        assert((item + enc_symlink_nodes(p.drop_first())) + enc_len_field(
            3,
            enc_symlink_node(s.last()),
        ) =~= item + (enc_symlink_nodes(p.drop_first()) + enc_len_field(
            3,
            enc_symlink_node(s.last()),
        )));
    }
}

/// Reading one wrapped file node moves a directory field loop one step.
#[verifier::rlimit(100)]
proof fn lemma_directory_file_item_step(
    b: Seq<u8>,
    pos: int,
    end: int,
    acc: DirectoryView,
    fuel: int,
    fv: FileNodeView,
)
    requires
        file_node_enc_ok(fv),
        0 <= pos,
        pos + enc_len_field(1, enc_file_node(fv)).len() <= end <= b.len(),
        fuel >= 1,
        b.subrange(pos, pos + enc_len_field(1, enc_file_node(fv)).len()) == enc_len_field(
            1,
            enc_file_node(fv),
        ),
    ensures
        dec_directory_fields(b, pos, end, acc, fuel) == dec_directory_fields(
            b,
            pos + enc_len_field(1, enc_file_node(fv)).len(),
            end,
            DirectoryView { files: acc.files.push(fv), ..acc },
            fuel - 1,
        ),
{
    let payload = enc_file_node(fv);
    let plen = payload.len() as int;
    let lenv = enc_varint(plen);
    let s = enc_len_field(1, payload);
    assert(enc_key(1, 2) == enc_varint(10));
    assert(enc_varint(10) =~= seq![10u8]);
    assert(s =~= seq![10u8] + lenv + payload);
    assert(forall|i: int| 0 <= i < s.len() ==> #[trigger] b[pos + i] == s[i]) by {
        assert(forall|i: int|
            0 <= i < s.len() ==> b.subrange(pos, pos + s.len())[i] == #[trigger] b[pos + i]);
    }
    assert(b.subrange(pos, pos + 1) =~= enc_varint(10));
    lemma_dec_varint_of_enc(b, pos, end, 10);
    assert forall|k: int| 0 <= k < lenv.len() implies b[pos + 1 + k] == lenv[k] by {
        assert(b[pos + (1 + k)] == s[1 + k]);
    }
    assert(b.subrange(pos + 1, pos + 1 + lenv.len()) =~= lenv);
    lemma_dec_varint_of_enc(b, pos + 1, end, plen);
    let q = pos + 1 + lenv.len();
    assert(q + plen <= end);
    assert forall|k: int| 0 <= k < plen implies b[q + k] == payload[k] by {
        assert(b[pos + (1 + lenv.len() + k)] == s[1 + lenv.len() + k]);
        assert(s[1 + lenv.len() + k] == payload[k]);
    }
    assert(b.subrange(q, q + plen) =~= payload);
    lemma_dec_file_node_of_enc(b, q, fv);
    assert(pos < end);
    assert(q + plen == pos + s.len());
}

/// Reading one wrapped directory node moves a directory field loop one
/// step.
#[verifier::rlimit(100)]
proof fn lemma_directory_dir_item_step(
    b: Seq<u8>,
    pos: int,
    end: int,
    acc: DirectoryView,
    fuel: int,
    dv: DirectoryNodeView,
)
    requires
        directory_node_enc_ok(dv),
        0 <= pos,
        pos + enc_len_field(2, enc_directory_node(dv)).len() <= end <= b.len(),
        fuel >= 1,
        b.subrange(pos, pos + enc_len_field(2, enc_directory_node(dv)).len()) == enc_len_field(
            2,
            enc_directory_node(dv),
        ),
    ensures
        dec_directory_fields(b, pos, end, acc, fuel) == dec_directory_fields(
            b,
            pos + enc_len_field(2, enc_directory_node(dv)).len(),
            end,
            DirectoryView { directories: acc.directories.push(dv), ..acc },
            fuel - 1,
        ),
{
    let payload = enc_directory_node(dv);
    let plen = payload.len() as int;
    let lenv = enc_varint(plen);
    let s = enc_len_field(2, payload);
    assert(enc_key(2, 2) == enc_varint(18));
    assert(enc_varint(18) =~= seq![18u8]);
    assert(s =~= seq![18u8] + lenv + payload);
    assert(forall|i: int| 0 <= i < s.len() ==> #[trigger] b[pos + i] == s[i]) by {
        assert(forall|i: int|
            0 <= i < s.len() ==> b.subrange(pos, pos + s.len())[i] == #[trigger] b[pos + i]);
    }
    assert(b.subrange(pos, pos + 1) =~= enc_varint(18));
    lemma_dec_varint_of_enc(b, pos, end, 18);
    assert forall|k: int| 0 <= k < lenv.len() implies b[pos + 1 + k] == lenv[k] by {
        assert(b[pos + (1 + k)] == s[1 + k]);
    }
    assert(b.subrange(pos + 1, pos + 1 + lenv.len()) =~= lenv);
    lemma_dec_varint_of_enc(b, pos + 1, end, plen);
    let q = pos + 1 + lenv.len();
    assert(q + plen <= end);
    assert forall|k: int| 0 <= k < plen implies b[q + k] == payload[k] by {
        assert(b[pos + (1 + lenv.len() + k)] == s[1 + lenv.len() + k]);
        assert(s[1 + lenv.len() + k] == payload[k]);
    }
    assert(b.subrange(q, q + plen) =~= payload);
    lemma_dec_directory_node_of_enc(b, q, dv);
    assert(pos < end);
    assert(q + plen == pos + s.len());
}

/// Reading one wrapped symlink node moves a directory field loop one step.
#[verifier::rlimit(100)]
proof fn lemma_directory_symlink_item_step(
    b: Seq<u8>,
    pos: int,
    end: int,
    acc: DirectoryView,
    fuel: int,
    lv: SymlinkNodeView,
)
    requires
        symlink_node_enc_ok(lv),
        0 <= pos,
        pos + enc_len_field(3, enc_symlink_node(lv)).len() <= end <= b.len(),
        fuel >= 1,
        b.subrange(pos, pos + enc_len_field(3, enc_symlink_node(lv)).len()) == enc_len_field(
            3,
            enc_symlink_node(lv),
        ),
    ensures
        dec_directory_fields(b, pos, end, acc, fuel) == dec_directory_fields(
            b,
            pos + enc_len_field(3, enc_symlink_node(lv)).len(),
            end,
            DirectoryView { symlinks: acc.symlinks.push(lv), ..acc },
            fuel - 1,
        ),
{
    let payload = enc_symlink_node(lv);
    let plen = payload.len() as int;
    let lenv = enc_varint(plen);
    let s = enc_len_field(3, payload);
    assert(enc_key(3, 2) == enc_varint(26));
    assert(enc_varint(26) =~= seq![26u8]);
    assert(s =~= seq![26u8] + lenv + payload);
    assert(forall|i: int| 0 <= i < s.len() ==> #[trigger] b[pos + i] == s[i]) by {
        assert(forall|i: int|
            0 <= i < s.len() ==> b.subrange(pos, pos + s.len())[i] == #[trigger] b[pos + i]);
    }
    assert(b.subrange(pos, pos + 1) =~= enc_varint(26));
    lemma_dec_varint_of_enc(b, pos, end, 26);
    assert forall|k: int| 0 <= k < lenv.len() implies b[pos + 1 + k] == lenv[k] by {
        assert(b[pos + (1 + k)] == s[1 + k]);
    }
    assert(b.subrange(pos + 1, pos + 1 + lenv.len()) =~= lenv);
    lemma_dec_varint_of_enc(b, pos + 1, end, plen);
    let q = pos + 1 + lenv.len();
    assert(q + plen <= end);
    assert forall|k: int| 0 <= k < plen implies b[q + k] == payload[k] by {
        assert(b[pos + (1 + lenv.len() + k)] == s[1 + lenv.len() + k]);
        assert(s[1 + lenv.len() + k] == payload[k]);
    }
    assert(b.subrange(q, q + plen) =~= payload);
    lemma_dec_symlink_node_of_enc(b, q, lv);
    assert(pos < end);
    assert(q + plen == pos + s.len());
}

/// Consuming a whole repeated file-node group appends its items in order.
#[verifier::rlimit(100)]
proof fn lemma_directory_files_group(
    b: Seq<u8>,
    pos: int,
    end: int,
    acc: DirectoryView,
    fuel: int,
    fs: Seq<FileNodeView>,
)
    requires
        forall|k: int| 0 <= k < fs.len() ==> file_node_enc_ok(#[trigger] fs[k]),
        0 <= pos,
        pos + enc_file_nodes(fs).len() <= end <= b.len(),
        fuel >= end - pos,
        b.subrange(pos, pos + enc_file_nodes(fs).len()) == enc_file_nodes(fs),
    ensures
        dec_directory_fields(b, pos, end, acc, fuel) == dec_directory_fields(
            b,
            pos + enc_file_nodes(fs).len(),
            end,
            DirectoryView { files: acc.files + fs, ..acc },
            fuel - fs.len(),
        ),
    decreases fs.len(),
{
    if fs.len() == 0 {
        assert(enc_file_nodes(fs) =~= Seq::<u8>::empty());
        assert(acc.files + fs =~= acc.files);
        assert(DirectoryView { files: acc.files + fs, ..acc } == acc);
    } else {
        lemma_enc_file_nodes_first(fs);
        let item = enc_len_field(1, enc_file_node(fs[0]));
        let rest = enc_file_nodes(fs.drop_first());
        let eg = enc_file_nodes(fs);
        assert(eg == item + rest);
        assert(forall|k: int| 0 <= k < eg.len() ==> #[trigger] b[pos + k] == eg[k]) by {
            assert(forall|k: int|
                0 <= k < eg.len() ==> b.subrange(pos, pos + eg.len())[k] == #[trigger] b[pos + k]);
        }
        assert(b.subrange(pos, pos + item.len()) =~= item) by {
            assert(forall|k: int| 0 <= k < item.len() ==> eg[k] == #[trigger] item[k]);
        }
        assert(b.subrange(pos + item.len(), pos + item.len() + rest.len()) =~= rest) by {
            assert(forall|k: int| 0 <= k < rest.len() ==> eg[item.len() + k] == #[trigger] rest[k]);
        }
        assert(enc_varint(enc_file_node(fs[0]).len() as int).len() >= 1);
        assert(item.len() >= 2);
        lemma_directory_file_item_step(b, pos, end, acc, fuel, fs[0]);
        let acc1 = DirectoryView { files: acc.files.push(fs[0]), ..acc };
        assert(forall|k: int|
            0 <= k < fs.drop_first().len() ==> file_node_enc_ok(#[trigger] fs.drop_first()[k]))
            by {
            assert(forall|k: int|
                0 <= k < fs.drop_first().len() ==> #[trigger] fs.drop_first()[k] == fs[k + 1]);
        }
        lemma_directory_files_group(b, pos + item.len(), end, acc1, fuel - 1, fs.drop_first());
        assert(acc.files.push(fs[0]) + fs.drop_first() =~= acc.files + fs);
        assert(DirectoryView { files: acc.files.push(fs[0]) + fs.drop_first(), ..acc1 }
            == DirectoryView { files: acc.files + fs, ..acc });
    }
}

/// Consuming a whole repeated directory-node group appends its items in
/// order.
#[verifier::rlimit(100)]
proof fn lemma_directory_dirs_group(
    b: Seq<u8>,
    pos: int,
    end: int,
    acc: DirectoryView,
    fuel: int,
    ds: Seq<DirectoryNodeView>,
)
    requires
        forall|k: int| 0 <= k < ds.len() ==> directory_node_enc_ok(#[trigger] ds[k]),
        0 <= pos,
        pos + enc_directory_nodes(ds).len() <= end <= b.len(),
        fuel >= end - pos,
        b.subrange(pos, pos + enc_directory_nodes(ds).len()) == enc_directory_nodes(ds),
    ensures
        dec_directory_fields(b, pos, end, acc, fuel) == dec_directory_fields(
            b,
            pos + enc_directory_nodes(ds).len(),
            end,
            DirectoryView { directories: acc.directories + ds, ..acc },
            fuel - ds.len(),
        ),
    decreases ds.len(),
{
    if ds.len() == 0 {
        assert(enc_directory_nodes(ds) =~= Seq::<u8>::empty());
        assert(acc.directories + ds =~= acc.directories);
        assert(DirectoryView { directories: acc.directories + ds, ..acc } == acc);
    } else {
        lemma_enc_directory_nodes_first(ds);
        let item = enc_len_field(2, enc_directory_node(ds[0]));
        let rest = enc_directory_nodes(ds.drop_first());
        let eg = enc_directory_nodes(ds);
        assert(eg == item + rest);
        assert(forall|k: int| 0 <= k < eg.len() ==> #[trigger] b[pos + k] == eg[k]) by {
            assert(forall|k: int|
                0 <= k < eg.len() ==> b.subrange(pos, pos + eg.len())[k] == #[trigger] b[pos + k]);
        }
        assert(b.subrange(pos, pos + item.len()) =~= item) by {
            assert(forall|k: int| 0 <= k < item.len() ==> eg[k] == #[trigger] item[k]);
        }
        assert(b.subrange(pos + item.len(), pos + item.len() + rest.len()) =~= rest) by {
            assert(forall|k: int| 0 <= k < rest.len() ==> eg[item.len() + k] == #[trigger] rest[k]);
        }
        assert(enc_varint(enc_directory_node(ds[0]).len() as int).len() >= 1);
        assert(item.len() >= 2);
        lemma_directory_dir_item_step(b, pos, end, acc, fuel, ds[0]);
        let acc1 = DirectoryView { directories: acc.directories.push(ds[0]), ..acc };
        assert(forall|k: int|
            0 <= k < ds.drop_first().len() ==> directory_node_enc_ok(
                #[trigger] ds.drop_first()[k],
            )) by {
            assert(forall|k: int|
                0 <= k < ds.drop_first().len() ==> #[trigger] ds.drop_first()[k] == ds[k + 1]);
        }
        lemma_directory_dirs_group(b, pos + item.len(), end, acc1, fuel - 1, ds.drop_first());
        assert(acc.directories.push(ds[0]) + ds.drop_first() =~= acc.directories + ds);
        assert(DirectoryView { directories: acc.directories.push(ds[0]) + ds.drop_first(), ..acc1 }
            == DirectoryView { directories: acc.directories + ds, ..acc });
    }
}

/// Consuming a whole repeated symlink-node group appends its items in
/// order.
#[verifier::rlimit(100)]
proof fn lemma_directory_symlinks_group(
    b: Seq<u8>,
    pos: int,
    end: int,
    acc: DirectoryView,
    fuel: int,
    ls: Seq<SymlinkNodeView>,
)
    requires
        forall|k: int| 0 <= k < ls.len() ==> symlink_node_enc_ok(#[trigger] ls[k]),
        0 <= pos,
        pos + enc_symlink_nodes(ls).len() <= end <= b.len(),
        fuel >= end - pos,
        b.subrange(pos, pos + enc_symlink_nodes(ls).len()) == enc_symlink_nodes(ls),
    ensures
        dec_directory_fields(b, pos, end, acc, fuel) == dec_directory_fields(
            b,
            pos + enc_symlink_nodes(ls).len(),
            end,
            DirectoryView { symlinks: acc.symlinks + ls, ..acc },
            fuel - ls.len(),
        ),
    decreases ls.len(),
{
    if ls.len() == 0 {
        assert(enc_symlink_nodes(ls) =~= Seq::<u8>::empty());
        assert(acc.symlinks + ls =~= acc.symlinks);
        assert(DirectoryView { symlinks: acc.symlinks + ls, ..acc } == acc);
    } else {
        lemma_enc_symlink_nodes_first(ls);
        let item = enc_len_field(3, enc_symlink_node(ls[0]));
        let rest = enc_symlink_nodes(ls.drop_first());
        let eg = enc_symlink_nodes(ls);
        assert(eg == item + rest);
        assert(forall|k: int| 0 <= k < eg.len() ==> #[trigger] b[pos + k] == eg[k]) by {
            assert(forall|k: int|
                0 <= k < eg.len() ==> b.subrange(pos, pos + eg.len())[k] == #[trigger] b[pos + k]);
        }
        assert(b.subrange(pos, pos + item.len()) =~= item) by {
            assert(forall|k: int| 0 <= k < item.len() ==> eg[k] == #[trigger] item[k]);
        }
        assert(b.subrange(pos + item.len(), pos + item.len() + rest.len()) =~= rest) by {
            assert(forall|k: int| 0 <= k < rest.len() ==> eg[item.len() + k] == #[trigger] rest[k]);
        }
        assert(enc_varint(enc_symlink_node(ls[0]).len() as int).len() >= 1);
        assert(item.len() >= 2);
        lemma_directory_symlink_item_step(b, pos, end, acc, fuel, ls[0]);
        let acc1 = DirectoryView { symlinks: acc.symlinks.push(ls[0]), ..acc };
        assert(forall|k: int|
            0 <= k < ls.drop_first().len() ==> symlink_node_enc_ok(#[trigger] ls.drop_first()[k]))
            by {
            assert(forall|k: int|
                0 <= k < ls.drop_first().len() ==> #[trigger] ls.drop_first()[k] == ls[k + 1]);
        }
        lemma_directory_symlinks_group(b, pos + item.len(), end, acc1, fuel - 1, ls.drop_first());
        assert(acc.symlinks.push(ls[0]) + ls.drop_first() =~= acc.symlinks + ls);
        assert(DirectoryView { symlinks: acc.symlinks.push(ls[0]) + ls.drop_first(), ..acc1 }
            == DirectoryView { symlinks: acc.symlinks + ls, ..acc });
    }
}

/// A directory level whose canonical encoding the decoders can read back.
pub open spec fn directory_enc_ok(v: DirectoryView) -> bool {
    &&& forall|k: int| 0 <= k < v.files.len() ==> file_node_enc_ok(#[trigger] v.files[k])
    &&& forall|k: int|
        0 <= k < v.directories.len() ==> directory_node_enc_ok(#[trigger] v.directories[k])
    &&& forall|k: int| 0 <= k < v.symlinks.len() ==> symlink_node_enc_ok(#[trigger] v.symlinks[k])
    &&& enc_directory(v).len() <= u64::MAX as int
}

/// The directory message layer is invertible: wherever the canonical
/// encoding of a directory level sits, decoding exactly its bytes returns
/// that level.
#[verifier::rlimit(100)]
pub proof fn lemma_dec_directory_of_enc(b: Seq<u8>, pos: int, v: DirectoryView)
    requires
        directory_enc_ok(v),
        0 <= pos,
        pos + enc_directory(v).len() <= b.len(),
        b.subrange(pos, pos + enc_directory(v).len()) == enc_directory(v),
    ensures
        dec_directory(b, pos, pos + enc_directory(v).len()) == Some(v),
{
    let g1 = enc_file_nodes(v.files);
    let g2 = enc_directory_nodes(v.directories);
    let g3 = enc_symlink_nodes(v.symlinks);
    let e = enc_directory(v);
    assert(e == g1 + g2 + g3);
    let end = pos + e.len();
    let p1 = pos + g1.len();
    let p2 = p1 + g2.len();
    let f0 = e.len() as int;
    assert(forall|k: int| 0 <= k < e.len() ==> #[trigger] b[pos + k] == e[k]) by {
        assert(forall|k: int|
            0 <= k < e.len() ==> b.subrange(pos, pos + e.len())[k] == #[trigger] b[pos + k]);
    }
    assert(b.subrange(pos, p1) =~= g1) by {
        assert(forall|k: int| 0 <= k < g1.len() ==> e[k] == #[trigger] g1[k]);
    }
    assert(b.subrange(p1, p2) =~= g2) by {
        assert(forall|k: int| 0 <= k < g2.len() ==> e[g1.len() + k] == #[trigger] g2[k]);
    }
    assert(b.subrange(p2, end) =~= g3) by {
        assert(forall|k: int| 0 <= k < g3.len() ==> e[g1.len() + g2.len() + k] == #[trigger] g3[k]);
    }
    if v.files.len() > 0 {
        lemma_enc_file_nodes_first(v.files);
    }
    if v.directories.len() > 0 {
        lemma_enc_directory_nodes_first(v.directories);
    }
    if v.symlinks.len() > 0 {
        lemma_enc_symlink_nodes_first(v.symlinks);
    }
    let acc0 = empty_directory_view();
    lemma_directory_files_group(b, pos, end, acc0, f0, v.files);
    let acc1 = DirectoryView { files: acc0.files + v.files, ..acc0 };
    let f1 = f0 - v.files.len();
    assert(f1 >= end - p1);
    lemma_directory_dirs_group(b, p1, end, acc1, f1, v.directories);
    let acc2 = DirectoryView { directories: acc1.directories + v.directories, ..acc1 };
    let f2 = f1 - v.directories.len();
    assert(f2 >= end - p2);
    lemma_directory_symlinks_group(b, p2, end, acc2, f2, v.symlinks);
    let acc3 = DirectoryView { symlinks: acc2.symlinks + v.symlinks, ..acc2 };
    let f3 = f2 - v.symlinks.len();
    assert(f3 >= 0);
    assert(dec_directory_fields(b, end, end, acc3, f3) == Some(acc3));
    assert(acc3.files =~= v.files);
    assert(acc3.directories =~= v.directories);
    assert(acc3.symlinks =~= v.symlinks);
    assert(acc3 == v);
}

pub open spec fn empty_tree_view() -> TreeView {
    TreeView { root: None, children: Seq::empty() }
}

pub open spec fn dec_tree_fields(
    b: Seq<u8>,
    pos: int,
    end: int,
    acc: TreeView,
    fuel: int,
) -> Option<TreeView>
    decreases fuel
        when 0 <= pos <= end <= b.len() && fuel >= 0
{
    if pos == end {
        Some(acc)
    } else if fuel <= 0 {
        None
    } else {
        match dec_varint(b, pos, end) {
            None => None,
            Some((tag, p)) => {
                if (tag / 8 == 1 || tag / 8 == 2) && tag % 8 == 2 {
                    match dec_varint(b, p, end) {
                        None => None,
                        Some((len, q)) => if q + len <= end {
                            match dec_directory(b, q, q + len) {
                                None => None,
                                Some(d) => dec_tree_fields(
                                    b,
                                    q + len,
                                    end,
                                    if tag / 8 == 1 {
                                        TreeView { root: Some(d), ..acc }
                                    } else {
                                        TreeView { children: acc.children.push(d), ..acc }
                                    },
                                    fuel - 1,
                                ),
                            }
                        } else {
                            None
                        },
                    }
                } else {
                    match skip_field(b, p, end, tag % 8) {
                        None => None,
                        Some(q) => dec_tree_fields(b, q, end, acc, fuel - 1),
                    }
                }
            },
        }
    }
}

/// The tree message a byte range denotes.
pub open spec fn dec_tree(b: Seq<u8>, pos: int, end: int) -> Option<TreeView> {
    dec_tree_fields(b, pos, end, empty_tree_view(), end - pos)
}

fn read_tree_fields(b: &Vec<u8>, pos: usize, end: usize, acc: TreeMsg, fuel: usize) -> (r: Option<
    TreeMsg,
>)
    requires
        pos <= end <= b@.len(),
    ensures
        match dec_tree_fields(b@, pos as int, end as int, acc@, fuel as int) {
            Some(v) => r matches Some(m) && m@ == v,
            None => r is None,
        },
    decreases fuel,
{
    if pos == end {
        return Some(acc);
    }
    if fuel == 0 {
        return None;
    }
    proof {
        lemma_dec_varint_advances(b@, pos as int, end as int);
    }
    match read_varint(b, pos, end) {
        None => None,
        Some((tag, p)) => {
            proof {
                lemma_dec_varint_advances(b@, p as int, end as int);
            }
            if (tag / 8 == 1 || tag / 8 == 2) && tag % 8 == 2 {
                match read_varint(b, p, end) {
                    None => None,
                    Some((len, q)) => {
                        if len <= (end - q) as u64 {
                            let stop = q + len as usize;
                            let sub = DirectoryMsg {
                                files: Vec::new(),
                                directories: Vec::new(),
                                symlinks: Vec::new(),
                            };
                            proof {
                                assert(sub@.files =~= empty_directory_view().files);
                                assert(sub@.directories =~= empty_directory_view().directories);
                                assert(sub@.symlinks =~= empty_directory_view().symlinks);
                                assert(sub@ == empty_directory_view());
                            }
                            match read_directory_fields(b, q, stop, sub, len as usize) {
                                None => None,
                                Some(d) => {
                                    let ghost acc0 = acc@;
                                    let ghost dv = d@;
                                    if tag / 8 == 1 {
                                        let acc2 = TreeMsg { root: Some(d), children: acc.children };
                                        proof {
                                            assert(acc2@.children =~= acc0.children);
                                        }
                                        read_tree_fields(b, stop, end, acc2, fuel - 1)
                                    } else {
                                        let mut acc2 = acc;
                                        acc2.children.push(d);
                                        proof {
                                            assert(acc2@.children =~= acc0.children.push(dv));
                                            assert(acc2@.root == acc0.root);
                                        }
                                        read_tree_fields(b, stop, end, acc2, fuel - 1)
                                    }
                                },
                            }
                        } else {
                            None
                        }
                    },
                }
            } else {
                match exec_skip_field(b, p, end, tag % 8) {
                    None => None,
                    Some(q) => read_tree_fields(b, q, end, acc, fuel - 1),
                }
            }
        },
    }
}

/// Decodes a tree message from its wire bytes.
pub fn decode_tree(b: &Vec<u8>) -> (r: Option<TreeMsg>)
    ensures
        match dec_tree(b@, 0, b@.len() as int) {
            Some(v) => r matches Some(m) && m@ == v,
            None => r is None,
        },
{
    let acc = TreeMsg { root: None, children: Vec::new() };
    proof {
        assert(acc@.children =~= empty_tree_view().children);
    }
    let n = b.len();
    read_tree_fields(b, 0, n, acc, n)
}

/// Reading a wrapped root directory moves a tree field loop one step.
#[verifier::rlimit(100)]
proof fn lemma_tree_root_step(
    b: Seq<u8>,
    pos: int,
    end: int,
    acc: TreeView,
    fuel: int,
    dv: DirectoryView,
)
    requires
        directory_enc_ok(dv),
        0 <= pos,
        pos + enc_len_field(1, enc_directory(dv)).len() <= end <= b.len(),
        fuel >= 1,
        b.subrange(pos, pos + enc_len_field(1, enc_directory(dv)).len()) == enc_len_field(
            1,
            enc_directory(dv),
        ),
    ensures
        dec_tree_fields(b, pos, end, acc, fuel) == dec_tree_fields(
            b,
            pos + enc_len_field(1, enc_directory(dv)).len(),
            end,
            TreeView { root: Some(dv), ..acc },
            fuel - 1,
        ),
{
    let payload = enc_directory(dv);
    let plen = payload.len() as int;
    let lenv = enc_varint(plen);
    let s = enc_len_field(1, payload);
    assert(enc_key(1, 2) == enc_varint(10));
    assert(enc_varint(10) =~= seq![10u8]);
    assert(s =~= seq![10u8] + lenv + payload);
    assert(forall|i: int| 0 <= i < s.len() ==> #[trigger] b[pos + i] == s[i]) by {
        assert(forall|i: int|
            0 <= i < s.len() ==> b.subrange(pos, pos + s.len())[i] == #[trigger] b[pos + i]);
    }
    assert(b.subrange(pos, pos + 1) =~= enc_varint(10));
    lemma_dec_varint_of_enc(b, pos, end, 10);
    assert forall|k: int| 0 <= k < lenv.len() implies b[pos + 1 + k] == lenv[k] by {
        assert(b[pos + (1 + k)] == s[1 + k]);
    }
    assert(b.subrange(pos + 1, pos + 1 + lenv.len()) =~= lenv);
    lemma_dec_varint_of_enc(b, pos + 1, end, plen);
    let q = pos + 1 + lenv.len();
    assert(q + plen <= end);
    assert forall|k: int| 0 <= k < plen implies b[q + k] == payload[k] by {
        assert(b[pos + (1 + lenv.len() + k)] == s[1 + lenv.len() + k]);
        assert(s[1 + lenv.len() + k] == payload[k]);
    }
    assert(b.subrange(q, q + plen) =~= payload);
    lemma_dec_directory_of_enc(b, q, dv);
    assert(pos < end);
    assert(q + plen == pos + s.len());
}

/// Reading one wrapped child level moves a tree field loop one step.
#[verifier::rlimit(100)]
proof fn lemma_tree_child_item_step(
    b: Seq<u8>,
    pos: int,
    end: int,
    acc: TreeView,
    fuel: int,
    dv: DirectoryView,
)
    requires
        directory_enc_ok(dv),
        0 <= pos,
        pos + enc_len_field(2, enc_directory(dv)).len() <= end <= b.len(),
        fuel >= 1,
        b.subrange(pos, pos + enc_len_field(2, enc_directory(dv)).len()) == enc_len_field(
            2,
            enc_directory(dv),
        ),
    ensures
        dec_tree_fields(b, pos, end, acc, fuel) == dec_tree_fields(
            b,
            pos + enc_len_field(2, enc_directory(dv)).len(),
            end,
            TreeView { children: acc.children.push(dv), ..acc },
            fuel - 1,
        ),
{
    let payload = enc_directory(dv);
    let plen = payload.len() as int;
    let lenv = enc_varint(plen);
    let s = enc_len_field(2, payload);
    assert(enc_key(2, 2) == enc_varint(18));
    assert(enc_varint(18) =~= seq![18u8]);
    assert(s =~= seq![18u8] + lenv + payload);
    assert(forall|i: int| 0 <= i < s.len() ==> #[trigger] b[pos + i] == s[i]) by {
        assert(forall|i: int|
            0 <= i < s.len() ==> b.subrange(pos, pos + s.len())[i] == #[trigger] b[pos + i]);
    }
    assert(b.subrange(pos, pos + 1) =~= enc_varint(18));
    lemma_dec_varint_of_enc(b, pos, end, 18);
    assert forall|k: int| 0 <= k < lenv.len() implies b[pos + 1 + k] == lenv[k] by {
        assert(b[pos + (1 + k)] == s[1 + k]);
    }
    assert(b.subrange(pos + 1, pos + 1 + lenv.len()) =~= lenv);
    lemma_dec_varint_of_enc(b, pos + 1, end, plen);
    let q = pos + 1 + lenv.len();
    assert(q + plen <= end);
    assert forall|k: int| 0 <= k < plen implies b[q + k] == payload[k] by {
        assert(b[pos + (1 + lenv.len() + k)] == s[1 + lenv.len() + k]);
        assert(s[1 + lenv.len() + k] == payload[k]);
    }
    assert(b.subrange(q, q + plen) =~= payload);
    lemma_dec_directory_of_enc(b, q, dv);
    assert(pos < end);
    assert(q + plen == pos + s.len());
}

/// A repeated child-level field peels from the front.
proof fn lemma_enc_tree_children_first(s: Seq<DirectoryView>)
    requires
        s.len() > 0,
    ensures
        enc_tree_children(s) == enc_len_field(2, enc_directory(s[0])) + enc_tree_children(
            s.drop_first(),
        ),
        enc_tree_children(s).len() >= s.len(),
    decreases s.len(),
{
    let item = enc_len_field(2, enc_directory(s[0]));
    assert(enc_varint(18).len() >= 1);
    assert(item.len() >= 1);
    if s.len() == 1 {
        assert(s.drop_last() =~= Seq::<DirectoryView>::empty());
        assert(s.drop_first() =~= Seq::<DirectoryView>::empty());
        assert(s.last() == s[0]);
        assert(Seq::<u8>::empty() + enc_len_field(2, enc_directory(s.last())) =~= enc_len_field(
            2,
            enc_directory(s.last()),
        ));
        assert(enc_len_field(2, enc_directory(s[0])) + Seq::<u8>::empty() =~= enc_len_field(
            2,
            enc_directory(s[0]),
        ));
    } else {
        let p = s.drop_last();
        lemma_enc_tree_children_first(p);
        assert(p[0] == s[0]);
        assert(s.drop_first().drop_last() =~= p.drop_first());
        assert(s.drop_first().last() == s.last());
        assert(enc_tree_children(s.drop_first()) == enc_tree_children(p.drop_first())
            + enc_len_field(2, enc_directory(s.last())));
        assert((item + enc_tree_children(p.drop_first())) + enc_len_field(
            2,
            enc_directory(s.last()),
        ) =~= item + (enc_tree_children(p.drop_first()) + enc_len_field(
            2,
            enc_directory(s.last()),
        )));
    }
}

/// Consuming a whole repeated child-level group appends its items in
/// order.
#[verifier::rlimit(100)]
proof fn lemma_tree_children_group(
    b: Seq<u8>,
    pos: int,
    end: int,
    acc: TreeView,
    fuel: int,
    cs: Seq<DirectoryView>,
)
    requires
        forall|k: int| 0 <= k < cs.len() ==> directory_enc_ok(#[trigger] cs[k]),
        0 <= pos,
        pos + enc_tree_children(cs).len() <= end <= b.len(),
        fuel >= end - pos,
        b.subrange(pos, pos + enc_tree_children(cs).len()) == enc_tree_children(cs),
    ensures
        dec_tree_fields(b, pos, end, acc, fuel) == dec_tree_fields(
            b,
            pos + enc_tree_children(cs).len(),
            end,
            TreeView { children: acc.children + cs, ..acc },
            fuel - cs.len(),
        ),
    decreases cs.len(),
{
    if cs.len() == 0 {
        assert(enc_tree_children(cs) =~= Seq::<u8>::empty());
        assert(acc.children + cs =~= acc.children);
        assert(TreeView { children: acc.children + cs, ..acc } == acc);
    } else {
        lemma_enc_tree_children_first(cs);
        let item = enc_len_field(2, enc_directory(cs[0]));
        let rest = enc_tree_children(cs.drop_first());
        let eg = enc_tree_children(cs);
        assert(eg == item + rest);
        assert(forall|k: int| 0 <= k < eg.len() ==> #[trigger] b[pos + k] == eg[k]) by {
            assert(forall|k: int|
                0 <= k < eg.len() ==> b.subrange(pos, pos + eg.len())[k] == #[trigger] b[pos + k]);
        }
        assert(b.subrange(pos, pos + item.len()) =~= item) by {
            assert(forall|k: int| 0 <= k < item.len() ==> eg[k] == #[trigger] item[k]);
        }
        assert(b.subrange(pos + item.len(), pos + item.len() + rest.len()) =~= rest) by {
            assert(forall|k: int| 0 <= k < rest.len() ==> eg[item.len() + k] == #[trigger] rest[k]);
        }
        assert(enc_varint(enc_directory(cs[0]).len() as int).len() >= 1);
        assert(item.len() >= 2);
        lemma_tree_child_item_step(b, pos, end, acc, fuel, cs[0]);
        let acc1 = TreeView { children: acc.children.push(cs[0]), ..acc };
        assert(forall|k: int|
            0 <= k < cs.drop_first().len() ==> directory_enc_ok(#[trigger] cs.drop_first()[k]))
            by {
            assert(forall|k: int|
                0 <= k < cs.drop_first().len() ==> #[trigger] cs.drop_first()[k] == cs[k + 1]);
        }
        lemma_tree_children_group(b, pos + item.len(), end, acc1, fuel - 1, cs.drop_first());
        assert(acc.children.push(cs[0]) + cs.drop_first() =~= acc.children + cs);
        assert(TreeView { children: acc.children.push(cs[0]) + cs.drop_first(), ..acc1 }
            == TreeView { children: acc.children + cs, ..acc });
    }
}

/// A tree whose canonical encoding the decoders can read back.
pub open spec fn tree_enc_ok(v: TreeView) -> bool {
    &&& (v.root matches Some(r) ==> directory_enc_ok(r))
    &&& forall|k: int| 0 <= k < v.children.len() ==> directory_enc_ok(#[trigger] v.children[k])
    &&& enc_tree(v).len() <= u64::MAX as int
}

/// The tree message layer is invertible: decoding the canonical encoding
/// of a tree returns exactly that tree — together with
/// `lemma_dec_directory_of_enc`, every level an execution reports can be
/// read back as written.
#[verifier::rlimit(100)]
pub proof fn lemma_dec_tree_of_enc(b: Seq<u8>, pos: int, v: TreeView)
    requires
        tree_enc_ok(v),
        0 <= pos,
        pos + enc_tree(v).len() <= b.len(),
        b.subrange(pos, pos + enc_tree(v).len()) == enc_tree(v),
    ensures
        dec_tree(b, pos, pos + enc_tree(v).len()) == Some(v),
{
    let g1 = match v.root {
        None => Seq::<u8>::empty(),
        Some(r) => enc_len_field(1, enc_directory(r)),
    };
    let g2 = enc_tree_children(v.children);
    let e = enc_tree(v);
    assert(e == g1 + g2);
    let end = pos + e.len();
    let p1 = pos + g1.len();
    let f0 = e.len() as int;
    assert(forall|k: int| 0 <= k < e.len() ==> #[trigger] b[pos + k] == e[k]) by {
        assert(forall|k: int|
            0 <= k < e.len() ==> b.subrange(pos, pos + e.len())[k] == #[trigger] b[pos + k]);
    }
    assert(b.subrange(pos, p1) =~= g1) by {
        assert(forall|k: int| 0 <= k < g1.len() ==> e[k] == #[trigger] g1[k]);
    }
    assert(b.subrange(p1, end) =~= g2) by {
        assert(forall|k: int| 0 <= k < g2.len() ==> e[g1.len() + k] == #[trigger] g2[k]);
    }
    let acc0 = empty_tree_view();
    let acc1 = match v.root {
        None => acc0,
        Some(r) => TreeView { root: Some(r), ..acc0 },
    };
    let f1 = if v.root is Some {
        f0 - 1
    } else {
        f0
    };
    match v.root {
        None => {
            assert(g1 =~= Seq::<u8>::empty());
        },
        Some(r) => {
            assert(enc_varint(enc_directory(r).len() as int).len() >= 1);
            assert(g1.len() >= 2);
            if v.children.len() > 0 {
                lemma_enc_tree_children_first(v.children);
            }
            lemma_tree_root_step(b, pos, end, acc0, f0, r);
        },
    }
    assert(dec_tree_fields(b, pos, end, acc0, f0) == dec_tree_fields(b, p1, end, acc1, f1));
    assert(f1 >= end - p1) by {
        if v.root is Some {
            assert(g1.len() >= 1);
        }
    }
    lemma_tree_children_group(b, p1, end, acc1, f1, v.children);
    let acc2 = TreeView { children: acc1.children + v.children, ..acc1 };
    let f2 = f1 - v.children.len();
    assert(f2 >= 0) by {
        if v.children.len() > 0 {
            lemma_enc_tree_children_first(v.children);
        }
    }
    assert(dec_tree_fields(b, end, end, acc2, f2) == Some(acc2));
    assert(acc2.children =~= v.children);
    assert(acc2 == v);
}

pub open spec fn empty_env_var_view() -> EnvVarView {
    EnvVarView { name: Seq::empty(), value: Seq::empty() }
}

pub open spec fn dec_env_var_fields(
    b: Seq<u8>,
    pos: int,
    end: int,
    acc: EnvVarView,
    fuel: int,
) -> Option<EnvVarView>
    decreases fuel
        when 0 <= pos <= end <= b.len() && fuel >= 0
{
    if pos == end {
        Some(acc)
    } else if fuel <= 0 {
        None
    } else {
        match dec_varint(b, pos, end) {
            None => None,
            Some((tag, p)) => {
                if (tag / 8 == 1 || tag / 8 == 2) && tag % 8 == 2 {
                    match dec_varint(b, p, end) {
                        None => None,
                        Some((len, q)) => if q + len <= end {
                            if vstd::utf8::valid_utf8(b.subrange(q, q + len)) {
                                dec_env_var_fields(
                                    b,
                                    q + len,
                                    end,
                                    if tag / 8 == 1 {
                                        EnvVarView {
                                            name: vstd::utf8::decode_utf8(b.subrange(q, q + len)),
                                            ..acc
                                        }
                                    } else {
                                        EnvVarView {
                                            value: vstd::utf8::decode_utf8(b.subrange(q, q + len)),
                                            ..acc
                                        }
                                    },
                                    fuel - 1,
                                )
                            } else {
                                None
                            }
                        } else {
                            None
                        },
                    }
                } else {
                    match skip_field(b, p, end, tag % 8) {
                        None => None,
                        Some(q) => dec_env_var_fields(b, q, end, acc, fuel - 1),
                    }
                }
            },
        }
    }
}

pub open spec fn dec_env_var(b: Seq<u8>, pos: int, end: int) -> Option<EnvVarView> {
    dec_env_var_fields(b, pos, end, empty_env_var_view(), end - pos)
}

fn read_env_var_fields(b: &Vec<u8>, pos: usize, end: usize, acc: EnvVar, fuel: usize) -> (r:
    Option<EnvVar>)
    requires
        pos <= end <= b@.len(),
    ensures
        match dec_env_var_fields(b@, pos as int, end as int, acc@, fuel as int) {
            Some(v) => r matches Some(m) && m@ == v,
            None => r is None,
        },
    decreases fuel,
{
    if pos == end {
        return Some(acc);
    }
    if fuel == 0 {
        return None;
    }
    proof {
        lemma_dec_varint_advances(b@, pos as int, end as int);
    }
    match read_varint(b, pos, end) {
        None => None,
        Some((tag, p)) => {
            proof {
                lemma_dec_varint_advances(b@, p as int, end as int);
            }
            if (tag / 8 == 1 || tag / 8 == 2) && tag % 8 == 2 {
                match read_varint(b, p, end) {
                    None => None,
                    Some((len, q)) => {
                        if len <= (end - q) as u64 {
                            let stop = q + len as usize;
                            match payload_to_string(b, q, stop) {
                                None => None,
                                Some(s) => {
                                    let acc2 = if tag / 8 == 1 {
                                        EnvVar { name: s, ..acc }
                                    } else {
                                        EnvVar { value: s, ..acc }
                                    };
                                    read_env_var_fields(b, stop, end, acc2, fuel - 1)
                                },
                            }
                        } else {
                            None
                        }
                    },
                }
            } else {
                match exec_skip_field(b, p, end, tag % 8) {
                    None => None,
                    Some(q) => read_env_var_fields(b, q, end, acc, fuel - 1),
                }
            }
        },
    }
}

pub open spec fn empty_command_view() -> CommandView {
    CommandView {
        arguments: Seq::empty(),
        environment_variables: Seq::empty(),
        output_files: Seq::empty(),
        output_directories: Seq::empty(),
        output_paths: Seq::empty(),
    }
}

pub open spec fn dec_command_fields(
    b: Seq<u8>,
    pos: int,
    end: int,
    acc: CommandView,
    fuel: int,
) -> Option<CommandView>
    decreases fuel
        when 0 <= pos <= end <= b.len() && fuel >= 0
{
    if pos == end {
        Some(acc)
    } else if fuel <= 0 {
        None
    } else {
        match dec_varint(b, pos, end) {
            None => None,
            Some((tag, p)) => {
                let f = tag / 8;
                if (f == 1 || f == 3 || f == 4 || f == 7) && tag % 8 == 2 {
                    match dec_varint(b, p, end) {
                        None => None,
                        Some((len, q)) => if q + len <= end {
                            if vstd::utf8::valid_utf8(b.subrange(q, q + len)) {
                                let s = vstd::utf8::decode_utf8(b.subrange(q, q + len));
                                dec_command_fields(
                                    b,
                                    q + len,
                                    end,
                                    if f == 1 {
                                        CommandView { arguments: acc.arguments.push(s), ..acc }
                                    } else if f == 3 {
                                        CommandView {
                                            output_files: acc.output_files.push(s),
                                            ..acc
                                        }
                                    } else if f == 4 {
                                        CommandView {
                                            output_directories: acc.output_directories.push(s),
                                            ..acc
                                        }
                                    } else {
                                        CommandView {
                                            output_paths: acc.output_paths.push(s),
                                            ..acc
                                        }
                                    },
                                    fuel - 1,
                                )
                            } else {
                                None
                            }
                        } else {
                            None
                        },
                    }
                } else if f == 2 && tag % 8 == 2 {
                    match dec_varint(b, p, end) {
                        None => None,
                        Some((len, q)) => if q + len <= end {
                            match dec_env_var(b, q, q + len) {
                                None => None,
                                Some(e) => dec_command_fields(
                                    b,
                                    q + len,
                                    end,
                                    CommandView {
                                        environment_variables: acc.environment_variables.push(e),
                                        ..acc
                                    },
                                    fuel - 1,
                                ),
                            }
                        } else {
                            None
                        },
                    }
                } else {
                    match skip_field(b, p, end, tag % 8) {
                        None => None,
                        Some(q) => dec_command_fields(b, q, end, acc, fuel - 1),
                    }
                }
            },
        }
    }
}

/// The command message a byte range denotes.
pub open spec fn dec_command(b: Seq<u8>, pos: int, end: int) -> Option<CommandView> {
    dec_command_fields(b, pos, end, empty_command_view(), end - pos)
}

fn read_command_fields(
    b: &Vec<u8>,
    pos: usize,
    end: usize,
    acc: CommandMsg,
    fuel: usize,
) -> (r: Option<CommandMsg>)
    requires
        pos <= end <= b@.len(),
    ensures
        match dec_command_fields(b@, pos as int, end as int, acc@, fuel as int) {
            Some(v) => r matches Some(m) && m@ == v,
            None => r is None,
        },
    decreases fuel,
{
    if pos == end {
        return Some(acc);
    }
    if fuel == 0 {
        return None;
    }
    proof {
        lemma_dec_varint_advances(b@, pos as int, end as int);
    }
    match read_varint(b, pos, end) {
        None => None,
        Some((tag, p)) => {
            proof {
                lemma_dec_varint_advances(b@, p as int, end as int);
            }
            let f = tag / 8;
            if (f == 1 || f == 3 || f == 4 || f == 7) && tag % 8 == 2 {
                match read_varint(b, p, end) {
                    None => None,
                    Some((len, q)) => {
                        if len <= (end - q) as u64 {
                            let stop = q + len as usize;
                            match payload_to_string(b, q, stop) {
                                None => None,
                                Some(s) => {
                                    let ghost acc0 = acc@;
                                    let ghost sv = s@;
                                    let mut acc2 = acc;
                                    if f == 1 {
                                        acc2.arguments.push(s);
                                        proof {
                                            assert(acc2@.arguments =~= acc0.arguments.push(sv));
                                            assert(acc2@.environment_variables
                                                =~= acc0.environment_variables);
                                            assert(acc2@.output_files =~= acc0.output_files);
                                            assert(acc2@.output_directories
                                                =~= acc0.output_directories);
                                            assert(acc2@.output_paths =~= acc0.output_paths);
                                        }
                                    } else if f == 3 {
                                        acc2.output_files.push(s);
                                        proof {
                                            assert(acc2@.output_files =~= acc0.output_files.push(
                                                sv,
                                            ));
                                            assert(acc2@.environment_variables
                                                =~= acc0.environment_variables);
                                            assert(acc2@.arguments =~= acc0.arguments);
                                            assert(acc2@.output_directories
                                                =~= acc0.output_directories);
                                            assert(acc2@.output_paths =~= acc0.output_paths);
                                        }
                                    } else if f == 4 {
                                        acc2.output_directories.push(s);
                                        proof {
                                            assert(acc2@.output_directories
                                                =~= acc0.output_directories.push(sv));
                                            assert(acc2@.environment_variables
                                                =~= acc0.environment_variables);
                                            assert(acc2@.arguments =~= acc0.arguments);
                                            assert(acc2@.output_files =~= acc0.output_files);
                                            assert(acc2@.output_paths =~= acc0.output_paths);
                                        }
                                    } else {
                                        acc2.output_paths.push(s);
                                        proof {
                                            assert(acc2@.output_paths =~= acc0.output_paths.push(
                                                sv,
                                            ));
                                            assert(acc2@.environment_variables
                                                =~= acc0.environment_variables);
                                            assert(acc2@.arguments =~= acc0.arguments);
                                            assert(acc2@.output_files =~= acc0.output_files);
                                            assert(acc2@.output_directories
                                                =~= acc0.output_directories);
                                        }
                                    }
                                    read_command_fields(b, stop, end, acc2, fuel - 1)
                                },
                            }
                        } else {
                            None
                        }
                    },
                }
            } else if f == 2 && tag % 8 == 2 {
                match read_varint(b, p, end) {
                    None => None,
                    Some((len, q)) => {
                        if len <= (end - q) as u64 {
                            let stop = q + len as usize;
                            let sub = EnvVar { name: String::new(), value: String::new() };
                            proof {
                                assert(sub@.name =~= empty_env_var_view().name);
                                assert(sub@.value =~= empty_env_var_view().value);
                                assert(sub@ == empty_env_var_view());
                            }
                            match read_env_var_fields(b, q, stop, sub, len as usize) {
                                None => None,
                                Some(e) => {
                                    let ghost acc0 = acc@;
                                    let ghost ev = e@;
                                    let mut acc2 = acc;
                                    acc2.environment_variables.push(e);
                                    proof {
                                        assert(acc2@.environment_variables
                                            =~= acc0.environment_variables.push(ev));
                                        assert(acc2@.arguments =~= acc0.arguments);
                                        assert(acc2@.output_files =~= acc0.output_files);
                                        assert(acc2@.output_directories
                                            =~= acc0.output_directories);
                                        assert(acc2@.output_paths =~= acc0.output_paths);
                                    }
                                    read_command_fields(b, stop, end, acc2, fuel - 1)
                                },
                            }
                        } else {
                            None
                        }
                    },
                }
            } else {
                match exec_skip_field(b, p, end, tag % 8) {
                    None => None,
                    Some(q) => read_command_fields(b, q, end, acc, fuel - 1),
                }
            }
        },
    }
}

/// Decodes a command message from its wire bytes.
pub fn decode_command(b: &Vec<u8>) -> (r: Option<CommandMsg>)
    ensures
        match dec_command(b@, 0, b@.len() as int) {
            Some(v) => r matches Some(m) && m@ == v,
            None => r is None,
        },
{
    let acc = CommandMsg {
        arguments: Vec::new(),
        environment_variables: Vec::new(),
        output_files: Vec::new(),
        output_directories: Vec::new(),
        output_paths: Vec::new(),
    };
    proof {
        assert(acc@.arguments =~= empty_command_view().arguments);
        assert(acc@.environment_variables =~= empty_command_view().environment_variables);
        assert(acc@.output_files =~= empty_command_view().output_files);
        assert(acc@.output_directories =~= empty_command_view().output_directories);
        assert(acc@.output_paths =~= empty_command_view().output_paths);
        assert(acc@ == empty_command_view());
    }
    let n = b.len();
    read_command_fields(b, 0, n, acc, n)
}

pub open spec fn empty_action_view() -> ActionView {
    ActionView { command_digest: None, input_root_digest: None }
}

pub open spec fn dec_action_fields(
    b: Seq<u8>,
    pos: int,
    end: int,
    acc: ActionView,
    fuel: int,
) -> Option<ActionView>
    decreases fuel
        when 0 <= pos <= end <= b.len() && fuel >= 0
{
    if pos == end {
        Some(acc)
    } else if fuel <= 0 {
        None
    } else {
        match dec_varint(b, pos, end) {
            None => None,
            Some((tag, p)) => {
                if (tag / 8 == 1 || tag / 8 == 2) && tag % 8 == 2 {
                    match dec_varint(b, p, end) {
                        None => None,
                        Some((len, q)) => if q + len <= end {
                            match dec_digest(b, q, q + len) {
                                None => None,
                                Some(d) => dec_action_fields(
                                    b,
                                    q + len,
                                    end,
                                    if tag / 8 == 1 {
                                        ActionView { command_digest: Some(d), ..acc }
                                    } else {
                                        ActionView { input_root_digest: Some(d), ..acc }
                                    },
                                    fuel - 1,
                                ),
                            }
                        } else {
                            None
                        },
                    }
                } else {
                    match skip_field(b, p, end, tag % 8) {
                        None => None,
                        Some(q) => dec_action_fields(b, q, end, acc, fuel - 1),
                    }
                }
            },
        }
    }
}

/// The action message a byte range denotes.
pub open spec fn dec_action(b: Seq<u8>, pos: int, end: int) -> Option<ActionView> {
    dec_action_fields(b, pos, end, empty_action_view(), end - pos)
}

fn read_action_fields(b: &Vec<u8>, pos: usize, end: usize, acc: ActionMsg, fuel: usize) -> (r:
    Option<ActionMsg>)
    requires
        pos <= end <= b@.len(),
    ensures
        match dec_action_fields(b@, pos as int, end as int, acc@, fuel as int) {
            Some(v) => r matches Some(m) && m@ == v,
            None => r is None,
        },
    decreases fuel,
{
    if pos == end {
        return Some(acc);
    }
    if fuel == 0 {
        return None;
    }
    proof {
        lemma_dec_varint_advances(b@, pos as int, end as int);
    }
    match read_varint(b, pos, end) {
        None => None,
        Some((tag, p)) => {
            proof {
                lemma_dec_varint_advances(b@, p as int, end as int);
            }
            if (tag / 8 == 1 || tag / 8 == 2) && tag % 8 == 2 {
                match read_varint(b, p, end) {
                    None => None,
                    Some((len, q)) => {
                        if len <= (end - q) as u64 {
                            let stop = q + len as usize;
                            match read_digest(b, q, stop) {
                                None => None,
                                Some(d) => {
                                    let acc2 = if tag / 8 == 1 {
                                        ActionMsg { command_digest: Some(d), ..acc }
                                    } else {
                                        ActionMsg { input_root_digest: Some(d), ..acc }
                                    };
                                    read_action_fields(b, stop, end, acc2, fuel - 1)
                                },
                            }
                        } else {
                            None
                        }
                    },
                }
            } else {
                match exec_skip_field(b, p, end, tag % 8) {
                    None => None,
                    Some(q) => read_action_fields(b, q, end, acc, fuel - 1),
                }
            }
        },
    }
}

/// Decodes an action message from its wire bytes.
pub fn decode_action(b: &Vec<u8>) -> (r: Option<ActionMsg>)
    ensures
        match dec_action(b@, 0, b@.len() as int) {
            Some(v) => r matches Some(m) && m@ == v,
            None => r is None,
        },
{
    let acc = ActionMsg { command_digest: None, input_root_digest: None };
    let n = b.len();
    read_action_fields(b, 0, n, acc, n)
}

} // verus!
