//! Content digests for the composition cache.
//!
//! The cache key of a project is the SHA-256 digest of a byte encoding
//! of everything the composed text depends on: the invocation
//! arguments, the defines, and every source node in declaration order
//! with its kind, its name, its on-disk content where it has one, its
//! computed arguments where it takes any, and, for package nodes, the
//! same encoding of the sub-project, recursively. Every variable-length
//! field is length-prefixed, so distinct contents give distinct
//! encodings.

use vstd::prelude::*;
use vstd::utf8::encode_utf8;
use vstd::string::{StrSliceExecFns, StringSliceAdditionalSpecFns};
use crate::compose::{child_bindings, child_merged, compute_in_child};
use crate::env::{Environment, viewed_pairs};
use crate::error::ClmanError;
use crate::value::{compute_with_bindings, ValueString};

verus! {

/// One node of the digest tree: a source node together with the bytes
/// and sub-descriptors only the caller can read.
pub enum DigestNode {
    Code { name: String, code: ValueString },
    File { name: String, path: String, bytes: Vec<u8> },
    Dockerfile { name: String, dockerfile: String, bytes: Vec<u8>, args: ValueString },
    Script { name: String, script: String, bytes: Vec<u8>, args: ValueString },
    Package { name: String, git: String, args: ValueString, sub: DigestTree },
}

/// Everything a project's digest depends on, in declaration order.
pub struct DigestTree {
    pub define: Vec<(String, ValueString)>,
    pub nodes: Vec<DigestNode>,
}

/// Eight little-endian bytes of a length.
pub open spec fn le8(n: int) -> Seq<u8> {
    seq![
        (n % 256) as u8,
        ((n / 256) % 256) as u8,
        ((n / 65536) % 256) as u8,
        ((n / 16777216) % 256) as u8,
        ((n / 4294967296) % 256) as u8,
        ((n / 1099511627776) % 256) as u8,
        ((n / 281474976710656) % 256) as u8,
        ((n / 72057594037927936) % 256) as u8,
    ]
}

/// A length-prefixed byte field.
pub open spec fn byte_block(b: Seq<u8>) -> Seq<u8> {
    le8(b.len() as int) + b
}

/// A length-prefixed string field, in its UTF-8 encoding.
pub open spec fn str_block(s: Seq<char>) -> Seq<u8> {
    byte_block(encode_utf8(s))
}

/// Concatenation over encoding results.
pub open spec fn cat(a: Option<Seq<u8>>, b: Option<Seq<u8>>) -> Option<Seq<u8>> {
    match (a, b) {
        (Some(x), Some(y)) => Some(x + y),
        _ => None,
    }
}

/// The encoding of the defines: each name and template, in order.
pub open spec fn encode_defines(ds: Seq<(String, ValueString)>) -> Seq<u8>
    decreases ds.len(),
{
    if ds.len() == 0 {
        Seq::empty()
    } else {
        str_block(ds[0].0@) + str_block(ds[0].1.0@) + encode_defines(ds.drop_first())
    }
}

/// The encoding of one source node: a kind tag, the name, and the
/// kind's own content. Arguments are computed against the child
/// environment of `root` seeded from `raw`; a computation failure makes
/// the whole encoding fail.
pub open spec fn encode_node(n: DigestNode, root: Environment, raw: Seq<char>) -> Option<Seq<u8>>
    decreases n,
{
    match n {
        DigestNode::Code { name, code } => Some(
            seq![1u8] + str_block(name@) + str_block(code.0@),
        ),
        DigestNode::File { name, path, bytes } => Some(
            seq![2u8] + str_block(name@) + str_block(path@) + byte_block(bytes@),
        ),
        DigestNode::Dockerfile { name, dockerfile, bytes, args } => match compute_in_child(
            args.0@,
            root,
            raw,
        ) {
            Some(a) => Some(
                seq![3u8] + str_block(name@) + str_block(dockerfile@) + byte_block(bytes@)
                    + str_block(a),
            ),
            None => None,
        },
        DigestNode::Script { name, script, bytes, args } => match compute_in_child(
            args.0@,
            root,
            raw,
        ) {
            Some(a) => Some(
                seq![4u8] + str_block(name@) + str_block(script@) + byte_block(bytes@)
                    + str_block(a),
            ),
            None => None,
        },
        DigestNode::Package { name, git, args, sub } => match compute_in_child(
            args.0@,
            root,
            raw,
        ) {
            Some(a) => cat(
                Some(seq![5u8] + str_block(name@) + str_block(git@) + str_block(a)),
                encode_tree(sub, root, a),
            ),
            None => None,
        },
    }
}

/// The encoding of a node list, in order.
pub open spec fn encode_nodes(ns: Seq<DigestNode>, root: Environment, raw: Seq<char>) -> Option<
    Seq<u8>,
>
    decreases ns,
{
    if ns.len() == 0 {
        Some(Seq::empty())
    } else {
        cat(encode_node(ns[0], root, raw), encode_nodes(ns.drop_first(), root, raw))
    }
}

/// The digest input of a whole project: the invocation arguments, the
/// defines, and every node, recursing into packages with their computed
/// arguments.
pub open spec fn encode_tree(t: DigestTree, root: Environment, raw: Seq<char>) -> Option<Seq<u8>>
    decreases t,
{
    match encode_nodes(t.nodes@, root, raw) {
        Some(nb) => Some(str_block(raw) + encode_defines(t.define@) + nb),
        None => None,
    }
}

/// The lowercase hexadecimal SHA-256 digest of a byte sequence.
pub uninterp spec fn sha256_hex_of(data: Seq<u8>) -> Seq<char>;

/// Relies on sha2's Sha256: the digest is a function of the input
/// bytes alone; 32 bytes, rendered as 64 lowercase hex characters.
#[verifier::external_body]
fn sha256_hex(data: &Vec<u8>) -> (r: String)
    ensures
        r@ == sha256_hex_of(data@),
        r@.len() == 64,
{
    let digest = <sha2::Sha256 as sha2::Digest>::digest(data.as_slice());
    let mut s = String::new();
    for byte in digest.iter() {
        s.push_str(&format!("{:02x}", byte));
    }
    s
}

/// Appends the eight little-endian length bytes of `n`.
fn push_le8(n: u64, out: &mut Vec<u8>)
    ensures
        final(out)@ == old(out)@ + le8(n as int),
{
    out.push((n % 256) as u8);
    out.push(((n / 256) % 256) as u8);
    out.push(((n / 65536) % 256) as u8);
    out.push(((n / 16777216) % 256) as u8);
    out.push(((n / 4294967296) % 256) as u8);
    out.push(((n / 1099511627776) % 256) as u8);
    out.push(((n / 281474976710656) % 256) as u8);
    out.push(((n / 72057594037927936) % 256) as u8);
    proof {
        assert(out@ =~= old(out)@ + le8(n as int));
    }
}

/// Appends a byte vector.
fn push_bytes(src: &Vec<u8>, out: &mut Vec<u8>)
    ensures
        final(out)@ == old(out)@ + src@,
{
    let mut i: usize = 0;
    while i < src.len()
        invariant
            i <= src@.len(),
            out@ == old(out)@ + src@.take(i as int),
        decreases src@.len() - i,
    {
        out.push(src[i]);
        i = i + 1;
        proof {
            assert(old(out)@ + src@.take(i as int) =~= (old(out)@ + src@.take(i - 1)).push(
                src@[i - 1],
            ));
        }
    }
    proof {
        assert(old(out)@ + src@.take(src@.len() as int) =~= old(out)@ + src@);
    }
}

/// Appends a length-prefixed byte field.
fn push_byte_block(src: &Vec<u8>, out: &mut Vec<u8>)
    ensures
        final(out)@ == old(out)@ + byte_block(src@),
{
    push_le8(src.len() as u64, out);
    push_bytes(src, out);
    proof {
        assert(out@ =~= old(out)@ + byte_block(src@));
    }
}

/// Appends a length-prefixed string field.
fn push_str_block(s: &String, out: &mut Vec<u8>)
    ensures
        final(out)@ == old(out)@ + str_block(s@),
{
    let bv = s.as_str().as_bytes_vec();
    push_byte_block(&bv, out);
    proof {
        assert(out@ =~= old(out)@ + str_block(s@));
    }
}

/// Encodes one source node; fails only when the computation of the
/// node's arguments fails. `bindings` must hold the child environment's
/// visible bindings for the tree being encoded.
fn encode_node_exec(
    n: &DigestNode,
    root: &Environment,
    bindings: &Vec<(String, String)>,
    raw: Ghost<Seq<char>>,
) -> (r: Result<Vec<u8>, ClmanError>)
    requires
        viewed_pairs(bindings@) == child_merged(*root, raw@),
    ensures
        match r {
            Ok(v) => encode_node(*n, *root, raw@) == Some(v@),
            Err(e) => encode_node(*n, *root, raw@) is None && e is ValueCompute,
        },
    decreases *n,
{
    let mut out: Vec<u8> = Vec::new();
    match n {
        DigestNode::Code { name, code } => {
            out.push(1u8);
            push_str_block(name, &mut out);
            push_str_block(&code.0, &mut out);
            proof {
                assert(out@ =~= seq![1u8] + str_block(name@) + str_block(code.0@));
            }
            Ok(out)
        },
        DigestNode::File { name, path, bytes } => {
            out.push(2u8);
            push_str_block(name, &mut out);
            push_str_block(path, &mut out);
            push_byte_block(bytes, &mut out);
            proof {
                assert(out@ =~= seq![2u8] + str_block(name@) + str_block(path@) + byte_block(
                    bytes@,
                ));
            }
            Ok(out)
        },
        DigestNode::Dockerfile { name, dockerfile, bytes, args } => {
            let a = match compute_with_bindings(&args.0, bindings) {
                Ok(a) => a,
                Err(e) => {
                    return Err(e);
                },
            };
            out.push(3u8);
            push_str_block(name, &mut out);
            push_str_block(dockerfile, &mut out);
            push_byte_block(bytes, &mut out);
            push_str_block(&a, &mut out);
            proof {
                assert(out@ =~= seq![3u8] + str_block(name@) + str_block(dockerfile@)
                    + byte_block(bytes@) + str_block(a@));
            }
            Ok(out)
        },
        DigestNode::Script { name, script, bytes, args } => {
            let a = match compute_with_bindings(&args.0, bindings) {
                Ok(a) => a,
                Err(e) => {
                    return Err(e);
                },
            };
            out.push(4u8);
            push_str_block(name, &mut out);
            push_str_block(script, &mut out);
            push_byte_block(bytes, &mut out);
            push_str_block(&a, &mut out);
            proof {
                assert(out@ =~= seq![4u8] + str_block(name@) + str_block(script@) + byte_block(
                    bytes@,
                ) + str_block(a@));
            }
            Ok(out)
        },
        DigestNode::Package { name, git, args, sub } => {
            let a = match compute_with_bindings(&args.0, bindings) {
                Ok(a) => a,
                Err(e) => {
                    return Err(e);
                },
            };
            let subbytes = match encode_tree_exec(sub, root, &a) {
                Ok(v) => v,
                Err(e) => {
                    return Err(e);
                },
            };
            out.push(5u8);
            push_str_block(name, &mut out);
            push_str_block(git, &mut out);
            push_str_block(&a, &mut out);
            push_bytes(&subbytes, &mut out);
            proof {
                assert(out@ =~= (seq![5u8] + str_block(name@) + str_block(git@) + str_block(a@))
                    + subbytes@);
            }
            Ok(out)
        },
    }
}

/// Encodes a whole digest tree; fails only when the computation of a
/// node's arguments fails.
pub fn encode_tree_exec(t: &DigestTree, root: &Environment, raw: &String) -> (r: Result<
    Vec<u8>,
    ClmanError,
>)
    ensures
        match r {
            Ok(v) => encode_tree(*t, *root, raw@) == Some(v@),
            Err(e) => encode_tree(*t, *root, raw@) is None && e is ValueCompute,
        },
    decreases *t,
{
    let bindings = child_bindings(root, raw);
    let mut out: Vec<u8> = Vec::new();
    push_str_block(raw, &mut out);
    let mut i: usize = 0;
    proof {
        assert(t.define@.skip(0) =~= t.define@);
        assert(out@ + encode_defines(t.define@) =~= str_block(raw@) + encode_defines(t.define@));
    }
    while i < t.define.len()
        invariant
            i <= t.define@.len(),
            str_block(raw@) + encode_defines(t.define@) == out@ + encode_defines(
                t.define@.skip(i as int),
            ),
        decreases t.define@.len() - i,
    {
        let ghost rem = t.define@.skip(i as int);
        let ghost out0 = out@;
        push_str_block(&t.define[i].0, &mut out);
        push_str_block(&t.define[i].1.0, &mut out);
        i = i + 1;
        proof {
            assert(rem[0] == t.define@[i - 1]);
            assert(rem.drop_first() =~= t.define@.skip(i as int));
            assert(out@ =~= out0 + (str_block(rem[0].0@) + str_block(rem[0].1.0@)));
            assert(out0 + (str_block(rem[0].0@) + str_block(rem[0].1.0@)) + encode_defines(
                t.define@.skip(i as int),
            ) =~= out0 + (str_block(rem[0].0@) + str_block(rem[0].1.0@) + encode_defines(
                t.define@.skip(i as int),
            )));
        }
    }
    proof {
        assert(t.define@.skip(i as int) =~= Seq::<(String, ValueString)>::empty());
        assert(out@ + Seq::<u8>::empty() =~= out@);
        assert(t.nodes@.skip(0) =~= t.nodes@);
    }
    let mut j: usize = 0;
    while j < t.nodes.len()
        invariant
            j <= t.nodes@.len(),
            viewed_pairs(bindings@) == child_merged(*root, raw@),
            match encode_nodes(t.nodes@.skip(j as int), *root, raw@) {
                Some(nb) => encode_tree(*t, *root, raw@) == Some(out@ + nb),
                None => encode_tree(*t, *root, raw@) is None,
            },
        decreases t.nodes@.len() - j,
    {
        let ghost rem = t.nodes@.skip(j as int);
        let ghost out0 = out@;
        proof {
            assert(rem[0] == t.nodes@[j as int]);
            assert(rem.drop_first() =~= t.nodes@.skip(j + 1));
        }
        match encode_node_exec(&t.nodes[j], root, &bindings, Ghost(raw@)) {
            Ok(v) => {
                push_bytes(&v, &mut out);
                proof {
                    lemma_cat_shift(out0, v@, encode_nodes(t.nodes@.skip(j + 1), *root, raw@));
                }
            },
            Err(e) => {
                return Err(e);
            },
        }
        j = j + 1;
    }
    proof {
        assert(t.nodes@.skip(j as int) =~= Seq::<DigestNode>::empty());
        assert(out@ + Seq::<u8>::empty() =~= out@);
    }
    Ok(out)
}

/// Regrouping for the node loop: appending one node's encoding to the
/// accumulator matches prepending it to the remainder.
proof fn lemma_cat_shift(out0: Seq<u8>, e0: Seq<u8>, rest: Option<Seq<u8>>)
    ensures
        match rest {
            Some(nb) => out0 + (e0 + nb) == (out0 + e0) + nb,
            None => true,
        },
{
    match rest {
        Some(nb) => {
            assert(out0 + (e0 + nb) =~= (out0 + e0) + nb);
        },
        None => {},
    }
}

/// Appending the same suffix to distinct sequences keeps them
/// distinct.
proof fn lemma_append_right_distinct(a: Seq<u8>, b: Seq<u8>, x: Seq<u8>)
    requires
        a != b,
    ensures
        a + x != b + x,
{
    if a.len() == b.len() {
        if forall|k: int| 0 <= k < a.len() ==> a[k] == b[k] {
            assert(a =~= b);
        }
        let k = choose|k: int| 0 <= k < a.len() && a[k] != b[k];
        assert((a + x)[k] == a[k]);
        assert((b + x)[k] == b[k]);
    } else {
        assert((a + x).len() != (b + x).len());
    }
}

/// Prepending the same prefix to distinct sequences keeps them
/// distinct.
proof fn lemma_append_left_distinct(p: Seq<u8>, a: Seq<u8>, b: Seq<u8>)
    requires
        a != b,
    ensures
        p + a != p + b,
{
    if a.len() == b.len() {
        if forall|k: int| 0 <= k < a.len() ==> a[k] == b[k] {
            assert(a =~= b);
        }
        let k = choose|k: int| 0 <= k < a.len() && a[k] != b[k];
        assert((p + a)[p.len() + k] == a[k]);
        assert((p + b)[p.len() + k] == b[k]);
    } else {
        assert((p + a).len() != (p + b).len());
    }
}

/// Two file nodes that differ only in their bytes have distinct
/// encodings: with the same name and path the encodings share their
/// prefix, and the length-prefixed byte field separates the rest.
proof fn lemma_file_encode_distinct(
    name: String,
    path: String,
    b1: Vec<u8>,
    b2: Vec<u8>,
    root: Environment,
    raw: Seq<char>,
)
    requires
        b1@ != b2@,
    ensures
        encode_node(DigestNode::File { name, path, bytes: b1 }, root, raw) != encode_node(
            DigestNode::File { name, path, bytes: b2 },
            root,
            raw,
        ),
{
    let a = seq![2u8] + str_block(name@) + str_block(path@);
    let e1 = a + byte_block(b1@);
    let e2 = a + byte_block(b2@);
    if b1@.len() == b2@.len() {
        if forall|k: int| 0 <= k < b1@.len() ==> b1@[k] == b2@[k] {
            assert(b1@ =~= b2@);
        }
        let k = choose|k: int| 0 <= k < b1@.len() && b1@[k] != b2@[k];
        assert(e1[a.len() + 8 + k] == byte_block(b1@)[8 + k]);
        assert(byte_block(b1@)[8 + k] == b1@[k]);
        assert(e2[a.len() + 8 + k] == byte_block(b2@)[8 + k]);
        assert(byte_block(b2@)[8 + k] == b2@[k]);
        assert(e1 != e2);
    } else {
        assert(e1.len() != e2.len());
    }
}

/// Node lists that differ in exactly one node's encoding have distinct
/// encodings.
proof fn lemma_nodes_differ(
    ns1: Seq<DigestNode>,
    ns2: Seq<DigestNode>,
    i: int,
    root: Environment,
    raw: Seq<char>,
)
    requires
        ns1.len() == ns2.len(),
        0 <= i < ns1.len(),
        forall|j: int| 0 <= j < ns1.len() && j != i ==> ns1[j] == ns2[j],
        encode_node(ns1[i], root, raw) != encode_node(ns2[i], root, raw),
        encode_nodes(ns1, root, raw) is Some,
        encode_nodes(ns2, root, raw) is Some,
    ensures
        encode_nodes(ns1, root, raw) != encode_nodes(ns2, root, raw),
    decreases i,
{
    if i == 0 {
        assert(ns1.drop_first() =~= ns2.drop_first());
        let e1 = encode_node(ns1[0], root, raw)->Some_0;
        let e2 = encode_node(ns2[0], root, raw)->Some_0;
        let rest = encode_nodes(ns1.drop_first(), root, raw)->Some_0;
        lemma_append_right_distinct(e1, e2, rest);
    } else {
        assert(ns1[0] == ns2[0]);
        assert forall|j: int|
            0 <= j < ns1.drop_first().len() && j != i - 1 implies #[trigger] ns1.drop_first()[j]
            == ns2.drop_first()[j] by {
            assert(ns1[j + 1] == ns2[j + 1]);
        }
        assert(ns1.drop_first()[i - 1] == ns1[i]);
        assert(ns2.drop_first()[i - 1] == ns2[i]);
        lemma_nodes_differ(ns1.drop_first(), ns2.drop_first(), i - 1, root, raw);
        let e0 = encode_node(ns1[0], root, raw)->Some_0;
        let r1 = encode_nodes(ns1.drop_first(), root, raw)->Some_0;
        let r2 = encode_nodes(ns2.drop_first(), root, raw)->Some_0;
        lemma_append_left_distinct(e0, r1, r2);
    }
}

/// Changing one file node's on-disk bytes, with everything else
/// unchanged, changes the digest input. The cache digest is the
/// SHA-256 of exactly this input, so the next resolution is keyed by a
/// distinct cache entry.
pub proof fn lemma_file_change_changes_digest_input(
    t1: DigestTree,
    t2: DigestTree,
    i: int,
    name: String,
    path: String,
    b1: Vec<u8>,
    b2: Vec<u8>,
    root: Environment,
    raw: Seq<char>,
)
    requires
        t1.define@ == t2.define@,
        t1.nodes@.len() == t2.nodes@.len(),
        0 <= i < t1.nodes@.len(),
        forall|j: int| 0 <= j < t1.nodes@.len() && j != i ==> t1.nodes@[j] == t2.nodes@[j],
        t1.nodes@[i] == (DigestNode::File { name, path, bytes: b1 }),
        t2.nodes@[i] == (DigestNode::File { name, path, bytes: b2 }),
        b1@ != b2@,
        encode_tree(t1, root, raw) is Some,
        encode_tree(t2, root, raw) is Some,
    ensures
        encode_tree(t1, root, raw) != encode_tree(t2, root, raw),
{
    lemma_file_encode_distinct(name, path, b1, b2, root, raw);
    lemma_nodes_differ(t1.nodes@, t2.nodes@, i, root, raw);
    let p = str_block(raw) + encode_defines(t1.define@);
    let nb1 = encode_nodes(t1.nodes@, root, raw)->Some_0;
    let nb2 = encode_nodes(t2.nodes@, root, raw)->Some_0;
    lemma_append_left_distinct(p, nb1, nb2);
}

/// The cache digest of a project: the SHA-256 hex digest of its
/// encoded digest input.
pub fn checksum(tree: &DigestTree, env: &Environment, root_args: &String) -> (r: Result<
    String,
    ClmanError,
>)
    ensures
        match r {
            Ok(h) => encode_tree(*tree, *env, root_args@) matches Some(input) && h@
                == sha256_hex_of(input) && h@.len() == 64,
            Err(e) => encode_tree(*tree, *env, root_args@) is None && e is ValueCompute,
        },
{
    match encode_tree_exec(tree, env, root_args) {
        Ok(bytes) => Ok(sha256_hex(&bytes)),
        Err(e) => Err(e),
    }
}

} // verus!
