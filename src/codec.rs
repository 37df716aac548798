//! The snapshot format: a whole tree as bytes, and back.
//!
//! Integers are 64-bit little-endian. A byte string is its length then its
//! bytes; a name is the byte string of its UTF-8 encoding. A node is a tag
//! (0 file, 1 directory), its name, its timestamp, its permissions (owner id,
//! the count and then each of the group ids, then the owner, group and other
//! masks as one byte each), and then a file's bytes as a byte string or a
//! directory's child count followed by each child in order.

use vstd::prelude::*;
use vstd::utf8::{decode_utf8, encode_utf8, valid_utf8};
use crate::node::{children_view, lemma_children_view, lemma_children_view_ext, lemma_model, KindModel, NodeKind, NodeModel, VfsNode};
use crate::perms::{Permissions, PermissionsView};

verus! {

broadcast use {vstd::utf8::encode_utf8_valid_utf8, vstd::utf8::encode_utf8_decode_utf8};

/// The eight little-endian bytes of `x`.
pub open spec fn le64(x: u64) -> Seq<u8> {
    seq![
        x as u8,
        (x >> 8) as u8,
        (x >> 16) as u8,
        (x >> 24) as u8,
        (x >> 32) as u8,
        (x >> 40) as u8,
        (x >> 48) as u8,
        (x >> 56) as u8,
    ]
}

/// The integer whose little-endian bytes are the eight of `b`.
pub open spec fn le_value(b: Seq<u8>) -> u64 {
    (b[0] as u64) | ((b[1] as u64) << 8) | ((b[2] as u64) << 16) | ((b[3] as u64) << 24)
        | ((b[4] as u64) << 32) | ((b[5] as u64) << 40) | ((b[6] as u64) << 48) | ((b[7] as u64) << 56)
}

pub proof fn lemma_le64_value(x: u64)
    ensures
        le_value(le64(x)) == x,
{
    let b = le64(x);
    let (b0, b1, b2, b3, b4, b5, b6, b7) = (b[0], b[1], b[2], b[3], b[4], b[5], b[6], b[7]);
    assert(((b0 as u64) | ((b1 as u64) << 8) | ((b2 as u64) << 16) | ((b3 as u64) << 24)
        | ((b4 as u64) << 32) | ((b5 as u64) << 40) | ((b6 as u64) << 48) | ((b7 as u64) << 56)) == x) by (bit_vector)
        requires
            b0 == x as u8,
            b1 == (x >> 8) as u8,
            b2 == (x >> 16) as u8,
            b3 == (x >> 24) as u8,
            b4 == (x >> 32) as u8,
            b5 == (x >> 40) as u8,
            b6 == (x >> 48) as u8,
            b7 == (x >> 56) as u8,
    ;
}

/// Relies on `bincode::serialize` (its default options write integers at
/// fixed width, little-endian): the eight bytes of `x`.
#[verifier::external_body]
fn u64_bytes(x: u64) -> (r: Vec<u8>)
    ensures
        r@ == le64(x),
{
    bincode::serialize(&x).unwrap_or_default()
}

/// Relies on `bincode::deserialize` (its default options read integers at
/// fixed width, little-endian, and allow trailing bytes): the integer in
/// `b[pos..pos + 8]`, where eight bytes are left.
#[verifier::external_body]
fn u64_at(b: &[u8], pos: usize) -> (r: Option<u64>)
    requires
        pos <= b@.len(),
    ensures
        r is Some <==> pos + 8 <= b@.len(),
        r matches Some(x) ==> le64(x) == b@.subrange(pos as int, pos + 8),
{
    bincode::deserialize::<u64>(&b[pos..]).ok()
}

/// Relies on `String::from_utf8`: the string `b` encodes, if `b` is UTF-8.
#[verifier::external_body]
fn string_from_utf8(b: Vec<u8>) -> (r: Option<String>)
    ensures
        r is Some <==> valid_utf8(b@),
        r matches Some(s) ==> s@ == decode_utf8(b@),
{
    String::from_utf8(b).ok()
}

/// A byte string: its length, then its bytes.
pub open spec fn enc_bytes(b: Seq<u8>) -> Seq<u8> {
    le64(b.len() as u64) + b
}

/// Each of `ids`, as an integer.
pub open spec fn enc_ids(ids: Seq<u16>) -> Seq<u8>
    decreases ids.len(),
{
    if ids.len() == 0 {
        Seq::empty()
    } else {
        enc_ids(ids.drop_last()) + le64(ids.last() as u64)
    }
}

pub open spec fn enc_perms(p: PermissionsView) -> Seq<u8> {
    le64(p.owner_id as u64) + le64(p.group_ids.len() as u64) + enc_ids(p.group_ids) + seq![p.owner_perms, p.group_perms, p.other_perms]
}

/// Name, timestamp and permissions of a node.
pub open spec fn enc_header(n: NodeModel) -> Seq<u8> {
    enc_bytes(encode_utf8(n.name)) + le64(n.last_modified) + enc_perms(n.permissions)
}

pub open spec fn enc_node(n: NodeModel) -> Seq<u8>
    decreases n,
{
    match n.kind {
        KindModel::File(c) => seq![0u8] + enc_header(n) + enc_bytes(c),
        KindModel::Directory(ch) => seq![1u8] + enc_header(n) + le64(ch.len() as u64) + enc_forest(ch),
    }
}

pub open spec fn enc_forest(ch: Seq<NodeModel>) -> Seq<u8>
    decreases ch,
{
    if ch.len() == 0 {
        Seq::empty()
    } else {
        enc_forest(ch.subrange(0, ch.len() - 1)) + enc_node(ch[ch.len() - 1])
    }
}

/// Every length in the subtree `n` fits the format's 64-bit length fields.
pub open spec fn encodable(n: NodeModel) -> bool
    decreases n,
{
    &&& encode_utf8(n.name).len() <= u64::MAX
    &&& n.permissions.group_ids.len() <= u64::MAX
    &&& match n.kind {
        KindModel::File(c) => c.len() <= u64::MAX,
        KindModel::Directory(ch) => ch.len() <= u64::MAX && forall|i: int| 0 <= i < ch.len() ==> encodable(#[trigger] ch[i]),
    }
}

fn put_u64(out: &mut Vec<u8>, x: u64)
    ensures
        final(out)@ == old(out)@ + le64(x),
{
    let mut b = u64_bytes(x);
    out.append(&mut b);
}

fn put_bytes(out: &mut Vec<u8>, b: &[u8])
    ensures
        final(out)@ == old(out)@ + enc_bytes(b@),
        b@.len() <= u64::MAX,
{
    assert(b@.len() == b.len());
    put_u64(out, b.len() as u64);
    out.extend_from_slice(b);
    assert(final(out)@ =~= old(out)@ + enc_bytes(b@));
}

fn put_perms(out: &mut Vec<u8>, p: &Permissions)
    ensures
        final(out)@ == old(out)@ + enc_perms(p@),
        p@.group_ids.len() <= u64::MAX,
{
    let ghost start = out@;
    put_u64(out, p.owner_id() as u64);
    let ids = p.group_ids();
    put_u64(out, ids.len() as u64);
    let ghost mid = out@;
    let mut i: usize = 0;
    while i < ids.len()
        invariant
            0 <= i <= ids.len(),
            out@ == mid + enc_ids(ids@.subrange(0, i as int)),
        decreases ids.len() - i,
    {
        put_u64(out, ids[i] as u64);
        assert(ids@.subrange(0, i + 1).drop_last() =~= ids@.subrange(0, i as int));
        assert(out@ =~= mid + enc_ids(ids@.subrange(0, i + 1)));
        i += 1;
    }
    assert(ids@.subrange(0, ids.len() as int) =~= ids@);
    out.push(p.owner_perms());
    out.push(p.group_perms());
    out.push(p.other_perms());
    assert(out@ =~= start + enc_perms(p@));
}

/// Appends the encoding of the subtree `n` to `out`.
pub fn put_node(out: &mut Vec<u8>, n: &VfsNode)
    ensures
        final(out)@ == old(out)@ + enc_node(n@),
        encodable(n@),
    decreases n,
{
    proof {
        lemma_model(n);
    }
    let ghost start = out@;
    let tag: u8 = match &n.kind {
        NodeKind::File(_) => 0,
        NodeKind::Directory(_) => 1,
    };
    out.push(tag);
    let ghost after_tag = out@;
    put_bytes(out, n.name.as_str().as_bytes());
    put_u64(out, n.last_modified);
    put_perms(out, &n.permissions);
    assert(out@ =~= after_tag + enc_header(n@));
    match &n.kind {
        NodeKind::File(c) => {
            put_bytes(out, c.as_slice());
            assert(out@ =~= start + enc_node(n@));
            assert(encodable(n@));
        },
        NodeKind::Directory(children) => {
            proof {
                lemma_children_view(children@);
            }
            let ghost cv = children_view(children@);
            put_u64(out, children.len() as u64);
            let ghost mid = out@;
            let mut k: usize = 0;
            while k < children.len()
                invariant
                    0 <= k <= children.len(),
                    n.kind == NodeKind::Directory(*children),
                    cv == children_view(children@),
                    cv.len() == children.len(),
                    forall|j: int| 0 <= j < children.len() ==> #[trigger] cv[j] == children@[j]@,
                    forall|j: int| 0 <= j < k ==> encodable(#[trigger] cv[j]),
                    out@ == mid + enc_forest(cv.subrange(0, k as int)),
                decreases children.len() - k,
            {
                proof {
                    assert(decreases_to!(*children => children@));
                    assert(decreases_to!(children@ => children@[k as int]));
                    assert(n.kind->Directory_0 == *children);
                    assert(decreases_to!(n.kind => n.kind->Directory_0));
                    assert(decreases_to!(*n => n.kind));
                    assert(decreases_to!(n => children@[k as int]));
                }
                put_node(out, &children[k]);
                assert(cv.subrange(0, k + 1).subrange(0, k as int) =~= cv.subrange(0, k as int));
                assert(cv.subrange(0, k + 1)[k as int] == cv[k as int]);
                assert(out@ =~= mid + enc_forest(cv.subrange(0, k + 1)));
                k += 1;
            }
            assert(cv.subrange(0, k as int) =~= cv);
            assert(out@ =~= start + enc_node(n@));
            assert(children@.len() == children.len());
            assert(encodable(n@));
        },
    }
}

/// The integer at `pos`, and where it ends.
pub open spec fn dec_u64(b: Seq<u8>, pos: int) -> Option<(u64, int)> {
    if 0 <= pos && pos + 8 <= b.len() {
        Some((le_value(b.subrange(pos, pos + 8)), pos + 8))
    } else {
        None
    }
}

/// The byte string at `pos`, and where it ends.
pub open spec fn dec_bytes(b: Seq<u8>, pos: int) -> Option<(Seq<u8>, int)> {
    match dec_u64(b, pos) {
        Some((l, p)) => if l <= b.len() - p {
            Some((b.subrange(p, p + l), p + l))
        } else {
            None
        },
        None => None,
    }
}

/// The name at `pos`, and where it ends.
pub open spec fn dec_name(b: Seq<u8>, pos: int) -> Option<(Seq<char>, int)> {
    match dec_bytes(b, pos) {
        Some((s, p)) => if valid_utf8(s) {
            Some((decode_utf8(s), p))
        } else {
            None
        },
        None => None,
    }
}

/// The 16-bit id at `pos`, and where it ends.
pub open spec fn dec_id(b: Seq<u8>, pos: int) -> Option<(u16, int)> {
    match dec_u64(b, pos) {
        Some((x, p)) => if x <= 0xffff {
            Some((x as u16, p))
        } else {
            None
        },
        None => None,
    }
}

/// `k` ids from `pos` on, and where they end.
pub open spec fn dec_ids(b: Seq<u8>, pos: int, k: nat) -> Option<(Seq<u16>, int)>
    decreases k,
{
    if k == 0 {
        Some((Seq::empty(), pos))
    } else {
        match dec_ids(b, pos, (k - 1) as nat) {
            Some((ids, p)) => match dec_id(b, p) {
                Some((x, q)) => Some((ids.push(x), q)),
                None => None,
            },
            None => None,
        }
    }
}

/// The permissions at `pos`, and where they end.
pub open spec fn dec_perms(b: Seq<u8>, pos: int) -> Option<(PermissionsView, int)> {
    match dec_id(b, pos) {
        Some((owner, pa)) => match dec_u64(b, pa) {
            Some((k, pb)) => match dec_ids(b, pb, k as nat) {
                Some((ids, pc)) => if 0 <= pc && pc + 3 <= b.len() {
                    Some((PermissionsView { owner_id: owner, group_ids: ids, owner_perms: b[pc], group_perms: b[pc + 1], other_perms: b[pc + 2] }, pc + 3))
                } else {
                    None
                },
                None => None,
            },
            None => None,
        },
        None => None,
    }
}

/// Name, timestamp and permissions at `pos`, and where they end.
pub open spec fn dec_header(b: Seq<u8>, pos: int) -> Option<(Seq<char>, u64, PermissionsView, int)> {
    match dec_name(b, pos) {
        Some((name, pa)) => match dec_u64(b, pa) {
            Some((t, pb)) => match dec_perms(b, pb) {
                Some((perms, pc)) => Some((name, t, perms, pc)),
                None => None,
            },
            None => None,
        },
        None => None,
    }
}

/// The node at `pos`, and where it ends.
pub open spec fn dec_node(b: Seq<u8>, pos: int) -> Option<(NodeModel, int)>
    decreases b.len() - pos, 0int,
{
    if pos < 0 || pos >= b.len() {
        None
    } else {
        match dec_header(b, pos + 1) {
            None => None,
            Some((name, t, perms, p)) => if b[pos] == 0 {
                match dec_bytes(b, p) {
                    Some((c, q)) => Some((NodeModel { name, last_modified: t, kind: KindModel::File(c), permissions: perms }, q)),
                    None => None,
                }
            } else if b[pos] == 1 {
                match dec_u64(b, p) {
                    Some((k, q)) => if pos < q && q <= b.len() {
                        match dec_forest(b, q, k as nat) {
                            Some((ch, e)) => Some((NodeModel { name, last_modified: t, kind: KindModel::Directory(ch), permissions: perms }, e)),
                            None => None,
                        }
                    } else {
                        None
                    },
                    None => None,
                }
            } else {
                None
            },
        }
    }
}

/// `k` nodes from `pos` on, and where they end.
pub open spec fn dec_forest(b: Seq<u8>, pos: int, k: nat) -> Option<(Seq<NodeModel>, int)>
    decreases b.len() - pos, k + 1,
{
    if pos < 0 || pos > b.len() {
        None
    } else if k == 0 {
        Some((Seq::empty(), pos))
    } else {
        match dec_forest(b, pos, (k - 1) as nat) {
            Some((ch, p)) => if pos <= p && p <= b.len() {
                match dec_node(b, p) {
                    Some((n, q)) => Some((ch.push(n), q)),
                    None => None,
                }
            } else {
                None
            },
            None => None,
        }
    }
}

/// The tree that the whole of `b` encodes, if it encodes one.
pub open spec fn decode(b: Seq<u8>) -> Option<NodeModel> {
    match dec_node(b, 0) {
        Some((n, e)) => if e == b.len() {
            Some(n)
        } else {
            None
        },
        None => None,
    }
}

fn get_u64(b: &[u8], pos: usize) -> (r: Option<(u64, usize)>)
    ensures
        r matches Some((x, p)) ==> dec_u64(b@, pos as int) == Some((x, p as int)) && pos < p <= b@.len(),
        r is None ==> dec_u64(b@, pos as int) is None,
{
    if pos > b.len() {
        return None;
    }
    match u64_at(b, pos) {
        None => None,
        Some(x) => {
            proof {
                lemma_le64_value(x);
            }
            Some((x, pos + 8))
        },
    }
}

fn copy_range(b: &[u8], from: usize, to: usize) -> (r: Vec<u8>)
    requires
        from <= to <= b@.len(),
    ensures
        r@ == b@.subrange(from as int, to as int),
{
    let mut r: Vec<u8> = Vec::new();
    let mut i: usize = from;
    while i < to
        invariant
            from <= i <= to <= b@.len(),
            r@ == b@.subrange(from as int, i as int),
        decreases to - i,
    {
        r.push(b[i]);
        assert(r@ =~= b@.subrange(from as int, i + 1));
        i += 1;
    }
    r
}

fn get_bytes(b: &[u8], pos: usize) -> (r: Option<(Vec<u8>, usize)>)
    ensures
        r matches Some((c, p)) ==> dec_bytes(b@, pos as int) == Some((c@, p as int)) && pos < p <= b@.len(),
        r is None ==> dec_bytes(b@, pos as int) is None,
{
    match get_u64(b, pos) {
        None => None,
        Some((l, p)) => {
            if l > (b.len() - p) as u64 {
                return None;
            }
            let e = p + l as usize;
            Some((copy_range(b, p, e), e))
        },
    }
}

fn get_name(b: &[u8], pos: usize) -> (r: Option<(String, usize)>)
    ensures
        r matches Some((s, p)) ==> dec_name(b@, pos as int) == Some((s@, p as int)) && pos < p <= b@.len(),
        r is None ==> dec_name(b@, pos as int) is None,
{
    match get_bytes(b, pos) {
        None => None,
        Some((c, p)) => match string_from_utf8(c) {
            None => None,
            Some(s) => Some((s, p)),
        },
    }
}

fn get_id(b: &[u8], pos: usize) -> (r: Option<(u16, usize)>)
    ensures
        r matches Some((x, p)) ==> dec_id(b@, pos as int) == Some((x, p as int)) && pos < p <= b@.len(),
        r is None ==> dec_id(b@, pos as int) is None,
{
    match get_u64(b, pos) {
        None => None,
        Some((x, p)) => if x <= 0xffff {
            Some((x as u16, p))
        } else {
            None
        },
    }
}

fn get_perms(b: &[u8], pos: usize) -> (r: Option<(Permissions, usize)>)
    ensures
        r matches Some((x, p)) ==> dec_perms(b@, pos as int) == Some((x@, p as int)) && pos < p <= b@.len(),
        r is None ==> dec_perms(b@, pos as int) is None,
{
    let (owner, pa) = match get_id(b, pos) {
        None => { return None; },
        Some(v) => v,
    };
    let (k, pb) = match get_u64(b, pa) {
        None => { return None; },
        Some(v) => v,
    };
    let mut ids: Vec<u16> = Vec::new();
    let mut p = pb;
    let mut i: u64 = 0;
    assert(ids@ =~= Seq::<u16>::empty());
    while i < k
        invariant
            0 <= i <= k,
            pos < pa < pb <= p <= b@.len(),
            dec_id(b@, pos as int) == Some((owner, pa as int)),
            dec_u64(b@, pa as int) == Some((k, pb as int)),
            dec_ids(b@, pb as int, i as nat) == Some((ids@, p as int)),
        decreases k - i,
    {
        match get_id(b, p) {
            None => {
                assert(dec_ids(b@, pb as int, (i + 1) as nat) is None);
                proof {
                    lemma_dec_ids_none(b@, pb as int, (i + 1) as nat, k as nat);
                }
                assert(dec_ids(b@, pb as int, k as nat) is None);
                assert(dec_id(b@, pos as int) == Some((owner, pa as int)));
                assert(dec_u64(b@, pa as int) == Some((k, pb as int)));
                return None;
            },
            Some((x, q)) => {
                ids.push(x);
                p = q;
            },
        }
        i += 1;
    }
    if p > b.len() || b.len() - p < 3 {
        return None;
    }
    let perms = Permissions::new(owner, ids, b[p], b[p + 1], b[p + 2]);
    Some((perms, p + 3))
}

proof fn lemma_dec_ids_none(b: Seq<u8>, pos: int, i: nat, k: nat)
    requires
        i <= k,
        dec_ids(b, pos, i) is None,
    ensures
        dec_ids(b, pos, k) is None,
    decreases k - i,
{
    if i < k {
        lemma_dec_ids_none(b, pos, i + 1, k);
    }
}

proof fn lemma_dec_forest_none(b: Seq<u8>, pos: int, i: nat, k: nat)
    requires
        i <= k,
        dec_forest(b, pos, i) is None,
    ensures
        dec_forest(b, pos, k) is None,
    decreases k - i,
{
    if i < k {
        assert(dec_forest(b, pos, i + 1) is None);
        lemma_dec_forest_none(b, pos, i + 1, k);
    }
}

fn get_node(b: &[u8], pos: usize) -> (r: Option<(VfsNode, usize)>)
    ensures
        r matches Some((n, p)) ==> dec_node(b@, pos as int) == Some((n@, p as int)) && pos < p <= b@.len(),
        r is None ==> dec_node(b@, pos as int) is None,
    decreases b@.len() - pos,
{
    if pos >= b.len() {
        return None;
    }
    let tag = b[pos];
    let (name, pa) = match get_name(b, pos + 1) {
        None => { return None; },
        Some(v) => v,
    };
    let (t, pb) = match get_u64(b, pa) {
        None => { return None; },
        Some(v) => v,
    };
    let (permissions, p) = match get_perms(b, pb) {
        None => { return None; },
        Some(v) => v,
    };
    assert(dec_header(b@, pos + 1) == Some((name@, t, permissions@, p as int)));
    if tag == 0 {
        match get_bytes(b, p) {
            None => None,
            Some((c, q)) => {
                let n = VfsNode { name, last_modified: t, kind: NodeKind::File(c), permissions };
                proof {
                    lemma_model(&n);
                }
                Some((n, q))
            },
        }
    } else if tag == 1 {
        let (k, q) = match get_u64(b, p) {
            None => { return None; },
            Some(v) => v,
        };
        if !(pos < q && q <= b.len()) {
            return None;
        }
        let mut kids: Vec<VfsNode> = Vec::new();
        let mut e = q;
        let mut i: u64 = 0;
        proof {
            lemma_children_view_ext(kids@, Seq::<NodeModel>::empty());
        }
        while i < k
            invariant
                0 <= i <= k,
                pos < q <= e <= b@.len(),
                pos < b@.len(),
                b@[pos as int] == 1,
                dec_header(b@, pos + 1) == Some((name@, t, permissions@, p as int)),
                dec_u64(b@, p as int) == Some((k, q as int)),
                dec_forest(b@, q as int, i as nat) == Some((children_view(kids@), e as int)),
            decreases k - i,
        {
            match get_node(b, e) {
                None => {
                    assert(dec_forest(b@, q as int, (i + 1) as nat) is None);
                    proof {
                        lemma_dec_forest_none(b@, q as int, (i + 1) as nat, k as nat);
                    }
                    return None;
                },
                Some((n, e2)) => {
                    let ghost before = kids@;
                    let ghost nm = n@;
                    kids.push(n);
                    proof {
                        lemma_children_view(before);
                        lemma_children_view_ext(kids@, children_view(before).push(nm));
                    }
                    e = e2;
                },
            }
            i += 1;
        }
        let n = VfsNode { name, last_modified: t, kind: NodeKind::Directory(kids), permissions };
        proof {
            lemma_model(&n);
        }
        Some((n, e))
    } else {
        None
    }
}

/// The tree that the whole of `b` encodes.
pub fn decode_tree(b: &[u8]) -> (r: Option<VfsNode>)
    ensures
        r matches Some(n) ==> decode(b@) == Some(n@),
        r is None ==> decode(b@) is None,
{
    match get_node(b, 0) {
        None => None,
        Some((n, e)) => if e == b.len() {
            Some(n)
        } else {
            None
        },
    }
}

/// `b` holds `s` from `pos` on.
pub open spec fn holds_at(b: Seq<u8>, pos: int, s: Seq<u8>) -> bool {
    0 <= pos && pos + s.len() <= b.len() && b.subrange(pos, pos + s.len()) == s
}

proof fn lemma_holds_split(b: Seq<u8>, pos: int, s1: Seq<u8>, s2: Seq<u8>)
    requires
        holds_at(b, pos, s1 + s2),
    ensures
        holds_at(b, pos, s1),
        holds_at(b, pos + s1.len(), s2),
{
    assert(b.subrange(pos, pos + s1.len()) =~= (s1 + s2).subrange(0, s1.len() as int));
    assert((s1 + s2).subrange(0, s1.len() as int) =~= s1);
    assert(b.subrange(pos + s1.len(), pos + s1.len() + s2.len()) =~= (s1 + s2).subrange(s1.len() as int, (s1 + s2).len() as int));
    assert((s1 + s2).subrange(s1.len() as int, (s1 + s2).len() as int) =~= s2);
}

proof fn lemma_dec_u64_at(b: Seq<u8>, pos: int, x: u64)
    requires
        holds_at(b, pos, le64(x)),
    ensures
        dec_u64(b, pos) == Some((x, pos + 8)),
{
    lemma_le64_value(x);
}

proof fn lemma_dec_bytes_at(b: Seq<u8>, pos: int, c: Seq<u8>)
    requires
        c.len() <= u64::MAX,
        holds_at(b, pos, enc_bytes(c)),
    ensures
        dec_bytes(b, pos) == Some((c, pos + enc_bytes(c).len())),
{
    lemma_holds_split(b, pos, le64(c.len() as u64), c);
    lemma_dec_u64_at(b, pos, c.len() as u64);
}

proof fn lemma_dec_ids_at(b: Seq<u8>, pos: int, ids: Seq<u16>)
    requires
        holds_at(b, pos, enc_ids(ids)),
    ensures
        dec_ids(b, pos, ids.len()) == Some((ids, pos + enc_ids(ids).len())),
    decreases ids.len(),
{
    if ids.len() > 0 {
        let pre = ids.drop_last();
        lemma_holds_split(b, pos, enc_ids(pre), le64(ids.last() as u64));
        lemma_dec_ids_at(b, pos, pre);
        lemma_dec_u64_at(b, pos + enc_ids(pre).len(), ids.last() as u64);
        assert(pre.push(ids.last()) =~= ids);
        assert((ids.len() - 1) as nat == pre.len());
    }
}

proof fn lemma_dec_perms_at(b: Seq<u8>, pos: int, p: PermissionsView)
    requires
        p.group_ids.len() <= u64::MAX,
        holds_at(b, pos, enc_perms(p)),
    ensures
        dec_perms(b, pos) == Some((p, pos + enc_perms(p).len())),
{
    let a = le64(p.owner_id as u64);
    let l = le64(p.group_ids.len() as u64);
    let ids = enc_ids(p.group_ids);
    let masks = seq![p.owner_perms, p.group_perms, p.other_perms];
    lemma_holds_split(b, pos, a + l + ids, masks);
    lemma_holds_split(b, pos, a + l, ids);
    lemma_holds_split(b, pos, a, l);
    lemma_dec_u64_at(b, pos, p.owner_id as u64);
    lemma_dec_u64_at(b, pos + 8, p.group_ids.len() as u64);
    lemma_dec_ids_at(b, pos + 16, p.group_ids);
    let pc = pos + 16 + ids.len();
    assert(b.subrange(pc, pc + 3) == masks);
    assert(b[pc] == masks[0] && b[pc + 1] == masks[1] && b[pc + 2] == masks[2]) by {
        assert(b.subrange(pc, pc + 3)[0] == b[pc]);
        assert(b.subrange(pc, pc + 3)[1] == b[pc + 1]);
        assert(b.subrange(pc, pc + 3)[2] == b[pc + 2]);
    }
}

proof fn lemma_dec_header_at(b: Seq<u8>, pos: int, n: NodeModel)
    requires
        encodable(n),
        holds_at(b, pos, enc_header(n)),
    ensures
        dec_header(b, pos) == Some((n.name, n.last_modified, n.permissions, pos + enc_header(n).len())),
{
    let nm = enc_bytes(encode_utf8(n.name));
    lemma_holds_split(b, pos, nm + le64(n.last_modified), enc_perms(n.permissions));
    lemma_holds_split(b, pos, nm, le64(n.last_modified));
    lemma_dec_bytes_at(b, pos, encode_utf8(n.name));
    lemma_dec_u64_at(b, pos + nm.len(), n.last_modified);
    lemma_dec_perms_at(b, pos + nm.len() + 8, n.permissions);
}

proof fn lemma_dec_node_at(b: Seq<u8>, pos: int, n: NodeModel)
    requires
        encodable(n),
        holds_at(b, pos, enc_node(n)),
    ensures
        dec_node(b, pos) == Some((n, pos + enc_node(n).len())),
    decreases n,
{
    let h = enc_header(n);
    match n.kind {
        KindModel::File(c) => {
            lemma_holds_split(b, pos, seq![0u8] + h, enc_bytes(c));
            lemma_holds_split(b, pos, seq![0u8], h);
            assert(b[pos] == b.subrange(pos, pos + 1)[0]);
            lemma_dec_header_at(b, pos + 1, n);
            lemma_dec_bytes_at(b, pos + 1 + h.len(), c);
        },
        KindModel::Directory(ch) => {
            let cnt = le64(ch.len() as u64);
            lemma_holds_split(b, pos, seq![1u8] + h + cnt, enc_forest(ch));
            lemma_holds_split(b, pos, seq![1u8] + h, cnt);
            lemma_holds_split(b, pos, seq![1u8], h);
            assert(b[pos] == b.subrange(pos, pos + 1)[0]);
            lemma_dec_header_at(b, pos + 1, n);
            lemma_dec_u64_at(b, pos + 1 + h.len(), ch.len() as u64);
            lemma_dec_forest_at(b, pos + 1 + h.len() + 8, ch);
            assert((ch.len() as u64) as nat == ch.len());
        },
    }
}

proof fn lemma_dec_forest_at(b: Seq<u8>, pos: int, ch: Seq<NodeModel>)
    requires
        forall|i: int| 0 <= i < ch.len() ==> encodable(#[trigger] ch[i]),
        holds_at(b, pos, enc_forest(ch)),
    ensures
        dec_forest(b, pos, ch.len()) == Some((ch, pos + enc_forest(ch).len())),
    decreases ch,
{
    if ch.len() > 0 {
        let pre = ch.subrange(0, ch.len() - 1);
        let last = ch[ch.len() - 1];
        lemma_holds_split(b, pos, enc_forest(pre), enc_node(last));
        assert forall|i: int| 0 <= i < pre.len() implies encodable(#[trigger] pre[i]) by {
            assert(pre[i] == ch[i]);
        }
        lemma_dec_forest_at(b, pos, pre);
        lemma_dec_node_at(b, pos + enc_forest(pre).len(), last);
        assert(pre.push(last) =~= ch);
        assert((ch.len() - 1) as nat == pre.len());
    }
}

/// Decoding the encoding of a tree gives the tree back.
pub proof fn lemma_round_trip(n: NodeModel)
    requires
        encodable(n),
    ensures
        decode(enc_node(n)) == Some(n),
{
    let b = enc_node(n);
    assert(b.subrange(0, b.len() as int) =~= b);
    lemma_dec_node_at(b, 0, n);
}

} // verus!
