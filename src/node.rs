//! Tree nodes, their mathematical model, and path-indexed access to a tree.

use vstd::prelude::*;
use crate::perms::{grants, public_view, Permissions, PermissionsView, User, UserView, READ_BIT};
use crate::clock::now_secs;
use crate::path::is_valid_name;

verus! {

/// What a node holds: a file's bytes, or a directory's children.
#[derive(Debug)]
pub enum NodeKind {
    File(Vec<u8>),
    Directory(Vec<VfsNode>),
}

/// One entry of the tree. Its `name` is its key among its siblings.
#[derive(Debug)]
pub struct VfsNode {
    pub(crate) name: String,
    pub(crate) last_modified: u64,
    pub(crate) kind: NodeKind,
    pub(crate) permissions: Permissions,
}

/// The model of a node's kind.
pub enum KindModel {
    File(Seq<u8>),
    Directory(Seq<NodeModel>),
}

/// The model of a node: plain values, children in order.
pub struct NodeModel {
    pub name: Seq<char>,
    pub last_modified: u64,
    pub kind: KindModel,
    pub permissions: PermissionsView,
}

/// The models of a sequence of nodes.
pub closed spec fn children_view(s: Seq<VfsNode>) -> Seq<NodeModel>
    decreases s,
{
    if s.len() == 0 {
        Seq::empty()
    } else {
        children_view(s.subrange(0, s.len() - 1)).push(s[s.len() - 1].model())
    }
}

impl VfsNode {
    /// The model of this node and, transitively, of its subtree.
    pub closed spec fn model(&self) -> NodeModel
        decreases self,
    {
        NodeModel {
            name: self.name@,
            last_modified: self.last_modified,
            kind: match &self.kind {
                NodeKind::File(c) => KindModel::File(c@),
                NodeKind::Directory(ch) => KindModel::Directory(children_view(ch@)),
            },
            permissions: self.permissions@,
        }
    }
}

impl View for VfsNode {
    type V = NodeModel;

    open spec fn view(&self) -> NodeModel {
        self.model()
    }
}

/// The model of a node, one level down.
pub(crate) proof fn lemma_model(n: &VfsNode)
    ensures
        n@ == (NodeModel {
            name: n.name@,
            last_modified: n.last_modified,
            kind: match &n.kind {
                NodeKind::File(c) => KindModel::File(c@),
                NodeKind::Directory(ch) => KindModel::Directory(children_view(ch@)),
            },
            permissions: n.permissions@,
        }),
{
}

pub proof fn lemma_children_view(s: Seq<VfsNode>)
    ensures
        children_view(s).len() == s.len(),
        forall|i: int| 0 <= i < s.len() ==> #[trigger] children_view(s)[i] == s[i]@,
    decreases s.len(),
{
    if s.len() > 0 {
        lemma_children_view(s.subrange(0, s.len() - 1));
        assert forall|i: int| 0 <= i < s.len() implies #[trigger] children_view(s)[i] == s[i]@ by {
            if i < s.len() - 1 {
                assert(s.subrange(0, s.len() - 1)[i] == s[i]);
            }
        }
    }
}

pub proof fn lemma_children_view_ext(a: Seq<VfsNode>, b: Seq<NodeModel>)
    requires
        a.len() == b.len(),
        forall|i: int| 0 <= i < a.len() ==> #[trigger] a[i]@ == b[i],
    ensures
        children_view(a) == b,
{
    lemma_children_view(a);
    assert(children_view(a) =~= b);
}

/// A name a node can have under a directory: not empty, no `/`.
pub open spec fn valid_name(s: Seq<char>) -> bool {
    s.len() > 0 && forall|i: int| 0 <= i < s.len() ==> s[i] != '/'
}

/// No two of `ch` share a name.
pub open spec fn names_unique(ch: Seq<NodeModel>) -> bool {
    forall|i: int, j: int| 0 <= i < ch.len() && 0 <= j < ch.len() && i != j ==> #[trigger] ch[i].name != #[trigger] ch[j].name
}

/// Some node of `ch` is named `name`.
pub open spec fn has_child(ch: Seq<NodeModel>, name: Seq<char>) -> bool {
    exists|i: int| 0 <= i < ch.len() && #[trigger] ch[i].name == name
}

/// `i` is the first position in `ch` of a node named `name`.
pub open spec fn is_first_named(ch: Seq<NodeModel>, name: Seq<char>, i: int) -> bool {
    &&& 0 <= i < ch.len()
    &&& ch[i].name == name
    &&& forall|j: int| 0 <= j < i ==> #[trigger] ch[j].name != name
}

/// The first position in `ch` of a node named `name` (meaningful when there is one).
pub open spec fn child_pos(ch: Seq<NodeModel>, name: Seq<char>) -> int {
    choose|i: int| is_first_named(ch, name, i)
}

pub proof fn lemma_child_pos(ch: Seq<NodeModel>, name: Seq<char>, k: int)
    requires
        is_first_named(ch, name, k),
    ensures
        child_pos(ch, name) == k,
{
    let c = child_pos(ch, name);
    assert(is_first_named(ch, name, c));
    if c < k {
        assert(ch[c].name != name);
    } else if c > k {
        assert(ch[k].name != name);
    }
}

pub proof fn lemma_has_child_first(ch: Seq<NodeModel>, name: Seq<char>)
    requires
        has_child(ch, name),
    ensures
        is_first_named(ch, name, child_pos(ch, name)),
    decreases ch.len(),
{
    let i = choose|i: int| 0 <= i < ch.len() && #[trigger] ch[i].name == name;
    if ch[ch.len() - 1].name == name && !has_child(ch.subrange(0, ch.len() - 1), name) {
        assert forall|j: int| 0 <= j < ch.len() - 1 implies #[trigger] ch[j].name != name by {
            assert(ch.subrange(0, ch.len() - 1)[j] == ch[j]);
        }
        assert(is_first_named(ch, name, ch.len() - 1));
    } else {
        let pre = ch.subrange(0, ch.len() - 1);
        if !has_child(pre, name) {
            assert(i < ch.len() - 1 ==> pre[i] == ch[i]);
            assert(false);
        }
        lemma_has_child_first(pre, name);
        let c = child_pos(pre, name);
        assert(pre[c] == ch[c]);
        assert forall|j: int| 0 <= j < c implies #[trigger] ch[j].name != name by {
            assert(pre[j] == ch[j]);
        }
        assert(is_first_named(ch, name, c));
    }
}

/// The node reached from `n` by following `segs`, one child name at a time.
pub open spec fn lookup(n: NodeModel, segs: Seq<Seq<char>>) -> Option<NodeModel>
    decreases segs.len(),
{
    if segs.len() == 0 {
        Some(n)
    } else {
        match n.kind {
            KindModel::Directory(ch) => if has_child(ch, segs[0]) {
                lookup(ch[child_pos(ch, segs[0])], segs.drop_first())
            } else {
                None
            },
            KindModel::File(_) => None,
        }
    }
}

/// `n` with the node at `segs` replaced by `v` (`n` itself where `segs` leads nowhere).
pub open spec fn replace_at(n: NodeModel, segs: Seq<Seq<char>>, v: NodeModel) -> NodeModel
    decreases segs.len(),
{
    if segs.len() == 0 {
        v
    } else {
        match n.kind {
            KindModel::Directory(ch) => if has_child(ch, segs[0]) {
                let i = child_pos(ch, segs[0]);
                NodeModel {
                    kind: KindModel::Directory(ch.update(i, replace_at(ch[i], segs.drop_first(), v))),
                    ..n
                }
            } else {
                n
            },
            KindModel::File(_) => n,
        }
    }
}

/// A well-formed subtree: in every directory the children have valid,
/// distinct names.
pub open spec fn wf_node(n: NodeModel) -> bool
    decreases n,
{
    match n.kind {
        KindModel::File(_) => true,
        KindModel::Directory(ch) => {
            &&& names_unique(ch)
            &&& forall|i: int| 0 <= i < ch.len() ==> valid_name(#[trigger] ch[i].name)
            &&& forall|i: int| 0 <= i < ch.len() ==> wf_node(#[trigger] ch[i])
        },
    }
}

/// A replacement that keeps the replaced node's name keeps the top's name.
pub proof fn lemma_replace_name(n: NodeModel, segs: Seq<Seq<char>>, v: NodeModel)
    requires
        lookup(n, segs) is Some,
        segs.len() > 0 ==> v.name == lookup(n, segs)->0.name,
    ensures
        segs.len() > 0 ==> replace_at(n, segs, v).name == n.name,
{
    if segs.len() > 0 {
        let ch = n.kind->Directory_0;
        lemma_has_child_first(ch, segs[0]);
    }
}

/// After a replacement, the path leads to the new node.
pub proof fn lemma_lookup_replace(n: NodeModel, segs: Seq<Seq<char>>, v: NodeModel)
    requires
        lookup(n, segs) is Some,
        segs.len() > 0 ==> v.name == lookup(n, segs)->0.name,
    ensures
        lookup(replace_at(n, segs, v), segs) == Some(v),
    decreases segs.len(),
{
    if segs.len() > 0 {
        let ch = n.kind->Directory_0;
        let i = child_pos(ch, segs[0]);
        lemma_has_child_first(ch, segs[0]);
        lemma_lookup_replace(ch[i], segs.drop_first(), v);
        let ch2 = ch.update(i, replace_at(ch[i], segs.drop_first(), v));
        lemma_replace_name(ch[i], segs.drop_first(), v);
        assert(segs.drop_first().len() == 0 ==> lookup(ch[i], segs.drop_first()) == Some(ch[i]));
        assert(is_first_named(ch2, segs[0], i));
        lemma_child_pos(ch2, segs[0], i);
    }
}

/// Below a replaced node, paths lead where they lead in the new node.
pub proof fn lemma_lookup_replace_below(n: NodeModel, segs: Seq<Seq<char>>, v: NodeModel, tail: Seq<Seq<char>>)
    requires
        lookup(n, segs) is Some,
        segs.len() > 0 ==> v.name == lookup(n, segs)->0.name,
    ensures
        lookup(replace_at(n, segs, v), segs + tail) == lookup(v, tail),
    decreases segs.len(),
{
    if segs.len() == 0 {
        assert(segs + tail =~= tail);
    } else {
        let ch = n.kind->Directory_0;
        let i = child_pos(ch, segs[0]);
        lemma_has_child_first(ch, segs[0]);
        lemma_lookup_replace_below(ch[i], segs.drop_first(), v, tail);
        let ch2 = ch.update(i, replace_at(ch[i], segs.drop_first(), v));
        lemma_replace_name(ch[i], segs.drop_first(), v);
        assert(segs.drop_first().len() == 0 ==> lookup(ch[i], segs.drop_first()) == Some(ch[i]));
        assert(is_first_named(ch2, segs[0], i));
        lemma_child_pos(ch2, segs[0], i);
        assert((segs + tail)[0] == segs[0]);
        assert((segs + tail).drop_first() =~= segs.drop_first() + tail);
    }
}

/// A second replacement at the same path undoes the first.
pub proof fn lemma_replace_twice(n: NodeModel, segs: Seq<Seq<char>>, a: NodeModel, b: NodeModel)
    requires
        lookup(n, segs) is Some,
        segs.len() > 0 ==> a.name == lookup(n, segs)->0.name,
    ensures
        replace_at(replace_at(n, segs, a), segs, b) == replace_at(n, segs, b),
    decreases segs.len(),
{
    if segs.len() > 0 {
        let ch = n.kind->Directory_0;
        let i = child_pos(ch, segs[0]);
        lemma_has_child_first(ch, segs[0]);
        lemma_replace_twice(ch[i], segs.drop_first(), a, b);
        let ch2 = ch.update(i, replace_at(ch[i], segs.drop_first(), a));
        lemma_replace_name(ch[i], segs.drop_first(), a);
        assert(segs.drop_first().len() == 0 ==> lookup(ch[i], segs.drop_first()) == Some(ch[i]));
        assert(is_first_named(ch2, segs[0], i));
        lemma_child_pos(ch2, segs[0], i);
        assert(ch2.update(i, replace_at(ch2[i], segs.drop_first(), b)) =~= ch.update(i, replace_at(ch[i], segs.drop_first(), b)));
    }
}

/// Replacing a node by a well-formed node of the same name keeps the tree well formed.
pub proof fn lemma_wf_replace(n: NodeModel, segs: Seq<Seq<char>>, v: NodeModel)
    requires
        wf_node(n),
        wf_node(v),
        lookup(n, segs) is Some,
        segs.len() > 0 ==> v.name == lookup(n, segs)->0.name,
    ensures
        wf_node(replace_at(n, segs, v)),
        replace_at(n, segs, v).name == (if segs.len() == 0 { v.name } else { n.name }),
        segs.len() > 0 ==> replace_at(n, segs, v).kind is Directory,
    decreases segs.len(),
{
    if segs.len() > 0 {
        let ch = n.kind->Directory_0;
        let i = child_pos(ch, segs[0]);
        lemma_has_child_first(ch, segs[0]);
        lemma_wf_replace(ch[i], segs.drop_first(), v);
        let c = replace_at(ch[i], segs.drop_first(), v);
        assert(c.name == ch[i].name) by {
            if segs.drop_first().len() == 0 {
                assert(lookup(ch[i], segs.drop_first()) == Some(ch[i]));
            }
        }
        let ch2 = ch.update(i, c);
        assert(names_unique(ch2)) by {
            assert forall|a: int, b: int| 0 <= a < ch2.len() && 0 <= b < ch2.len() && a != b implies #[trigger] ch2[a].name != #[trigger] ch2[b].name by {
                assert(ch2[a].name == ch[a].name);
                assert(ch2[b].name == ch[b].name);
            }
        }
        assert forall|k: int| 0 <= k < ch2.len() implies valid_name(#[trigger] ch2[k].name) by {
            assert(ch2[k].name == ch[k].name);
        }
        assert forall|k: int| 0 <= k < ch2.len() implies wf_node(#[trigger] ch2[k]) by {
            if k != i {
                assert(ch2[k] == ch[k]);
            }
        }
    }
}

/// A directory whose children have valid, distinct names and are well formed is well formed.
pub proof fn lemma_wf_intro(n: NodeModel)
    requires
        n.kind is Directory,
        names_unique(n.kind->Directory_0),
        forall|i: int| 0 <= i < n.kind->Directory_0.len() ==> valid_name(#[trigger] n.kind->Directory_0[i].name),
        forall|i: int| 0 <= i < n.kind->Directory_0.len() ==> wf_node(#[trigger] n.kind->Directory_0[i]),
    ensures
        wf_node(n),
{
}

/// A directory stays well formed when a well-formed child of a fresh, valid name joins it.
pub proof fn lemma_wf_push(d: NodeModel, c: NodeModel)
    requires
        wf_node(d),
        d.kind is Directory,
        wf_node(c),
        valid_name(c.name),
        !has_child(d.kind->Directory_0, c.name),
    ensures
        wf_node(NodeModel { kind: KindModel::Directory(d.kind->Directory_0.push(c)), ..d }),
{
    let ch = d.kind->Directory_0;
    let ch2 = ch.push(c);
    assert forall|a: int, b: int| 0 <= a < ch2.len() && 0 <= b < ch2.len() && a != b implies #[trigger] ch2[a].name != #[trigger] ch2[b].name by {
        if a == ch.len() {
            assert(ch2[b] == ch[b]);
        } else if b == ch.len() {
            assert(ch2[a] == ch[a]);
        } else {
            assert(ch2[a] == ch[a] && ch2[b] == ch[b]);
        }
    }
    assert forall|k: int| 0 <= k < ch2.len() implies valid_name(#[trigger] ch2[k].name) && wf_node(ch2[k]) by {
        if k < ch.len() {
            assert(ch2[k] == ch[k]);
        }
    }
    assert(wf_node(NodeModel { kind: KindModel::Directory(ch2), ..d }));
}

/// A directory stays well formed when one of its children leaves it.
pub proof fn lemma_wf_remove(d: NodeModel, k: int)
    requires
        wf_node(d),
        d.kind is Directory,
        0 <= k < d.kind->Directory_0.len(),
    ensures
        wf_node(NodeModel { kind: KindModel::Directory(d.kind->Directory_0.remove(k)), ..d }),
{
    let ch = d.kind->Directory_0;
    let ch2 = ch.remove(k);
    assert forall|a: int| 0 <= a < ch2.len() implies #[trigger] ch2[a] == ch[if a < k { a } else { a + 1 }] by {}
    assert forall|a: int, b: int| 0 <= a < ch2.len() && 0 <= b < ch2.len() && a != b implies #[trigger] ch2[a].name != #[trigger] ch2[b].name by {
        assert(ch2[a] == ch[if a < k { a } else { a + 1 }]);
        assert(ch2[b] == ch[if b < k { b } else { b + 1 }]);
    }
    assert forall|a: int| 0 <= a < ch2.len() implies valid_name(#[trigger] ch2[a].name) && wf_node(ch2[a]) by {
        assert(ch2[a] == ch[if a < k { a } else { a + 1 }]);
    }
    assert(wf_node(NodeModel { kind: KindModel::Directory(ch2), ..d }));
}

/// Following `a` then `b` is following `a + b`.
pub proof fn lemma_lookup_concat(n: NodeModel, a: Seq<Seq<char>>, b: Seq<Seq<char>>)
    ensures
        lookup(n, a + b) == (match lookup(n, a) {
            None => None,
            Some(m) => lookup(m, b),
        }),
    decreases a.len(),
{
    if a.len() == 0 {
        assert(a + b =~= b);
    } else {
        assert((a + b)[0] == a[0]);
        assert((a + b).drop_first() =~= a.drop_first() + b);
        if let KindModel::Directory(ch) = n.kind {
            if has_child(ch, a[0]) {
                lemma_lookup_concat(ch[child_pos(ch, a[0])], a.drop_first(), b);
            }
        }
    }
}

/// The last step of a path: the node at `s` is the child named `s.last()` of
/// the directory at `s.drop_last()`.
pub proof fn lemma_lookup_last(n: NodeModel, s: Seq<Seq<char>>)
    requires
        s.len() > 0,
        lookup(n, s) is Some,
    ensures
        lookup(n, s.drop_last()) is Some,
        lookup(n, s.drop_last())->0.kind is Directory,
        has_child(lookup(n, s.drop_last())->0.kind->Directory_0, s.last()),
        lookup(n, s) == Some(lookup(n, s.drop_last())->0.kind->Directory_0[child_pos(lookup(n, s.drop_last())->0.kind->Directory_0, s.last())]),
{
    lemma_lookup_concat(n, s.drop_last(), seq![s.last()]);
    assert(s.drop_last() + seq![s.last()] =~= s);
    let d = lookup(n, s.drop_last())->0;
    assert(seq![s.last()][0] == s.last());
    assert(seq![s.last()].drop_first() =~= Seq::<Seq<char>>::empty());
    let ch = d.kind->Directory_0;
    assert(lookup(ch[child_pos(ch, s.last())], Seq::<Seq<char>>::empty()) == Some(ch[child_pos(ch, s.last())]));
}

/// Every subtree of a well-formed tree is well formed.
pub proof fn lemma_wf_lookup(n: NodeModel, s: Seq<Seq<char>>)
    requires
        wf_node(n),
        lookup(n, s) is Some,
    ensures
        wf_node(lookup(n, s)->0),
    decreases s.len(),
{
    if s.len() > 0 {
        let ch = n.kind->Directory_0;
        lemma_has_child_first(ch, s[0]);
        lemma_wf_lookup(ch[child_pos(ch, s[0])], s.drop_first());
    }
}

/// A directory stays well formed when a child takes a valid name that no other child has.
pub proof fn lemma_wf_rename(d: NodeModel, k: int, name: Seq<char>, t: u64)
    requires
        wf_node(d),
        d.kind is Directory,
        0 <= k < d.kind->Directory_0.len(),
        valid_name(name),
        name == d.kind->Directory_0[k].name || !has_child(d.kind->Directory_0, name),
    ensures
        wf_node(NodeModel {
            kind: KindModel::Directory(d.kind->Directory_0.update(k, NodeModel { name, last_modified: t, ..d.kind->Directory_0[k] })),
            ..d
        }),
{
    let ch = d.kind->Directory_0;
    let c = NodeModel { name, last_modified: t, ..ch[k] };
    let ch2 = ch.update(k, c);
    assert(wf_node(c)) by {
        assert(wf_node(ch[k]));
    }
    assert forall|a: int, b: int| 0 <= a < ch2.len() && 0 <= b < ch2.len() && a != b implies #[trigger] ch2[a].name != #[trigger] ch2[b].name by {
        if a == k {
            assert(ch2[b] == ch[b]);
        } else if b == k {
            assert(ch2[a] == ch[a]);
        } else {
            assert(ch2[a] == ch[a] && ch2[b] == ch[b]);
        }
    }
    assert forall|a: int| 0 <= a < ch2.len() implies valid_name(#[trigger] ch2[a].name) && wf_node(ch2[a]) by {
        if a != k {
            assert(ch2[a] == ch[a]);
        }
    }
    assert(wf_node(NodeModel { kind: KindModel::Directory(ch2), ..d }));
}

/// The bytes held in the files of a subtree.
pub open spec fn tree_size(n: NodeModel) -> int
    decreases n,
{
    match n.kind {
        KindModel::File(c) => c.len() as int,
        KindModel::Directory(ch) => forest_size(ch),
    }
}

/// The bytes held in the files of the subtrees `ch`.
pub open spec fn forest_size(ch: Seq<NodeModel>) -> int
    decreases ch,
{
    if ch.len() == 0 {
        0
    } else {
        forest_size(ch.subrange(0, ch.len() - 1)) + tree_size(ch[ch.len() - 1])
    }
}

/// `u` may read every node of the subtree `n`.
pub open spec fn readable_tree(n: NodeModel, u: UserView) -> bool
    decreases n,
{
    &&& grants(n.permissions, u, READ_BIT)
    &&& match n.kind {
        KindModel::File(_) => true,
        KindModel::Directory(ch) => forall|i: int| 0 <= i < ch.len() ==> readable_tree(#[trigger] ch[i], u),
    }
}

proof fn lemma_forest_size_nonneg(ch: Seq<NodeModel>)
    ensures
        forest_size(ch) >= 0,
    decreases ch,
{
    if ch.len() > 0 {
        lemma_forest_size_nonneg(ch.subrange(0, ch.len() - 1));
        lemma_tree_size_nonneg(ch[ch.len() - 1]);
    }
}

/// A forest weighs at least as much as any prefix of it.
proof fn lemma_forest_size_upper(ch: Seq<NodeModel>, k: int)
    requires
        0 <= k <= ch.len(),
    ensures
        forest_size(ch) >= forest_size(ch.subrange(0, k)),
    decreases ch.len(),
{
    if k < ch.len() {
        let pre = ch.subrange(0, ch.len() - 1);
        lemma_forest_size_upper(pre, k);
        assert(pre.subrange(0, k) =~= ch.subrange(0, k));
        lemma_tree_size_nonneg(ch[ch.len() - 1]);
    } else {
        assert(ch.subrange(0, k) =~= ch);
    }
}

proof fn lemma_tree_size_nonneg(n: NodeModel)
    ensures
        tree_size(n) >= 0,
    decreases n,
{
    if let KindModel::Directory(ch) = n.kind {
        lemma_forest_size_nonneg(ch);
    }
}

/// The model of the stand-in named `name`.
pub open spec fn placeholder_model(name: Seq<char>) -> NodeModel {
    NodeModel { name, last_modified: 0, kind: KindModel::File(Seq::empty()), permissions: public_view() }
}

/// The models of the path segments held as strings.
pub open spec fn segs_view(segs: Seq<String>) -> Seq<Seq<char>> {
    segs.map_values(|s: String| s@)
}


impl VfsNode {
    /// An empty file named `name`, public, stamped with the current time.
    pub fn new(name: String) -> (r: VfsNode)
        ensures
            r@.name == name@,
            r@.kind == KindModel::File(Seq::empty()),
            r@.permissions == public_view(),
    {
        let t = now_secs();
        VfsNode::new_file(name, Vec::new(), t, Permissions::public_perms())
    }

    /// A file node with the given parts.
    pub fn new_file(name: String, contents: Vec<u8>, last_modified: u64, permissions: Permissions) -> (r: VfsNode)
        ensures
            r@ == (NodeModel { name: name@, last_modified, kind: KindModel::File(contents@), permissions: permissions@ }),
    {
        VfsNode { name, last_modified, kind: NodeKind::File(contents), permissions }
    }

    /// An empty directory node with the given parts.
    pub fn new_directory(name: String, last_modified: u64, permissions: Permissions) -> (r: VfsNode)
        ensures
            r@ == (NodeModel { name: name@, last_modified, kind: KindModel::Directory(Seq::empty()), permissions: permissions@ }),
    {
        let r = VfsNode { name, last_modified, kind: NodeKind::Directory(Vec::new()), permissions };
        assert(children_view(Seq::<VfsNode>::empty()) =~= Seq::<NodeModel>::empty());
        r
    }

    pub fn name(&self) -> (r: &str)
        ensures
            r@ == self@.name,
    {
        self.name.as_str()
    }

    /// Seconds since the epoch at the last change of this node's contents or metadata.
    pub fn last_modified(&self) -> (r: u64)
        ensures
            r == self@.last_modified,
    {
        self.last_modified
    }

    pub fn permissions(&self) -> (r: &Permissions)
        ensures
            r@ == self@.permissions,
    {
        &self.permissions
    }

    pub fn is_directory(&self) -> (r: bool)
        ensures
            r == self@.kind is Directory,
    {
        match &self.kind {
            NodeKind::Directory(_) => true,
            NodeKind::File(_) => false,
        }
    }

    /// A file's bytes; `None` for a directory.
    pub fn contents(&self) -> (r: Option<&Vec<u8>>)
        ensures
            r matches Some(c) ==> self@.kind == KindModel::File(c@),
            r is None ==> self@.kind is Directory,
    {
        match &self.kind {
            NodeKind::File(c) => Some(c),
            NodeKind::Directory(_) => None,
        }
    }

    /// The names of a directory's children, in order; empty for a file.
    pub fn child_names(&self) -> (r: Vec<String>)
        ensures
            self@.kind matches KindModel::Directory(ch) ==> segs_view(r@) == ch.map_values(|c: NodeModel| c.name),
            self@.kind is File ==> r@.len() == 0,
    {
        let mut r: Vec<String> = Vec::new();
        match &self.kind {
            NodeKind::File(_) => {},
            NodeKind::Directory(children) => {
                proof {
                    lemma_children_view(children@);
                }
                let ghost cv = children_view(children@);
                let mut k: usize = 0;
                while k < children.len()
                    invariant
                        0 <= k <= children.len(),
                        cv.len() == children.len(),
                        forall|j: int| 0 <= j < children.len() ==> #[trigger] cv[j] == children@[j]@,
                        r@.len() == k,
                        forall|j: int| 0 <= j < k ==> #[trigger] r@[j]@ == cv[j].name,
                    decreases children.len() - k,
                {
                    r.push(children[k].name.clone());
                    k += 1;
                }
                assert(segs_view(r@) =~= cv.map_values(|c: NodeModel| c.name));
            },
        }
        r
    }

    /// The child named `name` of a directory.
    pub fn get_child(&self, name: &str) -> (r: Option<&VfsNode>)
        ensures
            r matches Some(c) ==> lookup(self@, seq![name@]) == Some(c@),
            r is None ==> lookup(self@, seq![name@]) is None,
    {
        let key = name.to_string();
        let segs = vec![key];
        assert(segs_view(segs@).subrange(0, 1) =~= seq![name@]);
        find_node(self, &segs, 0)
    }

    /// The position among a directory's children of the one named `name`.
    pub(crate) fn index_of_child(&self, name: &String) -> (r: Option<usize>)
        requires
            self@.kind is Directory,
        ensures
            r matches Some(k) ==> is_first_named(self@.kind->Directory_0, name@, k as int),
            r is None ==> !has_child(self@.kind->Directory_0, name@),
    {
        match &self.kind {
            NodeKind::Directory(children) => child_index(children, name),
            NodeKind::File(_) => None,
        }
    }

    /// A directory with a child named `name`.
    pub(crate) fn has_child_named(&self, name: &String) -> (r: bool)
        ensures
            r == (self@.kind is Directory && has_child(self@.kind->Directory_0, name@)),
    {
        match &self.kind {
            NodeKind::Directory(children) => child_index(children, name).is_some(),
            NodeKind::File(_) => false,
        }
    }

    /// In every directory of this subtree the children have valid, distinct names.
    pub fn is_well_formed(&self) -> (r: bool)
        ensures
            r == wf_node(self@),
        decreases self,
    {
        proof {
            lemma_model(self);
        }
        match &self.kind {
            NodeKind::File(_) => true,
            NodeKind::Directory(children) => {
                proof {
                    lemma_children_view(children@);
                }
                let ghost cv = children_view(children@);
                assert(self@.kind == KindModel::Directory(cv));
                let mut k: usize = 0;
                while k < children.len()
                    invariant
                        0 <= k <= children.len(),
                        self.kind == NodeKind::Directory(*children),
                        self@.kind == KindModel::Directory(cv),
                        cv == children_view(children@),
                        cv.len() == children.len(),
                        forall|j: int| 0 <= j < children.len() ==> #[trigger] cv[j] == children@[j]@,
                        forall|j: int| 0 <= j < k ==> valid_name(#[trigger] cv[j].name) && wf_node(cv[j]),
                        forall|a: int, b: int| 0 <= a < k && 0 <= b < k && a != b ==> #[trigger] cv[a].name != #[trigger] cv[b].name,
                    decreases children.len() - k,
                {
                    proof {
                        assert(decreases_to!(*children => children@));
                        assert(decreases_to!(children@ => children@[k as int]));
                        assert(self.kind->Directory_0 == *children);
                        assert(decreases_to!(self.kind => self.kind->Directory_0));
                        assert(decreases_to!(*self => self.kind));
                        assert(decreases_to!(self => children@[k as int]));
                    }
                    let child = &children[k];
                    if !is_valid_name(child.name.as_str()) || !child.is_well_formed() {
                        assert(!wf_node(self@)) by {
                            assert(!valid_name(cv[k as int].name) || !wf_node(cv[k as int]));
                        }
                        return false;
                    }
                    let mut j: usize = 0;
                    while j < k
                        invariant
                            0 <= j <= k < children.len(),
                            self.kind == NodeKind::Directory(*children),
                            self@.kind == KindModel::Directory(cv),
                            cv.len() == children.len(),
                            forall|i: int| 0 <= i < children.len() ==> #[trigger] cv[i] == children@[i]@,
                            forall|i: int| 0 <= i <= k ==> valid_name(#[trigger] cv[i].name) && wf_node(cv[i]),
                            forall|a: int, b: int| 0 <= a < k && 0 <= b < k && a != b ==> #[trigger] cv[a].name != #[trigger] cv[b].name,
                            forall|i: int| 0 <= i < j ==> #[trigger] cv[i].name != cv[k as int].name,
                        decreases k - j,
                    {
                        if children[j].name == children[k].name {
                            assert(!wf_node(self@)) by {
                                assert(self@.kind == KindModel::Directory(cv));
                                assert(cv[j as int].name == cv[k as int].name);
                            }
                            return false;
                        }
                        j += 1;
                    }
                    assert forall|a: int, b: int| 0 <= a < k + 1 && 0 <= b < k + 1 && a != b implies #[trigger] cv[a].name != #[trigger] cv[b].name by {
                        if a == k {
                            assert(cv[b].name != cv[k as int].name);
                        } else if b == k {
                            assert(cv[a].name != cv[k as int].name);
                        }
                    }
                    k += 1;
                }
                assert(k == cv.len());
                assert forall|i: int| 0 <= i < cv.len() implies #[trigger] wf_node(cv[i]) by {
                    assert(valid_name(cv[i].name));
                }
                assert forall|i: int| 0 <= i < cv.len() implies valid_name(#[trigger] cv[i].name) by {}
                assert(names_unique(cv));
                let ghost m = self@;
                assert(m.kind == KindModel::Directory(cv));
                proof {
                    lemma_wf_intro(m);
                }
                true
            },
        }
    }

    /// `user` may read every node of this subtree.
    pub fn readable_by(&self, user: &User) -> (r: bool)
        ensures
            r == readable_tree(self@, user@),
        decreases self,
    {
        if !self.permissions.grants(user, READ_BIT) {
            return false;
        }
        match &self.kind {
            NodeKind::File(_) => true,
            NodeKind::Directory(children) => {
                proof {
                    lemma_children_view(children@);
                }
                let ghost cv = children_view(children@);
                let mut k: usize = 0;
                while k < children.len()
                    invariant
                        0 <= k <= children.len(),
                        self.kind == NodeKind::Directory(*children),
                        cv == children_view(children@),
                        cv.len() == children.len(),
                        forall|j: int| 0 <= j < children.len() ==> #[trigger] cv[j] == children@[j]@,
                        forall|j: int| 0 <= j < k ==> readable_tree(#[trigger] cv[j], user@),
                    decreases children.len() - k,
                {
                    proof {
                        assert(decreases_to!(*children => children@));
                        assert(decreases_to!(children@ => children@[k as int]));
                        assert(self.kind->Directory_0 == *children);
                        assert(decreases_to!(self.kind => self.kind->Directory_0));
                        assert(decreases_to!(*self => self.kind));
                        assert(decreases_to!(self => children@[k as int]));
                    }
                    if !children[k].readable_by(user) {
                        assert(self@.kind == KindModel::Directory(cv));
                        assert(!readable_tree(cv[k as int], user@));
                        assert(!readable_tree(self@, user@)) by {
                            let ch = self@.kind->Directory_0;
                            assert(ch == cv);
                            assert(0 <= k < ch.len() && !readable_tree(ch[k as int], user@));
                        }
                        return false;
                    }
                    k += 1;
                }
                assert(self@.kind == KindModel::Directory(cv));
                true
            },
        }
    }

    /// The bytes held in the files of this subtree; `None` where that does not fit in `usize`.
    pub fn size(&self) -> (r: Option<usize>)
        ensures
            r matches Some(x) ==> x == tree_size(self@),
            r is None ==> tree_size(self@) > usize::MAX,
        decreases self,
    {
        match &self.kind {
            NodeKind::File(c) => Some(c.len()),
            NodeKind::Directory(children) => {
                proof {
                    lemma_children_view(children@);
                }
                let ghost cv = children_view(children@);
                let mut total: usize = 0;
                let mut k: usize = 0;
                while k < children.len()
                    invariant
                        0 <= k <= children.len(),
                        self.kind == NodeKind::Directory(*children),
                        cv == children_view(children@),
                        cv.len() == children.len(),
                        forall|j: int| 0 <= j < children.len() ==> #[trigger] cv[j] == children@[j]@,
                        total == forest_size(cv.subrange(0, k as int)),
                    decreases children.len() - k,
                {
                    proof {
                        assert(decreases_to!(*children => children@));
                        assert(decreases_to!(children@ => children@[k as int]));
                        assert(self.kind->Directory_0 == *children);
                        assert(decreases_to!(self.kind => self.kind->Directory_0));
                        assert(decreases_to!(*self => self.kind));
                        assert(decreases_to!(self => children@[k as int]));
                    }
                    assert(cv.subrange(0, k + 1).subrange(0, k as int) =~= cv.subrange(0, k as int));
                    assert(cv.subrange(0, k + 1)[k as int] == cv[k as int]);
                    match children[k].size() {
                        None => {
                            proof {
                                lemma_forest_size_nonneg(cv.subrange(0, k as int));
                                lemma_forest_size_upper(cv, k as int + 1);
                            }
                            return None;
                        },
                        Some(x) => {
                            if x > usize::MAX - total {
                                proof {
                                    lemma_forest_size_upper(cv, k as int + 1);
                                }
                                return None;
                            }
                            total = total + x;
                        },
                    }
                    k += 1;
                }
                assert(cv.subrange(0, k as int) =~= cv);
                Some(total)
            },
        }
    }

    /// A stand-in that occupies a node's place while the node is being changed.
    pub(crate) fn placeholder(name: String) -> (r: VfsNode)
        ensures
            r@ == placeholder_model(name@),
            wf_node(r@),
    {
        VfsNode::new_file(name, Vec::new(), 0, Permissions::public_perms())
    }

    /// A directory with `c` added as its last child.
    pub(crate) fn add_child(&mut self, c: VfsNode)
        requires
            old(self)@.kind is Directory,
        ensures
            final(self)@ == (NodeModel { kind: KindModel::Directory(old(self)@.kind->Directory_0.push(c@)), ..old(self)@ }),
    {
        match &mut self.kind {
            NodeKind::Directory(children) => {
                let ghost before = children@;
                children.push(c);
                proof {
                    assert(children@.subrange(0, children@.len() - 1) =~= before);
                }
            },
            NodeKind::File(_) => {},
        }
    }

    /// A directory without its child at `k`, which is handed back.
    pub(crate) fn remove_child(&mut self, k: usize) -> (r: VfsNode)
        requires
            old(self)@.kind is Directory,
            k < old(self)@.kind->Directory_0.len(),
        ensures
            final(self)@ == (NodeModel { kind: KindModel::Directory(old(self)@.kind->Directory_0.remove(k as int)), ..old(self)@ }),
            r@ == old(self)@.kind->Directory_0[k as int],
    {
        match &mut self.kind {
            NodeKind::Directory(children) => {
                proof {
                    lemma_children_view(children@);
                }
                let ghost before = children_view(children@);
                let r = children.remove(k);
                proof {
                    lemma_children_view_ext(children@, before.remove(k as int));
                }
                r
            },
            NodeKind::File(_) => VfsNode::placeholder(String::new()),
        }
    }

    /// A directory whose child at `k` is renamed to `name`.
    pub(crate) fn rename_child(&mut self, k: usize, name: String, last_modified: u64)
        requires
            old(self)@.kind is Directory,
            k < old(self)@.kind->Directory_0.len(),
        ensures
            final(self)@ == (NodeModel {
                kind: KindModel::Directory(old(self)@.kind->Directory_0.update(k as int, NodeModel {
                    name: name@,
                    last_modified,
                    ..old(self)@.kind->Directory_0[k as int]
                })),
                ..old(self)@
            }),
    {
        match &mut self.kind {
            NodeKind::Directory(children) => {
                proof {
                    lemma_children_view(children@);
                }
                let ghost before = children_view(children@);
                let child = &mut children[k];
                child.name = name;
                child.last_modified = last_modified;
                proof {
                    lemma_children_view_ext(children@, before.update(k as int, children@[k as int]@));
                }
            },
            NodeKind::File(_) => {},
        }
    }

    /// A file whose bytes are now `contents`, changed at `last_modified`.
    pub(crate) fn set_contents(&mut self, contents: Vec<u8>, last_modified: u64)
        ensures
            final(self)@ == (NodeModel { kind: KindModel::File(contents@), last_modified, ..old(self)@ }),
    {
        self.kind = NodeKind::File(contents);
        self.last_modified = last_modified;
    }

    /// This node with new permissions, changed at `last_modified`.
    pub(crate) fn set_permissions(&mut self, permissions: Permissions, last_modified: u64)
        ensures
            final(self)@ == (NodeModel { permissions: permissions@, last_modified, ..old(self)@ }),
    {
        self.permissions = permissions;
        self.last_modified = last_modified;
    }
}

/// The position of the first of `children` named `name`, if any.
pub fn child_index(children: &Vec<VfsNode>, name: &String) -> (r: Option<usize>)
    ensures
        r matches Some(k) ==> is_first_named(children_view(children@), name@, k as int),
        r is None ==> !has_child(children_view(children@), name@),
{
    proof {
        lemma_children_view(children@);
    }
    let mut k: usize = 0;
    while k < children.len()
        invariant
            0 <= k <= children.len(),
            children_view(children@).len() == children@.len(),
            forall|j: int| 0 <= j < children.len() ==> #[trigger] children_view(children@)[j] == children@[j]@,
            forall|j: int| 0 <= j < k ==> #[trigger] children_view(children@)[j].name != name@,
        decreases children.len() - k,
    {
        if children[k].name == *name {
            assert(children_view(children@)[k as int] == children@[k as int]@);
            return Some(k);
        }
        assert(children_view(children@)[k as int] == children@[k as int]@);
        k += 1;
    }
    None
}

/// The node reached from `node` by following `segs[i..]`.
pub fn find_node<'a>(node: &'a VfsNode, segs: &Vec<String>, i: usize) -> (r: Option<&'a VfsNode>)
    requires
        i <= segs.len(),
    ensures
        r matches Some(n) ==> lookup(node@, segs_view(segs@).subrange(i as int, segs.len() as int)) == Some(n@),
        r is None ==> lookup(node@, segs_view(segs@).subrange(i as int, segs.len() as int)) is None,
    decreases segs.len() - i,
{
    let ghost rest = segs_view(segs@).subrange(i as int, segs.len() as int);
    if i == segs.len() {
        assert(rest.len() == 0);
        return Some(node);
    }
    assert(rest[0] == segs@[i as int]@);
    assert(rest.drop_first() =~= segs_view(segs@).subrange(i + 1, segs.len() as int));
    match &node.kind {
        NodeKind::File(_) => None,
        NodeKind::Directory(children) => {
            match child_index(children, &segs[i]) {
                None => None,
                Some(k) => {
                    proof {
                        lemma_children_view(children@);
                        lemma_child_pos(children_view(children@), rest[0], k as int);
                    }
                    find_node(&children[k], segs, i + 1)
                },
            }
        },
    }
}

/// Puts `v` where `segs[i..]` leads from `node`, and hands back what stood there.
pub fn swap_at(node: &mut VfsNode, segs: &Vec<String>, i: usize, v: VfsNode) -> (r: VfsNode)
    requires
        i <= segs.len(),
        lookup(old(node)@, segs_view(segs@).subrange(i as int, segs.len() as int)) is Some,
    ensures
        Some(r@) == lookup(old(node)@, segs_view(segs@).subrange(i as int, segs.len() as int)),
        final(node)@ == replace_at(old(node)@, segs_view(segs@).subrange(i as int, segs.len() as int), v@),
    decreases segs.len() - i,
{
    let ghost rest = segs_view(segs@).subrange(i as int, segs.len() as int);
    let ghost old_model = node@;
    if i == segs.len() {
        assert(rest.len() == 0);
        let mut v = v;
        std::mem::swap(node, &mut v);
        return v;
    }
    assert(rest[0] == segs@[i as int]@);
    assert(rest.drop_first() =~= segs_view(segs@).subrange(i + 1, segs.len() as int));
    match &mut node.kind {
        NodeKind::File(_) => v,
        NodeKind::Directory(children) => {
            proof {
                lemma_children_view(children@);
            }
            match child_index(children, &segs[i]) {
                None => v,
                Some(k) => {
                    proof {
                        lemma_child_pos(children_view(children@), rest[0], k as int);
                    }
                    let ghost old_children = children@;
                    let r = swap_at(&mut children[k], segs, i + 1, v);
                    proof {
                        lemma_children_view(children@);
                        lemma_children_view_ext(
                            children@,
                            children_view(old_children).update(k as int, children@[k as int]@),
                        );
                    }
                    r
                },
            }
        },
    }
}

} // verus!
