//! The file-system facade: path-addressed operations checked against the
//! caller's permissions, the advisory lock registry, and the identity registry.
//!
//! Every operation leaves the file system unchanged when it fails.

use vstd::prelude::*;
use crate::clock::now_secs;
use crate::codec::{decode, decode_tree, enc_node, encodable, lemma_round_trip, put_node};
use crate::node::{
    readable_tree, tree_size, is_first_named, lemma_child_pos,
    find_node, has_child, lemma_lookup_last, lemma_lookup_replace, lemma_replace_twice, lemma_wf_lookup,
    lemma_wf_push, lemma_wf_remove, lemma_wf_rename, lemma_wf_replace, lookup, placeholder_model, replace_at,
    segs_view, swap_at, valid_name, wf_node, child_pos, KindModel, NodeModel, VfsNode,
};
use crate::path::{
    is_root_path, is_valid_name, lemma_segments_empty, lemma_segments_valid, parse_path, path_segments,
    valid_path,
};
use crate::perms::{
    grants, public_view, Group, GroupView, Permissions, PermissionsView, User, UserView, READ_BIT, WRITE_BIT,
};

verus! {

/// Why an operation failed.
#[derive(Debug, Clone, Copy, PartialEq, Eq, Structural)]
pub enum VfsError {
    /// The path is malformed, or leads nowhere.
    InvalidPath,
    /// The path resolves, but the caller lacks the required bit.
    PermissionDenied,
    /// The request makes no sense for what the path leads to.
    InvalidOperation,
    /// The path is in the advisory lock registry.
    FileLocked,
}

/// The model of a file system.
pub struct VfsView {
    pub root: NodeModel,
    pub locked: Set<Seq<char>>,
    pub users: Seq<UserView>,
    pub groups: Seq<GroupView>,
}

/// A virtual file system: a tree of nodes under a root directory, the set of
/// locked paths, and the registered users and groups.
#[derive(Debug)]
pub struct VFS {
    root: VfsNode,
    locked_files: Vec<String>,
    users: Vec<User>,
    groups: Vec<Group>,
}

impl View for VFS {
    type V = VfsView;

    closed spec fn view(&self) -> VfsView {
        VfsView {
            root: self.root@,
            locked: Set::new(|p: Seq<char>| exists|i: int| 0 <= i < self.locked_files@.len() && #[trigger] self.locked_files@[i]@ == p),
            users: self.users@.map_values(|u: User| u@),
            groups: self.groups@.map_values(|g: Group| g@),
        }
    }
}

/// The model of a well-formed file system: a well-formed tree under a root
/// directory, and users and groups with distinct names.
pub open spec fn wf_view(v: VfsView) -> bool {
    &&& wf_node(v.root)
    &&& v.root.kind is Directory
    &&& forall|i: int, j: int| 0 <= i < v.users.len() && 0 <= j < v.users.len() && i != j ==> #[trigger] v.users[i].name != #[trigger] v.users[j].name
    &&& forall|i: int, j: int| 0 <= i < v.groups.len() && 0 <= j < v.groups.len() && i != j ==> #[trigger] v.groups[i].name != #[trigger] v.groups[j].name
}

/// The node `p` leads to, if `u` holds `bit` on it.
pub open spec fn resolve(v: VfsView, p: Seq<char>, u: UserView, bit: u8) -> Result<NodeModel, VfsError> {
    if !valid_path(p) {
        Err(VfsError::InvalidPath)
    } else {
        match lookup(v.root, path_segments(p)) {
            None => Err(VfsError::InvalidPath),
            Some(n) => if grants(n.permissions, u, bit) {
                Ok(n)
            } else {
                Err(VfsError::PermissionDenied)
            },
        }
    }
}

/// What `read_file` returns.
pub open spec fn read_spec(v: VfsView, p: Seq<char>, u: UserView) -> Result<Seq<u8>, VfsError> {
    match resolve(v, p, u, READ_BIT) {
        Err(e) => Err(e),
        Ok(n) => match n.kind {
            KindModel::File(c) => Ok(c),
            KindModel::Directory(_) => Err(VfsError::InvalidOperation),
        },
    }
}

/// What `write_file` returns, and the file system after it, with `t` the time of the write.
pub open spec fn write_spec(v: VfsView, p: Seq<char>, c: Seq<u8>, u: UserView, t: u64) -> (Result<(), VfsError>, VfsView) {
    if v.locked.contains(p) {
        (Err(VfsError::FileLocked), v)
    } else {
        match resolve(v, p, u, WRITE_BIT) {
            Err(e) => (Err(e), v),
            Ok(n) => if n.kind is Directory {
                (Err(VfsError::InvalidOperation), v)
            } else {
                (Ok(()), VfsView {
                    root: replace_at(v.root, path_segments(p), NodeModel { kind: KindModel::File(c), last_modified: t, ..n }),
                    ..v
                })
            },
        }
    }
}

/// The parent directory's path and the new entry's name.
pub open spec fn split_last(p: Seq<char>) -> (Seq<Seq<char>>, Seq<char>) {
    (path_segments(p).drop_last(), path_segments(p).last())
}

/// Whether a new entry can go at `p`: `Ok` with its parent directory if so.
pub open spec fn creation_site(v: VfsView, p: Seq<char>) -> Result<NodeModel, VfsError> {
    if !valid_path(p) || is_root_path(p) {
        Err(VfsError::InvalidPath)
    } else {
        match lookup(v.root, split_last(p).0) {
            None => Err(VfsError::InvalidPath),
            Some(d) => match d.kind {
                KindModel::File(_) => Err(VfsError::InvalidPath),
                KindModel::Directory(ch) => if has_child(ch, split_last(p).1) {
                    Err(VfsError::InvalidOperation)
                } else {
                    Ok(d)
                },
            },
        }
    }
}

/// The file system with `n` added under the directory `d` at `parent`.
pub open spec fn with_child(v: VfsView, parent: Seq<Seq<char>>, d: NodeModel, n: NodeModel) -> VfsView {
    VfsView {
        root: replace_at(v.root, parent, NodeModel { kind: KindModel::Directory(d.kind->Directory_0.push(n)), ..d }),
        ..v
    }
}

/// What `create_file` (`dir` false) or `create_directory` (`dir` true)
/// returns, and the file system after it, with `t` the time of creation.
pub open spec fn create_spec(v: VfsView, p: Seq<char>, perms: PermissionsView, dir: bool, t: u64) -> (Result<(), VfsError>, VfsView) {
    match creation_site(v, p) {
        Err(e) => (Err(e), v),
        Ok(d) => {
            let kind = if dir { KindModel::Directory(Seq::empty()) } else { KindModel::File(Seq::empty()) };
            let n = NodeModel { name: split_last(p).1, last_modified: t, kind, permissions: perms };
            (Ok(()), with_child(v, split_last(p).0, d, n))
        },
    }
}

/// What `copy_file` returns, and the file system after it, with `t` the time of the copy.
pub open spec fn copy_spec(v: VfsView, src: Seq<char>, dst: Seq<char>, u: UserView, t: u64) -> (Result<(), VfsError>, VfsView) {
    match resolve(v, src, u, READ_BIT) {
        Err(e) => (Err(e), v),
        Ok(n) => if n.kind is Directory {
            (Err(VfsError::InvalidOperation), v)
        } else {
            match creation_site(v, dst) {
                Err(e) => (Err(e), v),
                Ok(d) => {
                    let c = NodeModel { name: split_last(dst).1, last_modified: t, kind: n.kind, permissions: n.permissions };
                    (Ok(()), with_child(v, split_last(dst).0, d, c))
                },
            }
        },
    }
}

/// The directory holding the entry at the valid, non-root path `p`.
pub open spec fn parent_of(v: VfsView, p: Seq<char>) -> NodeModel {
    lookup(v.root, split_last(p).0)->0
}

/// The position of the entry at `p` among its parent's children.
pub open spec fn pos_in_parent(v: VfsView, p: Seq<char>) -> int {
    child_pos(parent_of(v, p).kind->Directory_0, split_last(p).1)
}

/// What `delete` returns, and the file system after it.
pub open spec fn delete_spec(v: VfsView, p: Seq<char>, u: UserView) -> (Result<NodeModel, VfsError>, VfsView) {
    if is_root_path(p) {
        (Err(VfsError::InvalidOperation), v)
    } else {
        match resolve(v, p, u, WRITE_BIT) {
            Err(e) => (Err(e), v),
            Ok(n) => {
                let d = parent_of(v, p);
                if !grants(d.permissions, u, WRITE_BIT) {
                    (Err(VfsError::PermissionDenied), v)
                } else {
                    let ch = d.kind->Directory_0;
                    (Ok(n), VfsView {
                        root: replace_at(v.root, split_last(p).0, NodeModel { kind: KindModel::Directory(ch.remove(pos_in_parent(v, p))), ..d }),
                        ..v
                    })
                }
            },
        }
    }
}

/// What `rename_file` returns, and the file system after it, with `t` the time of the rename.
pub open spec fn rename_spec(v: VfsView, p: Seq<char>, new_name: Seq<char>, u: UserView, t: u64) -> (Result<(), VfsError>, VfsView) {
    match resolve(v, p, u, WRITE_BIT) {
        Err(e) => (Err(e), v),
        Ok(n) => if is_root_path(p) {
            (Err(VfsError::InvalidOperation), v)
        } else if !valid_name(new_name) {
            (Err(VfsError::InvalidPath), v)
        } else {
            let d = parent_of(v, p);
            let ch = d.kind->Directory_0;
            if new_name != n.name && has_child(ch, new_name) {
                (Err(VfsError::InvalidOperation), v)
            } else {
                let k = pos_in_parent(v, p);
                (Ok(()), VfsView {
                    root: replace_at(v.root, split_last(p).0, NodeModel {
                        kind: KindModel::Directory(ch.update(k, NodeModel { name: new_name, last_modified: t, ..n })),
                        ..d
                    }),
                    ..v
                })
            }
        },
    }
}

/// What `change_permissions` returns, and the file system after it, with `t` the time of the change.
pub open spec fn chmod_spec(v: VfsView, p: Seq<char>, perms: PermissionsView, u: UserView, t: u64) -> (Result<(), VfsError>, VfsView) {
    match resolve(v, p, u, WRITE_BIT) {
        Err(e) => (Err(e), v),
        Ok(n) => (Ok(()), VfsView {
            root: replace_at(v.root, path_segments(p), NodeModel { permissions: perms, last_modified: t, ..n }),
            ..v
        }),
    }
}

/// What `list_directory` returns: the children's names, in order.
pub open spec fn list_spec(v: VfsView, p: Seq<char>, u: UserView) -> Result<Seq<Seq<char>>, VfsError> {
    match resolve(v, p, u, READ_BIT) {
        Err(e) => Err(e),
        Ok(n) => match n.kind {
            KindModel::File(_) => Err(VfsError::InvalidOperation),
            KindModel::Directory(ch) => Ok(ch.map_values(|c: NodeModel| c.name)),
        },
    }
}

/// What `get_directory_size` returns: the bytes in the files of the subtree
/// at `p`, every node of which `u` must be able to read.
pub open spec fn size_spec(v: VfsView, p: Seq<char>, u: UserView) -> Result<int, VfsError> {
    match resolve(v, p, u, READ_BIT) {
        Err(e) => Err(e),
        Ok(n) => if !readable_tree(n, u) {
            Err(VfsError::PermissionDenied)
        } else if tree_size(n) > usize::MAX {
            Err(VfsError::InvalidOperation)
        } else {
            Ok(tree_size(n))
        },
    }
}

/// What `lock_file` returns, and the file system after it.
pub open spec fn lock_spec(v: VfsView, p: Seq<char>) -> (Result<(), VfsError>, VfsView) {
    if v.locked.contains(p) {
        (Err(VfsError::FileLocked), v)
    } else {
        (Ok(()), VfsView { locked: v.locked.insert(p), ..v })
    }
}

/// What `unlock_file` returns, and the file system after it.
pub open spec fn unlock_spec(v: VfsView, p: Seq<char>) -> (Result<(), VfsError>, VfsView) {
    if v.locked.contains(p) {
        (Ok(()), VfsView { locked: v.locked.remove(p), ..v })
    } else {
        (Err(VfsError::InvalidOperation), v)
    }
}

/// A user named `name` is registered.
pub open spec fn has_user(us: Seq<UserView>, name: Seq<char>) -> bool {
    exists|i: int| 0 <= i < us.len() && #[trigger] us[i].name == name
}

/// Where the user named `name` is registered.
pub open spec fn user_pos(us: Seq<UserView>, name: Seq<char>) -> int {
    choose|i: int| 0 <= i < us.len() && #[trigger] us[i].name == name
}

/// A group named `name` is registered.
pub open spec fn has_group(gs: Seq<GroupView>, name: Seq<char>) -> bool {
    exists|i: int| 0 <= i < gs.len() && #[trigger] gs[i].name == name
}

/// Where the group named `name` is registered.
pub open spec fn group_pos(gs: Seq<GroupView>, name: Seq<char>) -> int {
    choose|i: int| 0 <= i < gs.len() && #[trigger] gs[i].name == name
}

/// `u` as registered: with id 0 it takes the number of users registered before it.
pub open spec fn numbered(v: VfsView, u: UserView) -> UserView {
    if u.id != 0 {
        u
    } else {
        UserView { id: v.users.len() as u16, ..u }
    }
}

/// What `add_user` returns, and the file system after it.
pub open spec fn add_user_spec(v: VfsView, u: UserView) -> (Result<UserView, VfsError>, VfsView) {
    if has_user(v.users, u.name) {
        (Err(VfsError::InvalidOperation), v)
    } else {
        (Ok(numbered(v, u)), VfsView { users: v.users.push(numbered(v, u)), ..v })
    }
}

/// What `remove_user` returns, and the file system after it.
pub open spec fn remove_user_spec(v: VfsView, name: Seq<char>) -> (Result<(), VfsError>, VfsView) {
    if has_user(v.users, name) {
        (Ok(()), VfsView { users: v.users.remove(user_pos(v.users, name)), ..v })
    } else {
        (Err(VfsError::InvalidOperation), v)
    }
}

/// What `add_group` returns, and the file system after it.
pub open spec fn add_group_spec(v: VfsView, g: GroupView) -> (Result<(), VfsError>, VfsView) {
    if has_group(v.groups, g.name) {
        (Err(VfsError::InvalidOperation), v)
    } else {
        (Ok(()), VfsView { groups: v.groups.push(g), ..v })
    }
}

/// What `remove_group` returns, and the file system after it.
pub open spec fn remove_group_spec(v: VfsView, name: Seq<char>) -> (Result<(), VfsError>, VfsView) {
    if has_group(v.groups, name) {
        (Ok(()), VfsView { groups: v.groups.remove(group_pos(v.groups, name)), ..v })
    } else {
        (Err(VfsError::InvalidOperation), v)
    }
}

/// A file just created at `p` reads back empty to a user who owns it, when
/// the owner mask grants reading, and the path then exists for that user.
pub proof fn lemma_create_then_read(v: VfsView, p: Seq<char>, perms: PermissionsView, t: u64, owner: UserView)
    requires
        wf_view(v),
        create_spec(v, p, perms, false, t).0 is Ok,
        owner.id == perms.owner_id,
        perms.owner_perms & READ_BIT == READ_BIT,
    ensures
        read_spec(create_spec(v, p, perms, false, t).1, p, owner) == Ok::<Seq<u8>, VfsError>(Seq::empty()),
        resolve(create_spec(v, p, perms, false, t).1, p, owner, READ_BIT) is Ok,
{
    let d = creation_site(v, p)->Ok_0;
    let (parent, name) = split_last(p);
    let n = NodeModel { name, last_modified: t, kind: KindModel::File(Seq::empty()), permissions: perms };
    let ch = d.kind->Directory_0;
    let d2 = NodeModel { kind: KindModel::Directory(ch.push(n)), ..d };
    let segs = path_segments(p);
    lemma_segments_empty(p);
    assert(segs == parent + seq![name]) by {
        assert(segs =~= segs.drop_last() + seq![segs.last()]);
    }
    crate::node::lemma_lookup_replace_below(v.root, parent, d2, seq![name]);
    assert(is_first_named(ch.push(n), name, ch.len() as int)) by {
        assert forall|j: int| 0 <= j < ch.len() implies #[trigger] ch.push(n)[j].name != name by {
            assert(ch.push(n)[j] == ch[j]);
        }
    }
    lemma_child_pos(ch.push(n), name, ch.len() as int);
    assert(seq![name][0] == name);
    assert(seq![name].drop_first() =~= Seq::<Seq<char>>::empty());
    assert(lookup(ch.push(n)[ch.len() as int], Seq::<Seq<char>>::empty()) == Some(n));
    crate::perms::lemma_owner_mask_takes_precedence(perms, owner, READ_BIT);
}

/// Restoring the snapshot of a well-formed file system gives back its tree,
/// with every path, every file's bytes and every permission as they were.
pub proof fn lemma_snapshot_round_trip(v: VfsView)
    requires
        wf_view(v),
        encodable(v.root),
    ensures
        decode(enc_node(v.root)) == Some(v.root),
        decode(enc_node(v.root))->0.kind is Directory,
        wf_node(decode(enc_node(v.root))->0),
{
    lemma_round_trip(v.root);
}

/// The root cannot be deleted, whoever asks.
pub proof fn lemma_delete_root_refused(v: VfsView, p: Seq<char>, u: UserView)
    requires
        is_root_path(p),
    ensures
        delete_spec(v, p, u) == (Err::<NodeModel, VfsError>(VfsError::InvalidOperation), v),
{
}

/// Writing a locked path fails with `FileLocked` and changes nothing,
/// whatever the caller's permissions.
pub proof fn lemma_write_locked_refused(v: VfsView, p: Seq<char>, c: Seq<u8>, u: UserView, t: u64)
    requires
        v.locked.contains(p),
    ensures
        write_spec(v, p, c, u, t) == (Err::<(), VfsError>(VfsError::FileLocked), v),
{
}

impl VFS {
    /// The invariant: a well-formed model and no path locked twice.
    pub closed spec fn wf(&self) -> bool {
        &&& wf_view(self@)
        &&& forall|i: int, j: int| 0 <= i < self.locked_files@.len() && 0 <= j < self.locked_files@.len() && i != j ==> #[trigger] self.locked_files@[i]@ != #[trigger] self.locked_files@[j]@
    }

    /// An empty file system: a public root directory named `/`, no locks, users or groups.
    pub fn new() -> (r: VFS)
        ensures
            r.wf(),
            r@.root.name == "/"@,
            r@.root.kind == KindModel::Directory(Seq::empty()),
            r@.root.permissions == public_view(),
            r@.locked == Set::<Seq<char>>::empty(),
            r@.users == Seq::<UserView>::empty(),
            r@.groups == Seq::<GroupView>::empty(),
    {
        let t = now_secs();
        let r = VFS {
            root: VfsNode::new_directory("/".to_string(), t, Permissions::public_perms()),
            locked_files: Vec::new(),
            users: Vec::new(),
            groups: Vec::new(),
        };
        assert(r@.locked =~= Set::<Seq<char>>::empty());
        assert(r@.users =~= Seq::<UserView>::empty());
        assert(r@.groups =~= Seq::<GroupView>::empty());
        r
    }

    /// The root directory.
    pub fn root(&self) -> (r: &VfsNode)
        ensures
            r@ == self@.root,
    {
        &self.root
    }

    /// `path` is in the lock registry.
    fn is_locked(&self, path: &str) -> (r: bool)
        ensures
            r == self@.locked.contains(path@),
    {
        let key = path.to_string();
        let mut i: usize = 0;
        while i < self.locked_files.len()
            invariant
                0 <= i <= self.locked_files.len(),
                key@ == path@,
                forall|j: int| 0 <= j < i ==> #[trigger] self.locked_files@[j]@ != path@,
            decreases self.locked_files.len() - i,
        {
            if self.locked_files[i] == key {
                return true;
            }
            i += 1;
        }
        false
    }

    /// The node `path` leads to, whatever its permissions.
    pub fn find_node(&self, path: &str) -> (r: Result<&VfsNode, VfsError>)
        ensures
            r matches Ok(n) ==> valid_path(path@) && lookup(self@.root, path_segments(path@)) == Some(n@),
            r is Err ==> r == Err::<&VfsNode, _>(VfsError::InvalidPath) && (!valid_path(path@) || lookup(self@.root, path_segments(path@)) is None),
    {
        match parse_path(path) {
            None => Err(VfsError::InvalidPath),
            Some(segs) => {
                assert(segs_view(segs@).subrange(0, segs.len() as int) =~= segs_view(segs@));
                match find_node(&self.root, &segs, 0) {
                    None => Err(VfsError::InvalidPath),
                    Some(n) => Ok(n),
                }
            },
        }
    }

    /// The segments of `path` and the node they lead to, where `user` holds `bit` on it.
    fn validate_path(&self, path: &str, user: &User, bit: u8) -> (r: Result<(Vec<String>, &VfsNode), VfsError>)
        ensures
            r matches Ok((segs, n)) ==> resolve(self@, path@, user@, bit) == Ok::<NodeModel, VfsError>(n@)
                && segs_view(segs@) == path_segments(path@),
            r matches Err(e) ==> resolve(self@, path@, user@, bit) == Err::<NodeModel, VfsError>(e),
    {
        match parse_path(path) {
            None => Err(VfsError::InvalidPath),
            Some(segs) => {
                assert(segs_view(segs@).subrange(0, segs.len() as int) =~= segs_view(segs@));
                match find_node(&self.root, &segs, 0) {
                    None => Err(VfsError::InvalidPath),
                    Some(n) => if n.permissions().grants(user, bit) {
                        Ok((segs, n))
                    } else {
                        Err(VfsError::PermissionDenied)
                    },
                }
            },
        }
    }

    /// Takes out the node at `segs`, leaving a stand-in of the same name.
    fn take_node(&mut self, segs: &Vec<String>) -> (r: VfsNode)
        requires
            lookup(old(self)@.root, segs_view(segs@)) is Some,
        ensures
            Some(r@) == lookup(old(self)@.root, segs_view(segs@)),
            final(self)@.root == replace_at(old(self)@.root, segs_view(segs@), placeholder_model(r@.name)),
            final(self).locked_files == old(self).locked_files,
            final(self).users == old(self).users,
            final(self).groups == old(self).groups,
    {
        assert(segs_view(segs@).subrange(0, segs.len() as int) =~= segs_view(segs@));
        let name = match find_node(&self.root, segs, 0) {
            Some(n) => n.name().to_string(),
            None => String::new(),
        };
        swap_at(&mut self.root, segs, 0, VfsNode::placeholder(name))
    }

    /// Puts `v` back where `take_node` took a node out of `orig`.
    fn put_node(&mut self, segs: &Vec<String>, Ghost(orig): Ghost<NodeModel>, v: VfsNode)
        requires
            lookup(orig, segs_view(segs@)) is Some,
            old(self)@.root == replace_at(orig, segs_view(segs@), placeholder_model(lookup(orig, segs_view(segs@))->0.name)),
            wf_node(orig),
            orig.kind is Directory,
            wf_node(v@),
            segs@.len() > 0 ==> v@.name == lookup(orig, segs_view(segs@))->0.name,
            segs@.len() == 0 ==> v@.kind is Directory,
        ensures
            final(self)@.root == replace_at(orig, segs_view(segs@), v@),
            wf_node(final(self)@.root),
            final(self)@.root.kind is Directory,
            final(self).locked_files == old(self).locked_files,
            final(self).users == old(self).users,
            final(self).groups == old(self).groups,
    {
        let ghost sv = segs_view(segs@);
        let ghost ph = placeholder_model(lookup(orig, sv)->0.name);
        proof {
            lemma_lookup_replace(orig, sv, ph);
            lemma_replace_twice(orig, sv, ph, v@);
            lemma_wf_replace(orig, sv, v@);
        }
        assert(sv.subrange(0, segs.len() as int) =~= sv);
        swap_at(&mut self.root, segs, 0, v);
    }

    /// Where a new entry at `path` would go: the parent's segments and the new name.
    fn creation_site(&self, path: &str) -> (r: Result<(Vec<String>, String), VfsError>)
        requires
            self.wf(),
        ensures
            r matches Ok((parent, name)) ==> creation_site(self@, path@) is Ok
                && segs_view(parent@) == split_last(path@).0
                && name@ == split_last(path@).1
                && valid_name(name@),
            r matches Err(e) ==> creation_site(self@, path@) == Err::<NodeModel, VfsError>(e),
    {
        let mut parent = match parse_path(path) {
            None => { return Err(VfsError::InvalidPath); },
            Some(segs) => segs,
        };
        proof {
            lemma_segments_empty(path@);
        }
        if parent.len() == 0 {
            return Err(VfsError::InvalidPath);
        }
        let ghost full = parent@;
        let name = match parent.pop() {
            Some(name) => name,
            None => { return Err(VfsError::InvalidPath); },
        };
        proof {
            lemma_segments_valid(path@);
            assert(segs_view(parent@) =~= segs_view(full).drop_last());
            assert(segs_view(full).last() == name@);
            assert(segs_view(full)[full.len() - 1] == name@);
        }
        assert(segs_view(parent@).subrange(0, parent.len() as int) =~= segs_view(parent@));
        match find_node(&self.root, &parent, 0) {
            None => Err(VfsError::InvalidPath),
            Some(d) => {
                if !d.is_directory() {
                    return Err(VfsError::InvalidPath);
                }
                let taken = d.get_child(name.as_str()).is_some();
                proof {
                    let ch = d@.kind->Directory_0;
                    if has_child(ch, name@) {
                        crate::node::lemma_has_child_first(ch, name@);
                        assert(seq![name@][0] == name@);
                        assert(seq![name@].drop_first() =~= Seq::<Seq<char>>::empty());
                        assert(lookup(ch[child_pos(ch, name@)], Seq::<Seq<char>>::empty()) is Some);
                    }
                }
                if taken {
                    Err(VfsError::InvalidOperation)
                } else {
                    Ok((parent, name))
                }
            },
        }
    }

    /// Adds `n` under the directory at `parent`, where no child has its name.
    fn attach(&mut self, parent: &Vec<String>, Ghost(d): Ghost<NodeModel>, n: VfsNode)
        requires
            old(self).wf(),
            lookup(old(self)@.root, segs_view(parent@)) == Some(d),
            d.kind is Directory,
            !has_child(d.kind->Directory_0, n@.name),
            valid_name(n@.name),
            wf_node(n@),
        ensures
            final(self).wf(),
            final(self)@ == with_child(old(self)@, segs_view(parent@), d, n@),
    {
        let ghost before = self@;
        proof {
            lemma_wf_lookup(before.root, segs_view(parent@));
            lemma_wf_push(d, n@);
        }
        let mut dir = self.take_node(parent);
        dir.add_child(n);
        self.put_node(parent, Ghost(before.root), dir);
        assert(self@ =~= with_child(before, segs_view(parent@), d, n@));
    }

    /// Creates an empty file at `path`, stamped with the current time.
    /// `path`'s parent directory must exist; nothing may stand at `path`.
    pub fn create_file(&mut self, path: &str, permissions: Permissions) -> (r: Result<(), VfsError>)
        requires
            old(self).wf(),
        ensures
            final(self).wf(),
            exists|t: u64| create_spec(old(self)@, path@, permissions@, false, t) == (r, final(self)@),
    {
        let (parent, name) = match self.creation_site(path) {
            Err(e) => {
                assert(create_spec(self@, path@, permissions@, false, 0) == (Err::<(), VfsError>(e), self@));
                return Err(e);
            },
            Ok(site) => site,
        };
        let t = now_secs();
        let ghost d = creation_site(self@, path@)->Ok_0;
        let n = VfsNode::new_file(name, Vec::new(), t, permissions);
        self.attach(&parent, Ghost(d), n);
        assert(create_spec(old(self)@, path@, permissions@, false, t) == (Ok::<(), VfsError>(()), self@));
        Ok(())
    }

    /// Creates an empty directory at `path`, stamped with the current time.
    /// `path`'s parent directory must exist; nothing may stand at `path`.
    pub fn create_directory(&mut self, path: &str, permissions: Permissions) -> (r: Result<(), VfsError>)
        requires
            old(self).wf(),
        ensures
            final(self).wf(),
            exists|t: u64| create_spec(old(self)@, path@, permissions@, true, t) == (r, final(self)@),
    {
        let (parent, name) = match self.creation_site(path) {
            Err(e) => {
                assert(create_spec(self@, path@, permissions@, true, 0) == (Err::<(), VfsError>(e), self@));
                return Err(e);
            },
            Ok(site) => site,
        };
        let t = now_secs();
        let ghost d = creation_site(self@, path@)->Ok_0;
        let n = VfsNode::new_directory(name, t, permissions);
        self.attach(&parent, Ghost(d), n);
        assert(create_spec(old(self)@, path@, permissions@, true, t) == (Ok::<(), VfsError>(()), self@));
        Ok(())
    }

    /// Creates a public file at `path` holding `contents`, stamped with the current time.
    pub fn import_file(&mut self, path: &str, contents: Vec<u8>) -> (r: Result<(), VfsError>)
        requires
            old(self).wf(),
        ensures
            final(self).wf(),
            r matches Err(e) ==> creation_site(old(self)@, path@) == Err::<NodeModel, VfsError>(e) && final(self)@ == old(self)@,
            r is Ok ==> exists|t: u64| final(self)@ == with_child(
                old(self)@,
                split_last(path@).0,
                creation_site(old(self)@, path@)->Ok_0,
                NodeModel { name: split_last(path@).1, last_modified: t, kind: KindModel::File(contents@), permissions: public_view() },
            ),
    {
        let (parent, name) = match self.creation_site(path) {
            Err(e) => { return Err(e); },
            Ok(site) => site,
        };
        let t = now_secs();
        let ghost d = creation_site(self@, path@)->Ok_0;
        let n = VfsNode::new_file(name, contents, t, Permissions::public_perms());
        self.attach(&parent, Ghost(d), n);
        Ok(())
    }

    /// Copies the file at `src`, which `user` must be able to read, to a new
    /// file at `dst` with the same bytes and permissions, stamped with the current time.
    pub fn copy_file(&mut self, src: &str, dst: &str, user: Box<User>) -> (r: Result<(), VfsError>)
        requires
            old(self).wf(),
        ensures
            final(self).wf(),
            exists|t: u64| copy_spec(old(self)@, src@, dst@, user@, t) == (r, final(self)@),
    {
        let (contents, permissions) = match self.validate_path(src, &user, READ_BIT) {
            Err(e) => {
                assert(copy_spec(self@, src@, dst@, user@, 0) == (Err::<(), VfsError>(e), self@));
                return Err(e);
            },
            Ok((_, n)) => match n.contents() {
                None => {
                    assert(copy_spec(self@, src@, dst@, user@, 0) == (Err::<(), VfsError>(VfsError::InvalidOperation), self@));
                    return Err(VfsError::InvalidOperation);
                },
                Some(c) => (c.clone(), n.permissions().duplicate()),
            },
        };
        let (parent, name) = match self.creation_site(dst) {
            Err(e) => {
                assert(copy_spec(self@, src@, dst@, user@, 0) == (Err::<(), VfsError>(e), self@));
                return Err(e);
            },
            Ok(site) => site,
        };
        let t = now_secs();
        let ghost d = creation_site(self@, dst@)->Ok_0;
        let n = VfsNode::new_file(name, contents, t, permissions);
        self.attach(&parent, Ghost(d), n);
        assert(copy_spec(old(self)@, src@, dst@, user@, t) == (Ok::<(), VfsError>(()), self@));
        Ok(())
    }

    /// The segments of the entry at `segs` without the last, and the last.
    fn split_segments(segs: &Vec<String>) -> (r: (Vec<String>, String))
        requires
            segs.len() > 0,
        ensures
            segs_view(r.0@) == segs_view(segs@).drop_last(),
            r.1@ == segs_view(segs@).last(),
    {
        let mut parent = segs.clone();
        let ghost full = parent@;
        assert(full == segs@);
        let name = match parent.pop() {
            Some(name) => name,
            None => String::new(),
        };
        assert(segs_view(parent@) =~= segs_view(full).drop_last());
        assert(segs_view(full)[full.len() - 1] == name@);
        (parent, name)
    }

    /// Deletes the entry at `path` and hands back its subtree. `user` must be
    /// able to write both the entry and its parent directory; the root cannot go.
    pub fn delete(&mut self, path: &str, user: Box<User>) -> (r: Result<VfsNode, VfsError>)
        requires
            old(self).wf(),
        ensures
            final(self).wf(),
            r matches Ok(n) ==> delete_spec(old(self)@, path@, user@) == (Ok::<NodeModel, VfsError>(n@), final(self)@),
            r matches Err(e) ==> delete_spec(old(self)@, path@, user@) == (Err::<NodeModel, VfsError>(e), final(self)@),
    {
        match parse_path(path) {
            Some(segs) => {
                proof {
                    lemma_segments_empty(path@);
                }
                if segs.len() == 0 {
                    return Err(VfsError::InvalidOperation);
                }
            },
            None => {},
        }
        let segs = match self.validate_path(path, &user, WRITE_BIT) {
            Err(e) => { return Err(e); },
            Ok((segs, _)) => segs,
        };
        proof {
            lemma_segments_empty(path@);
            lemma_lookup_last(self@.root, segs_view(segs@));
        }
        let (parent, name) = VFS::split_segments(&segs);
        assert(segs_view(parent@).subrange(0, parent.len() as int) =~= segs_view(parent@));
        let allowed = match find_node(&self.root, &parent, 0) {
            Some(d) => d.permissions().grants(&user, WRITE_BIT),
            None => false,
        };
        if !allowed {
            return Err(VfsError::PermissionDenied);
        }
        let ghost before = self@;
        let ghost d = parent_of(before, path@);
        proof {
            lemma_wf_lookup(before.root, segs_view(parent@));
        }
        let mut dir = self.take_node(&parent);
        let k = match dir.index_of_child(&name) {
            Some(k) => k,
            None => {
                assert(false);
                return Err(VfsError::InvalidOperation);
            },
        };
        proof {
            lemma_child_pos(d.kind->Directory_0, name@, k as int);
            lemma_wf_remove(d, k as int);
        }
        let removed = dir.remove_child(k);
        self.put_node(&parent, Ghost(before.root), dir);
        assert(self@ =~= delete_spec(before, path@, user@).1);
        Ok(removed)
    }

    /// Renames the entry at `path` to `new_name`, which must be a valid name
    /// that no sibling has. `user` must be able to write the entry.
    pub fn rename_file(&mut self, path: &str, new_name: &str, user: Box<User>) -> (r: Result<(), VfsError>)
        requires
            old(self).wf(),
        ensures
            final(self).wf(),
            exists|t: u64| rename_spec(old(self)@, path@, new_name@, user@, t) == (r, final(self)@),
    {
        let segs = match self.validate_path(path, &user, WRITE_BIT) {
            Err(e) => {
                assert(rename_spec(self@, path@, new_name@, user@, 0) == (Err::<(), VfsError>(e), self@));
                return Err(e);
            },
            Ok((segs, _)) => segs,
        };
        proof {
            lemma_segments_empty(path@);
        }
        if segs.len() == 0 {
            assert(rename_spec(self@, path@, new_name@, user@, 0) == (Err::<(), VfsError>(VfsError::InvalidOperation), self@));
            return Err(VfsError::InvalidOperation);
        }
        if !is_valid_name(new_name) {
            assert(rename_spec(self@, path@, new_name@, user@, 0) == (Err::<(), VfsError>(VfsError::InvalidPath), self@));
            return Err(VfsError::InvalidPath);
        }
        proof {
            lemma_lookup_last(self@.root, segs_view(segs@));
        }
        let (parent, name) = VFS::split_segments(&segs);
        let new_key = new_name.to_string();
        let ghost before = self@;
        let ghost d = parent_of(before, path@);
        let ghost ch = d.kind->Directory_0;
        proof {
            lemma_wf_lookup(before.root, segs_view(parent@));
            crate::node::lemma_has_child_first(ch, name@);
            assert(resolve(before, path@, user@, WRITE_BIT)->Ok_0.name == name@);
        }
        assert(segs_view(parent@).subrange(0, parent.len() as int) =~= segs_view(parent@));
        let conflict = new_key != name && match find_node(&self.root, &parent, 0) {
            Some(d) => d.has_child_named(&new_key),
            None => false,
        };
        if conflict {
            assert(rename_spec(before, path@, new_name@, user@, 0) == (Err::<(), VfsError>(VfsError::InvalidOperation), self@));
            return Err(VfsError::InvalidOperation);
        }
        let t = now_secs();
        let mut dir = self.take_node(&parent);
        let k = match dir.index_of_child(&name) {
            Some(k) => k,
            None => {
                assert(false);
                return Err(VfsError::InvalidPath);
            },
        };
        proof {
            lemma_child_pos(ch, name@, k as int);
        }
        proof {
            lemma_wf_rename(d, k as int, new_name@, t);
        }
        dir.rename_child(k, new_key, t);
        self.put_node(&parent, Ghost(before.root), dir);
        assert(self@ =~= rename_spec(before, path@, new_name@, user@, t).1);
        assert(rename_spec(old(self)@, path@, new_name@, user@, t) == (Ok::<(), VfsError>(()), self@));
        Ok(())
    }

    /// Replaces the permissions of the entry at `path`; `user` must be able
    /// to write it under its current permissions.
    pub fn change_permissions(&mut self, path: &str, permissions: Permissions, user: Box<User>) -> (r: Result<(), VfsError>)
        requires
            old(self).wf(),
        ensures
            final(self).wf(),
            exists|t: u64| chmod_spec(old(self)@, path@, permissions@, user@, t) == (r, final(self)@),
    {
        let segs = match self.validate_path(path, &user, WRITE_BIT) {
            Err(e) => {
                assert(chmod_spec(self@, path@, permissions@, user@, 0) == (Err::<(), VfsError>(e), self@));
                return Err(e);
            },
            Ok((segs, _)) => segs,
        };
        let t = now_secs();
        let ghost before = self@;
        proof {
            lemma_wf_lookup(before.root, segs_view(segs@));
        }
        let mut n = self.take_node(&segs);
        n.set_permissions(permissions, t);
        self.put_node(&segs, Ghost(before.root), n);
        assert(self@ =~= chmod_spec(before, path@, permissions@, user@, t).1);
        assert(chmod_spec(old(self)@, path@, permissions@, user@, t) == (Ok::<(), VfsError>(()), self@));
        Ok(())
    }

    /// The names of the children of the directory at `path`, which `user` must be able to read.
    pub fn list_directory(&mut self, path: &str, user: Box<User>) -> (r: Result<Vec<String>, VfsError>)
        requires
            old(self).wf(),
        ensures
            *final(self) == *old(self),
            r matches Ok(names) ==> list_spec(old(self)@, path@, user@) == Ok::<Seq<Seq<char>>, VfsError>(segs_view(names@)),
            r matches Err(e) ==> list_spec(old(self)@, path@, user@) == Err::<Seq<Seq<char>>, VfsError>(e),
    {
        match self.validate_path(path, &user, READ_BIT) {
            Err(e) => Err(e),
            Ok((_, n)) => if n.is_directory() {
                Ok(n.child_names())
            } else {
                Err(VfsError::InvalidOperation)
            },
        }
    }

    /// The bytes held in the files under `path`; `user` must be able to read every node there.
    pub fn get_directory_size(&mut self, path: &str, user: Box<User>) -> (r: Result<usize, VfsError>)
        requires
            old(self).wf(),
        ensures
            *final(self) == *old(self),
            r matches Ok(x) ==> size_spec(old(self)@, path@, user@) == Ok::<int, VfsError>(x as int),
            r matches Err(e) ==> size_spec(old(self)@, path@, user@) == Err::<int, VfsError>(e),
    {
        match self.validate_path(path, &user, READ_BIT) {
            Err(e) => Err(e),
            Ok((_, n)) => if !n.readable_by(&user) {
                Err(VfsError::PermissionDenied)
            } else {
                match n.size() {
                    Some(x) => Ok(x),
                    None => Err(VfsError::InvalidOperation),
                }
            },
        }
    }

    /// Adds `path` to the lock registry, unless it is there already.
    pub fn lock_file(&mut self, path: &str) -> (r: Result<(), VfsError>)
        requires
            old(self).wf(),
        ensures
            final(self).wf(),
            lock_spec(old(self)@, path@) == (r, final(self)@),
    {
        if self.is_locked(path) {
            return Err(VfsError::FileLocked);
        }
        let ghost before = self@;
        let ghost old_locked = self.locked_files@;
        self.locked_files.push(path.to_string());
        assert(forall|i: int| 0 <= i < old_locked.len() ==> #[trigger] self.locked_files@[i] == old_locked[i]);
        assert(self.locked_files@[old_locked.len() as int]@ == path@);
        assert forall|p: Seq<char>| #[trigger] self@.locked.contains(p) <==> before.locked.insert(path@).contains(p) by {
            if before.locked.contains(p) {
                let j = choose|j: int| 0 <= j < old_locked.len() && #[trigger] old_locked[j]@ == p;
                assert(self.locked_files@[j] == old_locked[j]);
            }
            if self@.locked.contains(p) && p != path@ {
                let j = choose|j: int| 0 <= j < self.locked_files@.len() && #[trigger] self.locked_files@[j]@ == p;
                assert(j < old_locked.len());
                assert(old_locked[j]@ == p);
            }
        }
        assert(self@.locked =~= before.locked.insert(path@));
        assert forall|a: int, b: int| 0 <= a < self.locked_files@.len() && 0 <= b < self.locked_files@.len() && a != b implies #[trigger] self.locked_files@[a]@ != #[trigger] self.locked_files@[b]@ by {
            if a == old_locked.len() {
                assert(old_locked[b]@ != path@) by {
                    if old_locked[b]@ == path@ {
                        assert(before.locked.contains(path@));
                    }
                }
            } else if b == old_locked.len() {
                assert(old_locked[a]@ != path@) by {
                    if old_locked[a]@ == path@ {
                        assert(before.locked.contains(path@));
                    }
                }
            }
        }
        assert(self@ =~= lock_spec(before, path@).1);
        Ok(())
    }

    /// Takes `path` out of the lock registry, where it must be.
    pub fn unlock_file(&mut self, path: &str) -> (r: Result<(), VfsError>)
        requires
            old(self).wf(),
        ensures
            final(self).wf(),
            unlock_spec(old(self)@, path@) == (r, final(self)@),
    {
        let key = path.to_string();
        let mut i: usize = 0;
        while i < self.locked_files.len()
            invariant
                0 <= i <= self.locked_files.len(),
                key@ == path@,
                *self == *old(self),
                self.wf(),
                forall|j: int| 0 <= j < i ==> #[trigger] self.locked_files@[j]@ != path@,
            decreases self.locked_files.len() - i,
        {
            if self.locked_files[i] == key {
                let ghost before = self@;
                let ghost old_locked = self.locked_files@;
                self.locked_files.remove(i);
                assert forall|j: int| 0 <= j < self.locked_files@.len() implies #[trigger] self.locked_files@[j] == old_locked[if j < i { j } else { j + 1 }] by {}
                assert forall|p: Seq<char>| #[trigger] self@.locked.contains(p) <==> before.locked.remove(path@).contains(p) by {
                    if before.locked.remove(path@).contains(p) {
                        let j = choose|j: int| 0 <= j < old_locked.len() && #[trigger] old_locked[j]@ == p;
                        assert(old_locked[i as int]@ == path@);
                        assert(j != i);
                        assert(self.locked_files@[if j < i { j } else { j - 1 }] == old_locked[j]);
                    }
                    if self@.locked.contains(p) {
                        let j = choose|j: int| 0 <= j < self.locked_files@.len() && #[trigger] self.locked_files@[j]@ == p;
                        let j0 = if j < i { j } else { j + 1 };
                        assert(self.locked_files@[j] == old_locked[j0]);
                        assert(old_locked[i as int]@ == path@);
                        assert(j0 != i);
                        assert(old_locked[j0]@ != path@);
                    }
                }
                assert(self@.locked =~= before.locked.remove(path@));
                assert(self@ =~= unlock_spec(before, path@).1);
                assert forall|a: int, b: int| 0 <= a < self.locked_files@.len() && 0 <= b < self.locked_files@.len() && a != b implies #[trigger] self.locked_files@[a]@ != #[trigger] self.locked_files@[b]@ by {
                    assert(self.locked_files@[a] == old_locked[if a < i { a } else { a + 1 }]);
                    assert(self.locked_files@[b] == old_locked[if b < i { b } else { b + 1 }]);
                }
                return Ok(());
            }
            i += 1;
        }
        assert(!self@.locked.contains(path@));
        Err(VfsError::InvalidOperation)
    }

    /// Where the user named `name` is registered, if anywhere.
    fn find_user(&self, name: &String) -> (r: Option<usize>)
        ensures
            r matches Some(k) ==> k < self@.users.len() && self@.users[k as int].name == name@,
            r is None ==> !has_user(self@.users, name@),
    {
        let mut i: usize = 0;
        while i < self.users.len()
            invariant
                0 <= i <= self.users.len(),
                self@.users.len() == self.users@.len(),
                forall|j: int| 0 <= j < self.users@.len() ==> #[trigger] self@.users[j] == self.users@[j]@,
                forall|j: int| 0 <= j < i ==> #[trigger] self@.users[j].name != name@,
            decreases self.users.len() - i,
        {
            if *self.users[i].name_string() == *name {
                return Some(i);
            }
            i += 1;
        }
        None
    }

    /// Where the group named `name` is registered, if anywhere.
    fn find_group(&self, name: &String) -> (r: Option<usize>)
        ensures
            r matches Some(k) ==> k < self@.groups.len() && self@.groups[k as int].name == name@,
            r is None ==> !has_group(self@.groups, name@),
    {
        let mut i: usize = 0;
        while i < self.groups.len()
            invariant
                0 <= i <= self.groups.len(),
                self@.groups.len() == self.groups@.len(),
                forall|j: int| 0 <= j < self.groups@.len() ==> #[trigger] self@.groups[j] == self.groups@[j]@,
                forall|j: int| 0 <= j < i ==> #[trigger] self@.groups[j].name != name@,
            decreases self.groups.len() - i,
        {
            if *self.groups[i].name_string() == *name {
                return Some(i);
            }
            i += 1;
        }
        None
    }

    /// Registers `user` under its name, which no registered user may have.
    /// A user with id 0 is numbered with the count of users registered before it.
    pub fn add_user(&mut self, user: User) -> (r: Result<Box<User>, VfsError>)
        requires
            old(self).wf(),
        ensures
            final(self).wf(),
            r matches Ok(u) ==> add_user_spec(old(self)@, user@) == (Ok::<UserView, VfsError>(u@), final(self)@),
            r matches Err(e) ==> add_user_spec(old(self)@, user@) == (Err::<UserView, VfsError>(e), final(self)@),
    {
        if self.find_user(user.name_string()).is_some() {
            return Err(VfsError::InvalidOperation);
        }
        let ghost before = self@;
        let ghost given = user@;
        let mut user = user;
        if user.id() == 0 {
            let id = self.users.len() as u16;
            user.set_id(id);
        }
        assert(user@ == numbered(before, given));
        let stored = user.duplicate();
        self.users.push(stored);
        assert(self@.users =~= before.users.push(user@));
        assert forall|a: int, b: int| 0 <= a < self@.users.len() && 0 <= b < self@.users.len() && a != b implies #[trigger] self@.users[a].name != #[trigger] self@.users[b].name by {
            if a == before.users.len() {
                assert(self@.users[b] == before.users[b]);
            } else if b == before.users.len() {
                assert(self@.users[a] == before.users[a]);
            } else {
                assert(self@.users[a] == before.users[a]);
                assert(self@.users[b] == before.users[b]);
            }
        }
        assert(self@ =~= add_user_spec(before, given).1);
        Ok(Box::new(user))
    }

    /// Removes the user registered under `user`'s name.
    pub fn remove_user(&mut self, user: &User) -> (r: Result<(), VfsError>)
        requires
            old(self).wf(),
        ensures
            final(self).wf(),
            remove_user_spec(old(self)@, user@.name) == (r, final(self)@),
    {
        match self.find_user(user.name_string()) {
            None => Err(VfsError::InvalidOperation),
            Some(k) => {
                let ghost before = self@;
                let ghost name = user@.name;
                assert(user_pos(before.users, name) == k) by {
                    let c = user_pos(before.users, name);
                    assert(before.users[k as int].name == name);
                }
                self.users.remove(k);
                assert(self@.users =~= before.users.remove(k as int));
                assert forall|a: int, b: int| 0 <= a < self@.users.len() && 0 <= b < self@.users.len() && a != b implies #[trigger] self@.users[a].name != #[trigger] self@.users[b].name by {
                    assert(self@.users[a] == before.users[if a < k { a } else { a + 1 }]);
                    assert(self@.users[b] == before.users[if b < k { b } else { b + 1 }]);
                }
                assert(self@ =~= remove_user_spec(before, name).1);
                Ok(())
            },
        }
    }

    /// Registers `group` under its name, which no registered group may have.
    pub fn add_group(&mut self, group: Group) -> (r: Result<(), VfsError>)
        requires
            old(self).wf(),
        ensures
            final(self).wf(),
            add_group_spec(old(self)@, group@) == (r, final(self)@),
    {
        if self.find_group(group.name_string()).is_some() {
            return Err(VfsError::InvalidOperation);
        }
        let ghost before = self@;
        let ghost g = group@;
        self.groups.push(group);
        assert(self@.groups =~= before.groups.push(g));
        assert forall|a: int, b: int| 0 <= a < self@.groups.len() && 0 <= b < self@.groups.len() && a != b implies #[trigger] self@.groups[a].name != #[trigger] self@.groups[b].name by {
            if a == before.groups.len() {
                assert(self@.groups[b] == before.groups[b]);
            } else if b == before.groups.len() {
                assert(self@.groups[a] == before.groups[a]);
            } else {
                assert(self@.groups[a] == before.groups[a]);
                assert(self@.groups[b] == before.groups[b]);
            }
        }
        assert(self@ =~= add_group_spec(before, g).1);
        Ok(())
    }

    /// Removes the group registered under `group`'s name.
    pub fn remove_group(&mut self, group: &Group) -> (r: Result<(), VfsError>)
        requires
            old(self).wf(),
        ensures
            final(self).wf(),
            remove_group_spec(old(self)@, group@.name) == (r, final(self)@),
    {
        match self.find_group(group.name_string()) {
            None => Err(VfsError::InvalidOperation),
            Some(k) => {
                let ghost before = self@;
                let ghost name = group@.name;
                assert(group_pos(before.groups, name) == k) by {
                    let c = group_pos(before.groups, name);
                    assert(before.groups[k as int].name == name);
                }
                self.groups.remove(k);
                assert(self@.groups =~= before.groups.remove(k as int));
                assert forall|a: int, b: int| 0 <= a < self@.groups.len() && 0 <= b < self@.groups.len() && a != b implies #[trigger] self@.groups[a].name != #[trigger] self@.groups[b].name by {
                    assert(self@.groups[a] == before.groups[if a < k { a } else { a + 1 }]);
                    assert(self@.groups[b] == before.groups[if b < k { b } else { b + 1 }]);
                }
                assert(self@ =~= remove_group_spec(before, name).1);
                Ok(())
            },
        }
    }

    /// A snapshot of the whole tree, in the format of the `codec` module.
    pub fn serialize_to_bytes(&self) -> (r: Vec<u8>)
        ensures
            r@ == enc_node(self@.root),
            encodable(self@.root),
    {
        let mut out: Vec<u8> = Vec::new();
        put_node(&mut out, &self.root);
        assert(out@ =~= enc_node(self@.root));
        out
    }

    /// Replaces the whole tree by the one `bytes` encodes, which must be a
    /// well-formed tree under a directory. Locks, users and groups stay.
    pub fn deserialize_from_bytes(&mut self, bytes: &[u8]) -> (r: Result<(), VfsError>)
        requires
            old(self).wf(),
        ensures
            final(self).wf(),
            r is Ok <==> (decode(bytes@) matches Some(n) && n.kind is Directory && wf_node(n)),
            r is Ok ==> final(self)@ == (VfsView { root: decode(bytes@)->0, ..old(self)@ }),
            r is Err ==> r == Err::<(), VfsError>(VfsError::InvalidOperation) && final(self)@ == old(self)@,
    {
        match decode_tree(bytes) {
            None => Err(VfsError::InvalidOperation),
            Some(n) => {
                if !n.is_directory() || !n.is_well_formed() {
                    return Err(VfsError::InvalidOperation);
                }
                let ghost before = self@;
                self.root = n;
                assert(self@ =~= VfsView { root: decode(bytes@)->0, ..before });
                Ok(())
            },
        }
    }

    /// `path` leads to a node that `user` can read.
    pub fn path_exists(&self, path: &str, user: Box<User>) -> (r: bool)
        ensures
            r == resolve(self@, path@, user@, READ_BIT) is Ok,
    {
        self.validate_path(path, &user, READ_BIT).is_ok()
    }

    /// A copy of the bytes of the file at `path`.
    pub fn read_file(&mut self, path: &str, user: Box<User>) -> (r: Result<Vec<u8>, VfsError>)
        requires
            old(self).wf(),
        ensures
            *final(self) == *old(self),
            r matches Ok(c) ==> read_spec(old(self)@, path@, user@) == Ok::<Seq<u8>, VfsError>(c@),
            r matches Err(e) ==> read_spec(old(self)@, path@, user@) == Err::<Seq<u8>, VfsError>(e),
    {
        match self.validate_path(path, &user, READ_BIT) {
            Err(e) => Err(e),
            Ok((_, n)) => match n.contents() {
                Some(c) => Ok(c.clone()),
                None => Err(VfsError::InvalidOperation),
            },
        }
    }

    /// Replaces the bytes of the file at `path`, unless `path` is locked.
    pub fn write_file(&mut self, path: &str, content: Vec<u8>, user: Box<User>) -> (r: Result<(), VfsError>)
        requires
            old(self).wf(),
        ensures
            final(self).wf(),
            exists|t: u64| write_spec(old(self)@, path@, content@, user@, t) == (r, final(self)@),
    {
        if self.is_locked(path) {
            assert(write_spec(self@, path@, content@, user@, 0) == (Err::<(), VfsError>(VfsError::FileLocked), self@));
            return Err(VfsError::FileLocked);
        }
        let segs = match self.validate_path(path, &user, WRITE_BIT) {
            Err(e) => {
                assert(write_spec(self@, path@, content@, user@, 0) == (Err::<(), VfsError>(e), self@));
                return Err(e);
            },
            Ok((segs, n)) => {
                if n.is_directory() {
                    assert(write_spec(self@, path@, content@, user@, 0) == (Err::<(), VfsError>(VfsError::InvalidOperation), self@));
                    return Err(VfsError::InvalidOperation);
                }
                segs
            },
        };
        let t = now_secs();
        let ghost before = self@;
        let ghost sv = segs_view(segs@);
        let mut n = self.take_node(&segs);
        n.set_contents(content, t);
        self.put_node(&segs, Ghost(before.root), n);
        assert(self@ =~= write_spec(before, path@, content@, user@, t).1);
        assert(write_spec(old(self)@, path@, content@, user@, t) == (Ok::<(), VfsError>(()), self@));
        Ok(())
    }
}

} // verus!
