use vos::graphics::{draw_triangle, GraphicsLib};
use vos::perms::{Group, Permissions, User};
use vos::vfs::{VfsError, VFS};
use vos::window_manager::WindowManager;

fn vfs_with_root() -> (VFS, Box<User>) {
    let mut vfs = VFS::new();
    let root = vfs.add_user(User::new("root", 0b111)).unwrap();
    (vfs, root)
}

fn sorted(mut v: Vec<String>) -> Vec<String> {
    v.sort();
    v
}

#[test]
fn created_file_reads_back_empty_and_exists() {
    let (mut vfs, root) = vfs_with_root();
    vfs.create_directory("/docs", Permissions::public_perms()).unwrap();
    for path in ["/a", "/docs/notes.txt", "/docs/x"] {
        vfs.create_file(path, Permissions::private_perms_for(root.clone())).unwrap();
        assert_eq!(vfs.read_file(path, root.clone()), Ok(vec![]));
        assert!(vfs.path_exists(path, root.clone()));
    }
}

#[test]
fn snapshot_round_trip_keeps_paths_contents_and_permissions() {
    let (mut vfs, root) = vfs_with_root();
    vfs.create_directory("/etc", Permissions::public_perms()).unwrap();
    vfs.create_directory("/etc/deep", Permissions::new(3, vec![7, 9], 0b111, 0b101, 0b001)).unwrap();
    vfs.create_file("/etc/deep/conf", Permissions::new(2, vec![5], 0b110, 0b100, 0b000)).unwrap();
    vfs.import_file("/caf\u{e9}", vec![0, 255, 7]).unwrap();
    vfs.create_file("/empty", Permissions::private_perms_for_root()).unwrap();
    let bytes = vfs.serialize_to_bytes();

    let mut restored = VFS::new();
    restored.deserialize_from_bytes(&bytes).unwrap();
    assert_eq!(restored.serialize_to_bytes(), bytes);
    assert_eq!(
        sorted(restored.list_directory("/", root.clone()).unwrap()),
        vec!["caf\u{e9}".to_string(), "empty".to_string(), "etc".to_string()]
    );
    assert_eq!(restored.read_file("/caf\u{e9}", root.clone()), Ok(vec![0, 255, 7]));
    let conf = restored.find_node("/etc/deep/conf").unwrap();
    assert_eq!(conf.permissions().owner_id(), 2);
    assert_eq!(conf.permissions().group_ids(), &vec![5u16]);
    assert_eq!(conf.permissions().owner_perms(), 0b110);
    assert_eq!(conf.permissions().group_perms(), 0b100);
    assert_eq!(conf.permissions().other_perms(), 0b000);
    let deep = restored.find_node("/etc/deep").unwrap();
    assert!(deep.is_directory());
    assert_eq!(deep.permissions().group_ids(), &vec![7u16, 9]);
    assert_eq!(deep.permissions().group_perms(), 0b101);
}

#[test]
fn snapshot_bytes_follow_the_format() {
    let vfs = VFS::new();
    let bytes = vfs.serialize_to_bytes();
    assert_eq!(bytes[0], 1);
    assert_eq!(&bytes[1..9], &[1, 0, 0, 0, 0, 0, 0, 0]);
    assert_eq!(bytes[9], b'/');
    let n = bytes.len();
    assert_eq!(&bytes[n - 8..], &[0, 0, 0, 0, 0, 0, 0, 0]);
    assert_eq!(&bytes[n - 11..n - 8], &[0b111, 0b111, 0b111]);
}

#[test]
fn malformed_snapshot_is_refused_and_changes_nothing() {
    let (mut vfs, root) = vfs_with_root();
    vfs.create_file("/keep", Permissions::public_perms()).unwrap();
    assert_eq!(vfs.deserialize_from_bytes(&[1, 2, 3]), Err(VfsError::InvalidOperation));
    let mut file_root = VFS::new();
    file_root.create_file("/f", Permissions::public_perms()).unwrap();
    let bytes = file_root.serialize_to_bytes();
    assert_eq!(vfs.deserialize_from_bytes(&bytes[..bytes.len() - 1]), Err(VfsError::InvalidOperation));
    let mut trailing = bytes.clone();
    trailing.push(0);
    assert_eq!(vfs.deserialize_from_bytes(&trailing), Err(VfsError::InvalidOperation));
    assert!(vfs.path_exists("/keep", root));
}

#[test]
fn owner_mask_wins_over_a_more_permissive_group_mask() {
    let mut user = User::with_id("owner", 0b111, 4);
    user.join_group(10);
    let perms = Permissions::new(4, vec![10], 0b000, 0b111, 0b111);
    assert!(!perms.can_read(Box::new(user.clone())));
    assert!(!perms.can_write(Box::new(user.clone())));
    assert!(!perms.can_execute(Box::new(user.clone())));
    let mut member = User::with_id("member", 0b111, 5);
    member.join_group(10);
    assert!(perms.can_read(Box::new(member.clone())));
    let stranger = User::with_id("stranger", 0b111, 6);
    assert!(perms.can_write(Box::new(stranger)));
    let mixed = Permissions::new(4, vec![10], 0b100, 0b010, 0b001);
    assert!(mixed.can_read(Box::new(user.clone())));
    assert!(!mixed.can_write(Box::new(user)));
    assert!(mixed.can_write(Box::new(member.clone())));
    assert!(!mixed.can_execute(Box::new(member)));
}

#[test]
fn membership_and_full_permissions() {
    let mut user = User::new("u", 0b100);
    assert!(!user.is_member_of_any(&vec![1, 2]));
    user.join_group(2);
    assert!(user.is_member_of_any(&vec![1, 2]));
    assert!(!user.is_member_of_any(&vec![]));
    assert_eq!(Permissions::new(0, vec![], 0b100, 0b010, 0b000).to_full_permissions(), 0b110);
}

#[test]
fn deleting_the_root_is_refused() {
    let (mut vfs, root) = vfs_with_root();
    assert_eq!(vfs.delete("/", root.clone()).err(), Some(VfsError::InvalidOperation));
    assert_eq!(vfs.delete("", root.clone()).err(), Some(VfsError::InvalidOperation));
    assert_eq!(vfs.delete("/onlyonesegment", root).err(), Some(VfsError::InvalidPath));
}

#[test]
fn writing_a_locked_file_fails_whoever_writes() {
    let (mut vfs, root) = vfs_with_root();
    vfs.create_file("/log", Permissions::public_perms()).unwrap();
    vfs.lock_file("/log").unwrap();
    assert_eq!(vfs.write_file("/log", vec![1], root.clone()), Err(VfsError::FileLocked));
    assert_eq!(vfs.write_file("/log", vec![1], Box::new(User::with_id("other", 0, 9))), Err(VfsError::FileLocked));
    assert_eq!(vfs.lock_file("/log"), Err(VfsError::FileLocked));
    vfs.unlock_file("/log").unwrap();
    assert_eq!(vfs.unlock_file("/log"), Err(VfsError::InvalidOperation));
    assert_eq!(vfs.write_file("/log", vec![1], root.clone()), Ok(()));
    assert_eq!(vfs.read_file("/log", root), Ok(vec![1]));
}

#[test]
fn delete_needs_write_permission_and_returns_the_subtree() {
    let mut vfs = VFS::new();
    let root = vfs.add_user(User::new("root", 0b111)).unwrap();
    let regular = vfs.add_user(User::new("regular", 0b100)).unwrap();
    vfs.create_file("/secret", Permissions::private_perms_for_root()).unwrap();
    assert_eq!(vfs.delete("/secret", regular).err(), Some(VfsError::PermissionDenied));
    let removed = vfs.delete("/secret", root.clone()).unwrap();
    assert_eq!(removed.name(), "secret");
    assert!(!removed.is_directory());
    assert!(!vfs.path_exists("/secret", root));
}

#[test]
fn delete_needs_write_permission_on_the_parent() {
    let mut vfs = VFS::new();
    let root = vfs.add_user(User::new("root", 0b111)).unwrap();
    let regular = vfs.add_user(User::new("regular", 0b111)).unwrap();
    vfs.create_directory("/locked_dir", Permissions::new(0, vec![], 0b111, 0b101, 0b101)).unwrap();
    vfs.create_file("/locked_dir/f", Permissions::public_perms()).unwrap();
    assert_eq!(vfs.delete("/locked_dir/f", regular).err(), Some(VfsError::PermissionDenied));
    assert!(vfs.delete("/locked_dir/f", root).is_ok());
}

#[test]
fn creating_under_a_missing_parent_is_an_invalid_path() {
    let (mut vfs, root) = vfs_with_root();
    assert_eq!(vfs.create_file("/a/b", Permissions::public_perms()), Err(VfsError::InvalidPath));
    assert!(!vfs.path_exists("/a", root.clone()));
    assert!(!vfs.path_exists("/a/b", root));
}

#[test]
fn creating_under_a_file_is_an_invalid_path() {
    let mut vfs = VFS::new();
    vfs.create_file("/blah", Permissions::default()).unwrap();
    assert_eq!(vfs.create_file("/blah/blah2", Permissions::default()), Err(VfsError::InvalidPath));
    vfs.create_directory("/dir", Permissions::default()).unwrap();
    assert_eq!(vfs.create_file("/dir/blah2", Permissions::default()), Ok(()));
}

#[test]
fn malformed_paths_are_refused() {
    let (mut vfs, root) = vfs_with_root();
    for path in ["", "/", "relative", "/a//b", "//a", "/a/"] {
        assert_eq!(vfs.create_file(path, Permissions::public_perms()), Err(VfsError::InvalidPath), "{}", path);
    }
    vfs.create_file("/a", Permissions::public_perms()).unwrap();
    assert_eq!(vfs.read_file("a", root.clone()), Err(VfsError::InvalidPath));
    assert_eq!(vfs.read_file("//a", root.clone()), Err(VfsError::InvalidPath));
    assert_eq!(vfs.read_file("/a", root), Ok(vec![]));
}

#[test]
fn duplicate_entries_are_refused() {
    let mut vfs = VFS::new();
    vfs.create_file("/x", Permissions::public_perms()).unwrap();
    assert_eq!(vfs.create_file("/x", Permissions::public_perms()), Err(VfsError::InvalidOperation));
    assert_eq!(vfs.create_directory("/x", Permissions::public_perms()), Err(VfsError::InvalidOperation));
}

#[test]
fn directory_size_sums_the_files() {
    let (mut vfs, root) = vfs_with_root();
    vfs.create_directory("/d", Permissions::public_perms()).unwrap();
    vfs.create_file("/d/three", Permissions::public_perms()).unwrap();
    vfs.create_file("/d/five", Permissions::public_perms()).unwrap();
    vfs.write_file("/d/three", vec![1, 2, 3], root.clone()).unwrap();
    vfs.write_file("/d/five", vec![1, 2, 3, 4, 5], root.clone()).unwrap();
    assert_eq!(vfs.get_directory_size("/d", root.clone()), Ok(8));
    assert_eq!(vfs.get_directory_size("/d/five", root.clone()), Ok(5));
    assert_eq!(vfs.get_directory_size("/", root), Ok(8));
}

#[test]
fn directory_size_needs_read_permission_everywhere_below() {
    let mut vfs = VFS::new();
    let root = vfs.add_user(User::new("root", 0b111)).unwrap();
    let regular = vfs.add_user(User::new("regular", 0b111)).unwrap();
    vfs.create_directory("/d", Permissions::public_perms()).unwrap();
    vfs.create_directory("/d/private", Permissions::private_perms_for_root()).unwrap();
    vfs.create_file("/d/private/f", Permissions::public_perms()).unwrap();
    assert_eq!(vfs.get_directory_size("/d", regular), Err(VfsError::PermissionDenied));
    assert_eq!(vfs.get_directory_size("/d", root), Ok(0));
}

#[test]
fn reading_needs_permission_and_a_file() {
    let mut vfs = VFS::new();
    let root = vfs.add_user(User::new("root", 0b111)).unwrap();
    let regular = vfs.add_user(User::new("regular", 0b111)).unwrap();
    vfs.create_file("/mine", Permissions::private_perms_for_root()).unwrap();
    vfs.create_directory("/dir", Permissions::public_perms()).unwrap();
    assert_eq!(vfs.read_file("/mine", regular.clone()), Err(VfsError::PermissionDenied));
    assert!(!vfs.path_exists("/mine", regular.clone()));
    assert_eq!(vfs.read_file("/dir", root.clone()), Err(VfsError::InvalidOperation));
    assert_eq!(vfs.write_file("/dir", vec![1], root.clone()), Err(VfsError::InvalidOperation));
    assert_eq!(vfs.write_file("/mine", vec![1], regular), Err(VfsError::PermissionDenied));
    assert_eq!(vfs.read_file("/missing", root), Err(VfsError::InvalidPath));
}

#[test]
fn rename_rekeys_the_entry() {
    let (mut vfs, root) = vfs_with_root();
    vfs.create_file("/old", Permissions::public_perms()).unwrap();
    vfs.write_file("/old", vec![9], root.clone()).unwrap();
    vfs.create_file("/taken", Permissions::public_perms()).unwrap();
    assert_eq!(vfs.rename_file("/old", "taken", root.clone()), Err(VfsError::InvalidOperation));
    assert_eq!(vfs.rename_file("/old", "a/b", root.clone()), Err(VfsError::InvalidPath));
    assert_eq!(vfs.rename_file("/old", "", root.clone()), Err(VfsError::InvalidPath));
    assert_eq!(vfs.rename_file("/", "x", root.clone()), Err(VfsError::InvalidOperation));
    assert_eq!(vfs.rename_file("/old", "new", root.clone()), Ok(()));
    assert_eq!(vfs.read_file("/old", root.clone()), Err(VfsError::InvalidPath));
    assert_eq!(vfs.read_file("/new", root.clone()), Ok(vec![9]));
    assert_eq!(vfs.rename_file("/new", "new", root), Ok(()));
}

#[test]
fn copy_duplicates_bytes_and_permissions() {
    let (mut vfs, root) = vfs_with_root();
    vfs.create_file("/src", Permissions::new(0, vec![3], 0b110, 0b100, 0b000)).unwrap();
    vfs.write_file("/src", vec![4, 5], root.clone()).unwrap();
    vfs.create_directory("/d", Permissions::public_perms()).unwrap();
    assert_eq!(vfs.copy_file("/src", "/d/dst", root.clone()), Ok(()));
    assert_eq!(vfs.read_file("/d/dst", root.clone()), Ok(vec![4, 5]));
    let copy = vfs.find_node("/d/dst").unwrap();
    assert_eq!(copy.name(), "dst");
    assert_eq!(copy.permissions().group_ids(), &vec![3u16]);
    assert_eq!(copy.permissions().owner_perms(), 0b110);
    assert_eq!(vfs.copy_file("/src", "/d/dst", root.clone()), Err(VfsError::InvalidOperation));
    assert_eq!(vfs.copy_file("/d", "/d2", root.clone()), Err(VfsError::InvalidOperation));
    assert_eq!(vfs.copy_file("/src", "/nowhere/x", root.clone()), Err(VfsError::InvalidPath));
    assert_eq!(vfs.copy_file("/missing", "/x", root), Err(VfsError::InvalidPath));
}

#[test]
fn change_permissions_checks_the_old_permissions() {
    let mut vfs = VFS::new();
    let root = vfs.add_user(User::new("root", 0b111)).unwrap();
    let regular = vfs.add_user(User::new("regular", 0b111)).unwrap();
    vfs.create_file("/f", Permissions::private_perms_for_root()).unwrap();
    assert_eq!(vfs.change_permissions("/f", Permissions::public_perms(), regular.clone()), Err(VfsError::PermissionDenied));
    assert_eq!(vfs.change_permissions("/f", Permissions::public_perms(), root), Ok(()));
    assert_eq!(vfs.read_file("/f", regular.clone()), Ok(vec![]));
    assert_eq!(vfs.change_permissions("/f", Permissions::private_perms_for_root(), regular.clone()), Ok(()));
    assert_eq!(vfs.read_file("/f", regular), Err(VfsError::PermissionDenied));
}

#[test]
fn listing_gives_the_child_names() {
    let (mut vfs, root) = vfs_with_root();
    vfs.create_directory("/d", Permissions::public_perms()).unwrap();
    vfs.create_file("/d/b", Permissions::public_perms()).unwrap();
    vfs.create_file("/d/a", Permissions::public_perms()).unwrap();
    assert_eq!(sorted(vfs.list_directory("/d", root.clone()).unwrap()), vec!["a".to_string(), "b".to_string()]);
    assert_eq!(vfs.list_directory("/d/a", root.clone()), Err(VfsError::InvalidOperation));
    assert_eq!(vfs.list_directory("/nope", root), Err(VfsError::InvalidPath));
}

#[test]
fn users_are_numbered_and_unique_by_name() {
    let mut vfs = VFS::new();
    let first = vfs.add_user(User::new("first", 0b111)).unwrap();
    let second = vfs.add_user(User::new("second", 0b100)).unwrap();
    let preset = vfs.add_user(User::with_id("preset", 0b100, 42)).unwrap();
    assert_eq!(first.id(), 0);
    assert_eq!(second.id(), 1);
    assert_eq!(preset.id(), 42);
    assert_eq!(vfs.add_user(User::new("first", 0b000)).err(), Some(VfsError::InvalidOperation));
    assert_eq!(vfs.remove_user(&User::new("second", 0)), Ok(()));
    assert_eq!(vfs.remove_user(&User::new("second", 0)), Err(VfsError::InvalidOperation));
    assert!(vfs.add_user(User::new("second", 0b100)).is_ok());
}

#[test]
fn groups_are_unique_by_name() {
    let mut vfs = VFS::new();
    assert_eq!(vfs.add_group(Group::new("staff", 0b110, 1)), Ok(()));
    assert_eq!(vfs.add_group(Group::new("staff", 0b000, 2)), Err(VfsError::InvalidOperation));
    assert_eq!(vfs.remove_group(&Group::new("staff", 0, 0)), Ok(()));
    assert_eq!(vfs.remove_group(&Group::new("staff", 0, 0)), Err(VfsError::InvalidOperation));
}

#[test]
fn default_user_and_permissions() {
    let user = User::default();
    assert_eq!(user.id(), 0);
    assert_eq!(user.name(), "root");
    assert_eq!(user.permissions(), 0b111);
    let p = Permissions::default();
    assert_eq!(p.owner_perms(), 0b111);
    assert_eq!(p.group_perms(), 0);
    assert_eq!(p.other_perms(), 0);
}

#[test]
fn node_accessors() {
    let (mut vfs, _root) = vfs_with_root();
    vfs.create_directory("/d", Permissions::public_perms()).unwrap();
    vfs.create_file("/d/f", Permissions::public_perms()).unwrap();
    let d = vfs.find_node("/d").unwrap();
    assert!(d.get_child("f").is_some());
    assert!(d.get_child("g").is_none());
    assert!(d.contents().is_none());
    assert_eq!(d.get_child("f").unwrap().contents(), Some(&vec![]));
    let fresh = vos::node::VfsNode::new("n".to_string());
    assert_eq!(fresh.name(), "n");
    assert_eq!(fresh.contents(), Some(&vec![]));
}

#[test]
fn stubs_succeed() {
    let g = GraphicsLib::new();
    assert_eq!(g.draw_triangle(), Ok(()));
    assert_eq!(draw_triangle(&g), Ok(()));
    let wm = WindowManager::new();
    wm.open_window("w", 10, 20);
    assert_eq!(wm.close_window("w"), Ok(()));
}
