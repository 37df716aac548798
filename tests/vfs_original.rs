use vos::node::VfsNode;
use vos::perms::{Group, Permissions, User};
use vos::vfs::VFS;

const DISK_TEXT: [u8; 21] = [
    104, 101, 108, 108, 111, 44, 32, 102, 114, 111, 109, 32, 116, 104, 101, 32, 100, 105, 115, 107, 33,
];

#[test]
fn test_user_creation() {
    let user = User::new("Alice", 0b111);
    assert_eq!(user.name(), "Alice");
    assert_eq!(user.permissions(), 0b111);
    assert!(user.groups().is_empty());
}

#[test]
fn test_group_creation() {
    let group = Group::new("Admin", 0b111, 1);
    assert_eq!(group.name(), "Admin");
    assert_eq!(group.permissions(), 0b111);
}

#[test]
fn test_vfs_node_file_creation() {
    let file_node = VfsNode::new_file("file.txt".to_string(), vec![], 1629139200, Permissions::default());
    assert_eq!(file_node.name(), "file.txt");
    assert_eq!(file_node.last_modified(), 1629139200);
}

#[test]
fn test_new_vfs() {
    let vfs = VFS::new();
    assert_eq!(vfs.root().name(), "/", "Root node name does not match");
    let root_children = vfs.root().child_names();
    assert_eq!(root_children.len(), 0, "Root node should not have any children");
}

#[test]
fn test_new_file_node() {
    let mut vfs = VFS::new();
    let perms = Permissions::default();
    let result = vfs.create_file("/blah", perms);
    assert!(result.is_ok(), "File was not created, error: {:?}", result.err());
    let root_children = vfs.root().child_names();
    assert_eq!(root_children.len(), 1, "Root node should have one child");
}

#[test]
fn test_file_no_permission_delete() {
    let mut vfs = VFS::new();
    let root_user = vfs.add_user(User::new("root", 0b111)).unwrap();
    let regular_user = vfs.add_user(User::new("regular", 0b100)).unwrap();
    vfs.create_file("/test", Permissions::private_perms_for_root()).unwrap();
    let result = vfs.delete("/test", regular_user);
    assert!(result.is_err(), "Got error {:?} when deleting file", result.err());
    let result = vfs.delete("/test", root_user);
    assert!(result.is_ok(), "Got error {:?} when deleting file", result.err());
}

#[test]
fn test_serialization() {
    let mut vfs = VFS::new();
    let _root_user = vfs.add_user(User::new("root", 0b111)).unwrap();
    let _regular_user = vfs.add_user(User::new("regular", 0b100)).unwrap();
    vfs.create_file("/test", Permissions::private_perms_for_root()).unwrap();
    let bytes = vfs.serialize_to_bytes();
    let mut new_vfs = VFS::new();
    new_vfs.deserialize_from_bytes(&bytes).unwrap();
    assert!(new_vfs.find_node("/test").is_ok(), "Failed to deserialize file");
}

#[test]
fn test_writing_of_file() {
    let mut vfs = VFS::new();
    let root_user = vfs.add_user(User::new("root", 0b111)).unwrap();
    let result = vfs.create_file("/test", Permissions::private_perms_for_root());
    assert!(result.is_ok(), "Got error {:?} when creating file", result.err());
    let result = vfs.write_file("/test", vec![1, 2, 3], root_user);
    assert!(result.is_ok(), "Got error {:?} when writing to file", result.err());
}

#[test]
fn test_reading_of_file() {
    let mut vfs = VFS::new();
    let root_user = vfs.add_user(User::new("root", 0b111)).unwrap();
    let result = vfs.create_file("/test", Permissions::private_perms_for_root());
    assert!(result.is_ok(), "Got error {:?} when creating file", result.err());
    let result = vfs.write_file("/test", vec![1, 2, 3], root_user.clone());
    assert!(result.is_ok(), "Got error {:?} when writing to file", result.err());
    let result = vfs.read_file("/test", root_user);
    assert!(result.is_ok(), "Got error {:?} when reading file", result.err());
    let contents = result.unwrap();
    assert_eq!(contents, vec![1, 2, 3], "File contents do not match");
}

#[test]
fn test_copying_file() {
    let mut vfs = VFS::new();
    let _user = vfs.add_user(User::new("root", 0b111)).unwrap();
    vfs.import_file("/test.txt", DISK_TEXT.to_vec()).unwrap();
    vfs.copy_file("/test.txt", "/test_2.txt", _user.clone()).unwrap();
    let result = vfs.read_file("/test_2.txt", _user);
    assert!(result.is_ok(), "Got error {:?} when reading file", result.err());
    let contents = result.unwrap();
    assert_eq!(contents, DISK_TEXT.to_vec(), "File contents do not match");
}
