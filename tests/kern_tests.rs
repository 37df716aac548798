use vos::kern::{KernalError, Kernel, ProcessTable};
use vos::perms::Permissions;

#[test]
fn processes_get_sequential_ids() {
    let mut table: ProcessTable<&str> = ProcessTable::new();
    assert_eq!(table.add_process("init").ok(), Some(0));
    assert_eq!(table.add_process("shell").ok(), Some(1));
    assert!(table.process_exists(0));
    assert!(table.process_exists(1));
    assert!(!table.process_exists(2));
    assert_eq!(table.get_process(1), Some(&"shell"));
    assert_eq!(table.get_process_context(0).unwrap().child_processes().len(), 0);
    assert_eq!(table.get_process_context(1).unwrap().process_id(), 1);
    table.remove_process(0);
    assert!(!table.process_exists(0));
    assert!(table.get_process(0).is_none());
    assert_eq!(table.add_process("next").ok(), Some(2));
}

#[test]
fn children_record_their_parent() {
    let mut table: ProcessTable<u8> = ProcessTable::new();
    table.add_process(10).ok();
    table.add_process(11).ok();
    assert_eq!(table.add_child_process(0, 1), Ok(()));
    assert_eq!(table.get_process_context(0).unwrap().child_processes(), &vec![1u32]);
    assert_eq!(table.get_process_context(1).unwrap().parent_process(), Some(0));
    assert_eq!(table.add_child_process(0, 1), Err(KernalError::ProcessAlreadyLinked(0, 1)));
    assert_eq!(table.add_child_process(5, 1), Err(KernalError::ProcessNotFound(5)));
    assert_eq!(table.add_child_process(0, 7), Err(KernalError::ProcessNotFound(7)));
}

#[test]
fn links_can_be_added_and_removed() {
    let mut table: ProcessTable<u8> = ProcessTable::new();
    table.add_process(1).ok();
    table.add_process(2).ok();
    assert_eq!(table.unlink_process(0, 1), Err(KernalError::ProcessNotLinked(0)));
    assert_eq!(table.link_process(0, 1), Ok(()));
    assert_eq!(table.link_process(0, 1), Err(KernalError::ProcessAlreadyLinked(0, 1)));
    assert_eq!(table.get_process_context(0).unwrap().linked_processes(), &vec![1u32]);
    assert_eq!(table.link_process(0, 9), Err(KernalError::ProcessNotFound(9)));
    assert_eq!(table.unlink_process(0, 1), Ok(()));
    assert!(table.get_process_context(0).unwrap().linked_processes().is_empty());
    assert_eq!(table.unlink_process(3, 1), Err(KernalError::ProcessNotFound(3)));
}

#[test]
fn kernel_starts_empty() {
    let mut kernel: Kernel<u8> = Kernel::new();
    assert!(kernel.vfs_mut().create_file("/boot", Permissions::public_perms()).is_ok());
    assert_eq!(kernel.process_table_mut().add_process(3).ok(), Some(0));
    assert!(kernel.process_table_mut().process_exists(0));
}
