//! Tests for the control-operation decisions.

use drivemodel::model::{Block, Drive};
use drivemodel::ops::{eject_call, mount_call, owning_drive, unmount_call, ControlCall, ServiceError};

fn sample_block() -> Block {
    Block {
        object_path: "/block/sdd1".to_string(),
        drive_path: "/drives/7".to_string(),
        dev: "sdd1".to_string(),
        label: "backup".to_string(),
        mount: None,
        fstype: "ext4".to_string(),
        mounted: false,
        size: "500 GB".to_string(),
    }
}

fn sample_drive(ejectable: bool) -> Drive {
    Drive {
        id: "WD".to_string(),
        object_path: "/drives/7".to_string(),
        model: "Elements".to_string(),
        ejectable,
        blocks: Vec::new(),
    }
}

#[test]
fn mount_targets_the_blocks_own_identity() {
    let b = sample_block();
    match mount_call(&b) {
        ControlCall::MountFilesystem(target) => assert_eq!(target.as_str(), "/block/sdd1"),
        _ => panic!("wrong action"),
    }
}

#[test]
fn unmount_targets_the_blocks_own_identity() {
    let b = sample_block();
    match unmount_call(&b) {
        ControlCall::UnmountFilesystem(target) => assert_eq!(target.as_str(), "/block/sdd1"),
        _ => panic!("wrong action"),
    }
}

#[test]
fn eject_targets_the_owning_drive_identity() {
    let b = sample_block();
    let d = sample_drive(true);
    match eject_call(&d, &b) {
        Ok(ControlCall::EjectDrive(target)) => assert_eq!(target.as_str(), "/drives/7"),
        _ => panic!("wrong action"),
    }
}

#[test]
fn eject_on_a_non_ejectable_drive_is_rejected() {
    let b = sample_block();
    let d = sample_drive(false);
    let blocks_before = d.blocks.len();
    match eject_call(&d, &b) {
        Err(ServiceError::Action) => {}
        _ => panic!("expected the action to be rejected"),
    }
    assert_eq!(d.blocks.len(), blocks_before);
    assert_eq!(d.object_path.as_str(), "/drives/7");
    assert!(!d.ejectable);
}

#[test]
fn owning_drive_finds_the_drive_by_identity() {
    let b = sample_block();
    let drives = vec![
        Drive {
            id: String::new(),
            object_path: "/drives/1".to_string(),
            model: String::new(),
            ejectable: false,
            blocks: Vec::new(),
        },
        sample_drive(true),
    ];
    assert_eq!(owning_drive(&drives, &b), Some(1));
    let stray = Block {
        drive_path: "/drives/9".to_string(),
        ..sample_block()
    };
    assert_eq!(owning_drive(&drives, &stray), None);
}
