//! Scenario tests for the reconciliation engine.

use drivemodel::model::{BlockRecord, DeviceRecord, DriveRecord, MountRecord};
use drivemodel::reconcile::reconcile;

#[test]
fn empty_inputs_yield_only_the_synthetic_drive() {
    let out = reconcile(Vec::new(), Vec::new());
    assert_eq!(out.len(), 1);
    assert_eq!(out[0].object_path.as_str(), "fstab");
    assert_eq!(out[0].id.as_str(), "fstab");
    assert_eq!(out[0].model.as_str(), "fstab");
    assert!(!out[0].ejectable);
    assert_eq!(out[0].blocks.len(), 0);
}

#[test]
fn drive_record_after_its_block_merges_into_placeholder() {
    let records = vec![
        DeviceRecord::Block(BlockRecord {
            object_path: "/block/sda1".to_string(),
            drive_path: "/drives/0".to_string(),
            dev: "sda1".to_string(),
            label: String::new(),
            fstype: "ext4".to_string(),
            size: String::new(),
        }),
        DeviceRecord::Drive(DriveRecord {
            object_path: "/drives/0".to_string(),
            id: "Samsung".to_string(),
            model: "SSD".to_string(),
            ejectable: false,
        }),
    ];
    let out = reconcile(records, Vec::new());
    assert_eq!(out.len(), 2);
    assert_eq!(out[0].object_path.as_str(), "/drives/0");
    assert_eq!(out[0].id.as_str(), "Samsung");
    assert_eq!(out[0].model.as_str(), "SSD");
    assert!(!out[0].ejectable);
    assert_eq!(out[0].blocks.len(), 1);
    assert_eq!(out[0].blocks[0].dev.as_str(), "sda1");
    assert_eq!(out[0].blocks[0].fstype.as_str(), "ext4");
    assert_eq!(out[1].object_path.as_str(), "fstab");
    assert_eq!(out[1].blocks.len(), 0);
}

#[test]
fn orphan_mount_record_becomes_a_synthetic_block() {
    let mounts = vec![MountRecord {
        dev: "sdb1".to_string(),
        path: Some("/mnt/usb".to_string()),
        fs: "vfat".to_string(),
        mounted: true,
    }];
    let out = reconcile(Vec::new(), mounts);
    assert_eq!(out.len(), 1);
    assert_eq!(out[0].object_path.as_str(), "fstab");
    assert_eq!(out[0].blocks.len(), 1);
    let b = &out[0].blocks[0];
    assert_eq!(b.dev.as_str(), "sdb1");
    assert_eq!(b.mount.as_deref(), Some("/mnt/usb"));
    assert!(b.mounted);
    assert_eq!(b.label.as_str(), "");
    assert_eq!(b.object_path.as_str(), "");
    assert_eq!(b.drive_path.as_str(), "fstab");
    assert_eq!(b.fstype.as_str(), "vfat");
    assert_eq!(b.size.as_str(), "");
}

#[test]
fn mount_record_enriches_matching_block_in_place() {
    let records = vec![DeviceRecord::Block(BlockRecord {
        object_path: "/block/sda1".to_string(),
        drive_path: "/drives/0".to_string(),
        dev: "sda1".to_string(),
        label: "root".to_string(),
        fstype: "ext4".to_string(),
        size: "10 GB".to_string(),
    })];
    let mounts = vec![MountRecord {
        dev: "sda1".to_string(),
        path: Some("/".to_string()),
        fs: "ext4".to_string(),
        mounted: true,
    }];
    let out = reconcile(records, mounts);
    assert_eq!(out.len(), 2);
    assert_eq!(out[0].object_path.as_str(), "/drives/0");
    assert_eq!(out[0].blocks.len(), 1);
    let b = &out[0].blocks[0];
    assert_eq!(b.dev.as_str(), "sda1");
    assert_eq!(b.mount.as_deref(), Some("/"));
    assert!(b.mounted);
    assert_eq!(b.label.as_str(), "root");
    assert_eq!(b.size.as_str(), "10 GB");
    assert_eq!(out[1].object_path.as_str(), "fstab");
    assert_eq!(out[1].blocks.len(), 0);
}

#[test]
fn output_is_sorted_and_order_independent() {
    let mk = |swap: bool| {
        let drive = DeviceRecord::Drive(DriveRecord {
            object_path: "/drives/1".to_string(),
            id: "d1".to_string(),
            model: "m1".to_string(),
            ejectable: true,
        });
        let block = DeviceRecord::Block(BlockRecord {
            object_path: "/block/sdc1".to_string(),
            drive_path: "/drives/1".to_string(),
            dev: "sdc1".to_string(),
            label: String::new(),
            fstype: "xfs".to_string(),
            size: String::new(),
        });
        let records = if swap { vec![block, drive] } else { vec![drive, block] };
        reconcile(records, Vec::new())
    };
    let a = mk(false);
    let b = mk(true);
    assert_eq!(a.len(), b.len());
    for (x, y) in a.iter().zip(b.iter()) {
        assert_eq!(x.object_path, y.object_path);
        assert_eq!(x.id, y.id);
        assert_eq!(x.model, y.model);
        assert_eq!(x.ejectable, y.ejectable);
        assert_eq!(x.blocks.len(), y.blocks.len());
        for (u, v) in x.blocks.iter().zip(y.blocks.iter()) {
            assert_eq!(u.dev, v.dev);
        }
    }
    for w in a.windows(2) {
        assert!(w[0].object_path <= w[1].object_path);
    }
}
