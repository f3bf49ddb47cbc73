//! Control operations: each one decides, from the reconciled model alone,
//! which object identity a mount, unmount or eject call must target, and
//! when the action is rejected outright.

use vstd::prelude::*;

use crate::model::{Block, Drive};

verus! {

/// Why a call against the device-management service failed.
pub enum ServiceError {
    /// The service cannot be reached.
    Connection,
    /// A per-object property fetch failed.
    Query,
    /// A mount, unmount or eject action was rejected.
    Action,
}

/// One mutating call to issue against the device service: the action and
/// the object identity it targets.
pub enum ControlCall {
    /// Mount the filesystem of the object with the given identity.
    MountFilesystem(String),
    /// Unmount the filesystem of the object with the given identity.
    UnmountFilesystem(String),
    /// Eject the drive with the given identity.
    EjectDrive(String),
}

/// The mount call for a block targets the block's own object identity.
pub fn mount_call(block: &Block) -> (c: ControlCall)
    ensures
        c == ControlCall::MountFilesystem(block.object_path),
{
    ControlCall::MountFilesystem(block.object_path.clone())
}

/// The unmount call for a block targets the block's own object identity.
pub fn unmount_call(block: &Block) -> (c: ControlCall)
    ensures
        c == ControlCall::UnmountFilesystem(block.object_path),
{
    ControlCall::UnmountFilesystem(block.object_path.clone())
}

/// The drive of the model that owns the given block: the one whose object
/// identity is the block's owning-drive identity.
pub fn owning_drive(drives: &Vec<Drive>, block: &Block) -> (r: Option<usize>)
    ensures
        match r {
            Option::Some(i) => i < drives@.len() && drives@[i as int].object_path@
                == block.drive_path@,
            Option::None => forall|i: int|
                0 <= i < drives@.len() ==> drives@[i].object_path@ != block.drive_path@,
        },
{
    let mut i: usize = 0;
    while i < drives.len()
        invariant
            i <= drives@.len(),
            forall|j: int| 0 <= j < i ==> drives@[j].object_path@ != block.drive_path@,
        decreases drives@.len() - i,
    {
        if drives[i].object_path == block.drive_path {
            return Option::Some(i);
        }
        i = i + 1;
    }
    Option::None
}

/// Eject is a drive-level action: the call targets the owning drive's
/// identity, never the block's own, and a drive that is not ejectable has
/// the action rejected without a service call.
pub fn eject_call(drive: &Drive, block: &Block) -> (r: Result<ControlCall, ServiceError>)
    requires
        drive.object_path@ == block.drive_path@,
    ensures
        drive.ejectable ==> r == Result::<ControlCall, ServiceError>::Ok(
            ControlCall::EjectDrive(block.drive_path),
        ),
        !drive.ejectable ==> r == Result::<ControlCall, ServiceError>::Err(ServiceError::Action),
{
    if drive.ejectable {
        Result::Ok(ControlCall::EjectDrive(block.drive_path.clone()))
    } else {
        Result::Err(ServiceError::Action)
    }
}

} // verus!
