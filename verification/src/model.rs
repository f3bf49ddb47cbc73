//! Data model: the reconciled `Drive`/`Block` entities, the raw records the
//! two sources deliver, and the ghost views that contracts speak about.

use vstd::prelude::*;

verus! {

/// One filesystem-bearing device node of the reconciled model.
pub struct Block {
    /// Opaque handle into the device service; empty if the block exists only
    /// in the mount table.
    pub object_path: String,
    /// Identity of the owning drive, used to target drive-level actions.
    pub drive_path: String,
    /// Device node path; the join key across the two sources.
    pub dev: String,
    /// Human-readable label.
    pub label: String,
    /// Mount path discovered from the mount table, if any.
    pub mount: Option<String>,
    /// Filesystem type.
    pub fstype: String,
    /// Mounted flag discovered from the mount table.
    pub mounted: bool,
    /// Display-formatted size.
    pub size: String,
}

/// One device-service drive group, or the synthetic grouping for orphaned
/// mount entries.
pub struct Drive {
    /// Stable identifier reported by the device service.
    pub id: String,
    /// Opaque handle into the device service.
    pub object_path: String,
    /// Model name reported by the device service.
    pub model: String,
    /// Whether the medium can be ejected.
    pub ejectable: bool,
    /// The blocks this drive owns.
    pub blocks: Vec<Block>,
}

/// A drive record as delivered by the device service.
pub struct DriveRecord {
    pub object_path: String,
    pub id: String,
    pub model: String,
    pub ejectable: bool,
}

/// A block record as delivered by the device service.
pub struct BlockRecord {
    pub object_path: String,
    /// Identity of the drive that owns this block.
    pub drive_path: String,
    pub dev: String,
    pub label: String,
    pub fstype: String,
    pub size: String,
}

/// One managed object of the device service: either a drive or a block.
pub enum DeviceRecord {
    Drive(DriveRecord),
    Block(BlockRecord),
}

/// One entry of the static mount table.
pub struct MountRecord {
    pub dev: String,
    pub path: Option<String>,
    pub fs: String,
    pub mounted: bool,
}

/// Ghost view of a [`Block`]: every string as a character sequence.
#[verifier::ext_equal]
pub struct BlockView {
    pub object_path: Seq<char>,
    pub drive_path: Seq<char>,
    pub dev: Seq<char>,
    pub label: Seq<char>,
    pub mount: Option<Seq<char>>,
    pub fstype: Seq<char>,
    pub mounted: bool,
    pub size: Seq<char>,
}

/// Ghost view of a [`Drive`].
#[verifier::ext_equal]
pub struct DriveView {
    pub id: Seq<char>,
    pub object_path: Seq<char>,
    pub model: Seq<char>,
    pub ejectable: bool,
    pub blocks: Seq<BlockView>,
}

/// Ghost view of a [`DriveRecord`].
#[verifier::ext_equal]
pub struct DriveRecordView {
    pub object_path: Seq<char>,
    pub id: Seq<char>,
    pub model: Seq<char>,
    pub ejectable: bool,
}

/// Ghost view of a [`BlockRecord`].
#[verifier::ext_equal]
pub struct BlockRecordView {
    pub object_path: Seq<char>,
    pub drive_path: Seq<char>,
    pub dev: Seq<char>,
    pub label: Seq<char>,
    pub fstype: Seq<char>,
    pub size: Seq<char>,
}

/// Ghost view of a [`DeviceRecord`].
#[verifier::ext_equal]
pub enum DeviceRecordView {
    Drive(DriveRecordView),
    Block(BlockRecordView),
}

/// Ghost view of a [`MountRecord`].
#[verifier::ext_equal]
pub struct MountRecordView {
    pub dev: Seq<char>,
    pub path: Option<Seq<char>>,
    pub fs: Seq<char>,
    pub mounted: bool,
}

pub open spec fn opt_view(o: Option<String>) -> Option<Seq<char>> {
    match o {
        Option::Some(s) => Option::Some(s@),
        Option::None => Option::None,
    }
}

impl View for Block {
    type V = BlockView;

    open spec fn view(&self) -> BlockView {
        BlockView {
            object_path: self.object_path@,
            drive_path: self.drive_path@,
            dev: self.dev@,
            label: self.label@,
            mount: opt_view(self.mount),
            fstype: self.fstype@,
            mounted: self.mounted,
            size: self.size@,
        }
    }
}

impl View for Drive {
    type V = DriveView;

    open spec fn view(&self) -> DriveView {
        DriveView {
            id: self.id@,
            object_path: self.object_path@,
            model: self.model@,
            ejectable: self.ejectable,
            blocks: self.blocks@.map_values(|b: Block| b@),
        }
    }
}

impl View for DriveRecord {
    type V = DriveRecordView;

    open spec fn view(&self) -> DriveRecordView {
        DriveRecordView {
            object_path: self.object_path@,
            id: self.id@,
            model: self.model@,
            ejectable: self.ejectable,
        }
    }
}

impl View for BlockRecord {
    type V = BlockRecordView;

    open spec fn view(&self) -> BlockRecordView {
        BlockRecordView {
            object_path: self.object_path@,
            drive_path: self.drive_path@,
            dev: self.dev@,
            label: self.label@,
            fstype: self.fstype@,
            size: self.size@,
        }
    }
}

impl View for DeviceRecord {
    type V = DeviceRecordView;

    open spec fn view(&self) -> DeviceRecordView {
        match self {
            DeviceRecord::Drive(d) => DeviceRecordView::Drive(d@),
            DeviceRecord::Block(b) => DeviceRecordView::Block(b@),
        }
    }
}

impl View for MountRecord {
    type V = MountRecordView;

    open spec fn view(&self) -> MountRecordView {
        MountRecordView {
            dev: self.dev@,
            path: opt_view(self.path),
            fs: self.fs@,
            mounted: self.mounted,
        }
    }
}

/// The views of a sequence of blocks.
pub open spec fn blocks_view(s: Seq<Block>) -> Seq<BlockView> {
    s.map_values(|b: Block| b@)
}

/// The views of a sequence of drives.
pub open spec fn drives_view(s: Seq<Drive>) -> Seq<DriveView> {
    s.map_values(|d: Drive| d@)
}

/// The views of a sequence of device records.
pub open spec fn recs_view(s: Seq<DeviceRecord>) -> Seq<DeviceRecordView> {
    s.map_values(|r: DeviceRecord| r@)
}

/// The views of a sequence of mount records.
pub open spec fn mounts_view(s: Seq<MountRecord>) -> Seq<MountRecordView> {
    s.map_values(|m: MountRecord| m@)
}

/// The sentinel identity of the synthetic drive that collects every block
/// whose device node has no matching device-service drive.
pub open spec fn fstab_path() -> Seq<char> {
    "fstab"@
}

/// The drive identity a record refers to: its own identity for a drive
/// record, the owning drive's identity for a block record.
pub open spec fn identity_of(r: DeviceRecordView) -> Seq<char> {
    match r {
        DeviceRecordView::Drive(d) => d.object_path,
        DeviceRecordView::Block(b) => b.drive_path,
    }
}

/// The object identity under which the device service delivered a record.
pub open spec fn record_path(r: DeviceRecordView) -> Seq<char> {
    match r {
        DeviceRecordView::Drive(d) => d.object_path,
        DeviceRecordView::Block(b) => b.object_path,
    }
}

/// Well-formedness of one enumeration pass of the device service: each
/// managed object is delivered once, device nodes are unique, and the
/// sentinel identity is never a real object identity.
pub open spec fn records_wf(rv: Seq<DeviceRecordView>) -> bool {
    &&& forall|i: int, j: int|
        0 <= i < rv.len() && 0 <= j < rv.len() && i != j ==> record_path(rv[i]) != record_path(
            rv[j],
        )
    &&& forall|i: int, j: int|
        0 <= i < rv.len() && 0 <= j < rv.len() && i != j && rv[i] is Block && rv[j] is Block
            ==> rv[i]->Block_0.dev != rv[j]->Block_0.dev
    &&& forall|i: int| 0 <= i < rv.len() ==> identity_of(rv[i]) != fstab_path()
}

/// Well-formedness of the mount table: one entry per device node.
pub open spec fn mounts_wf(mv: Seq<MountRecordView>) -> bool {
    forall|i: int, j: int|
        0 <= i < mv.len() && 0 <= j < mv.len() && i != j ==> mv[i].dev != mv[j].dev
}

/// The block built from a device-service block record, before the mount
/// table has been consulted.
pub open spec fn raw_block(b: BlockRecordView) -> BlockView {
    BlockView {
        object_path: b.object_path,
        drive_path: b.drive_path,
        dev: b.dev,
        label: b.label,
        mount: Option::None,
        fstype: b.fstype,
        mounted: false,
        size: b.size,
    }
}

/// Whether one of the first `n` mount records is for device node `dev`.
pub open spec fn has_mount_upto(mv: Seq<MountRecordView>, n: int, dev: Seq<char>) -> bool {
    exists|i: int| 0 <= i < n && mv[i].dev == dev
}

/// The mount record among the first `n` for device node `dev`.
pub open spec fn mount_upto(mv: Seq<MountRecordView>, n: int, dev: Seq<char>) -> MountRecordView {
    mv[choose|i: int| 0 <= i < n && mv[i].dev == dev]
}

/// A block with the mount path and mounted flag of a mount record attached.
pub open spec fn attach_mount(b: BlockView, m: MountRecordView) -> BlockView {
    BlockView { mount: m.path, mounted: m.mounted, ..b }
}

/// The block a device-service block record yields once the first `n` mount
/// records have been applied: the raw block, enriched in place if a mount
/// record matches its device node.
pub open spec fn enriched_upto(
    b: BlockRecordView,
    mv: Seq<MountRecordView>,
    n: int,
) -> BlockView {
    if has_mount_upto(mv, n, b.dev) {
        attach_mount(raw_block(b), mount_upto(mv, n, b.dev))
    } else {
        raw_block(b)
    }
}

/// The block a device-service block record yields in the final model.
pub open spec fn enriched_block(b: BlockRecordView, mv: Seq<MountRecordView>) -> BlockView {
    enriched_upto(b, mv, mv.len() as int)
}

/// The block synthesized for a mount record with no matching device-service
/// block: no object identity, owned by the sentinel drive, label and size
/// empty.
pub open spec fn orphan_block(m: MountRecordView) -> BlockView {
    BlockView {
        object_path: Seq::<char>::empty(),
        drive_path: fstab_path(),
        dev: m.dev,
        label: Seq::<char>::empty(),
        mount: m.path,
        fstype: m.fs,
        mounted: m.mounted,
        size: Seq::<char>::empty(),
    }
}

/// Whether no device-service block record claims the mount record's device
/// node.
pub open spec fn mount_is_orphan(rv: Seq<DeviceRecordView>, m: MountRecordView) -> bool {
    !exists|i: int| 0 <= i < rv.len() && rv[i] is Block && rv[i]->Block_0.dev == m.dev
}

/// Whether one of the first `n` records is a drive record with identity `p`.
pub open spec fn has_drive_rec_upto(rv: Seq<DeviceRecordView>, n: int, p: Seq<char>) -> bool {
    exists|i: int| 0 <= i < n && rv[i] is Drive && rv[i]->Drive_0.object_path == p
}

/// The drive record among the first `n` with identity `p`.
pub open spec fn drive_rec_upto(rv: Seq<DeviceRecordView>, n: int, p: Seq<char>) -> DriveRecordView {
    rv[choose|i: int| 0 <= i < n && rv[i] is Drive && rv[i]->Drive_0.object_path == p]->Drive_0
}

/// Whether one of the first `n` records mentions drive identity `p`.
pub open spec fn mentions_upto(rv: Seq<DeviceRecordView>, n: int, p: Seq<char>) -> bool {
    exists|i: int| 0 <= i < n && identity_of(rv[i]) == p
}

/// Whether the collection holds a drive with identity `p`.
pub open spec fn contains_drive(ds: Seq<DriveView>, p: Seq<char>) -> bool {
    exists|i: int| 0 <= i < ds.len() && ds[i].object_path == p
}

/// A drive carrying only placeholder metadata.
pub open spec fn placeholder_meta(d: DriveView) -> bool {
    &&& d.id == Seq::<char>::empty()
    &&& d.model == Seq::<char>::empty()
    &&& !d.ejectable
}

/// The object identity under which a record was delivered, as a value.
pub fn record_path_of(r: &DeviceRecord) -> (p: &String)
    ensures
        p@ == record_path(r@),
{
    match r {
        DeviceRecord::Drive(d) => &d.object_path,
        DeviceRecord::Block(b) => &b.object_path,
    }
}

/// The drive identity a record refers to, as a value.
pub fn record_identity_of(r: &DeviceRecord) -> (p: &String)
    ensures
        p@ == identity_of(r@),
{
    match r {
        DeviceRecord::Drive(d) => &d.object_path,
        DeviceRecord::Block(b) => &b.drive_path,
    }
}

/// Decides whether one enumeration pass of the device service is well
/// formed: each managed object delivered once, device nodes unique among
/// block records, and the sentinel identity never a real drive identity.
#[verifier::spinoff_prover]
pub fn check_records_wf(records: &Vec<DeviceRecord>) -> (b: bool)
    ensures
        b == records_wf(recs_view(records@)),
{
    let ghost rv = recs_view(records@);
    let fstab: String = "fstab".to_owned();
    let mut i: usize = 0;
    while i < records.len()
        invariant
            rv == recs_view(records@),
            i <= records@.len(),
            fstab@ == fstab_path(),
            forall|a: int, b2: int|
                0 <= a < b2 < i ==> record_path(rv[a]) != record_path(rv[b2]),
            forall|a: int, b2: int|
                0 <= a < b2 < i && rv[a] is Block && rv[b2] is Block ==> rv[a]->Block_0.dev
                    != rv[b2]->Block_0.dev,
            forall|a: int| 0 <= a < i ==> identity_of(rv[a]) != fstab_path(),
        decreases records@.len() - i,
    {
        if *record_identity_of(&records[i]) == fstab {
            proof {
                assert(identity_of(rv[i as int]) == fstab_path());
            }
            return false;
        }
        let mut j: usize = 0;
        while j < i
            invariant
                rv == recs_view(records@),
                j <= i,
                i < records@.len(),
                forall|a: int| 0 <= a < j ==> record_path(rv[a]) != record_path(rv[i as int]),
                forall|a: int|
                    0 <= a < j && rv[a] is Block && rv[i as int] is Block ==> rv[a]->Block_0.dev
                        != rv[i as int]->Block_0.dev,
            decreases i - j,
        {
            if *record_path_of(&records[j]) == *record_path_of(&records[i]) {
                proof {
                    assert(record_path(rv[j as int]) == record_path(rv[i as int]));
                }
                return false;
            }
            match (&records[j], &records[i]) {
                (DeviceRecord::Block(bj), DeviceRecord::Block(bi)) => {
                    if bj.dev == bi.dev {
                        proof {
                            assert(rv[j as int]->Block_0.dev == rv[i as int]->Block_0.dev);
                        }
                        return false;
                    }
                },
                _ => {},
            }
            j = j + 1;
        }
        i = i + 1;
    }
    proof {
        assert forall|a: int, b2: int|
            0 <= a < rv.len() && 0 <= b2 < rv.len() && a != b2 implies record_path(rv[a])
            != record_path(rv[b2]) by {
            if a < b2 {
            } else {
            }
        }
        assert forall|a: int, b2: int|
            0 <= a < rv.len() && 0 <= b2 < rv.len() && a != b2 && rv[a] is Block
                && rv[b2] is Block implies rv[a]->Block_0.dev != rv[b2]->Block_0.dev by {
            if a < b2 {
            } else {
            }
        }
    }
    true
}

/// Decides whether the mount table is well formed: one entry per device
/// node.
#[verifier::spinoff_prover]
pub fn check_mounts_wf(mounts: &Vec<MountRecord>) -> (b: bool)
    ensures
        b == mounts_wf(mounts_view(mounts@)),
{
    let ghost mv = mounts_view(mounts@);
    let mut i: usize = 0;
    while i < mounts.len()
        invariant
            mv == mounts_view(mounts@),
            i <= mounts@.len(),
            forall|a: int, b2: int| 0 <= a < b2 < i ==> mv[a].dev != mv[b2].dev,
        decreases mounts@.len() - i,
    {
        let mut j: usize = 0;
        while j < i
            invariant
                mv == mounts_view(mounts@),
                j <= i,
                i < mounts@.len(),
                forall|a: int| 0 <= a < j ==> mv[a].dev != mv[i as int].dev,
            decreases i - j,
        {
            if mounts[j].dev == mounts[i].dev {
                proof {
                    assert(mv[j as int].dev == mv[i as int].dev);
                }
                return false;
            }
            j = j + 1;
        }
        i = i + 1;
    }
    proof {
        assert forall|a: int, b2: int|
            0 <= a < mv.len() && 0 <= b2 < mv.len() && a != b2 implies mv[a].dev != mv[b2].dev by {
            if a < b2 {
            } else {
            }
        }
    }
    true
}

/// The drive's identifier, model and ejectable flag are the ones the first
/// `n` records assign to its identity: the drive record's fields when one
/// arrived, placeholder defaults otherwise, and the sentinel fields on the
/// synthetic drive.
pub open spec fn drive_meta_ok_upto(d: DriveView, rv: Seq<DeviceRecordView>, n: int) -> bool {
    if d.object_path == fstab_path() {
        &&& d.id == fstab_path()
        &&& d.model == fstab_path()
        &&& !d.ejectable
    } else if has_drive_rec_upto(rv, n, d.object_path) {
        let r = drive_rec_upto(rv, n, d.object_path);
        &&& d.id == r.id
        &&& d.model == r.model
        &&& d.ejectable == r.ejectable
    } else {
        placeholder_meta(d)
    }
}

} // verus!
