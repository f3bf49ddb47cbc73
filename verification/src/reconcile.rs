//! The reconciliation engine: merges device-service drive and block records
//! with the static mount table into one ordered collection of drives.

use vstd::prelude::*;

use crate::model::{
    attach_mount, blocks_view, contains_drive, drive_meta_ok_upto, drive_rec_upto, drives_view,
    enriched_block, enriched_upto, fstab_path, has_drive_rec_upto, has_mount_upto, identity_of,
    mentions_upto, mount_is_orphan, mount_upto, mounts_view, mounts_wf, orphan_block,
    placeholder_meta, raw_block, record_path, records_wf, recs_view, Block, BlockRecordView,
    BlockView, DeviceRecord, DeviceRecordView, Drive, DriveView, MountRecord, MountRecordView,
};
use crate::order::{
    lemma_lex_le_antisymmetric, lemma_lex_le_reflexive, lemma_lex_le_total,
    lemma_lex_le_transitive, lex_le, str_lex_le,
};

verus! {

/// Block `b` is one that the first `n` records put into drive `d`: the raw
/// block of a block record whose owning-drive identity is `d`'s.
pub open spec fn block_in_drive_upto(
    d: DriveView,
    rv: Seq<DeviceRecordView>,
    n: int,
    b: BlockView,
) -> bool {
    exists|j: int|
        0 <= j < n && rv[j] is Block && rv[j]->Block_0.drive_path == d.object_path && b
            == raw_block(rv[j]->Block_0)
}

/// The raw block of record `br` sits in the drive that owns it.
pub open spec fn block_placed(ds: Seq<DriveView>, br: BlockRecordView) -> bool {
    exists|i: int, k: int|
        0 <= i < ds.len() && 0 <= k < ds[i].blocks.len() && ds[i].object_path == br.drive_path
            && ds[i].blocks[k] == raw_block(br)
}

/// The collection `ds` is exactly the merge of the first `n` device-service
/// records: one drive per mentioned identity, each with the metadata of its
/// drive record (or placeholder defaults), owning the raw blocks of exactly
/// its block records, device nodes unique within each drive.
pub open spec fn merged_upto(ds: Seq<DriveView>, rv: Seq<DeviceRecordView>, n: int) -> bool {
    &&& forall|i: int, j: int| 0 <= i < j < ds.len() ==> ds[i].object_path != ds[j].object_path
    &&& forall|i: int| 0 <= i < ds.len() ==> mentions_upto(rv, n, ds[i].object_path)
    &&& forall|j: int| 0 <= j < n ==> contains_drive(ds, identity_of(rv[j]))
    &&& forall|i: int| 0 <= i < ds.len() ==> drive_meta_ok_upto(#[trigger] ds[i], rv, n)
    &&& forall|i: int, k: int|
        0 <= i < ds.len() && 0 <= k < ds[i].blocks.len() ==> block_in_drive_upto(
            ds[i],
            rv,
            n,
            #[trigger] ds[i].blocks[k],
        )
    &&& forall|j: int| 0 <= j < n && rv[j] is Block ==> block_placed(ds, rv[j]->Block_0)
    &&& forall|i: int, k: int, l: int|
        0 <= i < ds.len() && 0 <= k < l < ds[i].blocks.len() ==> ds[i].blocks[k].dev
            != ds[i].blocks[l].dev
}

/// The collection `ds` is exactly the merge of all device-service records.
pub open spec fn merged(ds: Seq<DriveView>, rv: Seq<DeviceRecordView>) -> bool {
    merged_upto(ds, rv, rv.len() as int)
}

/// Index of the drive with the given object identity, if one exists.
#[verifier::spinoff_prover]
fn find_drive(drives: &Vec<Drive>, path: &String) -> (r: Option<usize>)
    ensures
        match r {
            Option::Some(i) => i < drives@.len() && drives@[i as int].object_path@ == path@,
            Option::None => forall|i: int|
                0 <= i < drives@.len() ==> drives@[i].object_path@ != path@,
        },
{
    let mut i: usize = 0;
    while i < drives.len()
        invariant
            i <= drives@.len(),
            forall|j: int| 0 <= j < i ==> drives@[j].object_path@ != path@,
        decreases drives@.len() - i,
    {
        if drives[i].object_path == *path {
            return Option::Some(i);
        }
        i = i + 1;
    }
    Option::None
}

/// Merges one enumeration pass of the device service, in discovery order: a
/// drive record updates the drive with its identity in place or inserts it; a
/// block record joins the drive with its owning identity, a placeholder drive
/// being created when that drive has not arrived yet.
#[verifier::spinoff_prover]
pub fn merge_device_records(records: &Vec<DeviceRecord>) -> (drives: Vec<Drive>)
    requires
        records_wf(recs_view(records@)),
    ensures
        merged(drives_view(drives@), recs_view(records@)),
{
    let ghost rv = recs_view(records@);
    let mut drives: Vec<Drive> = Vec::new();
    let mut n: usize = 0;
    while n < records.len()
        invariant
            rv == recs_view(records@),
            records_wf(rv),
            rv.len() == records@.len(),
            n <= records@.len(),
            merged_upto(drives_view(drives@), rv, n as int),
        decreases records@.len() - n,
    {
        let ghost dv0 = drives_view(drives@);
        proof {
            assert(rv[n as int] == records@[n as int]@);
        }
        match &records[n] {
            DeviceRecord::Drive(d) => {
                proof {
                    assert(rv[n as int] is Drive && rv[n as int]->Drive_0 == d@);
                }
                match find_drive(&drives, &d.object_path) {
                    Option::Some(i) => {
                        drives[i].id = d.id.clone();
                        drives[i].model = d.model.clone();
                        drives[i].ejectable = d.ejectable;
                        proof {
                            lemma_merge_step_drive_update(dv0, drives_view(drives@), rv, n as int, i as int);
                        }
                    },
                    Option::None => {
                        drives.push(
                            Drive {
                                id: d.id.clone(),
                                object_path: d.object_path.clone(),
                                model: d.model.clone(),
                                ejectable: d.ejectable,
                                blocks: Vec::new(),
                            },
                        );
                        proof {
                            lemma_merge_step_drive_push(dv0, drives_view(drives@), rv, n as int);
                        }
                    },
                }
            },
            DeviceRecord::Block(b) => {
                proof {
                    assert(rv[n as int] is Block && rv[n as int]->Block_0 == b@);
                }
                let block = Block {
                    object_path: b.object_path.clone(),
                    drive_path: b.drive_path.clone(),
                    dev: b.dev.clone(),
                    label: b.label.clone(),
                    mount: Option::None,
                    fstype: b.fstype.clone(),
                    mounted: false,
                    size: b.size.clone(),
                };
                proof {
                    assert(block@ == raw_block(rv[n as int]->Block_0));
                }
                match find_drive(&drives, &b.drive_path) {
                    Option::Some(i) => {
                        drives[i].blocks.push(block);
                        proof {
                            lemma_merge_step_block_append(dv0, drives_view(drives@), rv, n as int, i as int);
                        }
                    },
                    Option::None => {
                        let mut owned: Vec<Block> = Vec::new();
                        owned.push(block);
                        drives.push(
                            Drive {
                                id: String::new(),
                                object_path: b.drive_path.clone(),
                                model: String::new(),
                                ejectable: false,
                                blocks: owned,
                            },
                        );
                        proof {
                            lemma_merge_step_block_push(dv0, drives_view(drives@), rv, n as int);
                        }
                    },
                }
            },
        }
        n = n + 1;
    }
    drives
}

/// A drive record never shares its identity with a second drive record.
#[verifier::spinoff_prover]
proof fn lemma_unique_drive_rec(rv: Seq<DeviceRecordView>, i: int, j: int)
    requires
        records_wf(rv),
        0 <= i < rv.len(),
        0 <= j < rv.len(),
        rv[i] is Drive,
        rv[j] is Drive,
        rv[i]->Drive_0.object_path == rv[j]->Drive_0.object_path,
    ensures
        i == j,
{
    assert(record_path(rv[i]) == rv[i]->Drive_0.object_path);
    assert(record_path(rv[j]) == rv[j]->Drive_0.object_path);
}

/// Extending the prefix by a non-matching record changes no drive's
/// metadata obligation.
#[verifier::spinoff_prover]
proof fn lemma_meta_stable(d: DriveView, rv: Seq<DeviceRecordView>, n: int)
    requires
        records_wf(rv),
        0 <= n < rv.len(),
        drive_meta_ok_upto(d, rv, n),
        rv[n] is Drive ==> rv[n]->Drive_0.object_path != d.object_path,
    ensures
        drive_meta_ok_upto(d, rv, n + 1),
{
    if d.object_path == fstab_path() {
    } else if has_drive_rec_upto(rv, n + 1, d.object_path) {
        let w = choose|i: int|
            0 <= i < n + 1 && rv[i] is Drive && rv[i]->Drive_0.object_path == d.object_path;
        assert(w < n);
        assert(has_drive_rec_upto(rv, n, d.object_path));
        let w0 = choose|i: int|
            0 <= i < n && rv[i] is Drive && rv[i]->Drive_0.object_path == d.object_path;
        lemma_unique_drive_rec(rv, w, w0);
        assert(drive_rec_upto(rv, n + 1, d.object_path) == drive_rec_upto(rv, n, d.object_path));
    } else {
        assert(!has_drive_rec_upto(rv, n, d.object_path));
    }
}

#[verifier::spinoff_prover]
proof fn lemma_merge_step_drive_update(
    dv0: Seq<DriveView>,
    dv1: Seq<DriveView>,
    rv: Seq<DeviceRecordView>,
    n: int,
    i: int,
)
    requires
        records_wf(rv),
        0 <= n < rv.len(),
        rv[n] is Drive,
        merged_upto(dv0, rv, n),
        0 <= i < dv0.len(),
        dv0[i].object_path == rv[n]->Drive_0.object_path,
        dv1 =~~= dv0.update(
            i,
            DriveView {
                id: rv[n]->Drive_0.id,
                model: rv[n]->Drive_0.model,
                ejectable: rv[n]->Drive_0.ejectable,
                ..dv0[i]
            },
        ),
    ensures
        merged_upto(dv1, rv, n + 1),
{
    let p = rv[n]->Drive_0.object_path;
    assert forall|k: int| 0 <= k < dv1.len() implies drive_meta_ok_upto(#[trigger] dv1[k], rv, n + 1) by {
        if k == i {
            assert(mentions_upto(rv, n, p));
            assert(identity_of(rv[n]) == p);
            assert(p != fstab_path());
            assert(has_drive_rec_upto(rv, n + 1, p));
            let w = choose|m: int|
                0 <= m < n + 1 && rv[m] is Drive && rv[m]->Drive_0.object_path == p;
            lemma_unique_drive_rec(rv, w, n);
            assert(drive_rec_upto(rv, n + 1, p) == rv[n]->Drive_0);
        } else {
            assert(dv1[k] == dv0[k]);
            assert(dv0[k].object_path != p);
            lemma_meta_stable(dv0[k], rv, n);
        }
    }
    assert forall|j: int| 0 <= j < n + 1 implies contains_drive(dv1, identity_of(rv[j])) by {
        if j < n {
            let w = choose|m: int| 0 <= m < dv0.len() && dv0[m].object_path == identity_of(rv[j]);
            assert(dv1[w].object_path == dv0[w].object_path);
        } else {
            assert(dv1[i].object_path == p);
        }
    }
    assert forall|j: int| 0 <= j < n + 1 && rv[j] is Block implies block_placed(
        dv1,
        rv[j]->Block_0,
    ) by {
        assert(j < n);
        let (a, k): (int, int) = choose|a: int, k: int|
            0 <= a < dv0.len() && 0 <= k < dv0[a].blocks.len() && dv0[a].object_path
                == rv[j]->Block_0.drive_path && dv0[a].blocks[k] == raw_block(rv[j]->Block_0);
        assert(dv1[a].blocks == dv0[a].blocks);
        assert(dv1[a].object_path == dv0[a].object_path);
    }
}

#[verifier::spinoff_prover]
proof fn lemma_merge_step_drive_push(
    dv0: Seq<DriveView>,
    dv1: Seq<DriveView>,
    rv: Seq<DeviceRecordView>,
    n: int,
)
    requires
        records_wf(rv),
        0 <= n < rv.len(),
        rv[n] is Drive,
        merged_upto(dv0, rv, n),
        forall|i: int| 0 <= i < dv0.len() ==> dv0[i].object_path != rv[n]->Drive_0.object_path,
        dv1 =~~= dv0.push(
            DriveView {
                id: rv[n]->Drive_0.id,
                object_path: rv[n]->Drive_0.object_path,
                model: rv[n]->Drive_0.model,
                ejectable: rv[n]->Drive_0.ejectable,
                blocks: Seq::<BlockView>::empty(),
            },
        ),
    ensures
        merged_upto(dv1, rv, n + 1),
{
    let p = rv[n]->Drive_0.object_path;
    let last = dv0.len() as int;
    assert(identity_of(rv[n]) == p);
    assert forall|k: int| 0 <= k < dv1.len() implies drive_meta_ok_upto(#[trigger] dv1[k], rv, n + 1) by {
        if k == last {
            assert(p != fstab_path());
            assert(has_drive_rec_upto(rv, n + 1, p));
            let w = choose|m: int|
                0 <= m < n + 1 && rv[m] is Drive && rv[m]->Drive_0.object_path == p;
            lemma_unique_drive_rec(rv, w, n);
            assert(drive_rec_upto(rv, n + 1, p) == rv[n]->Drive_0);
        } else {
            assert(dv1[k] == dv0[k]);
            assert(dv0[k].object_path != p);
            lemma_meta_stable(dv0[k], rv, n);
        }
    }
    assert forall|j: int| 0 <= j < n + 1 implies contains_drive(dv1, identity_of(rv[j])) by {
        if j < n {
            let w = choose|m: int| 0 <= m < dv0.len() && dv0[m].object_path == identity_of(rv[j]);
            assert(dv1[w].object_path == dv0[w].object_path);
        } else {
            assert(dv1[last].object_path == p);
        }
    }
    assert forall|j: int| 0 <= j < n + 1 && rv[j] is Block implies block_placed(
        dv1,
        rv[j]->Block_0,
    ) by {
        assert(j < n);
        let (a, k): (int, int) = choose|a: int, k: int|
            0 <= a < dv0.len() && 0 <= k < dv0[a].blocks.len() && dv0[a].object_path
                == rv[j]->Block_0.drive_path && dv0[a].blocks[k] == raw_block(rv[j]->Block_0);
        assert(dv1[a].blocks == dv0[a].blocks);
        assert(dv1[a].object_path == dv0[a].object_path);
    }
}

#[verifier::spinoff_prover]
proof fn lemma_merge_step_block_append(
    dv0: Seq<DriveView>,
    dv1: Seq<DriveView>,
    rv: Seq<DeviceRecordView>,
    n: int,
    i: int,
)
    requires
        records_wf(rv),
        0 <= n < rv.len(),
        rv[n] is Block,
        merged_upto(dv0, rv, n),
        0 <= i < dv0.len(),
        dv0[i].object_path == rv[n]->Block_0.drive_path,
        dv1 =~~= dv0.update(
            i,
            DriveView { blocks: dv0[i].blocks.push(raw_block(rv[n]->Block_0)), ..dv0[i] },
        ),
    ensures
        merged_upto(dv1, rv, n + 1),
{
    let br = rv[n]->Block_0;
    let p = br.drive_path;
    assert(identity_of(rv[n]) == p);
    assert forall|k: int| 0 <= k < dv1.len() implies drive_meta_ok_upto(#[trigger] dv1[k], rv, n + 1) by {
        if k == i {
            lemma_meta_stable(dv0[i], rv, n);
            assert(dv1[k].object_path == dv0[k].object_path);
            assert(dv1[k].id == dv0[k].id);
            assert(dv1[k].model == dv0[k].model);
            assert(dv1[k].ejectable == dv0[k].ejectable);
        } else {
            assert(dv1[k] == dv0[k]);
            lemma_meta_stable(dv0[k], rv, n);
        }
    }
    assert forall|j: int| 0 <= j < n + 1 implies contains_drive(dv1, identity_of(rv[j])) by {
        if j < n {
            let w = choose|m: int| 0 <= m < dv0.len() && dv0[m].object_path == identity_of(rv[j]);
            assert(dv1[w].object_path == dv0[w].object_path);
        } else {
            assert(dv1[i].object_path == p);
        }
    }
    assert forall|a: int, k: int|
        0 <= a < dv1.len() && 0 <= k < dv1[a].blocks.len() implies block_in_drive_upto(
        dv1[a],
        rv,
        n + 1,
        #[trigger] dv1[a].blocks[k],
    ) by {
        if a == i && k == dv0[i].blocks.len() {
            assert(dv1[a].blocks[k] == raw_block(br));
        } else {
            assert(dv1[a].blocks[k] == dv0[a].blocks[k]);
            assert(block_in_drive_upto(dv0[a], rv, n, dv0[a].blocks[k]));
            assert(dv1[a].object_path == dv0[a].object_path);
        }
    }
    assert forall|j: int| 0 <= j < n + 1 && rv[j] is Block implies block_placed(
        dv1,
        rv[j]->Block_0,
    ) by {
        if j < n {
            let (a, k): (int, int) = choose|a: int, k: int|
                0 <= a < dv0.len() && 0 <= k < dv0[a].blocks.len() && dv0[a].object_path
                    == rv[j]->Block_0.drive_path && dv0[a].blocks[k] == raw_block(rv[j]->Block_0);
            assert(0 <= k < dv1[a].blocks.len());
            assert(dv1[a].blocks[k] == dv0[a].blocks[k]);
            assert(dv1[a].object_path == dv0[a].object_path);
        } else {
            assert(dv1[i].blocks[dv0[i].blocks.len() as int] == raw_block(br));
        }
    }
    assert forall|a: int, k: int, l: int|
        0 <= a < dv1.len() && 0 <= k < l < dv1[a].blocks.len() implies dv1[a].blocks[k].dev
        != dv1[a].blocks[l].dev by {
        if a == i && l == dv0[i].blocks.len() {
            assert(block_in_drive_upto(dv0[a], rv, n, dv0[a].blocks[k]));
            let j = choose|j: int|
                0 <= j < n && rv[j] is Block && rv[j]->Block_0.drive_path == dv0[a].object_path
                    && dv0[a].blocks[k] == raw_block(rv[j]->Block_0);
            assert(rv[j]->Block_0.dev != br.dev);
            assert(dv1[a].blocks[k] == dv0[a].blocks[k]);
        } else {
            assert(dv1[a].blocks[k] == dv0[a].blocks[k]);
            assert(dv1[a].blocks[l] == dv0[a].blocks[l]);
        }
    }
}

#[verifier::spinoff_prover]
proof fn lemma_merge_step_block_push(
    dv0: Seq<DriveView>,
    dv1: Seq<DriveView>,
    rv: Seq<DeviceRecordView>,
    n: int,
)
    requires
        records_wf(rv),
        0 <= n < rv.len(),
        rv[n] is Block,
        merged_upto(dv0, rv, n),
        forall|i: int| 0 <= i < dv0.len() ==> dv0[i].object_path != rv[n]->Block_0.drive_path,
        dv1 =~~= dv0.push(
            DriveView {
                id: Seq::<char>::empty(),
                object_path: rv[n]->Block_0.drive_path,
                model: Seq::<char>::empty(),
                ejectable: false,
                blocks: Seq::<BlockView>::empty().push(raw_block(rv[n]->Block_0)),
            },
        ),
    ensures
        merged_upto(dv1, rv, n + 1),
{
    let br = rv[n]->Block_0;
    let p = br.drive_path;
    let last = dv0.len() as int;
    assert(identity_of(rv[n]) == p);
    assert forall|k: int| 0 <= k < dv1.len() implies drive_meta_ok_upto(#[trigger] dv1[k], rv, n + 1) by {
        if k == last {
            assert(p != fstab_path());
            if has_drive_rec_upto(rv, n + 1, p) {
                let w = choose|m: int|
                    0 <= m < n + 1 && rv[m] is Drive && rv[m]->Drive_0.object_path == p;
                assert(w < n);
                assert(identity_of(rv[w]) == p);
                assert(contains_drive(dv0, p));
                assert(false);
            }
            assert(placeholder_meta(dv1[k]));
        } else {
            assert(dv1[k] == dv0[k]);
            lemma_meta_stable(dv0[k], rv, n);
        }
    }
    assert forall|j: int| 0 <= j < n + 1 implies contains_drive(dv1, identity_of(rv[j])) by {
        if j < n {
            let w = choose|m: int| 0 <= m < dv0.len() && dv0[m].object_path == identity_of(rv[j]);
            assert(dv1[w].object_path == dv0[w].object_path);
        } else {
            assert(dv1[last].object_path == p);
        }
    }
    assert forall|a: int, k: int|
        0 <= a < dv1.len() && 0 <= k < dv1[a].blocks.len() implies block_in_drive_upto(
        dv1[a],
        rv,
        n + 1,
        #[trigger] dv1[a].blocks[k],
    ) by {
        if a == last {
            assert(k == 0);
            assert(dv1[a].blocks[0] == raw_block(br));
        } else {
            assert(dv1[a].blocks[k] == dv0[a].blocks[k]);
            assert(block_in_drive_upto(dv0[a], rv, n, dv0[a].blocks[k]));
            assert(dv1[a].object_path == dv0[a].object_path);
        }
    }
    assert forall|j: int| 0 <= j < n + 1 && rv[j] is Block implies block_placed(
        dv1,
        rv[j]->Block_0,
    ) by {
        if j < n {
            let (a, k): (int, int) = choose|a: int, k: int|
                0 <= a < dv0.len() && 0 <= k < dv0[a].blocks.len() && dv0[a].object_path
                    == rv[j]->Block_0.drive_path && dv0[a].blocks[k] == raw_block(rv[j]->Block_0);
            assert(dv1[a].blocks == dv0[a].blocks);
            assert(dv1[a].object_path == dv0[a].object_path);
        } else {
            assert(dv1[last].blocks[0] == raw_block(br));
        }
    }
}

} // verus!

verus! {

/// Block `b` is one that the device-service records put into drive `d`, with
/// the first `m` mount records applied.
pub open spec fn eblock_in_drive(
    d: DriveView,
    rv: Seq<DeviceRecordView>,
    mv: Seq<MountRecordView>,
    m: int,
    b: BlockView,
) -> bool {
    exists|j: int|
        0 <= j < rv.len() && rv[j] is Block && rv[j]->Block_0.drive_path == d.object_path && b
            == enriched_upto(rv[j]->Block_0, mv, m)
}

/// The block of record `br`, with the first `m` mount records applied, sits
/// in the drive that owns it.
pub open spec fn eblock_placed(
    ds: Seq<DriveView>,
    br: BlockRecordView,
    mv: Seq<MountRecordView>,
    m: int,
) -> bool {
    exists|i: int, k: int|
        0 <= i < ds.len() && 0 <= k < ds[i].blocks.len() && ds[i].object_path == br.drive_path
            && ds[i].blocks[k] == enriched_upto(br, mv, m)
}

/// The device-service drives after the first `m` mount records have been
/// folded into their blocks.
#[verifier::opaque]
pub open spec fn device_drives_ok(
    ds: Seq<DriveView>,
    rv: Seq<DeviceRecordView>,
    mv: Seq<MountRecordView>,
    m: int,
) -> bool {
    &&& forall|i: int, j: int| 0 <= i < j < ds.len() ==> ds[i].object_path != ds[j].object_path
    &&& forall|i: int| 0 <= i < ds.len() ==> mentions_upto(rv, rv.len() as int, ds[i].object_path)
    &&& forall|j: int| 0 <= j < rv.len() ==> contains_drive(ds, identity_of(rv[j]))
    &&& forall|i: int|
        0 <= i < ds.len() ==> drive_meta_ok_upto(#[trigger] ds[i], rv, rv.len() as int)
    &&& forall|i: int, k: int|
        0 <= i < ds.len() && 0 <= k < ds[i].blocks.len() ==> eblock_in_drive(
            ds[i],
            rv,
            mv,
            m,
            #[trigger] ds[i].blocks[k],
        )
    &&& forall|j: int|
        0 <= j < rv.len() && rv[j] is Block ==> eblock_placed(ds, rv[j]->Block_0, mv, m)
    &&& forall|i: int, k: int, l: int|
        0 <= i < ds.len() && 0 <= k < l < ds[i].blocks.len() ==> ds[i].blocks[k].dev
            != ds[i].blocks[l].dev
}

/// The synthetic drive after the first `m` mount records: sentinel metadata,
/// holding exactly one orphan block per orphaned mount record seen so far.
#[verifier::opaque]
pub open spec fn fstab_ok(
    f: DriveView,
    rv: Seq<DeviceRecordView>,
    mv: Seq<MountRecordView>,
    m: int,
) -> bool {
    &&& f.object_path == fstab_path()
    &&& f.id == fstab_path()
    &&& f.model == fstab_path()
    &&& !f.ejectable
    &&& forall|k: int|
        0 <= k < f.blocks.len() ==> exists|j: int|
            0 <= j < m && mount_is_orphan(rv, mv[j]) && #[trigger] f.blocks[k] == orphan_block(
                mv[j],
            )
    &&& forall|j: int|
        0 <= j < m && mount_is_orphan(rv, #[trigger] mv[j]) ==> exists|k: int|
            0 <= k < f.blocks.len() && f.blocks[k] == orphan_block(mv[j])
    &&& forall|k: int, l: int| 0 <= k < l < f.blocks.len() ==> f.blocks[k].dev != f.blocks[l].dev
}

/// Two block records with the same device node are the same record.
#[verifier::spinoff_prover]
proof fn lemma_unique_block_rec(rv: Seq<DeviceRecordView>, i: int, j: int)
    requires
        records_wf(rv),
        0 <= i < rv.len(),
        0 <= j < rv.len(),
        rv[i] is Block,
        rv[j] is Block,
        rv[i]->Block_0.dev == rv[j]->Block_0.dev,
    ensures
        i == j,
{
}

/// A mount record for another device node leaves a block's enrichment
/// unchanged.
#[verifier::spinoff_prover]
proof fn lemma_enriched_stable(br: BlockRecordView, mv: Seq<MountRecordView>, m: int)
    requires
        mounts_wf(mv),
        0 <= m < mv.len(),
        br.dev != mv[m].dev,
    ensures
        enriched_upto(br, mv, m + 1) == enriched_upto(br, mv, m),
{
    if has_mount_upto(mv, m + 1, br.dev) {
        let w = choose|i: int| 0 <= i < m + 1 && mv[i].dev == br.dev;
        assert(w != m);
        assert(has_mount_upto(mv, m, br.dev));
        let w0 = choose|i: int| 0 <= i < m && mv[i].dev == br.dev;
        if w != w0 {
            assert(mv[w].dev != mv[w0].dev);
        }
        assert(mount_upto(mv, m + 1, br.dev) == mount_upto(mv, m, br.dev));
    } else {
        assert(!has_mount_upto(mv, m, br.dev));
    }
}

/// Applying the matching mount record is exactly one more step of
/// enrichment.
#[verifier::spinoff_prover]
proof fn lemma_attach_enriched(br: BlockRecordView, mv: Seq<MountRecordView>, m: int)
    requires
        mounts_wf(mv),
        0 <= m < mv.len(),
        br.dev == mv[m].dev,
    ensures
        attach_mount(enriched_upto(br, mv, m), mv[m]) == enriched_upto(br, mv, m + 1),
{
    assert(has_mount_upto(mv, m + 1, br.dev));
    let w = choose|i: int| 0 <= i < m + 1 && mv[i].dev == br.dev;
    if w != m {
        assert(mv[w].dev != mv[m].dev);
    }
    assert(mount_upto(mv, m + 1, br.dev) == mv[m]);
    assert(attach_mount(enriched_upto(br, mv, m), mv[m]) =~= attach_mount(
        raw_block(br),
        mv[m],
    ));
}

/// The merge of the device-service records is the mount fold's starting
/// point: no mount record applied yet.
#[verifier::spinoff_prover]
proof fn lemma_merged_start(
    ds: Seq<DriveView>,
    rv: Seq<DeviceRecordView>,
    mv: Seq<MountRecordView>,
)
    requires
        merged(ds, rv),
    ensures
        device_drives_ok(ds, rv, mv, 0),
{
    reveal(device_drives_ok);
    assert forall|i: int, k: int|
        0 <= i < ds.len() && 0 <= k < ds[i].blocks.len() implies eblock_in_drive(
        ds[i],
        rv,
        mv,
        0,
        #[trigger] ds[i].blocks[k],
    ) by {
        assert(block_in_drive_upto(ds[i], rv, rv.len() as int, ds[i].blocks[k]));
        let j = choose|j: int|
            0 <= j < rv.len() && rv[j] is Block && rv[j]->Block_0.drive_path == ds[i].object_path
                && ds[i].blocks[k] == raw_block(rv[j]->Block_0);
        assert(enriched_upto(rv[j]->Block_0, mv, 0) == raw_block(rv[j]->Block_0));
    }
    assert forall|j: int| 0 <= j < rv.len() && rv[j] is Block implies eblock_placed(
        ds,
        rv[j]->Block_0,
        mv,
        0,
    ) by {
        assert(block_placed(ds, rv[j]->Block_0));
        let (a, k): (int, int) = choose|a: int, k: int|
            0 <= a < ds.len() && 0 <= k < ds[a].blocks.len() && ds[a].object_path
                == rv[j]->Block_0.drive_path && ds[a].blocks[k] == raw_block(rv[j]->Block_0);
        assert(enriched_upto(rv[j]->Block_0, mv, 0) == raw_block(rv[j]->Block_0));
        assert(ds[a].blocks[k] == enriched_upto(rv[j]->Block_0, mv, 0));
    }
}

#[verifier::rlimit(40)]
#[verifier::spinoff_prover]
proof fn lemma_mount_step_matched(
    dv0: Seq<DriveView>,
    dv1: Seq<DriveView>,
    rv: Seq<DeviceRecordView>,
    mv: Seq<MountRecordView>,
    m: int,
    i: int,
    k: int,
)
    requires
        records_wf(rv),
        mounts_wf(mv),
        0 <= m < mv.len(),
        device_drives_ok(dv0, rv, mv, m),
        0 <= i < dv0.len(),
        0 <= k < dv0[i].blocks.len(),
        dv0[i].blocks[k].dev == mv[m].dev,
        dv1.len() == dv0.len(),
        forall|a: int| 0 <= a < dv0.len() && a != i ==> dv1[a] == dv0[a],
        dv1[i].object_path == dv0[i].object_path,
        dv1[i].id == dv0[i].id,
        dv1[i].model == dv0[i].model,
        dv1[i].ejectable == dv0[i].ejectable,
        dv1[i].blocks.len() == dv0[i].blocks.len(),
        forall|c: int| 0 <= c < dv0[i].blocks.len() && c != k ==> dv1[i].blocks[c] == dv0[i].blocks[c],
        dv1[i].blocks[k] == attach_mount(dv0[i].blocks[k], mv[m]),
    ensures
        device_drives_ok(dv1, rv, mv, m + 1),
        !mount_is_orphan(rv, mv[m]),
{
    reveal(device_drives_ok);
    assert(eblock_in_drive(dv0[i], rv, mv, m, dv0[i].blocks[k]));
    let j0 = choose|j: int|
        0 <= j < rv.len() && rv[j] is Block && rv[j]->Block_0.drive_path == dv0[i].object_path
            && dv0[i].blocks[k] == enriched_upto(rv[j]->Block_0, mv, m);
    let br0 = rv[j0]->Block_0;
    assert(enriched_upto(br0, mv, m).dev == br0.dev);
    assert(br0.dev == mv[m].dev);
    assert(!mount_is_orphan(rv, mv[m]));
    assert forall|a: int, c: int|
        0 <= a < dv1.len() && 0 <= c < dv1[a].blocks.len() implies eblock_in_drive(
        dv1[a],
        rv,
        mv,
        m + 1,
        #[trigger] dv1[a].blocks[c],
    ) by {
        if a == i && c == k {
            lemma_attach_enriched(br0, mv, m);
            assert(dv1[a].blocks[c] == enriched_upto(br0, mv, m + 1));
            assert(dv1[a].object_path == dv0[i].object_path);
        } else {
            assert(dv1[a].blocks[c] == dv0[a].blocks[c]);
            assert(eblock_in_drive(dv0[a], rv, mv, m, dv0[a].blocks[c]));
            let j1 = choose|j: int|
                0 <= j < rv.len() && rv[j] is Block && rv[j]->Block_0.drive_path
                    == dv0[a].object_path && dv0[a].blocks[c] == enriched_upto(
                    rv[j]->Block_0,
                    mv,
                    m,
                );
            let br1 = rv[j1]->Block_0;
            if br1.dev == mv[m].dev {
                lemma_unique_block_rec(rv, j1, j0);
                assert(dv0[a].object_path == dv0[i].object_path);
                assert(a == i);
                assert(dv0[a].blocks[c].dev == br1.dev);
                assert(dv0[a].blocks[k].dev == dv0[a].blocks[c].dev);
                assert(false);
            }
            lemma_enriched_stable(br1, mv, m);
            assert(dv1[a].object_path == dv0[a].object_path);
        }
    }
    assert forall|j: int| 0 <= j < rv.len() && rv[j] is Block implies eblock_placed(
        dv1,
        rv[j]->Block_0,
        mv,
        m + 1,
    ) by {
        let brj = rv[j]->Block_0;
        if brj.dev == mv[m].dev {
            lemma_unique_block_rec(rv, j, j0);
            lemma_attach_enriched(br0, mv, m);
            assert(dv1[i].object_path == dv0[i].object_path);
            assert(dv1[i].blocks[k] == enriched_upto(br0, mv, m + 1));
        } else {
            assert(eblock_placed(dv0, brj, mv, m));
            let (a, c): (int, int) = choose|a: int, c: int|
                0 <= a < dv0.len() && 0 <= c < dv0[a].blocks.len() && dv0[a].object_path
                    == brj.drive_path && dv0[a].blocks[c] == enriched_upto(brj, mv, m);
            assert(enriched_upto(brj, mv, m).dev == brj.dev);
            if a == i && c == k {
                assert(false);
            }
            assert(dv1[a].blocks[c] == dv0[a].blocks[c]);
            lemma_enriched_stable(brj, mv, m);
            assert(dv1[a].object_path == dv0[a].object_path);
        }
    }
    assert forall|a: int, c: int, l: int|
        0 <= a < dv1.len() && 0 <= c < l < dv1[a].blocks.len() implies dv1[a].blocks[c].dev
        != dv1[a].blocks[l].dev by {
        assert(dv1[a].blocks[c].dev == dv0[a].blocks[c].dev);
        assert(dv1[a].blocks[l].dev == dv0[a].blocks[l].dev);
    }
    assert forall|a: int| 0 <= a < dv1.len() implies drive_meta_ok_upto(
        #[trigger] dv1[a],
        rv,
        rv.len() as int,
    ) by {
        assert(dv1[a].object_path == dv0[a].object_path);
        assert(dv1[a].id == dv0[a].id);
        assert(dv1[a].model == dv0[a].model);
        assert(dv1[a].ejectable == dv0[a].ejectable);
        assert(drive_meta_ok_upto(dv0[a], rv, rv.len() as int));
    }
    assert forall|j: int| 0 <= j < rv.len() implies contains_drive(dv1, identity_of(rv[j])) by {
        let w = choose|w: int| 0 <= w < dv0.len() && dv0[w].object_path == identity_of(rv[j]);
        assert(dv1[w].object_path == dv0[w].object_path);
    }
}

#[verifier::spinoff_prover]
proof fn lemma_enriched_dev(br: BlockRecordView, mv: Seq<MountRecordView>, m: int)
    ensures
        enriched_upto(br, mv, m).dev == br.dev,
{
}

#[verifier::spinoff_prover]
proof fn lemma_orphan_no_match(
    dv0: Seq<DriveView>,
    rv: Seq<DeviceRecordView>,
    mv: Seq<MountRecordView>,
    m: int,
)
    requires
        0 <= m < mv.len(),
        forall|j: int|
            0 <= j < rv.len() && rv[j] is Block ==> eblock_placed(dv0, rv[j]->Block_0, mv, m),
        forall|a: int, c: int|
            0 <= a < dv0.len() && 0 <= c < dv0[a].blocks.len() ==> dv0[a].blocks[c].dev
                != mv[m].dev,
    ensures
        mount_is_orphan(rv, mv[m]),
        forall|j: int| 0 <= j < rv.len() && rv[j] is Block ==> rv[j]->Block_0.dev != mv[m].dev,
{
    assert forall|j: int| 0 <= j < rv.len() && rv[j] is Block implies rv[j]->Block_0.dev
        != mv[m].dev by {
        let brj = rv[j]->Block_0;
        if brj.dev == mv[m].dev {
            assert(eblock_placed(dv0, brj, mv, m));
            let (a, c): (int, int) = choose|a: int, c: int|
                0 <= a < dv0.len() && 0 <= c < dv0[a].blocks.len() && dv0[a].object_path
                    == brj.drive_path && dv0[a].blocks[c] == enriched_upto(brj, mv, m);
            lemma_enriched_dev(brj, mv, m);
            assert(dv0[a].blocks[c].dev == brj.dev);
            assert(false);
        }
    }
}

#[verifier::spinoff_prover]
proof fn lemma_orphan_stable_in_drive(
    dv0: Seq<DriveView>,
    rv: Seq<DeviceRecordView>,
    mv: Seq<MountRecordView>,
    m: int,
)
    requires
        mounts_wf(mv),
        0 <= m < mv.len(),
        forall|a: int, c: int|
            0 <= a < dv0.len() && 0 <= c < dv0[a].blocks.len() ==> eblock_in_drive(
                dv0[a],
                rv,
                mv,
                m,
                #[trigger] dv0[a].blocks[c],
            ),
        forall|j: int| 0 <= j < rv.len() && rv[j] is Block ==> rv[j]->Block_0.dev != mv[m].dev,
    ensures
        forall|a: int, c: int|
            0 <= a < dv0.len() && 0 <= c < dv0[a].blocks.len() ==> eblock_in_drive(
                dv0[a],
                rv,
                mv,
                m + 1,
                #[trigger] dv0[a].blocks[c],
            ),
{
    assert forall|a: int, c: int|
        0 <= a < dv0.len() && 0 <= c < dv0[a].blocks.len() implies eblock_in_drive(
        dv0[a],
        rv,
        mv,
        m + 1,
        #[trigger] dv0[a].blocks[c],
    ) by {
        assert(eblock_in_drive(dv0[a], rv, mv, m, dv0[a].blocks[c]));
        let j1 = choose|j: int|
            0 <= j < rv.len() && rv[j] is Block && rv[j]->Block_0.drive_path == dv0[a].object_path
                && dv0[a].blocks[c] == enriched_upto(rv[j]->Block_0, mv, m);
        lemma_enriched_stable(rv[j1]->Block_0, mv, m);
    }
}

#[verifier::spinoff_prover]
proof fn lemma_orphan_stable_placed(
    dv0: Seq<DriveView>,
    rv: Seq<DeviceRecordView>,
    mv: Seq<MountRecordView>,
    m: int,
)
    requires
        mounts_wf(mv),
        0 <= m < mv.len(),
        forall|j: int|
            0 <= j < rv.len() && rv[j] is Block ==> eblock_placed(dv0, rv[j]->Block_0, mv, m),
        forall|j: int| 0 <= j < rv.len() && rv[j] is Block ==> rv[j]->Block_0.dev != mv[m].dev,
    ensures
        forall|j: int|
            0 <= j < rv.len() && rv[j] is Block ==> eblock_placed(dv0, rv[j]->Block_0, mv, m + 1),
{
    assert forall|j: int| 0 <= j < rv.len() && rv[j] is Block implies eblock_placed(
        dv0,
        rv[j]->Block_0,
        mv,
        m + 1,
    ) by {
        assert(eblock_placed(dv0, rv[j]->Block_0, mv, m));
        lemma_enriched_stable(rv[j]->Block_0, mv, m);
    }
}

#[verifier::spinoff_prover]
proof fn lemma_mount_step_orphan(
    dv0: Seq<DriveView>,
    rv: Seq<DeviceRecordView>,
    mv: Seq<MountRecordView>,
    m: int,
)
    requires
        records_wf(rv),
        mounts_wf(mv),
        0 <= m < mv.len(),
        device_drives_ok(dv0, rv, mv, m),
        forall|a: int, c: int|
            0 <= a < dv0.len() && 0 <= c < dv0[a].blocks.len() ==> dv0[a].blocks[c].dev
                != mv[m].dev,
    ensures
        device_drives_ok(dv0, rv, mv, m + 1),
        mount_is_orphan(rv, mv[m]),
{
    reveal(device_drives_ok);
    lemma_orphan_no_match(dv0, rv, mv, m);
    lemma_orphan_stable_in_drive(dv0, rv, mv, m);
    lemma_orphan_stable_placed(dv0, rv, mv, m);
}

#[verifier::spinoff_prover]
proof fn lemma_fstab_init(f: DriveView, rv: Seq<DeviceRecordView>, mv: Seq<MountRecordView>)
    requires
        f.object_path == fstab_path(),
        f.id == fstab_path(),
        f.model == fstab_path(),
        !f.ejectable,
        f.blocks.len() == 0,
    ensures
        fstab_ok(f, rv, mv, 0),
{
    reveal(fstab_ok);
}

#[verifier::spinoff_prover]
proof fn lemma_fstab_not_orphan(
    f: DriveView,
    rv: Seq<DeviceRecordView>,
    mv: Seq<MountRecordView>,
    m: int,
)
    requires
        fstab_ok(f, rv, mv, m),
        0 <= m < mv.len(),
        !mount_is_orphan(rv, mv[m]),
    ensures
        fstab_ok(f, rv, mv, m + 1),
{
    reveal(fstab_ok);
}

#[verifier::spinoff_prover]
proof fn lemma_fstab_push_orphan(
    f0: DriveView,
    f1: DriveView,
    rv: Seq<DeviceRecordView>,
    mv: Seq<MountRecordView>,
    m: int,
)
    requires
        mounts_wf(mv),
        0 <= m < mv.len(),
        fstab_ok(f0, rv, mv, m),
        mount_is_orphan(rv, mv[m]),
        f1 =~~= (DriveView { blocks: f0.blocks.push(orphan_block(mv[m])), ..f0 }),
    ensures
        fstab_ok(f1, rv, mv, m + 1),
{
    reveal(fstab_ok);
    let last = f0.blocks.len() as int;
    assert forall|k: int| 0 <= k < f1.blocks.len() implies exists|j: int|
        0 <= j < m + 1 && mount_is_orphan(rv, mv[j]) && #[trigger] f1.blocks[k] == orphan_block(
            mv[j],
        ) by {
        if k == last {
            assert(f1.blocks[k] == orphan_block(mv[m]));
        } else {
            assert(f1.blocks[k] == f0.blocks[k]);
            let j = choose|j: int|
                0 <= j < m && mount_is_orphan(rv, mv[j]) && f0.blocks[k] == orphan_block(mv[j]);
            assert(0 <= j < m + 1 && mount_is_orphan(rv, mv[j]) && f1.blocks[k] == orphan_block(
                mv[j],
            ));
        }
    }
    assert forall|j: int| 0 <= j < m + 1 && mount_is_orphan(rv, #[trigger] mv[j]) implies exists|
        k: int,
    |
        0 <= k < f1.blocks.len() && f1.blocks[k] == orphan_block(mv[j]) by {
        if j < m {
            let k = choose|k: int|
                0 <= k < f0.blocks.len() && f0.blocks[k] == orphan_block(mv[j]);
            assert(f1.blocks[k] == orphan_block(mv[j]));
        } else {
            assert(f1.blocks[last] == orphan_block(mv[m]));
        }
    }
    assert forall|k: int, l: int| 0 <= k < l < f1.blocks.len() implies f1.blocks[k].dev
        != f1.blocks[l].dev by {
        if l == last {
            let j = choose|j: int|
                0 <= j < m && mount_is_orphan(rv, mv[j]) && f0.blocks[k] == orphan_block(mv[j]);
            assert(f1.blocks[k].dev == mv[j].dev);
            assert(f1.blocks[l].dev == mv[m].dev);
        } else {
            assert(f1.blocks[k] == f0.blocks[k]);
            assert(f1.blocks[l] == f0.blocks[l]);
        }
    }
}

/// Copies an optional mount path.
#[verifier::spinoff_prover]
fn clone_opt_path(o: &Option<String>) -> (r: Option<String>)
    ensures
        r == *o,
{
    match o {
        Option::Some(s) => Option::Some(s.clone()),
        Option::None => Option::None,
    }
}

/// Position of the block with the given device node, searching every
/// device-service drive.
#[verifier::spinoff_prover]
fn find_block(drives: &Vec<Drive>, dev: &String) -> (r: Option<(usize, usize)>)
    ensures
        match r {
            Option::Some(ik) => 0 <= ik.0 < drives@.len() && 0 <= ik.1
                < drives@[ik.0 as int].blocks@.len() && drives@[ik.0 as int].blocks@[ik.1 as int].dev@
                == dev@,
            Option::None => forall|i: int, k: int|
                0 <= i < drives@.len() && 0 <= k < drives@[i].blocks@.len()
                    ==> drives@[i].blocks@[k].dev@ != dev@,
        },
{
    let mut i: usize = 0;
    while i < drives.len()
        invariant
            i <= drives@.len(),
            forall|a: int, c: int|
                0 <= a < i && 0 <= c < drives@[a].blocks@.len() ==> drives@[a].blocks@[c].dev@
                    != dev@,
        decreases drives@.len() - i,
    {
        let blocks_len = drives[i].blocks.len();
        let mut k: usize = 0;
        while k < blocks_len
            invariant
                i < drives@.len(),
                blocks_len == drives@[i as int].blocks@.len(),
                k <= blocks_len,
                forall|c: int| 0 <= c < k ==> drives@[i as int].blocks@[c].dev@ != dev@,
            decreases blocks_len - k,
        {
            if drives[i].blocks[k].dev == *dev {
                return Option::Some((i, k));
            }
            k = k + 1;
        }
        i = i + 1;
    }
    Option::None
}

/// Folds the mount table into the merged drives, in order: a mount record
/// whose device node matches a device-service block attaches its mount path
/// and mounted flag to that block in place; an orphaned record becomes a new
/// block of the synthetic sentinel drive, which is returned.
#[verifier::rlimit(100)]
#[verifier::spinoff_prover]
fn apply_mounts(
    drives: &mut Vec<Drive>,
    mounts: &Vec<MountRecord>,
    Ghost(rv): Ghost<Seq<DeviceRecordView>>,
) -> (fstab: Drive)
    requires
        records_wf(rv),
        mounts_wf(mounts_view(mounts@)),
        merged(drives_view(old(drives)@), rv),
    ensures
        device_drives_ok(
            drives_view(final(drives)@),
            rv,
            mounts_view(mounts@),
            mounts@.len() as int,
        ),
        fstab_ok(fstab@, rv, mounts_view(mounts@), mounts@.len() as int),
{
    let ghost mv = mounts_view(mounts@);
    let mut fstab = Drive {
        id: "fstab".to_owned(),
        object_path: "fstab".to_owned(),
        model: "fstab".to_owned(),
        ejectable: false,
        blocks: Vec::new(),
    };
    proof {
        lemma_merged_start(drives_view(drives@), rv, mv);
        lemma_fstab_init(fstab@, rv, mv);
    }
    let mut m: usize = 0;
    while m < mounts.len()
        invariant
            mv == mounts_view(mounts@),
            records_wf(rv),
            mounts_wf(mv),
            mv.len() == mounts@.len(),
            m <= mounts@.len(),
            fstab@.object_path == fstab_path(),
            device_drives_ok(drives_view(drives@), rv, mv, m as int),
            fstab_ok(fstab@, rv, mv, m as int),
        decreases mounts@.len() - m,
    {
        let ghost dv0 = drives_view(drives@);
        let ghost vs0 = drives@;
        let ghost f0 = fstab@;
        let mnt = &mounts[m];
        proof {
            assert(mv[m as int] == mounts@[m as int]@);
        }
        match find_block(&drives, &mnt.dev) {
            Option::Some((i, k)) => {
                drives[i].blocks[k].mount = clone_opt_path(&mnt.path);
                drives[i].blocks[k].mounted = mnt.mounted;
                proof {
                    let ghost dv1 = drives_view(drives@);
                    assert(drives@.len() == vs0.len());
                    assert forall|a: int| 0 <= a < vs0.len() && a != i implies dv1[a] == dv0[a] by {
                        assert(drives@[a] == vs0[a]);
                    }
                    assert(drives@[i as int].blocks@.len() == vs0[i as int].blocks@.len());
                    assert forall|c: int|
                        0 <= c < vs0[i as int].blocks@.len() && c != k implies dv1[i as int].blocks[c]
                        == dv0[i as int].blocks[c] by {
                        assert(drives@[i as int].blocks@[c] == vs0[i as int].blocks@[c]);
                    }
                    assert(dv1[i as int].blocks[k as int] =~~= attach_mount(
                        dv0[i as int].blocks[k as int],
                        mv[m as int],
                    ));
                    lemma_mount_step_matched(
                        dv0,
                        dv1,
                        rv,
                        mv,
                        m as int,
                        i as int,
                        k as int,
                    );
                    lemma_fstab_not_orphan(f0, rv, mv, m as int);
                }
            },
            Option::None => {
                let orphan = Block {
                    object_path: String::new(),
                    drive_path: fstab.object_path.clone(),
                    dev: mnt.dev.clone(),
                    label: String::new(),
                    mount: clone_opt_path(&mnt.path),
                    fstype: mnt.fs.clone(),
                    mounted: mnt.mounted,
                    size: String::new(),
                };
                proof {
                    assert(orphan@ =~~= orphan_block(mv[m as int]));
                }
                fstab.blocks.push(orphan);
                proof {
                    lemma_mount_step_orphan(dv0, rv, mv, m as int);
                    assert(fstab@ =~~= DriveView { blocks: f0.blocks.push(orphan_block(mv[m as int])), ..f0 });
                    lemma_fstab_push_orphan(f0, fstab@, rv, mv, m as int);
                }
            },
        }
        m = m + 1;
    }
    fstab
}

} // verus!

verus! {

/// Drives ordered by object identity.
pub open spec fn drives_sorted(ds: Seq<DriveView>) -> bool {
    forall|i: int, j: int| 0 <= i < j < ds.len() ==> lex_le(ds[i].object_path, ds[j].object_path)
}

/// Blocks ordered by device node path.
pub open spec fn blocks_sorted(bs: Seq<BlockView>) -> bool {
    forall|k: int, l: int| 0 <= k < l < bs.len() ==> lex_le(bs[k].dev, bs[l].dev)
}

/// A value sitting at two positions is counted at least twice.
#[verifier::spinoff_prover]
proof fn lemma_dup_count<A>(s: Seq<A>, i: int, j: int)
    requires
        0 <= i < j < s.len(),
        s[i] == s[j],
    ensures
        s.to_multiset().count(s[i]) >= 2,
{
    broadcast use vstd::seq_lib::group_to_multiset_ensures;
    broadcast use vstd::multiset::group_multiset_axioms;

    let s1 = s.remove(i);
    s.remove_ensures(i);
    assert(s1[j - 1] == s[j]);
    assert(s1.contains(s[j]));
    assert(s1.to_multiset().count(s[j]) > 0);
    assert(s1.to_multiset() == s.to_multiset().remove(s[i]));
}

/// A value counted at least twice sits at two positions.
#[verifier::spinoff_prover]
proof fn lemma_count_two_indices<A>(s: Seq<A>, x: A) -> (r: (int, int))
    requires
        s.to_multiset().count(x) >= 2,
    ensures
        0 <= r.0 < r.1 < s.len(),
        s[r.0] == x,
        s[r.1] == x,
{
    broadcast use vstd::seq_lib::group_to_multiset_ensures;
    broadcast use vstd::multiset::group_multiset_axioms;

    assert(s.contains(x));
    let i = choose|i: int| 0 <= i < s.len() && s[i] == x;
    let s1 = s.remove(i);
    s.remove_ensures(i);
    assert(s1.to_multiset() == s.to_multiset().remove(x));
    assert(s1.to_multiset().count(x) >= 1);
    assert(s1.contains(x));
    let j1 = choose|j: int| 0 <= j < s1.len() && s1[j] == x;
    if j1 < i {
        (j1, i)
    } else {
        assert(s1[j1] == s[j1 + 1]);
        (i, j1 + 1)
    }
}

/// A permutation keeps device nodes pairwise distinct.
#[verifier::spinoff_prover]
proof fn lemma_perm_distinct_devs(a: Seq<BlockView>, b: Seq<BlockView>)
    requires
        a.to_multiset() == b.to_multiset(),
        forall|k: int, l: int| 0 <= k < l < a.len() ==> a[k].dev != a[l].dev,
    ensures
        forall|k: int, l: int| 0 <= k < l < b.len() ==> b[k].dev != b[l].dev,
{
    broadcast use vstd::seq_lib::group_to_multiset_ensures;
    broadcast use vstd::multiset::group_multiset_axioms;

    assert forall|k: int, l: int| 0 <= k < l < b.len() implies b[k].dev != b[l].dev by {
        if b[k].dev == b[l].dev {
            if b[k] == b[l] {
                lemma_dup_count(b, k, l);
                let r = lemma_count_two_indices(a, b[k]);
                assert(a[r.0].dev != a[r.1].dev);
                assert(false);
            } else {
                assert(b.contains(b[k]));
                assert(b.contains(b[l]));
                assert(a.to_multiset().count(b[k]) > 0);
                assert(a.to_multiset().count(b[l]) > 0);
                assert(a.contains(b[k]));
                assert(a.contains(b[l]));
                let i1 = choose|i: int| 0 <= i < a.len() && a[i] == b[k];
                let i2 = choose|i: int| 0 <= i < a.len() && a[i] == b[l];
                assert(i1 != i2);
                if i1 < i2 {
                    assert(a[i1].dev != a[i2].dev);
                } else {
                    assert(a[i2].dev != a[i1].dev);
                }
                assert(false);
            }
        }
    }
}

/// A permutation keeps object identities pairwise distinct.
#[verifier::spinoff_prover]
proof fn lemma_perm_distinct_paths(a: Seq<DriveView>, b: Seq<DriveView>)
    requires
        a.to_multiset() == b.to_multiset(),
        forall|k: int, l: int| 0 <= k < l < a.len() ==> a[k].object_path != a[l].object_path,
    ensures
        forall|k: int, l: int| 0 <= k < l < b.len() ==> b[k].object_path != b[l].object_path,
{
    broadcast use vstd::seq_lib::group_to_multiset_ensures;
    broadcast use vstd::multiset::group_multiset_axioms;

    assert forall|k: int, l: int| 0 <= k < l < b.len() implies b[k].object_path
        != b[l].object_path by {
        if b[k].object_path == b[l].object_path {
            if b[k] == b[l] {
                lemma_dup_count(b, k, l);
                let r = lemma_count_two_indices(a, b[k]);
                assert(a[r.0].object_path != a[r.1].object_path);
                assert(false);
            } else {
                assert(b.contains(b[k]));
                assert(b.contains(b[l]));
                assert(a.to_multiset().count(b[k]) > 0);
                assert(a.to_multiset().count(b[l]) > 0);
                assert(a.contains(b[k]));
                assert(a.contains(b[l]));
                let i1 = choose|i: int| 0 <= i < a.len() && a[i] == b[k];
                let i2 = choose|i: int| 0 <= i < a.len() && a[i] == b[l];
                assert(i1 != i2);
                if i1 < i2 {
                    assert(a[i1].object_path != a[i2].object_path);
                } else {
                    assert(a[i2].object_path != a[i1].object_path);
                }
                assert(false);
            }
        }
    }
}

#[verifier::spinoff_prover]
proof fn lemma_drives_view_remove(s: Seq<Drive>, i: int)
    requires
        0 <= i < s.len(),
    ensures
        drives_view(s.remove(i)) =~= drives_view(s).remove(i),
{
    s.remove_ensures(i);
    drives_view(s).remove_ensures(i);
    assert forall|a: int| 0 <= a < s.len() - 1 implies drives_view(s.remove(i))[a] == drives_view(
        s,
    ).remove(i)[a] by {
        if a < i {
            assert(s.remove(i)[a] == s[a]);
        } else {
            assert(s.remove(i)[a] == s[a + 1]);
        }
    }
}

#[verifier::spinoff_prover]
proof fn lemma_drives_view_insert(s: Seq<Drive>, i: int, d: Drive)
    requires
        0 <= i <= s.len(),
    ensures
        drives_view(s.insert(i, d)) =~= drives_view(s).insert(i, d@),
{
    s.insert_ensures(i, d);
    drives_view(s).insert_ensures(i, d@);
    assert forall|a: int| 0 <= a < s.len() + 1 implies drives_view(s.insert(i, d))[a]
        == drives_view(s).insert(i, d@)[a] by {
        if a < i {
            assert(s.insert(i, d)[a] == s[a]);
        } else if a == i {
            assert(s.insert(i, d)[a] == d);
        } else {
            assert(s.insert(i, d)[a] == s[a - 1]);
        }
    }
}

#[verifier::spinoff_prover]
proof fn lemma_blocks_view_remove(s: Seq<Block>, i: int)
    requires
        0 <= i < s.len(),
    ensures
        blocks_view(s.remove(i)) =~= blocks_view(s).remove(i),
{
    s.remove_ensures(i);
    blocks_view(s).remove_ensures(i);
    assert forall|a: int| 0 <= a < s.len() - 1 implies blocks_view(s.remove(i))[a] == blocks_view(
        s,
    ).remove(i)[a] by {
        if a < i {
            assert(s.remove(i)[a] == s[a]);
        } else {
            assert(s.remove(i)[a] == s[a + 1]);
        }
    }
}

#[verifier::spinoff_prover]
proof fn lemma_blocks_view_insert(s: Seq<Block>, i: int, b: Block)
    requires
        0 <= i <= s.len(),
    ensures
        blocks_view(s.insert(i, b)) =~= blocks_view(s).insert(i, b@),
{
    s.insert_ensures(i, b);
    blocks_view(s).insert_ensures(i, b@);
    assert forall|a: int| 0 <= a < s.len() + 1 implies blocks_view(s.insert(i, b))[a]
        == blocks_view(s).insert(i, b@)[a] by {
        if a < i {
            assert(s.insert(i, b)[a] == s[a]);
        } else if a == i {
            assert(s.insert(i, b)[a] == b);
        } else {
            assert(s.insert(i, b)[a] == s[a - 1]);
        }
    }
}

/// Removing at a position and re-inserting the same value restores the
/// multiset.
#[verifier::spinoff_prover]
proof fn lemma_remove_insert_multiset<A>(s: Seq<A>, i: int, j: int)
    requires
        0 <= i < s.len(),
        0 <= j <= s.len() - 1,
    ensures
        s.remove(i).insert(j, s[i]).to_multiset() == s.to_multiset(),
{
    broadcast use vstd::seq_lib::group_to_multiset_ensures;
    broadcast use vstd::multiset::group_multiset_axioms;

    let s1 = s.remove(i);
    assert(s1.to_multiset() == s.to_multiset().remove(s[i]));
    assert(s1.insert(j, s[i]).to_multiset() == s1.to_multiset().insert(s[i]));
    assert(s.contains(s[i]));
    assert(s.to_multiset().count(s[i]) > 0);
    assert(s.to_multiset().remove(s[i]).insert(s[i]) =~= s.to_multiset());
}

/// First position in the sorted prefix `[0, hi)` whose identity orders after
/// the drive to insert.
#[verifier::spinoff_prover]
fn insert_pos_drive(drives: &Vec<Drive>, d: &Drive, hi: usize) -> (j: usize)
    requires
        hi <= drives@.len(),
        forall|a: int, b: int|
            0 <= a < b < hi ==> lex_le(
                drives_view(drives@)[a].object_path,
                drives_view(drives@)[b].object_path,
            ),
    ensures
        j <= hi,
        forall|a: int|
            0 <= a < j ==> lex_le(drives_view(drives@)[a].object_path, d@.object_path),
        forall|a: int|
            j <= a < hi ==> lex_le(d@.object_path, drives_view(drives@)[a].object_path),
{
    let mut j: usize = 0;
    while j < hi
        invariant
            j <= hi,
            hi <= drives@.len(),
            forall|a: int, b: int|
                0 <= a < b < hi ==> lex_le(
                    drives_view(drives@)[a].object_path,
                    drives_view(drives@)[b].object_path,
                ),
            forall|a: int|
                0 <= a < j ==> lex_le(drives_view(drives@)[a].object_path, d@.object_path),
        decreases hi - j,
    {
        if !str_lex_le(drives[j].object_path.as_str(), d.object_path.as_str()) {
            proof {
                let dvs = drives_view(drives@);
                assert(dvs[j as int].object_path == drives@[j as int].object_path@);
                lemma_lex_le_total(dvs[j as int].object_path, d@.object_path);
                assert forall|a: int| j <= a < hi implies lex_le(
                    d@.object_path,
                    dvs[a].object_path,
                ) by {
                    if a > j {
                        lemma_lex_le_transitive(
                            d@.object_path,
                            dvs[j as int].object_path,
                            dvs[a].object_path,
                        );
                    }
                }
            }
            return j;
        }
        j = j + 1;
    }
    j
}

/// First position in the sorted prefix `[0, hi)` whose device node orders
/// after the block to insert.
#[verifier::spinoff_prover]
fn insert_pos_block(blocks: &Vec<Block>, b: &Block, hi: usize) -> (j: usize)
    requires
        hi <= blocks@.len(),
        forall|a: int, c: int|
            0 <= a < c < hi ==> lex_le(
                blocks_view(blocks@)[a].dev,
                blocks_view(blocks@)[c].dev,
            ),
    ensures
        j <= hi,
        forall|a: int| 0 <= a < j ==> lex_le(blocks_view(blocks@)[a].dev, b@.dev),
        forall|a: int| j <= a < hi ==> lex_le(b@.dev, blocks_view(blocks@)[a].dev),
{
    let mut j: usize = 0;
    while j < hi
        invariant
            j <= hi,
            hi <= blocks@.len(),
            forall|a: int, c: int|
                0 <= a < c < hi ==> lex_le(
                    blocks_view(blocks@)[a].dev,
                    blocks_view(blocks@)[c].dev,
                ),
            forall|a: int| 0 <= a < j ==> lex_le(blocks_view(blocks@)[a].dev, b@.dev),
        decreases hi - j,
    {
        if !str_lex_le(blocks[j].dev.as_str(), b.dev.as_str()) {
            proof {
                let bvs = blocks_view(blocks@);
                assert(bvs[j as int].dev == blocks@[j as int].dev@);
                lemma_lex_le_total(bvs[j as int].dev, b@.dev);
                assert forall|a: int| j <= a < hi implies lex_le(b@.dev, bvs[a].dev) by {
                    if a > j {
                        lemma_lex_le_transitive(b@.dev, bvs[j as int].dev, bvs[a].dev);
                    }
                }
            }
            return j;
        }
        j = j + 1;
    }
    j
}

/// Sorts the drives by object identity; the collection is reordered, nothing
/// added, dropped or changed.
#[verifier::spinoff_prover]
fn sort_drives(drives: &mut Vec<Drive>)
    ensures
        drives_view(final(drives)@).to_multiset() == drives_view(old(drives)@).to_multiset(),
        drives_sorted(drives_view(final(drives)@)),
{
    let ghost orig = drives_view(old(drives)@);
    let mut i: usize = 1;
    while i < drives.len()
        invariant
            1 <= i,
            drives@.len() == orig.len(),
            drives@.len() == 0 ==> i == 1,
            drives@.len() > 0 ==> i <= drives@.len(),
            drives_view(drives@).to_multiset() == orig.to_multiset(),
            forall|a: int, b: int|
                0 <= a < b < i && b < drives@.len() ==> lex_le(
                    drives_view(drives@)[a].object_path,
                    drives_view(drives@)[b].object_path,
                ),
        decreases drives@.len() - i,
    {
        let ghost prev = drives@;
        let d = drives.remove(i);
        proof {
            lemma_drives_view_remove(prev, i as int);
            drives_view(prev).remove_ensures(i as int);
            assert forall|a: int, b: int| 0 <= a < b < i implies lex_le(
                drives_view(drives@)[a].object_path,
                drives_view(drives@)[b].object_path,
            ) by {
                assert(drives_view(drives@)[a] == drives_view(prev)[a]);
                assert(drives_view(drives@)[b] == drives_view(prev)[b]);
            }
        }
        let j = insert_pos_drive(&drives, &d, i);
        let ghost mid = drives@;
        drives.insert(j, d);
        proof {
            lemma_drives_view_remove(prev, i as int);
            lemma_drives_view_insert(mid, j as int, d);
            let pv = drives_view(prev);
            let mv_ = drives_view(mid);
            let nv = drives_view(drives@);
            assert(mv_ =~= pv.remove(i as int));
            assert(nv =~= mv_.insert(j as int, d@));
            assert(d@ == pv[i as int]);
            lemma_remove_insert_multiset(pv, i as int, j as int);
            assert(nv.to_multiset() == pv.to_multiset());
            mv_.insert_ensures(j as int, d@);
            assert forall|a: int, b: int|
                0 <= a < b < i + 1 && b < nv.len() implies lex_le(
                nv[a].object_path,
                nv[b].object_path,
            ) by {
                let ja = j as int;
                if b < ja {
                    assert(nv[a] == mv_[a] && nv[b] == mv_[b]);
                } else if a < ja && b == ja {
                    assert(nv[a] == mv_[a]);
                    assert(nv[b] == d@);
                } else if a < ja && b > ja {
                    assert(nv[a] == mv_[a]);
                    assert(nv[b] == mv_[b - 1]);
                    lemma_lex_le_transitive(
                        mv_[a].object_path,
                        d@.object_path,
                        mv_[b - 1].object_path,
                    );
                } else if a == ja {
                    assert(nv[a] == d@);
                    assert(nv[b] == mv_[b - 1]);
                } else {
                    assert(nv[a] == mv_[a - 1]);
                    assert(nv[b] == mv_[b - 1]);
                }
            }
        }
        i = i + 1;
    }
}

/// Sorts the blocks by device node path; the collection is reordered,
/// nothing added, dropped or changed.
#[verifier::spinoff_prover]
fn sort_blocks(blocks: &mut Vec<Block>)
    ensures
        blocks_view(final(blocks)@).to_multiset() == blocks_view(old(blocks)@).to_multiset(),
        blocks_sorted(blocks_view(final(blocks)@)),
{
    let ghost orig = blocks_view(old(blocks)@);
    let mut i: usize = 1;
    while i < blocks.len()
        invariant
            1 <= i,
            blocks@.len() == orig.len(),
            blocks@.len() == 0 ==> i == 1,
            blocks@.len() > 0 ==> i <= blocks@.len(),
            blocks_view(blocks@).to_multiset() == orig.to_multiset(),
            forall|a: int, b: int|
                0 <= a < b < i && b < blocks@.len() ==> lex_le(
                    blocks_view(blocks@)[a].dev,
                    blocks_view(blocks@)[b].dev,
                ),
        decreases blocks@.len() - i,
    {
        let ghost prev = blocks@;
        let b = blocks.remove(i);
        proof {
            lemma_blocks_view_remove(prev, i as int);
            blocks_view(prev).remove_ensures(i as int);
            assert forall|a: int, c: int| 0 <= a < c < i implies lex_le(
                blocks_view(blocks@)[a].dev,
                blocks_view(blocks@)[c].dev,
            ) by {
                assert(blocks_view(blocks@)[a] == blocks_view(prev)[a]);
                assert(blocks_view(blocks@)[c] == blocks_view(prev)[c]);
            }
        }
        let j = insert_pos_block(&blocks, &b, i);
        let ghost mid = blocks@;
        blocks.insert(j, b);
        proof {
            lemma_blocks_view_remove(prev, i as int);
            lemma_blocks_view_insert(mid, j as int, b);
            let pv = blocks_view(prev);
            let mv_ = blocks_view(mid);
            let nv = blocks_view(blocks@);
            assert(mv_ =~= pv.remove(i as int));
            assert(nv =~= mv_.insert(j as int, b@));
            assert(b@ == pv[i as int]);
            lemma_remove_insert_multiset(pv, i as int, j as int);
            assert(nv.to_multiset() == pv.to_multiset());
            mv_.insert_ensures(j as int, b@);
            assert forall|a: int, c: int|
                0 <= a < c < i + 1 && c < nv.len() implies lex_le(nv[a].dev, nv[c].dev) by {
                let ja = j as int;
                if c < ja {
                    assert(nv[a] == mv_[a] && nv[c] == mv_[c]);
                } else if a < ja && c == ja {
                    assert(nv[a] == mv_[a]);
                    assert(nv[c] == b@);
                } else if a < ja && c > ja {
                    assert(nv[a] == mv_[a]);
                    assert(nv[c] == mv_[c - 1]);
                    lemma_lex_le_transitive(mv_[a].dev, b@.dev, mv_[c - 1].dev);
                } else if a == ja {
                    assert(nv[a] == b@);
                    assert(nv[c] == mv_[c - 1]);
                } else {
                    assert(nv[a] == mv_[a - 1]);
                    assert(nv[c] == mv_[c - 1]);
                }
            }
        }
        i = i + 1;
    }
}

} // verus!

verus! {

/// Block `b` belongs in drive `d` of the final model: an orphaned mount
/// record's block on the sentinel drive, the enriched block of a
/// device-service block record everywhere else.
pub open spec fn final_block_ok(
    d: DriveView,
    rv: Seq<DeviceRecordView>,
    mv: Seq<MountRecordView>,
    b: BlockView,
) -> bool {
    if d.object_path == fstab_path() {
        exists|j: int|
            0 <= j < mv.len() && mount_is_orphan(rv, mv[j]) && b == orphan_block(mv[j])
    } else {
        exists|j: int|
            0 <= j < rv.len() && rv[j] is Block && rv[j]->Block_0.drive_path == d.object_path
                && b == enriched_block(rv[j]->Block_0, mv)
    }
}

/// The full content of the reconciled model, order aside: one drive per
/// mentioned identity plus the sentinel drive, correct metadata everywhere,
/// exactly the enriched device-service blocks and the orphaned mount-table
/// blocks, and device nodes unique across the whole model.
#[verifier::opaque]
pub open spec fn gathered(
    ds: Seq<DriveView>,
    rv: Seq<DeviceRecordView>,
    mv: Seq<MountRecordView>,
) -> bool {
    &&& contains_drive(ds, fstab_path())
    &&& forall|i: int, j: int| 0 <= i < j < ds.len() ==> ds[i].object_path != ds[j].object_path
    &&& forall|i: int|
        0 <= i < ds.len() ==> (#[trigger] ds[i].object_path == fstab_path() || mentions_upto(
            rv,
            rv.len() as int,
            ds[i].object_path,
        ))
    &&& forall|j: int| 0 <= j < rv.len() ==> contains_drive(ds, identity_of(rv[j]))
    &&& forall|i: int|
        0 <= i < ds.len() ==> drive_meta_ok_upto(#[trigger] ds[i], rv, rv.len() as int)
    &&& forall|i: int, k: int|
        0 <= i < ds.len() && 0 <= k < ds[i].blocks.len() ==> final_block_ok(
            ds[i],
            rv,
            mv,
            #[trigger] ds[i].blocks[k],
        )
    &&& forall|j: int|
        0 <= j < rv.len() && rv[j] is Block ==> (exists|i: int, k: int|
            0 <= i < ds.len() && 0 <= k < ds[i].blocks.len() && ds[i].object_path
                == rv[j]->Block_0.drive_path && ds[i].blocks[k] == enriched_block(
                rv[j]->Block_0,
                mv,
            ))
    &&& forall|j: int|
        0 <= j < mv.len() && mount_is_orphan(rv, #[trigger] mv[j]) ==> (exists|i: int, k: int|
            0 <= i < ds.len() && 0 <= k < ds[i].blocks.len() && ds[i].object_path == fstab_path()
                && ds[i].blocks[k] == orphan_block(mv[j]))
    &&& forall|i1: int, k1: int, i2: int, k2: int|
        0 <= i1 < ds.len() && 0 <= k1 < ds[i1].blocks.len() && 0 <= i2 < ds.len() && 0 <= k2
            < ds[i2].blocks.len() && (i1 != i2 || k1 != k2) ==> ds[i1].blocks[k1].dev
            != ds[i2].blocks[k2].dev
}

/// The reconciled model: its full content, drives ordered by object
/// identity, each drive's blocks ordered by device node path.
pub open spec fn reconciled(
    ds: Seq<DriveView>,
    rv: Seq<DeviceRecordView>,
    mv: Seq<MountRecordView>,
) -> bool {
    &&& gathered(ds, rv, mv)
    &&& drives_sorted(ds)
    &&& forall|i: int| 0 <= i < ds.len() ==> blocks_sorted(#[trigger] ds[i].blocks)
}

/// Device nodes are unique across the device drives and the sentinel drive
/// together.
#[verifier::spinoff_prover]
#[verifier::rlimit(40)]
proof fn lemma_gather_devs(
    dvd: Seq<DriveView>,
    f: DriveView,
    ds: Seq<DriveView>,
    rv: Seq<DeviceRecordView>,
    mv: Seq<MountRecordView>,
)
    requires
        records_wf(rv),
        mounts_wf(mv),
        device_drives_ok(dvd, rv, mv, mv.len() as int),
        fstab_ok(f, rv, mv, mv.len() as int),
        ds.len() == dvd.len() + 1,
        forall|a: int| 0 <= a < dvd.len() ==> ds[a] == dvd[a],
        ds[dvd.len() as int] == f,
    ensures
        forall|i1: int, k1: int, i2: int, k2: int|
            0 <= i1 < ds.len() && 0 <= k1 < ds[i1].blocks.len() && 0 <= i2 < ds.len() && 0 <= k2
                < ds[i2].blocks.len() && (i1 != i2 || k1 != k2) ==> ds[i1].blocks[k1].dev
                != ds[i2].blocks[k2].dev,
{
    reveal(device_drives_ok);
    reveal(fstab_ok);
    let last = dvd.len() as int;
    let m = mv.len() as int;
    assert forall|i1: int, k1: int, i2: int, k2: int|
        0 <= i1 < ds.len() && 0 <= k1 < ds[i1].blocks.len() && 0 <= i2 < ds.len() && 0 <= k2
            < ds[i2].blocks.len() && (i1 != i2 || k1 != k2) implies ds[i1].blocks[k1].dev
        != ds[i2].blocks[k2].dev by {
        if i1 < last && i2 < last {
            if i1 == i2 {
                if k1 < k2 {
                    assert(dvd[i1].blocks[k1].dev != dvd[i2].blocks[k2].dev);
                } else {
                    assert(dvd[i2].blocks[k2].dev != dvd[i1].blocks[k1].dev);
                }
            } else {
                assert(eblock_in_drive(dvd[i1], rv, mv, m, dvd[i1].blocks[k1]));
                assert(eblock_in_drive(dvd[i2], rv, mv, m, dvd[i2].blocks[k2]));
                let j1 = choose|j: int|
                    0 <= j < rv.len() && rv[j] is Block && rv[j]->Block_0.drive_path
                        == dvd[i1].object_path && dvd[i1].blocks[k1] == enriched_upto(
                        rv[j]->Block_0,
                        mv,
                        m,
                    );
                let j2 = choose|j: int|
                    0 <= j < rv.len() && rv[j] is Block && rv[j]->Block_0.drive_path
                        == dvd[i2].object_path && dvd[i2].blocks[k2] == enriched_upto(
                        rv[j]->Block_0,
                        mv,
                        m,
                    );
                assert(dvd[i1].object_path != dvd[i2].object_path);
                assert(j1 != j2);
                assert(rv[j1]->Block_0.dev != rv[j2]->Block_0.dev);
                assert(dvd[i1].blocks[k1].dev == rv[j1]->Block_0.dev);
                assert(dvd[i2].blocks[k2].dev == rv[j2]->Block_0.dev);
            }
        } else if i1 == last && i2 == last {
            if k1 < k2 {
                assert(f.blocks[k1].dev != f.blocks[k2].dev);
            } else {
                assert(f.blocks[k2].dev != f.blocks[k1].dev);
            }
        } else if i1 == last {
            let jo = choose|j: int|
                0 <= j < m && mount_is_orphan(rv, mv[j]) && f.blocks[k1] == orphan_block(mv[j]);
            assert(eblock_in_drive(dvd[i2], rv, mv, m, dvd[i2].blocks[k2]));
            let j2 = choose|j: int|
                0 <= j < rv.len() && rv[j] is Block && rv[j]->Block_0.drive_path
                    == dvd[i2].object_path && dvd[i2].blocks[k2] == enriched_upto(
                    rv[j]->Block_0,
                    mv,
                    m,
                );
            assert(rv[j2]->Block_0.dev != mv[jo].dev);
            assert(ds[i1].blocks[k1].dev == mv[jo].dev);
            assert(ds[i2].blocks[k2].dev == rv[j2]->Block_0.dev);
        } else {
            let jo = choose|j: int|
                0 <= j < m && mount_is_orphan(rv, mv[j]) && f.blocks[k2] == orphan_block(mv[j]);
            assert(eblock_in_drive(dvd[i1], rv, mv, m, dvd[i1].blocks[k1]));
            let j1 = choose|j: int|
                0 <= j < rv.len() && rv[j] is Block && rv[j]->Block_0.drive_path
                    == dvd[i1].object_path && dvd[i1].blocks[k1] == enriched_upto(
                    rv[j]->Block_0,
                    mv,
                    m,
                );
            assert(rv[j1]->Block_0.dev != mv[jo].dev);
            assert(ds[i2].blocks[k2].dev == mv[jo].dev);
            assert(ds[i1].blocks[k1].dev == rv[j1]->Block_0.dev);
        }
    }
}

/// Drive-level clauses of the gathered model, after appending the sentinel
/// drive.
#[verifier::spinoff_prover]
#[verifier::rlimit(40)]
proof fn lemma_gather_drives(
    dvd: Seq<DriveView>,
    f: DriveView,
    ds: Seq<DriveView>,
    rv: Seq<DeviceRecordView>,
    mv: Seq<MountRecordView>,
)
    requires
        records_wf(rv),
        mounts_wf(mv),
        device_drives_ok(dvd, rv, mv, mv.len() as int),
        fstab_ok(f, rv, mv, mv.len() as int),
        ds.len() == dvd.len() + 1,
        forall|a: int| 0 <= a < dvd.len() ==> ds[a] == dvd[a],
        ds[dvd.len() as int] == f,
    ensures
        contains_drive(ds, fstab_path()),
        forall|i: int, j: int| 0 <= i < j < ds.len() ==> ds[i].object_path != ds[j].object_path,
        forall|i: int|
            0 <= i < ds.len() ==> (#[trigger] ds[i].object_path == fstab_path() || mentions_upto(
                rv,
                rv.len() as int,
                ds[i].object_path,
            )),
        forall|j: int| 0 <= j < rv.len() ==> contains_drive(ds, identity_of(rv[j])),
        forall|i: int|
            0 <= i < ds.len() ==> drive_meta_ok_upto(#[trigger] ds[i], rv, rv.len() as int),
{
    reveal(device_drives_ok);
    reveal(fstab_ok);
    let last = dvd.len() as int;
    assert(ds[last].object_path == fstab_path());
    assert(contains_drive(ds, fstab_path()));
    assert forall|i: int| 0 <= i < last implies ds[i].object_path != fstab_path() by {
        assert(mentions_upto(rv, rv.len() as int, dvd[i].object_path));
        let w = choose|w: int| 0 <= w < rv.len() && identity_of(rv[w]) == dvd[i].object_path;
        assert(identity_of(rv[w]) != fstab_path());
    }
    assert forall|j: int| 0 <= j < rv.len() implies contains_drive(ds, identity_of(rv[j])) by {
        assert(contains_drive(dvd, identity_of(rv[j])));
        let w = choose|w: int| 0 <= w < dvd.len() && dvd[w].object_path == identity_of(rv[j]);
        assert(ds[w].object_path == identity_of(rv[j]));
    }
}

/// Block-level clauses of the gathered model, after appending the sentinel
/// drive.
#[verifier::spinoff_prover]
#[verifier::rlimit(40)]
proof fn lemma_gather_blocks(
    dvd: Seq<DriveView>,
    f: DriveView,
    ds: Seq<DriveView>,
    rv: Seq<DeviceRecordView>,
    mv: Seq<MountRecordView>,
)
    requires
        records_wf(rv),
        mounts_wf(mv),
        device_drives_ok(dvd, rv, mv, mv.len() as int),
        fstab_ok(f, rv, mv, mv.len() as int),
        ds.len() == dvd.len() + 1,
        forall|a: int| 0 <= a < dvd.len() ==> ds[a] == dvd[a],
        ds[dvd.len() as int] == f,
        forall|i: int| 0 <= i < dvd.len() ==> ds[i].object_path != fstab_path(),
    ensures
        forall|i: int, k: int|
            0 <= i < ds.len() && 0 <= k < ds[i].blocks.len() ==> final_block_ok(
                ds[i],
                rv,
                mv,
                #[trigger] ds[i].blocks[k],
            ),
        forall|j: int|
            0 <= j < rv.len() && rv[j] is Block ==> (exists|i: int, k: int|
                0 <= i < ds.len() && 0 <= k < ds[i].blocks.len() && ds[i].object_path
                    == rv[j]->Block_0.drive_path && ds[i].blocks[k] == enriched_block(
                    rv[j]->Block_0,
                    mv,
                )),
        forall|j: int|
            0 <= j < mv.len() && mount_is_orphan(rv, #[trigger] mv[j]) ==> (exists|
                i: int,
                k: int,
            |
                0 <= i < ds.len() && 0 <= k < ds[i].blocks.len() && ds[i].object_path
                    == fstab_path() && ds[i].blocks[k] == orphan_block(mv[j])),
{
    reveal(device_drives_ok);
    reveal(fstab_ok);
    let last = dvd.len() as int;
    let m = mv.len() as int;
    assert forall|i: int, k: int|
        0 <= i < ds.len() && 0 <= k < ds[i].blocks.len() implies final_block_ok(
        ds[i],
        rv,
        mv,
        #[trigger] ds[i].blocks[k],
    ) by {
        if i < last {
            assert(eblock_in_drive(dvd[i], rv, mv, m, dvd[i].blocks[k]));
            let j = choose|j: int|
                0 <= j < rv.len() && rv[j] is Block && rv[j]->Block_0.drive_path
                    == dvd[i].object_path && dvd[i].blocks[k] == enriched_upto(
                    rv[j]->Block_0,
                    mv,
                    m,
                );
            assert(enriched_block(rv[j]->Block_0, mv) == enriched_upto(rv[j]->Block_0, mv, m));
            assert(ds[i].object_path != fstab_path());
        } else {
            assert(ds[i] == f);
        }
    }
    assert forall|j: int| 0 <= j < rv.len() && rv[j] is Block implies (exists|i: int, k: int|
        0 <= i < ds.len() && 0 <= k < ds[i].blocks.len() && ds[i].object_path
            == rv[j]->Block_0.drive_path && ds[i].blocks[k] == enriched_block(
            rv[j]->Block_0,
            mv,
        )) by {
        assert(eblock_placed(dvd, rv[j]->Block_0, mv, m));
        let (a, k): (int, int) = choose|a: int, k: int|
            0 <= a < dvd.len() && 0 <= k < dvd[a].blocks.len() && dvd[a].object_path
                == rv[j]->Block_0.drive_path && dvd[a].blocks[k] == enriched_upto(
                rv[j]->Block_0,
                mv,
                m,
            );
        assert(ds[a].object_path == rv[j]->Block_0.drive_path);
        assert(ds[a].blocks[k] == enriched_block(rv[j]->Block_0, mv));
    }
    assert forall|j: int|
        0 <= j < mv.len() && mount_is_orphan(rv, #[trigger] mv[j]) implies (exists|
        i: int,
        k: int,
    |
        0 <= i < ds.len() && 0 <= k < ds[i].blocks.len() && ds[i].object_path == fstab_path()
            && ds[i].blocks[k] == orphan_block(mv[j])) by {
        let k = choose|k: int| 0 <= k < f.blocks.len() && f.blocks[k] == orphan_block(mv[j]);
        assert(ds[last].blocks[k] == orphan_block(mv[j]));
    }
}

/// Appending the sentinel drive to the device drives gathers the whole
/// model.
#[verifier::spinoff_prover]
proof fn lemma_gather(
    dvd: Seq<DriveView>,
    f: DriveView,
    ds: Seq<DriveView>,
    rv: Seq<DeviceRecordView>,
    mv: Seq<MountRecordView>,
)
    requires
        records_wf(rv),
        mounts_wf(mv),
        device_drives_ok(dvd, rv, mv, mv.len() as int),
        fstab_ok(f, rv, mv, mv.len() as int),
        ds.len() == dvd.len() + 1,
        forall|a: int| 0 <= a < dvd.len() ==> ds[a] == dvd[a],
        ds[dvd.len() as int] == f,
    ensures
        gathered(ds, rv, mv),
{
    reveal(gathered);
    reveal(fstab_ok);
    lemma_gather_drives(dvd, f, ds, rv, mv);
    assert forall|i: int| 0 <= i < dvd.len() implies ds[i].object_path != fstab_path() by {
        if i < dvd.len() {
            assert(ds[i].object_path != ds[dvd.len() as int].object_path);
        }
    }
    lemma_gather_blocks(dvd, f, ds, rv, mv);
    lemma_gather_devs(dvd, f, ds, rv, mv);
}

/// Reordering each drive's blocks keeps the gathered content.
/// A sequence holds every item of one with the same multiset of items.
#[verifier::spinoff_prover]
proof fn lemma_multiset_same_contains<A>(a: Seq<A>, b: Seq<A>, x: A)
    requires
        a.to_multiset() == b.to_multiset(),
        a.contains(x),
    ensures
        b.contains(x),
{
    vstd::seq_lib::to_multiset_contains(a, x);
    vstd::seq_lib::to_multiset_contains(b, x);
}

/// Reordering a drive's blocks keeps each of them a block that belongs in
/// that drive.
#[verifier::spinoff_prover]
proof fn lemma_perm_final_block_ok(
    d2: DriveView,
    d3: DriveView,
    rv: Seq<DeviceRecordView>,
    mv: Seq<MountRecordView>,
)
    requires
        d3.object_path == d2.object_path,
        d3.blocks.to_multiset() == d2.blocks.to_multiset(),
        forall|k: int|
            0 <= k < d2.blocks.len() ==> final_block_ok(d2, rv, mv, #[trigger] d2.blocks[k]),
    ensures
        forall|k: int|
            0 <= k < d3.blocks.len() ==> final_block_ok(d3, rv, mv, #[trigger] d3.blocks[k]),
{
    assert forall|k: int| 0 <= k < d3.blocks.len() implies final_block_ok(
        d3,
        rv,
        mv,
        #[trigger] d3.blocks[k],
    ) by {
        let x = d3.blocks[k];
        assert(d3.blocks.contains(x));
        lemma_multiset_same_contains(d3.blocks, d2.blocks, x);
        let k0 = choose|k0: int| 0 <= k0 < d2.blocks.len() && d2.blocks[k0] == x;
        assert(final_block_ok(d2, rv, mv, x));
        if d2.object_path == fstab_path() {
            let j = choose|j: int|
                0 <= j < mv.len() && mount_is_orphan(rv, mv[j]) && x == orphan_block(mv[j]);
            assert(0 <= j < mv.len() && mount_is_orphan(rv, mv[j]) && x == orphan_block(mv[j]));
        } else {
            let j = choose|j: int|
                0 <= j < rv.len() && rv[j] is Block && rv[j]->Block_0.drive_path == d2.object_path
                    && x == enriched_block(rv[j]->Block_0, mv);
            assert(0 <= j < rv.len() && rv[j] is Block && rv[j]->Block_0.drive_path
                == d3.object_path && x == enriched_block(rv[j]->Block_0, mv));
        }
    }
}

/// A block that sits in the drive with a given identity still does when each
/// drive's blocks are reordered.
#[verifier::spinoff_prover]
proof fn lemma_perm_block_placed(
    dv2: Seq<DriveView>,
    dv3: Seq<DriveView>,
    p: Seq<char>,
    b: BlockView,
)
    requires
        dv3.len() == dv2.len(),
        forall|a: int| 0 <= a < dv2.len() ==> #[trigger] dv3[a].object_path == dv2[a].object_path,
        forall|a: int|
            0 <= a < dv2.len() ==> (#[trigger] dv3[a].blocks.to_multiset())
                == dv2[a].blocks.to_multiset(),
        exists|i: int, k: int|
            0 <= i < dv2.len() && 0 <= k < dv2[i].blocks.len() && dv2[i].object_path == p
                && dv2[i].blocks[k] == b,
    ensures
        exists|i: int, k: int|
            0 <= i < dv3.len() && 0 <= k < dv3[i].blocks.len() && dv3[i].object_path == p
                && dv3[i].blocks[k] == b,
{
    let (a, k0): (int, int) = choose|a: int, k0: int|
        0 <= a < dv2.len() && 0 <= k0 < dv2[a].blocks.len() && dv2[a].object_path == p
            && dv2[a].blocks[k0] == b;
    assert(dv2[a].blocks.contains(b));
    lemma_multiset_same_contains(dv2[a].blocks, dv3[a].blocks, b);
    let k = choose|k: int| 0 <= k < dv3[a].blocks.len() && dv3[a].blocks[k] == b;
    assert(0 <= a < dv3.len() && 0 <= k < dv3[a].blocks.len() && dv3[a].object_path == p
        && dv3[a].blocks[k] == b);
}

/// Reordering each drive's blocks keeps device nodes distinct across the
/// whole collection.
#[verifier::spinoff_prover]
proof fn lemma_perm_cross_devs(dv2: Seq<DriveView>, dv3: Seq<DriveView>)
    requires
        dv3.len() == dv2.len(),
        forall|a: int|
            0 <= a < dv2.len() ==> (#[trigger] dv3[a].blocks.to_multiset())
                == dv2[a].blocks.to_multiset(),
        forall|i1: int, k1: int, i2: int, k2: int|
            0 <= i1 < dv2.len() && 0 <= k1 < dv2[i1].blocks.len() && 0 <= i2 < dv2.len() && 0 <= k2
                < dv2[i2].blocks.len() && (i1 != i2 || k1 != k2) ==> dv2[i1].blocks[k1].dev
                != dv2[i2].blocks[k2].dev,
    ensures
        forall|i1: int, k1: int, i2: int, k2: int|
            0 <= i1 < dv3.len() && 0 <= k1 < dv3[i1].blocks.len() && 0 <= i2 < dv3.len() && 0 <= k2
                < dv3[i2].blocks.len() && (i1 != i2 || k1 != k2) ==> dv3[i1].blocks[k1].dev
                != dv3[i2].blocks[k2].dev,
{
    assert forall|i1: int, k1: int, i2: int, k2: int|
        0 <= i1 < dv3.len() && 0 <= k1 < dv3[i1].blocks.len() && 0 <= i2 < dv3.len() && 0 <= k2
            < dv3[i2].blocks.len() && (i1 != i2 || k1 != k2) implies dv3[i1].blocks[k1].dev
        != dv3[i2].blocks[k2].dev by {
        if i1 == i2 {
            assert forall|k: int, l: int|
                0 <= k < l < dv2[i1].blocks.len() implies dv2[i1].blocks[k].dev
                != dv2[i1].blocks[l].dev by {
                assert(dv2[i1].blocks[k].dev != dv2[i1].blocks[l].dev);
            }
            lemma_perm_distinct_devs(dv2[i1].blocks, dv3[i1].blocks);
            if k1 < k2 {
                assert(dv3[i1].blocks[k1].dev != dv3[i1].blocks[k2].dev);
            } else {
                assert(dv3[i1].blocks[k2].dev != dv3[i1].blocks[k1].dev);
            }
        } else {
            assert(dv3[i1].blocks.contains(dv3[i1].blocks[k1]));
            lemma_multiset_same_contains(dv3[i1].blocks, dv2[i1].blocks, dv3[i1].blocks[k1]);
            let a1 = choose|a: int|
                0 <= a < dv2[i1].blocks.len() && dv2[i1].blocks[a] == dv3[i1].blocks[k1];
            assert(dv3[i2].blocks.contains(dv3[i2].blocks[k2]));
            lemma_multiset_same_contains(dv3[i2].blocks, dv2[i2].blocks, dv3[i2].blocks[k2]);
            let a2 = choose|a: int|
                0 <= a < dv2[i2].blocks.len() && dv2[i2].blocks[a] == dv3[i2].blocks[k2];
            assert(dv2[i1].blocks[a1].dev != dv2[i2].blocks[a2].dev);
        }
    }
}

/// Reordering each drive's blocks keeps the gathered content.
#[verifier::spinoff_prover]
#[verifier::rlimit(40)]
proof fn lemma_block_sort_gathered(
    dv2: Seq<DriveView>,
    dv3: Seq<DriveView>,
    rv: Seq<DeviceRecordView>,
    mv: Seq<MountRecordView>,
)
    requires
        gathered(dv2, rv, mv),
        dv3.len() == dv2.len(),
        forall|a: int|
            0 <= a < dv2.len() ==> #[trigger] dv3[a].object_path == dv2[a].object_path
                && dv3[a].id == dv2[a].id && dv3[a].model == dv2[a].model && dv3[a].ejectable
                == dv2[a].ejectable,
        forall|a: int|
            0 <= a < dv2.len() ==> (#[trigger] dv3[a].blocks.to_multiset())
                == dv2[a].blocks.to_multiset(),
    ensures
        gathered(dv3, rv, mv),
{
    reveal(gathered);
    let w = choose|w: int| 0 <= w < dv2.len() && dv2[w].object_path == fstab_path();
    assert(dv3[w].object_path == fstab_path());
    assert forall|j: int| 0 <= j < rv.len() implies contains_drive(dv3, identity_of(rv[j])) by {
        let i = choose|i: int| 0 <= i < dv2.len() && dv2[i].object_path == identity_of(rv[j]);
        assert(dv3[i].object_path == identity_of(rv[j]));
    }
    assert forall|i: int| 0 <= i < dv3.len() implies (#[trigger] dv3[i].object_path == fstab_path()
        || mentions_upto(rv, rv.len() as int, dv3[i].object_path)) by {
        assert(dv2[i].object_path == fstab_path() || mentions_upto(
            rv,
            rv.len() as int,
            dv2[i].object_path,
        ));
    }
    assert forall|i: int| 0 <= i < dv3.len() implies drive_meta_ok_upto(
        #[trigger] dv3[i],
        rv,
        rv.len() as int,
    ) by {
        assert(drive_meta_ok_upto(dv2[i], rv, rv.len() as int));
    }
    assert forall|i: int, k: int|
        0 <= i < dv3.len() && 0 <= k < dv3[i].blocks.len() implies final_block_ok(
        dv3[i],
        rv,
        mv,
        #[trigger] dv3[i].blocks[k],
    ) by {
        assert forall|k0: int| 0 <= k0 < dv2[i].blocks.len() implies final_block_ok(
            dv2[i],
            rv,
            mv,
            #[trigger] dv2[i].blocks[k0],
        ) by {}
        lemma_perm_final_block_ok(dv2[i], dv3[i], rv, mv);
    }
    assert forall|j: int| 0 <= j < rv.len() && rv[j] is Block implies (exists|i: int, k: int|
        0 <= i < dv3.len() && 0 <= k < dv3[i].blocks.len() && dv3[i].object_path
            == rv[j]->Block_0.drive_path && dv3[i].blocks[k] == enriched_block(
            rv[j]->Block_0,
            mv,
        )) by {
        lemma_perm_block_placed(
            dv2,
            dv3,
            rv[j]->Block_0.drive_path,
            enriched_block(rv[j]->Block_0, mv),
        );
    }
    assert forall|j: int|
        0 <= j < mv.len() && mount_is_orphan(rv, #[trigger] mv[j]) implies (exists|
        i: int,
        k: int,
    |
        0 <= i < dv3.len() && 0 <= k < dv3[i].blocks.len() && dv3[i].object_path == fstab_path()
            && dv3[i].blocks[k] == orphan_block(mv[j])) by {
        lemma_perm_block_placed(dv2, dv3, fstab_path(), orphan_block(mv[j]));
    }
    lemma_perm_cross_devs(dv2, dv3);
}

/// A permutation contains the same drive values.
#[verifier::spinoff_prover]
proof fn lemma_perm_mutual_contains(a: Seq<DriveView>, b: Seq<DriveView>)
    requires
        a.to_multiset() == b.to_multiset(),
    ensures
        a.len() == b.len(),
        forall|i: int| 0 <= i < b.len() ==> a.contains(#[trigger] b[i]),
        forall|i: int| 0 <= i < a.len() ==> b.contains(#[trigger] a[i]),
{
    broadcast use vstd::seq_lib::group_to_multiset_ensures;
    broadcast use vstd::multiset::group_multiset_axioms;

    assert(a.len() == a.to_multiset().len());
    assert(b.len() == b.to_multiset().len());
    assert forall|i: int| 0 <= i < b.len() implies a.contains(#[trigger] b[i]) by {
        assert(b.contains(b[i]));
        assert(a.to_multiset().count(b[i]) > 0);
    }
    assert forall|i: int| 0 <= i < a.len() implies b.contains(#[trigger] a[i]) by {
        assert(a.contains(a[i]));
        assert(b.to_multiset().count(a[i]) > 0);
    }
}

/// Per-drive facts carry over to a permutation of the drives.
#[verifier::spinoff_prover]
#[verifier::rlimit(40)]
proof fn lemma_drive_perm_pointwise(
    dv3: Seq<DriveView>,
    dv4: Seq<DriveView>,
    rv: Seq<DeviceRecordView>,
    mv: Seq<MountRecordView>,
)
    requires
        gathered(dv3, rv, mv),
        forall|i: int| 0 <= i < dv3.len() ==> blocks_sorted(#[trigger] dv3[i].blocks),
        forall|i: int| 0 <= i < dv4.len() ==> dv3.contains(#[trigger] dv4[i]),
    ensures
        forall|i: int|
            0 <= i < dv4.len() ==> (#[trigger] dv4[i].object_path == fstab_path()
                || mentions_upto(rv, rv.len() as int, dv4[i].object_path)),
        forall|i: int|
            0 <= i < dv4.len() ==> drive_meta_ok_upto(#[trigger] dv4[i], rv, rv.len() as int),
        forall|i: int| 0 <= i < dv4.len() ==> blocks_sorted(#[trigger] dv4[i].blocks),
        forall|i: int, k: int|
            0 <= i < dv4.len() && 0 <= k < dv4[i].blocks.len() ==> final_block_ok(
                dv4[i],
                rv,
                mv,
                #[trigger] dv4[i].blocks[k],
            ),
{
    reveal(gathered);
    assert forall|i: int|
        0 <= i < dv4.len() implies (#[trigger] dv4[i].object_path == fstab_path()
        || mentions_upto(rv, rv.len() as int, dv4[i].object_path)) && drive_meta_ok_upto(
        dv4[i],
        rv,
        rv.len() as int,
    ) && blocks_sorted(dv4[i].blocks) by {
        let a = choose|a: int| 0 <= a < dv3.len() && dv3[a] == dv4[i];
        assert(drive_meta_ok_upto(dv3[a], rv, rv.len() as int));
        assert(blocks_sorted(dv3[a].blocks));
    }
    assert forall|i: int, k: int|
        0 <= i < dv4.len() && 0 <= k < dv4[i].blocks.len() implies final_block_ok(
        dv4[i],
        rv,
        mv,
        #[trigger] dv4[i].blocks[k],
    ) by {
        let a = choose|a: int| 0 <= a < dv3.len() && dv3[a] == dv4[i];
        assert(final_block_ok(dv3[a], rv, mv, dv3[a].blocks[k]));
    }
}

/// The completeness clauses carry over to a permutation of the drives.
#[verifier::spinoff_prover]
#[verifier::rlimit(40)]
proof fn lemma_drive_perm_complete(
    dv3: Seq<DriveView>,
    dv4: Seq<DriveView>,
    rv: Seq<DeviceRecordView>,
    mv: Seq<MountRecordView>,
)
    requires
        gathered(dv3, rv, mv),
        forall|i: int| 0 <= i < dv3.len() ==> dv4.contains(#[trigger] dv3[i]),
    ensures
        contains_drive(dv4, fstab_path()),
        forall|j: int| 0 <= j < rv.len() ==> contains_drive(dv4, identity_of(rv[j])),
        forall|j: int|
            0 <= j < rv.len() && rv[j] is Block ==> (exists|i: int, k: int|
                0 <= i < dv4.len() && 0 <= k < dv4[i].blocks.len() && dv4[i].object_path
                    == rv[j]->Block_0.drive_path && dv4[i].blocks[k] == enriched_block(
                    rv[j]->Block_0,
                    mv,
                )),
        forall|j: int|
            0 <= j < mv.len() && mount_is_orphan(rv, #[trigger] mv[j]) ==> (exists|
                i: int,
                k: int,
            |
                0 <= i < dv4.len() && 0 <= k < dv4[i].blocks.len() && dv4[i].object_path
                    == fstab_path() && dv4[i].blocks[k] == orphan_block(mv[j])),
{
    reveal(gathered);
    let w = choose|w: int| 0 <= w < dv3.len() && dv3[w].object_path == fstab_path();
    let w4 = choose|i: int| 0 <= i < dv4.len() && dv4[i] == dv3[w];
    assert(dv4[w4].object_path == fstab_path());
    assert forall|j: int| 0 <= j < rv.len() implies contains_drive(dv4, identity_of(rv[j])) by {
        let a = choose|a: int| 0 <= a < dv3.len() && dv3[a].object_path == identity_of(rv[j]);
        let a4 = choose|i: int| 0 <= i < dv4.len() && dv4[i] == dv3[a];
        assert(dv4[a4].object_path == identity_of(rv[j]));
    }
    assert forall|j: int| 0 <= j < rv.len() && rv[j] is Block implies (exists|i: int, k: int|
        0 <= i < dv4.len() && 0 <= k < dv4[i].blocks.len() && dv4[i].object_path
            == rv[j]->Block_0.drive_path && dv4[i].blocks[k] == enriched_block(
            rv[j]->Block_0,
            mv,
        )) by {
        let (a, k): (int, int) = choose|a: int, k: int|
            0 <= a < dv3.len() && 0 <= k < dv3[a].blocks.len() && dv3[a].object_path
                == rv[j]->Block_0.drive_path && dv3[a].blocks[k] == enriched_block(
                rv[j]->Block_0,
                mv,
            );
        let a4 = choose|i: int| 0 <= i < dv4.len() && dv4[i] == dv3[a];
        assert(dv4[a4].blocks[k] == enriched_block(rv[j]->Block_0, mv));
    }
    assert forall|j: int|
        0 <= j < mv.len() && mount_is_orphan(rv, #[trigger] mv[j]) implies (exists|
        i: int,
        k: int,
    |
        0 <= i < dv4.len() && 0 <= k < dv4[i].blocks.len() && dv4[i].object_path == fstab_path()
            && dv4[i].blocks[k] == orphan_block(mv[j])) by {
        let (a, k): (int, int) = choose|a: int, k: int|
            0 <= a < dv3.len() && 0 <= k < dv3[a].blocks.len() && dv3[a].object_path
                == fstab_path() && dv3[a].blocks[k] == orphan_block(mv[j]);
        let a4 = choose|i: int| 0 <= i < dv4.len() && dv4[i] == dv3[a];
        assert(dv4[a4].blocks[k] == orphan_block(mv[j]));
    }
}

/// Device-node uniqueness carries over to a permutation of the drives.
#[verifier::spinoff_prover]
#[verifier::rlimit(40)]
proof fn lemma_drive_perm_devs(
    dv3: Seq<DriveView>,
    dv4: Seq<DriveView>,
    rv: Seq<DeviceRecordView>,
    mv: Seq<MountRecordView>,
)
    requires
        gathered(dv3, rv, mv),
        forall|i: int| 0 <= i < dv4.len() ==> dv3.contains(#[trigger] dv4[i]),
        forall|k: int, l: int|
            0 <= k < l < dv4.len() ==> dv4[k].object_path != dv4[l].object_path,
    ensures
        forall|i1: int, k1: int, i2: int, k2: int|
            0 <= i1 < dv4.len() && 0 <= k1 < dv4[i1].blocks.len() && 0 <= i2 < dv4.len() && 0 <= k2
                < dv4[i2].blocks.len() && (i1 != i2 || k1 != k2) ==> dv4[i1].blocks[k1].dev
                != dv4[i2].blocks[k2].dev,
{
    reveal(gathered);
    assert forall|i1: int, k1: int, i2: int, k2: int|
        0 <= i1 < dv4.len() && 0 <= k1 < dv4[i1].blocks.len() && 0 <= i2 < dv4.len() && 0 <= k2
            < dv4[i2].blocks.len() && (i1 != i2 || k1 != k2) implies dv4[i1].blocks[k1].dev
        != dv4[i2].blocks[k2].dev by {
        let a1 = choose|a: int| 0 <= a < dv3.len() && dv3[a] == dv4[i1];
        let a2 = choose|a: int| 0 <= a < dv3.len() && dv3[a] == dv4[i2];
        if i1 == i2 {
            assert(dv3[a1].blocks[k1].dev != dv3[a1].blocks[k2].dev);
        } else {
            if i1 < i2 {
                assert(dv4[i1].object_path != dv4[i2].object_path);
            } else {
                assert(dv4[i2].object_path != dv4[i1].object_path);
            }
            assert(a1 != a2);
            assert(dv3[a1].blocks[k1].dev != dv3[a2].blocks[k2].dev);
        }
    }
}

/// Reordering the drives keeps the gathered content and each drive's block
/// order.
#[verifier::spinoff_prover]
proof fn lemma_drive_sort_reconciled(
    dv3: Seq<DriveView>,
    dv4: Seq<DriveView>,
    rv: Seq<DeviceRecordView>,
    mv: Seq<MountRecordView>,
)
    requires
        gathered(dv3, rv, mv),
        forall|i: int| 0 <= i < dv3.len() ==> blocks_sorted(#[trigger] dv3[i].blocks),
        dv4.to_multiset() == dv3.to_multiset(),
        drives_sorted(dv4),
    ensures
        reconciled(dv4, rv, mv),
{
    reveal(gathered);
    lemma_perm_mutual_contains(dv3, dv4);
    lemma_perm_distinct_paths(dv3, dv4);
    lemma_drive_perm_pointwise(dv3, dv4, rv, mv);
    lemma_drive_perm_complete(dv3, dv4, rv, mv);
    lemma_drive_perm_devs(dv3, dv4, rv, mv);
}

/// One drive's blocks were reordered in place: the pointwise relation to
/// the gathered collection is kept.
#[verifier::spinoff_prover]
proof fn lemma_sort_step(
    before: Seq<DriveView>,
    nv: Seq<DriveView>,
    dv2: Seq<DriveView>,
    i: int,
)
    requires
        before.len() == dv2.len(),
        nv.len() == before.len(),
        0 <= i < dv2.len(),
        forall|a: int|
            0 <= a < dv2.len() ==> #[trigger] before[a].object_path == dv2[a].object_path
                && before[a].id == dv2[a].id && before[a].model == dv2[a].model
                && before[a].ejectable == dv2[a].ejectable,
        forall|a: int|
            0 <= a < dv2.len() ==> (#[trigger] before[a].blocks.to_multiset())
                == dv2[a].blocks.to_multiset(),
        forall|a: int| 0 <= a < i ==> blocks_sorted(#[trigger] before[a].blocks),
        forall|a: int| 0 <= a < dv2.len() && a != i ==> nv[a] == before[a],
        nv[i].object_path == before[i].object_path,
        nv[i].id == before[i].id,
        nv[i].model == before[i].model,
        nv[i].ejectable == before[i].ejectable,
        nv[i].blocks.to_multiset() == before[i].blocks.to_multiset(),
        blocks_sorted(nv[i].blocks),
    ensures
        forall|a: int|
            0 <= a < dv2.len() ==> #[trigger] nv[a].object_path == dv2[a].object_path && nv[a].id
                == dv2[a].id && nv[a].model == dv2[a].model && nv[a].ejectable == dv2[a].ejectable,
        forall|a: int|
            0 <= a < dv2.len() ==> (#[trigger] nv[a].blocks.to_multiset())
                == dv2[a].blocks.to_multiset(),
        forall|a: int| 0 <= a < i + 1 ==> blocks_sorted(#[trigger] nv[a].blocks),
{
    assert forall|a: int|
        0 <= a < dv2.len() implies #[trigger] nv[a].object_path == dv2[a].object_path && nv[a].id
        == dv2[a].id && nv[a].model == dv2[a].model && nv[a].ejectable == dv2[a].ejectable by {
        if a != i {
            assert(nv[a] == before[a]);
        }
    }
    assert forall|a: int|
        0 <= a < dv2.len() implies (#[trigger] nv[a].blocks.to_multiset())
        == dv2[a].blocks.to_multiset() by {
        if a != i {
            assert(nv[a] == before[a]);
        }
    }
    assert forall|a: int| 0 <= a < i + 1 implies blocks_sorted(#[trigger] nv[a].blocks) by {
        if a != i {
            assert(nv[a] == before[a]);
            assert(blocks_sorted(before[a].blocks));
        }
    }
}

/// Reconciles one enumeration pass of the device service with the mount
/// table: drive and block records are merged in discovery order with
/// placeholder drives for blocks that arrive first, matching mount records
/// enrich their blocks in place, orphaned mount records become blocks of a
/// synthetic sentinel drive, and the result is ordered by object identity
/// and device node path.
#[verifier::spinoff_prover]
pub fn reconcile(records: Vec<DeviceRecord>, mounts: Vec<MountRecord>) -> (out: Vec<Drive>)
    requires
        records_wf(recs_view(records@)),
        mounts_wf(mounts_view(mounts@)),
    ensures
        reconciled(drives_view(out@), recs_view(records@), mounts_view(mounts@)),
{
    let ghost rv = recs_view(records@);
    let ghost mv = mounts_view(mounts@);
    let mut drives = merge_device_records(&records);
    let fstab = apply_mounts(&mut drives, &mounts, Ghost(rv));
    let ghost dvd = drives_view(drives@);
    let ghost fv = fstab@;
    drives.push(fstab);
    proof {
        assert(drives_view(drives@).len() == dvd.len() + 1);
        assert forall|a: int| 0 <= a < dvd.len() implies drives_view(drives@)[a] == dvd[a] by {}
        assert(drives_view(drives@)[dvd.len() as int] == fv);
        lemma_gather(dvd, fv, drives_view(drives@), rv, mv);
    }
    let ghost dv2 = drives_view(drives@);
    let mut i: usize = 0;
    while i < drives.len()
        invariant
            i <= drives@.len(),
            drives@.len() == dv2.len(),
            forall|a: int|
                0 <= a < dv2.len() ==> #[trigger] drives_view(drives@)[a].object_path
                    == dv2[a].object_path && drives_view(drives@)[a].id == dv2[a].id && drives_view(
                    drives@,
                )[a].model == dv2[a].model && drives_view(drives@)[a].ejectable
                    == dv2[a].ejectable,
            forall|a: int|
                0 <= a < dv2.len() ==> (#[trigger] drives_view(drives@)[a].blocks.to_multiset())
                    == dv2[a].blocks.to_multiset(),
            forall|a: int|
                0 <= a < i ==> blocks_sorted(#[trigger] drives_view(drives@)[a].blocks),
        decreases drives@.len() - i,
    {
        let ghost before = drives_view(drives@);
        sort_blocks(&mut drives[i].blocks);
        proof {
            assert forall|a: int|
                0 <= a < dv2.len() && a != i implies drives_view(drives@)[a] == before[a] by {}
            assert(drives_view(drives@)[i as int].object_path == before[i as int].object_path);
            assert(drives_view(drives@)[i as int].id == before[i as int].id);
            assert(drives_view(drives@)[i as int].model == before[i as int].model);
            assert(drives_view(drives@)[i as int].ejectable == before[i as int].ejectable);
            assert(drives_view(drives@)[i as int].blocks.to_multiset()
                == before[i as int].blocks.to_multiset());
            assert(blocks_sorted(drives_view(drives@)[i as int].blocks));
            lemma_sort_step(before, drives_view(drives@), dv2, i as int);
        }
        i = i + 1;
    }
    proof {
        lemma_block_sort_gathered(dv2, drives_view(drives@), rv, mv);
    }
    let ghost dv3 = drives_view(drives@);
    sort_drives(&mut drives);
    proof {
        lemma_drive_sort_reconciled(dv3, drives_view(drives@), rv, mv);
    }
    drives
}

/// Every block's device node path is unique across the reconciled model.
#[verifier::spinoff_prover]
pub proof fn lemma_device_nodes_unique(
    ds: Seq<DriveView>,
    rv: Seq<DeviceRecordView>,
    mv: Seq<MountRecordView>,
    i1: int,
    k1: int,
    i2: int,
    k2: int,
)
    requires
        reconciled(ds, rv, mv),
        0 <= i1 < ds.len(),
        0 <= k1 < ds[i1].blocks.len(),
        0 <= i2 < ds.len(),
        0 <= k2 < ds[i2].blocks.len(),
        i1 != i2 || k1 != k2,
    ensures
        ds[i1].blocks[k1].dev != ds[i2].blocks[k2].dev,
{
    reveal(gathered);
}

/// A block of the sentinel drive was produced purely from a mount record:
/// it has an empty object identity and the sentinel owning-drive identity.
#[verifier::spinoff_prover]
pub proof fn lemma_orphan_block_shape(
    ds: Seq<DriveView>,
    rv: Seq<DeviceRecordView>,
    mv: Seq<MountRecordView>,
    i: int,
    k: int,
)
    requires
        reconciled(ds, rv, mv),
        0 <= i < ds.len(),
        ds[i].object_path == fstab_path(),
        0 <= k < ds[i].blocks.len(),
    ensures
        ds[i].blocks[k].object_path == Seq::<char>::empty(),
        ds[i].blocks[k].drive_path == fstab_path(),
{
    reveal(gathered);
    assert(final_block_ok(ds[i], rv, mv, ds[i].blocks[k]));
}

/// Whenever a drive record for a drive's identity was delivered, in whatever
/// position, the reconciled drive carries that record's identifier, model
/// and ejectable flag, never placeholder defaults.
#[verifier::spinoff_prover]
pub proof fn lemma_drive_metadata_from_record(
    ds: Seq<DriveView>,
    rv: Seq<DeviceRecordView>,
    mv: Seq<MountRecordView>,
    i: int,
)
    requires
        reconciled(ds, rv, mv),
        0 <= i < ds.len(),
        ds[i].object_path != fstab_path(),
        has_drive_rec_upto(rv, rv.len() as int, ds[i].object_path),
    ensures
        ds[i].id == drive_rec_upto(rv, rv.len() as int, ds[i].object_path).id,
        ds[i].model == drive_rec_upto(rv, rv.len() as int, ds[i].object_path).model,
        ds[i].ejectable == drive_rec_upto(rv, rv.len() as int, ds[i].object_path).ejectable,
{
    reveal(gathered);
    assert(drive_meta_ok_upto(ds[i], rv, rv.len() as int));
}

} // verus!
