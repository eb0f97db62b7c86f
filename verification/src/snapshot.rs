//! Reading the disks that `sysinfo` has collected.

use crate::disk::{shown, DiskRecord, DiskRecordView};
use crate::model::{
    cleared, has_disk, has_row, latest, lists_removed, reconciled, rows_wf, views,
};
use crate::panel::{Changes, DiskPanel};
use vstd::prelude::*;

verus! {

/// `sysinfo::Disk`, one disk as `sysinfo` holds it. Nothing inside it is
/// visible here; it is read through the functions below.
#[verifier::external_type_specification]
#[verifier::external_body]
pub struct ExDisk(sysinfo::Disk);

/// What `sysinfo::DiskExt::name` returns for a disk, read as text: the
/// device name, or `None` where it is not valid Unicode. It is read off the
/// disk as `sysinfo` holds it, so one disk always gives one answer.
pub uninterp spec fn reported_name(disk: sysinfo::Disk) -> Option<Seq<char>>;

/// What `sysinfo::DiskExt::mount_point` returns for a disk, read as text: the
/// path at which it is mounted, or `None` where it is not valid Unicode.
pub uninterp spec fn reported_mount_point(disk: sysinfo::Disk) -> Option<Seq<char>>;

/// What `sysinfo::DiskExt::total_space` returns for a disk: its size in bytes.
pub uninterp spec fn reported_total(disk: sysinfo::Disk) -> u64;

/// What `sysinfo::DiskExt::available_space` returns for a disk: its free
/// bytes. Nothing says that they stay below the total.
pub uninterp spec fn reported_available(disk: sysinfo::Disk) -> u64;

/// The characters of an optional string.
pub open spec fn text_view(text: Option<String>) -> Option<Seq<char>> {
    match text {
        Some(text) => Some(text@),
        None => None,
    }
}

/// `sysinfo::DiskExt::name` of a disk, as text. The device name is an
/// operating-system string that `sysinfo` keeps in the disk and hands out
/// as it is; `None` stands for one that is not valid Unicode. The contract
/// only gives the answer its name, [`reported_name`]: it claims that a disk
/// always answers the same, and nothing about the name itself. (On a target
/// that `sysinfo` does not support the call does not return; there `sysinfo`
/// never lists a disk to ask.)
#[verifier::external_body]
fn disk_name(disk: &sysinfo::Disk) -> (name: Option<String>)
    ensures
        text_view(name) == reported_name(*disk),
{
    sysinfo::DiskExt::name(disk).to_str().map(String::from)
}

/// `sysinfo::DiskExt::mount_point` of a disk, as text. The mount point is a
/// path that `sysinfo` keeps in the disk; `None` stands for one that is not
/// valid Unicode. The contract only gives the answer its name,
/// [`reported_mount_point`], and claims nothing about the path itself.
#[verifier::external_body]
fn disk_mount_point(disk: &sysinfo::Disk) -> (mount_point: Option<String>)
    ensures
        text_view(mount_point) == reported_mount_point(*disk),
{
    sysinfo::DiskExt::mount_point(disk).to_str().map(String::from)
}

/// `sysinfo::DiskExt::total_space` of a disk: the size in bytes that
/// `sysinfo` keeps in the disk, named [`reported_total`]. Nothing is claimed
/// about the number.
#[verifier::external_body]
fn disk_total_space(disk: &sysinfo::Disk) -> (bytes: u64)
    ensures
        bytes == reported_total(*disk),
{
    sysinfo::DiskExt::total_space(disk)
}

/// `sysinfo::DiskExt::available_space` of a disk: the free bytes that
/// `sysinfo` keeps in the disk, named [`reported_available`]. Nothing is
/// claimed about the number; it is not known to stay below the total.
#[verifier::external_body]
fn disk_available_space(disk: &sysinfo::Disk) -> (bytes: u64)
    ensures
        bytes == reported_available(*disk),
{
    sysinfo::DiskExt::available_space(disk)
}

/// The text that is used where a name may be missing: empty where it is.
pub open spec fn or_empty(text: Option<Seq<char>>) -> Seq<char> {
    match text {
        Some(text) => text,
        None => Seq::empty(),
    }
}

/// The record of a disk: what `sysinfo` reports of it, with the empty text in
/// place of a name or mount point that is not valid Unicode.
pub open spec fn reported(disk: sysinfo::Disk) -> DiskRecordView {
    DiskRecordView {
        name: or_empty(reported_name(disk)),
        mount_point: or_empty(reported_mount_point(disk)),
        total_space: reported_total(disk),
        available_space: reported_available(disk),
    }
}

/// The snapshot of a list of disks: the record of each, in order.
pub open spec fn reported_all(disks: Seq<sysinfo::Disk>) -> Seq<DiskRecordView> {
    Seq::new(disks.len(), |k: int| reported(disks[k]))
}

impl DiskRecord {
    /// Puts a record together from what was read of a disk. A name or mount
    /// point that could not be read as text becomes the empty string.
    pub fn from_parts(
        name: Option<String>,
        mount_point: Option<String>,
        total_space: u64,
        available_space: u64,
    ) -> (record: DiskRecord)
        ensures
            record@ == (DiskRecordView {
                name: or_empty(text_view(name)),
                mount_point: or_empty(text_view(mount_point)),
                total_space,
                available_space,
            }),
    {
        let name = match name {
            Some(text) => text,
            None => String::new(),
        };
        let mount_point = match mount_point {
            Some(text) => text,
            None => String::new(),
        };
        DiskRecord { name, mount_point, total_space, available_space }
    }
}

/// Reads one disk into a record: its name, mount point, size and free space
/// as `sysinfo` reports them, with the empty text for a name or mount point
/// that is not valid Unicode.
pub fn read_disk(disk: &sysinfo::Disk) -> (record: DiskRecord)
    ensures
        record@ == reported(*disk),
{
    DiskRecord::from_parts(
        disk_name(disk),
        disk_mount_point(disk),
        disk_total_space(disk),
        disk_available_space(disk),
    )
}

/// Reads a list of disks into a snapshot, one record per disk, in order.
pub fn read_disks(disks: &[sysinfo::Disk]) -> (snapshot: Vec<DiskRecord>)
    ensures
        views(snapshot@) == reported_all(disks@),
{
    let mut snapshot: Vec<DiskRecord> = Vec::new();
    let mut k: usize = 0;
    while k < disks.len()
        invariant
            k <= disks.len(),
            snapshot@.len() == k,
            forall|j: int| 0 <= j < k ==> (#[trigger] snapshot@[j])@ == reported(disks@[j]),
        decreases disks.len() - k,
    {
        snapshot.push(read_disk(&disks[k]));
        k += 1;
    }
    snapshot
}

impl DiskPanel {
    /// Brings the rows in line with the disks that `sysinfo` lists: the disks
    /// are read into a snapshot, [`reported_all`], and the panel is reconciled
    /// with it as [`DiskPanel::reconcile`] does.
    pub fn refresh_disks(&mut self, disks: &[sysinfo::Disk]) -> (changes: Changes)
        ensures
            final(self)@ == reconciled(old(self)@, reported_all(disks@)),
            rows_wf(final(self)@),
            forall|mount_point: Seq<char>|
                has_row(final(self)@, mount_point) <==> has_disk(reported_all(disks@), mount_point),
            forall|k: int|
                0 <= k < final(self)@.len() ==> (#[trigger] final(self)@[k]) == cleared(
                    shown(
                        final(self)@[k],
                        latest(reported_all(disks@), final(self)@[k].mount_point),
                    ),
                ),
            lists_removed(changes.removed@, old(self)@, reported_all(disks@)),
            changes.created == final(self)@.len() - (old(self)@.len() - changes.removed@.len()),
    {
        let snapshot = read_disks(disks);
        self.reconcile(snapshot.as_slice())
    }
}

} // verus!
