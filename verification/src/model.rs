//! What a refresh does to the row list, as mathematics.
//!
//! A row list is a sequence of [`DiskInfoView`], a snapshot a sequence of
//! [`DiskRecordView`]. [`reconciled`] is the row list after a refresh; the
//! other functions here are the words in which it and its laws are stated.

use crate::disk::{
    blank_row, shown, DiskInfoView, DiskRecordView, FIRST_ROW_MARGIN, ROW_MARGIN,
};
use vstd::prelude::*;

verus! {

/// The values of a sequence of items, item by item.
pub open spec fn views<T: View>(items: Seq<T>) -> Seq<T::V> {
    items.map_values(|item: T| item@)
}

/// Some row stands for `mount_point`.
pub open spec fn has_row(rows: Seq<DiskInfoView>, mount_point: Seq<char>) -> bool {
    exists|i: int| 0 <= i < rows.len() && (#[trigger] rows[i]).mount_point == mount_point
}

/// Some disk of the snapshot is mounted at `mount_point`.
pub open spec fn has_disk(disks: Seq<DiskRecordView>, mount_point: Seq<char>) -> bool {
    exists|k: int| 0 <= k < disks.len() && (#[trigger] disks[k]).mount_point == mount_point
}

/// `at` is the index of the first row for `mount_point`, or the number of
/// rows if there is none.
pub open spec fn is_position(rows: Seq<DiskInfoView>, mount_point: Seq<char>, at: int) -> bool {
    &&& 0 <= at <= rows.len()
    &&& at < rows.len() ==> rows[at].mount_point == mount_point
    &&& forall|j: int| 0 <= j < at ==> (#[trigger] rows[j]).mount_point != mount_point
}

/// Where a lookup by `mount_point` lands: the first row for it, or the
/// number of rows if there is none.
pub open spec fn position(rows: Seq<DiskInfoView>, mount_point: Seq<char>) -> int {
    choose|at: int| is_position(rows, mount_point, at)
}

/// The margin a row gets that is created when `count` rows exist.
pub open spec fn margin_after(count: nat) -> i32 {
    if count == 0 {
        FIRST_ROW_MARGIN
    } else {
        ROW_MARGIN
    }
}

/// The rows after one disk has been looked at: its row, found by mount point,
/// takes up the report; if it has none, a new row is added at the end and
/// takes it up.
pub open spec fn observe(rows: Seq<DiskInfoView>, disk: DiskRecordView) -> Seq<DiskInfoView> {
    let at = position(rows, disk.mount_point);
    if at < rows.len() {
        rows.update(at, shown(rows[at], disk))
    } else {
        rows.push(shown(blank_row(disk.mount_point, margin_after(rows.len())), disk))
    }
}

/// The rows after every disk of the snapshot has been looked at, in order.
pub open spec fn observe_all(rows: Seq<DiskInfoView>, disks: Seq<DiskRecordView>) -> Seq<
    DiskInfoView,
>
    decreases disks.len(),
{
    if disks.len() == 0 {
        rows
    } else {
        observe(observe_all(rows, disks.drop_last()), disks.last())
    }
}

/// `row` with its mark taken off.
pub open spec fn cleared(row: DiskInfoView) -> DiskInfoView {
    DiskInfoView { updated: false, ..row }
}

/// The rows that a pass has met, in their order, with the marks taken off.
pub open spec fn settled(rows: Seq<DiskInfoView>) -> Seq<DiskInfoView> {
    rows.filter(|row: DiskInfoView| row.updated).map_values(|row: DiskInfoView| cleared(row))
}

/// The row list after a refresh: every disk is looked at, then the rows that
/// no disk was mounted at are dropped.
pub open spec fn reconciled(rows: Seq<DiskInfoView>, disks: Seq<DiskRecordView>) -> Seq<
    DiskInfoView,
> {
    settled(observe_all(rows, disks))
}

/// No two rows stand for the same mount point.
pub open spec fn distinct_mounts(rows: Seq<DiskInfoView>) -> bool {
    forall|i: int, j: int|
        0 <= i < j < rows.len() ==> (#[trigger] rows[i]).mount_point != (
        #[trigger] rows[j]).mount_point
}

/// What holds of the rows between refreshes: one row per mount point, no mark
/// left over, and every fraction a defined share between zero and one.
pub open spec fn rows_wf(rows: Seq<DiskInfoView>) -> bool {
    &&& distinct_mounts(rows)
    &&& forall|i: int| 0 <= i < rows.len() ==> !(#[trigger] rows[i]).updated
    &&& forall|i: int| 0 <= i < rows.len() ==> (#[trigger] rows[i]).fraction.wf()
}

/// `k` is the index of the last disk of the snapshot mounted at `mount_point`.
pub open spec fn is_latest(disks: Seq<DiskRecordView>, mount_point: Seq<char>, k: int) -> bool {
    &&& 0 <= k < disks.len()
    &&& disks[k].mount_point == mount_point
    &&& forall|j: int| k < j < disks.len() ==> (#[trigger] disks[j]).mount_point != mount_point
}

/// The last report in the snapshot for `mount_point`: the one a row is left
/// showing where several disks share a mount point.
pub open spec fn latest(disks: Seq<DiskRecordView>, mount_point: Seq<char>) -> DiskRecordView
    recommends
        has_disk(disks, mount_point),
{
    disks[choose|k: int| is_latest(disks, mount_point, k)]
}

/// Two row lists of one length that agree, row by row, on mount point and
/// margin: the same rows as far as their identity goes, whatever they show.
pub open spec fn same_identities(left: Seq<DiskInfoView>, right: Seq<DiskInfoView>) -> bool {
    &&& left.len() == right.len()
    &&& forall|i: int|
        0 <= i < left.len() ==> (#[trigger] left[i]).mount_point == right[i].mount_point
            && left[i].margin_top == right[i].margin_top
}

/// Two snapshots that report the same mount points in the same order.
pub open spec fn same_mounts(left: Seq<DiskRecordView>, right: Seq<DiskRecordView>) -> bool {
    &&& left.len() == right.len()
    &&& forall|k: int|
        0 <= k < left.len() ==> (#[trigger] left[k]).mount_point == right[k].mount_point
}

/// No two disks of the snapshot share a mount point.
pub open spec fn distinct_disks(disks: Seq<DiskRecordView>) -> bool {
    forall|a: int, b: int|
        0 <= a < b < disks.len() ==> (#[trigger] disks[a]).mount_point != (
        #[trigger] disks[b]).mount_point
}

/// The rows that a refresh makes for disks none of which has a row, when
/// `count` rows exist: one per disk, in the snapshot's order.
pub open spec fn fresh_rows(count: nat, disks: Seq<DiskRecordView>) -> Seq<DiskInfoView> {
    Seq::new(
        disks.len(),
        |k: int|
            cleared(shown(blank_row(disks[k].mount_point, margin_after((count + k) as nat)), disks[k])),
    )
}

/// `removed` lists, in rising order, the indices of the rows of `rows` whose
/// mount point no disk of the snapshot reports.
pub open spec fn lists_removed(
    removed: Seq<usize>,
    rows: Seq<DiskInfoView>,
    disks: Seq<DiskRecordView>,
) -> bool {
    &&& forall|a: int, b: int| 0 <= a < b < removed.len() ==> removed[a] < removed[b]
    &&& forall|a: int|
        0 <= a < removed.len() ==> (#[trigger] removed[a]) < rows.len() && !has_disk(
            disks,
            rows[removed[a] as int].mount_point,
        )
    &&& forall|i: int|
        0 <= i < rows.len() && !has_disk(disks, (#[trigger] rows[i]).mount_point)
            ==> removed.contains(i as usize)
}

} // verus!
