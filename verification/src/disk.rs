//! One disk as the system reports it, and the row that displays it.

use crate::format::{format_number, format_number_text};
use vstd::prelude::*;

verus! {

/// Top margin, in pixels, of a row created while the panel has no row at all.
pub const FIRST_ROW_MARGIN: i32 = 8;

/// Top margin, in pixels, of a row created below other rows.
pub const ROW_MARGIN: i32 = 20;

/// What the system reports about one mounted disk.
#[derive(Debug, Clone)]
pub struct DiskRecord {
    /// Device name; empty where the system has none that is valid text.
    pub name: String,
    /// Path at which the volume is mounted.
    pub mount_point: String,
    /// Size of the volume in bytes.
    pub total_space: u64,
    /// Bytes still free on the volume.
    pub available_space: u64,
}

/// The mathematical value of a [`DiskRecord`].
#[verifier::ext_equal]
pub struct DiskRecordView {
    pub name: Seq<char>,
    pub mount_point: Seq<char>,
    pub total_space: u64,
    pub available_space: u64,
}

impl View for DiskRecord {
    type V = DiskRecordView;

    open spec fn view(&self) -> DiskRecordView {
        DiskRecordView {
            name: self.name@,
            mount_point: self.mount_point@,
            total_space: self.total_space,
            available_space: self.available_space,
        }
    }
}

/// A share of a whole as an exact ratio. A progress bar shows
/// `numerator / denominator`.
#[derive(Debug, Clone, Copy, PartialEq, Eq, Structural)]
pub struct Fraction {
    pub numerator: u64,
    pub denominator: u64,
}

impl Fraction {
    /// The ratio is defined and lies between zero and one.
    pub open spec fn wf(self) -> bool {
        0 < self.denominator && self.numerator <= self.denominator
    }
}

/// Bytes in use on a disk of `total` bytes with `available` bytes free. A
/// report of more free space than the disk holds counts as nothing in use.
pub open spec fn used_space(total: u64, available: u64) -> nat {
    if available <= total {
        (total - available) as nat
    } else {
        0
    }
}

/// The used share of a disk: `used_space / total`, and zero for a disk of
/// size zero, where that quotient does not exist.
pub open spec fn usage(total: u64, available: u64) -> Fraction {
    if total == 0 {
        Fraction { numerator: 0, denominator: 1 }
    } else {
        Fraction { numerator: used_space(total, available) as u64, denominator: total }
    }
}

/// The label of a row: the disk's name and where it is mounted.
pub open spec fn label_text(name: Seq<char>, mount_point: Seq<char>) -> Seq<char> {
    name + " mounted on \""@ + mount_point + "\""@
}

/// The text over a row's progress bar: used and total space.
pub open spec fn progress_text(total: u64, available: u64) -> Seq<char> {
    format_number_text(used_space(total, available)) + " / "@ + format_number_text(total as nat)
}

/// The display row of one mount point.
#[derive(Debug, Clone)]
pub struct DiskInfo {
    /// Text of the row's label.
    pub label: String,
    /// Text laid over the row's progress bar.
    pub progress_text: String,
    /// Filled share of the progress bar.
    pub fraction: Fraction,
    /// The mount point this row stands for; it never changes.
    pub mount_point: String,
    /// Top margin the row's label was created with.
    pub margin_top: i32,
    /// Whether the refresh in progress has met this row's mount point.
    pub updated: bool,
}

/// The mathematical value of a [`DiskInfo`].
#[verifier::ext_equal]
pub struct DiskInfoView {
    pub label: Seq<char>,
    pub progress_text: Seq<char>,
    pub fraction: Fraction,
    pub mount_point: Seq<char>,
    pub margin_top: i32,
    pub updated: bool,
}

impl View for DiskInfo {
    type V = DiskInfoView;

    open spec fn view(&self) -> DiskInfoView {
        DiskInfoView {
            label: self.label@,
            progress_text: self.progress_text@,
            fraction: self.fraction,
            mount_point: self.mount_point@,
            margin_top: self.margin_top,
            updated: self.updated,
        }
    }
}

/// A row that has not shown anything yet.
pub open spec fn blank_row(mount_point: Seq<char>, margin_top: i32) -> DiskInfoView {
    DiskInfoView {
        label: Seq::empty(),
        progress_text: Seq::empty(),
        fraction: Fraction { numerator: 0, denominator: 1 },
        mount_point,
        margin_top,
        updated: false,
    }
}

/// `row` after it has taken up what `disk` reports: label, bar text and
/// fraction are rewritten and the row is marked as met; its mount point and
/// margin stay.
pub open spec fn shown(row: DiskInfoView, disk: DiskRecordView) -> DiskInfoView {
    DiskInfoView {
        label: label_text(disk.name, row.mount_point),
        progress_text: progress_text(disk.total_space, disk.available_space),
        fraction: usage(disk.total_space, disk.available_space),
        mount_point: row.mount_point,
        margin_top: row.margin_top,
        updated: true,
    }
}

impl Fraction {
    /// The used share of a disk, see [`usage`].
    pub fn of_disk(total: u64, available: u64) -> (fraction: Fraction)
        ensures
            fraction == usage(total, available),
            fraction.wf(),
    {
        if total == 0 {
            Fraction { numerator: 0, denominator: 1 }
        } else if available <= total {
            Fraction { numerator: total - available, denominator: total }
        } else {
            Fraction { numerator: 0, denominator: total }
        }
    }
}

impl DiskInfo {
    /// A fresh row for `mount_point`, showing nothing yet.
    pub fn new(mount_point: String, margin_top: i32) -> (row: DiskInfo)
        ensures
            row@ == blank_row(mount_point@, margin_top),
    {
        DiskInfo {
            label: String::new(),
            progress_text: String::new(),
            fraction: Fraction { numerator: 0, denominator: 1 },
            mount_point,
            margin_top,
            updated: false,
        }
    }
}

/// Rewrites a row from what `disk` reports and marks it as met.
pub fn update_disk(info: &mut DiskInfo, disk: &DiskRecord)
    ensures
        final(info)@ == shown(old(info)@, disk@),
{
    let mut label = disk.name.clone();
    label.append(" mounted on \"");
    label.append(info.mount_point.as_str());
    label.append("\"");

    let used = if disk.available_space <= disk.total_space {
        disk.total_space - disk.available_space
    } else {
        0
    };
    let mut text = format_number(used);
    text.append(" / ");
    text.append(format_number(disk.total_space).as_str());

    info.label = label;
    info.progress_text = text;
    info.fraction = Fraction::of_disk(disk.total_space, disk.available_space);
    info.updated = true;
}

} // verus!
