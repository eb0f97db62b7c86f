//! The panel's row list and the pass that brings it in line with a snapshot.

use crate::disk::{
    shown, update_disk, DiskInfo, DiskInfoView, DiskRecord, FIRST_ROW_MARGIN, ROW_MARGIN,
};
use crate::laws::{lemma_met_rows, lemma_position, lemma_rows_match_snapshot, lemma_settled_push};
use crate::model::{
    cleared, has_disk, has_row, is_position, latest, lists_removed, observe_all, position,
    reconciled, rows_wf, settled, views,
};
use vstd::prelude::*;

verus! {

/// The rows of the disk page, in the order in which they are displayed.
pub struct DiskPanel {
    rows: Vec<DiskInfo>,
}

impl View for DiskPanel {
    type V = Seq<DiskInfoView>;

    closed spec fn view(&self) -> Seq<DiskInfoView> {
        views(self.rows@)
    }
}

/// What a refresh did to the row list, for whoever keeps the widgets.
#[derive(Debug)]
pub struct Changes {
    /// Indices, in the list before the refresh and in rising order, of the
    /// rows that were dropped.
    pub removed: Vec<usize>,
    /// Number of rows that were added at the end.
    pub created: usize,
}

/// Index of the first row for `mount_point`, or the number of rows.
fn find_row(rows: &Vec<DiskInfo>, mount_point: &String) -> (at: usize)
    ensures
        at == position(views(rows@), mount_point@),
{
    let mut at: usize = 0;
    while at < rows.len() && rows[at].mount_point != *mount_point
        invariant
            at <= rows.len(),
            forall|j: int| 0 <= j < at ==> (#[trigger] views(rows@)[j]).mount_point != mount_point@,
        decreases rows.len() - at,
    {
        at += 1;
    }
    proof {
        assert(is_position(views(rows@), mount_point@, at as int));
        lemma_position(views(rows@), mount_point@);
    }
    at
}

/// Brings a row list in line with a snapshot of the mounted disks.
fn reconcile_rows(rows: &mut Vec<DiskInfo>, disks: &[DiskRecord]) -> (changes: Changes)
    requires
        rows_wf(views(old(rows)@)),
    ensures
        views(final(rows)@) == reconciled(views(old(rows)@), views(disks@)),
        rows_wf(views(final(rows)@)),
        lists_removed(changes.removed@, views(old(rows)@), views(disks@)),
        changes.created == final(rows)@.len() - (old(rows)@.len() - changes.removed@.len()),
{
    let ghost before = views(rows@);
    let ghost snapshot = views(disks@);
    let count = rows.len();

    let mut k: usize = 0;
    while k < disks.len()
        invariant
            k <= disks.len(),
            snapshot == views(disks@),
            views(rows@) == observe_all(before, snapshot.take(k as int)),
            count <= rows.len(),
        decreases disks.len() - k,
    {
        let disk = &disks[k];
        let at = find_row(&rows, &disk.mount_point);
        if at < rows.len() {
            update_disk(&mut rows[at], disk);
        } else {
            let margin = if rows.len() == 0 {
                FIRST_ROW_MARGIN
            } else {
                ROW_MARGIN
            };
            let mut row = DiskInfo::new(disk.mount_point.clone(), margin);
            update_disk(&mut row, disk);
            rows.push(row);
        }
        proof {
            assert(snapshot.take(k + 1).drop_last() == snapshot.take(k as int));
            assert(snapshot.take(k + 1).last() == disk@);
        }
        k += 1;
    }
    assert(snapshot.take(k as int) == snapshot);

    let ghost met = views(rows@);
    let created = rows.len() - count;
    let mut removed: Vec<usize> = Vec::new();
    let total = rows.len();
    let mut done: usize = 0;
    let mut kept: usize = 0;
    while done < total
        invariant
            done <= total == met.len(),
            kept <= done,
            rows.len() == kept + (total - done),
            views(rows@) == settled(met.take(done as int)) + met.skip(done as int),
            kept == settled(met.take(done as int)).len(),
            kept + removed.len() == done,
            forall|a: int, b: int| 0 <= a < b < removed.len() ==> removed[a] < removed[b],
            forall|a: int|
                0 <= a < removed.len() ==> (#[trigger] removed[a]) < done
                    && !met[removed[a] as int].updated,
            forall|j: int|
                0 <= j < done && !(#[trigger] met[j]).updated ==> removed@.contains(j as usize),
        decreases total - done,
    {
        let ghost head = settled(met.take(done as int));
        let ghost rest = met.skip(done + 1);
        let ghost row = met[done as int];
        proof {
            lemma_settled_push(met.take(done as int), row);
            assert(met.take(done + 1) == met.take(done as int).push(row));
            assert(views(rows@)[kept as int] == met.skip(done as int)[0]);
            assert(views(rows@) == (head + seq![row]) + rest);
        }
        let ghost prev = rows@;
        if rows[kept].updated {
            rows[kept].updated = false;
            proof {
                let next = head.push(cleared(row)) + rest;
                assert forall|j: int| 0 <= j < next.len() implies views(rows@)[j]
                    == next[j] by {
                    assert(views(prev)[j] == ((head + seq![row]) + rest)[j]);
                }
                assert(views(rows@) == next);
            }
            kept += 1;
        } else {
            rows.remove(kept);
            let ghost listed = removed@;
            removed.push(done);
            proof {
                assert(removed@[listed.len() as int] == done);
                assert forall|j: int|
                    0 <= j < done + 1 && !(#[trigger] met[j]).updated implies removed@.contains(
                    j as usize,
                ) by {
                    if j < done {
                        let a = choose|a: int| 0 <= a < listed.len() && listed[a] == j as usize;
                        assert(removed@[a] == j as usize);
                    }
                }
                let next = head + rest;
                assert forall|j: int| 0 <= j < next.len() implies views(rows@)[j]
                    == next[j] by {
                    if j < kept {
                        assert(views(prev)[j] == ((head + seq![row]) + rest)[j]);
                    } else {
                        assert(views(prev)[j + 1] == ((head + seq![row]) + rest)[j + 1]);
                    }
                }
                assert(views(rows@) == next);
            }
        }
        done += 1;
    }
    proof {
        assert(met.take(done as int) == met);
        lemma_met_rows(before, snapshot);
        lemma_rows_match_snapshot(before, snapshot);
        assert forall|i: int|
            0 <= i < before.len() && !has_disk(
                snapshot,
                (#[trigger] before[i]).mount_point,
            ) implies removed@.contains(i as usize) by {
            assert(!met[i].updated);
        }
    }
    Changes { removed, created }
}

impl DiskPanel {
    #[verifier::type_invariant]
    spec fn well_formed(self) -> bool {
        rows_wf(views(self.rows@))
    }

    /// A panel without rows.
    pub fn new() -> (panel: DiskPanel)
        ensures
            panel@ == Seq::<DiskInfoView>::empty(),
    {
        DiskPanel { rows: Vec::new() }
    }

    /// The rows, in display order. They are well formed at any time: one row
    /// per mount point, no mark left over, every fraction defined.
    pub fn rows(&self) -> (rows: &Vec<DiskInfo>)
        ensures
            views(rows@) == self@,
            rows_wf(self@),
    {
        proof {
            use_type_invariant(self);
        }
        &self.rows
    }

    /// Brings the rows in line with a snapshot of the mounted disks: the row
    /// of each disk's mount point takes up the disk's report, mount points
    /// without a row get one at the end, and the rows of mount points that no
    /// disk reports are dropped. The result says which rows went and how many
    /// came.
    pub fn reconcile(&mut self, disks: &[DiskRecord]) -> (changes: Changes)
        ensures
            final(self)@ == reconciled(old(self)@, views(disks@)),
            rows_wf(final(self)@),
            forall|mount_point: Seq<char>|
                has_row(final(self)@, mount_point) <==> has_disk(views(disks@), mount_point),
            forall|k: int|
                0 <= k < final(self)@.len() ==> (#[trigger] final(self)@[k]) == cleared(
                    shown(final(self)@[k], latest(views(disks@), final(self)@[k].mount_point)),
                ),
            lists_removed(changes.removed@, old(self)@, views(disks@)),
            changes.created == final(self)@.len() - (old(self)@.len() - changes.removed@.len()),
    {
        proof {
            use_type_invariant(&*self);
            lemma_rows_match_snapshot(self@, views(disks@));
        }
        let mut rows: Vec<DiskInfo> = Vec::new();
        std::mem::swap(&mut self.rows, &mut rows);
        let changes = reconcile_rows(&mut rows, disks);
        self.rows = rows;
        changes
    }
}

} // verus!
