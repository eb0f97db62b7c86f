//! Laws of the refresh: what holds of [`reconciled`] for every row list and
//! every snapshot.

use crate::disk::{blank_row, shown, DiskInfoView, DiskRecordView, ROW_MARGIN};
use crate::model::{
    cleared, distinct_disks, distinct_mounts, fresh_rows, has_disk, has_row, is_latest,
    is_position, latest, margin_after, observe, observe_all, position, reconciled, rows_wf,
    same_identities, same_mounts, settled,
};
use vstd::prelude::*;

verus! {

/// There is exactly one position for every lookup.
pub proof fn lemma_position(rows: Seq<DiskInfoView>, mount_point: Seq<char>)
    ensures
        is_position(rows, mount_point, position(rows, mount_point)),
        forall|at: int| is_position(rows, mount_point, at) ==> at == position(rows, mount_point),
        has_row(rows, mount_point) <==> position(rows, mount_point) < rows.len(),
    decreases rows.len(),
{
    if rows.len() == 0 {
        assert(is_position(rows, mount_point, 0));
    } else {
        let front = rows.drop_last();
        lemma_position(front, mount_point);
        let before = position(front, mount_point);
        assert forall|j: int| 0 <= j < before implies (#[trigger] rows[j]).mount_point
            != mount_point by {
            assert(front[j].mount_point != mount_point);
        }
        if before < front.len() {
            assert(rows[before] == front[before]);
            assert(is_position(rows, mount_point, before));
        } else if rows.last().mount_point == mount_point {
            assert(is_position(rows, mount_point, rows.len() - 1));
        } else {
            assert(is_position(rows, mount_point, rows.len() as int));
        }
    }
    let at = position(rows, mount_point);
    assert forall|other: int| is_position(rows, mount_point, other) implies other == at by {
        if other < at {
            assert(rows[other].mount_point != mount_point);
        } else if at < other {
            assert(rows[at].mount_point != mount_point);
        }
    }
    if has_row(rows, mount_point) {
        let i = choose|i: int| 0 <= i < rows.len() && (#[trigger] rows[i]).mount_point == mount_point;
        if at == rows.len() {
            assert(rows[i].mount_point != mount_point);
        }
    }
}

/// A mount point that some disk reports has exactly one last report.
pub proof fn lemma_latest(disks: Seq<DiskRecordView>, mount_point: Seq<char>)
    requires
        has_disk(disks, mount_point),
    ensures
        exists|k: int| is_latest(disks, mount_point, k),
        latest(disks, mount_point).mount_point == mount_point,
        forall|k: int| is_latest(disks, mount_point, k) ==> disks[k] == latest(disks, mount_point),
    decreases disks.len(),
{
    let some = choose|k: int| 0 <= k < disks.len() && (#[trigger] disks[k]).mount_point == mount_point;
    if disks.last().mount_point == mount_point {
        assert(is_latest(disks, mount_point, disks.len() - 1));
    } else {
        let front = disks.drop_last();
        assert(front[some].mount_point == mount_point);
        lemma_latest(front, mount_point);
        let k = choose|k: int| is_latest(front, mount_point, k);
        assert(disks[k] == front[k]);
        assert forall|j: int| k < j < disks.len() implies (#[trigger] disks[j]).mount_point
            != mount_point by {
            if j < front.len() {
                assert(front[j].mount_point != mount_point);
            }
        }
        assert(is_latest(disks, mount_point, k));
    }
    let chosen = choose|k: int| is_latest(disks, mount_point, k);
    assert forall|k: int| is_latest(disks, mount_point, k) implies disks[k] == latest(
        disks,
        mount_point,
    ) by {
        if k < chosen {
            assert(disks[chosen].mount_point != mount_point);
        } else if chosen < k {
            assert(disks[k].mount_point != mount_point);
        }
    }
}

/// Of no rows, none are left.
pub proof fn lemma_settled_empty()
    ensures
        settled(Seq::<DiskInfoView>::empty()) == Seq::<DiskInfoView>::empty(),
{
    reveal(Seq::filter);
}

/// Dropping rows goes row by row: a met row is kept, unmarked, behind what is
/// kept of the rows before it, and an unmet row leaves nothing.
pub proof fn lemma_settled_push(rows: Seq<DiskInfoView>, row: DiskInfoView)
    ensures
        settled(rows.push(row)) == if row.updated {
            settled(rows).push(cleared(row))
        } else {
            settled(rows)
        },
{
    reveal(Seq::filter);
    assert(rows.push(row).drop_last() == rows);
}

/// A disk is in a snapshot with one more report if it is the new report or was
/// in the snapshot before, and the new report is then the last for its mount
/// point.
proof fn lemma_push_disk(disks: Seq<DiskRecordView>, disk: DiskRecordView, mount_point: Seq<char>)
    ensures
        has_disk(disks.push(disk), mount_point) <==> has_disk(disks, mount_point)
            || disk.mount_point == mount_point,
        disk.mount_point == mount_point ==> latest(disks.push(disk), mount_point) == disk,
        has_disk(disks, mount_point) && disk.mount_point != mount_point ==> latest(
            disks.push(disk),
            mount_point,
        ) == latest(disks, mount_point),
{
    let more = disks.push(disk);
    if has_disk(disks, mount_point) {
        let k = choose|k: int| 0 <= k < disks.len() && (#[trigger] disks[k]).mount_point == mount_point;
        assert(more[k].mount_point == mount_point);
    }
    if disk.mount_point == mount_point {
        assert(more[disks.len() as int].mount_point == mount_point);
        assert(is_latest(more, mount_point, disks.len() as int));
        lemma_latest(more, mount_point);
    }
    if has_disk(more, mount_point) && disk.mount_point != mount_point {
        let k = choose|k: int| 0 <= k < more.len() && (#[trigger] more[k]).mount_point == mount_point;
        assert(disks[k].mount_point == mount_point);
    }
    if has_disk(disks, mount_point) && disk.mount_point != mount_point {
        lemma_latest(disks, mount_point);
        let k = choose|k: int| is_latest(disks, mount_point, k);
        assert(more[k] == disks[k]);
        assert forall|j: int| k < j < more.len() implies (#[trigger] more[j]).mount_point
            != mount_point by {
            if j < disks.len() {
                assert(disks[j].mount_point != mount_point);
            }
        }
        assert(is_latest(more, mount_point, k));
        lemma_latest(more, mount_point);
    }
}

/// What holds of the rows `met` once the disks of `disks` have been looked
/// at, starting from `rows`.
spec fn observed(rows: Seq<DiskInfoView>, disks: Seq<DiskRecordView>, met: Seq<DiskInfoView>) -> bool {
    &&& rows.len() <= met.len()
    &&& distinct_mounts(met)
    &&& forall|i: int| 0 <= i < met.len() ==> (#[trigger] met[i]).fraction.wf()
    &&& forall|i: int|
        0 <= i < rows.len() ==> (#[trigger] met[i]).mount_point == rows[i].mount_point
            && met[i].margin_top == rows[i].margin_top
    &&& forall|i: int|
        rows.len() <= i < met.len() ==> (#[trigger] met[i]).margin_top == margin_after(i as nat)
    &&& forall|i: int|
        0 <= i < met.len() ==> ((#[trigger] met[i]).updated <==> has_disk(
            disks,
            met[i].mount_point,
        ))
    &&& forall|i: int|
        0 <= i < met.len() && !(#[trigger] met[i]).updated ==> i < rows.len() && met[i] == rows[i]
    &&& forall|i: int|
        0 <= i < met.len() && (#[trigger] met[i]).updated ==> met[i] == shown(
            met[i],
            latest(disks, met[i].mount_point),
        )
    &&& forall|k: int| 0 <= k < disks.len() ==> has_row(met, (#[trigger] disks[k]).mount_point)
}

/// Looking at one more disk keeps [`observed`].
proof fn lemma_observe_step(
    rows: Seq<DiskInfoView>,
    disks: Seq<DiskRecordView>,
    met: Seq<DiskInfoView>,
    disk: DiskRecordView,
)
    requires
        observed(rows, disks, met),
    ensures
        observed(rows, disks.push(disk), observe(met, disk)),
{
    let more = disks.push(disk);
    let next = observe(met, disk);
    let at = position(met, disk.mount_point);
    lemma_position(met, disk.mount_point);
    assert forall|i: int| 0 <= i < next.len() implies (#[trigger] next[i]).mount_point == (if i
        < met.len() {
        met[i].mount_point
    } else {
        disk.mount_point
    }) by {}
    assert forall|i: int| 0 <= i < next.len() && i != at implies #[trigger] next[i] == met[i] by {}
    assert(next[at].mount_point == disk.mount_point);
    assert(next[at].updated);
    assert(distinct_mounts(next)) by {
        assert forall|i: int, j: int| 0 <= i < j < next.len() implies (#[trigger] next[i]).mount_point
            != (#[trigger] next[j]).mount_point by {
            if j < met.len() {
                assert(met[i].mount_point != met[j].mount_point);
            } else {
                assert(met[i].mount_point != disk.mount_point);
            }
        }
    }
    assert forall|i: int| 0 <= i < next.len() implies ((#[trigger] next[i]).updated <==> has_disk(
        more,
        next[i].mount_point,
    )) by {
        lemma_push_disk(disks, disk, next[i].mount_point);
        if i != at && at < met.len() {
            assert(met[i].mount_point != met[at].mount_point);
        }
    }
    assert forall|i: int| 0 <= i < next.len() && (#[trigger] next[i]).updated implies next[i]
        == shown(next[i], latest(more, next[i].mount_point)) by {
        lemma_push_disk(disks, disk, next[i].mount_point);
        if i != at && at < met.len() {
            assert(met[i].mount_point != met[at].mount_point);
        }
    }
    assert forall|k: int| 0 <= k < more.len() implies has_row(
        next,
        (#[trigger] more[k]).mount_point,
    ) by {
        if k < disks.len() {
            assert(more[k] == disks[k]);
            let i = choose|i: int|
                0 <= i < met.len() && (#[trigger] met[i]).mount_point == disks[k].mount_point;
            assert(next[i].mount_point == disks[k].mount_point);
        } else {
            assert(next[at].mount_point == more[k].mount_point);
        }
    }
}

/// The rows after the disks have been looked at, spelled out.
proof fn lemma_observe_all(rows: Seq<DiskInfoView>, disks: Seq<DiskRecordView>)
    requires
        rows_wf(rows),
    ensures
        observed(rows, disks, observe_all(rows, disks)),
    decreases disks.len(),
{
    if disks.len() > 0 {
        lemma_observe_all(rows, disks.drop_last());
        lemma_observe_step(rows, disks.drop_last(), observe_all(rows, disks.drop_last()), disks.last());
        assert(disks.drop_last().push(disks.last()) == disks);
    }
}

/// After every disk has been looked at, the rows that were there before are
/// still in their places, and one of them carries the mark exactly if some
/// disk is mounted at its mount point. The rows that were added all carry it.
pub proof fn lemma_met_rows(rows: Seq<DiskInfoView>, disks: Seq<DiskRecordView>)
    requires
        rows_wf(rows),
    ensures
        rows.len() <= observe_all(rows, disks).len(),
        forall|i: int|
            0 <= i < observe_all(rows, disks).len() ==> (#[trigger] observe_all(
                rows,
                disks,
            )[i]).updated == (i >= rows.len() || has_disk(disks, rows[i].mount_point)),
{
    lemma_observe_all(rows, disks);
}

/// How many of the first `i` rows a pass has met: where row `i` stands once
/// the unmet rows are dropped, if it was met itself.
spec fn rank(met: Seq<DiskInfoView>, i: int) -> int {
    settled(met.take(i)).len() as int
}

/// The met row that stands at index `k` once the unmet rows are dropped.
spec fn source(met: Seq<DiskInfoView>, k: int) -> int {
    choose|i: int| 0 <= i < met.len() && met[i].updated && #[trigger] rank(met, i) == k
}

/// Where each met row ends up when the unmet rows are dropped.
proof fn lemma_settled(met: Seq<DiskInfoView>)
    ensures
        rank(met, 0) == 0,
        rank(met, met.len() as int) == settled(met).len(),
        forall|i: int| 0 <= i <= met.len() ==> #[trigger] rank(met, i) <= i,
        forall|i: int, j: int|
            0 <= i <= j <= met.len() ==> #[trigger] rank(met, i) <= #[trigger] rank(met, j),
        forall|i: int, j: int|
            0 <= i < j <= met.len() && met[i].updated ==> #[trigger] rank(met, i) < #[trigger] rank(
                met,
                j,
            ),
        forall|i: int|
            0 <= i < met.len() && met[i].updated ==> settled(met)[#[trigger] rank(met, i)]
                == cleared(met[i]),
        forall|k: int|
            0 <= k < settled(met).len() ==> 0 <= #[trigger] source(met, k) < met.len() && met[source(
                met,
                k,
            )].updated && rank(met, source(met, k)) == k && settled(met)[k] == cleared(
                met[source(met, k)],
            ),
    decreases met.len(),
{
    assert(met.take(0) == Seq::<DiskInfoView>::empty());
    assert(met.take(met.len() as int) == met);
    if met.len() == 0 {
        lemma_settled_empty();
        assert(met == Seq::<DiskInfoView>::empty());
    } else {
        let front = met.drop_last();
        let last = met.last();
        lemma_settled(front);
        lemma_settled_push(front, last);
        assert(front.push(last) == met);
        assert(front.take(front.len() as int) == front);
        assert forall|i: int| 0 <= i <= front.len() implies #[trigger] rank(met, i) == rank(
            front,
            i,
        ) by {
            assert(met.take(i) == front.take(i));
        }
        assert forall|i: int| 0 <= i <= met.len() implies #[trigger] rank(met, i) <= i by {
            if i <= front.len() {
                assert(rank(front, i) <= i);
            } else {
                assert(rank(front, front.len() as int) <= front.len());
            }
        }
        assert forall|i: int| 0 <= i < met.len() && met[i].updated implies settled(
            met,
        )[#[trigger] rank(met, i)] == cleared(met[i]) by {
            if i < front.len() {
                assert(met[i] == front[i]);
                assert(rank(front, i) < rank(front, front.len() as int));
            }
        }
        assert forall|k: int| 0 <= k < settled(met).len() implies 0 <= #[trigger] source(met, k)
            < met.len() && met[source(met, k)].updated && rank(met, source(met, k)) == k && settled(
            met,
        )[k] == cleared(met[source(met, k)]) by {
            if k < settled(front).len() {
                assert(settled(front)[k] == settled(met)[k]);
                let i = source(front, k);
                assert(met[i] == front[i]);
                assert(rank(met, i) == k);
            } else {
                assert(rank(met, front.len() as int) == k);
            }
        }
        assert forall|i: int, j: int| 0 <= i < j <= met.len() && met[i].updated implies #[trigger] rank(
            met,
            i,
        ) < #[trigger] rank(met, j) by {
            if j <= front.len() {
                assert(met[i] == front[i]);
                assert(rank(front, i) < rank(front, j));
            } else if i < front.len() {
                assert(met[i] == front[i]);
                assert(rank(front, i) < rank(front, front.len() as int));
            }
        }
        assert forall|i: int, j: int| 0 <= i <= j <= met.len() implies #[trigger] rank(met, i)
            <= #[trigger] rank(met, j) by {
            if j <= front.len() {
                assert(rank(front, i) <= rank(front, j));
            } else if i <= front.len() {
                assert(rank(front, i) <= rank(front, front.len() as int));
            }
        }
    }
}

/// A refresh keeps the row list well formed and in step with the snapshot:
/// the rows it leaves stand for exactly the mount points that the snapshot
/// reports, one row each, and every row shows the last report for its mount
/// point.
pub proof fn lemma_rows_match_snapshot(rows: Seq<DiskInfoView>, disks: Seq<DiskRecordView>)
    requires
        rows_wf(rows),
    ensures
        rows_wf(reconciled(rows, disks)),
        forall|mount_point: Seq<char>|
            has_row(reconciled(rows, disks), mount_point) <==> has_disk(disks, mount_point),
        forall|k: int|
            0 <= k < reconciled(rows, disks).len() ==> (#[trigger] reconciled(rows, disks)[k])
                == cleared(
                shown(
                    reconciled(rows, disks)[k],
                    latest(disks, reconciled(rows, disks)[k].mount_point),
                ),
            ),
{
    let met = observe_all(rows, disks);
    let out = reconciled(rows, disks);
    lemma_observe_all(rows, disks);
    lemma_settled(met);
    assert forall|k: int| 0 <= k < out.len() implies {
        let i = source(met, k);
        &&& 0 <= i < met.len()
        &&& met[i].updated
        &&& rank(met, i) == k
        &&& (#[trigger] out[k]) == cleared(met[i])
    } by {
        let i = source(met, k);
    }
    assert forall|k: int, l: int| 0 <= k < l < out.len() implies (#[trigger] out[k]).mount_point != (
    #[trigger] out[l]).mount_point by {
        let i = source(met, k);
        let j = source(met, l);
        if j <= i {
            assert(rank(met, j) <= rank(met, i));
        }
        assert(met[i].mount_point != met[j].mount_point);
    }
    assert forall|k: int| 0 <= k < out.len() implies !(#[trigger] out[k]).updated
        && out[k].fraction.wf() by {
        let i = source(met, k);
    }
    assert forall|mount_point: Seq<char>| has_row(out, mount_point) <==> has_disk(
        disks,
        mount_point,
    ) by {
        if has_row(out, mount_point) {
            let k = choose|k: int| 0 <= k < out.len() && (#[trigger] out[k]).mount_point == mount_point;
            let i = source(met, k);
            assert(met[i].updated);
        }
        if has_disk(disks, mount_point) {
            let d = choose|d: int|
                0 <= d < disks.len() && (#[trigger] disks[d]).mount_point == mount_point;
            assert(has_row(met, disks[d].mount_point));
            let i = choose|i: int| 0 <= i < met.len() && (#[trigger] met[i]).mount_point == mount_point;
            assert(met[i].updated);
            assert(rank(met, i) < rank(met, met.len() as int));
            assert(0 <= rank(met, 0) <= rank(met, i));
            assert(out[rank(met, i)].mount_point == mount_point);
        }
    }
    assert forall|k: int| 0 <= k < out.len() implies (#[trigger] out[k]) == cleared(
        shown(out[k], latest(disks, out[k].mount_point)),
    ) by {
        let i = source(met, k);
        assert(met[i] == shown(met[i], latest(disks, met[i].mount_point)));
    }
}

/// Where every row was met, dropping the unmet rows only takes the marks off.
proof fn lemma_settled_all_met(met: Seq<DiskInfoView>)
    requires
        forall|i: int| 0 <= i < met.len() ==> (#[trigger] met[i]).updated,
    ensures
        settled(met) == met.map_values(|row: DiskInfoView| cleared(row)),
    decreases met.len(),
{
    if met.len() == 0 {
        lemma_settled_empty();
        assert(met == Seq::<DiskInfoView>::empty());
    } else {
        let front = met.drop_last();
        assert forall|i: int| 0 <= i < front.len() implies (#[trigger] front[i]).updated by {
            assert(met[i].updated);
        }
        lemma_settled_all_met(front);
        lemma_settled_push(front, met.last());
        assert(front.push(met.last()) == met);
    }
}

/// Idempotence: a second refresh from the same snapshot changes nothing. The
/// rows it leaves, with their texts, fractions and margins, are the rows the
/// first one left.
pub proof fn lemma_reconcile_idempotent(rows: Seq<DiskInfoView>, disks: Seq<DiskRecordView>)
    requires
        rows_wf(rows),
    ensures
        reconciled(reconciled(rows, disks), disks) == reconciled(rows, disks),
{
    let once = reconciled(rows, disks);
    lemma_rows_match_snapshot(rows, disks);
    let met = observe_all(once, disks);
    lemma_observe_all(once, disks);
    if met.len() > once.len() {
        let i = once.len() as int;
        assert(met[i].updated);
        assert(has_row(once, met[i].mount_point));
        let j = choose|j: int| 0 <= j < once.len() && (#[trigger] once[j]).mount_point == met[i].mount_point;
        assert(met[j].mount_point == met[i].mount_point);
    }
    assert forall|i: int| 0 <= i < met.len() implies (#[trigger] met[i]).updated && cleared(met[i])
        == once[i] by {
        assert(has_row(once, once[i].mount_point));
        assert(met[i].mount_point == once[i].mount_point);
        assert(met[i] == shown(met[i], latest(disks, met[i].mount_point)));
        assert(once[i] == cleared(shown(once[i], latest(disks, once[i].mount_point))));
    }
    lemma_settled_all_met(met);
    assert(settled(met) == once);
}

/// Same identities and the same marks.
spec fn alike(left: Seq<DiskInfoView>, right: Seq<DiskInfoView>) -> bool {
    &&& same_identities(left, right)
    &&& forall|i: int| 0 <= i < left.len() ==> (#[trigger] left[i]).updated == right[i].updated
}

/// Snapshots with the same mount points leave rows that are alike.
proof fn lemma_alike_observed(
    rows: Seq<DiskInfoView>,
    left: Seq<DiskRecordView>,
    right: Seq<DiskRecordView>,
)
    requires
        same_mounts(left, right),
    ensures
        alike(observe_all(rows, left), observe_all(rows, right)),
    decreases left.len(),
{
    if left.len() > 0 {
        let x = observe_all(rows, left.drop_last());
        let y = observe_all(rows, right.drop_last());
        assert forall|k: int| 0 <= k < left.drop_last().len() implies (#[trigger] left.drop_last()[k]).mount_point
            == right.drop_last()[k].mount_point by {
            assert(left[k].mount_point == right[k].mount_point);
        }
        lemma_alike_observed(rows, left.drop_last(), right.drop_last());
        let mount_point = left.last().mount_point;
        assert(left[left.len() - 1].mount_point == right[left.len() - 1].mount_point);
        lemma_position(x, mount_point);
        lemma_position(y, mount_point);
        let at = position(x, mount_point);
        assert forall|j: int| 0 <= j < at implies (#[trigger] y[j]).mount_point != mount_point by {
            assert(x[j].mount_point != mount_point);
        }
        if at < x.len() {
            assert(x[at].mount_point == y[at].mount_point);
        }
        assert(is_position(y, mount_point, at));
        let next_x = observe(x, left.last());
        let next_y = observe(y, right.last());
        assert forall|i: int| 0 <= i < next_x.len() implies (#[trigger] next_x[i]).mount_point
            == next_y[i].mount_point && next_x[i].margin_top == next_y[i].margin_top
            && next_x[i].updated == next_y[i].updated by {
            if i != at {
                assert(x[i].mount_point == y[i].mount_point && x[i].updated == y[i].updated);
            }
        }
    }
}

/// Row lists that are alike keep the same rows when the unmet ones go.
proof fn lemma_alike_settled(left: Seq<DiskInfoView>, right: Seq<DiskInfoView>)
    requires
        alike(left, right),
    ensures
        same_identities(settled(left), settled(right)),
    decreases left.len(),
{
    if left.len() == 0 {
        lemma_settled_empty();
        assert(left == Seq::<DiskInfoView>::empty());
        assert(right == Seq::<DiskInfoView>::empty());
    } else {
        let x = left.drop_last();
        let y = right.drop_last();
        assert forall|i: int| 0 <= i < x.len() implies (#[trigger] x[i]).mount_point
            == y[i].mount_point && x[i].margin_top == y[i].margin_top && x[i].updated
            == y[i].updated by {
            assert(left[i].updated == right[i].updated);
        }
        lemma_alike_settled(x, y);
        lemma_settled_push(x, left.last());
        lemma_settled_push(y, right.last());
        assert(x.push(left.last()) == left);
        assert(y.push(right.last()) == right);
        assert(left[left.len() - 1].updated == right[left.len() - 1].updated);
    }
}

/// Key stability: which rows a refresh leaves, in which order and with which
/// margins, depends on the mount points that the snapshot reports and on
/// nothing else in it. A disk that comes back under another name or with
/// other sizes, at the same mount point, keeps its row.
pub proof fn lemma_identity_by_mount_point(
    rows: Seq<DiskInfoView>,
    left: Seq<DiskRecordView>,
    right: Seq<DiskRecordView>,
)
    requires
        same_mounts(left, right),
    ensures
        same_identities(reconciled(rows, left), reconciled(rows, right)),
{
    lemma_alike_observed(rows, left, right);
    lemma_alike_settled(observe_all(rows, left), observe_all(rows, right));
}

/// A row that the pass has met stands, once the unmet rows are dropped, at
/// its rank: there it is found by its mount point, with its mark taken off.
proof fn lemma_met_row_position(rows: Seq<DiskInfoView>, disks: Seq<DiskRecordView>, at: int)
    requires
        rows_wf(rows),
        0 <= at < observe_all(rows, disks).len(),
        observe_all(rows, disks)[at].updated,
    ensures
        position(reconciled(rows, disks), observe_all(rows, disks)[at].mount_point) == rank(
            observe_all(rows, disks),
            at,
        ),
        0 <= rank(observe_all(rows, disks), at) < reconciled(rows, disks).len(),
        reconciled(rows, disks)[rank(observe_all(rows, disks), at)] == cleared(
            observe_all(rows, disks)[at],
        ),
{
    let met = observe_all(rows, disks);
    let out = reconciled(rows, disks);
    let k = rank(met, at);
    let mount_point = met[at].mount_point;
    lemma_settled(met);
    lemma_rows_match_snapshot(rows, disks);
    assert(rank(met, at) < rank(met, met.len() as int));
    assert(0 <= rank(met, 0) <= rank(met, at));
    assert(out[k] == cleared(met[at]));
    lemma_position(out, mount_point);
    assert forall|j: int| 0 <= j < k implies (#[trigger] out[j]).mount_point != mount_point by {
        assert(out[j].mount_point != out[k].mount_point);
    }
    assert(is_position(out, mount_point, k));
}

/// A row whose mount point the snapshot still reports stays: the refresh
/// leaves the same row, no further down the list than it was, with its margin
/// and showing the last report for its mount point.
pub proof fn lemma_present_row_survives(
    rows: Seq<DiskInfoView>,
    disks: Seq<DiskRecordView>,
    i: int,
)
    requires
        rows_wf(rows),
        0 <= i < rows.len(),
        has_disk(disks, rows[i].mount_point),
    ensures
        0 <= position(reconciled(rows, disks), rows[i].mount_point) <= i,
        position(reconciled(rows, disks), rows[i].mount_point) < reconciled(rows, disks).len(),
        reconciled(rows, disks)[position(reconciled(rows, disks), rows[i].mount_point)] == cleared(
            shown(rows[i], latest(disks, rows[i].mount_point)),
        ),
{
    let met = observe_all(rows, disks);
    lemma_observe_all(rows, disks);
    lemma_settled(met);
    assert(met[i].mount_point == rows[i].mount_point);
    assert(met[i].updated);
    assert(met[i] == shown(met[i], latest(disks, met[i].mount_point)));
    lemma_met_row_position(rows, disks, i);
}

/// Rows keep their order: of two rows that both stay, the one that was first
/// is still first.
pub proof fn lemma_survivors_keep_order(
    rows: Seq<DiskInfoView>,
    disks: Seq<DiskRecordView>,
    i: int,
    j: int,
)
    requires
        rows_wf(rows),
        0 <= i < j < rows.len(),
        has_disk(disks, rows[i].mount_point),
        has_disk(disks, rows[j].mount_point),
    ensures
        position(reconciled(rows, disks), rows[i].mount_point) < position(
            reconciled(rows, disks),
            rows[j].mount_point,
        ) < reconciled(rows, disks).len(),
{
    let met = observe_all(rows, disks);
    lemma_observe_all(rows, disks);
    lemma_settled(met);
    assert(met[i].mount_point == rows[i].mount_point);
    assert(met[j].mount_point == rows[j].mount_point);
    assert(met[i].updated && met[j].updated);
    assert(rank(met, i) < rank(met, j));
    lemma_met_row_position(rows, disks, i);
    lemma_met_row_position(rows, disks, j);
}

/// A mount point that has no row yet gets one below every row that stays.
/// Unless the list was empty, the new row has the margin of a row that
/// follows others.
pub proof fn lemma_new_row_comes_last(
    rows: Seq<DiskInfoView>,
    disks: Seq<DiskRecordView>,
    mount_point: Seq<char>,
)
    requires
        rows_wf(rows),
        has_disk(disks, mount_point),
        !has_row(rows, mount_point),
    ensures
        0 <= position(reconciled(rows, disks), mount_point) < reconciled(rows, disks).len(),
        rows.len() > 0 ==> reconciled(rows, disks)[position(
            reconciled(rows, disks),
            mount_point,
        )].margin_top == ROW_MARGIN,
        forall|i: int|
            0 <= i < rows.len() && has_disk(disks, (#[trigger] rows[i]).mount_point) ==> position(
                reconciled(rows, disks),
                rows[i].mount_point,
            ) < position(reconciled(rows, disks), mount_point),
{
    let met = observe_all(rows, disks);
    let out = reconciled(rows, disks);
    lemma_observe_all(rows, disks);
    lemma_settled(met);
    let d = choose|d: int| 0 <= d < disks.len() && (#[trigger] disks[d]).mount_point == mount_point;
    assert(has_row(met, disks[d].mount_point));
    let at = choose|at: int| 0 <= at < met.len() && (#[trigger] met[at]).mount_point == mount_point;
    if at < rows.len() {
        assert(rows[at].mount_point == mount_point);
    }
    assert(met[at].updated);
    lemma_met_row_position(rows, disks, at);
    assert forall|i: int|
        0 <= i < rows.len() && has_disk(disks, (#[trigger] rows[i]).mount_point) implies position(
        out,
        rows[i].mount_point,
    ) < position(out, mount_point) by {
        assert(met[i].mount_point == rows[i].mount_point);
        assert(met[i].updated);
        assert(rank(met, i) < rank(met, at));
        lemma_met_row_position(rows, disks, i);
    }
}

/// Disks without a row, each at a mount point of its own, add one row each
/// and touch no other.
proof fn lemma_observe_unseen(rows: Seq<DiskInfoView>, disks: Seq<DiskRecordView>)
    requires
        distinct_disks(disks),
        forall|k: int| 0 <= k < disks.len() ==> !has_row(rows, (#[trigger] disks[k]).mount_point),
    ensures
        observe_all(rows, disks) == rows + Seq::new(
            disks.len(),
            |k: int|
                shown(
                    blank_row(disks[k].mount_point, margin_after((rows.len() + k) as nat)),
                    disks[k],
                ),
        ),
    decreases disks.len(),
{
    if disks.len() > 0 {
        let front = disks.drop_last();
        let last = disks.last();
        assert forall|k: int| 0 <= k < front.len() implies !has_row(
            rows,
            (#[trigger] front[k]).mount_point,
        ) by {
            assert(front[k] == disks[k]);
        }
        assert forall|a: int, b: int| 0 <= a < b < front.len() implies (#[trigger] front[a]).mount_point
            != (#[trigger] front[b]).mount_point by {
            assert(disks[a].mount_point != disks[b].mount_point);
        }
        lemma_observe_unseen(rows, front);
        let prev = observe_all(rows, front);
        lemma_position(prev, last.mount_point);
        assert forall|j: int| 0 <= j < prev.len() implies (#[trigger] prev[j]).mount_point
            != last.mount_point by {
            if j < rows.len() {
                assert(prev[j] == rows[j]);
                assert(!has_row(rows, disks[disks.len() - 1].mount_point));
            } else {
                assert(prev[j].mount_point == disks[j - rows.len()].mount_point);
                assert(disks[j - rows.len()].mount_point != disks[disks.len() - 1].mount_point);
            }
        }
        assert(is_position(prev, last.mount_point, prev.len() as int));
    }
}

/// Dropping the unmet rows of two lists laid end to end is dropping them in
/// each.
proof fn lemma_settled_add(left: Seq<DiskInfoView>, right: Seq<DiskInfoView>)
    ensures
        settled(left + right) == settled(left) + settled(right),
    decreases right.len(),
{
    if right.len() == 0 {
        lemma_settled_empty();
        assert(right == Seq::<DiskInfoView>::empty());
        assert(left + right == left);
    } else {
        lemma_settled_add(left, right.drop_last());
        lemma_settled_push(left + right.drop_last(), right.last());
        lemma_settled_push(right.drop_last(), right.last());
        assert((left + right.drop_last()).push(right.last()) == left + right);
        assert(right.drop_last().push(right.last()) == right);
    }
}

/// Disks that are new to the panel get their rows in the order in which the
/// snapshot lists them. Given a snapshot without repeated mount points, none
/// of which has a row, a refresh drops every old row and leaves one row per
/// disk, in the snapshot's order; starting from no rows, the first of them
/// has the smaller margin.
pub proof fn lemma_unseen_mounts_in_order(rows: Seq<DiskInfoView>, disks: Seq<DiskRecordView>)
    requires
        rows_wf(rows),
        distinct_disks(disks),
        forall|k: int| 0 <= k < disks.len() ==> !has_row(rows, (#[trigger] disks[k]).mount_point),
    ensures
        reconciled(rows, disks) == fresh_rows(rows.len(), disks),
{
    let made = Seq::new(
        disks.len(),
        |k: int|
            shown(blank_row(disks[k].mount_point, margin_after((rows.len() + k) as nat)), disks[k]),
    );
    lemma_observe_unseen(rows, disks);
    lemma_settled_add(rows, made);
    lemma_settled(rows);
    if settled(rows).len() > 0 {
        assert(rows[source(rows, 0)].updated);
    }
    lemma_settled_all_met(made);
    assert(settled(made) == fresh_rows(rows.len(), disks));
    assert(settled(rows) + settled(made) == settled(made));
}

} // verus!
