use disk_panel::disk::{update_disk, DiskInfo, DiskRecord, Fraction, FIRST_ROW_MARGIN, ROW_MARGIN};
use disk_panel::panel::DiskPanel;

fn disk(name: &str, mount_point: &str, total_space: u64, available_space: u64) -> DiskRecord {
    DiskRecord {
        name: name.to_string(),
        mount_point: mount_point.to_string(),
        total_space,
        available_space,
    }
}

fn mounts(panel: &DiskPanel) -> Vec<String> {
    panel.rows().iter().map(|row| row.mount_point.clone()).collect()
}

fn shares(panel: &DiskPanel) -> Vec<f64> {
    panel
        .rows()
        .iter()
        .map(|row| row.fraction.numerator as f64 / row.fraction.denominator as f64)
        .collect()
}

fn root_and_home() -> Vec<DiskRecord> {
    vec![disk("sda1", "/", 1000, 400), disk("sda2", "/home", 4096, 1024)]
}

#[test]
fn new_panel_has_no_rows() {
    let panel = DiskPanel::new();
    assert!(panel.rows().is_empty());
}

#[test]
fn empty_snapshot_on_empty_panel_changes_nothing() {
    let mut panel = DiskPanel::new();
    let changes = panel.reconcile(&[]);
    assert!(panel.rows().is_empty());
    assert!(changes.removed.is_empty());
    assert_eq!(changes.created, 0);
}

#[test]
fn addition_creates_rows_in_first_seen_order() {
    let mut panel = DiskPanel::new();
    let changes = panel.reconcile(&root_and_home());
    assert_eq!(mounts(&panel), vec!["/".to_string(), "/home".to_string()]);
    assert_eq!(changes.created, 2);
    assert!(changes.removed.is_empty());
}

#[test]
fn first_row_gets_the_smaller_margin() {
    let mut panel = DiskPanel::new();
    panel.reconcile(&root_and_home());
    assert_eq!(FIRST_ROW_MARGIN, 8);
    assert_eq!(ROW_MARGIN, 20);
    assert_eq!(panel.rows()[0].margin_top, 8);
    assert_eq!(panel.rows()[1].margin_top, 20);
}

#[test]
fn removal_drops_the_unmounted_row() {
    let mut panel = DiskPanel::new();
    panel.reconcile(&root_and_home());
    let changes = panel.reconcile(&[disk("sda1", "/", 1000, 100)]);
    assert_eq!(mounts(&panel), vec!["/".to_string()]);
    assert_eq!(changes.removed, vec![1]);
    assert_eq!(changes.created, 0);
    let row = &panel.rows()[0];
    assert_eq!(row.label, "sda1 mounted on \"/\"");
    assert_eq!(row.progress_text, "900 B / 1000 B");
    assert_eq!(row.fraction, Fraction { numerator: 900, denominator: 1000 });
    assert_eq!(row.margin_top, 8);
}

#[test]
fn removal_of_the_first_row_keeps_the_second() {
    let mut panel = DiskPanel::new();
    panel.reconcile(&root_and_home());
    let changes = panel.reconcile(&[disk("sda2", "/home", 4096, 1024)]);
    assert_eq!(mounts(&panel), vec!["/home".to_string()]);
    assert_eq!(changes.removed, vec![0]);
    assert_eq!(changes.created, 0);
    assert_eq!(panel.rows()[0].margin_top, 20);
}

#[test]
fn empty_snapshot_removes_every_row() {
    let mut panel = DiskPanel::new();
    panel.reconcile(&root_and_home());
    let changes = panel.reconcile(&[]);
    assert!(panel.rows().is_empty());
    assert_eq!(changes.removed, vec![0, 1]);
    assert_eq!(changes.created, 0);
}

#[test]
fn reconcile_twice_with_the_same_snapshot_changes_nothing() {
    let mut panel = DiskPanel::new();
    let snapshot = root_and_home();
    panel.reconcile(&snapshot);
    let first: Vec<DiskInfo> = panel.rows().clone();
    let changes = panel.reconcile(&snapshot);
    assert!(changes.removed.is_empty());
    assert_eq!(changes.created, 0);
    assert_eq!(panel.rows().len(), first.len());
    for (now, then) in panel.rows().iter().zip(first.iter()) {
        assert_eq!(now.mount_point, then.mount_point);
        assert_eq!(now.label, then.label);
        assert_eq!(now.progress_text, then.progress_text);
        assert_eq!(now.fraction, then.fraction);
        assert_eq!(now.margin_top, then.margin_top);
        assert_eq!(now.updated, then.updated);
    }
}

#[test]
fn update_shows_used_share_and_texts() {
    let mut panel = DiskPanel::new();
    panel.reconcile(&[disk("sda1", "/", 1000, 400)]);
    let row = &panel.rows()[0];
    assert_eq!(row.fraction, Fraction { numerator: 600, denominator: 1000 });
    assert_eq!(shares(&panel), vec![0.6]);
    assert_eq!(row.progress_text, "600 B / 1000 B");
    assert_eq!(row.label, "sda1 mounted on \"/\"");
    assert!(!row.updated);
}

#[test]
fn renamed_disk_keeps_its_row() {
    let mut panel = DiskPanel::new();
    panel.reconcile(&root_and_home());
    let changes =
        panel.reconcile(&[disk("nvme0n1p1", "/", 1000, 400), disk("sda2", "/home", 4096, 1024)]);
    assert!(changes.removed.is_empty());
    assert_eq!(changes.created, 0);
    assert_eq!(mounts(&panel), vec!["/".to_string(), "/home".to_string()]);
    assert_eq!(panel.rows()[0].label, "nvme0n1p1 mounted on \"/\"");
    assert_eq!(panel.rows()[0].margin_top, 8);
}

#[test]
fn disk_of_size_zero_shows_an_empty_bar() {
    let mut panel = DiskPanel::new();
    panel.reconcile(&[disk("tmp", "/tmp", 0, 0)]);
    let row = &panel.rows()[0];
    assert_eq!(row.fraction, Fraction { numerator: 0, denominator: 1 });
    assert_eq!(shares(&panel), vec![0.0]);
    assert_eq!(row.progress_text, "0 B / 0 B");
}

#[test]
fn more_free_than_total_counts_as_nothing_used() {
    let mut panel = DiskPanel::new();
    panel.reconcile(&[disk("odd", "/odd", 100, 250)]);
    let row = &panel.rows()[0];
    assert_eq!(row.fraction, Fraction { numerator: 0, denominator: 100 });
    assert_eq!(row.progress_text, "0 B / 100 B");
}

#[test]
fn full_and_empty_disks_reach_the_ends_of_the_bar() {
    let mut panel = DiskPanel::new();
    panel.reconcile(&[disk("full", "/full", 20480, 0), disk("empty", "/empty", 20480, 20480)]);
    assert_eq!(shares(&panel), vec![1.0, 0.0]);
    assert_eq!(panel.rows()[0].progress_text, "20 KiB / 20 KiB");
    assert_eq!(panel.rows()[1].progress_text, "0 B / 20 KiB");
}

#[test]
fn repeated_mount_point_keeps_one_row_with_the_last_report() {
    let mut panel = DiskPanel::new();
    let changes = panel.reconcile(&[
        disk("first", "/data", 1000, 900),
        disk("other", "/", 500, 250),
        disk("second", "/data", 2000, 500),
    ]);
    assert_eq!(changes.created, 2);
    assert_eq!(mounts(&panel), vec!["/data".to_string(), "/".to_string()]);
    assert_eq!(panel.rows()[0].label, "second mounted on \"/data\"");
    assert_eq!(panel.rows()[0].fraction, Fraction { numerator: 1500, denominator: 2000 });
    assert_eq!(panel.rows()[0].progress_text, "1500 B / 2000 B");
}

#[test]
fn new_row_below_a_row_that_leaves_keeps_the_larger_margin() {
    let mut panel = DiskPanel::new();
    panel.reconcile(&[disk("sda2", "/home", 4096, 1024)]);
    let changes = panel.reconcile(&[disk("sda1", "/", 1000, 400)]);
    assert_eq!(changes.removed, vec![0]);
    assert_eq!(changes.created, 1);
    assert_eq!(mounts(&panel), vec!["/".to_string()]);
    assert_eq!(panel.rows()[0].margin_top, 20);
}

#[test]
fn survivors_stay_ahead_of_new_rows() {
    let mut panel = DiskPanel::new();
    panel.reconcile(&[disk("a", "/a", 10, 1), disk("b", "/b", 10, 2), disk("c", "/c", 10, 3)]);
    let changes =
        panel.reconcile(&[disk("d", "/d", 10, 4), disk("c", "/c", 10, 5), disk("a", "/a", 10, 6)]);
    assert_eq!(changes.removed, vec![1]);
    assert_eq!(changes.created, 1);
    assert_eq!(mounts(&panel), vec!["/a".to_string(), "/c".to_string(), "/d".to_string()]);
    assert_eq!(panel.rows()[0].progress_text, "4 B / 10 B");
    assert_eq!(panel.rows()[1].progress_text, "5 B / 10 B");
    assert_eq!(panel.rows()[2].progress_text, "6 B / 10 B");
}

#[test]
fn disk_without_readable_names_gets_an_empty_key() {
    let mut panel = DiskPanel::new();
    panel.reconcile(&[DiskRecord::from_parts(None, None, 10, 5)]);
    assert_eq!(mounts(&panel), vec![String::new()]);
    assert_eq!(panel.rows()[0].label, " mounted on \"\"");
}

#[test]
fn from_parts_keeps_what_it_is_given() {
    let record = DiskRecord::from_parts(Some("sda1".to_string()), Some("/".to_string()), 7, 3);
    assert_eq!(record.name, "sda1");
    assert_eq!(record.mount_point, "/");
    assert_eq!(record.total_space, 7);
    assert_eq!(record.available_space, 3);
}

#[test]
fn update_disk_keeps_mount_point_and_margin() {
    let mut row = DiskInfo::new("/mnt".to_string(), 20);
    assert_eq!(row.label, "");
    assert_eq!(row.progress_text, "");
    assert_eq!(row.fraction, Fraction { numerator: 0, denominator: 1 });
    assert!(!row.updated);
    update_disk(&mut row, &disk("sdb1", "/elsewhere", 30 * 1024 * 1024, 10 * 1024 * 1024));
    assert_eq!(row.mount_point, "/mnt");
    assert_eq!(row.margin_top, 20);
    assert!(row.updated);
    assert_eq!(row.label, "sdb1 mounted on \"/mnt\"");
    assert_eq!(row.progress_text, "20 MiB / 30 MiB");
    assert_eq!(
        row.fraction,
        Fraction { numerator: 20 * 1024 * 1024, denominator: 30 * 1024 * 1024 }
    );
}

#[test]
fn fraction_of_disk_is_always_defined() {
    assert_eq!(Fraction::of_disk(1000, 400), Fraction { numerator: 600, denominator: 1000 });
    assert_eq!(Fraction::of_disk(0, 0), Fraction { numerator: 0, denominator: 1 });
    assert_eq!(Fraction::of_disk(0, 9), Fraction { numerator: 0, denominator: 1 });
    assert_eq!(Fraction::of_disk(5, 9), Fraction { numerator: 0, denominator: 5 });
    assert_eq!(
        Fraction::of_disk(u64::MAX, 0),
        Fraction { numerator: u64::MAX, denominator: u64::MAX }
    );
}
