use disk_panel::panel::DiskPanel;
use disk_panel::snapshot::{read_disk, read_disks};
use sysinfo::{DiskExt, System, SystemExt};

fn system_with_disks() -> System {
    let mut system = System::new();
    system.refresh_disks_list();
    system
}

#[test]
fn read_disks_reports_what_sysinfo_holds() {
    let system = system_with_disks();
    let snapshot = read_disks(system.disks());
    assert_eq!(snapshot.len(), system.disks().len());
    for (record, disk) in snapshot.iter().zip(system.disks().iter()) {
        assert_eq!(record.name, disk.name().to_str().unwrap_or(""));
        assert_eq!(record.mount_point, disk.mount_point().to_str().unwrap_or(""));
        assert_eq!(record.total_space, disk.total_space());
        assert_eq!(record.available_space, disk.available_space());
    }
}

#[test]
fn read_disk_reports_one_disk() {
    let system = system_with_disks();
    for disk in system.disks() {
        let record = read_disk(disk);
        assert_eq!(record.name, disk.name().to_str().unwrap_or(""));
        assert_eq!(record.mount_point, disk.mount_point().to_str().unwrap_or(""));
        assert_eq!(record.total_space, disk.total_space());
        assert_eq!(record.available_space, disk.available_space());
    }
}

#[test]
fn refresh_disks_leaves_one_row_per_mount_point() {
    let system = system_with_disks();
    let mut panel = DiskPanel::new();
    let changes = panel.refresh_disks(system.disks());
    assert!(changes.removed.is_empty());
    assert_eq!(changes.created, panel.rows().len());
    assert!(panel.rows().len() <= system.disks().len());
    for disk in system.disks() {
        let mount_point = disk.mount_point().to_str().unwrap_or("");
        let rows = panel.rows().iter().filter(|row| row.mount_point == mount_point).count();
        assert_eq!(rows, 1);
    }
    for row in panel.rows() {
        assert!(system
            .disks()
            .iter()
            .any(|disk| disk.mount_point().to_str().unwrap_or("") == row.mount_point));
        assert!(row.fraction.denominator > 0);
        assert!(row.fraction.numerator <= row.fraction.denominator);
        assert!(!row.updated);
    }
}

#[test]
fn refresh_disks_twice_changes_nothing() {
    let system = system_with_disks();
    let mut panel = DiskPanel::new();
    panel.refresh_disks(system.disks());
    let labels: Vec<String> = panel.rows().iter().map(|row| row.label.clone()).collect();
    let changes = panel.refresh_disks(system.disks());
    assert!(changes.removed.is_empty());
    assert_eq!(changes.created, 0);
    let again: Vec<String> = panel.rows().iter().map(|row| row.label.clone()).collect();
    assert_eq!(labels, again);
}
