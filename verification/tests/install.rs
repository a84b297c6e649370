use halcon_license_fetcher::text::decimal_string;
use halcon_license_fetcher::install::{
    backup_file_name, bundle_to_install, file_name, merge_license_data, plan_backup_rotation,
    plan_install, InstallStep, LicenseFile, Rename,
};
use std::path::PathBuf;
use InstallStep::{BackupExisting, CreateDir, ReportCreateDir, ReportWrite, WriteLicense};
use LicenseFile::{Backup, Current};

#[test]
fn test_rotate_naming() {
    let dir = PathBuf::from(r"C:\test");
    let bak0 = dir.join(backup_file_name(0));
    let bak1 = dir.join(backup_file_name(1));
    let bak2 = dir.join(backup_file_name(2));

    assert_eq!(bak0.file_name().unwrap(), "license.dat.bak");
    assert_eq!(bak1.file_name().unwrap(), "license.dat.bak.1");
    assert_eq!(bak2.file_name().unwrap(), "license.dat.bak.2");
}

#[test]
fn file_names_and_decimals() {
    assert_eq!(file_name(LicenseFile::Current), "license.dat");
    assert_eq!(backup_file_name(12), "license.dat.bak.12");
    assert_eq!(decimal_string(0), "0");
    assert_eq!(decimal_string(4294967295), "4294967295");
    assert_eq!(decimal_string(u64::MAX), "18446744073709551615");
}

fn mv(from: LicenseFile, to: LicenseFile) -> Rename {
    Rename { from, to }
}

#[test]
fn rotation_shifts_existing_backups() {
    assert_eq!(
        plan_backup_rotation(&vec![true, true, true], false),
        vec![mv(Backup(1), Backup(2)), mv(Backup(0), Backup(1)), mv(Current, Backup(0))]
    );
    assert_eq!(
        plan_backup_rotation(&vec![true, false, true], false),
        vec![mv(Backup(0), Backup(1)), mv(Current, Backup(0))]
    );
    assert_eq!(plan_backup_rotation(&vec![true, true, false], true), vec![mv(Current, Backup(0))]);
    assert_eq!(plan_backup_rotation(&vec![false, true, true], false), vec![mv(Current, Backup(0))]);
}

#[test]
fn install_plan_dry_run_writes_nothing() {
    assert_eq!(plan_install(false, false, true), vec![ReportCreateDir, ReportWrite]);
    assert_eq!(plan_install(true, true, true), vec![ReportWrite]);
    assert_eq!(plan_install(false, false, false), vec![CreateDir, WriteLicense]);
    assert_eq!(plan_install(true, true, false), vec![BackupExisting, WriteLicense]);
}

#[test]
fn merged_license_files() {
    assert_eq!(merge_license_data(&vec![b"A\n".to_vec(), b"B".to_vec()]), b"A\nB\n".to_vec());
    assert_eq!(merge_license_data(&vec![Vec::new()]), b"\n".to_vec());
    assert_eq!(merge_license_data(&vec![]), Vec::<u8>::new());
}

#[test]
fn bundle_needs_every_download() {
    assert_eq!(
        bundle_to_install(&vec![Some(b"A".to_vec()), Some(b"B\n".to_vec())]),
        Some(b"A\nB\n".to_vec())
    );
    assert_eq!(bundle_to_install(&vec![Some(b"A".to_vec()), None]), None);
    assert_eq!(bundle_to_install(&vec![]), None);
}
