use halcon_license_fetcher::github::select_months;
use halcon_license_fetcher::check::{
    choose_month, count_dat_files, product_at, product_from_root, CheckError, DownloadCache,
};
use halcon_license_fetcher::detect::ProductKind;
use halcon_license_fetcher::github::GitHubEntry;
use halcon_license_fetcher::service::{install_commands, remove_commands, service_sleep_seconds};

#[test]
fn month_choice() {
    let months = vec!["2026.07".to_string(), "2026.06".to_string()];
    assert_eq!(choose_month(&months, None), Ok("2026.07".to_string()));
    assert_eq!(choose_month(&months, Some("2026.06")), Ok("2026.06".to_string()));
    assert_eq!(choose_month(&months, Some("2025.01")), Err(CheckError::UnknownMonth));
    assert_eq!(choose_month(&vec![], Some("2026.06")), Err(CheckError::NoMonths));
    assert_eq!(choose_month(&vec![], None), Err(CheckError::NoMonths));
}

#[test]
fn dat_file_count() {
    let e = |n: &str| GitHubEntry { name: n.to_string(), entry_type: "file".to_string(), download_url: None };
    assert_eq!(count_dat_files(&[e("a.dat"), e("b.DAT"), e("c.dat.txt"), e(".dat")]), 2);
}

#[test]
fn configured_root_product() {
    let p = product_at("/opt/HALCON-24.11-Progress", Some("HALCON-24.11-Progress")).unwrap();
    assert_eq!(p.version, "24.11");
    assert_eq!(p.kind, ProductKind::HalconProgress);
    assert_eq!(product_at("/opt/Tools", Some("Tools")).unwrap_err(), CheckError::NoVersion);
    assert_eq!(product_at("/", None).unwrap_err(), CheckError::NoVersion);
    let q = product_from_root("/opt/HALCON-20.11/HALCON-24.11-Steady").unwrap();
    assert_eq!(q.root, "/opt/HALCON-20.11/HALCON-24.11-Steady");
    assert_eq!(q.version, "24.11");
    assert_eq!(q.kind, ProductKind::HalconSteady);
    let t = product_from_root("/opt/HALCON-24.11/").unwrap();
    assert_eq!(t.version, "24.11");
    assert_eq!(product_from_root("/opt/HALCON-24.11/..").unwrap_err(), CheckError::NoVersion);
}

#[test]
fn sleep_interval() {
    assert_eq!(service_sleep_seconds(7), Some(604800));
    assert_eq!(service_sleep_seconds(0), Some(0));
    assert_eq!(service_sleep_seconds(106751991167), Some(106751991167 * 86400));
    assert_eq!(service_sleep_seconds(106751991168), None);
    assert_eq!(service_sleep_seconds(u64::MAX), None);
}

#[test]
fn default_month_is_latest_listed() {
    let e = |n: &str| GitHubEntry { name: n.to_string(), entry_type: "dir".to_string(), download_url: None };
    let months = select_months(&[e("2025.12"), e("2026.07"), e("2026.02")]);
    assert_eq!(choose_month(&months, None), Ok("2026.07".to_string()));
}

#[test]
fn service_commands() {
    let calls = install_commands("C:\\app\\fetch.exe", 7, "C:\\app\\o.log", "C:\\app\\e.log");
    let args: Vec<Vec<&str>> = calls.iter().map(|c| c.args.iter().map(|a| a.as_str()).collect()).collect();
    assert_eq!(args[0], vec!["install", "HalconLicenseFetcher", "C:\\app\\fetch.exe"]);
    assert_eq!(args[1], vec!["set", "HalconLicenseFetcher", "AppParameters", "service run --interval 7"]);
    assert_eq!(args[4], vec!["set", "HalconLicenseFetcher", "Start", "SERVICE_AUTO_START"]);
    assert_eq!(args[5], vec!["set", "HalconLicenseFetcher", "AppStdout", "C:\\app\\o.log"]);
    assert_eq!(args[7], vec!["start", "HalconLicenseFetcher"]);
    assert_eq!(calls.len(), 8);
    assert!(calls.iter().all(|c| c.must_succeed));
    let removal = remove_commands();
    assert_eq!(removal.len(), 2);
    assert_eq!(removal[0].args, vec!["stop", "HalconLicenseFetcher"]);
    assert!(!removal[0].must_succeed);
    assert_eq!(removal[1].args, vec!["remove", "HalconLicenseFetcher", "confirm"]);
    assert!(removal[1].must_succeed);
}

#[test]
fn download_cache_reads_back_writes() {
    let mut cache = DownloadCache::new();
    assert!(cache.get("a.dat").is_none());
    cache.insert("a.dat".to_string(), b"one".to_vec());
    cache.insert("b.dat".to_string(), b"two".to_vec());
    assert_eq!(cache.get("a.dat"), Some(&b"one".to_vec()));
    cache.insert("a.dat".to_string(), b"three".to_vec());
    assert_eq!(cache.get("a.dat"), Some(&b"three".to_vec()));
    assert_eq!(cache.get("b.dat"), Some(&b"two".to_vec()));
    assert!(cache.get("c.dat").is_none());
}
