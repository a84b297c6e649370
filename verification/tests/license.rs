use halcon_license_fetcher::license::{describe_lowered, group_matches, LicenseGroup};
use halcon_license_fetcher::detect::{MvtecProduct, ProductKind};
use halcon_license_fetcher::github::GitHubEntry;
use halcon_license_fetcher::license::{
    dedup, describe_bundle, describe_single, pick_licenses_for_product,
};

fn make_entry(name: &str) -> GitHubEntry {
    GitHubEntry {
        name: name.to_string(),
        entry_type: "file".to_string(),
        download_url: None,
    }
}

fn make_product(version: &str, kind: ProductKind) -> MvtecProduct {
    MvtecProduct {
        root: format!(r"C:\MVTec\HALCON-{}", version),
        version: version.to_string(),
        kind,
    }
}

fn sample_entries() -> Vec<GitHubEntry> {
    vec![
        make_entry("license_eval_dlt_2026_07.dat"),
        make_entry("license_eval_halcon_progress_2026_07.dat"),
        make_entry("license_support_halcon24.11_steady-dl_2026_07.dat"),
        make_entry("license_support_halcon24.11_steady_2026_07.dat"),
        make_entry("license_support_halcon22.11_steady_2026_07.dat"),
        make_entry("license_support_halcon_progress_2026_07.dat"),
    ]
}

#[test]
fn test_progress_gets_both_progress_files() {
    let entries = sample_entries();
    let product = make_product("26.05", ProductKind::HalconProgress);
    let result = pick_licenses_for_product(&entries, &product);
    assert_eq!(result.len(), 2);
    let names: Vec<&str> = result.iter().map(|e| e.name.as_str()).collect();
    assert!(names.contains(&"license_support_halcon_progress_2026_07.dat"));
    assert!(names.contains(&"license_eval_halcon_progress_2026_07.dat"));
}

#[test]
fn test_steady_dl_gets_all_three() {
    let entries = sample_entries();
    let product = make_product("24.11", ProductKind::HalconSteadyDL);
    let result = pick_licenses_for_product(&entries, &product);
    assert!(result.len() >= 1);
    assert!(result.iter().any(|e| e.name.contains("steady-dl")));
    assert!(result.iter().any(|e| e.name.contains("eval_halcon_progress")));
}

#[test]
fn test_dlt_gets_dlt_and_hdevelop() {
    let entries = sample_entries();
    let product = make_product("0.0", ProductKind::DeepLearningTool);
    let result = pick_licenses_for_product(&entries, &product);
    assert!(result.iter().any(|e| e.name.contains("eval_dlt")));
    assert!(result.iter().any(|e| e.name.contains("eval_halcon_progress")));
}

#[test]
fn test_dedup() {
    let entries = vec![
        make_entry("same_file.dat"),
        make_entry("same_file.dat"),
        make_entry("other_file.dat"),
    ];
    let mut result: Vec<&GitHubEntry> = entries.iter().collect();
    dedup(&mut result);
    assert_eq!(result.len(), 2);
}

fn picked_names(entries: &[GitHubEntry], version: &str, kind: ProductKind) -> Vec<String> {
    let product = make_product(version, kind);
    pick_licenses_for_product(entries, &product).iter().map(|e| e.name.clone()).collect()
}

#[test]
fn exact_picks_per_kind() {
    let mut entries = sample_entries();
    entries.push(make_entry("LICENSE_SUPPORT_HALCON24.11_2026_07.dat"));
    entries.push(make_entry("license_support_halcon24.11_steady_2026_07.txt"));
    entries.push(make_entry("license_eval_halcon_progress_2026_07.dat"));
    assert_eq!(
        picked_names(&entries, "24.11", ProductKind::HalconSteady),
        vec![
            "license_support_halcon24.11_steady_2026_07.dat",
            "license_support_halcon24.11_steady-dl_2026_07.dat",
            "license_eval_halcon_progress_2026_07.dat",
            "license_support_halcon_progress_2026_07.dat",
        ]
    );
    assert_eq!(
        picked_names(&entries, "24.11", ProductKind::HalconSteadyDL),
        vec![
            "license_support_halcon24.11_steady-dl_2026_07.dat",
            "license_support_halcon24.11_steady_2026_07.dat",
            "license_eval_halcon_progress_2026_07.dat",
            "license_support_halcon_progress_2026_07.dat",
        ]
    );
    assert_eq!(
        picked_names(&entries, "24.11", ProductKind::HalconOther),
        vec![
            "license_support_halcon24.11_steady_2026_07.dat",
            "LICENSE_SUPPORT_HALCON24.11_2026_07.dat",
            "license_eval_halcon_progress_2026_07.dat",
            "license_support_halcon_progress_2026_07.dat",
        ]
    );
    assert_eq!(
        picked_names(&entries, "24.11", ProductKind::HalconProgress),
        vec![
            "license_support_halcon24.11_steady_2026_07.dat",
            "license_support_halcon24.11_steady-dl_2026_07.dat",
            "LICENSE_SUPPORT_HALCON24.11_2026_07.dat",
            "license_eval_halcon_progress_2026_07.dat",
            "license_support_halcon_progress_2026_07.dat",
        ]
    );
    assert_eq!(
        picked_names(&entries, "0.0", ProductKind::DeepLearningTool),
        vec![
            "license_eval_dlt_2026_07.dat",
            "license_eval_halcon_progress_2026_07.dat",
            "license_support_halcon_progress_2026_07.dat",
        ]
    );
    assert!(picked_names(&[], "24.11", ProductKind::HalconSteady).is_empty());
}

#[test]
fn dedup_keeps_first_of_each_name() {
    let a = make_entry("x.dat");
    let b = GitHubEntry { entry_type: "dir".to_string(), ..make_entry("x.dat") };
    let c = make_entry("y.dat");
    let mut v: Vec<&GitHubEntry> = vec![&a, &c, &b, &c];
    dedup(&mut v);
    assert_eq!(v.len(), 2);
    assert_eq!(v[0].entry_type, "file");
    assert_eq!(v[1].name, "y.dat");
    let before = v.clone();
    dedup(&mut v);
    assert_eq!(v.len(), before.len());
}

#[test]
fn descriptions() {
    assert_eq!(describe_single("license_eval_dlt_2026_07.dat"), "Deep Learning Tool");
    assert_eq!(describe_single("LICENSE_SUPPORT_HALCON24.11_STEADY-DL_X.dat"), "Steady + DL");
    assert_eq!(describe_single("license_support_halcon24.11_steady_x.dat"), "Steady");
    assert_eq!(describe_single("license_eval_halcon_progress_x.dat"), "Progress 评估 (含 HDevelop)");
    assert_eq!(describe_single("license_support_halcon_progress_x.dat"), "Progress 支持");
    assert_eq!(describe_single("license_support_halcon24.11_x.dat"), "Support");
    assert_eq!(describe_single("notes.dat"), "notes.dat");
    let e1 = make_entry("license_eval_dlt_1.dat");
    let e2 = make_entry("other.dat");
    assert_eq!(describe_bundle(&[&e1, &e2]), vec!["Deep Learning Tool", "other.dat"]);
}

#[test]
fn lowered_helpers() {
    assert!(group_matches("license_eval_dlt_x.dat", LicenseGroup::DeepLearningTool, "halcon24.11"));
    assert!(group_matches("license_support_halcon24.11_steady_x.dat", LicenseGroup::ExactSteady, "halcon24.11"));
    assert!(!group_matches("license_support_halcon24.11_steady-dl_x.dat", LicenseGroup::ExactSteady, "halcon24.11"));
    assert!(group_matches("license_support_halcon24.11_steady-dl_x.dat", LicenseGroup::ExactSteadyDL, "halcon24.11"));
    assert!(!group_matches("license_support_halcon22.11_x.dat", LicenseGroup::ExactSupport, "halcon24.11"));
    assert!(!group_matches("halcon_progress_x.dat", LicenseGroup::ProgressGeneric, ""));
    // the lower-cased form decides, the name is shown as it is
    assert_eq!(describe_lowered("ODD.dat", "x_support_y"), "Support");
    assert_eq!(describe_lowered("ODD.dat", "odd.dat"), "ODD.dat");
}

#[test]
fn exact_version_is_not_a_prefix() {
    let entries = sample_entries();
    assert_eq!(
        picked_names(&entries, "24.1", ProductKind::HalconSteadyDL),
        vec![
            "license_eval_halcon_progress_2026_07.dat",
            "license_support_halcon_progress_2026_07.dat",
        ]
    );
    assert!(!group_matches("license_support_halcon24.11_steady-dl_2026_07.dat", LicenseGroup::ExactSteadyDL, "halcon24.1"));
    assert!(!group_matches("license_support_halcon24.11_steady_2026_07.dat", LicenseGroup::ExactSteady, "halcon24.1"));
    assert!(!group_matches("license_support_halcon24.11_2026_07.dat", LicenseGroup::ExactSupport, "halcon24.1"));
    assert!(group_matches("license_support_halcon24.1_2026_07.dat", LicenseGroup::ExactSupport, "halcon24.1"));
}
