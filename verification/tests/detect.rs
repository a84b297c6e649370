use halcon_license_fetcher::paths::same_path;
use halcon_license_fetcher::detect::{identify_lowered, version_after_marker};
use halcon_license_fetcher::detect::{
    extract_version_from_dir_name, extract_version_from_path, identify_product, select_products,
    sort_products_by_version, DetectError, DirCandidate, MvtecProduct, ProductKind,
};
use halcon_license_fetcher::version::{compare_versions, version_parts_of, PartsOrder};
use halcon_license_fetcher::version::version_order_of;
use std::cmp::Ordering;

#[test]
fn test_product_kind_detection() {
    assert_eq!(
        ProductKind::from_dir_name("HALCON-24.11-Progress-Steady"),
        ProductKind::HalconSteadyDL
    );
    assert_eq!(
        ProductKind::from_dir_name("HALCON-26.05-Progress"),
        ProductKind::HalconProgress
    );
    assert_eq!(
        ProductKind::from_dir_name("HALCON-24.11"),
        ProductKind::HalconOther
    );
    assert_eq!(
        ProductKind::from_dir_name("DeepLearningTool"),
        ProductKind::DeepLearningTool
    );
}

#[test]
fn test_version_extraction() {
    assert_eq!(
        extract_version_from_dir_name("HALCON-24.11-Progress-Steady"),
        Some("24.11".to_string())
    );
    assert_eq!(
        extract_version_from_dir_name("HALCON-26.05-Progress"),
        Some("26.05".to_string())
    );
}

#[test]
fn test_compare_versions() {
    assert_eq!(compare_versions("24.11", "22.11"), Ordering::Greater);
    assert_eq!(compare_versions("18.11", "24.11"), Ordering::Less);
}

#[test]
fn kind_detection_other_kinds() {
    assert_eq!(ProductKind::from_dir_name("HALCON-24.11-Steady"), ProductKind::HalconSteady);
    assert_eq!(ProductKind::from_dir_name("halcon_steady_dl"), ProductKind::HalconSteadyDL);
    assert_eq!(ProductKind::from_dir_name("Halcon-20.11-steady-dl"), ProductKind::HalconSteadyDL);
    assert_eq!(ProductKind::from_dir_name("MVTec_Deep_Learning"), ProductKind::DeepLearningTool);
    assert_eq!(ProductKind::from_dir_name("SoftwareManager"), ProductKind::Other);
    assert_eq!(ProductKind::from_lower_name("HALCON-24.11"), ProductKind::Other);
    assert_eq!(ProductKind::from_lower_name("halcon-24.11"), ProductKind::HalconOther);
}

#[test]
fn labels_of_kinds() {
    assert_eq!(ProductKind::HalconSteady.label(), "Halcon Steady");
    assert_eq!(ProductKind::HalconProgress.label(), "Halcon Progress");
    assert_eq!(ProductKind::HalconSteadyDL.label(), "Halcon Steady + DL");
    assert_eq!(ProductKind::DeepLearningTool.label(), "Deep Learning Tool");
    assert_eq!(ProductKind::HalconOther.label(), "Halcon");
    assert_eq!(ProductKind::Other.label(), "MVTec Product");
}

#[test]
fn version_extraction_edge_cases() {
    assert_eq!(extract_version_from_dir_name("HALCON_-_12.0x"), None);
    assert_eq!(extract_version_from_dir_name("halcon--_18.11.0.1"), Some("18.11.0.1".to_string()));
    assert_eq!(extract_version_from_dir_name("HALCON"), None);
    assert_eq!(extract_version_from_dir_name("DeepLearningTool"), None);
    assert_eq!(extract_version_from_dir_name("MyHalcon2105x"), Some("2105".to_string()));
    assert_eq!(extract_version_from_dir_name("x-HALCON-13.0-HALCON-20.11"), Some("13.0".to_string()));
}

#[test]
fn version_from_final_path_component() {
    assert_eq!(
        extract_version_from_path("/opt/HALCON-20.11/HALCON-24.11"),
        Some("24.11".to_string())
    );
    assert_eq!(extract_version_from_path("/opt/HALCON-20.11/Tools"), None);
    assert_eq!(extract_version_from_path("/"), None);
    assert_eq!(extract_version_from_path("HALCON-24.11"), Some("24.11".to_string()));
    assert_eq!(extract_version_from_path("Tools"), None);
    // repeated separators, a trailing separator and trailing `.` pieces are passed over
    assert_eq!(
        extract_version_from_path("opt//HALCON-24.11/./"),
        Some("24.11".to_string())
    );
    // a path that ends in `..` has no final component
    assert_eq!(extract_version_from_path("/opt/HALCON-24.11/.."), None);
    assert_eq!(extract_version_from_path("."), None);
    assert_eq!(extract_version_from_path(""), None);
}

#[test]
fn version_parts_and_order() {
    assert_eq!(version_parts_of("24.11"), vec![24, 11]);
    assert_eq!(version_parts_of("+7..x.08"), vec![7, 8]);
    assert_eq!(version_parts_of("4294967296.1"), vec![1]);
    assert_eq!(compare_versions("24.11", "24.11.0"), Ordering::Less);
    assert_eq!(compare_versions("24.11", "24.11"), Ordering::Equal);
    assert_eq!(compare_versions("24.011", "24.11"), Ordering::Equal);
    assert_eq!(compare_versions("0.0", "abc"), Ordering::Greater);
    assert_eq!(version_order_of("22.11", "24.11"), PartsOrder::Less);
    // antisymmetry and transitivity on concrete values
    assert_eq!(compare_versions("24.11", "18.11"), compare_versions("18.11", "24.11").reverse());
    assert_eq!(compare_versions("18.11", "26.05"), Ordering::Less);
}

#[test]
fn identify_recognises_products_only() {
    let p = identify_product("/x/HALCON-24.11-Progress", "HALCON-24.11-Progress").unwrap();
    assert_eq!(p.root, "/x/HALCON-24.11-Progress");
    assert_eq!(p.version, "24.11");
    assert_eq!(p.kind, ProductKind::HalconProgress);
    let d = identify_product("/x/DeepLearningTool", "DeepLearningTool").unwrap();
    assert_eq!(d.version, "0.0");
    assert_eq!(d.kind, ProductKind::DeepLearningTool);
    assert!(identify_product("/x/Tools", "Tools").is_none());
}

fn cand(root: &str, name: &str) -> DirCandidate {
    DirCandidate { root: root.to_string(), name: name.to_string() }
}

#[test]
fn select_products_sorts_and_dedups() {
    let scanned = vec![
        cand("/m/HALCON-18.11", "HALCON-18.11"),
        cand("/m/SoftwareManager", "SoftwareManager"),
        cand("/m/HALCON-24.11", "HALCON-24.11"),
        cand("/m/extensions", "EXTENSIONS"),
        cand("/m/HALCON-26.05-Progress", "HALCON-26.05-Progress"),
        cand("/m/HALCON-24.11", "HALCON-24.11"),
        cand("/m/Docs", "Docs"),
    ];
    let env = Some(cand("/m/HALCON-24.11", "HALCON-24.11"));
    let found = select_products(env, &scanned).unwrap();
    let roots: Vec<&str> = found.iter().map(|p| p.root.as_str()).collect();
    assert_eq!(roots, vec!["/m/HALCON-26.05-Progress", "/m/HALCON-24.11", "/m/HALCON-18.11"]);
}

#[test]
fn select_products_reports_none_found() {
    let scanned = vec![cand("/m/SoftwareManager", "softwaremanager"), cand("/m/Docs", "Docs")];
    assert_eq!(select_products(None, &scanned).unwrap_err(), DetectError::NoProducts);
}

#[test]
fn sorting_is_stable_for_equal_versions() {
    let mk = |root: &str, v: &str| MvtecProduct {
        root: root.to_string(),
        version: v.to_string(),
        kind: ProductKind::HalconOther,
    };
    let sorted = sort_products_by_version(vec![
        mk("a", "20.11"),
        mk("b", "24.11"),
        mk("c", "20.011"),
        mk("d", "24.11"),
    ]);
    let roots: Vec<&str> = sorted.iter().map(|p| p.root.as_str()).collect();
    assert_eq!(roots, vec!["b", "d", "a", "c"]);
}

#[test]
fn lowered_identification_and_cut() {
    assert_eq!(version_after_marker("HALCON-24.11", "halcon-24.11"), Some("24.11".to_string()));
    assert_eq!(version_after_marker("HALCON", "halcon"), None);
    assert_eq!(version_after_marker("Tools", "tools"), None);
    // the kind follows the lower-cased name given
    let p = identify_lowered("/r", "HALCON-24.11", "halcon-24.11-steady").unwrap();
    assert_eq!(p.kind, ProductKind::HalconSteady);
    assert_eq!(p.version, "24.11");
    assert!(identify_lowered("/r", "HALCON-24.11", "tools").is_none());
}

#[test]
fn repeated_installation_by_path_components() {
    let scanned = vec![
        cand("C:\\MVTec\\HALCON-24.11", "HALCON-24.11"),
        cand("C:/MVTec//HALCON-24.11", "HALCON-24.11"),
        cand("C:\\MVTec\\.\\HALCON-24.11\\", "HALCON-24.11"),
        cand("D:\\MVTec\\HALCON-24.11", "HALCON-24.11"),
        cand("c:\\MVTec\\HALCON-24.11", "HALCON-24.11"),
    ];
    let env = Some(cand("C:\\MVTec\\HALCON-24.11\\", "HALCON-24.11"));
    let found = select_products(env, &scanned).unwrap();
    let roots: Vec<&str> = found.iter().map(|p| p.root.as_str()).collect();
    assert_eq!(roots, vec!["C:\\MVTec\\HALCON-24.11\\", "D:\\MVTec\\HALCON-24.11"]);
}

#[test]
fn path_component_equality() {
    assert!(same_path("C:\\a\\b", "C:/a//b/"));
    assert!(same_path("a/./b", "a/b"));
    assert!(!same_path("./a", "a"));
    assert!(!same_path("/a", "a"));
    assert!(!same_path("C:\\a", "C:\\A"));
    assert!(!same_path("a/b", "a/b/c"));
    assert!(!same_path("", "."));
    assert!(same_path(".", "./"));
    // the drive letter counts up to case, the rest of the path does not
    assert!(same_path("c:\\MVTec\\HALCON-24.11", "C:/MVTec/HALCON-24.11"));
    assert!(!same_path("c:\\MVTec", "C:\\mvtec"));
    assert!(!same_path("C:\\a", "D:\\a"));
    // a drive without a root is not the same as one with a root
    assert!(!same_path("C:a", "C:\\a"));
    assert!(same_path("C:a\\.", "c:a"));
    assert!(!same_path("C:", "C:\\"));
}
