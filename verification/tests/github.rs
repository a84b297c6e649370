use halcon_license_fetcher::github::{
    decode_file_content, decoded_or_error, is_month_folder, select_months, strip_line_breaks,
    ContentError, GitHubEntry,
};

#[test]
fn test_month_folder() {
    assert!(is_month_folder("2026.07"));
    assert!(is_month_folder("2018.02"));
    assert!(!is_month_folder("README.md"));
    assert!(!is_month_folder("2026JulyLicenceByLovelyyoshino"));
}

#[test]
fn month_folder_edge_cases() {
    assert!(!is_month_folder("2017.12"));
    assert!(!is_month_folder("2026.13"));
    assert!(!is_month_folder("2026.00"));
    assert!(!is_month_folder("+2026.7"));
    assert!(!is_month_folder("2026.7"));
    assert!(!is_month_folder("2026-07"));
    assert!(!is_month_folder("20a6.07"));
    assert!(is_month_folder("9999.12"));
    assert!(!is_month_folder("2026.07.01"));
    assert!(!is_month_folder("2026."));
    assert!(!is_month_folder("99999999999.01"));
}

fn entry(name: &str, kind: &str) -> GitHubEntry {
    GitHubEntry { name: name.to_string(), entry_type: kind.to_string(), download_url: None }
}

#[test]
fn months_are_dirs_latest_first() {
    let entries = vec![
        entry("2025.11", "dir"),
        entry("README.md", "file"),
        entry("2026.07", "dir"),
        entry("2026.01", "file"),
        entry("2024.03", "dir"),
        entry("tools", "dir"),
    ];
    assert_eq!(select_months(&entries), vec!["2026.07", "2025.11", "2024.03"]);
    assert!(select_months(&[]).is_empty());
}

#[test]
fn content_is_base64_across_lines() {
    assert_eq!(decode_file_content("aGVs\nbG8=\r\n").unwrap(), b"hello".to_vec());
    assert_eq!(decode_file_content("").unwrap(), Vec::<u8>::new());
    assert_eq!(decode_file_content("aGVsbG8").unwrap_err(), ContentError::InvalidBase64);
    assert_eq!(decode_file_content("a$==").unwrap_err(), ContentError::InvalidBase64);
    assert_eq!(strip_line_breaks("a\r\nb\n"), b"ab".to_vec());
}

#[test]
fn decoding_outcome_mapping() {
    assert_eq!(decoded_or_error(Ok(vec![1, 2])), Ok(vec![1, 2]));
    assert_eq!(
        decoded_or_error(Err(base64::DecodeError::InvalidPadding)),
        Err(ContentError::InvalidBase64)
    );
}
