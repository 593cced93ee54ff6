use azst::azcopy::{failed_transfer_count, info_text, is_job_complete, parse_azcopy_version};
use azst::ranges::{parse_range, parse_u64, RangeError};
use azst::units::format_bytes;
use azst::targets::{plan_removal, resource_group_of, RemovalError};
use azst::uri::{convert_az_uri_to_url, UriError};

#[test]
fn byte_ranges() {
    assert_eq!(parse_range("0-100"), Ok(Some((0, Some(100)))));
    assert_eq!(parse_range("1024-"), Ok(Some((1024, None))));
    assert_eq!(parse_range("256-5939"), Ok(Some((256, Some(5939)))));
    assert_eq!(parse_range("-5"), Err(RangeError::Negative));
    assert_eq!(parse_range("5"), Err(RangeError::Format));
    assert_eq!(parse_range("1-2-3"), Err(RangeError::Format));
    assert_eq!(parse_range("x-5"), Err(RangeError::Start));
    assert_eq!(parse_range("5-y"), Err(RangeError::End));
    assert_eq!(parse_range(""), Err(RangeError::Format));
}

#[test]
fn unsigned_numbers() {
    assert_eq!(parse_u64("0"), Some(0));
    assert_eq!(parse_u64("+42"), Some(42));
    assert_eq!(parse_u64("18446744073709551615"), Some(u64::MAX));
    assert_eq!(parse_u64("18446744073709551616"), None);
    assert_eq!(parse_u64(""), None);
    assert_eq!(parse_u64("+"), None);
    assert_eq!(parse_u64("-1"), None);
    assert_eq!(parse_u64("12a"), None);
    for s in ["7", "+7", "007", "99999999999999999999", " 1", "1 "] {
        assert_eq!(parse_u64(s), s.parse::<u64>().ok());
    }
}

#[test]
fn byte_counts_with_two_decimals() {
    assert_eq!(format_bytes("512"), "512.00 B");
    assert_eq!(format_bytes("1536"), "1.50 KB");
    assert_eq!(format_bytes("1048576"), "1.00 MB");
    assert_eq!(format_bytes("1152"), format!("{:.2} KB", 1152f64 / 1024.0));
    assert_eq!(format_bytes("1131"), format!("{:.2} KB", 1131f64 / 1024.0));
    assert_eq!(format_bytes("n/a"), "n/a");
    assert_eq!(format_bytes(""), "");
}

#[test]
fn https_endpoints() {
    assert_eq!(
        convert_az_uri_to_url("az://acct/cont/dir/file.txt").unwrap(),
        "https://acct.blob.core.windows.net/cont/dir/file.txt"
    );
    assert_eq!(
        convert_az_uri_to_url("az://acct/cont").unwrap(),
        "https://acct.blob.core.windows.net/cont"
    );
    assert_eq!(convert_az_uri_to_url("az://acct"), Err(UriError::MissingContainer));
    assert_eq!(convert_az_uri_to_url("https://x"), Err(UriError::MissingScheme));
}

#[test]
fn tool_version_line() {
    assert_eq!(parse_azcopy_version("azcopy version 10.30.1\n"), Some("10.30.1".to_string()));
    assert_eq!(parse_azcopy_version("azcopy  version\t10.21.2\r\nmore text"), Some("10.21.2".to_string()));
    assert_eq!(parse_azcopy_version("azcopy version"), None);
    assert_eq!(parse_azcopy_version(""), None);
    assert_eq!(parse_azcopy_version("\nazcopy version 1"), None);
    assert_eq!(parse_azcopy_version("  a b c d"), Some("c".to_string()));
}

#[test]
fn progress_report_fields() {
    assert!(is_job_complete("Completed"));
    assert!(is_job_complete("CompletedWithErrors"));
    assert!(!is_job_complete("InProgress"));
    assert!(!is_job_complete("completed"));
    assert_eq!(failed_transfer_count("3"), 3);
    assert_eq!(failed_transfer_count("4294967295"), u32::MAX);
    assert_eq!(failed_transfer_count("4294967296"), 0);
    assert_eq!(failed_transfer_count("n/a"), 0);
    assert_eq!(info_text("  INFO: Scanning...\n"), "Scanning...");
    assert_eq!(info_text("plain note"), "plain note");
    assert_eq!(info_text(" \t "), "");
    assert_eq!(info_text("\u{3000}INFO: wide\u{2003}"), "wide");
}

#[test]
fn removal_targets() {
    assert_eq!(plan_removal("az://acct/cont/dir/file.txt", false), Ok(false));
    assert_eq!(plan_removal("az://acct/cont/dir/", true), Ok(true));
    assert_eq!(plan_removal("az://acct/cont/logs/*.txt", false), Ok(true));
    assert_eq!(plan_removal("az://acct/cont/a?.txt", false), Ok(true));
    assert_eq!(plan_removal("az://acct/cont", false), Err(RemovalError::WholeContainer));
    assert_eq!(plan_removal("az://acct", false), Err(RemovalError::NoContainer));
    assert_eq!(
        plan_removal("s3://bucket/key", false),
        Err(RemovalError::Address(UriError::MissingScheme))
    );
}

#[test]
fn resource_group_from_id() {
    assert_eq!(
        resource_group_of("/subscriptions/123/resourceGroups/my-rg/providers/Microsoft.Storage/storageAccounts/acct"),
        "my-rg"
    );
    assert_eq!(resource_group_of("/subscriptions/123/resourceGroups/rg2"), "rg2");
    assert_eq!(resource_group_of("/subscriptions/123/resourceGroups"), "");
    assert_eq!(resource_group_of(""), "");
}
