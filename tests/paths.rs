use azst::paths::{get_filename, get_parent_dir, normalize_path};
use azst::units::{decimal_string, format_size};

#[test]
fn test_format_size() {
    assert_eq!(format_size(512), "512 B");
    assert_eq!(format_size(1024), "1.0 KB");
    assert_eq!(format_size(1536), "1.5 KB");
    assert_eq!(format_size(1048576), "1.0 MB");
    assert_eq!(format_size(1073741824), "1.0 GB");
    assert_eq!(format_size(1099511627776), "1.0 TB");
    assert_eq!(format_size(0), "0 B");
}

#[test]
fn format_size_rounds_to_nearest_tenth() {
    assert_eq!(format_size(1023), "1023 B");
    assert_eq!(format_size(1126), "1.1 KB");
    assert_eq!(format_size(1177), "1.1 KB");
    assert_eq!(format_size(1178), "1.2 KB");
    assert_eq!(format_size(1280), "1.2 KB");
    assert_eq!(format_size(1331), "1.3 KB");
    assert_eq!(format_size(1792), "1.8 KB");
    assert_eq!(format_size(3 * 1048576 / 4 + 1048576), "1.8 MB");
    for size in [1280u64, 1382, 1536, 2304, 2816, 1310720, 1048576 + 52429] {
        let k = if size < 1048576 { 1024.0 } else { 1048576.0 };
        let unit = if size < 1048576 { "KB" } else { "MB" };
        assert_eq!(format_size(size), format!("{:.1} {}", size as f64 / k, unit));
    }
    assert_eq!(format_size(1048575), "1024.0 KB");
    assert_eq!(format_size(5 * 1099511627776 * 1024), "5120.0 TB");
    assert_eq!(format_size(u64::MAX), "16777216.0 TB");
}

#[test]
fn decimal_rendering() {
    assert_eq!(decimal_string(0), "0");
    assert_eq!(decimal_string(7), "7");
    assert_eq!(decimal_string(1234567890), "1234567890");
    assert_eq!(decimal_string(u64::MAX as u128), "18446744073709551615");
}

#[test]
fn test_get_filename() {
    assert_eq!(get_filename("/path/to/file.txt"), "file.txt");
    assert_eq!(get_filename("/path/to/dir/"), "dir");
    assert_eq!(get_filename("file.txt"), "file.txt");
    assert_eq!(get_filename("/"), "/");

    assert_eq!(
        get_filename("az://account/container/path/to/file.txt"),
        "file.txt"
    );
    assert_eq!(get_filename("az://account/container/file.txt"), "file.txt");
    assert_eq!(get_filename("az://account/container/"), "");
    assert_eq!(get_filename("az://account/container"), "");
}

#[test]
fn test_get_parent_dir() {
    assert_eq!(
        get_parent_dir("/path/to/file.txt"),
        Some("/path/to".to_string())
    );
    assert_eq!(get_parent_dir("/path/to/"), Some("/path".to_string()));
    assert_eq!(get_parent_dir("file.txt"), Some("".to_string()));
    assert_eq!(get_parent_dir("/"), None);
}

#[test]
fn test_normalize_path() {
    assert_eq!(normalize_path("/path/to/file/"), "/path/to/file");
    assert_eq!(normalize_path("/path/to/file"), "/path/to/file");
    assert_eq!(normalize_path("/"), "/");
    assert_eq!(normalize_path("//"), "");
}
