use azst::listing::{plan_listing, BlobInfo, BlobItem, BlobProperties, ListingMode};
use azst::sizes::{calculate_directory_sizes, calculate_total_size};
use azst::units::format_size;
use azst::uri::{is_azure_uri, parse_azure_uri};

fn blob(name: &str, size: u64) -> BlobItem {
    BlobItem::Blob(BlobInfo {
        name: name.to_string(),
        properties: BlobProperties {
            content_length: size,
            last_modified: "2024-01-01T00:00:00Z".to_string(),
            content_type: None,
        },
    })
}

#[test]
fn test_du_container_docs() {
    let (_, container, prefix) = parse_azure_uri("az://account/container/").unwrap();
    assert_eq!(container, "container");
    assert_eq!(prefix, None);
    let items = vec![blob("a.txt", 10), blob("d/b.txt", 20)];
    assert_eq!(calculate_total_size(&items), 30);
}

#[test]
fn test_du_prefix_docs() {
    let (_, _, prefix) = parse_azure_uri("az://account/container/prefix/").unwrap();
    assert_eq!(prefix.as_deref(), Some("prefix/"));
    let items = vec![blob("prefix/x/1", 4), blob("prefix/x/2", 6), blob("prefix/3", 1)];
    let sizes = calculate_directory_sizes(&items, &prefix);
    assert_eq!(sizes.get("x/"), Some(10));
    assert_eq!(sizes.entries().len(), 1);
}

#[test]
fn test_du_summarize_docs() {
    let items = vec![blob("x/1", 4), BlobItem::Prefix("x/".to_string()), blob("2", 6)];
    assert_eq!(calculate_total_size(&items), 10);
}

#[test]
fn test_du_human_readable_docs() {
    assert_eq!(format_size(2048), "2.0 KB");
    assert_eq!(format_size(3 * 1024 * 1024 + 512 * 1024), "3.5 MB");
}

#[test]
fn test_du_detailed_docs() {
    let items = vec![blob("a/b/c.txt", 1), blob("a/d.txt", 2)];
    let sizes = calculate_directory_sizes(&items, &None);
    assert_eq!(sizes.get("a/"), Some(3));
    assert_eq!(sizes.get("a/b/"), Some(1));
}

#[test]
fn test_du_local_directory_docs() {
    assert!(!is_azure_uri("/local/dir/"));
}

#[test]
fn test_list_containers_docs() {
    let (account, container, path) = parse_azure_uri("az://account").unwrap();
    assert_eq!(account.as_deref(), Some("account"));
    assert!(container.is_empty());
    assert_eq!(path, None);
}

#[test]
fn test_list_container_contents_docs() {
    let (_, _, path) = parse_azure_uri("az://account/container/").unwrap();
    let plan = plan_listing(path.as_deref(), false);
    assert_eq!(plan.list_prefix, None);
    assert!(plan.use_delimiter);
    assert_eq!(plan.mode, ListingMode::Stream);
}

#[test]
fn test_list_with_prefix_docs() {
    let (_, _, path) = parse_azure_uri("az://account/container/prefix/").unwrap();
    let plan = plan_listing(path.as_deref(), false);
    assert_eq!(plan.list_prefix.as_deref(), Some("prefix/"));
    assert_eq!(plan.mode, ListingMode::Stream);
}

#[test]
fn test_list_long_format_docs() {
    assert_eq!(format_size(100), "100 B");
}

#[test]
fn test_list_human_readable_docs() {
    assert_eq!(format_size(1536), "1.5 KB");
}

#[test]
fn test_list_recursive_docs() {
    let plan = plan_listing(None, true);
    assert!(!plan.use_delimiter);
    assert_eq!(plan.mode, ListingMode::Stream);
}

#[test]
fn test_list_local_file_docs() {
    assert!(!is_azure_uri("/local/file.txt"));
}

#[test]
fn test_list_local_directory_docs() {
    assert!(!is_azure_uri("/local/dir/"));
}
