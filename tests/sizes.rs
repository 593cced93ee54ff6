use azst::listing::{BlobInfo, BlobItem, BlobProperties};
use azst::sizes::{calculate_directory_sizes, calculate_total_size, local_directory_sizes, DirectorySizeMap};

fn blob(name: &str, size: u64) -> BlobItem {
    BlobItem::Blob(BlobInfo {
        name: name.to_string(),
        properties: BlobProperties {
            content_length: size,
            last_modified: "2024-01-01T00:00:00Z".to_string(),
            content_type: None,
        },
    })
}

fn photos() -> Vec<BlobItem> {
    vec![
        blob("photos/2024/a.jpg", 100),
        blob("photos/2024/b.jpg", 200),
        blob("photos/2023/c.jpg", 50),
    ]
}

#[test]
fn usage_under_a_prefix() {
    let items = photos();
    let base = Some("photos/".to_string());
    let rel = calculate_directory_sizes(&items, &base);
    assert_eq!(rel.get("2024/"), Some(300));
    assert_eq!(rel.get("2023/"), Some(50));
    let full = rel.prefixed("photos/");
    assert_eq!(full.get("photos/2024/"), Some(300));
    assert_eq!(full.get("photos/2023/"), Some(50));
    assert_eq!(full.entries().len(), 2);
    assert_eq!(calculate_total_size(&items), 350);
}

#[test]
fn every_ancestor_gets_the_size() {
    let items = vec![
        blob("a/b/c/file.txt", 7),
        blob("a/b/other.txt", 5),
        blob("a/top.txt", 1),
        blob("root.txt", 1000),
        BlobItem::Prefix("a/b/".to_string()),
    ];
    let m = calculate_directory_sizes(&items, &None);
    assert_eq!(m.get("a/"), Some(13));
    assert_eq!(m.get("a/b/"), Some(12));
    assert_eq!(m.get("a/b/c/"), Some(7));
    assert_eq!(m.get("root.txt/"), None);
    assert_eq!(m.entries().len(), 3);
    assert_eq!(calculate_total_size(&items), 1013);
}

#[test]
fn totals_equal_sums_of_names_under_each_directory() {
    let items = photos();
    let m = calculate_directory_sizes(&items, &None);
    for (dir, total) in m.entries() {
        let expected: u64 = items
            .iter()
            .filter_map(|i| match i {
                BlobItem::Blob(b) if b.name.starts_with(&dir) => Some(b.properties.content_length),
                _ => None,
            })
            .sum();
        assert_eq!(total, expected);
    }
    assert_eq!(m.get("photos/"), Some(350));
}

#[test]
fn empty_listing_has_no_directories() {
    let m = calculate_directory_sizes(&Vec::new(), &None);
    assert!(m.entries().is_empty());
    assert_eq!(calculate_total_size(&Vec::new()), 0);
}

#[test]
fn size_map_adds_up() {
    let mut m = DirectorySizeMap::new();
    m.add("x/".to_string(), 3);
    m.add("x/".to_string(), 4);
    m.add("y/".to_string(), 1);
    assert_eq!(m.get("x/"), Some(7));
    assert_eq!(m.get("y/"), Some(1));
    assert_eq!(m.get("z/"), None);
}

#[test]
fn local_tree_totals() {
    let files = vec![
        ("a.txt".to_string(), 5u64),
        ("sub/b.txt".to_string(), 7),
        ("sub/deep/c.txt".to_string(), 11),
        ("subway/d.txt".to_string(), 100),
    ];
    let dirs = vec![
        "sub".to_string(),
        "sub/deep".to_string(),
        "sub/empty".to_string(),
        "subway".to_string(),
    ];
    let (sizes, total) = local_directory_sizes(&files, &dirs, false);
    assert_eq!(total, 123);
    assert_eq!(sizes.get("sub"), Some(18));
    assert_eq!(sizes.get("sub/deep"), Some(11));
    assert_eq!(sizes.get("sub/empty"), Some(0));
    assert_eq!(sizes.get("subway"), Some(100));
    assert_eq!(sizes.entries().len(), 4);

    let (sizes, total) = local_directory_sizes(&files, &dirs, true);
    assert_eq!(total, 123);
    assert!(sizes.entries().is_empty());
}
