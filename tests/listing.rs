use azst::listing::{
    plan_listing, select_entries, truncate_to_depth, relative_name, BlobInfo, BlobItem,
    BlobProperties, ListingMode,
};
use azst::uri::parse_azure_uri;

fn blob(name: &str, size: u64) -> BlobItem {
    BlobItem::Blob(BlobInfo {
        name: name.to_string(),
        properties: BlobProperties {
            content_length: size,
            last_modified: "2024-01-01T00:00:00Z".to_string(),
            content_type: Some("image/jpeg".to_string()),
        },
    })
}

fn photos() -> Vec<BlobItem> {
    vec![
        blob("photos/2024/a.jpg", 100),
        blob("photos/2024/b.jpg", 200),
        blob("photos/2023/c.jpg", 50),
    ]
}

fn names(items: &[BlobItem]) -> Vec<String> {
    let mut v: Vec<String> = items.iter().map(|i| i.name().clone()).collect();
    v.sort();
    v
}

#[test]
fn directory_pattern_rebuilds_directories() {
    let (_, _, path) = parse_azure_uri("az://acct/media/photos/*/").unwrap();
    let plan = plan_listing(path.as_deref(), false);
    assert_eq!(plan.list_prefix.as_deref(), Some("photos/"));
    assert_eq!(plan.pattern.as_deref(), Some("*/*"));
    assert!(plan.force_recursive);
    assert!(!plan.use_delimiter);
    assert_eq!(plan.mode, ListingMode::Reconstruct(1, true));
    let out = select_entries(&plan, &photos());
    assert_eq!(out.len(), 2);
    assert!(out.iter().all(|i| matches!(i, BlobItem::Prefix(_))));
    assert_eq!(names(&out), vec!["photos/2023/".to_string(), "photos/2024/".to_string()]);
}

#[test]
fn recursive_marker_lists_every_match() {
    let plan = plan_listing(Some("photos/**/*.jpg"), false);
    assert!(plan.force_recursive);
    assert!(!plan.use_delimiter);
    assert_eq!(plan.mode, ListingMode::Filter);
    let out = select_entries(&plan, &photos());
    assert_eq!(out.len(), 3);
    assert!(out.iter().all(|i| matches!(i, BlobItem::Blob(_))));
    assert_eq!(
        names(&out),
        vec![
            "photos/2023/c.jpg".to_string(),
            "photos/2024/a.jpg".to_string(),
            "photos/2024/b.jpg".to_string()
        ]
    );
}

#[test]
fn rebuilt_and_delimited_directories_agree() {
    let keys = vec![
        blob("logs/app/1.txt", 1),
        blob("logs/app/2.txt", 2),
        blob("logs/db/x/3.txt", 3),
        blob("logs/web/", 0),
    ];
    let plan = plan_listing(Some("logs/*/"), false);
    assert_eq!(plan.mode, ListingMode::Reconstruct(1, true));
    let rebuilt = names(&select_entries(&plan, &keys));
    let mut delimited: Vec<String> = Vec::new();
    for k in &keys {
        let rest = &k.name()["logs/".len()..];
        if let Some(i) = rest.find('/') {
            let d = format!("logs/{}", &rest[..=i]);
            if !delimited.contains(&d) {
                delimited.push(d);
            }
        }
    }
    delimited.sort();
    assert_eq!(rebuilt, delimited);
}

#[test]
fn single_segment_pattern_keeps_delimited_listing() {
    let plan = plan_listing(Some("photos/2024/*.jpg"), false);
    assert!(!plan.force_recursive);
    assert!(plan.use_delimiter);
    assert_eq!(plan.mode, ListingMode::Filter);
    let page = vec![
        blob("photos/2024/a.jpg", 100),
        blob("photos/2024/notes.txt", 5),
        BlobItem::Prefix("photos/2024/raw/".to_string()),
    ];
    let out = select_entries(&plan, &page);
    assert_eq!(names(&out), vec!["photos/2024/a.jpg".to_string()]);
}

#[test]
fn explicit_recursion_filters_full_names() {
    let plan = plan_listing(Some("photos/*/a.jpg"), true);
    assert!(plan.force_recursive);
    assert_eq!(plan.mode, ListingMode::Filter);
    let out = select_entries(&plan, &photos());
    assert_eq!(names(&out), vec!["photos/2024/a.jpg".to_string()]);
}

#[test]
fn plain_prefix_streams_everything() {
    let plan = plan_listing(Some("photos/"), false);
    assert_eq!(plan.list_prefix.as_deref(), Some("photos/"));
    assert_eq!(plan.pattern, None);
    assert!(plan.use_delimiter);
    assert_eq!(plan.mode, ListingMode::Stream);
    assert_eq!(select_entries(&plan, &photos()).len(), 3);

    let plan = plan_listing(None, true);
    assert_eq!(plan.list_prefix, None);
    assert!(!plan.use_delimiter);
    assert_eq!(plan.mode, ListingMode::Stream);
}

#[test]
fn empty_match_is_not_an_error() {
    let plan = plan_listing(Some("photos/1*/"), false);
    assert!(select_entries(&plan, &photos()).is_empty());
}

#[test]
fn depth_truncation_and_relative_names() {
    assert_eq!(truncate_to_depth("a/b/c.txt", 1), "a/");
    assert_eq!(truncate_to_depth("a/b/c.txt", 2), "a/b/");
    assert_eq!(truncate_to_depth("a/b/c.txt", 3), "a/b/c.txt/");
    assert_eq!(relative_name("photos/2024/a.jpg", &Some("photos/".to_string())), "2024/a.jpg");
    assert_eq!(relative_name("music/a.mp3", &Some("photos/".to_string())), "music/a.mp3");
    assert_eq!(relative_name("music/a.mp3", &None), "music/a.mp3");
}

#[test]
fn blob_directly_under_prefix_is_not_a_directory() {
    let plan = plan_listing(Some("photos/*/"), false);
    let items = vec![blob("photos/x.jpg", 1), blob("photos/2024/a.jpg", 2)];
    let out = select_entries(&plan, &items);
    assert_eq!(names(&out), vec!["photos/2024/".to_string()]);

    let plan = plan_listing(Some("*/"), false);
    assert_eq!(plan.list_prefix, None);
    assert_eq!(plan.mode, ListingMode::Reconstruct(1, true));
    let items = vec![blob("top.txt", 1), blob("a/b.txt", 2), blob("a/c/d.txt", 3), blob("e/", 0)];
    assert_eq!(names(&select_entries(&plan, &items)), vec!["a/".to_string(), "e/".to_string()]);
}

#[test]
fn deeper_directory_pattern() {
    let plan = plan_listing(Some("photos/*/sub*/"), false);
    assert_eq!(plan.pattern.as_deref(), Some("*/sub*/*"));
    assert_eq!(plan.mode, ListingMode::Reconstruct(2, true));
    let items = vec![
        blob("photos/2024/subdir/a.jpg", 1),
        blob("photos/2024/other/b.jpg", 1),
        blob("photos/2023/sub", 1),
    ];
    assert_eq!(names(&select_entries(&plan, &items)), vec!["photos/2024/subdir/".to_string()]);
}

#[test]
fn file_pattern_rebuilds_at_its_own_depth() {
    let plan = plan_listing(Some("photos/*/a.jpg"), false);
    assert_eq!(plan.mode, ListingMode::Reconstruct(2, false));
    assert!(select_entries(&plan, &vec![blob("photos/2024/a.jpg", 1)]).is_empty());
}
