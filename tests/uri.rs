use azst::uri::{format_azure_uri, is_azure_uri, is_storage_account_name, parse_azure_uri, UriError};

#[test]
fn test_parse_azure_uri_new_format() {
    let (account, container, path) =
        parse_azure_uri("az://myaccount/mycontainer/path/to/file.txt").unwrap();
    assert_eq!(account, Some("myaccount".to_string()));
    assert_eq!(container, "mycontainer");
    assert_eq!(path, Some("path/to/file.txt".to_string()));

    let (account, container, path) = parse_azure_uri("az://myaccount/mycontainer/").unwrap();
    assert_eq!(account, Some("myaccount".to_string()));
    assert_eq!(container, "mycontainer");
    assert_eq!(path, None);

    let (account, container, path) = parse_azure_uri("az://myaccount/mycontainer").unwrap();
    assert_eq!(account, Some("myaccount".to_string()));
    assert_eq!(container, "mycontainer");
    assert_eq!(path, None);

    let (account, container, _) =
        parse_azure_uri("az://samaindevoptimus/dev/uploads/file.txt").unwrap();
    assert_eq!(account, Some("samaindevoptimus".to_string()));
    assert_eq!(container, "dev");

    let (account, container, path) = parse_azure_uri("az://samaindevoptimus").unwrap();
    assert_eq!(account, Some("samaindevoptimus".to_string()));
    assert_eq!(container, "");
    assert_eq!(path, None);

    let (account, container, path) = parse_azure_uri("az://samaindevoptimus/").unwrap();
    assert_eq!(account, Some("samaindevoptimus".to_string()));
    assert_eq!(container, "");
    assert_eq!(path, None);
}

#[test]
fn test_parse_azure_uri_legacy_format() {
    let (account, container, path) =
        parse_azure_uri("az://MyContainer/path/to/file.txt").unwrap();
    assert_eq!(account, None);
    assert_eq!(container, "MyContainer");
    assert_eq!(path, Some("path/to/file.txt".to_string()));

    let (account, container, path) = parse_azure_uri("az://MyContainer/").unwrap();
    assert_eq!(account, None);
    assert_eq!(container, "MyContainer");
    assert_eq!(path, None);
}

#[test]
fn test_parse_azure_uri_invalid() {
    assert!(parse_azure_uri("invalid://uri").is_err());
    assert!(parse_azure_uri("az://").is_err());
}

#[test]
fn parse_errors_name_the_cause() {
    assert_eq!(parse_azure_uri("invalid://uri"), Err(UriError::MissingScheme));
    assert_eq!(parse_azure_uri("az:/x"), Err(UriError::MissingScheme));
    assert_eq!(parse_azure_uri("az://"), Err(UriError::MissingName));
    assert_eq!(parse_azure_uri("az:///container/x"), Err(UriError::MissingName));
    assert_eq!(parse_azure_uri(""), Err(UriError::MissingScheme));
    assert_eq!(parse_azure_uri("az://myaccount//x"), Err(UriError::MissingContainer));
    assert_eq!(
        parse_azure_uri("az://myaccount//"),
        Ok((Some("myaccount".to_string()), String::new(), None))
    );
}

#[test]
fn test_is_storage_account_name() {
    assert!(is_storage_account_name("myaccount"));
    assert!(is_storage_account_name("account123"));
    assert!(is_storage_account_name("samaindevoptimus"));
    assert!(!is_storage_account_name("MyAccount"));
    assert!(!is_storage_account_name("my_account"));
    assert!(!is_storage_account_name("ab"));
    assert!(!is_storage_account_name("a".repeat(25).as_str()));
}

#[test]
fn test_is_azure_uri() {
    assert!(is_azure_uri("az://container/path"));
    assert!(!is_azure_uri("/local/path"));
    assert!(!is_azure_uri("gs://bucket/path"));
}

#[test]
fn test_parse_azure_uri_edge_cases() {
    let (account, container, path) = parse_azure_uri("az://account/container//").unwrap();
    assert_eq!(account, Some("account".to_string()));
    assert_eq!(container, "container");
    assert_eq!(path, Some("/".to_string()));

    let (account, container, path) =
        parse_azure_uri("az://myaccount/mycontainer/a/b/c/d/e/file.txt").unwrap();
    assert_eq!(account, Some("myaccount".to_string()));
    assert_eq!(container, "mycontainer");
    assert_eq!(path, Some("a/b/c/d/e/file.txt".to_string()));

    let (account, container, path) =
        parse_azure_uri("az://myaccount/mycontainer/file-name_2024.txt").unwrap();
    assert_eq!(account, Some("myaccount".to_string()));
    assert_eq!(container, "mycontainer");
    assert_eq!(path, Some("file-name_2024.txt".to_string()));
}

#[test]
fn test_is_storage_account_name_edge_cases() {
    assert!(is_storage_account_name("abc"));
    assert!(is_storage_account_name("abcdefghij1234567890abcd"));
    assert!(!is_storage_account_name("ab"));
    assert!(!is_storage_account_name("abcdefghij1234567890abcde"));

    assert!(is_storage_account_name("abc123"));
    assert!(is_storage_account_name("123abc"));
    assert!(is_storage_account_name("a1b2c3"));

    assert!(!is_storage_account_name("abc-123"));
    assert!(!is_storage_account_name("abc.123"));
    assert!(!is_storage_account_name("abc 123"));
    assert!(!is_storage_account_name("ABC"));
}

#[test]
fn short_first_segment_is_a_legacy_container() {
    let (account, container, path) = parse_azure_uri("az://ab/container/x").unwrap();
    assert_eq!(account, None);
    assert_eq!(container, "ab");
    assert_eq!(path, Some("container/x".to_string()));
}

#[test]
fn formatted_parts_resolve_back() {
    let cases: Vec<(Option<&str>, &str, Option<&str>)> = vec![
        (Some("myaccount"), "My_Container", Some("a/b.txt")),
        (Some("myaccount"), "data-2024", None),
        (Some("myaccount"), "", None),
        (None, "My-Container", Some("x/y/z")),
        (None, "Legacy_Box", None),
    ];
    for (account, container, path) in cases {
        let text = format_azure_uri(account, container, path);
        let (a, c, p) = parse_azure_uri(&text).unwrap();
        assert_eq!(a.as_deref(), account);
        assert_eq!(c, container);
        assert_eq!(p.as_deref(), path);
    }
    assert_eq!(format_azure_uri(Some("acct"), "", None), "az://acct");
    assert_eq!(format_azure_uri(Some("acct"), "c", Some("p/q")), "az://acct/c/p/q");
    assert_eq!(format_azure_uri(None, "C", Some("p")), "az://C/p");
}
