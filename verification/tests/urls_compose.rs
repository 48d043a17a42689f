use json_exporter::config::{QueryParam, UrlParts};
use json_exporter::urls::{
    parse_base_url, parse_endpoint_url, EndpointUrlError, PathDsl, UrlError, UrlPatch,
};

fn empty_parts() -> UrlParts {
    UrlParts {
        paths: Vec::new(),
        params: Vec::new(),
    }
}

#[test]
fn test_path_dsl_parsing() {
    assert_eq!(
        PathDsl::parse(""),
        PathDsl {
            name: None,
            params: None,
        }
    );
    assert_eq!(
        PathDsl::parse("?"),
        PathDsl {
            name: None,
            params: Some(vec!()),
        }
    );
    assert_eq!(
        PathDsl::parse("nodes"),
        PathDsl {
            name: Some("nodes".to_string()),
            params: None,
        }
    );
    assert_eq!(
        PathDsl::parse("nodes?"),
        PathDsl {
            name: Some("nodes".to_string()),
            params: Some(vec!()),
        }
    );
    assert_eq!(
        PathDsl::parse("nodes&indices"),
        PathDsl {
            name: Some("nodes&indices".to_string()),
            params: None,
        }
    );
    assert_eq!(
        PathDsl::parse("?groups"),
        PathDsl {
            name: None,
            params: Some(vec!("groups".to_string())),
        }
    );
    assert_eq!(
        PathDsl::parse("nodes?groups"),
        PathDsl {
            name: Some("nodes".to_string()),
            params: Some(vec!("groups".to_string())),
        }
    );
    assert_eq!(
        PathDsl::parse("nodes?groups&shards"),
        PathDsl {
            name: Some("nodes".to_string()),
            params: Some(vec!("groups".to_string(), "shards".to_string())),
        }
    );
    assert_eq!(
        PathDsl::parse("nodes?groups&shards?segments"),
        PathDsl {
            name: Some("nodes".to_string()),
            params: Some(vec!("groups".to_string(), "shards?segments".to_string())),
        }
    );
}

#[test]
fn test_url_patch() {
    let bare_base_url = parse_base_url("http://example.com").expect("valid url");
    let root_base_url = parse_base_url("http://example.com/").expect("valid url");
    let file_base_url = parse_base_url("http://example.com/test").expect("valid url");
    let dir_base_url = parse_base_url("http://example.com/test/").expect("valid url");

    let mut url_patch = UrlPatch::default();
    let url_parts = empty_parts();
    url_patch
        .add_endpoint_url("/", &url_parts, false)
        .unwrap();

    assert_eq!(url_patch.apply(&bare_base_url), "http://example.com/?");
    assert_eq!(url_patch.apply(&root_base_url), "http://example.com/?");
    assert_eq!(url_patch.apply(&file_base_url), "http://example.com/test?");
    assert_eq!(url_patch.apply(&dir_base_url), "http://example.com/test?");

    url_patch
        .add_endpoint_url("/help", &url_parts, false)
        .unwrap();

    assert_eq!(url_patch.apply(&bare_base_url), "http://example.com/help?");
    assert_eq!(url_patch.apply(&root_base_url), "http://example.com/help?");
    assert_eq!(
        url_patch.apply(&file_base_url),
        "http://example.com/test/help?"
    );
    assert_eq!(
        url_patch.apply(&dir_base_url),
        "http://example.com/test/help?"
    );

    url_patch
        .add_endpoint_url("/?help=me", &url_parts, false)
        .unwrap();

    assert_eq!(
        url_patch.apply(&bare_base_url),
        "http://example.com/?help=me"
    );
    assert_eq!(
        url_patch.apply(&root_base_url),
        "http://example.com/?help=me"
    );
    assert_eq!(
        url_patch.apply(&file_base_url),
        "http://example.com/test?help=me"
    );
    assert_eq!(
        url_patch.apply(&dir_base_url),
        "http://example.com/test?help=me"
    );

    let paths = vec![
        ("all".to_string(), "/_all".to_string()),
        ("local".to_string(), "/_local".to_string()),
    ];
    let params = vec![
        (
            "global".to_string(),
            QueryParam {
                name: "global".to_string(),
                value: None,
            },
        ),
        (
            "help".to_string(),
            QueryParam {
                name: "help".to_string(),
                value: Some("me".to_string()),
            },
        ),
    ];
    let url_parts = UrlParts { paths, params };

    url_patch
        .add_endpoint_url("?help", &url_parts, false)
        .unwrap();

    assert_eq!(
        url_patch.apply(&bare_base_url),
        "http://example.com/?help=me"
    );
    assert_eq!(
        url_patch.apply(&root_base_url),
        "http://example.com/?help=me"
    );
    assert_eq!(
        url_patch.apply(&file_base_url),
        "http://example.com/test?help=me"
    );
    assert_eq!(
        url_patch.apply(&dir_base_url),
        "http://example.com/test?help=me"
    );

    url_patch
        .add_endpoint_url("all?global", &url_parts, false)
        .unwrap();

    assert_eq!(
        url_patch.apply(&bare_base_url),
        "http://example.com/_all?global="
    );
    assert_eq!(
        url_patch.apply(&root_base_url),
        "http://example.com/_all?global="
    );
    assert_eq!(
        url_patch.apply(&file_base_url),
        "http://example.com/test/_all?global="
    );
    assert_eq!(
        url_patch.apply(&dir_base_url),
        "http://example.com/test/_all?global="
    );

    url_patch
        .add_endpoint_url("local", &url_parts, false)
        .unwrap();

    assert_eq!(
        url_patch.apply(&bare_base_url),
        "http://example.com/_local?global="
    );
    assert_eq!(
        url_patch.apply(&root_base_url),
        "http://example.com/_local?global="
    );
    assert_eq!(
        url_patch.apply(&file_base_url),
        "http://example.com/test/_local?global="
    );
    assert_eq!(
        url_patch.apply(&dir_base_url),
        "http://example.com/test/_local?global="
    );

    url_patch
        .add_endpoint_url("local?", &url_parts, false)
        .unwrap();

    assert_eq!(url_patch.apply(&bare_base_url), "http://example.com/_local?");
    assert_eq!(url_patch.apply(&root_base_url), "http://example.com/_local?");
    assert_eq!(
        url_patch.apply(&file_base_url),
        "http://example.com/test/_local?"
    );
    assert_eq!(
        url_patch.apply(&dir_base_url),
        "http://example.com/test/_local?"
    );
}

#[test]
fn test_url_patch_errors() {
    let url_parts = empty_parts();
    let mut url_patch = UrlPatch::default();
    assert_eq!(
        url_patch.add_endpoint_url("bogus", &url_parts, true),
        Err(UrlError::UnknownPathName)
    );
    assert_eq!(
        url_patch.add_endpoint_url("?bogus", &url_parts, false),
        Err(UrlError::UnknownParamName)
    );
    assert_eq!(
        url_patch.add_endpoint_url("", &url_parts, true),
        Err(UrlError::PathRequired)
    );
}

#[test]
fn test_compose_is_pure() {
    let base = parse_base_url("http://example.com/test").expect("valid url");
    let mut url_patch = UrlPatch::default();
    url_patch.add_path_with_query("stats?level=all");
    let first = url_patch.apply(&base);
    let second = url_patch.apply(&base);
    assert_eq!(first, second);
    assert_eq!(first, "http://example.com/test/stats?level=all");
}

#[test]
fn test_parse_endpoint_url() {
    assert_eq!(
        parse_endpoint_url("health:/_cluster/health"),
        Ok(("health".to_string(), "/_cluster/health".to_string()))
    );
    assert_eq!(
        parse_endpoint_url(""),
        Err(EndpointUrlError::MissingEndpointId)
    );
    assert_eq!(
        parse_endpoint_url("health"),
        Err(EndpointUrlError::MissingEndpointUrl)
    );
}

#[test]
fn test_parse_base_url_rejects() {
    assert!(parse_base_url("http://example.com/x?q=1").is_none());
    assert!(parse_base_url("not a url").is_none());
    assert!(parse_base_url("http://example.com:9200").is_some());
}
