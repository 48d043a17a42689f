use json_exporter::config::{Config, Endpoint, Metric, MetricType, UrlParts};
use json_exporter::prepare::ConfigError;
use json_exporter::urls::parse_base_url;
use json_exporter::filters::{
    create_filter, ArgsError, Divide, FilterCreateError, Multiply, PreparedFilter,
};
use json_exporter::interop::parse_json;
use json_exporter::json::JsonValue;
use json_exporter::service::{cache_action, CacheAction, CachedMetrics, ProcessMetricsError};
use json_exporter::text::{escape_label_value, should_escape_label_value, u64_to_string};

#[test]
fn test_escape_label_value_pieces() {
    assert_eq!(escape_label_value("plain"), "plain");
    assert_eq!(escape_label_value("a\"b"), "a\\\"b");
    assert_eq!(escape_label_value("a\\b"), "a\\\\b");
    assert_eq!(escape_label_value("a\nb"), "a\\nb");
    assert_eq!(should_escape_label_value("plain"), 0);
    assert_eq!(should_escape_label_value("a\"b\\c\nd"), 3);
}

#[test]
fn test_u64_rendering() {
    assert_eq!(u64_to_string(0), "0");
    assert_eq!(u64_to_string(42), "42");
    assert_eq!(u64_to_string(18446744073709551615), "18446744073709551615");
}

#[test]
fn test_parse_json_shapes() {
    let v = parse_json(r#"{"a": [1, true, "x"], "b": 1.5}"#).expect("valid json");
    match v {
        JsonValue::Obj(entries) => {
            assert_eq!(entries.len(), 2);
            assert_eq!(entries[0].name, "a");
            match &entries[0].value {
                JsonValue::Arr(items) => {
                    assert_eq!(items.len(), 3);
                    assert!(matches!(&items[0], JsonValue::Num(t) if t == "1"));
                    assert!(matches!(&items[1], JsonValue::Bool(true)));
                    assert!(matches!(&items[2], JsonValue::Str(s) if s == "x"));
                },
                _ => panic!("expected array"),
            }
            assert!(matches!(&entries[1].value, JsonValue::Num(t) if t == "1.5"));
        },
        _ => panic!("expected object"),
    }
    assert!(parse_json("{invalid").is_none());
}

#[test]
fn test_filter_registry() {
    let two = parse_json("2").unwrap();
    assert!(matches!(
        create_filter("mul", &two),
        Ok(PreparedFilter::Multiply(_))
    ));
    assert!(matches!(
        create_filter("multiply", &two),
        Ok(PreparedFilter::Multiply(_))
    ));
    assert!(matches!(
        create_filter("div", &two),
        Ok(PreparedFilter::Divide(_))
    ));
    assert!(matches!(
        create_filter("divide", &two),
        Ok(PreparedFilter::Divide(_))
    ));
    assert!(matches!(
        create_filter("const", &two),
        Ok(PreparedFilter::Const(_))
    ));
    assert!(matches!(
        create_filter("eq", &two),
        Ok(PreparedFilter::Equal(_))
    ));
    assert_eq!(
        create_filter("bogus", &two).err(),
        Some(FilterCreateError::UnknownFilter)
    );
}

#[test]
fn test_filter_argument_forms() {
    let bare = parse_json("0.5").unwrap();
    let listed = parse_json("[0.5]").unwrap();
    let keyed = parse_json(r#"{"factor": 0.5}"#).unwrap();
    let wrong_key = parse_json(r#"{"divisor": 0.5}"#).unwrap();
    let too_many = parse_json(r#"{"factor": 0.5, "extra": 1}"#).unwrap();
    assert!(Multiply::create(&bare).is_ok());
    assert!(Multiply::create(&listed).is_ok());
    assert!(Multiply::create(&keyed).is_ok());
    assert_eq!(
        Multiply::create(&wrong_key).err(),
        Some(ArgsError::InvalidArgument)
    );
    assert_eq!(
        Multiply::create(&too_many).err(),
        Some(ArgsError::TooManyArguments)
    );
    assert!(Divide::create(&wrong_key).is_ok());
}

#[test]
fn test_mul_filter_value() {
    let factor = parse_json("0.001").unwrap();
    let filter = create_filter("mul", &factor).expect("filter");
    let input = parse_json("112").unwrap();
    let out = filter.apply(&input).expect("apply");
    assert!(matches!(out, JsonValue::Num(t) if t == "0.112"));
    let bad = filter.apply(&parse_json("\"green\"").unwrap());
    assert!(bad.is_err());
}

#[test]
fn test_metric_type_keyword() {
    assert_eq!(MetricType::Gauge.keyword(), "gauge");
    assert_eq!(MetricType::Counter.keyword(), "counter");
    assert_eq!(MetricType::Untyped.keyword(), "untyped");
}

#[test]
fn test_cache_lifecycle() {
    let mut cache = CachedMetrics::new(5000, 1000);
    assert!(!cache.is_initialized());
    assert!(!cache.is_fresh(1000));
    cache.buf.extend_from_slice(b"body");
    cache.set_ok(2000);
    assert!(cache.is_initialized());
    assert!(cache.is_fresh(2001));
    assert!(cache.is_fresh(6999));
    assert!(!cache.is_fresh(7000));
    cache.set_error(8000, ProcessMetricsError::Timeout("late".to_string()));
    assert!(cache.is_initialized());
    assert_eq!(cache.expired_at, 13000);
    match &cache.err {
        Some(e) => assert_eq!(e.status_code(), 504),
        None => panic!("error expected"),
    }
}

#[test]
fn test_cache_action_discipline() {
    assert_eq!(cache_action(true, true), CacheAction::ServeCached);
    assert_eq!(cache_action(true, false), CacheAction::ServeCached);
    assert_eq!(cache_action(false, true), CacheAction::Refresh);
    assert_eq!(cache_action(false, false), CacheAction::ServeStale);
}

#[test]
fn test_error_status_codes() {
    assert_eq!(
        ProcessMetricsError::Timeout("t".to_string()).status_code(),
        504
    );
    assert_eq!(
        ProcessMetricsError::Fetch("refused".to_string()).status_code(),
        500
    );
    assert_eq!(
        ProcessMetricsError::Json("bad".to_string()).status_code(),
        500
    );
    assert_eq!(ProcessMetricsError::CacheNotInitialized.status_code(), 500);
}

#[test]
fn test_prepare_endpoint_and_overrides() {
    let base = parse_base_url("http://example.com:9200").expect("base url");
    let config = Config {
        namespace: Some("es".to_string()),
        global_labels: Vec::new(),
        endpoints: vec![Endpoint {
            id: Some("health".to_string()),
            url: "/_cluster/health".to_string(),
            url_parts: UrlParts {
                paths: Vec::new(),
                params: Vec::new(),
            },
            name: "health".to_string(),
            metrics: vec![Metric::from_path("status")],
        }],
    };
    let prepared = config.prepare(&base, &Vec::new()).expect("prepare");
    assert_eq!(prepared.endpoints.len(), 1);
    assert_eq!(
        prepared.endpoints[0].url,
        "http://example.com:9200/_cluster/health?"
    );

    let overrides = vec![("health".to_string(), "/alt?x=1".to_string())];
    let prepared2 = config.prepare(&base, &overrides).expect("prepare");
    assert_eq!(prepared2.endpoints[0].url, "http://example.com:9200/alt?x=1");

    let unknown = Config {
        namespace: None,
        global_labels: Vec::new(),
        endpoints: vec![Endpoint {
            id: None,
            url: "bogus".to_string(),
            url_parts: UrlParts {
                paths: Vec::new(),
                params: Vec::new(),
            },
            name: String::new(),
            metrics: Vec::new(),
        }],
    };
    assert_eq!(
        unknown.prepare(&base, &Vec::new()).err(),
        Some(ConfigError::UnknownPathName)
    );
}
