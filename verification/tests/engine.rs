use json_exporter::config::{Filter, Label, Metric, MetricType};
use json_exporter::convert::{Level, ResolvedMetric};
use json_exporter::interop::parse_json;
use json_exporter::json::JsonValue;
use json_exporter::prepare::PreparedMetrics;

fn jvalue(v: &serde_json::Value) -> JsonValue {
    parse_json(&v.to_string()).expect("json value")
}

fn metric_from_value(v: &serde_json::Value) -> Metric {
    if let Some(s) = v.as_str() {
        return Metric {
            path: s.to_string(),
            name: None,
            metric_type: None,
            modifiers: Vec::new(),
            labels: Vec::new(),
            metrics: Vec::new(),
        };
    }
    let m = v.as_object().expect("metric mapping");
    Metric {
        path: m
            .get("path")
            .and_then(|x| x.as_str())
            .unwrap_or("")
            .to_string(),
        name: m
            .get("name")
            .and_then(|x| x.as_str())
            .map(|s| s.to_string()),
        metric_type: m.get("type").and_then(|x| x.as_str()).map(|s| match s {
            "gauge" => MetricType::Gauge,
            "counter" => MetricType::Counter,
            _ => MetricType::Untyped,
        }),
        modifiers: m
            .get("modifiers")
            .map(|arr| {
                arr.as_array()
                    .expect("modifiers list")
                    .iter()
                    .map(|f| {
                        let fo = f.as_object().expect("filter mapping");
                        Filter {
                            name: fo
                                .get("name")
                                .and_then(|x| x.as_str())
                                .expect("filter name")
                                .to_string(),
                            args: jvalue(fo.get("args").unwrap_or(&serde_json::Value::Null)),
                        }
                    })
                    .collect()
            })
            .unwrap_or_default(),
        labels: m
            .get("labels")
            .map(|arr| {
                arr.as_array()
                    .expect("labels list")
                    .iter()
                    .map(|l| {
                        let lo = l.as_object().expect("label mapping");
                        Label {
                            name: lo
                                .get("name")
                                .and_then(|x| x.as_str())
                                .expect("label name")
                                .to_string(),
                            value: lo
                                .get("value")
                                .map(|x| match x.as_str() {
                                    Some(s) => s.to_string(),
                                    None => x.to_string(),
                                })
                                .expect("label value"),
                        }
                    })
                    .collect()
            })
            .unwrap_or_default(),
        metrics: m
            .get("metrics")
            .map(|arr| {
                arr.as_array()
                    .expect("metrics list")
                    .iter()
                    .map(metric_from_value)
                    .collect()
            })
            .unwrap_or_default(),
    }
}

fn metrics_from_yaml(config: &str) -> Vec<Metric> {
    let doc: serde_json::Value = serde_yaml::from_str(config).expect("parse config");
    doc.as_object()
        .expect("config mapping")
        .get("metrics")
        .expect("metrics key")
        .as_array()
        .expect("metrics list")
        .iter()
        .map(metric_from_value)
        .collect()
}

fn process_with_config(config: &str, data: &str) -> (String, Vec<(Level, String)>) {
    let metrics = metrics_from_yaml(config);
    let prepared_metrics = PreparedMetrics::create_from(&metrics, None).expect("prepare config");
    let json = parse_json(data).expect("parse json");

    let ctx = ResolvedMetric::new_root(String::new(), Vec::new());
    let mut buf: Vec<u8> = Vec::new();
    let warns = prepared_metrics.process(&ctx, &json, &mut buf);
    (String::from_utf8(buf).expect("utf8 string"), warns)
}

const DOCS_STATS: &'static str = r#"
{
  "_all": {
    "primaries": {
      "docs": {
        "count": 167172864,
        "deleted": 1345566
      }
    },
    "total": {
      "docs": {
        "count": 334345728,
        "deleted": 2825688
      }
    }
  }
}
"#;

#[test]
fn test_metric_name_from_selector() {
    let config = "metrics:\n- path: _all.total\n  metrics:\n  - path: docs.*\n";
    let (metrics, warns) = process_with_config(config, DOCS_STATS);
    assert_eq!(
        metrics,
        "# TYPE _all_total_docs_count gauge\n\
         _all_total_docs_count 334345728\n\
         # TYPE _all_total_docs_deleted gauge\n\
         _all_total_docs_deleted 2825688\n"
    );
    assert_eq!(warns, vec!());
}

#[test]
fn test_empty_metric_name() {
    let config = "metrics:\n- path: _all\n  name: ''\n  metrics:\n  - path: total.docs.*\n";
    let (metrics, warns) = process_with_config(config, DOCS_STATS);
    assert_eq!(
        metrics,
        "# TYPE total_docs_count gauge\n\
         total_docs_count 334345728\n\
         # TYPE total_docs_deleted gauge\n\
         total_docs_deleted 2825688\n"
    );
    assert_eq!(warns, vec!());
}

#[test]
fn test_path_placeholder() {
    let config = "metrics:\n- path: _all.*.docs.*\n  name: docs_${3}\n  labels:\n  - name: type\n    value: $1\n";
    let (metrics, warns) = process_with_config(config, DOCS_STATS);
    assert_eq!(
        metrics,
        "# TYPE docs_count gauge\n\
         docs_count{type=\"primaries\"} 167172864\n\
         # TYPE docs_deleted gauge\n\
         docs_deleted{type=\"primaries\"} 1345566\n\
         docs_count{type=\"total\"} 334345728\n\
         docs_deleted{type=\"total\"} 2825688\n"
    );
    assert_eq!(warns, vec!());
}

#[test]
fn test_invalid_placeholder() {
    let config = "metrics:\n- path: _all.total.docs.*\n  name: docs_${3}\n  labels:\n  - name: type\n    value: $1\n- path: _all.primaries.docs.*\n  name: docs_${3}\n  labels:\n  - name: type\n    value: $4\n";
    let (metrics, warns) = process_with_config(config, DOCS_STATS);
    assert_eq!(
        metrics,
        "# TYPE docs_count gauge\n\
         docs_count{type=\"total\"} 334345728\n\
         # TYPE docs_deleted gauge\n\
         docs_deleted{type=\"total\"} 2825688\n"
    );
    assert_eq!(
        warns,
        vec!(
            (Level::Warn, "Invalid path index: 4".to_string()),
            (Level::Warn, "Invalid path index: 4".to_string()),
        )
    );
}

const CLUSTER_HEALTH_STATS: &'static str = r#"
{
  "cluster_name": "test-cluster",
  "status": "green",
  "timed_out": false,
  "number_of_nodes": 3,
  "number_of_data_nodes": 3,
  "active_primary_shards": 680,
  "active_shards": 1023,
  "relocating_shards": 0,
  "initializing_shards": 0,
  "unassigned_shards": 0,
  "delayed_unassigned_shards": 0,
  "number_of_pending_tasks": 0,
  "number_of_in_flight_fetch": 0,
  "task_max_waiting_in_queue_millis": 0,
  "active_shards_percent_as_number": 100.0
}
"#;

#[test]
fn test_selecting_root_node() {
    let config = "metrics:\n- path: ''\n  labels:\n  - name: cluster\n    value: ${.cluster_name}\n  metrics:\n  - path: number_of_nodes\n";
    let (metrics, warns) = process_with_config(config, CLUSTER_HEALTH_STATS);
    assert_eq!(
        metrics,
        "# TYPE number_of_nodes gauge\n\
         number_of_nodes{cluster=\"test-cluster\"} 3\n"
    );
    assert_eq!(warns, vec!());
}

#[test]
fn test_boolean_value() {
    let config = "metrics:\n- path: timed_out\n";
    let (metrics, warns) = process_with_config(config, CLUSTER_HEALTH_STATS);
    assert_eq!(metrics, "# TYPE timed_out gauge\ntimed_out 0\n");
    assert_eq!(warns, vec!());
}

#[test]
fn test_string_value() {
    let config = "metrics:\n- path: status\n";
    let (metrics, warns) = process_with_config(config, CLUSTER_HEALTH_STATS);
    assert_eq!(metrics, "# TYPE status untyped\nstatus green\n");
    assert_eq!(warns, vec!());
}

#[test]
fn test_simplified_metric() {
    let config = "metrics:\n- active_shards\n- unassigned_shards\n";
    let (metrics, warns) = process_with_config(config, CLUSTER_HEALTH_STATS);
    assert_eq!(
        metrics,
        "# TYPE active_shards gauge\n\
         active_shards 1023\n\
         # TYPE unassigned_shards gauge\n\
         unassigned_shards 0\n"
    );
    assert_eq!(warns, vec!());
}

const INDICES_STATS: &'static str = r#"
{
  "_shards": {
    "total": 1023,
    "successful": 1023,
    "failed": 0
  },
  "indices": {
    "catalog": {
      "shards": {
        "0": [
          {
            "routing": {
              "primary": false,
              "node": "kVLufQsXRL-q9l5KN42RIQ"
            },
            "docs": {
              "count": 71317,
              "deleted": 7724
            },
            "search": {
              "query_total": 8,
              "query_time_in_millis": 385
            }
          },
          {
            "routing": {
              "primary": true,
              "node": "g4x8KHe2TS2m7gxlPhwk8g"
            },
            "docs": {
              "count": 71317,
              "deleted": 9410
            },
            "search": {
              "query_total": 9,
              "query_time_in_millis": 902
            }
          }
        ],
        "1": [
          {
            "routing": {
              "primary": false,
              "node": "kVLufQsXRL-q9l5KN42RIQ"
            },
            "docs": {
              "count": 7471,
              "deleted": 4
            },
            "search": {
              "query_total": 6,
              "query_time_in_millis": 533
            }
          },
          {
            "routing": {
              "primary": true,
              "node": "g4x8KHe2TS2m7gxlPhwk8g"
            },
            "docs": {
              "count": 7471,
              "deleted": 4
            },
            "search": {
              "query_total": 9,
              "query_time_in_millis": 351
            }
          }
        ]
      }
    }
  }
}
"#;

#[test]
fn test_indices_docs() {
    let config = "metrics:\n- path: _shards.*\n  name: shards_$1\n- path: indices.*\n  name: indices\n  labels:\n  - name: index\n    value: $1\n  metrics:\n  - path: shards.*.*\n    name: shards\n    labels:\n    - name: shard\n      value: $1\n    - name: node\n      value: ${.routing.node}\n    metrics:\n    - path: docs.*\n      name: docs_$1\n";
    let (metrics, warns) = process_with_config(config, INDICES_STATS);
    assert_eq!(
        metrics,
        "# TYPE shards_failed gauge\n\
         shards_failed 0\n\
         # TYPE shards_successful gauge\n\
         shards_successful 1023\n\
         # TYPE shards_total gauge\n\
         shards_total 1023\n\
         # TYPE indices_shards_docs_count gauge\n\
         indices_shards_docs_count{index=\"catalog\",node=\"kVLufQsXRL-q9l5KN42RIQ\",shard=\"0\"} 71317\n\
         # TYPE indices_shards_docs_deleted gauge\n\
         indices_shards_docs_deleted{index=\"catalog\",node=\"kVLufQsXRL-q9l5KN42RIQ\",shard=\"0\"} 7724\n\
         indices_shards_docs_count{index=\"catalog\",node=\"g4x8KHe2TS2m7gxlPhwk8g\",shard=\"0\"} 71317\n\
         indices_shards_docs_deleted{index=\"catalog\",node=\"g4x8KHe2TS2m7gxlPhwk8g\",shard=\"0\"} 9410\n\
         indices_shards_docs_count{index=\"catalog\",node=\"kVLufQsXRL-q9l5KN42RIQ\",shard=\"1\"} 7471\n\
         indices_shards_docs_deleted{index=\"catalog\",node=\"kVLufQsXRL-q9l5KN42RIQ\",shard=\"1\"} 4\n\
         indices_shards_docs_count{index=\"catalog\",node=\"g4x8KHe2TS2m7gxlPhwk8g\",shard=\"1\"} 7471\n\
         indices_shards_docs_deleted{index=\"catalog\",node=\"g4x8KHe2TS2m7gxlPhwk8g\",shard=\"1\"} 4\n"
    );
    assert_eq!(warns, vec!());
}

#[test]
fn test_indices_search() {
    let config = "metrics:\n- path: indices.*\n  name: indices\n  labels:\n  - name: index\n    value: $1\n  metrics:\n  - path: shards.*.*\n    name: shards\n    labels:\n    - name: shard\n      value: $1\n    - name: node\n      value: ${.routing.node}\n    metrics:\n    - path: search.*\n      type: counter\n      name: search_$1\n";
    let (metrics, warns) = process_with_config(config, INDICES_STATS);
    assert_eq!(
        metrics,
        "# TYPE indices_shards_search_query_time_in_millis counter\n\
         indices_shards_search_query_time_in_millis{index=\"catalog\",node=\"kVLufQsXRL-q9l5KN42RIQ\",shard=\"0\"} 385\n\
         # TYPE indices_shards_search_query_total counter\n\
         indices_shards_search_query_total{index=\"catalog\",node=\"kVLufQsXRL-q9l5KN42RIQ\",shard=\"0\"} 8\n\
         indices_shards_search_query_time_in_millis{index=\"catalog\",node=\"g4x8KHe2TS2m7gxlPhwk8g\",shard=\"0\"} 902\n\
         indices_shards_search_query_total{index=\"catalog\",node=\"g4x8KHe2TS2m7gxlPhwk8g\",shard=\"0\"} 9\n\
         indices_shards_search_query_time_in_millis{index=\"catalog\",node=\"kVLufQsXRL-q9l5KN42RIQ\",shard=\"1\"} 533\n\
         indices_shards_search_query_total{index=\"catalog\",node=\"kVLufQsXRL-q9l5KN42RIQ\",shard=\"1\"} 6\n\
         indices_shards_search_query_time_in_millis{index=\"catalog\",node=\"g4x8KHe2TS2m7gxlPhwk8g\",shard=\"1\"} 351\n\
         indices_shards_search_query_total{index=\"catalog\",node=\"g4x8KHe2TS2m7gxlPhwk8g\",shard=\"1\"} 9\n"
    );
    assert_eq!(warns, vec!());
}

#[test]
fn test_multiply_filter() {
    let config = "metrics:\n- path: query_time_in_millis\n  name: query_time_in_seconds\n  modifiers:\n  - name: mul\n    args: 0.001\n- path: index_time_in_millis\n  name: index_time_in_seconds\n  modifiers:\n  - name: div\n    args: 1000\n";
    let json = r#"
{
  "query_time_in_millis": 112,
  "index_time_in_millis": 23.4
}
"#;
    let (metrics, warns) = process_with_config(config, json);
    assert_eq!(
        metrics,
        "# TYPE query_time_in_seconds gauge\n\
         query_time_in_seconds 0.112\n\
         # TYPE index_time_in_seconds gauge\n\
         index_time_in_seconds 0.023399999999999997\n"
    );
    assert_eq!(warns, vec!());
}

#[test]
fn test_type_conflict_drops_sample() {
    let config = "metrics:\n- path: a\n  name: same_name\n  type: counter\n- path: b\n  name: same_name\n  type: gauge\n";
    let (metrics, warns) = process_with_config(config, r#"{"a": 1, "b": 2}"#);
    assert_eq!(metrics, "# TYPE same_name counter\nsame_name 1\n");
    assert_eq!(
        warns,
        vec!((Level::Warn, "Error when dumping metric: same_name".to_string()))
    );
}

#[test]
fn test_label_inheritance_override() {
    let config = "metrics:\n- path: ''\n  labels:\n  - name: env\n    value: prod\n  - name: zone\n    value: a\n  metrics:\n  - path: value\n    name: thing\n    labels:\n    - name: zone\n      value: b\n";
    let (metrics, warns) = process_with_config(config, r#"{"value": 7}"#);
    assert_eq!(
        metrics,
        "# TYPE thing gauge\nthing{env=\"prod\",zone=\"b\"} 7\n"
    );
    assert_eq!(warns, vec!());
}

#[test]
fn test_label_value_escaping() {
    let config = "metrics:\n- path: ''\n  labels:\n  - name: note\n    value: ${.note}\n  metrics:\n  - path: value\n    name: thing\n";
    let (metrics, warns) = process_with_config(
        config,
        "{\"value\": 7, \"note\": \"say \\\"hi\\\" \\\\ now\"}",
    );
    assert_eq!(
        metrics,
        "# TYPE thing gauge\nthing{note=\"say \\\"hi\\\" \\\\ now\"} 7\n"
    );
    assert_eq!(warns, vec!());
}

#[test]
fn test_filter_type_mismatch_warns() {
    let config = "metrics:\n- path: status\n  modifiers:\n  - name: mul\n    args: 2\n";
    let (metrics, warns) = process_with_config(config, r#"{"status": "green"}"#);
    assert_eq!(metrics, "");
    assert_eq!(
        warns,
        vec!((
            Level::Warn,
            "Error when applying filter: Invalid type".to_string()
        ))
    );
}

#[test]
fn test_const_and_eq_filters() {
    let config = "metrics:\n- path: status\n  name: status_is_green\n  modifiers:\n  - name: eq\n    args: green\n- path: status\n  name: fixed\n  modifiers:\n  - name: const\n    args: 42\n";
    let (metrics, warns) = process_with_config(config, r#"{"status": "green"}"#);
    assert_eq!(
        metrics,
        "# TYPE status_is_green gauge\n\
         status_is_green 1\n\
         # TYPE fixed gauge\n\
         fixed 42\n"
    );
    assert_eq!(warns, vec!());
}

#[test]
fn test_namespace_prefix_and_global_labels() {
    let metrics = metrics_from_yaml("metrics:\n- path: number_of_nodes\n");
    let prepared = PreparedMetrics::create_from(&metrics, None).expect("prepare");
    let json = parse_json(r#"{"number_of_nodes": 3}"#).expect("json");
    let root = ResolvedMetric::new_root(
        "es".to_string(),
        vec![("cluster".to_string(), "main".to_string())],
    );
    let mut buf: Vec<u8> = Vec::new();
    let warns = prepared.process(&root, &json, &mut buf);
    assert_eq!(
        String::from_utf8(buf).unwrap(),
        "# TYPE es_number_of_nodes gauge\nes_number_of_nodes{cluster=\"main\"} 3\n"
    );
    assert_eq!(warns, vec!());
}
