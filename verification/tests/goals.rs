use dokono::cli::OutputFormat;
use dokono::goals::{emit, Emitted, JsonSummary, Summary};
use dokono::matcher::AffectedTest;
use dokono::path::PathBuf;
use serde_json::Value;

fn summary_with(affected_count: usize, total: usize) -> Summary {
    let mut affected = Vec::new();
    for i in 0..affected_count {
        affected.push(AffectedTest {
            package: "p".into(),
            file: PathBuf::parse(&format!("/ws/p/src/lib.rs:{i}")),
            name: format!("t{i}"),
            full_path: format!("p::t{i}"),
            test_path: format!("t{i}"),
            line: 1,
        });
    }
    Summary {
        pr: None,
        base: "master".into(),
        head: "feat".into(),
        affected,
        total_tests: total,
    }
}

fn object(s: &Summary) -> JsonSummary {
    match emit(OutputFormat::Json, s, &PathBuf::parse("/ws")) {
        Emitted::Object(o) => o,
        Emitted::Text(t) => panic!("{t}"),
    }
}

fn to_value(o: &JsonSummary) -> Value {
    let mut stats = serde_json::Map::new();
    stats.insert("total_tests".into(), Value::from(o.stats.total_tests));
    stats.insert("affected_tests".into(), Value::from(o.stats.affected_tests));
    let tests: Vec<Value> = o
        .affected_tests
        .iter()
        .map(|t| {
            let mut m = serde_json::Map::new();
            m.insert("package".into(), Value::from(t.package.as_str()));
            m.insert("file".into(), Value::from(t.file.as_str()));
            m.insert("name".into(), Value::from(t.name.as_str()));
            m.insert("line".into(), Value::from(t.line));
            Value::Object(m)
        })
        .collect();
    let mut m = serde_json::Map::new();
    m.insert("pr".into(), o.pr.map(Value::from).unwrap_or(Value::Null));
    m.insert("base".into(), Value::from(o.base.as_str()));
    m.insert("head".into(), Value::from(o.head.as_str()));
    m.insert("affected_tests".into(), Value::Array(tests));
    m.insert("stats".into(), Value::Object(stats));
    Value::Object(m)
}

#[test]
fn stats_counts_match() {
    let s = summary_with(3, 1000);
    let st = object(&s).stats;
    assert_eq!(st.total_tests, 1000);
    assert_eq!(st.affected_tests, 3);
}

#[test]
fn json_roundtrip_parses() {
    let s = summary_with(2, 100);
    let json = serde_json::to_string(&to_value(&object(&s))).unwrap();
    let v: Value = serde_json::from_str(&json).unwrap();
    assert!(v.get("schema_version").is_none());
    assert!(v.get("status").is_none());
    assert!(v["stats"].get("reduction_pct").is_none());
    assert_eq!(v["stats"]["total_tests"], 100);
    assert_eq!(v["stats"]["affected_tests"], 2);
    assert_eq!(v["affected_tests"].as_array().unwrap().len(), 2);
    assert_eq!(v["affected_tests"][1]["file"], "p/src/lib.rs:1");
}

#[test]
fn affected_tests_are_listed_as_text() {
    let text = |s: &Summary| match emit(OutputFormat::Text, s, &PathBuf::parse("/ws")) {
        Emitted::Text(t) => t,
        Emitted::Object(o) => panic!("{o:?}"),
    };
    assert_eq!(text(&summary_with(0, 5)), "Affected tests: none\n");
    assert_eq!(
        text(&summary_with(2, 5)),
        "Affected tests: (2 functions)\n  p :: t0 (p/src/lib.rs:0:1)\n  p :: t1 (p/src/lib.rs:1:1)\n"
    );
}
