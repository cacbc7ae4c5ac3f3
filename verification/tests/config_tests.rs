use aether::config::{merge_json, merge, AppConfig, PkgSet, Rule};
use aether::json::Json;
use std::time::SystemTime;

fn rule(r: &Rule) -> (String, String, String, i32) {
    (r.pkg.clone(), r.thread.clone(), r.cpus.clone(), r.prio)
}

const CONFIG: &str = r#"{
  "features": {"ebpf": false},
  "rules": [
    {
      "friendly": "game",
      "packages": ["com.game.one", "com.game.*", 7, "com.g?me.two"],
      "cpuset": {
        "other": "0-3",
        "comm": {
          "4-7": ["UnityMain", "RenderThread"],
          "7": ["Thread-[0-9]*", 3, "Job?"]
        }
      }
    },
    {"packages": [], "cpuset": {"other": "1"}},
    {"packages": ["com.music"]}
  ]
}"#;

#[test]
fn load_reads_rules_in_order() {
    let cfg = AppConfig::load(CONFIG, SystemTime::UNIX_EPOCH).expect("config loads");
    let rules: Vec<_> = cfg.rules.iter().map(rule).collect();
    assert_eq!(
        rules,
        vec![
            ("com.game.one".to_string(), "".to_string(), "0-3".to_string(), 200),
            ("com.game.one".to_string(), "UnityMain".to_string(), "4-7".to_string(), 1009),
            ("com.game.one".to_string(), "RenderThread".to_string(), "4-7".to_string(), 1012),
            ("com.game.one".to_string(), "Thread-[0-9]*".to_string(), "7".to_string(), 510),
            ("com.game.one".to_string(), "Job?".to_string(), "7".to_string(), 303),
            ("com.music".to_string(), "".to_string(), "0".to_string(), 200),
        ]
    );
    assert!(!cfg.ebpf);
    assert_eq!(cfg.mtime, SystemTime::UNIX_EPOCH);
}

#[test]
fn load_collects_packages_and_patterns() {
    let cfg = AppConfig::load(CONFIG, SystemTime::UNIX_EPOCH).unwrap();
    for p in ["com.game.one", "com.game.*", "com.g?me.two", "com.music"] {
        assert!(cfg.pkg_set.contains(p), "{}", p);
    }
    assert!(!cfg.pkg_set.contains("com.game.two"));
    assert_eq!(cfg.wild, vec!["com.game.*".to_string(), "com.g?me.two".to_string()]);
}

#[test]
fn load_accepts_top_level_array() {
    let text = r#"[{"packages": ["a.b"], "cpuset": {"other": "2"}}]"#;
    let cfg = AppConfig::load(text, SystemTime::UNIX_EPOCH).unwrap();
    assert_eq!(cfg.rules.len(), 1);
    assert_eq!(rule(&cfg.rules[0]), ("a.b".to_string(), "".to_string(), "2".to_string(), 200));
    // no features object: eBPF stays on
    assert!(cfg.ebpf);
}

#[test]
fn load_refuses_missing_rules() {
    assert!(AppConfig::load(r#"{"rules": 3}"#, SystemTime::UNIX_EPOCH).is_none());
    assert!(AppConfig::load(r#"{"other": []}"#, SystemTime::UNIX_EPOCH).is_none());
    assert!(AppConfig::load("not json", SystemTime::UNIX_EPOCH).is_none());
    assert!(AppConfig::load("", SystemTime::UNIX_EPOCH).is_none());
}

#[test]
fn load_empty_rules() {
    let cfg = AppConfig::load(r#"{"rules": []}"#, SystemTime::UNIX_EPOCH).unwrap();
    assert!(cfg.rules.is_empty());
    assert!(cfg.wild.is_empty());
}

#[test]
fn ebpf_flag_needs_boolean() {
    let cfg = AppConfig::load(r#"{"features": {"ebpf": "no"}, "rules": []}"#, SystemTime::UNIX_EPOCH).unwrap();
    assert!(cfg.ebpf);
}

#[test]
fn only_strings_count_as_names() {
    let text = r#"[{"packages": [1.5, "a.b", true, null, {"x": 1}, ["c.d"]], "cpuset": {"other": 4, "comm": {"3": ["T", 9]}}}]"#;
    let cfg = AppConfig::load(text, SystemTime::UNIX_EPOCH).unwrap();
    let rules: Vec<_> = cfg.rules.iter().map(rule).collect();
    assert_eq!(
        rules,
        vec![
            ("a.b".to_string(), "".to_string(), "0".to_string(), 200),
            ("a.b".to_string(), "T".to_string(), "3".to_string(), 1001),
        ]
    );
    assert!(cfg.pkg_set.contains("a.b"));
    assert!(!cfg.pkg_set.contains("c.d"));
}

#[test]
fn duplicate_keys_keep_one_entry() {
    let text = r#"{"rules": [], "rules": [{"packages": ["z.z"]}]}"#;
    let cfg = AppConfig::load(text, SystemTime::UNIX_EPOCH).unwrap();
    assert_eq!(cfg.rules.len(), 1);
}

#[test]
fn from_json_on_a_built_tree() {
    let entry = Json::Object(vec![
        ("packages".to_string(), Json::Array(vec![Json::Str("x.y".to_string())])),
        (
            "cpuset".to_string(),
            Json::Object(vec![
                ("other".to_string(), Json::Str("0-1".to_string())),
                ("comm".to_string(), Json::Object(vec![("6".to_string(), Json::Array(vec![Json::Str("a*".to_string())]))])),
            ]),
        ),
    ]);
    let root = Json::Array(vec![entry]);
    let cfg = AppConfig::from_json(&root, SystemTime::UNIX_EPOCH).unwrap();
    let rules: Vec<_> = cfg.rules.iter().map(rule).collect();
    assert_eq!(
        rules,
        vec![
            ("x.y".to_string(), "".to_string(), "0-1".to_string(), 200),
            ("x.y".to_string(), "a*".to_string(), "6".to_string(), 101),
        ]
    );
    assert!(AppConfig::from_json(&Json::Null, SystemTime::UNIX_EPOCH).is_none());
}

#[test]
fn merge_appends_cached_rules() {
    let mut set = PkgSet::new();
    set.insert("old.pkg".to_string());
    let mut rules = vec![Rule { pkg: "old.pkg".into(), thread: "".into(), cpus: "0".into(), prio: 200 }];
    let text = r#"[
      {"packages": ["new.pkg", "new.alias"], "cpuset": {"other": "0-2", "comm": {"7": ["RenderThread", "Pool*", "A?"]}}},
      {"friendly": "none"}
    ]"#;
    let n = merge(text, &mut set, &mut rules);
    assert_eq!(n, Some(2));
    let got: Vec<_> = rules.iter().map(rule).collect();
    assert_eq!(
        got,
        vec![
            ("old.pkg".to_string(), "".to_string(), "0".to_string(), 200),
            ("new.pkg".to_string(), "".to_string(), "0-2".to_string(), 200),
            ("new.pkg".to_string(), "RenderThread".to_string(), "7".to_string(), 1012),
            ("new.pkg".to_string(), "Pool*".to_string(), "7".to_string(), 104),
            ("new.pkg".to_string(), "A?".to_string(), "7".to_string(), 102),
        ]
    );
    assert!(set.contains("old.pkg"));
    assert!(set.contains("new.pkg"));
    assert!(set.contains("new.alias"));
}

#[test]
fn merge_ignores_non_arrays() {
    let mut set = PkgSet::new();
    let mut rules = Vec::new();
    assert_eq!(merge(r#"{"rules": []}"#, &mut set, &mut rules), None);
    assert_eq!(merge("garbage", &mut set, &mut rules), None);
    assert!(rules.is_empty());
    assert!(!set.contains("x"));
    assert_eq!(merge_json(&Json::Bool(true), &mut set, &mut rules), None);
}

#[test]
fn pkg_set_holds_each_name_once() {
    let mut set = PkgSet::new();
    assert!(set.insert("a".to_string()));
    assert!(!set.insert("a".to_string()));
    assert!(set.insert("b".to_string()));
    assert!(set.contains("a") && set.contains("b") && !set.contains("c"));
}

#[test]
fn every_rule_package_is_watched() {
    let cfg = AppConfig::load(CONFIG, SystemTime::UNIX_EPOCH).unwrap();
    for r in &cfg.rules {
        assert!(cfg.pkg_set.contains(&r.pkg));
    }
}
