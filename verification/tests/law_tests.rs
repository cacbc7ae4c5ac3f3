use aether::config::AppConfig;
use aether::daemon::{daemon_args, LoopState};
use aether::pattern::{fnmatch, rule_prio};
use aether::process::{bind_plan, select_cpus};
use aether::config::Rule;
use aether::status::{escape_json, log_line, log_needs_reset, status_json};
use std::time::SystemTime;

fn unescape(s: &str) -> String {
    let mut out = String::new();
    let mut it = s.chars();
    while let Some(c) = it.next() {
        if c == '\\' {
            if let Some(d) = it.next() {
                out.push(d);
                continue;
            }
        }
        out.push(c);
    }
    out
}

#[test]
fn escape_reads_back() {
    for s in ["", "plain", "a\"b", "back\\slash", "\\\"\\", "混合\"文本\\"] {
        assert_eq!(unescape(&escape_json(s)), s);
    }
}

#[test]
fn numbers_read_back() {
    for n in [0u64, 7, 10, 99, 100, 12345, u64::MAX] {
        let args = vec!["aether".to_string(), "-s".to_string(), n.to_string()];
        let (_, iv) = daemon_args(&args, String::new());
        assert_eq!(iv, if n == 0 { 1 } else { n });
    }
}

#[test]
fn literal_and_prefix_patterns() {
    assert!(fnmatch("abc", "abc"));
    assert!(!fnmatch("abc", "abcd"));
    assert!(fnmatch("abc*", "abcd"));
    assert!(fnmatch("abc*", "abc"));
    assert!(!fnmatch("abc*", "ab"));
}

#[test]
fn priority_kinds() {
    let exact = rule_prio("Main");
    let bracket = rule_prio("M[a-z]*");
    let quest = rule_prio("Ma?n");
    let star = rule_prio("Ma*");
    assert!(exact > bracket && bracket > quest && quest > star && star < 200);
}

#[test]
fn strongest_claim_wins() {
    let rules = vec![
        Rule { pkg: "p".into(), thread: "".into(), cpus: "d".into(), prio: 200 },
        Rule { pkg: "p".into(), thread: "t*".into(), cpus: "w".into(), prio: 250 },
        Rule { pkg: "p".into(), thread: "tx".into(), cpus: "x".into(), prio: 1002 },
        Rule { pkg: "p".into(), thread: "tx".into(), cpus: "y".into(), prio: 1002 },
    ];
    assert_eq!(select_cpus(&rules, "p", "tx"), "x");
    assert_eq!(select_cpus(&rules, "p", "ty"), "w");
    assert_eq!(select_cpus(&rules, "p", "u"), "d");
    assert_eq!(select_cpus(&rules, "q", "tx"), "");
}

#[test]
fn rule_packages_are_watched() {
    let text = r#"[{"packages": ["a.*", "b"], "cpuset": {"comm": {"1": ["x", "y"]}}}, {"packages": ["c"]}]"#;
    let cfg = AppConfig::load(text, SystemTime::UNIX_EPOCH).unwrap();
    assert_eq!(cfg.rules.len(), 4);
    for r in &cfg.rules {
        assert!(cfg.pkg_set.contains(&r.pkg));
    }
}

#[test]
fn each_cpu_list_prepared_once() {
    let procs = vec![
        (1, "a".to_string(), vec![(1, "t".to_string(), "1".to_string()), (2, "t".to_string(), "2".to_string())]),
        (2, "b".to_string(), vec![(3, "t".to_string(), "1".to_string()), (4, "t".to_string(), "2".to_string()), (5, "t".to_string(), "3".to_string())]),
    ];
    let plan = bind_plan(&procs);
    let firsts: Vec<_> = plan.iter().filter(|b| b.2).map(|b| b.1.clone()).collect();
    assert_eq!(firsts, vec!["1", "2", "3"]);
}

#[test]
fn apply_at_least_every_five_rounds() {
    let mut st = LoopState::new();
    let mut since = 0;
    for round in 0..100 {
        if round % 7 == 3 {
            st.observe_procs(Some((round * 3) as u16));
        }
        if st.apply_due() {
            since = 0;
        } else {
            since += 1;
        }
        assert!(since < 5);
    }
}

#[test]
fn search_every_thirty_rounds() {
    let mut st = LoopState::new();
    let hits: Vec<usize> = (1..=95).filter(|_| st.begin_round()).collect();
    assert_eq!(hits, vec![30, 60, 90]);
}

#[test]
fn status_record_reads_as_json() {
    let s = status_json(7, 900, 300, "4+3+1 \"odd\"", "4-7\\x", "0-3", 2, true, 5, 1, 9, "running");
    let v = json::parse(&s).unwrap();
    assert_eq!(v["pid"].as_u64(), Some(7));
    assert_eq!(v["uptime_sec"].as_u64(), Some(0));
    assert_eq!(v["timestamp"].as_u64(), Some(300));
    assert_eq!(v["topology"].as_str(), Some("4+3+1 \"odd\""));
    assert_eq!(v["big"].as_str(), Some("4-7\\x"));
    assert_eq!(v["little"].as_str(), Some("0-3"));
    assert_eq!(v["rules"].as_u64(), Some(2));
    assert_eq!(v["ebpf"].as_bool(), Some(true));
    assert_eq!(v["state"].as_str(), Some("running"));
    let later = json::parse(&status_json(7, 100, 160, "", "", "", 0, false, 0, 0, 0, "")).unwrap();
    assert_eq!(later["uptime_sec"].as_u64(), Some(60));
}

#[test]
fn log_file_stays_bounded() {
    let line = log_line(23, 5, 9, "INFO", "placed 3 threads");
    let k = line.len() as u64;
    let mut size: u64 = 0;
    for _ in 0..100_000 {
        if log_needs_reset(size) {
            size = 0;
        }
        size += k;
        assert!(size <= 524288 + k);
    }
    assert!(!log_needs_reset(524288));
    assert!(log_needs_reset(524289));
}
