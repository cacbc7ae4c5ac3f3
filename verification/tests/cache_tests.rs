use aether::cache::{big_names, cache_entry, save, is_skipped, merged_cache};
use aether::config::PkgSet;
use aether::config::merge;

fn procs() -> Vec<(i32, String, Vec<(i32, String)>)> {
    vec![
        (100, "com.game".to_string(), vec![(101, "UnityMain".to_string()), (102, "Worker".to_string())]),
        (200, "com.other".to_string(), vec![(201, "RenderThread".to_string())]),
        (300, "com.game".to_string(), vec![(301, "MediaCodec".to_string()), (302, "Idle".to_string())]),
    ]
}

#[test]
fn heavy_threads_of_the_package() {
    assert_eq!(big_names("com.game", &procs()), vec!["UnityMain".to_string(), "MediaCodec".to_string()]);
    assert!(big_names("com.none", &procs()).is_empty());
}

#[test]
fn entry_without_heavy_threads() {
    let e = cache_entry("com.x", &vec![], "4-7", "0-3");
    assert_eq!(
        e,
        "  {\n    \"friendly\": \"[auto] com.x\",\n    \"packages\": [\"com.x\"],\n    \"cpuset\": {\n      \"other\": \"0-3\"\n    }\n  }"
    );
}

#[test]
fn entry_with_heavy_threads() {
    let e = cache_entry("com.x", &vec!["A".to_string(), "B".to_string()], "4-7", "0-3");
    assert_eq!(
        e,
        "  {\n    \"friendly\": \"[auto] com.x\",\n    \"packages\": [\"com.x\"],\n    \"cpuset\": {\n      \"other\": \"0-3\",\n      \"comm\": {\n        \"4-7\": [\n        \"A\",\n        \"B\"\n        ]\n      }\n    }\n  }"
    );
}

#[test]
fn merged_into_blank_file() {
    assert_eq!(merged_cache("", "E"), "[\nE\n]\n");
    assert_eq!(merged_cache(" \n\t", "E"), "[\nE\n]\n");
    assert_eq!(merged_cache("{}", "E"), "[\nE\n]\n");
}

#[test]
fn merged_into_existing_array() {
    assert_eq!(merged_cache("[\nA\n]\n", "E"), "[\nA,\nE\n]\n");
    assert_eq!(merged_cache("  [\nA  \n]  \n\n", "E"), "  [\nA,\nE\n]\n");
    assert_eq!(merged_cache("[\nA", "E"), "[\nA,\nE\n]\n");
}

#[test]
fn skipped_services() {
    assert!(is_skipped("com.miui.home:widgetProvider"));
    assert!(is_skipped("android.process.media"));
    assert!(is_skipped("com.qualcomm.qti.services"));
    assert!(is_skipped(".qtiAgent"));
    assert!(!is_skipped("com.miui.home"));
    assert!(!is_skipped("android.process.media2"));
    assert_eq!(save("x:daemon", &procs(), "4-7", "0-3", ""), None);
}

#[test]
fn save_round_trip() {
    let text = save("com.game", &procs(), "4-7", "0-3", "").unwrap();
    let text = save("com.other", &procs(), "4-7", "0-3", &text).unwrap();
    let mut set = PkgSet::new();
    let mut rules = Vec::new();
    assert_eq!(merge(&text, &mut set, &mut rules), Some(2));
    assert!(set.contains("com.game") && set.contains("com.other"));
    let got: Vec<_> = rules.iter().map(|r| (r.pkg.as_str(), r.thread.as_str(), r.cpus.as_str(), r.prio)).collect();
    assert_eq!(
        got,
        vec![
            ("com.game", "", "0-3", 200),
            ("com.game", "UnityMain", "4-7", 1009),
            ("com.game", "MediaCodec", "4-7", 1010),
            ("com.other", "", "0-3", 200),
            ("com.other", "RenderThread", "4-7", 1012),
        ]
    );
}
