use aether::pattern::{cache_rule_prio, est_load, fnmatch, rule_prio};

#[test]
fn fnmatch_exact_name() {
    assert!(fnmatch("com.tencent.tmgp.sgame", "com.tencent.tmgp.sgame"));
    assert!(!fnmatch("com.tencent.tmgp.sgame", "com.tencent.tmgp.sgam"));
    assert!(!fnmatch("UnityMain", "UnityMain2"));
}

#[test]
fn fnmatch_empty_pattern_matches_nothing() {
    assert!(!fnmatch("", ""));
    assert!(!fnmatch("", "abc"));
}

#[test]
fn fnmatch_star_matches_everything() {
    assert!(fnmatch("*", ""));
    assert!(fnmatch("*", "RenderThread"));
}

#[test]
fn fnmatch_prefix_and_suffix() {
    assert!(fnmatch("com.tencent.*", "com.tencent.mm"));
    assert!(!fnmatch("com.tencent.*", "com.tencen"));
    assert!(fnmatch("*Thread", "RenderThread"));
    assert!(!fnmatch("*Thread", "RenderThrea"));
    assert!(fnmatch("Unity*Main", "UnityGfxMain"));
    assert!(!fnmatch("Unity*Main", "UnityMai"));
}

#[test]
fn fnmatch_suffix_cannot_overlap_prefix() {
    // the suffix is matched against what is left after the prefix
    assert!(!fnmatch("ab*ba", "aba"));
    assert!(fnmatch("ab*ba", "abba"));
}

#[test]
fn fnmatch_later_wildcards_are_plain() {
    assert!(fnmatch("a*b*", "axb*"));
    assert!(!fnmatch("a*b*", "axbc"));
    assert!(!fnmatch("Thread-?", "Thread-1"));
    assert!(fnmatch("Thread-?", "Thread-?"));
}

#[test]
fn fnmatch_reflexive_examples() {
    for p in ["x", "*", "a*b", "**", "pool-?-*"] {
        assert!(fnmatch(p, p), "{}", p);
    }
}

#[test]
fn rule_prio_values() {
    assert_eq!(rule_prio(""), 200);
    assert_eq!(rule_prio("RenderThread"), 1012);
    assert_eq!(rule_prio("Thread-[0-9]*"), 500 + 10);
    assert_eq!(rule_prio("Thread-?"), 300 + 7);
    assert_eq!(rule_prio("Job*"), 103);
    assert_eq!(rule_prio("*"), 100);
    // byte length, not characters
    assert_eq!(rule_prio("渲染"), 1006);
}

#[test]
fn rule_prio_orders_kinds() {
    assert!(rule_prio("GLThread") > rule_prio("GL[a-z]*"));
    assert!(rule_prio("GL[a-z]*") > rule_prio("GL?"));
    assert!(rule_prio("GL?") > rule_prio("GL*"));
    assert!(rule_prio("GL*") < 200);
}

#[test]
fn cache_rule_prio_values() {
    assert_eq!(cache_rule_prio("RenderThread"), 1012);
    assert_eq!(cache_rule_prio(""), 1000);
    assert_eq!(cache_rule_prio("Thread-?"), 108);
    assert_eq!(cache_rule_prio("Job*"), 103);
}

#[test]
fn est_load_classes() {
    assert_eq!(est_load("RenderThread"), 10);
    assert_eq!(est_load("GLThread 12"), 10);
    assert_eq!(est_load("MediaCodec_loop"), 8);
    assert_eq!(est_load("UnityMain"), 9);
    assert_eq!(est_load("Worker-3"), 5);
    assert_eq!(est_load("OkHttp Dispatch"), 3);
    assert_eq!(est_load("IdleReaper"), 1);
    assert_eq!(est_load("binder:123_4"), 4);
    assert_eq!(est_load(""), 4);
    // the first group that matches decides
    assert_eq!(est_load("AudioRender"), 10);
    assert_eq!(est_load("GameAudio"), 8);
}
