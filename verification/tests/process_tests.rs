use aether::config::{PkgSet, Rule};
use aether::process::{
    bind_plan, cmdline_pkg, cpu_ranges, cpuset_dir, dirent_names, dirents_well_formed, is_app_status,
    is_watched, pid_of_name, scan_target, select_cpus, thread_entry, unknown_target, unknown_thread,
};

fn r(pkg: &str, thread: &str, cpus: &str, prio: i32) -> Rule {
    Rule { pkg: pkg.into(), thread: thread.into(), cpus: cpus.into(), prio }
}

fn rules() -> Vec<Rule> {
    vec![
        r("com.game", "", "0-3", 200),
        r("com.game", "Render*", "4-7", 107),
        r("com.game", "RenderThread", "7", 1012),
        r("com.game", "Job*", "6", 100),
        r("com.*", "", "0-1", 200),
        r("com.other", "", "2", 200),
    ]
}

#[test]
fn select_highest_priority_wins() {
    let rs = rules();
    assert_eq!(select_cpus(&rs, "com.game", "RenderThread"), "7");
    assert_eq!(select_cpus(&rs, "com.game", "RenderWorker"), "0-3");
    assert_eq!(select_cpus(&rs, "com.game", "UnityMain"), "0-3");
}

#[test]
fn select_low_wildcard_loses_to_default() {
    let rs = rules();
    assert_eq!(select_cpus(&rs, "com.game", "Job-1"), "0-3");
}

#[test]
fn select_pattern_package_default() {
    let rs = rules();
    assert_eq!(select_cpus(&rs, "com.else", "main"), "0-1");
    assert_eq!(select_cpus(&rs, "com.other", "main"), "0-1");
    assert_eq!(select_cpus(&rs, "org.none", "main"), "");
}

#[test]
fn select_first_of_equals() {
    let rs = vec![r("p", "", "A", 200), r("p", "", "B", 200)];
    assert_eq!(select_cpus(&rs, "p", "t"), "A");
    let rs = vec![r("p", "t*", "A", 150), r("p", "t", "B", 150)];
    assert_eq!(select_cpus(&rs, "p", "t"), "A");
}

#[test]
fn thread_rules_need_exact_package() {
    let rs = vec![r("com.*", "Main", "5", 1004)];
    assert_eq!(select_cpus(&rs, "com.game", "Main"), "");
}

#[test]
fn cmdline_package() {
    assert_eq!(cmdline_pkg("com.game\0--flag\0"), "com.game");
    assert_eq!(cmdline_pkg("com.game"), "com.game");
    assert_eq!(cmdline_pkg("\0x"), "");
    assert_eq!(cmdline_pkg(""), "");
}

#[test]
fn watched_by_set_or_pattern() {
    let mut set = PkgSet::new();
    set.insert("com.a".to_string());
    let wild = vec!["org.*".to_string()];
    assert!(is_watched(&set, &wild, "com.a"));
    assert!(is_watched(&set, &wild, "org.x"));
    assert!(!is_watched(&set, &wild, "com.b"));
}

#[test]
fn scan_targets() {
    let mut set = PkgSet::new();
    set.insert("com.a".to_string());
    let wild = vec![];
    assert_eq!(scan_target(&set, &wild, 1234, "com.a\0"), Some("com.a".to_string()));
    assert_eq!(scan_target(&set, &wild, 999, "com.a\0"), None);
    assert_eq!(scan_target(&set, &wild, 1234, "com.b\0"), None);
    assert_eq!(scan_target(&set, &wild, 1234, ""), None);
}

#[test]
fn thread_entries() {
    let rs = rules();
    assert_eq!(thread_entry(&rs, "com.game", "4321", "RenderThread\n"), (4321, "RenderThread".to_string(), "7".to_string()));
    assert_eq!(thread_entry(&rs, "com.game", "x", "  Other \n"), (0, "Other".to_string(), "0-3".to_string()));
}

#[test]
fn app_status() {
    let st = "Name:\tgame\nUmask:\t0077\nUid:\t10123\t10123\t10123\t10123\nGid:\t10123\n";
    assert!(is_app_status(st));
    assert!(!is_app_status("Name:\tinit\nUid:\t0\t0\t0\t0\n"));
    assert!(!is_app_status("Name:\tx\n"));
    assert!(!is_app_status("Uid:\n"));
    assert!(!is_app_status("Uid:\tabc\nUid:\t10001\n"));
    assert!(is_app_status("Uid: 10000"));
}

#[test]
fn unknown_targets() {
    let set = PkgSet::new();
    let wild = vec!["com.known*".to_string()];
    let st = "Uid:\t10200\t10200\n";
    assert_eq!(unknown_target(&set, &wild, "2000", st, "com.new\0"), Some((2000, "com.new".to_string())));
    assert_eq!(unknown_target(&set, &wild, "2000", st, "com.known.app\0"), None);
    assert_eq!(unknown_target(&set, &wild, "2000", st, "/system/bin/x\0"), None);
    assert_eq!(unknown_target(&set, &wild, "2000", st, "nodots\0"), None);
    assert_eq!(unknown_target(&set, &wild, "900", st, "com.new\0"), None);
    assert_eq!(unknown_target(&set, &wild, "self", st, "com.new\0"), None);
    assert_eq!(unknown_target(&set, &wild, "2000", "Uid:\t1000\n", "com.new\0"), None);
    assert_eq!(unknown_thread("17", "Worker\n"), (17, "Worker".to_string()));
    assert_eq!(unknown_thread("?", "x"), (0, "x".to_string()));
}

#[test]
fn bind_plan_flags_first_use() {
    let procs = vec![
        (1, "a".to_string(), vec![(10, "t".to_string(), "0-3".to_string()), (11, "u".to_string(), "".to_string())]),
        (2, "b".to_string(), vec![(20, "v".to_string(), "4-7".to_string()), (21, "w".to_string(), "0-3".to_string())]),
    ];
    let plan = bind_plan(&procs);
    assert_eq!(
        plan,
        vec![
            (10, "0-3".to_string(), true),
            (20, "4-7".to_string(), true),
            (21, "0-3".to_string(), false),
        ]
    );
    assert!(bind_plan(&vec![]).is_empty());
}

#[test]
fn cpu_ranges_strict() {
    assert_eq!(cpu_ranges("0-3,6", false), vec![(0, 3), (6, 6)]);
    assert_eq!(cpu_ranges(" 4 - 7 , 1", false), vec![(1, 1)]);
    assert_eq!(cpu_ranges("a-3,,2", false), vec![(2, 2)]);
    assert_eq!(cpu_ranges("", false), vec![]);
    assert_eq!(cpu_ranges("5-2", false), vec![(5, 2)]);
}

#[test]
fn cpu_ranges_lenient() {
    assert_eq!(cpu_ranges("x-3", true), vec![(0, 3)]);
    assert_eq!(cpu_ranges("4-y", true), vec![(4, 4)]);
    assert_eq!(cpu_ranges("z,2", true), vec![(2, 2)]);
    assert_eq!(cpu_ranges("0-3,6-7", true), vec![(0, 3), (6, 7)]);
}

#[test]
fn cpuset_dirs() {
    assert_eq!(cpuset_dir("0-3,6"), "/dev/cpuset/AppOpt/0-3.6");
    assert_eq!(cpuset_dir(""), "/dev/cpuset/AppOpt/");
}

fn record(ino: u64, name: &[u8], reclen: u16) -> Vec<u8> {
    let mut v = Vec::new();
    v.extend_from_slice(&ino.to_le_bytes());
    v.extend_from_slice(&0i64.to_le_bytes());
    v.extend_from_slice(&reclen.to_le_bytes());
    v.push(4);
    v.extend_from_slice(name);
    while v.len() < reclen as usize {
        v.push(0);
    }
    v
}

#[test]
fn dirents_walk() {
    let mut buf = Vec::new();
    buf.extend(record(1, b"1234", 24));
    buf.extend(record(0, b"5678", 24));
    buf.extend(record(2, b"self", 24));
    buf.extend(record(3, b"12345", 32));
    let n = buf.len();
    assert!(dirents_well_formed(&buf, n, true));
    let names = dirent_names(&buf, n, true);
    assert_eq!(names, vec![b"1234".to_vec(), b"self".to_vec(), b"12345\0\0\0\0\0\0\0".to_vec()]);
    assert_eq!(pid_of_name(&names[0]), Some(1234));
    assert_eq!(pid_of_name(&names[1]), None);
    assert_eq!(pid_of_name(&names[2]), None);
}

#[test]
fn dirents_malformed() {
    let mut buf = record(1, b"1", 24);
    buf[16] = 0;
    buf[17] = 0;
    assert!(!dirents_well_formed(&buf, 24, true));
    let short = vec![0u8; 10];
    assert!(!dirents_well_formed(&short, 10, true));
    assert!(dirents_well_formed(&short, 0, true));
}

#[test]
fn pid_names() {
    assert_eq!(pid_of_name(b"1000"), Some(1000));
    assert_eq!(pid_of_name(b"-5"), Some(-5));
    assert_eq!(pid_of_name(b"+7"), Some(7));
    assert_eq!(pid_of_name(b"2147483648"), None);
    assert_eq!(pid_of_name(&[0xe4, 0xb8, 0x80]), None);
    assert_eq!(pid_of_name(b""), None);
}
