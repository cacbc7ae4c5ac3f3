use aether::daemon::{daemon_args, default_config_candidates, Action, Event, LoopState};
use aether::daemon::Action::{Apply, CheckPids, PollEbpf, ReadProcCount, Reload, Scan, SearchNew};
use aether::status::{error_state_json, escape_json, log_line, log_needs_reset, panic_state_json, status_json};

#[test]
fn status_record() {
    let s = status_json(42, 100, 160, "4+3+1", "4-7", "0-3", 12, true, 2, 3, 17, "running");
    assert_eq!(
        s,
        r#"{"pid":42,"uptime_sec":60,"timestamp":160,"topology":"4+3+1","big":"4-7","little":"0-3","rules":12,"ebpf":true,"interval":2,"last_bind_procs":3,"last_bind_threads":17,"state":"running"}"#
    );
}

#[test]
fn status_uptime_never_negative() {
    let s = status_json(1, 500, 100, "?", "?", "?", 0, false, 0, 0, 0, "starting");
    assert!(s.contains("\"uptime_sec\":0,"));
    assert!(s.contains("\"ebpf\":false"));
}

#[test]
fn status_max_values() {
    let s = status_json(u32::MAX, 0, u64::MAX, "", "", "", 0, false, 0, 0, 0, "");
    assert!(s.starts_with("{\"pid\":4294967295,\"uptime_sec\":18446744073709551615,\"timestamp\":18446744073709551615,"));
}

#[test]
fn escaping() {
    assert_eq!(escape_json(r#"a"b\c"#), r#"a\"b\\c"#);
    assert_eq!(escape_json(""), "");
}

#[test]
fn error_record() {
    assert_eq!(
        error_state_json(7, 9, "config_error", "bad \"x\""),
        r#"{"pid":7,"uptime_sec":0,"timestamp":9,"topology":"?","big":"?","little":"?","rules":0,"ebpf":false,"interval":0,"last_bind_procs":0,"last_bind_threads":0,"state":"config_error","error":"bad \"x\""}"#
    );
}

#[test]
fn panic_record_doubles_every_backslash() {
    let s = panic_state_json(1, 2, "a\"b\\c");
    assert!(s.ends_with(r#""state":"panic","error":"a\\"b\\c"}"#));
}

#[test]
fn log_lines() {
    assert_eq!(log_line(9, 5, 0, "INFO", "started"), "[09:05:00][INFO] started\n");
    assert_eq!(log_line(23, 59, 59, "ERROR", ""), "[23:59:59][ERROR] \n");
    assert_eq!(log_line(-3, 100, 10, "X", "m"), "[-3:100:10][X] m\n");
    assert_eq!(format!("{:02}", -3), "-3");
}

#[test]
fn log_reset_threshold() {
    assert!(!log_needs_reset(524288));
    assert!(log_needs_reset(524289));
    assert!(!log_needs_reset(0));
}

fn args(v: &[&str]) -> Vec<String> {
    v.iter().map(|s| s.to_string()).collect()
}

#[test]
fn command_line() {
    let d = "/d/threads.json".to_string();
    assert_eq!(daemon_args(&args(&["aether"]), d.clone()), (d.clone(), 2));
    assert_eq!(daemon_args(&args(&["aether", "-c", "/x.json", "-s", "5"]), d.clone()), ("/x.json".to_string(), 5));
    assert_eq!(daemon_args(&args(&["aether", "-s", "0"]), d.clone()), (d.clone(), 1));
    assert_eq!(daemon_args(&args(&["aether", "-s", "fast"]), d.clone()), (d.clone(), 2));
    assert_eq!(daemon_args(&args(&["aether", "-s", "9", "-c"]), d.clone()), (d.clone(), 9));
    assert_eq!(daemon_args(&args(&["aether", "x", "-s", "+3"]), d.clone()), (d.clone(), 3));
    assert_eq!(daemon_args(&args(&["-c", "/y"]), d.clone()), (d.clone(), 2));
}

#[test]
fn candidates() {
    let (a, b) = default_config_candidates("2+6");
    assert_eq!(a, "/data/adb/modules/aether-optext/config/2+6.json");
    assert_eq!(b, "/data/adb/modules/aether-optext/config/4+3+1.json");
}

#[test]
fn loop_search_every_thirty_rounds() {
    let mut st = LoopState::new();
    let mut found = Vec::new();
    for i in 1..=60 {
        if st.begin_round() {
            found.push(i);
        }
    }
    assert_eq!(found, vec![30, 60]);
}

#[test]
fn loop_apply_countdown() {
    let mut st = LoopState::new();
    assert!(st.apply_due());
    let mut next = Vec::new();
    for _ in 0..10 {
        next.push(st.apply_due());
    }
    assert_eq!(next, vec![false, false, false, false, true, false, false, false, false, true]);
}

#[test]
fn loop_process_growth() {
    let mut st = LoopState::new();
    assert!(st.observe_procs(None));
    assert!(st.observe_procs(Some(50)));
    assert!(!st.observe_procs(Some(55)));
    // a small growth makes placement due at once
    assert!(st.apply_due());
    assert!(!st.observe_procs(Some(40)));
    assert!(!st.apply_due());
    assert!(st.procs_check_due());
    st.begin_round();
    assert!(!st.procs_check_due());
}

/// Runs one round from a tick, answering each action as `answer` says;
/// gives the actions in order, the final `Finish` included.
fn run_round(st: &mut LoopState, reload: bool, rescan: bool, answer: &dyn Fn(Action) -> Event) -> Vec<Action> {
    let mut acts = Vec::new();
    let mut ev = Event::Tick { reload, rescan };
    loop {
        let a = st.step(ev);
        acts.push(a);
        if a == Action::Finish {
            return acts;
        }
        ev = answer(a);
    }
}

#[test]
fn loop_round_steps() {
    let quiet = |a: Action| match a {
        ReadProcCount => Event::ProcCount(Some(0)),
        CheckPids => Event::PidsAlive(true),
        Apply => Event::Applied(false),
        Reload => Event::Reloaded(true),
        _ => Event::Done,
    };
    let mut st = LoopState::new();
    // first round: nothing asked, placement due at once
    assert_eq!(run_round(&mut st, false, false, &quiet), vec![PollEbpf, Apply, Action::Finish]);
    // a reload and a rescan asked by signal: reload, scan, scan again
    assert_eq!(run_round(&mut st, true, true, &quiet), vec![Reload, Scan, Scan, PollEbpf, Action::Finish]);
    // a reload that fails goes straight on
    let failing = |a: Action| if a == Reload { Event::Reloaded(false) } else { quiet(a) };
    assert_eq!(run_round(&mut st, true, false, &failing), vec![Reload, PollEbpf, Action::Finish]);
    assert_eq!(run_round(&mut st, false, false, &quiet), vec![PollEbpf, Action::Finish]);
    // round 5: the process count is read; 100 processes is a jump, so rescan;
    // placement, last applied in round 1, is next due in round 6
    let jump = |a: Action| if a == ReadProcCount { Event::ProcCount(Some(100)) } else { quiet(a) };
    assert_eq!(run_round(&mut st, false, false, &jump), vec![PollEbpf, ReadProcCount, Scan, Action::Finish]);
    assert_eq!(run_round(&mut st, false, false, &quiet), vec![PollEbpf, Apply, Action::Finish]);
    for _ in 7..10 {
        run_round(&mut st, false, false, &quiet);
    }
    // round 10: a small growth makes placement due; a thread gone while applying means a rescan
    let grow = |a: Action| match a {
        ReadProcCount => Event::ProcCount(Some(105)),
        Apply => Event::Applied(true),
        _ => quiet(a),
    };
    assert_eq!(run_round(&mut st, false, false, &grow), vec![PollEbpf, ReadProcCount, CheckPids, Apply, Scan, Action::Finish]);
}

#[test]
fn loop_dead_pid_or_unknown_count_rescans() {
    let mut st = LoopState::new();
    let answer = |a: Action| match a {
        ReadProcCount => Event::ProcCount(Some(0)),
        CheckPids => Event::PidsAlive(false),
        Apply => Event::Applied(false),
        _ => Event::Done,
    };
    for _ in 1..5 {
        run_round(&mut st, false, false, &answer);
    }
    assert_eq!(run_round(&mut st, false, false, &answer), vec![PollEbpf, ReadProcCount, CheckPids, Scan, Action::Finish]);
    let unknown = |a: Action| if a == ReadProcCount { Event::ProcCount(None) } else { answer(a) };
    for _ in 6..10 {
        run_round(&mut st, false, false, &answer);
    }
    assert_eq!(run_round(&mut st, false, false, &unknown), vec![PollEbpf, ReadProcCount, Scan, Action::Finish]);
}

#[test]
fn loop_ignores_an_unexpected_event() {
    let mut st = LoopState::new();
    assert_eq!(st.step(Event::Done), Action::Finish);
    assert_eq!(st.step(Event::Tick { reload: true, rescan: false }), Action::Reload);
    assert_eq!(st.step(Event::Done), Action::Reload);
    assert_eq!(st.step(Event::Reloaded(false)), Action::PollEbpf);
}

#[test]
fn loop_search_round_thirty() {
    let mut st = LoopState::new();
    let answer = |a: Action| match a {
        ReadProcCount => Event::ProcCount(Some(0)),
        CheckPids => Event::PidsAlive(true),
        Apply => Event::Applied(false),
        _ => Event::Done,
    };
    for _ in 1..30 {
        assert!(!run_round(&mut st, false, false, &answer).contains(&SearchNew));
    }
    assert_eq!(run_round(&mut st, false, false, &answer)[..3], [PollEbpf, SearchNew, ReadProcCount]);
}
