use vstd::prelude::*;
use crate::numtext::{dec, dec_int, push_dec, push_dec_i64};
use crate::text::{chars_of, push_char, push_str};

verus! {

broadcast use vstd::string::group_string_axioms;

/// How the status file escapes one character: `\` and `"` get a backslash.
pub open spec fn esc_char(c: char) -> Seq<char> {
    if c == '\\' {
        seq!['\\', '\\']
    } else if c == '"' {
        seq!['\\', '"']
    } else {
        seq![c]
    }
}

/// `s` with every `\` and `"` escaped by a backslash, for a JSON string.
pub open spec fn json_escape(s: Seq<char>) -> Seq<char>
    decreases s.len(),
{
    if s.len() == 0 {
        Seq::empty()
    } else {
        json_escape(s.drop_last()) + esc_char(s.last())
    }
}

/// How a panic message escapes one character: quotes first become `\"`,
/// then every backslash, those new ones too, is doubled.
pub open spec fn panic_esc_char(c: char) -> Seq<char> {
    if c == '\\' {
        seq!['\\', '\\']
    } else if c == '"' {
        seq!['\\', '\\', '"']
    } else {
        seq![c]
    }
}

/// A panic message escaped as the panic hook does it.
pub open spec fn panic_escape(s: Seq<char>) -> Seq<char>
    decreases s.len(),
{
    if s.len() == 0 {
        Seq::empty()
    } else {
        panic_escape(s.drop_last()) + panic_esc_char(s.last())
    }
}

/// Appends `s` escaped (see [`json_escape`], or [`panic_escape`] when `for_panic`).
fn push_escaped(out: &mut String, s: &str, for_panic: bool)
    ensures
        final(out)@ == old(out)@ + if for_panic { panic_escape(s@) } else { json_escape(s@) },
{
    let v = chars_of(s);
    let mut i: usize = 0;
    assert(v@.take(0) =~= Seq::<char>::empty());
    while i < v.len()
        invariant
            i <= v@.len(),
            v@ == s@,
            out@ == old(out)@ + if for_panic { panic_escape(v@.take(i as int)) } else { json_escape(v@.take(i as int)) },
        decreases v@.len() - i,
    {
        assert(v@.take(i + 1).drop_last() =~= v@.take(i as int));
        let c = v[i];
        if c == '\\' {
            push_char(out, '\\');
            push_char(out, '\\');
        } else if c == '"' {
            push_char(out, '\\');
            if for_panic {
                push_char(out, '\\');
            }
            push_char(out, '"');
        } else {
            push_char(out, c);
        }
        assert(out@ =~= old(out)@ + if for_panic { panic_escape(v@.take(i + 1)) } else { json_escape(v@.take(i + 1)) });
        i = i + 1;
    }
    assert(v@.take(v@.len() as int) =~= v@);
}

/// `s` escaped for a JSON string (see [`json_escape`]).
pub fn escape_json(s: &str) -> (r: String)
    ensures
        r@ == json_escape(s@),
{
    let mut r = String::new();
    push_escaped(&mut r, s, false);
    r
}

/// `true` or `false`.
pub open spec fn bool_text(b: bool) -> Seq<char> {
    if b { "true"@ } else { "false"@ }
}

/// `now - start`, or 0 when `start` is later.
pub open spec fn uptime(start: u64, now: u64) -> nat {
    if now >= start { (now - start) as nat } else { 0 }
}

/// The status record the daemon writes for its web page.
pub open spec fn spec_status_json(pid: u32, start_sec: u64, now: u64, topo: Seq<char>, big: Seq<char>, little: Seq<char>, rules: usize, ebpf: bool, interval: u64, procs: usize, threads: usize, state: Seq<char>) -> Seq<char> {
    "{\"pid\":"@ + dec(pid as nat) + ",\"uptime_sec\":"@ + dec(uptime(start_sec, now))
        + ",\"timestamp\":"@ + dec(now as nat) + ",\"topology\":\""@ + json_escape(topo)
        + "\",\"big\":\""@ + json_escape(big) + "\",\"little\":\""@ + json_escape(little)
        + "\",\"rules\":"@ + dec(rules as nat) + ",\"ebpf\":"@ + bool_text(ebpf)
        + ",\"interval\":"@ + dec(interval as nat) + ",\"last_bind_procs\":"@ + dec(procs as nat)
        + ",\"last_bind_threads\":"@ + dec(threads as nat) + ",\"state\":\""@ + json_escape(state)
        + "\"}"@
}

/// The status record (see [`spec_status_json`]); the uptime is how long
/// after `start_sec` the time `now` is, never negative.
pub fn status_json(pid: u32, start_sec: u64, now: u64, topo: &str, big: &str, little: &str, rules: usize, ebpf: bool, interval: u64, procs: usize, threads: usize, state: &str) -> (r: String)
    ensures
        r@ == spec_status_json(pid, start_sec, now, topo@, big@, little@, rules, ebpf, interval, procs, threads, state@),
{
    let mut s = String::new();
    push_str(&mut s, "{\"pid\":");
    push_dec(&mut s, pid as u64);
    push_str(&mut s, ",\"uptime_sec\":");
    let up: u64 = if now >= start_sec { now - start_sec } else { 0 };
    push_dec(&mut s, up);
    push_str(&mut s, ",\"timestamp\":");
    push_dec(&mut s, now);
    push_str(&mut s, ",\"topology\":\"");
    push_escaped(&mut s, topo, false);
    push_str(&mut s, "\",\"big\":\"");
    push_escaped(&mut s, big, false);
    push_str(&mut s, "\",\"little\":\"");
    push_escaped(&mut s, little, false);
    push_str(&mut s, "\",\"rules\":");
    push_dec(&mut s, rules as u64);
    push_str(&mut s, ",\"ebpf\":");
    if ebpf {
        push_str(&mut s, "true");
    } else {
        push_str(&mut s, "false");
    }
    push_str(&mut s, ",\"interval\":");
    push_dec(&mut s, interval);
    push_str(&mut s, ",\"last_bind_procs\":");
    push_dec(&mut s, procs as u64);
    push_str(&mut s, ",\"last_bind_threads\":");
    push_dec(&mut s, threads as u64);
    push_str(&mut s, ",\"state\":\"");
    push_escaped(&mut s, state, false);
    push_str(&mut s, "\"}");
    assert(s@ =~= spec_status_json(pid, start_sec, now, topo@, big@, little@, rules, ebpf, interval, procs, threads, state@));
    s
}

/// The status record written when the daemon stops on an error.
pub open spec fn spec_error_state_json(pid: u32, now: u64, state: Seq<char>, err: Seq<char>) -> Seq<char> {
    "{\"pid\":"@ + dec(pid as nat) + ",\"uptime_sec\":0,\"timestamp\":"@ + dec(now as nat)
        + ",\"topology\":\"?\",\"big\":\"?\",\"little\":\"?\",\"rules\":0,\"ebpf\":false,\"interval\":0,\"last_bind_procs\":0,\"last_bind_threads\":0,\"state\":\""@
        + json_escape(state) + "\",\"error\":\""@ + json_escape(err) + "\"}"@
}

/// The error status record (see [`spec_error_state_json`]).
pub fn error_state_json(pid: u32, now: u64, state: &str, err: &str) -> (r: String)
    ensures
        r@ == spec_error_state_json(pid, now, state@, err@),
{
    let mut s = String::new();
    push_str(&mut s, "{\"pid\":");
    push_dec(&mut s, pid as u64);
    push_str(&mut s, ",\"uptime_sec\":0,\"timestamp\":");
    push_dec(&mut s, now);
    push_str(&mut s, ",\"topology\":\"?\",\"big\":\"?\",\"little\":\"?\",\"rules\":0,\"ebpf\":false,\"interval\":0,\"last_bind_procs\":0,\"last_bind_threads\":0,\"state\":\"");
    push_escaped(&mut s, state, false);
    push_str(&mut s, "\",\"error\":\"");
    push_escaped(&mut s, err, false);
    push_str(&mut s, "\"}");
    assert(s@ =~= spec_error_state_json(pid, now, state@, err@));
    s
}

/// The status record written when the daemon panics with message `msg`.
pub open spec fn spec_panic_state_json(pid: u32, now: u64, msg: Seq<char>) -> Seq<char> {
    "{\"pid\":"@ + dec(pid as nat) + ",\"uptime_sec\":0,\"timestamp\":"@ + dec(now as nat)
        + ",\"topology\":\"?\",\"big\":\"?\",\"little\":\"?\",\"rules\":0,\"ebpf\":false,\"interval\":0,\"last_bind_procs\":0,\"last_bind_threads\":0,\"state\":\"panic\",\"error\":\""@
        + panic_escape(msg) + "\"}"@
}

/// The panic status record (see [`spec_panic_state_json`]).
pub fn panic_state_json(pid: u32, now: u64, msg: &str) -> (r: String)
    ensures
        r@ == spec_panic_state_json(pid, now, msg@),
{
    let mut s = String::new();
    push_str(&mut s, "{\"pid\":");
    push_dec(&mut s, pid as u64);
    push_str(&mut s, ",\"uptime_sec\":0,\"timestamp\":");
    push_dec(&mut s, now);
    push_str(&mut s, ",\"topology\":\"?\",\"big\":\"?\",\"little\":\"?\",\"rules\":0,\"ebpf\":false,\"interval\":0,\"last_bind_procs\":0,\"last_bind_threads\":0,\"state\":\"panic\",\"error\":\"");
    push_escaped(&mut s, msg, true);
    push_str(&mut s, "\"}");
    assert(s@ =~= spec_panic_state_json(pid, now, msg@));
    s
}

/// A clock field as `{:02}` prints it: one leading zero below 10.
pub open spec fn two_digits(x: i32) -> Seq<char> {
    if 0 <= x < 10 { seq!['0'] + dec(x as nat) } else { dec_int(x as int) }
}

fn push_two_digits(s: &mut String, x: i32)
    ensures
        final(s)@ == old(s)@ + two_digits(x),
{
    if 0 <= x && x < 10 {
        push_char(s, '0');
        push_dec(s, x as u64);
        assert(s@ =~= old(s)@ + two_digits(x));
    } else {
        push_dec_i64(s, x as i64);
    }
}

/// A log line: `[hh:mm:ss][level] msg` and a newline.
pub open spec fn spec_log_line(hour: i32, min: i32, sec: i32, level: Seq<char>, msg: Seq<char>) -> Seq<char> {
    "["@ + two_digits(hour) + ":"@ + two_digits(min) + ":"@ + two_digits(sec) + "]["@ + level + "] "@
        + msg + "\n"@
}

/// The log line for `msg` at level `level` and the local time given
/// (see [`spec_log_line`]).
pub fn log_line(hour: i32, min: i32, sec: i32, level: &str, msg: &str) -> (r: String)
    ensures
        r@ == spec_log_line(hour, min, sec, level@, msg@),
{
    let mut s = String::new();
    push_str(&mut s, "[");
    push_two_digits(&mut s, hour);
    push_str(&mut s, ":");
    push_two_digits(&mut s, min);
    push_str(&mut s, ":");
    push_two_digits(&mut s, sec);
    push_str(&mut s, "][");
    push_str(&mut s, level);
    push_str(&mut s, "] ");
    push_str(&mut s, msg);
    push_str(&mut s, "\n");
    assert(s@ =~= spec_log_line(hour, min, sec, level@, msg@));
    s
}

/// Whether a log file of `size` bytes is emptied before the next line is
/// appended: when it is past 512 KiB.
pub open spec fn log_resets(size: int) -> bool {
    size > 524288
}

/// Whether a log file of `size` bytes is emptied before the next line (see [`log_resets`]).
pub fn log_needs_reset(size: u64) -> (r: bool)
    ensures
        r == log_resets(size as int),
{
    size > 524288
}

} // verus!
