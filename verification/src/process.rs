use vstd::prelude::*;
use crate::config::{PkgSet, Rule, RuleView, rules_view};
use crate::json::views;
use crate::numtext::{parse_i32_chars, parse_i32_spec, parse_unsigned, parse_unsigned_chars};
use crate::pattern::{fnmatch, spec_fnmatch};
use crate::text::{
    chars_of, find_char, first_index, has_char, lemma_first_index, split_on, split_chars,
    string_of, str_eq, sub_chars, trim, trim_range, vviews, words, words_of,
};

verus! {

broadcast use vstd::string::group_string_axioms;

/// The package name in a process's `cmdline`: the text before the first NUL.
pub open spec fn spec_cmdline_pkg(cl: Seq<char>) -> Seq<char> {
    match first_index(cl, '\0') {
        Some(k) => cl.take(k),
        None => cl,
    }
}

/// The package name in the process command line `cl` (see [`spec_cmdline_pkg`]).
pub fn cmdline_pkg(cl: &str) -> (r: String)
    ensures
        r@ == spec_cmdline_pkg(cl@),
{
    let v = chars_of(cl);
    match find_char(v.as_slice(), '\0') {
        Some(k) => {
            proof { lemma_first_index(v@, '\0'); }
            let r = string_of(sub_chars(v.as_slice(), 0, k).as_slice());
            assert(v@.subrange(0, k as int) =~= v@.take(k as int));
            r
        },
        None => string_of(v.as_slice()),
    }
}

/// `pkg` is named in `set` or matches one of the patterns `wild`.
pub open spec fn spec_watched(set: Set<Seq<char>>, wild: Seq<Seq<char>>, pkg: Seq<char>) -> bool {
    set.contains(pkg) || exists|i: int| 0 <= i < wild.len() && spec_fnmatch(#[trigger] wild[i], pkg)
}

/// Whether the package `pkg` is one the configuration covers (see [`spec_watched`]).
pub fn is_watched(set: &PkgSet, wild: &Vec<String>, pkg: &str) -> (r: bool)
    ensures
        r == spec_watched(set@, views(wild@), pkg@),
{
    if set.contains(pkg) {
        return true;
    }
    let mut i: usize = 0;
    while i < wild.len()
        invariant
            i <= wild@.len(),
            forall|j: int| 0 <= j < i ==> !spec_fnmatch(#[trigger] views(wild@)[j], pkg@),
        decreases wild@.len() - i,
    {
        assert(views(wild@)[i as int] == wild@[i as int]@);
        if fnmatch(wild[i].as_str(), pkg) {
            return true;
        }
        i = i + 1;
    }
    false
}

/// How strongly rule `r` claims a thread named `comm` of package `pkg`:
/// a default rule (empty thread pattern) of the package, or whose package
/// pattern matches, claims every thread with priority 200; a thread rule of
/// the package itself claims the threads its pattern matches with its own
/// priority; other rules claim nothing.
pub open spec fn claim(r: RuleView, pkg: Seq<char>, comm: Seq<char>) -> Option<int> {
    if !(r.0 == pkg || (r.1.len() == 0 && spec_fnmatch(r.0, pkg))) {
        None
    } else if r.1.len() == 0 {
        Some(200)
    } else if spec_fnmatch(r.1, comm) {
        Some(r.3 as int)
    } else {
        None
    }
}

/// The CPUs chosen for a thread and the priority of the choice: going through
/// the rules in order, a claim replaces the current choice when its priority
/// is higher; no choice is empty CPUs with priority -1.
pub open spec fn select(rs: Seq<RuleView>, pkg: Seq<char>, comm: Seq<char>) -> (Seq<char>, int)
    decreases rs.len(),
{
    if rs.len() == 0 {
        (Seq::empty(), -1)
    } else {
        let prev = select(rs.drop_last(), pkg, comm);
        match claim(rs.last(), pkg, comm) {
            Some(q) => if q > prev.1 { (rs.last().2, q) } else { prev },
            None => prev,
        }
    }
}

/// The CPUs for the thread `comm` of package `pkg` under `rules`
/// (see [`select`]); empty when no rule claims it.
pub fn select_cpus(rules: &Vec<Rule>, pkg: &str, comm: &str) -> (r: String)
    ensures
        r@ == select(rules_view(rules@), pkg@, comm@).0,
{
    let mut best = String::new();
    let mut bp: i32 = -1;
    let mut i: usize = 0;
    let ghost rv = rules_view(rules@);
    assert(rv.take(0) =~= Seq::<RuleView>::empty());
    while i < rules.len()
        invariant
            i <= rules@.len(),
            rv == rules_view(rules@),
            (best@, bp as int) == select(rv.take(i as int), pkg@, comm@),
        decreases rules@.len() - i,
    {
        assert(rv.take(i + 1).drop_last() =~= rv.take(i as int));
        assert(rv.take(i + 1).last() == rules@[i as int]@);
        let r = &rules[i];
        let pm = str_eq(r.pkg.as_str(), pkg) || (r.thread.as_str().is_empty() && fnmatch(r.pkg.as_str(), pkg));
        if pm {
            if r.thread.as_str().is_empty() {
                if 200 > bp {
                    best = r.cpus.clone();
                    bp = 200;
                }
            } else if fnmatch(r.thread.as_str(), comm) && r.prio > bp {
                best = r.cpus.clone();
                bp = r.prio;
            }
        }
        i = i + 1;
    }
    assert(rv.take(rules@.len() as int) =~= rv);
    best
}

/// The process that placement handles among the `/proc` entries: a process
/// id of at least 1000 whose package (see [`spec_cmdline_pkg`]) is not empty
/// and watched.
pub open spec fn spec_scan_target(set: Set<Seq<char>>, wild: Seq<Seq<char>>, pid: i32, cmdline: Seq<char>) -> Option<Seq<char>> {
    let pkg = spec_cmdline_pkg(cmdline);
    if pid < 1000 || pkg.len() == 0 || !spec_watched(set, wild, pkg) {
        None
    } else {
        Some(pkg)
    }
}

/// The package of process `pid` with command line `cmdline` when placement
/// handles it (see [`spec_scan_target`]).
pub fn scan_target(set: &PkgSet, wild: &Vec<String>, pid: i32, cmdline: &str) -> (r: Option<String>)
    ensures
        match spec_scan_target(set@, views(wild@), pid, cmdline@) {
            Some(pkg) => r matches Some(s) && s@ == pkg,
            None => r is None,
        },
{
    if pid < 1000 {
        return None;
    }
    let pkg = cmdline_pkg(cmdline);
    if pkg.as_str().is_empty() {
        return None;
    }
    if !is_watched(set, wild, pkg.as_str()) {
        return None;
    }
    Some(pkg)
}

/// A thread's id, `comm` name and CPUs: the id is the entry name as an `i32`
/// (0 when it is none), the name the trimmed `comm` text.
pub open spec fn spec_thread_entry(rules: Seq<RuleView>, pkg: Seq<char>, tid_name: Seq<char>, comm_text: Seq<char>) -> (int, Seq<char>, Seq<char>) {
    let tid = match parse_i32_spec(tid_name) {
        Some(t) => t,
        None => 0,
    };
    let comm = trim(comm_text);
    (tid, comm, select(rules, pkg, comm).0)
}

/// The placement of one thread of package `pkg` (see [`spec_thread_entry`]).
pub fn thread_entry(rules: &Vec<Rule>, pkg: &str, tid_name: &str, comm_text: &str) -> (r: (i32, String, String))
    ensures
        ({
            let s = spec_thread_entry(rules_view(rules@), pkg@, tid_name@, comm_text@);
            r.0 == s.0 && r.1@ == s.1 && r.2@ == s.2
        }),
{
    let tid = match parse_i32_chars(chars_of(tid_name).as_slice()) {
        Some(t) => t,
        None => 0,
    };
    let comm = trimmed(comm_text);
    let best = select_cpus(rules, pkg, comm.as_str());
    (tid, comm, best)
}

/// `str::trim` as a `String`.
pub fn trimmed(s: &str) -> (r: String)
    ensures
        r@ == trim(s@),
{
    let v = chars_of(s);
    let (a, b) = trim_range(v.as_slice(), 0, v.len());
    assert(v@.subrange(0, v@.len() as int) =~= v@);
    string_of(sub_chars(v.as_slice(), a, b).as_slice())
}

/// The user id on the first line of a `/proc/<pid>/status` text that starts
/// with `Uid:`: the second word of that line as a `u32`.
pub open spec fn status_uid(lines: Seq<Seq<char>>) -> Option<nat>
    decreases lines.len(),
{
    if lines.len() == 0 {
        None
    } else if "Uid:"@.is_prefix_of(lines[0]) {
        let w = words(lines[0]);
        if w.len() >= 2 {
            parse_unsigned(w[1], u32::MAX as nat)
        } else {
            None
        }
    } else {
        status_uid(lines.drop_first())
    }
}

/// Whether a status text is that of an app: its user id is at least 10000.
/// Lines are the pieces between newlines; a `\r` before a newline, which
/// `str::lines` would drop, changes neither how a line starts nor its words.
pub open spec fn spec_is_app_status(status: Seq<char>) -> bool {
    match status_uid(split_on(status, '\n')) {
        Some(u) => u >= 10000,
        None => false,
    }
}

/// Whether the `/proc/<pid>/status` text `status` is that of an app process
/// (see [`spec_is_app_status`]).
pub fn is_app_status(status: &str) -> (r: bool)
    ensures
        r == spec_is_app_status(status@),
{
    let v = chars_of(status);
    let lines = split_chars(v.as_slice(), '\n');
    let prefix = chars_of("Uid:");
    proof {
        reveal_strlit("Uid:");
    }
    let mut i: usize = 0;
    let ghost ls = vviews(lines@);
    assert(ls.skip(0) =~= ls);
    while i < lines.len()
        invariant
            i <= lines@.len(),
            ls == vviews(lines@),
            ls == split_on(v@, '\n'),
            v@ == status@,
            prefix@ == "Uid:"@,
            prefix@.len() == 4,
            status_uid(ls) == status_uid(ls.skip(i as int)),
        decreases lines@.len() - i,
    {
        let line = &lines[i];
        assert(ls.skip(i as int)[0] == line@);
        assert(ls.skip(i as int).drop_first() =~= ls.skip(i + 1));
        let starts = line.len() >= 4 && crate::text::region_eq(line.as_slice(), 0, prefix.as_slice(), 0, 4);
        proof {
            if starts {
                assert(prefix@.subrange(0, 4) =~= prefix@);
            }
            if prefix@.is_prefix_of(line@) {
                assert(prefix@.subrange(0, 4) =~= prefix@);
            }
        }
        if starts {
            let w = words_of(line.as_slice());
            assert("Uid:"@.is_prefix_of(ls.skip(i as int)[0]));
            assert(status_uid(ls.skip(i as int)) == if vviews(w@).len() >= 2 {
                parse_unsigned(vviews(w@)[1], u32::MAX as nat)
            } else {
                None
            });
            if w.len() >= 2 {
                assert(vviews(w@)[1] == w@[1]@);
                return match parse_unsigned_chars(w[1].as_slice(), 4294967295) {
                    Some(u) => u >= 10000,
                    None => false,
                };
            }
            return false;
        }
        i = i + 1;
    }
    false
}

/// An app process that no rule covers yet: the entry name is a process id of
/// at least 1000, the status is an app's, and the package from the command
/// line is not empty, has a `.` and no `/`, and is not watched.
pub open spec fn spec_unknown_target(set: Set<Seq<char>>, wild: Seq<Seq<char>>, pid_name: Seq<char>, status: Seq<char>, cmdline: Seq<char>) -> Option<(int, Seq<char>)> {
    match parse_i32_spec(pid_name) {
        Some(pid) => {
            let pkg = spec_cmdline_pkg(cmdline);
            if pid < 1000 || !spec_is_app_status(status) || pkg.len() == 0 || pkg.contains('/')
                || !pkg.contains('.') || spec_watched(set, wild, pkg) {
                None
            } else {
                Some((pid, pkg))
            }
        },
        None => None,
    }
}

/// Process id and package of an app process that no rule covers yet
/// (see [`spec_unknown_target`]).
pub fn unknown_target(set: &PkgSet, wild: &Vec<String>, pid_name: &str, status: &str, cmdline: &str) -> (r: Option<(i32, String)>)
    ensures
        match spec_unknown_target(set@, views(wild@), pid_name@, status@, cmdline@) {
            Some((pid, pkg)) => r matches Some((p, s)) && p == pid && s@ == pkg,
            None => r is None,
        },
{
    let pid = match parse_i32_chars(chars_of(pid_name).as_slice()) {
        Some(p) => p,
        None => {
            return None;
        },
    };
    if pid < 1000 {
        return None;
    }
    if !is_app_status(status) {
        return None;
    }
    let pkg = cmdline_pkg(cmdline);
    let pv = chars_of(pkg.as_str());
    if pv.len() == 0 || has_char(pv.as_slice(), '/') || !has_char(pv.as_slice(), '.') {
        return None;
    }
    if is_watched(set, wild, pkg.as_str()) {
        return None;
    }
    Some((pid, pkg))
}

/// A thread of an app no rule covers: its id (0 when the entry name is no
/// `i32`) and its trimmed `comm` name.
pub fn unknown_thread(tid_name: &str, comm_text: &str) -> (r: (i32, String))
    ensures
        r.0 == match parse_i32_spec(tid_name@) {
            Some(t) => t,
            None => 0,
        },
        r.1@ == trim(comm_text@),
{
    let tid = match parse_i32_chars(chars_of(tid_name).as_slice()) {
        Some(t) => t,
        None => 0,
    };
    (tid, trimmed(comm_text))
}

} // verus!

verus! {

/// The threads among `ts` (id, name, CPUs) that have CPUs, as (id, CPUs).
pub open spec fn thread_binds(ts: Seq<(i32, String, String)>) -> Seq<(i32, Seq<char>)>
    decreases ts.len(),
{
    if ts.len() == 0 {
        Seq::empty()
    } else {
        thread_binds(ts.drop_last()) + if ts.last().2@.len() == 0 {
            Seq::empty()
        } else {
            seq![(ts.last().0, ts.last().2@)]
        }
    }
}

/// The threads with CPUs of all processes `ps`, in order.
pub open spec fn proc_binds(ps: Seq<(i32, String, Vec<(i32, String, String)>)>) -> Seq<(i32, Seq<char>)>
    decreases ps.len(),
{
    if ps.len() == 0 {
        Seq::empty()
    } else {
        proc_binds(ps.drop_last()) + thread_binds(ps.last().2@)
    }
}

/// Each binding with a flag that tells whether its CPUs come up for the first time.
pub open spec fn first_flags(bs: Seq<(i32, Seq<char>)>) -> Seq<(i32, Seq<char>, bool)>
    decreases bs.len(),
{
    if bs.len() == 0 {
        Seq::empty()
    } else {
        first_flags(bs.drop_last()).push(
            (bs.last().0, bs.last().1, !bs.drop_last().map_values(|b: (i32, Seq<char>)| b.1).contains(bs.last().1)),
        )
    }
}

/// The views of bindings.
pub open spec fn binds_view(v: Seq<(i32, String, bool)>) -> Seq<(i32, Seq<char>, bool)> {
    v.map_values(|t: (i32, String, bool)| (t.0, t.1@, t.2))
}

/// What binding the scanned processes `procs` takes: every thread that has
/// CPUs, in order, as (thread id, CPUs, whether these CPUs come up for the
/// first time and so need their cpuset prepared). Its length is the number
/// of threads bound.
pub fn bind_plan(procs: &Vec<(i32, String, Vec<(i32, String, String)>)>) -> (r: Vec<(i32, String, bool)>)
    ensures
        binds_view(r@) == first_flags(proc_binds(procs@)),
{
    let mut out: Vec<(i32, String, bool)> = Vec::new();
    let mut seen: Vec<String> = Vec::new();
    let mut i: usize = 0;
    assert(procs@.take(0) =~= Seq::<(i32, String, Vec<(i32, String, String)>)>::empty());
    assert(binds_view(out@) =~= first_flags(proc_binds(procs@.take(0))));
    while i < procs.len()
        invariant
            i <= procs@.len(),
            binds_view(out@) == first_flags(proc_binds(procs@.take(i as int))),
            views(seen@) == proc_binds(procs@.take(i as int)).map_values(|b: (i32, Seq<char>)| b.1),
        decreases procs@.len() - i,
    {
        let ts = &procs[i].2;
        let ghost base = proc_binds(procs@.take(i as int));
        let mut j: usize = 0;
        assert(ts@.take(0) =~= Seq::<(i32, String, String)>::empty());
        assert(base + thread_binds(ts@.take(0)) =~= base);
        while j < ts.len()
            invariant
                i < procs@.len(),
                *ts == procs@[i as int].2,
                j <= ts@.len(),
                base == proc_binds(procs@.take(i as int)),
                binds_view(out@) == first_flags(base + thread_binds(ts@.take(j as int))),
                views(seen@) == (base + thread_binds(ts@.take(j as int))).map_values(|b: (i32, Seq<char>)| b.1),
            decreases ts@.len() - j,
        {
            let ghost flat = base + thread_binds(ts@.take(j as int));
            assert(ts@.take(j + 1).drop_last() =~= ts@.take(j as int));
            let t = &ts[j];
            if t.2.as_str().is_empty() {
                assert(base + thread_binds(ts@.take(j + 1)) =~= flat);
            } else {
                let first = !contains_string_view(&seen, t.2.as_str());
                let ghost nf = flat.push((t.0, t.2@));
                assert(base + thread_binds(ts@.take(j + 1)) =~= nf);
                assert(nf.drop_last() =~= flat);
                out.push((t.0, t.2.clone(), first));
                let ghost seen0 = seen@;
                seen.push(t.2.clone());
                assert(views(seen@) =~= views(seen0).push(t.2@));
                assert(nf.map_values(|b: (i32, Seq<char>)| b.1) =~= flat.map_values(|b: (i32, Seq<char>)| b.1).push(t.2@));
                assert(binds_view(out@) =~= first_flags(nf));
                assert(views(seen@) =~= nf.map_values(|b: (i32, Seq<char>)| b.1));
            }
            j = j + 1;
        }
        assert(ts@.take(ts@.len() as int) =~= ts@);
        assert(procs@.take(i + 1).drop_last() =~= procs@.take(i as int));
        i = i + 1;
    }
    assert(procs@.take(procs@.len() as int) =~= procs@);
    out
}

fn contains_string_view(v: &Vec<String>, s: &str) -> (r: bool)
    ensures
        r == views(v@).contains(s@),
{
    crate::text::contains_string(v, s)
}

/// `str::parse::<usize>`.
pub open spec fn parse_usize(s: Seq<char>) -> Option<nat> {
    parse_unsigned(s, usize::MAX as nat)
}

/// The CPUs a trimmed part of a CPU list names: `a-b` (split at the first
/// `-`) when both ends are numbers, or a single number `c` as `c-c`.
pub open spec fn cpu_part(t: Seq<char>) -> Option<(nat, nat)> {
    if t.len() == 0 {
        None
    } else {
        match first_index(t, '-') {
            Some(k) => match (parse_usize(t.take(k)), parse_usize(t.skip(k + 1))) {
                (Some(a), Some(b)) => Some((a, b)),
                _ => None,
            },
            None => match parse_usize(t) {
                Some(c) => Some((c, c)),
                None => None,
            },
        }
    }
}

/// Like [`cpu_part`], but an unreadable start counts as 0 and an unreadable
/// end as the start.
pub open spec fn cpu_part_lenient(t: Seq<char>) -> Option<(nat, nat)> {
    if t.len() == 0 {
        None
    } else {
        match first_index(t, '-') {
            Some(k) => {
                let a = match parse_usize(t.take(k)) {
                    Some(a) => a,
                    None => 0,
                };
                let b = match parse_usize(t.skip(k + 1)) {
                    Some(b) => b,
                    None => a,
                };
                Some((a, b))
            },
            None => match parse_usize(t) {
                Some(c) => Some((c, c)),
                None => None,
            },
        }
    }
}

/// The inclusive CPU ranges of the comma-separated parts `ps`, each part
/// trimmed; parts that name none are left out.
pub open spec fn cpu_parts(ps: Seq<Seq<char>>, lenient: bool) -> Seq<(nat, nat)>
    decreases ps.len(),
{
    if ps.len() == 0 {
        Seq::empty()
    } else {
        cpu_parts(ps.drop_last(), lenient) + match (if lenient {
            cpu_part_lenient(trim(ps.last()))
        } else {
            cpu_part(trim(ps.last()))
        }) {
            Some(x) => seq![x],
            None => Seq::empty(),
        }
    }
}

/// The CPU ranges of a CPU list such as `0-3,6`.
pub open spec fn spec_cpu_ranges(s: Seq<char>, lenient: bool) -> Seq<(nat, nat)> {
    cpu_parts(split_on(s, ','), lenient)
}

/// The views of CPU ranges.
pub open spec fn ranges_view(v: Seq<(usize, usize)>) -> Seq<(nat, nat)> {
    v.map_values(|x: (usize, usize)| (x.0 as nat, x.1 as nat))
}

fn parse_usize_chars(v: &[char]) -> (r: Option<usize>)
    ensures
        match parse_usize(v@) {
            Some(n) => r == Some(n as usize),
            None => r is None,
        },
{
    match parse_unsigned_chars(v, usize::MAX as u64) {
        Some(n) => Some(n as usize),
        None => None,
    }
}

fn one_part(t: &[char], lenient: bool) -> (r: Option<(usize, usize)>)
    ensures
        match (if lenient { cpu_part_lenient(t@) } else { cpu_part(t@) }) {
            Some(x) => r matches Some(y) && y.0 == x.0 && y.1 == x.1,
            None => r is None,
        },
{
    if t.len() == 0 {
        return None;
    }
    match find_char(t, '-') {
        Some(k) => {
            proof { lemma_first_index(t@, '-'); }
            let s = sub_chars(t, 0, k);
            let e = sub_chars(t, k + 1, t.len());
            assert(s@ =~= t@.take(k as int));
            assert(e@ =~= t@.skip(k + 1));
            let a = parse_usize_chars(s.as_slice());
            let b = parse_usize_chars(e.as_slice());
            if lenient {
                let a2: usize = match a {
                    Some(x) => x,
                    None => 0,
                };
                let b2: usize = match b {
                    Some(x) => x,
                    None => a2,
                };
                Some((a2, b2))
            } else {
                match (a, b) {
                    (Some(x), Some(y)) => Some((x, y)),
                    _ => None,
                }
            }
        },
        None => match parse_usize_chars(t) {
            Some(c) => Some((c, c)),
            None => None,
        },
    }
}

/// The inclusive CPU ranges a CPU list names (see [`spec_cpu_ranges`]);
/// with `lenient`, unreadable range ends get defaults instead of dropping
/// the part.
pub fn cpu_ranges(cpus: &str, lenient: bool) -> (r: Vec<(usize, usize)>)
    ensures
        ranges_view(r@) == spec_cpu_ranges(cpus@, lenient),
{
    let v = chars_of(cpus);
    let parts = split_chars(v.as_slice(), ',');
    let ghost ps = vviews(parts@);
    let mut out: Vec<(usize, usize)> = Vec::new();
    let mut i: usize = 0;
    assert(ps.take(0) =~= Seq::<Seq<char>>::empty());
    assert(ranges_view(out@) =~= cpu_parts(ps.take(0), lenient));
    while i < parts.len()
        invariant
            i <= parts@.len(),
            ps == vviews(parts@),
            ranges_view(out@) == cpu_parts(ps.take(i as int), lenient),
        decreases parts@.len() - i,
    {
        let p = &parts[i];
        assert(ps[i as int] == p@);
        assert(ps.take(i + 1).drop_last() =~= ps.take(i as int));
        let (a, b) = trim_range(p.as_slice(), 0, p.len());
        assert(p@.subrange(0, p@.len() as int) =~= p@);
        let t = sub_chars(p.as_slice(), a, b);
        match one_part(t.as_slice(), lenient) {
            Some(x) => {
                out.push(x);
                assert(ranges_view(out@) =~= cpu_parts(ps.take(i + 1), lenient));
            },
            None => {
                assert(ranges_view(out@) =~= cpu_parts(ps.take(i + 1), lenient));
            },
        }
        i = i + 1;
    }
    assert(ps.take(parts@.len() as int) =~= ps);
    out
}

/// `s` with every `,` turned into `.`.
pub open spec fn commas_to_dots(s: Seq<char>) -> Seq<char> {
    s.map_values(|c: char| if c == ',' { '.' } else { c })
}

/// The cpuset directory for the CPU list `cpus`.
pub open spec fn spec_cpuset_dir(cpus: Seq<char>) -> Seq<char> {
    "/dev/cpuset/AppOpt/"@ + commas_to_dots(cpus)
}

/// The cpuset directory for the CPU list `cpus` (see [`spec_cpuset_dir`]).
pub fn cpuset_dir(cpus: &str) -> (r: String)
    ensures
        r@ == spec_cpuset_dir(cpus@),
{
    let mut r = String::from_str("/dev/cpuset/AppOpt/");
    let v = chars_of(cpus);
    let ghost base = r@;
    let mut i: usize = 0;
    while i < v.len()
        invariant
            i <= v@.len(),
            base == "/dev/cpuset/AppOpt/"@,
            r@ == base + commas_to_dots(v@.take(i as int)),
        decreases v@.len() - i,
    {
        let c = if v[i] == ',' { '.' } else { v[i] };
        crate::text::push_char(&mut r, c);
        assert(commas_to_dots(v@.take(i + 1)) =~= commas_to_dots(v@.take(i as int)).push(c));
        i = i + 1;
    }
    assert(v@.take(v@.len() as int) =~= v@);
    r
}

} // verus!

verus! {

/// The record length of the `getdents64` record at `off` (bytes 16 and 17),
/// read little-endian or big-endian.
pub open spec fn rec_len(buf: Seq<u8>, off: int, little: bool) -> int {
    if little {
        buf[off + 16] as int + 256 * buf[off + 17] as int
    } else {
        256 * buf[off + 16] as int + buf[off + 17] as int
    }
}

/// The inode number of the record at `off` (its first 8 bytes) is 0.
pub open spec fn ino_zero(buf: Seq<u8>, off: int) -> bool {
    buf[off] == 0 && buf[off + 1] == 0 && buf[off + 2] == 0 && buf[off + 3] == 0 && buf[off + 4] == 0
        && buf[off + 5] == 0 && buf[off + 6] == 0 && buf[off + 7] == 0
}

/// The record at `off` names an entry: its length is at least 20 and its
/// inode number is not 0.
pub open spec fn rec_used(buf: Seq<u8>, off: int, little: bool) -> bool {
    rec_len(buf, off, little) >= 20 && !ino_zero(buf, off)
}

/// The records from `off` up to `n` can be walked: each has its header
/// within `buf`, a length above 0, and the name of a used record within `buf`.
pub open spec fn dirents_ok(buf: Seq<u8>, off: int, n: int, little: bool) -> bool
    decreases n - off,
{
    if off < 0 || off >= n {
        true
    } else if off + 18 > buf.len() || rec_len(buf, off, little) <= 0 || (
    rec_len(buf, off, little) == 19 && !ino_zero(buf, off)) {
        false
    } else {
        (rec_used(buf, off, little) ==> off + rec_len(buf, off, little) - 1 <= buf.len()) && (off
            + rec_len(buf, off, little) < n ==> dirents_ok(buf, off + rec_len(buf, off, little), n, little))
    }
}

/// The names of the used records from `off` up to `n`: the bytes from 19 to
/// one before the record's end (trailing padding included).
pub open spec fn dirent_names_from(buf: Seq<u8>, off: int, n: int, little: bool) -> Seq<Seq<u8>>
    decreases n - off,
{
    if off < 0 || off >= n || off + 18 > buf.len() || rec_len(buf, off, little) <= 0 {
        Seq::empty()
    } else {
        (if rec_used(buf, off, little) {
            seq![buf.subrange(off + 19, off + rec_len(buf, off, little) - 1)]
        } else {
            Seq::empty()
        }) + if off + rec_len(buf, off, little) < n {
            dirent_names_from(buf, off + rec_len(buf, off, little), n, little)
        } else {
            Seq::empty()
        }
    }
}

fn rec_len_at(buf: &[u8], off: usize, little: bool) -> (r: usize)
    requires
        off + 18 <= buf.len(),
    ensures
        r == rec_len(buf@, off as int, little),
{
    let a = buf[off + 16] as usize;
    let b = buf[off + 17] as usize;
    if little { a + 256 * b } else { 256 * a + b }
}

fn ino_zero_at(buf: &[u8], off: usize) -> (r: bool)
    requires
        off + 18 <= buf.len(),
    ensures
        r == ino_zero(buf@, off as int),
{
    buf[off] == 0 && buf[off + 1] == 0 && buf[off + 2] == 0 && buf[off + 3] == 0 && buf[off + 4] == 0
        && buf[off + 5] == 0 && buf[off + 6] == 0 && buf[off + 7] == 0
}

/// Whether the `getdents64` records in `buf[..n]` can be walked (see
/// [`dirents_ok`]); `little` tells the byte order of the machine.
pub fn dirents_well_formed(buf: &[u8], n: usize, little: bool) -> (r: bool)
    ensures
        r == dirents_ok(buf@, 0, n as int, little),
{
    let mut off: usize = 0;
    while off < n
        invariant
            dirents_ok(buf@, off as int, n as int, little) == dirents_ok(buf@, 0, n as int, little),
        decreases n - off,
    {
        if off > buf.len() || buf.len() - off < 18 {
            return false;
        }
        let rec = rec_len_at(buf, off, little);
        let zero = ino_zero_at(buf, off);
        if rec == 0 || (rec == 19 && !zero) {
            return false;
        }
        if rec >= 20 && !zero && rec - 1 > buf.len() - off {
            return false;
        }
        if rec >= n - off {
            return true;
        }
        off = off + rec;
    }
    true
}

/// The names of the entries in the `getdents64` records `buf[..n]` (see
/// [`dirent_names_from`]); `little` tells the byte order of the machine.
pub fn dirent_names(buf: &[u8], n: usize, little: bool) -> (r: Vec<Vec<u8>>)
    requires
        dirents_ok(buf@, 0, n as int, little),
    ensures
        r@.map_values(|x: Vec<u8>| x@) == dirent_names_from(buf@, 0, n as int, little),
{
    let mut out: Vec<Vec<u8>> = Vec::new();
    let mut off: usize = 0;
    let ghost total = dirent_names_from(buf@, 0, n as int, little);
    assert(out@.map_values(|x: Vec<u8>| x@) + dirent_names_from(buf@, 0, n as int, little) =~= total);
    while off < n
        invariant
            dirents_ok(buf@, off as int, n as int, little),
            total == dirent_names_from(buf@, 0, n as int, little),
            out@.map_values(|x: Vec<u8>| x@) + dirent_names_from(buf@, off as int, n as int, little) == total,
        decreases n - off,
    {
        let blen = buf.len();
        assert(off + 18 <= blen);
        let rec = rec_len_at(buf, off, little);
        let zero = ino_zero_at(buf, off);
        let ghost rest = if off + rec < n { dirent_names_from(buf@, off + rec, n as int, little) } else { Seq::<Seq<u8>>::empty() };
        if rec >= 20 && !zero {
            let mut name: Vec<u8> = Vec::new();
            let mut k = off + 19;
            assert(off + rec - 1 <= buf@.len());
            let end = off + (rec - 1);
            while k < end
                invariant
                    end == off + rec - 1,
                    off + 19 <= k <= off + rec - 1 <= buf@.len(),
                    name@ == buf@.subrange(off + 19, k as int),
                decreases end - k,
            {
                name.push(buf[k]);
                assert(name@ =~= buf@.subrange(off + 19, k + 1));
                k = k + 1;
            }
            let ghost before = out@;
            out.push(name);
            assert(out@.map_values(|x: Vec<u8>| x@) =~= before.map_values(|x: Vec<u8>| x@).push(buf@.subrange(off + 19, off + rec - 1)));
            assert(out@.map_values(|x: Vec<u8>| x@) + rest =~= total);
        } else {
            assert(out@.map_values(|x: Vec<u8>| x@) + rest =~= total);
        }
        if rec >= n - off {
            assert(out@.map_values(|x: Vec<u8>| x@) =~= total);
            return out;
        }
        off = off + rec;
    }
    assert(dirent_names_from(buf@, off as int, n as int, little) =~= Seq::<Seq<u8>>::empty());
    assert(out@.map_values(|x: Vec<u8>| x@) =~= total);
    out
}

/// The bytes of an entry name as characters, when they are all ASCII.
pub open spec fn ascii_chars(b: Seq<u8>) -> Option<Seq<char>> {
    if forall|i: int| 0 <= i < b.len() ==> #[trigger] b[i] < 128 {
        Some(b.map_values(|x: u8| x as char))
    } else {
        None
    }
}

/// The process id an entry name gives: the name read as text and parsed as
/// an `i32`. Only ASCII names can parse, so any other name gives none.
pub open spec fn spec_pid_of_name(b: Seq<u8>) -> Option<int> {
    match ascii_chars(b) {
        Some(c) => parse_i32_spec(c),
        None => None,
    }
}

/// The process id an entry name gives (see [`spec_pid_of_name`]).
pub fn pid_of_name(b: &[u8]) -> (r: Option<i32>)
    ensures
        match spec_pid_of_name(b@) {
            Some(p) => r == Some(p as i32),
            None => r is None,
        },
{
    let mut v: Vec<char> = Vec::new();
    let mut i: usize = 0;
    while i < b.len()
        invariant
            i <= b@.len(),
            forall|j: int| 0 <= j < i ==> #[trigger] b@[j] < 128,
            v@ == b@.take(i as int).map_values(|x: u8| x as char),
        decreases b@.len() - i,
    {
        if b[i] >= 128 {
            return None;
        }
        v.push(b[i] as char);
        assert(v@ =~= b@.take(i + 1).map_values(|x: u8| x as char));
        i = i + 1;
    }
    assert(b@.take(b@.len() as int) =~= b@);
    parse_i32_chars(v.as_slice())
}

} // verus!
