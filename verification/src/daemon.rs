use vstd::prelude::*;
use crate::json::views;
use crate::numtext::{parse_unsigned, parse_unsigned_chars};
use crate::text::{chars_of, push_str, str_eq};

verus! {

broadcast use vstd::string::group_string_axioms;

/// The configuration path and the scan interval in seconds that the
/// command-line arguments `args[i..]` set, starting from `cfg` and `iv`:
/// `-c PATH` sets the path, `-s N` the interval (2 when `N` is no `u64`),
/// anything else is skipped; a flag without a value changes nothing.
pub open spec fn scan_args(args: Seq<Seq<char>>, i: int, cfg: Seq<char>, iv: nat) -> (Seq<char>, nat)
    decreases args.len() - i,
{
    if i < 0 || i >= args.len() {
        (cfg, iv)
    } else if args[i] == "-c"@ {
        if i + 1 < args.len() {
            scan_args(args, i + 2, args[i + 1], iv)
        } else {
            (cfg, iv)
        }
    } else if args[i] == "-s"@ {
        if i + 1 < args.len() {
            let n = match parse_unsigned(args[i + 1], u64::MAX as nat) {
                Some(n) => n,
                None => 2,
            };
            scan_args(args, i + 2, cfg, n)
        } else {
            (cfg, iv)
        }
    } else {
        scan_args(args, i + 1, cfg, iv)
    }
}

/// The configuration path and scan interval the daemon runs with: the
/// program's arguments after its name, read as [`scan_args`] does from the
/// default path and 2 seconds, with an interval of 0 raised to 1.
pub open spec fn spec_daemon_args(args: Seq<Seq<char>>, default_cfg: Seq<char>) -> (Seq<char>, nat) {
    let r = scan_args(args, 1, default_cfg, 2);
    (r.0, if r.1 < 1 { 1 } else { r.1 })
}

/// The configuration path and scan interval set by the command line `args`
/// (see [`spec_daemon_args`]).
pub fn daemon_args(args: &Vec<String>, default_cfg: String) -> (r: (String, u64))
    ensures
        r.0@ == spec_daemon_args(views(args@), default_cfg@).0,
        r.1 == spec_daemon_args(views(args@), default_cfg@).1,
{
    let ghost a = views(args@);
    let mut cfg = default_cfg;
    let mut iv: u64 = 2;
    let mut i: usize = 1;
    while i < args.len()
        invariant
            a == views(args@),
            1 <= i,
            scan_args(a, i as int, cfg@, iv as nat) == scan_args(a, 1, default_cfg@, 2),
        decreases args@.len() - i,
    {
        assert(a[i as int] == args@[i as int]@);
        if str_eq(args[i].as_str(), "-c") {
            i = i + 1;
            if i < args.len() {
                assert(a[i as int] == args@[i as int]@);
                cfg = args[i].clone();
            } else {
                return (cfg, if iv < 1 { 1 } else { iv });
            }
        } else if str_eq(args[i].as_str(), "-s") {
            i = i + 1;
            if i < args.len() {
                assert(a[i as int] == args@[i as int]@);
                iv = match parse_unsigned_chars(chars_of(args[i].as_str()).as_slice(), u64::MAX) {
                    Some(n) => n,
                    None => 2,
                };
            } else {
                return (cfg, if iv < 1 { 1 } else { iv });
            }
        }
        i = i + 1;
    }
    (cfg, if iv < 1 { 1 } else { iv })
}

/// Where a default configuration may be found for the CPU topology `topo`,
/// in the order they are tried: one for the topology, then the 4+3+1 one.
pub fn default_config_candidates(topo: &str) -> (r: (String, String))
    ensures
        r.0@ == "/data/adb/modules/aether-optext/config/"@ + topo@ + ".json"@,
        r.1@ == "/data/adb/modules/aether-optext/config/4+3+1.json"@,
{
    let mut a = String::new();
    push_str(&mut a, "/data/adb/modules/aether-optext/config/");
    push_str(&mut a, topo);
    push_str(&mut a, ".json");
    let mut b = String::new();
    push_str(&mut b, "/data/adb/modules/aether-optext/config/4+3+1.json");
    (a, b)
}

/// One round of the countdown to the next application of placement: whether
/// it is due now, and the countdown after the round.
pub open spec fn countdown_step(c: int) -> (bool, int) {
    if c <= 1 { (true, 5) } else { (false, c - 1) }
}

/// One start of a round of the search counter: whether this round searches
/// for new apps, and the counter after it.
pub open spec fn round_step(r: int) -> (bool, int) {
    if r + 1 >= 30 { (true, 0) } else { (false, r + 1) }
}

/// Where a round of the main loop stands: the outside work it waits on.
#[derive(Clone, Copy, Debug, PartialEq, Eq, Structural)]
pub enum Phase {
    /// The round is over; the next starts with a tick.
    Idle,
    /// The configuration is being reloaded.
    Reload,
    /// The processes are rescanned after a reload.
    ReloadScan,
    /// The processes are rescanned because a signal asked for it.
    SignalScan,
    /// New processes reported by eBPF are read.
    Ebpf,
    /// Apps that no rule names are searched for.
    Search,
    /// The number of processes is read.
    ProcCount,
    /// The processes found by the last scan are checked to be alive.
    Pids,
    /// The processes are rescanned because they changed.
    Rescan,
    /// The placement is applied.
    Apply,
    /// The processes are rescanned because a thread had gone while applying.
    ApplyScan,
}

/// What the main loop is to do next.
#[derive(Clone, Copy, Debug, PartialEq, Eq, Structural)]
pub enum Action {
    /// Reload the configuration and merge the cache into it.
    Reload,
    /// Scan the processes again.
    Scan,
    /// Read the new processes that eBPF reports.
    PollEbpf,
    /// Search for apps that no rule names, and cache them.
    SearchNew,
    /// Read the number of processes.
    ReadProcCount,
    /// Check that the processes of the last scan are all alive.
    CheckPids,
    /// Apply the placement of the last scan.
    Apply,
    /// Write the status record and sleep until the next round.
    Finish,
}

/// What the main loop tells the decisions after doing an action.
#[derive(Clone, Copy, Debug)]
pub enum Event {
    /// A round starts; whether a reload and a rescan were asked for by signal.
    Tick { reload: bool, rescan: bool },
    /// The reload was done; whether the configuration loaded.
    Reloaded(bool),
    /// A scan, an eBPF read or a search was done.
    Done,
    /// The number of processes, or `None` when it could not be read.
    ProcCount(Option<u16>),
    /// Whether every process of the last scan is alive.
    PidsAlive(bool),
    /// The placement was applied; whether a thread had gone meanwhile.
    Applied(bool),
}

/// The action a phase waits on.
pub open spec fn action_of(p: Phase) -> Action {
    match p {
        Phase::Idle => Action::Finish,
        Phase::Reload => Action::Reload,
        Phase::ReloadScan => Action::Scan,
        Phase::SignalScan => Action::Scan,
        Phase::Ebpf => Action::PollEbpf,
        Phase::Search => Action::SearchNew,
        Phase::ProcCount => Action::ReadProcCount,
        Phase::Pids => Action::CheckPids,
        Phase::Rescan => Action::Scan,
        Phase::Apply => Action::Apply,
        Phase::ApplyScan => Action::Scan,
    }
}

/// The whole state of the main loop's decisions: the process count seen
/// last, the rounds until the next application, the round counter, the
/// phase of the round and whether a rescan was asked for and not yet done.
pub type LoopView = (int, int, int, Phase, bool);

/// `v` in phase `p`.
pub open spec fn in_phase(v: LoopView, p: Phase) -> LoopView {
    (v.0, v.1, v.2, p, v.4)
}

/// After the search and the process check: count down to the next
/// application, and apply when it is due, else end the round.
pub open spec fn to_apply(v: LoopView) -> LoopView {
    let (due, c) = countdown_step(v.1);
    (v.0, c, v.2, if due { Phase::Apply } else { Phase::Idle }, v.4)
}

/// Read the process count on every 5th round, else go on to [`to_apply`].
pub open spec fn to_procs(v: LoopView) -> LoopView {
    if v.2 % 5 == 0 { in_phase(v, Phase::ProcCount) } else { to_apply(v) }
}

/// Count the round; search for new apps on every 30th, else go on to [`to_procs`].
pub open spec fn to_search(v: LoopView) -> LoopView {
    let (hit, r) = round_step(v.2);
    let w = (v.0, v.1, r, v.3, v.4);
    if hit { in_phase(w, Phase::Search) } else { to_procs(w) }
}

/// After a reload: rescan when a signal asked for it, then read eBPF.
pub open spec fn from_signals(v: LoopView) -> LoopView {
    if v.4 { (v.0, v.1, v.2, Phase::SignalScan, false) } else { in_phase(v, Phase::Ebpf) }
}

/// What a process count `cur` decides: whether to rescan (the count is
/// unknown, or grew by more than 10), the count kept, and the countdown
/// (0, so that placement is applied now, when it grew by 10 or less).
pub open spec fn observe_step(last: int, countdown: int, cur: Option<u16>) -> (bool, int, int) {
    match cur {
        None => (true, last, countdown),
        Some(c) => {
            let nr = c > last + 10;
            (nr, c as int, if !nr && c > last { 0 } else { countdown })
        },
    }
}

/// The state after event `ev`. An event that is not the outcome of the
/// action the phase waits on changes nothing.
pub open spec fn spec_next(v: LoopView, ev: Event) -> LoopView {
    match (v.3, ev) {
        (Phase::Idle, Event::Tick { reload, rescan }) => {
            let w = (v.0, v.1, v.2, v.3, rescan);
            if reload { in_phase(w, Phase::Reload) } else { from_signals(w) }
        },
        (Phase::Reload, Event::Reloaded(ok)) => if ok { in_phase(v, Phase::ReloadScan) } else { from_signals(v) },
        (Phase::ReloadScan, Event::Done) => from_signals(v),
        (Phase::SignalScan, Event::Done) => in_phase(v, Phase::Ebpf),
        (Phase::Ebpf, Event::Done) => to_search(v),
        (Phase::Search, Event::Done) => to_procs(v),
        (Phase::ProcCount, Event::ProcCount(cur)) => {
            let (nr, last, c) = observe_step(v.0, v.1, cur);
            (last, c, v.2, if nr { Phase::Rescan } else { Phase::Pids }, v.4)
        },
        (Phase::Pids, Event::PidsAlive(alive)) => if alive { to_apply(v) } else { in_phase(v, Phase::Rescan) },
        (Phase::Rescan, Event::Done) => to_apply(v),
        (Phase::Apply, Event::Applied(gone)) => if gone { in_phase(v, Phase::ApplyScan) } else { in_phase(v, Phase::Idle) },
        (Phase::ApplyScan, Event::Done) => in_phase(v, Phase::Idle),
        _ => v,
    }
}

/// The decisions of the daemon's main loop: a round counter for the search
/// for new apps (every 30th round) and for checking the process count (every
/// 5th), the process count seen last, how many rounds remain before the
/// cached placement is applied again, where the current round stands, and
/// whether a rescan was asked for by signal.
pub struct LoopState {
    last_procs: i32,
    countdown: i32,
    round: i32,
    phase: Phase,
    rescan: bool,
}

impl View for LoopState {
    type V = LoopView;

    closed spec fn view(&self) -> LoopView {
        (self.last_procs as int, self.countdown as int, self.round as int, self.phase, self.rescan)
    }
}

impl LoopState {
    #[verifier::type_invariant]
    closed spec fn in_range(self) -> bool {
        &&& 0 <= self.last_procs <= 65535
        &&& 0 <= self.countdown <= 5
        &&& 0 <= self.round < 30
    }

    /// The bounds every state keeps: a process count of a `u16`, a
    /// countdown of at most 5 and a round counter below 30.
    pub open spec fn well_formed(v: LoopView) -> bool {
        &&& 0 <= v.0 <= 65535
        &&& 0 <= v.1 <= 5
        &&& 0 <= v.2 < 30
    }

    /// The state at start: nothing seen, placement due, round 0, no round
    /// under way and no rescan asked for.
    pub fn new() -> (r: LoopState)
        ensures
            r@ == (0int, 0int, 0int, Phase::Idle, false),
    {
        LoopState { last_procs: 0, countdown: 0, round: 0, phase: Phase::Idle, rescan: false }
    }

    /// Starts a round; true when this round searches for new apps, every
    /// 30th round, where the counter goes back to 0.
    pub fn begin_round(&mut self) -> (r: bool)
        ensures
            (r, final(self)@.2) == round_step(old(self)@.2),
            final(self)@.0 == old(self)@.0 && final(self)@.1 == old(self)@.1,
            final(self)@.3 == old(self)@.3 && final(self)@.4 == old(self)@.4,
            Self::well_formed(old(self)@) && Self::well_formed(final(self)@),
    {
        proof { use_type_invariant(&*self); }
        let n = self.round + 1;
        if n >= 30 {
            self.round = 0;
            true
        } else {
            self.round = n;
            false
        }
    }

    /// Whether this round checks the process count: the round counter is a multiple of 5.
    pub fn procs_check_due(&self) -> (r: bool)
        ensures
            r == (self@.2 % 5 == 0),
            Self::well_formed(self@),
    {
        proof { use_type_invariant(self); }
        self.round % 5 == 0
    }

    /// Takes in the current process count (`None` when it could not be read)
    /// and says whether a rescan is needed (see [`observe_step`]).
    pub fn observe_procs(&mut self, cur: Option<u16>) -> (r: bool)
        ensures
            Self::well_formed(old(self)@) && Self::well_formed(final(self)@),
            (r, final(self)@.0, final(self)@.1) == observe_step(old(self)@.0, old(self)@.1, cur),
            final(self)@.2 == old(self)@.2 && final(self)@.3 == old(self)@.3 && final(self)@.4 == old(self)@.4,
    {
        proof { use_type_invariant(&*self); }
        assert(Self::well_formed(self@));
        match cur {
            None => true,
            Some(c) => {
                let c = c as i32;
                let mut nr = false;
                if c > self.last_procs + 10 {
                    nr = true;
                } else if c > self.last_procs {
                    self.countdown = 0;
                }
                self.last_procs = c;
                nr
            },
        }
    }

    /// Counts down one round; true when placement is to be applied now, and
    /// then the countdown starts over at 5.
    pub fn apply_due(&mut self) -> (r: bool)
        ensures
            (r, final(self)@.1) == countdown_step(old(self)@.1),
            final(self)@.0 == old(self)@.0 && final(self)@.2 == old(self)@.2,
            final(self)@.3 == old(self)@.3 && final(self)@.4 == old(self)@.4,
            Self::well_formed(old(self)@) && Self::well_formed(final(self)@),
    {
        proof { use_type_invariant(&*self); }
        if self.countdown - 1 < 1 {
            self.countdown = 5;
            true
        } else {
            self.countdown = self.countdown - 1;
            false
        }
    }

    fn set_phase(&mut self, p: Phase)
        ensures
            final(self)@ == in_phase(old(self)@, p),
    {
        proof { use_type_invariant(&*self); }
        self.phase = p;
    }

    fn go_apply(&mut self)
        ensures
            final(self)@ == to_apply(old(self)@),
    {
        if self.apply_due() {
            self.set_phase(Phase::Apply);
        } else {
            self.set_phase(Phase::Idle);
        }
    }

    fn go_procs(&mut self)
        ensures
            final(self)@ == to_procs(old(self)@),
    {
        if self.procs_check_due() {
            self.set_phase(Phase::ProcCount);
        } else {
            self.go_apply();
        }
    }

    fn go_search(&mut self)
        ensures
            final(self)@ == to_search(old(self)@),
    {
        if self.begin_round() {
            self.set_phase(Phase::Search);
        } else {
            self.go_procs();
        }
    }

    fn go_signals(&mut self)
        ensures
            final(self)@ == from_signals(old(self)@),
    {
        proof { use_type_invariant(&*self); }
        if self.rescan {
            self.rescan = false;
            self.set_phase(Phase::SignalScan);
        } else {
            self.set_phase(Phase::Ebpf);
        }
    }

    /// Takes in the outcome of the last action (a tick to start a round)
    /// and says what to do next (see [`spec_next`]).
    pub fn step(&mut self, ev: Event) -> (a: Action)
        ensures
            final(self)@ == spec_next(old(self)@, ev),
            a == action_of(final(self)@.3),
    {
        proof { use_type_invariant(&*self); }
        match (self.phase, ev) {
            (Phase::Idle, Event::Tick { reload, rescan }) => {
                self.rescan = rescan;
                if reload {
                    self.set_phase(Phase::Reload);
                } else {
                    self.go_signals();
                }
            },
            (Phase::Reload, Event::Reloaded(ok)) => {
                if ok {
                    self.set_phase(Phase::ReloadScan);
                } else {
                    self.go_signals();
                }
            },
            (Phase::ReloadScan, Event::Done) => self.go_signals(),
            (Phase::SignalScan, Event::Done) => self.set_phase(Phase::Ebpf),
            (Phase::Ebpf, Event::Done) => self.go_search(),
            (Phase::Search, Event::Done) => self.go_procs(),
            (Phase::ProcCount, Event::ProcCount(cur)) => {
                if self.observe_procs(cur) {
                    self.set_phase(Phase::Rescan);
                } else {
                    self.set_phase(Phase::Pids);
                }
            },
            (Phase::Pids, Event::PidsAlive(alive)) => {
                if alive {
                    self.go_apply();
                } else {
                    self.set_phase(Phase::Rescan);
                }
            },
            (Phase::Rescan, Event::Done) => self.go_apply(),
            (Phase::Apply, Event::Applied(gone)) => {
                if gone {
                    self.set_phase(Phase::ApplyScan);
                } else {
                    self.set_phase(Phase::Idle);
                }
            },
            (Phase::ApplyScan, Event::Done) => self.set_phase(Phase::Idle),
            _ => {},
        }
        match self.phase {
            Phase::Idle => Action::Finish,
            Phase::Reload => Action::Reload,
            Phase::ReloadScan => Action::Scan,
            Phase::SignalScan => Action::Scan,
            Phase::Ebpf => Action::PollEbpf,
            Phase::Search => Action::SearchNew,
            Phase::ProcCount => Action::ReadProcCount,
            Phase::Pids => Action::CheckPids,
            Phase::Rescan => Action::Scan,
            Phase::Apply => Action::Apply,
            Phase::ApplyScan => Action::Scan,
        }
    }
}

} // verus!
