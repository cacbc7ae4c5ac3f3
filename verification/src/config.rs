use vstd::prelude::*;
use crate::json::{json_parse, parse_json, spec_get, spec_members, strings_of, views, Json};
use crate::pattern::{
    byte_len, byte_len_at_most, cache_rule_prio, rule_prio, spec_cache_rule_prio, spec_rule_prio,
};
use crate::text::{chars_of, has_char};

verus! {

broadcast use vstd::string::group_string_axioms;

/// `std::time::SystemTime`, kept as the modification time of a configuration.
#[verifier::external_type_specification]
#[verifier::external_body]
pub struct ExSystemTime(std::time::SystemTime);

/// One placement rule: threads of package `pkg` whose name matches `thread`
/// (every thread when `thread` is empty) go to the CPUs `cpus`; among the
/// rules that apply to a thread the one with the highest `prio` wins.
#[derive(Clone, Debug)]
pub struct Rule {
    pub pkg: String,
    pub thread: String,
    pub cpus: String,
    pub prio: i32,
}

/// A rule as plain values: package, thread pattern, CPUs, priority.
pub type RuleView = (Seq<char>, Seq<char>, Seq<char>, i32);

impl View for Rule {
    type V = RuleView;

    open spec fn view(&self) -> RuleView {
        (self.pkg@, self.thread@, self.cpus@, self.prio)
    }
}

/// The views of a sequence of rules.
pub open spec fn rules_view(v: Seq<Rule>) -> Seq<RuleView> {
    v.map_values(|r: Rule| r@)
}

/// The set of the strings in `s`.
pub open spec fn set_of(s: Seq<Seq<char>>) -> Set<Seq<char>>
    decreases s.len(),
{
    if s.len() == 0 {
        Set::empty()
    } else {
        set_of(s.drop_last()).insert(s.last())
    }
}

/// A set of package names; no name is held twice.
#[derive(Debug)]
pub struct PkgSet {
    items: Vec<String>,
}

impl View for PkgSet {
    type V = Set<Seq<char>>;

    closed spec fn view(&self) -> Set<Seq<char>> {
        set_of(views(self.items@))
    }
}

pub proof fn lemma_set_of_contains(s: Seq<Seq<char>>, x: Seq<char>)
    ensures
        set_of(s).contains(x) <==> s.contains(x),
    decreases s.len(),
{
    if s.len() > 0 {
        lemma_set_of_contains(s.drop_last(), x);
        if s.drop_last().contains(x) {
            let k = choose|k: int| 0 <= k < s.drop_last().len() && s.drop_last()[k] == x;
            assert(s[k] == x);
        }
        if s.contains(x) {
            let k = choose|k: int| 0 <= k < s.len() && s[k] == x;
            if k < s.len() - 1 {
                assert(s.drop_last()[k] == x);
            }
        }
    }
}

impl PkgSet {
    #[verifier::type_invariant]
    closed spec fn no_repeats(self) -> bool {
        views(self.items@).no_duplicates()
    }

    /// The empty set.
    pub fn new() -> (r: PkgSet)
        ensures
            r@ == Set::<Seq<char>>::empty(),
    {
        let r = PkgSet { items: Vec::new() };
        assert(views(r.items@) =~= Seq::<Seq<char>>::empty());
        r
    }

    /// Whether `name` is in the set.
    pub fn contains(&self, name: &str) -> (r: bool)
        ensures
            r == self@.contains(name@),
    {
        let mut i: usize = 0;
        while i < self.items.len()
            invariant
                i <= self.items@.len(),
                forall|j: int| 0 <= j < i ==> self.items@[j]@ != name@,
            decreases self.items@.len() - i,
        {
            if crate::text::str_eq(self.items[i].as_str(), name) {
                assert(views(self.items@)[i as int] == name@);
                proof {
                    lemma_set_of_contains(views(self.items@), name@);
                }
                return true;
            }
            i = i + 1;
        }
        proof {
            lemma_set_of_contains(views(self.items@), name@);
            if views(self.items@).contains(name@) {
                let k = choose|k: int| 0 <= k < views(self.items@).len() && views(self.items@)[k] == name@;
                assert(self.items@[k]@ == name@);
            }
        }
        false
    }

    /// Adds `name`; true when it was not there before.
    pub fn insert(&mut self, name: String) -> (r: bool)
        ensures
            final(self)@ == old(self)@.insert(name@),
            r == !old(self)@.contains(name@),
    {
        if self.contains(name.as_str()) {
            proof {
                assert(self@.insert(name@) =~= self@);
            }
            return false;
        }
        proof {
            use_type_invariant(&*self);
            lemma_set_of_contains(views(self.items@), name@);
        }
        let mut items: Vec<String> = Vec::new();
        std::mem::swap(&mut items, &mut self.items);
        let ghost before = items@;
        items.push(name);
        proof {
            assert(views(items@) =~= views(before).push(name@));
            assert(views(items@).drop_last() =~= views(before));
        }
        self.items = items;
        true
    }
}

/// A loaded configuration: the placement rules, the packages it names, the
/// package patterns with `*` or `?` in them (in order, repeats kept), the
/// time the file was last changed, and whether eBPF process tracking is on.
#[derive(Debug)]
pub struct AppConfig {
    pub rules: Vec<Rule>,
    pub pkg_set: PkgSet,
    pub wild: Vec<String>,
    pub mtime: std::time::SystemTime,
    pub ebpf: bool,
}

/// The package names an entry lists (the strings under `packages`).
pub open spec fn entry_packages(e: Json) -> Seq<Seq<char>> {
    strings_of(spec_members(spec_get(e, "packages"@)))
}

/// The CPUs for an entry's other threads: `cpuset.other`, or `"0"`.
pub open spec fn entry_other(e: Json) -> Seq<char> {
    match spec_get(spec_get(e, "cpuset"@), "other"@) {
        Json::Str(s) => s@,
        _ => "0"@,
    }
}

/// The entries of `cpuset.comm` when it is an object: CPUs mapped to lists of thread names.
pub open spec fn entry_comm(e: Json) -> Seq<(String, Json)> {
    match spec_get(spec_get(e, "cpuset"@), "comm"@) {
        Json::Object(es) => es@,
        _ => Seq::empty(),
    }
}

/// Priority of a thread rule named `n`: configuration rules use
/// [`spec_rule_prio`], cached rules [`spec_cache_rule_prio`].
pub open spec fn name_prio(cached: bool, n: Seq<char>) -> int {
    if cached { spec_cache_rule_prio(n) } else { spec_rule_prio(n) }
}

/// Thread rules of package `pkg` for the thread names `names`, all on `cpus`.
pub open spec fn name_rules(pkg: Seq<char>, cpus: Seq<char>, names: Seq<Seq<char>>, cached: bool) -> Seq<RuleView>
    decreases names.len(),
{
    if names.len() == 0 {
        Seq::empty()
    } else {
        name_rules(pkg, cpus, names.drop_last(), cached).push(
            (pkg, names.last(), cpus, name_prio(cached, names.last()) as i32),
        )
    }
}

/// Thread rules of package `pkg` for the `cpuset.comm` entries `es`, in order.
pub open spec fn comm_rules(pkg: Seq<char>, es: Seq<(String, Json)>, cached: bool) -> Seq<RuleView>
    decreases es.len(),
{
    if es.len() == 0 {
        Seq::empty()
    } else {
        comm_rules(pkg, es.drop_last(), cached) + name_rules(
            pkg,
            es.last().0@,
            strings_of(spec_members(es.last().1)),
            cached,
        )
    }
}

/// The rules of one entry: none when it lists no package; otherwise a rule
/// for all threads of its first package on `cpuset.other` with priority 200,
/// then one rule per thread name under `cpuset.comm`.
pub open spec fn entry_rules(e: Json, cached: bool) -> Seq<RuleView> {
    let pl = entry_packages(e);
    if pl.len() == 0 {
        Seq::empty()
    } else {
        seq![(pl[0], Seq::<char>::empty(), entry_other(e), 200i32)] + comm_rules(
            pl[0],
            entry_comm(e),
            cached,
        )
    }
}

/// Every name has a priority that fits in an `i32`.
pub open spec fn names_fit(names: Seq<Seq<char>>) -> bool {
    forall|j: int| 0 <= j < names.len() ==> byte_len(#[trigger] names[j]) + 1000 <= i32::MAX
}

/// The thread names of an entry with packages are short enough to rank.
pub open spec fn entry_fits(e: Json) -> bool {
    entry_packages(e).len() > 0 ==> forall|i: int|
        0 <= i < entry_comm(e).len() ==> names_fit(strings_of(spec_members(#[trigger] entry_comm(e)[i].1)))
}

/// Every entry of `es` fits.
pub open spec fn all_fit(es: Seq<Json>) -> bool {
    forall|i: int| 0 <= i < es.len() ==> entry_fits(#[trigger] es[i])
}

/// The rules of the entries `es`, in order.
pub open spec fn all_rules(es: Seq<Json>, cached: bool) -> Seq<RuleView>
    decreases es.len(),
{
    if es.len() == 0 {
        Seq::empty()
    } else {
        all_rules(es.drop_last(), cached) + entry_rules(es.last(), cached)
    }
}

/// The packages named by the entries `es`.
pub open spec fn all_packages(es: Seq<Json>) -> Set<Seq<char>>
    decreases es.len(),
{
    if es.len() == 0 {
        Set::empty()
    } else {
        all_packages(es.drop_last()).union(set_of(entry_packages(es.last())))
    }
}

/// Whether a package name is a pattern.
pub open spec fn is_wild(p: Seq<char>) -> bool {
    p.contains('*') || p.contains('?')
}

/// The patterns among `s`, in order.
pub open spec fn wild_of(s: Seq<Seq<char>>) -> Seq<Seq<char>>
    decreases s.len(),
{
    if s.len() == 0 {
        Seq::empty()
    } else {
        wild_of(s.drop_last()) + if is_wild(s.last()) { seq![s.last()] } else { Seq::empty() }
    }
}

/// The package patterns named by the entries `es`, in order.
pub open spec fn all_wild(es: Seq<Json>) -> Seq<Seq<char>>
    decreases es.len(),
{
    if es.len() == 0 {
        Seq::empty()
    } else {
        all_wild(es.drop_last()) + wild_of(entry_packages(es.last()))
    }
}

/// The rule entries of a configuration document: the document itself when it
/// is an array, else its `rules` member; `None` when that is no array.
pub open spec fn config_entries(root: Json) -> Option<Seq<Json>> {
    let e = if root is Array { root } else { spec_get(root, "rules"@) };
    match e {
        Json::Array(v) => Some(v@),
        _ => None,
    }
}

/// Whether eBPF tracking is on: `features.ebpf` when it is a boolean, else on.
pub open spec fn config_ebpf(root: Json) -> bool {
    match spec_get(spec_get(root, "features"@), "ebpf"@) {
        Json::Bool(b) => b,
        _ => true,
    }
}

/// `c` is the configuration that the document `root` describes, with
/// modification time `mtime`.
pub open spec fn config_of(c: AppConfig, root: Json, mtime: std::time::SystemTime) -> bool {
    &&& config_entries(root) is Some
    &&& rules_view(c.rules@) == all_rules(config_entries(root)->0, false)
    &&& c.pkg_set@ == all_packages(config_entries(root)->0)
    &&& views(c.wild@) == all_wild(config_entries(root)->0)
    &&& c.mtime == mtime
    &&& c.ebpf == config_ebpf(root)
}

proof fn lemma_push_rule(v: Seq<Rule>, r: Rule)
    ensures
        rules_view(v.push(r)) == rules_view(v).push(r@),
{
    assert(rules_view(v.push(r)) =~= rules_view(v).push(r@));
}

proof fn lemma_append_rules(a: Seq<Rule>, b: Seq<Rule>)
    ensures
        rules_view(a + b) == rules_view(a) + rules_view(b),
{
    assert(rules_view(a + b) =~= rules_view(a) + rules_view(b));
}

/// The CPUs for an entry's other threads (see [`entry_other`]).
fn other_cpus(e: &Json) -> (r: String)
    ensures
        r@ == entry_other(*e),
{
    match e.get("cpuset") {
        Some(c) => match c.get("other") {
            Some(Json::Str(s)) => s.clone(),
            _ => String::from_str("0"),
        },
        None => String::from_str("0"),
    }
}

/// Rules of one entry for the package `pkg` under `cpuset.comm`.
fn add_comm_rules(e: &Json, pkg: &String, cached: bool, rules: &mut Vec<Rule>)
    requires
        entry_packages(*e).len() > 0 ==> forall|i: int|
            0 <= i < entry_comm(*e).len() ==> names_fit(
                strings_of(spec_members(#[trigger] entry_comm(*e)[i].1)),
            ),
        entry_packages(*e).len() > 0,
    ensures
        rules_view(final(rules)@) == rules_view(old(rules)@) + comm_rules(pkg@, entry_comm(*e), cached),
{
    let comm = match e.get("cpuset") {
        Some(c) => c.get("comm"),
        None => None,
    };
    match comm {
        Some(Json::Object(es)) => {
            let mut i: usize = 0;
            assert(es@.take(0) =~= Seq::<(String, Json)>::empty());
            assert forall|k: int| 0 <= k < es@.len() implies names_fit(strings_of(spec_members(#[trigger] es@[k].1))) by {
                assert(entry_comm(*e)[k] == es@[k]);
            }
            while i < es.len()
                invariant
                    i <= es@.len(),
                    es@ == entry_comm(*e),
                    forall|k: int| 0 <= k < es@.len() ==> names_fit(strings_of(spec_members(#[trigger] es@[k].1))),
                    rules_view(rules@) == rules_view(old(rules)@) + comm_rules(pkg@, es@.take(i as int), cached),
                decreases es@.len() - i,
            {
                let names = es[i].1.string_members();
                let ghost base = rules_view(rules@);
                assert(names_fit(strings_of(spec_members(es@[i as int].1))));
                let mut j: usize = 0;
                assert(views(names@).take(0) =~= Seq::<Seq<char>>::empty());
                while j < names.len()
                    invariant
                        i < es@.len(),
                        j <= names@.len(),
                        views(names@) == strings_of(spec_members(es@[i as int].1)),
                        names_fit(views(names@)),
                        rules_view(rules@) == base + name_rules(pkg@, es@[i as int].0@, views(names@).take(j as int), cached),
                    decreases names@.len() - j,
                {
                    assert(views(names@)[j as int] == names@[j as int]@);
                    assert(byte_len(views(names@)[j as int]) + 1000 <= i32::MAX);
                    let prio = if cached {
                        cache_rule_prio(names[j].as_str())
                    } else {
                        rule_prio(names[j].as_str())
                    };
                    let r = Rule { pkg: pkg.clone(), thread: names[j].clone(), cpus: es[i].0.clone(), prio };
                    proof { lemma_push_rule(rules@, r); }
                    rules.push(r);
                    assert(views(names@).take(j + 1).drop_last() =~= views(names@).take(j as int));
                    j = j + 1;
                }
                assert(views(names@).take(names@.len() as int) =~= views(names@));
                assert(es@.take(i + 1).drop_last() =~= es@.take(i as int));
                i = i + 1;
            }
            assert(es@.take(es@.len() as int) =~= es@);
        },
        _ => {
            assert(entry_comm(*e) =~= Seq::<(String, Json)>::empty());
            assert(rules_view(rules@) =~= rules_view(old(rules)@) + comm_rules(pkg@, entry_comm(*e), cached));
        },
    }
}

/// The package names and the rules of one rule entry.
fn entry_parts(e: &Json, cached: bool) -> (r: (Vec<String>, Vec<Rule>))
    requires
        entry_fits(*e),
    ensures
        views(r.0@) == entry_packages(*e),
        rules_view(r.1@) == entry_rules(*e, cached),
{
    let pl = match e.get("packages") {
        Some(p) => p.string_members(),
        None => Vec::new(),
    };
    let mut rules: Vec<Rule> = Vec::new();
    if pl.len() == 0 {
        assert(rules_view(rules@) =~= entry_rules(*e, cached));
        return (pl, rules);
    }
    assert(views(pl@)[0] == pl@[0]@);
    let other = other_cpus(e);
    let first = Rule { pkg: pl[0].clone(), thread: String::new(), cpus: other, prio: 200 };
    rules.push(first);
    assert(rules_view(rules@) =~= seq![(entry_packages(*e)[0], Seq::<char>::empty(), entry_other(*e), 200i32)]);
    add_comm_rules(e, &pl[0], cached, &mut rules);
    (pl, rules)
}

/// Whether every name in `names` is short enough to rank.
fn names_short(names: &Vec<String>) -> (r: bool)
    ensures
        r == names_fit(views(names@)),
{
    let mut j: usize = 0;
    while j < names.len()
        invariant
            j <= names@.len(),
            forall|k: int| 0 <= k < j ==> byte_len(#[trigger] views(names@)[k]) + 1000 <= i32::MAX,
        decreases names@.len() - j,
    {
        assert(views(names@)[j as int] == names@[j as int]@);
        let v = chars_of(names[j].as_str());
        if !byte_len_at_most(v.as_slice(), 2147482647) {
            return false;
        }
        j = j + 1;
    }
    true
}

/// Whether a rule entry fits (see [`entry_fits`]).
fn entry_short(e: &Json) -> (r: bool)
    ensures
        r == entry_fits(*e),
{
    let pl = match e.get("packages") {
        Some(p) => p.string_members(),
        None => Vec::new(),
    };
    if pl.len() == 0 {
        return true;
    }
    let comm = match e.get("cpuset") {
        Some(c) => c.get("comm"),
        None => None,
    };
    match comm {
        Some(Json::Object(es)) => {
            let mut i: usize = 0;
            while i < es.len()
                invariant
                    i <= es@.len(),
                    es@ == entry_comm(*e),
                    entry_packages(*e).len() > 0,
                    forall|k: int| 0 <= k < i ==> names_fit(strings_of(spec_members(#[trigger] es@[k].1))),
                decreases es@.len() - i,
            {
                let names = es[i].1.string_members();
                if !names_short(&names) {
                    return false;
                }
                i = i + 1;
            }
            true
        },
        _ => true,
    }
}

/// Whether every entry fits (see [`all_fit`]).
fn entries_short(es: &Vec<Json>) -> (r: bool)
    ensures
        r == all_fit(es@),
{
    let mut i: usize = 0;
    while i < es.len()
        invariant
            i <= es@.len(),
            forall|k: int| 0 <= k < i ==> entry_fits(#[trigger] es@[k]),
        decreases es@.len() - i,
    {
        if !entry_short(&es[i]) {
            return false;
        }
        i = i + 1;
    }
    true
}

/// The patterns among `names`, appended to `wild` (see [`wild_of`]).
fn add_wild(names: &Vec<String>, wild: &mut Vec<String>)
    ensures
        views(final(wild)@) == views(old(wild)@) + wild_of(views(names@)),
{
    let mut j: usize = 0;
    assert(views(names@).take(0) =~= Seq::<Seq<char>>::empty());
    while j < names.len()
        invariant
            j <= names@.len(),
            views(wild@) == views(old(wild)@) + wild_of(views(names@).take(j as int)),
        decreases names@.len() - j,
    {
        let v = chars_of(names[j].as_str());
        assert(views(names@).take(j + 1).drop_last() =~= views(names@).take(j as int));
        assert(views(names@)[j as int] == names@[j as int]@);
        if has_char(v.as_slice(), '*') || has_char(v.as_slice(), '?') {
            let ghost before = wild@;
            wild.push(names[j].clone());
            assert(views(wild@) =~= views(before).push(names@[j as int]@));
        }
        j = j + 1;
    }
    assert(views(names@).take(names@.len() as int) =~= views(names@));
}

/// Adds every name of `names` to `set`.
fn add_packages(names: &Vec<String>, set: &mut PkgSet)
    ensures
        final(set)@ == old(set)@.union(set_of(views(names@))),
{
    let mut j: usize = 0;
    assert(views(names@).take(0) =~= Seq::<Seq<char>>::empty());
    assert(old(set)@.union(Set::empty()) =~= old(set)@);
    while j < names.len()
        invariant
            j <= names@.len(),
            set@ == old(set)@.union(set_of(views(names@).take(j as int))),
        decreases names@.len() - j,
    {
        assert(views(names@).take(j + 1).drop_last() =~= views(names@).take(j as int));
        assert(views(names@)[j as int] == names@[j as int]@);
        let ghost before = set@;
        set.insert(names[j].clone());
        assert(set@ =~= old(set)@.union(set_of(views(names@).take(j + 1))));
        j = j + 1;
    }
    assert(views(names@).take(names@.len() as int) =~= views(names@));
}

impl AppConfig {
    /// The configuration that the document `root` describes (see
    /// [`config_of`]); `None` when it holds no array of rule entries.
    pub fn from_json(root: &Json, mtime: std::time::SystemTime) -> (r: Option<AppConfig>)
        requires
            config_entries(*root) matches Some(es) ==> all_fit(es),
        ensures
            match r {
                Some(c) => config_of(c, *root, mtime),
                None => config_entries(*root) is None,
            },
    {
        let ebpf = match root.get("features") {
            Some(f) => match f.get("ebpf") {
                Some(Json::Bool(b)) => *b,
                _ => true,
            },
            None => true,
        };
        let entries: &Json = if let Json::Array(_) = root {
            root
        } else {
            match root.get("rules") {
                Some(x) => x,
                None => {
                    return None;
                },
            }
        };
        let items = match entries {
            Json::Array(items) => items,
            _ => {
                return None;
            },
        };
        assert(config_entries(*root) == Some(items@));
        let mut rules: Vec<Rule> = Vec::new();
        let mut pkg_set = PkgSet::new();
        let mut wild: Vec<String> = Vec::new();
        let mut i: usize = 0;
        assert(items@.take(0) =~= Seq::<Json>::empty());
        while i < items.len()
            invariant
                i <= items@.len(),
                all_fit(items@),
                rules_view(rules@) == all_rules(items@.take(i as int), false),
                pkg_set@ == all_packages(items@.take(i as int)),
                views(wild@) == all_wild(items@.take(i as int)),
            decreases items@.len() - i,
        {
            assert(entry_fits(items@[i as int]));
            let (pl, mut rs) = entry_parts(&items[i], false);
            add_packages(&pl, &mut pkg_set);
            add_wild(&pl, &mut wild);
            proof { lemma_append_rules(rules@, rs@); }
            rules.append(&mut rs);
            assert(items@.take(i + 1).drop_last() =~= items@.take(i as int));
            i = i + 1;
        }
        assert(items@.take(items@.len() as int) =~= items@);
        Some(AppConfig { rules, pkg_set, wild, mtime, ebpf })
    }

    /// Parses the configuration text `text` (through `json::parse`) and reads
    /// it as [`AppConfig::from_json`] does. `None` when the text does not
    /// parse, holds no array of rule entries, or names a thread too long to
    /// rank.
    pub fn load(text: &str, mtime: std::time::SystemTime) -> (r: Option<AppConfig>)
        ensures
            match json_parse(text@) {
                None => r is None,
                Some(root) => match config_entries(root) {
                    None => r is None,
                    Some(es) => if all_fit(es) {
                        r matches Some(c) && config_of(c, root, mtime)
                    } else {
                        r is None
                    },
                },
            },
    {
        let root = match parse_json(text) {
            Some(j) => j,
            None => {
                return None;
            },
        };
        let fits = match &root {
            Json::Array(items) => entries_short(items),
            _ => match root.get("rules") {
                Some(Json::Array(items)) => entries_short(items),
                _ => true,
            },
        };
        if !fits {
            return None;
        }
        AppConfig::from_json(&root, mtime)
    }
}

/// Adds the cached entries of the document `root` to `set` and `rules`: when
/// `root` is an array, the packages of each entry join the set and the
/// entry's rules (cached priorities) are appended, and the number of entries
/// comes back; otherwise nothing changes and `None` comes back.
pub fn merge_json(root: &Json, set: &mut PkgSet, rules: &mut Vec<Rule>) -> (r: Option<usize>)
    requires
        *root matches Json::Array(es) ==> all_fit(es@),
    ensures
        match *root {
            Json::Array(es) => {
                &&& r == Some(es@.len() as usize)
                &&& rules_view(final(rules)@) == rules_view(old(rules)@) + all_rules(es@, true)
                &&& final(set)@ == old(set)@.union(all_packages(es@))
            },
            _ => r is None && final(rules)@ == old(rules)@ && final(set)@ == old(set)@,
        },
{
    let items = match root {
        Json::Array(items) => items,
        _ => {
            return None;
        },
    };
    let mut i: usize = 0;
    assert(items@.take(0) =~= Seq::<Json>::empty());
    assert(rules_view(rules@) =~= rules_view(old(rules)@) + all_rules(items@.take(0), true));
    assert(set@ =~= old(set)@.union(all_packages(items@.take(0))));
    while i < items.len()
        invariant
            i <= items@.len(),
            all_fit(items@),
            rules_view(rules@) == rules_view(old(rules)@) + all_rules(items@.take(i as int), true),
            set@ == old(set)@.union(all_packages(items@.take(i as int))),
        decreases items@.len() - i,
    {
        assert(entry_fits(items@[i as int]));
        let (pl, mut rs) = entry_parts(&items[i], true);
        add_packages(&pl, set);
        proof { lemma_append_rules(rules@, rs@); }
        rules.append(&mut rs);
        assert(items@.take(i + 1).drop_last() =~= items@.take(i as int));
        assert(set@ =~= old(set)@.union(all_packages(items@.take(i + 1))));
        i = i + 1;
    }
    assert(items@.take(items@.len() as int) =~= items@);
    Some(items.len())
}

/// Parses the cache text `text` (through `json::parse`) and merges it as
/// [`merge_json`] does. `None`, with nothing changed, when the text does
/// not parse, is not an array, or names a thread too long to rank.
pub fn merge(text: &str, set: &mut PkgSet, rules: &mut Vec<Rule>) -> (r: Option<usize>)
    ensures
        match json_parse(text@) {
            Some(Json::Array(es)) if all_fit(es@) => {
                &&& r == Some(es@.len() as usize)
                &&& rules_view(final(rules)@) == rules_view(old(rules)@) + all_rules(es@, true)
                &&& final(set)@ == old(set)@.union(all_packages(es@))
            },
            _ => r is None && final(rules)@ == old(rules)@ && final(set)@ == old(set)@,
        },
{
    let root = match parse_json(text) {
        Some(j) => j,
        None => {
            return None;
        },
    };
    match &root {
        Json::Array(items) => {
            if !entries_short(items) {
                return None;
            }
        },
        _ => {
            return None;
        },
    }
    merge_json(&root, set, rules)
}

} // verus!
