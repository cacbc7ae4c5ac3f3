use vstd::prelude::*;
use crate::config::{
    all_packages, all_rules, comm_rules, entry_packages, entry_rules, lemma_set_of_contains,
    name_rules, set_of, RuleView,
};
use crate::daemon::{countdown_step, round_step};
use crate::json::Json;
use crate::numtext::{all_digits, dec, digits_value, is_digit, parse_i32_spec, parse_unsigned};
use crate::pattern::{literal_count, spec_est_load, spec_fnmatch, spec_rule_prio};
use crate::process::{claim, first_flags, select, spec_cmdline_pkg, spec_unknown_target, spec_is_app_status, spec_scan_target, spec_watched, status_uid};
use crate::status::{bool_text, esc_char, json_escape, log_resets, spec_status_json, uptime};
use crate::cache::{spec_merged_cache, spec_skipped};
use crate::text::{split_on, words, first_index, is_ws, lemma_first_index, lemma_trim_end_shape, lemma_trim_start_shape, trim, trim_end, trim_start};

verus! {

/// A pattern that is not empty matches itself.
pub proof fn lemma_fnmatch_reflexive(p: Seq<char>)
    requires
        p.len() > 0,
    ensures
        spec_fnmatch(p, p),
{
    lemma_first_index(p, '*');
    match first_index(p, '*') {
        Some(k) => {
            assert(p.take(k) =~= p.subrange(0, k));
            if k + 1 < p.len() {
                let t = p.skip(k);
                assert(p.skip(k + 1) =~= t.subrange(t.len() - p.skip(k + 1).len(), t.len() as int));
            }
        },
        None => {},
    }
}

/// A pattern without `*` matches exactly the name it spells, and nothing
/// when it is empty.
pub proof fn lemma_fnmatch_literal(p: Seq<char>, n: Seq<char>)
    requires
        !p.contains('*'),
    ensures
        spec_fnmatch(p, n) <==> (p.len() > 0 && p == n),
{
    lemma_first_index(p, '*');
    if first_index(p, '*') is Some {
        let k = first_index(p, '*')->0;
        assert(p.contains('*')) by {
            assert(p[k] == '*');
        }
    }
}

/// The pattern `*` matches every name.
pub proof fn lemma_fnmatch_star_matches_all(n: Seq<char>)
    ensures
        spec_fnmatch(seq!['*'], n),
{
    let p = seq!['*'];
    assert(p.drop_last() =~= Seq::<char>::empty());
    assert(first_index(Seq::<char>::empty(), '*') is None);
    assert(first_index(p.drop_last(), '*') is None);
    assert(first_index(p, '*') == Some(0int));
    assert(p.take(0) =~= Seq::<char>::empty());
    assert(Seq::<char>::empty() =~= n.subrange(0, 0));
}

/// A pattern made of a `*`-free prefix and a final `*` matches exactly the
/// names that start with that prefix.
pub proof fn lemma_fnmatch_prefix(pre: Seq<char>, n: Seq<char>)
    requires
        !pre.contains('*'),
    ensures
        spec_fnmatch(pre.push('*'), n) <==> pre.is_prefix_of(n),
{
    let p = pre.push('*');
    lemma_first_index(pre, '*');
    if first_index(pre, '*') is Some {
        let k = first_index(pre, '*')->0;
        assert(pre[k] == '*');
    }
    assert(p.drop_last() =~= pre);
    assert(first_index(p, '*') == Some(pre.len() as int));
    assert(p.take(pre.len() as int) =~= pre);
}

/// Thread rules rank by the kind of their pattern: an exact name above a
/// bracket pattern, that above a `?` pattern, that above a `*` pattern, as
/// long as the wildcard patterns have fewer than 200 literal characters; a
/// `*` pattern with fewer than 100 ranks below a package's default rule (200).
pub proof fn lemma_rule_prio_order(exact: Seq<char>, bracket: Seq<char>, quest: Seq<char>, star: Seq<char>)
    requires
        exact.len() > 0 && !exact.contains('*') && !exact.contains('?'),
        (bracket.contains('*') || bracket.contains('?')) && bracket.contains('['),
        quest.contains('?') && !quest.contains('['),
        star.contains('*') && !star.contains('?') && !star.contains('['),
        literal_count(bracket) < 200,
        literal_count(quest) < 200,
        literal_count(star) < 200,
    ensures
        spec_rule_prio(exact) > spec_rule_prio(bracket),
        spec_rule_prio(bracket) > spec_rule_prio(quest),
        spec_rule_prio(quest) > spec_rule_prio(star),
        literal_count(star) < 100 ==> spec_rule_prio(star) < 200,
{
    assert(bracket.len() > 0) by {
        let k = choose|k: int| 0 <= k < bracket.len() && bracket[k] == '[';
    }
    assert(quest.len() > 0) by {
        let k = choose|k: int| 0 <= k < quest.len() && quest[k] == '?';
    }
    assert(star.len() > 0) by {
        let k = choose|k: int| 0 <= k < star.len() && star[k] == '*';
    }
}

/// The CPUs chosen for a thread come from the rule with the strongest claim
/// on it, the first such rule when several claim equally: no rule claims
/// more, and when any rule claims the thread the choice is that rule's CPUs.
/// Without a claim the choice is empty.
pub proof fn lemma_select_best(rs: Seq<RuleView>, pkg: Seq<char>, comm: Seq<char>)
    ensures
        select(rs, pkg, comm).1 >= -1,
        select(rs, pkg, comm).1 == -1 ==> select(rs, pkg, comm).0.len() == 0,
        forall|i: int|
            0 <= i < rs.len() ==> (#[trigger] claim(rs[i], pkg, comm) matches Some(q) ==> q <= select(
                rs,
                pkg,
                comm,
            ).1),
        select(rs, pkg, comm).1 > -1 ==> exists|i: int|
            0 <= i < rs.len() && #[trigger] claim(rs[i], pkg, comm) == Some(select(rs, pkg, comm).1)
                && rs[i].2 == select(rs, pkg, comm).0 && forall|j: int|
                0 <= j < i ==> (#[trigger] claim(rs[j], pkg, comm) matches Some(q) ==> q < select(
                    rs,
                    pkg,
                    comm,
                ).1),
    decreases rs.len(),
{
    if rs.len() > 0 {
        let pre = rs.drop_last();
        lemma_select_best(pre, pkg, comm);
        let prev = select(pre, pkg, comm);
        let cur = select(rs, pkg, comm);
        assert forall|i: int| 0 <= i < rs.len() - 1 implies rs[i] == pre[i] by {}
        match claim(rs.last(), pkg, comm) {
            Some(q) => {
                if q > prev.1 {
                    let last = rs.len() - 1;
                    assert(claim(rs[last], pkg, comm) == Some(cur.1));
                    assert forall|j: int| 0 <= j < last implies (#[trigger] claim(rs[j], pkg, comm) matches Some(
                        q2,
                    ) ==> q2 < cur.1) by {
                        assert(rs[j] == pre[j]);
                    }
                } else if prev.1 > -1 {
                    let i = choose|i: int|
                        0 <= i < pre.len() && #[trigger] claim(pre[i], pkg, comm) == Some(prev.1)
                            && pre[i].2 == prev.0 && forall|j: int|
                            0 <= j < i ==> (#[trigger] claim(pre[j], pkg, comm) matches Some(q) ==> q
                                < prev.1);
                    assert(rs[i] == pre[i]);
                    assert(claim(rs[i], pkg, comm) == Some(cur.1));
                    assert forall|j: int| 0 <= j < i implies (#[trigger] claim(rs[j], pkg, comm) matches Some(
                        q2,
                    ) ==> q2 < cur.1) by {
                        assert(rs[j] == pre[j]);
                    }
                }
            },
            None => {
                if prev.1 > -1 {
                    let i = choose|i: int|
                        0 <= i < pre.len() && #[trigger] claim(pre[i], pkg, comm) == Some(prev.1)
                            && pre[i].2 == prev.0 && forall|j: int|
                            0 <= j < i ==> (#[trigger] claim(pre[j], pkg, comm) matches Some(q) ==> q
                                < prev.1);
                    assert(rs[i] == pre[i]);
                    assert(claim(rs[i], pkg, comm) == Some(cur.1));
                    assert forall|j: int| 0 <= j < i implies (#[trigger] claim(rs[j], pkg, comm) matches Some(
                        q2,
                    ) ==> q2 < cur.1) by {
                        assert(rs[j] == pre[j]);
                    }
                }
            },
        }
        assert forall|i: int| 0 <= i < rs.len() implies (#[trigger] claim(rs[i], pkg, comm) matches Some(
            q,
        ) ==> q <= cur.1) by {
            if i < rs.len() - 1 {
                assert(rs[i] == pre[i]);
            }
        }
    }
}

proof fn lemma_name_rules_pkg(pkg: Seq<char>, cpus: Seq<char>, names: Seq<Seq<char>>, cached: bool)
    ensures
        forall|i: int| 0 <= i < name_rules(pkg, cpus, names, cached).len() ==> (#[trigger] name_rules(pkg, cpus, names, cached)[i]).0 == pkg,
    decreases names.len(),
{
    if names.len() > 0 {
        lemma_name_rules_pkg(pkg, cpus, names.drop_last(), cached);
        let a = name_rules(pkg, cpus, names.drop_last(), cached);
        let x = (pkg, names.last(), cpus, crate::config::name_prio(cached, names.last()) as i32);
        assert forall|i: int| 0 <= i < a.push(x).len() implies (#[trigger] a.push(x)[i]).0 == pkg by {
            if i < a.len() {
                assert(a.push(x)[i] == a[i]);
            }
        }
    }
}

proof fn lemma_comm_rules_pkg(pkg: Seq<char>, es: Seq<(String, Json)>, cached: bool)
    ensures
        forall|i: int| 0 <= i < comm_rules(pkg, es, cached).len() ==> (#[trigger] comm_rules(pkg, es, cached)[i]).0 == pkg,
    decreases es.len(),
{
    if es.len() > 0 {
        lemma_comm_rules_pkg(pkg, es.drop_last(), cached);
        let a = comm_rules(pkg, es.drop_last(), cached);
        let b = name_rules(pkg, es.last().0@, crate::json::strings_of(crate::json::spec_members(es.last().1)), cached);
        lemma_name_rules_pkg(pkg, es.last().0@, crate::json::strings_of(crate::json::spec_members(es.last().1)), cached);
        assert forall|i: int| 0 <= i < (a + b).len() implies (#[trigger] (a + b)[i]).0 == pkg by {
            if i >= a.len() {
                assert((a + b)[i] == b[i - a.len()]);
            }
        }
    }
}

/// Every rule that entries give belongs to a package those entries name,
/// so a loaded configuration (or a merged cache) watches the package of
/// each of its rules.
pub proof fn lemma_rule_packages_named(es: Seq<Json>, cached: bool)
    ensures
        forall|i: int|
            0 <= i < all_rules(es, cached).len() ==> all_packages(es).contains(
                (#[trigger] all_rules(es, cached)[i]).0,
            ),
    decreases es.len(),
{
    if es.len() > 0 {
        let pre = es.drop_last();
        lemma_rule_packages_named(pre, cached);
        let a = all_rules(pre, cached);
        let e = es.last();
        let b = entry_rules(e, cached);
        let pl = entry_packages(e);
        if pl.len() > 0 {
            lemma_comm_rules_pkg(pl[0], crate::config::entry_comm(e), cached);
            lemma_set_of_contains(pl, pl[0]);
            assert(pl.contains(pl[0])) by {
                assert(pl[0] == pl[0]);
            }
        }
        assert forall|i: int| 0 <= i < (a + b).len() implies all_packages(es).contains(
            (#[trigger] (a + b)[i]).0,
        ) by {
            if i < a.len() {
                assert((a + b)[i] == a[i]);
            } else {
                let k = i - a.len();
                assert((a + b)[i] == b[k]);
                if k > 0 {
                    let c = comm_rules(pl[0], crate::config::entry_comm(e), cached);
                    assert(b[k] == c[k - 1]);
                }
            }
        }
    }
}

/// Reads back a JSON-escaped text: a backslash takes the character after it literally.
pub open spec fn json_unescape(s: Seq<char>) -> Seq<char>
    decreases s.len(),
{
    if s.len() == 0 {
        Seq::empty()
    } else if s[0] == '\\' && s.len() >= 2 {
        seq![s[1]] + json_unescape(s.skip(2))
    } else {
        seq![s[0]] + json_unescape(s.drop_first())
    }
}

proof fn lemma_escape_append(a: Seq<char>, b: Seq<char>)
    ensures
        json_escape(a + b) == json_escape(a) + json_escape(b),
    decreases b.len(),
{
    if b.len() == 0 {
        assert(a + b =~= a);
        assert(json_escape(a) + json_escape(b) =~= json_escape(a));
    } else {
        lemma_escape_append(a, b.drop_last());
        assert((a + b).drop_last() =~= a + b.drop_last());
        assert(json_escape(a + b) =~= json_escape(a) + json_escape(b));
    }
}

/// Escaping loses nothing: reading an escaped status string back gives the
/// original text.
pub proof fn lemma_escape_roundtrip(s: Seq<char>)
    ensures
        json_unescape(json_escape(s)) == s,
    decreases s.len(),
{
    if s.len() > 0 {
        let c = s[0];
        let rest = s.drop_first();
        assert(s =~= seq![c] + rest);
        lemma_escape_append(seq![c], rest);
        assert(seq![c].drop_last() =~= Seq::<char>::empty());
        assert(json_escape(Seq::<char>::empty()) =~= Seq::<char>::empty());
        assert(json_escape(seq![c]) == json_escape(seq![c].drop_last()) + esc_char(seq![c].last()));
        assert(json_escape(seq![c]) =~= esc_char(c));
        lemma_escape_roundtrip(rest);
        let x = json_escape(rest);
        let e = esc_char(c) + x;
        if c == '\\' || c == '"' {
            assert(e.skip(2) =~= x);
        } else {
            assert(e.drop_first() =~= x);
        }
        assert(json_unescape(e) =~= seq![c] + json_unescape(x));
    }
}

proof fn lemma_dec_digits(n: nat)
    ensures
        dec(n).len() >= 1,
        all_digits(dec(n)),
        digits_value(dec(n)) == n,
        is_digit(dec(n)[0]),
    decreases n,
{
    if n >= 10 {
        lemma_dec_digits(n / 10);
        let d = dec(n / 10);
        let s = dec(n);
        assert(s.drop_last() =~= d);
        assert forall|i: int| 0 <= i < s.len() implies is_digit(#[trigger] s[i]) by {
            if i < d.len() {
                assert(s[i] == d[i]);
            }
        }
        assert(s[0] == d[0]);
        let ch = ((n % 10) + '0' as nat) as char;
        assert(ch as nat == (n % 10) + 48);
        assert(s.last() == ch);
        assert(digits_value(s) == digits_value(d) * 10 + (ch as nat - '0' as nat));
        assert(n == (n / 10) * 10 + n % 10);
    } else {
        let s = dec(n);
        assert(s.drop_last() =~= Seq::<char>::empty());
        let ch = (n + '0' as nat) as char;
        assert(ch as nat == n + 48);
        assert(s.last() == ch);
        assert(digits_value(s) == digits_value(s.drop_last()) * 10 + (ch as nat - '0' as nat));
        assert(digits_value(Seq::<char>::empty()) == 0);
    }
}

/// A number written in decimal reads back as itself, whenever it fits the
/// type it is read as.
pub proof fn lemma_dec_parse_roundtrip(n: nat, max: nat)
    requires
        n <= max,
    ensures
        parse_unsigned(dec(n), max) == Some(n),
{
    lemma_dec_digits(n);
}

/// A binding is flagged first exactly when no earlier binding has the same
/// CPUs, so each CPU list gets its cpuset prepared once, at its first use.
pub proof fn lemma_first_flags(bs: Seq<(i32, Seq<char>)>)
    ensures
        first_flags(bs).len() == bs.len(),
        forall|i: int|
            0 <= i < bs.len() ==> #[trigger] first_flags(bs)[i] == (bs[i].0, bs[i].1, forall|j: int|
                0 <= j < i ==> bs[j].1 != bs[i].1),
    decreases bs.len(),
{
    if bs.len() > 0 {
        let pre = bs.drop_last();
        lemma_first_flags(pre);
        let f = first_flags(bs);
        let last = bs.len() - 1;
        let cs = pre.map_values(|b: (i32, Seq<char>)| b.1);
        assert forall|i: int| 0 <= i < bs.len() implies #[trigger] f[i] == (bs[i].0, bs[i].1, forall|j: int|
            0 <= j < i ==> bs[j].1 != bs[i].1) by {
            if i < last {
                assert(f[i] == first_flags(pre)[i]);
                assert(pre[i] == bs[i]);
                assert forall|j: int| 0 <= j < i implies pre[j] == bs[j] by {}
            } else {
                if cs.contains(bs[last].1) {
                    let k = choose|k: int| 0 <= k < cs.len() && cs[k] == bs[last].1;
                    assert(bs[k].1 == bs[last].1);
                }
                if exists|j: int| 0 <= j < last && bs[j].1 == bs[last].1 {
                    let j = choose|j: int| 0 <= j < last && bs[j].1 == bs[last].1;
                    assert(cs[j] == bs[last].1);
                }
            }
        }
    }
}

/// The countdown after `k` rounds from `c`.
pub open spec fn countdown_after(c: int, k: nat) -> int
    decreases k,
{
    if k == 0 { c } else { countdown_step(countdown_after(c, (k - 1) as nat)).1 }
}

proof fn lemma_countdown_after(c: int, k: nat)
    requires
        k < c <= 5,
    ensures
        countdown_after(c, k) == c - k,
    decreases k,
{
    if k > 0 {
        lemma_countdown_after(c, (k - 1) as nat);
    }
}

/// Placement is applied at least once every five rounds: from any countdown
/// a state can hold, one of the next five rounds finds it due.
pub proof fn lemma_apply_within_five_rounds(c: int)
    requires
        0 <= c <= 5,
    ensures
        exists|k: nat| k < 5 && #[trigger] countdown_step(countdown_after(c, k)).0,
{
    if c <= 1 {
        assert(countdown_step(countdown_after(c, 0)).0);
    } else {
        let k = (c - 1) as nat;
        lemma_countdown_after(c, k);
        assert(countdown_after(c, k) == 1);
        assert(countdown_step(countdown_after(c, k)).0);
    }
}

/// The search counter after `k` round starts from `r`.
pub open spec fn round_after(r: int, k: nat) -> int
    decreases k,
{
    if k == 0 { r } else { round_step(round_after(r, (k - 1) as nat)).1 }
}

proof fn lemma_round_after(r: int, k: nat)
    requires
        0 <= r,
        r + k <= 29,
    ensures
        round_after(r, k) == r + k,
    decreases k,
{
    if k > 0 {
        lemma_round_after(r, (k - 1) as nat);
    }
}

/// The search for new apps comes once in every 30 rounds: from any counter
/// a state can hold, one of the next 30 round starts searches, and after a
/// search the next one is 30 rounds away.
pub proof fn lemma_search_every_thirty_rounds(r: int)
    requires
        0 <= r < 30,
    ensures
        exists|k: nat| k < 30 && #[trigger] round_step(round_after(r, k)).0,
        round_step(r).0 ==> forall|k: nat| k < 29 ==> !#[trigger] round_step(round_after(0, k)).0,
{
    let k = (29 - r) as nat;
    lemma_round_after(r, k);
    assert(round_step(round_after(r, k)).0);
    assert forall|k: nat| k < 29 implies !#[trigger] round_step(round_after(0, k)).0 by {
        lemma_round_after(0, k);
    }
}

/// The cache file stays one JSON array: whatever text it held before, after
/// an entry is added it starts (past leading whitespace) with `[` and ends
/// with `]` and a newline.
pub proof fn lemma_cache_text_is_array(old: Seq<char>, entry: Seq<char>)
    ensures
        trim_start(spec_merged_cache(old, entry)).len() > 0,
        trim_start(spec_merged_cache(old, entry))[0] == '[',
        "\n]\n"@.is_suffix_of(spec_merged_cache(old, entry)),
{
    reveal_strlit("[\n");
    reveal_strlit("\n]\n");
    reveal_strlit(",\n");
    let r = spec_merged_cache(old, entry);
    assert(r.subrange(r.len() - 3, r.len() as int) =~= "\n]\n"@);
    lemma_trim_start_shape(r);
    lemma_trim_start_shape(old);
    let kr = r.len() - trim_start(r).len();
    if trim(old).len() == 0 || !(trim_start(old).len() > 0 && trim_start(old)[0] == '[') {
        assert(r[0] == '[');
        assert(!is_ws(r[0]));
        assert(kr == 0);
    } else {
        let k = old.len() - trim_start(old).len();
        assert(old[k] == '[');
        lemma_trim_end_shape(old);
        let t = trim_end(old);
        let m = t.len();
        assert(k < m);
        let ins = if t.len() > 0 && t.last() == ']' { t.drop_last() } else { t };
        assert(ins.len() > k);
        assert(ins =~= old.take(ins.len() as int));
        lemma_trim_end_shape(ins);
        assert(ins[k] == old[k]);
        let c = trim_end(ins).len();
        assert(k < c);
        let head = trim_end(ins);
        assert(head =~= old.take(c as int));
        assert(r == head + ",\n"@ + entry + "\n]\n"@);
        assert forall|i: int| 0 <= i < c implies r[i] == old[i] by {
            assert(r[i] == head[i]);
        }
        assert(r[k] == '[');
        if kr < k {
            assert(r[kr] == old[kr]);
            assert(is_ws(old[kr]));
        }
        if kr > k {
            assert(is_ws(r[k]));
        }
        assert(kr == k);
    }
    assert(trim_start(r)[0] == r[kr]);
}

/// A value of a flat JSON object: a string, or a bare literal such as a
/// number or `true`.
pub enum JVal {
    Str(Seq<char>),
    Lit(Seq<char>),
}

/// Whether `c` is a control character, below U+0020.
pub open spec fn is_control(c: char) -> bool {
    c <= '\x1f'
}

/// Whether `c` may stand in a JSON string as itself.
pub open spec fn plain_char(c: char) -> bool {
    c != '"' && c != '\\' && !is_control(c)
}

/// What the JSON escape `\c` stands for; `None` for `\u` and for escapes
/// that JSON does not have.
pub open spec fn unescape_char(c: char) -> Option<char> {
    if c == '"' || c == '\\' || c == '/' {
        Some(c)
    } else if c == 'b' {
        Some('\x08')
    } else if c == 'f' {
        Some('\x0c')
    } else if c == 'n' {
        Some('\n')
    } else if c == 'r' {
        Some('\r')
    } else if c == 't' {
        Some('\t')
    } else {
        None
    }
}

/// Reads a JSON string body, after its opening quote: its characters and
/// what follows the closing quote. A control character, a `\u` escape or
/// an unknown escape, or a missing closing quote, gives `None`.
pub open spec fn read_str(s: Seq<char>) -> Option<(Seq<char>, Seq<char>)>
    decreases s.len(),
{
    if s.len() == 0 {
        None
    } else if s[0] == '"' {
        Some((Seq::empty(), s.drop_first()))
    } else if s[0] == '\\' {
        if s.len() < 2 {
            None
        } else {
            match (unescape_char(s[1]), read_str(s.skip(2))) {
                (Some(e), Some((c, r))) => Some((seq![e] + c, r)),
                _ => None,
            }
        }
    } else if is_control(s[0]) {
        None
    } else {
        match read_str(s.drop_first()) {
            Some((c, r)) => Some((seq![s[0]] + c, r)),
            None => None,
        }
    }
}

/// Whether `c` ends a bare literal.
pub open spec fn ends_literal(c: char) -> bool {
    c == ',' || c == '}'
}

/// Reads a bare literal: the characters up to the next `,` or `}`.
pub open spec fn read_lit(s: Seq<char>) -> (Seq<char>, Seq<char>)
    decreases s.len(),
{
    if s.len() == 0 || ends_literal(s[0]) {
        (Seq::empty(), s)
    } else {
        let (l, r) = read_lit(s.drop_first());
        (seq![s[0]] + l, r)
    }
}

/// A JSON number without sign, fraction or exponent: digits, and no
/// leading zero but in `0` itself.
pub open spec fn json_uint(l: Seq<char>) -> bool {
    l.len() > 0 && all_digits(l) && (l.len() == 1 || l[0] != '0')
}

/// A JSON literal that is not a string: such a number, `true`, `false` or
/// `null`.
pub open spec fn json_lit(l: Seq<char>) -> bool {
    json_uint(l) || l == "true"@ || l == "false"@ || l == "null"@
}

/// Reads one value: a string when it starts with a quote, else a literal
/// (see [`json_lit`]).
pub open spec fn read_value(s: Seq<char>) -> Option<(JVal, Seq<char>)> {
    if s.len() > 0 && s[0] == '"' {
        match read_str(s.drop_first()) {
            Some((c, r)) => Some((JVal::Str(c), r)),
            None => None,
        }
    } else {
        let (l, r) = read_lit(s);
        if json_lit(l) { Some((JVal::Lit(l), r)) } else { None }
    }
}

/// Reads one member `"key":value`.
pub open spec fn read_member(s: Seq<char>) -> Option<((Seq<char>, JVal), Seq<char>)> {
    if s.len() > 0 && s[0] == '"' {
        match read_str(s.drop_first()) {
            Some((k, r)) => if r.len() > 0 && r[0] == ':' {
                match read_value(r.drop_first()) {
                    Some((v, r2)) => Some(((k, v), r2)),
                    None => None,
                }
            } else {
                None
            },
            None => None,
        }
    } else {
        None
    }
}

/// Reads the members of an object up to and including its closing `}`,
/// which must end the text.
pub open spec fn read_members(s: Seq<char>) -> Option<Seq<(Seq<char>, JVal)>>
    decreases s.len(),
{
    match read_member(s) {
        Some((m, r)) => if r == seq!['}'] {
            Some(seq![m])
        } else if r.len() > 0 && r[0] == ',' && r.len() < s.len() {
            match read_members(r.drop_first()) {
                Some(ms) => Some(seq![m] + ms),
                None => None,
            }
        } else {
            None
        },
        None => None,
    }
}

/// Reads a whole text as a JSON object with at least one member, no
/// whitespace and no nested object or array: its members in order. Every
/// text it reads is JSON, and JSON reads it as these members.
pub open spec fn read_object(s: Seq<char>) -> Option<Seq<(Seq<char>, JVal)>> {
    if s.len() > 0 && s[0] == '{' {
        read_members(s.drop_first())
    } else {
        None
    }
}

/// The text of a value.
pub open spec fn value_text(v: JVal) -> Seq<char> {
    match v {
        JVal::Str(t) => seq!['"'] + json_escape(t) + seq!['"'],
        JVal::Lit(l) => l,
    }
}

/// The text of a member.
pub open spec fn member_text(m: (Seq<char>, JVal)) -> Seq<char> {
    seq!['"'] + m.0 + seq!['"', ':'] + value_text(m.1)
}

/// The members after `{`, separated by `,`, with the closing `}`.
pub open spec fn members_text(ms: Seq<(Seq<char>, JVal)>) -> Seq<char>
    decreases ms.len(),
{
    if ms.len() <= 1 {
        if ms.len() == 1 { member_text(ms[0]) + seq!['}'] } else { seq!['}'] }
    } else {
        member_text(ms[0]) + seq![','] + members_text(ms.drop_first())
    }
}

/// A text with no control character.
pub open spec fn no_controls(t: Seq<char>) -> bool {
    forall|i: int| 0 <= i < t.len() ==> !is_control(#[trigger] t[i])
}

/// A key that stands in JSON as itself.
pub open spec fn plain_key(k: Seq<char>) -> bool {
    forall|i: int| 0 <= i < k.len() ==> plain_char(#[trigger] k[i])
}

/// A literal that reads back as itself.
pub open spec fn plain_lit(l: Seq<char>) -> bool {
    json_lit(l) && l.len() > 0 && l[0] != '"' && forall|i: int| 0 <= i < l.len() ==> !ends_literal(#[trigger] l[i])
}

/// A member that can be written and read back.
pub open spec fn plain_member(m: (Seq<char>, JVal)) -> bool {
    plain_key(m.0) && match m.1 {
        JVal::Str(t) => no_controls(t),
        JVal::Lit(l) => plain_lit(l),
    }
}

proof fn lemma_read_escaped(t: Seq<char>, r: Seq<char>)
    requires
        no_controls(t),
    ensures
        read_str(json_escape(t) + seq!['"'] + r) == Some((t, r)),
    decreases t.len(),
{
    if t.len() == 0 {
        assert(json_escape(t) + seq!['"'] + r =~= seq!['"'] + r);
        assert((seq!['"'] + r).drop_first() =~= r);
    } else {
        let c = t[0];
        let rest = t.drop_first();
        assert(t =~= seq![c] + rest);
        assert(no_controls(rest)) by {
            assert forall|i: int| 0 <= i < rest.len() implies !is_control(#[trigger] rest[i]) by {
                assert(rest[i] == t[i + 1]);
            }
        }
        assert(!is_control(c));
        lemma_escape_append(seq![c], rest);
        assert(seq![c].drop_last() =~= Seq::<char>::empty());
        assert(json_escape(Seq::<char>::empty()) =~= Seq::<char>::empty());
        assert(json_escape(seq![c]) == json_escape(seq![c].drop_last()) + esc_char(seq![c].last()));
        assert(json_escape(seq![c]) =~= esc_char(c));
        lemma_read_escaped(rest, r);
        let tail = json_escape(rest) + seq!['"'] + r;
        let s = esc_char(c) + tail;
        assert(json_escape(t) + seq!['"'] + r =~= s);
        if c == '\\' || c == '"' {
            assert(s.skip(2) =~= tail);
        } else {
            assert(s.drop_first() =~= tail);
        }
        assert(seq![c] + rest =~= t);
    }
}

proof fn lemma_plain_escape(k: Seq<char>)
    requires
        plain_key(k),
    ensures
        json_escape(k) == k,
        no_controls(k),
    decreases k.len(),
{
    assert forall|i: int| 0 <= i < k.len() implies !is_control(#[trigger] k[i]) by {
        assert(plain_char(k[i]));
    }
    if k.len() > 0 {
        let p = k.drop_last();
        assert forall|i: int| 0 <= i < p.len() implies plain_char(#[trigger] p[i]) by {
            assert(p[i] == k[i]);
        }
        lemma_plain_escape(p);
        assert(plain_char(k[k.len() - 1]));
        assert(json_escape(k) =~= p + seq![k.last()]);
        assert(p + seq![k.last()] =~= k);
    }
}

proof fn lemma_read_plain_lit(l: Seq<char>, r: Seq<char>)
    requires
        forall|i: int| 0 <= i < l.len() ==> !ends_literal(#[trigger] l[i]),
        r.len() > 0 && ends_literal(r[0]),
    ensures
        read_lit(l + r) == (l, r),
    decreases l.len(),
{
    if l.len() == 0 {
        assert(l + r =~= r);
    } else {
        let rest = l.drop_first();
        assert forall|i: int| 0 <= i < rest.len() implies !ends_literal(#[trigger] rest[i]) by {
            assert(rest[i] == l[i + 1]);
        }
        lemma_read_plain_lit(rest, r);
        assert((l + r).drop_first() =~= rest + r);
        assert((l + r)[0] == l[0]);
        assert(seq![l[0]] + rest =~= l);
    }
}

proof fn lemma_read_member(m: (Seq<char>, JVal), r: Seq<char>)
    requires
        plain_member(m),
        r.len() > 0 && ends_literal(r[0]),
    ensures
        read_member(member_text(m) + r) == Some((m, r)),
{
    let s = member_text(m) + r;
    let after_key = seq![':'] + value_text(m.1) + r;
    lemma_plain_escape(m.0);
    lemma_read_escaped(m.0, after_key);
    assert(s.drop_first() =~= json_escape(m.0) + seq!['"'] + after_key);
    assert(after_key.drop_first() =~= value_text(m.1) + r);
    match m.1 {
        JVal::Str(t) => {
            let v = value_text(m.1) + r;
            lemma_read_escaped(t, r);
            assert(v.drop_first() =~= json_escape(t) + seq!['"'] + r);
        },
        JVal::Lit(l) => {
            lemma_read_plain_lit(l, r);
            assert((l + r)[0] == l[0]);
        },
    }
}

proof fn lemma_read_members(ms: Seq<(Seq<char>, JVal)>)
    requires
        ms.len() >= 1,
        forall|i: int| 0 <= i < ms.len() ==> plain_member(#[trigger] ms[i]),
    ensures
        read_members(members_text(ms)) == Some(ms),
    decreases ms.len(),
{
    let m = ms[0];
    if ms.len() == 1 {
        lemma_read_member(m, seq!['}']);
        assert(ms =~= seq![m]);
    } else {
        let rest = ms.drop_first();
        assert forall|i: int| 0 <= i < rest.len() implies plain_member(#[trigger] rest[i]) by {
            assert(rest[i] == ms[i + 1]);
        }
        lemma_read_members(rest);
        let r = seq![','] + members_text(rest);
        lemma_read_member(m, r);
        assert(members_text(ms) =~= member_text(m) + r);
        assert(r.drop_first() =~= members_text(rest));
        assert(r != seq!['}']);
        assert(seq![m] + rest =~= ms);
    }
}

/// A flat object written member by member reads back as those members.
pub proof fn lemma_object_roundtrip(ms: Seq<(Seq<char>, JVal)>)
    requires
        ms.len() >= 1,
        forall|i: int| 0 <= i < ms.len() ==> plain_member(#[trigger] ms[i]),
    ensures
        read_object(seq!['{'] + members_text(ms)) == Some(ms),
{
    lemma_read_members(ms);
    assert((seq!['{'] + members_text(ms)).drop_first() =~= members_text(ms));
}

/// The members of the status record, in the order it writes them.
pub open spec fn status_members(pid: u32, start_sec: u64, now: u64, topo: Seq<char>, big: Seq<char>, little: Seq<char>, rules: usize, ebpf: bool, interval: u64, procs: usize, threads: usize, state: Seq<char>) -> Seq<(Seq<char>, JVal)> {
    seq![
        ("pid"@, JVal::Lit(dec(pid as nat))),
        ("uptime_sec"@, JVal::Lit(dec(uptime(start_sec, now)))),
        ("timestamp"@, JVal::Lit(dec(now as nat))),
        ("topology"@, JVal::Str(topo)),
        ("big"@, JVal::Str(big)),
        ("little"@, JVal::Str(little)),
        ("rules"@, JVal::Lit(dec(rules as nat))),
        ("ebpf"@, JVal::Lit(bool_text(ebpf))),
        ("interval"@, JVal::Lit(dec(interval as nat))),
        ("last_bind_procs"@, JVal::Lit(dec(procs as nat))),
        ("last_bind_threads"@, JVal::Lit(dec(threads as nat))),
        ("state"@, JVal::Str(state)),
    ]
}

proof fn lemma_dec_lead(n: nat)
    requires
        n >= 1,
    ensures
        dec(n)[0] != '0',
    decreases n,
{
    if n >= 10 {
        lemma_dec_lead(n / 10);
        assert(dec(n)[0] == dec(n / 10)[0]);
    } else {
        let ch = (n + '0' as nat) as char;
        assert(ch as nat == n + 48);
    }
}

proof fn lemma_dec_plain(n: nat)
    ensures
        plain_lit(dec(n)),
{
    lemma_dec_digits(n);
    if n >= 10 {
        lemma_dec_lead(n);
    } else {
        assert(dec(n).len() == 1);
    }
    assert forall|i: int| 0 <= i < dec(n).len() implies !ends_literal(#[trigger] dec(n)[i]) by {
        assert(is_digit(dec(n)[i]));
    }
}

/// The first `n` members after `{`, separated by `,`, without the close.
pub open spec fn members_prefix(ms: Seq<(Seq<char>, JVal)>, n: nat) -> Seq<char>
    decreases n,
{
    if n <= 1 {
        seq!['{'] + member_text(ms[0])
    } else {
        members_prefix(ms, (n - 1) as nat) + seq![','] + member_text(ms[n - 1])
    }
}

/// What follows the first `n` members: the rest of them, then `}`.
pub open spec fn members_tail(ms: Seq<(Seq<char>, JVal)>, n: nat) -> Seq<char> {
    if n >= ms.len() { seq!['}'] } else { seq![','] + members_text(ms.skip(n as int)) }
}

proof fn lemma_members_split(ms: Seq<(Seq<char>, JVal)>, n: nat)
    requires
        1 <= n <= ms.len(),
    ensures
        seq!['{'] + members_text(ms) == members_prefix(ms, n) + members_tail(ms, n),
    decreases n,
{
    if n == 1 {
        if ms.len() > 1 {
            assert(ms.skip(1) =~= ms.drop_first());
        }
        assert(seq!['{'] + members_text(ms) =~= members_prefix(ms, n) + members_tail(ms, n));
    } else {
        lemma_members_split(ms, (n - 1) as nat);
        let s = ms.skip(n - 1);
        assert(s[0] == ms[n - 1]);
        if n < ms.len() {
            assert(s.drop_first() =~= ms.skip(n as int));
        }
        assert(members_text(s) =~= member_text(ms[n - 1]) + members_tail(ms, n));
        assert(seq!['{'] + members_text(ms) =~= members_prefix(ms, n) + members_tail(ms, n));
    }
}

proof fn lemma_lit_after_lit(p: Seq<char>, q: Seq<char>, key: Seq<char>, v: Seq<char>, lit: Seq<char>)
    requires
        p == q,
        lit == seq![','] + seq!['"'] + key + seq!['"', ':'],
    ensures
        p + lit + v == q + seq![','] + member_text((key, JVal::Lit(v))),
{
    assert(p + lit + v =~= q + seq![','] + member_text((key, JVal::Lit(v))));
}

proof fn lemma_str_after_lit(p: Seq<char>, q: Seq<char>, key: Seq<char>, t: Seq<char>, lit: Seq<char>)
    requires
        p == q,
        lit == seq![','] + seq!['"'] + key + seq!['"', ':', '"'],
    ensures
        p + lit + json_escape(t) + seq!['"'] == q + seq![','] + member_text((key, JVal::Str(t))),
{
    assert(p + lit + json_escape(t) + seq!['"'] =~= q + seq![','] + member_text((key, JVal::Str(t))));
}

proof fn lemma_str_after_str(p: Seq<char>, q: Seq<char>, key: Seq<char>, t: Seq<char>, lit: Seq<char>)
    requires
        p + seq!['"'] == q,
        lit == seq!['"', ','] + seq!['"'] + key + seq!['"', ':', '"'],
    ensures
        p + lit + json_escape(t) + seq!['"'] == q + seq![','] + member_text((key, JVal::Str(t))),
{
    assert(p + lit + json_escape(t) + seq!['"'] =~= q + seq![','] + member_text((key, JVal::Str(t))));
}

proof fn lemma_lit_after_str(p: Seq<char>, q: Seq<char>, key: Seq<char>, v: Seq<char>, lit: Seq<char>)
    requires
        p + seq!['"'] == q,
        lit == seq!['"', ','] + seq!['"'] + key + seq!['"', ':'],
    ensures
        p + lit + v == q + seq![','] + member_text((key, JVal::Lit(v))),
{
    assert(p + lit + v =~= q + seq![','] + member_text((key, JVal::Lit(v))));
}

/// The status record is `{`, its members and `}`.
#[verifier::rlimit(50)]
#[verifier::spinoff_prover]
proof fn lemma_status_text(pid: u32, start_sec: u64, now: u64, topo: Seq<char>, big: Seq<char>, little: Seq<char>, rules: usize, ebpf: bool, interval: u64, procs: usize, threads: usize, state: Seq<char>)
    ensures
        spec_status_json(pid, start_sec, now, topo, big, little, rules, ebpf, interval, procs, threads, state)
            == seq!['{'] + members_text(status_members(pid, start_sec, now, topo, big, little, rules, ebpf, interval, procs, threads, state)),
{
    let ms = status_members(pid, start_sec, now, topo, big, little, rules, ebpf, interval, procs, threads, state);
    let c = seq![','];
    let q = seq!['"'];
    let cq = seq!['"', ':'];
    let cqq = seq!['"', ':', '"'];
    let qc = seq!['"', ','];
    assert("{\"pid\":"@ =~= seq!['{'] + q + "pid"@ + cq) by {
        reveal_strlit("{\"pid\":");
        reveal_strlit("pid");
    }
    assert(",\"uptime_sec\":"@ =~= c + q + "uptime_sec"@ + cq) by {
        reveal_strlit(",\"uptime_sec\":");
        reveal_strlit("uptime_sec");
    }
    assert(",\"timestamp\":"@ =~= c + q + "timestamp"@ + cq) by {
        reveal_strlit(",\"timestamp\":");
        reveal_strlit("timestamp");
    }
    assert(",\"topology\":\""@ =~= c + q + "topology"@ + cqq) by {
        reveal_strlit(",\"topology\":\"");
        reveal_strlit("topology");
    }
    assert("\",\"big\":\""@ =~= qc + q + "big"@ + cqq) by {
        reveal_strlit("\",\"big\":\"");
        reveal_strlit("big");
    }
    assert("\",\"little\":\""@ =~= qc + q + "little"@ + cqq) by {
        reveal_strlit("\",\"little\":\"");
        reveal_strlit("little");
    }
    assert("\",\"rules\":"@ =~= qc + q + "rules"@ + cq) by {
        reveal_strlit("\",\"rules\":");
        reveal_strlit("rules");
    }
    assert(",\"ebpf\":"@ =~= c + q + "ebpf"@ + cq) by {
        reveal_strlit(",\"ebpf\":");
        reveal_strlit("ebpf");
    }
    assert(",\"interval\":"@ =~= c + q + "interval"@ + cq) by {
        reveal_strlit(",\"interval\":");
        reveal_strlit("interval");
    }
    assert(",\"last_bind_procs\":"@ =~= c + q + "last_bind_procs"@ + cq) by {
        reveal_strlit(",\"last_bind_procs\":");
        reveal_strlit("last_bind_procs");
    }
    assert(",\"last_bind_threads\":"@ =~= c + q + "last_bind_threads"@ + cq) by {
        reveal_strlit(",\"last_bind_threads\":");
        reveal_strlit("last_bind_threads");
    }
    assert(",\"state\":\""@ =~= c + q + "state"@ + cqq) by {
        reveal_strlit(",\"state\":\"");
        reveal_strlit("state");
    }
    assert("\"}"@ =~= q + seq!['}']) by {
        reveal_strlit("\"}");
    }
    let p0 = "{\"pid\":"@ + dec(pid as nat);
    assert(p0 =~= members_prefix(ms, 1));
    let p1 = p0 + ",\"uptime_sec\":"@ + dec(uptime(start_sec, now));
    lemma_lit_after_lit(p0, members_prefix(ms, 1), "uptime_sec"@, dec(uptime(start_sec, now)), ",\"uptime_sec\":"@);
    assert(p1 == members_prefix(ms, 2));
    let p2 = p1 + ",\"timestamp\":"@ + dec(now as nat);
    lemma_lit_after_lit(p1, members_prefix(ms, 2), "timestamp"@, dec(now as nat), ",\"timestamp\":"@);
    assert(p2 == members_prefix(ms, 3));
    let p3 = p2 + ",\"topology\":\""@ + json_escape(topo);
    lemma_str_after_lit(p2, members_prefix(ms, 3), "topology"@, topo, ",\"topology\":\""@);
    assert(p3 + q == members_prefix(ms, 4));
    let p4 = p3 + "\",\"big\":\""@ + json_escape(big);
    lemma_str_after_str(p3, members_prefix(ms, 4), "big"@, big, "\",\"big\":\""@);
    assert(p4 + q == members_prefix(ms, 5));
    let p5 = p4 + "\",\"little\":\""@ + json_escape(little);
    lemma_str_after_str(p4, members_prefix(ms, 5), "little"@, little, "\",\"little\":\""@);
    assert(p5 + q == members_prefix(ms, 6));
    let p6 = p5 + "\",\"rules\":"@ + dec(rules as nat);
    lemma_lit_after_str(p5, members_prefix(ms, 6), "rules"@, dec(rules as nat), "\",\"rules\":"@);
    assert(p6 == members_prefix(ms, 7));
    let p7 = p6 + ",\"ebpf\":"@ + bool_text(ebpf);
    lemma_lit_after_lit(p6, members_prefix(ms, 7), "ebpf"@, bool_text(ebpf), ",\"ebpf\":"@);
    assert(p7 == members_prefix(ms, 8));
    let p8 = p7 + ",\"interval\":"@ + dec(interval as nat);
    lemma_lit_after_lit(p7, members_prefix(ms, 8), "interval"@, dec(interval as nat), ",\"interval\":"@);
    assert(p8 == members_prefix(ms, 9));
    let p9 = p8 + ",\"last_bind_procs\":"@ + dec(procs as nat);
    lemma_lit_after_lit(p8, members_prefix(ms, 9), "last_bind_procs"@, dec(procs as nat), ",\"last_bind_procs\":"@);
    assert(p9 == members_prefix(ms, 10));
    let p10 = p9 + ",\"last_bind_threads\":"@ + dec(threads as nat);
    lemma_lit_after_lit(p9, members_prefix(ms, 10), "last_bind_threads"@, dec(threads as nat), ",\"last_bind_threads\":"@);
    assert(p10 == members_prefix(ms, 11));
    let p11 = p10 + ",\"state\":\""@ + json_escape(state);
    lemma_str_after_lit(p10, members_prefix(ms, 11), "state"@, state, ",\"state\":\""@);
    assert(p11 + q == members_prefix(ms, 12));
    lemma_members_split(ms, 12);
    assert(members_tail(ms, 12) == seq!['}']);
    assert(p11 + "\"}"@ =~= members_prefix(ms, 12) + seq!['}']);
}

/// The status record reads back as a JSON object whose members are, in
/// order, the process id, the uptime (0 whenever the start is not before
/// now), the time, the topology, the big and little CPU lists, the rule
/// count, the eBPF flag, the interval, the processes and threads bound, and
/// the state, each string member holding exactly the text given, provided
/// that no control character stands in the texts (JSON refuses them raw).
pub proof fn lemma_status_record_reads_back(pid: u32, start_sec: u64, now: u64, topo: Seq<char>, big: Seq<char>, little: Seq<char>, rules: usize, ebpf: bool, interval: u64, procs: usize, threads: usize, state: Seq<char>)
    requires
        no_controls(topo),
        no_controls(big),
        no_controls(little),
        no_controls(state),
    ensures
        read_object(spec_status_json(pid, start_sec, now, topo, big, little, rules, ebpf, interval, procs, threads, state))
            == Some(status_members(pid, start_sec, now, topo, big, little, rules, ebpf, interval, procs, threads, state)),
        start_sec >= now ==> status_members(pid, start_sec, now, topo, big, little, rules, ebpf, interval, procs, threads, state)[1] == ("uptime_sec"@, JVal::Lit(seq!['0'])),
{
    let ms = status_members(pid, start_sec, now, topo, big, little, rules, ebpf, interval, procs, threads, state);
    lemma_dec_plain(pid as nat);
    lemma_dec_plain(uptime(start_sec, now));
    lemma_dec_plain(now as nat);
    lemma_dec_plain(rules as nat);
    lemma_dec_plain(interval as nat);
    lemma_dec_plain(procs as nat);
    lemma_dec_plain(threads as nat);
    assert(plain_lit(bool_text(ebpf))) by {
        reveal_strlit("true");
        reveal_strlit("false");
    }
    assert forall|i: int| 0 <= i < ms.len() implies plain_member(#[trigger] ms[i]) by {
        reveal_strlit("pid");
        reveal_strlit("uptime_sec");
        reveal_strlit("timestamp");
        reveal_strlit("topology");
        reveal_strlit("big");
        reveal_strlit("little");
        reveal_strlit("rules");
        reveal_strlit("ebpf");
        reveal_strlit("interval");
        reveal_strlit("last_bind_procs");
        reveal_strlit("last_bind_threads");
        reveal_strlit("state");
        assert(plain_key(ms[i].0)) by {
            if ms[i].0.contains('"') {
                let j = choose|j: int| 0 <= j < ms[i].0.len() && ms[i].0[j] == '"';
            }
            if ms[i].0.contains('\\') {
                let j = choose|j: int| 0 <= j < ms[i].0.len() && ms[i].0[j] == '\\';
            }
        }
    }
    lemma_object_roundtrip(ms);
    lemma_status_text(pid, start_sec, now, topo, big, little, rules, ebpf, interval, procs, threads, state);
    if start_sec >= now {
        assert(uptime(start_sec, now) == 0);
        assert(dec(0) =~= seq!['0']);
    }
}

/// The length in bytes of the log file after a line of `line` bytes is
/// written to it at `size` bytes: emptied first when [`log_resets`], then
/// the line appended.
pub open spec fn log_len_after(size: nat, line: nat) -> nat {
    (if log_resets(size as int) { 0 } else { size }) + line
}

/// The length of the log file after lines of the byte lengths `lines` are
/// written to it one by one, from `size` bytes.
pub open spec fn log_len_after_all(size: nat, lines: Seq<nat>) -> nat
    decreases lines.len(),
{
    if lines.len() == 0 {
        size
    } else {
        log_len_after(log_len_after_all(size, lines.drop_last()), lines.last())
    }
}

/// After a line is written, the log file holds at most 512 KiB and that line.
pub proof fn lemma_log_write_bounded(size: nat, line: nat)
    ensures
        log_len_after(size, line) <= 524288 + line,
{
}

/// While no line is longer than `k` bytes, a log file of at most 512 KiB
/// and `k` bytes stays so, however many lines are written.
pub proof fn lemma_log_stays_bounded(size: nat, lines: Seq<nat>, k: nat)
    requires
        size <= 524288 + k,
        forall|i: int| 0 <= i < lines.len() ==> #[trigger] lines[i] <= k,
    ensures
        log_len_after_all(size, lines) <= 524288 + k,
    decreases lines.len(),
{
    if lines.len() > 0 {
        let rest = lines.drop_last();
        assert forall|i: int| 0 <= i < rest.len() implies #[trigger] rest[i] <= k by {
            assert(rest[i] == lines[i]);
        }
        lemma_log_stays_bounded(size, rest, k);
        assert(lines.last() == lines[lines.len() - 1]);
    }
}

/// A pattern with a `*`: a `*`-free prefix, the `*`, and a suffix that is
/// not empty, matches exactly the names that start with the prefix and
/// whose rest, after the prefix, ends with the suffix.
pub proof fn lemma_fnmatch_star_infix(pre: Seq<char>, suf: Seq<char>, n: Seq<char>)
    requires
        !pre.contains('*'),
        suf.len() > 0,
    ensures
        spec_fnmatch(pre + seq!['*'] + suf, n) <==> (pre.is_prefix_of(n) && suf.is_suffix_of(n.skip(pre.len() as int))),
{
    let p = pre + seq!['*'] + suf;
    let k = pre.len() as int;
    assert(p[k] == '*');
    lemma_first_index(p, '*');
    match first_index(p, '*') {
        Some(j) => {
            if j < k {
                assert(p[j] == pre[j]);
                assert(pre.contains('*'));
            }
            assert(j == k);
        },
        None => {
            assert(p.contains('*'));
        },
    }
    assert(p.take(k) =~= pre);
    assert(p.skip(k + 1) =~= suf);
}

/// A pattern `*` and a suffix that is not empty matches exactly the names
/// that end with the suffix.
pub proof fn lemma_fnmatch_star_suffix(suf: Seq<char>, n: Seq<char>)
    requires
        suf.len() > 0,
    ensures
        spec_fnmatch(seq!['*'] + suf, n) <==> suf.is_suffix_of(n),
{
    let e = Seq::<char>::empty();
    assert(!e.contains('*'));
    lemma_fnmatch_star_infix(e, suf, n);
    assert(e + seq!['*'] + suf =~= seq!['*'] + suf);
    assert(n.skip(0) =~= n);
    assert(e.is_prefix_of(n)) by {
        assert(e =~= n.subrange(0, 0));
    }
}

/// Whether the word `w` occurs in the name `n`.
pub open spec fn mentions(n: Seq<char>, w: Seq<char>) -> bool {
    exists|i: int| 0 <= i && i + w.len() <= n.len() && #[trigger] n.subrange(i, i + w.len()) == w
}

/// A name that mentions graphics work.
pub open spec fn mentions_graphics(n: Seq<char>) -> bool {
    mentions(n, "Render"@) || mentions(n, "Gfx"@) || mentions(n, "GL"@) || mentions(n, "Vulkan"@)
}

/// A name that mentions media work.
pub open spec fn mentions_media(n: Seq<char>) -> bool {
    mentions(n, "Decode"@) || mentions(n, "Codec"@) || mentions(n, "Video"@) || mentions(n, "Audio"@)
}

/// A name that mentions a game or an app's main thread.
pub open spec fn mentions_main(n: Seq<char>) -> bool {
    mentions(n, "Main"@) || mentions(n, "Unity"@) || mentions(n, "Game"@)
}

/// A name that mentions a worker thread.
pub open spec fn mentions_worker(n: Seq<char>) -> bool {
    mentions(n, "Worker"@) || mentions(n, "Thread"@) || mentions(n, "Job"@)
}

/// A name that mentions input, output or the network.
pub open spec fn mentions_io(n: Seq<char>) -> bool {
    mentions(n, "Io"@) || mentions(n, "Network"@) || mentions(n, "Http"@)
}

/// A name that mentions background work.
pub open spec fn mentions_idle(n: Seq<char>) -> bool {
    mentions(n, "Background"@) || mentions(n, "Idle"@) || mentions(n, "Pool"@)
}

/// The load class of a thread from its name, the first kind of word it
/// mentions deciding: graphics work 10, media work 8, a main or game
/// thread (`Main`, `Unity`, `Game`) 9, a worker 5, input, output or the
/// network 3, background work 1, and 4 for a name with none of these words.
/// A thread is heavy (class 8 or more) exactly when its name mentions
/// graphics, media, or a main or game thread.
pub proof fn lemma_est_load_classes(n: Seq<char>)
    ensures
        mentions_graphics(n) ==> spec_est_load(n) == 10,
        !mentions_graphics(n) && mentions_media(n) ==> spec_est_load(n) == 8,
        !mentions_graphics(n) && !mentions_media(n) && mentions_main(n) ==> spec_est_load(n) == 9,
        !mentions_graphics(n) && !mentions_media(n) && !mentions_main(n) && mentions_worker(n) ==> spec_est_load(n) == 5,
        !mentions_graphics(n) && !mentions_media(n) && !mentions_main(n) && !mentions_worker(n) && mentions_io(n)
            ==> spec_est_load(n) == 3,
        !mentions_graphics(n) && !mentions_media(n) && !mentions_main(n) && !mentions_worker(n) && !mentions_io(n)
            && mentions_idle(n) ==> spec_est_load(n) == 1,
        !mentions_graphics(n) && !mentions_media(n) && !mentions_main(n) && !mentions_worker(n) && !mentions_io(n)
            && !mentions_idle(n) ==> spec_est_load(n) == 4,
        spec_est_load(n) >= 8 <==> (mentions_graphics(n) || mentions_media(n) || mentions_main(n)),
{
}

/// A package named in the set is watched, and so is one that any of the
/// patterns matches, whichever place the pattern has among them. A watched
/// package is one of these.
pub proof fn lemma_watched_by_set_or_pattern(set: Set<Seq<char>>, wild: Seq<Seq<char>>, pkg: Seq<char>, i: int)
    requires
        0 <= i < wild.len(),
    ensures
        set.contains(pkg) ==> spec_watched(set, wild, pkg),
        spec_fnmatch(wild[i], pkg) ==> spec_watched(set, wild, pkg),
        spec_watched(set, wild, pkg) && !set.contains(pkg) ==> exists|j: int| 0 <= j < wild.len() && spec_fnmatch(#[trigger] wild[j], pkg),
{
}

/// A process whose command line starts with a package name that is not
/// empty, up to a NUL, is a target of the scan when its id is at least 1000
/// and the package is named in the set or matched by any one of the
/// patterns; a process with a smaller id never is.
pub proof fn lemma_scan_target_found(set: Set<Seq<char>>, wild: Seq<Seq<char>>, pid: i32, pkg: Seq<char>, rest: Seq<char>, i: int)
    requires
        pkg.len() > 0,
        !pkg.contains('\0'),
        0 <= i < wild.len(),
    ensures
        pid >= 1000 && set.contains(pkg) ==> spec_scan_target(set, wild, pid, pkg + seq!['\0'] + rest) == Some(pkg),
        pid >= 1000 && spec_fnmatch(wild[i], pkg) ==> spec_scan_target(set, wild, pid, pkg + seq!['\0'] + rest) == Some(pkg),
        pid < 1000 ==> spec_scan_target(set, wild, pid, pkg + seq!['\0'] + rest) is None,
{
    let cl = pkg + seq!['\0'] + rest;
    let k = pkg.len() as int;
    assert(cl[k] == '\0');
    lemma_first_index(cl, '\0');
    match first_index(cl, '\0') {
        Some(j) => {
            if j < k {
                assert(cl[j] == pkg[j]);
                assert(pkg.contains('\0'));
            }
            assert(j == k);
        },
        None => {
            assert(cl.contains('\0'));
        },
    }
    assert(cl.take(k) =~= pkg);
    assert(spec_cmdline_pkg(cl) == pkg);
}

/// The process names that end with one of these service suffixes are never
/// cached.
pub open spec fn service_suffixes() -> Seq<Seq<char>> {
    seq![":widgetProvider"@, ":searchDataService"@, ":coreService"@, ":cognitionService"@, ":bert"@,
        ":bertAlgo"@, ":privacy"@, ":kit7"@, ":services"@, ":daemon"@]
}

/// The process names that start with one of these vendor prefixes are never
/// cached.
pub open spec fn vendor_prefixes() -> Seq<Seq<char>> {
    seq!["com.qualcomm."@, ".qti"@, ".qms"@, ".cacert"@, ".dataservices"@]
}

/// These system processes are never cached.
pub open spec fn system_processes() -> Seq<Seq<char>> {
    seq!["android.process.media"@, "android.process.acore"@]
}

/// A package is never cached (so `save` gives `None`) exactly when it is one
/// of the system processes, ends with one of the service suffixes or starts
/// with one of the vendor prefixes; every other package is cached.
pub proof fn lemma_skipped_services(pkg: Seq<char>)
    ensures
        spec_skipped(pkg) <==> (system_processes().contains(pkg)
            || (exists|i: int| 0 <= i < service_suffixes().len() && (#[trigger] service_suffixes()[i]).is_suffix_of(pkg))
            || (exists|i: int| 0 <= i < vendor_prefixes().len() && (#[trigger] vendor_prefixes()[i]).is_prefix_of(pkg))),
{
    let sp = system_processes();
    let ss = service_suffixes();
    let vp = vendor_prefixes();
    if spec_skipped(pkg) {
        if pkg == "android.process.media"@ { assert(sp[0] == pkg); }
        if pkg == "android.process.acore"@ { assert(sp[1] == pkg); }
        if ":widgetProvider"@.is_suffix_of(pkg) { assert(ss[0].is_suffix_of(pkg)); }
        if ":searchDataService"@.is_suffix_of(pkg) { assert(ss[1].is_suffix_of(pkg)); }
        if ":coreService"@.is_suffix_of(pkg) { assert(ss[2].is_suffix_of(pkg)); }
        if ":cognitionService"@.is_suffix_of(pkg) { assert(ss[3].is_suffix_of(pkg)); }
        if ":bert"@.is_suffix_of(pkg) { assert(ss[4].is_suffix_of(pkg)); }
        if ":bertAlgo"@.is_suffix_of(pkg) { assert(ss[5].is_suffix_of(pkg)); }
        if ":privacy"@.is_suffix_of(pkg) { assert(ss[6].is_suffix_of(pkg)); }
        if ":kit7"@.is_suffix_of(pkg) { assert(ss[7].is_suffix_of(pkg)); }
        if ":services"@.is_suffix_of(pkg) { assert(ss[8].is_suffix_of(pkg)); }
        if ":daemon"@.is_suffix_of(pkg) { assert(ss[9].is_suffix_of(pkg)); }
        if "com.qualcomm."@.is_prefix_of(pkg) { assert(vp[0].is_prefix_of(pkg)); }
        if ".qti"@.is_prefix_of(pkg) { assert(vp[1].is_prefix_of(pkg)); }
        if ".qms"@.is_prefix_of(pkg) { assert(vp[2].is_prefix_of(pkg)); }
        if ".cacert"@.is_prefix_of(pkg) { assert(vp[3].is_prefix_of(pkg)); }
        if ".dataservices"@.is_prefix_of(pkg) { assert(vp[4].is_prefix_of(pkg)); }
    }
    if sp.contains(pkg) {
        let i = choose|i: int| 0 <= i < sp.len() && sp[i] == pkg;
    }
    if exists|i: int| 0 <= i < ss.len() && (#[trigger] ss[i]).is_suffix_of(pkg) {
        let i = choose|i: int| 0 <= i < ss.len() && (#[trigger] ss[i]).is_suffix_of(pkg);
        assert(0 <= i < 10);
    }
    if exists|i: int| 0 <= i < vp.len() && (#[trigger] vp[i]).is_prefix_of(pkg) {
        let i = choose|i: int| 0 <= i < vp.len() && (#[trigger] vp[i]).is_prefix_of(pkg);
        assert(0 <= i < 5);
    }
}

proof fn lemma_status_uid_from(lines: Seq<Seq<char>>, i: int)
    requires
        0 <= i <= lines.len(),
        forall|j: int| 0 <= j < i ==> !"Uid:"@.is_prefix_of(#[trigger] lines[j]),
    ensures
        status_uid(lines) == status_uid(lines.skip(i)),
    decreases i,
{
    if i == 0 {
        assert(lines.skip(0) =~= lines);
    } else {
        let t = lines.drop_first();
        assert forall|j: int| 0 <= j < i - 1 implies !"Uid:"@.is_prefix_of(#[trigger] t[j]) by {
            assert(t[j] == lines[j + 1]);
        }
        lemma_status_uid_from(t, i - 1);
        assert(t.skip(i - 1) =~= lines.skip(i));
        assert(!"Uid:"@.is_prefix_of(lines[0]));
    }
}

/// A status text whose first line that starts with `Uid:` has as its second
/// word a number `u` in decimal (a `+` before it allowed) is an app's
/// exactly when `u` is at least 10000 and fits a `u32`: there is no other
/// upper bound.
pub proof fn lemma_app_status_uid(status: Seq<char>, i: int, u: nat)
    requires
        0 <= i < split_on(status, '\n').len(),
        "Uid:"@.is_prefix_of(split_on(status, '\n')[i]),
        forall|j: int| 0 <= j < i ==> !"Uid:"@.is_prefix_of(#[trigger] split_on(status, '\n')[j]),
        words(split_on(status, '\n')[i]).len() >= 2,
        words(split_on(status, '\n')[i])[1] == dec(u) || words(split_on(status, '\n')[i])[1] == seq!['+'] + dec(u),
    ensures
        spec_is_app_status(status) <==> (10000 <= u <= u32::MAX),
{
    let lines = split_on(status, '\n');
    lemma_status_uid_from(lines, i);
    let t = lines.skip(i);
    assert(t[0] == lines[i]);
    lemma_dec_digits(u);
    let w = words(lines[i])[1];
    if w == seq!['+'] + dec(u) {
        assert(w.drop_first() =~= dec(u));
    } else {
        assert(dec(u)[0] != '+') by {
            assert(is_digit(dec(u)[0]));
        }
    }
}

/// A status text whose first line that starts with `Uid:` has no second
/// word, or a second word that is not a number (a character other than a
/// digit, but for a `+` in front), is no app's.
pub proof fn lemma_app_status_bad_uid(status: Seq<char>, i: int)
    requires
        0 <= i < split_on(status, '\n').len(),
        "Uid:"@.is_prefix_of(split_on(status, '\n')[i]),
        forall|j: int| 0 <= j < i ==> !"Uid:"@.is_prefix_of(#[trigger] split_on(status, '\n')[j]),
        words(split_on(status, '\n')[i]).len() < 2 || {
            let w = words(split_on(status, '\n')[i])[1];
            w == seq!['+'] || exists|k: int| 0 <= k < w.len() && !is_digit(#[trigger] w[k]) && !(k == 0 && w[k] == '+')
        },
    ensures
        !spec_is_app_status(status),
{
    let lines = split_on(status, '\n');
    lemma_status_uid_from(lines, i);
    let t = lines.skip(i);
    assert(t[0] == lines[i]);
    if words(lines[i]).len() >= 2 {
        let w = words(lines[i])[1];
        let d = if w.len() > 0 && w[0] == '+' { w.drop_first() } else { w };
        if w != seq!['+'] {
            let k = choose|k: int| 0 <= k < w.len() && !is_digit(#[trigger] w[k]) && !(k == 0 && w[k] == '+');
            if w.len() > 0 && w[0] == '+' {
                assert(d[k - 1] == w[k]);
            } else {
                assert(d[k] == w[k]);
            }
            assert(!all_digits(d));
        } else {
            assert(d.len() == 0);
        }
    }
}

/// A status text in which no line starts with `Uid:` is no app's.
pub proof fn lemma_app_status_needs_uid(status: Seq<char>)
    requires
        forall|j: int| 0 <= j < split_on(status, '\n').len() ==> !"Uid:"@.is_prefix_of(#[trigger] split_on(status, '\n')[j]),
    ensures
        !spec_is_app_status(status),
{
    let lines = split_on(status, '\n');
    lemma_status_uid_from(lines, lines.len() as int);
    assert(lines.skip(lines.len() as int) =~= Seq::<Seq<char>>::empty());
}

/// An app process that no rule covers yet is found: an entry named by its
/// process id `pid` of at least 1000 in decimal, with the status of an app
/// and a command line that starts with a package that is not empty, up to a
/// NUL, gives that process and package, when the package has a `.`, no `/`,
/// and neither the set names it nor any pattern matches it. When any of
/// these fails there is nothing to assign.
pub proof fn lemma_unknown_target_found(set: Set<Seq<char>>, wild: Seq<Seq<char>>, pid: nat, status: Seq<char>, pkg: Seq<char>, rest: Seq<char>)
    requires
        pid <= i32::MAX,
        pkg.len() > 0,
        !pkg.contains('\0'),
    ensures
        ({
            let found = pid >= 1000 && spec_is_app_status(status) && pkg.contains('.') && !pkg.contains('/')
                && !set.contains(pkg) && forall|i: int| 0 <= i < wild.len() ==> !spec_fnmatch(#[trigger] wild[i], pkg);
            spec_unknown_target(set, wild, dec(pid), status, pkg + seq!['\0'] + rest)
                == if found { Some((pid as int, pkg)) } else { None }
        }),
{
    let cl = pkg + seq!['\0'] + rest;
    let k = pkg.len() as int;
    assert(cl[k] == '\0');
    lemma_first_index(cl, '\0');
    match first_index(cl, '\0') {
        Some(j) => {
            if j < k {
                assert(cl[j] == pkg[j]);
                assert(pkg.contains('\0'));
            }
            assert(j == k);
        },
        None => {
            assert(cl.contains('\0'));
        },
    }
    assert(cl.take(k) =~= pkg);
    assert(spec_cmdline_pkg(cl) == pkg);
    lemma_dec_digits(pid);
    assert(parse_i32_spec(dec(pid)) == Some(pid as int));
}

/// A command line with no NUL is all package name.
pub proof fn lemma_cmdline_without_nul(cl: Seq<char>)
    requires
        !cl.contains('\0'),
    ensures
        spec_cmdline_pkg(cl) == cl,
{
    lemma_first_index(cl, '\0');
}

} // verus!
