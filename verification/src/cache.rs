use vstd::prelude::*;
use crate::json::views;
use crate::pattern::{est_load, spec_est_load};
use crate::text::{
    chars_of, cut_ws, push_chars, push_str, region_eq, skip_ws, str_eq, trim, trim_end, trim_start,
    is_ws,
};

verus! {

broadcast use vstd::string::group_string_axioms;

/// Whether the process name `pkg` is one of the system services that are
/// never cached.
pub open spec fn spec_skipped(pkg: Seq<char>) -> bool {
    ||| ":widgetProvider"@.is_suffix_of(pkg)
    ||| ":searchDataService"@.is_suffix_of(pkg)
    ||| ":coreService"@.is_suffix_of(pkg)
    ||| ":cognitionService"@.is_suffix_of(pkg)
    ||| ":bert"@.is_suffix_of(pkg)
    ||| ":bertAlgo"@.is_suffix_of(pkg)
    ||| ":privacy"@.is_suffix_of(pkg)
    ||| ":kit7"@.is_suffix_of(pkg)
    ||| ":services"@.is_suffix_of(pkg)
    ||| ":daemon"@.is_suffix_of(pkg)
    ||| pkg == "android.process.media"@
    ||| pkg == "android.process.acore"@
    ||| "com.qualcomm."@.is_prefix_of(pkg)
    ||| ".qti"@.is_prefix_of(pkg)
    ||| ".qms"@.is_prefix_of(pkg)
    ||| ".cacert"@.is_prefix_of(pkg)
    ||| ".dataservices"@.is_prefix_of(pkg)
}

fn ends_with(v: &[char], t: &str) -> (r: bool)
    ensures
        r == t@.is_suffix_of(v@),
{
    let tv = chars_of(t);
    if tv.len() > v.len() {
        return false;
    }
    let r = region_eq(v, v.len() - tv.len(), tv.as_slice(), 0, tv.len());
    assert(tv@.subrange(0, tv@.len() as int) =~= tv@);
    r
}

fn starts_with(v: &[char], t: &str) -> (r: bool)
    ensures
        r == t@.is_prefix_of(v@),
{
    let tv = chars_of(t);
    if tv.len() > v.len() {
        return false;
    }
    let r = region_eq(v, 0, tv.as_slice(), 0, tv.len());
    assert(tv@.subrange(0, tv@.len() as int) =~= tv@);
    r
}

/// Whether `pkg` is never cached (see [`spec_skipped`]).
pub fn is_skipped(pkg: &str) -> (r: bool)
    ensures
        r == spec_skipped(pkg@),
{
    let v = chars_of(pkg);
    let s = v.as_slice();
    ends_with(s, ":widgetProvider") || ends_with(s, ":searchDataService") || ends_with(s, ":coreService")
        || ends_with(s, ":cognitionService") || ends_with(s, ":bert") || ends_with(s, ":bertAlgo")
        || ends_with(s, ":privacy") || ends_with(s, ":kit7") || ends_with(s, ":services")
        || ends_with(s, ":daemon") || str_eq(pkg, "android.process.media") || str_eq(
        pkg,
        "android.process.acore",
    ) || starts_with(s, "com.qualcomm.") || starts_with(s, ".qti") || starts_with(s, ".qms")
        || starts_with(s, ".cacert") || starts_with(s, ".dataservices")
}

/// The names among the threads `ts` whose estimated load is at least 8.
pub open spec fn heavy_names(ts: Seq<(i32, String)>) -> Seq<Seq<char>>
    decreases ts.len(),
{
    if ts.len() == 0 {
        Seq::empty()
    } else {
        heavy_names(ts.drop_last()) + if spec_est_load(ts.last().1@) >= 8 {
            seq![ts.last().1@]
        } else {
            Seq::empty()
        }
    }
}

/// The heavy thread names of every listed process named `pkg`, in order.
pub open spec fn spec_big_names(pkg: Seq<char>, all: Seq<(i32, String, Vec<(i32, String)>)>) -> Seq<Seq<char>>
    decreases all.len(),
{
    if all.len() == 0 {
        Seq::empty()
    } else {
        spec_big_names(pkg, all.drop_last()) + if all.last().1@ == pkg {
            heavy_names(all.last().2@)
        } else {
            Seq::empty()
        }
    }
}

/// The names of the heavy threads of the processes named `pkg` in `all`
/// (see [`spec_big_names`]).
pub fn big_names(pkg: &str, all: &[(i32, String, Vec<(i32, String)>)]) -> (r: Vec<String>)
    ensures
        views(r@) == spec_big_names(pkg@, all@),
{
    let mut out: Vec<String> = Vec::new();
    let mut i: usize = 0;
    assert(all@.take(0) =~= Seq::<(i32, String, Vec<(i32, String)>)>::empty());
    assert(views(out@) =~= spec_big_names(pkg@, all@.take(0)));
    while i < all.len()
        invariant
            i <= all@.len(),
            views(out@) == spec_big_names(pkg@, all@.take(i as int)),
        decreases all@.len() - i,
    {
        assert(all@.take(i + 1).drop_last() =~= all@.take(i as int));
        let entry = &all[i];
        if str_eq(entry.1.as_str(), pkg) {
            let ts = &entry.2;
            let ghost base = views(out@);
            let mut j: usize = 0;
            assert(ts@.take(0) =~= Seq::<(i32, String)>::empty());
            assert(views(out@) =~= base + heavy_names(ts@.take(0)));
            while j < ts.len()
                invariant
                    j <= ts@.len(),
                    views(out@) == base + heavy_names(ts@.take(j as int)),
                decreases ts@.len() - j,
            {
                assert(ts@.take(j + 1).drop_last() =~= ts@.take(j as int));
                if est_load(ts[j].1.as_str()) >= 8 {
                    let ghost o = out@;
                    out.push(ts[j].1.clone());
                    assert(views(out@) =~= views(o).push(ts@[j as int].1@));
                }
                assert(views(out@) =~= base + heavy_names(ts@.take(j + 1)));
                j = j + 1;
            }
            assert(ts@.take(ts@.len() as int) =~= ts@);
        }
        assert(views(out@) =~= spec_big_names(pkg@, all@.take(i + 1)));
        i = i + 1;
    }
    assert(all@.take(all@.len() as int) =~= all@);
    out
}

/// The quoted names, one per line in a JSON array body.
pub open spec fn quoted_names(names: Seq<Seq<char>>) -> Seq<char>
    decreases names.len(),
{
    if names.len() == 0 {
        Seq::empty()
    } else if names.len() == 1 {
        "\""@ + names[0] + "\""@
    } else {
        quoted_names(names.drop_last()) + ",\n        \""@ + names.last() + "\""@
    }
}

/// The `comm` member of a cache entry: nothing without heavy threads,
/// otherwise the big CPUs mapped to the heavy thread names.
pub open spec fn comm_member(big: Seq<char>, names: Seq<Seq<char>>) -> Seq<char> {
    if names.len() == 0 {
        Seq::empty()
    } else {
        ",\n      \"comm\": {\n        \""@ + big + "\": [\n        "@ + quoted_names(names)
            + "\n        ]\n      }"@
    }
}

/// The cache entry of package `pkg`: its other threads on `little`, its
/// heavy threads `names` on `big`.
pub open spec fn spec_cache_entry(pkg: Seq<char>, names: Seq<Seq<char>>, big: Seq<char>, little: Seq<char>) -> Seq<char> {
    "  {\n    \"friendly\": \"[auto] "@ + pkg + "\",\n    \"packages\": [\""@ + pkg
        + "\"],\n    \"cpuset\": {\n      \"other\": \""@ + little + "\""@ + comm_member(big, names)
        + "\n    }\n  }"@
}

/// The cache entry text for package `pkg` (see [`spec_cache_entry`]).
pub fn cache_entry(pkg: &str, names: &Vec<String>, big: &str, little: &str) -> (r: String)
    ensures
        r@ == spec_cache_entry(pkg@, views(names@), big@, little@),
{
    let mut s = String::new();
    push_str(&mut s, "  {\n    \"friendly\": \"[auto] ");
    push_str(&mut s, pkg);
    push_str(&mut s, "\",\n    \"packages\": [\"");
    push_str(&mut s, pkg);
    push_str(&mut s, "\"],\n    \"cpuset\": {\n      \"other\": \"");
    push_str(&mut s, little);
    push_str(&mut s, "\"");
    let ghost head = s@;
    if names.len() > 0 {
        push_str(&mut s, ",\n      \"comm\": {\n        \"");
        push_str(&mut s, big);
        push_str(&mut s, "\": [\n        ");
        let ghost before = s@;
        let mut j: usize = 0;
        while j < names.len()
            invariant
                j <= names@.len(),
                names@.len() > 0,
                s@ == before + quoted_names(views(names@).take(j as int)),
            decreases names@.len() - j,
        {
            let ghost vn = views(names@);
            assert(vn.take(j + 1).drop_last() =~= vn.take(j as int));
            assert(vn[j as int] == names@[j as int]@);
            if j > 0 {
                push_str(&mut s, ",\n        \"");
            } else {
                push_str(&mut s, "\"");
                assert(vn.take(j as int) =~= Seq::<Seq<char>>::empty());
            }
            push_str(&mut s, names[j].as_str());
            push_str(&mut s, "\"");
            proof {
                if j == 0 {
                    assert(vn.take(1) =~= seq![vn[0]]);
                }
            }
            j = j + 1;
        }
        assert(views(names@).take(names@.len() as int) =~= views(names@));
        push_str(&mut s, "\n        ]\n      }");
        assert(s@ =~= head + comm_member(big@, views(names@)));
    } else {
        assert(s@ =~= head + comm_member(big@, views(names@)));
    }
    push_str(&mut s, "\n    }\n  }");
    assert(s@ =~= spec_cache_entry(pkg@, views(names@), big@, little@));
    s
}

/// The cache file text after adding `entry` to the text `old`: a new array
/// holding the entry when `old` is blank or does not start with `[`;
/// otherwise `old` with its closing `]` (if any) and the whitespace around
/// it cut, then `,`, the entry and a new closing `]`.
pub open spec fn spec_merged_cache(old: Seq<char>, entry: Seq<char>) -> Seq<char> {
    if trim(old).len() == 0 || !(trim_start(old).len() > 0 && trim_start(old)[0] == '[') {
        "[\n"@ + entry + "\n]\n"@
    } else {
        let t = trim_end(old);
        let ins = if t.len() > 0 && t.last() == ']' { t.drop_last() } else { t };
        trim_end(ins) + ",\n"@ + entry + "\n]\n"@
    }
}

proof fn lemma_trim_start_head(s: Seq<char>)
    ensures
        trim_start(s).len() > 0 ==> !is_ws(trim_start(s)[0]),
    decreases s.len(),
{
    if s.len() > 0 && is_ws(s[0]) {
        lemma_trim_start_head(s.drop_first());
    }
}

proof fn lemma_trim_end_keeps_head(s: Seq<char>)
    requires
        s.len() > 0,
        !is_ws(s[0]),
    ensures
        trim_end(s).len() > 0,
    decreases s.len(),
{
    if is_ws(s.last()) {
        assert(s.len() > 1);
        assert(s.drop_last()[0] == s[0]);
        lemma_trim_end_keeps_head(s.drop_last());
    }
}

/// The cache file text after adding `entry` (see [`spec_merged_cache`]).
pub fn merged_cache(old: &str, entry: &str) -> (r: String)
    ensures
        r@ == spec_merged_cache(old@, entry@),
{
    let v = chars_of(old);
    let a = skip_ws(v.as_slice(), 0);
    assert(v@.skip(0) =~= v@);
    proof {
        lemma_trim_start_head(v@);
        if trim_start(v@).len() > 0 {
            lemma_trim_end_keeps_head(trim_start(v@));
        }
    }
    let mut s = String::new();
    if a == v.len() || v[a] != '[' {
        proof {
            if a == v@.len() {
                assert(v@.skip(a as int) =~= Seq::<char>::empty());
            } else {
                assert(v@.skip(a as int)[0] == v@[a as int]);
            }
        }
        push_str(&mut s, "[\n");
        push_str(&mut s, entry);
        push_str(&mut s, "\n]\n");
        return s;
    }
    assert(v@.skip(a as int)[0] == v@[a as int]);
    let b = cut_ws(v.as_slice(), 0, v.len());
    assert(v@.subrange(0, v@.len() as int) =~= v@);
    let b2 = if b > 0 && v[b - 1] == ']' { b - 1 } else { b };
    proof {
        let t = trim_end(v@);
        if b > 0 && v@[b - 1] == ']' {
            assert(t.last() == v@[b - 1]);
            assert(t.drop_last() =~= v@.subrange(0, b2 as int));
        }
    }
    let c = cut_ws(v.as_slice(), 0, b2);
    push_chars(&mut s, v.as_slice(), 0, c);
    push_str(&mut s, ",\n");
    push_str(&mut s, entry);
    push_str(&mut s, "\n]\n");
    s
}

/// The new cache file text when the package `pkg` is cached on top of the
/// text `old`: `None` for a package that is never cached, otherwise `old`
/// with the entry for `pkg` added, its heavy threads (from `all`) on `big`
/// and the rest on `little`.
pub fn save(pkg: &str, all: &[(i32, String, Vec<(i32, String)>)], big: &str, little: &str, old: &str) -> (r: Option<String>)
    ensures
        match r {
            None => spec_skipped(pkg@),
            Some(t) => !spec_skipped(pkg@) && t@ == spec_merged_cache(
                old@,
                spec_cache_entry(pkg@, spec_big_names(pkg@, all@), big@, little@),
            ),
        },
{
    if is_skipped(pkg) {
        return None;
    }
    let names = big_names(pkg, all);
    let entry = cache_entry(pkg, &names, big, little);
    Some(merged_cache(old, entry.as_str()))
}

} // verus!
