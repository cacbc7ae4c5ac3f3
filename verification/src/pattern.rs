use vstd::prelude::*;
use vstd::utf8::encode_utf8;
use crate::text::{chars_of, contains_str, find_char, first_index, has_char, has_sub, lemma_first_index, region_eq};

verus! {

broadcast use vstd::string::group_string_axioms;

/// Whether the package or thread name `n` matches the pattern `p`.
///
/// A pattern without `*` matches only itself. Otherwise the part before the
/// first `*` must start the name, and the part after it, when not empty,
/// must end what is left of the name after that prefix. Any further `*` or
/// `?` is an ordinary character. The empty pattern matches nothing.
pub open spec fn spec_fnmatch(p: Seq<char>, n: Seq<char>) -> bool {
    p.len() > 0 && match first_index(p, '*') {
        None => p == n,
        Some(k) => p.take(k).is_prefix_of(n) && (k + 1 == p.len() || p.skip(k + 1).is_suffix_of(
            n.skip(k),
        )),
    }
}

/// Characters that are not counted as literal in a pattern.
pub open spec fn is_meta_char(c: char) -> bool {
    c == '*' || c == '?' || c == '[' || c == ']'
}

/// Number of characters of `s` that are not `*`, `?`, `[` or `]`.
pub open spec fn literal_count(s: Seq<char>) -> nat
    decreases s.len(),
{
    if s.len() == 0 {
        0
    } else {
        literal_count(s.drop_last()) + if is_meta_char(s.last()) { 0nat } else { 1nat }
    }
}

/// Number of characters of `s` other than `*`.
pub open spec fn non_star_count(s: Seq<char>) -> nat
    decreases s.len(),
{
    if s.len() == 0 {
        0
    } else {
        non_star_count(s.drop_last()) + if s.last() == '*' { 0nat } else { 1nat }
    }
}

/// Length in bytes of the UTF-8 text of `s`.
pub open spec fn byte_len(s: Seq<char>) -> nat {
    encode_utf8(s).len()
}

/// Priority of a thread rule whose thread pattern is `p`: exact names first,
/// then bracket classes, then `?` patterns, then `*` patterns; within a class,
/// more literal characters rank higher. The empty pattern has the priority
/// of a package's default rule.
pub open spec fn spec_rule_prio(p: Seq<char>) -> int {
    if p.len() == 0 {
        200
    } else if !p.contains('*') && !p.contains('?') {
        1000 + byte_len(p) as int
    } else if p.contains('[') {
        500 + literal_count(p) as int
    } else if p.contains('?') {
        300 + literal_count(p) as int
    } else {
        100 + literal_count(p) as int
    }
}

/// Priority that cached thread rules get: exact names rank by byte length
/// above 1000, wildcard names by their count of characters other than `*`
/// above 100.
pub open spec fn spec_cache_rule_prio(p: Seq<char>) -> int {
    if !p.contains('*') && !p.contains('?') {
        1000 + byte_len(p) as int
    } else {
        100 + non_star_count(p) as int
    }
}

/// Estimated load class of a thread, from words in its name.
pub open spec fn spec_est_load(n: Seq<char>) -> int {
    if has_sub(n, "Render"@) || has_sub(n, "Gfx"@) || has_sub(n, "GL"@) || has_sub(n, "Vulkan"@) {
        10
    } else if has_sub(n, "Decode"@) || has_sub(n, "Codec"@) || has_sub(n, "Video"@) || has_sub(
        n,
        "Audio"@,
    ) {
        8
    } else if has_sub(n, "Main"@) || has_sub(n, "Unity"@) || has_sub(n, "Game"@) {
        9
    } else if has_sub(n, "Worker"@) || has_sub(n, "Thread"@) || has_sub(n, "Job"@) {
        5
    } else if has_sub(n, "Io"@) || has_sub(n, "Network"@) || has_sub(n, "Http"@) {
        3
    } else if has_sub(n, "Background"@) || has_sub(n, "Idle"@) || has_sub(n, "Pool"@) {
        1
    } else {
        4
    }
}

pub proof fn lemma_encode_utf8_append(a: Seq<char>, b: Seq<char>)
    ensures
        encode_utf8(a + b) == encode_utf8(a) + encode_utf8(b),
    decreases a.len(),
{
    if a.len() == 0 {
        assert(a + b =~= b);
    } else {
        lemma_encode_utf8_append(a.drop_first(), b);
        assert((a + b).drop_first() =~= a.drop_first() + b);
        assert(encode_utf8(a + b) =~= encode_utf8(a) + encode_utf8(b));
    }
}

/// Number of bytes of the UTF-8 encoding of `c`.
pub open spec fn char_width(c: char) -> nat {
    if c as u32 <= 0x7F {
        1
    } else if c as u32 <= 0x7FF {
        2
    } else if c as u32 <= 0xFFFF {
        3
    } else {
        4
    }
}

pub proof fn lemma_byte_len_push(s: Seq<char>, c: char)
    ensures
        byte_len(s.push(c)) == byte_len(s) + char_width(c),
{
    lemma_encode_utf8_append(s, seq![c]);
    assert(s.push(c) =~= s + seq![c]);
    assert(seq![c].drop_first() =~= Seq::<char>::empty());
    assert(encode_utf8(seq![c]) =~= vstd::utf8::encode_scalar(c as u32) + encode_utf8(Seq::<char>::empty()));
    assert(encode_utf8(Seq::<char>::empty()) =~= Seq::<u8>::empty());
}

/// Whether the UTF-8 text of `v` has at most `limit` bytes.
pub fn byte_len_at_most(v: &[char], limit: u64) -> (r: bool)
    ensures
        r == (byte_len(v@) <= limit),
{
    let mut i: usize = 0;
    let mut total: u64 = 0;
    assert(v@.take(0) =~= Seq::<char>::empty());
    while i < v.len()
        invariant
            i <= v@.len(),
            total == byte_len(v@.take(i as int)),
            total <= limit,
        decreases v@.len() - i,
    {
        let c = v[i];
        let w: u64 = if (c as u32) <= 0x7F {
            1
        } else if (c as u32) <= 0x7FF {
            2
        } else if (c as u32) <= 0xFFFF {
            3
        } else {
            4
        };
        proof {
            lemma_byte_len_push(v@.take(i as int), c);
            assert(v@.take(i + 1) =~= v@.take(i as int).push(c));
        }
        if w > limit - total {
            proof {
                lemma_byte_len_prefix(v@, i + 1);
            }
            return false;
        }
        total = total + w;
        i = i + 1;
    }
    assert(v@.take(v@.len() as int) =~= v@);
    true
}

pub proof fn lemma_byte_len_prefix(s: Seq<char>, k: int)
    requires
        0 <= k <= s.len(),
    ensures
        byte_len(s.take(k)) <= byte_len(s),
{
    lemma_encode_utf8_append(s.take(k), s.skip(k));
    assert(s.take(k) + s.skip(k) =~= s);
}

pub proof fn lemma_byte_len_at_least_chars(s: Seq<char>)
    ensures
        byte_len(s) >= s.len(),
    decreases s.len(),
{
    if s.len() > 0 {
        lemma_byte_len_at_least_chars(s.drop_first());
    }
}

pub proof fn lemma_literal_count_le(s: Seq<char>)
    ensures
        literal_count(s) <= s.len(),
        non_star_count(s) <= s.len(),
    decreases s.len(),
{
    if s.len() > 0 {
        lemma_literal_count_le(s.drop_last());
    }
}

/// Whether `name` matches the pattern `pat` (see [`spec_fnmatch`]).
pub fn fnmatch(pat: &str, name: &str) -> (r: bool)
    ensures
        r == spec_fnmatch(pat@, name@),
{
    let p = chars_of(pat);
    let n = chars_of(name);
    if p.len() == 0 {
        return false;
    }
    match find_char(p.as_slice(), '*') {
        None => {
            let r = p.len() == n.len() && region_eq(p.as_slice(), 0, n.as_slice(), 0, p.len());
            proof {
                if r {
                    assert(p@ =~= n@.subrange(0, p@.len() as int));
                    assert(p@ =~= n@);
                }
                if p@ == n@ {
                    assert(p@.subrange(0, p@.len() as int) =~= p@);
                }
            }
            r
        },
        Some(k) => {
            proof { lemma_first_index(p@, '*'); }
            let pre = region_eq(p.as_slice(), 0, n.as_slice(), 0, k);
            proof {
                assert(p@.take(k as int) =~= p@.subrange(0, k as int));
            }
            if !pre {
                return false;
            }
            let suf_len = p.len() - k - 1;
            if suf_len == 0 {
                return true;
            }
            let rest = n.len() - k;
            if rest < suf_len {
                return false;
            }
            let r = region_eq(p.as_slice(), k + 1, n.as_slice(), n.len() - suf_len, suf_len);
            proof {
                let suf = p@.skip(k + 1);
                let tail = n@.skip(k as int);
                assert(suf =~= p@.subrange(k + 1, k + 1 + suf_len));
                assert(tail.subrange(tail.len() - suf.len(), tail.len() as int) =~= n@.subrange(
                    n@.len() - suf_len,
                    n@.len() - suf_len + suf_len,
                ));
            }
            r
        },
    }
}

/// Number of characters of `v` that are not `*`, `?`, `[` or `]`.
fn count_literal(v: &[char]) -> (r: usize)
    ensures
        r == literal_count(v@),
{
    let mut i: usize = 0;
    let mut c: usize = 0;
    while i < v.len()
        invariant
            i <= v@.len(),
            c == literal_count(v@.take(i as int)),
            c <= i,
        decreases v@.len() - i,
    {
        assert(v@.take(i + 1).drop_last() =~= v@.take(i as int));
        let ch = v[i];
        if !(ch == '*' || ch == '?' || ch == '[' || ch == ']') {
            c = c + 1;
        }
        i = i + 1;
    }
    assert(v@.take(v@.len() as int) =~= v@);
    c
}

/// Number of characters of `v` other than `*`.
fn count_non_star(v: &[char]) -> (r: usize)
    ensures
        r == non_star_count(v@),
{
    let mut i: usize = 0;
    let mut c: usize = 0;
    while i < v.len()
        invariant
            i <= v@.len(),
            c == non_star_count(v@.take(i as int)),
            c <= i,
        decreases v@.len() - i,
    {
        assert(v@.take(i + 1).drop_last() =~= v@.take(i as int));
        if v[i] != '*' {
            c = c + 1;
        }
        i = i + 1;
    }
    assert(v@.take(v@.len() as int) =~= v@);
    c
}

/// Priority of a thread rule with thread pattern `pat` (see [`spec_rule_prio`]).
pub fn rule_prio(pat: &str) -> (r: i32)
    requires
        byte_len(pat@) + 1000 <= i32::MAX,
    ensures
        r == spec_rule_prio(pat@),
{
    let v = chars_of(pat);
    if v.len() == 0 {
        return 200;
    }
    proof {
        lemma_byte_len_at_least_chars(pat@);
        lemma_literal_count_le(pat@);
    }
    let star = has_char(v.as_slice(), '*');
    let quest = has_char(v.as_slice(), '?');
    if !star && !quest {
        let len = pat.len();
        return 1000 + len as i32;
    }
    let nw = count_literal(v.as_slice()) as i32;
    if has_char(v.as_slice(), '[') {
        500 + nw
    } else if quest {
        300 + nw
    } else {
        100 + nw
    }
}

/// Priority of a cached thread rule with thread name `name` (see [`spec_cache_rule_prio`]).
pub fn cache_rule_prio(name: &str) -> (r: i32)
    requires
        byte_len(name@) + 1000 <= i32::MAX,
    ensures
        r == spec_cache_rule_prio(name@),
{
    let v = chars_of(name);
    proof {
        lemma_byte_len_at_least_chars(name@);
        lemma_literal_count_le(name@);
    }
    if !has_char(v.as_slice(), '*') && !has_char(v.as_slice(), '?') {
        let len = name.len();
        1000 + len as i32
    } else {
        100 + count_non_star(v.as_slice()) as i32
    }
}

/// Estimated load class of a thread named `name` (see [`spec_est_load`]).
pub fn est_load(name: &str) -> (r: i32)
    ensures
        r == spec_est_load(name@),
{
    let n = chars_of(name);
    let s = n.as_slice();
    if contains_str(s, "Render") || contains_str(s, "Gfx") || contains_str(s, "GL")
        || contains_str(s, "Vulkan") {
        return 10;
    }
    if contains_str(s, "Decode") || contains_str(s, "Codec") || contains_str(s, "Video")
        || contains_str(s, "Audio") {
        return 8;
    }
    if contains_str(s, "Main") || contains_str(s, "Unity") || contains_str(s, "Game") {
        return 9;
    }
    if contains_str(s, "Worker") || contains_str(s, "Thread") || contains_str(s, "Job") {
        return 5;
    }
    if contains_str(s, "Io") || contains_str(s, "Network") || contains_str(s, "Http") {
        return 3;
    }
    if contains_str(s, "Background") || contains_str(s, "Idle") || contains_str(s, "Pool") {
        return 1;
    }
    4
}

} // verus!
