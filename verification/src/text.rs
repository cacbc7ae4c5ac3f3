use vstd::prelude::*;

verus! {

broadcast use vstd::string::group_string_axioms;

/// Index of the first occurrence of `c` in `s`.
pub open spec fn first_index(s: Seq<char>, c: char) -> Option<int>
    decreases s.len(),
{
    if s.len() == 0 {
        None
    } else {
        match first_index(s.drop_last(), c) {
            Some(i) => Some(i),
            None => if s.last() == c { Some(s.len() - 1) } else { None },
        }
    }
}

/// `t` occurs in `s` as a contiguous block (the empty block occurs everywhere).
pub open spec fn has_sub(s: Seq<char>, t: Seq<char>) -> bool {
    exists|i: int| 0 <= i && i + t.len() <= s.len() && #[trigger] s.subrange(i, i + t.len()) == t
}

pub proof fn lemma_first_index(s: Seq<char>, c: char)
    ensures
        match first_index(s, c) {
            Some(i) => 0 <= i < s.len() && s[i] == c && forall|j: int| 0 <= j < i ==> s[j] != c,
            None => !s.contains(c),
        },
    decreases s.len(),
{
    if s.len() > 0 {
        lemma_first_index(s.drop_last(), c);
        assert forall|j: int| 0 <= j < s.len() - 1 implies s.drop_last()[j] == s[j] by {}
    }
}

/// The characters of `s`, in order.
pub fn chars_of(s: &str) -> (v: Vec<char>)
    ensures
        v@ == s@,
{
    let mut v: Vec<char> = Vec::new();
    for c in it: s.chars()
        invariant
            it.seq() == s@,
            v@ == it.seq().take(it.index() as int),
    {
        v.push(c);
    }
    v
}

/// `String::push`: appends one character.
#[verifier::external_body]
pub(crate) fn push_char(s: &mut String, c: char)
    ensures
        final(s)@ == old(s)@.push(c),
{
    s.push(c);
}

/// Appends a string slice.
pub fn push_str(s: &mut String, t: &str)
    ensures
        final(s)@ == old(s)@ + t@,
{
    s.append(t);
}

/// Appends the characters `v[from..to]`.
pub fn push_chars(s: &mut String, v: &[char], from: usize, to: usize)
    requires
        from <= to <= v@.len(),
    ensures
        final(s)@ == old(s)@ + v@.subrange(from as int, to as int),
{
    let mut i: usize = from;
    while i < to
        invariant
            from <= i <= to <= v@.len(),
            s@ == old(s)@ + v@.subrange(from as int, i as int),
        decreases to - i,
    {
        push_char(s, v[i]);
        assert(v@.subrange(from as int, i + 1) == v@.subrange(from as int, i as int).push(v@[i as int]));
        i = i + 1;
    }
}

/// A `String` holding exactly the characters of `v`.
pub fn string_of(v: &[char]) -> (s: String)
    ensures
        s@ == v@,
{
    let mut s = String::new();
    push_chars(&mut s, v, 0, v.len());
    assert(v@.subrange(0, v@.len() as int) == v@);
    s
}

/// Whether `c` occurs in `v`.
pub fn has_char(v: &[char], c: char) -> (r: bool)
    ensures
        r == v@.contains(c),
{
    let mut i: usize = 0;
    while i < v.len()
        invariant
            i <= v@.len(),
            forall|j: int| 0 <= j < i ==> v@[j] != c,
        decreases v@.len() - i,
    {
        if v[i] == c {
            return true;
        }
        i = i + 1;
    }
    false
}

/// Position of the first `c` in `v`.
pub fn find_char(v: &[char], c: char) -> (r: Option<usize>)
    ensures
        match r {
            Some(i) => first_index(v@, c) == Some(i as int),
            None => first_index(v@, c) is None,
        },
{
    proof { lemma_first_index(v@, c); }
    let mut i: usize = 0;
    while i < v.len()
        invariant
            i <= v@.len(),
            forall|j: int| 0 <= j < i ==> v@[j] != c,
            first_index(v@, c) matches Some(k) ==> k >= i && v@[k] == c && forall|j: int| 0 <= j < k ==> v@[j] != c,
            first_index(v@, c) is None ==> !v@.contains(c),
        decreases v@.len() - i,
    {
        if v[i] == c {
            proof {
                if first_index(v@, c) is None {
                    assert(v@.contains(c));
                }
            }
            return Some(i);
        }
        i = i + 1;
    }
    None
}

/// Whether `a[a_from..a_from+len] == b[b_from..b_from+len]`, both ranges in bounds.
pub fn region_eq(a: &[char], a_from: usize, b: &[char], b_from: usize, len: usize) -> (r: bool)
    ensures
        r == (a_from + len <= a@.len() && b_from + len <= b@.len()
            && a@.subrange(a_from as int, a_from + len) == b@.subrange(b_from as int, b_from + len)),
{
    if a_from > a.len() || len > a.len() - a_from || b_from > b.len() || len > b.len() - b_from {
        return false;
    }
    let ghost sa = a@.subrange(a_from as int, a_from + len);
    let ghost sb = b@.subrange(b_from as int, b_from + len);
    let mut i: usize = 0;
    while i < len
        invariant
            i <= len,
            a_from + len <= a.len(),
            b_from + len <= b.len(),
            sa == a@.subrange(a_from as int, a_from + len),
            sb == b@.subrange(b_from as int, b_from + len),
            forall|j: int| 0 <= j < i ==> sa[j] == sb[j],
        decreases len - i,
    {
        if a[a_from + i] != b[b_from + i] {
            assert(sa[i as int] != sb[i as int]);
            return false;
        }
        i = i + 1;
    }
    assert(sa =~= sb);
    true
}

/// Whether two string slices hold the same characters.
pub fn str_eq(a: &str, b: &str) -> (r: bool)
    ensures
        r == (a@ == b@),
{
    let av = chars_of(a);
    let bv = chars_of(b);
    let r = av.len() == bv.len() && region_eq(av.as_slice(), 0, bv.as_slice(), 0, av.len());
    proof {
        if r {
            assert(av@ =~= av@.subrange(0, av@.len() as int));
            assert(bv@ =~= bv@.subrange(0, bv@.len() as int));
        }
        if a@ == b@ {
            assert(av@ =~= av@.subrange(0, av@.len() as int));
        }
    }
    r
}

/// Whether `t` occurs in `s`.
pub fn contains_sub(s: &[char], t: &[char]) -> (r: bool)
    ensures
        r == has_sub(s@, t@),
{
    if t.len() > s.len() {
        return false;
    }
    let last = s.len() - t.len();
    let mut i: usize = 0;
    assert(t@.subrange(0, t@.len() as int) == t@);
    loop
        invariant
            t@.len() <= s@.len(),
            last == s@.len() - t@.len(),
            i <= last,
            t@.subrange(0, t@.len() as int) == t@,
            forall|j: int| 0 <= j < i ==> #[trigger] s@.subrange(j, j + t@.len()) != t@,
        decreases last - i,
    {
        if region_eq(s, i, t, 0, t.len()) {
            return true;
        }
        if i == last {
            return false;
        }
        i = i + 1;
    }
}

/// Whether the string slice `t` occurs in `s`.
pub fn contains_str(s: &[char], t: &str) -> (r: bool)
    ensures
        r == has_sub(s@, t@),
{
    let tv = chars_of(t);
    contains_sub(s, tv.as_slice())
}

} // verus!

verus! {

/// Unicode `White_Space`, what `char::is_whitespace` tests.
pub open spec fn is_ws(c: char) -> bool {
    ('\t' <= c <= '\r') || c == ' ' || c == '\u{85}' || c == '\u{a0}' || c == '\u{1680}' || (
    '\u{2000}' <= c <= '\u{200a}') || c == '\u{2028}' || c == '\u{2029}' || c == '\u{202f}' || c
        == '\u{205f}' || c == '\u{3000}'
}

/// `char::is_whitespace`.
pub fn is_ws_char(c: char) -> (r: bool)
    ensures
        r == is_ws(c),
{
    ('\t' <= c && c <= '\r') || c == ' ' || c == '\u{85}' || c == '\u{a0}' || c == '\u{1680}' || (
    '\u{2000}' <= c && c <= '\u{200a}') || c == '\u{2028}' || c == '\u{2029}' || c == '\u{202f}'
        || c == '\u{205f}' || c == '\u{3000}'
}

/// `s` without leading whitespace.
pub open spec fn trim_start(s: Seq<char>) -> Seq<char>
    decreases s.len(),
{
    if s.len() > 0 && is_ws(s[0]) {
        trim_start(s.drop_first())
    } else {
        s
    }
}

/// `s` without trailing whitespace.
pub open spec fn trim_end(s: Seq<char>) -> Seq<char>
    decreases s.len(),
{
    if s.len() > 0 && is_ws(s.last()) {
        trim_end(s.drop_last())
    } else {
        s
    }
}

/// `s` without leading and trailing whitespace (`str::trim`).
pub open spec fn trim(s: Seq<char>) -> Seq<char> {
    trim_end(trim_start(s))
}

/// Index of the first character of `v[from..]` that is not whitespace.
pub fn skip_ws(v: &[char], from: usize) -> (a: usize)
    requires
        from <= v@.len(),
    ensures
        from <= a <= v@.len(),
        v@.skip(a as int) == trim_start(v@.skip(from as int)),
{
    let mut i = from;
    while i < v.len() && is_ws_char(v[i])
        invariant
            from <= i <= v@.len(),
            trim_start(v@.skip(i as int)) == trim_start(v@.skip(from as int)),
        decreases v@.len() - i,
    {
        assert(v@.skip(i as int).drop_first() =~= v@.skip(i + 1));
        i = i + 1;
    }
    if i == v.len() {
        assert(v@.skip(i as int) =~= Seq::<char>::empty());
    }
    i
}

/// End of `v[from..to]` without its trailing whitespace.
pub fn cut_ws(v: &[char], from: usize, to: usize) -> (b: usize)
    requires
        from <= to <= v@.len(),
    ensures
        from <= b <= to,
        v@.subrange(from as int, b as int) == trim_end(v@.subrange(from as int, to as int)),
{
    let mut j = to;
    while j > from && is_ws_char(v[j - 1])
        invariant
            from <= j <= to <= v@.len(),
            trim_end(v@.subrange(from as int, j as int)) == trim_end(v@.subrange(from as int, to as int)),
        decreases j,
    {
        assert(v@.subrange(from as int, j as int).drop_last() =~= v@.subrange(from as int, j - 1));
        j = j - 1;
    }
    j
}

/// Bounds of `v[from..to]` trimmed of whitespace at both ends.
pub fn trim_range(v: &[char], from: usize, to: usize) -> (r: (usize, usize))
    requires
        from <= to <= v@.len(),
    ensures
        from <= r.0 <= r.1 <= to,
        v@.subrange(r.0 as int, r.1 as int) == trim(v@.subrange(from as int, to as int)),
{
    let a = skip_ws(v, from);
    let ghost sub = v@.subrange(from as int, to as int);
    proof {
        lemma_trim_start_sub(v@, from as int, to as int);
    }
    let a2 = if a > to { to } else { a };
    assert(v@.subrange(a2 as int, to as int) == trim_start(sub));
    let b = cut_ws(v, a2, to);
    (a2, b)
}

proof fn lemma_trim_start_sub(s: Seq<char>, from: int, to: int)
    requires
        0 <= from <= to <= s.len(),
    ensures
        ({
            let a = s.len() - trim_start(s.skip(from)).len();
            trim_start(s.subrange(from, to)) == if a <= to { s.subrange(a, to) } else { Seq::<char>::empty() }
        }),
        trim_start(s.skip(from)).len() <= s.len() - from,
        trim_start(s.skip(from)) == s.skip(s.len() - trim_start(s.skip(from)).len()),
    decreases to - from,
{
    if from < to && is_ws(s[from]) {
        assert(s.skip(from).drop_first() =~= s.skip(from + 1));
        assert(s.subrange(from, to).drop_first() =~= s.subrange(from + 1, to));
        lemma_trim_start_sub(s, from + 1, to);
    } else if from < to {
        assert(s.skip(from)[0] == s[from]);
        assert(s.subrange(from, to)[0] == s[from]);
    } else {
        lemma_trim_start_skip(s, from);
        assert(s.subrange(from, to) =~= Seq::<char>::empty());
    }
}

proof fn lemma_trim_start_skip(s: Seq<char>, from: int)
    requires
        0 <= from <= s.len(),
    ensures
        trim_start(s.skip(from)).len() <= s.len() - from,
        trim_start(s.skip(from)) == s.skip(s.len() - trim_start(s.skip(from)).len()),
    decreases s.len() - from,
{
    if from < s.len() && is_ws(s[from]) {
        assert(s.skip(from).drop_first() =~= s.skip(from + 1));
        lemma_trim_start_skip(s, from + 1);
    } else if from == s.len() {
        assert(s.skip(from) =~= Seq::<char>::empty());
    }
}

/// The views of a sequence of character vectors.
pub open spec fn vviews(v: Seq<Vec<char>>) -> Seq<Seq<char>> {
    v.map_values(|x: Vec<char>| x@)
}

/// The pieces of `s` between the occurrences of `d` (`str::split` on a
/// character): one more piece than there are `d`s.
pub open spec fn split_on(s: Seq<char>, d: char) -> Seq<Seq<char>>
    decreases s.len(),
{
    if s.len() == 0 {
        seq![Seq::<char>::empty()]
    } else {
        let p = split_on(s.drop_last(), d);
        if s.last() == d {
            p.push(Seq::<char>::empty())
        } else {
            p.update(p.len() - 1, p.last().push(s.last()))
        }
    }
}

pub proof fn lemma_split_on_len(s: Seq<char>, d: char)
    ensures
        split_on(s, d).len() >= 1,
    decreases s.len(),
{
    if s.len() > 0 {
        lemma_split_on_len(s.drop_last(), d);
    }
}

/// The pieces of `v` between the occurrences of `d`.
pub fn split_chars(v: &[char], d: char) -> (r: Vec<Vec<char>>)
    ensures
        vviews(r@) == split_on(v@, d),
{
    let mut out: Vec<Vec<char>> = Vec::new();
    let mut cur: Vec<char> = Vec::new();
    let mut i: usize = 0;
    assert(v@.take(0) =~= Seq::<char>::empty());
    assert(vviews(out@).push(cur@) =~= split_on(v@.take(0), d));
    while i < v.len()
        invariant
            i <= v@.len(),
            vviews(out@).push(cur@) == split_on(v@.take(i as int), d),
        decreases v@.len() - i,
    {
        assert(v@.take(i + 1).drop_last() =~= v@.take(i as int));
        proof { lemma_split_on_len(v@.take(i as int), d); }
        if v[i] == d {
            let ghost before = out@;
            out.push(cur);
            cur = Vec::new();
            assert(vviews(out@).push(cur@) =~= split_on(v@.take(i + 1), d));
        } else {
            let ghost c0 = cur@;
            cur.push(v[i]);
            assert(vviews(out@).push(cur@) =~= split_on(v@.take(i + 1), d));
        }
        i = i + 1;
    }
    assert(v@.take(v@.len() as int) =~= v@);
    out.push(cur);
    out
}

/// The whitespace-separated words of `s` (`str::split_whitespace`).
pub open spec fn words(s: Seq<char>) -> Seq<Seq<char>>
    decreases s.len(),
{
    if s.len() == 0 {
        Seq::empty()
    } else {
        let t = words(s.drop_last());
        if is_ws(s.last()) {
            t
        } else if s.len() >= 2 && !is_ws(s[s.len() - 2]) && t.len() > 0 {
            t.update(t.len() - 1, t.last().push(s.last()))
        } else {
            t.push(seq![s.last()])
        }
    }
}

/// The whitespace-separated words of `v`.
pub fn words_of(v: &[char]) -> (r: Vec<Vec<char>>)
    ensures
        vviews(r@) == words(v@),
{
    let mut out: Vec<Vec<char>> = Vec::new();
    let mut cur: Vec<char> = Vec::new();
    let mut in_word = false;
    let mut i: usize = 0;
    assert(v@.take(0) =~= Seq::<char>::empty());
    assert(vviews(out@) =~= words(v@.take(0)));
    while i < v.len()
        invariant
            i <= v@.len(),
            in_word == (i > 0 && !is_ws(v@[i - 1])),
            !in_word ==> cur@.len() == 0,
            in_word ==> cur@.len() > 0,
            words(v@.take(i as int)) == vviews(out@) + if in_word { seq![cur@] } else { Seq::<Seq<char>>::empty() },
        decreases v@.len() - i,
    {
        let ghost t = words(v@.take(i as int));
        assert(v@.take(i + 1).drop_last() =~= v@.take(i as int));
        assert(v@.take(i + 1).last() == v@[i as int]);
        if i > 0 {
            assert(v@.take(i + 1)[i - 1] == v@[i - 1]);
        }
        if is_ws_char(v[i]) {
            if in_word {
                out.push(cur);
                cur = Vec::new();
                in_word = false;
            }
            assert(words(v@.take(i + 1)) =~= vviews(out@));
        } else {
            let ghost old_cur = cur@;
            cur.push(v[i]);
            if in_word {
                assert(t == vviews(out@) + seq![old_cur]);
                assert(t.len() > 0);
                let ghost s = v@.take(i + 1);
                assert(s.len() >= 2 && !is_ws(s[s.len() - 2]) && !is_ws(s.last()));
                assert(words(s) == words(s.drop_last()).update(t.len() - 1, t.last().push(s.last())));
                assert(s.last() == v@[i as int]);
                assert(t.update(t.len() - 1, t.last().push(s.last())) =~= vviews(out@) + seq![cur@]);
            } else {
                assert(cur@ =~= seq![v@[i as int]]);
                assert(t == vviews(out@));
                assert(words(v@.take(i + 1)) == t.push(seq![v@[i as int]]));
                assert(words(v@.take(i + 1)) =~= vviews(out@) + seq![cur@]);
            }
            in_word = true;
        }
        i = i + 1;
    }
    assert(v@.take(v@.len() as int) =~= v@);
    if in_word {
        out.push(cur);
    }
    assert(vviews(out@) =~= words(v@));
    out
}

} // verus!

verus! {

/// The characters `v[from..to]` as a vector.
pub fn sub_chars(v: &[char], from: usize, to: usize) -> (r: Vec<char>)
    requires
        from <= to <= v@.len(),
    ensures
        r@ == v@.subrange(from as int, to as int),
{
    let mut r: Vec<char> = Vec::new();
    let mut i = from;
    while i < to
        invariant
            from <= i <= to <= v@.len(),
            r@ == v@.subrange(from as int, i as int),
        decreases to - i,
    {
        r.push(v[i]);
        assert(r@ =~= v@.subrange(from as int, i + 1));
        i = i + 1;
    }
    r
}

/// Whether `s` is among `v`.
pub fn contains_string(v: &Vec<String>, s: &str) -> (r: bool)
    ensures
        r == crate::json::views(v@).contains(s@),
{
    let mut i: usize = 0;
    while i < v.len()
        invariant
            i <= v@.len(),
            forall|j: int| 0 <= j < i ==> v@[j]@ != s@,
        decreases v@.len() - i,
    {
        if str_eq(v[i].as_str(), s) {
            assert(crate::json::views(v@)[i as int] == s@);
            return true;
        }
        i = i + 1;
    }
    proof {
        if crate::json::views(v@).contains(s@) {
            let k = choose|k: int| 0 <= k < v@.len() && crate::json::views(v@)[k] == s@;
            assert(v@[k]@ == s@);
        }
    }
    false
}

} // verus!

verus! {

/// `trim_start(s)` drops exactly the leading whitespace of `s`.
pub proof fn lemma_trim_start_shape(s: Seq<char>)
    ensures
        ({
            let k = s.len() - trim_start(s).len();
            &&& 0 <= k <= s.len()
            &&& trim_start(s) == s.skip(k)
            &&& forall|i: int| 0 <= i < k ==> is_ws(#[trigger] s[i])
            &&& k < s.len() ==> !is_ws(s[k])
        }),
    decreases s.len(),
{
    if s.len() > 0 && is_ws(s[0]) {
        let t = s.drop_first();
        lemma_trim_start_shape(t);
        let k = s.len() - trim_start(s).len();
        assert(t.skip(k - 1) =~= s.skip(k));
        assert forall|i: int| 0 <= i < k implies is_ws(#[trigger] s[i]) by {
            if i > 0 {
                assert(s[i] == t[i - 1]);
            }
        }
    } else {
        assert(s.skip(0) =~= s);
    }
}

/// `trim_end(s)` drops exactly the trailing whitespace of `s`.
pub proof fn lemma_trim_end_shape(s: Seq<char>)
    ensures
        ({
            let m = trim_end(s).len();
            &&& m <= s.len()
            &&& trim_end(s) == s.take(m as int)
            &&& forall|i: int| m <= i < s.len() ==> is_ws(#[trigger] s[i])
            &&& m > 0 ==> !is_ws(s[m - 1])
            &&& forall|j: int| 0 <= j < s.len() && !is_ws(#[trigger] s[j]) ==> j < m
        }),
    decreases s.len(),
{
    if s.len() > 0 && is_ws(s.last()) {
        let t = s.drop_last();
        lemma_trim_end_shape(t);
        let m = trim_end(s).len();
        assert(t.take(m as int) =~= s.take(m as int));
        assert forall|i: int| m <= i < s.len() implies is_ws(#[trigger] s[i]) by {
            if i < s.len() - 1 {
                assert(s[i] == t[i]);
            }
        }
        assert forall|j: int| 0 <= j < s.len() && !is_ws(#[trigger] s[j]) implies j < m by {
            if j < s.len() - 1 {
                assert(s[j] == t[j]);
            }
        }
    } else {
        assert(s.take(s.len() as int) =~= s);
    }
}

} // verus!
