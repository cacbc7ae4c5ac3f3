//! The CPU layout: cores grouped into clusters by their highest frequency.

use vstd::prelude::*;
use crate::numtext::{dec, push_dec};
use crate::text::push_char;

verus! {

/// A core: its highest frequency and its number.
pub type Core = (u64, u32);

/// How many of `cores` run at frequency `f`.
pub open spec fn count_at(cores: Seq<Core>, f: u64) -> nat
    decreases cores.len(),
{
    if cores.len() == 0 {
        0
    } else {
        count_at(cores.drop_last(), f) + if cores.last().0 == f { 1nat } else { 0nat }
    }
}

/// Whether some core runs at frequency `f`.
pub open spec fn has_freq(cores: Seq<Core>, f: u64) -> bool {
    exists|k: int| 0 <= k < cores.len() && #[trigger] cores[k].0 == f
}

/// Whether `f` is the frequency of some cluster in `cl`.
pub open spec fn freq_in(cl: Seq<(u64, usize)>, f: u64) -> bool {
    exists|i: int| 0 <= i < cl.len() && #[trigger] cl[i].0 == f
}

/// `cl` lists each frequency of `cores` once, slowest first, with the
/// number of cores that run at it.
pub open spec fn is_clusters(cores: Seq<Core>, cl: Seq<(u64, usize)>) -> bool {
    &&& forall|i: int, j: int| 0 <= i < j < cl.len() ==> cl[i].0 < cl[j].0
    &&& forall|i: int| 0 <= i < cl.len() ==> has_freq(cores, #[trigger] cl[i].0)
    &&& forall|i: int| 0 <= i < cl.len() ==> #[trigger] cl[i].1 == count_at(cores, cl[i].0)
    &&& forall|k: int| 0 <= k < cores.len() ==> freq_in(cl, #[trigger] cores[k].0)
}

/// The clusters of `cores` (see [`is_clusters`]; there is exactly one such list).
pub open spec fn clusters_of(cores: Seq<Core>) -> Seq<(u64, usize)> {
    choose|cl: Seq<(u64, usize)>| is_clusters(cores, cl)
}

proof fn lemma_count_bound(cores: Seq<Core>, f: u64)
    ensures
        count_at(cores, f) <= cores.len(),
    decreases cores.len(),
{
    if cores.len() > 0 {
        lemma_count_bound(cores.drop_last(), f);
    }
}

/// Two lists that both meet [`is_clusters`] for the same cores are equal.
pub proof fn lemma_clusters_unique(cores: Seq<Core>, a: Seq<(u64, usize)>, b: Seq<(u64, usize)>)
    requires
        is_clusters(cores, a),
        is_clusters(cores, b),
    ensures
        a == b,
{
    assert forall|i: int| 0 <= i < a.len() implies freq_in(b, #[trigger] a[i].0) by {
        assert(has_freq(cores, a[i].0));
        let k = choose|k: int| 0 <= k < cores.len() && #[trigger] cores[k].0 == a[i].0;
        assert(freq_in(b, cores[k].0));
    }
    assert forall|j: int| 0 <= j < b.len() implies freq_in(a, #[trigger] b[j].0) by {
        assert(has_freq(cores, b[j].0));
        let k = choose|k: int| 0 <= k < cores.len() && #[trigger] cores[k].0 == b[j].0;
        assert(freq_in(a, cores[k].0));
    }
    lemma_sorted_same(a, b);
    assert forall|i: int| 0 <= i < a.len() implies a[i] == b[i] by {
        assert(a[i].1 == count_at(cores, a[i].0));
        assert(b[i].1 == count_at(cores, b[i].0));
    }
    assert(a =~= b);
}

/// Two strictly increasing lists with the same elements agree at each place.
proof fn lemma_sorted_same(a: Seq<(u64, usize)>, b: Seq<(u64, usize)>)
    requires
        forall|i: int, j: int| 0 <= i < j < a.len() ==> a[i].0 < a[j].0,
        forall|i: int, j: int| 0 <= i < j < b.len() ==> b[i].0 < b[j].0,
        forall|i: int| 0 <= i < a.len() ==> freq_in(b, #[trigger] a[i].0),
        forall|j: int| 0 <= j < b.len() ==> freq_in(a, #[trigger] b[j].0),
    ensures
        a.len() == b.len(),
        forall|i: int| 0 <= i < a.len() ==> a[i].0 == b[i].0,
    decreases a.len() + b.len(),
{
    if a.len() > 0 && b.len() > 0 {
        // the smallest of each is the smallest of the other
        assert(freq_in(b, a[0].0));
        assert(freq_in(a, b[0].0));
        let ja = choose|j: int| 0 <= j < b.len() && #[trigger] b[j].0 == a[0].0;
        let ib = choose|i: int| 0 <= i < a.len() && #[trigger] a[i].0 == b[0].0;
        if ja > 0 {
            assert(b[0].0 < b[ja].0);
            if ib > 0 {
                assert(a[0].0 < a[ib].0);
            }
        }
        assert(a[0].0 == b[0].0);
        let a2 = a.drop_first();
        let b2 = b.drop_first();
        assert forall|i: int| 0 <= i < a2.len() implies freq_in(b2, #[trigger] a2[i].0) by {
            assert(a2[i] == a[i + 1]);
            assert(freq_in(b, a[i + 1].0));
            let j = choose|j: int| 0 <= j < b.len() && #[trigger] b[j].0 == a[i + 1].0;
            assert(a[0].0 < a[i + 1].0);
            assert(j != 0);
            assert(b2[j - 1].0 == a2[i].0);
        }
        assert forall|j: int| 0 <= j < b2.len() implies freq_in(a2, #[trigger] b2[j].0) by {
            assert(b2[j] == b[j + 1]);
            assert(freq_in(a, b[j + 1].0));
            let i = choose|i: int| 0 <= i < a.len() && #[trigger] a[i].0 == b[j + 1].0;
            assert(b[0].0 < b[j + 1].0);
            assert(i != 0);
            assert(a2[i - 1].0 == b2[j].0);
        }
        lemma_sorted_same(a2, b2);
        assert forall|i: int| 0 <= i < a.len() implies a[i].0 == b[i].0 by {
            if i > 0 {
                assert(a2[i - 1].0 == b2[i - 1].0);
            }
        }
    } else if a.len() > 0 {
        assert(freq_in(b, a[0].0));
    } else if b.len() > 0 {
        assert(freq_in(a, b[0].0));
    }
}

/// Whether `f` is past `prev` (every frequency is past `None`).
pub open spec fn past(prev: Option<u64>, f: u64) -> bool {
    match prev {
        Some(p) => f > p,
        None => true,
    }
}

/// The slowest frequency past `prev`, if any core has one.
fn next_freq(cores: &Vec<Core>, prev: Option<u64>) -> (r: Option<u64>)
    ensures
        match r {
            Some(m) => past(prev, m) && has_freq(cores@, m)
                && forall|k: int| 0 <= k < cores@.len() && past(prev, #[trigger] cores@[k].0) ==> m <= cores@[k].0,
            None => forall|k: int| 0 <= k < cores@.len() ==> !past(prev, #[trigger] cores@[k].0),
        },
{
    let mut best: Option<u64> = None;
    let mut k: usize = 0;
    while k < cores.len()
        invariant
            k <= cores@.len(),
            match best {
                Some(m) => past(prev, m) && has_freq(cores@, m)
                    && forall|j: int| 0 <= j < k && past(prev, #[trigger] cores@[j].0) ==> m <= cores@[j].0,
                None => forall|j: int| 0 <= j < k ==> !past(prev, #[trigger] cores@[j].0),
            },
        decreases cores@.len() - k,
    {
        let f = cores[k].0;
        let is_past = match prev {
            Some(p) => f > p,
            None => true,
        };
        if is_past {
            let better = match best {
                Some(m) => f < m,
                None => true,
            };
            if better {
                best = Some(f);
                assert(cores@[k as int].0 == f);
            }
        }
        k = k + 1;
    }
    best
}

/// How many of `cores` run at `f`.
fn count_freq(cores: &Vec<Core>, f: u64) -> (r: usize)
    ensures
        r == count_at(cores@, f),
{
    let mut c: usize = 0;
    let mut k: usize = 0;
    while k < cores.len()
        invariant
            k <= cores@.len(),
            c == count_at(cores@.take(k as int), f),
        decreases cores@.len() - k,
    {
        assert(cores@.take(k + 1).drop_last() =~= cores@.take(k as int));
        proof {
            lemma_count_bound(cores@.take(k as int), f);
        }
        if cores[k].0 == f {
            c = c + 1;
        }
        k = k + 1;
    }
    assert(cores@.take(cores@.len() as int) =~= cores@);
    c
}

/// The clusters of `cores`: each frequency once, slowest first, with its
/// core count.
pub fn clusters(cores: &Vec<Core>) -> (r: Vec<(u64, usize)>)
    ensures
        is_clusters(cores@, r@),
        r@ == clusters_of(cores@),
{
    let mut cl: Vec<(u64, usize)> = Vec::new();
    let mut prev: Option<u64> = None;
    loop
        invariant
            forall|i: int, j: int| 0 <= i < j < cl@.len() ==> cl@[i].0 < cl@[j].0,
            forall|i: int| 0 <= i < cl@.len() ==> has_freq(cores@, #[trigger] cl@[i].0),
            forall|i: int| 0 <= i < cl@.len() ==> #[trigger] cl@[i].1 == count_at(cores@, cl@[i].0),
            forall|k: int| 0 <= k < cores@.len() && !past(prev, #[trigger] cores@[k].0) ==> freq_in(cl@, cores@[k].0),
            prev is None <==> cl@.len() == 0,
            prev matches Some(p) ==> cl@.last().0 == p,
        ensures
            is_clusters(cores@, cl@),
        decreases (match prev { Some(p) => u64::MAX - p, None => u64::MAX + 1 }),
    {
        match next_freq(cores, prev) {
            None => {
                assert forall|k: int| 0 <= k < cores@.len() implies freq_in(cl@, #[trigger] cores@[k].0) by {
                    assert(!past(prev, cores@[k].0));
                }
                break;
            },
            Some(m) => {
                let c = count_freq(cores, m);
                let ghost old_cl = cl@;
                cl.push((m, c));
                assert forall|k: int| 0 <= k < cores@.len() && !past(Some(m), #[trigger] cores@[k].0) implies freq_in(cl@, cores@[k].0) by {
                    if past(prev, cores@[k].0) {
                        assert(cl@[old_cl.len() as int].0 == cores@[k].0);
                    } else {
                        assert(freq_in(old_cl, cores@[k].0));
                        let i = choose|i: int| 0 <= i < old_cl.len() && #[trigger] old_cl[i].0 == cores@[k].0;
                        assert(cl@[i].0 == cores@[k].0);
                    }
                }
                assert forall|i: int, j: int| 0 <= i < j < cl@.len() implies cl@[i].0 < cl@[j].0 by {
                    if j == old_cl.len() && i < j {
                        if i < old_cl.len() - 1 {
                            assert(old_cl[i].0 < old_cl[old_cl.len() - 1].0);
                        }
                    }
                }
                prev = Some(m);
            },
        }
    }
    proof {
        let ch = clusters_of(cores@);
        assert(is_clusters(cores@, cl@));
        lemma_clusters_unique(cores@, ch, cl@);
    }
    cl
}

/// The numbers of the cores whose frequency is `f` (when `at`) or is not
/// `f` (when not `at`), in their order.
pub open spec fn cpus_where(cores: Seq<Core>, f: u64, at: bool) -> Seq<u32>
    decreases cores.len(),
{
    if cores.len() == 0 {
        Seq::empty()
    } else {
        let r = cpus_where(cores.drop_last(), f, at);
        if (cores.last().0 == f) == at { r.push(cores.last().1) } else { r }
    }
}

/// Core numbers in decimal, separated by `,`.
pub open spec fn comma_list(v: Seq<u32>) -> Seq<char>
    decreases v.len(),
{
    if v.len() == 0 {
        Seq::empty()
    } else if v.len() == 1 {
        dec(v[0] as nat)
    } else {
        comma_list(v.drop_last()) + seq![','] + dec(v.last() as nat)
    }
}

/// The core counts of the clusters in decimal, separated by `+`, such as
/// `4+3+1`.
pub open spec fn plus_counts(cl: Seq<(u64, usize)>) -> Seq<char>
    decreases cl.len(),
{
    if cl.len() == 0 {
        Seq::empty()
    } else if cl.len() == 1 {
        dec(cl[0].1 as nat)
    } else {
        plus_counts(cl.drop_last()) + seq!['+'] + dec(cl.last().1 as nat)
    }
}

/// The big cores, the little cores and the layout. The little cores are
/// the slowest cluster; the big cores are all the others, or the little
/// ones again when every core runs at one frequency. With no core known,
/// each is `?`.
pub open spec fn spec_cpu_layout(cores: Seq<Core>) -> (Seq<char>, Seq<char>, Seq<char>) {
    if cores.len() == 0 {
        (seq!['?'], seq!['?'], seq!['?'])
    } else {
        let cl = clusters_of(cores);
        let little = cpus_where(cores, cl[0].0, true);
        let faster = cpus_where(cores, cl[0].0, false);
        let big = if faster.len() == 0 { little } else { faster };
        (comma_list(big), comma_list(little), plus_counts(cl))
    }
}

/// The numbers of the cores at (or, when not `at`, not at) frequency `f`.
fn cpus_at(cores: &Vec<Core>, f: u64, at: bool) -> (r: Vec<u32>)
    ensures
        r@ == cpus_where(cores@, f, at),
{
    let mut r: Vec<u32> = Vec::new();
    let mut k: usize = 0;
    while k < cores.len()
        invariant
            k <= cores@.len(),
            r@ == cpus_where(cores@.take(k as int), f, at),
        decreases cores@.len() - k,
    {
        assert(cores@.take(k + 1).drop_last() =~= cores@.take(k as int));
        if (cores[k].0 == f) == at {
            r.push(cores[k].1);
        }
        k = k + 1;
    }
    assert(cores@.take(cores@.len() as int) =~= cores@);
    r
}

/// Appends the core numbers `v` (see [`comma_list`]).
fn push_list(s: &mut String, v: &Vec<u32>)
    ensures
        final(s)@ == old(s)@ + comma_list(v@),
{
    let mut i: usize = 0;
    while i < v.len()
        invariant
            i <= v@.len(),
            s@ == old(s)@ + comma_list(v@.take(i as int)),
        decreases v@.len() - i,
    {
        assert(v@.take(i + 1).drop_last() =~= v@.take(i as int));
        if i > 0 {
            push_char(s, ',');
        }
        push_dec(s, v[i] as u64);
        assert(s@ =~= old(s)@ + comma_list(v@.take(i + 1)));
        i = i + 1;
    }
    assert(v@.take(v@.len() as int) =~= v@);
}

/// The core counts of `cl` (see [`plus_counts`]).
fn counts_text(cl: &Vec<(u64, usize)>) -> (r: String)
    ensures
        r@ == plus_counts(cl@),
{
    let mut s = String::new();
    let mut i: usize = 0;
    while i < cl.len()
        invariant
            i <= cl@.len(),
            s@ == plus_counts(cl@.take(i as int)),
        decreases cl@.len() - i,
    {
        assert(cl@.take(i + 1).drop_last() =~= cl@.take(i as int));
        if i > 0 {
            push_char(&mut s, '+');
        }
        push_dec(&mut s, cl[i].1 as u64);
        assert(s@ =~= plus_counts(cl@.take(i + 1)));
        i = i + 1;
    }
    assert(cl@.take(cl@.len() as int) =~= cl@);
    s
}

/// The big cores, the little cores and the layout of `cores` (see
/// [`spec_cpu_layout`]).
pub fn cpu_layout(cores: &Vec<Core>) -> (r: (String, String, String))
    ensures
        (r.0@, r.1@, r.2@) == spec_cpu_layout(cores@),
{
    if cores.len() == 0 {
        let mut a = String::new();
        push_char(&mut a, '?');
        let mut b = String::new();
        push_char(&mut b, '?');
        let mut c = String::new();
        push_char(&mut c, '?');
        return (a, b, c);
    }
    let cl = clusters(cores);
    assert(cl@.len() > 0) by {
        assert(freq_in(cl@, cores@[0].0));
    }
    let slow = cl[0].0;
    let little = cpus_at(cores, slow, true);
    let faster = cpus_at(cores, slow, false);
    let mut big_text = String::new();
    if faster.len() == 0 {
        push_list(&mut big_text, &little);
    } else {
        push_list(&mut big_text, &faster);
    }
    let mut little_text = String::new();
    push_list(&mut little_text, &little);
    let layout = counts_text(&cl);
    assert(big_text@ =~= spec_cpu_layout(cores@).0);
    assert(little_text@ =~= spec_cpu_layout(cores@).1);
    (big_text, little_text, layout)
}

} // verus!
