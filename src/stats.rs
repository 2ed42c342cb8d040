use crate::decode::DecodedInstruction;
use crate::text::{ascii_lower, lower_char, to_ascii_lower};
use vstd::prelude::*;

verus! {

/// The aggregation key of an instruction: its mnemonic name in ASCII lower case.
pub open spec fn mnemonic_key(d: DecodedInstruction) -> Seq<char> {
    ascii_lower(d.mnemonic@)
}

pub open spec fn keys_of(ds: Seq<DecodedInstruction>) -> Seq<Seq<char>> {
    Seq::new(ds.len(), |i: int| mnemonic_key(ds[i]))
}

/// How often `k` occurs in `s`.
pub open spec fn count_in(s: Seq<Seq<char>>, k: Seq<char>) -> nat
    decreases s.len(),
{
    if s.len() == 0 {
        0
    } else {
        count_in(s.drop_last(), k) + if s.last() == k {
            1nat
        } else {
            0nat
        }
    }
}

/// Sum of the counts of a tally.
pub open spec fn total(s: Seq<(String, usize)>) -> nat
    decreases s.len(),
{
    if s.len() == 0 {
        0
    } else {
        total(s.drop_last()) + s.last().1 as nat
    }
}

/// Some entry of `r` has the key `key`.
pub open spec fn has_key(r: Seq<(String, usize)>, key: Seq<char>) -> bool {
    exists|k: int| 0 <= k < r.len() && #[trigger] r[k].0@ == key
}

/// `r` counts the keys of `keys`: one entry per distinct key, holding how often
/// that key occurs.
pub open spec fn is_tally(r: Seq<(String, usize)>, keys: Seq<Seq<char>>) -> bool {
    &&& forall|k: int| 0 <= k < r.len() ==> #[trigger] r[k].1 == count_in(keys, r[k].0@)
    &&& forall|k: int| 0 <= k < r.len() ==> keys.contains(#[trigger] r[k].0@)
    &&& forall|j: int| 0 <= j < keys.len() ==> has_key(r, #[trigger] keys[j])
    &&& forall|a: int, b: int| 0 <= a < b < r.len() ==> #[trigger] r[a].0@ != #[trigger] r[b].0@
}

/// The keys of `r` stand in the order of their first occurrence in `keys`.
pub open spec fn first_seen_order(r: Seq<(String, usize)>, keys: Seq<Seq<char>>) -> bool {
    forall|a: int, b: int|
        0 <= a < b < r.len() ==> first_index(keys, #[trigger] r[a].0@) < first_index(keys, #[trigger] r[b].0@)
}

/// Keys with equal counts stand in the order of their first occurrence in `keys`.
pub open spec fn ties_first_seen(r: Seq<(String, usize)>, keys: Seq<Seq<char>>) -> bool {
    forall|a: int, b: int|
        0 <= a < b < r.len() && r[a].1 == r[b].1 ==> first_index(keys, #[trigger] r[a].0@) < first_index(
            keys,
            #[trigger] r[b].0@,
        )
}

/// Counts never increase along `r`.
pub open spec fn sorted_desc(r: Seq<(String, usize)>) -> bool {
    forall|a: int, b: int| 0 <= a < b < r.len() ==> #[trigger] r[a].1 >= #[trigger] r[b].1
}

pub proof fn lemma_total_update(s: Seq<(String, usize)>, t: int, x: (String, usize))
    requires
        0 <= t < s.len(),
    ensures
        total(s.update(t, x)) == total(s) - s[t].1 + x.1,
    decreases s.len(),
{
    if t < s.len() - 1 {
        lemma_total_update(s.drop_last(), t, x);
        assert(s.update(t, x).drop_last() =~= s.drop_last().update(t, x));
    } else {
        assert(s.update(t, x).drop_last() =~= s.drop_last());
    }
}

pub proof fn lemma_total_insert(s: Seq<(String, usize)>, j: int, x: (String, usize))
    requires
        0 <= j <= s.len(),
    ensures
        total(s.insert(j, x)) == total(s) + x.1,
    decreases s.len(),
{
    if j == s.len() {
        assert(s.insert(j, x).drop_last() =~= s);
    } else {
        lemma_total_insert(s.drop_last(), j, x);
        assert(s.insert(j, x).drop_last() =~= s.drop_last().insert(j, x));
    }
}

/// Tallies the mnemonic keys in instruction order; a new key goes at the end.
fn tally(ds: &Vec<DecodedInstruction>) -> (r: Vec<(String, usize)>)
    ensures
        is_tally(r@, keys_of(ds@)),
        total(r@) == ds@.len(),
        first_seen_order(r@, keys_of(ds@)),
{
    let ghost keys = keys_of(ds@);
    let mut r: Vec<(String, usize)> = Vec::new();
    let mut i: usize = 0;
    while i < ds.len()
        invariant
            i <= ds@.len(),
            keys == keys_of(ds@),
            total(r@) == i,
            forall|k: int| 0 <= k < r@.len() ==> #[trigger] r@[k].1 == count_in(keys.take(i as int), r@[k].0@),
            forall|k: int| 0 <= k < r@.len() ==> keys.take(i as int).contains(#[trigger] r@[k].0@),
            forall|j: int| 0 <= j < i ==> has_key(r@, #[trigger] keys[j]),
            forall|a: int, b: int| 0 <= a < b < r@.len() ==> #[trigger] r@[a].0@ != #[trigger] r@[b].0@,
            first_seen_order(r@, keys.take(i as int)),
        decreases ds.len() - i,
    {
        let key = to_ascii_lower(ds[i].mnemonic.as_str());
        assert(key@ == keys[i as int]);
        let ghost old_r = r@;
        let ghost prev = keys.take(i as int);
        let ghost next = keys.take(i + 1);
        assert(next.drop_last() =~= prev);
        assert(next.last() == key@);
        let mut t: usize = 0;
        while t < r.len() && r[t].0 != key
            invariant
                t <= r@.len(),
                forall|k: int| 0 <= k < t ==> #[trigger] r@[k].0@ != key@,
            decreases r.len() - t,
        {
            t = t + 1;
        }
        if t < r.len() {
            proof {
                lemma_total_update(r@, t as int, (key, (r@[t as int].1 + 1) as usize));
            }
            assert(r@[t as int].1 == count_in(prev, key@));
            assert(count_in(prev, key@) < i + 1) by {
                lemma_count_le(prev, key@);
            }
            let c = r[t].1 + 1;
            r.set(t, (key, c));
            proof {
                lemma_order_extends(r@, prev, next);
            }
            assert forall|k: int| 0 <= k < r@.len() implies #[trigger] r@[k].1 == count_in(next, r@[k].0@) by {
                if k != t {
                    assert(old_r[k].0@ != key@);
                }
            }
            assert forall|k: int| 0 <= k < r@.len() implies next.contains(#[trigger] r@[k].0@) by {
                if k != t {
                    assert(prev.contains(old_r[k].0@));
                    let w = choose|w: int| 0 <= w < prev.len() && prev[w] == old_r[k].0@;
                    assert(next[w] == prev[w]);
                } else {
                    assert(next[i as int] == key@);
                }
            }
            assert forall|j: int| 0 <= j < i + 1 implies has_key(r@, #[trigger] keys[j]) by {
                if j < i {
                    let k = choose|k: int| 0 <= k < old_r.len() && #[trigger] old_r[k].0@ == keys[j];
                    assert(has_key(old_r, keys[j]));
                    assert(r@[k].0@ == keys[j]);
                } else {
                    assert(r@[t as int].0@ == keys[j]);
                }
            }
        } else {
            assert(!prev.contains(key@)) by {
                if prev.contains(key@) {
                    let w = choose|w: int| 0 <= w < prev.len() && prev[w] == key@;
                    assert(keys[w] == key@);
                    assert(has_key(old_r, keys[w]));
                    let k = choose|k: int| 0 <= k < old_r.len() && #[trigger] old_r[k].0@ == keys[w];
                    assert(old_r[k].0@ != key@);
                }
            }
            proof {
                lemma_count_absent(prev, key@);
            }
            r.push((key, 1));
            assert(r@.drop_last() =~= old_r);
            proof {
                lemma_order_push(old_r, prev, next);
                assert(r@ == old_r.push(r@.last()));
            }
            assert forall|k: int| 0 <= k < r@.len() implies #[trigger] r@[k].1 == count_in(next, r@[k].0@) by {
                if k < old_r.len() {
                    assert(old_r[k].0@ != key@);
                }
            }
            assert forall|k: int| 0 <= k < r@.len() implies next.contains(#[trigger] r@[k].0@) by {
                if k < old_r.len() {
                    assert(prev.contains(old_r[k].0@));
                    let w = choose|w: int| 0 <= w < prev.len() && prev[w] == old_r[k].0@;
                    assert(next[w] == prev[w]);
                } else {
                    assert(next[i as int] == key@);
                }
            }
            assert forall|j: int| 0 <= j < i + 1 implies has_key(r@, #[trigger] keys[j]) by {
                if j < i {
                    let k = choose|k: int| 0 <= k < old_r.len() && #[trigger] old_r[k].0@ == keys[j];
                    assert(has_key(old_r, keys[j]));
                    assert(r@[k].0@ == keys[j]);
                } else {
                    assert(r@[old_r.len() as int].0@ == keys[j]);
                }
            }
        }
        i = i + 1;
    }
    assert(keys.take(i as int) =~= keys);
    r
}

pub proof fn lemma_count_le(s: Seq<Seq<char>>, k: Seq<char>)
    ensures
        count_in(s, k) <= s.len(),
    decreases s.len(),
{
    if s.len() > 0 {
        lemma_count_le(s.drop_last(), k);
    }
}

pub proof fn lemma_count_absent(s: Seq<Seq<char>>, k: Seq<char>)
    requires
        !s.contains(k),
    ensures
        count_in(s, k) == 0,
    decreases s.len(),
{
    if s.len() > 0 {
        assert(!s.drop_last().contains(k)) by {
            if s.drop_last().contains(k) {
                let w = choose|w: int| 0 <= w < s.drop_last().len() && s.drop_last()[w] == k;
                assert(s[w] == k);
            }
        }
        lemma_count_absent(s.drop_last(), k);
    }
}

pub open spec fn distinct_keys(r: Seq<(String, usize)>) -> bool {
    forall|a: int, b: int| 0 <= a < b < r.len() ==> #[trigger] r[a].0@ != #[trigger] r[b].0@
}

/// Entry `k` of `out` is entry `src[k]` of `t`, one of its first `i`.
pub open spec fn from_prefix(out: Seq<(String, usize)>, t: Seq<(String, usize)>, src: Seq<int>, i: int) -> bool {
    &&& src.len() == out.len()
    &&& forall|k: int| 0 <= k < out.len() ==> 0 <= #[trigger] src[k] < i && out[k] == t[src[k]]
}

/// Entry `u` of `t`, one of its first `i`, is entry `dst[u]` of `out`.
pub open spec fn covers_prefix(out: Seq<(String, usize)>, t: Seq<(String, usize)>, dst: Seq<int>, i: int) -> bool {
    &&& dst.len() == i
    &&& forall|u: int| 0 <= u < i ==> 0 <= #[trigger] dst[u] < out.len() && out[dst[u]] == t[u]
}

/// Entries of `out` with equal counts come from `t` in its order.
pub open spec fn stable(out: Seq<(String, usize)>, src: Seq<int>) -> bool {
    forall|a: int, b: int| 0 <= a < b < out.len() && out[a].1 == out[b].1 ==> #[trigger] src[a] < #[trigger] src[b]
}

proof fn lemma_insert_stable(old_out: Seq<(String, usize)>, src: Seq<int>, i: int, j: int, x: (String, usize))
    requires
        0 <= j <= old_out.len(),
        src.len() == old_out.len(),
        sorted_desc(old_out),
        stable(old_out, src),
        forall|k: int| 0 <= k < src.len() ==> #[trigger] src[k] < i,
        j < old_out.len() ==> old_out[j].1 < x.1,
    ensures
        stable(old_out.insert(j, x), src.insert(j, i)),
{
    let out = old_out.insert(j, x);
    let src2 = src.insert(j, i);
    assert forall|a: int, b: int| 0 <= a < b < out.len() && out[a].1 == out[b].1 implies #[trigger] src2[a] < #[trigger] src2[b] by {
        if b == j {
            assert(src2[a] == src[a]);
        } else if a == j {
            assert(out[b] == old_out[b - 1]);
            if b - 1 > j {
                assert(old_out[j].1 >= old_out[b - 1].1);
            }
        } else if a > j {
            assert(src2[a] == src[a - 1] && src2[b] == src[b - 1]);
        } else if b > j {
            assert(src2[a] == src[a] && src2[b] == src[b - 1]);
        } else {
            assert(src2[a] == src[a] && src2[b] == src[b]);
        }
    }
}

pub open spec fn shifted(dst: Seq<int>, j: int) -> Seq<int> {
    Seq::new(dst.len(), |u: int| if dst[u] >= j { dst[u] + 1 } else { dst[u] })
}

proof fn lemma_insert_sorted(old_out: Seq<(String, usize)>, j: int, x: (String, usize))
    requires
        0 <= j <= old_out.len(),
        sorted_desc(old_out),
        forall|k: int| 0 <= k < j ==> #[trigger] old_out[k].1 >= x.1,
        j < old_out.len() ==> old_out[j].1 < x.1,
    ensures
        sorted_desc(old_out.insert(j, x)),
{
    let out = old_out.insert(j, x);
    assert forall|a: int, b: int| 0 <= a < b < out.len() implies #[trigger] out[a].1 >= #[trigger] out[b].1 by {
        if b == j {
        } else if a == j {
            assert(out[b] == old_out[b - 1]);
            if b - 1 > j {
                assert(old_out[j].1 >= old_out[b - 1].1);
            }
        } else if a > j {
            assert(old_out[a - 1].1 >= old_out[b - 1].1);
        } else if b > j {
            assert(old_out[a].1 >= old_out[b - 1].1);
        }
    }
}

proof fn lemma_insert_entries(
    old_out: Seq<(String, usize)>,
    t: Seq<(String, usize)>,
    src: Seq<int>,
    dst: Seq<int>,
    i: int,
    j: int,
)
    requires
        0 <= i < t.len(),
        0 <= j <= old_out.len(),
        from_prefix(old_out, t, src, i),
        covers_prefix(old_out, t, dst, i),
        distinct_keys(old_out),
        distinct_keys(t),
    ensures
        from_prefix(old_out.insert(j, t[i]), t, src.insert(j, i), i + 1),
        covers_prefix(old_out.insert(j, t[i]), t, shifted(dst, j).push(j), i + 1),
        distinct_keys(old_out.insert(j, t[i])),
{
    let x = t[i];
    let out = old_out.insert(j, x);
    let src2 = src.insert(j, i);
    let dst2 = shifted(dst, j).push(j);
    assert forall|k: int| 0 <= k < out.len() implies 0 <= #[trigger] src2[k] < i + 1 && out[k] == t[src2[k]] by {
        if k > j {
            assert(src2[k] == src[k - 1]);
        }
    }
    assert forall|u: int| 0 <= u < i + 1 implies 0 <= #[trigger] dst2[u] < out.len() && out[dst2[u]] == t[u] by {
        if u < i {
            assert(dst2[u] == shifted(dst, j)[u]);
        }
    }
    assert forall|k: int| 0 <= k < old_out.len() implies #[trigger] old_out[k].0@ != x.0@ by {
        assert(t[src[k]].0@ != t[i].0@);
    }
    assert forall|a: int, b: int| 0 <= a < b < out.len() implies #[trigger] out[a].0@ != #[trigger] out[b].0@ by {
        if a == j {
            assert(old_out[b - 1].0@ != x.0@);
        } else if b == j {
            assert(old_out[a].0@ != x.0@);
        } else if a > j {
            assert(old_out[a - 1].0@ != old_out[b - 1].0@);
        } else if b > j {
            assert(old_out[a].0@ != old_out[b - 1].0@);
        }
    }
}

proof fn lemma_permuted_tally(
    out: Seq<(String, usize)>,
    t: Seq<(String, usize)>,
    src: Seq<int>,
    dst: Seq<int>,
    keys: Seq<Seq<char>>,
)
    requires
        is_tally(t, keys),
        from_prefix(out, t, src, t.len() as int),
        covers_prefix(out, t, dst, t.len() as int),
        distinct_keys(out),
    ensures
        is_tally(out, keys),
{
    assert forall|k: int| 0 <= k < out.len() implies #[trigger] out[k].1 == count_in(keys, out[k].0@) by {
        assert(out[k] == t[src[k]]);
        assert(t[src[k]].1 == count_in(keys, t[src[k]].0@));
    }
    assert forall|k: int| 0 <= k < out.len() implies keys.contains(#[trigger] out[k].0@) by {
        assert(out[k] == t[src[k]]);
        assert(keys.contains(t[src[k]].0@));
    }
    assert forall|j: int| 0 <= j < keys.len() implies has_key(out, #[trigger] keys[j]) by {
        assert(has_key(t, keys[j]));
        let u = choose|u: int| 0 <= u < t.len() && #[trigger] t[u].0@ == keys[j];
        assert(out[dst[u]] == t[u]);
        assert(out[dst[u]].0@ == keys[j]);
    }
    assert(distinct_keys(out));
}

/// The mnemonic keys with their counts, most frequent first; keys with equal
/// counts keep the order in which they first occur.
pub fn extract_most_used_instructions(ds: &Vec<DecodedInstruction>) -> (r: Vec<(String, usize)>)
    ensures
        is_tally(r@, keys_of(ds@)),
        sorted_desc(r@),
        ties_first_seen(r@, keys_of(ds@)),
        total(r@) == ds@.len(),
{
    let ghost keys = keys_of(ds@);
    let t = tally(ds);
    let mut out: Vec<(String, usize)> = Vec::new();
    let ghost mut src: Seq<int> = Seq::empty();
    let ghost mut dst: Seq<int> = Seq::empty();
    let mut i: usize = 0;
    while i < t.len()
        invariant
            i <= t@.len(),
            is_tally(t@, keys),
            out@.len() == i,
            sorted_desc(out@),
            total(out@) == total(t@.take(i as int)),
            from_prefix(out@, t@, src, i as int),
            covers_prefix(out@, t@, dst, i as int),
            distinct_keys(out@),
            first_seen_order(t@, keys),
            stable(out@, src),
        decreases t.len() - i,
    {
        let x = (t[i].0.clone(), t[i].1);
        assert(x == t@[i as int]);
        let ghost old_out = out@;
        let mut j: usize = 0;
        while j < out.len() && out[j].1 >= x.1
            invariant
                j <= out@.len(),
                out@ == old_out,
                forall|k: int| 0 <= k < j ==> #[trigger] out@[k].1 >= x.1,
            decreases out.len() - j,
        {
            j = j + 1;
        }
        out.insert(j, x);
        proof {
            lemma_total_insert(old_out, j as int, x);
            assert(t@.take(i + 1).drop_last() =~= t@.take(i as int));
            lemma_insert_sorted(old_out, j as int, x);
            lemma_insert_entries(old_out, t@, src, dst, i as int, j as int);
            lemma_insert_stable(old_out, src, i as int, j as int, x);
            src = src.insert(j as int, i as int);
            dst = shifted(dst, j as int).push(j as int);
        }
        i = i + 1;
    }
    proof {
        assert(t@.take(i as int) =~= t@);
        lemma_permuted_tally(out@, t@, src, dst, keys);
        assert forall|a: int, b: int| 0 <= a < b < out@.len() && out@[a].1 == out@[b].1 implies first_index(
            keys,
            #[trigger] out@[a].0@,
        ) < first_index(keys, #[trigger] out@[b].0@) by {
            assert(src[a] < src[b]);
            assert(out@[a] == t@[src[a]] && out@[b] == t@[src[b]]);
            assert(first_index(keys, t@[src[a]].0@) < first_index(keys, t@[src[b]].0@));
        }
    }
    out
}

pub open spec fn names(v: Seq<String>) -> Seq<Seq<char>> {
    Seq::new(v.len(), |i: int| v[i]@)
}

/// The feature names of all instructions, in instruction order.
pub open spec fn all_features(ds: Seq<DecodedInstruction>) -> Seq<Seq<char>>
    decreases ds.len(),
{
    if ds.len() == 0 {
        Seq::empty()
    } else {
        all_features(ds.drop_last()) + names(ds.last().features@)
    }
}

/// The distinct elements of `s`, each where it first occurs.
pub open spec fn first_seen(s: Seq<Seq<char>>) -> Seq<Seq<char>>
    decreases s.len(),
{
    if s.len() == 0 {
        Seq::empty()
    } else {
        let p = first_seen(s.drop_last());
        if p.contains(s.last()) {
            p
        } else {
            p.push(s.last())
        }
    }
}

/// Whether `v` holds a string equal to `s`.
fn contains_name(v: &Vec<String>, s: &String) -> (r: bool)
    ensures
        r == names(v@).contains(s@),
{
    let mut i: usize = 0;
    while i < v.len()
        invariant
            i <= v@.len(),
            forall|k: int| 0 <= k < i ==> v@[k]@ != s@,
        decreases v.len() - i,
    {
        if v[i] == *s {
            assert(names(v@)[i as int] == s@);
            return true;
        }
        i = i + 1;
    }
    assert(!names(v@).contains(s@)) by {
        if names(v@).contains(s@) {
            let w = choose|w: int| 0 <= w < names(v@).len() && names(v@)[w] == s@;
            assert(v@[w]@ == s@);
        }
    }
    false
}

/// The CPUID feature names that the instructions need, without repetition, in
/// the order of their first occurrence.
pub fn extract_isa_extensions(ds: &Vec<DecodedInstruction>) -> (r: Vec<String>)
    ensures
        names(r@) == first_seen(all_features(ds@)),
{
    let mut r: Vec<String> = Vec::new();
    let mut i: usize = 0;
    while i < ds.len()
        invariant
            i <= ds@.len(),
            names(r@) == first_seen(all_features(ds@.take(i as int))),
        decreases ds.len() - i,
    {
        let fs = &ds[i].features;
        let ghost before = all_features(ds@.take(i as int));
        let mut j: usize = 0;
        while j < fs.len()
            invariant
                j <= fs@.len(),
                fs == ds@[i as int].features,
                names(r@) == first_seen(before + names(fs@).take(j as int)),
            decreases fs.len() - j,
        {
            let ghost prefix = before + names(fs@).take(j as int);
            let ghost next = before + names(fs@).take(j + 1);
            assert(next.drop_last() =~= prefix);
            assert(next.last() == fs@[j as int]@);
            if !contains_name(&r, &fs[j]) {
                r.push(fs[j].clone());
                assert(names(r@) =~= first_seen(prefix).push(fs@[j as int]@));
            }
            j = j + 1;
        }
        assert(ds@.take(i + 1).drop_last() =~= ds@.take(i as int));
        assert(names(fs@).take(j as int) =~= names(fs@));
        i = i + 1;
    }
    assert(ds@.take(i as int) =~= ds@);
    r
}

/// Where `x` first occurs in `s` (meaningful when `s` contains `x`).
pub open spec fn first_index(s: Seq<Seq<char>>, x: Seq<char>) -> int
    decreases s.len(),
{
    if s.len() == 0 {
        0
    } else if s.drop_last().contains(x) {
        first_index(s.drop_last(), x)
    } else {
        s.len() - 1
    }
}

pub open spec fn no_duplicates(s: Seq<Seq<char>>) -> bool {
    forall|a: int, b: int| 0 <= a < b < s.len() ==> #[trigger] s[a] != #[trigger] s[b]
}

proof fn lemma_first_index(s: Seq<Seq<char>>, x: Seq<char>)
    requires
        s.contains(x),
    ensures
        0 <= first_index(s, x) < s.len(),
        s[first_index(s, x)] == x,
    decreases s.len(),
{
    if s.drop_last().contains(x) {
        lemma_first_index(s.drop_last(), x);
    } else {
        let w = choose|w: int| 0 <= w < s.len() && s[w] == x;
        if w < s.len() - 1 {
            assert(s.drop_last()[w] == x);
        }
    }
}

/// The ISA-extension list holds no name twice, holds exactly the names that
/// occur, and lists them in the order in which they first occur.
pub proof fn lemma_first_seen(s: Seq<Seq<char>>)
    ensures
        no_duplicates(first_seen(s)),
        forall|x: Seq<char>| first_seen(s).contains(x) <==> s.contains(x),
        forall|a: int, b: int|
            0 <= a < b < first_seen(s).len() ==> first_index(s, #[trigger] first_seen(s)[a]) < first_index(
                s,
                #[trigger] first_seen(s)[b],
            ),
    decreases s.len(),
{
    if s.len() > 0 {
        let d = s.drop_last();
        let p = first_seen(d);
        lemma_first_seen(d);
        assert forall|x: Seq<char>| s.contains(x) <==> (d.contains(x) || x == s.last()) by {
            if s.contains(x) && x != s.last() {
                let w = choose|w: int| 0 <= w < s.len() && s[w] == x;
                assert(d[w] == x);
            }
            if d.contains(x) {
                let w = choose|w: int| 0 <= w < d.len() && d[w] == x;
                assert(s[w] == x);
            }
            if x == s.last() {
                assert(s[s.len() - 1] == x);
            }
        }
        let r = first_seen(s);
        if p.contains(s.last()) {
            assert(r == p);
            assert forall|x: Seq<char>| r.contains(x) <==> s.contains(x) by {}
            assert forall|a: int, b: int| 0 <= a < b < r.len() implies first_index(s, #[trigger] r[a]) < first_index(s, #[trigger] r[b]) by {
                assert(p.contains(r[a]) && p.contains(r[b]));
                assert(p[a] == r[a] && p[b] == r[b]);
                assert(first_index(d, p[a]) < first_index(d, p[b]));
            }
        } else {
            assert(r == p.push(s.last()));
            assert forall|x: Seq<char>| r.contains(x) <==> s.contains(x) by {
                if r.contains(x) && x != s.last() {
                    let w = choose|w: int| 0 <= w < r.len() && r[w] == x;
                    assert(p[w] == x);
                }
                if p.contains(x) {
                    let w = choose|w: int| 0 <= w < p.len() && p[w] == x;
                    assert(r[w] == x);
                }
                if x == s.last() {
                    assert(r[r.len() - 1] == x);
                }
            }
            assert forall|a: int, b: int| 0 <= a < b < r.len() implies #[trigger] r[a] != #[trigger] r[b] by {
                if b == r.len() - 1 {
                    assert(p[a] == r[a]);
                    assert(p.contains(r[a]));
                } else {
                    assert(p[a] != p[b]);
                }
            }
            assert forall|a: int, b: int| 0 <= a < b < r.len() implies first_index(s, #[trigger] r[a]) < first_index(s, #[trigger] r[b]) by {
                assert(p[a] == r[a]);
                assert(p.contains(p[a]));
                lemma_first_index(d, p[a]);
                if b == r.len() - 1 {
                } else {
                    assert(p[b] == r[b]);
                    assert(p.contains(p[b]));
                    assert(first_index(d, p[a]) < first_index(d, p[b]));
                }
            }
        }
    }
}

/// Mnemonic keys ignore ASCII case: names that differ only in the case of
/// their letters give the same key, and a key is its own key.
pub proof fn lemma_key_ignores_case(a: Seq<char>, b: Seq<char>)
    requires
        a.len() == b.len(),
        forall|i: int| 0 <= i < a.len() ==> lower_char(#[trigger] a[i]) == lower_char(b[i]),
    ensures
        ascii_lower(a) == ascii_lower(b),
        ascii_lower(ascii_lower(a)) == ascii_lower(a),
{
    assert(ascii_lower(a) =~= ascii_lower(b));
    assert(ascii_lower(ascii_lower(a)) =~= ascii_lower(a));
}

proof fn lemma_first_index_extends(prev: Seq<Seq<char>>, next: Seq<Seq<char>>, y: Seq<char>)
    requires
        next.len() == prev.len() + 1,
        next.drop_last() == prev,
        prev.contains(y),
    ensures
        first_index(next, y) == first_index(prev, y),
        first_index(prev, y) < prev.len(),
{
    lemma_first_index(prev, y);
}

/// Keys already seen keep their first index when one more key is seen.
proof fn lemma_order_extends(r: Seq<(String, usize)>, prev: Seq<Seq<char>>, next: Seq<Seq<char>>)
    requires
        next.len() == prev.len() + 1,
        next.drop_last() == prev,
        first_seen_order(r, prev),
        forall|k: int| 0 <= k < r.len() ==> prev.contains(#[trigger] r[k].0@),
    ensures
        first_seen_order(r, next),
{
    assert forall|a: int, b: int| 0 <= a < b < r.len() implies first_index(next, #[trigger] r[a].0@) < first_index(next, #[trigger] r[b].0@) by {
        lemma_first_index_extends(prev, next, r[a].0@);
        lemma_first_index_extends(prev, next, r[b].0@);
    }
}

/// A key seen for the first time goes after all keys seen before.
proof fn lemma_order_push(r: Seq<(String, usize)>, prev: Seq<Seq<char>>, next: Seq<Seq<char>>)
    requires
        next.len() == prev.len() + 1,
        next.drop_last() == prev,
        !prev.contains(next.last()),
        first_seen_order(r, prev),
        forall|k: int| 0 <= k < r.len() ==> prev.contains(#[trigger] r[k].0@),
    ensures
        forall|x: (String, usize)| x.0@ == next.last() ==> first_seen_order(#[trigger] r.push(x), next),
{
    lemma_order_extends(r, prev, next);
    assert forall|x: (String, usize)| x.0@ == next.last() implies first_seen_order(#[trigger] r.push(x), next) by {
        let r2 = r.push(x);
        assert(first_index(next, x.0@) == prev.len());
        assert forall|a: int, b: int| 0 <= a < b < r2.len() implies first_index(next, #[trigger] r2[a].0@) < first_index(next, #[trigger] r2[b].0@) by {
            assert(r2[a] == r[a]);
            lemma_first_index_extends(prev, next, r[a].0@);
            if b < r.len() {
                assert(r2[b] == r[b]);
            }
        }
    }
}

} // verus!
