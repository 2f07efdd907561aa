//! Stable ordering of record indices by integer sort keys.
use vstd::multiset::Multiset;
use vstd::prelude::*;
use vstd::relations::{sorted_by, total_ordering};

verus! {

broadcast use vstd::seq_lib::group_to_multiset_ensures;

/// Lexicographic `<=` on integer sequences (a proper prefix comes first).
pub open spec fn lex_le(a: Seq<i128>, b: Seq<i128>) -> bool
    decreases a.len(),
{
    if a.len() == 0 {
        true
    } else if b.len() == 0 {
        false
    } else if a[0] < b[0] {
        true
    } else if a[0] > b[0] {
        false
    } else {
        lex_le(a.drop_first(), b.drop_first())
    }
}

/// The key of index `i`: its row of `keys` (empty when out of range)
/// followed by `i` itself, so that no two indices share a key.
pub open spec fn full_key(keys: Seq<Seq<i128>>, i: usize) -> Seq<i128> {
    (if i < keys.len() {
        keys[i as int]
    } else {
        Seq::empty()
    }).push(i as i128)
}

/// Order of indices by their rows of `keys`, ties broken by the index.
pub open spec fn index_order(keys: Seq<Seq<i128>>) -> spec_fn(usize, usize) -> bool {
    |a: usize, b: usize| lex_le(full_key(keys, a), full_key(keys, b))
}

/// The views of a table of key rows.
pub open spec fn key_rows(keys: Seq<Vec<i128>>) -> Seq<Seq<i128>> {
    keys.map_values(|k: Vec<i128>| k@)
}

pub proof fn lemma_lex_refl(a: Seq<i128>)
    ensures
        lex_le(a, a),
    decreases a.len(),
{
    if a.len() > 0 {
        lemma_lex_refl(a.drop_first());
    }
}

pub proof fn lemma_lex_antisym(a: Seq<i128>, b: Seq<i128>)
    requires
        lex_le(a, b),
        lex_le(b, a),
    ensures
        a =~= b,
    decreases a.len(),
{
    if a.len() > 0 && b.len() > 0 {
        lemma_lex_antisym(a.drop_first(), b.drop_first());
        assert(a =~= seq![a[0]] + a.drop_first());
        assert(b =~= seq![b[0]] + b.drop_first());
    }
}

pub proof fn lemma_lex_trans(a: Seq<i128>, b: Seq<i128>, c: Seq<i128>)
    requires
        lex_le(a, b),
        lex_le(b, c),
    ensures
        lex_le(a, c),
    decreases a.len(),
{
    if a.len() > 0 && b.len() > 0 && c.len() > 0 {
        if a[0] == b[0] && b[0] == c[0] {
            lemma_lex_trans(a.drop_first(), b.drop_first(), c.drop_first());
        }
    }
}

pub proof fn lemma_lex_total(a: Seq<i128>, b: Seq<i128>)
    ensures
        lex_le(a, b) || lex_le(b, a),
    decreases a.len(),
{
    if a.len() > 0 && b.len() > 0 && a[0] == b[0] {
        lemma_lex_total(a.drop_first(), b.drop_first());
    }
}

/// Law: the index order is a total order, so the sorted result is unique.
pub proof fn lemma_index_order_total(keys: Seq<Seq<i128>>)
    ensures
        total_ordering(index_order(keys)),
{
    let leq = index_order(keys);
    assert forall|x: usize| #[trigger] leq(x, x) by {
        lemma_lex_refl(full_key(keys, x));
    }
    assert forall|x: usize, y: usize| #[trigger] leq(x, y) && #[trigger] leq(y, x) implies x == y by {
        lemma_lex_antisym(full_key(keys, x), full_key(keys, y));
        assert(full_key(keys, x).last() == x as i128);
        assert(full_key(keys, y).last() == y as i128);
    }
    assert forall|x: usize, y: usize, z: usize| #[trigger] leq(x, y) && #[trigger] leq(y, z) implies leq(
        x,
        z,
    ) by {
        lemma_lex_trans(full_key(keys, x), full_key(keys, y), full_key(keys, z));
    }
    assert forall|x: usize, y: usize| #[trigger] leq(x, y) || #[trigger] leq(y, x) by {
        lemma_lex_total(full_key(keys, x), full_key(keys, y));
    }
}

/// Law: two orderings of the same indices that are both sorted are equal.
pub proof fn lemma_sorted_indices_unique(x: Seq<usize>, y: Seq<usize>, keys: Seq<Seq<i128>>)
    requires
        sorted_by(x, index_order(keys)),
        sorted_by(y, index_order(keys)),
        x.to_multiset() == y.to_multiset(),
    ensures
        x == y,
{
    lemma_index_order_total(keys);
    vstd::seq_lib::lemma_sorted_unique(x, y, index_order(keys));
}

/// Compares two full keys (`keys[a] ++ [a]` against `keys[b] ++ [b]`).
fn key_le(keys: &Vec<Vec<i128>>, a: usize, b: usize) -> (r: bool)
    ensures
        r == index_order(key_rows(keys@))(a, b),
{
    let ghost rows = key_rows(keys@);
    let ka: Vec<i128> = if a < keys.len() {
        let mut k = keys[a].clone();
        k.push(a as i128);
        k
    } else {
        vec![a as i128]
    };
    let kb: Vec<i128> = if b < keys.len() {
        let mut k = keys[b].clone();
        k.push(b as i128);
        k
    } else {
        vec![b as i128]
    };
    assert(ka@ =~= full_key(rows, a));
    assert(kb@ =~= full_key(rows, b));
    lex_le_rows(&ka, &kb)
}

/// Whether `a` comes before `b` or equals it, lexicographically.
pub fn lex_le_rows(a: &Vec<i128>, b: &Vec<i128>) -> (r: bool)
    ensures
        r == lex_le(a@, b@),
{
    let mut i: usize = 0;
    assert(a@.skip(0) =~= a@);
    assert(b@.skip(0) =~= b@);
    while i < a.len() && i < b.len() && a[i] == b[i]
        invariant
            i <= a.len(),
            i <= b.len(),
            lex_le(a@.skip(i as int), b@.skip(i as int)) == lex_le(a@, b@),
        decreases a.len() - i,
    {
        assert(a@.skip(i as int).drop_first() =~= a@.skip(i + 1));
        assert(b@.skip(i as int).drop_first() =~= b@.skip(i + 1));
        i = i + 1;
    }
    if i == a.len() {
        true
    } else if i == b.len() {
        false
    } else {
        a[i] < b[i]
    }
}

proof fn lemma_sorted_push(s: Seq<usize>, x: usize, leq: spec_fn(usize, usize) -> bool)
    requires
        sorted_by(s, leq),
        forall|i: int| 0 <= i < s.len() ==> #[trigger] leq(s[i], x),
    ensures
        sorted_by(s.push(x), leq),
{
    assert forall|i: int, j: int| 0 <= i < j < s.push(x).len() implies #[trigger] leq(
        s.push(x)[i],
        s.push(x)[j],
    ) by {
        if j == s.len() {
            assert(s.push(x)[j] == x);
            assert(s.push(x)[i] == s[i]);
        } else {
            assert(s.push(x)[j] == s[j]);
            assert(s.push(x)[i] == s[i]);
        }
    }
}

/// Merges two sorted index lists.
fn merge(a: Vec<usize>, b: Vec<usize>, keys: &Vec<Vec<i128>>) -> (r: Vec<usize>)
    requires
        sorted_by(a@, index_order(key_rows(keys@))),
        sorted_by(b@, index_order(key_rows(keys@))),
    ensures
        sorted_by(r@, index_order(key_rows(keys@))),
        r@.to_multiset() == a@.to_multiset().add(b@.to_multiset()),
{
    let ghost leq = index_order(key_rows(keys@));
    proof {
        lemma_index_order_total(key_rows(keys@));
    }
    let mut out: Vec<usize> = Vec::new();
    let mut i: usize = 0;
    let mut j: usize = 0;
    proof {
        assert(a@.skip(0) =~= a@);
        assert(b@.skip(0) =~= b@);
        assert(out@.to_multiset() =~= Multiset::empty());
        assert(out@.to_multiset().add(a@.to_multiset()) =~= a@.to_multiset());
    }
    while i < a.len() || j < b.len()
        invariant
            i <= a.len(),
            j <= b.len(),
            total_ordering(leq),
            leq == index_order(key_rows(keys@)),
            sorted_by(a@, leq),
            sorted_by(b@, leq),
            sorted_by(out@, leq),
            out@.to_multiset().add(a@.skip(i as int).to_multiset()).add(
                b@.skip(j as int).to_multiset(),
            ) == a@.to_multiset().add(b@.to_multiset()),
            forall|k: int, m: int|
                0 <= k < out@.len() && i <= m < a@.len() ==> #[trigger] leq(out@[k], a@[m]),
            forall|k: int, m: int|
                0 <= k < out@.len() && j <= m < b@.len() ==> #[trigger] leq(out@[k], b@[m]),
        decreases a.len() + b.len() - i - j,
    {
        let take_a = if i == a.len() {
            false
        } else if j == b.len() {
            true
        } else {
            key_le(keys, a[i], b[j])
        };
        let ghost old_out = out@;
        if take_a {
            let x = a[i];
            proof {
                assert forall|k: int| 0 <= k < out@.len() implies #[trigger] leq(out@[k], x) by {
                    assert(leq(out@[k], a@[i as int]));
                }
                lemma_sorted_push(out@, x, leq);
                assert(a@.skip(i as int) =~= seq![x] + a@.skip(i + 1));
                vstd::seq_lib::lemma_multiset_commutative(seq![x], a@.skip(i + 1));
                assert(seq![x].to_multiset() =~= Multiset::empty().insert(x)) by {
                    assert(seq![x] =~= Seq::<usize>::empty().push(x));
                }
            }
            out.push(x);
            i = i + 1;
            proof {
                assert forall|k: int, m: int|
                    0 <= k < out@.len() && i <= m < a@.len() implies #[trigger] leq(
                    out@[k],
                    a@[m],
                ) by {
                    if k < old_out.len() {
                        assert(out@[k] == old_out[k]);
                    } else {
                        assert(leq(a@[i - 1], a@[m]));
                    }
                }
                assert forall|k: int, m: int|
                    0 <= k < out@.len() && j <= m < b@.len() implies #[trigger] leq(
                    out@[k],
                    b@[m],
                ) by {
                    if k < old_out.len() {
                        assert(out@[k] == old_out[k]);
                    } else {
                        assert(leq(x, b@[j as int]));
                        if m > j {
                            assert(leq(b@[j as int], b@[m]));
                        }
                    }
                }
            }
        } else {
            let x = b[j];
            proof {
                assert(i < a.len() ==> leq(x, a@[i as int]));
                assert forall|k: int| 0 <= k < out@.len() implies #[trigger] leq(out@[k], x) by {
                    assert(leq(out@[k], b@[j as int]));
                }
                lemma_sorted_push(out@, x, leq);
                assert(b@.skip(j as int) =~= seq![x] + b@.skip(j + 1));
                vstd::seq_lib::lemma_multiset_commutative(seq![x], b@.skip(j + 1));
                assert(seq![x].to_multiset() =~= Multiset::empty().insert(x)) by {
                    assert(seq![x] =~= Seq::<usize>::empty().push(x));
                }
            }
            out.push(x);
            j = j + 1;
            proof {
                assert forall|k: int, m: int|
                    0 <= k < out@.len() && j <= m < b@.len() implies #[trigger] leq(
                    out@[k],
                    b@[m],
                ) by {
                    if k < old_out.len() {
                        assert(out@[k] == old_out[k]);
                    } else {
                        assert(leq(b@[j - 1], b@[m]));
                    }
                }
                assert forall|k: int, m: int|
                    0 <= k < out@.len() && i <= m < a@.len() implies #[trigger] leq(
                    out@[k],
                    a@[m],
                ) by {
                    if k < old_out.len() {
                        assert(out@[k] == old_out[k]);
                    } else {
                        assert(leq(x, a@[i as int]));
                        if m > i {
                            assert(leq(a@[i as int], a@[m]));
                        }
                    }
                }
            }
        }
    }
    proof {
        assert(a@.skip(i as int) =~= Seq::<usize>::empty());
        assert(b@.skip(j as int) =~= Seq::<usize>::empty());
    }
    out
}

/// Sorts `v` by `index_order(keys)`.
fn merge_sort(v: Vec<usize>, keys: &Vec<Vec<i128>>) -> (r: Vec<usize>)
    ensures
        sorted_by(r@, index_order(key_rows(keys@))),
        r@.to_multiset() == v@.to_multiset(),
    decreases v.len(),
{
    if v.len() <= 1 {
        proof {
            assert forall|i: int, j: int| 0 <= i < j < v@.len() implies #[trigger] index_order(
                key_rows(keys@),
            )(v@[i], v@[j]) by {}
        }
        return v;
    }
    let mut left = v;
    let mid = left.len() / 2;
    let right = left.split_off(mid);
    let ghost l = left@;
    let ghost r = right@;
    proof {
        assert(v@ =~= l + r);
        vstd::seq_lib::lemma_multiset_commutative(l, r);
    }
    let ls = merge_sort(left, keys);
    let rs = merge_sort(right, keys);
    merge(ls, rs, keys)
}

/// The indices `v` ordered by `index_order(keys)`: each index's row of
/// `keys` compared lexicographically, ties broken by the index itself.
pub fn sort_indices(v: Vec<usize>, keys: &Vec<Vec<i128>>) -> (r: Vec<usize>)
    ensures
        sorted_by(r@, index_order(key_rows(keys@))),
        r@.to_multiset() == v@.to_multiset(),
        r@.len() == v@.len(),
{
    let r = merge_sort(v, keys);
    assert(r@.len() == r@.to_multiset().len());
    assert(v@.len() == v@.to_multiset().len());
    r
}

} // verus!
