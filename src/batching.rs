use itertools::Itertools;
use vstd::multiset::Multiset;
use vstd::prelude::*;
use vstd::seq_lib::lemma_multiset_commutative;

verus! {

broadcast use vstd::seq_lib::group_seq_properties;

/// The concatenation, in order, of a sequence of sequences.
pub open spec fn flatten<T>(bs: Seq<Seq<T>>) -> Seq<T>
    decreases bs.len(),
{
    if bs.len() == 0 {
        Seq::empty()
    } else {
        flatten(bs.drop_last()) + bs.last()
    }
}

/// `bs` cuts `s` into consecutive windows: each holds between 1 and `m`
/// items, every window but the last holds exactly `m`, and in order they
/// give back `s`.
pub open spec fn is_batching<T>(bs: Seq<Seq<T>>, s: Seq<T>, m: nat) -> bool {
    &&& flatten(bs) == s
    &&& forall|i: int| 0 <= i < bs.len() ==> 0 < #[trigger] bs[i].len() <= m
    &&& forall|i: int| 0 <= i < bs.len() - 1 ==> #[trigger] bs[i].len() == m
}

/// The number of windows of at most `m` items that `len` items fill.
pub open spec fn batch_count(len: nat, m: nat) -> nat
    recommends
        m > 0,
{
    ((len + m - 1) as int / m as int) as nat
}

/// The keys of all items of all windows, counted with their multiplicity.
pub open spec fn keys_of<T, K>(bs: Seq<Seq<T>>, key: spec_fn(T) -> K) -> Multiset<K>
    decreases bs.len(),
{
    if bs.len() == 0 {
        Multiset::empty()
    } else {
        keys_of(bs.drop_last(), key).add(bs.last().map_values(key).to_multiset())
    }
}

pub proof fn lemma_flatten_push<T>(bs: Seq<Seq<T>>, b: Seq<T>)
    ensures
        flatten(bs.push(b)) == flatten(bs) + b,
{
    assert(bs.push(b).drop_last() =~= bs);
}

proof fn lemma_flatten_full_len<T>(bs: Seq<Seq<T>>, m: nat)
    requires
        forall|i: int| 0 <= i < bs.len() ==> #[trigger] bs[i].len() == m,
    ensures
        flatten(bs).len() == bs.len() * m,
    decreases bs.len(),
{
    if bs.len() > 0 {
        let d = bs.drop_last();
        assert forall|i: int| 0 <= i < d.len() implies #[trigger] d[i].len() == m by {
            assert(d[i] == bs[i]);
        }
        lemma_flatten_full_len(d, m);
        assert(flatten(bs).len() == d.len() * m + m);
        assert(d.len() * m + m == (d.len() + 1) * m) by (nonlinear_arith);
    }
}

/// A batching of `L` items into windows of `m` has `ceil(L / m)` windows
/// (none when `L` is zero), each full but possibly the last, and together
/// they give back the input in order.
pub proof fn lemma_batching_complete<T>(bs: Seq<Seq<T>>, s: Seq<T>, m: nat)
    requires
        m > 0,
        is_batching(bs, s, m),
    ensures
        bs.len() == batch_count(s.len(), m),
        s.len() == 0 <==> bs.len() == 0,
        flatten(bs) == s,
        forall|i: int| 0 <= i < bs.len() - 1 ==> #[trigger] bs[i].len() == m,
{
    let k = bs.len();
    if k == 0 {
        assert(s.len() == 0);
        assert(batch_count(0, m) == 0) by {
            lemma_div_small(m - 1, m as int);
        }
    } else {
        let d = bs.drop_last();
        assert forall|i: int| 0 <= i < d.len() implies #[trigger] d[i].len() == m by {
            assert(d[i] == bs[i]);
        }
        lemma_flatten_full_len(d, m);
        let last = bs.last().len();
        assert(0 < last <= m) by {
            assert(bs[k - 1].len() > 0);
        }
        assert(s.len() == (k - 1) * m + last);
        assert(s.len() + m - 1 == k * m + (last - 1)) by (nonlinear_arith)
            requires
                s.len() == (k - 1) * m + last,
        ;
        vstd::arithmetic::div_mod::lemma_fundamental_div_mod_converse(
            s.len() + m - 1,
            m as int,
            k as int,
            last - 1,
        );
    }
}

proof fn lemma_div_small(x: int, m: int)
    requires
        0 <= x < m,
    ensures
        x / m == 0,
{
    vstd::arithmetic::div_mod::lemma_fundamental_div_mod_converse(x, m, 0, x);
}

/// Batching neither loses nor duplicates an item: the keys across all
/// windows are, with their multiplicity, exactly the keys of the input.
pub proof fn lemma_batching_keeps_keys<T, K>(bs: Seq<Seq<T>>, s: Seq<T>, m: nat, key: spec_fn(T) -> K)
    requires
        is_batching(bs, s, m),
    ensures
        keys_of(bs, key) == s.map_values(key).to_multiset(),
{
    lemma_keys_of_flatten(bs, key);
}

proof fn lemma_keys_of_flatten<T, K>(bs: Seq<Seq<T>>, key: spec_fn(T) -> K)
    ensures
        keys_of(bs, key) == flatten(bs).map_values(key).to_multiset(),
    decreases bs.len(),
{
    if bs.len() == 0 {
        assert(flatten(bs).map_values(key) =~= Seq::<K>::empty());
        vstd::multiset::lemma_multiset_empty_len(keys_of(bs, key));
        assert(Seq::<K>::empty().to_multiset() =~= Multiset::empty());
    } else {
        let d = bs.drop_last();
        lemma_keys_of_flatten(d, key);
        let a = flatten(d).map_values(key);
        let b = bs.last().map_values(key);
        assert(flatten(bs).map_values(key) =~= a + b);
        lemma_multiset_commutative(a, b);
    }
}

/// Relies on itertools' `Itertools::chunks`: consecutive chunks of `size`
/// items in input order, the last one shorter if items run out; panics on a
/// size of zero.
#[verifier::external_body]
pub(crate) fn chunk_vec<T>(v: Vec<T>, size: usize) -> (r: Vec<Vec<T>>)
    requires
        size > 0,
    ensures
        is_batching(r@.map_values(|c: Vec<T>| c@), v@, size as nat),
{
    v.into_iter().chunks(size).into_iter().map(|c| c.collect()).collect()
}

pub proof fn lemma_flatten_append<T>(a: Seq<Seq<T>>, b: Seq<Seq<T>>)
    ensures
        flatten(a + b) == flatten(a) + flatten(b),
    decreases b.len(),
{
    if b.len() == 0 {
        assert(a + b =~= a);
        assert(flatten(a) + flatten(b) =~= flatten(a));
    } else {
        lemma_flatten_append(a, b.drop_last());
        assert((a + b).drop_last() =~= a + b.drop_last());
        assert(flatten(a + b) =~= flatten(a) + flatten(b));
    }
}

/// Folding outcomes by concatenation does not depend on the order in which
/// they come in: any reordering of the same outcomes gathers the same
/// items, with their multiplicity.
pub proof fn lemma_fold_order_independent<T>(s: Seq<Seq<T>>, t: Seq<Seq<T>>)
    requires
        s.to_multiset() == t.to_multiset(),
    ensures
        flatten(s).to_multiset() == flatten(t).to_multiset(),
    decreases s.len(),
{
    broadcast use vstd::seq_lib::group_to_multiset_ensures;
    broadcast use vstd::multiset::group_multiset_axioms;

    if s.len() == 0 {
        assert(s.to_multiset().len() == s.len());
        assert(t.to_multiset().len() == t.len());
        assert(t.len() == 0);
        assert(s =~= t);
    } else {
        let x = s.last();
        let d = s.drop_last();
        assert(d.push(x) =~= s);
        assert(s.to_multiset().count(x) > 0);
        assert(t.contains(x));
        let j = choose|j: int| 0 <= j < t.len() && t[j] == x;
        let u = t.remove(j);
        assert(d.to_multiset() =~= s.to_multiset().remove(x));
        assert(u.to_multiset() =~= t.to_multiset().remove(x));
        lemma_fold_order_independent(d, u);
        let l = t.take(j);
        let r = t.skip(j + 1);
        assert(u =~= l + r);
        assert(t =~= (l + seq![x]) + r);
        lemma_flatten_append(l + seq![x], r);
        lemma_flatten_append(l, seq![x]);
        lemma_flatten_append(l, r);
        lemma_flatten_push(Seq::<Seq<T>>::empty(), x);
        assert(seq![x] =~= Seq::<Seq<T>>::empty().push(x));
        assert(flatten(Seq::<Seq<T>>::empty()) + x =~= x);
        lemma_multiset_commutative(flatten(l) + x, flatten(r));
        lemma_multiset_commutative(flatten(l), x);
        lemma_multiset_commutative(flatten(l), flatten(r));
        lemma_multiset_commutative(flatten(d), x);
        assert(flatten(s) == flatten(d) + x);
    }
}

/// When no outcome holds an item, the fold gathers nothing.
pub proof fn lemma_fold_all_empty<T>(s: Seq<Seq<T>>)
    requires
        forall|i: int| 0 <= i < s.len() ==> #[trigger] s[i].len() == 0,
    ensures
        flatten(s) == Seq::<T>::empty(),
    decreases s.len(),
{
    if s.len() > 0 {
        let d = s.drop_last();
        assert forall|i: int| 0 <= i < d.len() implies #[trigger] d[i].len() == 0 by {
            assert(d[i] == s[i]);
        }
        lemma_fold_all_empty(d);
        assert(s[s.len() - 1].len() == 0);
        assert(flatten(s) =~= Seq::<T>::empty());
    }
}

} // verus!
