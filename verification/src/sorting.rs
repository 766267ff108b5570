//! Stable sorting by lexicographic keys.
//!
//! Items are ordered by a key that is a sequence of `u32` values compared
//! lexicographically; items with equal keys keep their original order.

use vstd::prelude::*;

verus! {

/// Strict lexicographic order on key sequences (a proper prefix is smaller).
pub open spec fn lex_lt(a: Seq<u32>, b: Seq<u32>) -> bool
    decreases a.len(),
{
    if a.len() == 0 {
        b.len() > 0
    } else if b.len() == 0 {
        false
    } else if a[0] < b[0] {
        true
    } else if a[0] > b[0] {
        false
    } else {
        lex_lt(a.drop_first(), b.drop_first())
    }
}

/// Non-strict lexicographic order.
pub open spec fn lex_le(a: Seq<u32>, b: Seq<u32>) -> bool {
    !lex_lt(b, a)
}

pub proof fn lemma_lex_irreflexive(a: Seq<u32>)
    ensures
        !lex_lt(a, a),
    decreases a.len(),
{
    if a.len() > 0 {
        lemma_lex_irreflexive(a.drop_first());
    }
}

pub proof fn lemma_lex_total(a: Seq<u32>, b: Seq<u32>)
    ensures
        a == b || lex_lt(a, b) || lex_lt(b, a),
    decreases a.len(),
{
    if a.len() > 0 && b.len() > 0 && a[0] == b[0] {
        lemma_lex_total(a.drop_first(), b.drop_first());
        if a.drop_first() == b.drop_first() {
            assert(a =~= seq![a[0]] + a.drop_first());
            assert(b =~= seq![b[0]] + b.drop_first());
        }
    } else if a.len() == 0 && b.len() == 0 {
        assert(a =~= b);
    }
}

pub proof fn lemma_lex_transitive(a: Seq<u32>, b: Seq<u32>, c: Seq<u32>)
    requires
        lex_lt(a, b),
        lex_lt(b, c),
    ensures
        lex_lt(a, c),
    decreases a.len(),
{
    if a.len() > 0 && b.len() > 0 && c.len() > 0 && a[0] == b[0] && b[0] == c[0] {
        lemma_lex_transitive(a.drop_first(), b.drop_first(), c.drop_first());
    }
}

pub proof fn lemma_lex_asymmetric(a: Seq<u32>, b: Seq<u32>)
    requires
        lex_lt(a, b),
    ensures
        !lex_lt(b, a),
{
    if lex_lt(b, a) {
        lemma_lex_transitive(a, b, a);
        lemma_lex_irreflexive(a);
    }
}

pub proof fn lemma_lex_le_transitive(a: Seq<u32>, b: Seq<u32>, c: Seq<u32>)
    requires
        lex_le(a, b),
        lex_le(b, c),
    ensures
        lex_le(a, c),
{
    if lex_lt(c, a) {
        lemma_lex_total(a, b);
        lemma_lex_total(b, c);
        if a == b {
        } else if b == c {
        } else {
            lemma_lex_transitive(a, b, c);
            lemma_lex_asymmetric(a, c);
        }
    }
}

/// Exec comparison of two keys.
pub fn lex_less(a: &Vec<u32>, b: &Vec<u32>) -> (r: bool)
    ensures
        r == lex_lt(a@, b@),
{
    let mut i: usize = 0;
    assert(a@.skip(0) =~= a@);
    assert(b@.skip(0) =~= b@);
    while i < a.len() && i < b.len()
        invariant
            i <= a.len(),
            i <= b.len(),
            lex_lt(a@, b@) == lex_lt(a@.skip(i as int), b@.skip(i as int)),
        decreases a.len() - i,
    {
        if a[i] < b[i] {
            return true;
        }
        if a[i] > b[i] {
            return false;
        }
        assert(a@.skip(i as int).drop_first() =~= a@.skip(i + 1));
        assert(b@.skip(i as int).drop_first() =~= b@.skip(i + 1));
        i = i + 1;
    }
    i < b.len()
}

/// `p` lists every index of `0..n` exactly once.
pub open spec fn is_index_permutation(p: Seq<int>, n: nat) -> bool {
    &&& p.len() == n
    &&& forall|i: int| 0 <= i < n ==> 0 <= #[trigger] p[i] < n
    &&& forall|i: int, j: int| 0 <= i < j < n ==> p[i] != p[j]
}

/// Taking indices in the order `p` visits `keys` in non-decreasing order,
/// and indices with equal keys keep their relative order.
pub open spec fn is_stable_order(p: Seq<int>, keys: Seq<Seq<u32>>) -> bool {
    forall|i: int, j: int|
        #![trigger p[i], p[j]]
        0 <= i < j < p.len() ==> lex_le(keys[p[i]], keys[p[j]]) && (keys[p[i]] == keys[p[j]]
            ==> p[i] < p[j])
}

/// `res` is `orig` stably sorted by `keys` (`keys[i]` is the key of `orig[i]`).
pub open spec fn is_stable_sort_of<T>(res: Seq<T>, orig: Seq<T>, keys: Seq<Seq<u32>>) -> bool {
    exists|p: Seq<int>|
        #![trigger is_index_permutation(p, orig.len())]
        is_index_permutation(p, orig.len()) && is_stable_order(p, keys) && res.len() == orig.len()
            && forall|i: int| 0 <= i < res.len() ==> #[trigger] res[i] == orig[p[i]]
}

/// Mapping every element keeps a stable sort a stable sort.
pub proof fn lemma_stable_sort_map<T, U>(res: Seq<T>, orig: Seq<T>, keys: Seq<Seq<u32>>, f: spec_fn(T) -> U)
    requires
        is_stable_sort_of(res, orig, keys),
    ensures
        is_stable_sort_of(res.map_values(f), orig.map_values(f), keys),
{
    let p = choose|p: Seq<int>|
        #![trigger is_index_permutation(p, orig.len())]
        is_index_permutation(p, orig.len()) && is_stable_order(p, keys) && res.len() == orig.len()
            && forall|i: int| 0 <= i < res.len() ==> #[trigger] res[i] == orig[p[i]];
    assert(is_index_permutation(p, orig.map_values(f).len()));
    assert forall|i: int| 0 <= i < res.map_values(f).len() implies #[trigger] res.map_values(f)[i]
        == orig.map_values(f)[p[i]] by {
        assert(res[i] == orig[p[i]]);
    }
}

/// Computes the stable sorting order of `keys` by insertion.
fn stable_order(keys: &Vec<Vec<u32>>) -> (order: Vec<usize>)
    ensures
        is_index_permutation(order@.map_values(|k: usize| k as int), keys@.len()),
        is_stable_order(order@.map_values(|k: usize| k as int), keys@.map_values(|k: Vec<u32>| k@)),
{
    let ghost kv = keys@.map_values(|k: Vec<u32>| k@);
    let n = keys.len();
    let mut order: Vec<usize> = Vec::new();
    for i in 0..n
        invariant
            n == keys@.len(),
            kv == keys@.map_values(|k: Vec<u32>| k@),
            order@.len() == i,
            forall|a: int| 0 <= a < i ==> #[trigger] order@[a] < i,
            forall|a: int, b: int| 0 <= a < b < i ==> order@[a] != order@[b],
            is_stable_order(order@.map_values(|k: usize| k as int), kv),
    {
        let mut j = order.len();
        loop
            invariant
                n == keys@.len(),
                kv == keys@.map_values(|k: Vec<u32>| k@),
                i < n,
                order@.len() == i,
                j <= i,
                forall|a: int| 0 <= a < i ==> #[trigger] order@[a] < i,
                forall|a: int| j <= a < i ==> lex_lt(kv[i as int], #[trigger] kv[order@[a] as int]),
            ensures
                j <= i,
                j == 0 || lex_le(kv[order@[j - 1] as int], kv[i as int]),
                forall|a: int| j <= a < i ==> lex_lt(kv[i as int], #[trigger] kv[order@[a] as int]),
            decreases j,
        {
            if j == 0 {
                break;
            }
            if !lex_less(&keys[i], &keys[order[j - 1]]) {
                break;
            }
            j = j - 1;
        }
        let ghost old_order = order@;
        order.insert(j, i);
        proof {
            let op = old_order.map_values(|k: usize| k as int);
            let np = order@.map_values(|k: usize| k as int);
            assert forall|a: int, b: int|
                #![trigger np[a], np[b]]
                0 <= a < b < np.len() implies lex_le(kv[np[a]], kv[np[b]]) && (kv[np[a]]
                    == kv[np[b]] ==> np[a] < np[b]) by {
                if b < j {
                    assert(np[a] == op[a] && np[b] == op[b]);
                } else if b == j {
                    assert(np[a] == op[a]);
                    assert(op[j - 1] == old_order[j - 1] as int);
                    if a < j - 1 {
                        assert(lex_le(kv[op[a]], kv[op[j - 1]]));
                        lemma_lex_le_transitive(kv[op[a]], kv[op[j - 1]], kv[i as int]);
                    }
                } else if a == j {
                    assert(np[b] == op[b - 1]);
                    assert(lex_lt(kv[i as int], kv[old_order[b - 1] as int]));
                    lemma_lex_asymmetric(kv[i as int], kv[old_order[b - 1] as int]);
                    lemma_lex_irreflexive(kv[i as int]);
                } else if a < j {
                    assert(np[a] == op[a] && np[b] == op[b - 1]);
                } else {
                    assert(np[a] == op[a - 1] && np[b] == op[b - 1]);
                }
            }
        }
    }
    order
}

/// Sorts `items` stably by `keys`, where `keys[i]` is the key of `items[i]`.
pub fn stable_sort_by_keys<T>(items: Vec<T>, keys: &Vec<Vec<u32>>) -> (res: Vec<T>)
    requires
        keys@.len() == items@.len(),
    ensures
        is_stable_sort_of(res@, items@, keys@.map_values(|k: Vec<u32>| k@)),
{
    let order = stable_order(keys);
    let ghost p = order@.map_values(|k: usize| k as int);
    let ghost orig = items@;
    let n = items.len();
    let mut slots: Vec<Option<T>> = Vec::new();
    for x in it: items.into_iter()
        invariant
            slots@.len() == it.index(),
            forall|a: int| 0 <= a < it.index() ==> #[trigger] slots@[a] == Some(it.seq()[a]),
    {
        slots.push(Some(x));
    }
    assert(slots@.len() == n);
    let mut res: Vec<T> = Vec::new();
    for k in 0..n
        invariant
            n == orig.len(),
            slots@.len() == n,
            res@.len() == k,
            is_index_permutation(p, n as nat),
            p == order@.map_values(|k: usize| k as int),
            order@.len() == n,
            forall|a: int| 0 <= a < k ==> #[trigger] res@[a] == orig[p[a]],
            forall|b: int| k <= b < n ==> #[trigger] slots@[p[b]] == Some(orig[p[b]]),
    {
        let idx = order[k];
        assert(p[k as int] == idx as int);
        let mut taken: Option<T> = None;
        slots.set_and_swap(idx, &mut taken);
        assert(taken == Some(orig[p[k as int]]));
        match taken {
            Some(x) => {
                res.push(x);
            },
            None => {},
        }
        assert forall|b: int| k + 1 <= b < n implies #[trigger] slots@[p[b]] == Some(orig[p[b]]) by {
            assert(p[b] != p[k as int]);
        }
    }
    assert(res@.len() == orig.len());
    res
}

} // verus!
