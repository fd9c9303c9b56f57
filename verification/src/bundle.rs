//! Asset bundles: their snapshots listed in the order of their ids, and the total of their
//! task counts.
use vstd::prelude::*;

verus! {

/// `a` comes before `b` when compared character by character, a proper prefix first: the
/// order in which `String`s compare.
pub open spec fn text_lt(a: Seq<char>, b: Seq<char>) -> bool
    decreases a.len(),
{
    if b.len() == 0 {
        false
    } else if a.len() == 0 {
        true
    } else if a[0] != b[0] {
        a[0] < b[0]
    } else {
        text_lt(a.drop_first(), b.drop_first())
    }
}

pub proof fn lemma_text_lt_irreflexive(a: Seq<char>)
    ensures
        !text_lt(a, a),
    decreases a.len(),
{
    if a.len() > 0 {
        lemma_text_lt_irreflexive(a.drop_first());
    }
}

pub proof fn lemma_text_lt_transitive(a: Seq<char>, b: Seq<char>, c: Seq<char>)
    requires
        text_lt(a, b),
        text_lt(b, c),
    ensures
        text_lt(a, c),
    decreases a.len(),
{
    if a.len() > 0 && a[0] == b[0] && b[0] == c[0] {
        lemma_text_lt_transitive(a.drop_first(), b.drop_first(), c.drop_first());
    }
}

pub proof fn lemma_text_lt_total(a: Seq<char>, b: Seq<char>)
    ensures
        a == b || text_lt(a, b) || text_lt(b, a),
    decreases a.len(),
{
    if a.len() > 0 && b.len() > 0 && a[0] == b[0] {
        lemma_text_lt_total(a.drop_first(), b.drop_first());
        if a.drop_first() == b.drop_first() {
            assert(a =~= seq![a[0]] + a.drop_first());
            assert(b =~= seq![b[0]] + b.drop_first());
        }
    } else if a.len() == 0 && b.len() == 0 {
        assert(a =~= b);
    } else if a.len() > 0 && b.len() > 0 {
        assert(a[0] < b[0] || b[0] < a[0]);
    }
}

pub proof fn lemma_text_lt_asymmetric(a: Seq<char>, b: Seq<char>)
    requires
        text_lt(a, b),
    ensures
        !text_lt(b, a),
{
    if text_lt(b, a) {
        lemma_text_lt_transitive(a, b, a);
        lemma_text_lt_irreflexive(a);
    }
}

/// Whether `a` comes before `b` (see `text_lt`).
pub fn text_less(a: &str, b: &str) -> (r: bool)
    ensures
        r == text_lt(a@, b@),
{
    let a_len = a.unicode_len();
    let b_len = b.unicode_len();
    let mut i: usize = 0;
    proof {
        assert(a@.skip(0) =~= a@);
        assert(b@.skip(0) =~= b@);
    }
    while i < a_len && i < b_len
        invariant
            a_len == a@.len(),
            b_len == b@.len(),
            i <= a_len,
            i <= b_len,
            text_lt(a@, b@) == text_lt(a@.skip(i as int), b@.skip(i as int)),
        decreases a_len - i,
    {
        let ca = a.get_char(i);
        let cb = b.get_char(i);
        proof {
            assert(a@.skip(i as int)[0] == ca);
            assert(b@.skip(i as int)[0] == cb);
            assert(a@.skip(i as int).drop_first() =~= a@.skip(i + 1));
            assert(b@.skip(i as int).drop_first() =~= b@.skip(i + 1));
        }
        if ca != cb {
            return ca < cb;
        }
        i = i + 1;
    }
    i < b_len
}

/// Where the index `k` goes among the indices `order`: after the last one whose key does
/// not come after `keys[k]`.
pub open spec fn text_insert_pos(order: Seq<usize>, keys: Seq<Seq<char>>, k: usize) -> int
    decreases order.len(),
{
    if order.len() == 0 || !text_lt(keys[k as int], keys[order.last() as int]) {
        order.len() as int
    } else {
        text_insert_pos(order.drop_last(), keys, k)
    }
}

/// The indices below `n` of `keys`, ordered by key; equal keys keep their index order.
pub open spec fn text_order(keys: Seq<Seq<char>>, n: nat) -> Seq<usize>
    decreases n,
{
    if n == 0 {
        Seq::empty()
    } else {
        let r = text_order(keys, (n - 1) as nat);
        r.insert(text_insert_pos(r, keys, (n - 1) as usize), (n - 1) as usize)
    }
}

/// No index of `order` has a key that comes before the key of an index listed earlier.
pub open spec fn ordered_by_text(order: Seq<usize>, keys: Seq<Seq<char>>) -> bool {
    forall|i: int, j: int|
        0 <= i < j < order.len() ==> !text_lt(keys[#[trigger] order[j] as int], keys[#[trigger] order[i] as int])
}

/// The indices below `n`, in increasing order.
pub open spec fn indices(n: nat) -> Seq<usize> {
    Seq::new(n, |i: int| i as usize)
}

proof fn lemma_text_insert_pos_bounds(order: Seq<usize>, keys: Seq<Seq<char>>, k: usize)
    ensures
        0 <= text_insert_pos(order, keys, k) <= order.len(),
        forall|j: int|
            text_insert_pos(order, keys, k) <= j < order.len() ==> text_lt(
                keys[k as int],
                keys[#[trigger] order[j] as int],
            ),
        text_insert_pos(order, keys, k) > 0 ==> !text_lt(
            keys[k as int],
            keys[order[text_insert_pos(order, keys, k) - 1] as int],
        ),
    decreases order.len(),
{
    if order.len() == 0 || !text_lt(keys[k as int], keys[order.last() as int]) {
    } else {
        lemma_text_insert_pos_bounds(order.drop_last(), keys, k);
        assert forall|j: int| text_insert_pos(order, keys, k) <= j < order.len() implies text_lt(
            keys[k as int],
            keys[#[trigger] order[j] as int],
        ) by {
            if j < order.len() - 1 {
                assert(order[j] == order.drop_last()[j]);
            }
        }
    }
}

/// The ordered indices are the indices below `n`, each once, ordered by key.
pub proof fn lemma_text_order(keys: Seq<Seq<char>>, n: nat)
    requires
        n <= usize::MAX + 1,
    ensures
        ordered_by_text(text_order(keys, n), keys),
        text_order(keys, n).to_multiset() == indices(n).to_multiset(),
        text_order(keys, n).len() == n,
    decreases n,
{
    if n > 0 {
        let r = text_order(keys, (n - 1) as nat);
        let k = (n - 1) as usize;
        lemma_text_order(keys, (n - 1) as nat);
        lemma_text_insert_pos_bounds(r, keys, k);
        let p = text_insert_pos(r, keys, k);
        let out = r.insert(p, k);
        assert forall|i: int, j: int| 0 <= i < j < out.len() implies !text_lt(
            keys[#[trigger] out[j] as int],
            keys[#[trigger] out[i] as int],
        ) by {
            if j < p {
                assert(out[i] == r[i] && out[j] == r[j]);
            } else if j == p {
                assert(out[i] == r[i]);
                if i < p - 1 {
                    assert(!text_lt(keys[r[p - 1] as int], keys[r[i] as int]));
                    if text_lt(keys[k as int], keys[r[i] as int]) {
                        lemma_text_lt_total(keys[k as int], keys[r[p - 1] as int]);
                        if keys[k as int] != keys[r[p - 1] as int] && !text_lt(keys[k as int], keys[r[p - 1] as int]) {
                            lemma_text_lt_transitive(keys[r[p - 1] as int], keys[k as int], keys[r[i] as int]);
                        }
                    }
                }
            } else if i < p {
                assert(out[i] == r[i] && out[j] == r[j - 1]);
                assert(text_lt(keys[k as int], keys[r[j - 1] as int]));
                assert(!text_lt(keys[r[j - 1] as int], keys[r[i] as int]));
            } else if i == p {
                assert(out[j] == r[j - 1]);
                assert(text_lt(keys[k as int], keys[r[j - 1] as int]));
                lemma_text_lt_asymmetric(keys[k as int], keys[r[j - 1] as int]);
            } else {
                assert(out[i] == r[i - 1] && out[j] == r[j - 1]);
            }
        }
        vstd::seq_lib::to_multiset_insert(r, p, k);
        assert(indices(n) =~= indices((n - 1) as nat).push(k));
        vstd::seq_lib::to_multiset_build(indices((n - 1) as nat), k);
        assert(out == text_order(keys, n));
    } else {
        assert(indices(0) =~= text_order(keys, 0));
    }
}

/// The views of the ids.
pub open spec fn id_texts(ids: Seq<String>) -> Seq<Seq<char>> {
    ids.map_values(|s: String| s@)
}

/// The order in which a bundle lists its snapshots: their indices, by id (see `text_order`).
pub fn bundle_order(ids: &Vec<String>) -> (order: Vec<usize>)
    ensures
        order@ == text_order(id_texts(ids@), ids@.len()),
{
    let ghost keys = id_texts(ids@);
    let mut order: Vec<usize> = Vec::new();
    let mut n: usize = 0;
    while n < ids.len()
        invariant
            n <= ids@.len(),
            keys == id_texts(ids@),
            order@ == text_order(keys, n as nat),
            forall|j: int| 0 <= j < order@.len() ==> order@[j] < n,
        decreases ids@.len() - n,
    {
        let ghost before = order@;
        proof {
            lemma_text_order(keys, n as nat);
            assert(order@.len() == n);
            assert forall|j: int| 0 <= j < order@.len() implies order@[j] < n by {
                vstd::seq_lib::to_multiset_contains(order@, order@[j]);
                assert(order@.contains(order@[j]));
                assert(indices(n as nat).to_multiset().count(order@[j]) > 0);
                vstd::seq_lib::to_multiset_contains(indices(n as nat), order@[j]);
                let q = choose|q: int| 0 <= q < indices(n as nat).len() && indices(n as nat)[q] == order@[j];
                assert(indices(n as nat)[q] == q as usize);
            }
        }
        let mut p: usize = order.len();
        proof {
            assert(order@.take(p as int) =~= order@);
        }
        while p > 0 && text_less(ids[n].as_str(), ids[order[p - 1]].as_str())
            invariant
                p <= order@.len(),
                order@ == before,
                n < ids@.len(),
                keys == id_texts(ids@),
                forall|j: int| 0 <= j < order@.len() ==> order@[j] < n,
                text_insert_pos(order@, keys, n) == text_insert_pos(order@.take(p as int), keys, n),
            decreases p,
        {
            proof {
                assert(order@.take(p as int).drop_last() =~= order@.take(p - 1));
                assert(order@.take(p as int).last() == order@[p - 1]);
            }
            p = p - 1;
        }
        proof {
            if p > 0 {
                assert(order@.take(p as int).last() == order@[p - 1]);
            }
            assert(text_insert_pos(order@, keys, n) == p);
        }
        order.insert(p, n);
        proof {
            assert(((n + 1) - 1) as nat == n as nat);
            assert forall|j: int| 0 <= j < order@.len() implies order@[j] < n + 1 by {
                if j < p {
                    assert(order@[j] == before[j]);
                } else if j > p {
                    assert(order@[j] == before[j - 1]);
                }
            }
        }
        n = n + 1;
    }
    order
}

/// The sum of `counts`.
pub open spec fn count_sum(counts: Seq<usize>) -> nat
    decreases counts.len(),
{
    if counts.len() == 0 {
        0
    } else {
        count_sum(counts.drop_last()) + counts.last() as nat
    }
}

/// The total of `counts`, when it fits in a `usize`.
pub fn total_count(counts: &Vec<usize>) -> (total: Option<usize>)
    ensures
        match total {
            Some(t) => t == count_sum(counts@),
            None => count_sum(counts@) > usize::MAX,
        },
{
    let mut total: usize = 0;
    let mut index: usize = 0;
    while index < counts.len()
        invariant
            index <= counts@.len(),
            total == count_sum(counts@.take(index as int)),
        decreases counts@.len() - index,
    {
        proof {
            assert(counts@.take(index + 1).drop_last() =~= counts@.take(index as int));
        }
        match total.checked_add(counts[index]) {
            Some(t) => {
                total = t;
            },
            None => {
                proof {
                    lemma_count_sum_prefix(counts@, index + 1);
                }
                return None;
            },
        }
        index = index + 1;
    }
    proof {
        assert(counts@.take(counts@.len() as int) =~= counts@);
    }
    Some(total)
}

/// A prefix sums to no more than the whole.
proof fn lemma_count_sum_prefix(counts: Seq<usize>, k: int)
    requires
        0 <= k <= counts.len(),
    ensures
        count_sum(counts.take(k)) <= count_sum(counts),
    decreases counts.len(),
{
    if k < counts.len() {
        assert(counts.drop_last().take(k) =~= counts.take(k));
        lemma_count_sum_prefix(counts.drop_last(), k);
    } else {
        assert(counts.take(k) =~= counts);
    }
}

} // verus!
