//! The mathematical model of bencode values: trees whose dictionaries are
//! association lists kept in ascending key order.
use vstd::prelude::*;

verus! {

/// A bencode value as a mathematical tree. A dictionary is the list of its
/// entries in ascending key order, so that equal mappings are equal values.
pub enum BValue {
    Integer(u64),
    ByteString(Seq<u8>),
    List(Seq<BValue>),
    Dictionary(Seq<(Seq<u8>, BValue)>),
}

/// Strict lexicographic order on byte strings, by raw byte value.
pub open spec fn bytes_lt(a: Seq<u8>, b: Seq<u8>) -> bool
    decreases a.len(),
{
    if b.len() == 0 {
        false
    } else if a.len() == 0 {
        true
    } else if a[0] != b[0] {
        a[0] < b[0]
    } else {
        bytes_lt(a.drop_first(), b.drop_first())
    }
}

/// No byte string is below itself.
pub proof fn lemma_bytes_lt_irreflexive(a: Seq<u8>)
    ensures
        !bytes_lt(a, a),
    decreases a.len(),
{
    if a.len() > 0 {
        lemma_bytes_lt_irreflexive(a.drop_first());
    }
}

/// The order is transitive.
pub proof fn lemma_bytes_lt_transitive(a: Seq<u8>, b: Seq<u8>, c: Seq<u8>)
    requires
        bytes_lt(a, b),
        bytes_lt(b, c),
    ensures
        bytes_lt(a, c),
    decreases a.len(),
{
    if a.len() > 0 && a[0] == b[0] && b[0] == c[0] {
        lemma_bytes_lt_transitive(a.drop_first(), b.drop_first(), c.drop_first());
    }
}

/// The order is total: two different byte strings are ordered one way or the other.
pub proof fn lemma_bytes_lt_total(a: Seq<u8>, b: Seq<u8>)
    ensures
        a == b || bytes_lt(a, b) || bytes_lt(b, a),
    decreases a.len(),
{
    if a.len() == 0 || b.len() == 0 {
        if a.len() == 0 && b.len() == 0 {
            assert(a =~= b);
        }
    } else if a[0] == b[0] {
        lemma_bytes_lt_total(a.drop_first(), b.drop_first());
        if a.drop_first() == b.drop_first() {
            assert(a =~= seq![a[0]] + a.drop_first());
            assert(b =~= seq![b[0]] + b.drop_first());
        }
    }
}

/// The order is asymmetric.
pub proof fn lemma_bytes_lt_asymmetric(a: Seq<u8>, b: Seq<u8>)
    requires
        bytes_lt(a, b),
    ensures
        !bytes_lt(b, a),
{
    if bytes_lt(b, a) {
        lemma_bytes_lt_transitive(a, b, a);
        lemma_bytes_lt_irreflexive(a);
    }
}

/// The entries stand in strictly ascending key order; in particular no key
/// occurs twice.
pub open spec fn keys_sorted(d: Seq<(Seq<u8>, BValue)>) -> bool {
    forall|i: int, j: int|
        #![trigger d[i], d[j]]
        0 <= i < j < d.len() ==> bytes_lt(d[i].0, d[j].0)
}

/// Whether some entry has the key `k`.
pub open spec fn has_key(d: Seq<(Seq<u8>, BValue)>, k: Seq<u8>) -> bool {
    exists|i: int| 0 <= i < d.len() && (#[trigger] d[i]).0 == k
}

/// The mapping that a list of entries stands for.
pub open spec fn as_map(d: Seq<(Seq<u8>, BValue)>) -> Map<Seq<u8>, BValue> {
    Map::new(
        |k: Seq<u8>| has_key(d, k),
        |k: Seq<u8>| d[choose|i: int| 0 <= i < d.len() && (#[trigger] d[i]).0 == k].1,
    )
}

/// The number of entries whose key is below `k`: the place of `k` in the order.
pub open spec fn rank(d: Seq<(Seq<u8>, BValue)>, k: Seq<u8>) -> int
    decreases d.len(),
{
    if d.len() == 0 || !bytes_lt(d[0].0, k) {
        0
    } else {
        1 + rank(d.drop_first(), k)
    }
}

/// The entries after `k` has been bound to `v`: an entry with that key is
/// replaced, otherwise the new entry goes to its place in the order.
pub open spec fn dict_insert(d: Seq<(Seq<u8>, BValue)>, k: Seq<u8>, v: BValue) -> Seq<
    (Seq<u8>, BValue),
> {
    let p = rank(d, k);
    if p < d.len() && d[p].0 == k {
        d.update(p, (k, v))
    } else {
        d.insert(p, (k, v))
    }
}

/// The entries without the one whose key is `k`, if there is one.
pub open spec fn dict_remove(d: Seq<(Seq<u8>, BValue)>, k: Seq<u8>) -> Seq<(Seq<u8>, BValue)> {
    let p = rank(d, k);
    if p < d.len() && d[p].0 == k {
        d.remove(p)
    } else {
        d
    }
}

/// A value is well formed when every byte string in it has a length that
/// fits the 64-bit length prefix and every dictionary in it is in ascending
/// key order.
pub open spec fn well_formed(v: BValue) -> bool
    decreases v,
{
    match v {
        BValue::Integer(_) => true,
        BValue::ByteString(s) => s.len() <= u64::MAX,
        BValue::List(l) => forall|i: int| 0 <= i < l.len() ==> well_formed(#[trigger] l[i]),
        BValue::Dictionary(d) => {
            &&& keys_sorted(d)
            &&& forall|i: int|
                0 <= i < d.len() ==> (#[trigger] d[i]).0.len() <= u64::MAX && well_formed(d[i].1)
        },
    }
}

/// Where `rank` points: everything before is below `k`, and the entry
/// there, if any, is not.
pub proof fn lemma_rank(d: Seq<(Seq<u8>, BValue)>, k: Seq<u8>)
    ensures
        0 <= rank(d, k) <= d.len(),
        forall|i: int| 0 <= i < rank(d, k) ==> bytes_lt((#[trigger] d[i]).0, k),
        rank(d, k) < d.len() ==> !bytes_lt(d[rank(d, k)].0, k),
    decreases d.len(),
{
    if d.len() == 0 || !bytes_lt(d[0].0, k) {
    } else {
        let t = d.drop_first();
        lemma_rank(t, k);
        assert forall|i: int| 0 <= i < rank(d, k) implies bytes_lt((#[trigger] d[i]).0, k) by {
            if i > 0 {
                assert(d[i] == t[i - 1]);
            }
        }
        if rank(d, k) < d.len() {
            assert(d[rank(d, k)] == t[rank(t, k)]);
        }
    }
}

/// In a sorted list, an index is the rank of `k` as soon as everything
/// before it is below `k` and the entry there is not.
pub proof fn lemma_rank_unique(d: Seq<(Seq<u8>, BValue)>, k: Seq<u8>, p: int)
    requires
        0 <= p <= d.len(),
        forall|i: int| 0 <= i < p ==> bytes_lt((#[trigger] d[i]).0, k),
        p < d.len() ==> !bytes_lt(d[p].0, k),
    ensures
        rank(d, k) == p,
{
    lemma_rank(d, k);
    let r = rank(d, k);
    if r < p {
        assert(bytes_lt(d[r].0, k));
    } else if p < r {
        assert(bytes_lt(d[p].0, k));
    }
}

/// In a sorted list a key is found at its rank or nowhere.
pub proof fn lemma_key_at_rank(d: Seq<(Seq<u8>, BValue)>, k: Seq<u8>)
    requires
        keys_sorted(d),
    ensures
        has_key(d, k) <==> (rank(d, k) < d.len() && d[rank(d, k)].0 == k),
        forall|i: int| 0 <= i < d.len() && (#[trigger] d[i]).0 == k ==> i == rank(d, k),
{
    lemma_rank(d, k);
    let p = rank(d, k);
    assert forall|i: int| 0 <= i < d.len() && (#[trigger] d[i]).0 == k implies i == p by {
        lemma_bytes_lt_irreflexive(k);
        if i < p {
            assert(bytes_lt(d[i].0, k));
        } else if p < i {
            assert(bytes_lt(d[p].0, d[i].0));
        }
    }
    if p < d.len() && d[p].0 == k {
        assert(has_key(d, k));
    }
}

/// What a sorted list maps: exactly its keys, each to the value beside it.
pub proof fn lemma_as_map(d: Seq<(Seq<u8>, BValue)>)
    requires
        keys_sorted(d),
    ensures
        forall|i: int|
            0 <= i < d.len() ==> as_map(d).dom().contains((#[trigger] d[i]).0) && as_map(d)[d[i].0]
                == d[i].1,
        forall|k: Seq<u8>| as_map(d).dom().contains(k) <==> has_key(d, k),
{
    assert forall|i: int| 0 <= i < d.len() implies as_map(d).dom().contains((#[trigger] d[i]).0)
        && as_map(d)[d[i].0] == d[i].1 by {
        let k = d[i].0;
        assert(has_key(d, k));
        let c = choose|c: int| 0 <= c < d.len() && (#[trigger] d[c]).0 == k;
        lemma_key_at_rank(d, k);
    }
}

/// Binding a key keeps the order, and changes the mapping at that key only.
pub proof fn lemma_dict_insert(d: Seq<(Seq<u8>, BValue)>, k: Seq<u8>, v: BValue)
    requires
        keys_sorted(d),
    ensures
        keys_sorted(dict_insert(d, k, v)),
        as_map(dict_insert(d, k, v)) == as_map(d).insert(k, v),
{
    lemma_rank(d, k);
    lemma_key_at_rank(d, k);
    let p = rank(d, k);
    let r = dict_insert(d, k, v);
    if p < d.len() && d[p].0 == k {
        assert(r[p] == (k, v));
        assert forall|i: int, j: int| 0 <= i < j < r.len() implies bytes_lt(
            (#[trigger] r[i]).0,
            (#[trigger] r[j]).0,
        ) by {
            assert(r[i].0 == d[i].0 && r[j].0 == d[j].0);
        }
    } else {
        assert forall|i: int, j: int| 0 <= i < j < r.len() implies bytes_lt(
            (#[trigger] r[i]).0,
            (#[trigger] r[j]).0,
        ) by {
            if j < p {
                assert(r[i] == d[i] && r[j] == d[j]);
            } else if j == p {
                assert(r[i] == d[i]);
            } else if i == p {
                assert(r[j] == d[j - 1]);
                lemma_bytes_lt_total(d[p].0, k);
                if j - 1 > p {
                    assert(bytes_lt(d[p].0, d[j - 1].0));
                    lemma_bytes_lt_transitive(k, d[p].0, d[j - 1].0);
                }
            } else if i < p {
                assert(r[i] == d[i] && r[j] == d[j - 1]);
            } else {
                assert(r[i] == d[i - 1] && r[j] == d[j - 1]);
            }
        }
    }
    lemma_as_map(d);
    lemma_as_map(r);
    let m1 = as_map(r);
    let m2 = as_map(d).insert(k, v);
    assert forall|x: Seq<u8>| m1.dom().contains(x) <==> m2.dom().contains(x) by {
        if has_key(r, x) {
            let i = choose|i: int| 0 <= i < r.len() && (#[trigger] r[i]).0 == x;
            if x != k {
                if p < d.len() && d[p].0 == k {
                    assert(d[i].0 == x);
                } else if i < p {
                    assert(d[i].0 == x);
                } else {
                    assert(d[i - 1].0 == x);
                }
            }
        }
        if has_key(d, x) && x != k {
            let i = choose|i: int| 0 <= i < d.len() && (#[trigger] d[i]).0 == x;
            if p < d.len() && d[p].0 == k {
                assert(r[i].0 == x);
            } else if i < p {
                assert(r[i].0 == x);
            } else {
                assert(r[i + 1].0 == x);
            }
        }
        if x == k {
            assert(r[p].0 == k);
        }
    }
    assert forall|x: Seq<u8>| m1.dom().contains(x) implies m1[x] == m2[x] by {
        let i = choose|i: int| 0 <= i < r.len() && (#[trigger] r[i]).0 == x;
        assert(m1[r[i].0] == r[i].1);
        if x == k {
            lemma_key_at_rank(r, k);
            assert(r[p].0 == k);
        } else if p < d.len() && d[p].0 == k {
            assert(d[i] == r[i]);
            assert(as_map(d)[d[i].0] == d[i].1);
        } else if i < p {
            assert(d[i] == r[i]);
            assert(as_map(d)[d[i].0] == d[i].1);
        } else {
            assert(d[i - 1] == r[i]);
            assert(as_map(d)[d[i - 1].0] == d[i - 1].1);
        }
    }
    assert(m1 =~= m2);
}

/// Removing a key keeps the order, and takes that key alone out of the mapping.
pub proof fn lemma_dict_remove(d: Seq<(Seq<u8>, BValue)>, k: Seq<u8>)
    requires
        keys_sorted(d),
    ensures
        keys_sorted(dict_remove(d, k)),
        as_map(dict_remove(d, k)) == as_map(d).remove(k),
{
    lemma_rank(d, k);
    lemma_key_at_rank(d, k);
    let p = rank(d, k);
    let r = dict_remove(d, k);
    if p < d.len() && d[p].0 == k {
        assert forall|i: int, j: int| 0 <= i < j < r.len() implies bytes_lt(
            (#[trigger] r[i]).0,
            (#[trigger] r[j]).0,
        ) by {
            let i2 = if i < p { i } else { i + 1 };
            let j2 = if j < p { j } else { j + 1 };
            assert(r[i] == d[i2] && r[j] == d[j2]);
        }
        lemma_as_map(d);
        lemma_as_map(r);
        let m1 = as_map(r);
        let m2 = as_map(d).remove(k);
        assert forall|x: Seq<u8>| m1.dom().contains(x) <==> m2.dom().contains(x) by {
            if has_key(r, x) {
                let i = choose|i: int| 0 <= i < r.len() && (#[trigger] r[i]).0 == x;
                let i2 = if i < p { i } else { i + 1 };
                assert(d[i2] == r[i]);
                assert(as_map(d).dom().contains(d[i2].0));
                if x == k {
                    assert(i2 == p);
                }
            }
            if has_key(d, x) && x != k {
                let i = choose|i: int| 0 <= i < d.len() && (#[trigger] d[i]).0 == x;
                let i2 = if i < p { i } else { i - 1 };
                assert(r[i2] == d[i]);
                assert(has_key(r, x));
            }
        }
        assert forall|x: Seq<u8>| m1.dom().contains(x) implies m1[x] == m2[x] by {
            let i = choose|i: int| 0 <= i < r.len() && (#[trigger] r[i]).0 == x;
            let i2 = if i < p { i } else { i + 1 };
            assert(d[i2] == r[i]);
            assert(m1[r[i].0] == r[i].1);
            assert(as_map(d)[d[i2].0] == d[i2].1);
        }
        assert(m1 =~= m2);
    } else {
        lemma_as_map(d);
        assert(as_map(d) =~= as_map(d).remove(k));
    }
}

/// Sorted lists are canonical: two that stand for the same mapping are equal.
pub proof fn lemma_sorted_canonical(d1: Seq<(Seq<u8>, BValue)>, d2: Seq<(Seq<u8>, BValue)>)
    requires
        keys_sorted(d1),
        keys_sorted(d2),
        as_map(d1) == as_map(d2),
    ensures
        d1 == d2,
    decreases d1.len(),
{
    lemma_as_map(d1);
    lemma_as_map(d2);
    if d1.len() == 0 {
        if d2.len() > 0 {
            assert(as_map(d2).dom().contains(d2[0].0));
            assert(has_key(d1, d2[0].0));
        }
        assert(d1 =~= d2);
    } else if d2.len() == 0 {
        assert(as_map(d1).dom().contains(d1[0].0));
        assert(has_key(d2, d1[0].0));
    } else {
        let a = d1.last();
        let b = d2.last();
        // the greatest key of either list is a key of the other
        assert(as_map(d1).dom().contains(d1[d1.len() - 1].0));
        assert(as_map(d2).dom().contains(d2[d2.len() - 1].0));
        assert(has_key(d2, a.0));
        assert(has_key(d1, b.0));
        let ia = choose|i: int| 0 <= i < d2.len() && (#[trigger] d2[i]).0 == a.0;
        let ib = choose|i: int| 0 <= i < d1.len() && (#[trigger] d1[i]).0 == b.0;
        if ia < d2.len() - 1 {
            assert(bytes_lt(d2[ia].0, d2[d2.len() - 1].0));
            if ib < d1.len() - 1 {
                assert(bytes_lt(d1[ib].0, d1[d1.len() - 1].0));
                lemma_bytes_lt_asymmetric(a.0, b.0);
            } else {
                lemma_bytes_lt_irreflexive(a.0);
            }
        }
        assert(a.0 == b.0);
        assert(as_map(d1)[d1[d1.len() - 1].0] == a.1);
        assert(as_map(d2)[d2[d2.len() - 1].0] == b.1);
        assert(a == b);
        let t1 = d1.drop_last();
        let t2 = d2.drop_last();
        lemma_dict_remove_last(d1);
        lemma_dict_remove_last(d2);
        lemma_sorted_canonical(t1, t2);
        assert(d1 =~= t1.push(a));
        assert(d2 =~= t2.push(b));
    }
}

/// Dropping the last entry of a sorted list removes its greatest key.
pub proof fn lemma_dict_remove_last(d: Seq<(Seq<u8>, BValue)>)
    requires
        keys_sorted(d),
        d.len() > 0,
    ensures
        keys_sorted(d.drop_last()),
        as_map(d.drop_last()) == as_map(d).remove(d.last().0),
{
    let k = d.last().0;
    let t = d.drop_last();
    assert forall|i: int, j: int| 0 <= i < j < t.len() implies bytes_lt(
        (#[trigger] t[i]).0,
        (#[trigger] t[j]).0,
    ) by {
        assert(t[i] == d[i] && t[j] == d[j]);
    }
    lemma_bytes_lt_irreflexive(k);
    assert forall|i: int| 0 <= i < d.len() - 1 implies bytes_lt((#[trigger] d[i]).0, k) by {
        assert(bytes_lt(d[i].0, d[d.len() - 1].0));
    }
    lemma_rank_unique(d, k, d.len() - 1);
    assert(dict_remove(d, k) =~= t);
    lemma_dict_remove(d, k);
}

/// Binding two different keys gives the same entries in either order.
pub proof fn lemma_dict_insert_commutes(
    d: Seq<(Seq<u8>, BValue)>,
    k1: Seq<u8>,
    v1: BValue,
    k2: Seq<u8>,
    v2: BValue,
)
    requires
        keys_sorted(d),
        k1 != k2,
    ensures
        dict_insert(dict_insert(d, k1, v1), k2, v2) == dict_insert(dict_insert(d, k2, v2), k1, v1),
{
    let a = dict_insert(d, k1, v1);
    let b = dict_insert(d, k2, v2);
    lemma_dict_insert(d, k1, v1);
    lemma_dict_insert(d, k2, v2);
    lemma_dict_insert(a, k2, v2);
    lemma_dict_insert(b, k1, v1);
    assert(as_map(d).insert(k1, v1).insert(k2, v2) =~= as_map(d).insert(k2, v2).insert(k1, v1));
    lemma_sorted_canonical(dict_insert(a, k2, v2), dict_insert(b, k1, v1));
}

/// A key above every key of a sorted list goes to its end.
pub proof fn lemma_dict_insert_greatest(d: Seq<(Seq<u8>, BValue)>, k: Seq<u8>, v: BValue)
    requires
        forall|i: int| 0 <= i < d.len() ==> bytes_lt((#[trigger] d[i]).0, k),
    ensures
        dict_insert(d, k, v) == d.push((k, v)),
{
    lemma_rank_unique(d, k, d.len() as int);
    assert(d.insert(d.len() as int, (k, v)) =~= d.push((k, v)));
}

} // verus!
