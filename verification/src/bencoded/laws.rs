//! What holds between encoding and parsing.
use vstd::prelude::*;
use super::encoding::Error;
use super::grammar::{
    all_digits, decimal, digits_value, encode_bytes, encode_int, encode_items, encode_pairs,
    encode_value, find, from_pairs, is_digit, parse_bytes, parse_int, parse_items, parse_number,
    parse_pairs, parse_value, DICTIONARY_PREFIX, END_SUFFIX, INT_PREFIX, LIST_PREFIX,
    STRING_INFIX,
};
use super::value::{
    as_map, bytes_lt, dict_insert, keys_sorted, lemma_dict_insert, lemma_dict_insert_commutes,
    lemma_dict_insert_greatest, lemma_rank, lemma_sorted_canonical, rank, well_formed, BValue,
};

verus! {

/// The decimal digits of a number are digits, at least one, and denote it.
pub proof fn lemma_decimal(n: nat)
    ensures
        decimal(n).len() >= 1,
        all_digits(decimal(n)),
        digits_value(decimal(n)) == n,
    decreases n,
{
    let s = decimal(n);
    if n < 10 {
        assert(s.drop_last() =~= Seq::<u8>::empty());
        assert(digits_value(s.drop_last()) == 0);
    } else {
        lemma_decimal(n / 10);
        let t = decimal(n / 10);
        assert(s.drop_last() =~= t);
        assert forall|i: int| 0 <= i < s.len() implies is_digit(#[trigger] s[i]) by {
            if i < t.len() {
                assert(s[i] == t[i]);
            }
        }
    }
}

/// A number's decimal digits parse back to it.
pub proof fn lemma_parse_number_decimal(n: nat)
    requires
        n <= u64::MAX,
    ensures
        parse_number(decimal(n)) == Some(n as u64),
{
    lemma_decimal(n);
    assert(is_digit(decimal(n)[0]));
}

/// Where `find` points: no `b` before it, and `b` there unless it is the end.
pub proof fn lemma_find(s: Seq<u8>, b: u8)
    ensures
        0 <= find(s, b) <= s.len(),
        forall|i: int| 0 <= i < find(s, b) ==> s[i] != b,
        find(s, b) < s.len() ==> s[find(s, b)] == b,
    decreases s.len(),
{
    if s.len() == 0 || s[0] == b {
    } else {
        let t = s.drop_first();
        lemma_find(t, b);
        assert forall|i: int| 0 <= i < find(s, b) implies s[i] != b by {
            if i > 0 {
                assert(s[i] == t[i - 1]);
            }
        }
        if find(s, b) < s.len() {
            assert(s[find(s, b)] == t[find(t, b)]);
        }
    }
}

/// An index with no `b` before it, and `b` at it unless it is the end, is
/// where `find` points.
pub proof fn lemma_find_at(s: Seq<u8>, b: u8, p: int)
    requires
        0 <= p <= s.len(),
        forall|i: int| 0 <= i < p ==> s[i] != b,
        p < s.len() ==> s[p] == b,
    ensures
        find(s, b) == p,
    decreases p,
{
    if p > 0 {
        let t = s.drop_first();
        assert(s[0] != b);
        assert forall|i: int| 0 <= i < p - 1 implies t[i] != b by {
            assert(t[i] == s[i + 1]);
        }
        if p - 1 < t.len() {
            assert(t[p - 1] == s[p]);
        }
        lemma_find_at(t, b, p - 1);
    }
}

/// An encoded integer, whatever follows it, parses back to the integer and
/// leaves what follows.
pub proof fn lemma_parse_int_encode(n: u64, rest: Seq<u8>)
    ensures
        parse_int(encode_int(n) + rest) == Ok::<(u64, Seq<u8>), Error>((n, rest)),
{
    let digits = decimal(n as nat);
    let input = encode_int(n) + rest;
    lemma_decimal(n as nat);
    let body = input.drop_first();
    assert(body =~= digits + seq![END_SUFFIX] + rest);
    assert forall|i: int| 0 <= i < digits.len() implies body[i] != END_SUFFIX by {
        assert(body[i] == digits[i]);
        assert(is_digit(digits[i]));
    }
    lemma_find_at(body, END_SUFFIX, digits.len() as int);
    assert(body.take(digits.len() as int) =~= digits);
    lemma_parse_number_decimal(n as nat);
    assert(body.skip(digits.len() as int + 1) =~= rest);
    assert(input[0] == INT_PREFIX);
}

/// An encoded byte string, whatever follows it, parses back to the byte
/// string and leaves what follows.
pub proof fn lemma_parse_bytes_encode(s: Seq<u8>, rest: Seq<u8>)
    requires
        s.len() <= u64::MAX,
    ensures
        parse_bytes(encode_bytes(s) + rest) == Ok::<(Seq<u8>, Seq<u8>), Error>((s, rest)),
        is_digit((encode_bytes(s) + rest)[0]),
{
    let digits = decimal(s.len());
    let input = encode_bytes(s) + rest;
    lemma_decimal(s.len());
    assert(input =~= digits + seq![STRING_INFIX] + s + rest);
    assert forall|i: int| 0 <= i < digits.len() implies input[i] != STRING_INFIX by {
        assert(input[i] == digits[i]);
        assert(is_digit(digits[i]));
    }
    lemma_find_at(input, STRING_INFIX, digits.len() as int);
    assert(input.take(digits.len() as int) =~= digits);
    lemma_parse_number_decimal(s.len());
    let k = digits.len() as int;
    assert(input.subrange(k + 1, k + 1 + s.len()) =~= s);
    assert(input.skip(k + 1 + s.len()) =~= rest);
    assert(input[0] == digits[0]);
    assert(is_digit(digits[0]));
}

/// Every encoding begins with the byte that tells its production: `i`, `l`,
/// `d` or a digit. None begins with `e`.
pub proof fn lemma_encode_first(v: BValue)
    ensures
        encode_value(v).len() > 0,
        ({
            let b = encode_value(v)[0];
            b == INT_PREFIX || b == LIST_PREFIX || b == DICTIONARY_PREFIX || is_digit(b)
        }),
{
    match v {
        BValue::ByteString(s) => {
            lemma_decimal(s.len());
            assert(encode_value(v)[0] == decimal(s.len())[0]);
            assert(is_digit(decimal(s.len())[0]));
        },
        _ => {},
    }
}

/// Entries that are already in ascending key order make the dictionary
/// that lists them as they are.
pub proof fn lemma_from_pairs_sorted(d: Seq<(Seq<u8>, BValue)>)
    requires
        keys_sorted(d),
    ensures
        from_pairs(d) == d,
    decreases d.len(),
{
    if d.len() > 0 {
        let t = d.drop_last();
        assert forall|i: int, j: int| 0 <= i < j < t.len() implies bytes_lt(
            (#[trigger] t[i]).0,
            (#[trigger] t[j]).0,
        ) by {
            assert(t[i] == d[i] && t[j] == d[j]);
        }
        lemma_from_pairs_sorted(t);
        assert forall|i: int| 0 <= i < t.len() implies bytes_lt((#[trigger] t[i]).0, d.last().0) by {
            assert(t[i] == d[i]);
            assert(bytes_lt(d[i].0, d[d.len() - 1].0));
        }
        lemma_dict_insert_greatest(t, d.last().0, d.last().1);
        assert(t.push(d.last()) =~= d);
    } else {
        assert(d =~= Seq::empty());
    }
}

/// Whatever entries are written, the dictionary they make is in ascending
/// key order.
pub proof fn lemma_from_pairs_keys_sorted(d: Seq<(Seq<u8>, BValue)>)
    ensures
        keys_sorted(from_pairs(d)),
    decreases d.len(),
{
    if d.len() > 0 {
        lemma_from_pairs_keys_sorted(d.drop_last());
        lemma_dict_insert(from_pairs(d.drop_last()), d.last().0, d.last().1);
    }
}

/// One more item: its encoding goes behind those of the others.
pub proof fn lemma_encode_items_push(l: Seq<BValue>, v: BValue)
    ensures
        encode_items(l.push(v)) == encode_items(l) + encode_value(v),
    decreases l.len(),
{
    let m = l.push(v);
    if l.len() == 0 {
        assert(m.drop_first() =~= Seq::<BValue>::empty());
        assert(encode_items(m.drop_first()) =~= Seq::<u8>::empty());
        assert(encode_items(m) =~= encode_value(v));
        assert(encode_items(l) + encode_value(v) =~= encode_value(v));
    } else {
        lemma_encode_items_push(l.drop_first(), v);
        assert(m.drop_first() =~= l.drop_first().push(v));
        assert(encode_value(l[0]) + (encode_items(l.drop_first()) + encode_value(v)) =~= (
        encode_value(l[0]) + encode_items(l.drop_first())) + encode_value(v));
    }
}

/// One more entry: its encoding goes behind those of the others.
pub proof fn lemma_encode_pairs_push(d: Seq<(Seq<u8>, BValue)>, e: (Seq<u8>, BValue))
    ensures
        encode_pairs(d.push(e)) == encode_pairs(d) + (encode_bytes(e.0) + encode_value(e.1)),
    decreases d.len(),
{
    let m = d.push(e);
    let one = encode_bytes(e.0) + encode_value(e.1);
    if d.len() == 0 {
        assert(m.drop_first() =~= Seq::<(Seq<u8>, BValue)>::empty());
        assert(encode_pairs(m.drop_first()) =~= Seq::<u8>::empty());
        assert(encode_pairs(m) =~= one);
        assert(encode_pairs(d) + one =~= one);
    } else {
        lemma_encode_pairs_push(d.drop_first(), e);
        assert(m.drop_first() =~= d.drop_first().push(e));
        let head = encode_bytes(d[0].0) + encode_value(d[0].1);
        assert(head + (encode_pairs(d.drop_first()) + one) =~= (head + encode_pairs(
            d.drop_first(),
        )) + one);
    }
}

/// Decoding undoes encoding: the encoding of a well-formed value, whatever
/// follows it, parses back to that value and leaves what follows.
pub proof fn lemma_parse_encode(v: BValue, rest: Seq<u8>)
    requires
        well_formed(v),
    ensures
        parse_value(encode_value(v) + rest) == Ok::<(BValue, Seq<u8>), Error>((v, rest)),
    decreases v, 0nat,
{
    let input = encode_value(v) + rest;
    match v {
        BValue::Integer(n) => {
            lemma_parse_int_encode(n, rest);
            assert(input[0] == INT_PREFIX);
        },
        BValue::ByteString(s) => {
            lemma_parse_bytes_encode(s, rest);
        },
        BValue::List(l) => {
            assert(input[0] == LIST_PREFIX);
            assert(input.drop_first() =~= encode_items(l) + seq![END_SUFFIX] + rest);
            lemma_parse_items_encode(l, rest);
        },
        BValue::Dictionary(d) => {
            assert(input[0] == DICTIONARY_PREFIX);
            assert(input.drop_first() =~= encode_pairs(d) + seq![END_SUFFIX] + rest);
            lemma_parse_pairs_encode(d, rest);
            lemma_from_pairs_sorted(d);
        },
    }
}

/// The encoded items of a list, closed by `e`, parse back to the items.
pub proof fn lemma_parse_items_encode(l: Seq<BValue>, rest: Seq<u8>)
    requires
        forall|i: int| 0 <= i < l.len() ==> well_formed(#[trigger] l[i]),
    ensures
        parse_items(encode_items(l) + seq![END_SUFFIX] + rest) == Ok::<
            (Seq<BValue>, Seq<u8>),
            Error,
        >((l, rest)),
    decreases l, l.len(),
{
    let input = encode_items(l) + seq![END_SUFFIX] + rest;
    if l.len() == 0 {
        assert(input[0] == END_SUFFIX);
        assert(input.drop_first() =~= rest);
        assert(l =~= Seq::empty());
    } else {
        let tail = l.drop_first();
        let after = encode_items(tail) + seq![END_SUFFIX] + rest;
        assert(input =~= encode_value(l[0]) + after);
        lemma_encode_first(l[0]);
        assert(input[0] == encode_value(l[0])[0]);
        lemma_parse_encode(l[0], after);
        assert forall|i: int| 0 <= i < tail.len() implies well_formed(#[trigger] tail[i]) by {
            assert(tail[i] == l[i + 1]);
        }
        lemma_parse_items_encode(tail, rest);
        assert(seq![l[0]] + tail =~= l);
    }
}

/// The encoded entries of a dictionary, closed by `e`, parse back to the entries.
pub proof fn lemma_parse_pairs_encode(d: Seq<(Seq<u8>, BValue)>, rest: Seq<u8>)
    requires
        forall|i: int|
            0 <= i < d.len() ==> (#[trigger] d[i]).0.len() <= u64::MAX && well_formed(d[i].1),
    ensures
        parse_pairs(encode_pairs(d) + seq![END_SUFFIX] + rest) == Ok::<
            (Seq<(Seq<u8>, BValue)>, Seq<u8>),
            Error,
        >((d, rest)),
    decreases d, d.len(),
{
    let input = encode_pairs(d) + seq![END_SUFFIX] + rest;
    if d.len() == 0 {
        assert(input[0] == END_SUFFIX);
        assert(input.drop_first() =~= rest);
        assert(d =~= Seq::empty());
    } else {
        let tail = d.drop_first();
        let after = encode_pairs(tail) + seq![END_SUFFIX] + rest;
        let after_key = encode_value(d[0].1) + after;
        assert(input =~= encode_bytes(d[0].0) + after_key);
        lemma_parse_bytes_encode(d[0].0, after_key);
        lemma_encode_first(d[0].1);
        lemma_parse_encode(d[0].1, after);
        assert forall|i: int| 0 <= i < tail.len() implies (#[trigger] tail[i]).0.len() <= u64::MAX
            && well_formed(tail[i].1) by {
            assert(tail[i] == d[i + 1]);
        }
        lemma_parse_pairs_encode(tail, rest);
        assert(seq![d[0]] + tail =~= d);
    }
}

/// Encoding and decoding are inverse on canonical bytes: the encoding of a
/// well-formed value decodes to that value with nothing left, and the value
/// encodes to the same bytes again.
pub proof fn lemma_canonical_bytes_round_trip(v: BValue)
    requires
        well_formed(v),
    ensures
        parse_value(encode_value(v)) == Ok::<(BValue, Seq<u8>), Error>((v, Seq::empty())),
        encode_value(parse_value(encode_value(v))->Ok_0.0) == encode_value(v),
{
    lemma_parse_encode(v, Seq::empty());
    assert(encode_value(v) + Seq::<u8>::empty() =~= encode_value(v));
}

/// The bytes tell the value: two well-formed values with the same bytes are
/// equal.
pub proof fn lemma_bytes_tell_value(v: BValue, w: BValue)
    requires
        well_formed(v),
        well_formed(w),
        encode_value(v) == encode_value(w),
    ensures
        v == w,
{
    lemma_canonical_bytes_round_trip(v);
    lemma_canonical_bytes_round_trip(w);
}

/// Dictionaries that stand for the same mapping have the same bytes,
/// whatever the order in which their keys were bound.
pub proof fn lemma_same_mapping_same_bytes(
    d1: Seq<(Seq<u8>, BValue)>,
    d2: Seq<(Seq<u8>, BValue)>,
)
    requires
        keys_sorted(d1),
        keys_sorted(d2),
        as_map(d1) == as_map(d2),
    ensures
        encode_value(BValue::Dictionary(d1)) == encode_value(BValue::Dictionary(d2)),
{
    lemma_sorted_canonical(d1, d2);
}

/// The bytes of a dictionary do not depend on the order of insertion:
/// binding two different keys in either order gives the same bytes.
pub proof fn lemma_insertion_order_is_immaterial(
    d: Seq<(Seq<u8>, BValue)>,
    k1: Seq<u8>,
    v1: BValue,
    k2: Seq<u8>,
    v2: BValue,
)
    requires
        keys_sorted(d),
        k1 != k2,
    ensures
        encode_value(BValue::Dictionary(dict_insert(dict_insert(d, k1, v1), k2, v2)))
            == encode_value(BValue::Dictionary(dict_insert(dict_insert(d, k2, v2), k1, v1))),
{
    lemma_dict_insert_commutes(d, k1, v1, k2, v2);
}

/// Every entry of a dictionary after a binding is the new entry or one of
/// the entries before.
pub proof fn lemma_dict_insert_entries(d: Seq<(Seq<u8>, BValue)>, k: Seq<u8>, v: BValue)
    ensures
        forall|i: int|
            0 <= i < dict_insert(d, k, v).len() ==> (#[trigger] dict_insert(d, k, v)[i]) == (k, v)
                || exists|j: int| 0 <= j < d.len() && d[j] == dict_insert(d, k, v)[i],
{
    lemma_rank(d, k);
    let p = rank(d, k);
    let r = dict_insert(d, k, v);
    assert forall|i: int| 0 <= i < r.len() implies (#[trigger] r[i]) == (k, v) || exists|j: int|
        0 <= j < d.len() && d[j] == r[i] by {
        if p < d.len() && d[p].0 == k {
            if i != p {
                assert(d[i] == r[i]);
            }
        } else if i < p {
            assert(d[i] == r[i]);
        } else if i > p {
            assert(d[i - 1] == r[i]);
        }
    }
}

/// The dictionary that written entries make is well formed where every
/// written key fits the length prefix and every written value is well formed.
pub proof fn lemma_from_pairs_well_formed(d: Seq<(Seq<u8>, BValue)>)
    requires
        forall|i: int|
            0 <= i < d.len() ==> (#[trigger] d[i]).0.len() <= u64::MAX && well_formed(d[i].1),
    ensures
        well_formed(BValue::Dictionary(from_pairs(d))),
    decreases d.len(),
{
    lemma_from_pairs_keys_sorted(d);
    if d.len() > 0 {
        let head = d.drop_last();
        assert forall|i: int| 0 <= i < head.len() implies (#[trigger] head[i]).0.len() <= u64::MAX
            && well_formed(head[i].1) by {
            assert(head[i] == d[i]);
        }
        lemma_from_pairs_well_formed(head);
        let before = from_pairs(head);
        let after = from_pairs(d);
        lemma_dict_insert_entries(before, d.last().0, d.last().1);
        assert(d[d.len() - 1].0.len() <= u64::MAX && well_formed(d[d.len() - 1].1));
        assert forall|i: int| 0 <= i < after.len() implies (#[trigger] after[i]).0.len()
            <= u64::MAX && well_formed(after[i].1) by {
            if after[i] != (d.last().0, d.last().1) {
                let j = choose|j: int| 0 <= j < before.len() && before[j] == after[i];
                assert(before[j].0.len() <= u64::MAX && well_formed(before[j].1));
            }
        }
    }
}

/// Whatever is decoded is well formed, and decoding reads at least one byte.
pub proof fn lemma_parse_value_well_formed(input: Seq<u8>)
    ensures
        parse_value(input) matches Ok((v, rest)) ==> well_formed(v) && rest.len() < input.len(),
    decreases input.len(), 0nat,
{
    if input.len() > 0 {
        if input[0] == INT_PREFIX {
            lemma_find(input.drop_first(), END_SUFFIX);
        } else if input[0] == LIST_PREFIX {
            lemma_parse_items_well_formed(input.drop_first());
        } else if input[0] == DICTIONARY_PREFIX {
            lemma_parse_pairs_well_formed(input.drop_first());
            if let Ok((d, rest)) = parse_pairs(input.drop_first()) {
                lemma_from_pairs_well_formed(d);
            }
        } else if is_digit(input[0]) {
            lemma_parse_bytes_well_formed(input);
        }
    }
}

/// A byte string that is decoded fits the length prefix, and decoding it
/// reads at least one byte.
pub proof fn lemma_parse_bytes_well_formed(input: Seq<u8>)
    ensures
        parse_bytes(input) matches Ok((s, rest)) ==> s.len() <= u64::MAX && rest.len()
            < input.len(),
{
    lemma_find(input, STRING_INFIX);
}

/// The items of a list that are decoded are well formed.
pub proof fn lemma_parse_items_well_formed(input: Seq<u8>)
    ensures
        parse_items(input) matches Ok((l, rest)) ==> rest.len() < input.len() && forall|i: int|
            0 <= i < l.len() ==> well_formed(#[trigger] l[i]),
    decreases input.len(), 1nat,
{
    if input.len() > 0 && input[0] != END_SUFFIX {
        lemma_parse_value_well_formed(input);
        if let Ok((v, rest)) = parse_value(input) {
            lemma_parse_items_well_formed(rest);
            if let Ok((l, after)) = parse_items(rest) {
                let all = seq![v] + l;
                assert forall|i: int| 0 <= i < all.len() implies well_formed(#[trigger] all[i]) by {
                    if i > 0 {
                        assert(all[i] == l[i - 1]);
                    }
                }
            }
        }
    }
}

/// The entries of a dictionary that are decoded have keys that fit the
/// length prefix and values that are well formed.
pub proof fn lemma_parse_pairs_well_formed(input: Seq<u8>)
    ensures
        parse_pairs(input) matches Ok((d, rest)) ==> rest.len() < input.len() && forall|i: int|
            0 <= i < d.len() ==> (#[trigger] d[i]).0.len() <= u64::MAX && well_formed(d[i].1),
    decreases input.len(), 1nat,
{
    if input.len() > 0 && input[0] != END_SUFFIX {
        lemma_parse_bytes_well_formed(input);
        if let Ok((k, rest)) = parse_bytes(input) {
            lemma_parse_value_well_formed(rest);
            if let Ok((v, rest2)) = parse_value(rest) {
                lemma_parse_pairs_well_formed(rest2);
                if let Ok((d, after)) = parse_pairs(rest2) {
                    let all = seq![(k, v)] + d;
                    assert forall|i: int| 0 <= i < all.len() implies (#[trigger] all[i]).0.len()
                        <= u64::MAX && well_formed(all[i].1) by {
                        if i > 0 {
                            assert(all[i] == d[i - 1]);
                        }
                    }
                }
            }
        }
    }
}

} // verus!
