//! The bencode codec: values in memory, and their bytes.
use vstd::prelude::*;
use vstd::slice::{slice_subrange, slice_to_vec};
use super::grammar::{
    all_digits, decimal, digits_value, encode_bytes, encode_int, encode_items, encode_pairs,
    encode_value, find, from_pairs, is_digit, number_digits, parse_bytes, parse_int, parse_items,
    parse_number, parse_pairs, parse_value, DICTIONARY_PREFIX, END_SUFFIX, GRAMMAR, INT_PREFIX,
    LIST_PREFIX, PLUS_SIGN, STRING_INFIX,
};
use super::laws::{lemma_find_at, lemma_encode_items_push, lemma_encode_pairs_push};
use super::value::{
    as_map, bytes_lt, dict_insert, dict_remove, has_key, keys_sorted, lemma_as_map,
    lemma_bytes_lt_asymmetric, lemma_bytes_lt_transitive, lemma_dict_insert, lemma_dict_remove,
    lemma_key_at_rank, lemma_rank_unique, rank, well_formed, BValue,
};
use super::{BInt, BString};

verus! {

/// Why a document could not be read.
#[derive(Debug, Clone, Copy, PartialEq, Eq)]
pub enum Error {
    /// A field that the schema requires is absent.
    MissingField(&'static str),
    /// The named thing has the wrong shape: a field of the schema, or the
    /// input itself where it matches none of the grammar's productions.
    InvalidFormat(&'static str),
    /// A number field is no unsigned integer.
    InvalidValue,
    /// The input ends inside a value.
    UnexpectedEOF,
}

/// Bencoded list.
pub type BList = Vec<Entry>;

/// Bencoded dictionary: byte-string keys, each bound to one value. The
/// entries are kept in ascending key order.
#[derive(Debug, PartialEq, Eq)]
pub struct BDictionary {
    entries: Vec<(BString, Entry)>,
}

/// A bencode value.
#[derive(Debug, PartialEq, Eq)]
pub enum Entry {
    Integer(BInt),
    String(BString),
    List(BList),
    Dictionary(BDictionary),
}

/// The model of a list's items.
pub open spec fn list_view(l: Seq<Entry>) -> Seq<BValue>
    decreases l,
{
    Seq::new(l.len(), |i: int| if 0 <= i < l.len() { l[i]@ } else { BValue::Integer(0) })
}

/// The model of a dictionary's entries, in the order in which they are kept.
pub open spec fn pairs_view(d: Seq<(BString, Entry)>) -> Seq<(Seq<u8>, BValue)>
    decreases d,
{
    Seq::new(
        d.len(),
        |i: int| if 0 <= i < d.len() { (d[i].0@, d[i].1@) } else { (Seq::empty(), BValue::Integer(0)) },
    )
}

impl View for BDictionary {
    type V = Seq<(Seq<u8>, BValue)>;

    closed spec fn view(&self) -> Seq<(Seq<u8>, BValue)>
        decreases self,
    {
        pairs_view(self.entries@)
    }
}

impl View for Entry {
    type V = BValue;

    open spec fn view(&self) -> BValue
        decreases self,
    {
        match self {
            Entry::Integer(i) => BValue::Integer(*i),
            Entry::String(s) => BValue::ByteString(s@),
            Entry::List(l) => BValue::List(list_view(l@)),
            Entry::Dictionary(d) => BValue::Dictionary(d@),
        }
    }
}

/// Whether `a` is below `b` in lexicographic order by raw byte value.
pub fn bytes_less(a: &[u8], b: &[u8]) -> (r: bool)
    ensures
        r == bytes_lt(a@, b@),
{
    let mut i: usize = 0;
    assert(a@.skip(0) =~= a@ && b@.skip(0) =~= b@);
    while i < a.len() && i < b.len()
        invariant
            i <= a.len(),
            i <= b.len(),
            bytes_lt(a@, b@) == bytes_lt(a@.skip(i as int), b@.skip(i as int)),
        decreases a.len() - i,
    {
        if a[i] != b[i] {
            return a[i] < b[i];
        }
        proof {
            assert(a@.skip(i as int).drop_first() =~= a@.skip(i + 1));
            assert(b@.skip(i as int).drop_first() =~= b@.skip(i + 1));
        }
        i += 1;
    }
    i < b.len()
}

/// Whether `a` and `b` hold the same bytes.
pub fn bytes_equal(a: &[u8], b: &[u8]) -> (r: bool)
    ensures
        r == (a@ == b@),
{
    if a.len() != b.len() {
        return false;
    }
    let mut i: usize = 0;
    while i < a.len()
        invariant
            i <= a.len(),
            a.len() == b.len(),
            forall|j: int| 0 <= j < i ==> a@[j] == b@[j],
        decreases a.len() - i,
    {
        if a[i] != b[i] {
            return false;
        }
        i += 1;
    }
    assert(a@ =~= b@);
    true
}

/// The distance from `start` to the first `delimiter` at or after it, or to
/// the end of `bytes` if there is none.
pub fn find_from(bytes: &[u8], start: usize, delimiter: u8) -> (k: usize)
    requires
        start <= bytes.len(),
    ensures
        k == find(bytes@.skip(start as int), delimiter),
        start + k <= bytes.len(),
{
    let mut k: usize = 0;
    while start + k < bytes.len() && bytes[start + k] != delimiter
        invariant
            start + k <= bytes.len(),
            forall|j: int| 0 <= j < k ==> bytes@.skip(start as int)[j] != delimiter,
        decreases bytes.len() - start - k,
    {
        k += 1;
    }
    proof {
        lemma_find_at(bytes@.skip(start as int), delimiter, k as int);
    }
    k
}

/// The leading digits of a digit string denote no more than the whole.
pub proof fn lemma_digits_value_prefix(s: Seq<u8>, j: int)
    requires
        all_digits(s),
        0 <= j <= s.len(),
    ensures
        digits_value(s.take(j)) <= digits_value(s),
    decreases s.len(),
{
    if j < s.len() {
        let t = s.drop_last();
        assert(is_digit(s[s.len() - 1]));
        assert forall|i: int| 0 <= i < t.len() implies is_digit(#[trigger] t[i]) by {
            assert(t[i] == s[i]);
        }
        lemma_digits_value_prefix(t, j);
        assert(t.take(j) =~= s.take(j));
    } else {
        assert(s.take(j) =~= s);
    }
}

/// The number field that `bytes` holds from `from` up to `to`.
pub fn parse_number_in(bytes: &[u8], from: usize, to: usize) -> (r: Result<u64, Error>)
    requires
        from <= to <= bytes.len(),
    ensures
        r == match parse_number(bytes@.subrange(from as int, to as int)) {
            Some(n) => Ok::<u64, Error>(n),
            None => Err::<u64, Error>(Error::InvalidValue),
        },
{
    let ghost field = bytes@.subrange(from as int, to as int);
    let mut i: usize = from;
    if i < to && bytes[i] == PLUS_SIGN {
        i += 1;
    }
    let start: usize = i;
    let ghost digits = bytes@.subrange(start as int, to as int);
    assert(digits =~= number_digits(field));
    if start == to {
        return Err(Error::InvalidValue);
    }
    let mut acc: u64 = 0;
    while i < to
        invariant
            from <= start <= i <= to <= bytes.len(),
            start < to,
            field == bytes@.subrange(from as int, to as int),
            digits == bytes@.subrange(start as int, to as int),
            digits == number_digits(field),
            all_digits(digits.take(i - start)),
            acc == digits_value(digits.take(i - start)),
        decreases to - i,
    {
        let b: u8 = bytes[i];
        if b < 0x30 || b > 0x39 {
            assert(!is_digit(digits[i - start]));
            return Err(Error::InvalidValue);
        }
        let d: u64 = (b - 0x30) as u64;
        let ghost next = digits.take(i + 1 - start);
        proof {
            assert(next.drop_last() =~= digits.take(i - start));
            assert(next.last() == b);
            assert(digits_value(next) == 10 * acc + d);
            assert forall|j: int| 0 <= j < next.len() implies is_digit(#[trigger] next[j]) by {
                if j < i - start {
                    assert(next[j] == digits.take(i - start)[j]);
                }
            }
        }
        if acc > (u64::MAX - d) / 10 {
            proof {
                if all_digits(digits) {
                    lemma_digits_value_prefix(digits, i + 1 - start);
                }
            }
            return Err(Error::InvalidValue);
        }
        acc = acc * 10 + d;
        i += 1;
    }
    assert(digits.take(to - start) =~= digits);
    Ok(acc)
}

/// Reads `bytes` as an unsigned integer in decimal: an optional `+`, then
/// one or more digits.
pub fn parse_utf8_bytes(bytes: &[u8]) -> (r: Result<u64, Error>)
    ensures
        r == match parse_number(bytes@) {
            Some(n) => Ok::<u64, Error>(n),
            None => Err::<u64, Error>(Error::InvalidValue),
        },
{
    assert(bytes@.subrange(0, bytes@.len() as int) =~= bytes@);
    parse_number_in(bytes, 0, bytes.len())
}

/// Appends the decimal digits of `n` to `out`.
pub fn push_decimal(out: &mut Vec<u8>, n: u64)
    ensures
        final(out)@ == old(out)@ + decimal(n as nat),
    decreases n,
{
    if n >= 10 {
        push_decimal(out, n / 10);
    }
    out.push(0x30 + (n % 10) as u8);
    assert(out@ =~= old(out)@ + decimal(n as nat));
}

impl BDictionary {
    #[verifier::type_invariant]
    spec fn inv(self) -> bool {
        keys_sorted(pairs_view(self.entries@))
    }

    /// The mapping that the dictionary stands for.
    pub open spec fn map(&self) -> Map<Seq<u8>, BValue> {
        as_map(self@)
    }

    /// A dictionary without entries.
    pub fn new() -> (d: Self)
        ensures
            d@ == Seq::<(Seq<u8>, BValue)>::empty(),
            keys_sorted(d@),
    {
        let d = BDictionary { entries: Vec::new() };
        assert(d@ =~= Seq::<(Seq<u8>, BValue)>::empty());
        d
    }

    /// The number of entries.
    pub fn len(&self) -> (n: usize)
        ensures
            n == self@.len(),
            keys_sorted(self@),
    {
        proof {
            use_type_invariant(self);
        }
        self.entries.len()
    }

    /// The entries in ascending key order.
    pub fn entries(&self) -> (entries: &Vec<(BString, Entry)>)
        ensures
            pairs_view(entries@) == self@,
            keys_sorted(self@),
    {
        proof {
            use_type_invariant(self);
        }
        &self.entries
    }

    /// The number of entries whose key is below `key`.
    fn position(&self, key: &[u8]) -> (p: usize)
        ensures
            p == rank(self@, key@),
            p <= self@.len(),
            keys_sorted(self@),
    {
        proof {
            use_type_invariant(self);
        }
        let mut p: usize = 0;
        while p < self.entries.len() && bytes_less(self.entries[p].0.0.as_slice(), key)
            invariant
                p <= self.entries.len(),
                forall|j: int| 0 <= j < p ==> bytes_lt((#[trigger] self@[j]).0, key@),
            decreases self.entries.len() - p,
        {
            p += 1;
        }
        proof {
            lemma_rank_unique(self@, key@, p as int);
        }
        p
    }

    /// Whether `key` is bound.
    pub fn contains_key(&self, key: &[u8]) -> (r: bool)
        ensures
            r == has_key(self@, key@),
            r == self.map().dom().contains(key@),
    {
        let p = self.position(key);
        proof {
            lemma_key_at_rank(self@, key@);
            lemma_as_map(self@);
        }
        p < self.entries.len() && bytes_equal(self.entries[p].0.0.as_slice(), key)
    }

    /// The value that `key` is bound to.
    pub fn get(&self, key: &[u8]) -> (r: Option<&Entry>)
        ensures
            match r {
                Some(e) => self.map().dom().contains(key@) && self.map()[key@] == e@,
                None => !self.map().dom().contains(key@),
            },
    {
        let p = self.position(key);
        proof {
            lemma_key_at_rank(self@, key@);
            lemma_as_map(self@);
        }
        if p < self.entries.len() && bytes_equal(self.entries[p].0.0.as_slice(), key) {
            assert(self@[p as int].1 == self.entries[p as int].1@);
            Some(&self.entries[p].1)
        } else {
            None
        }
    }

    /// Binds `key` to `value` and hands out the value that it was bound to before.
    pub fn insert(&mut self, key: BString, value: Entry) -> (r: Option<Entry>)
        ensures
            final(self)@ == dict_insert(old(self)@, key@, value@),
            final(self).map() == old(self).map().insert(key@, value@),
            final(self)@.len() == if old(self).map().dom().contains(key@) {
                old(self)@.len()
            } else {
                old(self)@.len() + 1
            },
            keys_sorted(final(self)@),
            match r {
                Some(e) => old(self).map().dom().contains(key@) && old(self).map()[key@] == e@,
                None => !old(self).map().dom().contains(key@),
            },
    {
        let p = self.position(key.0.as_slice());
        proof {
            lemma_key_at_rank(self@, key@);
            lemma_as_map(self@);
            lemma_dict_insert(self@, key@, value@);
            lemma_dict_remove(self@, key@);
        }
        let found = p < self.entries.len() && bytes_equal(
            self.entries[p].0.0.as_slice(),
            key.0.as_slice(),
        );
        let ghost before = self@;
        let mut entries: Vec<(BString, Entry)> = Vec::new();
        assert(pairs_view(entries@) =~= Seq::empty());
        core::mem::swap(&mut self.entries, &mut entries);
        assert(pairs_view(entries@) == before);
        let r = if found {
            let gone = entries.remove(p);
            assert(gone.1@ == before[p as int].1);
            Some(gone.1)
        } else {
            None
        };
        entries.insert(p, (key, value));
        assert(pairs_view(entries@) =~= dict_insert(before, key@, value@));
        self.entries = entries;
        r
    }

    /// Unbinds `key` and hands out the value that it was bound to.
    pub fn remove(&mut self, key: &[u8]) -> (r: Option<Entry>)
        ensures
            final(self)@ == dict_remove(old(self)@, key@),
            final(self).map() == old(self).map().remove(key@),
            final(self)@.len() == if old(self).map().dom().contains(key@) {
                old(self)@.len() - 1
            } else {
                old(self)@.len() as int
            },
            keys_sorted(final(self)@),
            match r {
                Some(e) => old(self).map().dom().contains(key@) && old(self).map()[key@] == e@,
                None => !old(self).map().dom().contains(key@),
            },
    {
        let p = self.position(key);
        proof {
            lemma_key_at_rank(self@, key@);
            lemma_as_map(self@);
            lemma_dict_remove(self@, key@);
        }
        if p < self.entries.len() && bytes_equal(self.entries[p].0.0.as_slice(), key) {
            let ghost before = self@;
            let mut entries: Vec<(BString, Entry)> = Vec::new();
            assert(pairs_view(entries@) =~= Seq::empty());
            core::mem::swap(&mut self.entries, &mut entries);
            assert(pairs_view(entries@) == before);
            let gone = entries.remove(p);
            assert(pairs_view(entries@) =~= dict_remove(before, key@));
            assert(gone.1@ == before[p as int].1);
            self.entries = entries;
            Some(gone.1)
        } else {
            None
        }
    }
}

/// Where an entry with key `k` goes among entries: before the first whose
/// key is above `k`, so behind those with the same key.
pub open spec fn upper_rank<V>(s: Seq<(BString, V)>, k: Seq<u8>) -> int
    decreases s.len(),
{
    if s.len() == 0 || bytes_lt(k, s[0].0@) {
        0
    } else {
        1 + upper_rank(s.drop_first(), k)
    }
}

/// The entries in ascending key order, those with the same key in the order
/// in which they were.
pub open spec fn sorted_by_key<V>(s: Seq<(BString, V)>) -> Seq<(BString, V)>
    decreases s.len(),
{
    if s.len() == 0 {
        s
    } else {
        let head = sorted_by_key(s.drop_last());
        head.insert(upper_rank(head, s.last().0@), s.last())
    }
}

/// An index with no key above `k` before it, and a key above `k` at it
/// unless it is the end, is where `upper_rank` points.
pub proof fn lemma_upper_rank_at<V>(s: Seq<(BString, V)>, k: Seq<u8>, p: int)
    requires
        0 <= p <= s.len(),
        forall|j: int| 0 <= j < p ==> !bytes_lt(k, (#[trigger] s[j]).0@),
        p < s.len() ==> bytes_lt(k, s[p].0@),
    ensures
        upper_rank(s, k) == p,
    decreases p,
{
    if p > 0 {
        let t = s.drop_first();
        assert(!bytes_lt(k, s[0].0@));
        assert forall|j: int| 0 <= j < p - 1 implies !bytes_lt(k, (#[trigger] t[j]).0@) by {
            assert(t[j] == s[j + 1]);
        }
        if p - 1 < t.len() {
            assert(t[p - 1] == s[p]);
        }
        lemma_upper_rank_at(t, k, p - 1);
    }
}

/// Where `upper_rank` points: no key above `k` before it, and a key above
/// `k` at it unless it is the end.
pub proof fn lemma_upper_rank<V>(s: Seq<(BString, V)>, k: Seq<u8>)
    ensures
        0 <= upper_rank(s, k) <= s.len(),
        forall|j: int| 0 <= j < upper_rank(s, k) ==> !bytes_lt(k, (#[trigger] s[j]).0@),
        upper_rank(s, k) < s.len() ==> bytes_lt(k, s[upper_rank(s, k)].0@),
    decreases s.len(),
{
    if s.len() == 0 || bytes_lt(k, s[0].0@) {
    } else {
        let t = s.drop_first();
        lemma_upper_rank(t, k);
        assert forall|j: int| 0 <= j < upper_rank(s, k) implies !bytes_lt(
            k,
            (#[trigger] s[j]).0@,
        ) by {
            if j > 0 {
                assert(s[j] == t[j - 1]);
            }
        }
        if upper_rank(s, k) < s.len() {
            assert(s[upper_rank(s, k)] == t[upper_rank(t, k)]);
        }
    }
}

/// Sorting loses and adds nothing, and leaves no key above a later one.
pub proof fn lemma_sorted_by_key<V>(s: Seq<(BString, V)>)
    ensures
        sorted_by_key(s).len() == s.len(),
        sorted_by_key(s).to_multiset() == s.to_multiset(),
        forall|i: int, j: int|
            #![trigger sorted_by_key(s)[i], sorted_by_key(s)[j]]
            0 <= i < j < s.len() ==> !bytes_lt(sorted_by_key(s)[j].0@, sorted_by_key(s)[i].0@),
    decreases s.len(),
{
    broadcast use {vstd::seq_lib::to_multiset_insert, vstd::seq_lib::to_multiset_build};

    if s.len() > 0 {
        let head = sorted_by_key(s.drop_last());
        let e = s.last();
        let p = upper_rank(head, e.0@);
        let r = sorted_by_key(s);
        lemma_sorted_by_key(s.drop_last());
        lemma_upper_rank(head, e.0@);
        assert(s.drop_last().push(e) =~= s);
        assert(r.to_multiset() =~= s.to_multiset());
        assert forall|i: int, j: int| 0 <= i < j < s.len() implies !bytes_lt(
            (#[trigger] r[j]).0@,
            (#[trigger] r[i]).0@,
        ) by {
            if j < p {
                assert(r[i] == head[i] && r[j] == head[j]);
            } else if j == p {
                assert(r[i] == head[i]);
                if bytes_lt(e.0@, head[i].0@) {
                }
            } else if i == p {
                assert(r[j] == head[j - 1]);
                if j - 1 > p {
                    assert(!bytes_lt(head[j - 1].0@, head[p].0@));
                    if bytes_lt(head[j - 1].0@, e.0@) {
                        lemma_bytes_lt_transitive(head[j - 1].0@, e.0@, head[p].0@);
                    }
                } else {
                    lemma_bytes_lt_asymmetric(e.0@, head[p].0@);
                }
            } else if i < p {
                assert(r[i] == head[i] && r[j] == head[j - 1]);
            } else {
                assert(r[i] == head[i - 1] && r[j] == head[j - 1]);
            }
        }
    }
}

/// Sorts entries by key in ascending order of raw bytes. Entries with the
/// same key keep their order.
pub fn sort_key_value_entries<V>(entries: &mut Vec<(BString, V)>)
    ensures
        final(entries)@ == sorted_by_key(old(entries)@),
{
    let ghost before = entries@;
    let mut i: usize = 0;
    assert(before.take(0) =~= Seq::<(BString, V)>::empty());
    assert(entries@.skip(0) =~= before.skip(0));
    while i < entries.len()
        invariant
            i <= entries.len(),
            entries@.len() == before.len(),
            entries@.take(i as int) == sorted_by_key(before.take(i as int)),
            entries@.skip(i as int) == before.skip(i as int),
        decreases entries.len() - i,
    {
        let ghost head = entries@.take(i as int);
        let ghost tail = entries@.skip(i + 1);
        assert(entries@[i as int] == before.skip(i as int)[0]);
        let e = entries.remove(i);
        assert(entries@ =~= head + tail);
        let mut p: usize = 0;
        while p < i && !bytes_less(e.0.0.as_slice(), entries[p].0.0.as_slice())
            invariant
                p <= i,
                i < before.len(),
                entries@ == head + tail,
                head.len() == i,
                forall|j: int| 0 <= j < p ==> !bytes_lt(e.0@, (#[trigger] head[j]).0@),
            decreases i - p,
        {
            assert(entries@[p as int] == head[p as int]);
            p += 1;
        }
        proof {
            if p < i {
                assert(entries@[p as int] == head[p as int]);
            }
            lemma_upper_rank_at(head, e.0@, p as int);
            assert(before.take(i + 1).drop_last() =~= before.take(i as int));
            assert(before.take(i + 1).last() == e);
        }
        entries.insert(p, e);
        proof {
            assert(entries@.take(i + 1) =~= head.insert(p as int, e));
            assert(entries@.skip(i + 1) =~= tail);
            assert(tail =~= before.skip(i + 1)) by {
                assert(forall|j: int|
                    0 <= j < tail.len() ==> tail[j] == before.skip(i as int)[j + 1]);
            }
        }
        i += 1;
    }
    assert(before.take(before.len() as int) =~= before);
    assert(entries@.take(entries@.len() as int) =~= entries@);
}

/// The result of parsing the items that follow, behind items already parsed.
pub open spec fn behind_items(
    done: Seq<BValue>,
    r: Result<(Seq<BValue>, Seq<u8>), Error>,
) -> Result<(Seq<BValue>, Seq<u8>), Error> {
    match r {
        Ok((l, rest)) => Ok((done + l, rest)),
        Err(e) => Err(e),
    }
}

/// The result of parsing the entries that follow, behind entries already parsed.
pub open spec fn behind_pairs(
    done: Seq<(Seq<u8>, BValue)>,
    r: Result<(Seq<(Seq<u8>, BValue)>, Seq<u8>), Error>,
) -> Result<(Seq<(Seq<u8>, BValue)>, Seq<u8>), Error> {
    match r {
        Ok((d, rest)) => Ok((done + d, rest)),
        Err(e) => Err(e),
    }
}

/// Reads the integer that starts at `pos`, and says where it ends.
pub fn decode_int_at(bytes: &[u8], pos: usize) -> (r: Result<(BInt, usize), Error>)
    requires
        pos <= bytes.len(),
    ensures
        match parse_int(bytes@.skip(pos as int)) {
            Ok((n, rest)) => r matches Ok((m, p)) && m == n && pos < p <= bytes.len()
                && bytes@.skip(p as int) == rest,
            Err(e) => r == Err::<(BInt, usize), Error>(e),
        },
{
    if pos >= bytes.len() || bytes[pos] != INT_PREFIX {
        return Err(Error::InvalidFormat(GRAMMAR));
    }
    let k = find_from(bytes, pos + 1, END_SUFFIX);
    let ghost body = bytes@.skip(pos as int).drop_first();
    assert(body =~= bytes@.skip(pos + 1));
    assert(body.take(k as int) =~= bytes@.subrange(pos + 1, pos + 1 + k));
    match parse_number_in(bytes, pos + 1, pos + 1 + k) {
        Err(e) => Err(e),
        Ok(n) => {
            if pos + 1 + k == bytes.len() {
                Err(Error::UnexpectedEOF)
            } else {
                assert(body.skip(k + 1) =~= bytes@.skip(pos + k + 2));
                Ok((n, pos + k + 2))
            }
        },
    }
}

/// Reads the byte string that starts at `pos`, and says where it ends.
pub fn decode_bytes_at(bytes: &[u8], pos: usize) -> (r: Result<(BString, usize), Error>)
    requires
        pos <= bytes.len(),
    ensures
        match parse_bytes(bytes@.skip(pos as int)) {
            Ok((s, rest)) => r matches Ok((b, p)) && b@ == s && pos < p <= bytes.len()
                && bytes@.skip(p as int) == rest,
            Err(e) => r == Err::<(BString, usize), Error>(e),
        },
{
    let k = find_from(bytes, pos, STRING_INFIX);
    let ghost input = bytes@.skip(pos as int);
    assert(input.take(k as int) =~= bytes@.subrange(pos as int, pos + k));
    match parse_number_in(bytes, pos, pos + k) {
        Err(e) => Err(e),
        Ok(n) => {
            if pos + k == bytes.len() {
                return Err(Error::UnexpectedEOF);
            }
            let start: usize = pos + k + 1;
            let avail: usize = bytes.len() - start;
            if (avail as u64) < n {
                return Err(Error::UnexpectedEOF);
            }
            let end: usize = start + n as usize;
            let contents = slice_to_vec(slice_subrange(bytes, start, end));
            assert(input.subrange(k + 1, k + 1 + n) =~= bytes@.subrange(start as int, end as int));
            assert(input.skip(k + 1 + n) =~= bytes@.skip(end as int));
            Ok((BString(contents), end))
        },
    }
}

/// One more item parsed: what the whole parses to is unchanged.
proof fn lemma_behind_items_step(done: Seq<BValue>, input: Seq<u8>, v: BValue, rest: Seq<u8>)
    requires
        input.len() > 0,
        input[0] != END_SUFFIX,
        parse_value(input) == Ok::<(BValue, Seq<u8>), Error>((v, rest)),
        rest.len() < input.len(),
    ensures
        behind_items(done, parse_items(input)) == behind_items(done.push(v), parse_items(rest)),
{
    match parse_items(rest) {
        Ok((l, after)) => {
            assert(done + (seq![v] + l) =~= done.push(v) + l);
        },
        Err(e) => {},
    }
}

/// One more entry parsed: what the whole parses to is unchanged.
proof fn lemma_behind_pairs_step(
    done: Seq<(Seq<u8>, BValue)>,
    input: Seq<u8>,
    k: Seq<u8>,
    rest: Seq<u8>,
    v: BValue,
    rest2: Seq<u8>,
)
    requires
        input.len() > 0,
        input[0] != END_SUFFIX,
        parse_bytes(input) == Ok::<(Seq<u8>, Seq<u8>), Error>((k, rest)),
        rest.len() < input.len(),
        parse_value(rest) == Ok::<(BValue, Seq<u8>), Error>((v, rest2)),
        rest2.len() < rest.len(),
    ensures
        behind_pairs(done, parse_pairs(input)) == behind_pairs(
            done.push((k, v)),
            parse_pairs(rest2),
        ),
{
    match parse_pairs(rest2) {
        Ok((d, after)) => {
            assert(done + (seq![(k, v)] + d) =~= done.push((k, v)) + d);
        },
        Err(e) => {},
    }
}

/// Reads the value that starts at `pos`, and says where it ends.
pub fn decode_entry_at(bytes: &[u8], pos: usize) -> (r: Result<(Entry, usize), Error>)
    requires
        pos <= bytes.len(),
    ensures
        match parse_value(bytes@.skip(pos as int)) {
            Ok((v, rest)) => r matches Ok((e, p)) && e@ == v && pos < p <= bytes.len()
                && bytes@.skip(p as int) == rest,
            Err(e) => r == Err::<(Entry, usize), Error>(e),
        },
    decreases bytes.len() - pos, 0nat,
{
    if pos >= bytes.len() {
        return Err(Error::InvalidFormat(GRAMMAR));
    }
    let b: u8 = bytes[pos];
    assert(bytes@.skip(pos as int).drop_first() =~= bytes@.skip(pos + 1));
    if b == INT_PREFIX {
        match decode_int_at(bytes, pos) {
            Ok((n, p)) => Ok((Entry::Integer(n), p)),
            Err(e) => Err(e),
        }
    } else if b == LIST_PREFIX {
        match decode_items_at(bytes, pos + 1) {
            Ok((l, p)) => Ok((Entry::List(l), p)),
            Err(e) => Err(e),
        }
    } else if b == DICTIONARY_PREFIX {
        match decode_pairs_at(bytes, pos + 1) {
            Ok((d, p)) => Ok((Entry::Dictionary(d), p)),
            Err(e) => Err(e),
        }
    } else if 0x30 <= b && b <= 0x39 {
        match decode_bytes_at(bytes, pos) {
            Ok((s, p)) => Ok((Entry::String(s), p)),
            Err(e) => Err(e),
        }
    } else {
        Err(Error::InvalidFormat(GRAMMAR))
    }
}

/// Reads the items of a list from `pos`, just behind its `l`, up to its `e`,
/// and says where the list ends.
pub fn decode_items_at(bytes: &[u8], pos: usize) -> (r: Result<(BList, usize), Error>)
    requires
        pos <= bytes.len(),
    ensures
        match parse_items(bytes@.skip(pos as int)) {
            Ok((l, rest)) => r matches Ok((v, p)) && list_view(v@) == l && pos < p <= bytes.len()
                && bytes@.skip(p as int) == rest,
            Err(e) => r == Err::<(BList, usize), Error>(e),
        },
    decreases bytes.len() - pos, 1nat,
{
    let mut list: Vec<Entry> = Vec::new();
    let mut cur: usize = pos;
    assert(Seq::<BValue>::empty() + parse_items(bytes@.skip(pos as int))->Ok_0.0
        =~= parse_items(bytes@.skip(pos as int))->Ok_0.0);
    assert(list_view(list@) =~= Seq::<BValue>::empty());
    loop
        invariant
            pos <= cur <= bytes.len(),
            parse_items(bytes@.skip(pos as int)) == behind_items(
                list_view(list@),
                parse_items(bytes@.skip(cur as int)),
            ),
        decreases bytes.len() - cur,
    {
        if cur >= bytes.len() {
            return Err(Error::UnexpectedEOF);
        }
        assert(bytes@.skip(cur as int).drop_first() =~= bytes@.skip(cur + 1));
        if bytes[cur] == END_SUFFIX {
            assert(list_view(list@) + Seq::<BValue>::empty() =~= list_view(list@));
            return Ok((list, cur + 1));
        }
        match decode_entry_at(bytes, cur) {
            Err(e) => {
                return Err(e);
            },
            Ok((e, p)) => {
                proof {
                    lemma_behind_items_step(
                        list_view(list@),
                        bytes@.skip(cur as int),
                        e@,
                        bytes@.skip(p as int),
                    );
                    assert(list_view(list@.push(e)) =~= list_view(list@).push(e@));
                }
                list.push(e);
                cur = p;
            },
        }
    }
}

/// Reads the entries of a dictionary from `pos`, just behind its `d`, up to
/// its `e`, and says where the dictionary ends. Of two entries with one key
/// the later stays.
pub fn decode_pairs_at(bytes: &[u8], pos: usize) -> (r: Result<(BDictionary, usize), Error>)
    requires
        pos <= bytes.len(),
    ensures
        match parse_pairs(bytes@.skip(pos as int)) {
            Ok((d, rest)) => r matches Ok((v, p)) && v@ == from_pairs(d) && pos < p <= bytes.len()
                && bytes@.skip(p as int) == rest,
            Err(e) => r == Err::<(BDictionary, usize), Error>(e),
        },
    decreases bytes.len() - pos, 1nat,
{
    let mut dictionary = BDictionary::new();
    let mut cur: usize = pos;
    let ghost mut done: Seq<(Seq<u8>, BValue)> = Seq::empty();
    assert(done + parse_pairs(bytes@.skip(pos as int))->Ok_0.0 =~= parse_pairs(
        bytes@.skip(pos as int),
    )->Ok_0.0);
    loop
        invariant
            pos <= cur <= bytes.len(),
            dictionary@ == from_pairs(done),
            parse_pairs(bytes@.skip(pos as int)) == behind_pairs(
                done,
                parse_pairs(bytes@.skip(cur as int)),
            ),
        decreases bytes.len() - cur,
    {
        if cur >= bytes.len() {
            return Err(Error::UnexpectedEOF);
        }
        assert(bytes@.skip(cur as int).drop_first() =~= bytes@.skip(cur + 1));
        if bytes[cur] == END_SUFFIX {
            assert(done + Seq::<(Seq<u8>, BValue)>::empty() =~= done);
            return Ok((dictionary, cur + 1));
        }
        match decode_bytes_at(bytes, cur) {
            Err(e) => {
                return Err(e);
            },
            Ok((key, after_key)) => {
                match decode_entry_at(bytes, after_key) {
                    Err(e) => {
                        return Err(e);
                    },
                    Ok((value, after_value)) => {
                        proof {
                            lemma_behind_pairs_step(
                                done,
                                bytes@.skip(cur as int),
                                key@,
                                bytes@.skip(after_key as int),
                                value@,
                                bytes@.skip(after_value as int),
                            );
                            assert(done.push((key@, value@)).drop_last() =~= done);
                            done = done.push((key@, value@));
                        }
                        dictionary.insert(key, value);
                        cur = after_value;
                    },
                }
            },
        }
    }
}

/// A copy of a value.
pub fn clone_entry(entry: &Entry) -> (copy: Entry)
    ensures
        copy@ == entry@,
    decreases entry, 0nat,
{
    match entry {
        Entry::Integer(n) => Entry::Integer(*n),
        Entry::String(s) => Entry::String(BString(slice_to_vec(s.0.as_slice()))),
        Entry::List(l) => Entry::List(clone_list(l)),
        Entry::Dictionary(d) => Entry::Dictionary(clone_dictionary(d)),
    }
}

/// A copy of a list.
pub fn clone_list(list: &BList) -> (copy: BList)
    ensures
        list_view(copy@) == list_view(list@),
    decreases list, 1nat,
{
    let mut copy: Vec<Entry> = Vec::new();
    let mut i: usize = 0;
    while i < list.len()
        invariant
            i <= list.len(),
            copy@.len() == i,
            forall|j: int| 0 <= j < i ==> (#[trigger] copy@[j])@ == list@[j]@,
        decreases list.len() - i,
    {
        copy.push(clone_entry(&list[i]));
        i += 1;
    }
    assert(list_view(copy@) =~= list_view(list@));
    copy
}

/// A copy of a dictionary.
pub fn clone_dictionary(dictionary: &BDictionary) -> (copy: BDictionary)
    ensures
        copy@ == dictionary@,
    decreases dictionary, 1nat,
{
    proof {
        use_type_invariant(dictionary);
    }
    let entries = &dictionary.entries;
    let mut copy: Vec<(BString, Entry)> = Vec::new();
    let mut i: usize = 0;
    while i < entries.len()
        invariant
            i <= entries.len(),
            entries == dictionary.entries,
            copy@.len() == i,
            forall|j: int|
                0 <= j < i ==> (#[trigger] copy@[j]).0@ == entries@[j].0@ && copy@[j].1@
                    == entries@[j].1@,
        decreases entries.len() - i,
    {
        let key = BString(slice_to_vec(entries[i].0.0.as_slice()));
        let value = clone_entry(&entries[i].1);
        copy.push((key, value));
        i += 1;
    }
    assert(pairs_view(copy@) =~= pairs_view(entries@));
    BDictionary { entries: copy }
}

impl Clone for Entry {
    fn clone(&self) -> (copy: Self)
        ensures
            copy@ == self@,
    {
        clone_entry(self)
    }
}

impl Clone for BDictionary {
    fn clone(&self) -> (copy: Self)
        ensures
            copy@ == self@,
    {
        clone_dictionary(self)
    }
}

/// Appends the encoding of a byte string to `out`.
pub fn encode_bytes_into(bytes: &[u8], out: &mut Vec<u8>)
    ensures
        final(out)@ == old(out)@ + encode_bytes(bytes@),
        bytes@.len() <= u64::MAX,
{
    push_decimal(out, bytes.len() as u64);
    out.push(STRING_INFIX);
    out.extend_from_slice(bytes);
    assert(out@ =~= old(out)@ + encode_bytes(bytes@));
}

/// Appends the encoding of an integer to `out`.
pub fn encode_int_into(n: BInt, out: &mut Vec<u8>)
    ensures
        final(out)@ == old(out)@ + encode_int(n),
{
    out.push(INT_PREFIX);
    push_decimal(out, n);
    out.push(END_SUFFIX);
    assert(out@ =~= old(out)@ + encode_int(n));
}

/// Appends the encoding of a value to `out`.
pub fn encode_entry_into(entry: &Entry, out: &mut Vec<u8>)
    ensures
        final(out)@ == old(out)@ + encode_value(entry@),
        well_formed(entry@),
    decreases entry, 0nat,
{
    match entry {
        Entry::Integer(n) => encode_int_into(*n, out),
        Entry::String(s) => encode_bytes_into(s.0.as_slice(), out),
        Entry::List(l) => {
            out.push(LIST_PREFIX);
            encode_items_into(l, out);
            out.push(END_SUFFIX);
            assert(out@ =~= old(out)@ + encode_value(entry@));
        },
        Entry::Dictionary(d) => {
            out.push(DICTIONARY_PREFIX);
            encode_pairs_into(d, out);
            out.push(END_SUFFIX);
            assert(out@ =~= old(out)@ + encode_value(entry@));
        },
    }
}

/// Appends the encodings of the items of a list to `out`.
pub fn encode_items_into(list: &BList, out: &mut Vec<u8>)
    ensures
        final(out)@ == old(out)@ + encode_items(list_view(list@)),
        forall|i: int| 0 <= i < list@.len() ==> well_formed(#[trigger] list_view(list@)[i]),
    decreases list, 1nat,
{
    let ghost items = list_view(list@);
    let mut i: usize = 0;
    assert(items.take(0) =~= Seq::<BValue>::empty());
    while i < list.len()
        invariant
            i <= list.len(),
            items == list_view(list@),
            out@ == old(out)@ + encode_items(items.take(i as int)),
            forall|j: int| 0 <= j < i ==> well_formed(#[trigger] items[j]),
        decreases list.len() - i,
    {
        proof {
            lemma_encode_items_push(items.take(i as int), items[i as int]);
            assert(items.take(i as int).push(items[i as int]) =~= items.take(i + 1));
        }
        encode_entry_into(&list[i], out);
        i += 1;
    }
    assert(items.take(list@.len() as int) =~= items);
}

/// Appends the encodings of the entries of a dictionary to `out`, in
/// ascending key order.
pub fn encode_pairs_into(dictionary: &BDictionary, out: &mut Vec<u8>)
    ensures
        final(out)@ == old(out)@ + encode_pairs(dictionary@),
        well_formed(BValue::Dictionary(dictionary@)),
    decreases dictionary, 1nat,
{
    proof {
        use_type_invariant(dictionary);
    }
    let entries = &dictionary.entries;
    let ghost pairs = dictionary@;
    let mut i: usize = 0;
    assert(pairs.take(0) =~= Seq::<(Seq<u8>, BValue)>::empty());
    while i < entries.len()
        invariant
            i <= entries.len(),
            pairs == pairs_view(entries@),
            pairs == dictionary@,
            entries == dictionary.entries,
            out@ == old(out)@ + encode_pairs(pairs.take(i as int)),
            forall|j: int|
                0 <= j < i ==> (#[trigger] pairs[j]).0.len() <= u64::MAX && well_formed(pairs[j].1),
        decreases entries.len() - i,
    {
        proof {
            lemma_encode_pairs_push(pairs.take(i as int), pairs[i as int]);
            assert(pairs.take(i as int).push(pairs[i as int]) =~= pairs.take(i + 1));
        }
        encode_bytes_into(entries[i].0.0.as_slice(), out);
        encode_entry_into(&entries[i].1, out);
        assert(out@ =~= old(out)@ + (encode_pairs(pairs.take(i as int)) + (encode_bytes(
            pairs[i as int].0,
        ) + encode_value(pairs[i as int].1))));
        i += 1;
    }
    assert(pairs.take(entries@.len() as int) =~= pairs);
}

} // verus!
