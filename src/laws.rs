use vstd::prelude::*;
use crate::value::{Node, ErrorKind};
use vstd::utf8::{encode_utf8, encode_utf8_valid_utf8, encode_utf8_decode_utf8};
use crate::grammar::{
    is_digit, digit_run_end, digits_value, fits_i64, spec_length, spec_bytes, spec_string,
    spec_number, spec_value, spec_list, spec_list_rest, spec_entry, spec_dict, spec_dict_rest,
    has_key, put,
};

verus! {

/// The shortest decimal form of `n`, as ASCII digits.
pub open spec fn decimal(n: nat) -> Seq<u8>
    decreases n,
{
    if n < 10 {
        seq![(0x30 + n) as u8]
    } else {
        decimal(n / 10).push((0x30 + n % 10) as u8)
    }
}

/// The canonical encoding of an integer: `i`, `-` for a negative one, its
/// decimal digits, `e`.
pub open spec fn encode_int(n: int) -> Seq<u8> {
    if n < 0 {
        seq![0x69u8, 0x2du8] + decimal((-n) as nat) + seq![0x65u8]
    } else {
        seq![0x69u8] + decimal(n as nat) + seq![0x65u8]
    }
}

/// The encoding of a byte string: its length in decimal, `:`, the bytes.
pub open spec fn encode_bytes(b: Seq<u8>) -> Seq<u8> {
    decimal(b.len()) + seq![0x3au8] + b
}

proof fn lemma_decimal_digits(n: nat, s: Seq<u8>, p: int)
    requires
        0 <= p,
        p + decimal(n).len() <= s.len(),
        s.subrange(p, p + decimal(n).len()) == decimal(n),
    ensures
        decimal(n).len() >= 1,
        digits_value(s, p, p + decimal(n).len()) == n,
        forall|i: int| p <= i < p + decimal(n).len() ==> is_digit(#[trigger] s[i]),
    decreases n,
{
    let d = decimal(n);
    let q = p + d.len();
    assert(s[q - 1] == s.subrange(p, q)[d.len() - 1]);
    if n < 10 {
        assert(digits_value(s, p, p) == 0);
    } else {
        let h = decimal(n / 10);
        assert(s.subrange(p, p + h.len()) =~= s.subrange(p, q).subrange(0, h.len() as int));
        assert(d.subrange(0, h.len() as int) =~= h);
        lemma_decimal_digits(n / 10, s, p);
        assert(n == (n / 10) * 10 + n % 10);
        assert forall|i: int| p <= i < q implies is_digit(#[trigger] s[i]) by {
            if i < q - 1 {
                assert(s[i] == s.subrange(p, p + h.len())[i - p]);
            }
        }
    }
}

/// Where every byte of `s[p..q]` is a digit and the byte at `q`, if any, is
/// not, the digit run at `p` ends at `q`.
proof fn lemma_run_end(s: Seq<u8>, p: int, q: int)
    requires
        0 <= p <= q <= s.len(),
        forall|i: int| p <= i < q ==> is_digit(#[trigger] s[i]),
        q == s.len() || !is_digit(s[q]),
    ensures
        digit_run_end(s, p) == q,
    decreases q - p,
{
    if p < q {
        lemma_run_end(s, p + 1, q);
    }
}

/// A decimal number placed at `p` and followed by a non-digit reads back.
proof fn lemma_read_decimal(n: nat, s: Seq<u8>, p: int)
    requires
        0 <= p,
        p + decimal(n).len() < s.len(),
        s.subrange(p, p + decimal(n).len()) == decimal(n),
        !is_digit(s[p + decimal(n).len()]),
    ensures
        decimal(n).len() >= 1,
        digit_run_end(s, p) == p + decimal(n).len(),
        digits_value(s, p, p + decimal(n).len()) == n,
{
    lemma_decimal_digits(n, s, p);
    lemma_run_end(s, p, p + decimal(n).len());
}

/// An integer's encoding, found at `p`, decodes to that integer.
proof fn lemma_int_at(n: int, s: Seq<u8>, p: int)
    requires
        fits_i64(n),
        0 <= p,
        p + encode_int(n).len() <= s.len(),
        s.subrange(p, p + encode_int(n).len()) == encode_int(n),
    ensures
        spec_value(s, p) == Ok::<(Node, int), (ErrorKind, int)>((Node::Number(n), p + encode_int(n).len())),
{
    let e = encode_int(n);
    let m: nat = if n < 0 { (-n) as nat } else { n as nat };
    let d: int = if n < 0 { p + 2 } else { p + 1 };
    let q = d + decimal(m).len();
    assert(s[p] == e[0]);
    assert(s[q] == e[q - p]);
    if n < 0 {
        assert(s[p + 1] == e[1]);
    } else {
        assert(s[p + 1] == e[1]);
        assert(decimal(m)[0] == e[1]);
        assert(decimal(m).subrange(0, decimal(m).len() as int) =~= decimal(m));
        lemma_decimal_digits(m, decimal(m), 0);
        assert(is_digit(decimal(m)[0]));
    }
    assert(s.subrange(d, q) =~= s.subrange(p, p + e.len()).subrange(d - p, q - p));
    assert(s.subrange(d, q) =~= decimal(m));
    lemma_read_decimal(m, s, d);
    assert(spec_number(s, p) == Ok::<(int, int), (ErrorKind, int)>((n, q + 1)));
}

/// Integers: the encoding `i<n>e` of an integer in 64-bit range decodes to
/// that integer and consumes the whole input.
pub proof fn law_integer_decodes(n: int)
    requires
        fits_i64(n),
    ensures
        spec_value(encode_int(n), 0) == Ok::<(Node, int), (ErrorKind, int)>(
            (Node::Number(n), encode_int(n).len() as int),
        ),
{
    assert(encode_int(n).subrange(0, encode_int(n).len() as int) =~= encode_int(n));
    lemma_int_at(n, encode_int(n), 0);
}

/// A byte string's encoding, found at `p`, decodes to those bytes.
proof fn lemma_bytes_at(b: Seq<u8>, s: Seq<u8>, p: int)
    requires
        0 <= p,
        p + encode_bytes(b).len() <= s.len(),
        s.subrange(p, p + encode_bytes(b).len()) == encode_bytes(b),
    ensures
        spec_bytes(s, p) == Ok::<(Seq<u8>, int), (ErrorKind, int)>((b, p + encode_bytes(b).len())),
        spec_value(s, p) == Ok::<(Node, int), (ErrorKind, int)>((Node::Bytes(b), p + encode_bytes(b).len())),
{
    let e = encode_bytes(b);
    let k: int = decimal(b.len()).len() as int;
    assert(s[p + k] == e[k as int]);
    assert(s.subrange(p, p + k) =~= s.subrange(p, p + e.len()).subrange(0, k as int));
    assert(s.subrange(p, p + k) =~= decimal(b.len()));
    lemma_read_decimal(b.len(), s, p);
    assert(s[p] == s.subrange(p, p + k)[0]);
    assert(spec_length(s, p) == Ok::<(nat, int), (ErrorKind, int)>((b.len(), p + k + 1)));
    assert(s.subrange(p + k + 1, p + e.len()) =~= s.subrange(p, p + e.len()).subrange(k + 1, e.len() as int));
    assert(s.subrange(p + k + 1, p + e.len()) =~= b);
}

/// Byte strings: the encoding `<len>:<bytes>` of any byte string, followed by
/// anything, decodes to those bytes and leaves exactly what followed.
pub proof fn law_bytes_decode(b: Seq<u8>, rest: Seq<u8>)
    ensures
        spec_value(encode_bytes(b) + rest, 0) == Ok::<(Node, int), (ErrorKind, int)>(
            (Node::Bytes(b), encode_bytes(b).len() as int),
        ),
        (encode_bytes(b) + rest).subrange(encode_bytes(b).len() as int, (encode_bytes(b) + rest).len() as int) == rest,
{
    let s = encode_bytes(b) + rest;
    assert(s.subrange(0, encode_bytes(b).len() as int) =~= encode_bytes(b));
    assert(s.subrange(encode_bytes(b).len() as int, s.len() as int) =~= rest);
    lemma_bytes_at(b, s, 0);
}

/// The canonical encoding of a value tree. Text is written as its UTF-8
/// bytes; list items and dictionary entries keep their order.
pub open spec fn encode(t: Node) -> Seq<u8>
    decreases t, children(t),
{
    match t {
        Node::Number(n) => encode_int(n),
        Node::Text(c) => encode_bytes(encode_utf8(c)),
        Node::Bytes(b) => encode_bytes(b),
        Node::List(_) => seq![0x6cu8] + encode_items(t, 0) + seq![0x65u8],
        Node::Dict(_) => seq![0x64u8] + encode_items(t, 0) + seq![0x65u8],
    }
}

/// The encodings of the items (or entries) of `t` from index `k` on, one
/// after another. An entry is its key's encoding, then its value's.
pub open spec fn encode_items(t: Node, k: int) -> Seq<u8>
    decreases t, children(t) - 1 - k,
{
    match t {
        Node::List(items) => if 0 <= k < items.len() {
            encode(items[k]) + encode_items(t, k + 1)
        } else {
            Seq::empty()
        },
        Node::Dict(entries) => if 0 <= k < entries.len() {
            encode_entry(entries[k].0, entries[k].1) + encode_items(t, k + 1)
        } else {
            Seq::empty()
        },
        _ => Seq::empty(),
    }
}

/// One dictionary entry: the key's UTF-8 bytes as a byte string, then the
/// value.
pub open spec fn encode_entry(key: Seq<char>, v: Node) -> Seq<u8>
    decreases v, children(v) + 1,
{
    encode_bytes(encode_utf8(key)) + encode(v)
}

/// One more than the number of items or entries of a list or dictionary.
pub open spec fn children(t: Node) -> int {
    match t {
        Node::List(items) => items.len() as int + 1,
        Node::Dict(entries) => entries.len() as int + 1,
        _ => 0,
    }
}

/// The trees whose encoding the grammar accepts: integers in 64-bit range
/// and no empty list or dictionary.
pub open spec fn decodable(t: Node) -> bool
    decreases t,
{
    match t {
        Node::Number(n) => fits_i64(n),
        Node::Text(_) => true,
        Node::Bytes(_) => true,
        Node::List(items) => items.len() > 0 && forall|i: int|
            0 <= i < items.len() ==> decodable(#[trigger] items[i]),
        Node::Dict(entries) => entries.len() > 0 && forall|i: int|
            0 <= i < entries.len() ==> decodable(#[trigger] entries[i].1),
    }
}

/// The tree that decoding gives back for `t`: text becomes its UTF-8 bytes,
/// list items keep their order, and each dictionary's entries are folded in
/// order with `put`, so that the last of equal keys wins.
pub open spec fn normalize(t: Node) -> Node
    decreases t, children(t),
{
    match t {
        Node::Text(c) => Node::Bytes(encode_utf8(c)),
        Node::List(items) => Node::List(normal_items(t, items.len() as int)),
        Node::Dict(entries) => Node::Dict(normal_entries(t, entries.len() as int)),
        _ => t,
    }
}

/// The normalized first `k` items of the list `t`.
pub open spec fn normal_items(t: Node, k: int) -> Seq<Node>
    decreases t, k,
{
    match t {
        Node::List(items) => if 0 < k <= items.len() {
            normal_items(t, k - 1).push(normalize(items[k - 1]))
        } else {
            Seq::empty()
        },
        _ => Seq::empty(),
    }
}

/// The first `k` entries of the dictionary `t`, normalized and folded.
pub open spec fn normal_entries(t: Node, k: int) -> Seq<(Seq<char>, Node)>
    decreases t, k,
{
    match t {
        Node::Dict(entries) => if 0 < k <= entries.len() {
            put(normal_entries(t, k - 1), entries[k - 1].0, normalize(entries[k - 1].1))
        } else {
            Seq::empty()
        },
        _ => Seq::empty(),
    }
}

/// An encoding is never empty, and never starts with the closing `e`.
proof fn lemma_encode_head(t: Node)
    requires
        decodable(t),
    ensures
        encode(t).len() >= 1,
        encode(t)[0] != 0x65,
{
    match t {
        Node::Bytes(b) => {
            let d = decimal(b.len());
            assert(d.subrange(0, d.len() as int) =~= d);
            lemma_decimal_digits(b.len(), d, 0);
            assert(encode(t)[0] == d[0]);
        },
        Node::Text(c) => {
            let d = decimal(encode_utf8(c).len());
            assert(d.subrange(0, d.len() as int) =~= d);
            lemma_decimal_digits(encode_utf8(c).len(), d, 0);
            assert(encode(t)[0] == d[0]);
        },
        _ => {},
    }
}

/// Where the bytes at `p` are the encoding of `t`, the value rule decodes `t`.
proof fn lemma_value_at(t: Node, s: Seq<u8>, p: int)
    requires
        decodable(t),
        0 <= p,
        p + encode(t).len() <= s.len(),
        s.subrange(p, p + encode(t).len()) == encode(t),
    ensures
        spec_value(s, p) == Ok::<(Node, int), (ErrorKind, int)>(
            (normalize(t), p + encode(t).len()),
        ),
    decreases t, children(t),
{
    let e = encode(t);
    let end = p + e.len();
    assert(s[p] == s.subrange(p, end)[0]);
    match t {
        Node::Number(n) => {
            lemma_int_at(n, s, p);
        },
        Node::Bytes(b) => {
            lemma_bytes_at(b, s, p);
            let d = decimal(b.len());
            assert(d.subrange(0, d.len() as int) =~= d);
            lemma_decimal_digits(b.len(), d, 0);
        },
        Node::Text(c) => {
            lemma_bytes_at(encode_utf8(c), s, p);
            let d = decimal(encode_utf8(c).len());
            assert(d.subrange(0, d.len() as int) =~= d);
            lemma_decimal_digits(encode_utf8(c).len(), d, 0);
        },
        Node::List(items) => {
            let first = encode(items[0]);
            let more = encode_items(t, 1);
            assert(e =~= seq![0x6cu8] + first + more + seq![0x65u8]);
            assert(s.subrange(p + 1, p + 1 + first.len()) =~= e.subrange(1, 1 + first.len() as int));
            assert(e.subrange(1, 1 + first.len() as int) =~= first);
            assert(decodable(items[0]));
            lemma_value_at(items[0], s, p + 1);
            lemma_encode_head(items[0]);
            let q = p + 1 + first.len();
            assert(s.subrange(q, end) =~= e.subrange(q - p, e.len() as int));
            assert(e.subrange(q - p, e.len() as int) =~= more + seq![0x65u8]);
            assert(normal_items(t, 0) =~= Seq::<Node>::empty());
            assert(seq![normalize(items[0])] =~= normal_items(t, 1));
            lemma_list_rest(t, 1, s, q);
        },
        Node::Dict(entries) => {
            let first = encode_entry(entries[0].0, entries[0].1);
            let more = encode_items(t, 1);
            assert(e =~= seq![0x64u8] + first + more + seq![0x65u8]);
            assert(s.subrange(p + 1, p + 1 + first.len()) =~= e.subrange(1, 1 + first.len() as int));
            assert(e.subrange(1, 1 + first.len() as int) =~= first);
            lemma_entry_at(t, 0, s, p + 1);
            let q = p + 1 + first.len();
            assert(s.subrange(q, end) =~= e.subrange(q - p, e.len() as int));
            assert(e.subrange(q - p, e.len() as int) =~= more + seq![0x65u8]);
            assert(normal_entries(t, 0) =~= Seq::<(Seq<char>, Node)>::empty());
            assert(!has_key(normal_entries(t, 0), entries[0].0));
            assert(seq![(entries[0].0, normalize(entries[0].1))] =~= normal_entries(t, 1));
            lemma_dict_rest(t, 1, s, q);
        },
    }
}

/// The rest of a list's encoding, from its item `k` to the closing `e`,
/// decodes to all the items.
proof fn lemma_list_rest(t: Node, k: int, s: Seq<u8>, pos: int)
    requires
        t is List,
        decodable(t),
        1 <= k <= t->List_0.len(),
        0 <= pos,
        pos + encode_items(t, k).len() + 1 <= s.len(),
        s.subrange(pos, pos + encode_items(t, k).len() + 1) == encode_items(t, k) + seq![0x65u8],
    ensures
        spec_list_rest(s, pos, normal_items(t, k)) == Ok::<(Seq<Node>, int), (ErrorKind, int)>(
            (normal_items(t, t->List_0.len() as int), pos + encode_items(t, k).len() + 1),
        ),
    decreases t, children(t) - 1 - k,
{
    let items = t->List_0;
    let n = items.len() as int;
    let w = encode_items(t, k) + seq![0x65u8];
    assert(s[pos] == s.subrange(pos, pos + w.len())[0]);
    if k < n {
        let item = items[k];
        let first = encode(item);
        let more = encode_items(t, k + 1);
        assert(w =~= first + more + seq![0x65u8]);
        assert(decodable(item));
        lemma_encode_head(item);
        assert(s.subrange(pos, pos + first.len()) =~= w.subrange(0, first.len() as int));
        assert(w.subrange(0, first.len() as int) =~= first);
        lemma_value_at(item, s, pos);
        let q = pos + first.len();
        assert(s.subrange(q, pos + w.len()) =~= w.subrange(first.len() as int, w.len() as int));
        assert(w.subrange(first.len() as int, w.len() as int) =~= more + seq![0x65u8]);
        lemma_list_rest(t, k + 1, s, q);
    }
}

/// Dictionary entry `k`'s encoding, found at `pos`, decodes to that entry.
proof fn lemma_entry_at(t: Node, k: int, s: Seq<u8>, pos: int)
    requires
        t is Dict,
        decodable(t),
        0 <= k < t->Dict_0.len(),
        0 <= pos,
        pos + encode_entry(t->Dict_0[k].0, t->Dict_0[k].1).len() <= s.len(),
        s.subrange(pos, pos + encode_entry(t->Dict_0[k].0, t->Dict_0[k].1).len()) == encode_entry(
            t->Dict_0[k].0,
            t->Dict_0[k].1,
        ),
    ensures
        spec_entry(s, pos) == Ok::<(Seq<char>, Node, int), (ErrorKind, int)>(
            (
                t->Dict_0[k].0,
                normalize(t->Dict_0[k].1),
                pos + encode_entry(t->Dict_0[k].0, t->Dict_0[k].1).len(),
            ),
        ),
        encode_entry(t->Dict_0[k].0, t->Dict_0[k].1).len() >= 1,
        encode_entry(t->Dict_0[k].0, t->Dict_0[k].1)[0] != 0x65,
    decreases t, children(t) - 2 - k,
{
    let entries = t->Dict_0;
    let key = entries[k].0;
    let val = entries[k].1;
    let kb = encode_bytes(encode_utf8(key));
    let part = encode_entry(key, val);
    assert(part == kb + encode(val));
    assert(s.subrange(pos, pos + kb.len()) =~= part.subrange(0, kb.len() as int));
    assert(part.subrange(0, kb.len() as int) =~= kb);
    lemma_bytes_at(encode_utf8(key), s, pos);
    encode_utf8_valid_utf8(key);
    encode_utf8_decode_utf8(key);
    assert(spec_string(s, pos) == Ok::<(Seq<char>, int), (ErrorKind, int)>((key, pos + kb.len())));
    let q = pos + kb.len();
    assert(s.subrange(q, pos + part.len()) =~= part.subrange(kb.len() as int, part.len() as int));
    assert(part.subrange(kb.len() as int, part.len() as int) =~= encode(val));
    assert(decodable(val));
    lemma_value_at(val, s, q);
    let d = decimal(encode_utf8(key).len());
    assert(d.subrange(0, d.len() as int) =~= d);
    lemma_decimal_digits(encode_utf8(key).len(), d, 0);
    assert(part[0] == d[0]);
}

/// The rest of a dictionary's encoding, from its entry `k` to the closing
/// `e`, decodes to the whole dictionary.
proof fn lemma_dict_rest(t: Node, k: int, s: Seq<u8>, pos: int)
    requires
        t is Dict,
        decodable(t),
        1 <= k <= t->Dict_0.len(),
        0 <= pos,
        pos + encode_items(t, k).len() + 1 <= s.len(),
        s.subrange(pos, pos + encode_items(t, k).len() + 1) == encode_items(t, k) + seq![0x65u8],
    ensures
        spec_dict_rest(s, pos, normal_entries(t, k)) == Ok::<
            (Seq<(Seq<char>, Node)>, int),
            (ErrorKind, int),
        >((normal_entries(t, t->Dict_0.len() as int), pos + encode_items(t, k).len() + 1)),
    decreases t, children(t) - 1 - k,
{
    let entries = t->Dict_0;
    let n = entries.len() as int;
    let w = encode_items(t, k) + seq![0x65u8];
    assert(s[pos] == s.subrange(pos, pos + w.len())[0]);
    if k < n {
        let first = encode_entry(entries[k].0, entries[k].1);
        let more = encode_items(t, k + 1);
        assert(w =~= first + more + seq![0x65u8]);
        assert(s.subrange(pos, pos + first.len()) =~= w.subrange(0, first.len() as int));
        assert(w.subrange(0, first.len() as int) =~= first);
        lemma_entry_at(t, k, s, pos);
        let q = pos + first.len();
        assert(s.subrange(q, pos + w.len()) =~= w.subrange(first.len() as int, w.len() as int));
        assert(w.subrange(first.len() as int, w.len() as int) =~= more + seq![0x65u8]);
        lemma_dict_rest(t, k + 1, s, q);
    }
}

/// Round trip: the canonical encoding of any tree whose encoding the
/// grammar accepts, followed by anything, decodes to that tree as `normalize`
/// gives it (lists in the same order, dictionaries folded so that the last of
/// equal keys wins, text as its bytes) and leaves exactly what followed.
pub proof fn law_round_trip(t: Node, rest: Seq<u8>)
    requires
        decodable(t),
    ensures
        spec_value(encode(t) + rest, 0) == Ok::<(Node, int), (ErrorKind, int)>(
            (normalize(t), encode(t).len() as int),
        ),
        (encode(t) + rest).subrange(encode(t).len() as int, (encode(t) + rest).len() as int) == rest,
{
    let s = encode(t) + rest;
    assert(s.subrange(0, encode(t).len() as int) =~= encode(t));
    assert(s.subrange(encode(t).len() as int, s.len() as int) =~= rest);
    lemma_value_at(t, s, 0);
}

} // verus!
