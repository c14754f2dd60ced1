use vstd::prelude::*;
use vstd::utf8::*;
use crate::value::{Node, ErrorKind};

verus! {

// Each rule reads `s` from position `p`. Every rule that succeeds consumes
// at least one byte, which the executable rules in `decode` prove of their
// results; the definitions below also check it before they recurse, so that
// they are total, and fail with `Syntax` in the case that cannot arise.

/// The outcome of a rule at the model level: the value and the position just
/// after it, or the kind of failure and the position where it was found.
pub type Outcome<T> = Result<(T, int), (ErrorKind, int)>;

pub open spec fn is_digit(b: u8) -> bool {
    0x30 <= b <= 0x39
}

/// The position just after the run of ASCII digits that starts at `p`.
pub open spec fn digit_run_end(s: Seq<u8>, p: int) -> int
    decreases s.len() - p,
{
    if 0 <= p < s.len() && is_digit(s[p]) {
        digit_run_end(s, p + 1)
    } else {
        p
    }
}

/// The number written in decimal by the bytes `s[p..q]`.
pub open spec fn digits_value(s: Seq<u8>, p: int, q: int) -> nat
    decreases q - p,
{
    if q <= p {
        0
    } else {
        digits_value(s, p, q - 1) * 10 + (s[q - 1] - 0x30) as nat
    }
}

/// Length token: one or more digits, then `:`. Gives the number and the
/// position after the `:`.
pub open spec fn spec_length(s: Seq<u8>, p: int) -> Outcome<nat> {
    let q = digit_run_end(s, p);
    if q == p {
        Err((ErrorKind::Syntax, p))
    } else if q >= s.len() || s[q] != 0x3a {
        Err((ErrorKind::Syntax, q))
    } else {
        Ok((digits_value(s, p, q), q + 1))
    }
}

/// Byte string: a length token, then exactly that many raw bytes.
pub open spec fn spec_bytes(s: Seq<u8>, p: int) -> Outcome<Seq<u8>> {
    match spec_length(s, p) {
        Err(e) => Err(e),
        Ok((n, q)) => if q + n > s.len() {
            Err((ErrorKind::TruncatedInput, q))
        } else {
            Ok((s.subrange(q, q + n), q + n))
        },
    }
}

/// A byte string read as UTF-8 text.
pub open spec fn spec_string(s: Seq<u8>, p: int) -> Outcome<Seq<char>> {
    match spec_bytes(s, p) {
        Err(e) => Err(e),
        Ok((b, q)) => if valid_utf8(b) {
            Ok((decode_utf8(b), q))
        } else {
            Err((ErrorKind::InvalidKeyEncoding, p))
        },
    }
}

pub open spec fn fits_i64(n: int) -> bool {
    i64::MIN <= n <= i64::MAX
}

/// Integer: `i`, an optional `-`, one or more digits, then `e`.
pub open spec fn spec_number(s: Seq<u8>, p: int) -> Outcome<int> {
    if !(0 <= p < s.len() && s[p] == 0x69) {
        Err((ErrorKind::Syntax, p))
    } else {
        let neg = p + 1 < s.len() && s[p + 1] == 0x2d;
        let d = if neg { p + 2 } else { p + 1 };
        let q = digit_run_end(s, d);
        let n = if neg { -digits_value(s, d, q) } else { digits_value(s, d, q) as int };
        if q == d {
            Err((ErrorKind::Syntax, d))
        } else if !fits_i64(n) {
            Err((ErrorKind::IntegerOverflow, p))
        } else if q >= s.len() || s[q] != 0x65 {
            Err((ErrorKind::Syntax, q))
        } else {
            Ok((n, q + 1))
        }
    }
}

/// A value: the rule is chosen by the byte at `p`.
pub open spec fn spec_value(s: Seq<u8>, p: int) -> Outcome<Node>
    decreases s.len() - p, 1int,
{
    if !(0 <= p < s.len()) {
        Err((ErrorKind::NoMatchingRule, p))
    } else if s[p] == 0x69 {
        match spec_number(s, p) {
            Err(e) => Err(e),
            Ok((n, q)) => Ok((Node::Number(n), q)),
        }
    } else if is_digit(s[p]) {
        match spec_bytes(s, p) {
            Err(e) => Err(e),
            Ok((b, q)) => Ok((Node::Bytes(b), q)),
        }
    } else if s[p] == 0x6c {
        match spec_list(s, p) {
            Err(e) => Err(e),
            Ok((items, q)) => Ok((Node::List(items), q)),
        }
    } else if s[p] == 0x64 {
        match spec_dict(s, p) {
            Err(e) => Err(e),
            Ok((entries, q)) => Ok((Node::Dict(entries), q)),
        }
    } else {
        Err((ErrorKind::NoMatchingRule, p))
    }
}

/// List: `l`, one or more values, then `e`.
pub open spec fn spec_list(s: Seq<u8>, p: int) -> Outcome<Seq<Node>>
    decreases s.len() - p, 0int,
{
    if !(0 <= p < s.len() && s[p] == 0x6c) {
        Err((ErrorKind::Syntax, p))
    } else {
        match spec_value(s, p + 1) {
            Err(e) => Err(e),
            Ok((v, q)) => if p < q <= s.len() {
                spec_list_rest(s, q, seq![v])
            } else {
                Err((ErrorKind::Syntax, q))
            },
        }
    }
}

/// The rest of a list from `p`, after the items `acc`: values until `e`.
pub open spec fn spec_list_rest(s: Seq<u8>, p: int, acc: Seq<Node>) -> Outcome<Seq<Node>>
    decreases s.len() - p, 2int,
{
    if !(0 <= p < s.len()) {
        Err((ErrorKind::Syntax, p))
    } else if s[p] == 0x65 {
        Ok((acc, p + 1))
    } else {
        match spec_value(s, p) {
            Err(e) => Err(e),
            Ok((v, q)) => if p < q <= s.len() {
                spec_list_rest(s, q, acc.push(v))
            } else {
                Err((ErrorKind::Syntax, q))
            },
        }
    }
}

/// Whether no two entries share a key.
pub open spec fn keys_unique(m: Seq<(Seq<char>, Node)>) -> bool {
    forall|i: int, j: int| 0 <= i < j < m.len() ==> m[i].0 != m[j].0
}

pub open spec fn has_key(m: Seq<(Seq<char>, Node)>, k: Seq<char>) -> bool {
    exists|i: int| 0 <= i < m.len() && m[i].0 == k
}

/// Adds an entry: a key already present gets the new value in its place,
/// a new key goes at the end.
pub open spec fn put(m: Seq<(Seq<char>, Node)>, k: Seq<char>, v: Node) -> Seq<(Seq<char>, Node)> {
    if has_key(m, k) {
        m.map_values(|e: (Seq<char>, Node)| if e.0 == k { (k, v) } else { e })
    } else {
        m.push((k, v))
    }
}

/// One dictionary entry at `p`: a key, read as text, then a value.
pub open spec fn spec_entry(s: Seq<u8>, p: int) -> Result<(Seq<char>, Node, int), (ErrorKind, int)>
    decreases s.len() - p, 1int,
{
    match spec_string(s, p) {
        Err(e) => Err(e),
        Ok((k, q)) => if p < q <= s.len() {
            match spec_value(s, q) {
                Err(e) => Err(e),
                Ok((v, r)) => Ok((k, v, r)),
            }
        } else {
            Err((ErrorKind::Syntax, q))
        },
    }
}

/// Dictionary: `d`, one or more entries, then `e`. Entries are folded with
/// `put`, so the last of equal keys wins.
pub open spec fn spec_dict(s: Seq<u8>, p: int) -> Outcome<Seq<(Seq<char>, Node)>>
    decreases s.len() - p, 0int,
{
    if !(0 <= p < s.len() && s[p] == 0x64) {
        Err((ErrorKind::Syntax, p))
    } else {
        match spec_entry(s, p + 1) {
            Err(e) => Err(e),
            Ok((k, v, q)) => if p < q <= s.len() {
                spec_dict_rest(s, q, seq![(k, v)])
            } else {
                Err((ErrorKind::Syntax, q))
            },
        }
    }
}

/// The rest of a dictionary from `p`, after the entries `acc`.
pub open spec fn spec_dict_rest(s: Seq<u8>, p: int, acc: Seq<(Seq<char>, Node)>) -> Outcome<Seq<(Seq<char>, Node)>>
    decreases s.len() - p, 2int,
{
    if !(0 <= p < s.len()) {
        Err((ErrorKind::Syntax, p))
    } else if s[p] == 0x65 {
        Ok((acc, p + 1))
    } else {
        match spec_entry(s, p) {
            Err(e) => Err(e),
            Ok((k, v, q)) => if p < q <= s.len() {
                spec_dict_rest(s, q, put(acc, k, v))
            } else {
                Err((ErrorKind::Syntax, q))
            },
        }
    }
}

} // verus!
