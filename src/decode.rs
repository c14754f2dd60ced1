use vstd::prelude::*;
use vstd::slice::{slice_subrange, slice_to_vec};
use vstd::utf8::*;
use crate::value::{BValue, Node, ErrorKind, DecodeError};
use crate::grammar::{
    Outcome, digit_run_end, digits_value, spec_length, spec_bytes, spec_number, spec_value, spec_list,
    spec_list_rest, spec_entry, spec_string, spec_dict, spec_dict_rest, keys_unique, put, has_key,
};

verus! {

/// The model of a failure.
pub open spec fn err_model(e: DecodeError) -> (ErrorKind, int) {
    (e.kind, e.offset as int)
}

/// The models of a sequence of values.
pub open spec fn views(v: Seq<BValue>) -> Seq<Node> {
    v.map_values(|x: BValue| x@)
}

/// The models of a sequence of dictionary entries.
pub open spec fn entry_views(v: Seq<(String, BValue)>) -> Seq<(Seq<char>, Node)> {
    v.map_values(|e: (String, BValue)| (e.0@, e.1@))
}

pub open spec fn value_outcome(r: Result<(BValue, usize), DecodeError>) -> Outcome<Node> {
    match r {
        Ok((v, q)) => Ok((v@, q as int)),
        Err(e) => Err(err_model(e)),
    }
}

pub open spec fn number_outcome(r: Result<(i64, usize), DecodeError>) -> Outcome<int> {
    match r {
        Ok((n, q)) => Ok((n as int, q as int)),
        Err(e) => Err(err_model(e)),
    }
}

pub open spec fn list_outcome(r: Result<(Vec<BValue>, usize), DecodeError>) -> Outcome<Seq<Node>> {
    match r {
        Ok((v, q)) => Ok((views(v@), q as int)),
        Err(e) => Err(err_model(e)),
    }
}

pub open spec fn dict_outcome(r: Result<(Vec<(String, BValue)>, usize), DecodeError>) -> Outcome<
    Seq<(Seq<char>, Node)>,
> {
    match r {
        Ok((v, q)) => Ok((entry_views(v@), q as int)),
        Err(e) => Err(err_model(e)),
    }
}

fn fail<T>(kind: ErrorKind, offset: usize) -> (r: Result<T, DecodeError>)
    ensures
        r == Err::<T, DecodeError>(DecodeError { kind, offset }),
{
    Err(DecodeError { kind, offset })
}

/// Reads the run of digits at `p`. Gives its end, and its value unless that
/// value exceeds `cap`, which the flag then says.
fn scan_digits(s: &[u8], p: usize, cap: u64) -> (r: (usize, u64, bool))
    requires
        p <= s@.len(),
    ensures
        r.0 == digit_run_end(s@, p as int),
        p <= r.0 <= s@.len(),
        r.2 == (digits_value(s@, p as int, r.0 as int) > cap),
        !r.2 ==> r.1 == digits_value(s@, p as int, r.0 as int),
{
    let mut i: usize = p;
    let mut val: u64 = 0;
    let mut over: bool = false;
    while i < s.len() && 0x30 <= s[i] && s[i] <= 0x39
        invariant
            p <= i <= s@.len(),
            digit_run_end(s@, i as int) == digit_run_end(s@, p as int),
            over == (digits_value(s@, p as int, i as int) > cap),
            !over ==> val == digits_value(s@, p as int, i as int),
        decreases s@.len() - i,
    {
        let d: u8 = s[i] - 0x30;
        if !over {
            let next: u128 = (val as u128) * 10 + (d as u128);
            if next > cap as u128 {
                over = true;
            } else {
                val = next as u64;
            }
        } else {
            assert(digits_value(s@, p as int, i as int + 1) >= digits_value(s@, p as int, i as int));
        }
        i = i + 1;
    }
    (i, val, over)
}

/// The integer rule at position `p`.
fn number_at(s: &[u8], p: usize) -> (r: Result<(i64, usize), DecodeError>)
    requires
        p <= s@.len(),
    ensures
        number_outcome(r) == spec_number(s@, p as int),
        r is Ok ==> p < r->Ok_0.1 <= s@.len(),
{
    if p >= s.len() || s[p] != 0x69 {
        return fail(ErrorKind::Syntax, p);
    }
    let neg: bool = p + 1 < s.len() && s[p + 1] == 0x2d;
    let d: usize = if neg { p + 2 } else { p + 1 };
    let cap: u64 = if neg { 0x8000_0000_0000_0000 } else { 0x7fff_ffff_ffff_ffff };
    let (q, v, over) = scan_digits(s, d, cap);
    if q == d {
        fail(ErrorKind::Syntax, d)
    } else if over {
        fail(ErrorKind::IntegerOverflow, p)
    } else if q >= s.len() || s[q] != 0x65 {
        fail(ErrorKind::Syntax, q)
    } else {
        let n: i64 = if !neg {
            v as i64
        } else if v == 0x8000_0000_0000_0000 {
            i64::MIN
        } else {
            -(v as i64)
        };
        Ok((n, q + 1))
    }
}

/// The length token at `p`: its end after the `:`, and its value unless that
/// exceeds `cap`.
fn length_at(s: &[u8], p: usize, cap: u64) -> (r: Result<(Option<u64>, usize), DecodeError>)
    requires
        p <= s@.len(),
    ensures
        match spec_length(s@, p as int) {
            Ok((n, q)) => r is Ok && r->Ok_0.1 == q && (r->Ok_0.0 == if n <= cap {
                Some(n as u64)
            } else {
                None::<u64>
            }),
            Err(e) => r is Err && err_model(r->Err_0) == e,
        },
        r is Ok ==> p < r->Ok_0.1 <= s@.len(),
{
    let (q, v, over) = scan_digits(s, p, cap);
    if q == p {
        fail(ErrorKind::Syntax, p)
    } else if q >= s.len() || s[q] != 0x3a {
        fail(ErrorKind::Syntax, q)
    } else if over {
        Ok((None, q + 1))
    } else {
        Ok((Some(v), q + 1))
    }
}

/// The byte-string rule at `p`, giving where the bytes start and end.
fn bytes_span_at(s: &[u8], p: usize) -> (r: Result<(usize, usize), DecodeError>)
    requires
        p <= s@.len(),
    ensures
        match spec_bytes(s@, p as int) {
            Ok((b, q)) => r is Ok && r->Ok_0.1 == q && p < q <= s@.len() && r->Ok_0.0 <= q
                && s@.subrange(r->Ok_0.0 as int, q) == b,
            Err(e) => r is Err && err_model(r->Err_0) == e,
        },
{
    match length_at(s, p, s.len() as u64) {
        Err(e) => Err(e),
        Ok((n, q)) => {
            match n {
                Some(n) => {
                    if n <= (s.len() - q) as u64 {
                        let e: usize = q + n as usize;
                        Ok((q, e))
                    } else {
                        fail(ErrorKind::TruncatedInput, q)
                    }
                },
                None => fail(ErrorKind::TruncatedInput, q),
            }
        },
    }
}

/// Relies on `std::str::from_utf8`: it succeeds exactly on valid UTF-8, and
/// the text it gives is what those bytes decode to.
#[verifier::external_body]
fn text_of(b: &[u8]) -> (r: Option<&str>)
    ensures
        r is Some <==> valid_utf8(b@),
        r is Some ==> r->Some_0@ == decode_utf8(b@),
{
    std::str::from_utf8(b).ok()
}

/// Whether two byte slices hold the same bytes.
fn same_bytes(a: &[u8], b: &[u8]) -> (r: bool)
    ensures
        r == (a@ == b@),
{
    if a.len() != b.len() {
        return false;
    }
    let mut i: usize = 0;
    while i < a.len()
        invariant
            a@.len() == b@.len(),
            i <= a@.len(),
            forall|j: int| 0 <= j < i ==> a@[j] == b@[j],
        decreases a@.len() - i,
    {
        if a[i] != b[i] {
            return false;
        }
        i = i + 1;
    }
    assert(a@ =~= b@);
    true
}

/// Adds an entry to a dictionary under construction, replacing the value of
/// an equal key in place.
fn put_entry(entries: &mut Vec<(String, BValue)>, k: String, v: BValue)
    requires
        keys_unique(entry_views(old(entries)@)),
    ensures
        entry_views(final(entries)@) == put(entry_views(old(entries)@), k@, v@),
        keys_unique(entry_views(final(entries)@)),
{
    let ghost m = entry_views(entries@);
    let ghost kv = k@;
    let ghost vv = v@;
    let mut i: usize = 0;
    while i < entries.len()
        invariant
            i <= entries@.len(),
            entries@ == old(entries)@,
            m == entry_views(entries@),
            keys_unique(m),
            kv == k@,
            vv == v@,
            forall|j: int| 0 <= j < i ==> m[j].0 != kv,
        decreases entries@.len() - i,
    {
        if same_bytes(entries[i].0.as_str().as_bytes(), k.as_str().as_bytes()) {
            proof {
                encode_utf8_decode_utf8(m[i as int].0);
                encode_utf8_decode_utf8(kv);
                assert(m[i as int].0 == kv);
                assert(has_key(m, kv));
            }
            entries[i] = (k, v);
            proof {
                assert forall|j: int| 0 <= j < m.len() && j != i implies m[j].0 != kv by {
                    assert(m[i as int].0 == kv);
                }
                assert(entry_views(entries@) =~= put(m, kv, vv));
            }
            return;
        }
        i = i + 1;
    }
    assert(!has_key(m, kv));
    entries.push((k, v));
    assert(entry_views(entries@) =~= put(m, kv, vv));
}

/// The value rule at `p`: the rule is chosen by the byte found there.
fn value_at(s: &[u8], p: usize) -> (r: Result<(BValue, usize), DecodeError>)
    requires
        p <= s@.len(),
    ensures
        value_outcome(r) == spec_value(s@, p as int),
        r is Ok ==> p < r->Ok_0.1 <= s@.len(),
    decreases s@.len() - p, 1int,
{
    if p >= s.len() {
        return fail(ErrorKind::NoMatchingRule, p);
    }
    let c: u8 = s[p];
    if c == 0x69 {
        match number_at(s, p) {
            Err(e) => Err(e),
            Ok((n, q)) => Ok((BValue::BNumber(n), q)),
        }
    } else if 0x30 <= c && c <= 0x39 {
        match bytes_span_at(s, p) {
            Err(e) => Err(e),
            Ok((a, q)) => Ok((BValue::BBytes(slice_to_vec(slice_subrange(s, a, q))), q)),
        }
    } else if c == 0x6c {
        match list_at(s, p) {
            Err(e) => Err(e),
            Ok((items, q)) => {
                let v = BValue::BList(items);
                assert(v@->List_0 =~= views(items@));
                Ok((v, q))
            },
        }
    } else if c == 0x64 {
        match dict_at(s, p) {
            Err(e) => Err(e),
            Ok((entries, q)) => {
                let v = BValue::BDict(entries);
                assert(v@->Dict_0 =~= entry_views(entries@));
                Ok((v, q))
            },
        }
    } else {
        fail(ErrorKind::NoMatchingRule, p)
    }
}

/// The list rule at `p`.
fn list_at(s: &[u8], p: usize) -> (r: Result<(Vec<BValue>, usize), DecodeError>)
    requires
        p <= s@.len(),
    ensures
        list_outcome(r) == spec_list(s@, p as int),
        r is Ok ==> p < r->Ok_0.1 <= s@.len(),
    decreases s@.len() - p, 0int,
{
    if p >= s.len() || s[p] != 0x6c {
        return fail(ErrorKind::Syntax, p);
    }
    let (first, q) = match value_at(s, p + 1) {
        Err(e) => return Err(e),
        Ok(x) => x,
    };
    let mut items: Vec<BValue> = Vec::new();
    items.push(first);
    assert(views(items@) =~= seq![items@[0]@]);
    let mut pos: usize = q;
    loop
        invariant
            p < pos <= s@.len(),
            spec_list(s@, p as int) == spec_list_rest(s@, pos as int, views(items@)),
        decreases s@.len() - pos,
    {
        if pos >= s.len() {
            return fail(ErrorKind::Syntax, pos);
        }
        if s[pos] == 0x65 {
            return Ok((items, pos + 1));
        }
        match value_at(s, pos) {
            Err(e) => return Err(e),
            Ok((v, q)) => {
                let ghost before = items@;
                items.push(v);
                assert(views(items@) =~= views(before).push(items@.last()@));
                pos = q;
            },
        }
    }
}

/// One dictionary entry at `p`: a key, which must be UTF-8 text, then a value.
fn entry_at(s: &[u8], p: usize) -> (r: Result<(String, BValue, usize), DecodeError>)
    requires
        p <= s@.len(),
    ensures
        match spec_entry(s@, p as int) {
            Ok((k, v, q)) => r is Ok && r->Ok_0.0@ == k && r->Ok_0.1@ == v && r->Ok_0.2 == q,
            Err(e) => r is Err && err_model(r->Err_0) == e,
        },
        r is Ok ==> p < r->Ok_0.2 <= s@.len(),
    decreases s@.len() - p, 1int,
{
    match bytes_span_at(s, p) {
        Err(e) => Err(e),
        Ok((a, q)) => match text_of(slice_subrange(s, a, q)) {
            None => fail(ErrorKind::InvalidKeyEncoding, p),
            Some(t) => {
                let k: String = t.to_owned();
                match value_at(s, q) {
                    Err(e) => Err(e),
                    Ok((v, e)) => Ok((k, v, e)),
                }
            },
        },
    }
}

/// The dictionary rule at `p`.
fn dict_at(s: &[u8], p: usize) -> (r: Result<(Vec<(String, BValue)>, usize), DecodeError>)
    requires
        p <= s@.len(),
    ensures
        dict_outcome(r) == spec_dict(s@, p as int),
        r is Ok ==> p < r->Ok_0.1 <= s@.len(),
        r is Ok ==> keys_unique(entry_views(r->Ok_0.0@)),
    decreases s@.len() - p, 0int,
{
    if p >= s.len() || s[p] != 0x64 {
        return fail(ErrorKind::Syntax, p);
    }
    let (k, v, q) = match entry_at(s, p + 1) {
        Err(e) => return Err(e),
        Ok(x) => x,
    };
    let mut entries: Vec<(String, BValue)> = Vec::new();
    entries.push((k, v));
    assert(entry_views(entries@) =~= seq![(entries@[0].0@, entries@[0].1@)]);
    let mut pos: usize = q;
    loop
        invariant
            p < pos <= s@.len(),
            spec_dict(s@, p as int) == spec_dict_rest(s@, pos as int, entry_views(entries@)),
            keys_unique(entry_views(entries@)),
        decreases s@.len() - pos,
    {
        if pos >= s.len() {
            return fail(ErrorKind::Syntax, pos);
        }
        if s[pos] == 0x65 {
            return Ok((entries, pos + 1));
        }
        match entry_at(s, pos) {
            Err(e) => return Err(e),
            Ok((k, v, q)) => {
                put_entry(&mut entries, k, v);
                pos = q;
            },
        }
    }
}

/// What a rule run on the whole input `s` owes, given the model-level
/// outcome `expected` at position 0: on success the rest of `s` after the
/// value and a result whose model is the value; on failure that error.
pub open spec fn answers<T, M>(
    s: Seq<u8>,
    r: Result<(&[u8], T), DecodeError>,
    model: spec_fn(T) -> M,
    expected: Outcome<M>,
) -> bool {
    match expected {
        Ok((m, q)) => r is Ok && r->Ok_0.0@ == s.subrange(q, s.len() as int) && model(r->Ok_0.1)
            == m,
        Err(e) => r is Err && err_model(r->Err_0) == e,
    }
}

/// The length token as a standalone rule: a length beyond `usize` is an
/// overflow.
pub open spec fn spec_length_usize(s: Seq<u8>) -> Outcome<nat> {
    match spec_length(s, 0) {
        Ok((n, q)) => if n <= usize::MAX {
            Ok((n, q))
        } else {
            Err((ErrorKind::IntegerOverflow, 0))
        },
        Err(e) => Err(e),
    }
}

/// Decodes one value at the start of `i`, returning the bytes after it and
/// the value.
pub fn parse(i: &[u8]) -> (r: Result<(&[u8], BValue), DecodeError>)
    ensures
        answers(i@, r, |v: BValue| v@, spec_value(i@, 0)),
{
    match value_at(i, 0) {
        Ok((v, q)) => Ok((slice_subrange(i, q, i.len()), v)),
        Err(e) => Err(e),
    }
}

/// Decodes an integer (`i`, optional `-`, digits, `e`) at the start of `i`.
pub fn parse_number(i: &[u8]) -> (r: Result<(&[u8], i64), DecodeError>)
    ensures
        answers(i@, r, |n: i64| n as int, spec_number(i@, 0)),
{
    match number_at(i, 0) {
        Ok((n, q)) => Ok((slice_subrange(i, q, i.len()), n)),
        Err(e) => Err(e),
    }
}

/// Decodes a length token (digits, then `:`) at the start of `i`.
pub fn parse_length(i: &[u8]) -> (r: Result<(&[u8], usize), DecodeError>)
    ensures
        answers(i@, r, |n: usize| n as nat, spec_length_usize(i@)),
{
    match length_at(i, 0, usize::MAX as u64) {
        Ok((Some(n), q)) => Ok((slice_subrange(i, q, i.len()), n as usize)),
        Ok((None, _)) => fail(ErrorKind::IntegerOverflow, 0),
        Err(e) => Err(e),
    }
}

/// Decodes a byte string at the start of `i`.
pub fn parse_bytes(i: &[u8]) -> (r: Result<(&[u8], Vec<u8>), DecodeError>)
    ensures
        answers(i@, r, |b: Vec<u8>| b@, spec_bytes(i@, 0)),
{
    match bytes_span_at(i, 0) {
        Ok((a, q)) => Ok((slice_subrange(i, q, i.len()), slice_to_vec(slice_subrange(i, a, q)))),
        Err(e) => Err(e),
    }
}

/// Decodes a byte string at the start of `i` as UTF-8 text.
pub fn parse_string(i: &[u8]) -> (r: Result<(&[u8], String), DecodeError>)
    ensures
        answers(i@, r, |t: String| t@, spec_string(i@, 0)),
{
    match bytes_span_at(i, 0) {
        Ok((a, q)) => match text_of(slice_subrange(i, a, q)) {
            Some(t) => Ok((slice_subrange(i, q, i.len()), t.to_owned())),
            None => fail(ErrorKind::InvalidKeyEncoding, 0),
        },
        Err(e) => Err(e),
    }
}

/// Decodes a list at the start of `i`.
pub fn parse_list(i: &[u8]) -> (r: Result<(&[u8], Vec<BValue>), DecodeError>)
    ensures
        answers(i@, r, |v: Vec<BValue>| views(v@), spec_list(i@, 0)),
{
    match list_at(i, 0) {
        Ok((v, q)) => Ok((slice_subrange(i, q, i.len()), v)),
        Err(e) => Err(e),
    }
}

/// Decodes a dictionary at the start of `i`. Its keys are unique.
pub fn parse_dict(i: &[u8]) -> (r: Result<(&[u8], Vec<(String, BValue)>), DecodeError>)
    ensures
        answers(i@, r, |v: Vec<(String, BValue)>| entry_views(v@), spec_dict(i@, 0)),
        r is Ok ==> keys_unique(entry_views(r->Ok_0.1@)),
{
    match dict_at(i, 0) {
        Ok((v, q)) => Ok((slice_subrange(i, q, i.len()), v)),
        Err(e) => Err(e),
    }
}

} // verus!
