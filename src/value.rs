use vstd::prelude::*;

verus! {

/// A decoded value tree. Dictionary entries keep the order in which each key
/// first appeared; a key that occurs again replaces the value in place.
#[derive(Debug, PartialEq)]
pub enum BValue {
    BNumber(i64),
    BString(String),
    BBytes(Vec<u8>),
    BList(Vec<BValue>),
    BDict(Vec<(String, BValue)>),
}

/// The mathematical model of a `BValue`.
pub enum Node {
    Number(int),
    Text(Seq<char>),
    Bytes(Seq<u8>),
    List(Seq<Node>),
    Dict(Seq<(Seq<char>, Node)>),
}

impl BValue {
    pub open spec fn view(&self) -> Node
        decreases self,
    {
        match self {
            BValue::BNumber(n) => Node::Number(*n as int),
            BValue::BString(s) => Node::Text(s@),
            BValue::BBytes(b) => Node::Bytes(b@),
            BValue::BList(items) => Node::List(
                Seq::new(
                    items.len() as nat,
                    |i: int|
                        if 0 <= i < items.len() {
                            items[i].view()
                        } else {
                            Node::Number(0)
                        },
                ),
            ),
            BValue::BDict(entries) => Node::Dict(
                Seq::new(
                    entries.len() as nat,
                    |i: int|
                        if 0 <= i < entries.len() {
                            (entries[i].0@, entries[i].1.view())
                        } else {
                            (Seq::empty(), Node::Number(0))
                        },
                ),
            ),
        }
    }
}

/// The kinds of decoding failure.
#[derive(Debug, Clone, Copy, PartialEq, Eq, Structural)]
pub enum ErrorKind {
    /// A delimiter or a digit was expected and something else was found.
    Syntax,
    /// A byte string declares more bytes than remain in the input.
    TruncatedInput,
    /// An integer does not fit in 64 signed bits.
    IntegerOverflow,
    /// A dictionary key is not valid UTF-8.
    InvalidKeyEncoding,
    /// No rule starts with the byte found (or the input ended).
    NoMatchingRule,
}

/// A decoding failure: its kind and the offset in the input where it was found.
#[derive(Debug, Clone, Copy, PartialEq, Eq, Structural)]
pub struct DecodeError {
    pub kind: ErrorKind,
    pub offset: usize,
}

} // verus!
