use vstd::prelude::*;

verus! {

/// How deeply lists and dictionaries may nest before decoding gives up.
pub const MAX_DEPTH: usize = 512;

/// Byte that opens an integer (`i`).
pub const TAG_INT: u8 = 105;

/// Byte that opens a list (`l`).
pub const TAG_LIST: u8 = 108;

/// Byte that opens a dictionary (`d`).
pub const TAG_DICT: u8 = 100;

/// Byte that closes an integer, a list or a dictionary (`e`).
pub const TAG_END: u8 = 101;

/// Sign of a negative integer (`-`).
pub const MINUS: u8 = 45;

/// Separator between a byte string's length and its payload (`:`).
pub const COLON: u8 = 58;

/// The digit `0`.
pub const DIGIT_ZERO: u8 = 48;

/// The digit `9`.
pub const DIGIT_NINE: u8 = 57;

/// What went wrong while decoding.
#[derive(Debug, Clone, Copy, PartialEq, Eq, Structural)]
pub enum ErrorKind {
    /// A value starts with a byte that opens no value.
    InvalidTag,
    /// An integer, or the length of a byte string, is not written canonically.
    MalformedInteger,
    /// An integer does not fit in 64 signed bits.
    IntegerOverflow,
    /// A byte string runs past the end of the input.
    TruncatedString,
    /// The input ends inside a list or a dictionary, or where a value was due.
    UnexpectedEnd,
    /// A dictionary key is not a byte string.
    InvalidKeyType,
    /// A dictionary key is not strictly greater than the key before it or,
    /// where any order is allowed, repeats an earlier key of the dictionary.
    DictionaryOrderingError,
    /// Lists and dictionaries nest more than `MAX_DEPTH` levels deep.
    NestingTooDeep,
}

/// How a dictionary's keys must follow one another.
#[derive(Debug, Clone, Copy, PartialEq, Eq, Structural)]
pub enum KeyOrder {
    /// Each key is strictly greater, byte by byte, than the key before it:
    /// the one canonical order.
    Strict,
    /// Keys may come in any order, but no key may appear twice.
    Lenient,
}

/// An error together with the offset in the input at which it was found.
#[derive(Debug, Clone, Copy, PartialEq, Eq, Structural)]
pub struct DecodeError {
    pub kind: ErrorKind,
    pub offset: usize,
}

/// A decoded value.
///
/// The entries of a dictionary are kept in the order in which they were
/// read, which the decoder only accepts when the keys strictly ascend.
#[derive(Debug, PartialEq, Eq)]
pub enum Value {
    Integer(i64),
    ByteString(Vec<u8>),
    List(Vec<Value>),
    Dictionary(Vec<(Vec<u8>, Value)>),
}

/// The mathematical model of a `Value`.
pub enum Tree {
    Int(int),
    Bytes(Seq<u8>),
    List(Seq<Tree>),
    Dict(Seq<(Seq<u8>, Tree)>),
}

pub open spec fn view_items(s: Seq<Value>) -> Seq<Tree>
    decreases s,
{
    if s.len() == 0 {
        Seq::empty()
    } else {
        seq![s[0].view()] + view_items(s.subrange(1, s.len() as int))
    }
}

pub open spec fn view_entries(s: Seq<(Vec<u8>, Value)>) -> Seq<(Seq<u8>, Tree)>
    decreases s,
{
    if s.len() == 0 {
        Seq::empty()
    } else {
        seq![(s[0].0@, s[0].1.view())] + view_entries(s.subrange(1, s.len() as int))
    }
}

impl View for Value {
    type V = Tree;

    open spec fn view(&self) -> Tree
        decreases self,
    {
        match self {
            Value::Integer(n) => Tree::Int(*n as int),
            Value::ByteString(b) => Tree::Bytes(b@),
            Value::List(l) => Tree::List(view_items(l@)),
            Value::Dictionary(d) => Tree::Dict(view_entries(d@)),
        }
    }
}

} // verus!
