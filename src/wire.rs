//! The abstract wire: a stream of markers and primitive values.
//!
//! A concrete byte format maps each token to bytes; the codec only
//! depends on the order and kind of the tokens it writes and reads.
use vstd::prelude::*;

verus! {

/// Coarse category written before a field's value.
#[derive(Clone, Copy, Debug, PartialEq, Eq, Structural)]
pub enum WireType {
    Stop,
    Bool,
    I32,
    I64,
    I16,
    Byte,
    Str,
    Struct,
    List,
    SetOf,
    MapOf,
}

/// Kind of a message on the wire.
#[derive(Clone, Copy, Debug, PartialEq, Eq, Structural)]
pub enum MessageKind {
    Call,
    Reply,
    Exception,
}

/// One unit written to or read from the wire.
#[derive(Clone, Debug, PartialEq)]
pub enum Token {
    MessageBegin(String, MessageKind, i32),
    MessageEnd,
    StructBegin,
    StructEnd,
    FieldBegin(WireType, i16),
    FieldEnd,
    FieldStop,
    ListBegin(WireType, usize),
    ListEnd,
    MapBegin(WireType, WireType, usize),
    MapEnd,
    Bool(bool),
    I32(i32),
    I64(i64),
    I16(i16),
    Byte(i8),
    Str(String),
}

/// Mathematical model of a token: strings are sequences of characters.
pub enum TokenV {
    MessageBegin(Seq<char>, MessageKind, i32),
    MessageEnd,
    StructBegin,
    StructEnd,
    FieldBegin(WireType, i16),
    FieldEnd,
    FieldStop,
    ListBegin(WireType, nat),
    ListEnd,
    MapBegin(WireType, WireType, nat),
    MapEnd,
    Bool(bool),
    I32(i32),
    I64(i64),
    I16(i16),
    Byte(i8),
    Str(Seq<char>),
}

impl View for Token {
    type V = TokenV;

    open spec fn view(&self) -> TokenV {
        match self {
            Token::MessageBegin(n, k, s) => TokenV::MessageBegin(n@, *k, *s),
            Token::MessageEnd => TokenV::MessageEnd,
            Token::StructBegin => TokenV::StructBegin,
            Token::StructEnd => TokenV::StructEnd,
            Token::FieldBegin(w, t) => TokenV::FieldBegin(*w, *t),
            Token::FieldEnd => TokenV::FieldEnd,
            Token::FieldStop => TokenV::FieldStop,
            Token::ListBegin(w, n) => TokenV::ListBegin(*w, *n as nat),
            Token::ListEnd => TokenV::ListEnd,
            Token::MapBegin(k, v, n) => TokenV::MapBegin(*k, *v, *n as nat),
            Token::MapEnd => TokenV::MapEnd,
            Token::Bool(b) => TokenV::Bool(*b),
            Token::I32(x) => TokenV::I32(*x),
            Token::I64(x) => TokenV::I64(*x),
            Token::I16(x) => TokenV::I16(*x),
            Token::Byte(x) => TokenV::Byte(*x),
            Token::Str(s) => TokenV::Str(s@),
        }
    }
}

/// The model of a token stream.
pub open spec fn toks(v: Seq<Token>) -> Seq<TokenV> {
    v.map_values(|t: Token| t@)
}

/// Appends a token to a stream.
pub fn push_token(out: &mut Vec<Token>, t: Token)
    ensures
        toks(final(out)@) == toks(old(out)@).push(t@),
{
    proof {
        assert(toks(old(out)@.push(t)) =~= toks(old(out)@).push(t@));
    }
    out.push(t);
}

} // verus!
