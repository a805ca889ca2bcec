use vstd::prelude::*;

use crate::{chars_of, string_from};

verus! {

/// The span that a token or an error occupies: half-open ranges of character
/// index, line and column.
#[derive(Debug, PartialEq, Eq)]
pub struct Position {
    pub idx: std::ops::Range<usize>,
    pub ln: std::ops::Range<usize>,
    pub col: std::ops::Range<usize>,
}

impl Clone for Position {
    fn clone(&self) -> (r: Self)
        ensures
            r == *self,
    {
        Position {
            idx: self.idx.start..self.idx.end,
            ln: self.ln.start..self.ln.end,
            col: self.col.start..self.col.end,
        }
    }
}

impl Position {
    pub fn new(
        idx: std::ops::Range<usize>,
        ln: std::ops::Range<usize>,
        col: std::ops::Range<usize>,
    ) -> (r: Self)
        ensures
            r == (Position { idx, ln, col }),
    {
        Self { idx, ln, col }
    }

    /// Grows this span so that it ends where `other` ends; the starts stay.
    pub fn extend(&mut self, other: &Self)
        ensures
            final(self).idx == (old(self).idx.start..other.idx.end),
            final(self).ln == (old(self).ln.start..other.ln.end),
            final(self).col == (old(self).col.start..other.col.end),
    {
        self.idx.end = other.idx.end;
        self.ln.end = other.ln.end;
        self.col.end = other.col.end;
    }
}

/// A value together with the span it was scanned from.
#[derive(Debug, Clone)]
pub struct Located<T> {
    pub value: T,
    pub pos: Position,
}

impl<T> Located<T> {
    pub fn new(value: T, pos: Position) -> (r: Self)
        ensures
            r.value == value,
            r.pos == pos,
    {
        Self { value, pos }
    }
}

/// Located values are equal when their values are: the span is where a value
/// came from, not part of what it is.
impl<T: PartialEq> PartialEq for Located<T> {
    fn eq(&self, other: &Self) -> (r: bool) {
        self.value == other.value
    }
}

impl<T: PartialEq> vstd::std_specs::cmp::PartialEqSpecImpl for Located<T> {
    open spec fn obeys_eq_spec() -> bool {
        <T as vstd::std_specs::cmp::PartialEqSpec>::obeys_eq_spec()
    }

    open spec fn eq_spec(&self, other: &Self) -> bool {
        <T as vstd::std_specs::cmp::PartialEqSpec>::eq_spec(&self.value, &other.value)
    }
}

impl<T> std::ops::Deref for Located<T> {
    type Target = T;

    fn deref(&self) -> (r: &T)
        ensures
            *r == self.value,
    {
        &self.value
    }
}

/// What went wrong while scanning.
#[derive(Debug, Clone, PartialEq)]
pub enum ErrorType {
    /// An unknown escape, or a character literal without its closing quote.
    BadChar(char),
    /// A string literal without its closing quote.
    UnclosedString,
    /// A run of symbol characters that is not a configured symbol.
    InvalidSymbol(String),
    /// An integer literal whose value does not fit in an `i64`.
    IntOverflow,
}

/// The mathematical value of an `ErrorType`.
pub enum ErrorKind {
    BadChar(char),
    UnclosedString,
    InvalidSymbol(Seq<char>),
    IntOverflow,
}

impl View for ErrorType {
    type V = ErrorKind;

    open spec fn view(&self) -> ErrorKind {
        match self {
            ErrorType::BadChar(c) => ErrorKind::BadChar(*c),
            ErrorType::UnclosedString => ErrorKind::UnclosedString,
            ErrorType::InvalidSymbol(s) => ErrorKind::InvalidSymbol(s@),
            ErrorType::IntOverflow => ErrorKind::IntOverflow,
        }
    }
}

/// A scanning error and where it happened.
#[derive(Debug, Clone, PartialEq)]
pub struct Error {
    pub error_type: ErrorType,
    pub pos: Position,
}

impl Error {
    pub fn new(error_type: ErrorType, pos: Position) -> (r: Self)
        ensures
            r.error_type == error_type,
            r.pos == pos,
    {
        Self { error_type, pos }
    }

    /// A short description of the kind of error.
    pub fn description(&self) -> (r: &'static str)
        ensures
            r@ == error_description(self.error_type@),
    {
        match &self.error_type {
            ErrorType::BadChar(_) => "bad character",
            ErrorType::UnclosedString => "unclosed string",
            ErrorType::InvalidSymbol(_) => "invalid symbol",
            ErrorType::IntOverflow => "integer too large",
        }
    }

    /// The error as a message: what went wrong, then the index, line and
    /// column where its span starts.
    pub fn message(&self) -> (r: String)
        ensures
            r@ == error_message(self.error_type@, self.pos),
    {
        let mut out: Vec<char> = Vec::new();
        match &self.error_type {
            ErrorType::BadChar(c) => {
                push_str(&mut out, "bad character '");
                out.push(*c);
                push_str(&mut out, "'");
            },
            ErrorType::UnclosedString => {
                push_str(&mut out, "unclosed string");
            },
            ErrorType::InvalidSymbol(sym) => {
                push_str(&mut out, "invalid symbol '");
                push_str(&mut out, sym.as_str());
                push_str(&mut out, "'");
            },
            ErrorType::IntOverflow => {
                push_str(&mut out, "integer too large");
            },
        }
        push_str(&mut out, " at ");
        push_decimal(&mut out, self.pos.idx.start);
        push_str(&mut out, ", (ln: ");
        push_decimal(&mut out, self.pos.ln.start);
        push_str(&mut out, ", col: ");
        push_decimal(&mut out, self.pos.col.start);
        push_str(&mut out, ")");
        string_from(out.as_slice())
    }
}

pub open spec fn error_description(kind: ErrorKind) -> Seq<char> {
    match kind {
        ErrorKind::BadChar(_) => "bad character"@,
        ErrorKind::UnclosedString => "unclosed string"@,
        ErrorKind::InvalidSymbol(_) => "invalid symbol"@,
        ErrorKind::IntOverflow => "integer too large"@,
    }
}

/// What went wrong, in words, as the start of a message.
pub open spec fn error_head(kind: ErrorKind) -> Seq<char> {
    match kind {
        ErrorKind::BadChar(c) => "bad character '"@ + seq![c] + "'"@,
        ErrorKind::UnclosedString => "unclosed string"@,
        ErrorKind::InvalidSymbol(sym) => "invalid symbol '"@ + sym + "'"@,
        ErrorKind::IntOverflow => "integer too large"@,
    }
}

pub open spec fn error_message(kind: ErrorKind, pos: Position) -> Seq<char> {
    error_head(kind) + " at "@ + decimal(pos.idx.start as nat) + ", (ln: "@ + decimal(
        pos.ln.start as nat,
    ) + ", col: "@ + decimal(pos.col.start as nat) + ")"@
}

pub open spec fn digit_char(d: nat) -> char {
    (d + 48) as char
}

/// The decimal digits of `n`, without leading zeros.
pub open spec fn decimal(n: nat) -> Seq<char>
    decreases n,
{
    if n < 10 {
        seq![digit_char(n)]
    } else {
        decimal(n / 10).push(digit_char(n % 10))
    }
}

fn push_str(out: &mut Vec<char>, s: &str)
    ensures
        final(out)@ == old(out)@ + s@,
{
    let mut chars = chars_of(s);
    out.append(&mut chars);
}

fn push_decimal(out: &mut Vec<char>, n: usize)
    ensures
        final(out)@ == old(out)@ + decimal(n as nat),
    decreases n,
{
    if n >= 10 {
        push_decimal(out, n / 10);
    }
    let d = (n % 10) as u8;
    out.push((d + 48) as char);
    proof {
        if n >= 10 {
            assert(decimal(n as nat) == decimal((n / 10) as nat).push(digit_char((n % 10) as nat)));
        }
    }
    assert(out@ =~= old(out)@ + decimal(n as nat));
}

} // verus!
