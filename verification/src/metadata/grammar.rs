//! The grammar of the metadata language, as functions from bytes to what
//! parsing them gives.
//!
//! ```text
//! document  := element*
//! element   := IDENT '=' value | IDENT '{' element* '}'
//! value     := INT | STRING | '[' valuelist? ']'
//! valuelist := value (',' value)*
//! STRING    := '"' characters, with \" and \\ as escapes '"'
//! INT       := '-'? digit+
//! IDENT     := [A-Za-z_][A-Za-z0-9_]*
//! ```
//!
//! Blanks (space, tab, CR, LF) and comments (`#` to the end of the line) may
//! stand between tokens. A position is an index into the bytes; an error is
//! the position at which the grammar fails.
use vstd::prelude::*;
use crate::text::{ascii_text, prepend};

verus! {

/// How deep arrays may nest in arrays, and sections in sections.
pub const MAX_NESTING: usize = 32;

/// The mathematical value of a value of the metadata language.
pub ghost enum ValueView {
    Int(i64),
    Str(Seq<char>),
    Array(Seq<ValueView>),
}

/// The mathematical value of a node of the element tree.
pub ghost enum ElementView {
    Scalar(Seq<char>, ValueView),
    Section(Seq<char>, Seq<ElementView>),
}

pub open spec fn is_blank(c: u8) -> bool {
    c == 0x20 || c == 0x09 || c == 0x0D || c == 0x0A
}

pub open spec fn is_digit(c: u8) -> bool {
    0x30 <= c <= 0x39
}

pub open spec fn is_ident_start(c: u8) -> bool {
    (0x41 <= c <= 0x5A) || (0x61 <= c <= 0x7A) || c == 0x5F
}

pub open spec fn is_ident_char(c: u8) -> bool {
    is_ident_start(c) || is_digit(c)
}

/// The number of bytes from position `i` to the end.
pub open spec fn remaining(b: Seq<u8>, i: int) -> nat {
    if 0 <= i <= b.len() {
        (b.len() - i) as nat
    } else {
        0
    }
}

/// The position of the first line feed at or after `i`, or the end.
pub open spec fn spec_line_end(b: Seq<u8>, i: int) -> int
    decreases remaining(b, i),
{
    if i < 0 || i >= b.len() || b[i] == 0x0A {
        i
    } else {
        spec_line_end(b, i + 1)
    }
}

/// The position of the first byte at or after `i` that belongs neither to a
/// blank nor to a comment, or the end.
pub open spec fn spec_skip_blank(b: Seq<u8>, i: int) -> int
    decreases remaining(b, i),
{
    if i < 0 || i >= b.len() {
        i
    } else if is_blank(b[i]) {
        spec_skip_blank(b, i + 1)
    } else if b[i] == 0x23 {
        proof {
            lemma_line_end_bounds(b, i + 1);
        }
        spec_skip_blank(b, spec_line_end(b, i + 1))
    } else {
        i
    }
}

/// The position of the first byte at or after `i` that cannot stand in an
/// identifier, or the end.
pub open spec fn spec_ident_end(b: Seq<u8>, i: int) -> int
    decreases remaining(b, i),
{
    if i < 0 || i >= b.len() || !is_ident_char(b[i]) {
        i
    } else {
        spec_ident_end(b, i + 1)
    }
}

/// The position of the first byte at or after `i` that is no digit, or the
/// end.
pub open spec fn spec_digits_end(b: Seq<u8>, i: int) -> int
    decreases remaining(b, i),
{
    if i < 0 || i >= b.len() || !is_digit(b[i]) {
        i
    } else {
        spec_digits_end(b, i + 1)
    }
}

/// The number that the decimal digits `b[from..to]` write.
pub open spec fn spec_decimal(b: Seq<u8>, from: int, to: int) -> int
    decreases to - from,
{
    if to <= from {
        0
    } else {
        spec_decimal(b, from, to - 1) * 10 + (b[to - 1] - 0x30)
    }
}

/// What reading an integer at `i` gives: the value and the position behind
/// its last digit. Without a digit the error is where the digit should be;
/// a number outside the 64-bit signed range is an error at `i`.
pub open spec fn spec_int(b: Seq<u8>, i: int) -> Result<(i64, int), int> {
    let negative = 0 <= i < b.len() && b[i] == 0x2D;
    let start = if negative {
        i + 1
    } else {
        i
    };
    let end = spec_digits_end(b, start);
    let magnitude = spec_decimal(b, start, end);
    let value = if negative {
        -magnitude
    } else {
        magnitude
    };
    if end <= start {
        Err(start)
    } else if i64::MIN <= value <= i64::MAX {
        Ok((value as i64, end))
    } else {
        Err(i)
    }
}

/// What reading the rest of a string gives when `i` is the position behind
/// its opening quote: the characters and the position behind the closing
/// quote. A backslash stands only before a quote or a backslash; a byte
/// that is not ASCII, another escape, or the end of the bytes before the
/// closing quote is an error there.
pub open spec fn spec_string(b: Seq<u8>, i: int) -> Result<(Seq<char>, int), int>
    decreases remaining(b, i),
{
    if i < 0 || i >= b.len() {
        Err(i)
    } else if b[i] == 0x22 {
        Ok((Seq::empty(), i + 1))
    } else if b[i] == 0x5C {
        if i + 1 < b.len() && (b[i + 1] == 0x22 || b[i + 1] == 0x5C) {
            prepend(seq![b[i + 1] as char], spec_string(b, i + 2))
        } else {
            Err(i)
        }
    } else if b[i] >= 0x80 {
        Err(i)
    } else {
        prepend(seq![b[i] as char], spec_string(b, i + 1))
    }
}

/// What reading a value at `i` gives: the value and the position behind
/// it. `depth` tells how many more arrays may open inside.
pub open spec fn spec_value(b: Seq<u8>, i: int, depth: nat) -> Result<(ValueView, int), int>
    decreases depth, remaining(b, i), 0nat,
{
    if i < 0 || i >= b.len() {
        Err(i)
    } else if b[i] == 0x22 {
        match spec_string(b, i + 1) {
            Ok((text, end)) => Ok((ValueView::Str(text), end)),
            Err(at) => Err(at),
        }
    } else if b[i] == 0x5B {
        let first = spec_skip_blank(b, i + 1);
        if depth == 0 {
            Err(i)
        } else if 0 <= first < b.len() && b[first] == 0x5D {
            Ok((ValueView::Array(Seq::empty()), first + 1))
        } else {
            match spec_items(b, first, (depth - 1) as nat) {
                Ok((items, end)) => Ok((ValueView::Array(items), end)),
                Err(at) => Err(at),
            }
        }
    } else if b[i] == 0x2D || is_digit(b[i]) {
        match spec_int(b, i) {
            Ok((n, end)) => Ok((ValueView::Int(n), end)),
            Err(at) => Err(at),
        }
    } else {
        Err(i)
    }
}

/// What reading the values of an array gives when `i` is the position of
/// its first value: the values and the position behind the closing bracket.
/// (The comparison of a value's end with its start always holds, see
/// [`lemma_value_bounds`]; it shows that the definition terminates.)
pub open spec fn spec_items(b: Seq<u8>, i: int, depth: nat) -> Result<(Seq<ValueView>, int), int>
    decreases depth, remaining(b, i), 1nat,
{
    if i < 0 || i >= b.len() {
        Err(i)
    } else {
        match spec_value(b, i, depth) {
            Err(at) => Err(at),
            Ok((value, end)) => {
                let next = spec_skip_blank(b, end);
                if end <= i || next < 0 || next >= b.len() {
                    Err(next)
                } else if b[next] == 0x5D {
                    Ok((seq![value], next + 1))
                } else if b[next] == 0x2C {
                    proof {
                        lemma_skip_blank_bounds(b, end);
                        lemma_skip_blank_bounds(b, next + 1);
                    }
                    prepend(seq![value], spec_items(b, spec_skip_blank(b, next + 1), depth))
                } else {
                    Err(next)
                }
            },
        }
    }
}

/// What reading an element at `i` gives: the element and the position
/// behind it. `depth` tells how many more sections may open inside.
pub open spec fn spec_element(b: Seq<u8>, i: int, depth: nat) -> Result<(ElementView, int), int>
    decreases depth, remaining(b, i), 0nat,
{
    if i < 0 || i >= b.len() || !is_ident_start(b[i]) {
        Err(i)
    } else {
        let name_end = spec_ident_end(b, i);
        let name = ascii_text(b.subrange(i, name_end));
        let mark = spec_skip_blank(b, name_end);
        if mark < 0 || mark >= b.len() {
            Err(mark)
        } else if b[mark] == 0x3D {
            match spec_value(b, spec_skip_blank(b, mark + 1), MAX_NESTING as nat) {
                Ok((value, end)) => Ok((ElementView::Scalar(name, value), end)),
                Err(at) => Err(at),
            }
        } else if b[mark] == 0x7B {
            if depth == 0 {
                Err(mark)
            } else {
                match spec_body(b, mark + 1, (depth - 1) as nat) {
                    Ok((children, end)) => Ok((ElementView::Section(name, children), end)),
                    Err(at) => Err(at),
                }
            }
        } else {
            Err(mark)
        }
    }
}

/// What reading the elements of a section gives when `i` is a position
/// behind its opening brace: the elements and the position behind the
/// closing brace. (The comparison of an element's end with its start always
/// holds, see [`lemma_element_bounds`]; it shows that the definition
/// terminates.)
pub open spec fn spec_body(b: Seq<u8>, i: int, depth: nat) -> Result<(Seq<ElementView>, int), int>
    decreases depth, remaining(b, i), 1nat,
{
    let at = spec_skip_blank(b, i);
    if i < 0 || at < i || at >= b.len() {
        Err(at)
    } else if b[at] == 0x7D {
        Ok((Seq::empty(), at + 1))
    } else {
        match spec_element(b, at, depth) {
            Err(e) => Err(e),
            Ok((element, end)) => {
                if end <= at {
                    Err(at)
                } else {
                    prepend(seq![element], spec_body(b, end, depth))
                }
            },
        }
    }
}

/// What reading a document from `i` gives: its elements and the position of
/// the first byte behind them that begins neither a blank, nor a comment,
/// nor an element. What stands from there on is not part of the document.
pub open spec fn spec_document(b: Seq<u8>, i: int) -> Result<(Seq<ElementView>, int), int>
    decreases remaining(b, i),
{
    let at = spec_skip_blank(b, i);
    if i < 0 || at < i || at >= b.len() || !is_ident_start(b[at]) {
        Ok((Seq::empty(), at))
    } else {
        match spec_element(b, at, MAX_NESTING as nat) {
            Err(e) => Err(e),
            Ok((element, end)) => {
                proof {
                    lemma_element_bounds(b, at, MAX_NESTING as nat);
                }
                prepend(seq![element], spec_document(b, end))
            },
        }
    }
}

/// A line ends at or after the position from which it is sought, within the
/// bytes.
pub proof fn lemma_line_end_bounds(b: Seq<u8>, i: int)
    requires
        0 <= i <= b.len(),
    ensures
        i <= spec_line_end(b, i) <= b.len(),
    decreases remaining(b, i),
{
    if i < b.len() && b[i] != 0x0A {
        lemma_line_end_bounds(b, i + 1);
    }
}

/// Skipping blanks moves forward, within the bytes.
pub proof fn lemma_skip_blank_bounds(b: Seq<u8>, i: int)
    requires
        0 <= i <= b.len(),
    ensures
        i <= spec_skip_blank(b, i) <= b.len(),
    decreases remaining(b, i),
{
    if i < b.len() {
        if is_blank(b[i]) {
            lemma_skip_blank_bounds(b, i + 1);
        } else if b[i] == 0x23 {
            lemma_line_end_bounds(b, i + 1);
            lemma_skip_blank_bounds(b, spec_line_end(b, i + 1));
        }
    }
}

/// An identifier ends within the bytes, and every byte before its end can
/// stand in an identifier.
pub proof fn lemma_ident_end(b: Seq<u8>, i: int)
    requires
        0 <= i <= b.len(),
    ensures
        i <= spec_ident_end(b, i) <= b.len(),
        forall|k: int| i <= k < spec_ident_end(b, i) ==> is_ident_char(b[k]),
    decreases remaining(b, i),
{
    if i < b.len() && is_ident_char(b[i]) {
        lemma_ident_end(b, i + 1);
    }
}

/// A run of digits ends within the bytes, and every byte before its end is
/// a digit.
pub proof fn lemma_digits_end(b: Seq<u8>, i: int)
    requires
        0 <= i <= b.len(),
    ensures
        i <= spec_digits_end(b, i) <= b.len(),
        forall|k: int| i <= k < spec_digits_end(b, i) ==> is_digit(b[k]),
    decreases remaining(b, i),
{
    if i < b.len() && is_digit(b[i]) {
        lemma_digits_end(b, i + 1);
    }
}

/// The number that digits write does not shrink when more digits follow.
pub proof fn lemma_decimal_monotone(b: Seq<u8>, from: int, mid: int, to: int)
    requires
        0 <= from <= mid <= to <= b.len(),
        forall|k: int| from <= k < to ==> is_digit(b[k]),
    ensures
        0 <= spec_decimal(b, from, mid) <= spec_decimal(b, from, to),
    decreases to - mid,
{
    lemma_decimal_nonnegative(b, from, mid);
    if mid < to {
        lemma_decimal_monotone(b, from, mid, to - 1);
    }
}

/// The number that digits write is not negative.
pub proof fn lemma_decimal_nonnegative(b: Seq<u8>, from: int, to: int)
    requires
        0 <= from <= to <= b.len(),
        forall|k: int| from <= k < to ==> is_digit(b[k]),
    ensures
        0 <= spec_decimal(b, from, to),
    decreases to - from,
{
    if from < to {
        lemma_decimal_nonnegative(b, from, to - 1);
    }
}

/// An integer that is read ends behind its start, within the bytes; an
/// error lies within the bytes.
pub proof fn lemma_int_bounds(b: Seq<u8>, i: int)
    requires
        0 <= i < b.len(),
    ensures
        match spec_int(b, i) {
            Ok((_, end)) => i < end <= b.len(),
            Err(at) => i <= at <= b.len(),
        },
{
    let negative = b[i] == 0x2D;
    let start = if negative {
        i + 1
    } else {
        i
    };
    lemma_digits_end(b, start);
}

/// A string that is read ends behind its start, within the bytes; an error
/// lies within the bytes.
pub proof fn lemma_string_bounds(b: Seq<u8>, i: int)
    requires
        0 <= i <= b.len(),
    ensures
        match spec_string(b, i) {
            Ok((_, end)) => i < end <= b.len(),
            Err(at) => i <= at <= b.len(),
        },
    decreases remaining(b, i),
{
    if i < b.len() && b[i] != 0x22 {
        if b[i] == 0x5C {
            if i + 1 < b.len() && (b[i + 1] == 0x22 || b[i + 1] == 0x5C) {
                lemma_string_bounds(b, i + 2);
            }
        } else if b[i] < 0x80 {
            lemma_string_bounds(b, i + 1);
        }
    }
}

/// A value that is read ends behind its start, within the bytes; an error
/// lies within the bytes.
pub proof fn lemma_value_bounds(b: Seq<u8>, i: int, depth: nat)
    requires
        0 <= i <= b.len(),
    ensures
        match spec_value(b, i, depth) {
            Ok((_, end)) => i < end <= b.len(),
            Err(at) => i <= at <= b.len(),
        },
    decreases depth, remaining(b, i), 0nat,
{
    if i < b.len() {
        if b[i] == 0x22 {
            lemma_string_bounds(b, i + 1);
        } else if b[i] == 0x5B {
            lemma_skip_blank_bounds(b, i + 1);
            let first = spec_skip_blank(b, i + 1);
            if depth > 0 && !(first < b.len() && b[first] == 0x5D) {
                lemma_items_bounds(b, first, (depth - 1) as nat);
            }
        } else if b[i] == 0x2D || is_digit(b[i]) {
            lemma_int_bounds(b, i);
        }
    }
}

/// The values of an array that are read end behind their start, within the
/// bytes; an error lies within the bytes.
pub proof fn lemma_items_bounds(b: Seq<u8>, i: int, depth: nat)
    requires
        0 <= i <= b.len(),
    ensures
        match spec_items(b, i, depth) {
            Ok((_, end)) => i < end <= b.len(),
            Err(at) => i <= at <= b.len(),
        },
    decreases depth, remaining(b, i), 1nat,
{
    if i < b.len() {
        lemma_value_bounds(b, i, depth);
        match spec_value(b, i, depth) {
            Err(_) => {},
            Ok((_, end)) => {
                lemma_skip_blank_bounds(b, end);
                let next = spec_skip_blank(b, end);
                if next < b.len() && b[next] == 0x2C {
                    lemma_skip_blank_bounds(b, next + 1);
                    lemma_items_bounds(b, spec_skip_blank(b, next + 1), depth);
                }
            },
        }
    }
}

/// An element that is read ends behind its start, within the bytes; an
/// error lies within the bytes.
pub proof fn lemma_element_bounds(b: Seq<u8>, i: int, depth: nat)
    requires
        0 <= i <= b.len(),
    ensures
        match spec_element(b, i, depth) {
            Ok((_, end)) => i < end <= b.len(),
            Err(at) => i <= at <= b.len(),
        },
    decreases depth, remaining(b, i), 0nat,
{
    if i < b.len() && is_ident_start(b[i]) {
        lemma_ident_end(b, i);
        lemma_ident_end(b, i + 1);
        let name_end = spec_ident_end(b, i);
        assert(name_end > i);
        lemma_skip_blank_bounds(b, name_end);
        let mark = spec_skip_blank(b, name_end);
        if mark < b.len() {
            if b[mark] == 0x3D {
                lemma_skip_blank_bounds(b, mark + 1);
                lemma_value_bounds(b, spec_skip_blank(b, mark + 1), MAX_NESTING as nat);
            } else if b[mark] == 0x7B && depth > 0 {
                lemma_body_bounds(b, mark + 1, (depth - 1) as nat);
            }
        }
    }
}

/// The elements of a section that are read end behind their start, within
/// the bytes; an error lies within the bytes.
pub proof fn lemma_body_bounds(b: Seq<u8>, i: int, depth: nat)
    requires
        0 <= i <= b.len(),
    ensures
        match spec_body(b, i, depth) {
            Ok((_, end)) => i < end <= b.len(),
            Err(at) => i <= at <= b.len(),
        },
    decreases depth, remaining(b, i), 1nat,
{
    lemma_skip_blank_bounds(b, i);
    let at = spec_skip_blank(b, i);
    if at < b.len() && b[at] != 0x7D {
        lemma_element_bounds(b, at, depth);
        match spec_element(b, at, depth) {
            Err(_) => {},
            Ok((_, end)) => {
                lemma_body_bounds(b, end, depth);
            },
        }
    }
}

/// A document that is read ends within the bytes, at or behind its start;
/// an error lies within the bytes.
pub proof fn lemma_document_bounds(b: Seq<u8>, i: int)
    requires
        0 <= i <= b.len(),
    ensures
        match spec_document(b, i) {
            Ok((_, end)) => i <= end <= b.len(),
            Err(at) => i <= at <= b.len(),
        },
    decreases remaining(b, i),
{
    lemma_skip_blank_bounds(b, i);
    let at = spec_skip_blank(b, i);
    if at < b.len() && is_ident_start(b[at]) {
        lemma_element_bounds(b, at, MAX_NESTING as nat);
        match spec_element(b, at, MAX_NESTING as nat) {
            Err(_) => {},
            Ok((_, end)) => {
                lemma_document_bounds(b, end);
            },
        }
    }
}

} // verus!
