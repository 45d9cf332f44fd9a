//! The untyped element tree of a metadata document and its parser.
use vstd::prelude::*;
use crate::error::{Error, ParseContext};
use crate::metadata::grammar::{
    is_digit, is_ident_char, is_ident_start, lemma_decimal_monotone, lemma_digits_end,
    lemma_ident_end, spec_body, spec_decimal,
    spec_digits_end, spec_document, spec_element, spec_ident_end, spec_int, spec_items,
    spec_line_end, spec_skip_blank, spec_string, spec_value, ElementView, ValueView, MAX_NESTING,
};
use crate::text::{all_ascii, ascii_string, lemma_prepend_push, prepend, push_char};

verus! {

broadcast use vstd::std_specs::vec::axiom_vec_index_decreases;

/// A value of the metadata language.
#[derive(Debug)]
pub enum MetadataValue {
    Int(i64),
    Str(String),
    Array(Vec<MetadataValue>),
}

/// A node of the element tree: a named value or a named section. Children
/// stand in the order of the text.
#[derive(Debug)]
pub enum MetadataElement {
    Scalar(String, MetadataValue),
    Section(String, Vec<MetadataElement>),
}

/// The elements of a metadata document, in the order of the text.
#[derive(Debug)]
pub struct MetadataElements {
    pub elements: Vec<MetadataElement>,
}

/// The mathematical value of a value of the metadata language.
pub open spec fn value_view(v: MetadataValue) -> ValueView
    decreases v,
{
    match v {
        MetadataValue::Int(n) => ValueView::Int(n),
        MetadataValue::Str(s) => ValueView::Str(s@),
        MetadataValue::Array(items) => ValueView::Array(
            Seq::new(
                items@.len(),
                |k: int|
                    if 0 <= k < items@.len() {
                        value_view(items@[k])
                    } else {
                        ValueView::Int(0)
                    },
            ),
        ),
    }
}

/// The mathematical value of a node of the element tree.
pub open spec fn element_view(e: MetadataElement) -> ElementView
    decreases e,
{
    match e {
        MetadataElement::Scalar(name, value) => ElementView::Scalar(name@, value_view(value)),
        MetadataElement::Section(name, children) => ElementView::Section(
            name@,
            Seq::new(
                children@.len(),
                |k: int|
                    if 0 <= k < children@.len() {
                        element_view(children@[k])
                    } else {
                        ElementView::Section(Seq::empty(), Seq::empty())
                    },
            ),
        ),
    }
}

/// The mathematical values of a sequence of values.
pub open spec fn values_view(items: Seq<MetadataValue>) -> Seq<ValueView> {
    Seq::new(items.len(), |k: int| value_view(items[k]))
}

/// The mathematical values of a sequence of elements.
pub open spec fn elements_view(items: Seq<MetadataElement>) -> Seq<ElementView> {
    Seq::new(items.len(), |k: int| element_view(items[k]))
}

impl View for MetadataValue {
    type V = ValueView;

    open spec fn view(&self) -> ValueView {
        value_view(*self)
    }
}

impl View for MetadataElement {
    type V = ElementView;

    open spec fn view(&self) -> ElementView {
        element_view(*self)
    }
}

impl View for MetadataElements {
    type V = Seq<ElementView>;

    open spec fn view(&self) -> Seq<ElementView> {
        elements_view(self.elements@)
    }
}

/// The value of an array is the array of its items' values.
pub proof fn lemma_array_view(items: Vec<MetadataValue>)
    ensures
        value_view(MetadataValue::Array(items)) == ValueView::Array(values_view(items@)),
{
    assert(value_view(MetadataValue::Array(items))->Array_0 =~= values_view(items@));
}

/// The value of a section is its name with its children's values.
pub proof fn lemma_section_view(name: String, children: Vec<MetadataElement>)
    ensures
        element_view(MetadataElement::Section(name, children)) == ElementView::Section(
            name@,
            elements_view(children@),
        ),
{
    assert(element_view(MetadataElement::Section(name, children))->Section_1 =~= elements_view(
        children@,
    ));
}

/// The position of the first line feed at or after `i`, or the end.
pub fn line_end(bytes: &[u8], i: usize) -> (r: usize)
    requires
        i <= bytes@.len(),
    ensures
        r == spec_line_end(bytes@, i as int),
        i <= r <= bytes@.len(),
{
    let n: usize = bytes.len();
    let mut k: usize = i;
    while k < n && bytes[k] != 0x0A
        invariant
            n == bytes@.len(),
            i <= k <= n,
            spec_line_end(bytes@, i as int) == spec_line_end(bytes@, k as int),
        decreases n - k,
    {
        k = k + 1;
    }
    k
}

/// The position of the first byte at or after `i` that belongs neither to a
/// blank nor to a comment, or the end.
pub fn skip_blank(bytes: &[u8], i: usize) -> (r: usize)
    requires
        i <= bytes@.len(),
    ensures
        r == spec_skip_blank(bytes@, i as int),
        i <= r <= bytes@.len(),
{
    let n: usize = bytes.len();
    let mut k: usize = i;
    loop
        invariant
            n == bytes@.len(),
            i <= k <= n,
            spec_skip_blank(bytes@, i as int) == spec_skip_blank(bytes@, k as int),
        decreases n - k,
    {
        if k >= n {
            return k;
        }
        let c: u8 = bytes[k];
        if c == 0x20 || c == 0x09 || c == 0x0D || c == 0x0A {
            k = k + 1;
        } else if c == 0x23 {
            k = line_end(bytes, k + 1);
        } else {
            return k;
        }
    }
}

/// Tells whether `c` can begin an identifier.
pub fn ident_start(c: u8) -> (r: bool)
    ensures
        r == is_ident_start(c),
{
    (0x41 <= c && c <= 0x5A) || (0x61 <= c && c <= 0x7A) || c == 0x5F
}

/// The position of the first byte at or after `i` that cannot stand in an
/// identifier, or the end.
pub fn ident_end(bytes: &[u8], i: usize) -> (r: usize)
    requires
        i <= bytes@.len(),
    ensures
        r == spec_ident_end(bytes@, i as int),
        i <= r <= bytes@.len(),
{
    let n: usize = bytes.len();
    let mut k: usize = i;
    while k < n && (ident_start(bytes[k]) || (0x30 <= bytes[k] && bytes[k] <= 0x39))
        invariant
            n == bytes@.len(),
            i <= k <= n,
            spec_ident_end(bytes@, i as int) == spec_ident_end(bytes@, k as int),
        decreases n - k,
    {
        k = k + 1;
    }
    k
}

/// What an integer that was read, or the position of its error, stands for.
pub open spec fn int_outcome(r: Result<(i64, usize), usize>) -> Result<(i64, int), int> {
    match r {
        Ok((n, end)) => Ok((n, end as int)),
        Err(at) => Err(at as int),
    }
}

/// Reads an integer at `i`.
pub fn parse_int(bytes: &[u8], i: usize) -> (r: Result<(i64, usize), usize>)
    requires
        i <= bytes@.len(),
    ensures
        int_outcome(r) == spec_int(bytes@, i as int),
        match r {
            Ok((_, end)) => i < end <= bytes@.len(),
            Err(at) => i <= at <= bytes@.len(),
        },
{
    let n: usize = bytes.len();
    let negative: bool = i < n && bytes[i] == 0x2D;
    let start: usize = if negative {
        i + 1
    } else {
        i
    };
    let limit: u64 = if negative {
        0x8000_0000_0000_0000
    } else {
        0x7FFF_FFFF_FFFF_FFFF
    };
    let ghost end = spec_digits_end(bytes@, start as int);
    proof {
        lemma_digits_end(bytes@, start as int);
    }
    let mut magnitude: u64 = 0;
    let mut k: usize = start;
    while k < n && 0x30 <= bytes[k] && bytes[k] <= 0x39
        invariant
            n == bytes@.len(),
            start <= k <= end <= n,
            end == spec_digits_end(bytes@, start as int),
            end == spec_digits_end(bytes@, k as int),
            forall|j: int| start <= j < end ==> is_digit(bytes@[j]),
            magnitude == spec_decimal(bytes@, start as int, k as int),
            magnitude <= limit,
            limit == if negative {
                0x8000_0000_0000_0000u64
            } else {
                0x7FFF_FFFF_FFFF_FFFFu64
            },
            negative == (i < n && bytes@[i as int] == 0x2D),
            start == if negative {
                i + 1
            } else {
                i as int
            },
        decreases n - k,
    {
        let digit: u64 = (bytes[k] - 0x30) as u64;
        proof {
            lemma_digits_end(bytes@, k + 1);
        }
        if magnitude > (limit - digit) / 10 {
            proof {
                assert(spec_decimal(bytes@, start as int, k + 1) == magnitude * 10 + digit);
                lemma_decimal_monotone(bytes@, start as int, k + 1, end);
            }
            return Err(i);
        }
        magnitude = magnitude * 10 + digit;
        k = k + 1;
    }
    if k == start {
        return Err(start);
    }
    if negative {
        if magnitude == 0x8000_0000_0000_0000 {
            Ok((i64::MIN, k))
        } else {
            Ok((0 - (magnitude as i64), k))
        }
    } else {
        Ok((magnitude as i64, k))
    }
}

/// What a string that was read, or the position of its error, stands for.
pub open spec fn string_outcome(r: Result<(String, usize), usize>) -> Result<(Seq<char>, int), int> {
    match r {
        Ok((s, end)) => Ok((s@, end as int)),
        Err(at) => Err(at as int),
    }
}

/// Reads the rest of a string; `i` is the position behind its opening
/// quote.
pub fn parse_string(bytes: &[u8], i: usize) -> (r: Result<(String, usize), usize>)
    requires
        i <= bytes@.len(),
    ensures
        string_outcome(r) == spec_string(bytes@, i as int),
        match r {
            Ok((_, end)) => i < end <= bytes@.len(),
            Err(at) => i <= at <= bytes@.len(),
        },
{
    let n: usize = bytes.len();
    let mut text = String::new();
    let mut k: usize = i;
    loop
        invariant
            n == bytes@.len(),
            i <= k <= n,
            spec_string(bytes@, i as int) == prepend(text@, spec_string(bytes@, k as int)),
        decreases n - k,
    {
        if k >= n {
            return Err(k);
        }
        let c: u8 = bytes[k];
        if c == 0x22 {
            proof {
                assert(text@ + Seq::<char>::empty() =~= text@);
            }
            return Ok((text, k + 1));
        } else if c == 0x5C {
            if k + 1 < n && (bytes[k + 1] == 0x22 || bytes[k + 1] == 0x5C) {
                let escaped: u8 = bytes[k + 1];
                proof {
                    lemma_prepend_push(text@, escaped as char, spec_string(bytes@, k + 2));
                }
                push_char(&mut text, escaped as char);
                k = k + 2;
            } else {
                return Err(k);
            }
        } else if c >= 0x80 {
            return Err(k);
        } else {
            proof {
                lemma_prepend_push(text@, c as char, spec_string(bytes@, k + 1));
            }
            push_char(&mut text, c as char);
            k = k + 1;
        }
    }
}

/// What a value that was read, or the position of its error, stands for.
pub open spec fn value_outcome(r: Result<(MetadataValue, usize), usize>) -> Result<
    (ValueView, int),
    int,
> {
    match r {
        Ok((v, end)) => Ok((v@, end as int)),
        Err(at) => Err(at as int),
    }
}

/// What values that were read, or the position of their error, stand for.
pub open spec fn values_outcome(r: Result<(Vec<MetadataValue>, usize), usize>) -> Result<
    (Seq<ValueView>, int),
    int,
> {
    match r {
        Ok((items, end)) => Ok((values_view(items@), end as int)),
        Err(at) => Err(at as int),
    }
}

/// Reads a value at `i`; `depth` tells how many more arrays may open
/// inside.
pub fn parse_value(bytes: &[u8], i: usize, depth: usize) -> (r: Result<
    (MetadataValue, usize),
    usize,
>)
    requires
        i <= bytes@.len(),
    ensures
        value_outcome(r) == spec_value(bytes@, i as int, depth as nat),
        match r {
            Ok((_, end)) => i < end <= bytes@.len(),
            Err(at) => i <= at <= bytes@.len(),
        },
    decreases depth, 0nat,
{
    let n: usize = bytes.len();
    if i >= n {
        return Err(i);
    }
    let c: u8 = bytes[i];
    if c == 0x22 {
        match parse_string(bytes, i + 1) {
            Ok((text, end)) => Ok((MetadataValue::Str(text), end)),
            Err(at) => Err(at),
        }
    } else if c == 0x5B {
        let first: usize = skip_blank(bytes, i + 1);
        if depth == 0 {
            Err(i)
        } else if first < n && bytes[first] == 0x5D {
            let items: Vec<MetadataValue> = Vec::new();
            proof {
                lemma_array_view(items);
                assert(values_view(items@) =~= Seq::<ValueView>::empty());
            }
            Ok((MetadataValue::Array(items), first + 1))
        } else {
            match parse_items(bytes, first, depth - 1) {
                Ok((items, end)) => {
                    proof {
                        lemma_array_view(items);
                    }
                    Ok((MetadataValue::Array(items), end))
                },
                Err(at) => Err(at),
            }
        }
    } else if c == 0x2D || (0x30 <= c && c <= 0x39) {
        match parse_int(bytes, i) {
            Ok((value, end)) => Ok((MetadataValue::Int(value), end)),
            Err(at) => Err(at),
        }
    } else {
        Err(i)
    }
}

/// Reads the values of an array; `i` is the position of the first one.
pub fn parse_items(bytes: &[u8], i: usize, depth: usize) -> (r: Result<
    (Vec<MetadataValue>, usize),
    usize,
>)
    requires
        i <= bytes@.len(),
    ensures
        values_outcome(r) == spec_items(bytes@, i as int, depth as nat),
        match r {
            Ok((_, end)) => i < end <= bytes@.len(),
            Err(at) => i <= at <= bytes@.len(),
        },
    decreases depth, 1nat,
{
    let n: usize = bytes.len();
    let mut items: Vec<MetadataValue> = Vec::new();
    let mut k: usize = i;
    proof {
        assert(values_view(items@) =~= Seq::<ValueView>::empty());
        match spec_items(bytes@, i as int, depth as nat) {
            Ok((rest, end)) => {
                assert(Seq::<ValueView>::empty() + rest =~= rest);
            },
            Err(_) => {},
        }
    }
    loop
        invariant
            n == bytes@.len(),
            i <= k <= n,
            spec_items(bytes@, i as int, depth as nat) == prepend(
                values_view(items@),
                spec_items(bytes@, k as int, depth as nat),
            ),
        decreases n - k,
    {
        if k >= n {
            return Err(k);
        }
        match parse_value(bytes, k, depth) {
            Err(at) => {
                return Err(at);
            },
            Ok((value, end)) => {
                let next: usize = skip_blank(bytes, end);
                if next >= n {
                    return Err(next);
                }
                let c: u8 = bytes[next];
                if c == 0x5D {
                    proof {
                        assert(values_view(items@.push(value)) =~= values_view(items@) + seq![
                            value@,
                        ]);
                    }
                    items.push(value);
                    return Ok((items, next + 1));
                } else if c == 0x2C {
                    let follow: usize = skip_blank(bytes, next + 1);
                    proof {
                        lemma_prepend_push(
                            values_view(items@),
                            value@,
                            spec_items(bytes@, follow as int, depth as nat),
                        );
                        assert(values_view(items@.push(value)) =~= values_view(items@).push(
                            value@,
                        ));
                    }
                    items.push(value);
                    k = follow;
                } else {
                    return Err(next);
                }
            },
        }
    }
}

/// What an element that was read, or the position of its error, stands
/// for.
pub open spec fn element_outcome(r: Result<(MetadataElement, usize), usize>) -> Result<
    (ElementView, int),
    int,
> {
    match r {
        Ok((e, end)) => Ok((e@, end as int)),
        Err(at) => Err(at as int),
    }
}

/// What elements that were read, or the position of their error, stand
/// for.
pub open spec fn elements_outcome(r: Result<(Vec<MetadataElement>, usize), usize>) -> Result<
    (Seq<ElementView>, int),
    int,
> {
    match r {
        Ok((items, end)) => Ok((elements_view(items@), end as int)),
        Err(at) => Err(at as int),
    }
}

/// Reads an element at `i`; `depth` tells how many more sections may open
/// inside.
pub fn parse_element(bytes: &[u8], i: usize, depth: usize) -> (r: Result<
    (MetadataElement, usize),
    usize,
>)
    requires
        i <= bytes@.len(),
    ensures
        element_outcome(r) == spec_element(bytes@, i as int, depth as nat),
        match r {
            Ok((_, end)) => i < end <= bytes@.len(),
            Err(at) => i <= at <= bytes@.len(),
        },
    decreases depth, 0nat,
{
    let n: usize = bytes.len();
    if i >= n || !ident_start(bytes[i]) {
        return Err(i);
    }
    let name_end: usize = ident_end(bytes, i);
    proof {
        lemma_ident_end(bytes@, i as int);
        lemma_ident_end(bytes@, i + 1);
        assert(all_ascii(bytes@.subrange(i as int, name_end as int))) by {
            assert forall|k: int| 0 <= k < name_end - i implies bytes@.subrange(
                i as int,
                name_end as int,
            )[k] < 0x80 by {
                assert(is_ident_char(bytes@[i + k]));
            }
        }
    }
    let name: String = ascii_string(bytes, i, name_end);
    let mark: usize = skip_blank(bytes, name_end);
    if mark >= n {
        return Err(mark);
    }
    let c: u8 = bytes[mark];
    if c == 0x3D {
        let at: usize = skip_blank(bytes, mark + 1);
        match parse_value(bytes, at, MAX_NESTING) {
            Ok((value, end)) => Ok((MetadataElement::Scalar(name, value), end)),
            Err(e) => Err(e),
        }
    } else if c == 0x7B {
        if depth == 0 {
            Err(mark)
        } else {
            match parse_body(bytes, mark + 1, depth - 1) {
                Ok((children, end)) => {
                    proof {
                        lemma_section_view(name, children);
                    }
                    Ok((MetadataElement::Section(name, children), end))
                },
                Err(e) => Err(e),
            }
        }
    } else {
        Err(mark)
    }
}

/// Reads the elements of a section; `i` is a position behind its opening
/// brace.
pub fn parse_body(bytes: &[u8], i: usize, depth: usize) -> (r: Result<
    (Vec<MetadataElement>, usize),
    usize,
>)
    requires
        i <= bytes@.len(),
    ensures
        elements_outcome(r) == spec_body(bytes@, i as int, depth as nat),
        match r {
            Ok((_, end)) => i < end <= bytes@.len(),
            Err(at) => i <= at <= bytes@.len(),
        },
    decreases depth, 1nat,
{
    let n: usize = bytes.len();
    let mut children: Vec<MetadataElement> = Vec::new();
    let mut k: usize = i;
    proof {
        assert(elements_view(children@) =~= Seq::<ElementView>::empty());
        match spec_body(bytes@, i as int, depth as nat) {
            Ok((rest, end)) => {
                assert(Seq::<ElementView>::empty() + rest =~= rest);
            },
            Err(_) => {},
        }
    }
    loop
        invariant
            n == bytes@.len(),
            i <= k <= n,
            spec_body(bytes@, i as int, depth as nat) == prepend(
                elements_view(children@),
                spec_body(bytes@, k as int, depth as nat),
            ),
        decreases n - k,
    {
        let at: usize = skip_blank(bytes, k);
        if at >= n {
            return Err(at);
        }
        if bytes[at] == 0x7D {
            proof {
                assert(elements_view(children@) + Seq::<ElementView>::empty() =~= elements_view(
                    children@,
                ));
            }
            return Ok((children, at + 1));
        }
        match parse_element(bytes, at, depth) {
            Err(e) => {
                return Err(e);
            },
            Ok((element, end)) => {
                proof {
                    lemma_prepend_push(
                        elements_view(children@),
                        element@,
                        spec_body(bytes@, end as int, depth as nat),
                    );
                    assert(elements_view(children@.push(element)) =~= elements_view(
                        children@,
                    ).push(element@));
                }
                children.push(element);
                k = end;
            },
        }
    }
}

/// Reads a document from `i`: its elements and the position at which it
/// ends.
pub fn parse_document(bytes: &[u8], i: usize) -> (r: Result<(Vec<MetadataElement>, usize), usize>)
    requires
        i <= bytes@.len(),
    ensures
        elements_outcome(r) == spec_document(bytes@, i as int),
        match r {
            Ok((_, end)) => i <= end <= bytes@.len(),
            Err(at) => i <= at <= bytes@.len(),
        },
{
    let n: usize = bytes.len();
    let mut elements: Vec<MetadataElement> = Vec::new();
    let mut k: usize = i;
    proof {
        assert(elements_view(elements@) =~= Seq::<ElementView>::empty());
        match spec_document(bytes@, i as int) {
            Ok((rest, end)) => {
                assert(Seq::<ElementView>::empty() + rest =~= rest);
            },
            Err(_) => {},
        }
    }
    loop
        invariant
            n == bytes@.len(),
            i <= k <= n,
            spec_document(bytes@, i as int) == prepend(
                elements_view(elements@),
                spec_document(bytes@, k as int),
            ),
        decreases n - k,
    {
        let at: usize = skip_blank(bytes, k);
        if at >= n || !ident_start(bytes[at]) {
            proof {
                assert(elements_view(elements@) + Seq::<ElementView>::empty() =~= elements_view(
                    elements@,
                ));
            }
            return Ok((elements, at));
        }
        match parse_element(bytes, at, MAX_NESTING) {
            Err(e) => {
                return Err(e);
            },
            Ok((element, end)) => {
                proof {
                    lemma_prepend_push(
                        elements_view(elements@),
                        element@,
                        spec_document(bytes@, end as int),
                    );
                    assert(elements_view(elements@.push(element)) =~= elements_view(
                        elements@,
                    ).push(element@));
                }
                elements.push(element);
                k = end;
            },
        }
    }
}

/// A parse error of the metadata text at `at`.
pub open spec fn text_error(at: int) -> Error {
    Error::ParseError { context: ParseContext::MetadataText, at_byte: at as usize }
}

impl MetadataElements {
    /// What parsing a metadata document gives: what follows the document
    /// and the elements of the document, or a parse error at the position
    /// at which the grammar fails.
    pub open spec fn spec_parse(b: Seq<u8>) -> Result<(Seq<u8>, Seq<ElementView>), Error> {
        match spec_document(b, 0) {
            Ok((elements, end)) => Ok((b.subrange(end, b.len() as int), elements)),
            Err(at) => Err(text_error(at)),
        }
    }

    /// What a parsed document, or its error, stands for.
    pub open spec fn outcome(r: Result<(&[u8], MetadataElements), Error>) -> Result<
        (Seq<u8>, Seq<ElementView>),
        Error,
    > {
        match r {
            Ok((trailing, document)) => Ok((trailing@, document@)),
            Err(e) => Err(e),
        }
    }

    /// Parses a metadata document. Whatever bytes are given, the result is
    /// the element tree with the bytes that follow the document, or a parse
    /// error of the metadata text that lies within the bytes.
    pub fn parse(bytes: &[u8]) -> (r: Result<(&[u8], MetadataElements), Error>)
        ensures
            Self::outcome(r) == Self::spec_parse(bytes@),
            match r {
                Ok(_) => true,
                Err(e) => exists|at: usize|
                    at <= bytes@.len() && e == (Error::ParseError {
                        context: ParseContext::MetadataText,
                        at_byte: at,
                    }),
            },
    {
        match parse_document(bytes, 0) {
            Ok((elements, end)) => {
                let trailing = vstd::slice::slice_subrange(bytes, end, bytes.len());
                Ok((trailing, MetadataElements { elements }))
            },
            Err(at) => Err(Error::ParseError { context: ParseContext::MetadataText, at_byte: at }),
        }
    }
}

} // verus!
