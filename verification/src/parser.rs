//! The executable side: the cursor over the input, the value types,
//! the recursive-descent parser and the typed accessors.  Every parsing
//! function is proved to return exactly what the specification parser
//! in `model` returns for the same input and position.

use vstd::prelude::*;

use crate::model::is_digit;
use crate::model::is_space;
use crate::model::lower;
use crate::model::spec_verify_char;
use crate::model::spec_parse_text;
use crate::model::spec_parse_number;
use crate::model::spec_parse_bool;
use crate::model::spec_parse_value;
use crate::model::spec_parse_list;
use crate::model::spec_parse_items;
use crate::model::spec_parse_object;
use crate::model::spec_parse_fields;
use crate::model::spec_parse_field;
use crate::model::text_end;
use crate::model::lemma_text_end;
use crate::model::digits_end;
use crate::model::lemma_digits_end;
use crate::model::digits_value;
use crate::model::digit_val;
use crate::model::true_chars;
use crate::model::false_chars;
use crate::model::spec_lookup;
use crate::model::FieldModel;
use crate::model::LookupError;
use crate::model::ParseError;
use crate::model::ValueModel;

verus! {

/// One parsed value: a node of the tagged tree the parser builds.
#[derive(Debug)]
pub enum ObjectValue {
    Text(String),
    Number(u32),
    Bool(bool),
    List(Vec<ObjectValue>),
    Object(Box<Object>),
}

/// One key-value pair of an object, in textual order.
#[derive(Debug)]
pub struct ObjectField {
    pub key: String,
    pub value: ObjectValue,
}

/// An ordered sequence of fields, preserving declaration order; keys
/// need not be unique.
#[derive(Debug)]
pub struct Object {
    pub fields: Vec<ObjectField>,
}

/// The models of a sequence of parsed values, element by element.
pub open spec fn values_view(elems: Seq<ObjectValue>) -> Seq<ValueModel>
    decreases elems,
{
    Seq::new(
        elems.len(),
        |i: int|
            if 0 <= i < elems.len() {
                elems[i]@
            } else {
                arbitrary()
            },
    )
}

/// The models of a sequence of parsed fields, element by element.
pub open spec fn fields_view(fields: Seq<ObjectField>) -> Seq<FieldModel>
    decreases fields,
{
    Seq::new(
        fields.len(),
        |i: int|
            if 0 <= i < fields.len() {
                fields[i]@
            } else {
                arbitrary()
            },
    )
}

impl View for ObjectValue {
    type V = ValueModel;

    open spec fn view(&self) -> ValueModel
        decreases self,
    {
        match self {
            ObjectValue::Text(t) => ValueModel::Text(t@),
            ObjectValue::Number(n) => ValueModel::Number(*n),
            ObjectValue::Bool(b) => ValueModel::Bool(*b),
            ObjectValue::List(elems) => ValueModel::List(values_view(elems@)),
            ObjectValue::Object(obj) => ValueModel::Object(fields_view(obj.fields@)),
        }
    }
}

impl View for ObjectField {
    type V = FieldModel;

    open spec fn view(&self) -> FieldModel
        decreases self,
    {
        FieldModel { key: self.key@, value: self.value@ }
    }
}

impl View for Object {
    type V = Seq<FieldModel>;

    open spec fn view(&self) -> Seq<FieldModel>
        decreases self,
    {
        fields_view(self.fields@)
    }
}

/// A one-character-lookahead stream over the input characters.
pub struct Cursor {
    text: Vec<char>,
    pos: usize,
}

impl Cursor {
    /// The whole input this cursor walks over.
    pub closed spec fn input(&self) -> Seq<char> {
        self.text@
    }

    /// The position of the next character to be consumed.
    pub closed spec fn at(&self) -> int {
        self.pos as int
    }

    /// The position never passes the input's end.
    pub closed spec fn wf(&self) -> bool {
        self.pos <= self.text.len()
    }

    pub fn new(text: Vec<char>) -> (c: Cursor)
        ensures
            c.wf(),
            c.input() == text@,
            c.at() == 0,
    {
        Cursor { text, pos: 0 }
    }

    /// The next character, without consuming it.
    pub fn peek(&self) -> (r: Option<char>)
        requires
            self.wf(),
        ensures
            r == (if self.at() < self.input().len() {
                Some(self.input()[self.at()])
            } else {
                None::<char>
            }),
    {
        if self.pos < self.text.len() {
            Some(self.text[self.pos])
        } else {
            None
        }
    }

    /// The next character, consuming it, or `None` at the input's end.
    pub fn advance(&mut self) -> (r: Option<char>)
        requires
            old(self).wf(),
        ensures
            final(self).wf(),
            final(self).input() == old(self).input(),
            (if old(self).at() < old(self).input().len() {
                r == Some(old(self).input()[old(self).at()]) && final(self).at() == old(self).at()
                    + 1
            } else {
                r == None::<char> && final(self).at() == old(self).at()
            }),
    {
        if self.pos < self.text.len() {
            let c = self.text[self.pos];
            self.pos = self.pos + 1;
            Some(c)
        } else {
            None
        }
    }
}

/// ASCII case folding of one character.
fn fold_char(c: char) -> (r: char)
    ensures
        r == lower(c),
{
    match c {
        'A' => 'a',
        'B' => 'b',
        'C' => 'c',
        'D' => 'd',
        'E' => 'e',
        'F' => 'f',
        'G' => 'g',
        'H' => 'h',
        'I' => 'i',
        'J' => 'j',
        'K' => 'k',
        'L' => 'l',
        'M' => 'm',
        'N' => 'n',
        'O' => 'o',
        'P' => 'p',
        'Q' => 'q',
        'R' => 'r',
        'S' => 's',
        'T' => 't',
        'U' => 'u',
        'V' => 'v',
        'W' => 'w',
        'X' => 'x',
        'Y' => 'y',
        'Z' => 'z',
        _ => c,
    }
}

/// Whether `c` is a Unicode whitespace character.
fn is_space_char(c: char) -> (r: bool)
    ensures
        r == is_space(c),
{
    c == ' ' || c == '\t' || c == '\n' || c == '\u{000B}' || c == '\u{000C}' || c == '\r'
        || c == '\u{0085}' || c == '\u{00A0}' || c == '\u{1680}' || c == '\u{2000}'
        || c == '\u{2001}' || c == '\u{2002}' || c == '\u{2003}' || c == '\u{2004}'
        || c == '\u{2005}' || c == '\u{2006}' || c == '\u{2007}' || c == '\u{2008}'
        || c == '\u{2009}' || c == '\u{200A}' || c == '\u{2028}' || c == '\u{2029}'
        || c == '\u{202F}' || c == '\u{205F}' || c == '\u{3000}'
}

/// Whether `c` is an ASCII decimal digit.
fn is_digit_char(c: char) -> (r: bool)
    ensures
        r == is_digit(c),
{
    c >= '0' && c <= '9'
}

/// The numeric value of one ASCII decimal digit.
fn digit_of(c: char) -> (d: u32)
    requires
        is_digit(c),
    ensures
        d == digit_val(c),
{
    match c {
        '0' => 0,
        '1' => 1,
        '2' => 2,
        '3' => 3,
        '4' => 4,
        '5' => 5,
        '6' => 6,
        '7' => 7,
        '8' => 8,
        '9' => 9,
        _ => 0,
    }
}

/// Relies on `String::push`: appends the given character to the end of
/// the string.
pub assume_specification[ String::push ](s: &mut String, c: char)
    ensures
        final(s)@ == old(s)@.push(c),
;

/// Consume and check one expected delimiter character, tolerating at
/// most one leading whitespace character.
fn verify_char(text: &mut Cursor, expected: char) -> (r: Result<(), ParseError>)
    requires
        old(text).wf(),
    ensures
        final(text).wf(),
        final(text).input() == old(text).input(),
        (match r {
            Ok(()) => spec_verify_char(old(text).input(), old(text).at(), expected) == Ok::<
                int,
                ParseError,
            >(final(text).at()) && final(text).at() > old(text).at(),
            Err(e) => spec_verify_char(old(text).input(), old(text).at(), expected) == Err::<
                int,
                ParseError,
            >(e),
        }),
{
    let first = text.advance();
    let this = match first {
        Some(c) => if is_space_char(c) {
            text.advance()
        } else {
            Some(c)
        },
        None => None,
    };
    match this {
        Some(c) => if c == expected {
            Ok(())
        } else {
            Err(ParseError::UnexpectedToken { expected: Some(expected), actual: Some(c) })
        },
        None => Err(ParseError::UnexpectedToken { expected: Some(expected), actual: None }),
    }
}

/// Parse a quoted text: the opening `"` (one whitespace character
/// tolerated before it), then every character up to the next `"`, which
/// is consumed but not kept.  Input that ends before a closing `"`
/// yields the remaining characters.
pub fn parse_text(text: &mut Cursor) -> (r: Result<String, ParseError>)
    requires
        old(text).wf(),
    ensures
        final(text).wf(),
        final(text).input() == old(text).input(),
        (match r {
            Ok(t) => spec_parse_text(old(text).input(), old(text).at()) == Ok::<
                (Seq<char>, int),
                ParseError,
            >((t@, final(text).at())) && final(text).at() > old(text).at(),
            Err(e) => spec_parse_text(old(text).input(), old(text).at()) == Err::<
                (Seq<char>, int),
                ParseError,
            >(e),
        }),
{
    match verify_char(text, '"') {
        Err(e) => {
            return Err(e);
        },
        Ok(()) => {},
    }
    let ghost s = text.input();
    let ghost p = text.at();
    let ghost e = text_end(s, p);
    proof {
        lemma_text_end(s, p);
    }
    let mut out = String::new();
    loop
        invariant_except_break
            p <= text.at() <= e,
            out@ == s.subrange(p, text.at()),
        invariant
            text.wf(),
            text.input() == s,
            e == text_end(s, p),
            0 <= p <= e <= s.len(),
            forall|i: int| p <= i < e ==> s[i] != '"',
            e < s.len() ==> s[e] == '"',
        ensures
            text.wf(),
            text.input() == s,
            out@ == s.subrange(p, e),
            text.at() == (if e < s.len() {
                e + 1
            } else {
                e
            }),
        decreases s.len() - text.at(),
    {
        match text.advance() {
            None => {
                break ;
            },
            Some(c) => {
                if c == '"' {
                    break ;
                } else {
                    out.push(c);
                    proof {
                        assert(out@ =~= s.subrange(p, text.at()));
                    }
                }
            },
        }
    }
    Ok(out)
}

impl ObjectValue {
    /// Parse the maximal run of ASCII digits as an unsigned 32-bit
    /// number; no digits at all or a value past `u32::MAX` is an
    /// `InvalidNumber` failure, never a silent truncation.
    fn parse_number(text: &mut Cursor) -> (r: Result<ObjectValue, ParseError>)
        requires
            old(text).wf(),
        ensures
            final(text).wf(),
            final(text).input() == old(text).input(),
            (match r {
                Ok(v) => spec_parse_number(old(text).input(), old(text).at()) == Ok::<
                    (ValueModel, int),
                    ParseError,
                >((v@, final(text).at())) && final(text).at() > old(text).at(),
                Err(e) => spec_parse_number(old(text).input(), old(text).at()) == Err::<
                    (ValueModel, int),
                    ParseError,
                >(e),
            }),
    {
        let ghost s = text.input();
        let ghost p0 = text.at();
        let ghost e = digits_end(s, p0);
        proof {
            lemma_digits_end(s, p0);
        }
        // The running value saturates at 2^32; saturation is exactly the
        // overflow the grammar rejects, while every digit is still consumed.
        let mut val: u64 = 0;
        let mut any = false;
        loop
            invariant
                text.wf(),
                text.input() == s,
                e == digits_end(s, p0),
                0 <= p0 <= text.at() <= e <= s.len(),
                forall|i: int| p0 <= i < e ==> is_digit(s[i]),
                e < s.len() ==> !is_digit(s[e]),
                any == (text.at() > p0),
                val <= 4294967296u64,
                digits_value(s.subrange(p0, text.at())) <= 4294967296 ==> val == digits_value(
                    s.subrange(p0, text.at()),
                ),
                digits_value(s.subrange(p0, text.at())) > 4294967296 ==> val == 4294967296u64,
            ensures
                text.wf(),
                text.input() == s,
                text.at() == e,
                any == (e > p0),
                val <= 4294967296u64,
                digits_value(s.subrange(p0, e)) <= 4294967296 ==> val == digits_value(
                    s.subrange(p0, e),
                ),
                digits_value(s.subrange(p0, e)) > 4294967296 ==> val == 4294967296u64,
            decreases s.len() - text.at(),
        {
            match text.peek() {
                None => {
                    break ;
                },
                Some(c) => {
                    if is_digit_char(c) {
                        let ghost a = text.at();
                        let _ = text.advance();
                        let d = digit_of(c);
                        proof {
                            assert(s.subrange(p0, a + 1).drop_last() =~= s.subrange(p0, a));
                            assert(s.subrange(p0, a + 1).last() == c);
                        }
                        let mut nv = val * 10 + d as u64;
                        if nv > 4294967296u64 {
                            nv = 4294967296u64;
                        }
                        val = nv;
                        any = true;
                    } else {
                        break ;
                    }
                },
            }
        }
        if !any {
            proof {
                assert(s.subrange(p0, e).len() == 0);
            }
            return Err(ParseError::InvalidNumber);
        }
        if val > 4294967295u64 {
            return Err(ParseError::InvalidNumber);
        }
        Ok(ObjectValue::Number(val as u32))
    }

    /// Parse a boolean keyword: the first character picks the expected
    /// length (4 for `true`, 5 for `false`); the consumed characters are
    /// case-folded and must spell the keyword exactly.
    fn parse_bool(text: &mut Cursor) -> (r: Result<ObjectValue, ParseError>)
        requires
            old(text).wf(),
            old(text).at() < old(text).input().len(),
            lower(old(text).input()[old(text).at()]) == 't' || lower(
                old(text).input()[old(text).at()],
            ) == 'f',
        ensures
            final(text).wf(),
            final(text).input() == old(text).input(),
            (match r {
                Ok(v) => spec_parse_bool(old(text).input(), old(text).at()) == Ok::<
                    (ValueModel, int),
                    ParseError,
                >((v@, final(text).at())) && final(text).at() > old(text).at(),
                Err(e) => spec_parse_bool(old(text).input(), old(text).at()) == Err::<
                    (ValueModel, int),
                    ParseError,
                >(e),
            }),
    {
        let ghost s = text.input();
        let ghost p0 = text.at();
        let c0 = match text.advance() {
            Some(c) => c,
            None => {
                return Err(ParseError::EmptyInput);
            },
        };
        let f0 = fold_char(c0);
        let klen: usize = if f0 == 't' {
            3
        } else {
            4
        };
        let mut buf: Vec<char> = Vec::new();
        while buf.len() < klen
            invariant
                text.wf(),
                text.input() == s,
                0 <= p0,
                text.at() == p0 + 1 + buf.len(),
                buf.len() <= klen,
                buf@ == s.subrange(p0 + 1, p0 + 1 + buf.len() as int),
            ensures
                text.wf(),
                text.input() == s,
                text.at() == (if p0 + 1 + klen <= s.len() {
                    p0 + 1 + klen
                } else {
                    s.len() as int
                }),
                buf@ == s.subrange(p0 + 1, text.at()),
                buf.len() == text.at() - p0 - 1,
            decreases klen - buf.len(),
        {
            match text.advance() {
                None => {
                    break ;
                },
                Some(c) => {
                    let ghost a = text.at();
                    buf.push(c);
                    proof {
                        assert(buf@ =~= s.subrange(p0 + 1, a));
                    }
                },
            }
        }
        let ghost end = text.at();
        let ghost w = Seq::new((end - p0) as nat, |i: int| lower(s[p0 + i]));
        proof {
            assert(c0 == s[p0]);
            assert(w[0] == f0);
            assert(forall|j: int|
                0 <= j < buf@.len() ==> w[j + 1] == lower(#[trigger] buf@[j]));
        }
        let matched = if klen == 3 {
            buf.len() == 3 && fold_char(buf[0]) == 'r' && fold_char(buf[1]) == 'u' && fold_char(
                buf[2],
            ) == 'e'
        } else {
            buf.len() == 4 && fold_char(buf[0]) == 'a' && fold_char(buf[1]) == 'l' && fold_char(
                buf[2],
            ) == 's' && fold_char(buf[3]) == 'e'
        };
        if matched {
            if klen == 3 {
                proof {
                    assert(w =~= true_chars());
                }
                Ok(ObjectValue::Bool(true))
            } else {
                proof {
                    assert(w =~= false_chars());
                }
                Ok(ObjectValue::Bool(false))
            }
        } else {
            proof {
                let tc = true_chars();
                let fc = false_chars();
                assert(tc.len() == 4 && fc.len() == 5);
                assert(tc[0] == 't' && tc[1] == 'r' && tc[2] == 'u' && tc[3] == 'e');
                assert(fc[0] == 'f' && fc[1] == 'a' && fc[2] == 'l' && fc[3] == 's' && fc[4]
                    == 'e');
                assert(w.len() == 1 + buf@.len());
                if f0 == 't' {
                    if w == tc {
                        assert(buf@.len() == 3);
                        assert(lower(buf@[0]) == w[1]);
                        assert(lower(buf@[1]) == w[2]);
                        assert(lower(buf@[2]) == w[3]);
                        assert(false);
                    }
                    if w == fc {
                        assert(w[0] == fc[0]);
                        assert(false);
                    }
                } else {
                    if w == tc {
                        assert(w[0] == tc[0]);
                        assert(false);
                    }
                    if w == fc {
                        assert(buf@.len() == 4);
                        assert(lower(buf@[0]) == w[1]);
                        assert(lower(buf@[1]) == w[2]);
                        assert(lower(buf@[2]) == w[3]);
                        assert(lower(buf@[3]) == w[4]);
                        assert(false);
                    }
                }
            }
            Err(ParseError::InvalidBoolean)
        }
    }

    /// Parse one value: case-fold the lookahead character alone and
    /// dispatch on it; `"` opens text, `[` a list, `{` an object, `t`
    /// or `f` a boolean, a digit a number, and anything else fails.
    pub fn parse(text: &mut Cursor) -> (r: Result<ObjectValue, ParseError>)
        requires
            old(text).wf(),
        ensures
            final(text).wf(),
            final(text).input() == old(text).input(),
            (match r {
                Ok(v) => spec_parse_value(old(text).input(), old(text).at()) == Ok::<
                    (ValueModel, int),
                    ParseError,
                >((v@, final(text).at())) && final(text).at() > old(text).at(),
                Err(e) => spec_parse_value(old(text).input(), old(text).at()) == Err::<
                    (ValueModel, int),
                    ParseError,
                >(e),
            }),
        decreases text.input().len() - text.at(), 3int,
    {
        match text.peek() {
            None => Err(ParseError::EmptyInput),
            Some(c) => {
                let f = fold_char(c);
                if f == '"' {
                    Self::parse_text(text)
                } else if f == '[' {
                    Self::parse_list(text)
                } else if f == '{' {
                    Self::parse_object(text)
                } else if f == 'f' || f == 't' {
                    Self::parse_bool(text)
                } else if is_digit_char(f) {
                    Self::parse_number(text)
                } else {
                    Err(ParseError::UnexpectedToken { expected: None, actual: Some(c) })
                }
            },
        }
    }

    /// Parse a quoted text and tag it as a value.
    fn parse_text(text: &mut Cursor) -> (r: Result<ObjectValue, ParseError>)
        requires
            old(text).wf(),
        ensures
            final(text).wf(),
            final(text).input() == old(text).input(),
            (match r {
                Ok(v) => (v@ matches ValueModel::Text(t) && spec_parse_text(
                    old(text).input(),
                    old(text).at(),
                ) == Ok::<(Seq<char>, int), ParseError>((t, final(text).at())))
                    && final(text).at() > old(text).at(),
                Err(e) => spec_parse_text(old(text).input(), old(text).at()) == Err::<
                    (Seq<char>, int),
                    ParseError,
                >(e),
            }),
    {
        match parse_text(text) {
            Ok(t) => Ok(ObjectValue::Text(t)),
            Err(e) => Err(e),
        }
    }

    /// Parse `[`, the comma-separated elements, `]`.
    fn parse_list(text: &mut Cursor) -> (r: Result<ObjectValue, ParseError>)
        requires
            old(text).wf(),
        ensures
            final(text).wf(),
            final(text).input() == old(text).input(),
            (match r {
                Ok(v) => spec_parse_list(old(text).input(), old(text).at()) == Ok::<
                    (ValueModel, int),
                    ParseError,
                >((v@, final(text).at())) && final(text).at() > old(text).at(),
                Err(e) => spec_parse_list(old(text).input(), old(text).at()) == Err::<
                    (ValueModel, int),
                    ParseError,
                >(e),
            }),
        decreases text.input().len() - text.at(), 2int,
    {
        let ghost s = text.input();
        let ghost a0 = text.at();
        match verify_char(text, '[') {
            Err(e) => {
                return Err(e);
            },
            Ok(()) => {},
        }
        let ghost p = text.at();
        let mut values: Vec<ObjectValue> = Vec::new();
        loop
            invariant
                text.wf(),
                text.input() == s,
                s == old(text).input(),
                a0 == old(text).at(),
                0 <= a0 < p <= text.at() <= s.len(),
                spec_verify_char(s, a0, '[') == Ok::<int, ParseError>(p),
                (match spec_parse_items(s, text.at(), values@.len() == 0) {
                    Ok((rest, q)) => spec_parse_items(s, p, true) == Ok::<
                        (Seq<ValueModel>, int),
                        ParseError,
                    >((values_view(values@) + rest, q)),
                    Err(e) => spec_parse_items(s, p, true) == Err::<
                        (Seq<ValueModel>, int),
                        ParseError,
                    >(e),
                }),
            ensures
                text.wf(),
                text.input() == s,
                0 <= a0 < p <= text.at() <= s.len(),
                spec_verify_char(s, a0, '[') == Ok::<int, ParseError>(p),
                spec_parse_items(s, p, true) == Ok::<(Seq<ValueModel>, int), ParseError>(
                    (values_view(values@), text.at()),
                ),
            decreases s.len() - text.at(),
        {
            let c = match text.peek() {
                None => {
                    proof {
                        assert(values_view(values@) + Seq::<ValueModel>::empty() =~= values_view(
                            values@,
                        ));
                    }
                    break ;
                },
                Some(c) => c,
            };
            if c == ']' {
                proof {
                    assert(values_view(values@) + Seq::<ValueModel>::empty() =~= values_view(
                        values@,
                    ));
                }
                break ;
            }
            let ghost lvals = values@;
            if values.len() > 0 {
                match verify_char(text, ',') {
                    Err(e) => {
                        return Err(e);
                    },
                    Ok(()) => {},
                }
            }
            match Self::parse(text) {
                Err(e) => {
                    return Err(e);
                },
                Ok(v) => {
                    let ghost vm = v@;
                    let ghost q = text.at();
                    values.push(v);
                    proof {
                        assert(values@ =~= lvals.push(v));
                        assert(values_view(values@) =~= values_view(lvals) + seq![vm]);
                        match spec_parse_items(s, q, false) {
                            Ok((rest, rr)) => {
                                assert(values_view(lvals) + (seq![vm] + rest) =~= values_view(
                                    values@,
                                ) + rest);
                            },
                            Err(_) => {},
                        }
                    }
                },
            }
        }
        match verify_char(text, ']') {
            Err(e) => {
                return Err(e);
            },
            Ok(()) => {},
        }
        Ok(ObjectValue::List(values))
    }

    /// Parse `{`, the comma-separated fields, `}`, and tag the object
    /// as a value.
    fn parse_object(text: &mut Cursor) -> (r: Result<ObjectValue, ParseError>)
        requires
            old(text).wf(),
        ensures
            final(text).wf(),
            final(text).input() == old(text).input(),
            (match r {
                Ok(v) => (v@ matches ValueModel::Object(fs) && spec_parse_object(
                    old(text).input(),
                    old(text).at(),
                ) == Ok::<(Seq<FieldModel>, int), ParseError>((fs, final(text).at())))
                    && final(text).at() > old(text).at(),
                Err(e) => spec_parse_object(old(text).input(), old(text).at()) == Err::<
                    (Seq<FieldModel>, int),
                    ParseError,
                >(e),
            }),
        decreases text.input().len() - text.at(), 2int,
    {
        match Object::parse(text) {
            Ok(o) => Ok(ObjectValue::Object(Box::new(o))),
            Err(e) => Err(e),
        }
    }
}

impl ObjectField {
    /// Parse one field: a text key, a `:` delimiter, then the value.
    pub fn parse(text: &mut Cursor) -> (r: Result<ObjectField, ParseError>)
        requires
            old(text).wf(),
        ensures
            final(text).wf(),
            final(text).input() == old(text).input(),
            (match r {
                Ok(fld) => spec_parse_field(old(text).input(), old(text).at()) == Ok::<
                    (FieldModel, int),
                    ParseError,
                >((fld@, final(text).at())) && final(text).at() > old(text).at(),
                Err(e) => spec_parse_field(old(text).input(), old(text).at()) == Err::<
                    (FieldModel, int),
                    ParseError,
                >(e),
            }),
        decreases text.input().len() - text.at(), 0int,
    {
        let key = match parse_text(text) {
            Ok(k) => k,
            Err(e) => {
                return Err(e);
            },
        };
        match verify_char(text, ':') {
            Err(e) => {
                return Err(e);
            },
            Ok(()) => {},
        }
        let value = match ObjectValue::parse(text) {
            Ok(v) => v,
            Err(e) => {
                return Err(e);
            },
        };
        Ok(ObjectField { key, value })
    }
}

impl Object {
    /// Parse `{`, the comma-separated fields, `}`.
    pub fn parse(text: &mut Cursor) -> (r: Result<Object, ParseError>)
        requires
            old(text).wf(),
        ensures
            final(text).wf(),
            final(text).input() == old(text).input(),
            (match r {
                Ok(o) => spec_parse_object(old(text).input(), old(text).at()) == Ok::<
                    (Seq<FieldModel>, int),
                    ParseError,
                >((o@, final(text).at())) && final(text).at() > old(text).at(),
                Err(e) => spec_parse_object(old(text).input(), old(text).at()) == Err::<
                    (Seq<FieldModel>, int),
                    ParseError,
                >(e),
            }),
        decreases text.input().len() - text.at(), 1int,
    {
        let ghost s = text.input();
        let ghost a0 = text.at();
        match verify_char(text, '{') {
            Err(e) => {
                return Err(e);
            },
            Ok(()) => {},
        }
        let ghost p = text.at();
        let mut fields: Vec<ObjectField> = Vec::new();
        loop
            invariant
                text.wf(),
                text.input() == s,
                s == old(text).input(),
                a0 == old(text).at(),
                0 <= a0 < p <= text.at() <= s.len(),
                spec_verify_char(s, a0, '{') == Ok::<int, ParseError>(p),
                (match spec_parse_fields(s, text.at(), fields@.len() == 0) {
                    Ok((rest, q)) => spec_parse_fields(s, p, true) == Ok::<
                        (Seq<FieldModel>, int),
                        ParseError,
                    >((fields_view(fields@) + rest, q)),
                    Err(e) => spec_parse_fields(s, p, true) == Err::<
                        (Seq<FieldModel>, int),
                        ParseError,
                    >(e),
                }),
            ensures
                text.wf(),
                text.input() == s,
                0 <= a0 < p <= text.at() <= s.len(),
                spec_verify_char(s, a0, '{') == Ok::<int, ParseError>(p),
                spec_parse_fields(s, p, true) == Ok::<(Seq<FieldModel>, int), ParseError>(
                    (fields_view(fields@), text.at()),
                ),
            decreases s.len() - text.at(),
        {
            let c = match text.peek() {
                None => {
                    proof {
                        assert(fields_view(fields@) + Seq::<FieldModel>::empty() =~= fields_view(
                            fields@,
                        ));
                    }
                    break ;
                },
                Some(c) => c,
            };
            if c == '}' {
                proof {
                    assert(fields_view(fields@) + Seq::<FieldModel>::empty() =~= fields_view(
                        fields@,
                    ));
                }
                break ;
            }
            let ghost lflds = fields@;
            if fields.len() > 0 {
                match verify_char(text, ',') {
                    Err(e) => {
                        return Err(e);
                    },
                    Ok(()) => {},
                }
            }
            match ObjectField::parse(text) {
                Err(e) => {
                    return Err(e);
                },
                Ok(fld) => {
                    let ghost fm = fld@;
                    let ghost q = text.at();
                    fields.push(fld);
                    proof {
                        assert(fields@ =~= lflds.push(fld));
                        assert(fields_view(fields@) =~= fields_view(lflds) + seq![fm]);
                        match spec_parse_fields(s, q, false) {
                            Ok((rest, rr)) => {
                                assert(fields_view(lflds) + (seq![fm] + rest) =~= fields_view(
                                    fields@,
                                ) + rest);
                            },
                            Err(_) => {},
                        }
                    }
                },
            }
        }
        match verify_char(text, '}') {
            Err(e) => {
                return Err(e);
            },
            Ok(()) => {},
        }
        Ok(Object { fields })
    }
}

/// Character-wise equality of two strings.
fn str_eq(a: &str, b: &str) -> (r: bool)
    ensures
        r == (a@ == b@),
{
    let la = a.unicode_len();
    let lb = b.unicode_len();
    if la != lb {
        return false;
    }
    let mut i: usize = 0;
    while i < la
        invariant
            0 <= i <= la,
            la == a@.len(),
            la == b@.len(),
            forall|j: int| 0 <= j < i ==> a@[j] == b@[j],
        decreases la - i,
    {
        let ca = a.get_char(i);
        let cb = b.get_char(i);
        if ca != cb {
            return false;
        }
        i = i + 1;
    }
    proof {
        assert(a@ =~= b@);
    }
    true
}

impl ObjectValue {
    /// The contained text when this value is a `Text`, `None` otherwise.
    pub fn get_text(&self) -> (r: Option<&str>)
        ensures
            (self@ matches ValueModel::Text(t) ==> r matches Some(x) && x@ == t),
            !(self@ is Text) ==> r is None,
    {
        match self {
            ObjectValue::Text(x) => Some(x.as_str()),
            _ => None,
        }
    }

    /// The contained number when this value is a `Number`, `None` otherwise.
    pub fn get_number(&self) -> (r: Option<u32>)
        ensures
            r == (match self@ {
                ValueModel::Number(n) => Some(n),
                _ => None::<u32>,
            }),
    {
        match self {
            ObjectValue::Number(x) => Some(*x),
            _ => None,
        }
    }

    /// The contained boolean when this value is a `Bool`, `None` otherwise.
    pub fn get_bool(&self) -> (r: Option<bool>)
        ensures
            r == (match self@ {
                ValueModel::Bool(b) => Some(b),
                _ => None::<bool>,
            }),
    {
        match self {
            ObjectValue::Bool(x) => Some(*x),
            _ => None,
        }
    }

    /// The contained elements when this value is a `List`, `None` otherwise.
    pub fn get_list(&self) -> (r: Option<&[ObjectValue]>)
        ensures
            (self@ matches ValueModel::List(items) ==> r matches Some(v) && values_view(v@)
                == items),
            !(self@ is List) ==> r is None,
    {
        match self {
            ObjectValue::List(x) => Some(x.as_slice()),
            _ => None,
        }
    }

    /// The contained object when this value is an `Object`, `None` otherwise.
    pub fn get_object(&self) -> (r: Option<&Object>)
        ensures
            (self@ matches ValueModel::Object(fs) ==> r matches Some(o) && o@ == fs),
            !(self@ is Object) ==> r is None,
    {
        match self {
            ObjectValue::Object(x) => Some(x),
            _ => None,
        }
    }

    /// The element at position `id` of a `List`: `IndexOutOfRange` past
    /// the end, `TypeMismatch` on any other variant.
    pub fn get_by_index(&self, id: usize) -> (r: Result<&ObjectValue, LookupError>)
        ensures
            (match self@ {
                ValueModel::List(items) => {
                    if id < items.len() {
                        r matches Ok(v) && v@ == items[id as int]
                    } else {
                        r == Err::<&ObjectValue, LookupError>(LookupError::IndexOutOfRange)
                    }
                },
                _ => r == Err::<&ObjectValue, LookupError>(LookupError::TypeMismatch),
            }),
    {
        match self {
            ObjectValue::List(list) => {
                proof {
                    assert(values_view(list@).len() == list@.len());
                }
                if id < list.len() {
                    proof {
                        assert(values_view(list@)[id as int] == list@[id as int]@);
                    }
                    Ok(&list[id])
                } else {
                    Err(LookupError::IndexOutOfRange)
                }
            },
            _ => Err(LookupError::TypeMismatch),
        }
    }
}

impl ObjectField {
    /// The field's key.
    pub fn key(&self) -> (k: &str)
        ensures
            k@ == self@.key,
    {
        self.key.as_str()
    }

    /// The field's value.
    pub fn value(&self) -> (v: &ObjectValue)
        ensures
            v@ == self@.value,
    {
        &self.value
    }
}

impl Object {
    /// The fields, in declaration order.
    pub fn fields(&self) -> (r: &[ObjectField])
        ensures
            fields_view(r@) == self@,
    {
        self.fields.as_slice()
    }

    /// The value of the first field whose key equals `key`, or
    /// `KeyNotFound` when no field matches.
    pub fn get_by_key(&self, key: &str) -> (r: Result<&ObjectValue, LookupError>)
        ensures
            (match spec_lookup(self@, key@) {
                Some(m) => r matches Ok(v) && v@ == m,
                None => r matches Err(e) && (e matches LookupError::KeyNotFound { key: k } && k@
                    == key@),
            }),
    {
        let ghost fs = self@;
        proof {
            assert(fs.skip(0) =~= fs);
        }
        let mut i: usize = 0;
        while i < self.fields.len()
            invariant
                0 <= i <= self.fields.len(),
                fs == self@,
                fs.len() == self.fields.len(),
                spec_lookup(fs, key@) == spec_lookup(fs.skip(i as int), key@),
            decreases self.fields.len() - i,
        {
            if str_eq(self.fields[i].key.as_str(), key) {
                proof {
                    assert(fs.skip(i as int)[0] == fs[i as int]);
                }
                return Ok(&self.fields[i].value);
            }
            proof {
                assert(fs.skip(i as int)[0] == fs[i as int]);
                assert(fs.skip(i as int).drop_first() =~= fs.skip(i as int + 1));
            }
            i = i + 1;
        }
        proof {
            assert(fs.skip(i as int).len() == 0);
        }
        Err(LookupError::KeyNotFound { key: key.to_owned() })
    }
}

/// The parser: owns the cursor over one input and produces one root
/// value from it.
pub struct Parser {
    text: Cursor,
}

impl Parser {
    /// The input handed to `new`.
    pub closed spec fn input(&self) -> Seq<char> {
        self.text.input()
    }

    /// A fresh parser stands at the input's start.
    pub closed spec fn wf(&self) -> bool {
        self.text.wf() && self.text.at() == 0
    }

    pub fn new(text: &str) -> (p: Parser)
        ensures
            p.wf(),
            p.input() == text@,
    {
        let n = text.unicode_len();
        let mut buf: Vec<char> = Vec::new();
        let mut i: usize = 0;
        while i < n
            invariant
                0 <= i <= n,
                n == text@.len(),
                buf@ == text@.subrange(0, i as int),
            decreases n - i,
        {
            buf.push(text.get_char(i));
            i = i + 1;
            proof {
                assert(buf@ =~= text@.subrange(0, i as int));
            }
        }
        proof {
            assert(buf@ =~= text@);
        }
        Parser { text: Cursor::new(buf) }
    }

    /// Parse one root value from the whole input.
    pub fn parse(self) -> (r: Result<ObjectValue, ParseError>)
        requires
            self.wf(),
        ensures
            (match r {
                Ok(v) => spec_parse_value(self.input(), 0) matches Ok(p) && p.0 == v@,
                Err(e) => spec_parse_value(self.input(), 0) == Err::<(ValueModel, int), ParseError>(
                    e,
                ),
            }),
    {
        let mut text = self.text;
        ObjectValue::parse(&mut text)
    }
}

} // verus!
