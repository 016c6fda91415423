//! The mathematical model of the format: the ghost value tree, the
//! error taxonomy, and a specification-level parser over `Seq<char>`
//! that the executable parser is proved to agree with.

use vstd::prelude::*;

verus! {

/// One parse-time failure.  Every malformed input aborts the whole
/// parse with exactly one of these.
#[derive(Debug, Clone, Copy, PartialEq, Eq)]
pub enum ParseError {
    /// A character other than the one the grammar calls for stood at the
    /// dispatch or delimiter position.  `expected` is `None` when the
    /// failure came from value dispatch, where no single character was
    /// awaited; `actual` is `None` when the input was exhausted.
    UnexpectedToken { expected: Option<char>, actual: Option<char> },
    /// A value was requested but no character was left.
    EmptyInput,
    /// A number had no digits or exceeded the unsigned 32-bit range.
    InvalidNumber,
    /// A keyword starting in `t` or `f` was not `true` or `false`.
    InvalidBoolean,
}

/// One failure of the fallible lookup operations on a parsed tree.
#[derive(Debug, Clone, PartialEq, Eq)]
pub enum LookupError {
    /// No field of the object carries the requested key.
    KeyNotFound { key: String },
    /// The list has no element at the requested position.
    IndexOutOfRange,
    /// Indexing was requested on a value that is not a list.
    TypeMismatch,
}

/// A parsed value tree, as the contracts speak of it.
pub enum ValueModel {
    Text(Seq<char>),
    Number(u32),
    Bool(bool),
    List(Seq<ValueModel>),
    Object(Seq<FieldModel>),
}

/// One key-value pair of an object, as the contracts speak of it.
pub struct FieldModel {
    pub key: Seq<char>,
    pub value: ValueModel,
}

/// The characters of Unicode's `White_Space` category; the single
/// character of tolerance before a delimiter must be one of these.
pub open spec fn is_space(c: char) -> bool {
    c == ' ' || c == '\t' || c == '\n' || c == '\u{000B}' || c == '\u{000C}' || c == '\r'
        || c == '\u{0085}' || c == '\u{00A0}' || c == '\u{1680}' || c == '\u{2000}'
        || c == '\u{2001}' || c == '\u{2002}' || c == '\u{2003}' || c == '\u{2004}'
        || c == '\u{2005}' || c == '\u{2006}' || c == '\u{2007}' || c == '\u{2008}'
        || c == '\u{2009}' || c == '\u{200A}' || c == '\u{2028}' || c == '\u{2029}'
        || c == '\u{202F}' || c == '\u{205F}' || c == '\u{3000}'
}

/// ASCII case folding.  The grammar's keywords hold ASCII letters only,
/// so folding the uppercase letters is all the case-insensitivity the
/// dispatch and keyword rules need.
pub open spec fn lower(c: char) -> char {
    match c {
        'A' => 'a',
        'B' => 'b',
        'C' => 'c',
        'D' => 'd',
        'E' => 'e',
        'F' => 'f',
        'G' => 'g',
        'H' => 'h',
        'I' => 'i',
        'J' => 'j',
        'K' => 'k',
        'L' => 'l',
        'M' => 'm',
        'N' => 'n',
        'O' => 'o',
        'P' => 'p',
        'Q' => 'q',
        'R' => 'r',
        'S' => 's',
        'T' => 't',
        'U' => 'u',
        'V' => 'v',
        'W' => 'w',
        'X' => 'x',
        'Y' => 'y',
        'Z' => 'z',
        _ => c,
    }
}

/// An ASCII decimal digit.
pub open spec fn is_digit(c: char) -> bool {
    '0' <= c && c <= '9'
}

/// The numeric value of an ASCII decimal digit.
pub open spec fn digit_val(c: char) -> nat
    recommends
        is_digit(c),
{
    (c as int - '0' as int) as nat
}

/// The number that a digit string denotes, most significant digit first.
pub open spec fn digits_value(ds: Seq<char>) -> nat
    decreases ds.len(),
{
    if ds.len() == 0 {
        0
    } else {
        digits_value(ds.drop_last()) * 10 + digit_val(ds.last())
    }
}

/// The position of the first `"` at or after `pos`, or the input's
/// length when none follows.  Text parsing consumes up to here.
pub open spec fn text_end(s: Seq<char>, pos: int) -> int
    recommends
        0 <= pos <= s.len(),
    decreases s.len() - pos,
{
    if pos < s.len() {
        if s[pos] == '"' {
            pos
        } else {
            text_end(s, pos + 1)
        }
    } else {
        s.len() as int
    }
}

/// The position of the first non-digit at or after `pos`, or the
/// input's length when digits run to the end.
pub open spec fn digits_end(s: Seq<char>, pos: int) -> int
    recommends
        0 <= pos <= s.len(),
    decreases s.len() - pos,
{
    if pos < s.len() {
        if is_digit(s[pos]) {
            digits_end(s, pos + 1)
        } else {
            pos
        }
    } else {
        s.len() as int
    }
}

pub proof fn lemma_text_end(s: Seq<char>, pos: int)
    requires
        0 <= pos <= s.len(),
    ensures
        pos <= text_end(s, pos) <= s.len(),
        forall|i: int| pos <= i < text_end(s, pos) ==> s[i] != '"',
        text_end(s, pos) < s.len() ==> s[text_end(s, pos)] == '"',
    decreases s.len() - pos,
{
    if pos < s.len() && s[pos] != '"' {
        lemma_text_end(s, pos + 1);
    }
}

pub proof fn lemma_digits_end(s: Seq<char>, pos: int)
    requires
        0 <= pos <= s.len(),
    ensures
        pos <= digits_end(s, pos) <= s.len(),
        forall|i: int| pos <= i < digits_end(s, pos) ==> is_digit(s[i]),
        digits_end(s, pos) < s.len() ==> !is_digit(s[digits_end(s, pos)]),
    decreases s.len() - pos,
{
    if pos < s.len() && is_digit(s[pos]) {
        lemma_digits_end(s, pos + 1);
    }
}

/// Token verification's second half: the character standing exactly at
/// `pos` must equal `expected`, which consumes it.
pub open spec fn spec_check_at(s: Seq<char>, pos: int, expected: char) -> Result<int, ParseError> {
    if pos < s.len() {
        if s[pos] == expected {
            Ok(pos + 1)
        } else {
            Err(ParseError::UnexpectedToken { expected: Some(expected), actual: Some(s[pos]) })
        }
    } else {
        Err(ParseError::UnexpectedToken { expected: Some(expected), actual: None })
    }
}

/// Token verification: consume one character; when it is whitespace,
/// consume exactly one more and test that one instead.  At most one
/// whitespace character is tolerated.
pub open spec fn spec_verify_char(s: Seq<char>, pos: int, expected: char) -> Result<
    int,
    ParseError,
> {
    if pos < s.len() && is_space(s[pos]) {
        spec_check_at(s, pos + 1, expected)
    } else {
        spec_check_at(s, pos, expected)
    }
}

/// Text parsing: an opening `"` (with the one-whitespace tolerance),
/// then every character up to but not including the next `"`.  The
/// closing quote is consumed when present; input that ends first yields
/// the remaining characters with no error.
pub open spec fn spec_parse_text(s: Seq<char>, pos: int) -> Result<(Seq<char>, int), ParseError> {
    match spec_verify_char(s, pos, '"') {
        Ok(p) => {
            let e = text_end(s, p);
            Ok((s.subrange(p, e), if e < s.len() { e + 1 } else { e }))
        },
        Err(err) => Err(err),
    }
}

/// Number parsing: the maximal run of ASCII digits starting at `pos`,
/// rejected when empty or when its value exceeds `u32::MAX`.
pub open spec fn spec_parse_number(s: Seq<char>, pos: int) -> Result<
    (ValueModel, int),
    ParseError,
> {
    let e = digits_end(s, pos);
    let ds = s.subrange(pos, e);
    if ds.len() == 0 {
        Err(ParseError::InvalidNumber)
    } else if digits_value(ds) > u32::MAX {
        Err(ParseError::InvalidNumber)
    } else {
        Ok((ValueModel::Number(digits_value(ds) as u32), e))
    }
}

/// The keyword `true`, as characters.
pub open spec fn true_chars() -> Seq<char> {
    seq!['t', 'r', 'u', 'e']
}

/// The keyword `false`, as characters.
pub open spec fn false_chars() -> Seq<char> {
    seq!['f', 'a', 'l', 's', 'e']
}

/// Boolean parsing: the first character picks the keyword length (4
/// after `t`, 5 after `f`); that many characters, or as many as remain,
/// are consumed, case-folded, and matched against the keywords.
pub open spec fn spec_parse_bool(s: Seq<char>, pos: int) -> Result<(ValueModel, int), ParseError> {
    if pos < s.len() {
        let k: int = if lower(s[pos]) == 't' {
            4
        } else {
            5
        };
        let end = if pos + k <= s.len() {
            pos + k
        } else {
            s.len() as int
        };
        let w = Seq::new((end - pos) as nat, |i: int| lower(s[pos + i]));
        if w == true_chars() {
            Ok((ValueModel::Bool(true), end))
        } else if w == false_chars() {
            Ok((ValueModel::Bool(false), end))
        } else {
            Err(ParseError::InvalidBoolean)
        }
    } else {
        Err(ParseError::EmptyInput)
    }
}

/// Value dispatch: case-fold the lookahead character alone and pick the
/// variant parser; no whitespace is skipped here.
pub open spec fn spec_parse_value(s: Seq<char>, pos: int) -> Result<(ValueModel, int), ParseError>
    decreases s.len() - pos, 1int,
{
    if pos >= s.len() {
        Err(ParseError::EmptyInput)
    } else {
        let c = lower(s[pos]);
        if c == '"' {
            match spec_parse_text(s, pos) {
                Ok((t, q)) => Ok((ValueModel::Text(t), q)),
                Err(e) => Err(e),
            }
        } else if c == '[' {
            spec_parse_list(s, pos)
        } else if c == '{' {
            match spec_parse_object(s, pos) {
                Ok((fs, q)) => Ok((ValueModel::Object(fs), q)),
                Err(e) => Err(e),
            }
        } else if c == 'f' || c == 't' {
            spec_parse_bool(s, pos)
        } else if is_digit(c) {
            spec_parse_number(s, pos)
        } else {
            Err(ParseError::UnexpectedToken { expected: None, actual: Some(s[pos]) })
        }
    }
}

/// List parsing: `[`, the comma-separated elements, `]`.
pub open spec fn spec_parse_list(s: Seq<char>, pos: int) -> Result<(ValueModel, int), ParseError>
    decreases s.len() - pos, 0int,
{
    match spec_verify_char(s, pos, '[') {
        Ok(p) => if p > pos {
            match spec_parse_items(s, p, true) {
                Ok((items, q)) => match spec_verify_char(s, q, ']') {
                    Ok(r) => Ok((ValueModel::List(items), r)),
                    Err(e) => Err(e),
                },
                Err(e) => Err(e),
            }
        } else {
            Err(ParseError::EmptyInput)
        },
        Err(e) => Err(e),
    }
}

/// The elements of a list body: stop before `]` or at the input's end;
/// otherwise, unless this is the first element, verify a `,`, then
/// parse one value and continue.  The two position guards only record
/// that parsing consumes input; both always hold.
pub open spec fn spec_parse_items(s: Seq<char>, pos: int, first: bool) -> Result<
    (Seq<ValueModel>, int),
    ParseError,
>
    decreases s.len() - pos, 2int,
{
    if pos >= s.len() || s[pos] == ']' {
        Ok((Seq::empty(), pos))
    } else {
        let start = if first {
            Ok(pos)
        } else {
            spec_verify_char(s, pos, ',')
        };
        match start {
            Ok(p) => if first || p > pos {
                match spec_parse_value(s, p) {
                    Ok((v, q)) => if pos < q <= s.len() {
                        match spec_parse_items(s, q, false) {
                            Ok((rest, r)) => Ok((seq![v] + rest, r)),
                            Err(e) => Err(e),
                        }
                    } else {
                        Err(ParseError::EmptyInput)
                    },
                    Err(e) => Err(e),
                }
            } else {
                Err(ParseError::EmptyInput)
            },
            Err(e) => Err(e),
        }
    }
}

/// One field: a text key, a `:`, and the field's value.  The position
/// guards only record that parsing consumes input; both always hold.
pub open spec fn spec_parse_field(s: Seq<char>, pos: int) -> Result<(FieldModel, int), ParseError>
    decreases s.len() - pos, 0int,
{
    match spec_parse_text(s, pos) {
        Ok((k, p)) => if p > pos {
            match spec_verify_char(s, p, ':') {
                Ok(p2) => if p2 > p {
                    match spec_parse_value(s, p2) {
                        Ok((v, q)) => Ok((FieldModel { key: k, value: v }, q)),
                        Err(e) => Err(e),
                    }
                } else {
                    Err(ParseError::EmptyInput)
                },
                Err(e) => Err(e),
            }
        } else {
            Err(ParseError::EmptyInput)
        },
        Err(e) => Err(e),
    }
}

/// The fields of an object body, mirroring the list elements with `}`
/// for `]` and a field for a value.
pub open spec fn spec_parse_fields(s: Seq<char>, pos: int, first: bool) -> Result<
    (Seq<FieldModel>, int),
    ParseError,
>
    decreases s.len() - pos, 2int,
{
    if pos >= s.len() || s[pos] == '}' {
        Ok((Seq::empty(), pos))
    } else {
        let start = if first {
            Ok(pos)
        } else {
            spec_verify_char(s, pos, ',')
        };
        match start {
            Ok(p) => if first || p > pos {
                match spec_parse_field(s, p) {
                    Ok((f, q)) => if pos < q <= s.len() {
                        match spec_parse_fields(s, q, false) {
                            Ok((rest, r)) => Ok((seq![f] + rest, r)),
                            Err(e) => Err(e),
                        }
                    } else {
                        Err(ParseError::EmptyInput)
                    },
                    Err(e) => Err(e),
                }
            } else {
                Err(ParseError::EmptyInput)
            },
            Err(e) => Err(e),
        }
    }
}

/// Object parsing: `{`, the comma-separated fields, `}`.
pub open spec fn spec_parse_object(s: Seq<char>, pos: int) -> Result<
    (Seq<FieldModel>, int),
    ParseError,
>
    decreases s.len() - pos, 0int,
{
    match spec_verify_char(s, pos, '{') {
        Ok(p) => if p > pos {
            match spec_parse_fields(s, p, true) {
                Ok((fs, q)) => match spec_verify_char(s, q, '}') {
                    Ok(r) => Ok((fs, r)),
                    Err(e) => Err(e),
                },
                Err(e) => Err(e),
            }
        } else {
            Err(ParseError::EmptyInput)
        },
        Err(e) => Err(e),
    }
}

/// First-match lookup: the value of the earliest field whose key equals
/// `key`, or `None` when no field matches.
pub open spec fn spec_lookup(fields: Seq<FieldModel>, key: Seq<char>) -> Option<ValueModel>
    decreases fields.len(),
{
    if fields.len() == 0 {
        None
    } else if fields[0].key == key {
        Some(fields[0].value)
    } else {
        spec_lookup(fields.drop_first(), key)
    }
}

} // verus!
