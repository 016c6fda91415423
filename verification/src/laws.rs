//! Format-wide guarantees, proved against the specification parser.
//!
//! The central law: writing any well-formed value tree out in the
//! grammar and parsing the result yields the same tree, with every list
//! and object in declaration order.  Around it stand the laws for exact
//! number parsing, case-insensitive boolean keywords, and first-match
//! key lookup.

use vstd::prelude::*;

use crate::model::digit_val;
use crate::model::digits_value;
use crate::model::digits_end;
use crate::model::false_chars;
use crate::model::is_digit;
use crate::model::lower;
use crate::model::spec_lookup;
use crate::model::spec_parse_bool;
use crate::model::spec_parse_field;
use crate::model::spec_parse_fields;
use crate::model::spec_parse_items;
use crate::model::spec_parse_number;
use crate::model::spec_parse_value;
use crate::model::text_end;
use crate::model::true_chars;
use crate::model::FieldModel;
use crate::model::ParseError;
use crate::model::ValueModel;

verus! {

/// A tree the grammar can denote: no text or key contains the `"` that
/// would end it early.
pub open spec fn wf_value(v: ValueModel) -> bool
    decreases v, 0int,
{
    match v {
        ValueModel::Text(t) => forall|i: int| 0 <= i < t.len() ==> t[i] != '"',
        ValueModel::Number(_) => true,
        ValueModel::Bool(_) => true,
        ValueModel::List(items) => forall|i: int|
            0 <= i < items.len() ==> wf_value(#[trigger] items[i]),
        ValueModel::Object(fs) => forall|i: int| 0 <= i < fs.len() ==> wf_field(#[trigger] fs[i]),
    }
}

/// A field the grammar can denote.
pub open spec fn wf_field(f: FieldModel) -> bool
    decreases f, 1int,
{
    (forall|i: int| 0 <= i < f.key.len() ==> f.key[i] != '"') && wf_value(f.value)
}

/// The character of one decimal digit.
pub open spec fn digit_char(d: nat) -> char {
    if d == 0 {
        '0'
    } else if d == 1 {
        '1'
    } else if d == 2 {
        '2'
    } else if d == 3 {
        '3'
    } else if d == 4 {
        '4'
    } else if d == 5 {
        '5'
    } else if d == 6 {
        '6'
    } else if d == 7 {
        '7'
    } else if d == 8 {
        '8'
    } else {
        '9'
    }
}

/// The canonical decimal digits of `n`, most significant first.
pub open spec fn num_chars(n: nat) -> Seq<char>
    decreases n,
{
    if n < 10 {
        seq![digit_char(n)]
    } else {
        num_chars(n / 10) + seq![digit_char(n % 10)]
    }
}

/// The canonical written form of a value in the grammar.
pub open spec fn serialize_value(v: ValueModel) -> Seq<char>
    decreases v, 0int,
{
    match v {
        ValueModel::Text(t) => seq!['"'] + t + seq!['"'],
        ValueModel::Number(n) => num_chars(n as nat),
        ValueModel::Bool(b) => if b {
            true_chars()
        } else {
            false_chars()
        },
        ValueModel::List(items) => seq!['['] + ser_items_from(items, true) + seq![']'],
        ValueModel::Object(fs) => seq!['{'] + ser_fields_from(fs, true) + seq!['}'],
    }
}

/// The canonical written form of one field.
pub open spec fn serialize_field(f: FieldModel) -> Seq<char>
    decreases f, 1int,
{
    seq!['"'] + f.key + seq!['"', ':'] + serialize_value(f.value)
}

/// The written list elements, each after `,` unless it is the first.
pub open spec fn ser_items_from(items: Seq<ValueModel>, first: bool) -> Seq<char>
    decreases items, 1int,
{
    if items.len() == 0 {
        Seq::empty()
    } else {
        (if first {
            Seq::<char>::empty()
        } else {
            seq![',']
        }) + serialize_value(items[0]) + ser_items_from(items.subrange(1, items.len() as int), false)
    }
}

/// The written object fields, each after `,` unless it is the first.
pub open spec fn ser_fields_from(fs: Seq<FieldModel>, first: bool) -> Seq<char>
    decreases fs, 2int,
{
    if fs.len() == 0 {
        Seq::empty()
    } else {
        (if first {
            Seq::<char>::empty()
        } else {
            seq![',']
        }) + serialize_field(fs[0]) + ser_fields_from(fs.subrange(1, fs.len() as int), false)
    }
}

/// The canonical digits of `n` are digits and denote exactly `n`.
pub proof fn lemma_num_chars(n: nat)
    ensures
        num_chars(n).len() >= 1,
        forall|i: int| 0 <= i < num_chars(n).len() ==> is_digit(#[trigger] num_chars(n)[i]),
        digits_value(num_chars(n)) == n,
    decreases n,
{
    if n < 10 {
        assert(seq![digit_char(n)].drop_last() =~= Seq::<char>::empty());
        assert(seq![digit_char(n)].last() == digit_char(n));
        assert(digits_value(Seq::<char>::empty()) == 0);
        assert(digits_value(num_chars(n)) == digit_val(digit_char(n)));
        assert(digit_val(digit_char(n)) == n);
    } else {
        lemma_num_chars(n / 10);
        let a = num_chars(n / 10);
        let c = digit_char(n % 10);
        assert((a + seq![c]).drop_last() =~= a);
        assert((a + seq![c]).last() == c);
        assert(digit_val(c) == n % 10);
        assert(digits_value(num_chars(n)) == (n / 10) * 10 + n % 10);
        assert((n / 10) * 10 + n % 10 == n) by {
            vstd::arithmetic::div_mod::lemma_fundamental_div_mod(n as int, 10);
        }
        assert(forall|i: int|
            0 <= i < num_chars(n).len() ==> is_digit(#[trigger] num_chars(n)[i])) by {
            assert(forall|i: int| 0 <= i < a.len() ==> num_chars(n)[i] == a[i]);
            assert(num_chars(n)[a.len() as int] == c);
        }
    }
}

/// A written value is never empty and never opens with a closing
/// delimiter, a comma or a colon.
pub proof fn lemma_serialize_value_head(v: ValueModel)
    ensures
        serialize_value(v).len() >= 1,
        serialize_value(v)[0] != ']',
        serialize_value(v)[0] != '}',
        serialize_value(v)[0] != ',',
        serialize_value(v)[0] != ':',
    decreases v,
{
    match v {
        ValueModel::Number(n) => {
            lemma_num_chars(n as nat);
            assert(is_digit(serialize_value(v)[0]));
        },
        _ => {},
    }
}

/// Like `lemma_text_end`, pinned to a known closing quote.
proof fn lemma_text_end_at(s: Seq<char>, pos: int, e: int)
    requires
        0 <= pos <= e < s.len(),
        forall|i: int| pos <= i < e ==> s[i] != '"',
        s[e] == '"',
    ensures
        text_end(s, pos) == e,
    decreases e - pos,
{
    if pos < e {
        lemma_text_end_at(s, pos + 1, e);
    }
}

/// Like `lemma_digits_end`, pinned to a known right delimiter.
proof fn lemma_digits_end_at(s: Seq<char>, pos: int, e: int)
    requires
        0 <= pos <= e <= s.len(),
        forall|i: int| pos <= i < e ==> is_digit(s[i]),
        e == s.len() || !is_digit(s[e]),
    ensures
        digits_end(s, pos) == e,
    decreases e - pos,
{
    if pos < e {
        lemma_digits_end_at(s, pos + 1, e);
    }
}


/// One character of a region equality: when `ser` stands at `pos`, the
/// character `off` into it is `ser[off]`.
proof fn lemma_char_at(s: Seq<char>, pos: int, e: int, ser: Seq<char>, off: int)
    requires
        0 <= pos,
        pos + ser.len() == e <= s.len(),
        s.subrange(pos, e) == ser,
        0 <= off < ser.len(),
    ensures
        s[pos + off] == ser[off],
{
    assert(s.subrange(pos, e)[off] == s[pos + off]);
}

/// A sub-region of a region equality: when `ser` stands at `pos` and
/// `part` is its slice at `off`, then `part` stands at `pos + off`.
proof fn lemma_region(s: Seq<char>, pos: int, e: int, ser: Seq<char>, off: int, part: Seq<char>)
    requires
        0 <= pos,
        pos + ser.len() == e <= s.len(),
        s.subrange(pos, e) == ser,
        0 <= off,
        off + part.len() <= ser.len(),
        forall|i: int| 0 <= i < part.len() ==> ser[off + i] == #[trigger] part[i],
    ensures
        s.subrange(pos + off, pos + off + part.len() as int) == part,
{
    assert forall|i: int|
        0 <= i < part.len() implies s.subrange(pos + off, pos + off + part.len() as int)[i]
        == part[i] by {
        assert(s.subrange(pos, e)[off + i] == s[pos + off + i]);
        assert(s.subrange(pos + off, pos + off + part.len() as int)[i] == s[pos + off + i]);
    }
    assert(s.subrange(pos + off, pos + off + part.len() as int) =~= part);
}

/// Parsing inverts writing, one value at a time: when the written form
/// of a well-formed value stands at `pos` and no digit follows it, the
/// specification parser returns exactly that value and stops exactly
/// after its written form.
pub proof fn lemma_parse_serialized_value(v: ValueModel, s: Seq<char>, pos: int)
    requires
        wf_value(v),
        0 <= pos,
        pos + serialize_value(v).len() <= s.len(),
        s.subrange(pos, pos + serialize_value(v).len() as int) == serialize_value(v),
        pos + serialize_value(v).len() == s.len() || !is_digit(
            s[pos + serialize_value(v).len() as int],
        ),
    ensures
        spec_parse_value(s, pos) == Ok::<(ValueModel, int), ParseError>(
            (v, pos + serialize_value(v).len() as int),
        ),
    decreases v, 0int,
{
    let ser = serialize_value(v);
    let e = pos + ser.len() as int;
    match v {
        ValueModel::Text(t) => {
            lemma_char_at(s, pos, e, ser, 0);
            assert(ser[0] == '"');
            assert(s[pos] == '"');
            assert forall|i: int| 0 <= i < t.len() implies ser[1 + i] == t[i] by {}
            lemma_region(s, pos, e, ser, 1, t);
            lemma_char_at(s, pos, e, ser, 1 + t.len() as int);
            assert(ser[1 + t.len() as int] == '"');
            let te = pos + 1 + t.len() as int;
            assert(s[te] == '"');
            assert forall|i: int| pos + 1 <= i < te implies s[i] != '"' by {
                assert(s.subrange(pos + 1, te)[i - (pos + 1)] == s[i]);
            }
            lemma_text_end_at(s, pos + 1, te);
        },
        ValueModel::Number(n) => {
            lemma_num_chars(n as nat);
            lemma_char_at(s, pos, e, ser, 0);
            assert(is_digit(num_chars(n as nat)[0]));
            assert(is_digit(s[pos]));
            assert(lower(s[pos]) == s[pos]);
            assert forall|i: int| pos <= i < e implies is_digit(s[i]) by {
                assert(s.subrange(pos, e)[i - pos] == s[i]);
                assert(is_digit(num_chars(n as nat)[i - pos]));
            }
            lemma_digits_end_at(s, pos, e);
        },
        ValueModel::Bool(b) => {
            lemma_char_at(s, pos, e, ser, 0);
            lemma_char_at(s, pos, e, ser, 1);
            lemma_char_at(s, pos, e, ser, 2);
            lemma_char_at(s, pos, e, ser, 3);
            if b {
                assert(ser[0] == 't' && ser[1] == 'r' && ser[2] == 'u' && ser[3] == 'e');
                let w = Seq::new(4nat, |i: int| lower(s[pos + i]));
                assert(w[0] == lower(s[pos + 0]));
                assert(w[1] == lower(s[pos + 1]));
                assert(w[2] == lower(s[pos + 2]));
                assert(w[3] == lower(s[pos + 3]));
                assert(w =~= true_chars());
            } else {
                lemma_char_at(s, pos, e, ser, 4);
                assert(ser[0] == 'f' && ser[1] == 'a' && ser[2] == 'l' && ser[3] == 's' && ser[4]
                    == 'e');
                let w = Seq::new(5nat, |i: int| lower(s[pos + i]));
                assert(w[0] == lower(s[pos + 0]));
                assert(w[1] == lower(s[pos + 1]));
                assert(w[2] == lower(s[pos + 2]));
                assert(w[3] == lower(s[pos + 3]));
                assert(w[4] == lower(s[pos + 4]));
                assert(w =~= false_chars());
                assert(w.len() != true_chars().len());
            }
        },
        ValueModel::List(items) => {
            lemma_char_at(s, pos, e, ser, 0);
            assert(ser[0] == '[');
            assert(s[pos] == '[');
            let body = ser_items_from(items, true);
            assert forall|i: int| 0 <= i < body.len() implies ser[1 + i] == body[i] by {}
            lemma_region(s, pos, e, ser, 1, body);
            lemma_char_at(s, pos, e, ser, 1 + body.len() as int);
            assert(ser[1 + body.len() as int] == ']');
            assert(s[e - 1] == ']');
            lemma_parse_serialized_items(items, s, pos + 1, true);
        },
        ValueModel::Object(fs) => {
            lemma_char_at(s, pos, e, ser, 0);
            assert(ser[0] == '{');
            assert(s[pos] == '{');
            let body = ser_fields_from(fs, true);
            assert forall|i: int| 0 <= i < body.len() implies ser[1 + i] == body[i] by {}
            lemma_region(s, pos, e, ser, 1, body);
            lemma_char_at(s, pos, e, ser, 1 + body.len() as int);
            assert(ser[1 + body.len() as int] == '}');
            assert(s[e - 1] == '}');
            lemma_parse_serialized_fields(fs, s, pos + 1, true);
        },
    }
}

/// Parsing inverts writing for a run of list elements closed by `]`.
pub proof fn lemma_parse_serialized_items(
    items: Seq<ValueModel>,
    s: Seq<char>,
    pos: int,
    first: bool,
)
    requires
        forall|i: int| 0 <= i < items.len() ==> wf_value(#[trigger] items[i]),
        0 <= pos,
        pos + ser_items_from(items, first).len() < s.len(),
        s.subrange(pos, pos + ser_items_from(items, first).len() as int) == ser_items_from(
            items,
            first,
        ),
        s[pos + ser_items_from(items, first).len() as int] == ']',
    ensures
        spec_parse_items(s, pos, first) == Ok::<(Seq<ValueModel>, int), ParseError>(
            (items, pos + ser_items_from(items, first).len() as int),
        ),
    decreases items, 1int,
{
    let ser = ser_items_from(items, first);
    let e = pos + ser.len() as int;
    if items.len() == 0 {
        assert(s[pos] == ']');
        assert(Seq::<ValueModel>::empty() =~= items);
    } else {
        let v0 = items[0];
        let sv = serialize_value(v0);
        let rest = items.subrange(1, items.len() as int);
        let ser_rest = ser_items_from(rest, false);
        let pre: int = if first {
            0
        } else {
            1
        };
        let p = pos + pre;
        lemma_serialize_value_head(v0);
        lemma_char_at(s, pos, e, ser, 0);
        if !first {
            assert(ser[0] == ',');
            assert(s[pos] == ',');
        } else {
            assert(ser[0] == sv[0]);
            assert(s[pos] != ']');
        }
        assert forall|i: int| 0 <= i < sv.len() implies ser[pre + i] == sv[i] by {}
        lemma_region(s, pos, e, ser, pre, sv);
        let q = p + sv.len() as int;
        assert forall|i: int|
            0 <= i < ser_rest.len() implies ser[pre + sv.len() + i] == ser_rest[i] by {}
        lemma_region(s, pos, e, ser, pre + sv.len() as int, ser_rest);
        assert(q + ser_rest.len() == e);
        // What follows the value is `,` or the closing `]`: not a digit.
        if rest.len() > 0 {
            assert(ser_rest[0] == ',');
            lemma_char_at(s, q, e, ser_rest, 0);
            assert(s[q] == ',');
        } else {
            assert(q == e);
            assert(s[q] == ']');
        }
        lemma_parse_serialized_value(v0, s, p);
        assert forall|i: int| 0 <= i < rest.len() implies wf_value(#[trigger] rest[i]) by {
            assert(rest[i] == items[i + 1]);
        }
        lemma_parse_serialized_items(rest, s, q, false);
        assert(seq![v0] + rest =~= items);
    }
}

/// Parsing inverts writing for one field.
pub proof fn lemma_parse_serialized_field(f: FieldModel, s: Seq<char>, pos: int)
    requires
        wf_field(f),
        0 <= pos,
        pos + serialize_field(f).len() <= s.len(),
        s.subrange(pos, pos + serialize_field(f).len() as int) == serialize_field(f),
        pos + serialize_field(f).len() == s.len() || !is_digit(
            s[pos + serialize_field(f).len() as int],
        ),
    ensures
        spec_parse_field(s, pos) == Ok::<(FieldModel, int), ParseError>(
            (f, pos + serialize_field(f).len() as int),
        ),
    decreases f, 0int,
{
    let ser = serialize_field(f);
    let e = pos + ser.len() as int;
    let k = f.key;
    let sv = serialize_value(f.value);
    lemma_char_at(s, pos, e, ser, 0);
    assert(ser[0] == '"');
    assert(s[pos] == '"');
    assert forall|i: int| 0 <= i < k.len() implies ser[1 + i] == k[i] by {}
    lemma_region(s, pos, e, ser, 1, k);
    lemma_char_at(s, pos, e, ser, 1 + k.len() as int);
    assert(ser[1 + k.len() as int] == '"');
    let te = pos + 1 + k.len() as int;
    assert(s[te] == '"');
    assert forall|i: int| pos + 1 <= i < te implies s[i] != '"' by {
        assert(s.subrange(pos + 1, te)[i - (pos + 1)] == s[i]);
    }
    lemma_text_end_at(s, pos + 1, te);
    let p1 = te + 1;
    lemma_char_at(s, pos, e, ser, 2 + k.len() as int);
    assert(ser[2 + k.len() as int] == ':');
    assert(s[p1] == ':');
    let p2 = p1 + 1;
    assert forall|i: int| 0 <= i < sv.len() implies ser[3 + k.len() + i] == sv[i] by {}
    lemma_region(s, pos, e, ser, 3 + k.len() as int, sv);
    assert(p2 + sv.len() == e);
    lemma_parse_serialized_value(f.value, s, p2);
    assert(f == (FieldModel { key: f.key, value: f.value }));
}

/// Parsing inverts writing for a run of object fields closed by `}`.
pub proof fn lemma_parse_serialized_fields(
    fs: Seq<FieldModel>,
    s: Seq<char>,
    pos: int,
    first: bool,
)
    requires
        forall|i: int| 0 <= i < fs.len() ==> wf_field(#[trigger] fs[i]),
        0 <= pos,
        pos + ser_fields_from(fs, first).len() < s.len(),
        s.subrange(pos, pos + ser_fields_from(fs, first).len() as int) == ser_fields_from(
            fs,
            first,
        ),
        s[pos + ser_fields_from(fs, first).len() as int] == '}',
    ensures
        spec_parse_fields(s, pos, first) == Ok::<(Seq<FieldModel>, int), ParseError>(
            (fs, pos + ser_fields_from(fs, first).len() as int),
        ),
    decreases fs, 1int,
{
    let ser = ser_fields_from(fs, first);
    let e = pos + ser.len() as int;
    if fs.len() == 0 {
        assert(s[pos] == '}');
        assert(Seq::<FieldModel>::empty() =~= fs);
    } else {
        let f0 = fs[0];
        let sf = serialize_field(f0);
        let rest = fs.subrange(1, fs.len() as int);
        let ser_rest = ser_fields_from(rest, false);
        let pre: int = if first {
            0
        } else {
            1
        };
        let p = pos + pre;
        lemma_char_at(s, pos, e, ser, 0);
        if !first {
            assert(ser[0] == ',');
            assert(s[pos] == ',');
        } else {
            assert(sf[0] == '"');
            assert(ser[0] == sf[0]);
            assert(s[pos] == '"');
        }
        assert(s[pos] != '}');
        assert forall|i: int| 0 <= i < sf.len() implies ser[pre + i] == sf[i] by {}
        lemma_region(s, pos, e, ser, pre, sf);
        let q = p + sf.len() as int;
        assert forall|i: int|
            0 <= i < ser_rest.len() implies ser[pre + sf.len() + i] == ser_rest[i] by {}
        lemma_region(s, pos, e, ser, pre + sf.len() as int, ser_rest);
        assert(q + ser_rest.len() == e);
        if rest.len() > 0 {
            assert(ser_rest[0] == ',');
            lemma_char_at(s, q, e, ser_rest, 0);
            assert(s[q] == ',');
        } else {
            assert(q == e);
            assert(s[q] == '}');
        }
        lemma_parse_serialized_field(f0, s, p);
        assert forall|i: int| 0 <= i < rest.len() implies wf_field(#[trigger] rest[i]) by {
            assert(rest[i] == fs[i + 1]);
        }
        lemma_parse_serialized_fields(rest, s, q, false);
        assert(seq![f0] + rest =~= fs);
    }
}

/// The round trip: every well-formed value tree, written out in the
/// grammar, parses back to exactly itself, consuming the whole written
/// form.  In particular every list and object keeps its declaration
/// order, and parsing succeeds on every such input.
pub proof fn lemma_parse_round_trip(v: ValueModel)
    requires
        wf_value(v),
    ensures
        spec_parse_value(serialize_value(v), 0) == Ok::<(ValueModel, int), ParseError>(
            (v, serialize_value(v).len() as int),
        ),
{
    let s = serialize_value(v);
    assert(s.subrange(0, s.len() as int) =~= s);
    lemma_parse_serialized_value(v, s, 0);
}

/// Digit strings denote their exact value: a delimited digit run parses
/// to precisely the number it spells when that number fits in unsigned
/// 32 bits, and fails with `InvalidNumber` when it does not.
pub proof fn lemma_number_exact(s: Seq<char>, pos: int, e: int)
    requires
        0 <= pos < e <= s.len(),
        forall|i: int| pos <= i < e ==> is_digit(s[i]),
        e == s.len() || !is_digit(s[e]),
    ensures
        digits_value(s.subrange(pos, e)) <= u32::MAX ==> spec_parse_number(s, pos) == Ok::<
            (ValueModel, int),
            ParseError,
        >((ValueModel::Number(digits_value(s.subrange(pos, e)) as u32), e)),
        digits_value(s.subrange(pos, e)) > u32::MAX ==> spec_parse_number(s, pos) == Err::<
            (ValueModel, int),
            ParseError,
        >(ParseError::InvalidNumber),
{
    lemma_digits_end_at(s, pos, e);
}

/// Boolean keywords are case-insensitive: two inputs of one length that
/// agree character by character up to ASCII case parse to the same
/// boolean result.
pub proof fn lemma_bool_case_insensitive(s1: Seq<char>, s2: Seq<char>, pos: int)
    requires
        0 <= pos,
        s1.len() == s2.len(),
        forall|i: int| 0 <= i < s1.len() ==> lower(s1[i]) == lower(s2[i]),
    ensures
        spec_parse_bool(s1, pos) == spec_parse_bool(s2, pos),
{
    if pos < s1.len() {
        let k: int = if lower(s1[pos]) == 't' {
            4
        } else {
            5
        };
        let end = if pos + k <= s1.len() {
            pos + k
        } else {
            s1.len() as int
        };
        assert(Seq::new((end - pos) as nat, |i: int| lower(s1[pos + i])) =~= Seq::new(
            (end - pos) as nat,
            |i: int| lower(s2[pos + i]),
        ));
    }
}

/// Keyed lookup resolves to the first match: when field `i` carries the
/// key and no earlier field does, lookup yields field `i`'s value.
pub proof fn lemma_lookup_first_match(fields: Seq<FieldModel>, key: Seq<char>, i: int)
    requires
        0 <= i < fields.len(),
        fields[i].key == key,
        forall|j: int| 0 <= j < i ==> fields[j].key != key,
    ensures
        spec_lookup(fields, key) == Some(fields[i].value),
    decreases i,
{
    if i > 0 {
        assert(forall|j: int|
            0 <= j < i - 1 ==> #[trigger] fields.drop_first()[j] == fields[j + 1]);
        assert(fields.drop_first()[i - 1] == fields[i]);
        lemma_lookup_first_match(fields.drop_first(), key, i - 1);
    }
}


} // verus!
