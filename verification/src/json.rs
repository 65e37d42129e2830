//! Just enough JSON to emit one object per line.
//!
//! Deliberately a writer and not a library: the headless surfaces print
//! records another process parses, and nothing here reads JSON back.
//!
//! An [`Obj`] is modelled as the list of its fields in insertion order, each a
//! key and the exact text of its value. Every method says which field it adds
//! and what that value's text is; [`Obj::done`] says the finished text is
//! `{`, the fields joined by `,`, and `}`. Numbers arrive as text and are kept
//! only when they are JSON numbers: anything else — `NaN`, `inf` — becomes
//! `null`, because a non-JSON token makes the whole line unparseable.

use vstd::prelude::*;

use crate::text::{
    chars_of, decimal, digit_of, hex_char, is_digit, is_digit_exec, push_char, push_radix, push_str,
    radix_text,
};

verus! {

broadcast use vstd::seq_lib::group_seq_properties;

// ------------------------------------------------------------------ model --

/// One character of a JSON string body, escaped per RFC 8259: the two
/// mandatory escapes, the shorthands, and every remaining control character
/// as `\u00xx`.
pub open spec fn escape_char(c: char) -> Seq<char> {
    if c == '"' {
        seq!['\\', '"']
    } else if c == '\\' {
        seq!['\\', '\\']
    } else if c == '\n' {
        seq!['\\', 'n']
    } else if c == '\r' {
        seq!['\\', 'r']
    } else if c == '\t' {
        seq!['\\', 't']
    } else if c == '\u{08}' {
        seq!['\\', 'b']
    } else if c == '\u{0c}' {
        seq!['\\', 'f']
    } else if (c as u32) < 0x20 {
        seq![
            '\\',
            'u',
            '0',
            '0',
            hex_char((c as u32) as int / 16, false),
            hex_char((c as u32) as int % 16, false),
        ]
    } else {
        seq![c]
    }
}

/// The escaped body of a JSON string holding `s`.
pub open spec fn json_escape(s: Seq<char>) -> Seq<char> {
    s.flat_map(|c: char| escape_char(c))
}

/// A JSON string literal holding `s`.
pub open spec fn string_text(s: Seq<char>) -> Seq<char> {
    seq!['"'] + json_escape(s) + seq!['"']
}

pub open spec fn null_text() -> Seq<char> {
    seq!['n', 'u', 'l', 'l']
}

pub open spec fn bool_text(b: bool) -> Seq<char> {
    if b {
        seq!['t', 'r', 'u', 'e']
    } else {
        seq!['f', 'a', 'l', 's', 'e']
    }
}

/// `items` separated by commas.
pub open spec fn join_commas(items: Seq<Seq<char>>) -> Seq<char>
    decreases items.len(),
{
    if items.len() == 0 {
        seq![]
    } else if items.len() == 1 {
        items[0]
    } else {
        join_commas(items.drop_last()) + seq![','] + items.last()
    }
}

/// `[a,b,…]`.
pub open spec fn array_text(items: Seq<Seq<char>>) -> Seq<char> {
    seq!['['] + join_commas(items) + seq![']']
}

/// The index just past the run of ASCII digits starting at `i`.
pub open spec fn digits_end(s: Seq<char>, i: int) -> int
    decreases s.len() - i,
{
    if 0 <= i < s.len() && is_digit(s[i]) {
        digits_end(s, i + 1)
    } else {
        i
    }
}

/// The JSON number grammar: `-? (0 | [1-9][0-9]*) (. [0-9]+)? ([eE] [+-]? [0-9]+)?`.
pub open spec fn is_json_number(s: Seq<char>) -> bool {
    let a: int = if s.len() > 0 && s[0] == '-' { 1 } else { 0 };
    let b = digits_end(s, a);
    let c = if b < s.len() && s[b] == '.' { digits_end(s, b + 1) } else { b };
    let d: int = if c < s.len() && (s[c] == 'e' || s[c] == 'E') {
        if c + 1 < s.len() && (s[c + 1] == '+' || s[c + 1] == '-') { c + 2 } else { c + 1 }
    } else {
        c
    };
    let e = digits_end(s, d);
    &&& b > a
    &&& (s[a] != '0' || b == a + 1)
    &&& (c == b || c > b + 1)
    &&& (d == c || e > d)
    &&& e == s.len()
}

/// A number field's value: the text when it is a JSON number, `null`
/// otherwise (absent, or not finite).
pub open spec fn number_text(v: Option<Seq<char>>) -> Seq<char> {
    match v {
        Some(t) => if is_json_number(t) { t } else { null_text() },
        None => null_text(),
    }
}

pub open spec fn numbers_text(vs: Seq<Option<Seq<char>>>) -> Seq<char> {
    array_text(vs.map_values(|v: Option<Seq<char>>| number_text(v)))
}

/// `"key":value`.
pub open spec fn field_text(f: (Seq<char>, Seq<char>)) -> Seq<char> {
    string_text(f.0) + seq![':'] + f.1
}

/// The text of an object with these fields, in this order.
pub open spec fn object_text(fields: Seq<(Seq<char>, Seq<char>)>) -> Seq<char> {
    seq!['{'] + join_commas(fields.map_values(|f: (Seq<char>, Seq<char>)| field_text(f))) + seq![
        '}',
    ]
}

/// One builder call, as what it was given: the key, and the value before
/// rendering. Numbers arrive as text (`None` for an absent one).
pub enum Member {
    Str { key: Seq<char>, text: Seq<char> },
    Bool { key: Seq<char>, flag: bool },
    Null { key: Seq<char> },
    Integer { key: Seq<char>, number: nat },
    Number { key: Seq<char>, rendered: Option<Seq<char>> },
    Numbers { key: Seq<char>, texts: Seq<Option<Seq<char>>> },
    Grid { key: Seq<char>, rows: Seq<Seq<Option<Seq<char>>>> },
    Strs { key: Seq<char>, items: Seq<Seq<char>> },
    Object { key: Seq<char>, fields: Seq<(Seq<char>, Seq<char>)> },
}

pub open spec fn member_key(m: Member) -> Seq<char> {
    match m {
        Member::Str { key, .. } => key,
        Member::Bool { key, .. } => key,
        Member::Null { key } => key,
        Member::Integer { key, .. } => key,
        Member::Number { key, .. } => key,
        Member::Numbers { key, .. } => key,
        Member::Grid { key, .. } => key,
        Member::Strs { key, .. } => key,
        Member::Object { key, .. } => key,
    }
}

/// The value text a builder call renders.
pub open spec fn member_value(m: Member) -> Seq<char> {
    match m {
        Member::Str { text, .. } => string_text(text),
        Member::Bool { flag, .. } => bool_text(flag),
        Member::Null { .. } => null_text(),
        Member::Integer { number, .. } => decimal(number),
        Member::Number { rendered, .. } => number_text(rendered),
        Member::Numbers { texts, .. } => numbers_text(texts),
        Member::Grid { rows, .. } => grid_value(rows),
        Member::Strs { items, .. } => strings_text(items),
        Member::Object { fields, .. } => object_text(fields),
    }
}

/// The field a builder call adds: its key and its rendered value.
pub open spec fn member_field(m: Member) -> (Seq<char>, Seq<char>) {
    (member_key(m), member_value(m))
}

/// The fields of an object built by these calls, starting from `new`.
pub open spec fn members(calls: Seq<Member>) -> Seq<(Seq<char>, Seq<char>)> {
    calls.map_values(|m: Member| member_field(m))
}

/// No control character (below U+0020) anywhere: in particular no line
/// break, so a record is exactly one line.
pub open spec fn no_controls(s: Seq<char>) -> bool {
    forall|i: int| 0 <= i < s.len() ==> (s[i] as u32) >= 0x20
}

/// A JSON string literal can be read back: `\` always starts an escape.
pub open spec fn hex_value(c: char) -> Option<int> {
    if '0' <= c <= '9' {
        Some(c as int - '0' as int)
    } else if 'a' <= c <= 'f' {
        Some(c as int - 'a' as int + 10)
    } else if 'A' <= c <= 'F' {
        Some(c as int - 'A' as int + 10)
    } else {
        None
    }
}

/// Reads a JSON string body back into the characters it stands for, or
/// `None` when it is not a well-formed body (a bare quote, a bare control
/// character, an unknown escape). `\u` escapes are read for the code points
/// below U+0100 that a writer needs them for.
pub open spec fn json_unescape(t: Seq<char>) -> Option<Seq<char>>
    decreases t.len(),
{
    if t.len() == 0 {
        Some(seq![])
    } else if t[0] == '\\' {
        if t.len() < 2 {
            None
        } else {
            let e = t[1];
            let simple: Option<char> = if e == '"' {
                Some('"')
            } else if e == '\\' {
                Some('\\')
            } else if e == '/' {
                Some('/')
            } else if e == 'n' {
                Some('\n')
            } else if e == 'r' {
                Some('\r')
            } else if e == 't' {
                Some('\t')
            } else if e == 'b' {
                Some('\u{08}')
            } else if e == 'f' {
                Some('\u{0c}')
            } else {
                None
            };
            match simple {
                Some(c) => match json_unescape(t.skip(2)) {
                    Some(rest) => Some(seq![c] + rest),
                    None => None,
                },
                None => if e == 'u' && t.len() >= 6 && t[2] == '0' && t[3] == '0' {
                    match (hex_value(t[4]), hex_value(t[5])) {
                        (Some(h), Some(l)) => match json_unescape(t.skip(6)) {
                            Some(rest) => Some(seq![(h * 16 + l) as char] + rest),
                            None => None,
                        },
                        _ => None,
                    }
                } else {
                    None
                },
            }
        }
    } else if t[0] == '"' || (t[0] as u32) < 0x20 {
        None
    } else {
        match json_unescape(t.skip(1)) {
            Some(rest) => Some(seq![t[0]] + rest),
            None => None,
        }
    }
}

// ----------------------------------------------------------------- lemmas --

proof fn lemma_join_push(items: Seq<Seq<char>>, x: Seq<char>)
    ensures
        join_commas(items.push(x)) == if items.len() == 0 {
            x
        } else {
            join_commas(items) + seq![','] + x
        },
{
    assert(items.push(x).drop_last() =~= items);
    if items.len() == 0 {
        assert(items.push(x).len() == 1);
    }
}

proof fn lemma_escape_char_no_controls(c: char)
    ensures
        no_controls(escape_char(c)),
{
    let v = c as u32;
    if v < 0x20 && c != '\n' && c != '\r' && c != '\t' && c != '\u{08}' && c != '\u{0c}' {
        assert(v / 16 < 2);
        assert(v % 16 < 16);
        let e = escape_char(c);
        assert(e[4] == hex_char(v as int / 16, false));
        assert(e[5] == hex_char(v as int % 16, false));
    }
}

proof fn lemma_escape_no_controls(s: Seq<char>)
    ensures
        no_controls(json_escape(s)),
    decreases s.len(),
{
    if s.len() > 0 {
        let f = |c: char| escape_char(c);
        lemma_escape_no_controls(s.drop_last());
        s.drop_last().lemma_flat_map_push(f, s.last());
        assert(s.drop_last().push(s.last()) =~= s);
        lemma_escape_char_no_controls(s.last());
    }
}

proof fn lemma_join_no_controls(items: Seq<Seq<char>>)
    requires
        forall|i: int| 0 <= i < items.len() ==> no_controls(#[trigger] items[i]),
    ensures
        no_controls(join_commas(items)),
    decreases items.len(),
{
    if items.len() > 1 {
        lemma_join_no_controls(items.drop_last());
        assert(no_controls(items.last()));
    }
}

proof fn lemma_string_text_no_controls(s: Seq<char>)
    ensures
        no_controls(string_text(s)),
{
    lemma_escape_no_controls(s);
}

proof fn lemma_number_no_controls(s: Seq<char>, i: int)
    requires
        is_json_number(s),
        0 <= i < s.len(),
    ensures
        (s[i] as u32) >= 0x20,
{
    lemma_number_chars(s);
}

/// Every character of a JSON number is a digit, a sign, a point or an `e`.
proof fn lemma_number_chars(s: Seq<char>)
    requires
        is_json_number(s),
    ensures
        forall|i: int|
            0 <= i < s.len() ==> (is_digit(#[trigger] s[i]) || s[i] == '-' || s[i] == '+' || s[i]
                == '.' || s[i] == 'e' || s[i] == 'E'),
{
    let a: int = if s.len() > 0 && s[0] == '-' { 1 } else { 0 };
    let b = digits_end(s, a);
    let c = if b < s.len() && s[b] == '.' { digits_end(s, b + 1) } else { b };
    let d: int = if c < s.len() && (s[c] == 'e' || s[c] == 'E') {
        if c + 1 < s.len() && (s[c + 1] == '+' || s[c + 1] == '-') { c + 2 } else { c + 1 }
    } else {
        c
    };
    let e = digits_end(s, d);
    lemma_digits_end(s, a);
    lemma_digits_end(s, b + 1);
    lemma_digits_end(s, d);
    assert forall|i: int| 0 <= i < s.len() implies (is_digit(#[trigger] s[i]) || s[i] == '-'
        || s[i] == '+' || s[i] == '.' || s[i] == 'e' || s[i] == 'E') by {
        if i < a {
        } else if i < b {
        } else if i == b && c != b {
        } else if i < c {
        } else if i < d {
        } else {
        }
    }
}

proof fn lemma_digits_end(s: Seq<char>, i: int)
    requires
        0 <= i,
    ensures
        i <= digits_end(s, i),
        i <= s.len() ==> digits_end(s, i) <= s.len(),
        forall|j: int| i <= j < digits_end(s, i) ==> is_digit(#[trigger] s[j]),
        i <= s.len() && digits_end(s, i) < s.len() ==> !is_digit(s[digits_end(s, i)]),
    decreases s.len() - i,
{
    if 0 <= i < s.len() && is_digit(s[i]) {
        lemma_digits_end(s, i + 1);
    }
}

proof fn lemma_number_text_no_controls(v: Option<Seq<char>>)
    ensures
        no_controls(number_text(v)),
{
    if let Some(t) = v {
        if is_json_number(t) {
            assert forall|i: int| 0 <= i < t.len() implies (t[i] as u32) >= 0x20 by {
                lemma_number_no_controls(t, i);
            }
        }
    }
}

proof fn lemma_radix_no_controls(n: nat, base: nat)
    ensures
        no_controls(radix_text(n, base, false)),
    decreases n,
{
    if base < 2 || n < base {
    } else {
        assert(n / base < n) by (nonlinear_arith)
            requires
                base >= 2,
                n >= base,
        ;
        lemma_radix_no_controls(n / base, base);
    }
}

/// Appending one field to an object's open text.
proof fn lemma_fields_push(fields: Seq<(Seq<char>, Seq<char>)>, f: (Seq<char>, Seq<char>))
    ensures
        join_commas(fields.push(f).map_values(|g: (Seq<char>, Seq<char>)| field_text(g)))
            == if fields.len() == 0 {
            field_text(f)
        } else {
            join_commas(fields.map_values(|g: (Seq<char>, Seq<char>)| field_text(g))) + seq![',']
                + field_text(f)
        },
{
    let m = |g: (Seq<char>, Seq<char>)| field_text(g);
    assert(fields.push(f).map_values(m) =~= fields.map_values(m).push(field_text(f)));
    lemma_join_push(fields.map_values(m), field_text(f));
}

proof fn lemma_escape_first(s: Seq<char>)
    requires
        s.len() > 0,
    ensures
        json_escape(s) == escape_char(s[0]) + json_escape(s.drop_first()),
{
    let f = |c: char| escape_char(c);
    assert(s.map_values(f).drop_first() =~= s.drop_first().map_values(f));
}

proof fn lemma_hex_round_trip(d: int)
    requires
        0 <= d < 16,
    ensures
        hex_value(hex_char(d, false)) == Some(d),
{
}

proof fn lemma_unescape_one(c: char, rest: Seq<char>)
    ensures
        json_unescape(escape_char(c) + rest) == match json_unescape(rest) {
            Some(r) => Some(seq![c] + r),
            None => None::<Seq<char>>,
        },
{
    let e = escape_char(c);
    let t = e + rest;
    if e.len() == 2 {
        assert(t.skip(2) =~= rest);
    } else if e.len() == 6 {
        let v = c as u32;
        lemma_hex_round_trip(v as int / 16);
        lemma_hex_round_trip(v as int % 16);
        assert(t.skip(6) =~= rest);
        assert((v as int / 16) * 16 + v as int % 16 == v as int);
    } else {
        assert(t.skip(1) =~= rest);
    }
}

/// Escaping loses nothing: reading an escaped string body back gives the
/// characters it started from, whatever they were — quotes, backslashes, line
/// breaks and every other control character included.
pub proof fn lemma_escape_round_trip(s: Seq<char>)
    ensures
        json_unescape(json_escape(s)) == Some(s),
    decreases s.len(),
{
    if s.len() == 0 {
        assert(json_escape(s) =~= seq![]);
    } else {
        lemma_escape_first(s);
        lemma_escape_round_trip(s.drop_first());
        lemma_unescape_one(s[0], json_escape(s.drop_first()));
        assert(seq![s[0]] + s.drop_first() =~= s);
    }
}

/// A leading `-` moves every digit run by one place.
proof fn lemma_digits_end_sign(t: Seq<char>, i: int)
    requires
        0 <= i,
    ensures
        digits_end(seq!['-'] + t, i + 1) == digits_end(t, i) + 1,
    decreases t.len() - i,
{
    let u = seq!['-'] + t;
    if i < t.len() {
        assert(u[i + 1] == t[i]);
        if is_digit(t[i]) {
            lemma_digits_end_sign(t, i + 1);
        }
    }
}

/// The sign never decides whether a text is a number: an unsigned text is
/// a JSON number exactly when the same text with a `-` in front is one, so
/// a negative value is written as it is, like its positive.
pub proof fn lemma_sign_keeps_a_number(t: Seq<char>)
    requires
        t.len() > 0,
        t[0] != '-',
    ensures
        is_json_number(seq!['-'] + t) == is_json_number(t),
{
    let u = seq!['-'] + t;
    assert(u[0] == '-');
    assert forall|k: int| 0 <= k < t.len() implies u[k + 1] == t[k] by {}
    let b = digits_end(t, 0);
    lemma_digits_end(t, 0);
    lemma_digits_end_sign(t, 0);
    let c = if b < t.len() && t[b] == '.' { digits_end(t, b + 1) } else { b };
    lemma_digits_end(t, b + 1);
    lemma_digits_end_sign(t, b + 1);
    let d: int = if c < t.len() && (t[c] == 'e' || t[c] == 'E') {
        if c + 1 < t.len() && (t[c + 1] == '+' || t[c + 1] == '-') { c + 2 } else { c + 1 }
    } else {
        c
    };
    lemma_digits_end_sign(t, d);
    if b < t.len() {
        assert(u[b + 1] == t[b]);
    }
    if c < t.len() {
        assert(u[c + 1] == t[c]);
    }
    if c + 1 < t.len() {
        assert(u[c + 2] == t[c + 1]);
    }
}

/// The first character of a join is that of its first item.
proof fn lemma_join_first(items: Seq<Seq<char>>)
    requires
        items.len() > 0,
        items[0].len() > 0,
    ensures
        join_commas(items).len() > 0,
        join_commas(items)[0] == items[0][0],
    decreases items.len(),
{
    if items.len() > 1 {
        lemma_join_first(items.drop_last());
    }
}

/// A rendered value is never empty and never ends in a comma.
proof fn lemma_member_value_ends(m: Member)
    ensures
        member_value(m).len() > 0,
        member_value(m).last() != ',',
{
    match m {
        Member::Integer { number: value, .. } => {
            crate::text::lemma_decimal_word(value);
            let t = decimal(value);
            assert(crate::text::digit_value(t[t.len() - 1], 10) is Some);
        },
        Member::Number { rendered: text, .. } => {
            if let Some(t) = text {
                if is_json_number(t) {
                    let a: int = if t.len() > 0 && t[0] == '-' { 1 } else { 0 };
                    lemma_digits_end(t, a);
                    lemma_number_chars(t);
                    let b = digits_end(t, a);
                    let c = if b < t.len() && t[b] == '.' { digits_end(t, b + 1) } else { b };
                    lemma_digits_end(t, b + 1);
                    let d: int = if c < t.len() && (t[c] == 'e' || t[c] == 'E') {
                        if c + 1 < t.len() && (t[c + 1] == '+' || t[c + 1] == '-') { c + 2 } else { c + 1 }
                    } else {
                        c
                    };
                    lemma_digits_end(t, d);
                    assert(t.len() > 0);
                    assert(is_digit(t[t.len() - 1]) || t[t.len() - 1] == '-' || t[t.len() - 1] == '+'
                        || t[t.len() - 1] == '.' || t[t.len() - 1] == 'e' || t[t.len() - 1] == 'E');
                }
            }
        },
        _ => {},
    }
}

/// An object built by any run of builder calls, starting from `new`, has
/// exactly one member per call, in call order, duplicate keys kept, each
/// with the value its builder renders; its text is `{`, those members
/// joined by `,`, and `}` — `{}` when there were no calls — with the first
/// member's key right after the brace and the last value right before the
/// closing brace, so no comma leads or trails.
pub proof fn lemma_object_lists_its_calls(calls: Seq<Member>)
    ensures
        forall|m: Member| #[trigger] members(calls.push(m)) == members(calls).push(member_field(m)),
        members(calls).len() == calls.len(),
        forall|i: int|
            0 <= i < calls.len() ==> #[trigger] members(calls)[i] == (
                member_key(calls[i]),
                member_value(calls[i]),
            ),
        object_text(members(calls)) == seq!['{'] + join_commas(
            calls.map_values(|m: Member| field_text(member_field(m))),
        ) + seq!['}'],
        calls.len() == 0 ==> object_text(members(calls)) == seq!['{', '}'],
        calls.len() > 0 ==> object_text(members(calls))[1] == '"',
        calls.len() > 0 ==> ({
            let t = object_text(members(calls));
            &&& t[t.len() - 2] == member_value(calls.last()).last()
            &&& t[t.len() - 2] != ','
        }),
{
    let f = |m: Member| member_field(m);
    let g = |x: (Seq<char>, Seq<char>)| field_text(x);
    let h = |m: Member| field_text(member_field(m));
    assert forall|m: Member| #[trigger] members(calls.push(m)) == members(calls).push(
        member_field(m),
    ) by {
        assert(calls.push(m).map_values(f) =~= calls.map_values(f).push(f(m)));
    }
    let items = members(calls).map_values(g);
    assert(items =~= calls.map_values(h));
    if calls.len() == 0 {
        assert(object_text(members(calls)) =~= seq!['{', '}']);
    } else {
        let first = items[0];
        assert(first == field_text(member_field(calls[0])));
        assert(first[0] == '"');
        lemma_join_first(items);
        let last = member_value(calls.last());
        lemma_member_value_ends(calls.last());
        let lf = field_text(member_field(calls.last()));
        assert(items.last() == lf);
        assert(lf.last() == last.last());
        let j = join_commas(items);
        if items.len() > 1 {
            assert(j == join_commas(items.drop_last()) + seq![','] + items.last());
        }
        assert(j.last() == last.last());
        let t = object_text(members(calls));
        assert(t == seq!['{'] + j + seq!['}']);
        assert(t[t.len() - 2] == j.last());
        assert(t[1] == j[0]);
    }
}

// ------------------------------------------------------------------- exec --

/// Appends `s` escaped per RFC 8259.
pub fn escape_into(s: &str, out: &mut String)
    ensures
        final(out)@ == old(out)@ + json_escape(s@),
{
    let ghost start = out@;
    let ghost f = |c: char| escape_char(c);
    for c in it: s.chars()
        invariant
            f == (|c: char| escape_char(c)),
            out@ == start + it.seq().take(it.index() as int).flat_map(f),
    {
        let ghost i = it.index() as int;
        proof {
            it.seq().lemma_flat_map_take_append(f, i);
        }
        if c == '"' {
            push_str(out, "\\\"");
            proof { reveal_strlit("\\\""); }
        } else if c == '\\' {
            push_str(out, "\\\\");
            proof { reveal_strlit("\\\\"); }
        } else if c == '\n' {
            push_str(out, "\\n");
            proof { reveal_strlit("\\n"); }
        } else if c == '\r' {
            push_str(out, "\\r");
            proof { reveal_strlit("\\r"); }
        } else if c == '\t' {
            push_str(out, "\\t");
            proof { reveal_strlit("\\t"); }
        } else if c == '\u{08}' {
            push_str(out, "\\b");
            proof { reveal_strlit("\\b"); }
        } else if c == '\u{0c}' {
            push_str(out, "\\f");
            proof { reveal_strlit("\\f"); }
        } else if (c as u32) < 0x20 {
            let v = c as u32;
            push_str(out, "\\u00");
            proof { reveal_strlit("\\u00"); }
            push_char(out, digit_of((v / 16) as u64, false));
            push_char(out, digit_of((v % 16) as u64, false));
        } else {
            push_char(out, c);
        }
        assert(out@ =~= start + it.seq().take(i + 1).flat_map(f));
    }
}

fn digits_end_exec(cs: &Vec<char>, i: usize) -> (e: usize)
    requires
        i <= cs@.len(),
    ensures
        e == digits_end(cs@, i as int),
        i <= e <= cs@.len(),
    decreases cs@.len() - i,
{
    if i < cs.len() && is_digit_exec(cs[i]) {
        digits_end_exec(cs, i + 1)
    } else {
        i
    }
}

/// Whether `t` is a JSON number.
pub fn is_number(t: &str) -> (b: bool)
    ensures
        b == is_json_number(t@),
{
    let cs = chars_of(t);
    let n = cs.len();
    let a: usize = if n > 0 && cs[0] == '-' { 1 } else { 0 };
    let b = digits_end_exec(&cs, a);
    let c = if b < n && cs[b] == '.' { digits_end_exec(&cs, b + 1) } else { b };
    let d: usize = if c < n && (cs[c] == 'e' || cs[c] == 'E') {
        if c + 1 < n && (cs[c + 1] == '+' || cs[c + 1] == '-') { c + 2 } else { c + 1 }
    } else {
        c
    };
    let e = digits_end_exec(&cs, d);
    b > a && (cs[a] != '0' || b == a + 1) && (c == b || c > b + 1) && (d == c || e > d) && e == n
}

/// A JSON object under construction. Field order is insertion order, which
/// keeps the output diffable between runs.
pub struct Obj {
    buf: String,
    nonempty: bool,
    fields: Ghost<Seq<(Seq<char>, Seq<char>)>>,
}

impl View for Obj {
    type V = Seq<(Seq<char>, Seq<char>)>;

    /// The fields so far, in insertion order: each key and the exact text of
    /// its value.
    closed spec fn view(&self) -> Seq<(Seq<char>, Seq<char>)> {
        self.fields@
    }
}

/// The text an object has before its closing brace.
spec fn open_text(fields: Seq<(Seq<char>, Seq<char>)>) -> Seq<char> {
    seq!['{'] + join_commas(fields.map_values(|f: (Seq<char>, Seq<char>)| field_text(f)))
}

/// The open text with the separator and `"key":` of one more field.
spec fn keyed_text(fields: Seq<(Seq<char>, Seq<char>)>, k: Seq<char>) -> Seq<char> {
    open_text(fields) + (if fields.len() > 0 { seq![','] } else { seq![] }) + string_text(k)
        + seq![':']
}

impl Obj {
    #[verifier::type_invariant]
    spec fn inv(self) -> bool {
        &&& self.buf@ == open_text(self.fields@)
        &&& self.nonempty == (self.fields@.len() > 0)
        &&& forall|i: int|
            0 <= i < self.fields@.len() ==> no_controls(#[trigger] self.fields@[i].1)
    }

    pub fn new() -> (o: Self)
        ensures
            o@ == Seq::<(Seq<char>, Seq<char>)>::empty(),
    {
        let mut buf = String::new();
        push_char(&mut buf, '{');
        let ghost fields = Seq::<(Seq<char>, Seq<char>)>::empty();
        assert(buf@ =~= open_text(fields));
        Obj { buf, nonempty: false, fields: Ghost(fields) }
    }

    /// Takes the object apart and writes the separator and `"k":`.
    fn open_field(self, k: &str) -> (r: (String, Ghost<Seq<(Seq<char>, Seq<char>)>>))
        ensures
            r.1@ == self@,
            r.0@ == keyed_text(self@, k@),
            forall|i: int| 0 <= i < self@.len() ==> no_controls(#[trigger] self@[i].1),
    {
        proof {
            use_type_invariant(&self);
        }
        let Obj { buf, nonempty, fields } = self;
        let mut buf = buf;
        if nonempty {
            push_char(&mut buf, ',');
        }
        push_char(&mut buf, '"');
        escape_into(k, &mut buf);
        push_char(&mut buf, '"');
        push_char(&mut buf, ':');
        assert(buf@ =~= keyed_text(fields@, k@));
        (buf, fields)
    }

    /// Puts the object back together once the value text `v` is written.
    fn close_field(
        buf: String,
        fields: Ghost<Seq<(Seq<char>, Seq<char>)>>,
        k: Ghost<Seq<char>>,
        v: Ghost<Seq<char>>,
    ) -> (o: Self)
        requires
            buf@ == keyed_text(fields@, k@) + v@,
            no_controls(v@),
            forall|i: int| 0 <= i < fields@.len() ==> no_controls(#[trigger] fields@[i].1),
        ensures
            o@ == fields@.push((k@, v@)),
    {
        let ghost nf = fields@.push((k@, v@));
        proof {
            lemma_fields_push(fields@, (k@, v@));
            assert(buf@ =~= open_text(nf));
            assert forall|i: int| 0 <= i < nf.len() implies no_controls(#[trigger] nf[i].1) by {
                if i < fields@.len() {
                    assert(nf[i] == fields@[i]);
                }
            }
        }
        Obj { buf, nonempty: true, fields: Ghost(nf) }
    }

    pub fn str(self, k: &str, v: &str) -> (o: Self)
        ensures
            o@ == self@.push(member_field(Member::Str { key: k@, text: v@ })),
    {
        let (mut buf, fields) = self.open_field(k);
        push_char(&mut buf, '"');
        escape_into(v, &mut buf);
        push_char(&mut buf, '"');
        proof {
            lemma_string_text_no_controls(v@);
        }
        assert(buf@ =~= keyed_text(fields@, k@) + string_text(v@));
        Obj::close_field(buf, fields, Ghost(k@), Ghost(string_text(v@)))
    }

    pub fn bool(self, k: &str, v: bool) -> (o: Self)
        ensures
            o@ == self@.push(member_field(Member::Bool { key: k@, flag: v })),
    {
        let (mut buf, fields) = self.open_field(k);
        if v {
            push_str(&mut buf, "true");
            proof {
                reveal_strlit("true");
            }
        } else {
            push_str(&mut buf, "false");
            proof {
                reveal_strlit("false");
            }
        }
        assert(buf@ =~= keyed_text(fields@, k@) + bool_text(v));
        Obj::close_field(buf, fields, Ghost(k@), Ghost(bool_text(v)))
    }

    /// An explicit absence. Emitting the key as `null` says "asked, and there
    /// is none", which a missing key does not.
    pub fn null(self, k: &str) -> (o: Self)
        ensures
            o@ == self@.push(member_field(Member::Null { key: k@ })),
    {
        let (mut buf, fields) = self.open_field(k);
        push_str(&mut buf, "null");
        proof {
            reveal_strlit("null");
        }
        assert(buf@ =~= keyed_text(fields@, k@) + null_text());
        Obj::close_field(buf, fields, Ghost(k@), Ghost(null_text()))
    }

    /// `Some(n)` or an explicit `null`.
    pub fn opt_usize(self, k: &str, v: Option<usize>) -> (o: Self)
        ensures
            o@ == self@.push(
                member_field(
                    match v {
                        Some(n) => Member::Integer { key: k@, number: n as nat },
                        None => Member::Null { key: k@ },
                    },
                ),
            ),
    {
        match v {
            Some(n) => self.usize(k, n),
            None => self.null(k),
        }
    }

    pub fn integer(self, k: &str, v: u64) -> (o: Self)
        ensures
            o@ == self@.push(member_field(Member::Integer { key: k@, number: v as nat })),
    {
        let (mut buf, fields) = self.open_field(k);
        push_radix(&mut buf, v, 10, false);
        proof {
            lemma_radix_no_controls(v as nat, 10);
        }
        Obj::close_field(buf, fields, Ghost(k@), Ghost(decimal(v as nat)))
    }

    pub fn usize(self, k: &str, v: usize) -> (o: Self)
        ensures
            o@ == self@.push(member_field(Member::Integer { key: k@, number: v as nat })),
    {
        self.integer(k, v as u64)
    }

    /// A number given as text — a float already rendered at its fixed
    /// precision — or `null` when that text is not a JSON number, which is
    /// what `NaN` and the infinities render as.
    pub fn num_text(self, k: &str, v: Option<&str>) -> (o: Self)
        ensures
            o@ == self@.push(
                member_field(
                    Member::Number {
                        key: k@,
                        rendered: match v {
                            Some(t) => Some(t@),
                            None => None,
                        },
                    },
                ),
            ),
    {
        let ghost gv: Option<Seq<char>> = match v {
            Some(t) => Some(t@),
            None => None,
        };
        let (mut buf, fields) = self.open_field(k);
        push_number(&mut buf, v);
        proof {
            lemma_number_text_no_controls(gv);
        }
        Obj::close_field(buf, fields, Ghost(k@), Ghost(number_text(gv)))
    }

    /// An array of numbers given as text, same rules as [`Obj::num_text`].
    pub fn nums_text(self, k: &str, vs: &[Option<String>]) -> (o: Self)
        ensures
            o@ == self@.push(
                member_field(
                    Member::Numbers { key: k@, texts: vs@.map_values(|v: Option<String>| opt_view(v)) },
                ),
            ),
    {
        let (mut buf, fields) = self.open_field(k);
        let ghost start = buf@;
        push_numbers(&mut buf, vs);
        proof {
            lemma_numbers_no_controls(vs@.map_values(|v: Option<String>| opt_view(v)));
        }
        Obj::close_field(
            buf,
            fields,
            Ghost(k@),
            Ghost(numbers_text(vs@.map_values(|v: Option<String>| opt_view(v)))),
        )
    }

    /// A rectangular grid of numbers as an array of arrays, each cell text or
    /// absent. A sweep cell that has not been computed and a cell that
    /// computed zero are different results and must not print the same.
    pub fn grid_text(self, k: &str, rows: &[Vec<Option<String>>]) -> (o: Self)
        ensures
            o@ == self@.push(
                member_field(
                    Member::Grid { key: k@, rows: rows@.map_values(|r: Vec<Option<String>>| rows_view(r)) },
                ),
            ),
    {
        let ghost g = rows@.map_values(|r: Vec<Option<String>>| rows_view(r));
        let (mut buf, fields) = self.open_field(k);
        let ghost start = buf@;
        push_char(&mut buf, '[');
        let ghost f = |r: Seq<Option<Seq<char>>>| numbers_text(r);
        let mut i: usize = 0;
        while i < rows.len()
            invariant
                0 <= i <= rows@.len(),
                g == rows@.map_values(|r: Vec<Option<String>>| rows_view(r)),
                f == (|r: Seq<Option<Seq<char>>>| numbers_text(r)),
                buf@ == start + seq!['['] + join_commas(g.take(i as int).map_values(f)),
            decreases rows@.len() - i,
        {
            let ghost before = buf@;
            if i > 0 {
                push_char(&mut buf, ',');
            }
            let ghost mid = buf@;
            push_numbers(&mut buf, rows[i].as_slice());
            proof {
                assert(rows[i as int]@.map_values(|v: Option<String>| opt_view(v)) == g[i as int]);
                assert(g.take(i + 1).map_values(f) =~= g.take(i as int).map_values(f).push(
                    f(g[i as int]),
                ));
                lemma_join_push(g.take(i as int).map_values(f), f(g[i as int]));
            }
            i = i + 1;
        }
        push_char(&mut buf, ']');
        proof {
            assert(g.take(rows@.len() as int) =~= g);
            lemma_grid_no_controls(g);
        }
        assert(buf@ =~= keyed_text(fields@, k@) + grid_value(g));
        Obj::close_field(buf, fields, Ghost(k@), Ghost(grid_value(g)))
    }

    pub fn strs(self, k: &str, vs: &[&str]) -> (o: Self)
        ensures
            o@ == self@.push(
                member_field(Member::Strs { key: k@, items: vs@.map_values(|s: &str| s@) }),
            ),
    {
        let ghost ss = vs@.map_values(|s: &str| s@);
        let ghost f = |s: Seq<char>| string_text(s);
        let (mut buf, fields) = self.open_field(k);
        let ghost start = buf@;
        push_char(&mut buf, '[');
        let mut i: usize = 0;
        while i < vs.len()
            invariant
                0 <= i <= vs@.len(),
                ss == vs@.map_values(|s: &str| s@),
                f == (|s: Seq<char>| string_text(s)),
                buf@ == start + seq!['['] + join_commas(ss.take(i as int).map_values(f)),
            decreases vs@.len() - i,
        {
            if i > 0 {
                push_char(&mut buf, ',');
            }
            push_char(&mut buf, '"');
            escape_into(vs[i], &mut buf);
            push_char(&mut buf, '"');
            proof {
                assert(ss.take(i + 1).map_values(f) =~= ss.take(i as int).map_values(f).push(
                    f(ss[i as int]),
                ));
                lemma_join_push(ss.take(i as int).map_values(f), f(ss[i as int]));
            }
            i = i + 1;
        }
        push_char(&mut buf, ']');
        proof {
            assert(ss.take(vs@.len() as int) =~= ss);
            lemma_strings_no_controls(ss);
        }
        assert(buf@ =~= keyed_text(fields@, k@) + strings_text(ss));
        Obj::close_field(buf, fields, Ghost(k@), Ghost(strings_text(ss)))
    }

    /// Nest an already-built object under `k`.
    pub fn obj(self, k: &str, v: Obj) -> (o: Self)
        ensures
            o@ == self@.push(member_field(Member::Object { key: k@, fields: v@ })),
    {
        let inner = v.done();
        let (mut buf, fields) = self.open_field(k);
        push_str(&mut buf, inner.as_str());
        Obj::close_field(buf, fields, Ghost(k@), Ghost(object_text(v@)))
    }

    /// The finished object: `{`, the fields joined by `,`, `}` — one line,
    /// since no control character survives escaping.
    pub fn done(self) -> (s: String)
        ensures
            s@ == object_text(self@),
            no_controls(s@),
    {
        proof {
            use_type_invariant(&self);
        }
        let Obj { buf, nonempty, fields } = self;
        let mut buf = buf;
        push_char(&mut buf, '}');
        proof {
            let m = |f: (Seq<char>, Seq<char>)| field_text(f);
            let items = fields@.map_values(m);
            assert forall|i: int| 0 <= i < items.len() implies no_controls(#[trigger] items[i]) by {
                lemma_string_text_no_controls(fields@[i].0);
                assert(no_controls(fields@[i].1));
            }
            lemma_join_no_controls(items);
        }
        assert(buf@ =~= object_text(fields@));
        buf
    }
}

impl Default for Obj {
    fn default() -> (o: Self)
        ensures
            o@ == Seq::<(Seq<char>, Seq<char>)>::empty(),
    {
        Self::new()
    }
}

/// `Option<String>` by its characters.
pub open spec fn opt_view(v: Option<String>) -> Option<Seq<char>> {
    match v {
        Some(t) => Some(t@),
        None => None,
    }
}

pub open spec fn rows_view(r: Vec<Option<String>>) -> Seq<Option<Seq<char>>> {
    r@.map_values(|v: Option<String>| opt_view(v))
}

pub open spec fn strings_text(ss: Seq<Seq<char>>) -> Seq<char> {
    array_text(ss.map_values(|s: Seq<char>| string_text(s)))
}

pub open spec fn grid_value(g: Seq<Seq<Option<Seq<char>>>>) -> Seq<char> {
    array_text(g.map_values(|r: Seq<Option<Seq<char>>>| numbers_text(r)))
}

proof fn lemma_numbers_no_controls(vs: Seq<Option<Seq<char>>>)
    ensures
        no_controls(numbers_text(vs)),
{
    let items = vs.map_values(|v: Option<Seq<char>>| number_text(v));
    assert forall|i: int| 0 <= i < items.len() implies no_controls(#[trigger] items[i]) by {
        lemma_number_text_no_controls(vs[i]);
    }
    lemma_join_no_controls(items);
}

proof fn lemma_strings_no_controls(ss: Seq<Seq<char>>)
    ensures
        no_controls(strings_text(ss)),
{
    let items = ss.map_values(|s: Seq<char>| string_text(s));
    assert forall|i: int| 0 <= i < items.len() implies no_controls(#[trigger] items[i]) by {
        lemma_string_text_no_controls(ss[i]);
    }
    lemma_join_no_controls(items);
}

proof fn lemma_grid_no_controls(g: Seq<Seq<Option<Seq<char>>>>)
    ensures
        no_controls(grid_value(g)),
{
    let items = g.map_values(|r: Seq<Option<Seq<char>>>| numbers_text(r));
    assert forall|i: int| 0 <= i < items.len() implies no_controls(#[trigger] items[i]) by {
        lemma_numbers_no_controls(g[i]);
    }
    lemma_join_no_controls(items);
}

/// Appends a number's text, or `null`.
fn push_number(out: &mut String, v: Option<&str>)
    ensures
        final(out)@ == old(out)@ + number_text(
            match v {
                Some(t) => Some(t@),
                None => None,
            },
        ),
{
    match v {
        Some(t) => {
            if is_number(t) {
                push_str(out, t);
            } else {
                push_str(out, "null");
                proof {
                    reveal_strlit("null");
                }
            }
        },
        None => {
            push_str(out, "null");
            proof {
                reveal_strlit("null");
            }
        },
    }
}

/// Appends `[a,b,…]`, with anything absent or not a number as `null`.
fn push_numbers(out: &mut String, vs: &[Option<String>])
    ensures
        final(out)@ == old(out)@ + numbers_text(vs@.map_values(|v: Option<String>| opt_view(v))),
{
    let ghost g = vs@.map_values(|v: Option<String>| opt_view(v));
    let ghost f = |v: Option<Seq<char>>| number_text(v);
    let ghost start = out@;
    push_char(out, '[');
    let mut i: usize = 0;
    while i < vs.len()
        invariant
            0 <= i <= vs@.len(),
            g == vs@.map_values(|v: Option<String>| opt_view(v)),
            f == (|v: Option<Seq<char>>| number_text(v)),
            out@ == start + seq!['['] + join_commas(g.take(i as int).map_values(f)),
        decreases vs@.len() - i,
    {
        if i > 0 {
            push_char(out, ',');
        }
        match &vs[i] {
            Some(t) => push_number(out, Some(t.as_str())),
            None => push_number(out, None),
        }
        proof {
            assert(g.take(i + 1).map_values(f) =~= g.take(i as int).map_values(f).push(
                f(g[i as int]),
            ));
            lemma_join_push(g.take(i as int).map_values(f), f(g[i as int]));
        }
        i = i + 1;
    }
    push_char(out, ']');
    proof {
        assert(g.take(vs@.len() as int) =~= g);
    }
}

} // verus!
