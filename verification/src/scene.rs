//! The scene and recording files, at the level of text.
//!
//! Scenes and recordings are small flat JSON objects written one field per
//! line ([`scene_json`], [`recording_json`]) and read back with the field
//! readers here: each finds `"key"`, then the `:` after it, then reads the
//! value that follows. A written file reads back field by field
//! ([`lemma_scene_reads_back`], [`lemma_recording_round_trip`]) whenever no
//! name shows a later key in quotes. Quantities are floating point; a scene
//! holds each as the text it is written as ([`fmt_number`]), and turning a
//! read token back into a float is the caller's. Library file names come from
//! [`slug`], which cannot name anything outside the library directory.

use vstd::prelude::*;

use crate::text::{
    ascii_lower, chars_of, decimal, is_digit, is_ascii_alnum, is_ascii_alnum_exec, is_space, is_space_exec,
    lemma_lex_total, lemma_lex_trans, lex_le, lex_le_exec, push_char, push_str, string_of,
};

verus! {

broadcast use vstd::seq_lib::group_seq_properties;

// ------------------------------------------------------------------ slugs --

/// One character of a slug: ASCII letters and digits kept (lower-cased),
/// everything else a dash.
pub open spec fn slug_char(c: char) -> char {
    if is_ascii_alnum(c) {
        ascii_lower(c)
    } else {
        '-'
    }
}

/// `s` with its leading and trailing dashes removed.
pub open spec fn trim_dashes(s: Seq<char>) -> Seq<char>
    decreases s.len(),
{
    if s.len() > 0 && s[0] == '-' {
        trim_dashes(s.drop_first())
    } else if s.len() > 0 && s.last() == '-' {
        trim_dashes(s.drop_last())
    } else {
        s
    }
}

/// `s` with every run of dashes shortened to one.
pub open spec fn collapse_dashes(s: Seq<char>) -> Seq<char>
    decreases s.len(),
{
    if s.len() == 0 {
        s
    } else if s.last() == '-' && s.len() >= 2 && s[s.len() - 2] == '-' {
        collapse_dashes(s.drop_last())
    } else {
        collapse_dashes(s.drop_last()).push(s.last())
    }
}

/// The slug of a name: mapped, trimmed, collapsed, and `scene` when nothing
/// is left.
pub open spec fn slug_of(name: Seq<char>) -> Seq<char> {
    let s = collapse_dashes(trim_dashes(name.map_values(|c: char| slug_char(c))));
    if s.len() == 0 {
        seq!['s', 'c', 'e', 'n', 'e']
    } else {
        s
    }
}

/// A name that is safe as a file name inside the library: not empty, only
/// `a-z`, `0-9` and `-`, no dash at either end and never two in a row — so
/// no `/`, no `.`, nothing that could climb out of the directory.
pub open spec fn is_safe_slug(s: Seq<char>) -> bool {
    &&& s.len() > 0
    &&& forall|i: int|
        0 <= i < s.len() ==> ('a' <= #[trigger] s[i] <= 'z' || '0' <= s[i] <= '9' || s[i] == '-')
    &&& s[0] != '-'
    &&& s.last() != '-'
    &&& forall|i: int| 0 <= i < s.len() - 1 ==> !(#[trigger] s[i] == '-' && s[i + 1] == '-')
}

fn slug_char_exec(c: char) -> (r: char)
    ensures
        r == slug_char(c),
{
    if is_ascii_alnum_exec(c) {
        if 'A' <= c && c <= 'Z' {
            let lower = ((c as u8) + 32) as char;
            assert(lower == ascii_lower(c)) by {
                assert((c as u8) as u32 == c as u32);
            }
            lower
        } else {
            c
        }
    } else {
        '-'
    }
}

proof fn lemma_trim_sub(s: Seq<char>, a: int, b: int)
    requires
        0 <= a <= b <= s.len(),
    ensures
        a < b && s[a] == '-' ==> trim_dashes(s.subrange(a, b)) == trim_dashes(s.subrange(a + 1, b)),
        a < b && s[a] != '-' && s[b - 1] == '-' ==> trim_dashes(s.subrange(a, b)) == trim_dashes(
            s.subrange(a, b - 1),
        ),
        (a == b || (s[a] != '-' && s[b - 1] != '-')) ==> trim_dashes(s.subrange(a, b))
            == s.subrange(a, b),
{
    if a < b {
        assert(s.subrange(a, b).drop_first() =~= s.subrange(a + 1, b));
        assert(s.subrange(a, b).drop_last() =~= s.subrange(a, b - 1));
    }
}

fn slug_chars(src: &Vec<char>) -> (m: Vec<char>)
    ensures
        m@ == src@.map_values(|c: char| slug_char(c)),
{
    let mut mapped: Vec<char> = Vec::new();
    let mut i: usize = 0;
    while i < src.len()
        invariant
            0 <= i <= src@.len(),
            mapped@ == src@.take(i as int).map_values(|c: char| slug_char(c)),
        decreases src@.len() - i,
    {
        mapped.push(slug_char_exec(src[i]));
        i = i + 1;
        assert(mapped@ =~= src@.take(i as int).map_values(|c: char| slug_char(c)));
    }
    assert(src@.take(src@.len() as int) =~= src@);
    mapped
}

/// The bounds of `m` without its leading and trailing dashes.
fn dash_trim_bounds(m: &Vec<char>) -> (r: (usize, usize))
    ensures
        r.0 <= r.1 <= m@.len(),
        trim_dashes(m@) == m@.subrange(r.0 as int, r.1 as int),
{
    let n = m.len();
    let mut a: usize = 0;
    assert(m@.subrange(0, n as int) =~= m@);
    while a < n && m[a] == '-'
        invariant
            0 <= a <= n == m@.len(),
            trim_dashes(m@) == trim_dashes(m@.subrange(a as int, n as int)),
        decreases n - a,
    {
        proof {
            lemma_trim_sub(m@, a as int, n as int);
        }
        a = a + 1;
    }
    let mut b: usize = n;
    while b > a && m[b - 1] == '-'
        invariant
            0 <= a <= b <= n == m@.len(),
            a < b ==> m@[a as int] != '-',
            trim_dashes(m@) == trim_dashes(m@.subrange(a as int, b as int)),
        decreases b - a,
    {
        proof {
            lemma_trim_sub(m@, a as int, b as int);
        }
        b = b - 1;
    }
    proof {
        lemma_trim_sub(m@, a as int, b as int);
    }
    (a, b)
}

/// `m[a..b]` with runs of dashes shortened to one.
fn collapse_range(m: &Vec<char>, a: usize, b: usize) -> (out: String)
    requires
        a <= b <= m@.len(),
    ensures
        out@ == collapse_dashes(m@.subrange(a as int, b as int)),
{
    let ghost t = m@.subrange(a as int, b as int);
    let mut out = String::new();
    let mut prev_dash = false;
    let mut j: usize = a;
    while j < b
        invariant
            0 <= a <= j <= b <= m@.len(),
            t == m@.subrange(a as int, b as int),
            out@ == collapse_dashes(t.take(j - a)),
            prev_dash == (j > a && m@[j - 1] == '-'),
        decreases b - j,
    {
        let c = m[j];
        proof {
            let p = t.take(j - a + 1);
            assert(p.drop_last() =~= t.take(j - a));
            assert(p.last() == c);
            if j > a {
                assert(p[p.len() - 2] == m@[j - 1]);
            }
        }
        if c == '-' {
            if !prev_dash {
                push_char(&mut out, c);
            }
            prev_dash = true;
        } else {
            push_char(&mut out, c);
            prev_dash = false;
        }
        j = j + 1;
    }
    assert(t.take(b - a) =~= t);
    out
}

/// Filesystem-safe name, so a scene called "rough / 2 m·s" cannot escape the
/// library directory or collide with a sibling.
pub fn slug(name: &str) -> (s: String)
    ensures
        s@ == slug_of(name@),
        is_safe_slug(s@),
{
    let mapped = slug_chars(&chars_of(name));
    let (a, b) = dash_trim_bounds(&mapped);
    let out = collapse_range(&mapped, a, b);
    proof {
        lemma_slug_safe(name@);
    }
    if out.as_str().unicode_len() == 0 {
        let s = String::from_str("scene");
        proof {
            reveal_strlit("scene");
        }
        assert(s@ =~= seq!['s', 'c', 'e', 'n', 'e']);
        s
    } else {
        out
    }
}

// A slug is always safe: the proof.

proof fn lemma_mapped_chars(name: Seq<char>)
    ensures
        slug_alphabet(name.map_values(|c: char| slug_char(c))),
{
    let m = name.map_values(|c: char| slug_char(c));
    assert forall|i: int| 0 <= i < m.len() implies ('a' <= #[trigger] m[i] <= 'z' || '0' <= m[i]
        <= '9' || m[i] == '-') by {
        let c = name[i];
        if 'A' <= c <= 'Z' {
            assert(('a' as u32) == ('A' as u32) + 32);
            assert(('z' as u32) == ('Z' as u32) + 32);
        }
    }
}

spec fn slug_alphabet(s: Seq<char>) -> bool {
    forall|i: int| 0 <= i < s.len() ==> ('a' <= #[trigger] s[i] <= 'z' || '0' <= s[i] <= '9' || s[i] == '-')
}

proof fn lemma_trim_ends(s: Seq<char>)
    requires
        slug_alphabet(s),
    ensures
        slug_alphabet(trim_dashes(s)),
        trim_dashes(s).len() > 0 ==> trim_dashes(s)[0] != '-' && trim_dashes(s).last() != '-',
    decreases s.len(),
{
    if s.len() > 0 && s[0] == '-' {
        lemma_trim_ends(s.drop_first());
    } else if s.len() > 0 && s.last() == '-' {
        lemma_trim_ends(s.drop_last());
    }
}

proof fn lemma_collapse(s: Seq<char>)
    requires
        slug_alphabet(s),
    ensures
        slug_alphabet(collapse_dashes(s)),
        collapse_dashes(s).len() <= s.len(),
        s.len() > 0 ==> collapse_dashes(s).len() > 0 && collapse_dashes(s)[0] == s[0]
            && collapse_dashes(s).last() == s.last(),
        forall|i: int|
            0 <= i < collapse_dashes(s).len() - 1 ==> !(#[trigger] collapse_dashes(s)[i] == '-'
                && collapse_dashes(s)[i + 1] == '-'),
    decreases s.len(),
{
    if s.len() > 0 {
        let p = s.drop_last();
        lemma_collapse(p);
        let c = collapse_dashes(s);
        if s.last() == '-' && s.len() >= 2 && s[s.len() - 2] == '-' {
            assert(p.last() == s.last());
        } else {
            let q = collapse_dashes(p);
            assert(c == q.push(s.last()));
            if p.len() > 0 {
                assert(q.last() == p.last());
            }
            assert forall|i: int| 0 <= i < c.len() - 1 implies !(#[trigger] c[i] == '-' && c[i
                + 1] == '-') by {
                if i < q.len() - 1 {
                    assert(c[i] == q[i] && c[i + 1] == q[i + 1]);
                }
            }
        }
    }
}

/// Whatever the name, its slug is a safe file name inside the library.
pub proof fn lemma_slug_safe(name: Seq<char>)
    ensures
        is_safe_slug(slug_of(name)),
{
    let m = name.map_values(|c: char| slug_char(c));
    lemma_mapped_chars(name);
    assert(slug_alphabet(m));
    lemma_trim_ends(m);
    let t = trim_dashes(m);
    lemma_collapse(t);
    let s = collapse_dashes(t);
    if s.len() == 0 {
        let d = seq!['s', 'c', 'e', 'n', 'e'];
        assert(is_safe_slug(d));
    }
}

// ---------------------------------------------------------- field syntax --

/// One character of a quoted string as the scene writer escapes it: only
/// the backslash and the quote.
pub open spec fn quote_char(c: char) -> Seq<char> {
    if c == '\\' {
        seq!['\\', '\\']
    } else if c == '"' {
        seq!['\\', '"']
    } else {
        seq![c]
    }
}

/// `s` as a quoted string.
pub open spec fn quoted(s: Seq<char>) -> Seq<char> {
    seq!['"'] + s.flat_map(|c: char| quote_char(c)) + seq!['"']
}

/// `s` in double quotes with `\` and `"` escaped.
pub fn quote(s: &str) -> (q: String)
    ensures
        q@ == quoted(s@),
{
    let ghost f = |c: char| quote_char(c);
    let mut q = String::new();
    push_char(&mut q, '"');
    for c in it: s.chars()
        invariant
            f == (|c: char| quote_char(c)),
            q@ == seq!['"'] + it.seq().take(it.index() as int).flat_map(f),
    {
        let ghost i = it.index() as int;
        proof {
            it.seq().lemma_flat_map_take_append(f, i);
        }
        if c == '\\' || c == '"' {
            push_char(&mut q, '\\');
        }
        push_char(&mut q, c);
        assert(q@ =~= seq!['"'] + it.seq().take(i + 1).flat_map(f));
    }
    push_char(&mut q, '"');
    q
}

/// `p` occurs in `t` at position `i`.
pub open spec fn occurs_at(t: Seq<char>, p: Seq<char>, i: int) -> bool {
    0 <= i && i + p.len() <= t.len() && t.subrange(i, i + p.len()) == p
}

/// The first position at or after `i` where `p` occurs in `t`, as
/// `str::find` reports it.
pub open spec fn find_from(t: Seq<char>, p: Seq<char>, i: int) -> Option<int>
    decreases t.len() + 1 - i,
{
    if i < 0 || i + p.len() > t.len() {
        None
    } else if occurs_at(t, p, i) {
        Some(i)
    } else {
        find_from(t, p, i + 1)
    }
}

/// The first position at or after `i` holding `c`.
pub open spec fn find_char_from(t: Seq<char>, c: char, i: int) -> Option<int> {
    find_from(t, seq![c], i)
}

/// The first position at or after `i` that is not white space.
pub open spec fn skip_space(t: Seq<char>, i: int) -> int
    decreases t.len() - i,
{
    if 0 <= i < t.len() && is_space(t[i]) {
        skip_space(t, i + 1)
    } else {
        i
    }
}

/// The pattern a field's key is found by: the key in double quotes.
pub open spec fn key_pattern(key: Seq<char>) -> Seq<char> {
    seq!['"'] + key + seq!['"']
}

/// Where a field's value starts: just past the first `:` after the first
/// `"key"` — or nowhere.
pub open spec fn field_start_of(text: Seq<char>, key: Seq<char>) -> Option<int> {
    match find_from(text, key_pattern(key), 0) {
        Some(k) => match find_char_from(text, ':', k + key.len() + 2) {
            Some(colon) => Some(colon + 1),
            None => None,
        },
        None => None,
    }
}

/// Reads a quoted string body up to its closing quote: `\x` stands for `x`.
/// `None` when the closing quote never comes.
pub open spec fn read_quoted_body(t: Seq<char>) -> Option<Seq<char>>
    decreases t.len(),
{
    if t.len() == 0 {
        None
    } else if t[0] == '\\' {
        if t.len() < 2 {
            None
        } else {
            match read_quoted_body(t.skip(2)) {
                Some(r) => Some(seq![t[1]] + r),
                None => None,
            }
        }
    } else if t[0] == '"' {
        Some(seq![])
    } else {
        match read_quoted_body(t.skip(1)) {
            Some(r) => Some(seq![t[0]] + r),
            None => None,
        }
    }
}

pub open spec fn string_field_of(text: Seq<char>, key: Seq<char>) -> Option<Seq<char>> {
    match field_start_of(text, key) {
        Some(j) => {
            let r = skip_space(text, j);
            if r < text.len() && text[r] == '"' {
                read_quoted_body(text.skip(r + 1))
            } else {
                None
            }
        },
        None => None,
    }
}

pub open spec fn bool_field_of(text: Seq<char>, key: Seq<char>) -> Option<bool> {
    match field_start_of(text, key) {
        Some(j) => {
            let r = skip_space(text, j);
            if r + 4 <= text.len() && text.subrange(r, r + 4) == seq!['t', 'r', 'u', 'e'] {
                Some(true)
            } else if r + 5 <= text.len() && text.subrange(r, r + 5) == seq![
                'f',
                'a',
                'l',
                's',
                'e',
            ] {
                Some(false)
            } else {
                None
            }
        },
        None => None,
    }
}

/// A character a number token may hold.
pub open spec fn is_number_char(c: char) -> bool {
    ('0' <= c <= '9') || c == '-' || c == '+' || c == '.' || c == 'e' || c == 'E'
}

/// The index just past the run of number characters starting at `i`.
pub open spec fn number_end(t: Seq<char>, i: int) -> int
    decreases t.len() - i,
{
    if 0 <= i < t.len() && is_number_char(t[i]) {
        number_end(t, i + 1)
    } else {
        i
    }
}

pub open spec fn number_token_of(text: Seq<char>, key: Seq<char>) -> Option<Seq<char>> {
    match field_start_of(text, key) {
        Some(j) => {
            let r = skip_space(text, j);
            Some(text.subrange(r, number_end(text, r)))
        },
        None => None,
    }
}

pub fn occurs_at_exec(t: &Vec<char>, p: &Vec<char>, i: usize) -> (b: bool)
    requires
        i + p@.len() <= t@.len(),
    ensures
        b == occurs_at(t@, p@, i as int),
{
    let n = t.len();
    let mut j: usize = 0;
    while j < p.len()
        invariant
            0 <= j <= p@.len(),
            i + p@.len() <= t@.len() == n,
            t@.subrange(i as int, i + j) == p@.take(j as int),
        decreases p@.len() - j,
    {
        if t[i + j] != p[j] {
            assert(t@.subrange(i as int, i + p@.len())[j as int] != p@[j as int]);
            return false;
        }
        j = j + 1;
        assert(t@.subrange(i as int, i + j) =~= p@.take(j as int));
    }
    assert(p@.take(p@.len() as int) =~= p@);
    true
}

pub fn find_in(t: &Vec<char>, p: &Vec<char>, from: usize) -> (r: Option<usize>)
    ensures
        match r {
            Some(k) => find_from(t@, p@, from as int) == Some(k as int),
            None => find_from(t@, p@, from as int) is None,
        },
{
    if p.len() > t.len() {
        return None;
    }
    let last = t.len() - p.len();
    let mut i = from;
    while i <= last
        invariant
            from <= i,
            last + p@.len() == t@.len(),
            find_from(t@, p@, from as int) == find_from(t@, p@, i as int),
        decreases last + 1 - i,
    {
        if occurs_at_exec(t, p, i) {
            return Some(i);
        }
        if i == last {
            return None;
        }
        i = i + 1;
    }
    None
}

pub proof fn lemma_find_from_found(t: Seq<char>, p: Seq<char>, i: int)
    requires
        find_from(t, p, i) is Some,
    ensures
        occurs_at(t, p, find_from(t, p, i)->0),
        i <= find_from(t, p, i)->0,
        find_from(t, p, i)->0 + p.len() <= t.len(),
    decreases t.len() + 1 - i,
{
    if i < 0 || i + p.len() > t.len() {
    } else if occurs_at(t, p, i) {
    } else {
        lemma_find_from_found(t, p, i + 1);
    }
}

fn skip_space_exec(t: &Vec<char>, i: usize) -> (r: usize)
    requires
        i <= t@.len(),
    ensures
        r as int == skip_space(t@, i as int),
        i <= r <= t@.len(),
    decreases t@.len() - i,
{
    if i < t.len() && is_space_exec(t[i]) {
        skip_space_exec(t, i + 1)
    } else {
        i
    }
}

/// Where the value of field `key` starts in `cs`, just past its `:`.
fn field_start(cs: &Vec<char>, key: &str) -> (r: Option<usize>)
    ensures
        match r {
            Some(j) => field_start_of(cs@, key@) == Some(j as int) && j <= cs@.len(),
            None => field_start_of(cs@, key@) is None,
        },
{
    let n = cs.len();
    let kc = chars_of(key);
    let mut pat: Vec<char> = Vec::new();
    pat.push('"');
    let mut i: usize = 0;
    while i < kc.len()
        invariant
            0 <= i <= kc@.len(),
            pat@ == seq!['"'] + kc@.take(i as int),
        decreases kc@.len() - i,
    {
        pat.push(kc[i]);
        i = i + 1;
        assert(pat@ =~= seq!['"'] + kc@.take(i as int));
    }
    pat.push('"');
    assert(pat@ =~= key_pattern(key@));
    match find_in(cs, &pat, 0) {
        Some(k) => {
            proof {
                lemma_find_from_found(cs@, pat@, 0);
            }
            let mut colon: Vec<char> = Vec::new();
            colon.push(':');
            assert(colon@ =~= seq![':']);
            let from = k + pat.len();
            match find_in(cs, &colon, from) {
                Some(c) => {
                    proof {
                        lemma_find_from_found(cs@, colon@, from as int);
                    }
                    Some(c + 1)
                },
                None => None,
            }
        },
        None => None,
    }
}

/// The string value of field `key`: the quoted text after its `:`, with
/// `\x` read as `x`. `None` when the field is missing, its value is not a
/// string, or the closing quote never comes.
pub fn string_field(text: &str, key: &str) -> (r: Option<String>)
    ensures
        match r {
            Some(s) => string_field_of(text@, key@) == Some(s@),
            None => string_field_of(text@, key@) is None,
        },
{
    let cs = chars_of(text);
    let j = match field_start(&cs, key) {
        Some(j) => j,
        None => return None,
    };
    let r = skip_space_exec(&cs, j);
    if !(r < cs.len() && cs[r] == '"') {
        return None;
    }
    read_body(&cs, r + 1)
}

/// `prefix` before whatever `r` read, if it read anything.
pub open spec fn prepend(prefix: Seq<char>, r: Option<Seq<char>>) -> Option<Seq<char>> {
    match r {
        Some(x) => Some(prefix + x),
        None => None,
    }
}

/// Reads the quoted body that starts at `start`.
fn read_body(cs: &Vec<char>, start: usize) -> (r: Option<String>)
    requires
        start <= cs@.len(),
    ensures
        match r {
            Some(s) => read_quoted_body(cs@.skip(start as int)) == Some(s@),
            None => read_quoted_body(cs@.skip(start as int)) is None,
        },
{
    let n = cs.len();
    let mut out = String::new();
    let mut i = start;
    assert(prepend(seq![], read_quoted_body(cs@.skip(start as int))) =~= read_quoted_body(
        cs@.skip(start as int),
    )) by {
        match read_quoted_body(cs@.skip(start as int)) {
            Some(x) => assert(Seq::<char>::empty() + x =~= x),
            None => {},
        }
    }
    while i < n
        invariant
            start <= i <= n == cs@.len(),
            read_quoted_body(cs@.skip(start as int)) == prepend(
                out@,
                read_quoted_body(cs@.skip(i as int)),
            ),
        decreases n - i,
    {
        let ghost t = cs@.skip(i as int);
        let c = cs[i];
        assert(t[0] == c);
        if c == '\\' {
            if i + 1 < n {
                let e = cs[i + 1];
                proof {
                    assert(t[1] == e);
                    assert(t.skip(2) =~= cs@.skip(i + 2));
                    match read_quoted_body(cs@.skip(i + 2)) {
                        Some(x) => assert(out@ + (seq![e] + x) =~= out@.push(e) + x),
                        None => {},
                    }
                }
                push_char(&mut out, e);
                i = i + 2;
            } else {
                assert(t.len() == 1);
                return None;
            }
        } else if c == '"' {
            assert(out@ + Seq::<char>::empty() =~= out@);
            return Some(out);
        } else {
            proof {
                assert(t.skip(1) =~= cs@.skip(i + 1));
                match read_quoted_body(cs@.skip(i + 1)) {
                    Some(x) => assert(out@ + (seq![c] + x) =~= out@.push(c) + x),
                    None => {},
                }
            }
            push_char(&mut out, c);
            i = i + 1;
        }
    }
    assert(cs@.skip(i as int) =~= seq![]);
    None
}

/// The boolean value of field `key`: `true` or `false` after its `:`.
pub fn bool_field(text: &str, key: &str) -> (r: Option<bool>)
    ensures
        r == bool_field_of(text@, key@),
{
    let cs = chars_of(text);
    let j = match field_start(&cs, key) {
        Some(j) => j,
        None => return None,
    };
    let r = skip_space_exec(&cs, j);
    let n = cs.len();
    if r < n && n - r >= 4 && cs[r] == 't' && cs[r + 1] == 'r' && cs[r + 2] == 'u' && cs[r + 3]
        == 'e' {
        assert(cs@.subrange(r as int, r + 4) =~= seq!['t', 'r', 'u', 'e']);
        Some(true)
    } else if r < n && n - r >= 5 && cs[r] == 'f' && cs[r + 1] == 'a' && cs[r + 2] == 'l' && cs[r
        + 3] == 's' && cs[r + 4] == 'e' {
        assert(cs@.subrange(r as int, r + 5) =~= seq!['f', 'a', 'l', 's', 'e']);
        proof {
            if r + 4 <= n && cs@.subrange(r as int, r + 4) == seq!['t', 'r', 'u', 'e'] {
                assert(cs@.subrange(r as int, r + 4)[0] == cs@[r as int]);
            }
        }
        Some(false)
    } else {
        proof {
            if r + 4 <= n && cs@.subrange(r as int, r + 4) == seq!['t', 'r', 'u', 'e'] {
                let w = cs@.subrange(r as int, r + 4);
                assert(w[0] == cs@[r as int] && w[1] == cs@[r + 1] && w[2] == cs@[r + 2] && w[3]
                    == cs@[r + 3]);
            }
            if r + 5 <= n && cs@.subrange(r as int, r + 5) == seq!['f', 'a', 'l', 's', 'e'] {
                let w = cs@.subrange(r as int, r + 5);
                assert(w[0] == cs@[r as int] && w[1] == cs@[r + 1] && w[2] == cs@[r + 2] && w[3]
                    == cs@[r + 3] && w[4] == cs@[r + 4]);
            }
        }
        None
    }
}

fn number_end_exec(t: &Vec<char>, i: usize) -> (e: usize)
    requires
        i <= t@.len(),
    ensures
        e == number_end(t@, i as int),
        i <= e <= t@.len(),
    decreases t@.len() - i,
{
    if i < t.len() && ((t[i] >= '0' && t[i] <= '9') || t[i] == '-' || t[i] == '+' || t[i] == '.'
        || t[i] == 'e' || t[i] == 'E') {
        number_end_exec(t, i + 1)
    } else {
        i
    }
}

/// The raw number token of field `key`: the run of digits, signs, points
/// and exponent marks after its `:`. What it is worth as a number is for the
/// caller to read.
pub fn number_token(text: &str, key: &str) -> (r: Option<String>)
    ensures
        match r {
            Some(s) => number_token_of(text@, key@) == Some(s@),
            None => number_token_of(text@, key@) is None,
        },
{
    let cs = chars_of(text);
    let j = match field_start(&cs, key) {
        Some(j) => j,
        None => return None,
    };
    let r = skip_space_exec(&cs, j);
    let e = number_end_exec(&cs, r);
    Some(string_of(&cs, r, e))
}

// ----------------------------------------------------------- round trips --

proof fn lemma_read_quoted(v: Seq<char>, tail: Seq<char>)
    ensures
        read_quoted_body(v.flat_map(|c: char| quote_char(c)) + seq!['"'] + tail) == Some(v),
    decreases v.len(),
{
    let f = |c: char| quote_char(c);
    let t = v.flat_map(f) + seq!['"'] + tail;
    if v.len() == 0 {
        assert(v.flat_map(f) =~= seq![]);
        assert(t[0] == '"');
    } else {
        let rest = v.drop_first().flat_map(f) + seq!['"'] + tail;
        assert(v.map_values(f).drop_first() =~= v.drop_first().map_values(f));
        assert(v.flat_map(f) == f(v[0]) + v.drop_first().flat_map(f));
        lemma_read_quoted(v.drop_first(), tail);
        let e = quote_char(v[0]);
        assert(t =~= e + rest);
        if e.len() == 2 {
            assert(t.skip(2) =~= rest);
        } else {
            assert(t.skip(1) =~= rest);
        }
        assert(seq![v[0]] + v.drop_first() =~= v);
    }
}

proof fn lemma_value_start(text: Seq<char>, key: Seq<char>, p: int)
    requires
        find_from(text, key_pattern(key), 0) == Some(p),
        0 <= p,
        p + key.len() + 4 <= text.len(),
        text[p + key.len() + 2] == ':',
        text[p + key.len() + 3] == ' ',
        p + key.len() + 4 < text.len() ==> !is_space(text[p + key.len() + 4]),
    ensures
        field_start_of(text, key) == Some(p + key.len() + 3),
        skip_space(text, p + key.len() + 3) == p + key.len() + 4,
{
    let colon = p + key.len() + 2;
    assert(text.subrange(colon, colon + 1) =~= seq![':']);
    assert(occurs_at(text, seq![':'], colon));
    assert(find_char_from(text, ':', colon) == Some(colon));
    assert(skip_space(text, colon + 2) == colon + 2);
    assert(is_space(text[colon + 1]));
}

/// A string field reads back exactly what was written: a field written as
/// `"key": ` followed by the quoted value reads as that value, whatever it
/// holds — quotes and backslashes included — provided this is where `"key"`
/// first appears in the text.
pub proof fn lemma_string_field_reads_quote(
    prefix: Seq<char>,
    key: Seq<char>,
    v: Seq<char>,
    tail: Seq<char>,
)
    requires
        find_from(
            prefix + key_pattern(key) + seq![':', ' '] + quoted(v) + tail,
            key_pattern(key),
            0,
        ) == Some(prefix.len() as int),
    ensures
        string_field_of(prefix + key_pattern(key) + seq![':', ' '] + quoted(v) + tail, key)
            == Some(v),
{
    let text = prefix + key_pattern(key) + seq![':', ' '] + quoted(v) + tail;
    let p = prefix.len() as int;
    let body = v.flat_map(|c: char| quote_char(c)) + seq!['"'] + tail;
    assert(text[p + key.len() + 2] == ':');
    assert(text[p + key.len() + 3] == ' ');
    assert(text[p + key.len() + 4] == '"');
    lemma_value_start(text, key, p);
    assert(text.skip(p + key.len() + 5) =~= body);
    lemma_read_quoted(v, tail);
}

/// A boolean field reads back what was written: `"key": true` or
/// `"key": false`, where `"key"` first appears.
pub proof fn lemma_bool_field_reads_back(prefix: Seq<char>, key: Seq<char>, b: bool, tail: Seq<char>)
    requires
        find_from(
            prefix + key_pattern(key) + seq![':', ' '] + (if b {
                seq!['t', 'r', 'u', 'e']
            } else {
                seq!['f', 'a', 'l', 's', 'e']
            }) + tail,
            key_pattern(key),
            0,
        ) == Some(prefix.len() as int),
    ensures
        bool_field_of(
            prefix + key_pattern(key) + seq![':', ' '] + (if b {
                seq!['t', 'r', 'u', 'e']
            } else {
                seq!['f', 'a', 'l', 's', 'e']
            }) + tail,
            key,
        ) == Some(b),
{
    let w: Seq<char> = if b {
        seq!['t', 'r', 'u', 'e']
    } else {
        seq!['f', 'a', 'l', 's', 'e']
    };
    let text = prefix + key_pattern(key) + seq![':', ' '] + w + tail;
    let p = prefix.len() as int;
    let r = p + key.len() + 4;
    assert(text[p + key.len() + 2] == ':');
    assert(text[p + key.len() + 3] == ' ');
    assert(text[r] == w[0]);
    lemma_value_start(text, key, p);
    assert(text.subrange(r, r + w.len()) =~= w);
    if !b {
        assert(text.subrange(r, r + 4)[0] == 'f');
    }
}

// ------------------------------------------------------------ file layout --

/// `"key": value`.
pub open spec fn field_line(f: (Seq<char>, Seq<char>)) -> Seq<char> {
    key_pattern(f.0) + seq![':', ' '] + f.1
}

/// The text before field `n` of a file: the opening brace, then each
/// earlier field on a line of its own, indented two spaces, followed by a
/// comma.
pub open spec fn fields_prefix(fs: Seq<(Seq<char>, Seq<char>)>, n: int) -> Seq<char>
    decreases n,
{
    if n <= 0 {
        seq!['{', '\n', ' ', ' ']
    } else {
        fields_prefix(fs, n - 1) + field_line(fs[n - 1]) + seq![',', '\n', ' ', ' ']
    }
}

/// A scene or recording file: a flat object with one `"key": value` per
/// line, indented two spaces, and a line break after the closing brace.
pub open spec fn layout_text(fs: Seq<(Seq<char>, Seq<char>)>) -> Seq<char> {
    fields_prefix(fs, fs.len() - 1) + field_line(fs.last()) + seq!['\n', '}', '\n']
}

pub open spec fn fields_view(fs: Seq<(&str, String)>) -> Seq<(Seq<char>, Seq<char>)> {
    fs.map_values(|f: (&str, String)| (f.0@, f.1@))
}

/// Writes fields in the file layout.
fn layout(fs: &Vec<(&str, String)>) -> (s: String)
    requires
        fs@.len() > 0,
    ensures
        s@ == layout_text(fields_view(fs@)),
{
    let ghost fv = fields_view(fs@);
    let mut s = String::new();
    push_char(&mut s, '{');
    push_char(&mut s, '\n');
    push_char(&mut s, ' ');
    push_char(&mut s, ' ');
    let mut i: usize = 0;
    while i < fs.len()
        invariant
            0 <= i <= fs@.len(),
            fv == fields_view(fs@),
            i == 0 ==> s@ == fields_prefix(fv, 0),
            i > 0 ==> s@ == fields_prefix(fv, i - 1) + field_line(fv[i - 1]),
        decreases fs@.len() - i,
    {
        let ghost before = s@;
        if i > 0 {
            push_char(&mut s, ',');
            push_char(&mut s, '\n');
            push_char(&mut s, ' ');
            push_char(&mut s, ' ');
            assert(s@ =~= fields_prefix(fv, i as int));
        }
        push_char(&mut s, '"');
        push_str(&mut s, fs[i].0);
        push_char(&mut s, '"');
        push_char(&mut s, ':');
        push_char(&mut s, ' ');
        push_str(&mut s, fs[i].1.as_str());
        assert(fv[i as int] == (fs@[i as int].0@, fs@[i as int].1@));
        assert(s@ =~= fields_prefix(fv, i as int) + field_line(fv[i as int]));
        i = i + 1;
    }
    push_char(&mut s, '\n');
    push_char(&mut s, '}');
    push_char(&mut s, '\n');
    assert(s@ =~= layout_text(fv));
    s
}

/// A key the layout can be searched by: lower-case ASCII letters and `_`.
pub open spec fn is_key(k: Seq<char>) -> bool {
    k.len() > 0 && forall|i: int| 0 <= i < k.len() ==> ('a' <= #[trigger] k[i] <= 'z' || k[i] == '_')
}

/// `p` occurs somewhere in `t`.
pub open spec fn contains(t: Seq<char>, p: Seq<char>) -> bool {
    exists|i: int| occurs_at(t, p, i)
}

/// What the file may hold for its keys to be found where they are written:
/// keys of the searchable kind, no key twice, and no value that shows a
/// later key's quoted name (where the search would stop early).
pub open spec fn layout_readable(fs: Seq<(Seq<char>, Seq<char>)>) -> bool {
    &&& fs.len() > 0
    &&& forall|i: int| 0 <= i < fs.len() ==> is_key(#[trigger] fs[i].0)
    &&& forall|i: int, j: int| 0 <= i < j < fs.len() ==> #[trigger] fs[i].0 != #[trigger] fs[j].0
    &&& forall|i: int, j: int|
        0 <= i < j < fs.len() ==> !contains(#[trigger] fs[i].1, key_pattern(#[trigger] fs[j].0))
}

/// The character after field `m` in the file: a comma, or the line break
/// before the closing brace.
pub open spec fn after_field(fs: Seq<(Seq<char>, Seq<char>)>, m: int) -> char {
    if m + 1 < fs.len() {
        ','
    } else {
        '\n'
    }
}

proof fn lemma_layout_prefix(fs: Seq<(Seq<char>, Seq<char>)>, m: int)
    requires
        0 <= m < fs.len(),
    ensures
        ({
            let n = (fields_prefix(fs, m).len() + field_line(fs[m]).len() + 1) as int;
            &&& n <= layout_text(fs).len()
            &&& layout_text(fs).take(n) == fields_prefix(fs, m) + field_line(fs[m]) + seq![
                after_field(fs, m),
            ]
        }),
    decreases fs.len() - m,
{
    let t = layout_text(fs);
    if m + 1 < fs.len() {
        lemma_layout_prefix(fs, m + 1);
        let big = fields_prefix(fs, m + 1);
        assert(big == fields_prefix(fs, m) + field_line(fs[m]) + seq![',', '\n', ' ', ' ']);
        let n = (fields_prefix(fs, m).len() + field_line(fs[m]).len() + 1) as int;
        assert(t.take((big.len() + field_line(fs[m + 1]).len() + 1) as int).take(n) =~= t.take(n));
        assert(t.take(n) =~= fields_prefix(fs, m) + field_line(fs[m]) + seq![after_field(fs, m)]);
    } else {
        assert(fs.last() == fs[m]);
        let n = (fields_prefix(fs, m).len() + field_line(fs[m]).len() + 1) as int;
        assert(t.take(n) =~= fields_prefix(fs, m) + field_line(fs[m]) + seq![after_field(fs, m)]);
    }
}

/// No occurrence of `p` in `t` starts before `end`.
pub open spec fn absent_before(t: Seq<char>, p: Seq<char>, end: int) -> bool {
    forall|q: int| 0 <= q < end ==> !occurs_at(t, p, q)
}

proof fn lemma_first_occurrence(t: Seq<char>, p: Seq<char>, at: int, i: int)
    requires
        0 <= i <= at,
        absent_before(t, p, at),
        occurs_at(t, p, at),
    ensures
        find_from(t, p, i) == Some(at),
    decreases at - i,
{
    if i < at {
        lemma_first_occurrence(t, p, at, i + 1);
    }
}

/// An occurrence that starts inside a value and would run past it must
/// cover the comma after it, which no key pattern holds.
proof fn lemma_no_occurrence_in_field(
    t: Seq<char>,
    f: (Seq<char>, Seq<char>),
    k: Seq<char>,
    start: int,
    q: int,
)
    requires
        is_key(f.0),
        is_key(k),
        f.0 != k,
        !contains(f.1, key_pattern(k)),
        0 <= start,
        start + field_line(f).len() + 4 <= t.len(),
        t.subrange(start, start + field_line(f).len() + 4) == field_line(f) + seq![
            ',',
            '\n',
            ' ',
            ' ',
        ],
        start <= q < start + field_line(f).len() + 4,
    ensures
        !occurs_at(t, key_pattern(k), q),
{
    let p = key_pattern(k);
    let line = field_line(f);
    let u = line + seq![',', '\n', ' ', ' '];
    let o = q - start;
    let kl = f.0.len() as int;
    assert(line.len() == kl + 4 + f.1.len());
    assert forall|x: int| 0 <= x < u.len() implies t[start + x] == #[trigger] u[x] by {
        assert(t.subrange(start, start + u.len())[x] == t[start + x]);
    }
    assert(t[q] == u[o]);
    if occurs_at(t, p, q) {
        assert forall|x: int| 0 <= x < p.len() implies t[q + x] == #[trigger] p[x] by {
            assert(t.subrange(q, q + p.len())[x] == t[q + x]);
        }
        assert(p[0] == '"');
        assert(t[q] == p[0]);
        assert(k.len() > 0);
        if o == 0 {
            if k.len() == kl {
                assert forall|x: int| 0 <= x < k.len() implies k[x] == f.0[x] by {
                    assert(p[1 + x] == k[x]);
                    assert(u[1 + x] == f.0[x]);
                    assert(t[q + (1 + x)] == p[1 + x]);
                    assert(t[start + (1 + x)] == u[1 + x]);
                }
                assert(k =~= f.0);
            } else if k.len() < kl {
                let kk = k.len() as int;
                assert(t[q + (kk + 1)] == p[kk + 1]);
                assert(p[kk + 1] == '"');
                assert(t[start + (kk + 1)] == u[kk + 1]);
                assert(u[kk + 1] == f.0[kk]);
                assert('a' <= f.0[kk] <= 'z' || f.0[kk] == '_');
            } else {
                assert(t[q + (kl + 1)] == p[kl + 1]);
                assert(p[kl + 1] == k[kl]);
                assert('a' <= k[kl] <= 'z' || k[kl] == '_');
                assert(t[start + (kl + 1)] == u[kl + 1]);
                assert(u[kl + 1] == '"');
            }
        } else if o <= kl {
            assert(u[o] == f.0[o - 1]);
            assert('a' <= f.0[o - 1] <= 'z' || f.0[o - 1] == '_');
        } else if o == kl + 1 {
            assert(t[q + 1] == p[1]);
            assert(p[1] == k[0]);
            assert('a' <= k[0] <= 'z' || k[0] == '_');
            assert(t[start + (kl + 2)] == u[kl + 2]);
            assert(u[kl + 2] == ':');
        } else if o < kl + 4 {
            assert(u[o] == ':' || u[o] == ' ');
        } else if o < line.len() {
            // inside the value
            let ve = start + line.len();
            if q + p.len() <= ve {
                let i = o - kl - 4;
                assert forall|x: int| 0 <= x < p.len() implies f.1[i + x] == p[x] by {
                    assert(t[q + x] == p[x]);
                    assert(t[start + (o + x)] == u[o + x]);
                    assert(u[o + x] == f.1[o + x - kl - 4]);
                }
                assert(f.1.subrange(i, i + p.len()) =~= p);
                assert(occurs_at(f.1, p, i));
            } else {
                let x = ve - q;
                assert(t[start + line.len()] == u[line.len() as int]);
                assert(u[line.len() as int] == ',');
                assert(t[q + x] == p[x]);
                if x == p.len() - 1 {
                    assert(p[x] == '"');
                } else {
                    assert(p[x] == k[x - 1]);
                    assert('a' <= k[x - 1] <= 'z' || k[x - 1] == '_');
                }
            }
        } else {
            assert(u[o] == ',' || u[o] == '\n' || u[o] == ' ');
        }
    }
}

proof fn lemma_layout_start_clear(fs: Seq<(Seq<char>, Seq<char>)>, p: Seq<char>)
    requires
        fs.len() > 0,
        p.len() > 0,
        p[0] == '"',
    ensures
        absent_before(layout_text(fs), p, 4),
{
    let t = layout_text(fs);
    lemma_layout_prefix(fs, 0);
    assert forall|q: int| 0 <= q < 4 implies !occurs_at(t, p, q) by {
        assert(t.take(5)[q] == t[q]);
        if occurs_at(t, p, q) {
            assert(t.subrange(q, q + p.len())[0] == t[q]);
        }
    }
}

proof fn lemma_segment_clear(fs: Seq<(Seq<char>, Seq<char>)>, k: Seq<char>, m: int)
    requires
        0 < m < fs.len(),
        is_key(fs[m - 1].0),
        is_key(k),
        fs[m - 1].0 != k,
        !contains(fs[m - 1].1, key_pattern(k)),
        absent_before(layout_text(fs), key_pattern(k), fields_prefix(fs, m - 1).len() as int),
    ensures
        absent_before(layout_text(fs), key_pattern(k), fields_prefix(fs, m).len() as int),
{
    let t = layout_text(fs);
    let p = key_pattern(k);
    let start = fields_prefix(fs, m - 1).len() as int;
    let f = fs[m - 1];
    lemma_layout_prefix(fs, m);
    let n = (fields_prefix(fs, m).len() + field_line(fs[m]).len() + 1) as int;
    assert(fields_prefix(fs, m) == fields_prefix(fs, m - 1) + field_line(f) + seq![
        ',',
        '\n',
        ' ',
        ' ',
    ]);
    let e = start + field_line(f).len() + 4;
    assert(t.subrange(start, e) =~= t.take(n).subrange(start, e));
    assert(t.subrange(start, e) =~= field_line(f) + seq![',', '\n', ' ', ' ']);
    assert forall|q: int| 0 <= q < fields_prefix(fs, m).len() implies !occurs_at(t, p, q) by {
        if q >= start {
            lemma_no_occurrence_in_field(t, f, k, start, q);
        }
    }
}

proof fn lemma_no_early_key(fs: Seq<(Seq<char>, Seq<char>)>, j: int, m: int)
    requires
        layout_readable(fs),
        0 <= m <= j < fs.len(),
    ensures
        absent_before(layout_text(fs), key_pattern(fs[j].0), fields_prefix(fs, m).len() as int),
    decreases m,
{
    let k = fs[j].0;
    assert(is_key(k));
    if m == 0 {
        lemma_layout_start_clear(fs, key_pattern(k));
    } else {
        lemma_no_early_key(fs, j, m - 1);
        assert(is_key(fs[m - 1].0));
        assert(fs[m - 1].0 != fs[j].0);
        assert(!contains(fs[m - 1].1, key_pattern(fs[j].0)));
        lemma_segment_clear(fs, k, m);
    }
}

/// In a readable file, field `j`'s key is first found where it was written,
/// and the field is followed by a comma or the closing line break.
pub proof fn lemma_layout_field(fs: Seq<(Seq<char>, Seq<char>)>, j: int)
    requires
        layout_readable(fs),
        0 <= j < fs.len(),
    ensures
        ({
            let t = layout_text(fs);
            let pre = fields_prefix(fs, j);
            let tail = t.skip((pre.len() + field_line(fs[j]).len()) as int);
            &&& t == pre + key_pattern(fs[j].0) + seq![':', ' '] + fs[j].1 + tail
            &&& tail.len() > 0
            &&& tail[0] == after_field(fs, j)
            &&& find_from(t, key_pattern(fs[j].0), 0) == Some(pre.len() as int)
        }),
{
    let t = layout_text(fs);
    let pre = fields_prefix(fs, j);
    let line = field_line(fs[j]);
    lemma_layout_prefix(fs, j);
    lemma_no_early_key(fs, j, j);
    let n = (pre.len() + line.len() + 1) as int;
    let tail = t.skip((pre.len() + line.len()) as int);
    let pl = (pre.len() + line.len()) as int;
    assert(t =~= t.take(pl) + tail);
    assert(t.take(n).take(pl) =~= t.take(pl));
    assert(t.take(pl) =~= pre + line);
    assert(tail[0] == t.take(n)[pl]);
    let p = key_pattern(fs[j].0);
    assert(t.subrange(pre.len() as int, (pre.len() + p.len()) as int) =~= p);
    lemma_first_occurrence(t, p, pre.len() as int, 0);
    assert(t =~= pre + key_pattern(fs[j].0) + seq![':', ' '] + fs[j].1 + tail);
}

/// A run of number characters.
pub open spec fn is_number_text(v: Seq<char>) -> bool {
    v.len() > 0 && forall|i: int| 0 <= i < v.len() ==> is_number_char(#[trigger] v[i])
}

proof fn lemma_number_end(t: Seq<char>, r: int, e: int)
    requires
        0 <= r <= e <= t.len(),
        forall|i: int| r <= i < e ==> is_number_char(#[trigger] t[i]),
        e < t.len() ==> !is_number_char(t[e]),
    ensures
        number_end(t, r) == e,
    decreases e - r,
{
    if r < e {
        lemma_number_end(t, r + 1, e);
    }
}

/// A number field reads back what was written: `"key": v`, `v` a run of
/// number characters followed by something that is not one, reads as `v`
/// wherever `"key"` first appears.
pub proof fn lemma_number_token_reads_back(
    prefix: Seq<char>,
    key: Seq<char>,
    v: Seq<char>,
    tail: Seq<char>,
)
    requires
        find_from(prefix + key_pattern(key) + seq![':', ' '] + v + tail, key_pattern(key), 0)
            == Some(prefix.len() as int),
        is_number_text(v),
        tail.len() > 0 ==> !is_number_char(tail[0]),
    ensures
        number_token_of(prefix + key_pattern(key) + seq![':', ' '] + v + tail, key) == Some(v),
{
    let text = prefix + key_pattern(key) + seq![':', ' '] + v + tail;
    let p = prefix.len() as int;
    let r = p + key.len() + 4;
    assert(text[p + key.len() + 2] == ':');
    assert(text[p + key.len() + 3] == ' ');
    assert(text[r] == v[0]);
    assert(is_number_char(v[0]));
    lemma_value_start(text, key, p);
    assert forall|i: int| r <= i < r + v.len() implies is_number_char(#[trigger] text[i]) by {
        assert(text[i] == v[i - r]);
    }
    if r + v.len() < text.len() {
        assert(text[r + v.len()] == tail[0]);
    }
    lemma_number_end(text, r, r + v.len());
    assert(text.subrange(r, r + v.len()) =~= v);
}

/// A value with no double quote in it shows no key pattern.
proof fn lemma_unquoted_value(v: Seq<char>, k: Seq<char>)
    requires
        forall|i: int| 0 <= i < v.len() ==> v[i] != '"',
    ensures
        !contains(v, key_pattern(k)),
{
    if contains(v, key_pattern(k)) {
        let i = choose|i: int| occurs_at(v, key_pattern(k), i);
        assert(v.subrange(i, i + key_pattern(k).len())[0] == v[i]);
    }
}

/// In a readable file, a string field reads back its value.
pub proof fn lemma_layout_string(fs: Seq<(Seq<char>, Seq<char>)>, j: int, v: Seq<char>)
    requires
        layout_readable(fs),
        0 <= j < fs.len(),
        fs[j].1 == quoted(v),
    ensures
        string_field_of(layout_text(fs), fs[j].0) == Some(v),
{
    lemma_layout_field(fs, j);
    let t = layout_text(fs);
    let pre = fields_prefix(fs, j);
    let tail = t.skip((pre.len() + field_line(fs[j]).len()) as int);
    lemma_string_field_reads_quote(pre, fs[j].0, v, tail);
}

/// In a readable file, a number field reads back its text.
pub proof fn lemma_layout_number(fs: Seq<(Seq<char>, Seq<char>)>, j: int)
    requires
        layout_readable(fs),
        0 <= j < fs.len(),
        is_number_text(fs[j].1),
    ensures
        number_token_of(layout_text(fs), fs[j].0) == Some(fs[j].1),
{
    lemma_layout_field(fs, j);
    let t = layout_text(fs);
    let pre = fields_prefix(fs, j);
    let tail = t.skip((pre.len() + field_line(fs[j]).len()) as int);
    lemma_number_token_reads_back(pre, fs[j].0, fs[j].1, tail);
}

/// In a readable file, a boolean field reads back its value.
pub proof fn lemma_layout_bool(fs: Seq<(Seq<char>, Seq<char>)>, j: int, b: bool)
    requires
        layout_readable(fs),
        0 <= j < fs.len(),
        fs[j].1 == bool_word(b),
    ensures
        bool_field_of(layout_text(fs), fs[j].0) == Some(b),
{
    lemma_layout_field(fs, j);
    let t = layout_text(fs);
    let pre = fields_prefix(fs, j);
    let tail = t.skip((pre.len() + field_line(fs[j]).len()) as int);
    lemma_bool_field_reads_back(pre, fs[j].0, b, tail);
}


// ----------------------------------------------------------------- scenes --

/// A scene as its file holds it: the names, the seed, the spawn flag, and
/// each physical quantity as the text it is written as (see [`fmt_number`]).
pub struct SceneText {
    pub name: String,
    /// Terrain family, or empty for flat ground.
    pub terrain: String,
    pub seconds: String,
    pub vx: String,
    pub vy: String,
    pub yaw: String,
    pub seed: u64,
    pub friction: String,
    pub kp_scale: String,
    pub mass_dr: String,
    pub push_vel: String,
    pub spawn_dr: bool,
    pub terrain_amp: String,
    pub terrain_slope_deg: String,
    pub base_height: String,
}

pub open spec fn bool_word(b: bool) -> Seq<char> {
    if b {
        seq!['t', 'r', 'u', 'e']
    } else {
        seq!['f', 'a', 'l', 's', 'e']
    }
}

/// A scene file's keys, in the order they are written.
pub open spec fn scene_keys() -> Seq<Seq<char>> {
    seq![
        "name"@,
        "terrain"@,
        "seconds"@,
        "vx"@,
        "vy"@,
        "yaw"@,
        "seed"@,
        "friction"@,
        "kp_scale"@,
        "mass_dr"@,
        "push_vel"@,
        "spawn_dr"@,
        "terrain_amp"@,
        "terrain_slope_deg"@,
        "base_height"@,
    ]
}

/// The value texts of a scene file, in key order.
pub open spec fn scene_values(s: SceneText) -> Seq<Seq<char>> {
    seq![
        quoted(s.name@),
        quoted(s.terrain@),
        s.seconds@,
        s.vx@,
        s.vy@,
        s.yaw@,
        decimal(s.seed as nat),
        s.friction@,
        s.kp_scale@,
        s.mass_dr@,
        s.push_vel@,
        bool_word(s.spawn_dr),
        s.terrain_amp@,
        s.terrain_slope_deg@,
        s.base_height@,
    ]
}

pub open spec fn scene_fields(s: SceneText) -> Seq<(Seq<char>, Seq<char>)> {
    Seq::new(15, |i: int| (scene_keys()[i], scene_values(s)[i]))
}

/// The text of a scene file.
pub open spec fn scene_text(s: SceneText) -> Seq<char> {
    layout_text(scene_fields(s))
}

/// Writes a scene file.
pub fn scene_json(s: &SceneText) -> (t: String)
    ensures
        t@ == scene_text(*s),
{
    let mut fs: Vec<(&str, String)> = Vec::new();
    fs.push(("name", quote(s.name.as_str())));
    fs.push(("terrain", quote(s.terrain.as_str())));
    fs.push(("seconds", s.seconds.clone()));
    fs.push(("vx", s.vx.clone()));
    fs.push(("vy", s.vy.clone()));
    fs.push(("yaw", s.yaw.clone()));
    fs.push(("seed", crate::text::decimal_string(s.seed)));
    fs.push(("friction", s.friction.clone()));
    fs.push(("kp_scale", s.kp_scale.clone()));
    fs.push(("mass_dr", s.mass_dr.clone()));
    fs.push(("push_vel", s.push_vel.clone()));
    let b = if s.spawn_dr {
        String::from_str("true")
    } else {
        String::from_str("false")
    };
    proof {
        reveal_strlit("true");
        reveal_strlit("false");
    }
    assert(b@ =~= bool_word(s.spawn_dr));
    fs.push(("spawn_dr", b));
    fs.push(("terrain_amp", s.terrain_amp.clone()));
    fs.push(("terrain_slope_deg", s.terrain_slope_deg.clone()));
    fs.push(("base_height", s.base_height.clone()));
    assert(fields_view(fs@) =~= scene_fields(*s));
    layout(&fs)
}

/// The scene keys are searchable and distinct.
proof fn lemma_scene_keys()
    ensures
        forall|i: int| 0 <= i < 15 ==> is_key(#[trigger] scene_keys()[i]),
        forall|i: int, j: int|
            0 <= i < j < 15 ==> #[trigger] scene_keys()[i] != #[trigger] scene_keys()[j],
{
    reveal_strlit("name");
    reveal_strlit("terrain");
    reveal_strlit("seconds");
    reveal_strlit("vx");
    reveal_strlit("vy");
    reveal_strlit("yaw");
    reveal_strlit("seed");
    reveal_strlit("friction");
    reveal_strlit("kp_scale");
    reveal_strlit("mass_dr");
    reveal_strlit("push_vel");
    reveal_strlit("spawn_dr");
    reveal_strlit("terrain_amp");
    reveal_strlit("terrain_slope_deg");
    reveal_strlit("base_height");
    let k = scene_keys();
    assert forall|i: int| 0 <= i < 15 implies is_key(#[trigger] k[i]) by {
        assert forall|x: int| 0 <= x < k[i].len() implies ('a' <= #[trigger] k[i][x] <= 'z'
            || k[i][x] == '_') by {}
    }
    assert forall|i: int, j: int| 0 <= i < j < 15 implies #[trigger] k[i] != #[trigger] k[j] by {
        if k[i] == k[j] {
            assert(k[i].len() == k[j].len());
            assert(k[i][0] == k[j][0]);
            assert(k[i][1] == k[j][1]);
            assert(k[i][k[i].len() - 1] == k[j][k[j].len() - 1]);
        }
    }
}

/// What a scene must hold to read back field by field: every quantity a run
/// of number characters (what a finite float is written as), and neither the
/// name nor the terrain showing a later key in quotes — the reader finds a
/// key at its first quoted appearance, and a name like `x"seed` shows
/// `"seed"` before the seed field does.
pub open spec fn scene_readable(s: SceneText) -> bool {
    &&& is_number_text(s.seconds@)
    &&& is_number_text(s.vx@)
    &&& is_number_text(s.vy@)
    &&& is_number_text(s.yaw@)
    &&& is_number_text(s.friction@)
    &&& is_number_text(s.kp_scale@)
    &&& is_number_text(s.mass_dr@)
    &&& is_number_text(s.push_vel@)
    &&& is_number_text(s.terrain_amp@)
    &&& is_number_text(s.terrain_slope_deg@)
    &&& is_number_text(s.base_height@)
    &&& forall|k: int|
        1 <= k < 15 ==> !contains(quoted(s.name@), key_pattern(#[trigger] scene_keys()[k]))
    &&& forall|k: int|
        2 <= k < 15 ==> !contains(quoted(s.terrain@), key_pattern(#[trigger] scene_keys()[k]))
}

proof fn lemma_number_text_unquoted(v: Seq<char>)
    requires
        is_number_text(v),
    ensures
        forall|i: int| 0 <= i < v.len() ==> v[i] != '"',
{
    assert forall|i: int| 0 <= i < v.len() implies v[i] != '"' by {
        assert(is_number_char(v[i]));
    }
}

proof fn lemma_decimal_number_text(n: nat)
    ensures
        is_number_text(decimal(n)),
{
    crate::text::lemma_decimal_word(n);
    let d = decimal(n);
    assert forall|i: int| 0 <= i < d.len() implies is_number_char(#[trigger] d[i]) by {
        assert(crate::text::digit_value(d[i], 10) is Some);
    }
}

proof fn lemma_scene_layout_readable(s: SceneText)
    requires
        scene_readable(s),
    ensures
        layout_readable(scene_fields(s)),
{
    let fs = scene_fields(s);
    let v = scene_values(s);
    lemma_scene_keys();
    lemma_decimal_number_text(s.seed as nat);
    assert forall|i: int| 2 <= i < 15 implies forall|x: int|
        0 <= x < (#[trigger] v[i]).len() ==> v[i][x] != '"' by {
        if i == 11 {
            assert forall|x: int| 0 <= x < v[i].len() implies v[i][x] != '"' by {}
        } else {
            lemma_number_text_unquoted(v[i]);
        }
    }
    assert forall|i: int| 0 <= i < fs.len() implies is_key(#[trigger] fs[i].0) by {
        assert(fs[i].0 == scene_keys()[i]);
    }
    assert forall|i: int, j: int| 0 <= i < j < fs.len() implies #[trigger] fs[i].0
        != #[trigger] fs[j].0 by {
        assert(fs[i].0 == scene_keys()[i] && fs[j].0 == scene_keys()[j]);
    }
    assert forall|i: int, j: int| 0 <= i < j < fs.len() implies !contains(
        #[trigger] fs[i].1,
        key_pattern(#[trigger] fs[j].0),
    ) by {
        assert(fs[i].1 == v[i] && fs[j].0 == scene_keys()[j]);
        if i >= 2 {
            lemma_unquoted_value(v[i], fs[j].0);
        }
    }
}

/// A scene file reads back field by field: each field's reader returns what
/// the writer put there — the name and terrain exactly (quotes and
/// backslashes included), each quantity's text, the seed's digits and the
/// spawn flag.
pub proof fn lemma_scene_reads_back(s: SceneText)
    requires
        scene_readable(s),
    ensures
        string_field_of(scene_text(s), "name"@) == Some(s.name@),
        string_field_of(scene_text(s), "terrain"@) == Some(s.terrain@),
        number_token_of(scene_text(s), "seconds"@) == Some(s.seconds@),
        number_token_of(scene_text(s), "vx"@) == Some(s.vx@),
        number_token_of(scene_text(s), "vy"@) == Some(s.vy@),
        number_token_of(scene_text(s), "yaw"@) == Some(s.yaw@),
        number_token_of(scene_text(s), "seed"@) == Some(decimal(s.seed as nat)),
        number_token_of(scene_text(s), "friction"@) == Some(s.friction@),
        number_token_of(scene_text(s), "kp_scale"@) == Some(s.kp_scale@),
        number_token_of(scene_text(s), "mass_dr"@) == Some(s.mass_dr@),
        number_token_of(scene_text(s), "push_vel"@) == Some(s.push_vel@),
        bool_field_of(scene_text(s), "spawn_dr"@) == Some(s.spawn_dr),
        number_token_of(scene_text(s), "terrain_amp"@) == Some(s.terrain_amp@),
        number_token_of(scene_text(s), "terrain_slope_deg"@) == Some(s.terrain_slope_deg@),
        number_token_of(scene_text(s), "base_height"@) == Some(s.base_height@),
{
    let fs = scene_fields(s);
    lemma_scene_layout_readable(s);
    lemma_decimal_number_text(s.seed as nat);
    lemma_layout_string(fs, 0, s.name@);
    lemma_layout_string(fs, 1, s.terrain@);
    lemma_layout_number(fs, 2);
    lemma_layout_number(fs, 3);
    lemma_layout_number(fs, 4);
    lemma_layout_number(fs, 5);
    lemma_layout_number(fs, 6);
    lemma_layout_number(fs, 7);
    lemma_layout_number(fs, 8);
    lemma_layout_number(fs, 9);
    lemma_layout_number(fs, 10);
    lemma_layout_bool(fs, 11, s.spawn_dr);
    lemma_layout_number(fs, 12);
    lemma_layout_number(fs, 13);
    lemma_layout_number(fs, 14);
}

// ------------------------------------------------------------- recordings --

/// A recorded rollout as its file holds it: the scene it came from, its
/// counts, the ground it covered as the text it is written as, and where the
/// rollout itself lives.
pub struct RecordingText {
    pub name: String,
    /// Name of the scene that produced it.
    pub scene: String,
    pub frames: usize,
    pub resets: usize,
    /// Ground distance covered, metres.
    pub distance: String,
    /// The rollout file's path.
    pub rollout: String,
}

pub open spec fn recording_keys() -> Seq<Seq<char>> {
    seq!["name"@, "scene"@, "frames"@, "resets"@, "distance"@, "rollout"@]
}

pub open spec fn recording_values(r: RecordingText) -> Seq<Seq<char>> {
    seq![
        quoted(r.name@),
        quoted(r.scene@),
        decimal(r.frames as nat),
        decimal(r.resets as nat),
        r.distance@,
        quoted(r.rollout@),
    ]
}

pub open spec fn recording_fields(r: RecordingText) -> Seq<(Seq<char>, Seq<char>)> {
    Seq::new(6, |i: int| (recording_keys()[i], recording_values(r)[i]))
}

/// The text of a recording file.
pub open spec fn recording_text(r: RecordingText) -> Seq<char> {
    layout_text(recording_fields(r))
}

/// Writes a recording file.
pub fn recording_json(r: &RecordingText) -> (t: String)
    ensures
        t@ == recording_text(*r),
{
    let mut fs: Vec<(&str, String)> = Vec::new();
    fs.push(("name", quote(r.name.as_str())));
    fs.push(("scene", quote(r.scene.as_str())));
    fs.push(("frames", crate::text::decimal_string(r.frames as u64)));
    fs.push(("resets", crate::text::decimal_string(r.resets as u64)));
    fs.push(("distance", r.distance.clone()));
    fs.push(("rollout", quote(r.rollout.as_str())));
    assert(fields_view(fs@) =~= recording_fields(*r));
    layout(&fs)
}

/// A recording file as read: its names and path, and the raw number tokens
/// of its counts and distance (whose worth as numbers is for the caller).
pub struct RecordingRead {
    pub name: String,
    pub scene: String,
    pub frames: Option<String>,
    pub resets: Option<String>,
    pub distance: Option<String>,
    pub rollout: String,
}

pub open spec fn opt_chars(o: Option<String>) -> Option<Seq<char>> {
    match o {
        Some(s) => Some(s@),
        None => None,
    }
}

/// What a recording file reads as: nothing without a name and a rollout
/// path — those are what make it a recording — and otherwise the scene
/// (empty when absent) and the number tokens.
pub open spec fn recording_read_of(t: Seq<char>) -> Option<
    (Seq<char>, Seq<char>, Option<Seq<char>>, Option<Seq<char>>, Option<Seq<char>>, Seq<char>),
> {
    match (string_field_of(t, "name"@), string_field_of(t, "rollout"@)) {
        (Some(name), Some(rollout)) => Some(
            (
                name,
                match string_field_of(t, "scene"@) {
                    Some(sc) => sc,
                    None => seq![],
                },
                number_token_of(t, "frames"@),
                number_token_of(t, "resets"@),
                number_token_of(t, "distance"@),
                rollout,
            ),
        ),
        _ => None,
    }
}

pub open spec fn recording_read_view(r: RecordingRead) -> (
    Seq<char>,
    Seq<char>,
    Option<Seq<char>>,
    Option<Seq<char>>,
    Option<Seq<char>>,
    Seq<char>,
) {
    (r.name@, r.scene@, opt_chars(r.frames), opt_chars(r.resets), opt_chars(r.distance), r.rollout@)
}

/// Reads a recording file.
pub fn read_recording(text: &str) -> (r: Option<RecordingRead>)
    ensures
        match r {
            Some(rec) => recording_read_of(text@) == Some(recording_read_view(rec)),
            None => recording_read_of(text@) is None,
        },
{
    let name = match string_field(text, "name") {
        Some(n) => n,
        None => return None,
    };
    let scene = match string_field(text, "scene") {
        Some(sc) => sc,
        None => String::new(),
    };
    let frames = number_token(text, "frames");
    let resets = number_token(text, "resets");
    let distance = number_token(text, "distance");
    let rollout = match string_field(text, "rollout") {
        Some(p) => p,
        None => return None,
    };
    let rec = RecordingRead { name, scene, frames, resets, distance, rollout };
    assert(opt_chars(rec.frames) == number_token_of(text@, "frames"@));
    assert(opt_chars(rec.resets) == number_token_of(text@, "resets"@));
    assert(opt_chars(rec.distance) == number_token_of(text@, "distance"@));
    Some(rec)
}

proof fn lemma_recording_keys()
    ensures
        forall|i: int| 0 <= i < 6 ==> is_key(#[trigger] recording_keys()[i]),
        forall|i: int, j: int|
            0 <= i < j < 6 ==> #[trigger] recording_keys()[i] != #[trigger] recording_keys()[j],
{
    reveal_strlit("name");
    reveal_strlit("scene");
    reveal_strlit("frames");
    reveal_strlit("resets");
    reveal_strlit("distance");
    reveal_strlit("rollout");
    let k = recording_keys();
    assert forall|i: int| 0 <= i < 6 implies is_key(#[trigger] k[i]) by {
        assert forall|x: int| 0 <= x < k[i].len() implies ('a' <= #[trigger] k[i][x] <= 'z'
            || k[i][x] == '_') by {}
    }
    assert forall|i: int, j: int| 0 <= i < j < 6 implies #[trigger] k[i] != #[trigger] k[j] by {
        if k[i] == k[j] {
            assert(k[i].len() == k[j].len());
            assert(k[i][0] == k[j][0]);
        }
    }
}

/// What a recording must hold to read back: a distance written as a run of
/// number characters, and no name or scene showing a later key in quotes.
pub open spec fn recording_readable(r: RecordingText) -> bool {
    &&& is_number_text(r.distance@)
    &&& forall|k: int|
        1 <= k < 6 ==> !contains(quoted(r.name@), key_pattern(#[trigger] recording_keys()[k]))
    &&& forall|k: int|
        2 <= k < 6 ==> !contains(quoted(r.scene@), key_pattern(#[trigger] recording_keys()[k]))
}

/// A recording file reads back as the recording written: its name, scene
/// and rollout path exactly, and its counts and distance as the tokens
/// written.
pub proof fn lemma_recording_round_trip(r: RecordingText)
    requires
        recording_readable(r),
    ensures
        recording_read_of(recording_text(r)) == Some(
            (
                r.name@,
                r.scene@,
                Some(decimal(r.frames as nat)),
                Some(decimal(r.resets as nat)),
                Some(r.distance@),
                r.rollout@,
            ),
        ),
{
    let fs = recording_fields(r);
    let v = recording_values(r);
    lemma_recording_keys();
    lemma_decimal_number_text(r.frames as nat);
    lemma_decimal_number_text(r.resets as nat);
    assert forall|i: int| 0 <= i < fs.len() implies is_key(#[trigger] fs[i].0) by {
        assert(fs[i].0 == recording_keys()[i]);
    }
    assert forall|i: int, j: int| 0 <= i < j < fs.len() implies #[trigger] fs[i].0
        != #[trigger] fs[j].0 by {
        assert(fs[i].0 == recording_keys()[i] && fs[j].0 == recording_keys()[j]);
    }
    assert forall|i: int, j: int| 0 <= i < j < fs.len() implies !contains(
        #[trigger] fs[i].1,
        key_pattern(#[trigger] fs[j].0),
    ) by {
        assert(fs[i].1 == v[i] && fs[j].0 == recording_keys()[j]);
        if 2 <= i <= 4 {
            lemma_number_text_unquoted(v[i]);
            lemma_unquoted_value(v[i], fs[j].0);
        }
    }
    assert(layout_readable(fs));
    lemma_layout_string(fs, 0, r.name@);
    lemma_layout_string(fs, 1, r.scene@);
    lemma_layout_number(fs, 2);
    lemma_layout_number(fs, 3);
    lemma_layout_number(fs, 4);
    lemma_layout_string(fs, 5, r.rollout@);
}

// ---------------------------------------------------------------- numbers --

/// `s` with every trailing `c` removed.
pub open spec fn trim_end(s: Seq<char>, c: char) -> Seq<char>
    decreases s.len(),
{
    if s.len() > 0 && s.last() == c {
        trim_end(s.drop_last(), c)
    } else {
        s
    }
}

/// How a quantity is written into a scene file, from its rendering at four
/// places: trailing zeros and then a trailing point trimmed, so a round
/// number reads as one; `0` when nothing but a sign is left.
pub open spec fn trimmed_number(s: Seq<char>) -> Seq<char> {
    let t = trim_end(trim_end(s, '0'), '.');
    if t.len() == 0 || t == seq!['-'] {
        seq!['0']
    } else {
        t
    }
}

/// The trailing-zero-free form of a number rendered at fixed precision.
pub fn fmt_number(fixed: &str) -> (r: String)
    ensures
        r@ == trimmed_number(fixed@),
{
    let cs = chars_of(fixed);
    let mut e = cs.len();
    assert(cs@.take(e as int) =~= cs@);
    while e > 0 && cs[e - 1] == '0'
        invariant
            e <= cs@.len(),
            trim_end(cs@, '0') == trim_end(cs@.take(e as int), '0'),
        decreases e,
    {
        assert(cs@.take(e as int).drop_last() =~= cs@.take(e - 1));
        e = e - 1;
    }
    let ghost a = cs@.take(e as int);
    assert(trim_end(cs@, '0') == a);
    let mut f = e;
    assert(a.take(f as int) =~= a);
    while f > 0 && cs[f - 1] == '.'
        invariant
            f <= e <= cs@.len(),
            a == cs@.take(e as int),
            trim_end(a, '.') == trim_end(a.take(f as int), '.'),
        decreases f,
    {
        assert(a.take(f as int).drop_last() =~= a.take(f - 1));
        f = f - 1;
    }
    let t = string_of(&cs, 0, f);
    assert(t@ =~= a.take(f as int));
    assert(trim_end(a, '.') == t@);
    if f == 0 || (f == 1 && cs[0] == '-') {
        if f == 1 {
            assert(t@ =~= seq!['-']);
        }
        let mut z = String::new();
        push_char(&mut z, '0');
        assert(z@ =~= seq!['0']);
        z
    } else {
        proof {
            if t@ == seq!['-'] {
                assert(t@[0] == cs@[0]);
            }
        }
        t
    }
}

/// `trim_end` cuts a run of `c` off the end and nothing else.
proof fn lemma_trim_end(s: Seq<char>, c: char)
    ensures
        trim_end(s, c).len() <= s.len(),
        trim_end(s, c) == s.take(trim_end(s, c).len() as int),
        forall|j: int| trim_end(s, c).len() <= j < s.len() ==> s[j] == c,
        trim_end(s, c).len() > 0 ==> s[trim_end(s, c).len() - 1] != c,
    decreases s.len(),
{
    if s.len() > 0 && s.last() == c {
        lemma_trim_end(s.drop_last(), c);
        let u = s.drop_last();
        let t = trim_end(u, c);
        assert(u.take(t.len() as int) =~= s.take(t.len() as int));
        assert forall|j: int| t.len() <= j < s.len() implies s[j] == c by {
            if j < u.len() {
                assert(s[j] == u[j]);
            }
        }
        if t.len() > 0 {
            assert(s[t.len() - 1] == u[t.len() - 1]);
        }
    } else {
        assert(s.take(s.len() as int) =~= s);
    }
}

/// Whatever the text, trimming a number only cuts from its end a run of
/// points followed by a run of zeros (`0` stands for what is left when that
/// is nothing or a bare sign); nothing else is dropped or changed.
pub proof fn lemma_trimmed_number_cuts_points_then_zeros(s: Seq<char>)
    ensures
        trimmed_number(s) == seq!['0'] || ({
            let r = trimmed_number(s);
            &&& r.len() <= s.len()
            &&& r == s.take(r.len() as int)
            &&& forall|j: int| r.len() <= j < s.len() ==> #[trigger] s[j] == '.' || s[j] == '0'
            &&& forall|i: int, j: int|
                r.len() <= i < j < s.len() && #[trigger] s[i] == '0' ==> #[trigger] s[j] == '0'
        }),
{
    let t1 = trim_end(s, '0');
    lemma_trim_end(s, '0');
    let t2 = trim_end(t1, '.');
    lemma_trim_end(t1, '.');
    assert(t2 =~= s.take(t2.len() as int));
    let m = t1.len() as int;
    assert forall|j: int| t2.len() <= j < m implies #[trigger] s[j] == '.' by {
        assert(t1[j] == s[j]);
    }
}

/// A number rendered at fixed precision — digits, a point, digits — loses
/// only its trailing zeros, and the point when no digit is left after it:
/// every character before the point stays, so the result reads as the same
/// number (`10.0000` as `10`, `2.5000` as `2.5`).
pub proof fn lemma_trimmed_number_keeps_the_whole_part(s: Seq<char>, p: int)
    requires
        0 < p < s.len(),
        s[p] == '.',
        is_digit(s[p - 1]),
        forall|j: int| p < j < s.len() ==> is_digit(s[j]),
    ensures
        ({
            let r = trimmed_number(s);
            &&& p <= r.len() <= s.len()
            &&& r == s.take(r.len() as int)
            &&& forall|j: int| r.len() <= j < s.len() && j != p ==> s[j] == '0'
            &&& r.len() == p || (r.len() > p + 1 && r.last() != '0')
        }),
{
    let t1 = trim_end(s, '0');
    lemma_trim_end(s, '0');
    let q1 = t1.len() as int;
    assert(q1 > p) by {
        if q1 <= p {
            assert(s[p] == '0');
        }
    }
    let t2 = trim_end(t1, '.');
    lemma_trim_end(t1, '.');
    let q2 = t2.len() as int;
    assert(t2 =~= s.take(q2));
    if q1 == p + 1 {
        assert(t1[p] == '.');
        assert(q2 <= p) by {
            if q2 == p + 1 {
                assert(t1[q2 - 1] == '.');
            }
        }
        assert(q2 >= p) by {
            if q2 < p {
                assert(t1[p - 1] == '.');
                assert(t1[p - 1] == s[p - 1]);
            }
        }
    } else {
        assert(s[q1 - 1] != '0');
        assert(is_digit(s[q1 - 1]));
        assert(q2 == q1) by {
            if q2 < q1 {
                assert(t1[q1 - 1] == '.');
            }
        }
    }
    assert(t2.len() > 0);
    assert(t2 != seq!['-']) by {
        if t2.len() == 1 {
            assert(t2[0] == s[0]);
            assert(p == 1);
        }
    }
    assert(trimmed_number(s) == t2);
}

// ------------------------------------------------------------------ knobs --

/// The environment a scene means, as `(variable, value)` pairs in the order
/// they are set. Every physics knob is written explicitly, so a scene fully
/// determines the physics; flat ground turns terrain off rather than leaving
/// it unset; and without pushes the push interval is set far beyond any
/// rollout, because a zero magnitude alone would still schedule them.
/// `pushes` is whether the push velocity is positive.
pub open spec fn knobs_of(s: SceneText, pushes: bool) -> Seq<(Seq<char>, Seq<char>)> {
    seq![
        ("BIPED_FRICTION"@, s.friction@),
        ("BIPED_KP_SCALE"@, s.kp_scale@),
        ("BIPED_MASS_DR"@, s.mass_dr@),
        ("BIPED_SPAWN_DR"@, if s.spawn_dr { seq!['1'] } else { seq!['0'] }),
        ("BIPED_DRIVE_SEED"@, decimal(s.seed as nat)),
        ("BIPED_BASE_HEIGHT"@, s.base_height@),
    ] + (if s.terrain@.len() == 0 {
        seq![("BIPED_TERRAIN"@, seq!['0'])]
    } else {
        seq![
            ("BIPED_TERRAIN"@, seq!['1']),
            ("BIPED_TERRAIN_FAMILY"@, s.terrain@),
            ("BIPED_TERRAIN_AMP"@, s.terrain_amp@),
            ("BIPED_TERRAIN_SLOPE_DEG"@, s.terrain_slope_deg@),
        ]
    }) + (if pushes {
        seq![("BIPED_PUSH_VEL"@, s.push_vel@)]
    } else {
        seq![("BIPED_PUSH_VEL"@, seq!['0']), ("BIPED_PUSH_INTERVAL"@, "1000000"@)]
    })
}

fn one_char(c: char) -> (s: String)
    ensures
        s@ == seq![c],
{
    let mut s = String::new();
    push_char(&mut s, c);
    assert(s@ =~= seq![c]);
    s
}

/// The `BIPED_*` environment a scene means.
pub fn knobs(s: &SceneText, pushes: bool) -> (k: Vec<(&'static str, String)>)
    ensures
        fields_view(k@) == knobs_of(*s, pushes),
{
    let mut k: Vec<(&'static str, String)> = Vec::new();
    k.push(("BIPED_FRICTION", s.friction.clone()));
    k.push(("BIPED_KP_SCALE", s.kp_scale.clone()));
    k.push(("BIPED_MASS_DR", s.mass_dr.clone()));
    k.push(("BIPED_SPAWN_DR", one_char(if s.spawn_dr { '1' } else { '0' })));
    k.push(("BIPED_DRIVE_SEED", crate::text::decimal_string(s.seed)));
    k.push(("BIPED_BASE_HEIGHT", s.base_height.clone()));
    let flat = s.terrain.as_str().unicode_len() == 0;
    if flat {
        k.push(("BIPED_TERRAIN", one_char('0')));
    } else {
        k.push(("BIPED_TERRAIN", one_char('1')));
        k.push(("BIPED_TERRAIN_FAMILY", s.terrain.clone()));
        k.push(("BIPED_TERRAIN_AMP", s.terrain_amp.clone()));
        k.push(("BIPED_TERRAIN_SLOPE_DEG", s.terrain_slope_deg.clone()));
    }
    if pushes {
        k.push(("BIPED_PUSH_VEL", s.push_vel.clone()));
    } else {
        k.push(("BIPED_PUSH_VEL", one_char('0')));
        k.push(("BIPED_PUSH_INTERVAL", String::from_str("1000000")));
    }
    assert(fields_view(k@) =~= knobs_of(*s, pushes));
    k
}

/// The terrain mesh a scene needs, keyed by family, amplitude, slope and
/// seed — a cache keyed by family alone would draw one variant's ground
/// under another's simulation. `amp` and `slope` are the amplitude at two
/// places and the slope at one.
pub open spec fn terrain_mesh_name_of(s: SceneText, amp: Seq<char>, slope: Seq<char>) -> Option<
    Seq<char>,
> {
    if s.terrain@.len() == 0 {
        None
    } else {
        Some(
            "terrain_"@ + s.terrain@ + "_a"@ + amp + "_s"@ + slope + "_"@ + crate::text::radix_text(
                s.seed as nat,
                16,
                false,
            ) + ".stl"@,
        )
    }
}

/// The terrain mesh file a scene needs; `None` on flat ground.
pub fn terrain_mesh_name(s: &SceneText, amp: &str, slope: &str) -> (r: Option<String>)
    ensures
        match r {
            Some(n) => terrain_mesh_name_of(*s, amp@, slope@) == Some(n@),
            None => terrain_mesh_name_of(*s, amp@, slope@) is None,
        },
{
    if s.terrain.as_str().unicode_len() == 0 {
        return None;
    }
    let mut n = String::from_str("terrain_");
    push_str(&mut n, s.terrain.as_str());
    push_str(&mut n, "_a");
    push_str(&mut n, amp);
    push_str(&mut n, "_s");
    push_str(&mut n, slope);
    push_str(&mut n, "_");
    crate::text::push_radix(&mut n, s.seed, 16, false);
    push_str(&mut n, ".stl");
    Some(n)
}

/// The knobs that decide the physics.
pub open spec fn physics_knobs() -> Seq<Seq<char>> {
    seq![
        "BIPED_FRICTION"@,
        "BIPED_KP_SCALE"@,
        "BIPED_MASS_DR"@,
        "BIPED_SPAWN_DR"@,
        "BIPED_DRIVE_SEED"@,
        "BIPED_BASE_HEIGHT"@,
        "BIPED_TERRAIN"@,
        "BIPED_PUSH_VEL"@,
    ]
}

/// `knobs` sets `key`.
pub open spec fn sets_knob(knobs: Seq<(Seq<char>, Seq<char>)>, key: Seq<char>) -> bool {
    exists|i: int| 0 <= i < knobs.len() && knobs[i].0 == key
}

/// A scene sets every physics knob, whatever it holds — two scenes cannot
/// differ only in what they leave to the simulator's defaults — and flat
/// ground turns terrain off explicitly.
pub proof fn lemma_knobs_set_every_knob(s: SceneText, pushes: bool)
    ensures
        forall|j: int| 0 <= j < 8 ==> sets_knob(knobs_of(s, pushes), #[trigger] physics_knobs()[j]),
        s.terrain@.len() == 0 ==> knobs_of(s, pushes)[6] == ("BIPED_TERRAIN"@, seq!['0']),
{
    let k = knobs_of(s, pushes);
    let t: int = if s.terrain@.len() == 0 { 7 } else { 10 };
    let w = seq![0int, 1, 2, 3, 4, 5, 6, t];
    assert forall|j: int| 0 <= j < 8 implies sets_knob(k, #[trigger] physics_knobs()[j]) by {
        assert(k[w[j]].0 == physics_knobs()[j]);
    }
}

/// Each knob carries the scene field it is named after: friction, gains,
/// mass, spawn randomisation, seed, base height, the terrain switch, family,
/// amplitude and slope, and the push velocity (zero without pushes). No
/// knob is set twice, and a scene with a terrain family sets both its
/// amplitude and its slope.
pub proof fn lemma_knobs_carry_their_fields(s: SceneText, pushes: bool)
    ensures
        ({
            let k = knobs_of(s, pushes);
            forall|i: int|
                0 <= i < k.len() ==> {
                    &&& #[trigger] k[i].0 == "BIPED_FRICTION"@ ==> k[i].1 == s.friction@
                    &&& k[i].0 == "BIPED_KP_SCALE"@ ==> k[i].1 == s.kp_scale@
                    &&& k[i].0 == "BIPED_MASS_DR"@ ==> k[i].1 == s.mass_dr@
                    &&& k[i].0 == "BIPED_SPAWN_DR"@ ==> k[i].1 == (if s.spawn_dr {
                        "1"@
                    } else {
                        "0"@
                    })
                    &&& k[i].0 == "BIPED_DRIVE_SEED"@ ==> k[i].1 == decimal(s.seed as nat)
                    &&& k[i].0 == "BIPED_BASE_HEIGHT"@ ==> k[i].1 == s.base_height@
                    &&& k[i].0 == "BIPED_TERRAIN"@ ==> k[i].1 == (if s.terrain@.len() == 0 {
                        "0"@
                    } else {
                        "1"@
                    })
                    &&& k[i].0 == "BIPED_TERRAIN_FAMILY"@ ==> k[i].1 == s.terrain@
                    &&& k[i].0 == "BIPED_TERRAIN_AMP"@ ==> k[i].1 == s.terrain_amp@
                    &&& k[i].0 == "BIPED_TERRAIN_SLOPE_DEG"@ ==> k[i].1 == s.terrain_slope_deg@
                    &&& k[i].0 == "BIPED_PUSH_VEL"@ ==> k[i].1 == (if pushes {
                        s.push_vel@
                    } else {
                        "0"@
                    })
                }
        }),
        forall|i: int, j: int|
            0 <= i < j < knobs_of(s, pushes).len() ==> #[trigger] knobs_of(s, pushes)[i].0
                != #[trigger] knobs_of(s, pushes)[j].0,
        s.terrain@.len() > 0 ==> sets_knob(knobs_of(s, pushes), "BIPED_TERRAIN_AMP"@) && sets_knob(
            knobs_of(s, pushes),
            "BIPED_TERRAIN_SLOPE_DEG"@,
        ),
{
    reveal_strlit("BIPED_FRICTION");
    reveal_strlit("BIPED_KP_SCALE");
    reveal_strlit("BIPED_MASS_DR");
    reveal_strlit("BIPED_SPAWN_DR");
    reveal_strlit("BIPED_DRIVE_SEED");
    reveal_strlit("BIPED_BASE_HEIGHT");
    reveal_strlit("BIPED_TERRAIN");
    reveal_strlit("BIPED_TERRAIN_FAMILY");
    reveal_strlit("BIPED_TERRAIN_AMP");
    reveal_strlit("BIPED_TERRAIN_SLOPE_DEG");
    reveal_strlit("BIPED_PUSH_VEL");
    reveal_strlit("BIPED_PUSH_INTERVAL");
    reveal_strlit("1");
    reveal_strlit("0");
    let k = knobs_of(s, pushes);
    let names = seq![
        "BIPED_FRICTION"@,
        "BIPED_KP_SCALE"@,
        "BIPED_MASS_DR"@,
        "BIPED_SPAWN_DR"@,
        "BIPED_DRIVE_SEED"@,
        "BIPED_BASE_HEIGHT"@,
        "BIPED_TERRAIN"@,
        "BIPED_TERRAIN_FAMILY"@,
        "BIPED_TERRAIN_AMP"@,
        "BIPED_TERRAIN_SLOPE_DEG"@,
        "BIPED_PUSH_VEL"@,
        "BIPED_PUSH_INTERVAL"@,
    ];
    assert forall|a: int, b: int| 0 <= a < b < 12 implies #[trigger] names[a] != #[trigger] names[b] by {
        assert(names[a].len() != names[b].len() || names[a][6] != names[b][6] || names[a][7]
            != names[b][7] || names[a][8] != names[b][8] || names[a][13] != names[b][13]
            || names[a][14] != names[b][14] || names[a][17] != names[b][17]);
    }
    let w: Seq<int> = if s.terrain@.len() == 0 {
        if pushes {
            seq![0int, 1, 2, 3, 4, 5, 6, 10]
        } else {
            seq![0int, 1, 2, 3, 4, 5, 6, 10, 11]
        }
    } else if pushes {
        seq![0int, 1, 2, 3, 4, 5, 6, 7, 8, 9, 10]
    } else {
        seq![0int, 1, 2, 3, 4, 5, 6, 7, 8, 9, 10, 11]
    };
    assert(k.len() == w.len());
    assert forall|i: int| 0 <= i < k.len() implies #[trigger] k[i].0 == names[w[i]] by {}
    assert forall|i: int| 0 <= i < k.len() implies {
        &&& #[trigger] k[i].0 == "BIPED_FRICTION"@ ==> k[i].1 == s.friction@
        &&& k[i].0 == "BIPED_KP_SCALE"@ ==> k[i].1 == s.kp_scale@
        &&& k[i].0 == "BIPED_MASS_DR"@ ==> k[i].1 == s.mass_dr@
        &&& k[i].0 == "BIPED_SPAWN_DR"@ ==> k[i].1 == (if s.spawn_dr { "1"@ } else { "0"@ })
        &&& k[i].0 == "BIPED_DRIVE_SEED"@ ==> k[i].1 == decimal(s.seed as nat)
        &&& k[i].0 == "BIPED_BASE_HEIGHT"@ ==> k[i].1 == s.base_height@
        &&& k[i].0 == "BIPED_TERRAIN"@ ==> k[i].1 == (if s.terrain@.len() == 0 { "0"@ } else { "1"@ })
        &&& k[i].0 == "BIPED_TERRAIN_FAMILY"@ ==> k[i].1 == s.terrain@
        &&& k[i].0 == "BIPED_TERRAIN_AMP"@ ==> k[i].1 == s.terrain_amp@
        &&& k[i].0 == "BIPED_TERRAIN_SLOPE_DEG"@ ==> k[i].1 == s.terrain_slope_deg@
        &&& k[i].0 == "BIPED_PUSH_VEL"@ ==> k[i].1 == (if pushes { s.push_vel@ } else { "0"@ })
    } by {
        let m = w[i];
        assert(k[i].0 == names[m]);
        assert(0 <= m < 12);
        assert forall|b: int| 0 <= b < 12 && b != m implies names[m] != #[trigger] names[b] by {
            if m < b {
                assert(names[m] != names[b]);
            } else {
                assert(names[b] != names[m]);
            }
        }
        assert(names[0] == "BIPED_FRICTION"@);
        assert(names[1] == "BIPED_KP_SCALE"@);
        assert(names[2] == "BIPED_MASS_DR"@);
        assert(names[3] == "BIPED_SPAWN_DR"@);
        assert(names[4] == "BIPED_DRIVE_SEED"@);
        assert(names[5] == "BIPED_BASE_HEIGHT"@);
        assert(names[6] == "BIPED_TERRAIN"@);
        assert(names[7] == "BIPED_TERRAIN_FAMILY"@);
        assert(names[8] == "BIPED_TERRAIN_AMP"@);
        assert(names[9] == "BIPED_TERRAIN_SLOPE_DEG"@);
        assert(names[10] == "BIPED_PUSH_VEL"@);
        assert(seq!['1'] == "1"@);
        assert(seq!['0'] == "0"@);
    }
    if s.terrain@.len() > 0 {
        assert(k[8].0 == "BIPED_TERRAIN_AMP"@);
        assert(k[9].0 == "BIPED_TERRAIN_SLOPE_DEG"@);
    }
    assert forall|i: int, j: int| 0 <= i < j < k.len() implies #[trigger] k[i].0 != #[trigger] k[j].0 by {
        assert(k[i].0.len() != k[j].0.len() || k[i].0[6] != k[j].0[6] || k[i].0[7] != k[j].0[7]
            || k[i].0[8] != k[j].0[8] || k[i].0[13] != k[j].0[13] || k[i].0[14] != k[j].0[14]
            || k[i].0[17] != k[j].0[17]);
    }
}

// ---------------------------------------------------------------- listing --

/// Entry `a` is listed before entry `b` in the library: by name, and
/// between names that order equally, in the order found (a stable sort).
pub open spec fn listed_by_name(names: Seq<Seq<char>>, a: int, b: int) -> bool {
    lex_le(names[a], names[b]) && (lex_le(names[b], names[a]) ==> a < b)
}

/// The order in which the library lists scenes or recordings, given their
/// names in the order found: every index once, by name.
pub fn name_order(names: &[String]) -> (order: Vec<usize>)
    ensures
        order@.len() == names@.len(),
        forall|i: int| 0 <= i < order@.len() ==> order@[i] < names@.len(),
        forall|i: int, j: int|
            0 <= i < j < order@.len() ==> listed_by_name(
                names@.map_values(|s: String| s@),
                order@[i] as int,
                order@[j] as int,
            ),
{
    let ghost nv = names@.map_values(|s: String| s@);
    let n = names.len();
    let mut out: Vec<usize> = Vec::new();
    let mut k: usize = 0;
    while k < n
        invariant
            0 <= k <= n == names@.len(),
            nv == names@.map_values(|s: String| s@),
            out@.len() == k,
            forall|i: int| 0 <= i < out@.len() ==> out@[i] < k,
            forall|i: int, j: int|
                0 <= i < j < out@.len() ==> listed_by_name(nv, out@[i] as int, out@[j] as int),
        decreases n - k,
    {
        let mut p: usize = 0;
        while p < out.len() && lex_le_exec(&names[out[p]], &names[k])
            invariant
                0 <= p <= out@.len(),
                k < n == names@.len(),
                nv == names@.map_values(|s: String| s@),
                forall|i: int| 0 <= i < out@.len() ==> out@[i] < k,
                forall|i: int| 0 <= i < p ==> lex_le(nv[out@[i] as int], nv[k as int]),
            decreases out@.len() - p,
        {
            assert(nv[out@[p as int] as int] == names@[out@[p as int] as int]@);
            assert(nv[k as int] == names@[k as int]@);
            p = p + 1;
        }
        proof {
            if p < out@.len() {
                assert(nv[out@[p as int] as int] == names@[out@[p as int] as int]@);
                assert(nv[k as int] == names@[k as int]@);
                assert(!lex_le(nv[out@[p as int] as int], nv[k as int]));
            }
        }
        let ghost before = out@;
        out.insert(p, k);
        proof {
            assert forall|i: int, j: int| 0 <= i < j < out@.len() implies listed_by_name(
                nv,
                out@[i] as int,
                out@[j] as int,
            ) by {
                if j < p {
                    assert(out@[i] == before[i] && out@[j] == before[j]);
                } else if j == p {
                    assert(out@[i] == before[i]);
                } else if i == p {
                    assert(out@[j] == before[j - 1]);
                    let bp = before[p as int] as int;
                    let bj = before[j - 1] as int;
                    lemma_lex_total(nv[bp], nv[k as int]);
                    if j - 1 > p {
                        assert(listed_by_name(nv, bp, bj));
                        lemma_lex_trans(nv[k as int], nv[bp], nv[bj]);
                        if lex_le(nv[bj], nv[k as int]) {
                            lemma_lex_trans(nv[bp], nv[bj], nv[k as int]);
                        }
                    }
                } else if i < p {
                    assert(out@[i] == before[i] && out@[j] == before[j - 1]);
                } else {
                    assert(out@[i] == before[i - 1] && out@[j] == before[j - 1]);
                }
            }
        }
        k = k + 1;
    }
    out
}

/// No `_` anywhere in `s`.
pub open spec fn no_underscore(s: Seq<char>) -> bool {
    forall|i: int| 0 <= i < s.len() ==> s[i] != '_'
}

/// `a + rest_a == b + rest_b` with both continuing with `_` right after a
/// part that has none: the parts are equal, and so are the rests after them.
proof fn lemma_split_at_underscore(a: Seq<char>, ra: Seq<char>, b: Seq<char>, rb: Seq<char>)
    requires
        a + ra == b + rb,
        no_underscore(a),
        no_underscore(b),
        ra.len() > 0 && ra[0] == '_',
        rb.len() > 0 && rb[0] == '_',
    ensures
        a == b,
        ra == rb,
{
    let t = a + ra;
    if a.len() < b.len() {
        assert(t[a.len() as int] == ra[0]);
        assert((b + rb)[a.len() as int] == b[a.len() as int]);
    } else if b.len() < a.len() {
        assert((b + rb)[b.len() as int] == rb[0]);
        assert(t[b.len() as int] == a[b.len() as int]);
    } else {
        assert(a =~= t.take(a.len() as int));
        assert(b =~= (b + rb).take(b.len() as int));
        assert(ra =~= t.skip(a.len() as int));
        assert(rb =~= (b + rb).skip(b.len() as int));
    }
}

/// Every terrain variant gets its own mesh: for one terrain family, the mesh
/// name determines the amplitude, the slope and the seed it was made for
/// (amplitude and slope rendered as numbers, which hold no `_`).
pub proof fn lemma_mesh_name_identifies_variant(
    s1: SceneText,
    amp1: Seq<char>,
    slope1: Seq<char>,
    s2: SceneText,
    amp2: Seq<char>,
    slope2: Seq<char>,
)
    requires
        s1.terrain@ == s2.terrain@,
        s1.terrain@.len() > 0,
        no_underscore(amp1),
        no_underscore(amp2),
        no_underscore(slope1),
        no_underscore(slope2),
        terrain_mesh_name_of(s1, amp1, slope1) == terrain_mesh_name_of(s2, amp2, slope2),
    ensures
        amp1 == amp2,
        slope1 == slope2,
        s1.seed == s2.seed,
{
    reveal_strlit("terrain_");
    reveal_strlit("_a");
    reveal_strlit("_s");
    reveal_strlit("_");
    reveal_strlit(".stl");
    let h1 = crate::text::radix_text(s1.seed as nat, 16, false);
    let h2 = crate::text::radix_text(s2.seed as nat, 16, false);
    let pre = "terrain_"@ + s1.terrain@ + "_a"@;
    let r1 = amp1 + ("_s"@ + slope1 + ("_"@ + h1 + ".stl"@));
    let r2 = amp2 + ("_s"@ + slope2 + ("_"@ + h2 + ".stl"@));
    let n1 = terrain_mesh_name_of(s1, amp1, slope1)->0;
    let n2 = terrain_mesh_name_of(s2, amp2, slope2)->0;
    assert(n1 =~= pre + r1);
    assert(n2 =~= pre + r2);
    assert(r1 =~= (pre + r1).skip(pre.len() as int));
    assert(r2 =~= (pre + r2).skip(pre.len() as int));
    assert(r1 == r2);
    lemma_split_at_underscore(amp1, "_s"@ + slope1 + ("_"@ + h1 + ".stl"@), amp2, "_s"@ + slope2 + (
    "_"@ + h2 + ".stl"@));
    let q1 = slope1 + ("_"@ + h1 + ".stl"@);
    let q2 = slope2 + ("_"@ + h2 + ".stl"@);
    assert(q1 =~= ("_s"@ + q1).skip(2));
    assert(q2 =~= ("_s"@ + q2).skip(2));
    assert("_s"@ + slope1 + ("_"@ + h1 + ".stl"@) =~= "_s"@ + q1);
    assert("_s"@ + slope2 + ("_"@ + h2 + ".stl"@) =~= "_s"@ + q2);
    assert(q1 == q2);
    lemma_split_at_underscore(slope1, "_"@ + h1 + ".stl"@, slope2, "_"@ + h2 + ".stl"@);
    let e1 = h1 + ".stl"@;
    let e2 = h2 + ".stl"@;
    assert(e1 =~= ("_"@ + h1 + ".stl"@).skip(1));
    assert(e2 =~= ("_"@ + h2 + ".stl"@).skip(1));
    assert(e1 == e2);
    assert(h1 =~= e1.take(e1.len() - 4));
    assert(h2 =~= e2.take(e2.len() - 4));
    assert(h1 == h2);
    crate::studio::lemma_hex_text(s1.seed as nat, false);
    crate::studio::lemma_hex_text(s2.seed as nat, false);
}

/// A recording's name: the scene's slug and a three-digit take number, so
/// recording twice does not overwrite the first take.
pub open spec fn recording_name_of(scene_name: Seq<char>, take: nat) -> Seq<char> {
    slug_of(scene_name) + seq!['-'] + crate::text::zero_pad(decimal(take), 3)
}

pub fn recording_name(scene_name: &str, take: u64) -> (n: String)
    ensures
        n@ == recording_name_of(scene_name@, take as nat),
{
    let mut n = slug(scene_name);
    push_char(&mut n, '-');
    crate::text::push_padded(&mut n, take, 3);
    n
}

} // verus!
