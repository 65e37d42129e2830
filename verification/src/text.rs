//! Character-level building blocks shared by the writers and readers: the
//! decimal and hexadecimal renderings of integers and reading them back, the
//! character classes the parsers split and trim on, the order strings sort
//! in, and appending to a `String`.

use vstd::prelude::*;

verus! {

/// `String::push`: appends one character.
#[verifier::external_body]
pub(crate) fn push_char(s: &mut String, c: char)
    ensures
        final(s)@ == old(s)@.push(c),
{
    s.push(c);
}

/// Appends a whole string slice.
pub fn push_str(s: &mut String, t: &str)
    ensures
        final(s)@ == old(s)@ + t@,
{
    s.append(t);
}

/// The decimal digit for `d` (0..=9).
pub open spec fn digit_char(d: int) -> char {
    if d == 0 { '0' }
    else if d == 1 { '1' }
    else if d == 2 { '2' }
    else if d == 3 { '3' }
    else if d == 4 { '4' }
    else if d == 5 { '5' }
    else if d == 6 { '6' }
    else if d == 7 { '7' }
    else if d == 8 { '8' }
    else { '9' }
}

/// The hexadecimal digit for `d` (0..=15), upper or lower case.
pub open spec fn hex_char(d: int, upper: bool) -> char {
    if d < 10 { digit_char(d) }
    else if d == 10 { if upper { 'A' } else { 'a' } }
    else if d == 11 { if upper { 'B' } else { 'b' } }
    else if d == 12 { if upper { 'C' } else { 'c' } }
    else if d == 13 { if upper { 'D' } else { 'd' } }
    else if d == 14 { if upper { 'E' } else { 'e' } }
    else { if upper { 'F' } else { 'f' } }
}

/// `n` written in base `base` (10 or 16), most significant digit first, no
/// leading zeros; zero is the single digit `0`. This is what `{}`, `{:x}`
/// and `{:X}` print for an unsigned integer.
pub open spec fn radix_text(n: nat, base: nat, upper: bool) -> Seq<char>
    decreases n,
{
    if base < 2 || n < base {
        seq![hex_char(n as int, upper)]
    } else {
        proof {
            assert(n / base < n) by (nonlinear_arith)
                requires
                    base >= 2,
                    n >= base,
            ;
        }
        radix_text(n / base, base, upper).push(hex_char((n % base) as int, upper))
    }
}

/// `n` in decimal, as `{}` prints it.
pub open spec fn decimal(n: nat) -> Seq<char> {
    radix_text(n, 10, false)
}

/// `s` left-padded with `'0'` to at least `width` characters, as `{:0w}`
/// pads a number.
pub open spec fn zero_pad(s: Seq<char>, width: nat) -> Seq<char> {
    if s.len() >= width {
        s
    } else {
        Seq::new((width - s.len()) as nat, |i: int| '0') + s
    }
}

pub fn digit_of(d: u64, upper: bool) -> (c: char)
    requires
        d < 16,
    ensures
        c == hex_char(d as int, upper),
{
    if d == 0 { '0' }
    else if d == 1 { '1' }
    else if d == 2 { '2' }
    else if d == 3 { '3' }
    else if d == 4 { '4' }
    else if d == 5 { '5' }
    else if d == 6 { '6' }
    else if d == 7 { '7' }
    else if d == 8 { '8' }
    else if d == 9 { '9' }
    else if d == 10 { if upper { 'A' } else { 'a' } }
    else if d == 11 { if upper { 'B' } else { 'b' } }
    else if d == 12 { if upper { 'C' } else { 'c' } }
    else if d == 13 { if upper { 'D' } else { 'd' } }
    else if d == 14 { if upper { 'E' } else { 'e' } }
    else { if upper { 'F' } else { 'f' } }
}

/// Appends `n` in base `base`.
pub fn push_radix(out: &mut String, n: u64, base: u64, upper: bool)
    requires
        base == 10 || base == 16,
    ensures
        final(out)@ == old(out)@ + radix_text(n as nat, base as nat, upper),
    decreases n,
{
    if n >= base {
        push_radix(out, n / base, base, upper);
    }
    push_char(out, digit_of(n % base, upper));
}

/// `n` in decimal.
pub fn decimal_string(n: u64) -> (s: String)
    ensures
        s@ == decimal(n as nat),
{
    let mut s = String::new();
    push_radix(&mut s, n, 10, false);
    s
}

/// Appends `n` in decimal, zero-padded to `width`.
pub fn push_padded(out: &mut String, n: u64, width: usize)
    ensures
        final(out)@ == old(out)@ + zero_pad(decimal(n as nat), width as nat),
{
    let digits = decimal_string(n);
    let len = digits.as_str().unicode_len();
    let mut pad = len;
    let ghost start = out@;
    while pad < width
        invariant
            len <= pad <= width || (len >= width && pad == len),
            len == digits@.len(),
            out@ == start + Seq::new((pad - len) as nat, |i: int| '0'),
        decreases width - pad,
    {
        push_char(out, '0');
        pad = pad + 1;
        assert(out@ =~= start + Seq::new((pad - len) as nat, |i: int| '0'));
    }
    push_str(out, digits.as_str());
    assert(zero_pad(decimal(n as nat), width as nat) =~= Seq::new((pad - len) as nat, |i: int| '0')
        + digits@);
}

/// The characters of `s`, for indexed scanning.
pub fn chars_of(s: &str) -> (cs: Vec<char>)
    ensures
        cs@ == s@,
{
    let mut cs: Vec<char> = Vec::new();
    for c in it: s.chars()
        invariant
            cs@ == it.seq().take(it.index() as int),
    {
        cs.push(c);
    }
    cs
}

/// A string holding exactly the characters `cs[from..to]`.
pub fn string_of(cs: &Vec<char>, from: usize, to: usize) -> (s: String)
    requires
        from <= to <= cs@.len(),
    ensures
        s@ == cs@.subrange(from as int, to as int),
{
    let mut s = String::new();
    let mut i = from;
    while i < to
        invariant
            from <= i <= to <= cs@.len(),
            s@ == cs@.subrange(from as int, i as int),
        decreases to - i,
    {
        push_char(&mut s, cs[i]);
        i = i + 1;
        assert(s@ =~= cs@.subrange(from as int, i as int));
    }
    s
}

/// `char::is_ascii_digit`.
pub open spec fn is_digit(c: char) -> bool {
    '0' <= c <= '9'
}

/// `char::is_ascii_alphanumeric`.
pub open spec fn is_ascii_alnum(c: char) -> bool {
    ||| '0' <= c <= '9'
    ||| 'a' <= c <= 'z'
    ||| 'A' <= c <= 'Z'
}

/// `char::to_ascii_lowercase`: an ASCII capital becomes its small letter;
/// everything else is left alone.
pub open spec fn ascii_lower(c: char) -> char {
    if 'A' <= c <= 'Z' {
        ((c as u32) + 32) as char
    } else {
        c
    }
}

/// `char::is_whitespace`: the Unicode `White_Space` property.
pub open spec fn is_space(c: char) -> bool {
    ||| '\u{9}' <= c <= '\u{d}'
    ||| c == ' '
    ||| c == '\u{85}'
    ||| c == '\u{a0}'
    ||| c == '\u{1680}'
    ||| '\u{2000}' <= c <= '\u{200a}'
    ||| c == '\u{2028}'
    ||| c == '\u{2029}'
    ||| c == '\u{202f}'
    ||| c == '\u{205f}'
    ||| c == '\u{3000}'
}

pub fn is_digit_exec(c: char) -> (b: bool)
    ensures
        b == is_digit(c),
{
    '0' <= c && c <= '9'
}

pub fn is_ascii_alnum_exec(c: char) -> (b: bool)
    ensures
        b == is_ascii_alnum(c),
{
    ('0' <= c && c <= '9') || ('a' <= c && c <= 'z') || ('A' <= c && c <= 'Z')
}

pub fn is_space_exec(c: char) -> (b: bool)
    ensures
        b == is_space(c),
{
    ('\u{9}' <= c && c <= '\u{d}') || c == ' ' || c == '\u{85}' || c == '\u{a0}' || c == '\u{1680}'
        || ('\u{2000}' <= c && c <= '\u{200a}') || c == '\u{2028}' || c == '\u{2029}' || c
        == '\u{202f}' || c == '\u{205f}' || c == '\u{3000}'
}

/// The value of digit `c` in `base` (10 or 16; hexadecimal in either case).
pub open spec fn digit_value(c: char, base: nat) -> Option<int> {
    if '0' <= c <= '9' {
        Some(c as int - '0' as int)
    } else if base == 16 && 'a' <= c <= 'f' {
        Some(c as int - 'a' as int + 10)
    } else if base == 16 && 'A' <= c <= 'F' {
        Some(c as int - 'A' as int + 10)
    } else {
        None
    }
}

pub open spec fn all_digits(s: Seq<char>, base: nat) -> bool {
    forall|i: int| 0 <= i < s.len() ==> digit_value(#[trigger] s[i], base) is Some
}

/// The value of a string of digits in `base`, most significant first.
pub open spec fn digits_number(s: Seq<char>, base: nat) -> int
    decreases s.len(),
{
    if s.len() == 0 {
        0
    } else {
        digits_number(s.drop_last(), base) * base + digit_value(s.last(), base)->0
    }
}

/// `u64::from_str_radix(s, base)` (and `str::parse::<u64>` for base 10):
/// an optional `+`, at least one digit, and a value that fits.
pub open spec fn parse_u64_of(s: Seq<char>, base: nat) -> Option<u64> {
    let d = if s.len() > 0 && s[0] == '+' { s.drop_first() } else { s };
    if d.len() > 0 && all_digits(d, base) && digits_number(d, base) <= u64::MAX {
        Some(digits_number(d, base) as u64)
    } else {
        None
    }
}

fn digit_exec(c: char, base: u64) -> (r: Option<u64>)
    requires
        base == 10 || base == 16,
    ensures
        match r {
            Some(d) => digit_value(c, base as nat) == Some(d as int) && d < base,
            None => digit_value(c, base as nat) is None,
        },
{
    if '0' <= c && c <= '9' {
        Some((c as u32 - '0' as u32) as u64)
    } else if base == 16 && 'a' <= c && c <= 'f' {
        Some((c as u32 - 'a' as u32 + 10) as u64)
    } else if base == 16 && 'A' <= c && c <= 'F' {
        Some((c as u32 - 'A' as u32 + 10) as u64)
    } else {
        None
    }
}

pub proof fn lemma_digits_number_nonneg(s: Seq<char>, base: nat)
    requires
        all_digits(s, base),
    ensures
        digits_number(s, base) >= 0,
    decreases s.len(),
{
    if s.len() > 0 {
        lemma_digits_number_nonneg(s.drop_last(), base);
        assert(digit_value(s.last(), base) is Some);
        assert(digits_number(s.drop_last(), base) * base >= 0) by (nonlinear_arith)
            requires
                digits_number(s.drop_last(), base) >= 0,
        ;
    }
}

/// A longer digit string is worth at least as much as its prefix.
proof fn lemma_digits_number_prefix(s: Seq<char>, base: nat, j: int)
    requires
        all_digits(s, base),
        base >= 1,
        0 <= j <= s.len(),
    ensures
        digits_number(s.take(j), base) <= digits_number(s, base),
    decreases s.len(),
{
    if j < s.len() {
        assert(s.drop_last().take(j) =~= s.take(j));
        lemma_digits_number_prefix(s.drop_last(), base, j);
        lemma_digits_number_nonneg(s.drop_last(), base);
        let x = digits_number(s.drop_last(), base);
        assert(digit_value(s.last(), base) is Some);
        assert(x <= x * base) by (nonlinear_arith)
            requires
                x >= 0,
                base >= 1,
        ;
    } else {
        assert(s.take(j) =~= s);
    }
}

/// `cs[from..]` read as an unsigned number in `base`.
pub fn parse_u64_at(cs: &Vec<char>, from: usize, base: u64) -> (r: Option<u64>)
    requires
        from <= cs@.len(),
        base == 10 || base == 16,
    ensures
        r == parse_u64_of(cs@.skip(from as int), base as nat),
{
    let ghost s = cs@.skip(from as int);
    let n = cs.len();
    let start = if from < n && cs[from] == '+' { from + 1 } else { from };
    let ghost d = cs@.skip(start as int);
    assert(d =~= if s.len() > 0 && s[0] == '+' { s.drop_first() } else { s });
    if start >= n {
        return None;
    }
    let mut v: u64 = 0;
    let mut i = start;
    while i < n
        invariant
            start <= i <= n == cs@.len(),
            base == 10 || base == 16,
            d == cs@.skip(start as int),
            s == cs@.skip(from as int),
            d == if s.len() > 0 && s[0] == '+' { s.drop_first() } else { s },
            all_digits(d.take(i - start), base as nat),
            v as int == digits_number(d.take(i - start), base as nat),
        decreases n - i,
    {
        let ghost p = d.take(i - start + 1);
        assert(p.drop_last() =~= d.take(i - start));
        assert(p.last() == cs@[i as int]);
        assert(d[i - start] == cs@[i as int]);
        match digit_exec(cs[i], base) {
            None => {
                assert(digit_value(d[i - start], base as nat) is None);
                assert(!all_digits(d, base as nat));
                return None;
            },
            Some(dig) => {
                assert(all_digits(p, base as nat));
                assert(digits_number(p, base as nat) == v * base + dig);
                if v > (u64::MAX - dig) / base {
                    proof {
                        assert(v * base + dig > u64::MAX) by (nonlinear_arith)
                            requires
                                v > (u64::MAX - dig) / (base as int),
                                dig < base,
                                base > 0,
                        ;
                        if all_digits(d, base as nat) {
                            lemma_digits_number_prefix(d, base as nat, i - start + 1);
                            assert(d.take(i - start + 1) == p);
                        }
                    }
                    return None;
                }
                assert(v * base + dig <= u64::MAX) by (nonlinear_arith)
                    requires
                        v <= (u64::MAX - dig) / (base as int),
                        dig < base,
                        base > 0,
                ;
                v = v * base + dig;
            },
        }
        i = i + 1;
    }
    assert(d.take(n - start) =~= d);
    Some(v)
}

/// `str::parse::<u64>`.
pub fn parse_u64(s: &str) -> (r: Option<u64>)
    ensures
        r == parse_u64_of(s@, 10),
{
    let cs = chars_of(s);
    assert(cs@.skip(0) =~= cs@);
    parse_u64_at(&cs, 0, 10)
}

/// `str::split_whitespace`: the maximal runs of non-space characters.
pub open spec fn words(s: Seq<char>) -> Seq<Seq<char>>
    decreases s.len(),
{
    if s.len() == 0 {
        seq![]
    } else {
        let w = words(s.drop_last());
        let c = s.last();
        if is_space(c) {
            w
        } else if s.len() >= 2 && !is_space(s[s.len() - 2]) {
            w.drop_last().push(w.last().push(c))
        } else {
            w.push(seq![c])
        }
    }
}

pub open spec fn strings_view(v: Seq<String>) -> Seq<Seq<char>> {
    v.map_values(|w: String| w@)
}

/// The words of `s`, as `split_whitespace` yields them.
pub fn split_whitespace(s: &str) -> (ws: Vec<String>)
    ensures
        strings_view(ws@) == words(s@),
{
    let cs = chars_of(s);
    let n = cs.len();
    let mut out: Vec<String> = Vec::new();
    let mut cur = String::new();
    let mut in_word = false;
    let mut i: usize = 0;
    while i < n
        invariant
            0 <= i <= n == cs@.len(),
            in_word == (i > 0 && !is_space(cs@[i - 1])),
            !in_word ==> cur@ == Seq::<char>::empty(),
            words(cs@.take(i as int)) == if in_word {
                strings_view(out@).push(cur@)
            } else {
                strings_view(out@)
            },
        decreases n - i,
    {
        let c = cs[i];
        let ghost t = cs@.take(i + 1);
        assert(t.drop_last() =~= cs@.take(i as int));
        assert(t.last() == c);
        if i > 0 {
            assert(t[t.len() - 2] == cs@[i - 1]);
        }
        let ghost before = strings_view(out@);
        if is_space_exec(c) {
            if in_word {
                let w = cur;
                cur = String::new();
                out.push(w);
                assert(strings_view(out@) =~= before.push(w@));
            }
            in_word = false;
        } else {
            push_char(&mut cur, c);
            if !in_word {
                assert(cur@ =~= seq![c]);
            }
            in_word = true;
        }
        i = i + 1;
    }
    assert(cs@.take(n as int) =~= cs@);
    if in_word {
        let ghost before = strings_view(out@);
        out.push(cur);
        assert(strings_view(out@) =~= before.push(cur@));
    }
    out
}

/// A space between two texts separates their words.
pub proof fn lemma_words_concat_space(a: Seq<char>, b: Seq<char>)
    ensures
        words(a + seq![' '] + b) == words(a) + words(b),
    decreases b.len(),
{
    let t = a + seq![' '] + b;
    if b.len() == 0 {
        assert(t.drop_last() =~= a);
        assert(words(a) + words(b) =~= words(a));
    } else {
        let b1 = b.drop_last();
        let c = b.last();
        lemma_words_concat_space(a, b1);
        let t1 = a + seq![' '] + b1;
        assert(t.drop_last() =~= t1);
        assert(t.last() == c);
        if is_space(c) {
            assert(words(a) + words(b) =~= words(a) + words(b1));
        } else if b1.len() > 0 && !is_space(b1.last()) {
            assert(t[t.len() - 2] == b1.last());
            assert(b[b.len() - 2] == b1.last());
            lemma_words_nonempty(b1);
            let w = words(b1);
            assert((words(a) + w).drop_last() =~= words(a) + w.drop_last());
            assert((words(a) + w).last() == w.last());
            assert(words(a) + w.drop_last().push(w.last().push(c)) =~= (words(a) + w).drop_last().push(
                (words(a) + w).last().push(c),
            ));
        } else {
            if b1.len() > 0 {
                assert(t[t.len() - 2] == b1.last());
                assert(b[b.len() - 2] == b1.last());
            } else {
                assert(t[t.len() - 2] == ' ');
            }
            assert(words(a) + words(b1).push(seq![c]) =~= (words(a) + words(b1)).push(seq![c]));
        }
    }
}

/// A text that ends in a non-space character has at least one word.
pub proof fn lemma_words_nonempty(s: Seq<char>)
    requires
        s.len() > 0,
        !is_space(s.last()),
    ensures
        words(s).len() > 0,
    decreases s.len(),
{
    if s.len() >= 2 && !is_space(s[s.len() - 2]) {
        assert(s.drop_last().last() == s[s.len() - 2]);
        lemma_words_nonempty(s.drop_last());
    }
}

/// A single word: non-empty, with no whitespace in it.
pub open spec fn is_word(s: Seq<char>) -> bool {
    s.len() > 0 && forall|i: int| 0 <= i < s.len() ==> !is_space(#[trigger] s[i])
}

/// A single word splits into itself.
pub proof fn lemma_words_single(s: Seq<char>)
    requires
        is_word(s),
    ensures
        words(s) == seq![s],
    decreases s.len(),
{
    let c = s.last();
    let s1 = s.drop_last();
    assert(!is_space(s[s.len() - 1]));
    if s.len() == 1 {
        assert(s1.len() == 0);
        assert(words(s1) =~= Seq::<Seq<char>>::empty());
        assert(s =~= seq![c]);
    } else {
        assert(!is_space(s[s.len() - 2]));
        assert forall|i: int| 0 <= i < s1.len() implies !is_space(#[trigger] s1[i]) by {
            assert(s1[i] == s[i]);
        }
        lemma_words_single(s1);
        assert(s1.push(c) =~= s);
        assert(seq![s1].drop_last().push(s1.push(c)) =~= seq![s]);
    }
}

/// Every word `split_whitespace` yields is a word.
pub proof fn lemma_words_are_words(s: Seq<char>)
    ensures
        forall|k: int| 0 <= k < words(s).len() ==> is_word(#[trigger] words(s)[k]),
    decreases s.len(),
{
    if s.len() > 0 {
        let s1 = s.drop_last();
        let c = s.last();
        lemma_words_are_words(s1);
        let w = words(s1);
        if is_space(c) {
        } else if s.len() >= 2 && !is_space(s[s.len() - 2]) {
            assert(s1.last() == s[s.len() - 2]);
            lemma_words_nonempty(s1);
            let r = w.drop_last().push(w.last().push(c));
            assert(is_word(w[w.len() - 1]));
            assert forall|k: int| 0 <= k < r.len() implies is_word(#[trigger] r[k]) by {
                if k < r.len() - 1 {
                    assert(r[k] == w[k]);
                } else {
                    let x = w.last().push(c);
                    assert forall|i: int| 0 <= i < x.len() implies !is_space(#[trigger] x[i]) by {
                        if i < x.len() - 1 {
                            assert(x[i] == w.last()[i]);
                        }
                    }
                }
            }
        } else {
            let r = w.push(seq![c]);
            assert forall|k: int| 0 <= k < r.len() implies is_word(#[trigger] r[k]) by {
                if k < r.len() - 1 {
                    assert(r[k] == w[k]);
                } else {
                    assert(r[k] =~= seq![c]);
                }
            }
        }
    }
}

/// Decimal digits are one word that reads back as the number.
pub proof fn lemma_decimal_word(n: nat)
    ensures
        is_word(decimal(n)),
        all_digits(decimal(n), 10),
        digits_number(decimal(n), 10) == n,
        decimal(n)[0] != '+',
    decreases n,
{
    let t = decimal(n);
    if n >= 10 {
        lemma_decimal_word(n / 10);
        let p = decimal(n / 10);
        let d = (n % 10) as int;
        assert(t == p.push(hex_char(d, false)));
        assert(t.drop_last() =~= p);
        assert(digit_value(t.last(), 10) == Some(d));
        assert(digits_number(t, 10) == digits_number(p, 10) * 10 + d);
        assert(n == (n / 10) * 10 + n % 10);
        assert forall|i: int| 0 <= i < t.len() implies !is_space(#[trigger] t[i]) && digit_value(
            t[i],
            10,
        ) is Some by {
            if i < t.len() - 1 {
                assert(t[i] == p[i]);
                assert(digit_value(p[i], 10) is Some);
            }
        }
        assert(t[0] == p[0]);
    } else {
        assert(t =~= seq![hex_char(n as int, false)]);
        assert(t.drop_last() =~= Seq::<char>::empty());
        assert(digits_number(Seq::<char>::empty(), 10) == 0);
        assert(digit_value(t.last(), 10) == Some(n as int));
    }
}

/// `str::parse::<u64>` reads back what `{}` printed.
pub proof fn lemma_parse_decimal(n: u64)
    ensures
        parse_u64_of(decimal(n as nat), 10) == Some(n),
{
    lemma_decimal_word(n as nat);
}

/// `str::trim_start`: leading white space removed.
pub open spec fn trim_start(s: Seq<char>) -> Seq<char>
    decreases s.len(),
{
    if s.len() > 0 && is_space(s[0]) {
        trim_start(s.drop_first())
    } else {
        s
    }
}

/// `str::trim_end`: trailing white space removed.
pub open spec fn trim_end_space(s: Seq<char>) -> Seq<char>
    decreases s.len(),
{
    if s.len() > 0 && is_space(s.last()) {
        trim_end_space(s.drop_last())
    } else {
        s
    }
}

/// `str::trim`.
pub open spec fn trim(s: Seq<char>) -> Seq<char> {
    trim_end_space(trim_start(s))
}

/// The bounds of `cs[from..to]` with white space trimmed from both ends.
pub fn trim_bounds(cs: &Vec<char>, from: usize, to: usize) -> (r: (usize, usize))
    requires
        from <= to <= cs@.len(),
    ensures
        from <= r.0 <= r.1 <= to,
        cs@.subrange(r.0 as int, r.1 as int) == trim(cs@.subrange(from as int, to as int)),
{
    let ghost s = cs@.subrange(from as int, to as int);
    let mut a = from;
    while a < to && is_space_exec(cs[a])
        invariant
            from <= a <= to <= cs@.len(),
            trim_start(s) == trim_start(cs@.subrange(a as int, to as int)),
        decreases to - a,
    {
        assert(cs@.subrange(a as int, to as int).drop_first() =~= cs@.subrange(a + 1, to as int));
        a = a + 1;
    }
    let ghost t = cs@.subrange(a as int, to as int);
    assert(trim_start(t) == t);
    let mut b = to;
    while b > a && is_space_exec(cs[b - 1])
        invariant
            a <= b <= to <= cs@.len(),
            trim_end_space(t) == trim_end_space(cs@.subrange(a as int, b as int)),
            t == cs@.subrange(a as int, to as int),
        decreases b - a,
    {
        assert(cs@.subrange(a as int, b as int).drop_last() =~= cs@.subrange(a as int, b - 1));
        b = b - 1;
    }
    (a, b)
}


/// Lexicographic order by code point — `String`'s `Ord`.
pub open spec fn lex_le(a: Seq<char>, b: Seq<char>) -> bool
    decreases a.len(),
{
    if a.len() == 0 {
        true
    } else if b.len() == 0 {
        false
    } else if (a[0] as u32) != (b[0] as u32) {
        (a[0] as u32) < (b[0] as u32)
    } else {
        lex_le(a.drop_first(), b.drop_first())
    }
}

pub proof fn lemma_lex_total(a: Seq<char>, b: Seq<char>)
    ensures
        lex_le(a, b) || lex_le(b, a),
    decreases a.len(),
{
    if a.len() > 0 && b.len() > 0 && (a[0] as u32) == (b[0] as u32) {
        lemma_lex_total(a.drop_first(), b.drop_first());
    }
}

pub proof fn lemma_lex_trans(a: Seq<char>, b: Seq<char>, c: Seq<char>)
    requires
        lex_le(a, b),
        lex_le(b, c),
    ensures
        lex_le(a, c),
    decreases a.len(),
{
    if a.len() > 0 && b.len() > 0 && c.len() > 0 && (a[0] as u32) == (b[0] as u32) && (b[0] as u32)
        == (c[0] as u32) {
        lemma_lex_trans(a.drop_first(), b.drop_first(), c.drop_first());
    }
}

/// `a <= b` as `String`s.
pub fn lex_le_exec(a: &String, b: &String) -> (r: bool)
    ensures
        r == lex_le(a@, b@),
{
    let x = chars_of(a.as_str());
    let y = chars_of(b.as_str());
    let mut i: usize = 0;
    assert(x@.skip(0) =~= x@);
    assert(y@.skip(0) =~= y@);
    while i < x.len() && i < y.len() && (x[i] as u32) == (y[i] as u32)
        invariant
            0 <= i <= x@.len(),
            i <= y@.len(),
            lex_le(x@, y@) == lex_le(x@.skip(i as int), y@.skip(i as int)),
        decreases x@.len() - i,
    {
        assert(x@.skip(i as int).drop_first() =~= x@.skip(i + 1));
        assert(y@.skip(i as int).drop_first() =~= y@.skip(i + 1));
        i = i + 1;
    }
    if i >= x.len() {
        true
    } else if i >= y.len() {
        false
    } else {
        (x[i] as u32) < (y[i] as u32)
    }
}


/// A text that starts with a non-space character has a first word, and it
/// starts with that character.
pub proof fn lemma_first_word(s: Seq<char>)
    requires
        s.len() > 0,
        !is_space(s[0]),
    ensures
        words(s).len() > 0,
        words(s)[0].len() > 0,
        words(s)[0][0] == s[0],
    decreases s.len(),
{
    if s.len() > 1 {
        let s1 = s.drop_last();
        assert(s1[0] == s[0]);
        lemma_first_word(s1);
        let w = words(s1);
        let c = s.last();
        if is_space(c) {
        } else if s.len() >= 2 && !is_space(s[s.len() - 2]) {
            let r = w.drop_last().push(w.last().push(c));
            if w.len() == 1 {
                assert(r[0] == w[0].push(c));
                assert(r[0][0] == w[0][0]);
            } else {
                assert(r[0] == w[0]);
            }
        } else {
            assert(w.push(seq![c])[0] == w[0]);
        }
    } else {
        assert(s.drop_last().len() == 0);
        assert(words(s.drop_last()) =~= Seq::<Seq<char>>::empty());
    }
}


/// Whether two strings hold the same characters.
pub fn same_text(a: &str, b: &str) -> (r: bool)
    ensures
        r == (a@ == b@),
{
    let x = chars_of(a);
    let y = chars_of(b);
    if x.len() != y.len() {
        return false;
    }
    let mut i: usize = 0;
    while i < x.len()
        invariant
            0 <= i <= x@.len() == y@.len(),
            x@ == a@,
            y@ == b@,
            x@.take(i as int) == y@.take(i as int),
        decreases x@.len() - i,
    {
        if x[i] != y[i] {
            assert(x@[i as int] != y@[i as int]);
            return false;
        }
        i = i + 1;
        assert(x@.take(i as int) =~= x@.take(i - 1).push(x@[i - 1]));
        assert(y@.take(i as int) =~= y@.take(i - 1).push(y@[i - 1]));
    }
    assert(x@.take(i as int) =~= x@);
    assert(y@.take(i as int) =~= y@);
    true
}

} // verus!
