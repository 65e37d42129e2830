//! The console's wiring around the engine: how on-disk scenes are told apart
//! from studio drafts, how a scene seed is shown and read back, which files in
//! the workspace are checkpoints, the fingerprint an export carries, reading
//! a recorded rollout's text (its arrays, joint names, rows and time step),
//! and whether a sweep has anything to measure.

use vstd::prelude::*;

use crate::scene::{find_char_from, find_from, find_in, lemma_find_from_found, occurs_at, trim_end};
use crate::text::{
    all_digits, chars_of, digit_value, digits_number, hex_char, is_space, lemma_lex_total,
    lemma_lex_trans, lex_le, lex_le_exec, parse_u64_at, parse_u64_of, push_char, push_radix,
    push_str, radix_text, string_of, trim, trim_bounds, trim_start, zero_pad,
};

verus! {

broadcast use vstd::seq_lib::group_seq_properties;

// ------------------------------------------------------------- scene ids --

pub open spec fn disk_prefix() -> Seq<char> {
    seq!['d', 'i', 's', 'k', ':']
}

/// A studio scene that mirrors a file in the scene library is identified as
/// `disk:<name>`.
pub fn disk_scene_id(name: &str) -> (id: String)
    ensures
        id@ == disk_prefix() + name@,
{
    let mut id = String::from_str("disk:");
    proof {
        reveal_strlit("disk:");
    }
    push_str(&mut id, name);
    assert(id@ =~= disk_prefix() + name@);
    id
}

pub fn is_disk_scene(id: &str) -> (b: bool)
    ensures
        b == (id@.len() >= 5 && id@.take(5) == disk_prefix()),
{
    let cs = chars_of(id);
    let b = cs.len() >= 5 && cs[0] == 'd' && cs[1] == 'i' && cs[2] == 's' && cs[3] == 'k' && cs[4]
        == ':';
    proof {
        if cs@.len() >= 5 {
            let t = cs@.take(5);
            assert(t[0] == cs@[0] && t[1] == cs@[1] && t[2] == cs@[2] && t[3] == cs@[3] && t[4]
                == cs@[4]);
            if b {
                assert(t =~= disk_prefix());
            }
        }
    }
    b
}

// ------------------------------------------------------------------ seeds --

/// `str::trim_start_matches("0x")`: every leading `0x` removed.
pub open spec fn strip_0x(s: Seq<char>) -> Seq<char>
    decreases s.len(),
{
    if s.len() >= 2 && s[0] == '0' && s[1] == 'x' {
        strip_0x(s.skip(2))
    } else {
        s
    }
}

/// The seed a studio scene's seed text stands for, or zealot's default
/// seed when the text does not read as one.
pub open spec fn seed_of_label(t: Seq<char>) -> u64 {
    match parse_u64_of(strip_0x(t), 16) {
        Some(v) => v,
        None => 0xC0FFEE,
    }
}

/// `0x` and the seed in upper-case hexadecimal.
pub open spec fn seed_label_of(seed: u64) -> Seq<char> {
    seq!['0', 'x'] + radix_text(seed as nat, 16, true)
}

/// How the studio shows a scene's seed.
pub fn seed_label(seed: u64) -> (s: String)
    ensures
        s@ == seed_label_of(seed),
{
    let mut s = String::from_str("0x");
    proof {
        reveal_strlit("0x");
    }
    push_radix(&mut s, seed, 16, true);
    assert(s@ =~= seed_label_of(seed));
    s
}

/// The seed a studio scene's seed text stands for: hexadecimal after any
/// leading `0x`, or zealot's default `0xC0FFEE` when it does not read.
pub fn seed_from_label(text: &str) -> (seed: u64)
    ensures
        seed == seed_of_label(text@),
{
    let cs = chars_of(text);
    let n = cs.len();
    let mut i: usize = 0;
    assert(cs@.skip(0) =~= cs@);
    while i < n && n - i >= 2 && cs[i] == '0' && cs[i + 1] == 'x'
        invariant
            0 <= i <= n == cs@.len(),
            strip_0x(cs@) == strip_0x(cs@.skip(i as int)),
        decreases n - i,
    {
        assert(cs@.skip(i as int).skip(2) =~= cs@.skip(i + 2));
        i = i + 2;
    }
    match parse_u64_at(&cs, i, 16) {
        Some(v) => v,
        None => 0xC0FFEE,
    }
}

proof fn lemma_hex_digit(d: int, upper: bool)
    requires
        0 <= d < 16,
    ensures
        digit_value(hex_char(d, upper), 16) == Some(d),
{
}

/// Hexadecimal digits read back as the number, in either case.
pub proof fn lemma_hex_text(n: nat, upper: bool)
    ensures
        all_digits(radix_text(n, 16, upper), 16),
        digits_number(radix_text(n, 16, upper), 16) == n,
        radix_text(n, 16, upper)[0] != 'x',
        radix_text(n, 16, upper).len() > 0,
    decreases n,
{
    if n >= 16 {
        lemma_hex_text(n / 16, upper);
        lemma_hex_digit((n % 16) as int, upper);
        let p = radix_text(n / 16, 16, upper);
        let t = p.push(hex_char((n % 16) as int, upper));
        assert(t == radix_text(n, 16, upper));
        assert(t.drop_last() =~= p);
        assert(digit_value(t.last(), 16)->0 == n % 16);
        assert(digits_number(t, 16) == digits_number(p, 16) * 16 + n % 16);
        assert(n == (n / 16) * 16 + n % 16);
    } else {
        lemma_hex_digit(n as int, upper);
        let t = radix_text(n, 16, upper);
        assert(t.drop_last() =~= Seq::<char>::empty());
        assert(digits_number(Seq::<char>::empty(), 16) == 0);
        assert(digit_value(t.last(), 16)->0 == n);
    }
}

/// A seed survives being shown and read back.
pub proof fn lemma_seed_label_round_trip(seed: u64)
    ensures
        seed_of_label(seed_label_of(seed)) == seed,
{
    let h = radix_text(seed as nat, 16, true);
    lemma_hex_text(seed as nat, true);
    let t = seed_label_of(seed);
    assert(t.skip(2) =~= h);
    assert(strip_0x(h) == h);
}

// ------------------------------------------------------------ checkpoints --

/// A checkpoint file in the workspace.
pub struct DiskCkpt {
    /// Its file name.
    pub label: String,
    /// `<repo>/<file name>`.
    pub path: String,
    /// Its size in whole KiB.
    pub kb: u64,
}

pub open spec fn ckpt_view(c: DiskCkpt) -> (Seq<char>, Seq<char>, u64) {
    (c.label@, c.path@, c.kb)
}

pub open spec fn ckpt_stem() -> Seq<char> {
    "dorobot_nexus.safetensors"@
}

/// A checkpoint file: the trainer's export (and its numbered siblings) or
/// the curriculum's.
pub open spec fn is_ckpt_file(name: Seq<char>) -> bool {
    (name.len() >= ckpt_stem().len() && name.take(ckpt_stem().len() as int) == ckpt_stem()) || name
        == "curriculum.safetensors"@
}

/// The checkpoint a directory entry (name, size in bytes) stands for.
pub open spec fn ckpt_entry(repo: Seq<char>, e: (Seq<char>, u64)) -> (Seq<char>, Seq<char>, u64) {
    (e.0, repo + seq!['/'] + e.0, e.1 / 1024)
}

/// Sorted newest first: labels descend.
pub open spec fn labels_descend(cs: Seq<(Seq<char>, Seq<char>, u64)>) -> bool {
    forall|i: int, j: int| 0 <= i < j < cs.len() ==> lex_le(#[trigger] cs[j].0, #[trigger] cs[i].0)
}

pub open spec fn ckpts_view(v: Seq<DiskCkpt>) -> Seq<(Seq<char>, Seq<char>, u64)> {
    v.map_values(|c: DiskCkpt| ckpt_view(c))
}

pub open spec fn entries_view(v: Seq<(String, u64)>) -> Seq<(Seq<char>, u64)> {
    v.map_values(|e: (String, u64)| (e.0@, e.1))
}

/// The checkpoint files among a workspace's directory entries, each with its
/// path and size.
pub open spec fn ckpt_candidates(repo: Seq<char>, entries: Seq<(Seq<char>, u64)>) -> Seq<
    (Seq<char>, Seq<char>, u64),
> {
    entries.filter(|e: (Seq<char>, u64)| is_ckpt_file(e.0)).map_values(
        |e: (Seq<char>, u64)| ckpt_entry(repo, e),
    )
}

fn is_ckpt_file_exec(name: &String) -> (b: bool)
    ensures
        b == is_ckpt_file(name@),
{
    let cs = chars_of(name.as_str());
    let stem = chars_of("dorobot_nexus.safetensors");
    let cur = chars_of("curriculum.safetensors");
    let mut b = false;
    if cs.len() >= stem.len() {
        b = crate::scene::occurs_at_exec(&cs, &stem, 0);
        assert(cs@.subrange(0, stem@.len() as int) =~= cs@.take(stem@.len() as int));
    }
    if !b {
        b = same_chars(&cs, &cur);
    }
    b
}

fn same_chars(a: &Vec<char>, b: &Vec<char>) -> (r: bool)
    ensures
        r == (a@ == b@),
{
    if a.len() != b.len() {
        return false;
    }
    let mut i: usize = 0;
    while i < a.len()
        invariant
            0 <= i <= a@.len() == b@.len(),
            a@.take(i as int) == b@.take(i as int),
        decreases a@.len() - i,
    {
        if a[i] != b[i] {
            assert(a@[i as int] != b@[i as int]);
            return false;
        }
        i = i + 1;
        assert(a@.take(i as int) =~= a@.take(i - 1).push(a@[i - 1]));
        assert(b@.take(i as int) =~= b@.take(i - 1).push(b@[i - 1]));
    }
    assert(a@.take(i as int) =~= a@);
    assert(b@.take(i as int) =~= b@);
    true
}

/// Inserting after every label that is not smaller keeps labels descending.
fn insert_descending(out: &mut Vec<DiskCkpt>, c: DiskCkpt)
    requires
        labels_descend(ckpts_view(old(out)@)),
    ensures
        labels_descend(ckpts_view(final(out)@)),
        ckpts_view(final(out)@).to_multiset() == ckpts_view(old(out)@).to_multiset().insert(
            ckpt_view(c),
        ),
{
    let ghost v0 = ckpts_view(out@);
    let mut j: usize = 0;
    while j < out.len() && lex_le_exec(&c.label, &out[j].label)
        invariant
            0 <= j <= out@.len(),
            v0 == ckpts_view(out@),
            labels_descend(v0),
            forall|i: int| 0 <= i < j ==> lex_le(c.label@, #[trigger] v0[i].0),
        decreases out@.len() - j,
    {
        j = j + 1;
    }
    let ghost x = ckpt_view(c);
    out.insert(j, c);
    let ghost v1 = ckpts_view(out@);
    proof {
        assert(v1 =~= v0.insert(j as int, x));
        assert forall|a: int, b: int| 0 <= a < b < v1.len() implies lex_le(
            #[trigger] v1[b].0,
            #[trigger] v1[a].0,
        ) by {
            if b < j {
                assert(v1[a] == v0[a] && v1[b] == v0[b]);
            } else if b == j {
                assert(v1[a] == v0[a]);
            } else if a == j {
                // v1[b] == v0[b - 1] and v0[j] < x, so v0[b-1] <= v0[j] <= x
                assert(v1[b] == v0[b - 1]);
                assert(!lex_le(x.0, v0[j as int].0));
                lemma_lex_total(x.0, v0[j as int].0);
                if b - 1 > j {
                    lemma_lex_trans(v0[b - 1].0, v0[j as int].0, x.0);
                }
            } else if a < j {
                assert(v1[a] == v0[a] && v1[b] == v0[b - 1]);
            } else {
                assert(v1[a] == v0[a - 1] && v1[b] == v0[b - 1]);
            }
        }
        let m = v1.to_multiset();
        assert(v1.remove(j as int) =~= v0);
        v1.to_multiset_ensures();
        assert(v1[j as int] == x);
        assert(m.remove(x) =~= v0.to_multiset());
        assert(m.count(x) > 0) by {
            assert(v1.contains(x));
        }
        assert(m =~= v0.to_multiset().insert(x));
    }
}

/// Real checkpoint files among a workspace's directory entries — each entry
/// its file name and size in bytes — newest (greatest name) first.
pub fn select_ckpts(repo: &str, entries: &[(String, u64)]) -> (out: Vec<DiskCkpt>)
    ensures
        ckpts_view(out@).to_multiset() == ckpt_candidates(repo@, entries_view(entries@)).to_multiset(),
        labels_descend(ckpts_view(out@)),
{
    let ghost ev = entries_view(entries@);
    let ghost pred = |e: (Seq<char>, u64)| is_ckpt_file(e.0);
    let ghost mk = |e: (Seq<char>, u64)| ckpt_entry(repo@, e);
    let mut out: Vec<DiskCkpt> = Vec::new();
    let mut i: usize = 0;
    assert(ckpts_view(out@) =~= Seq::<(Seq<char>, Seq<char>, u64)>::empty());
    while i < entries.len()
        invariant
            0 <= i <= entries@.len(),
            ev == entries_view(entries@),
            pred == (|e: (Seq<char>, u64)| is_ckpt_file(e.0)),
            mk == (|e: (Seq<char>, u64)| ckpt_entry(repo@, e)),
            labels_descend(ckpts_view(out@)),
            ckpts_view(out@).to_multiset() == ev.take(i as int).filter(pred).map_values(
                mk,
            ).to_multiset(),
        decreases entries@.len() - i,
    {
        let ghost before = ev.take(i as int).filter(pred).map_values(mk);
        proof {
            assert(ev.take(i + 1) =~= ev.take(i as int).push(ev[i as int]));
            ev.take(i as int).lemma_filter_push(ev[i as int], pred);
        }
        let (name, bytes) = (&entries[i].0, entries[i].1);
        assert(ev[i as int] == (name@, bytes));
        if is_ckpt_file_exec(name) {
            let mut path = String::from_str(repo);
            push_char(&mut path, '/');
            push_str(&mut path, name.as_str());
            let c = DiskCkpt { label: name.clone(), path, kb: bytes / 1024 };
            assert(ckpt_view(c) == mk(ev[i as int]));
            insert_descending(&mut out, c);
            proof {
                assert(ev.take(i + 1).filter(pred) == ev.take(i as int).filter(pred).push(
                    ev[i as int],
                ));
                assert(ev.take(i + 1).filter(pred).map_values(mk) =~= before.push(mk(ev[i as int])));
                before.to_multiset_ensures();
            }
        } else {
            proof {
                assert(ev.take(i + 1).filter(pred) == ev.take(i as int).filter(pred));
            }
        }
        i = i + 1;
    }
    assert(ev.take(entries@.len() as int) =~= ev);
    out
}

// ------------------------------------------------------------ fingerprint --

pub open spec fn fnv1a_step(h: u32, b: u8) -> u32 {
    (((h ^ (b as u32)) as nat * 16777619) % 0x1_0000_0000) as u32
}

/// FNV-1a, 32-bit, over `bytes`.
pub open spec fn fnv1a(bytes: Seq<u8>) -> u32
    decreases bytes.len(),
{
    if bytes.len() == 0 {
        2166136261
    } else {
        fnv1a_step(fnv1a(bytes.drop_last()), bytes.last())
    }
}

/// An artifact's fingerprint: its FNV-1a-32 as eight lower-case hex digits,
/// and its size in whole KiB — what an export is labelled with.
pub fn fingerprint(bytes: &[u8]) -> (r: (String, u64))
    ensures
        r.0@ == zero_pad(radix_text(fnv1a(bytes@) as nat, 16, false), 8),
        r.1 == bytes@.len() / 1024,
{
    let mut h: u32 = 2166136261;
    let mut i: usize = 0;
    while i < bytes.len()
        invariant
            0 <= i <= bytes@.len(),
            h == fnv1a(bytes@.take(i as int)),
        decreases bytes@.len() - i,
    {
        assert(bytes@.take(i + 1).drop_last() =~= bytes@.take(i as int));
        h = h ^ (bytes[i] as u32);
        h = h.wrapping_mul(16777619);
        i = i + 1;
    }
    assert(bytes@.take(bytes@.len() as int) =~= bytes@);
    let digits = {
        let mut s = String::new();
        push_radix(&mut s, h as u64, 16, false);
        s
    };
    let len = digits.as_str().unicode_len();
    let mut out = String::new();
    let mut pad = len;
    while pad < 8
        invariant
            len <= pad <= 8 || (len >= 8 && pad == len),
            len == digits@.len(),
            out@ == Seq::new((pad - len) as nat, |i: int| '0'),
        decreases 8 - pad,
    {
        push_char(&mut out, '0');
        pad = pad + 1;
        assert(out@ =~= Seq::new((pad - len) as nat, |i: int| '0'));
    }
    push_str(&mut out, digits.as_str());
    assert(out@ =~= zero_pad(radix_text(h as nat, 16, false), 8));
    (out, (bytes.len() / 1024) as u64)
}

// ----------------------------------------------------------------- arrays --

/// Where the bracket opened before `i` (at nesting `depth`) closes: the
/// index of its `]`, if it ever does.
pub open spec fn closing_bracket(t: Seq<char>, i: int, depth: int) -> Option<int>
    decreases t.len() - i,
{
    if i < 0 || i >= t.len() {
        None
    } else if t[i] == '[' {
        closing_bracket(t, i + 1, depth + 1)
    } else if t[i] == ']' {
        if depth - 1 == 0 {
            Some(i)
        } else {
            closing_bracket(t, i + 1, depth - 1)
        }
    } else {
        closing_bracket(t, i + 1, depth)
    }
}

/// The raw text between the first `[` after `key` and its matching `]` —
/// or, when that bracket never closes, nothing.
pub open spec fn find_array_of(text: Seq<char>, key: Seq<char>) -> Option<Seq<char>> {
    match find_from(text, key, 0) {
        Some(k) => match find_char_from(text, '[', k + key.len()) {
            Some(b) => {
                let start = b + 1;
                let end = match closing_bracket(text, start, 1) {
                    Some(e) => e,
                    None => start,
                };
                Some(text.subrange(start, end))
            },
            None => None,
        },
        None => None,
    }
}

proof fn lemma_found(t: Seq<char>, p: Seq<char>, i: int)
    requires
        find_from(t, p, i) is Some,
    ensures
        occurs_at(t, p, find_from(t, p, i)->0),
        i <= find_from(t, p, i)->0,
        find_from(t, p, i)->0 + p.len() <= t.len(),
    decreases t.len() + 1 - i,
{
    if i < 0 || i + p.len() > t.len() {
    } else if occurs_at(t, p, i) {
    } else {
        lemma_found(t, p, i + 1);
    }
}

proof fn lemma_closing_in_range(t: Seq<char>, i: int, depth: int)
    requires
        closing_bracket(t, i, depth) is Some,
    ensures
        i <= closing_bracket(t, i, depth)->0 < t.len(),
    decreases t.len() - i,
{
    if i < 0 || i >= t.len() {
    } else if t[i] == '[' {
        lemma_closing_in_range(t, i + 1, depth + 1);
    } else if t[i] == ']' {
        if depth - 1 != 0 {
            lemma_closing_in_range(t, i + 1, depth - 1);
        }
    } else {
        lemma_closing_in_range(t, i + 1, depth);
    }
}

/// Returns the raw contents between the key's opening `[` and its matching
/// `]`.
pub fn find_array(text: &str, key: &str) -> (r: Option<String>)
    ensures
        match r {
            Some(s) => find_array_of(text@, key@) == Some(s@),
            None => find_array_of(text@, key@) is None,
        },
{
    let cs = chars_of(text);
    let kc = chars_of(key);
    let n = cs.len();
    let k = match crate::scene::find_in(&cs, &kc, 0) {
        Some(k) => k,
        None => return None,
    };
    proof {
        lemma_found(cs@, kc@, 0);
    }
    let mut open: Vec<char> = Vec::new();
    open.push('[');
    assert(open@ =~= seq!['[']);
    let b = match crate::scene::find_in(&cs, &open, k + kc.len()) {
        Some(b) => b,
        None => return None,
    };
    proof {
        lemma_found(cs@, open@, (k + kc@.len()) as int);
    }
    let start = b + 1;
    let mut depth: usize = 1;
    let mut i = start;
    let mut closed = false;
    while i < n && !closed
        invariant
            1 <= start <= i <= n == cs@.len(),
            !closed ==> 1 <= depth <= i - start + 1 && closing_bracket(cs@, start as int, 1)
                == closing_bracket(cs@, i as int, depth as int),
            closed ==> i > start && closing_bracket(cs@, start as int, 1) == Some(i - 1),
        decreases n - i,
    {
        let c = cs[i];
        if c == '[' {
            depth = depth + 1;
        } else if c == ']' {
            if depth == 1 {
                closed = true;
            } else {
                depth = depth - 1;
            }
        }
        i = i + 1;
    }
    let result_end = if closed {
        i - 1
    } else {
        start
    };
    Some(string_of(&cs, start, result_end))
}

// -------------------------------------------------------------- processes --

/// What a real engine run in flight is doing.
#[derive(Clone, Copy, PartialEq, Debug)]
pub enum ProcKind {
    Train,
    Sweep,
}

/// What a real sweep would measure.
pub enum SweepTarget {
    /// The zealot export at this path, swept across PD gain and friction.
    Zealot(String),
    /// The built-in run's newest checkpoint, swept across mass and force.
    BuiltIn,
}

/// The sweep to run: the zealot export when it exists, else the built-in
/// run's newest checkpoint when there is one, else nothing.
pub fn sweep_target(zealot_ckpt: &str, zealot_ckpt_present: bool, builtin_ckpts: usize) -> (r:
    Option<SweepTarget>)
    ensures
        zealot_ckpt_present ==> (r matches Some(SweepTarget::Zealot(p)) && p@ == zealot_ckpt@),
        !zealot_ckpt_present && builtin_ckpts > 0 ==> r matches Some(SweepTarget::BuiltIn),
        !zealot_ckpt_present && builtin_ckpts == 0 ==> r is None,
{
    if zealot_ckpt_present {
        Some(SweepTarget::Zealot(String::from_str(zealot_ckpt)))
    } else if builtin_ckpts > 0 {
        Some(SweepTarget::BuiltIn)
    } else {
        None
    }
}

/// Whether a real sweep has anything to measure: a zealot export, or a
/// checkpoint of the built-in run.
pub fn can_sweep(zealot_ckpt_present: bool, builtin_ckpts: usize) -> (b: bool)
    ensures
        b == (zealot_ckpt_present || builtin_ckpts > 0),
{
    sweep_target("", zealot_ckpt_present, builtin_ckpts).is_some()
}

// --------------------------------------------------------------- rollouts --

/// `str::split` by a non-empty pattern: the pieces between its occurrences,
/// left to right — always at least one.
pub open spec fn split_by(s: Seq<char>, p: Seq<char>) -> Seq<Seq<char>>
    decreases s.len(),
{
    if p.len() == 0 {
        seq![s]
    } else {
        match find_from(s, p, 0) {
            None => seq![s],
            Some(i) => {
                proof {
                    lemma_find_from_found(s, p, 0);
                }
                seq![s.take(i)] + split_by(s.skip(i + p.len()), p)
            },
        }
    }
}

pub open spec fn texts_of(v: Seq<String>) -> Seq<Seq<char>> {
    v.map_values(|t: String| t@)
}

/// The pieces of `s` between occurrences of `p`.
pub fn split_pieces(s: &str, p: &str) -> (v: Vec<String>)
    requires
        p@.len() > 0,
    ensures
        texts_of(v@) == split_by(s@, p@),
{
    let cs = chars_of(s);
    let pc = chars_of(p);
    let n = cs.len();
    let mut out: Vec<String> = Vec::new();
    let mut pos: usize = 0;
    assert(cs@.skip(0) =~= cs@);
    loop
        invariant
            pos <= n == cs@.len(),
            cs@ == s@,
            pc@ == p@,
            pc@.len() > 0,
            split_by(s@, p@) == texts_of(out@) + split_by(cs@.skip(pos as int), p@),
        decreases n - pos,
    {
        let ghost rest = cs@.skip(pos as int);
        match find_in(&cs, &pc, pos) {
            Some(k) => {
                proof {
                    lemma_find_from_found(cs@, pc@, pos as int);
                    lemma_find_shift(cs@, pc@, pos as int, k as int);
                    assert(rest.take(k - pos) =~= cs@.subrange(pos as int, k as int));
                    assert(rest.skip(k - pos + pc@.len()) =~= cs@.skip(k + pc@.len()));
                }
                let piece = string_of(&cs, pos, k);
                let ghost before = texts_of(out@);
                out.push(piece);
                assert(texts_of(out@) =~= before.push(piece@));
                assert(split_by(rest, p@) == seq![rest.take(k - pos)] + split_by(
                    cs@.skip(k + pc@.len()),
                    p@,
                ));
                assert(texts_of(out@) + split_by(cs@.skip(k + pc@.len()), p@) =~= before + split_by(
                    rest,
                    p@,
                ));
                pos = k + pc.len();
            },
            None => {
                proof {
                    lemma_find_none_shift(cs@, pc@, pos as int);
                }
                let piece = string_of(&cs, pos, n);
                assert(piece@ =~= rest);
                let ghost before = texts_of(out@);
                out.push(piece);
                assert(texts_of(out@) =~= before.push(piece@));
                assert(texts_of(out@) =~= before + split_by(rest, p@));
                return out;
            },
        }
    }
}

/// Searching the rest of a text from its start finds what searching the
/// whole text from that point finds, shifted.
proof fn lemma_find_shift(t: Seq<char>, p: Seq<char>, pos: int, k: int)
    requires
        0 <= pos <= t.len(),
        find_from(t, p, pos) == Some(k),
    ensures
        find_from(t.skip(pos), p, 0) == Some(k - pos),
{
    lemma_find_shift_from(t, p, pos, 0);
}

proof fn lemma_find_shift_from(t: Seq<char>, p: Seq<char>, pos: int, i: int)
    requires
        0 <= pos <= t.len(),
        0 <= i,
    ensures
        find_from(t.skip(pos), p, i) == match find_from(t, p, pos + i) {
            Some(k) => Some(k - pos),
            None => None::<int>,
        },
    decreases t.len() + 1 - (pos + i),
{
    let u = t.skip(pos);
    if i + p.len() > u.len() {
    } else {
        assert(u.subrange(i, i + p.len()) =~= t.subrange(pos + i, pos + i + p.len()));
        if !occurs_at(u, p, i) {
            lemma_find_shift_from(t, p, pos, i + 1);
        }
    }
}

proof fn lemma_find_none_shift(t: Seq<char>, p: Seq<char>, pos: int)
    requires
        0 <= pos <= t.len(),
        find_from(t, p, pos) is None,
    ensures
        find_from(t.skip(pos), p, 0) is None,
{
    lemma_find_shift_from(t, p, pos, 0);
}

/// `str::trim_start_matches(c)`: every leading `c` removed.
pub open spec fn strip_start(s: Seq<char>, c: char) -> Seq<char>
    decreases s.len(),
{
    if s.len() > 0 && s[0] == c {
        strip_start(s.drop_first(), c)
    } else {
        s
    }
}

/// `s[from..to]` with every leading `a` and every trailing `b` removed.
fn strip_bounds(cs: &Vec<char>, from: usize, to: usize, a: char, b: char) -> (r: (usize, usize))
    requires
        from <= to <= cs@.len(),
    ensures
        from <= r.0 <= r.1 <= to,
        cs@.subrange(r.0 as int, r.1 as int) == trim_end(
            strip_start(cs@.subrange(from as int, to as int), a),
            b,
        ),
{
    let ghost s = cs@.subrange(from as int, to as int);
    let mut x = from;
    while x < to && cs[x] == a
        invariant
            from <= x <= to <= cs@.len(),
            strip_start(s, a) == strip_start(cs@.subrange(x as int, to as int), a),
        decreases to - x,
    {
        assert(cs@.subrange(x as int, to as int).drop_first() =~= cs@.subrange(x + 1, to as int));
        x = x + 1;
    }
    let ghost t = cs@.subrange(x as int, to as int);
    let mut y = to;
    while y > x && cs[y - 1] == b
        invariant
            x <= y <= to <= cs@.len(),
            t == cs@.subrange(x as int, to as int),
            trim_end(t, b) == trim_end(cs@.subrange(x as int, y as int), b),
        decreases y - x,
    {
        assert(cs@.subrange(x as int, y as int).drop_last() =~= cs@.subrange(x as int, y - 1));
        y = y - 1;
    }
    (x, y)
}

/// A joint name as a rollout lists it: trimmed, its quotes removed.
pub open spec fn joint_name_of(piece: Seq<char>) -> Seq<char> {
    trim_end(strip_start(trim(piece), '"'), '"')
}

/// The joint names in a rollout's raw `joint_names` array: split at commas,
/// each trimmed and unquoted, empty ones dropped.
pub open spec fn joint_names_of(raw: Seq<char>) -> Seq<Seq<char>> {
    split_by(raw, seq![',']).map_values(|x: Seq<char>| joint_name_of(x)).filter(
        |x: Seq<char>| x.len() > 0,
    )
}

pub fn joint_names(raw: &str) -> (v: Vec<String>)
    ensures
        texts_of(v@) == joint_names_of(raw@),
{
    let comma = String::from_str(",");
    proof {
        reveal_strlit(",");
    }
    assert(comma@ =~= seq![',']);
    let pieces = split_pieces(raw, comma.as_str());
    let ghost pv = texts_of(pieces@);
    let ghost f = |x: Seq<char>| joint_name_of(x);
    let ghost keep = |x: Seq<char>| x.len() > 0;
    let mut out: Vec<String> = Vec::new();
    let mut i: usize = 0;
    assert(texts_of(out@) =~= Seq::<Seq<char>>::empty());
    while i < pieces.len()
        invariant
            0 <= i <= pieces@.len(),
            pv == texts_of(pieces@),
            pv == split_by(raw@, seq![',']),
            f == (|x: Seq<char>| joint_name_of(x)),
            keep == (|x: Seq<char>| x.len() > 0),
            texts_of(out@) == pv.take(i as int).map_values(f).filter(keep),
        decreases pieces@.len() - i,
    {
        let cs = chars_of(pieces[i].as_str());
        let (a, b) = trim_bounds(&cs, 0, cs.len());
        let (x, y) = strip_bounds(&cs, a, b, '"', '"');
        proof {
            assert(cs@.subrange(0, cs@.len() as int) =~= cs@);
            assert(cs@.subrange(x as int, y as int) == trim_end(
                strip_start(cs@.subrange(a as int, b as int), '"'),
                '"',
            ));
            assert(pv[i as int] == pieces@[i as int]@);
            let m = pv.take(i as int).map_values(f);
            assert(pv.take(i + 1).map_values(f) =~= m.push(f(pv[i as int])));
            m.lemma_filter_push(f(pv[i as int]), keep);
        }
        if x < y {
            let name = string_of(&cs, x, y);
            let ghost before = texts_of(out@);
            out.push(name);
            assert(texts_of(out@) =~= before.push(name@));
        }
        i = i + 1;
    }
    assert(pv.take(pieces@.len() as int) =~= pv);
    out
}

/// One row of a rollout's raw number array, as the pieces between `],`
/// come: trimmed, its brackets removed.
pub open spec fn row_body_of(piece: Seq<char>) -> Seq<char> {
    trim_end(strip_start(trim(piece), '['), ']')
}

/// A row's cells: split at commas and trimmed.
pub open spec fn cells_of(row: Seq<char>) -> Seq<Seq<char>> {
    split_by(row, seq![',']).map_values(|x: Seq<char>| trim(x))
}

/// The rows of a rollout's raw array of number arrays, each as its cell
/// texts; rows with nothing in them are skipped. What each cell is worth as
/// a number is for the caller.
pub open spec fn rows_of(raw: Seq<char>) -> Seq<Seq<Seq<char>>> {
    split_by(raw, seq![']', ',']).map_values(|x: Seq<char>| row_body_of(x)).filter(
        |x: Seq<char>| x.len() > 0,
    ).map_values(|r: Seq<char>| cells_of(r))
}

pub open spec fn rows_view(v: Seq<Vec<String>>) -> Seq<Seq<Seq<char>>> {
    v.map_values(|r: Vec<String>| texts_of(r@))
}

fn trimmed_cells(row: &str) -> (v: Vec<String>)
    ensures
        texts_of(v@) == cells_of(row@),
{
    let comma = String::from_str(",");
    proof {
        reveal_strlit(",");
    }
    assert(comma@ =~= seq![',']);
    let pieces = split_pieces(row, comma.as_str());
    let ghost pv = texts_of(pieces@);
    let mut out: Vec<String> = Vec::new();
    let mut i: usize = 0;
    while i < pieces.len()
        invariant
            0 <= i <= pieces@.len(),
            pv == texts_of(pieces@),
            pv == split_by(row@, seq![',']),
            texts_of(out@) == pv.take(i as int).map_values(|x: Seq<char>| trim(x)),
        decreases pieces@.len() - i,
    {
        let cs = chars_of(pieces[i].as_str());
        let (a, b) = trim_bounds(&cs, 0, cs.len());
        assert(cs@.subrange(0, cs@.len() as int) =~= cs@);
        assert(pv[i as int] == pieces@[i as int]@);
        let cell = string_of(&cs, a, b);
        let ghost before = texts_of(out@);
        out.push(cell);
        assert(texts_of(out@) =~= before.push(cell@));
        assert(pv.take(i + 1).map_values(|x: Seq<char>| trim(x)) =~= pv.take(i as int).map_values(
            |x: Seq<char>| trim(x),
        ).push(trim(pv[i as int])));
        i = i + 1;
    }
    assert(pv.take(pieces@.len() as int) =~= pv);
    out
}

pub fn rollout_rows(raw: &str) -> (v: Vec<Vec<String>>)
    ensures
        rows_view(v@) == rows_of(raw@),
{
    let sep = String::from_str("],");
    proof {
        reveal_strlit("],");
    }
    assert(sep@ =~= seq![']', ',']);
    let pieces = split_pieces(raw, sep.as_str());
    let ghost pv = texts_of(pieces@);
    let ghost f = |x: Seq<char>| row_body_of(x);
    let ghost keep = |x: Seq<char>| x.len() > 0;
    let ghost g = |r: Seq<char>| cells_of(r);
    let mut out: Vec<Vec<String>> = Vec::new();
    let mut i: usize = 0;
    assert(rows_view(out@) =~= Seq::<Seq<Seq<char>>>::empty());
    while i < pieces.len()
        invariant
            0 <= i <= pieces@.len(),
            pv == texts_of(pieces@),
            pv == split_by(raw@, seq![']', ',']),
            f == (|x: Seq<char>| row_body_of(x)),
            keep == (|x: Seq<char>| x.len() > 0),
            g == (|r: Seq<char>| cells_of(r)),
            rows_view(out@) == pv.take(i as int).map_values(f).filter(keep).map_values(g),
        decreases pieces@.len() - i,
    {
        let cs = chars_of(pieces[i].as_str());
        let (a, b) = trim_bounds(&cs, 0, cs.len());
        let (x, y) = strip_bounds(&cs, a, b, '[', ']');
        let ghost m = pv.take(i as int).map_values(f);
        proof {
            assert(cs@.subrange(0, cs@.len() as int) =~= cs@);
            assert(pv[i as int] == pieces@[i as int]@);
            assert(pv.take(i + 1).map_values(f) =~= m.push(f(pv[i as int])));
            m.lemma_filter_push(f(pv[i as int]), keep);
        }
        if x < y {
            let body = string_of(&cs, x, y);
            let cells = trimmed_cells(body.as_str());
            let ghost before = rows_view(out@);
            out.push(cells);
            proof {
                assert(rows_view(out@) =~= before.push(texts_of(cells@)));
                assert(m.push(f(pv[i as int])).filter(keep) == m.filter(keep).push(f(pv[i as int])));
                assert(m.filter(keep).push(f(pv[i as int])).map_values(g) =~= m.filter(
                    keep,
                ).map_values(g).push(g(f(pv[i as int]))));
            }
        } else {
            proof {
                assert(m.push(f(pv[i as int])).filter(keep) == m.filter(keep));
            }
        }
        i = i + 1;
    }
    assert(pv.take(pieces@.len() as int) =~= pv);
    out
}

/// The first position at or after `i` holding `,`, a line break or `}`.
pub open spec fn value_end(t: Seq<char>, i: int) -> Option<int>
    decreases t.len() - i,
{
    if i < 0 || i >= t.len() {
        None
    } else if t[i] == ',' || t[i] == '\n' || t[i] == '}' {
        Some(i)
    } else {
        value_end(t, i + 1)
    }
}

/// The text of a number field in a rollout, as `find_num` reads it: after
/// the first `key`, after the next `:`, up to the next `,`, line break or
/// `}`, trimmed. `None` when any of those is missing.
pub open spec fn number_after_of(text: Seq<char>, key: Seq<char>) -> Option<Seq<char>> {
    match find_from(text, key, 0) {
        None => None,
        Some(k) => {
            let rest = text.skip(k + key.len());
            match find_char_from(rest, ':', 0) {
                None => None,
                Some(c) => {
                    let tail = trim_start(rest.skip(c + 1));
                    match value_end(tail, 0) {
                        None => None,
                        Some(e) => Some(trim(tail.take(e))),
                    }
                },
            }
        },
    }
}

fn value_end_exec(t: &Vec<char>, i: usize) -> (r: Option<usize>)
    requires
        i <= t@.len(),
    ensures
        match r {
            Some(e) => value_end(t@, i as int) == Some(e as int) && e < t@.len(),
            None => value_end(t@, i as int) is None,
        },
    decreases t@.len() - i,
{
    if i >= t.len() {
        None
    } else if t[i] == ',' || t[i] == '\n' || t[i] == '}' {
        Some(i)
    } else {
        value_end_exec(t, i + 1)
    }
}

/// The text of the number field `key` in a rollout.
pub fn number_after(text: &str, key: &str) -> (r: Option<String>)
    ensures
        match r {
            Some(s) => number_after_of(text@, key@) == Some(s@),
            None => number_after_of(text@, key@) is None,
        },
{
    let cs = chars_of(text);
    let kc = chars_of(key);
    let k = match find_in(&cs, &kc, 0) {
        Some(k) => k,
        None => return None,
    };
    proof {
        lemma_find_from_found(cs@, kc@, 0);
    }
    let kl = kc.len();
    let cl = cs.len();
    assert(k + kl <= cl);
    let rest_s = string_of(&cs, k + kl, cl);
    let rest = chars_of(rest_s.as_str());
    assert(rest@ =~= text@.skip(k + key@.len()));
    let mut colon: Vec<char> = Vec::new();
    colon.push(':');
    assert(colon@ =~= seq![':']);
    let c = match find_in(&rest, &colon, 0) {
        Some(c) => c,
        None => return None,
    };
    proof {
        lemma_find_from_found(rest@, colon@, 0);
    }
    let tail_s = string_of(&rest, c + 1, rest.len());
    let tail_full = chars_of(tail_s.as_str());
    assert(tail_full@ =~= rest@.skip(c + 1));
    let (ta, _tb) = trim_start_bound(&tail_full);
    let tail_v = string_of(&tail_full, ta, tail_full.len());
    let tail = chars_of(tail_v.as_str());
    assert(tail@ == trim_start(rest@.skip(c + 1)));
    let e = match value_end_exec(&tail, 0) {
        Some(e) => e,
        None => return None,
    };
    let (x, y) = trim_bounds(&tail, 0, e);
    assert(tail@.subrange(0, e as int) =~= tail@.take(e as int));
    Some(string_of(&tail, x, y))
}

/// Where `cs` starts once leading white space is skipped.
fn trim_start_bound(cs: &Vec<char>) -> (r: (usize, usize))
    ensures
        r.0 <= cs@.len(),
        r.1 == cs@.len(),
        cs@.subrange(r.0 as int, cs@.len() as int) == trim_start(cs@),
{
    let n = cs.len();
    let mut a: usize = 0;
    assert(cs@.subrange(0, n as int) =~= cs@);
    while a < n && crate::text::is_space_exec(cs[a])
        invariant
            a <= n == cs@.len(),
            trim_start(cs@) == trim_start(cs@.subrange(a as int, n as int)),
        decreases n - a,
    {
        assert(cs@.subrange(a as int, n as int).drop_first() =~= cs@.subrange(a + 1, n as int));
        a = a + 1;
    }
    (a, n)
}

} // verus!
