//! Sim-to-sim against MuJoCo: where the harness is expected, how the console
//! says what is missing before it offers the run, and reading what the
//! harness printed.
//!
//! The harness is zealot's own Python script, driven as a subprocess; this
//! module reads its stdout. It tolerates everything else on the stream —
//! MuJoCo, EGL and the harness's own diagnostics print freely — and picks
//! out the observation width and one line per attempt.

use vstd::prelude::*;

use crate::ckpt::{last_newline, lemma_last_newline, lemma_last_newline_piece};
use crate::scene::{find_from, find_in, occurs_at, occurs_at_exec};
use crate::text::{
    chars_of, parse_u64, parse_u64_of, push_str, split_whitespace, string_of, strings_view, trim,
    trim_bounds, words,
};

verus! {

/// zealot's checkout, as `scripts/setup-zealot.sh` lays it out.
pub const HARNESS: &'static str = "zealot-stack/zealot/scripts/sim2sim_g1_mujoco.py";

/// Interpreter with MuJoCo importable.
pub const VENV_PY: &'static str = "mujoco-stack/venv/bin/python3";

/// The scene the harness expects — flat terrain, feet-only collision.
pub const SCENE: &'static str =
    "mujoco-stack/playground/mujoco_playground/_src/locomotion/g1/xmls/scene_mjx_feetonly_flat_terrain.xml";

/// The harness script's path.
pub fn harness_path() -> (p: String)
    ensures
        p@ == HARNESS@,
{
    String::from_str(HARNESS)
}

/// What is missing, in the order it has to be fixed.
pub open spec fn why_unavailable_of(harness: bool, interpreter: bool, scene: bool) -> Option<
    Seq<char>,
> {
    if !harness {
        Some("no MuJoCo harness at "@ + HARNESS@ + " — run scripts/setup-zealot.sh"@)
    } else if !interpreter {
        Some("no MuJoCo interpreter at "@ + VENV_PY@)
    } else if !scene {
        Some("no G1 scene at "@ + SCENE@)
    } else {
        None
    }
}

/// Why the MuJoCo arm cannot run, for a control that says so instead of
/// failing when pressed; `None` when it can. Takes whether the harness, the
/// interpreter and the scene file are present.
pub fn why_unavailable(harness: bool, interpreter: bool, scene: bool) -> (r: Option<String>)
    ensures
        match r {
            Some(s) => why_unavailable_of(harness, interpreter, scene) == Some(s@),
            None => why_unavailable_of(harness, interpreter, scene) is None,
        },
{
    if !harness {
        let mut s = String::from_str("no MuJoCo harness at ");
        push_str(&mut s, HARNESS);
        push_str(&mut s, " — run scripts/setup-zealot.sh");
        Some(s)
    } else if !interpreter {
        let mut s = String::from_str("no MuJoCo interpreter at ");
        push_str(&mut s, VENV_PY);
        Some(s)
    } else if !scene {
        let mut s = String::from_str("no G1 scene at ");
        push_str(&mut s, SCENE);
        Some(s)
    } else {
        None
    }
}

// ------------------------------------------------------------------ output --

/// One attempt as the harness reports it — `attempt 3: fell after 3.2s,
/// traveled 0.94 m` — with its seconds and metres as text. Whether it fell
/// is read from the words before `after`; a timeout is survival.
pub struct AttemptText {
    pub seconds: String,
    pub metres: String,
    pub fell: bool,
}

/// What a harness run printed: its attempts in order, and the observation
/// frame width the checkpoint turned out to use (0 when not reported).
/// An attempt counts only if both its numbers read as numbers, which is for
/// the caller that holds the floats to decide.
pub struct HarnessRead {
    pub attempts: Vec<AttemptText>,
    pub obs_frame: usize,
}

pub open spec fn starts_with(s: Seq<char>, p: Seq<char>) -> bool {
    s.len() >= p.len() && s.take(p.len() as int) == p
}

pub type AttemptView = (Seq<char>, Seq<char>, bool);

/// What one line of output does to what was read so far.
pub open spec fn harness_line(r: (Seq<AttemptView>, usize), raw: Seq<char>) -> (
    Seq<AttemptView>,
    usize,
) {
    let l = trim(raw);
    if starts_with(l, "obs frame "@) {
        let ws = words(l.skip(10));
        if ws.len() > 0 && parse_u64_of(ws[0], 10) is Some && parse_u64_of(ws[0], 10)->0
            <= usize::MAX {
            (r.0, parse_u64_of(ws[0], 10)->0 as usize)
        } else {
            r
        }
    } else if !starts_with(l, "attempt "@) {
        r
    } else {
        match find_from(l, " after "@, 0) {
            None => r,
            Some(i) => {
                let why = l.take(i);
                let tail = l.skip(i + 7);
                match find_from(tail, "s, traveled "@, 0) {
                    None => r,
                    Some(j) => {
                        let ws = words(tail.skip(j + 12));
                        if ws.len() == 0 {
                            r
                        } else {
                            (
                                r.0.push(
                                    (trim(tail.take(j)), ws[0], find_from(why, "fell"@, 0) is Some),
                                ),
                                r.1,
                            )
                        }
                    },
                }
            },
        }
    }
}

/// What the harness output reads as: its lines applied in order.
pub open spec fn harness_of(t: Seq<char>) -> (Seq<AttemptView>, usize)
    decreases t.len(),
{
    match last_newline(t) {
        None => harness_line((seq![], 0), t),
        Some(i) => {
            proof {
                lemma_last_newline(t);
            }
            harness_line(harness_of(t.take(i)), t.skip(i + 1))
        },
    }
}

pub open spec fn attempts_view(v: Seq<AttemptText>) -> Seq<AttemptView> {
    v.map_values(|a: AttemptText| (a.seconds@, a.metres@, a.fell))
}

/// Whether `cs` starts with `p`.
fn starts_with_exec(cs: &Vec<char>, p: &str) -> (b: bool)
    ensures
        b == starts_with(cs@, p@),
{
    let pc = chars_of(p);
    if pc.len() > cs.len() {
        return false;
    }
    let b = occurs_at_exec(cs, &pc, 0);
    assert(cs@.subrange(0, pc@.len() as int) =~= cs@.take(pc@.len() as int));
    b
}

/// Applies one line (`cs[s..e]`) to what was read so far.
fn read_line(cs: &Vec<char>, s: usize, e: usize, r: &mut HarnessRead)
    requires
        s <= e <= cs@.len(),
    ensures
        (attempts_view(final(r).attempts@), final(r).obs_frame) == harness_line(
            (attempts_view(old(r).attempts@), old(r).obs_frame),
            cs@.subrange(s as int, e as int),
        ),
{
    let ghost before = (attempts_view(r.attempts@), r.obs_frame);
    let (a, b) = trim_bounds(cs, s, e);
    let ls = string_of(cs, a, b);
    let l = chars_of(ls.as_str());
    let ghost lv = trim(cs@.subrange(s as int, e as int));
    assert(l@ == lv);
    if starts_with_exec(&l, "obs frame ") {
        proof {
            reveal_strlit("obs frame ");
        }
        let rest = string_of(&l, 10, l.len());
        assert(rest@ =~= lv.skip(10));
        let ws = split_whitespace(rest.as_str());
        if ws.len() > 0 {
            assert(strings_view(ws@)[0] == ws@[0]@);
            match parse_u64(ws[0].as_str()) {
                Some(v) => {
                    if v <= usize::MAX as u64 {
                        r.obs_frame = v as usize;
                    }
                },
                None => {},
            }
        }
        return;
    }
    if !starts_with_exec(&l, "attempt ") {
        return;
    }
    let after = chars_of(" after ");
    let i = match find_in(&l, &after, 0) {
        Some(i) => i,
        None => return ,
    };
    proof {
        reveal_strlit(" after ");
        crate::scene::lemma_find_from_found(l@, after@, 0);
    }
    let tail_s = string_of(&l, i + 7, l.len());
    let tail = chars_of(tail_s.as_str());
    assert(tail@ =~= lv.skip(i + 7));
    let trav = chars_of("s, traveled ");
    let j = match find_in(&tail, &trav, 0) {
        Some(j) => j,
        None => return ,
    };
    proof {
        reveal_strlit("s, traveled ");
        crate::scene::lemma_find_from_found(tail@, trav@, 0);
    }
    let rest = string_of(&tail, j + 12, tail.len());
    assert(rest@ =~= tail@.skip(j + 12));
    let ws = split_whitespace(rest.as_str());
    if ws.len() == 0 {
        return;
    }
    assert(strings_view(ws@)[0] == ws@[0]@);
    let (sa, sb) = trim_bounds(&tail, 0, j);
    assert(tail@.subrange(0, j as int) =~= tail@.take(j as int));
    let seconds = string_of(&tail, sa, sb);
    let why = string_of(&l, 0, i);
    let wc = chars_of(why.as_str());
    assert(wc@ =~= lv.take(i as int));
    let fell_pat = chars_of("fell");
    let fell = find_in(&wc, &fell_pat, 0).is_some();
    let ghost old_att = attempts_view(r.attempts@);
    r.attempts.push(AttemptText { seconds, metres: ws[0].clone(), fell });
    assert(attempts_view(r.attempts@) =~= old_att.push((seconds@, ws@[0]@, fell)));
}

/// Reads the harness's stdout.
pub fn parse_harness(out: &str) -> (r: HarnessRead)
    ensures
        (attempts_view(r.attempts@), r.obs_frame) == harness_of(out@),
{
    let cs = chars_of(out);
    let n = cs.len();
    let mut r = HarnessRead { attempts: Vec::new(), obs_frame: 0 };
    assert(attempts_view(r.attempts@) =~= Seq::<AttemptView>::empty());
    let mut start: usize = 0;
    let mut i: usize = 0;
    while i < n
        invariant
            start <= i <= n == cs@.len(),
            cs@ == out@,
            forall|j: int| start <= j < i ==> cs@[j] != '\n',
            start == 0 ==> (attempts_view(r.attempts@), r.obs_frame) == (
                Seq::<AttemptView>::empty(),
                0usize,
            ),
            start > 0 ==> cs@[start - 1] == '\n' && (attempts_view(r.attempts@), r.obs_frame)
                == harness_of(cs@.take(start - 1)),
        decreases n - i,
    {
        if cs[i] == '\n' {
            read_line(&cs, start, i, &mut r);
            proof {
                lemma_harness_piece(cs@, start as int, i as int);
            }
            start = i + 1;
        }
        i = i + 1;
    }
    read_line(&cs, start, n, &mut r);
    proof {
        lemma_harness_piece(cs@, start as int, n as int);
        assert(cs@.take(n as int) =~= cs@);
    }
    r
}

proof fn lemma_harness_piece(t: Seq<char>, s: int, e: int)
    requires
        0 <= s <= e <= t.len(),
        forall|j: int| s <= j < e ==> t[j] != '\n',
        s > 0 ==> t[s - 1] == '\n',
    ensures
        harness_of(t.take(e)) == harness_line(
            if s == 0 {
                (Seq::<AttemptView>::empty(), 0usize)
            } else {
                harness_of(t.take(s - 1))
            },
            t.subrange(s, e),
        ),
{
    lemma_last_newline_piece(t, s, e);
    let u = t.take(e);
    if s == 0 {
        assert(u =~= t.subrange(s, e));
    } else {
        assert(u.take(s - 1) =~= t.take(s - 1));
        assert(u.skip(s) =~= t.subrange(s, e));
    }
}

// ------------------------------------------------------------------ noise --

/// The lines of `t`: the pieces between its `\n`s, in order (a text with
/// no `\n` is one line).
pub open spec fn lines_of(t: Seq<char>) -> Seq<Seq<char>>
    decreases t.len(),
{
    match last_newline(t) {
        None => seq![t],
        Some(i) => {
            proof {
                lemma_last_newline(t);
            }
            lines_of(t.take(i)).push(t.skip(i + 1))
        },
    }
}

/// A line the reader passes over: once trimmed, it neither reports an
/// attempt nor the observation frame.
pub open spec fn quiet_line(l: Seq<char>) -> bool {
    !starts_with(trim(l), "attempt "@) && !starts_with(trim(l), "obs frame "@)
}

/// Lines applied in order to what was read so far.
pub open spec fn harness_lines(r: (Seq<AttemptView>, usize), ls: Seq<Seq<char>>) -> (
    Seq<AttemptView>,
    usize,
)
    decreases ls.len(),
{
    if ls.len() == 0 {
        r
    } else {
        harness_line(harness_lines(r, ls.drop_last()), ls.last())
    }
}

/// Joining two texts with a line break joins their lines.
proof fn lemma_lines_of_join(a: Seq<char>, b: Seq<char>)
    ensures
        lines_of(a + seq!['\n'] + b) == lines_of(a) + lines_of(b),
    decreases b.len(),
{
    let t = a + seq!['\n'] + b;
    let n = a.len() as int;
    lemma_last_newline(b);
    match last_newline(b) {
        None => {
            lemma_last_newline_piece(t, n + 1, t.len() as int);
            assert(t.take(t.len() as int) =~= t);
            assert(t.take(n) =~= a);
            assert(t.skip(n + 1) =~= b);
            assert(lines_of(a) + lines_of(b) =~= lines_of(a).push(b));
        },
        Some(j) => {
            assert forall|k: int| n + 2 + j <= k < t.len() implies t[k] != '\n' by {
                assert(t[k] == b[k - n - 1]);
            }
            lemma_last_newline_piece(t, n + 2 + j, t.len() as int);
            assert(t.take(t.len() as int) =~= t);
            let b0 = b.take(j);
            lemma_lines_of_join(a, b0);
            assert(t.take(n + 1 + j) =~= a + seq!['\n'] + b0);
            assert(t.skip(n + 2 + j) =~= b.skip(j + 1));
            assert(lines_of(a) + lines_of(b) =~= (lines_of(a) + lines_of(b0)).push(b.skip(j + 1)));
        },
    }
}

/// Reading a text is applying its lines in order.
proof fn lemma_harness_of_lines(t: Seq<char>)
    ensures
        harness_of(t) == harness_lines((Seq::<AttemptView>::empty(), 0usize), lines_of(t)),
    decreases t.len(),
{
    lemma_last_newline(t);
    let init = (Seq::<AttemptView>::empty(), 0usize);
    match last_newline(t) {
        None => {
            assert(seq![t].drop_last() =~= Seq::<Seq<char>>::empty());
            assert(harness_lines(init, Seq::<Seq<char>>::empty()) == init);
            assert(lines_of(t) == seq![t]);
            assert(harness_lines(init, seq![t]) == harness_line(init, t));
        },
        Some(i) => {
            lemma_harness_of_lines(t.take(i));
            let ls = lines_of(t.take(i)).push(t.skip(i + 1));
            assert(ls.drop_last() =~= lines_of(t.take(i)));
            assert(lines_of(t) == ls);
        },
    }
}

/// Applying two runs of lines is applying the first, then the second.
proof fn lemma_harness_lines_concat(
    r: (Seq<AttemptView>, usize),
    x: Seq<Seq<char>>,
    y: Seq<Seq<char>>,
)
    ensures
        harness_lines(r, x + y) == harness_lines(harness_lines(r, x), y),
    decreases y.len(),
{
    if y.len() == 0 {
        assert(x + y =~= x);
    } else {
        lemma_harness_lines_concat(r, x, y.drop_last());
        assert((x + y).drop_last() =~= x + y.drop_last());
        assert((x + y).last() == y.last());
    }
}

/// Quiet lines leave what was read as it was.
proof fn lemma_quiet_lines(r: (Seq<AttemptView>, usize), ls: Seq<Seq<char>>)
    requires
        forall|k: int| 0 <= k < ls.len() ==> quiet_line(#[trigger] ls[k]),
    ensures
        harness_lines(r, ls) == r,
    decreases ls.len(),
{
    if ls.len() > 0 {
        lemma_quiet_lines(r, ls.drop_last());
        assert(quiet_line(ls[ls.len() - 1]));
    }
}

/// Whatever else shares the harness's stdout — tracebacks, MuJoCo and EGL
/// warnings, the harness's own diagnostics — changes nothing that is read,
/// before the report or after it, as long as none of its lines, trimmed,
/// starts with `attempt ` or `obs frame `; on its own it reads as no
/// attempts and an observation frame of 0.
pub proof fn lemma_noise_is_ignored(out: Seq<char>, noise: Seq<char>)
    requires
        forall|k: int| 0 <= k < lines_of(noise).len() ==> quiet_line(#[trigger] lines_of(noise)[k]),
    ensures
        harness_of(out + seq!['\n'] + noise) == harness_of(out),
        harness_of(noise + seq!['\n'] + out) == harness_of(out),
        harness_of(noise) == (Seq::<AttemptView>::empty(), 0usize),
{
    let init = (Seq::<AttemptView>::empty(), 0usize);
    lemma_lines_of_join(out, noise);
    lemma_lines_of_join(noise, out);
    lemma_harness_of_lines(out + seq!['\n'] + noise);
    lemma_harness_of_lines(noise + seq!['\n'] + out);
    lemma_harness_of_lines(out);
    lemma_harness_of_lines(noise);
    lemma_harness_lines_concat(init, lines_of(out), lines_of(noise));
    lemma_harness_lines_concat(init, lines_of(noise), lines_of(out));
    lemma_quiet_lines(harness_lines(init, lines_of(out)), lines_of(noise));
    lemma_quiet_lines(init, lines_of(noise));
}

// ------------------------------------------------------------------- falls --

/// Where `find_from` stops, said without recursion: the first occurrence at
/// or after `i`, or none at all.
proof fn lemma_find_from_first(t: Seq<char>, p: Seq<char>, i: int)
    requires
        0 <= i,
    ensures
        match find_from(t, p, i) {
            Some(k) => i <= k && occurs_at(t, p, k) && forall|j: int|
                i <= j < k ==> !occurs_at(t, p, j),
            None => forall|j: int| i <= j ==> !occurs_at(t, p, j),
        },
    decreases t.len() + 1 - i,
{
    if i + p.len() > t.len() {
    } else if occurs_at(t, p, i) {
    } else {
        lemma_find_from_first(t, p, i + 1);
    }
}

/// An attempt line counts as a fall exactly when `fell` appears somewhere
/// before its first ` after ` — whatever the attempt's number, and whatever
/// else stands there.
pub proof fn lemma_fell_is_read_before_after(r: (Seq<AttemptView>, usize), raw: Seq<char>, a: int)
    requires
        harness_line(r, raw).0.len() == r.0.len() + 1,
        occurs_at(trim(raw), " after "@, a),
        forall|j: int| 0 <= j < a ==> !occurs_at(trim(raw), " after "@, j),
    ensures
        harness_line(r, raw).0.last().2 <==> exists|q: int|
            0 <= q && q + 4 <= a && #[trigger] occurs_at(trim(raw), "fell"@, q),
{
    let l = trim(raw);
    lemma_find_from_first(l, " after "@, 0);
    let i = find_from(l, " after "@, 0)->0;
    assert(i == a) by {
        if i < a {
            assert(!occurs_at(l, " after "@, i));
        }
        if a < i {
            assert(!occurs_at(l, " after "@, a));
        }
    }
    let why = l.take(a);
    lemma_find_from_first(why, "fell"@, 0);
    assert forall|q: int| 0 <= q && q + 4 <= a implies #[trigger] occurs_at(l, "fell"@, q)
        == occurs_at(why, "fell"@, q) by {
        reveal_strlit("fell");
        assert(l.subrange(q, q + 4) =~= why.subrange(q, q + 4));
    }
    match find_from(why, "fell"@, 0) {
        Some(k) => {
            reveal_strlit("fell");
            assert(k + 4 <= a);
            assert(occurs_at(l, "fell"@, k));
        },
        None => {
            reveal_strlit("fell");
            assert forall|q: int| 0 <= q && q + 4 <= a implies !#[trigger] occurs_at(
                l,
                "fell"@,
                q,
            ) by {
                assert(!occurs_at(why, "fell"@, q));
            }
        },
    }
}

/// The numbers of an attempt line: its seconds are what stands between its
/// first ` after ` and the first `s, traveled ` behind that, trimmed, and its
/// metres are the first word after that `s, traveled `.
pub proof fn lemma_attempt_numbers(r: (Seq<AttemptView>, usize), raw: Seq<char>, a: int, b: int)
    requires
        harness_line(r, raw).0.len() == r.0.len() + 1,
        occurs_at(trim(raw), " after "@, a),
        forall|j: int| 0 <= j < a ==> !occurs_at(trim(raw), " after "@, j),
        occurs_at(trim(raw).skip(a + 7), "s, traveled "@, b),
        forall|j: int| 0 <= j < b ==> !#[trigger] occurs_at(trim(raw).skip(a + 7), "s, traveled "@, j),
    ensures
        harness_line(r, raw).0.last().0 == trim(trim(raw).subrange(a + 7, a + 7 + b)),
        harness_line(r, raw).0.last().1 == words(trim(raw).skip(a + 7 + b + 12))[0],
{
    reveal_strlit(" after ");
    reveal_strlit("s, traveled ");
    let l = trim(raw);
    lemma_find_from_first(l, " after "@, 0);
    let i = find_from(l, " after "@, 0)->0;
    assert(i == a) by {
        if i < a {
            assert(!occurs_at(l, " after "@, i));
        }
        if a < i {
            assert(!occurs_at(l, " after "@, a));
        }
    }
    let tail = l.skip(a + 7);
    lemma_find_from_first(tail, "s, traveled "@, 0);
    let j = find_from(tail, "s, traveled "@, 0)->0;
    assert(j == b) by {
        if j < b {
            assert(!occurs_at(tail, "s, traveled "@, j));
        }
        if b < j {
            assert(!occurs_at(tail, "s, traveled "@, b));
        }
    }
    assert(tail.take(b) =~= l.subrange(a + 7, a + 7 + b));
    assert(tail.skip(b + 12) =~= l.skip(a + 7 + b + 12));
}

} // verus!
