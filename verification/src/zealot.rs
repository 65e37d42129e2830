//! Reading zealot's metric stream.
//!
//! zealot prints a metric table row per iteration
//! (`iter curr step_rew falls torso_z lr kl sec`) and then a `[rb]` line
//! breaking the reward into named terms. These readers decide which lines are
//! metrics and pull out their fields as text; turning a field's text into a
//! float is left to the caller, so a `NaN` the simulator printed arrives as
//! `NaN` rather than being dropped. [`ZealotStream`] holds a row until the
//! breakdown of the same iteration arrives and then yields the iteration
//! whole, with the environment steps summed so far.

use vstd::prelude::*;

use crate::text::{
    chars_of, parse_u64, parse_u64_of, push_char, same_text, split_whitespace, string_of,
    strings_view, words,
};

verus! {

broadcast use vstd::seq_lib::group_seq_properties;

/// Where the trainer binary is expected unless the environment says
/// otherwise. `scripts/setup-zealot.sh` builds exactly this path.
pub const DEFAULT_BIN: &'static str = "zealot-stack/zealot/target/release/biped_train_gpu";

/// zealot's iteration count for a budget of `total` env-steps at `envs`
/// envs: it runs 24 steps per env per iteration, so the budget converts
/// rather than changing meaning; at least one iteration.
pub open spec fn iterations_of(total: nat, envs: nat) -> nat {
    let n = total / (envs * 24);
    if n >= 1 { n } else { 1 }
}

/// [`iterations_of`], for the command that starts zealot.
pub fn iterations_for(total: u64, envs: u64) -> (n: u64)
    requires
        0 < envs,
        envs * 24 <= u64::MAX,
    ensures
        n == iterations_of(total as nat, envs as nat),
{
    let n = total / (envs * 24);
    if n >= 1 {
        n
    } else {
        1
    }
}

/// zealot's reward terms, in the order the app's four term slots expect.
pub open spec fn term_names() -> Seq<Seq<char>> {
    seq![
        "track_lin_vel"@,
        "upright"@,
        "action_rate"@,
        "torque_leg"@,
    ]
}

/// zealot's reward terms, in the order the app's four term slots expect.
pub const TERMS: [&'static str; 4] = ["track_lin_vel", "upright", "action_rate", "torque_leg"];

/// One row of zealot's metric table, as text: the step reward (field 2) and
/// the iteration's seconds (field 7).
pub struct Row {
    pub reward: String,
    pub secs: String,
}

/// A data row has exactly eight fields and starts with an iteration number;
/// the header has eight fields too, which is why the number matters.
pub open spec fn row_of(line: Seq<char>) -> Option<(Seq<char>, Seq<char>)> {
    let f = words(line);
    if f.len() == 8 && parse_u64_of(f[0], 10) is Some {
        Some((f[2], f[7]))
    } else {
        None
    }
}

pub fn parse_row(line: &str) -> (r: Option<Row>)
    ensures
        match r {
            Some(row) => row_of(line@) == Some((row.reward@, row.secs@)),
            None => row_of(line@) is None,
        },
{
    let f = split_whitespace(line);
    if f.len() != 8 {
        return None;
    }
    assert(strings_view(f@)[0] == f@[0]@);
    if parse_u64(f[0].as_str()).is_none() {
        return None;
    }
    assert(strings_view(f@)[2] == f@[2]@);
    assert(strings_view(f@)[7] == f@[7]@);
    Some(Row { reward: f[2].clone(), secs: f[7].clone() })
}

/// zealot's per-iteration breakdown, `[rb] iter N key=value key=value …`:
/// every term in order of appearance as text, and the two counts.
pub struct Rb {
    pub pairs: Vec<(String, String)>,
    pub samples: u64,
    pub fell: u64,
}

/// A token split at its first `=`, if it has one.
#[verifier::opaque]
pub open spec fn split_eq(w: Seq<char>) -> Option<(Seq<char>, Seq<char>)> {
    if exists|i: int| 0 <= i < w.len() && w[i] == '=' {
        let i = choose|i: int| 0 <= i < w.len() && w[i] == '=' && forall|j: int| 0 <= j < i ==> w[j] != '=';
        Some((w.take(i), w.skip(i + 1)))
    } else {
        None
    }
}

/// A count, or zero when it does not read as one.
pub open spec fn count_of(v: Seq<char>) -> u64 {
    match parse_u64_of(v, 10) {
        Some(n) => n,
        None => 0,
    }
}

/// The breakdown the tokens `ws` describe: `samples=` and `term_fell=` set
/// the counts (the last one wins), every other `key=value` is a term.
pub open spec fn rb_of(ws: Seq<Seq<char>>) -> (Seq<(Seq<char>, Seq<char>)>, u64, u64)
    decreases ws.len(),
{
    if ws.len() == 0 {
        (seq![], 0, 0)
    } else {
        rb_step(rb_of(ws.drop_last()), ws.last())
    }
}

/// What one token does to a breakdown read so far.
pub open spec fn rb_step(acc: (Seq<(Seq<char>, Seq<char>)>, u64, u64), w: Seq<char>) -> (
    Seq<(Seq<char>, Seq<char>)>,
    u64,
    u64,
) {
    let (p, s, f) = acc;
    match split_eq(w) {
        None => (p, s, f),
        Some((k, v)) => if k == "samples"@ {
            (p, count_of(v), f)
        } else if k == "term_fell"@ {
            (p, s, count_of(v))
        } else {
            (p.push((k, v)), s, f)
        },
    }
}

pub open spec fn rb_prefix() -> Seq<char> {
    seq!['[', 'r', 'b', ']', ' ']
}

pub open spec fn rb_line_of(line: Seq<char>) -> Option<(Seq<(Seq<char>, Seq<char>)>, u64, u64)> {
    if line.len() >= 5 && line.take(5) == rb_prefix() {
        Some(rb_of(words(line.skip(5))))
    } else {
        None
    }
}

pub open spec fn pairs_view(p: Seq<(String, String)>) -> Seq<(Seq<char>, Seq<char>)> {
    p.map_values(|kv: (String, String)| (kv.0@, kv.1@))
}

/// The first `=` in `cs`, if any.
fn first_eq(cs: &Vec<char>) -> (r: Option<usize>)
    ensures
        match r {
            Some(i) => i < cs@.len() && cs@[i as int] == '=' && forall|j: int|
                0 <= j < i ==> cs@[j] != '=',
            None => forall|j: int| 0 <= j < cs@.len() ==> cs@[j] != '=',
        },
{
    let mut i: usize = 0;
    while i < cs.len()
        invariant
            0 <= i <= cs@.len(),
            forall|j: int| 0 <= j < i ==> cs@[j] != '=',
        decreases cs@.len() - i,
    {
        if cs[i] == '=' {
            return Some(i);
        }
        i = i + 1;
    }
    None
}

fn split_eq_exec(w: &str) -> (r: Option<(String, String)>)
    ensures
        match r {
            Some(kv) => split_eq(w@) == Some((kv.0@, kv.1@)),
            None => split_eq(w@) is None,
        },
{
    let cs = chars_of(w);
    let n = cs.len();
    match first_eq(&cs) {
        Some(i) => {
            let k = string_of(&cs, 0, i);
            let v = string_of(&cs, i + 1, cs.len());
            proof {
                reveal(split_eq);
                let j = choose|j: int| 0 <= j < w@.len() && w@[j] == '=' && forall|m: int|
                    0 <= m < j ==> w@[m] != '=';
                assert(0 <= i < w@.len() && w@[i as int] == '=');
                if j < i {
                    assert(w@[j] != '=');
                }
                if j > i {
                    assert(w@[i as int] != '=');
                }
                assert(j == i);
                assert(k@ =~= w@.take(i as int));
                assert(v@ =~= w@.skip(i + 1));
            }
            Some((k, v))
        },
        None => {
            proof {
                reveal(split_eq);
            }
            None
        },
    }
}

fn count_exec(v: &str) -> (n: u64)
    ensures
        n == count_of(v@),
{
    match parse_u64(v) {
        Some(n) => n,
        None => 0,
    }
}

fn has_rb_prefix(cs: &Vec<char>) -> (b: bool)
    ensures
        b == (cs@.len() >= 5 && cs@.take(5) == rb_prefix()),
{
    let b = cs.len() >= 5 && cs[0] == '[' && cs[1] == 'r' && cs[2] == 'b' && cs[3] == ']' && cs[4]
        == ' ';
    proof {
        if cs@.len() >= 5 {
            let t = cs@.take(5);
            assert(t[0] == cs@[0] && t[1] == cs@[1] && t[2] == cs@[2] && t[3] == cs@[3] && t[4]
                == cs@[4]);
            if b {
                assert(t =~= rb_prefix());
            }
        }
    }
    b
}

/// The breakdown the words `ws` describe.
fn rb_of_words(ws: &Vec<String>) -> (rb: Rb)
    ensures
        rb_of(strings_view(ws@)) == (pairs_view(rb.pairs@), rb.samples, rb.fell),
{
    let ghost wv = strings_view(ws@);
    let mut pairs: Vec<(String, String)> = Vec::new();
    let mut samples: u64 = 0;
    let mut fell: u64 = 0;
    let mut i: usize = 0;
    assert(pairs_view(pairs@) =~= Seq::<(Seq<char>, Seq<char>)>::empty());
    while i < ws.len()
        invariant
            0 <= i <= ws@.len(),
            wv == strings_view(ws@),
            rb_of(wv.take(i as int)) == (pairs_view(pairs@), samples, fell),
        decreases ws@.len() - i,
    {
        let ghost t = wv.take(i + 1);
        assert(t.drop_last() =~= wv.take(i as int));
        assert(t.last() == ws@[i as int]@);
        fold_token(ws[i].as_str(), &mut pairs, &mut samples, &mut fell);
        i = i + 1;
    }
    assert(wv.take(ws@.len() as int) =~= wv);
    Rb { pairs, samples, fell }
}

pub fn parse_rb(line: &str) -> (r: Option<Rb>)
    ensures
        match r {
            Some(rb) => rb_line_of(line@) == Some((pairs_view(rb.pairs@), rb.samples, rb.fell)),
            None => rb_line_of(line@) is None,
        },
{
    let cs = chars_of(line);
    if !has_rb_prefix(&cs) {
        return None;
    }
    let rest = string_of(&cs, 5, cs.len());
    assert(rest@ =~= line@.skip(5));
    let ws = split_whitespace(rest.as_str());
    Some(rb_of_words(&ws))
}

/// Applies one `[rb]` token to the breakdown read so far.
fn fold_token(tok: &str, pairs: &mut Vec<(String, String)>, samples: &mut u64, fell: &mut u64)
    ensures
        (pairs_view(final(pairs)@), *final(samples), *final(fell)) == rb_step(
            (pairs_view(old(pairs)@), *old(samples), *old(fell)),
            tok@,
        ),
{
    match split_eq_exec(tok) {
        None => {},
        Some((k, v)) => {
            proof {
                reveal_strlit("samples");
                reveal_strlit("term_fell");
            }
            if same_text(k.as_str(), "samples") {
                *samples = count_exec(v.as_str());
            } else if same_text(k.as_str(), "term_fell") {
                *fell = count_exec(v.as_str());
            } else {
                let ghost before = pairs_view(pairs@);
                pairs.push((k, v));
                assert(pairs_view(pairs@) =~= before.push((k@, v@)));
            }
        },
    }
}

/// The first term named `name`.
pub open spec fn term_of(pairs: Seq<(Seq<char>, Seq<char>)>, name: Seq<char>) -> Option<Seq<char>>
    decreases pairs.len(),
{
    if pairs.len() == 0 {
        None
    } else if pairs[0].0 == name {
        Some(pairs[0].1)
    } else {
        term_of(pairs.drop_first(), name)
    }
}

impl Rb {
    /// The text of the first term called `name`; `None` when the line has no
    /// such term, which the caller reads as zero rather than as a poisoned row.
    pub fn term(&self, name: &str) -> (r: Option<&String>)
        ensures
            match r {
                Some(v) => term_of(pairs_view(self.pairs@), name@) == Some(v@),
                None => term_of(pairs_view(self.pairs@), name@) is None,
            },
    {
        let ghost pv = pairs_view(self.pairs@);
        let mut i: usize = 0;
        while i < self.pairs.len()
            invariant
                0 <= i <= self.pairs@.len(),
                pv == pairs_view(self.pairs@),
                term_of(pv, name@) == term_of(pv.skip(i as int), name@),
            decreases self.pairs@.len() - i,
        {
            assert(pv.skip(i as int)[0] == pv[i as int]);
            assert(pv.skip(i as int).drop_first() =~= pv.skip(i + 1));
            if same_text(self.pairs[i].0.as_str(), name) {
                return Some(&self.pairs[i].1);
            }
            i = i + 1;
        }
        assert(pv.skip(i as int) =~= Seq::<(Seq<char>, Seq<char>)>::empty());
        None
    }
}

// ----------------------------------------------------------------- stream --

/// Reading zealot's stdout line by line. A run prints the table row first
/// and then the `[rb]` breakdown of the same iteration; the row is held until
/// its breakdown arrives, so nobody sees a sample with half its fields.
pub struct ZealotStream {
    /// The last table row: step reward and seconds, as text.
    pub reward: String,
    pub secs: String,
    /// Environment steps so far, summed over the breakdowns.
    pub steps: u64,
}

/// One iteration, complete: the cumulative step count, the held row's
/// reward and seconds, each of the app's four terms (`None` when the
/// breakdown lacks it), and the breakdown's two counts. Rates are the
/// caller's to compute: falls per sample, samples per second.
pub struct SampleParts {
    pub step: u64,
    pub reward: String,
    pub secs: String,
    pub terms: Vec<Option<String>>,
    pub samples: u64,
    pub fell: u64,
}

pub open spec fn opt_view(o: Option<String>) -> Option<Seq<char>> {
    match o {
        Some(s) => Some(s@),
        None => None,
    }
}

/// `a + b`, held at `u64::MAX`.
pub open spec fn sat_add(a: u64, b: u64) -> u64 {
    if a + b > u64::MAX {
        u64::MAX
    } else {
        (a + b) as u64
    }
}

/// What the stream holds between lines: the held row's reward and seconds,
/// and the steps so far.
pub type StreamState = (Seq<char>, Seq<char>, u64);

/// An iteration: steps so far, reward, seconds, the four terms, samples and
/// falls.
pub type PartsView = (u64, Seq<char>, Seq<char>, Seq<Option<Seq<char>>>, u64, u64);

pub open spec fn parts_view(r: Option<SampleParts>) -> Option<PartsView> {
    match r {
        Some(p) => Some(
            (p.step, p.reward@, p.secs@, p.terms@.map_values(|t: Option<String>| opt_view(t)), p.samples, p.fell),
        ),
        None => None,
    }
}

/// What one line does to the stream: a table row replaces the held row; a
/// breakdown adds its samples to the steps (held at `u64::MAX`) and yields
/// the iteration with the held row's fields and the app's four terms; any
/// other line changes nothing.
pub open spec fn stream_step(st: StreamState, line: Seq<char>) -> (StreamState, Option<PartsView>) {
    match row_of(line) {
        Some((rw, sc)) => ((rw, sc, st.2), None),
        None => match rb_line_of(line) {
            Some((pairs, samples, fell)) => {
                let steps = sat_add(st.2, samples);
                (
                    (st.0, st.1, steps),
                    Some(
                        (
                            steps,
                            st.0,
                            st.1,
                            Seq::new(4, |i: int| term_of(pairs, term_names()[i])),
                            samples,
                            fell,
                        ),
                    ),
                )
            },
            None => (st, None),
        },
    }
}

impl ZealotStream {
    /// Nothing read yet: the held row is the zero row.
    pub fn new() -> (z: Self)
        ensures
            z.reward@ == seq!['0'],
            z.secs@ == seq!['0'],
            z.steps == 0,
    {
        let mut reward = String::new();
        push_char(&mut reward, '0');
        let mut secs = String::new();
        push_char(&mut secs, '0');
        assert(reward@ =~= seq!['0']);
        assert(secs@ =~= seq!['0']);
        ZealotStream { reward, secs, steps: 0 }
    }

    /// Reads one line. A table row is held; a breakdown completes the
    /// iteration and yields it; anything else changes nothing.
    pub fn feed(&mut self, line: &str) -> (r: Option<SampleParts>)
        ensures
            ((final(self).reward@, final(self).secs@, final(self).steps), parts_view(r))
                == stream_step((old(self).reward@, old(self).secs@, old(self).steps), line@),
    {
        if let Some(row) = parse_row(line) {
            self.reward = row.reward;
            self.secs = row.secs;
            return None;
        }
        match parse_rb(line) {
            Some(rb) => {
                self.steps = self.steps.saturating_add(rb.samples);
                let mut terms: Vec<Option<String>> = Vec::new();
                let mut i: usize = 0;
                while i < 4
                    invariant
                        0 <= i <= 4,
                        terms@.len() == i,
                        forall|j: int|
                            0 <= j < i ==> opt_view(#[trigger] terms@[j]) == term_of(
                                pairs_view(rb.pairs@),
                                term_names()[j],
                            ),
                    decreases 4 - i,
                {
                    let t = match rb.term(TERMS[i]) {
                        Some(v) => Some(v.clone()),
                        None => None,
                    };
                    terms.push(t);
                    i = i + 1;
                }
                let p = SampleParts {
                    step: self.steps,
                    reward: self.reward.clone(),
                    secs: self.secs.clone(),
                    terms,
                    samples: rb.samples,
                    fell: rb.fell,
                };
                assert(p.terms@.map_values(|t: Option<String>| opt_view(t)) =~= Seq::new(
                    4,
                    |i: int| term_of(pairs_view(rb.pairs@), term_names()[i]),
                ));
                Some(p)
            },
            None => None,
        }
    }
}

/// A breakdown line is never a table row: it starts with `[`, and a row's
/// first field is an iteration number.
proof fn lemma_breakdown_is_not_a_row(line: Seq<char>)
    requires
        rb_line_of(line) is Some,
    ensures
        row_of(line) is None,
{
    assert(line.take(5) == rb_prefix());
    assert(line[0] == line.take(5)[0]);
    assert(line[0] == '[');
    crate::text::lemma_first_word(line);
    let w = words(line)[0];
    assert(w[0] == '[');
    assert(crate::text::digit_value(w[0], 10) is None);
}

/// A row is held until its breakdown arrives: a table row followed by its
/// `[rb]` breakdown yields exactly one iteration, carrying that row's reward
/// and seconds, with the breakdown's samples added to the steps so far.
pub proof fn lemma_row_then_breakdown(st: StreamState, row_line: Seq<char>, rb_line: Seq<char>)
    requires
        row_of(row_line) is Some,
        rb_line_of(rb_line) is Some,
    ensures
        ({
            let (mid, first) = stream_step(st, row_line);
            let (after, second) = stream_step(mid, rb_line);
            let (reward, secs) = row_of(row_line)->0;
            let (pairs, samples, fell) = rb_line_of(rb_line)->0;
            &&& first is None
            &&& second matches Some((step, rw, sc, terms, n, f)) && rw == reward && sc == secs && step
                == sat_add(st.2, samples) && after.2 == step && n == samples && f == fell
        }),
{
    lemma_breakdown_is_not_a_row(rb_line);
}

/// What the first pair keyed `name` is, said without recursion: none when
/// no pair has that key, else the value of a pair with that key that no
/// earlier pair shares.
proof fn lemma_term_of(pairs: Seq<(Seq<char>, Seq<char>)>, name: Seq<char>)
    ensures
        term_of(pairs, name) is None <==> forall|k: int| 0 <= k < pairs.len() ==> pairs[k].0 != name,
        term_of(pairs, name) is Some ==> exists|k: int|
            0 <= k < pairs.len() && #[trigger] pairs[k] == (name, term_of(pairs, name)->0) && forall|
                j: int,
            | 0 <= j < k ==> pairs[j].0 != name,
    decreases pairs.len(),
{
    if pairs.len() > 0 {
        let rest = pairs.drop_first();
        lemma_term_of(rest, name);
        if pairs[0].0 == name {
            assert(pairs[0] == (name, term_of(pairs, name)->0));
        } else {
            assert forall|k: int| 0 <= k < pairs.len() && k > 0 implies pairs[k] == rest[k - 1] by {}
            if term_of(rest, name) is None {
                assert forall|k: int| 0 <= k < pairs.len() implies pairs[k].0 != name by {
                    if k > 0 {
                        assert(pairs[k] == rest[k - 1]);
                    }
                }
            } else {
                let k = choose|k: int|
                    0 <= k < rest.len() && #[trigger] rest[k] == (name, term_of(rest, name)->0)
                        && forall|j: int| 0 <= j < k ==> rest[j].0 != name;
                assert(pairs[k + 1] == rest[k]);
                assert forall|j: int| 0 <= j < k + 1 implies pairs[j].0 != name by {
                    if j > 0 {
                        assert(pairs[j] == rest[j - 1]);
                    }
                }
            }
        }
    }
}

/// The four term slots of an iteration are filled by name, not by place:
/// slot `i` holds the value of the first breakdown pair keyed by the `i`-th
/// of `track_lin_vel`, `upright`, `action_rate` and `torque_leg`, wherever
/// that pair stands in the line, and is empty when no pair has that key.
pub proof fn lemma_terms_are_looked_up_by_name(st: StreamState, line: Seq<char>)
    requires
        rb_line_of(line) is Some,
    ensures
        stream_step(st, line).1 is Some,
        ({
            let pairs = rb_line_of(line).unwrap().0;
            let names = seq!["track_lin_vel"@, "upright"@, "action_rate"@, "torque_leg"@];
            let terms = stream_step(st, line).1.unwrap().3;
            &&& terms.len() == 4
            &&& forall|i: int|
                0 <= i < 4 ==> match #[trigger] terms[i] {
                    None => forall|k: int| 0 <= k < pairs.len() ==> pairs[k].0 != names[i],
                    Some(v) => exists|k: int|
                        0 <= k < pairs.len() && #[trigger] pairs[k] == (names[i], v) && forall|j: int|
                            0 <= j < k ==> pairs[j].0 != names[i],
                }
        }),
{
    lemma_breakdown_is_not_a_row(line);
    let pairs = rb_line_of(line).unwrap().0;
    let names = seq!["track_lin_vel"@, "upright"@, "action_rate"@, "torque_leg"@];
    let terms = stream_step(st, line).1.unwrap().3;
    assert(term_names() == names);
    assert forall|i: int| 0 <= i < 4 implies match #[trigger] terms[i] {
        None => forall|k: int| 0 <= k < pairs.len() ==> pairs[k].0 != names[i],
        Some(v) => exists|k: int|
            0 <= k < pairs.len() && #[trigger] pairs[k] == (names[i], v) && forall|j: int|
                0 <= j < k ==> pairs[j].0 != names[i],
    } by {
        lemma_term_of(pairs, names[i]);
        assert(terms[i] == term_of(pairs, names[i]));
    }
}

/// How the stream moves: a table row replaces the held reward and seconds
/// and yields nothing; a breakdown keeps them, adds its samples to the steps
/// so far (held at `u64::MAX` rather than wrapping) and yields an iteration
/// carrying that new count, the held row and the breakdown's two counts;
/// any other line changes nothing and yields nothing.
pub proof fn lemma_stream_moves(st: StreamState, line: Seq<char>)
    ensures
        row_of(line) matches Some((rw, sc)) ==> stream_step(st, line) == ((rw, sc, st.2), None::<
            PartsView,
        >),
        rb_line_of(line) matches Some((pairs, n, f)) ==> ({
            let steps: u64 = if st.2 + n > u64::MAX { u64::MAX } else { (st.2 + n) as u64 };
            &&& stream_step(st, line).0 == (st.0, st.1, steps)
            &&& stream_step(st, line).1 matches Some((step, rw, sc, terms, samples, fell)) && step
                == steps && rw == st.0 && sc == st.1 && samples == n && fell == f
        }),
        row_of(line) is None && rb_line_of(line) is None ==> stream_step(st, line) == (st, None::<
            PartsView,
        >),
{
    if rb_line_of(line) is Some {
        lemma_breakdown_is_not_a_row(line);
    }
}

/// Token `w` is `key=…`.
#[verifier::opaque]
pub open spec fn keyed(w: Seq<char>, key: Seq<char>) -> bool {
    split_eq(w) is Some && split_eq(w).unwrap().0 == key
}


/// What one token does to the two counts.
proof fn lemma_rb_step_counts(acc: (Seq<(Seq<char>, Seq<char>)>, u64, u64), w: Seq<char>)
    ensures
        keyed(w, "samples"@) ==> rb_step(acc, w).1 == count_of(split_eq(w).unwrap().1),
        !keyed(w, "samples"@) ==> rb_step(acc, w).1 == acc.1,
        keyed(w, "term_fell"@) ==> rb_step(acc, w).2 == count_of(split_eq(w).unwrap().1),
        !keyed(w, "term_fell"@) ==> rb_step(acc, w).2 == acc.2,
{
    reveal(keyed);
    reveal_strlit("samples");
    reveal_strlit("term_fell");
    assert("samples"@ != "term_fell"@) by {
        assert("samples"@.len() != "term_fell"@.len());
    }
}

/// The `samples` count of a breakdown comes from its last `samples=` token.
proof fn lemma_breakdown_samples(ws: Seq<Seq<char>>)
    ensures
        (forall|k: int| 0 <= k < ws.len() ==> !keyed(#[trigger] ws[k], "samples"@)) ==> rb_of(ws).1
            == 0,
        forall|k: int|
            0 <= k < ws.len() && keyed(#[trigger] ws[k], "samples"@) && (forall|j: int|
                k < j < ws.len() ==> !keyed(ws[j], "samples"@)) ==> rb_of(ws).1 == count_of(
                split_eq(ws[k]).unwrap().1,
            ),
    decreases ws.len(),
{
    if ws.len() > 0 {
        let u = ws.drop_last();
        let w = ws.last();
        lemma_breakdown_samples(u);
        assert(rb_of(ws) == rb_step(rb_of(u), w));
        lemma_rb_step_counts(rb_of(u), w);
        assert forall|k: int|
            0 <= k < ws.len() && keyed(#[trigger] ws[k], "samples"@) && (forall|j: int|
                k < j < ws.len() ==> !keyed(ws[j], "samples"@)) implies rb_of(ws).1 == count_of(
            split_eq(ws[k]).unwrap().1,
        ) by {
            if k < ws.len() - 1 {
                assert(!keyed(ws[ws.len() - 1], "samples"@));
                assert(u[k] == ws[k]);
                assert forall|j: int| k < j < u.len() implies !keyed(u[j], "samples"@) by {
                    assert(u[j] == ws[j]);
                }
            }
        }
        if forall|k: int| 0 <= k < ws.len() ==> !keyed(#[trigger] ws[k], "samples"@) {
            assert(!keyed(ws[ws.len() - 1], "samples"@));
            assert forall|k: int| 0 <= k < u.len() implies !keyed(#[trigger] u[k], "samples"@) by {
                assert(u[k] == ws[k]);
            }
        }
    }
}

/// The `term_fell` count of a breakdown comes from its last `term_fell=` token.
proof fn lemma_breakdown_fell(ws: Seq<Seq<char>>)
    ensures
        (forall|k: int| 0 <= k < ws.len() ==> !keyed(#[trigger] ws[k], "term_fell"@)) ==> rb_of(ws).2
            == 0,
        forall|k: int|
            0 <= k < ws.len() && keyed(#[trigger] ws[k], "term_fell"@) && (forall|j: int|
                k < j < ws.len() ==> !keyed(ws[j], "term_fell"@)) ==> rb_of(ws).2 == count_of(
                split_eq(ws[k]).unwrap().1,
            ),
    decreases ws.len(),
{
    if ws.len() > 0 {
        let u = ws.drop_last();
        let w = ws.last();
        lemma_breakdown_fell(u);
        assert(rb_of(ws) == rb_step(rb_of(u), w));
        lemma_rb_step_counts(rb_of(u), w);
        assert forall|k: int|
            0 <= k < ws.len() && keyed(#[trigger] ws[k], "term_fell"@) && (forall|j: int|
                k < j < ws.len() ==> !keyed(ws[j], "term_fell"@)) implies rb_of(ws).2 == count_of(
            split_eq(ws[k]).unwrap().1,
        ) by {
            if k < ws.len() - 1 {
                assert(!keyed(ws[ws.len() - 1], "term_fell"@));
                assert(u[k] == ws[k]);
                assert forall|j: int| k < j < u.len() implies !keyed(u[j], "term_fell"@) by {
                    assert(u[j] == ws[j]);
                }
            }
        }
        if forall|k: int| 0 <= k < ws.len() ==> !keyed(#[trigger] ws[k], "term_fell"@) {
            assert(!keyed(ws[ws.len() - 1], "term_fell"@));
            assert forall|k: int| 0 <= k < u.len() implies !keyed(#[trigger] u[k], "term_fell"@) by {
                assert(u[k] == ws[k]);
            }
        }
    }
}

/// The terms of a breakdown are its `key=value` tokens other than the two
/// counts, in the order they stand.
proof fn lemma_breakdown_terms(ws: Seq<Seq<char>>)
    ensures
        rb_of(ws).0 == ws.filter_map(
            |w: Seq<char>|
                match split_eq(w) {
                    Some((k, v)) => if k == "samples"@ || k == "term_fell"@ {
                        None
                    } else {
                        Some((k, v))
                    },
                    None => None,
                },
        ),
    decreases ws.len(),
{
    let f = |w: Seq<char>|
        match split_eq(w) {
            Some((k, v)) => if k == "samples"@ || k == "term_fell"@ {
                None
            } else {
                Some((k, v))
            },
            None => None,
        };
    if ws.len() > 0 {
        let u = ws.drop_last();
        let w = ws.last();
        lemma_breakdown_terms(u);
        assert(rb_of(ws) == rb_step(rb_of(u), w));
        if let Some(x) = f(w) {
            assert(u.filter_map(f) + seq![x] =~= u.filter_map(f).push(x));
        }
    }
}

/// What a breakdown's tokens say, token by token: `samples` is the count of
/// the last `samples=` token (0 when there is none), `term_fell` likewise of
/// the last `term_fell=` token, and the terms are every other `key=value`
/// token, in the order they stand, tokens without `=` left out.
pub proof fn lemma_breakdown_tokens(ws: Seq<Seq<char>>)
    ensures
        (forall|k: int| 0 <= k < ws.len() ==> !keyed(#[trigger] ws[k], "samples"@)) ==> rb_of(ws).1
            == 0,
        forall|k: int|
            0 <= k < ws.len() && keyed(#[trigger] ws[k], "samples"@) && (forall|j: int|
                k < j < ws.len() ==> !keyed(ws[j], "samples"@)) ==> rb_of(ws).1 == count_of(
                split_eq(ws[k]).unwrap().1,
            ),
        (forall|k: int| 0 <= k < ws.len() ==> !keyed(#[trigger] ws[k], "term_fell"@)) ==> rb_of(
            ws,
        ).2 == 0,
        forall|k: int|
            0 <= k < ws.len() && keyed(#[trigger] ws[k], "term_fell"@) && (forall|j: int|
                k < j < ws.len() ==> !keyed(ws[j], "term_fell"@)) ==> rb_of(ws).2 == count_of(
                split_eq(ws[k]).unwrap().1,
            ),
        rb_of(ws).0 == ws.filter_map(
            |w: Seq<char>|
                match split_eq(w) {
                    Some((k, v)) => if k == "samples"@ || k == "term_fell"@ {
                        None
                    } else {
                        Some((k, v))
                    },
                    None => None,
                },
        ),
{
    lemma_breakdown_samples(ws);
    lemma_breakdown_fell(ws);
    lemma_breakdown_terms(ws);
}

} // verus!
