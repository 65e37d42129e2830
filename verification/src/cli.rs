//! The headless command line: which surface the arguments ask for, which run
//! a flag refers to, the probe's command language, and the records the
//! `--json` stream prints — one object per line, the contract other products
//! read.

use vstd::prelude::*;

use crate::env::{term_names_of, TERM_NAMES};
use crate::json::{bool_text, is_json_number, null_text, number_text, object_text, string_text, strings_text, Obj};
use crate::text::{
    all_digits, chars_of, decimal, digits_number, parse_u64, parse_u64_at, parse_u64_of, same_text,
    split_whitespace, strings_view, words,
};
use crate::trainer::{SampleText, RUN_ID};

verus! {

/// Whether an argument is a flag (`--…`) rather than a value.
pub open spec fn is_flag(a: Seq<char>) -> bool {
    a.len() >= 2 && a[0] == '-' && a[1] == '-'
}

/// The run a flag at `args[i]` names: the argument after it, unless that is
/// missing or is itself a flag — `--probe --json` probes the default run, not
/// a run called `--json`.
pub open spec fn run_arg_of(args: Seq<Seq<char>>, i: int) -> Seq<char> {
    if 0 <= i && i + 1 < args.len() && !is_flag(args[i + 1]) {
        args[i + 1]
    } else {
        RUN_ID@
    }
}

/// The optional run id following the flag at `args[i]`.
pub fn run_arg(args: &[String], i: usize) -> (r: String)
    ensures
        r@ == run_arg_of(args@.map_values(|a: String| a@), i as int),
{
    let ghost v = args@.map_values(|a: String| a@);
    if i < args.len() && i + 1 < args.len() {
        let a = args[i + 1].as_str();
        let cs = crate::text::chars_of(a);
        assert(v[i + 1] == a@);
        if !(cs.len() >= 2 && cs[0] == '-' && cs[1] == '-') {
            return args[i + 1].clone();
        }
    }
    String::from_str(RUN_ID)
}

/// Positional term values paired with their names: one field per name that
/// has a value, so a sample with fewer values than names reports fewer terms
/// rather than inventing the missing ones.
pub open spec fn named_terms(names: Seq<Seq<char>>, values: Seq<Seq<char>>) -> Seq<(Seq<char>, Seq<char>)> {
    Seq::new(
        if values.len() < names.len() { values.len() } else { names.len() },
        |i: int| (names[i], number_text(Some(values[i]))),
    )
}

pub open spec fn texts(v: Seq<String>) -> Seq<Seq<char>> {
    v.map_values(|t: String| t@)
}

/// The fields of a `sample` record.
pub open spec fn sample_fields(s: SampleText) -> Seq<(Seq<char>, Seq<char>)> {
    seq![
        ("event"@, string_text("sample"@)),
        ("step"@, decimal(s.step as nat)),
        ("reward"@, number_text(Some(s.reward@))),
        ("fall_rate"@, number_text(Some(s.fall_rate@))),
        ("episode_len"@, number_text(Some(s.episode_len@))),
        ("steps_per_sec"@, number_text(Some(s.steps_per_sec@))),
        ("terms"@, object_text(named_terms(term_names_of(), texts(s.terms@)))),
    ]
}

/// The `terms` object of a sample.
fn terms_obj(values: &Vec<String>) -> (o: Obj)
    ensures
        o@ == named_terms(term_names_of(), texts(values@)),
{
    let ghost vals = texts(values@);
    let mut terms = Obj::new();
    let mut i: usize = 0;
    while i < 4
        invariant
            i <= 4,
            vals == texts(values@),
            terms@ == named_terms(term_names_of().take(i as int), vals),
        decreases 4 - i,
    {
        let ghost before = terms@;
        if i < values.len() {
            terms = terms.num_text(TERM_NAMES[i], Some(values[i].as_str()));
        }
        proof {
            let a = named_terms(term_names_of().take(i as int), vals);
            let b = named_terms(term_names_of().take(i + 1), vals);
            if i < values.len() {
                assert(b =~= a.push((term_names_of()[i as int], number_text(Some(vals[i as int])))));
            } else {
                assert(b =~= a);
            }
        }
        i = i + 1;
    }
    assert(term_names_of().take(4) =~= term_names_of());
    terms
}

/// One interval as a machine reads it: a `sample` record with the step, the
/// measures (`null` where not finite) and the reward terms by name.
pub fn sample_json(s: &SampleText) -> (r: String)
    ensures
        r@ == object_text(sample_fields(*s)),
{
    let terms = terms_obj(&s.terms);
    let o = Obj::new().str("event", "sample").integer("step", s.step).num_text(
        "reward",
        Some(s.reward.as_str()),
    ).num_text("fall_rate", Some(s.fall_rate.as_str())).num_text(
        "episode_len",
        Some(s.episode_len.as_str()),
    ).num_text("steps_per_sec", Some(s.steps_per_sec.as_str())).obj("terms", terms);
    assert(o@ =~= sample_fields(*s));
    o.done()
}

/// A sample reports a term only when it carries a value for it: with fewer
/// values than names, the names past the values are absent, not zero.
pub proof fn lemma_missing_terms_are_omitted(values: Seq<Seq<char>>, i: int)
    requires
        values.len() <= i < term_names_of().len(),
    ensures
        forall|j: int|
            0 <= j < named_terms(term_names_of(), values).len() ==> #[trigger] named_terms(
                term_names_of(),
                values,
            )[j].0 != term_names_of()[i],
{
    reveal_strlit("track_lin_vel");
    reveal_strlit("upright");
    reveal_strlit("action_rate");
    reveal_strlit("torque");
    let names = term_names_of();
    assert forall|j: int| 0 <= j < named_terms(names, values).len() implies #[trigger] named_terms(
        names,
        values,
    )[j].0 != names[i] by {
        assert(named_terms(names, values)[j].0 == names[j]);
        assert(j < i);
        assert(names[j].len() != names[i].len() || names[j][0] != names[i][0]);
    }
}

/// Sim-to-sim scores as a JSON object, each at the precision it was rendered
/// with, `null` where not finite.
pub fn score_obj(survival: &str, tracking: &str, reward: &str, fall_rate: &str) -> (o: Obj)
    ensures
        o@ == seq![
            ("survival"@, number_text(Some(survival@))),
            ("tracking"@, number_text(Some(tracking@))),
            ("reward"@, number_text(Some(reward@))),
            ("fall_rate"@, number_text(Some(fall_rate@))),
        ],
{
    let o = Obj::new().num_text("survival", Some(survival)).num_text("tracking", Some(tracking)).num_text(
        "reward",
        Some(reward),
    ).num_text("fall_rate", Some(fall_rate));
    assert(o@ =~= seq![
            ("survival"@, number_text(Some(survival@))),
            ("tracking"@, number_text(Some(tracking@))),
            ("reward"@, number_text(Some(reward@))),
            ("fall_rate"@, number_text(Some(fall_rate@))),
        ]);
    o
}

// --------------------------------------------------------------- dispatch --

/// A headless surface the command line asks for.
pub enum Headless {
    /// `--capabilities`: what this build can do.
    Capabilities,
    /// `--track-check`: a checkpoint's velocity tracking.
    TrackCheck,
    /// `--probe [run]`.
    Probe(String),
    /// `--crosssim [run]`.
    CrossSim(String),
    /// `--curriculum [iters_each] [rounds]`, zealot builds only.
    Curriculum(u64, usize),
    /// `--sweep`.
    Sweep,
    /// `--headless [steps]`.
    Train(u64),
}

/// The first position at or after `i` holding `f`.
pub open spec fn find_arg(args: Seq<Seq<char>>, f: Seq<char>, i: int) -> Option<int>
    decreases args.len() - i,
{
    if i < 0 || i >= args.len() {
        None
    } else if args[i] == f {
        Some(i)
    } else {
        find_arg(args, f, i + 1)
    }
}

pub open spec fn first_arg(args: Seq<Seq<char>>, f: Seq<char>) -> Option<int> {
    find_arg(args, f, 0)
}

/// Argument `i` read as a count, or `default` when absent or unreadable.
pub open spec fn count_arg(args: Seq<Seq<char>>, i: int, default: u64) -> u64 {
    if 0 <= i < args.len() {
        match parse_u64_of(args[i], 10) {
            Some(v) => v,
            None => default,
        }
    } else {
        default
    }
}

/// Argument `i` read as a size, or `default` when absent, unreadable or too
/// large.
pub open spec fn size_arg(args: Seq<Seq<char>>, i: int, default: usize) -> usize {
    if 0 <= i < args.len() {
        match parse_u64_of(args[i], 10) {
            Some(v) => if v <= usize::MAX {
                v as usize
            } else {
                default
            },
            None => default,
        }
    } else {
        default
    }
}

fn find_flag(args: &[String], f: &str) -> (r: Option<usize>)
    ensures
        match r {
            Some(i) => first_arg(args@.map_values(|a: String| a@), f@) == Some(i as int) && i
                < args@.len(),
            None => first_arg(args@.map_values(|a: String| a@), f@) is None,
        },
{
    let ghost v = args@.map_values(|a: String| a@);
    let mut i: usize = 0;
    while i < args.len()
        invariant
            0 <= i <= args@.len(),
            v == args@.map_values(|a: String| a@),
            first_arg(v, f@) == find_arg(v, f@, i as int),
        decreases args@.len() - i,
    {
        assert(v[i as int] == args@[i as int]@);
        if same_text(args[i].as_str(), f) {
            return Some(i);
        }
        i = i + 1;
    }
    None
}

fn count_at(args: &[String], i: usize, default: u64) -> (n: u64)
    ensures
        n == count_arg(args@.map_values(|a: String| a@), i as int, default),
{
    if i < args.len() {
        assert(args@.map_values(|a: String| a@)[i as int] == args@[i as int]@);
        match parse_u64(args[i].as_str()) {
            Some(v) => v,
            None => default,
        }
    } else {
        default
    }
}

fn size_at(args: &[String], i: usize, default: usize) -> (n: usize)
    ensures
        n == size_arg(args@.map_values(|a: String| a@), i as int, default),
{
    if i < args.len() {
        assert(args@.map_values(|a: String| a@)[i as int] == args@[i as int]@);
        match parse_u64(args[i].as_str()) {
            Some(v) => if v <= usize::MAX as u64 {
                v as usize
            } else {
                default
            },
            None => default,
        }
    } else {
        default
    }
}

/// Which headless surface the arguments ask for, if any. The first flag in
/// this order wins: `--capabilities` (it must work on any build, so a caller
/// can discover the rest), `--track-check`, `--probe`, `--crosssim`,
/// `--curriculum` (only when `zealot` is built in), `--sweep`,
/// `--headless`. Run ids and counts follow their flag; a missing or
/// unreadable count falls back to its default (20 iterations, 1 round,
/// 2,000,000 steps).
pub fn dispatch(args: &[String], zealot: bool) -> (r: Option<Headless>)
    ensures
        ({
            let v = args@.map_values(|a: String| a@);
            let cap = first_arg(v, "--capabilities"@);
            let track = first_arg(v, "--track-check"@);
            let probe = first_arg(v, "--probe"@);
            let cross = first_arg(v, "--crosssim"@);
            let cur = first_arg(v, "--curriculum"@);
            let sweep = first_arg(v, "--sweep"@);
            let train = first_arg(v, "--headless"@);
            &&& cap is Some ==> (r matches Some(Headless::Capabilities))
            &&& cap is None && track is Some ==> (r matches Some(Headless::TrackCheck))
            &&& cap is None && track is None && probe is Some ==> (r matches Some(Headless::Probe(run))
                && run@ == run_arg_of(v, probe->0))
            &&& cap is None && track is None && probe is None && cross is Some ==> (r matches Some(
                Headless::CrossSim(run),
            ) && run@ == run_arg_of(v, cross->0))
            &&& cap is None && track is None && probe is None && cross is None && zealot && cur is Some
                ==> (r matches Some(Headless::Curriculum(iters, rounds)) && iters == count_arg(
                v,
                cur->0 + 1,
                20,
            ) && rounds == size_arg(v, cur->0 + 2, 1))
            &&& cap is None && track is None && probe is None && cross is None && !(zealot
                && cur is Some) && sweep is Some ==> (r matches Some(Headless::Sweep))
            &&& cap is None && track is None && probe is None && cross is None && !(zealot
                && cur is Some) && sweep is None && train is Some ==> (r matches Some(
                Headless::Train(n),
            ) && n == count_arg(v, train->0 + 1, 2_000_000))
            &&& cap is None && track is None && probe is None && cross is None && !(zealot
                && cur is Some) && sweep is None && train is None ==> r is None
        }),
{
    if find_flag(args, "--capabilities").is_some() {
        return Some(Headless::Capabilities);
    }
    if find_flag(args, "--track-check").is_some() {
        return Some(Headless::TrackCheck);
    }
    if let Some(i) = find_flag(args, "--probe") {
        return Some(Headless::Probe(run_arg(args, i)));
    }
    if let Some(i) = find_flag(args, "--crosssim") {
        return Some(Headless::CrossSim(run_arg(args, i)));
    }
    if zealot {
        if let Some(i) = find_flag(args, "--curriculum") {
            let iters = if i < args.len() {
                count_at(args, i + 1, 20)
            } else {
                20
            };
            let rounds = if i + 1 < args.len() {
                size_at(args, i + 2, 1)
            } else {
                1
            };
            return Some(Headless::Curriculum(iters, rounds));
        }
    }
    if find_flag(args, "--sweep").is_some() {
        return Some(Headless::Sweep);
    }
    if let Some(i) = find_flag(args, "--headless") {
        let n = if i < args.len() {
            count_at(args, i + 1, 2_000_000)
        } else {
            2_000_000
        };
        return Some(Headless::Train(n));
    }
    None
}

// ------------------------------------------------------------------ probe --

/// One line of the probe's command language.
pub enum ProbeCommand {
    /// No words: nothing to do.
    Blank,
    /// `quit` or `exit`.
    Quit,
    /// `state`: report without changing anything.
    State,
    /// `restart`: a fresh episode.
    Restart,
    /// `step [n]`: move the cursor by `n` frames (default one).
    Step(i32),
    /// `seek <t>`: the fraction's text, if given.
    Seek(Option<String>),
    /// `push <dv>`: the velocity's text, if given.
    Push(Option<String>),
    /// Any other first word.
    Unknown(String),
}

/// `str::parse::<i32>`: an optional sign, at least one digit, and a value
/// that fits.
pub open spec fn parse_i32_of(s: Seq<char>) -> Option<i32> {
    let neg = s.len() > 0 && s[0] == '-';
    let d = if s.len() > 0 && (s[0] == '-' || s[0] == '+') { s.drop_first() } else { s };
    if d.len() > 0 && all_digits(d, 10) {
        let n = digits_number(d, 10);
        if neg && n <= 0x8000_0000 {
            Some((-n) as i32)
        } else if !neg && n <= 0x7fff_ffff {
            Some(n as i32)
        } else {
            None
        }
    } else {
        None
    }
}

pub fn parse_i32(s: &str) -> (r: Option<i32>)
    ensures
        r == parse_i32_of(s@),
{
    let cs = chars_of(s);
    let n = cs.len();
    let neg = n > 0 && cs[0] == '-';
    let signed = n > 0 && (cs[0] == '-' || cs[0] == '+');
    let start: usize = if signed {
        1
    } else {
        0
    };
    let ghost d = cs@.skip(start as int);
    proof {
        if signed {
            assert(d =~= s@.drop_first());
        } else {
            assert(d =~= s@);
        }
    }
    if start >= n || !('0' <= cs[start] && cs[start] <= '9') {
        proof {
            if d.len() > 0 {
                assert(d[0] == cs@[start as int]);
                assert(crate::text::digit_value(d[0], 10) is None);
            }
        }
        return None;
    }
    assert(d[0] == cs@[start as int]);
    assert(d.len() > 0 && d[0] != '+');
    let u = parse_u64_at(&cs, start, 10);
    assert(u == parse_u64_of(d, 10));
    match u {
        Some(v) => {
            assert(parse_u64_of(d, 10) == Some(v));
            assert(!(d.len() > 0 && d[0] == '+'));
            assert(d.len() > 0 && all_digits(d, 10) && digits_number(d, 10) <= u64::MAX);
            proof {
                crate::text::lemma_digits_number_nonneg(d, 10nat);
            }
            assert(v == digits_number(d, 10));
            if neg {
                if v <= 0x8000_0000 {
                    let r = (0i64 - v as i64) as i32;
                    assert(r == (-digits_number(d, 10)) as i32);
                    Some(r)
                } else {
                    None
                }
            } else {
                if v <= 0x7fff_ffff {
                    Some(v as i32)
                } else {
                    None
                }
            }
        },
        None => {
            proof {
                if all_digits(d, 10) {
                    assert(digits_number(d, 10) > u64::MAX);
                }
            }
            None
        },
    }
}

pub open spec fn word_at(ws: Seq<Seq<char>>, i: int) -> Option<Seq<char>> {
    if 0 <= i < ws.len() {
        Some(ws[i])
    } else {
        None
    }
}

pub open spec fn opt_chars(o: Option<String>) -> Option<Seq<char>> {
    match o {
        Some(s) => Some(s@),
        None => None,
    }
}

/// The probe command a line holds: its first word names it, its second is
/// the argument.
pub fn probe_command(line: &str) -> (c: ProbeCommand)
    ensures
        ({
            let ws = words(line@);
            &&& ws.len() == 0 ==> (c matches ProbeCommand::Blank)
            &&& ws.len() > 0 && (ws[0] == "quit"@ || ws[0] == "exit"@) ==> (c matches ProbeCommand::Quit)
            &&& ws.len() > 0 && ws[0] == "state"@ ==> (c matches ProbeCommand::State)
            &&& ws.len() > 0 && ws[0] == "restart"@ ==> (c matches ProbeCommand::Restart)
            &&& ws.len() > 0 && ws[0] == "step"@ ==> (c matches ProbeCommand::Step(n) && n == match word_at(
                ws,
                1,
            ) {
                Some(a) => match parse_i32_of(a) {
                    Some(v) => v,
                    None => 1,
                },
                None => 1,
            })
            &&& ws.len() > 0 && ws[0] == "seek"@ ==> (c matches ProbeCommand::Seek(a) && opt_chars(a)
                == word_at(ws, 1))
            &&& ws.len() > 0 && ws[0] == "push"@ ==> (c matches ProbeCommand::Push(a) && opt_chars(a)
                == word_at(ws, 1))
            &&& ws.len() > 0 && ws[0] != "quit"@ && ws[0] != "exit"@ && ws[0] != "state"@ && ws[0]
                != "restart"@ && ws[0] != "step"@ && ws[0] != "seek"@ && ws[0] != "push"@ ==> (c matches ProbeCommand::Unknown(
                w,
            ) && w@ == ws[0])
        }),
{
    let ws = split_whitespace(line);
    let ghost v = strings_view(ws@);
    if ws.len() == 0 {
        return ProbeCommand::Blank;
    }
    assert(v[0] == ws@[0]@);
    let arg: Option<String> = if ws.len() > 1 {
        assert(v[1] == ws@[1]@);
        Some(ws[1].clone())
    } else {
        None
    };
    assert(opt_chars(arg) == word_at(v, 1));
    let cmd = ws[0].as_str();
    proof {
        reveal_strlit("quit");
        reveal_strlit("exit");
        reveal_strlit("state");
        reveal_strlit("restart");
        reveal_strlit("step");
        reveal_strlit("seek");
        reveal_strlit("push");
        assert("quit"@.len() == 4 && "exit"@.len() == 4 && "step"@.len() == 4 && "seek"@.len() == 4
            && "push"@.len() == 4 && "state"@.len() == 5 && "restart"@.len() == 7);
        assert("quit"@[0] != "exit"@[0] && "quit"@[0] != "step"@[0] && "quit"@[0] != "push"@[0]);
        assert("exit"@[0] != "step"@[0] && "exit"@[0] != "push"@[0] && "step"@[0] != "push"@[0]);
        assert("quit"@[0] != "seek"@[0] && "exit"@[0] != "seek"@[0] && "push"@[0] != "seek"@[0]);
        assert("step"@[1] != "seek"@[1]);
    }
    if same_text(cmd, "quit") || same_text(cmd, "exit") {
        ProbeCommand::Quit
    } else if same_text(cmd, "state") {
        ProbeCommand::State
    } else if same_text(cmd, "restart") {
        ProbeCommand::Restart
    } else if same_text(cmd, "step") {
        let n = match &arg {
            Some(a) => match parse_i32(a.as_str()) {
                Some(v) => v,
                None => 1,
            },
            None => 1,
        };
        ProbeCommand::Step(n)
    } else if same_text(cmd, "seek") {
        ProbeCommand::Seek(arg)
    } else if same_text(cmd, "push") {
        ProbeCommand::Push(arg)
    } else {
        ProbeCommand::Unknown(ws[0].clone())
    }
}

// ---------------------------------------------------------------- records --

/// The `error` record: why a surface produced nothing. It goes to the
/// stream itself, so a consumer learns the reason without a second pipe.
pub fn error_json(message: &str) -> (s: String)
    ensures
        s@ == object_text(seq![("event"@, string_text("error"@)), ("message"@, string_text(message@))]),
{
    let o = Obj::new().str("event", "error").str("message", message);
    assert(o@ =~= seq![("event"@, string_text("error"@)), ("message"@, string_text(message@))]);
    o.done()
}

/// The `start` record of a training run: which backend runs it (part of the
/// result — the same command means different physics on another machine),
/// why, and the budget.
pub fn start_json(backend: &str, note: &str, envs: usize, total_steps: u64, randomize: bool) -> (s:
    String)
    ensures
        s@ == object_text(
            seq![
                ("event"@, string_text("start"@)),
                ("backend"@, string_text(backend@)),
                ("backend_note"@, string_text(note@)),
                ("envs"@, decimal(envs as nat)),
                ("total_steps"@, decimal(total_steps as nat)),
                ("randomize"@, bool_text(randomize)),
            ],
        ),
{
    let o = Obj::new().str("event", "start").str("backend", backend).str("backend_note", note).usize(
        "envs",
        envs,
    ).integer("total_steps", total_steps).bool("randomize", randomize);
    assert(o@ =~= seq![
        ("event"@, string_text("start"@)),
        ("backend"@, string_text(backend@)),
        ("backend_note"@, string_text(note@)),
        ("envs"@, decimal(envs as nat)),
        ("total_steps"@, decimal(total_steps as nat)),
        ("randomize"@, bool_text(randomize)),
    ]);
    o.done()
}

/// The `end` record: how many samples the stream carried.
pub fn end_json(samples: usize) -> (s: String)
    ensures
        s@ == object_text(seq![("event"@, string_text("end"@)), ("samples"@, decimal(samples as nat))]),
{
    let o = Obj::new().str("event", "end").usize("samples", samples);
    assert(o@ =~= seq![("event"@, string_text("end"@)), ("samples"@, decimal(samples as nat))]);
    o.done()
}

/// Where a poll of the published samples picks up: it had shown `shown` of
/// them and now finds `len`. It prints those from the returned index on —
/// none twice, none skipped — and has then shown the returned count.
pub fn poll_window(shown: usize, len: usize) -> (r: (usize, usize))
    ensures
        r.0 == (if shown <= len { shown } else { len }),
        r.1 == shown + (len - r.0),
        r.1 == (if shown <= len { len } else { shown }),
{
    if shown <= len {
        (shown, len)
    } else {
        (len, shown)
    }
}

/// An arm's scores as a value: the object, or `null` for an arm that did
/// not run.
pub open spec fn arm_text(a: Option<Obj>) -> Seq<char> {
    match a {
        Some(o) => object_text(o@),
        None => null_text(),
    }
}

/// The `crosssim` record: the comparison's label, whether it completed, its
/// worst gap (text; `null` when absent or not a number) and both arms'
/// scores (`null` for an arm that did not run).
pub fn crosssim_json(label: &str, done: bool, worst_gap: Option<&str>, a: Option<Obj>, b: Option<Obj>) -> (s: String)
    ensures
        s@ == object_text(
            seq![
                ("event"@, string_text("crosssim"@)),
                ("label"@, string_text(label@)),
                ("done"@, bool_text(done)),
                ("worst_gap"@, number_text(
                    match worst_gap {
                        Some(t) => Some(t@),
                        None => None,
                    },
                )),
                ("a"@, arm_text(a)),
                ("b"@, arm_text(b)),
            ],
        ),
{
    let ghost av = arm_text(a);
    let ghost bv = arm_text(b);
    let o = Obj::new().str("event", "crosssim").str("label", label).bool("done", done).num_text(
        "worst_gap",
        worst_gap,
    );
    let o = match a {
        Some(x) => o.obj("a", x),
        None => o.null("a"),
    };
    let o = match b {
        Some(x) => o.obj("b", x),
        None => o.null("b"),
    };
    assert(o@ =~= seq![
        ("event"@, string_text("crosssim"@)),
        ("label"@, string_text(label@)),
        ("done"@, bool_text(done)),
        ("worst_gap"@, number_text(
            match worst_gap {
                Some(t) => Some(t@),
                None => None,
            },
        )),
        ("a"@, av),
        ("b"@, bv),
    ]);
    o.done()
}

/// Every number of a sample record — the reward, the fall rate, the
/// episode length, the rate, and each term the sample carries — is written
/// as its text when that text is a JSON number, negative ones included, and
/// as `null` only when it is not one. Term `i` is keyed by the `i`-th of
/// `track_lin_vel`, `upright`, `action_rate` and `torque`, and there are as
/// many terms as the sample has values, four at most.
pub proof fn lemma_sample_numbers_are_verbatim(s: SampleText)
    ensures
        ({
            let f = sample_fields(s);
            let names = seq!["track_lin_vel"@, "upright"@, "action_rate"@, "torque"@];
            let n: int = if s.terms@.len() < 4 { s.terms@.len() as int } else { 4 };
            &&& f[2] == ("reward"@, if is_json_number(s.reward@) { s.reward@ } else { null_text() })
            &&& f[3] == ("fall_rate"@, if is_json_number(s.fall_rate@) {
                s.fall_rate@
            } else {
                null_text()
            })
            &&& f[4] == ("episode_len"@, if is_json_number(s.episode_len@) {
                s.episode_len@
            } else {
                null_text()
            })
            &&& f[5] == ("steps_per_sec"@, if is_json_number(s.steps_per_sec@) {
                s.steps_per_sec@
            } else {
                null_text()
            })
            &&& f[6] == ("terms"@, object_text(
                Seq::new(
                    n as nat,
                    |i: int|
                        (names[i], if is_json_number(s.terms@[i]@) {
                            s.terms@[i]@
                        } else {
                            null_text()
                        }),
                ),
            ))
        }),
{
    let names = seq!["track_lin_vel"@, "upright"@, "action_rate"@, "torque"@];
    let n: int = if s.terms@.len() < 4 { s.terms@.len() as int } else { 4 };
    let want = Seq::new(
        n as nat,
        |i: int|
            (names[i], if is_json_number(s.terms@[i]@) {
                s.terms@[i]@
            } else {
                null_text()
            }),
    );
    assert(term_names_of() == names);
    assert(named_terms(term_names_of(), texts(s.terms@)) =~= want);
}

/// One probe state as the driving process reads it: where the scrubber is,
/// the last push, and the frame under the cursor, each measure rendered at
/// five places.
pub struct ProbeState {
    pub label: String,
    pub cursor: usize,
    pub frames: usize,
    pub progress: String,
    pub last_push: Option<usize>,
    pub cart_x: String,
    pub angle: String,
    pub action: String,
    pub reward: String,
    pub fell: bool,
}

pub open spec fn probe_fields(event: Seq<char>, p: ProbeState) -> Seq<(Seq<char>, Seq<char>)> {
    seq![
        ("event"@, string_text(event)),
        ("label"@, string_text(p.label@)),
        ("cursor"@, decimal(p.cursor as nat)),
        ("frames"@, decimal(p.frames as nat)),
        ("progress"@, number_text(Some(p.progress@))),
        ("last_push"@, match p.last_push {
            Some(n) => decimal(n as nat),
            None => crate::json::null_text(),
        }),
        ("cart_x"@, number_text(Some(p.cart_x@))),
        ("angle"@, number_text(Some(p.angle@))),
        ("action"@, number_text(Some(p.action@))),
        ("reward"@, number_text(Some(p.reward@))),
        ("fell"@, bool_text(p.fell)),
    ]
}

/// The record of one probe state, under `event` (`ready` or `state`).
pub fn probe_json(event: &str, p: &ProbeState) -> (s: String)
    ensures
        s@ == object_text(probe_fields(event@, *p)),
{
    let o = Obj::new().str("event", event).str("label", p.label.as_str()).usize(
        "cursor",
        p.cursor,
    ).usize("frames", p.frames).num_text("progress", Some(p.progress.as_str())).opt_usize(
        "last_push",
        p.last_push,
    ).num_text("cart_x", Some(p.cart_x.as_str())).num_text("angle", Some(p.angle.as_str())).num_text(
        "action",
        Some(p.action.as_str()),
    ).num_text("reward", Some(p.reward.as_str())).bool("fell", p.fell);
    assert(o@ =~= probe_fields(event@, *p));
    o.done()
}

// ----------------------------------------------------------- capabilities --

/// Every flag the dispatcher answers, sorted — so a caller can test for a
/// capability by name rather than infer it from a version number.
pub open spec fn entry_points_of(zealot: bool) -> Seq<Seq<char>> {
    if zealot {
        seq![
            "--capabilities"@,
            "--crosssim"@,
            "--curriculum"@,
            "--headless"@,
            "--json"@,
            "--no-random"@,
            "--probe"@,
            "--sweep"@,
            "--track-check"@,
        ]
    } else {
        seq![
            "--capabilities"@,
            "--crosssim"@,
            "--headless"@,
            "--json"@,
            "--no-random"@,
            "--probe"@,
            "--sweep"@,
            "--track-check"@,
        ]
    }
}

pub fn entry_points(zealot: bool) -> (v: Vec<&'static str>)
    ensures
        v@.map_values(|s: &str| s@) == entry_points_of(zealot),
{
    let mut v: Vec<&'static str> = Vec::new();
    v.push("--capabilities");
    v.push("--crosssim");
    if zealot {
        v.push("--curriculum");
    }
    v.push("--headless");
    v.push("--json");
    v.push("--no-random");
    v.push("--probe");
    v.push("--sweep");
    v.push("--track-check");
    assert(v@.map_values(|s: &str| s@) =~= entry_points_of(zealot));
    v
}

/// The compile-time features this build has.
pub open spec fn features_of(zealot: bool) -> Seq<Seq<char>> {
    if zealot {
        seq!["zealot"@]
    } else {
        seq![]
    }
}

pub fn features(zealot: bool) -> (v: Vec<&'static str>)
    ensures
        v@.map_values(|s: &str| s@) == features_of(zealot),
{
    let mut v: Vec<&'static str> = Vec::new();
    if zealot {
        v.push("zealot");
    }
    assert(v@.map_values(|s: &str| s@) =~= features_of(zealot));
    v
}

/// The backends that can actually run: the CPU learner always, zealot only
/// when it is built in *and* its binary is present — compiled in is not the
/// same as usable.
pub open spec fn backends_of(zealot: bool, zealot_binary: bool) -> Seq<Seq<char>> {
    if zealot && zealot_binary {
        seq!["cpu"@, "zealot"@]
    } else {
        seq!["cpu"@]
    }
}

pub fn backends(zealot: bool, zealot_binary: bool) -> (v: Vec<&'static str>)
    ensures
        v@.map_values(|s: &str| s@) == backends_of(zealot, zealot_binary),
{
    let mut v: Vec<&'static str> = Vec::new();
    v.push("cpu");
    if zealot && zealot_binary {
        v.push("zealot");
    }
    assert(v@.map_values(|s: &str| s@) =~= backends_of(zealot, zealot_binary));
    v
}

pub open spec fn capabilities_fields(
    name: Seq<char>,
    version: Seq<char>,
    zealot: bool,
    zealot_binary: bool,
    zealot_binary_path: Seq<char>,
) -> Seq<(Seq<char>, Seq<char>)> {
    seq![
        ("event"@, string_text("capabilities"@)),
        ("name"@, string_text(name)),
        ("version"@, string_text(version)),
        ("features"@, strings_text(features_of(zealot))),
        ("backends"@, strings_text(backends_of(zealot, zealot_binary))),
        ("entry_points"@, strings_text(entry_points_of(zealot))),
        ("zealot_binary"@, bool_text(zealot_binary)),
        ("zealot_binary_path"@, string_text(zealot_binary_path)),
        ("run_id"@, string_text(RUN_ID@)),
    ]
}

/// The `capabilities` record: what this build can actually do. `zealot` is
/// whether the zealot client is built in, `zealot_binary` whether its binary
/// is present at `zealot_binary_path`.
pub fn capabilities_json(
    name: &str,
    version: &str,
    zealot: bool,
    zealot_binary: bool,
    zealot_binary_path: &str,
) -> (s: String)
    ensures
        s@ == object_text(
            capabilities_fields(name@, version@, zealot, zealot_binary, zealot_binary_path@),
        ),
{
    let f = features(zealot);
    let b = backends(zealot, zealot_binary);
    let e = entry_points(zealot);
    let o = Obj::new().str("event", "capabilities").str("name", name).str("version", version).strs(
        "features",
        f.as_slice(),
    ).strs("backends", b.as_slice()).strs("entry_points", e.as_slice()).bool(
        "zealot_binary",
        zealot_binary,
    ).str("zealot_binary_path", zealot_binary_path).str("run_id", RUN_ID);
    assert(o@ =~= capabilities_fields(name@, version@, zealot, zealot_binary, zealot_binary_path@));
    o.done()
}

} // verus!
