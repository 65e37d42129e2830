//! Checkpoints: where they live, and the manifest beside the weights that
//! says what produced them.
//!
//! A checkpoint carries the scene, seed and reward shape that produced it; a
//! file of floats with no lineage is a file nobody can ship. The manifest is a
//! small line-oriented text: `run …`, `scene …`, `seed N`, `step N`,
//! `score X`, `shape OBS ACT HIDDEN`, then one `term NAME WEIGHT` per reward
//! term. Reading takes each line's first word as its key and ignores lines it
//! does not know, so an older or newer manifest still reads.
//!
//! The score and the term weights are floating point. The manifest holds them
//! as the text the file holds — the score at six places, a weight as `{}`
//! prints it — and whoever holds the floats renders and parses them.

use vstd::prelude::*;

use crate::text::{
    chars_of, decimal, is_space, is_word, lemma_decimal_word, lemma_parse_decimal,
    lemma_words_are_words, lemma_words_concat_space, lemma_words_single, parse_u64, parse_u64_of,
    push_char, push_radix, push_str, same_text, split_whitespace, string_of, strings_view, words,
};

verus! {

broadcast use vstd::seq_lib::group_seq_properties;

/// The path a run's checkpoints live under: `runs/<run>`, as
/// `Path::join` builds it — an absolute `run` replaces the base.
pub open spec fn run_dir_of(run: Seq<char>) -> Seq<char> {
    if run.len() > 0 && run[0] == '/' {
        run
    } else {
        seq!['r', 'u', 'n', 's', '/'] + run
    }
}

/// Where a run's checkpoints live. Runs own their artifacts.
pub fn run_dir(run: &str) -> (p: String)
    ensures
        p@ == run_dir_of(run@),
{
    let cs = chars_of(run);
    if cs.len() > 0 && cs[0] == '/' {
        return String::from_str(run);
    }
    let mut p = String::from_str("runs/");
    proof {
        reveal_strlit("runs/");
    }
    push_str(&mut p, run);
    assert(p@ =~= run_dir_of(run@));
    p
}

// --------------------------------------------------------------- manifest --

/// What a manifest says, as text and integers.
#[verifier::ext_equal]
pub struct ManifestView {
    pub run: Seq<char>,
    pub scene: Seq<char>,
    pub seed: u64,
    pub step: u64,
    pub score: Seq<char>,
    pub n_obs: usize,
    pub n_act: usize,
    pub hidden: usize,
    pub terms: Seq<(Seq<char>, Seq<char>)>,
}

/// Everything needed to identify what produced a set of weights.
#[derive(Clone, Debug)]
pub struct Manifest {
    pub run: String,
    pub scene: String,
    pub seed: u64,
    pub step: u64,
    /// The score as the file writes it; empty when the file has none.
    pub score: String,
    pub n_obs: usize,
    pub n_act: usize,
    pub hidden: usize,
    /// Reward term names and weights (as text), so a checkpoint records what
    /// it was optimising — not merely that it was optimised.
    pub terms: Vec<(String, String)>,
}

pub open spec fn pairs_view(p: Seq<(String, String)>) -> Seq<(Seq<char>, Seq<char>)> {
    p.map_values(|t: (String, String)| (t.0@, t.1@))
}

impl View for Manifest {
    type V = ManifestView;

    open spec fn view(&self) -> ManifestView {
        ManifestView {
            run: self.run@,
            scene: self.scene@,
            seed: self.seed,
            step: self.step,
            score: self.score@,
            n_obs: self.n_obs,
            n_act: self.n_act,
            hidden: self.hidden,
            terms: pairs_view(self.terms@),
        }
    }
}

/// The manifest a file with no recognised lines reads as.
pub open spec fn empty_manifest() -> ManifestView {
    ManifestView {
        run: seq![],
        scene: seq![],
        seed: 0,
        step: 0,
        score: seq![],
        n_obs: 0,
        n_act: 0,
        hidden: 0,
        terms: seq![],
    }
}

/// Words joined by single spaces.
pub open spec fn join_spaces(ws: Seq<Seq<char>>) -> Seq<char>
    decreases ws.len(),
{
    if ws.len() == 0 {
        seq![]
    } else if ws.len() == 1 {
        ws[0]
    } else {
        join_spaces(ws.drop_last()) + seq![' '] + ws.last()
    }
}

/// Word `i`, or nothing.
pub open spec fn word_at(ws: Seq<Seq<char>>, i: int) -> Seq<char> {
    if 0 <= i < ws.len() {
        ws[i]
    } else {
        seq![]
    }
}

/// Word `i` read as a count; zero when absent or unreadable.
pub open spec fn count_at(ws: Seq<Seq<char>>, i: int) -> u64 {
    match parse_u64_of(word_at(ws, i), 10) {
        Some(v) => v,
        None => 0,
    }
}

/// Word `i` read as a size; zero when absent, unreadable or too large.
pub open spec fn size_at(ws: Seq<Seq<char>>, i: int) -> usize {
    match parse_u64_of(word_at(ws, i), 10) {
        Some(v) => if v <= usize::MAX {
            v as usize
        } else {
            0
        },
        None => 0,
    }
}

/// What one line, split into words, does to the manifest read so far.
pub open spec fn apply_line(m: ManifestView, ws: Seq<Seq<char>>) -> ManifestView {
    if ws.len() == 0 {
        m
    } else if ws[0] == "run"@ {
        ManifestView { run: join_spaces(ws.drop_first()), ..m }
    } else if ws[0] == "scene"@ {
        ManifestView { scene: join_spaces(ws.drop_first()), ..m }
    } else if ws[0] == "seed"@ {
        ManifestView { seed: count_at(ws, 1), ..m }
    } else if ws[0] == "step"@ {
        ManifestView { step: count_at(ws, 1), ..m }
    } else if ws[0] == "score"@ {
        ManifestView { score: word_at(ws, 1), ..m }
    } else if ws[0] == "shape"@ {
        ManifestView { n_obs: size_at(ws, 1), n_act: size_at(ws, 2), hidden: size_at(ws, 3), ..m }
    } else if ws[0] == "term"@ {
        ManifestView { terms: m.terms.push((word_at(ws, 1), word_at(ws, 2))), ..m }
    } else {
        m
    }
}

/// The position of the last line break.
pub open spec fn last_newline(t: Seq<char>) -> Option<int>
    decreases t.len(),
{
    if t.len() == 0 {
        None
    } else if t.last() == '\n' {
        Some(t.len() - 1)
    } else {
        last_newline(t.drop_last())
    }
}

pub proof fn lemma_last_newline(t: Seq<char>)
    ensures
        match last_newline(t) {
            Some(i) => 0 <= i < t.len() && t[i] == '\n' && forall|j: int|
                i < j < t.len() ==> t[j] != '\n',
            None => forall|j: int| 0 <= j < t.len() ==> t[j] != '\n',
        },
    decreases t.len(),
{
    if t.len() > 0 && t.last() != '\n' {
        let u = t.drop_last();
        lemma_last_newline(u);
        assert forall|j: int| 0 <= j < u.len() implies u[j] == t[j] by {}
    }
}

/// The manifest a text describes: its lines (split at `\n`) applied in
/// order. `str::lines` also drops a `\r` before the break and an empty last
/// line; neither has any words, so neither changes what is read.
pub open spec fn manifest_of(t: Seq<char>) -> ManifestView
    decreases t.len(),
{
    match last_newline(t) {
        None => apply_line(empty_manifest(), words(t)),
        Some(i) => {
            proof {
                lemma_last_newline(t);
            }
            apply_line(manifest_of(t.take(i)), words(t.skip(i + 1)))
        },
    }
}

/// The text of one line per entry, each ended by `\n`.
pub open spec fn lines_text(ls: Seq<Seq<char>>) -> Seq<char>
    decreases ls.len(),
{
    if ls.len() == 0 {
        seq![]
    } else {
        lines_text(ls.drop_last()) + ls.last() + seq!['\n']
    }
}

pub open spec fn term_line(t: (Seq<char>, Seq<char>)) -> Seq<char> {
    "term"@ + seq![' '] + t.0 + seq![' '] + t.1
}

/// The lines a manifest is written as.
pub open spec fn manifest_lines(m: ManifestView) -> Seq<Seq<char>> {
    seq![
        "run"@ + seq![' '] + m.run,
        "scene"@ + seq![' '] + m.scene,
        "seed"@ + seq![' '] + decimal(m.seed as nat),
        "step"@ + seq![' '] + decimal(m.step as nat),
        "score"@ + seq![' '] + m.score,
        "shape"@ + seq![' '] + decimal(m.n_obs as nat) + seq![' '] + decimal(m.n_act as nat) + seq![
            ' ',
        ] + decimal(m.hidden as nat),
    ] + m.terms.map_values(|t: (Seq<char>, Seq<char>)| term_line(t))
}

pub open spec fn manifest_text(m: ManifestView) -> Seq<char> {
    lines_text(manifest_lines(m))
}

/// `words[from..]` joined by single spaces.
fn join_from(ws: &Vec<String>, from: usize) -> (s: String)
    requires
        from <= ws@.len(),
    ensures
        s@ == join_spaces(strings_view(ws@).skip(from as int)),
{
    let ghost v = strings_view(ws@);
    let mut s = String::new();
    let mut i = from;
    while i < ws.len()
        invariant
            from <= i <= ws@.len(),
            v == strings_view(ws@),
            s@ == join_spaces(v.subrange(from as int, i as int)),
        decreases ws@.len() - i,
    {
        let ghost sub = v.subrange(from as int, i + 1);
        assert(sub.drop_last() =~= v.subrange(from as int, i as int));
        assert(sub.last() == ws@[i as int]@);
        if i > from {
            push_char(&mut s, ' ');
        } else {
            assert(v.subrange(from as int, i as int).len() == 0);
        }
        push_str(&mut s, ws[i].as_str());
        i = i + 1;
        assert(s@ =~= join_spaces(sub));
    }
    assert(v.subrange(from as int, ws@.len() as int) =~= v.skip(from as int));
    s
}

/// Word `i` as text, or empty.
fn word_text(ws: &Vec<String>, i: usize) -> (s: String)
    ensures
        s@ == word_at(strings_view(ws@), i as int),
{
    if i < ws.len() {
        ws[i].clone()
    } else {
        String::new()
    }
}

fn count_text(ws: &Vec<String>, i: usize) -> (n: u64)
    ensures
        n == count_at(strings_view(ws@), i as int),
{
    let w = word_text(ws, i);
    match parse_u64(w.as_str()) {
        Some(v) => v,
        None => 0,
    }
}

fn size_text(ws: &Vec<String>, i: usize) -> (n: usize)
    ensures
        n == size_at(strings_view(ws@), i as int),
{
    let w = word_text(ws, i);
    match parse_u64(w.as_str()) {
        Some(v) => if v <= usize::MAX as u64 {
            v as usize
        } else {
            0
        },
        None => 0,
    }
}

impl Default for Manifest {
    fn default() -> (m: Self)
        ensures
            m@ == empty_manifest(),
    {
        Manifest {
            run: String::new(),
            scene: String::new(),
            seed: 0,
            step: 0,
            score: String::new(),
            n_obs: 0,
            n_act: 0,
            hidden: 0,
            terms: Vec::new(),
        }
    }
}

impl Manifest {
    /// Applies one line, given as its words.
    fn apply_words(&mut self, ws: &Vec<String>)
        ensures
            final(self)@ == apply_line(old(self)@, strings_view(ws@)),
    {
        let ghost v = strings_view(ws@);
        if ws.len() == 0 {
            return;
        }
        assert(v[0] == ws@[0]@);
        let k = ws[0].as_str();
        if same_text(k, "run") {
            self.run = join_from(ws, 1);
        } else if same_text(k, "scene") {
            self.scene = join_from(ws, 1);
        } else if same_text(k, "seed") {
            self.seed = count_text(ws, 1);
        } else if same_text(k, "step") {
            self.step = count_text(ws, 1);
        } else if same_text(k, "score") {
            self.score = word_text(ws, 1);
        } else if same_text(k, "shape") {
            self.n_obs = size_text(ws, 1);
            self.n_act = size_text(ws, 2);
            self.hidden = size_text(ws, 3);
        } else if same_text(k, "term") {
            let name = word_text(ws, 1);
            let w = word_text(ws, 2);
            let ghost before = pairs_view(self.terms@);
            self.terms.push((name, w));
            assert(pairs_view(self.terms@) =~= before.push((name@, w@)));
        }
        assert(v.drop_first() =~= v.skip(1));
        assert(self@ =~= apply_line(old(self)@, v));
    }

    /// Reads a manifest. Unknown lines are skipped and a missing or
    /// unreadable value keeps its default, so this never fails.
    pub fn from_text(text: &str) -> (m: Self)
        ensures
            m@ == manifest_of(text@),
    {
        let cs = chars_of(text);
        let n = cs.len();
        let mut m = Manifest::default();
        let mut start: usize = 0;
        let mut i: usize = 0;
        while i < n
            invariant
                start <= i <= n == cs@.len(),
                cs@ == text@,
                forall|j: int| start <= j < i ==> cs@[j] != '\n',
                start == 0 ==> m@ == empty_manifest(),
                start > 0 ==> cs@[start - 1] == '\n' && m@ == manifest_of(cs@.take(start - 1)),
            decreases n - i,
        {
            if cs[i] == '\n' {
                let line = string_of(&cs, start, i);
                let ws = split_whitespace(line.as_str());
                m.apply_words(&ws);
                proof {
                    lemma_manifest_piece(cs@, start as int, i as int);
                }
                start = i + 1;
            }
            i = i + 1;
        }
        let line = string_of(&cs, start, n);
        let ws = split_whitespace(line.as_str());
        m.apply_words(&ws);
        proof {
            lemma_manifest_piece(cs@, start as int, n as int);
            assert(cs@.take(n as int) =~= cs@);
        }
        m
    }

    /// The manifest as the file holds it.
    pub fn to_text(&self) -> (s: String)
        ensures
            s@ == manifest_text(self@),
    {
        let ghost ls = manifest_lines(self@);
        let mut s = String::new();
        assert(lines_text(ls.take(0)) == Seq::<char>::empty());
        let l = key_value("run", self.run.as_str());
        push_line(&mut s, &l, Ghost(ls), Ghost(0));
        let l = key_value("scene", self.scene.as_str());
        push_line(&mut s, &l, Ghost(ls), Ghost(1));
        let d = crate::text::decimal_string(self.seed);
        let l = key_value("seed", d.as_str());
        push_line(&mut s, &l, Ghost(ls), Ghost(2));
        let d = crate::text::decimal_string(self.step);
        let l = key_value("step", d.as_str());
        push_line(&mut s, &l, Ghost(ls), Ghost(3));
        let l = key_value("score", self.score.as_str());
        push_line(&mut s, &l, Ghost(ls), Ghost(4));
        let mut shape = crate::text::decimal_string(self.n_obs as u64);
        push_char(&mut shape, ' ');
        push_radix(&mut shape, self.n_act as u64, 10, false);
        push_char(&mut shape, ' ');
        push_radix(&mut shape, self.hidden as u64, 10, false);
        let l = key_value("shape", shape.as_str());
        assert(l@ =~= ls[5]);
        push_line(&mut s, &l, Ghost(ls), Ghost(5));
        let mut i: usize = 0;
        while i < self.terms.len()
            invariant
                0 <= i <= self.terms@.len(),
                ls == manifest_lines(self@),
                s@ == lines_text(ls.take(6 + i)),
            decreases self.terms@.len() - i,
        {
            let mut v = self.terms[i].0.clone();
            assert(v@ == self.terms@[i as int].0@);
            push_char(&mut v, ' ');
            push_str(&mut v, self.terms[i].1.as_str());
            let l = key_value("term", v.as_str());
            assert(self@.terms[i as int] == (self.terms@[i as int].0@, self.terms@[i as int].1@));
            assert(l@ =~= ls[6 + i]);
            push_line(&mut s, &l, Ghost(ls), Ghost(6 + i as int));
            i = i + 1;
        }
        assert(ls.take(6 + i) =~= ls);
        s
    }
}

/// `key value`.
fn key_value(k: &str, v: &str) -> (l: String)
    ensures
        l@ == k@ + seq![' '] + v@,
{
    let mut l = String::from_str(k);
    push_char(&mut l, ' ');
    push_str(&mut l, v);
    l
}

/// Appends line `k` of `ls` and its line break.
fn push_line(s: &mut String, line: &String, ls: Ghost<Seq<Seq<char>>>, k: Ghost<int>)
    requires
        0 <= k@ < ls@.len(),
        line@ == ls@[k@],
        old(s)@ == lines_text(ls@.take(k@)),
    ensures
        final(s)@ == lines_text(ls@.take(k@ + 1)),
{
    push_str(s, line.as_str());
    push_char(s, '\n');
    assert(ls@.take(k@ + 1).drop_last() =~= ls@.take(k@));
}

/// The piece `t[s..e]`, which holds no line break and starts a line, is the
/// last line of `t[..e]`.
proof fn lemma_manifest_piece(t: Seq<char>, s: int, e: int)
    requires
        0 <= s <= e <= t.len(),
        forall|j: int| s <= j < e ==> t[j] != '\n',
        s > 0 ==> t[s - 1] == '\n',
    ensures
        manifest_of(t.take(e)) == apply_line(
            if s == 0 {
                empty_manifest()
            } else {
                manifest_of(t.take(s - 1))
            },
            words(t.subrange(s, e)),
        ),
{
    lemma_last_newline_piece(t, s, e);
    let u = t.take(e);
    if s == 0 {
        assert(u =~= t.subrange(s, e));
    } else {
        assert(u.take(s - 1) =~= t.take(s - 1));
        assert(u.skip(s) =~= t.subrange(s, e));
    }
}

pub proof fn lemma_last_newline_piece(t: Seq<char>, s: int, e: int)
    requires
        0 <= s <= e <= t.len(),
        forall|j: int| s <= j < e ==> t[j] != '\n',
        s > 0 ==> t[s - 1] == '\n',
    ensures
        last_newline(t.take(e)) == if s == 0 {
            None::<int>
        } else {
            Some(s - 1)
        },
    decreases e - s,
{
    if e > s {
        lemma_last_newline_piece(t, s, e - 1);
        assert(t.take(e).drop_last() =~= t.take(e - 1));
    } else if s > 0 {
        assert(t.take(e).last() == t[s - 1]);
    }
}

// ------------------------------------------------------------- round trip --

/// The lines applied in order.
pub open spec fn apply_lines(m: ManifestView, ls: Seq<Seq<char>>) -> ManifestView
    decreases ls.len(),
{
    if ls.len() == 0 {
        m
    } else {
        apply_line(apply_lines(m, ls.drop_last()), words(ls.last()))
    }
}

pub open spec fn no_newline(l: Seq<char>) -> bool {
    forall|j: int| 0 <= j < l.len() ==> l[j] != '\n'
}

/// A text the manifest holds verbatim: words separated by single spaces.
pub open spec fn is_phrase(s: Seq<char>) -> bool {
    join_spaces(words(s)) == s
}

/// What a manifest must hold to be written and read back unchanged: run and
/// scene as phrases, the score and each term's name and weight as single
/// words.
pub open spec fn is_writable(m: ManifestView) -> bool {
    &&& is_phrase(m.run)
    &&& is_phrase(m.scene)
    &&& is_word(m.score)
    &&& forall|i: int|
        0 <= i < m.terms.len() ==> is_word(#[trigger] m.terms[i].0) && is_word(m.terms[i].1)
}

proof fn lemma_lines_text_end(ls: Seq<Seq<char>>)
    ensures
        ls.len() == 0 ==> lines_text(ls).len() == 0,
        ls.len() > 0 ==> lines_text(ls).len() > 0 && lines_text(ls).last() == '\n',
{
}

/// Reading the lines back applies them in order.
proof fn lemma_read_lines(ls: Seq<Seq<char>>)
    requires
        forall|i: int| 0 <= i < ls.len() ==> no_newline(#[trigger] ls[i]),
    ensures
        manifest_of(lines_text(ls)) == apply_lines(empty_manifest(), ls),
    decreases ls.len(),
{
    if ls.len() == 0 {
        assert(words(Seq::<char>::empty()) =~= Seq::<Seq<char>>::empty());
    } else {
        let p = ls.drop_last();
        let l = ls.last();
        assert forall|i: int| 0 <= i < p.len() implies no_newline(#[trigger] p[i]) by {
            assert(p[i] == ls[i]);
        }
        lemma_read_lines(p);
        let lp = lines_text(p);
        let y = lp + l;
        let x = lines_text(ls);
        assert(x =~= y + seq!['\n']);
        assert(x.take(x.len() - 1) =~= y);
        assert(x.skip(x.len() as int) =~= Seq::<char>::empty());
        assert(words(Seq::<char>::empty()) =~= Seq::<Seq<char>>::empty());
        assert(manifest_of(x) == manifest_of(y));
        lemma_lines_text_end(p);
        assert(no_newline(ls[ls.len() - 1]));
        assert forall|j: int| lp.len() <= j < y.len() implies y[j] != '\n' by {
            assert(y[j] == l[j - lp.len()]);
        }
        lemma_manifest_piece(y, lp.len() as int, y.len() as int);
        assert(y.take(y.len() as int) =~= y);
        assert(y.subrange(lp.len() as int, y.len() as int) =~= l);
        if lp.len() > 0 {
            assert(y[lp.len() - 1] == lp.last());
            let z = lp.drop_last();
            assert(y.take(lp.len() - 1) =~= z);
            assert(lp =~= z + seq!['\n']);
            assert(lp.take(lp.len() - 1) =~= z);
            assert(lp.skip(lp.len() as int) =~= Seq::<char>::empty());
            assert(manifest_of(lp) == manifest_of(z));
        }
    }
}

proof fn lemma_apply_lines_append(m: ManifestView, a: Seq<Seq<char>>, b: Seq<Seq<char>>)
    ensures
        apply_lines(m, a + b) == apply_lines(apply_lines(m, a), b),
    decreases b.len(),
{
    if b.len() == 0 {
        assert(a + b =~= a);
    } else {
        lemma_apply_lines_append(m, a, b.drop_last());
        assert((a + b).drop_last() =~= a + b.drop_last());
        assert((a + b).last() == b.last());
    }
}

proof fn lemma_key_words(k: Seq<char>, v: Seq<char>)
    requires
        is_word(k),
    ensures
        words(k + seq![' '] + v) == seq![k] + words(v),
{
    lemma_words_concat_space(k, v);
    lemma_words_single(k);
}

proof fn lemma_two_words(k: Seq<char>, v: Seq<char>)
    requires
        is_word(k),
        is_word(v),
    ensures
        words(k + seq![' '] + v) == seq![k, v],
{
    lemma_key_words(k, v);
    lemma_words_single(v);
    assert(seq![k] + seq![v] =~= seq![k, v]);
}

proof fn lemma_keys()
    ensures
        is_word("run"@),
        is_word("scene"@),
        is_word("seed"@),
        is_word("step"@),
        is_word("score"@),
        is_word("shape"@),
        is_word("term"@),
        "term"@ != "run"@,
        "term"@ != "scene"@,
        "term"@ != "seed"@,
        "term"@ != "step"@,
        "term"@ != "score"@,
        "term"@ != "shape"@,
        "shape"@ != "run"@,
        "shape"@ != "scene"@,
        "shape"@ != "seed"@,
        "shape"@ != "step"@,
        "shape"@ != "score"@,
        "score"@ != "run"@,
        "score"@ != "scene"@,
        "score"@ != "seed"@,
        "score"@ != "step"@,
        "step"@ != "run"@,
        "step"@ != "scene"@,
        "step"@ != "seed"@,
        "seed"@ != "run"@,
        "seed"@ != "scene"@,
        "scene"@ != "run"@,
{
    reveal_strlit("run");
    reveal_strlit("scene");
    reveal_strlit("seed");
    reveal_strlit("step");
    reveal_strlit("score");
    reveal_strlit("shape");
    reveal_strlit("term");
    assert("run"@.len() == 3 && "term"@.len() == 4 && "seed"@.len() == 4 && "step"@.len() == 4);
    assert("scene"@.len() == 5 && "score"@.len() == 5 && "shape"@.len() == 5);
    assert("term"@[0] != "seed"@[0] && "term"@[0] != "step"@[0]);
    assert("shape"@[1] != "scene"@[1] && "shape"@[1] != "score"@[1]);
    assert("score"@[2] != "scene"@[2]);
    assert("step"@[1] != "seed"@[1]);
    assert forall|i: int| 0 <= i < 3 implies !is_space(#[trigger] "run"@[i]) by {}
    assert forall|i: int| 0 <= i < 4 implies !is_space(#[trigger] "term"@[i]) by {}
    assert forall|i: int| 0 <= i < 4 implies !is_space(#[trigger] "seed"@[i]) by {}
    assert forall|i: int| 0 <= i < 4 implies !is_space(#[trigger] "step"@[i]) by {}
    assert forall|i: int| 0 <= i < 5 implies !is_space(#[trigger] "scene"@[i]) by {}
    assert forall|i: int| 0 <= i < 5 implies !is_space(#[trigger] "score"@[i]) by {}
    assert forall|i: int| 0 <= i < 5 implies !is_space(#[trigger] "shape"@[i]) by {}
}

/// The term lines push their terms, in order, and change nothing else.
proof fn lemma_read_terms(m: ManifestView, ts: Seq<(Seq<char>, Seq<char>)>)
    requires
        forall|i: int| 0 <= i < ts.len() ==> is_word(#[trigger] ts[i].0) && is_word(ts[i].1),
    ensures
        apply_lines(m, ts.map_values(|t: (Seq<char>, Seq<char>)| term_line(t))) == (ManifestView {
            terms: m.terms + ts,
            ..m
        }),
    decreases ts.len(),
{
    let ls = ts.map_values(|t: (Seq<char>, Seq<char>)| term_line(t));
    if ts.len() == 0 {
        assert(m.terms + ts =~= m.terms);
        assert((ManifestView { terms: m.terms + ts, ..m }) =~= m);
    } else {
        let q = ts.drop_last();
        let t = ts.last();
        assert forall|i: int| 0 <= i < q.len() implies is_word(#[trigger] q[i].0) && is_word(
            q[i].1,
        ) by {
            assert(q[i] == ts[i]);
        }
        lemma_read_terms(m, q);
        assert(ls.drop_last() =~= q.map_values(|t: (Seq<char>, Seq<char>)| term_line(t)));
        assert(ls.last() == term_line(t));
        assert(is_word(ts[ts.len() - 1].0) && is_word(ts[ts.len() - 1].1));
        lemma_keys();
        lemma_key_words("term"@, t.0);
        lemma_words_single(t.0);
        lemma_words_concat_space("term"@ + seq![' '] + t.0, t.1);
        lemma_words_single(t.1);
        let ws = words(term_line(t));
        assert(ws =~= seq!["term"@, t.0, t.1]);
        assert((m.terms + q).push((t.0, t.1)) =~= m.terms + ts);
    }
}

proof fn lemma_join_no_newline(ws: Seq<Seq<char>>)
    requires
        forall|k: int| 0 <= k < ws.len() ==> is_word(#[trigger] ws[k]),
    ensures
        no_newline(join_spaces(ws)),
    decreases ws.len(),
{
    if ws.len() == 1 {
        assert(is_word(ws[0]));
        assert forall|j: int| 0 <= j < ws[0].len() implies ws[0][j] != '\n' by {
            assert(!is_space(ws[0][j]));
        }
    } else if ws.len() > 1 {
        let p = ws.drop_last();
        assert forall|k: int| 0 <= k < p.len() implies is_word(#[trigger] p[k]) by {
            assert(p[k] == ws[k]);
        }
        lemma_join_no_newline(p);
        let a = join_spaces(p);
        let l = ws.last();
        assert(is_word(ws[ws.len() - 1]));
        let j_all = a + seq![' '] + l;
        assert forall|j: int| 0 <= j < j_all.len() implies j_all[j] != '\n' by {
            if j < a.len() {
                assert(j_all[j] == a[j]);
            } else if j > a.len() {
                assert(j_all[j] == l[j - a.len() - 1]);
                assert(!is_space(l[j - a.len() - 1]));
            }
        }
    }
}

proof fn lemma_phrase_no_newline(s: Seq<char>)
    requires
        is_phrase(s),
    ensures
        no_newline(s),
{
    lemma_words_are_words(s);
    lemma_join_no_newline(words(s));
}

proof fn lemma_word_no_newline(s: Seq<char>)
    requires
        is_word(s),
    ensures
        no_newline(s),
{
    assert forall|j: int| 0 <= j < s.len() implies s[j] != '\n' by {
        assert(!is_space(s[j]));
    }
}

proof fn lemma_apply_step(m: ManifestView, ls: Seq<Seq<char>>, k: int)
    requires
        0 <= k < ls.len(),
    ensures
        apply_lines(m, ls.take(k + 1)) == apply_line(apply_lines(m, ls.take(k)), words(ls[k])),
{
    assert(ls.take(k + 1).drop_last() =~= ls.take(k));
    assert(ls.take(k + 1).last() == ls[k]);
}

/// The six fixed lines set run, scene, seed, step, score and shape.
#[verifier::rlimit(40)]
proof fn lemma_read_fixed(m: ManifestView)
    requires
        is_writable(m),
    ensures
        apply_lines(empty_manifest(), manifest_lines(m).take(6)) == (ManifestView {
            terms: seq![],
            ..m
        }),
{
    let fixed = manifest_lines(m).take(6);
    lemma_keys();
    lemma_decimal_word(m.seed as nat);
    lemma_decimal_word(m.step as nat);
    lemma_decimal_word(m.n_obs as nat);
    lemma_decimal_word(m.n_act as nat);
    lemma_decimal_word(m.hidden as nat);
    lemma_parse_decimal(m.seed);
    lemma_parse_decimal(m.step);
    lemma_parse_decimal(m.n_obs as u64);
    lemma_parse_decimal(m.n_act as u64);
    lemma_parse_decimal(m.hidden as u64);
    lemma_key_words("run"@, m.run);
    lemma_key_words("scene"@, m.scene);
    lemma_two_words("seed"@, decimal(m.seed as nat));
    lemma_two_words("step"@, decimal(m.step as nat));
    lemma_two_words("score"@, m.score);
    let sh1 = "shape"@ + seq![' '] + decimal(m.n_obs as nat);
    let sh2 = sh1 + seq![' '] + decimal(m.n_act as nat);
    lemma_two_words("shape"@, decimal(m.n_obs as nat));
    lemma_words_concat_space(sh1, decimal(m.n_act as nat));
    lemma_words_single(decimal(m.n_act as nat));
    lemma_words_concat_space(sh2, decimal(m.hidden as nat));
    lemma_words_single(decimal(m.hidden as nat));
    let e = empty_manifest();
    assert(apply_lines(e, fixed.take(0)) == e);
    let a1 = ManifestView { run: m.run, ..e };
    let a2 = ManifestView { scene: m.scene, ..a1 };
    let a3 = ManifestView { seed: m.seed, ..a2 };
    let a4 = ManifestView { step: m.step, ..a3 };
    let a5 = ManifestView { score: m.score, ..a4 };
    let a6 = ManifestView { n_obs: m.n_obs, n_act: m.n_act, hidden: m.hidden, ..a5 };
    let w1 = words(fixed[0]);
    assert(w1[0] == "run"@);
    assert(w1.drop_first() =~= words(m.run));
    lemma_apply_step(e, fixed, 0);
    assert(apply_lines(e, fixed.take(1)) == apply_line(e, w1));
    assert(apply_lines(e, fixed.take(1)) =~= a1);
    let w2 = words(fixed[1]);
    assert(w2[0] == "scene"@);
    assert(w2.drop_first() =~= words(m.scene));
    lemma_apply_step(e, fixed, 1);
    assert(apply_lines(e, fixed.take(2)) == apply_line(a1, w2));
    assert(apply_lines(e, fixed.take(2)) =~= a2);
    let w3 = words(fixed[2]);
    assert(w3 == seq!["seed"@, decimal(m.seed as nat)]);
    assert(count_at(w3, 1) == m.seed);
    lemma_apply_step(e, fixed, 2);
    assert(apply_lines(e, fixed.take(3)) == apply_line(a2, w3));
    assert(apply_lines(e, fixed.take(3)) =~= a3);
    let w4 = words(fixed[3]);
    assert(w4 == seq!["step"@, decimal(m.step as nat)]);
    assert(count_at(w4, 1) == m.step);
    lemma_apply_step(e, fixed, 3);
    assert(apply_lines(e, fixed.take(4)) == apply_line(a3, w4));
    assert(apply_lines(e, fixed.take(4)) =~= a4);
    let w5 = words(fixed[4]);
    assert(w5 == seq!["score"@, m.score]);
    lemma_apply_step(e, fixed, 4);
    assert(apply_lines(e, fixed.take(5)) == apply_line(a4, w5));
    assert(apply_lines(e, fixed.take(5)) =~= a5);
    let w6 = words(fixed[5]);
    assert(w6 =~= seq![
        "shape"@,
        decimal(m.n_obs as nat),
        decimal(m.n_act as nat),
        decimal(m.hidden as nat),
    ]);
    assert(size_at(w6, 1) == m.n_obs);
    assert(size_at(w6, 2) == m.n_act);
    assert(size_at(w6, 3) == m.hidden);
    lemma_apply_step(e, fixed, 5);
    assert(fixed.take(6) =~= fixed);
    assert(apply_lines(e, fixed) == apply_line(a5, w6));
    assert(apply_lines(e, fixed) =~= a6);
    assert(a6 =~= (ManifestView { terms: seq![], ..m }));
}

/// A manifest written out reads back as the same manifest — scene, seed,
/// step, score, shape and every reward term in order — whenever what it holds
/// can be written verbatim (see [`is_writable`]).
pub proof fn lemma_manifest_round_trip(m: ManifestView)
    requires
        is_writable(m),
    ensures
        manifest_of(manifest_text(m)) == m,
{
    let ls = manifest_lines(m);
    let fixed = ls.take(6);
    let tl = m.terms.map_values(|t: (Seq<char>, Seq<char>)| term_line(t));
    assert(ls =~= fixed + tl);
    lemma_keys();
    lemma_decimal_word(m.seed as nat);
    lemma_decimal_word(m.step as nat);
    lemma_decimal_word(m.n_obs as nat);
    lemma_decimal_word(m.n_act as nat);
    lemma_decimal_word(m.hidden as nat);
    lemma_parse_decimal(m.seed);
    lemma_parse_decimal(m.step);
    lemma_parse_decimal(m.n_obs as u64);
    lemma_parse_decimal(m.n_act as u64);
    lemma_parse_decimal(m.hidden as u64);
    // every line is free of line breaks
    lemma_phrase_no_newline(m.run);
    lemma_phrase_no_newline(m.scene);
    lemma_word_no_newline(m.score);
    lemma_word_no_newline("run"@);
    lemma_word_no_newline("scene"@);
    lemma_word_no_newline("seed"@);
    lemma_word_no_newline("step"@);
    lemma_word_no_newline("score"@);
    lemma_word_no_newline("shape"@);
    lemma_word_no_newline("term"@);
    lemma_word_no_newline(decimal(m.seed as nat));
    lemma_word_no_newline(decimal(m.step as nat));
    lemma_word_no_newline(decimal(m.n_obs as nat));
    lemma_word_no_newline(decimal(m.n_act as nat));
    lemma_word_no_newline(decimal(m.hidden as nat));
    assert forall|i: int| 0 <= i < ls.len() implies no_newline(#[trigger] ls[i]) by {
        if i >= 6 {
            let t = m.terms[i - 6];
            assert(is_word(m.terms[i - 6].0) && is_word(m.terms[i - 6].1));
            lemma_word_no_newline(t.0);
            lemma_word_no_newline(t.1);
            assert(ls[i] == term_line(t));
        }
    }
    lemma_read_lines(ls);
    lemma_apply_lines_append(empty_manifest(), fixed, tl);
    let m0 = ManifestView { terms: seq![], ..m };
    lemma_read_fixed(m);
    lemma_read_terms(m0, m.terms);
    assert(m0.terms + m.terms =~= m.terms);
    assert((ManifestView { terms: m0.terms + m.terms, ..m0 }) =~= m);
}

// ----------------------------------------------------------------- listing --

/// Entry `a` is listed before entry `b`: a later step first, and between
/// equal steps the order they were found in (a stable sort, newest first).
pub open spec fn listed_before(steps: Seq<u64>, a: int, b: int) -> bool {
    steps[a] > steps[b] || (steps[a] == steps[b] && a < b)
}

/// The order in which a run's checkpoints are listed, given the step each
/// one's manifest records: every index once, newest first, ties in the
/// order found.
pub fn newest_first(steps: &[u64]) -> (order: Vec<usize>)
    ensures
        order@.len() == steps@.len(),
        forall|i: int| 0 <= i < order@.len() ==> order@[i] < steps@.len(),
        forall|i: int, j: int|
            0 <= i < j < order@.len() ==> listed_before(
                steps@,
                order@[i] as int,
                order@[j] as int,
            ),
{
    let n = steps.len();
    let mut out: Vec<usize> = Vec::new();
    let mut k: usize = 0;
    while k < n
        invariant
            0 <= k <= n == steps@.len(),
            out@.len() == k,
            forall|i: int| 0 <= i < out@.len() ==> out@[i] < k,
            forall|i: int, j: int|
                0 <= i < j < out@.len() ==> listed_before(steps@, out@[i] as int, out@[j] as int),
        decreases n - k,
    {
        let s = steps[k];
        let mut p: usize = 0;
        while p < out.len() && steps[out[p]] >= s
            invariant
                0 <= p <= out@.len(),
                k < n == steps@.len(),
                s == steps@[k as int],
                forall|i: int| 0 <= i < out@.len() ==> out@[i] < k,
                forall|i: int| 0 <= i < p ==> steps@[out@[i] as int] >= s,
            decreases out@.len() - p,
        {
            p = p + 1;
        }
        let ghost before = out@;
        out.insert(p, k);
        proof {
            assert forall|i: int, j: int| 0 <= i < j < out@.len() implies listed_before(
                steps@,
                out@[i] as int,
                out@[j] as int,
            ) by {
                if j < p {
                    assert(out@[i] == before[i] && out@[j] == before[j]);
                } else if j == p {
                    assert(out@[i] == before[i]);
                } else if i == p {
                    assert(out@[j] == before[j - 1]);
                    if p < before.len() {
                        assert(steps@[before[p as int] as int] < s);
                        if j - 1 > p {
                            assert(listed_before(steps@, before[p as int] as int, before[j - 1] as int));
                        }
                    }
                } else if i < p {
                    assert(out@[i] == before[i] && out@[j] == before[j - 1]);
                } else {
                    assert(out@[i] == before[i - 1] && out@[j] == before[j - 1]);
                }
            }
        }
        k = k + 1;
    }
    out
}

} // verus!
