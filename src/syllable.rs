use vstd::prelude::*;

use crate::lrc::{
    copy_range, lemma_newline_bounds, lemma_newline_first, lemma_newline_shift,
    lemma_sort_lines_facts, lemma_sorted_unchanged, newline_at_or_after, newline_exec,
};
use crate::model::{
    insert_sorted, lines_view, normalize, sort_lines, LineModel, LyricLine, LyricWord, WordModel,
};
use crate::text::{chars_of, push_char, push_str, string_of};
use crate::timestamp::{
    decimal, digit_run, digit_run_exec, digits_value, digits_value_exec, is_digit,
    lemma_digit_run_all, push_decimal,
};

verus! {

/// The word-level formats: each word carries its own start and duration.
#[derive(Debug, Clone, Copy, PartialEq, Eq, Structural)]
pub enum WordFormat {
    /// `[start,duration]word(start,duration)word(start,duration)...`
    Qrc,
    /// `[start,duration](start,duration,0)word(start,duration,0)word...`
    Yrc,
    /// `[flag]word(start,duration)word(start,duration)...`
    Lys,
}

/// Why a line of a word-level format was rejected.
#[derive(Debug, Clone, Copy, PartialEq, Eq, Structural)]
pub enum LineErrorKind {
    /// The line's envelope or one of its word tuples does not parse.
    MalformedLine,
    /// The role flag of a Lyricify Syllable line is outside the defined set.
    UnknownRoleFlag,
}

/// A rejected line: its index among the physical lines of the source,
/// counted from zero, and why it was rejected.
#[derive(Debug, Clone, Copy, PartialEq, Eq)]
pub struct LineError {
    pub line: usize,
    pub kind: LineErrorKind,
}

/// A document read from a word-level format, with the lines it rejected.
#[derive(Debug, Clone, PartialEq, Eq)]
pub struct WordDocument {
    pub lines: Vec<LyricLine>,
    pub errors: Vec<LineError>,
}

/// What one physical line gives.
pub enum LineOutcome {
    /// A blank or metadata line.
    Skipped,
    /// A lyric line.
    Parsed(LineModel),
    /// A rejected line.
    Failed(LineErrorKind),
}

/// The decimal number that starts at `i`: the index past it and its value,
/// where it has at least one digit and fits in `usize`.
pub open spec fn number_at(s: Seq<char>, i: int) -> Option<(int, nat)> {
    let n = digit_run(s, i) as int;
    if 0 <= i && n >= 1 && digits_value(s.subrange(i, i + n)) <= usize::MAX {
        Some((i + n, digits_value(s.subrange(i, i + n))))
    } else {
        None
    }
}

/// The character at `i`, where there is one, is `c`.
pub open spec fn char_is(s: Seq<char>, i: int, c: char) -> bool {
    0 <= i < s.len() && s[i] == c
}

/// `(start,duration)`, or `(start,duration,n)` for YRC, at index `i`: the
/// index past it, the start and the duration. The end that they give must
/// fit in `usize`.
pub open spec fn tuple_at(s: Seq<char>, i: int, f: WordFormat) -> Option<(int, nat, nat)> {
    if !char_is(s, i, '(') {
        None
    } else {
        match number_at(s, i + 1) {
            None => None,
            Some((j, st)) => if !char_is(s, j, ',') {
                None
            } else {
                match number_at(s, j + 1) {
                    None => None,
                    Some((k, d)) => {
                        let close = if f == WordFormat::Yrc {
                            if char_is(s, k, ',') {
                                match number_at(s, k + 1) {
                                    Some((l, _)) => l,
                                    None => -1,
                                }
                            } else {
                                -1
                            }
                        } else {
                            k
                        };
                        if close >= 0 && char_is(s, close, ')') && st + d <= usize::MAX {
                            Some((close + 1, st, d))
                        } else {
                            None
                        }
                    },
                }
            },
        }
    }
}

/// The index of the first `(` at or after `i`, or the length of `s`.
pub open spec fn paren_at_or_after(s: Seq<char>, i: int) -> int
    decreases s.len() - i,
{
    if 0 <= i < s.len() && s[i] != '(' {
        paren_at_or_after(s, i + 1)
    } else {
        i
    }
}

/// A word from its text, start and duration.
pub open spec fn timed_word(text: Seq<char>, st: nat, d: nat) -> WordModel {
    WordModel { start_time: st, end_time: st + d, word: text }
}

/// The words from index `i` to the end of the line, or `None` where they do
/// not parse. In QRC and LYS each word is its text, up to the next `(`,
/// followed by its tuple; in YRC each word is its tuple followed by its
/// text, up to the next `(`.
pub open spec fn words_from(s: Seq<char>, i: int, f: WordFormat) -> Option<Seq<WordModel>>
    decreases s.len() - i,
{
    if i < 0 || i >= s.len() {
        Some(seq![])
    } else if f == WordFormat::Yrc {
        match tuple_at(s, i, f) {
            Some((e, st, d)) => {
                let t = paren_at_or_after(s, e);
                if i < t <= s.len() {
                    match words_from(s, t, f) {
                        Some(ws) => Some(seq![timed_word(s.subrange(e, t), st, d)] + ws),
                        None => None,
                    }
                } else {
                    None
                }
            },
            None => None,
        }
    } else {
        let t = paren_at_or_after(s, i);
        match tuple_at(s, t, f) {
            Some((e, st, d)) => if i < e <= s.len() {
                match words_from(s, e, f) {
                    Some(ws) => Some(seq![timed_word(s.subrange(i, t), st, d)] + ws),
                    None => None,
                }
            } else {
                None
            },
            None => None,
        }
    }
}

/// Whether `c` is an ASCII letter.
pub open spec fn is_letter(c: char) -> bool {
    ('a' <= c && c <= 'z') || ('A' <= c && c <= 'Z')
}

/// A physical line without its trailing carriage return, if it has one.
pub open spec fn strip_cr(l: Seq<char>) -> Seq<char> {
    if l.len() > 0 && l.last() == '\r' {
        l.drop_last()
    } else {
        l
    }
}

/// A blank line, a metadata tag such as `[ti:...]`, or, in YRC, a JSON
/// line: lines that carry no lyrics.
pub open spec fn is_skipped(b: Seq<char>, f: WordFormat) -> bool {
    b.len() == 0 || (b[0] == '[' && b.len() > 1 && is_letter(b[1])) || (f == WordFormat::Yrc
        && b[0] == '{')
}

/// The `[start,duration]` envelope at the start of a QRC or YRC line: the
/// index past it.
pub open spec fn envelope_end(b: Seq<char>) -> Option<int> {
    if !char_is(b, 0, '[') {
        None
    } else {
        match number_at(b, 1) {
            Some((j, _)) => if char_is(b, j, ',') {
                match number_at(b, j + 1) {
                    Some((k, _)) => if char_is(b, k, ']') {
                        Some(k + 1)
                    } else {
                        None
                    },
                    None => None,
                }
            } else {
                None
            },
            None => None,
        }
    }
}

/// The largest role flag that Lyricify Syllable defines.
pub open spec fn max_role_flag() -> nat {
    8
}

/// Whether a role flag marks a background line: flags 6 to 8.
pub open spec fn flag_is_bg(flag: nat) -> bool {
    flag >= 6
}

/// Whether a role flag marks a line sung on the right: flags 2, 5 and 8.
pub open spec fn flag_is_duet(flag: nat) -> bool {
    flag % 3 == 2
}

/// What one physical line of a word-level format gives.
pub open spec fn line_outcome(l: Seq<char>, f: WordFormat) -> LineOutcome {
    body_outcome(strip_cr(l), f)
}

/// What a line gives, its carriage return removed.
pub open spec fn body_outcome(b: Seq<char>, f: WordFormat) -> LineOutcome {
    if is_skipped(b, f) {
        LineOutcome::Skipped
    } else if f == WordFormat::Lys {
        if !char_is(b, 0, '[') {
            LineOutcome::Failed(LineErrorKind::MalformedLine)
        } else {
            match number_at(b, 1) {
                None => LineOutcome::Failed(LineErrorKind::MalformedLine),
                Some((j, flag)) => if !char_is(b, j, ']') {
                    LineOutcome::Failed(LineErrorKind::MalformedLine)
                } else if flag > max_role_flag() {
                    LineOutcome::Failed(LineErrorKind::UnknownRoleFlag)
                } else {
                    match words_from(b, j + 1, f) {
                        Some(ws) => LineOutcome::Parsed(
                            LineModel { words: ws, is_bg: flag_is_bg(flag), is_duet: flag_is_duet(flag) },
                        ),
                        None => LineOutcome::Failed(LineErrorKind::MalformedLine),
                    }
                },
            }
        }
    } else {
        match envelope_end(b) {
            None => LineOutcome::Failed(LineErrorKind::MalformedLine),
            Some(e) => match words_from(b, e, f) {
                Some(ws) => LineOutcome::Parsed(LineModel { words: ws, is_bg: false, is_duet: false }),
                None => LineOutcome::Failed(LineErrorKind::MalformedLine),
            },
        }
    }
}

/// The outcomes of the physical lines from index `a` on.
pub open spec fn outcomes_from(s: Seq<char>, a: int, f: WordFormat) -> Seq<LineOutcome>
    decreases s.len() - a,
{
    let k = newline_at_or_after(s, a);
    if 0 <= a <= k < s.len() {
        seq![line_outcome(s.subrange(a, k), f)] + outcomes_from(s, k + 1, f)
    } else if 0 <= a <= k {
        seq![line_outcome(s.subrange(a, k), f)]
    } else {
        seq![]
    }
}

/// The lines of an outcome.
pub open spec fn outcome_lines(o: LineOutcome) -> Seq<LineModel> {
    match o {
        LineOutcome::Parsed(l) => seq![l],
        _ => seq![],
    }
}

/// The lyric lines among some outcomes, in order.
pub open spec fn parsed_lines(os: Seq<LineOutcome>) -> Seq<LineModel>
    decreases os.len(),
{
    if os.len() == 0 {
        seq![]
    } else {
        parsed_lines(os.drop_last()) + outcome_lines(os.last())
    }
}

/// The rejected lines among some outcomes: their indices and reasons.
pub open spec fn failures(os: Seq<LineOutcome>) -> Seq<(nat, LineErrorKind)>
    decreases os.len(),
{
    if os.len() == 0 {
        seq![]
    } else {
        failures(os.drop_last()) + match os.last() {
            LineOutcome::Failed(k) => seq![((os.len() - 1) as nat, k)],
            _ => seq![],
        }
    }
}

/// The views of some line errors.
pub open spec fn errors_view(es: Seq<LineError>) -> Seq<(nat, LineErrorKind)> {
    es.map_values(|e: LineError| (e.line as nat, e.kind))
}

fn number_exec(cs: &Vec<char>, i: usize) -> (r: Option<(usize, usize)>)
    requires
        i <= cs.len(),
    ensures
        match r {
            Some((e, v)) => number_at(cs@, i as int) == Some((e as int, v as nat)) && i < e
                <= cs.len(),
            None => number_at(cs@, i as int) is None,
        },
{
    let n = digit_run_exec(cs, i);
    if n == 0 {
        return None;
    }
    proof {
        lemma_digit_run_all(cs@, i as int);
    }
    match digits_value_exec(cs, i, i + n) {
        Some(v) => Some((i + n, v)),
        None => None,
    }
}

fn char_is_exec(cs: &Vec<char>, i: usize, c: char) -> (r: bool)
    ensures
        r == char_is(cs@, i as int, c),
{
    i < cs.len() && cs[i] == c
}

fn tuple_exec(cs: &Vec<char>, i: usize, f: WordFormat) -> (r: Option<(usize, usize, usize)>)
    requires
        i <= cs.len(),
    ensures
        match r {
            Some((e, st, d)) => tuple_at(cs@, i as int, f) == Some((e as int, st as nat, d as nat))
                && i < e <= cs.len(),
            None => tuple_at(cs@, i as int, f) is None,
        },
{
    if !char_is_exec(cs, i, '(') {
        return None;
    }
    let (j, st) = match number_exec(cs, i + 1) {
        Some(x) => x,
        None => {
            return None;
        },
    };
    if !char_is_exec(cs, j, ',') {
        return None;
    }
    let (k, d) = match number_exec(cs, j + 1) {
        Some(x) => x,
        None => {
            return None;
        },
    };
    let close = if f == WordFormat::Yrc {
        if !char_is_exec(cs, k, ',') {
            return None;
        }
        match number_exec(cs, k + 1) {
            Some((l, _)) => l,
            None => {
                return None;
            },
        }
    } else {
        k
    };
    if !char_is_exec(cs, close, ')') || st > usize::MAX - d {
        return None;
    }
    Some((close + 1, st, d))
}

fn paren_exec(cs: &Vec<char>, i: usize) -> (r: usize)
    requires
        i <= cs.len(),
    ensures
        r == paren_at_or_after(cs@, i as int),
        i <= r <= cs.len(),
{
    let mut k: usize = i;
    while k < cs.len() && cs[k] != '('
        invariant
            i <= k <= cs.len(),
            paren_at_or_after(cs@, i as int) == paren_at_or_after(cs@, k as int),
        decreases cs.len() - k,
    {
        k = k + 1;
    }
    k
}

/// `acc` put before the words of `o`, where there are words.
pub open spec fn prepend_words(acc: Seq<WordModel>, o: Option<Seq<WordModel>>) -> Option<
    Seq<WordModel>,
> {
    match o {
        Some(ws) => Some(acc + ws),
        None => None,
    }
}

/// The views of some words.
pub open spec fn words_view(ws: Seq<LyricWord>) -> Seq<WordModel> {
    ws.map_values(|w: LyricWord| w@)
}

fn words_exec(cs: &Vec<char>, i: usize, f: WordFormat) -> (r: Option<Vec<LyricWord>>)
    requires
        i <= cs.len(),
    ensures
        match r {
            Some(ws) => words_from(cs@, i as int, f) == Some(words_view(ws@)),
            None => words_from(cs@, i as int, f) is None,
        },
{
    let mut acc: Vec<LyricWord> = Vec::new();
    let mut cur: usize = i;
    loop
        invariant
            i <= cur <= cs.len(),
            words_from(cs@, i as int, f) == prepend_words(words_view(acc@), words_from(cs@, cur as int, f)),
        decreases cs.len() - cur,
    {
        if cur >= cs.len() {
            assert(words_view(acc@) + seq![] =~= words_view(acc@));
            return Some(acc);
        }
        let ghost before = words_view(acc@);
        let (text_a, text_b, st, d, next) = if f == WordFormat::Yrc {
            match tuple_exec(cs, cur, f) {
                Some((e, st, d)) => {
                    let t = paren_exec(cs, e);
                    (e, t, st, d, t)
                },
                None => {
                    return None;
                },
            }
        } else {
            let t = paren_exec(cs, cur);
            match tuple_exec(cs, t, f) {
                Some((e, st, d)) => (cur, t, st, d, e),
                None => {
                    return None;
                },
            }
        };
        let w = LyricWord { start_time: st, end_time: st + d, word: string_of(cs, text_a, text_b) };
        acc.push(w);
        assert(words_view(acc@) =~= before + seq![timed_word(cs@.subrange(text_a as int, text_b as int), st as nat, d as nat)]);
        proof {
            match words_from(cs@, next as int, f) {
                Some(ws) => {
                    assert(before + (seq![w@] + ws) =~= words_view(acc@) + ws);
                },
                None => {},
            }
        }
        cur = next;
    }
}

/// What one physical line gives, as values.
pub enum ParsedLine {
    Skipped,
    Parsed(LyricLine),
    Failed(LineErrorKind),
}

impl View for ParsedLine {
    type V = LineOutcome;

    open spec fn view(&self) -> LineOutcome {
        match self {
            ParsedLine::Skipped => LineOutcome::Skipped,
            ParsedLine::Parsed(l) => LineOutcome::Parsed(l@),
            ParsedLine::Failed(k) => LineOutcome::Failed(*k),
        }
    }
}

fn is_letter_exec(c: char) -> (r: bool)
    ensures
        r == is_letter(c),
{
    ('a' <= c && c <= 'z') || ('A' <= c && c <= 'Z')
}

/// Reads one physical line, its trailing carriage return already removed.
fn line_outcome_exec(b: &Vec<char>, f: WordFormat) -> (r: ParsedLine)
    ensures
        r@ == body_outcome(b@, f),
{
    let n = b.len();
    if n == 0 || (b[0] == '[' && n > 1 && is_letter_exec(b[1])) || (f == WordFormat::Yrc && b[0]
        == '{') {
        return ParsedLine::Skipped;
    }
    if f == WordFormat::Lys {
        if !char_is_exec(b, 0, '[') {
            return ParsedLine::Failed(LineErrorKind::MalformedLine);
        }
        let (j, flag) = match number_exec(b, 1) {
            Some(x) => x,
            None => {
                return ParsedLine::Failed(LineErrorKind::MalformedLine);
            },
        };
        if !char_is_exec(b, j, ']') {
            return ParsedLine::Failed(LineErrorKind::MalformedLine);
        }
        if flag > 8 {
            return ParsedLine::Failed(LineErrorKind::UnknownRoleFlag);
        }
        match words_exec(b, j + 1, f) {
            Some(words) => ParsedLine::Parsed(
                LyricLine { words, is_bg: flag >= 6, is_duet: flag % 3 == 2 },
            ),
            None => ParsedLine::Failed(LineErrorKind::MalformedLine),
        }
    } else {
        if !char_is_exec(b, 0, '[') {
            return ParsedLine::Failed(LineErrorKind::MalformedLine);
        }
        let j = match number_exec(b, 1) {
            Some((j, _)) => j,
            None => {
                return ParsedLine::Failed(LineErrorKind::MalformedLine);
            },
        };
        if !char_is_exec(b, j, ',') {
            return ParsedLine::Failed(LineErrorKind::MalformedLine);
        }
        let k = match number_exec(b, j + 1) {
            Some((k, _)) => k,
            None => {
                return ParsedLine::Failed(LineErrorKind::MalformedLine);
            },
        };
        if !char_is_exec(b, k, ']') {
            return ParsedLine::Failed(LineErrorKind::MalformedLine);
        }
        match words_exec(b, k + 1, f) {
            Some(words) => ParsedLine::Parsed(LyricLine { words, is_bg: false, is_duet: false }),
            None => ParsedLine::Failed(LineErrorKind::MalformedLine),
        }
    }
}

/// The document of the lines `a..` as outcomes are added one at a time.
proof fn lemma_outcomes_push(os: Seq<LineOutcome>, o: LineOutcome)
    ensures
        parsed_lines(os.push(o)) == parsed_lines(os) + match o {
            LineOutcome::Parsed(l) => seq![l],
            _ => seq![],
        },
        failures(os.push(o)) == failures(os) + match o {
            LineOutcome::Failed(k) => seq![(os.len(), k)],
            _ => seq![],
        },
{
    assert(os.push(o).drop_last() =~= os);
}

fn record_outcome(
    o: ParsedLine,
    idx: usize,
    lines: &mut Vec<LyricLine>,
    errors: &mut Vec<LineError>,
    Ghost(done): Ghost<Seq<LineOutcome>>,
)
    requires
        idx == done.len(),
        lines_view(old(lines)@) == parsed_lines(done),
        errors_view(old(errors)@) == failures(done),
    ensures
        lines_view(final(lines)@) == parsed_lines(done.push(o@)),
        errors_view(final(errors)@) == failures(done.push(o@)),
{
    proof {
        lemma_outcomes_push(done, o@);
    }
    match o {
        ParsedLine::Parsed(line) => {
            let ghost lv = line@;
            lines.push(line);
            assert(lines_view(lines@) =~= lines_view(old(lines)@) + seq![lv]);
        },
        ParsedLine::Failed(kind) => {
            errors.push(LineError { line: idx, kind });
            assert(errors_view(errors@) =~= errors_view(old(errors)@) + seq![(idx as nat, kind)]);
        },
        ParsedLine::Skipped => {
            assert(lines_view(lines@) =~= lines_view(lines@) + seq![]);
            assert(errors_view(errors@) =~= errors_view(errors@) + seq![]);
        },
    }
}

/// Reads a text in a word-level format. Every physical line gives one
/// outcome: blank and metadata lines are skipped, lyric lines are kept and
/// ordered by start, lines with equal starts in source order, and rejected
/// lines are reported with their index and reason.
#[verifier::loop_isolation(false)]
pub fn parse_words(src: &str, f: WordFormat) -> (r: WordDocument)
    ensures
        lines_view(r.lines@) == sort_lines(parsed_lines(outcomes_from(src@, 0, f))),
        errors_view(r.errors@) == failures(outcomes_from(src@, 0, f)),
{
    let cs = chars_of(src);
    let n = cs.len();
    let mut lines: Vec<LyricLine> = Vec::new();
    let mut errors: Vec<LineError> = Vec::new();
    let ghost mut done: Seq<LineOutcome> = seq![];
    let mut a: usize = 0;
    let mut idx: usize = 0;
    assert(outcomes_from(cs@, 0, f) =~= done + outcomes_from(cs@, 0, f));
    loop
        invariant
            a <= n == cs.len(),
            cs@ == src@,
            idx == done.len(),
            idx <= a,
            outcomes_from(cs@, 0, f) == done + outcomes_from(cs@, a as int, f),
            lines_view(lines@) == parsed_lines(done),
            errors_view(errors@) == failures(done),
        decreases n - a,
    {
        let k = newline_exec(&cs, a);
        let mut l = copy_range(&cs, a, k);
        let ghost raw = l@;
        if l.len() > 0 && l[l.len() - 1] == '\r' {
            l.pop();
        }
        assert(l@ == strip_cr(raw));
        let o = line_outcome_exec(&l, f);
        let ghost ov = o@;
        record_outcome(o, idx, &mut lines, &mut errors, Ghost(done));
        proof {
            done = done.push(ov);
        }
        if k < n {
            assert(outcomes_from(cs@, a as int, f) == seq![ov] + outcomes_from(cs@, k + 1, f));
            assert(outcomes_from(cs@, 0, f) =~= done + outcomes_from(cs@, k + 1, f));
            a = k + 1;
            idx = idx + 1;
        } else {
            assert(outcomes_from(cs@, 0, f) =~= done);
            let sorted = normalize(lines);
            return WordDocument { lines: sorted, errors };
        }
    }
}

/// Reads a text in QRC form.
pub fn parse_qrc(src: &str) -> (r: WordDocument)
    ensures
        lines_view(r.lines@) == sort_lines(parsed_lines(outcomes_from(src@, 0, WordFormat::Qrc))),
        errors_view(r.errors@) == failures(outcomes_from(src@, 0, WordFormat::Qrc)),
{
    parse_words(src, WordFormat::Qrc)
}

/// Reads a text in YRC form.
pub fn parse_yrc(src: &str) -> (r: WordDocument)
    ensures
        lines_view(r.lines@) == sort_lines(parsed_lines(outcomes_from(src@, 0, WordFormat::Yrc))),
        errors_view(r.errors@) == failures(outcomes_from(src@, 0, WordFormat::Yrc)),
{
    parse_words(src, WordFormat::Yrc)
}

/// Reads a text in Lyricify Syllable form.
pub fn parse_lys(src: &str) -> (r: WordDocument)
    ensures
        lines_view(r.lines@) == sort_lines(parsed_lines(outcomes_from(src@, 0, WordFormat::Lys))),
        errors_view(r.errors@) == failures(outcomes_from(src@, 0, WordFormat::Lys)),
{
    parse_words(src, WordFormat::Lys)
}

/// `a - b`, or zero where `b` is the larger.
pub open spec fn sub_or_zero(a: nat, b: nat) -> nat {
    if a >= b {
        (a - b) as nat
    } else {
        0
    }
}

/// The tuple of a word that starts at `st` and lasts `d`.
pub open spec fn tuple_text(st: nat, d: nat, f: WordFormat) -> Seq<char> {
    seq!['('] + decimal(st) + seq![','] + decimal(d) + (if f == WordFormat::Yrc {
        seq![',', '0']
    } else {
        seq![]
    }) + seq![')']
}

/// The text of one word: its tuple before its text in YRC, after it in the
/// other formats.
pub open spec fn word_out(w: WordModel, f: WordFormat) -> Seq<char> {
    let t = tuple_text(w.start_time, sub_or_zero(w.end_time, w.start_time), f);
    if f == WordFormat::Yrc {
        t + w.word
    } else {
        w.word + t
    }
}

/// The texts of some words, in order.
pub open spec fn words_out(ws: Seq<WordModel>, f: WordFormat) -> Seq<char>
    decreases ws.len(),
{
    if ws.len() == 0 {
        seq![]
    } else {
        words_out(ws.drop_last(), f) + word_out(ws.last(), f)
    }
}

/// The role flag written for a line: 4 for a lead line on the left, 5 on
/// the right, 7 for a background line on the left and 8 on the right.
pub open spec fn role_flag(is_bg: bool, is_duet: bool) -> nat {
    if is_bg {
        if is_duet {
            8
        } else {
            7
        }
    } else if is_duet {
        5
    } else {
        4
    }
}

/// The envelope of a line with words: its role flag in LYS; else the start
/// of its first word and the time from there to the end of its last word.
pub open spec fn head_out(l: LineModel, f: WordFormat) -> Seq<char> {
    if f == WordFormat::Lys {
        seq!['['] + decimal(role_flag(l.is_bg, l.is_duet)) + seq![']']
    } else {
        let st = l.words[0].start_time;
        seq!['['] + decimal(st) + seq![','] + decimal(sub_or_zero(l.words.last().end_time, st))
            + seq![']']
    }
}

/// The text of one line: its envelope, its words and a newline; nothing for
/// a line without words.
pub open spec fn line_out(l: LineModel, f: WordFormat) -> Seq<char> {
    if l.words.len() == 0 {
        seq![]
    } else {
        head_out(l, f) + words_out(l.words, f) + seq!['\n']
    }
}

/// The text of a document in a word-level format.
pub open spec fn document_out(ls: Seq<LineModel>, f: WordFormat) -> Seq<char>
    decreases ls.len(),
{
    if ls.len() == 0 {
        seq![]
    } else {
        document_out(ls.drop_last(), f) + line_out(ls.last(), f)
    }
}

fn sub_or_zero_exec(a: usize, b: usize) -> (r: usize)
    ensures
        r == sub_or_zero(a as nat, b as nat),
{
    if a >= b {
        a - b
    } else {
        0
    }
}

fn push_tuple(s: &mut String, st: usize, d: usize, f: WordFormat)
    ensures
        final(s)@ == old(s)@ + tuple_text(st as nat, d as nat, f),
{
    push_char(s, '(');
    push_decimal(s, st);
    push_char(s, ',');
    push_decimal(s, d);
    if f == WordFormat::Yrc {
        push_char(s, ',');
        push_char(s, '0');
    }
    push_char(s, ')');
    assert(s@ =~= old(s)@ + tuple_text(st as nat, d as nat, f));
}

fn push_word(s: &mut String, w: &LyricWord, f: WordFormat)
    ensures
        final(s)@ == old(s)@ + word_out(w@, f),
{
    let d = sub_or_zero_exec(w.end_time, w.start_time);
    if f == WordFormat::Yrc {
        push_tuple(s, w.start_time, d, f);
        push_str(s, &w.word);
    } else {
        push_str(s, &w.word);
        push_tuple(s, w.start_time, d, f);
    }
    assert(s@ =~= old(s)@ + word_out(w@, f));
}

fn push_line(s: &mut String, l: &LyricLine, f: WordFormat)
    ensures
        final(s)@ == old(s)@ + line_out(l@, f),
{
    let n = l.words.len();
    if n == 0 {
        assert(old(s)@ + seq![] =~= old(s)@);
        return;
    }
    let ghost s0 = s@;
    push_char(s, '[');
    if f == WordFormat::Lys {
        let flag: usize = if l.is_bg {
            if l.is_duet {
                8
            } else {
                7
            }
        } else if l.is_duet {
            5
        } else {
            4
        };
        push_decimal(s, flag);
    } else {
        let st = l.words[0].start_time;
        push_decimal(s, st);
        push_char(s, ',');
        push_decimal(s, sub_or_zero_exec(l.words[n - 1].end_time, st));
    }
    push_char(s, ']');
    assert(s@ =~= s0 + head_out(l@, f));
    let ghost s1 = s@;
    let mut k: usize = 0;
    let ghost wv = words_view(l.words@);
    while k < n
        invariant
            k <= n == l.words.len(),
            wv == words_view(l.words@),
            s@ == s1 + words_out(wv.take(k as int), f),
        decreases n - k,
    {
        push_word(s, &l.words[k], f);
        assert(wv.take(k + 1).drop_last() =~= wv.take(k as int));
        assert(s@ =~= s1 + words_out(wv.take(k + 1), f));
        k = k + 1;
    }
    assert(wv.take(n as int) =~= wv);
    push_char(s, '\n');
    assert(s@ =~= old(s)@ + line_out(l@, f));
}

/// Writes a document in a word-level format: one line of text for each
/// line with words; lines without words are left out.
pub fn stringify_words(lines: &[LyricLine], f: WordFormat) -> (r: String)
    ensures
        r@ == document_out(lines_view(lines@), f),
{
    let mut result = String::new();
    let mut k: usize = 0;
    while k < lines.len()
        invariant
            k <= lines.len(),
            result@ == document_out(lines_view(lines@).take(k as int), f),
        decreases lines.len() - k,
    {
        push_line(&mut result, &lines[k], f);
        assert(lines_view(lines@).take(k + 1).drop_last() =~= lines_view(lines@).take(k as int));
        k = k + 1;
    }
    assert(lines_view(lines@).take(k as int) =~= lines_view(lines@));
    result
}

/// Writes a document in QRC form.
pub fn stringify_qrc(lines: &[LyricLine]) -> (r: String)
    ensures
        r@ == document_out(lines_view(lines@), WordFormat::Qrc),
{
    stringify_words(lines, WordFormat::Qrc)
}

/// Writes a document in YRC form.
pub fn stringify_yrc(lines: &[LyricLine]) -> (r: String)
    ensures
        r@ == document_out(lines_view(lines@), WordFormat::Yrc),
{
    stringify_words(lines, WordFormat::Yrc)
}

/// Writes a document in Lyricify Syllable form.
pub fn stringify_lys(lines: &[LyricLine]) -> (r: String)
    ensures
        r@ == document_out(lines_view(lines@), WordFormat::Lys),
{
    stringify_words(lines, WordFormat::Lys)
}

/// A line without words adds nothing to the text of a document in a
/// word-level format: leaving it out gives the same text.
pub proof fn lemma_words_skip_empty_lines(ls: Seq<LineModel>, i: int, f: WordFormat)
    requires
        0 <= i < ls.len(),
        ls[i].words.len() == 0,
    ensures
        document_out(ls.remove(i), f) == document_out(ls, f),
    decreases ls.len(),
{
    if i == ls.len() - 1 {
        assert(ls.remove(i) =~= ls.drop_last());
        assert(document_out(ls, f) =~= document_out(ls.drop_last(), f) + seq![]);
    } else {
        lemma_words_skip_empty_lines(ls.drop_last(), i, f);
        assert(ls.remove(i).drop_last() =~= ls.drop_last().remove(i));
        assert(ls.remove(i).last() == ls.last());
    }
}



#[verifier::rlimit(50)]
proof fn lemma_outcomes_shift(p: Seq<char>, b: Seq<char>, j: int, f: WordFormat)
    requires
        0 <= j <= b.len(),
    ensures
        outcomes_from(p + b, p.len() + j, f) == outcomes_from(b, j, f),
    decreases b.len() - j,
{
    let s = p + b;
    lemma_newline_shift(p, b, j);
    lemma_newline_bounds(b, j);
    let k = newline_at_or_after(b, j);
    assert(s.subrange(p.len() + j, p.len() + k) =~= b.subrange(j, k));
    if k < b.len() {
        lemma_outcomes_shift(p, b, k + 1, f);
    }
}


/// A physical line is read on its own: whatever it holds, even where it
/// is rejected, the lines after it are read as if it were not there.
pub proof fn lemma_line_read_alone(l: Seq<char>, rest: Seq<char>, f: WordFormat)
    requires
        forall|i: int| 0 <= i < l.len() ==> l[i] != '\n',
    ensures
        outcomes_from(l + seq!['\n'] + rest, 0, f) == seq![line_outcome(l, f)] + outcomes_from(
            rest,
            0,
            f,
        ),
{
    let s = l + seq!['\n'] + rest;
    lemma_newline_first(l, rest, 0);
    assert(s.subrange(0, l.len() as int) =~= l);
    assert(s =~= (l + seq!['\n']) + rest);
    lemma_outcomes_shift(l + seq!['\n'], rest, 0, f);
}

/// A Lyricify Syllable line whose role flag is a number above the defined
/// ones is rejected with `UnknownRoleFlag`, whatever follows the flag.
pub proof fn lemma_lys_unknown_flag(flag: nat, w: Seq<char>)
    requires
        max_role_flag() < flag <= usize::MAX,
    ensures
        line_outcome(seq!['['] + decimal(flag) + seq![']'] + w, WordFormat::Lys)
            == LineOutcome::Failed(LineErrorKind::UnknownRoleFlag),
{
    let l = seq!['['] + decimal(flag) + seq![']'] + w;
    let d = decimal(flag);
    let n = d.len() as int;
    crate::timestamp::lemma_decimal_facts(flag);
    let b = strip_cr(l);
    assert(b.len() >= n + 2);
    assert(b.subrange(0, n + 2) =~= l.subrange(0, n + 2));
    assert forall|j: int| 1 <= j < 1 + n implies is_digit(#[trigger] b[j]) by {
        assert(b[j] == l.subrange(0, n + 2)[j]);
        assert(l[j] == d[j - 1]);
    }
    assert(b[n + 1] == l[n + 1]);
    assert(b[0] == l[0]);
    crate::timestamp::lemma_digit_run_block_pub(b, 1, n);
    assert(b.subrange(1, 1 + n) =~= d);
    assert(!is_letter(b[1]));
}

/// A Lyricify Syllable line with no number in its flag brackets is
/// rejected with `MalformedLine`, whatever follows them.
pub proof fn lemma_lys_missing_flag(w: Seq<char>)
    ensures
        line_outcome(seq!['[', ']'] + w, WordFormat::Lys) == LineOutcome::Failed(
            LineErrorKind::MalformedLine,
        ),
{
    let l = seq!['[', ']'] + w;
    let b = strip_cr(l);
    assert(b.len() >= 2);
    assert(b[0] == '[' && b[1] == ']') by {
        assert(b[0] == l[0] && b[1] == l[1]);
    }
    assert(digit_run(b, 1) == 0);
}

/// A word as the word-level readers give it: its end is not before its
/// start and fits in `usize`, and its text holds no `(` and no newline.
pub open spec fn word_shaped(w: WordModel) -> bool {
    &&& w.start_time <= w.end_time <= usize::MAX
    &&& forall|k: int| 0 <= k < w.word.len() ==> #[trigger] w.word[k] != '(' && w.word[k] != '\n'
}

proof fn lemma_number_decimal(s: Seq<char>, i: int, n: nat)
    requires
        0 <= i,
        i + decimal(n).len() <= s.len(),
        s.subrange(i, i + decimal(n).len()) == decimal(n),
        i + decimal(n).len() == s.len() || !is_digit(s[i + decimal(n).len()]),
        n <= usize::MAX,
    ensures
        number_at(s, i) == Some((i + decimal(n).len(), n)),
{
    let d = decimal(n);
    crate::timestamp::lemma_decimal_facts(n);
    assert forall|j: int| i <= j < i + d.len() implies is_digit(#[trigger] s[j]) by {
        assert(s.subrange(i, i + d.len())[j - i] == s[j]);
    }
    crate::timestamp::lemma_digit_run_block_pub(s, i, d.len() as int);
}

proof fn lemma_tuple_reads_back(s: Seq<char>, i: int, st: nat, d: nat, f: WordFormat)
    requires
        0 <= i,
        i + tuple_text(st, d, f).len() <= s.len(),
        s.subrange(i, i + tuple_text(st, d, f).len()) == tuple_text(st, d, f),
        st + d <= usize::MAX,
    ensures
        tuple_at(s, i, f) == Some((i + tuple_text(st, d, f).len(), st, d)),
{
    let t = tuple_text(st, d, f);
    let a = decimal(st);
    let b = decimal(d);
    let la = a.len() as int;
    let lb = b.len() as int;
    crate::timestamp::lemma_decimal_facts(st);
    crate::timestamp::lemma_decimal_facts(d);
    assert(s[i] == t[0]);
    assert(s.subrange(i + 1, i + 1 + la) =~= t.subrange(1, 1 + la));
    assert(t.subrange(1, 1 + la) =~= a);
    assert(s[i + 1 + la] == t[1 + la]);
    lemma_number_decimal(s, i + 1, st);
    assert(s.subrange(i + 2 + la, i + 2 + la + lb) =~= t.subrange(2 + la, 2 + la + lb));
    assert(t.subrange(2 + la, 2 + la + lb) =~= b);
    assert(s[i + 2 + la + lb] == t[2 + la + lb]);
    lemma_number_decimal(s, i + 2 + la, d);
    if f == WordFormat::Yrc {
        let z = i + 2 + la + lb;
        assert(s[z] == t[2 + la + lb]);
        assert(s[z + 1] == t[3 + la + lb]);
        assert(s[z + 2] == t[4 + la + lb]);
        assert(decimal(0) =~= seq!['0']);
        assert(s.subrange(z + 1, z + 2) =~= seq!['0']);
        lemma_number_decimal(s, z + 1, 0);
    }
}

proof fn lemma_words_out_cons(w: WordModel, ws: Seq<WordModel>, f: WordFormat)
    ensures
        words_out(seq![w] + ws, f) == word_out(w, f) + words_out(ws, f),
    decreases ws.len(),
{
    if ws.len() == 0 {
        assert(seq![w] + ws =~= seq![w]);
        assert(seq![w].drop_last() =~= Seq::<WordModel>::empty());
        assert(words_out(Seq::<WordModel>::empty(), f) == Seq::<char>::empty());
        assert(words_out(seq![w], f) =~= word_out(w, f));
        assert(word_out(w, f) + words_out(ws, f) =~= word_out(w, f));
    } else {
        lemma_words_out_cons(w, ws.drop_last(), f);
        assert((seq![w] + ws).drop_last() =~= seq![w] + ws.drop_last());
        assert((seq![w] + ws).last() == ws.last());
        assert(word_out(w, f) + words_out(ws.drop_last(), f) + word_out(ws.last(), f) =~= word_out(w, f)
            + (words_out(ws.drop_last(), f) + word_out(ws.last(), f)));
    }
}

proof fn lemma_paren_skips_text(s: Seq<char>, i: int, n: int)
    requires
        0 <= i,
        0 <= n,
        i + n <= s.len(),
        forall|k: int| i <= k < i + n ==> #[trigger] s[k] != '(',
        i + n == s.len() || s[i + n] == '(',
    ensures
        paren_at_or_after(s, i) == i + n,
    decreases n,
{
    if n > 0 {
        lemma_paren_skips_text(s, i + 1, n - 1);
    }
}

proof fn lemma_word_step(s: Seq<char>, i: int, w: WordModel, f: WordFormat)
    requires
        word_shaped(w),
        0 <= i,
        i + word_out(w, f).len() <= s.len(),
        s.subrange(i, i + word_out(w, f).len()) == word_out(w, f),
        f == WordFormat::Yrc ==> (i + word_out(w, f).len() == s.len() || s[i
            + word_out(w, f).len()] == '('),
    ensures
        f == WordFormat::Yrc ==> ({
            let lt = word_out(w, f).len() - w.word.len();
            &&& tuple_at(s, i, f) == Some((i + lt, w.start_time, (w.end_time - w.start_time) as nat))
            &&& paren_at_or_after(s, i + lt) == i + word_out(w, f).len()
            &&& s.subrange(i + lt, i + word_out(w, f).len()) == w.word
        }),
        f != WordFormat::Yrc ==> ({
            let lw = w.word.len() as int;
            &&& paren_at_or_after(s, i) == i + lw
            &&& tuple_at(s, i + lw, f) == Some(
                (i + word_out(w, f).len(), w.start_time, (w.end_time - w.start_time) as nat),
            )
            &&& s.subrange(i, i + lw) == w.word
        }),
{
    let d = (w.end_time - w.start_time) as nat;
    assert(sub_or_zero(w.end_time, w.start_time) == d);
    let t = tuple_text(w.start_time, d, f);
    let wo = word_out(w, f);
    let lt = t.len() as int;
    let lw = w.word.len() as int;
    let sub = s.subrange(i, i + wo.len());
    if f == WordFormat::Yrc {
        assert(s.subrange(i, i + lt) =~= t) by {
            assert(s.subrange(i, i + lt) =~= sub.subrange(0, lt));
        }
        lemma_tuple_reads_back(s, i, w.start_time, d, f);
        assert forall|k: int| i + lt <= k < i + lt + lw implies #[trigger] s[k] != '(' by {
            assert(s[k] == sub[k - i]);
            assert(sub[k - i] == w.word[k - i - lt]);
        }
        lemma_paren_skips_text(s, i + lt, lw);
        assert(s.subrange(i + lt, i + lt + lw) =~= w.word) by {
            assert(s.subrange(i + lt, i + lt + lw) =~= sub.subrange(lt, lt + lw));
        }
    } else {
        assert forall|k: int| i <= k < i + lw implies #[trigger] s[k] != '(' by {
            assert(s[k] == sub[k - i]);
            assert(sub[k - i] == w.word[k - i]);
        }
        assert(s[i + lw] == sub[lw]);
        lemma_paren_skips_text(s, i, lw);
        assert(s.subrange(i + lw, i + lw + lt) =~= t) by {
            assert(s.subrange(i + lw, i + lw + lt) =~= sub.subrange(lw, lw + lt));
        }
        lemma_tuple_reads_back(s, i + lw, w.start_time, d, f);
        assert(s.subrange(i, i + lw) =~= w.word) by {
            assert(s.subrange(i, i + lw) =~= sub.subrange(0, lw));
        }
    }
}

/// The words written by the word-level writers are read back as the same
/// words, whatever text stands before them.
#[verifier::rlimit(100)]
proof fn lemma_words_read_back(p: Seq<char>, ws: Seq<WordModel>, f: WordFormat)
    requires
        forall|k: int| 0 <= k < ws.len() ==> word_shaped(#[trigger] ws[k]),
    ensures
        words_from(p + words_out(ws, f), p.len() as int, f) == Some(ws),
    decreases ws.len(),
{
    if ws.len() == 0 {
        assert(p + words_out(ws, f) =~= p);
        assert(ws =~= Seq::<WordModel>::empty());
    } else {
        let w = ws[0];
        let tail = ws.skip(1);
        assert(ws =~= seq![w] + tail);
        assert(word_shaped(ws[0]));
        assert forall|k: int| 0 <= k < tail.len() implies word_shaped(#[trigger] tail[k]) by {
            assert(tail[k] == ws[k + 1]);
        }
        lemma_words_out_cons(w, tail, f);
        let wo = word_out(w, f);
        let p2 = p + wo;
        let rest = words_out(tail, f);
        let s = p + words_out(ws, f);
        assert(s =~= p2 + rest);
        lemma_words_read_back(p2, tail, f);
        let i = p.len() as int;
        assert(s.subrange(i, i + wo.len()) =~= wo);
        if f == WordFormat::Yrc && tail.len() > 0 {
            lemma_words_out_cons(tail[0], tail.skip(1), f);
            assert(tail =~= seq![tail[0]] + tail.skip(1));
            assert(s[i + wo.len()] == rest[0]);
        }
        lemma_word_step(s, i, w, f);
        assert(timed_word(w.word, w.start_time, (w.end_time - w.start_time) as nat) == w);
        assert(seq![w] + tail =~= ws);
    }
}

/// A line as the word-level writers can write it and the readers read it
/// back: it has words, all shaped as the readers give them; only LYS has
/// role flags; and in YRC, where the last word's text ends the line, that
/// text does not end with a carriage return.
pub open spec fn line_shaped(l: LineModel, f: WordFormat) -> bool {
    &&& l.words.len() > 0
    &&& forall|k: int| 0 <= k < l.words.len() ==> word_shaped(#[trigger] l.words[k])
    &&& f != WordFormat::Lys ==> !l.is_bg && !l.is_duet
    &&& f == WordFormat::Yrc ==> !(l.words.last().word.len() > 0 && l.words.last().word.last()
        == '\r')
}

/// Text with no newline in it.
pub open spec fn no_newline(t: Seq<char>) -> bool {
    forall|k: int| 0 <= k < t.len() ==> #[trigger] t[k] != '\n'
}

proof fn lemma_decimal_no_newline(n: nat)
    ensures
        no_newline(decimal(n)),
        decimal(n).len() >= 1,
        is_digit(decimal(n)[0]),
{
    crate::timestamp::lemma_decimal_facts(n);
}

proof fn lemma_word_out_facts(w: WordModel, f: WordFormat)
    requires
        word_shaped(w),
    ensures
        no_newline(word_out(w, f)),
        word_out(w, f).len() >= 2,
        f != WordFormat::Yrc ==> word_out(w, f).last() == ')',
        f == WordFormat::Yrc ==> word_out(w, f).last() == (if w.word.len() > 0 {
            w.word.last()
        } else {
            ')'
        }),
{
    let d = sub_or_zero(w.end_time, w.start_time);
    lemma_decimal_no_newline(w.start_time);
    lemma_decimal_no_newline(d);
    let t = tuple_text(w.start_time, d, f);
    assert(no_newline(t));
    let wo = word_out(w, f);
    assert forall|k: int| 0 <= k < wo.len() implies #[trigger] wo[k] != '\n' by {
        if f == WordFormat::Yrc {
            if k < t.len() {
                assert(wo[k] == t[k]);
            } else {
                assert(wo[k] == w.word[k - t.len()]);
            }
        } else {
            if k < w.word.len() {
                assert(wo[k] == w.word[k]);
            } else {
                assert(wo[k] == t[k - w.word.len()]);
            }
        }
    }
}

proof fn lemma_words_out_facts(ws: Seq<WordModel>, f: WordFormat)
    requires
        forall|k: int| 0 <= k < ws.len() ==> word_shaped(#[trigger] ws[k]),
    ensures
        no_newline(words_out(ws, f)),
        ws.len() > 0 ==> words_out(ws, f).len() >= 2 && words_out(ws, f).last() == word_out(
            ws.last(),
            f,
        ).last(),
    decreases ws.len(),
{
    if ws.len() > 0 {
        let t = ws.drop_last();
        assert forall|k: int| 0 <= k < t.len() implies word_shaped(#[trigger] t[k]) by {
            assert(t[k] == ws[k]);
        }
        lemma_words_out_facts(t, f);
        assert(word_shaped(ws[ws.len() - 1]));
        lemma_word_out_facts(ws.last(), f);
        let a = words_out(t, f);
        let b = word_out(ws.last(), f);
        assert forall|k: int| 0 <= k < (a + b).len() implies #[trigger] (a + b)[k] != '\n' by {
            if k < a.len() {
                assert((a + b)[k] == a[k]);
            } else {
                assert((a + b)[k] == b[k - a.len()]);
            }
        }
    }
}

proof fn lemma_head_lys(l: LineModel, wo: Seq<char>)
    ensures
        ({
            let flag = role_flag(l.is_bg, l.is_duet);
            let b = head_out(l, WordFormat::Lys) + wo;
            &&& number_at(b, 1) == Some((1 + decimal(flag).len() as int, flag))
            &&& b[0] == '[' && b[1 + decimal(flag).len() as int] == ']'
            &&& head_out(l, WordFormat::Lys).len() == decimal(flag).len() + 2
            &&& b.len() > 1 && is_digit(b[1])
            &&& no_newline(head_out(l, WordFormat::Lys))
        }),
{
    let flag = role_flag(l.is_bg, l.is_duet);
    let h = head_out(l, WordFormat::Lys);
    let b = h + wo;
    lemma_decimal_no_newline(flag);
    let d = decimal(flag);
    let n = d.len() as int;
    assert(b.subrange(1, 1 + n) =~= d);
    assert(b[1 + n] == ']');
    lemma_number_decimal(b, 1, flag);
    assert(b[1] == d[0]);
    assert forall|k: int| 0 <= k < h.len() implies #[trigger] h[k] != '\n' by {
        if 1 <= k < 1 + n {
            assert(h[k] == d[k - 1]);
        }
    }
}

proof fn lemma_head_envelope(l: LineModel, wo: Seq<char>, f: WordFormat)
    requires
        f != WordFormat::Lys,
        l.words.len() > 0,
        l.words[0].start_time <= usize::MAX,
        l.words.last().end_time <= usize::MAX,
    ensures
        ({
            let b = head_out(l, f) + wo;
            &&& envelope_end(b) == Some(head_out(l, f).len() as int)
            &&& b.len() > 1 && is_digit(b[1])
            &&& no_newline(head_out(l, f))
        }),
{
    let h = head_out(l, f);
    let b = h + wo;
    let st = l.words[0].start_time;
    let du = sub_or_zero(l.words.last().end_time, st);
    lemma_decimal_no_newline(st);
    lemma_decimal_no_newline(du);
    let d1 = decimal(st);
    let d2 = decimal(du);
    let n1 = d1.len() as int;
    let n2 = d2.len() as int;
    assert(b.subrange(1, 1 + n1) =~= d1);
    assert(b[1 + n1] == ',');
    lemma_number_decimal(b, 1, st);
    assert(b.subrange(2 + n1, 2 + n1 + n2) =~= d2);
    assert(b[2 + n1 + n2] == ']');
    lemma_number_decimal(b, 2 + n1, du);
    assert(b[1] == d1[0]);
    assert forall|k: int| 0 <= k < h.len() implies #[trigger] h[k] != '\n' by {
        if 1 <= k < 1 + n1 {
            assert(h[k] == d1[k - 1]);
        } else if 2 + n1 <= k < 2 + n1 + n2 {
            assert(h[k] == d2[k - 2 - n1]);
        }
    }
}

#[verifier::rlimit(100)]
proof fn lemma_line_reads_back(l: LineModel, f: WordFormat)
    requires
        line_shaped(l, f),
    ensures
        line_outcome(head_out(l, f) + words_out(l.words, f), f) == LineOutcome::Parsed(l),
        no_newline(head_out(l, f) + words_out(l.words, f)),
{
    let h = head_out(l, f);
    let wo = words_out(l.words, f);
    let b = h + wo;
    lemma_words_out_facts(l.words, f);
    assert(word_shaped(l.words[l.words.len() - 1]));
    assert(word_shaped(l.words[0]));
    lemma_word_out_facts(l.words.last(), f);
    assert(b.last() == wo.last());
    assert(strip_cr(b) == b);
    lemma_words_read_back(h, l.words, f);
    if f == WordFormat::Lys {
        lemma_head_lys(l, wo);
    } else {
        lemma_head_envelope(l, wo, f);
    }
    assert(!is_letter(b[1]));
    assert forall|k: int| 0 <= k < b.len() implies #[trigger] b[k] != '\n' by {
        if k >= h.len() {
            assert(b[k] == wo[k - h.len()]);
        } else {
            assert(b[k] == h[k]);
        }
    }
}

proof fn lemma_document_out_cons(l: LineModel, ls: Seq<LineModel>, f: WordFormat)
    ensures
        document_out(seq![l] + ls, f) == line_out(l, f) + document_out(ls, f),
    decreases ls.len(),
{
    if ls.len() == 0 {
        assert(seq![l] + ls =~= seq![l]);
        assert(seq![l].drop_last() =~= Seq::<LineModel>::empty());
        assert(document_out(Seq::<LineModel>::empty(), f) == Seq::<char>::empty());
        assert(document_out(seq![l], f) =~= line_out(l, f));
        assert(line_out(l, f) + document_out(ls, f) =~= line_out(l, f));
    } else {
        lemma_document_out_cons(l, ls.drop_last(), f);
        assert((seq![l] + ls).drop_last() =~= seq![l] + ls.drop_last());
        assert((seq![l] + ls).last() == ls.last());
        assert(line_out(l, f) + document_out(ls.drop_last(), f) + line_out(ls.last(), f) =~= line_out(
            l,
            f,
        ) + (document_out(ls.drop_last(), f) + line_out(ls.last(), f)));
    }
}

proof fn lemma_parsed_lines_cons(o: LineOutcome, os: Seq<LineOutcome>)
    ensures
        parsed_lines(seq![o] + os) == outcome_lines(o) + parsed_lines(os),
    decreases os.len(),
{
    if os.len() == 0 {
        assert(seq![o] + os =~= seq![o]);
        assert(seq![o].drop_last() =~= Seq::<LineOutcome>::empty());
        assert(parsed_lines(Seq::<LineOutcome>::empty()) == Seq::<LineModel>::empty());
        assert(parsed_lines(seq![o]) =~= outcome_lines(o));
        assert(outcome_lines(o) + parsed_lines(os) =~= outcome_lines(o));
    } else {
        lemma_parsed_lines_cons(o, os.drop_last());
        assert((seq![o] + os).drop_last() =~= seq![o] + os.drop_last());
        assert((seq![o] + os).last() == os.last());
        assert(outcome_lines(o) + parsed_lines(os.drop_last()) + outcome_lines(os.last())
            =~= outcome_lines(o) + (parsed_lines(os.drop_last()) + outcome_lines(os.last())));
    }
}

proof fn lemma_document_reads_back(ls: Seq<LineModel>, f: WordFormat)
    requires
        forall|i: int| 0 <= i < ls.len() ==> line_shaped(#[trigger] ls[i], f),
    ensures
        parsed_lines(outcomes_from(document_out(ls, f), 0, f)) == ls,
    decreases ls.len(),
{
    if ls.len() == 0 {
        let e = document_out(ls, f);
        assert(e =~= Seq::<char>::empty());
        assert(outcomes_from(e, 0, f) =~= seq![LineOutcome::Skipped]);
        assert(seq![LineOutcome::Skipped].drop_last() =~= Seq::<LineOutcome>::empty());
        assert(parsed_lines(Seq::<LineOutcome>::empty()) == Seq::<LineModel>::empty());
        assert(parsed_lines(seq![LineOutcome::Skipped]) =~= ls);
    } else {
        let l = ls[0];
        let tail = ls.skip(1);
        assert(ls =~= seq![l] + tail);
        assert(line_shaped(ls[0], f));
        assert forall|i: int| 0 <= i < tail.len() implies line_shaped(#[trigger] tail[i], f) by {
            assert(tail[i] == ls[i + 1]);
        }
        lemma_document_reads_back(tail, f);
        lemma_document_out_cons(l, tail, f);
        lemma_line_reads_back(l, f);
        let body = head_out(l, f) + words_out(l.words, f);
        let rest = document_out(tail, f);
        assert(document_out(ls, f) =~= body + seq!['\n'] + rest);
        lemma_line_read_alone(body, rest, f);
        lemma_parsed_lines_cons(LineOutcome::Parsed(l), outcomes_from(rest, 0, f));
    }
}

/// The words and flags of a line are as the word-level readers give them.
pub open spec fn words_and_flags_shaped(l: LineModel, f: WordFormat) -> bool {
    &&& forall|k: int| 0 <= k < l.words.len() ==> word_shaped(#[trigger] l.words[k])
    &&& f != WordFormat::Lys ==> !l.is_bg && !l.is_duet
}

proof fn lemma_paren_facts(s: Seq<char>, i: int)
    requires
        0 <= i <= s.len(),
    ensures
        i <= paren_at_or_after(s, i) <= s.len(),
        forall|k: int| i <= k < paren_at_or_after(s, i) ==> #[trigger] s[k] != '(',
    decreases s.len() - i,
{
    if i < s.len() && s[i] != '(' {
        lemma_paren_facts(s, i + 1);
    }
}

proof fn lemma_words_from_shaped(b: Seq<char>, i: int, f: WordFormat)
    requires
        no_newline(b),
        0 <= i,
        words_from(b, i, f) is Some,
    ensures
        forall|k: int|
            0 <= k < (words_from(b, i, f)->0).len() ==> word_shaped(
                #[trigger] (words_from(b, i, f)->0)[k],
            ),
    decreases b.len() - i,
{
    if i < b.len() {
        let ws = words_from(b, i, f)->0;
        if f == WordFormat::Yrc {
            let (e, st, d) = tuple_at(b, i, f)->0;
            let t = paren_at_or_after(b, e);
            lemma_paren_facts(b, e);
            lemma_words_from_shaped(b, t, f);
            let w = timed_word(b.subrange(e, t), st, d);
            let rest = words_from(b, t, f)->0;
            assert(ws == seq![w] + rest);
            assert forall|k: int| 0 <= k < w.word.len() implies #[trigger] w.word[k] != '('
                && w.word[k] != '\n' by {
                assert(w.word[k] == b[e + k]);
            }
            assert forall|k: int| 0 <= k < ws.len() implies word_shaped(#[trigger] ws[k]) by {
                if k > 0 {
                    assert(ws[k] == rest[k - 1]);
                }
            }
        } else {
            let t = paren_at_or_after(b, i);
            lemma_paren_facts(b, i);
            let (e, st, d) = tuple_at(b, t, f)->0;
            lemma_words_from_shaped(b, e, f);
            let w = timed_word(b.subrange(i, t), st, d);
            let rest = words_from(b, e, f)->0;
            assert(ws == seq![w] + rest);
            assert forall|k: int| 0 <= k < w.word.len() implies #[trigger] w.word[k] != '('
                && w.word[k] != '\n' by {
                assert(w.word[k] == b[i + k]);
            }
            assert forall|k: int| 0 <= k < ws.len() implies word_shaped(#[trigger] ws[k]) by {
                if k > 0 {
                    assert(ws[k] == rest[k - 1]);
                }
            }
        }
    }
}

proof fn lemma_body_outcome_shaped(b: Seq<char>, f: WordFormat)
    requires
        no_newline(b),
    ensures
        body_outcome(b, f) is Parsed ==> words_and_flags_shaped(body_outcome(b, f)->Parsed_0, f),
{
    if !is_skipped(b, f) {
        if f == WordFormat::Lys {
            if char_is(b, 0, '[') {
                match number_at(b, 1) {
                    Some((j, flag)) => {
                        if char_is(b, j, ']') && flag <= max_role_flag() && words_from(b, j + 1, f) is Some {
                            lemma_words_from_shaped(b, j + 1, f);
                        }
                    },
                    None => {},
                }
            }
        } else {
            match envelope_end(b) {
                Some(e) => {
                    if words_from(b, e, f) is Some {
                        lemma_words_from_shaped(b, e, f);
                    }
                },
                None => {},
            }
        }
    }
}

proof fn lemma_newline_clean(s: Seq<char>, i: int)
    requires
        0 <= i <= s.len(),
    ensures
        no_newline(s.subrange(i, newline_at_or_after(s, i))),
    decreases s.len() - i,
{
    lemma_newline_bounds(s, i);
    if i < s.len() && s[i] != '\n' {
        lemma_newline_clean(s, i + 1);
        let t = s.subrange(i, newline_at_or_after(s, i));
        assert forall|k: int| 0 <= k < t.len() implies #[trigger] t[k] != '\n' by {
            if k > 0 {
                assert(t[k] == s.subrange(i + 1, newline_at_or_after(s, i))[k - 1]);
            }
        }
    }
}

proof fn lemma_outcomes_shaped(s: Seq<char>, a: int, f: WordFormat)
    requires
        0 <= a <= s.len(),
    ensures
        forall|i: int|
            0 <= i < parsed_lines(outcomes_from(s, a, f)).len() ==> words_and_flags_shaped(
                #[trigger] parsed_lines(outcomes_from(s, a, f))[i],
                f,
            ),
    decreases s.len() - a,
{
    let k = newline_at_or_after(s, a);
    lemma_newline_bounds(s, a);
    lemma_newline_clean(s, a);
    let l = s.subrange(a, k);
    let b = strip_cr(l);
    assert(no_newline(b)) by {
        assert forall|j: int| 0 <= j < b.len() implies #[trigger] b[j] != '\n' by {
            assert(b[j] == l[j]);
        }
    }
    lemma_body_outcome_shaped(b, f);
    let o = line_outcome(l, f);
    let rest = if k < s.len() {
        outcomes_from(s, k + 1, f)
    } else {
        seq![]
    };
    assert(outcomes_from(s, a, f) =~= seq![o] + rest);
    lemma_parsed_lines_cons(o, rest);
    if k < s.len() {
        lemma_outcomes_shaped(s, k + 1, f);
    } else {
        assert(parsed_lines(rest) =~= Seq::<LineModel>::empty());
    }
    let x = outcome_lines(o);
    let y = parsed_lines(rest);
    assert forall|i: int| 0 <= i < (x + y).len() implies words_and_flags_shaped(
        #[trigger] (x + y)[i],
        f,
    ) by {
        if i < x.len() {
            assert((x + y)[i] == x[i]);
        } else {
            assert((x + y)[i] == y[i - x.len()]);
        }
    }
}

proof fn lemma_insert_members(s: Seq<LineModel>, x: LineModel)
    ensures
        forall|i: int|
            0 <= i < insert_sorted(s, x).len() ==> #[trigger] insert_sorted(s, x)[i] == x || exists|
                j: int,
            | 0 <= j < s.len() && insert_sorted(s, x)[i] == s[j],
    decreases s.len(),
{
    let r = insert_sorted(s, x);
    if s.len() == 0 || crate::model::line_key(s.last()) <= crate::model::line_key(x) {
        assert forall|i: int| 0 <= i < r.len() implies #[trigger] r[i] == x || exists|j: int|
            0 <= j < s.len() && r[i] == s[j] by {
            if i < s.len() {
                assert(r[i] == s[i]);
            }
        }
    } else {
        let t = s.drop_last();
        lemma_insert_members(t, x);
        let r0 = insert_sorted(t, x);
        assert forall|i: int| 0 <= i < r.len() implies #[trigger] r[i] == x || exists|j: int|
            0 <= j < s.len() && r[i] == s[j] by {
            if i < r0.len() {
                assert(r[i] == r0[i]);
                if r0[i] != x {
                    let j = choose|j: int| 0 <= j < t.len() && r0[i] == t[j];
                    assert(r[i] == s[j]);
                }
            } else {
                assert(r[i] == s[s.len() - 1]);
            }
        }
    }
}

proof fn lemma_sort_members(s: Seq<LineModel>)
    ensures
        forall|i: int|
            0 <= i < sort_lines(s).len() ==> exists|j: int|
                0 <= j < s.len() && #[trigger] sort_lines(s)[i] == s[j],
    decreases s.len(),
{
    if s.len() > 0 {
        let t = s.drop_last();
        lemma_sort_members(t);
        let st = sort_lines(t);
        lemma_insert_members(st, s.last());
        let r = sort_lines(s);
        assert forall|i: int| 0 <= i < r.len() implies exists|j: int|
            0 <= j < s.len() && #[trigger] r[i] == s[j] by {
            if r[i] == s.last() {
                assert(r[i] == s[s.len() - 1]);
            } else {
                let j1 = choose|j: int| 0 <= j < st.len() && r[i] == st[j];
                let j2 = choose|j: int| 0 <= j < t.len() && st[j1] == t[j];
                assert(r[i] == s[j2]);
            }
        }
    }
}

/// The document that a text in a word-level format holds.
pub open spec fn word_document(s: Seq<char>, f: WordFormat) -> Seq<LineModel> {
    sort_lines(parsed_lines(outcomes_from(s, 0, f)))
}

/// Writing a document read from a word-level format and reading the text
/// back gives the same document, where every line of the document has
/// words and, in YRC, no line's last word ends with a carriage return.
pub proof fn lemma_words_round_trip(s: Seq<char>, f: WordFormat)
    requires
        forall|i: int|
            0 <= i < word_document(s, f).len() ==> (#[trigger] word_document(s, f)[i]).words.len()
                > 0,
        f == WordFormat::Yrc ==> forall|i: int|
            0 <= i < word_document(s, f).len() ==> !((#[trigger] word_document(s, f)[i]).words.last().word.len()
                > 0 && word_document(s, f)[i].words.last().word.last() == '\r'),
    ensures
        word_document(document_out(word_document(s, f), f), f) == word_document(s, f),
{
    let raw = parsed_lines(outcomes_from(s, 0, f));
    let d = word_document(s, f);
    lemma_outcomes_shaped(s, 0, f);
    lemma_sort_members(raw);
    lemma_sort_lines_facts(raw);
    assert forall|i: int| 0 <= i < d.len() implies line_shaped(#[trigger] d[i], f) by {
        let j = choose|j: int| 0 <= j < raw.len() && d[i] == raw[j];
        assert(words_and_flags_shaped(raw[j], f));
    }
    lemma_document_reads_back(d, f);
    lemma_sorted_unchanged(d);
}

} // verus!
