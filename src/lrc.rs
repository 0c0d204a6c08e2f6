use vstd::prelude::*;

use crate::model::{
    insert_sorted, line_key, lines_view, normalize, sort_lines, LineModel, LyricLine,
    LyricWord, WordModel,
};
use crate::text::{chars_of, push_char, push_str, string_of};
use crate::timestamp::{
    encode, lemma_encode_prefix, lemma_token_local, parse_time_at, token_at, write_timestamp,
    TimeError,
};

verus! {

/// A timestamp tag of a lyric line: a token whose value fits in `usize`.
pub open spec fn tag_at(s: Seq<char>, i: int) -> Option<(int, nat)> {
    match token_at(s, i) {
        Some((e, v)) => if v <= usize::MAX {
            Some((e, v))
        } else {
            None
        },
        None => None,
    }
}

/// The values of the run of tags that starts at `i`, and the index just
/// past the run.
pub open spec fn tags_from(s: Seq<char>, i: int) -> (Seq<nat>, int)
    decreases s.len() - i,
{
    match tag_at(s, i) {
        Some((e, v)) => if i < e <= s.len() {
            (seq![v] + tags_from(s, e).0, tags_from(s, e).1)
        } else {
            (seq![], i)
        },
        None => (seq![], i),
    }
}

/// The index of the first line terminator character (`\r` or `\n`) at or
/// after `i`, or the length of `s`.
pub open spec fn text_end(s: Seq<char>, i: int) -> int
    decreases s.len() - i,
{
    if 0 <= i < s.len() && s[i] != '\r' && s[i] != '\n' {
        text_end(s, i + 1)
    } else {
        i
    }
}

/// The index of the first `\n` at or after `i`, or the length of `s`.
pub open spec fn newline_at_or_after(s: Seq<char>, i: int) -> int
    decreases s.len() - i,
{
    if 0 <= i < s.len() && s[i] != '\n' {
        newline_at_or_after(s, i + 1)
    } else {
        i
    }
}

/// A line of one word that starts at `v`, with no end time and no flags.
pub open spec fn single_word_line(v: nat, text: Seq<char>) -> LineModel {
    LineModel {
        words: seq![WordModel { start_time: v, end_time: 0, word: text }],
        is_bg: false,
        is_duet: false,
    }
}

/// One line for each tag value, all with the same text.
pub open spec fn tagged_lines(vs: Seq<nat>, text: Seq<char>) -> Seq<LineModel> {
    vs.map_values(|v: nat| single_word_line(v, text))
}

/// The lines that one physical line gives: one for each tag at its start,
/// with the text that follows the tags up to a line terminator. A line
/// that does not start with a tag gives none.
pub open spec fn line_entries(l: Seq<char>) -> Seq<LineModel> {
    let (vs, e) = tags_from(l, 0);
    tagged_lines(vs, l.subrange(e, text_end(l, e)))
}

/// The lines of the text from index `a` on, in the order of the source.
pub open spec fn raw_lines_from(s: Seq<char>, a: int) -> Seq<LineModel>
    decreases s.len() - a,
{
    let k = newline_at_or_after(s, a);
    if 0 <= a <= k < s.len() {
        line_entries(s.subrange(a, k)) + raw_lines_from(s, k + 1)
    } else if 0 <= a <= k {
        line_entries(s.subrange(a, k))
    } else {
        seq![]
    }
}

/// The document that a text in LRC form holds.
pub open spec fn lrc_document(s: Seq<char>) -> Seq<LineModel> {
    sort_lines(raw_lines_from(s, 0))
}

/// What reading one line at the start of `s` gives: where the rest of the
/// text starts (after the line terminator, where there is one) and the
/// lines; `None` where `s` does not start with a tag.
pub open spec fn line_parse(s: Seq<char>) -> Option<(int, Seq<LineModel>)> {
    let (vs, e) = tags_from(s, 0);
    let te = text_end(s, e);
    let rest = if te < s.len() && s[te] == '\n' {
        te + 1
    } else if te + 1 < s.len() && s[te] == '\r' && s[te + 1] == '\n' {
        te + 2
    } else {
        te
    };
    if vs.len() == 0 {
        None
    } else {
        Some((rest, tagged_lines(vs, s.subrange(e, te))))
    }
}

/// The concatenated texts of some words.
pub open spec fn words_text(ws: Seq<WordModel>) -> Seq<char>
    decreases ws.len(),
{
    if ws.len() == 0 {
        seq![]
    } else {
        words_text(ws.drop_last()) + ws.last().word
    }
}

/// The LRC text of one line: the token of its first word's start, the
/// texts of all its words and a newline; nothing for a line without words.
pub open spec fn lrc_line(l: LineModel) -> Seq<char> {
    if l.words.len() == 0 {
        seq![]
    } else {
        encode(l.words[0].start_time) + words_text(l.words) + seq!['\n']
    }
}

/// The LRC text of a document.
pub open spec fn lrc_text(ls: Seq<LineModel>) -> Seq<char>
    decreases ls.len(),
{
    if ls.len() == 0 {
        seq![]
    } else {
        lrc_text(ls.drop_last()) + lrc_line(ls.last())
    }
}

fn tag_at_exec(cs: &Vec<char>, i: usize) -> (r: Option<(usize, usize)>)
    requires
        i <= cs.len(),
    ensures
        match r {
            Some((e, v)) => tag_at(cs@, i as int) == Some((e as int, v as nat)) && i < e <= cs.len(),
            None => tag_at(cs@, i as int) is None,
        },
{
    match parse_time_at(cs, i) {
        Ok((e, v)) => Some((e, v)),
        Err(_) => None,
    }
}

/// The values of the run of tags that starts at `i`, and the index just
/// past it.
fn tags_exec(cs: &Vec<char>, i: usize) -> (r: (Vec<usize>, usize))
    requires
        i <= cs.len(),
    ensures
        r.0@.map_values(|v: usize| v as nat) == tags_from(cs@, i as int).0,
        r.1 == tags_from(cs@, i as int).1,
        i <= r.1 <= cs.len(),
{
    let mut vs: Vec<usize> = Vec::new();
    let mut cur: usize = i;
    loop
        invariant
            i <= cur <= cs.len(),
            tags_from(cs@, i as int).0 == vs@.map_values(|v: usize| v as nat) + tags_from(
                cs@,
                cur as int,
            ).0,
            tags_from(cs@, i as int).1 == tags_from(cs@, cur as int).1,
        decreases cs.len() - cur,
    {
        match tag_at_exec(cs, cur) {
            Some((e, v)) => {
                let ghost old_vs = vs@;
                vs.push(v);
                assert(vs@.map_values(|v: usize| v as nat) =~= old_vs.map_values(|v: usize| v as nat)
                    + seq![v as nat]);
                assert(vs@.map_values(|v: usize| v as nat) + tags_from(cs@, e as int).0
                    =~= old_vs.map_values(|v: usize| v as nat) + tags_from(cs@, cur as int).0);
                cur = e;
            },
            None => {
                assert(tags_from(cs@, cur as int).0 =~= seq![]);
                assert(vs@.map_values(|v: usize| v as nat) + seq![] =~= vs@.map_values(
                    |v: usize| v as nat,
                ));
                return (vs, cur);
            },
        }
    }
}

/// The index of the first line terminator at or after `i`.
fn text_end_exec(cs: &Vec<char>, i: usize) -> (r: usize)
    requires
        i <= cs.len(),
    ensures
        r == text_end(cs@, i as int),
        i <= r <= cs.len(),
{
    let mut k: usize = i;
    while k < cs.len() && cs[k] != '\r' && cs[k] != '\n'
        invariant
            i <= k <= cs.len(),
            text_end(cs@, i as int) == text_end(cs@, k as int),
        decreases cs.len() - k,
    {
        k = k + 1;
    }
    k
}

/// The index of the first `\n` at or after `i`.
pub(crate) fn newline_exec(cs: &Vec<char>, i: usize) -> (r: usize)
    requires
        i <= cs.len(),
    ensures
        r == newline_at_or_after(cs@, i as int),
        i <= r <= cs.len(),
{
    let mut k: usize = i;
    while k < cs.len() && cs[k] != '\n'
        invariant
            i <= k <= cs.len(),
            newline_at_or_after(cs@, i as int) == newline_at_or_after(cs@, k as int),
        decreases cs.len() - k,
    {
        k = k + 1;
    }
    k
}

/// One line for each tag value, all with a copy of `text`.
fn tagged_lines_exec(vs: &Vec<usize>, text: &String) -> (r: Vec<LyricLine>)
    ensures
        lines_view(r@) == tagged_lines(vs@.map_values(|v: usize| v as nat), text@),
{
    let mut r: Vec<LyricLine> = Vec::new();
    let mut k: usize = 0;
    while k < vs.len()
        invariant
            k <= vs.len(),
            lines_view(r@) == tagged_lines(vs@.map_values(|v: usize| v as nat).take(k as int), text@),
        decreases vs.len() - k,
    {
        let mut words: Vec<LyricWord> = Vec::new();
        words.push(LyricWord { start_time: vs[k], end_time: 0, word: text.clone() });
        let line = LyricLine { words, is_bg: false, is_duet: false };
        assert(line@.words =~= seq![WordModel { start_time: vs[k as int] as nat, end_time: 0, word: text@ }]);
        let ghost old_r = r@;
        r.push(line);
        assert(lines_view(r@) =~= lines_view(old_r).push(line@));
        assert(vs@.map_values(|v: usize| v as nat).take(k + 1) =~= vs@.map_values(|v: usize| v as nat).take(
            k as int,
        ).push(vs[k as int] as nat));
        assert(tagged_lines(vs@.map_values(|v: usize| v as nat).take(k + 1), text@) =~= tagged_lines(
            vs@.map_values(|v: usize| v as nat).take(k as int),
            text@,
        ).push(single_word_line(vs[k as int] as nat, text@)));
        k = k + 1;
    }
    assert(vs@.map_values(|v: usize| v as nat).take(k as int) =~= vs@.map_values(|v: usize| v as nat));
    r
}

/// The lines that the physical line `cs[a..b]` gives.
fn line_entries_exec(cs: &Vec<char>, a: usize, b: usize) -> (r: Vec<LyricLine>)
    requires
        a <= b <= cs.len(),
    ensures
        lines_view(r@) == line_entries(cs@.subrange(a as int, b as int)),
{
    let l = copy_range(cs, a, b);
    let (vs, e) = tags_exec(&l, 0);
    let te = text_end_exec(&l, e);
    let text = string_of(&l, e, te);
    tagged_lines_exec(&vs, &text)
}

pub(crate) fn copy_range(cs: &Vec<char>, a: usize, b: usize) -> (r: Vec<char>)
    requires
        a <= b <= cs.len(),
    ensures
        r@ == cs@.subrange(a as int, b as int),
{
    let mut r: Vec<char> = Vec::new();
    let mut k: usize = a;
    while k < b
        invariant
            a <= k <= b <= cs.len(),
            r@ == cs@.subrange(a as int, k as int),
        decreases b - k,
    {
        r.push(cs[k]);
        assert(cs@.subrange(a as int, k + 1) =~= cs@.subrange(a as int, k as int).push(cs@[k as int]));
        k = k + 1;
    }
    r
}

/// Reads one line at the start of `src`: the text after it and its lines,
/// one for each tag at its start. Fails where `src` does not start with a
/// timestamp tag.
pub fn parse_line(src: &str) -> (r: Result<(String, Vec<LyricLine>), TimeError>)
    ensures
        match r {
            Ok((rest, lines)) => match line_parse(src@) {
                Some((k, ls)) => rest@ == src@.subrange(k, src@.len() as int) && lines_view(lines@)
                    == ls,
                None => false,
            },
            Err(_) => line_parse(src@) is None,
        },
{
    let cs = chars_of(src);
    let (vs, e) = tags_exec(&cs, 0);
    if vs.len() == 0 {
        return match parse_time_at(&cs, 0) {
            Err(err) => Err(err),
            Ok(_) => Err(TimeError::MalformedTimestamp),
        };
    }
    let n = cs.len();
    let te = text_end_exec(&cs, e);
    let text = string_of(&cs, e, te);
    let k = if te < n && cs[te] == '\n' {
        te + 1
    } else if te < n && te + 1 < n && cs[te] == '\r' && cs[te + 1] == '\n' {
        te + 2
    } else {
        te
    };
    let lines = tagged_lines_exec(&vs, &text);
    let rest = string_of(&cs, k, n);
    Ok((rest, lines))
}

/// The lines of the source, in source order, before they are ordered.
fn raw_lines_exec(cs: &Vec<char>) -> (r: Vec<LyricLine>)
    ensures
        lines_view(r@) == raw_lines_from(cs@, 0),
{
    let mut r: Vec<LyricLine> = Vec::new();
    let mut a: usize = 0;
    let n = cs.len();
    loop
        invariant
            a <= n == cs.len(),
            raw_lines_from(cs@, 0) == lines_view(r@) + raw_lines_from(cs@, a as int),
        decreases n - a,
    {
        let k = newline_exec(cs, a);
        let mut entries = line_entries_exec(cs, a, k);
        let ghost old_r = r@;
        let ghost ev = lines_view(entries@);
        r.append(&mut entries);
        assert(lines_view(r@) =~= lines_view(old_r) + ev);
        if k < n {
            assert(raw_lines_from(cs@, a as int) == ev + raw_lines_from(cs@, k + 1));
            assert(lines_view(old_r) + (ev + raw_lines_from(cs@, k + 1)) =~= lines_view(r@)
                + raw_lines_from(cs@, k + 1));
            a = k + 1;
        } else {
            assert(lines_view(old_r) + ev =~= lines_view(r@));
            return r;
        }
    }
}

/// Reads a text in LRC form: every physical line that starts with one or
/// more timestamp tags gives one line per tag, with the rest of the line as
/// its one word and no end time; other lines are skipped. The lines are
/// ordered by start, lines with equal starts in source order.
pub fn parse_lrc(src: &str) -> (r: Vec<LyricLine>)
    ensures
        lines_view(r@) == lrc_document(src@),
{
    let cs = chars_of(src);
    let raw = raw_lines_exec(&cs);
    normalize(raw)
}

/// Appends the texts of the words.
fn push_words(result: &mut String, ws: &Vec<LyricWord>)
    ensures
        final(result)@ == old(result)@ + words_text(ws@.map_values(|w: LyricWord| w@)),
{
    let mut k: usize = 0;
    while k < ws.len()
        invariant
            k <= ws.len(),
            result@ == old(result)@ + words_text(ws@.map_values(|w: LyricWord| w@).take(k as int)),
        decreases ws.len() - k,
    {
        push_str(result, &ws[k].word);
        let ghost t = ws@.map_values(|w: LyricWord| w@).take(k + 1);
        assert(t.drop_last() =~= ws@.map_values(|w: LyricWord| w@).take(k as int));
        assert(result@ =~= old(result)@ + words_text(t));
        k = k + 1;
    }
    assert(ws@.map_values(|w: LyricWord| w@).take(k as int) =~= ws@.map_values(|w: LyricWord| w@));
}

/// Writes a document in LRC form: for each line with words, the token of
/// its first word's start, the texts of its words and a newline. Lines
/// without words are left out.
pub fn stringify_lrc(lines: &[LyricLine]) -> (r: String)
    ensures
        r@ == lrc_text(lines_view(lines@)),
{
    let mut result = String::new();
    let mut k: usize = 0;
    while k < lines.len()
        invariant
            k <= lines.len(),
            result@ == lrc_text(lines_view(lines@).take(k as int)),
        decreases lines.len() - k,
    {
        let line = &lines[k];
        let ghost before = result@;
        if line.words.len() > 0 {
            write_timestamp(&mut result, line.words[0].start_time);
            push_words(&mut result, &line.words);
            push_char(&mut result, '\n');
        }
        let ghost t = lines_view(lines@).take(k + 1);
        assert(t.drop_last() =~= lines_view(lines@).take(k as int));
        assert(result@ =~= before + lrc_line(line@));
        k = k + 1;
    }
    assert(lines_view(lines@).take(k as int) =~= lines_view(lines@));
    result
}

/// A line without words adds nothing to the LRC text of a document:
/// leaving it out gives the same text.
pub proof fn lemma_lrc_skips_empty_lines(ls: Seq<LineModel>, i: int)
    requires
        0 <= i < ls.len(),
        ls[i].words.len() == 0,
    ensures
        lrc_text(ls.remove(i)) == lrc_text(ls),
    decreases ls.len(),
{
    if i == ls.len() - 1 {
        assert(ls.remove(i) =~= ls.drop_last());
        assert(lrc_text(ls) =~= lrc_text(ls.drop_last()) + seq![]);
    } else {
        lemma_lrc_skips_empty_lines(ls.drop_last(), i);
        assert(ls.remove(i).drop_last() =~= ls.drop_last().remove(i));
        assert(ls.remove(i).last() == ls.last());
    }
}

pub(crate) proof fn lemma_newline_shift(p: Seq<char>, b: Seq<char>, j: int)
    requires
        0 <= j <= b.len(),
    ensures
        newline_at_or_after(p + b, p.len() + j) == p.len() + newline_at_or_after(b, j),
    decreases b.len() - j,
{
    if j < b.len() {
        assert((p + b)[p.len() + j] == b[j]);
        if b[j] != '\n' {
            lemma_newline_shift(p, b, j + 1);
        }
    }
}

pub(crate) proof fn lemma_newline_first(a: Seq<char>, b: Seq<char>, j: int)
    requires
        0 <= j <= a.len(),
        forall|i: int| 0 <= i < a.len() ==> a[i] != '\n',
    ensures
        newline_at_or_after(a + seq!['\n'] + b, j) == a.len(),
    decreases a.len() - j,
{
    if j < a.len() {
        assert((a + seq!['\n'] + b)[j] == a[j]);
        lemma_newline_first(a, b, j + 1);
    } else {
        assert((a + seq!['\n'] + b)[j] == '\n');
    }
}

pub(crate) proof fn lemma_newline_bounds(s: Seq<char>, i: int)
    requires
        0 <= i <= s.len(),
    ensures
        i <= newline_at_or_after(s, i) <= s.len(),
    decreases s.len() - i,
{
    if i < s.len() && s[i] != '\n' {
        lemma_newline_bounds(s, i + 1);
    }
}

/// Text with no line terminator in it.
pub open spec fn clean_text(t: Seq<char>) -> bool {
    forall|k: int| 0 <= k < t.len() ==> #[trigger] t[k] != '\r' && t[k] != '\n'
}

/// A line as the LRC reader gives it: one word with a start that fits in
/// `usize`, no end time and no flags, whose text has no line terminator and
/// does not start with a tag.
pub open spec fn lrc_shaped(l: LineModel) -> bool {
    &&& l.words.len() == 1
    &&& l == single_word_line(l.words[0].start_time, l.words[0].word)
    &&& l.words[0].start_time <= usize::MAX
    &&& clean_text(l.words[0].word)
    &&& tag_at(l.words[0].word, 0) is None
}

/// Every line is shaped as the LRC reader gives it.
pub open spec fn all_lrc_shaped(ls: Seq<LineModel>) -> bool {
    forall|i: int| 0 <= i < ls.len() ==> lrc_shaped(#[trigger] ls[i])
}

/// The keys of the lines never decrease.
pub open spec fn keys_sorted(ls: Seq<LineModel>) -> bool {
    forall|i: int, j: int| 0 <= i < j < ls.len() ==> line_key(#[trigger] ls[i]) <= line_key(
        #[trigger] ls[j],
    )
}

proof fn lemma_text_end_facts(s: Seq<char>, i: int)
    requires
        0 <= i <= s.len(),
    ensures
        i <= text_end(s, i) <= s.len(),
        clean_text(s.subrange(i, text_end(s, i))),
        (forall|k: int| i <= k < s.len() ==> #[trigger] s[k] != '\r' && s[k] != '\n') ==> text_end(
            s,
            i,
        ) == s.len(),
    decreases s.len() - i,
{
    if i < s.len() && s[i] != '\r' && s[i] != '\n' {
        lemma_text_end_facts(s, i + 1);
        let t = s.subrange(i, text_end(s, i));
        assert forall|k: int| 0 <= k < t.len() implies #[trigger] t[k] != '\r' && t[k] != '\n' by {
            if k > 0 {
                assert(t[k] == s.subrange(i + 1, text_end(s, i))[k - 1]);
            }
        }
    }
}

proof fn lemma_tags_from_facts(s: Seq<char>, i: int)
    requires
        0 <= i <= s.len(),
    ensures
        i <= tags_from(s, i).1 <= s.len(),
        tag_at(s, tags_from(s, i).1) is None,
        forall|k: int| 0 <= k < tags_from(s, i).0.len() ==> #[trigger] tags_from(s, i).0[k] <= usize::MAX,
    decreases s.len() - i,
{
    match tag_at(s, i) {
        Some((e, v)) => {
            if i < e <= s.len() {
                lemma_tags_from_facts(s, e);
                let vs = tags_from(s, i).0;
                assert forall|k: int| 0 <= k < vs.len() implies #[trigger] vs[k] <= usize::MAX by {
                    if k > 0 {
                        assert(vs[k] == tags_from(s, e).0[k - 1]);
                    }
                }
            }
        },
        None => {},
    }
}

/// Text that follows the tags of a line never starts with a tag itself.
proof fn lemma_no_tag_after_tags(l: Seq<char>, e: int, te: int)
    requires
        0 <= e <= te <= l.len(),
        tag_at(l, e) is None,
    ensures
        tag_at(l.subrange(e, te), 0) is None,
{
    let t = l.subrange(e, te);
    if tag_at(t, 0) is Some {
        let e2 = (token_at(t, 0)->0).0;
        assert(t.subrange(0, e2) =~= l.subrange(e, e + e2));
        lemma_token_local(l, e, t, 0);
    }
}

proof fn lemma_line_entries_shaped(l: Seq<char>)
    ensures
        all_lrc_shaped(line_entries(l)),
{
    lemma_tags_from_facts(l, 0);
    let (vs, e) = tags_from(l, 0);
    lemma_text_end_facts(l, e);
    let te = text_end(l, e);
    lemma_no_tag_after_tags(l, e, te);
}

proof fn lemma_raw_shaped(s: Seq<char>, a: int)
    ensures
        all_lrc_shaped(raw_lines_from(s, a)),
    decreases s.len() - a,
{
    let k = newline_at_or_after(s, a);
    if 0 <= a <= k {
        lemma_line_entries_shaped(s.subrange(a, k));
    }
    if 0 <= a <= k < s.len() {
        lemma_newline_bounds(s, a);
        lemma_raw_shaped(s, k + 1);
        let x = line_entries(s.subrange(a, k));
        let y = raw_lines_from(s, k + 1);
        assert forall|i: int| 0 <= i < (x + y).len() implies lrc_shaped(#[trigger] (x + y)[i]) by {
            if i < x.len() {
                assert((x + y)[i] == x[i]);
            } else {
                assert((x + y)[i] == y[i - x.len()]);
            }
        }
    }
}

pub(crate) proof fn lemma_insert_sorted_facts(s: Seq<LineModel>, x: LineModel, bound: nat)
    requires
        keys_sorted(s),
        forall|i: int| 0 <= i < s.len() ==> line_key(#[trigger] s[i]) <= bound,
        line_key(x) <= bound,
    ensures
        keys_sorted(insert_sorted(s, x)),
        forall|i: int|
            0 <= i < insert_sorted(s, x).len() ==> line_key(#[trigger] insert_sorted(s, x)[i])
                <= bound,
        all_lrc_shaped(s) && lrc_shaped(x) ==> all_lrc_shaped(insert_sorted(s, x)),
        insert_sorted(s, x).len() == s.len() + 1,
    decreases s.len(),
{
    let r = insert_sorted(s, x);
    if s.len() == 0 || line_key(s.last()) <= line_key(x) {
        assert forall|i: int, j: int| 0 <= i < j < r.len() implies line_key(#[trigger] r[i])
            <= line_key(#[trigger] r[j]) by {
            if j == s.len() && i < s.len() {
                assert(line_key(s[i]) <= line_key(s[s.len() - 1]));
            }
        }
    } else {
        let t = s.drop_last();
        let last = s.last();
        assert forall|i: int| 0 <= i < t.len() implies line_key(#[trigger] t[i]) <= line_key(last) by {
            assert(t[i] == s[i]);
        }
        lemma_insert_sorted_facts(t, x, line_key(last));
        let r0 = insert_sorted(t, x);
        assert forall|i: int, j: int| 0 <= i < j < r.len() implies line_key(#[trigger] r[i])
            <= line_key(#[trigger] r[j]) by {
            if j < r0.len() {
                assert(r[i] == r0[i] && r[j] == r0[j]);
            } else {
                assert(r[i] == r0[i]);
            }
        }
        assert forall|i: int| 0 <= i < r.len() implies line_key(#[trigger] r[i]) <= bound by {
            if i < r0.len() {
                assert(r[i] == r0[i]);
            }
        }
        if all_lrc_shaped(s) && lrc_shaped(x) {
            assert forall|i: int| 0 <= i < t.len() implies lrc_shaped(#[trigger] t[i]) by {
                assert(t[i] == s[i]);
            }
            assert forall|i: int| 0 <= i < r.len() implies lrc_shaped(#[trigger] r[i]) by {
                if i < r0.len() {
                    assert(r[i] == r0[i]);
                }
            }
        }
    }
}

pub(crate) proof fn lemma_sort_lines_facts(s: Seq<LineModel>)
    ensures
        keys_sorted(sort_lines(s)),
        sort_lines(s).len() == s.len(),
        all_lrc_shaped(s) ==> all_lrc_shaped(sort_lines(s)),
    decreases s.len(),
{
    if s.len() > 0 {
        let t = s.drop_last();
        lemma_sort_lines_facts(t);
        let st = sort_lines(t);
        let bound = if st.len() > 0 && line_key(st.last()) > line_key(s.last()) {
            line_key(st.last())
        } else {
            line_key(s.last())
        };
        assert forall|i: int| 0 <= i < st.len() implies line_key(#[trigger] st[i]) <= bound by {
            if i < st.len() - 1 {
                assert(line_key(st[i]) <= line_key(st[st.len() - 1]));
            }
        }
        if all_lrc_shaped(s) {
            assert forall|i: int| 0 <= i < t.len() implies lrc_shaped(#[trigger] t[i]) by {
                assert(t[i] == s[i]);
            }
        }
        lemma_insert_sorted_facts(st, s.last(), bound);
    }
}

pub(crate) proof fn lemma_sorted_unchanged(s: Seq<LineModel>)
    requires
        keys_sorted(s),
    ensures
        sort_lines(s) == s,
    decreases s.len(),
{
    if s.len() > 0 {
        let t = s.drop_last();
        assert forall|i: int, j: int| 0 <= i < j < t.len() implies line_key(#[trigger] t[i])
            <= line_key(#[trigger] t[j]) by {
            assert(t[i] == s[i] && t[j] == s[j]);
        }
        lemma_sorted_unchanged(t);
        if t.len() > 0 {
            assert(line_key(s[t.len() - 1]) <= line_key(s[s.len() - 1]));
        }
        assert(t.push(s.last()) =~= s);
    }
}

proof fn lemma_lrc_text_cons(l: LineModel, ls: Seq<LineModel>)
    ensures
        lrc_text(seq![l] + ls) == lrc_line(l) + lrc_text(ls),
    decreases ls.len(),
{
    if ls.len() == 0 {
        assert(seq![l] + ls =~= seq![l]);
        assert(seq![l].drop_last() =~= Seq::<LineModel>::empty());
        assert(lrc_text(seq![l].drop_last()) == Seq::<char>::empty());
        assert(lrc_text(seq![l]) =~= lrc_line(l));
    } else {
        lemma_lrc_text_cons(l, ls.drop_last());
        assert((seq![l] + ls).drop_last() =~= seq![l] + ls.drop_last());
        assert((seq![l] + ls).last() == ls.last());
        assert(lrc_line(l) + lrc_text(ls.drop_last()) + lrc_line(ls.last()) =~= lrc_line(l) + (
        lrc_text(ls.drop_last()) + lrc_line(ls.last())));
    }
}

proof fn lemma_raw_shift(p: Seq<char>, b: Seq<char>, j: int)
    requires
        0 <= j <= b.len(),
    ensures
        raw_lines_from(p + b, p.len() + j) == raw_lines_from(b, j),
    decreases b.len() - j,
{
    let s = p + b;
    lemma_newline_shift(p, b, j);
    lemma_newline_bounds(b, j);
    let k = newline_at_or_after(b, j);
    assert(s.subrange(p.len() + j, p.len() + k) =~= b.subrange(j, k));
    if k < b.len() {
        lemma_raw_shift(p, b, k + 1);
    }
}

proof fn lemma_raw_first_line(l: Seq<char>, rest: Seq<char>)
    requires
        forall|i: int| 0 <= i < l.len() ==> l[i] != '\n',
    ensures
        raw_lines_from(l + seq!['\n'] + rest, 0) == line_entries(l) + raw_lines_from(rest, 0),
{
    let s = l + seq!['\n'] + rest;
    lemma_newline_first(l, rest, 0);
    assert(s.subrange(0, l.len() as int) =~= l);
    assert(s =~= (l + seq!['\n']) + rest);
    lemma_raw_shift(l + seq!['\n'], rest, 0);
}

proof fn lemma_shaped_line_reads_back(l: LineModel)
    requires
        lrc_shaped(l),
    ensures
        line_entries(encode(l.words[0].start_time) + l.words[0].word) == seq![l],
        forall|i: int|
            0 <= i < (encode(l.words[0].start_time) + l.words[0].word).len() ==> #[trigger] (encode(
                l.words[0].start_time,
            ) + l.words[0].word)[i] != '\n',
{
    let v = l.words[0].start_time;
    let text = l.words[0].word;
    let enc = encode(v);
    let s = enc + text;
    let n = enc.len() as int;
    lemma_encode_prefix(v, text);
    if tag_at(s, n) is Some {
        let e2 = (token_at(s, n)->0).0;
        assert(text.subrange(0, e2 - n) =~= s.subrange(n, e2));
        lemma_token_local(text, 0, s, n);
    }
    assert(tags_from(s, n) == (Seq::<nat>::empty(), n));
    assert(tags_from(s, 0).0 =~= seq![v]);
    assert forall|k: int| n <= k < s.len() implies #[trigger] s[k] != '\r' && s[k] != '\n' by {
        assert(s[k] == text[k - n]);
    }
    lemma_text_end_facts(s, n);
    assert(s.subrange(n, s.len() as int) =~= text);
    assert(tagged_lines(seq![v], text) =~= seq![single_word_line(v, text)]);
    crate::timestamp::lemma_encode_chars(v);
    assert forall|i: int| 0 <= i < s.len() implies #[trigger] s[i] != '\n' by {
        if i < n {
            assert(s[i] == enc[i]);
        } else {
            assert(s[i] == text[i - n]);
        }
    }
}

proof fn lemma_shaped_text_reads_back(ls: Seq<LineModel>)
    requires
        all_lrc_shaped(ls),
    ensures
        raw_lines_from(lrc_text(ls), 0) == ls,
    decreases ls.len(),
{
    if ls.len() == 0 {
        assert(tags_from(Seq::<char>::empty(), 0).0.len() == 0);
        assert(raw_lines_from(lrc_text(ls), 0) =~= ls);
    } else {
        let l = ls[0];
        let tail = ls.skip(1);
        assert forall|i: int| 0 <= i < tail.len() implies lrc_shaped(#[trigger] tail[i]) by {
            assert(tail[i] == ls[i + 1]);
        }
        lemma_shaped_text_reads_back(tail);
        assert(ls =~= seq![l] + tail);
        lemma_lrc_text_cons(l, tail);
        assert(lrc_shaped(ls[0]));
        lemma_shaped_line_reads_back(l);
        let first = encode(l.words[0].start_time) + l.words[0].word;
        assert(l.words.drop_last() =~= Seq::<WordModel>::empty());
        assert(words_text(l.words.drop_last()) == Seq::<char>::empty());
        assert(words_text(l.words) =~= l.words[0].word);
        assert(lrc_line(l) + lrc_text(tail) =~= first + seq!['\n'] + lrc_text(tail));
        lemma_raw_first_line(first, lrc_text(tail));
    }
}

/// Writing a document read from LRC text and reading it back gives the
/// same document: two round trips through LRC meet at a fixed point.
pub proof fn lemma_lrc_round_trip(s: Seq<char>)
    ensures
        lrc_document(lrc_text(lrc_document(s))) == lrc_document(s),
{
    let d = lrc_document(s);
    lemma_raw_shaped(s, 0);
    lemma_sort_lines_facts(raw_lines_from(s, 0));
    lemma_shaped_text_reads_back(d);
    lemma_sorted_unchanged(d);
}

} // verus!
