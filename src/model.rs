use vstd::prelude::*;

verus! {

/// One timed word: start and end in milliseconds, and its text. An end of
/// zero means that the format does not track it.
#[derive(Debug, Clone, PartialEq, Eq)]
pub struct LyricWord {
    pub start_time: usize,
    pub end_time: usize,
    pub word: String,
}

/// One lyric line: its words in reading order, and its role flags.
#[derive(Debug, Clone, PartialEq, Eq)]
pub struct LyricLine {
    pub words: Vec<LyricWord>,
    pub is_bg: bool,
    pub is_duet: bool,
}

/// The mathematical value of a word.
pub struct WordModel {
    pub start_time: nat,
    pub end_time: nat,
    pub word: Seq<char>,
}

/// The mathematical value of a line.
pub struct LineModel {
    pub words: Seq<WordModel>,
    pub is_bg: bool,
    pub is_duet: bool,
}

impl View for LyricWord {
    type V = WordModel;

    open spec fn view(&self) -> WordModel {
        WordModel { start_time: self.start_time as nat, end_time: self.end_time as nat, word: self.word@ }
    }
}

impl View for LyricLine {
    type V = LineModel;

    open spec fn view(&self) -> LineModel {
        LineModel {
            words: self.words@.map_values(|w: LyricWord| w@),
            is_bg: self.is_bg,
            is_duet: self.is_duet,
        }
    }
}

/// The views of a sequence of lines.
pub open spec fn lines_view(ls: Seq<LyricLine>) -> Seq<LineModel> {
    ls.map_values(|l: LyricLine| l@)
}

/// The time by which a line is ordered: the start of its first word, or
/// zero for a line without words.
pub open spec fn line_key(l: LineModel) -> nat {
    if l.words.len() > 0 {
        l.words[0].start_time
    } else {
        0
    }
}

/// `x` placed into `s` after every line whose key is not above its own.
pub open spec fn insert_sorted(s: Seq<LineModel>, x: LineModel) -> Seq<LineModel>
    decreases s.len(),
{
    if s.len() == 0 || line_key(s.last()) <= line_key(x) {
        s.push(x)
    } else {
        insert_sorted(s.drop_last(), x).push(s.last())
    }
}

/// The lines ordered by key, ascending; lines with equal keys keep their
/// relative order.
pub open spec fn sort_lines(s: Seq<LineModel>) -> Seq<LineModel>
    decreases s.len(),
{
    if s.len() == 0 {
        s
    } else {
        insert_sorted(sort_lines(s.drop_last()), s.last())
    }
}

fn line_key_exec(l: &LyricLine) -> (k: usize)
    ensures
        k == line_key(l@),
{
    if l.words.len() > 0 {
        l.words[0].start_time
    } else {
        0
    }
}

proof fn lemma_insert_at(s: Seq<LineModel>, x: LineModel, p: int)
    requires
        0 <= p <= s.len(),
        forall|j: int| p <= j < s.len() ==> line_key(#[trigger] s[j]) > line_key(x),
        p > 0 ==> line_key(s[p - 1]) <= line_key(x),
    ensures
        insert_sorted(s, x) == s.insert(p, x),
    decreases s.len(),
{
    if s.len() == 0 || line_key(s.last()) <= line_key(x) {
        assert(s.insert(p, x) =~= s.push(x));
    } else {
        lemma_insert_at(s.drop_last(), x, p);
        assert(s.insert(p, x) =~= s.drop_last().insert(p, x).push(s.last()));
    }
}

/// Orders the lines by the start of their first word, keeping the order
/// of lines with equal starts.
#[verifier::loop_isolation(false)]
pub fn normalize(lines: Vec<LyricLine>) -> (r: Vec<LyricLine>)
    ensures
        lines_view(r@) == sort_lines(lines_view(lines@)),
{
    let ghost all = lines_view(lines@);
    let mut rest = lines;
    let mut r: Vec<LyricLine> = Vec::new();
    let total = rest.len();
    let mut n: usize = 0;
    assert(all.take(0).len() == 0);
    while rest.len() > 0
        invariant
            n + rest.len() == all.len(),
            all.len() == total,
            lines_view(rest@) == all.skip(n as int),
            lines_view(r@) == sort_lines(all.take(n as int)),
        decreases rest.len(),
    {
        let ghost before = rest@;
        let x = rest.remove(0);
        assert(lines_view(rest@) =~= lines_view(before).skip(1));
        assert(all.skip(n as int).skip(1) =~= all.skip(n + 1));
        assert(x@ == lines_view(before)[0]);
        let k = line_key_exec(&x);
        let mut p: usize = r.len();
        while p > 0 && line_key_exec(&r[p - 1]) > k
            invariant
                p <= r.len(),
                forall|j: int| p <= j < r.len() ==> line_key(#[trigger] lines_view(r@)[j]) > k,
            decreases p,
        {
            p = p - 1;
        }
        let ghost s = lines_view(r@);
        proof {
            assert(all.take(n + 1).drop_last() =~= all.take(n as int));
            assert(all.take(n + 1).last() == x@);
            lemma_insert_at(s, x@, p as int);
        }
        r.insert(p, x);
        assert(lines_view(r@) =~= s.insert(p as int, x@));
        n = n + 1;
    }
    assert(all.take(n as int) =~= all);
    r
}

} // verus!
