use lyric_engine::model::{LyricLine, LyricWord};
use lyric_engine::syllable::{
    parse_lys, parse_qrc, parse_words, parse_yrc, stringify_lys, stringify_qrc, stringify_words,
    stringify_yrc, LineError, LineErrorKind, WordFormat,
};

fn word(text: &str, start_time: usize, end_time: usize) -> LyricWord {
    LyricWord { start_time, end_time, word: text.to_string() }
}

fn hello_line(is_bg: bool, is_duet: bool) -> LyricLine {
    LyricLine {
        words: vec![word("Hel", 1000, 1200), word("lo", 1200, 1500)],
        is_bg,
        is_duet,
    }
}

#[test]
fn qrc_parses_words() {
    let doc = parse_qrc("[1000,500]Hel(1000,200)lo(1200,300)\n");
    assert_eq!(doc.lines, vec![hello_line(false, false)]);
    assert!(doc.errors.is_empty());
}

#[test]
fn yrc_parses_words() {
    let doc = parse_yrc("[1000,500](1000,200,0)Hel(1200,300,0)lo\r\n");
    assert_eq!(doc.lines, vec![hello_line(false, false)]);
    assert!(doc.errors.is_empty());
}

#[test]
fn lys_parses_role_flags() {
    let doc = parse_lys("[7]Hel(1000,200)lo(1200,300)");
    assert_eq!(doc.lines, vec![hello_line(true, false)]);
    let expected = [
        (0, false, false),
        (1, false, false),
        (2, false, true),
        (3, false, false),
        (4, false, false),
        (5, false, true),
        (6, true, false),
        (7, true, false),
        (8, true, true),
    ];
    for (flag, bg, duet) in expected {
        let doc = parse_lys(&format!("[{}]a(1,2)", flag));
        assert_eq!(doc.lines.len(), 1);
        assert_eq!((doc.lines[0].is_bg, doc.lines[0].is_duet), (bg, duet), "flag {}", flag);
    }
}

#[test]
fn lys_bad_flags_are_reported_per_line() {
    let doc = parse_lys("[9]a(1,2)\n[4]b(5,1)\n[]c(1,1)\n[12]d(1,1)");
    assert_eq!(doc.lines, vec![LyricLine { words: vec![word("b", 5, 6)], is_bg: false, is_duet: false }]);
    assert_eq!(
        doc.errors,
        vec![
            LineError { line: 0, kind: LineErrorKind::UnknownRoleFlag },
            LineError { line: 2, kind: LineErrorKind::MalformedLine },
            LineError { line: 3, kind: LineErrorKind::UnknownRoleFlag },
        ]
    );
}

#[test]
fn metadata_and_blank_lines_are_skipped() {
    let doc = parse_yrc("{\"t\":0,\"c\":[]}\n[ti:Song]\n\n[10,5](10,5,0)x");
    assert_eq!(doc.lines, vec![LyricLine { words: vec![word("x", 10, 15)], is_bg: false, is_duet: false }]);
    assert!(doc.errors.is_empty());
    assert!(parse_qrc("").lines.is_empty());
    assert!(parse_qrc("").errors.is_empty());
}

#[test]
fn malformed_lines_do_not_stop_the_document() {
    let doc = parse_qrc("[1000]x(1,2)\n[1,2]x(1,2\n[5,1]y(5,1)\nplain text");
    assert_eq!(doc.lines, vec![LyricLine { words: vec![word("y", 5, 6)], is_bg: false, is_duet: false }]);
    assert_eq!(
        doc.errors,
        vec![
            LineError { line: 0, kind: LineErrorKind::MalformedLine },
            LineError { line: 1, kind: LineErrorKind::MalformedLine },
            LineError { line: 3, kind: LineErrorKind::MalformedLine },
        ]
    );
}

#[test]
fn word_lines_are_sorted_stably() {
    let doc = parse_qrc("[30,1]c(30,1)\n[10,1]a(10,1)\n[30,1]d(30,1)");
    let texts: Vec<String> = doc.lines.iter().map(|l| l.words[0].word.clone()).collect();
    assert_eq!(texts, vec!["a", "c", "d"]);
}

#[test]
fn word_formats_stringify() {
    let lines = vec![
        LyricLine { words: vec![], is_bg: false, is_duet: false },
        hello_line(true, false),
    ];
    assert_eq!(stringify_qrc(&lines), "[1000,500]Hel(1000,200)lo(1200,300)\n");
    assert_eq!(stringify_yrc(&lines), "[1000,500](1000,200,0)Hel(1200,300,0)lo\n");
    assert_eq!(stringify_lys(&lines), "[7]Hel(1000,200)lo(1200,300)\n");
    assert_eq!(stringify_lys(&[hello_line(false, false)]), "[4]Hel(1000,200)lo(1200,300)\n");
    assert_eq!(stringify_lys(&[hello_line(false, true)]), "[5]Hel(1000,200)lo(1200,300)\n");
    assert_eq!(stringify_lys(&[hello_line(true, true)]), "[8]Hel(1000,200)lo(1200,300)\n");
}

#[test]
fn stringify_clamps_negative_durations() {
    let lines = vec![LyricLine { words: vec![word("a", 500, 0)], is_bg: false, is_duet: false }];
    assert_eq!(stringify_qrc(&lines), "[500,0]a(500,0)\n");
}

#[test]
fn word_formats_round_trip() {
    let sources = [
        (WordFormat::Qrc, "[20,5]b(20,5)\n[10,7]H(10,3)i(13,4)\n"),
        (WordFormat::Yrc, "[20,5](20,5,0)b\n[10,7](10,3,0)H(13,4,0)i\n"),
        (WordFormat::Lys, "[8]b(20,5)\n[5]H(10,3)i(13,4)\n[2]x(30,1)\n"),
    ];
    for (f, src) in sources {
        let doc = parse_words(src, f);
        assert!(doc.errors.is_empty());
        let again = parse_words(&stringify_words(&doc.lines, f), f);
        assert!(again.errors.is_empty());
        assert_eq!(again.lines, doc.lines);
    }
}

#[test]
fn line_without_words_is_read_but_not_written() {
    let doc = parse_qrc("[1,2]");
    assert_eq!(doc.lines, vec![LyricLine { words: vec![], is_bg: false, is_duet: false }]);
    assert!(doc.errors.is_empty());
    assert_eq!(stringify_qrc(&doc.lines), "");
}
