use lyric_engine::lrc::{parse_line, parse_lrc, stringify_lrc};
use lyric_engine::model::{normalize, LyricLine, LyricWord};
use lyric_engine::timestamp::{parse_time, write_timestamp, TimeError};

fn one_word_line(start_time: usize, word: &str) -> LyricLine {
    LyricLine {
        words: vec![LyricWord {
            start_time,
            end_time: 0,
            word: word.to_string(),
        }],
        is_bg: false,
        is_duet: false,
    }
}

#[test]
fn time_test() {
    assert_eq!(parse_time("[00:01.12]"), Ok((String::new(), 1120)));
    assert_eq!(parse_time("[00:10.254]"), Ok((String::new(), 10254)));
    assert_eq!(parse_time("[01:10.1]"), Ok((String::new(), 70100)));
    assert_eq!(parse_time("[168:10.254]"), Ok((String::new(), 10090254)));
    assert!(parse_time("[168:10.254233]").is_err());
}

#[test]
fn lyric_line_test() {
    assert_eq!(
        parse_line("[00:01.12] test LyRiC"),
        Ok((String::new(), vec![one_word_line(1120, " test LyRiC")]))
    );
    assert_eq!(
        parse_line("[00:10.254][00:10.254] sssxxx\nrestline"),
        Ok((
            "restline".to_string(),
            vec![one_word_line(10254, " sssxxx"), one_word_line(10254, " sssxxx")]
        ))
    );
    assert_eq!(
        parse_line("[01:10.1]"),
        Ok((String::new(), vec![one_word_line(70100, "")]))
    );
}

#[test]
fn stringify_lrc_test() {
    let lrc = parse_lrc("[00:01.12] test LyRiC\n[00:10.254] sssxxx");
    assert_eq!(
        stringify_lrc(&lrc),
        "[00:01.120] test LyRiC\n[00:10.254] sssxxx\n"
    );
}

#[test]
fn lrc_bench_test() {
    let mut times = Vec::with_capacity(1024);
    for _ in 0..1024 {
        let t = std::time::Instant::now();
        let _l = parse_lrc("[00:01.12] test LyRiC");
        times.push(t.elapsed());
    }
    let times = times.into_iter().map(|x| x.as_micros()).collect::<Vec<_>>();
    println!("used {} us", times.iter().sum::<u128>());
    println!(
        "average {} us",
        times.iter().sum::<u128>() / times.len() as u128
    );
}

#[test]
fn time_keeps_rest_of_text() {
    assert_eq!(parse_time("[00:01.12] x"), Ok((" x".to_string(), 1120)));
}

#[test]
fn time_fraction_is_left_justified() {
    assert_eq!(parse_time("[00:00.05]"), Ok((String::new(), 50)));
    assert_eq!(parse_time("[00:00.5]"), Ok((String::new(), 500)));
    assert_eq!(parse_time("[00:00.005]"), Ok((String::new(), 5)));
}

#[test]
fn time_malformed_tokens() {
    let bad = [
        "", "00:01.12]", "[00:01.12", "[0001.12]", "[00:0112]", "[:01.12]", "[00:1.12]",
        "[00:011.12]", "[00:60.00]", "[00:01.]", "[a0:01.12]", "[00:01.1x]",
    ];
    for t in bad.iter() {
        assert_eq!(parse_time(t), Err(TimeError::MalformedTimestamp), "{}", t);
    }
}

#[test]
fn time_too_large() {
    assert_eq!(
        parse_time("[99999999999999999999999:00.00]"),
        Err(TimeError::TimestampTooLarge)
    );
}

#[test]
fn encode_pads_fields() {
    let mut s = String::new();
    write_timestamp(&mut s, 10090254);
    assert_eq!(s, "[168:10.254]");
    let mut s = "x".to_string();
    write_timestamp(&mut s, 5);
    assert_eq!(s, "x[00:00.005]");
}

#[test]
fn encode_then_decode_gives_value() {
    for v in [0usize, 1, 999, 1000, 59999, 60000, 1120, 10090254] {
        let mut s = String::new();
        write_timestamp(&mut s, v);
        assert_eq!(parse_time(&s), Ok((String::new(), v)));
    }
}

#[test]
fn parse_line_without_tag_fails() {
    assert_eq!(parse_line("restline"), Err(TimeError::MalformedTimestamp));
    assert_eq!(parse_line("\n[00:01.00]a"), Err(TimeError::MalformedTimestamp));
}

#[test]
fn parse_line_crlf_is_consumed() {
    assert_eq!(
        parse_line("[00:01.00]a\r\nb"),
        Ok(("b".to_string(), vec![one_word_line(1000, "a")]))
    );
}

#[test]
fn parse_lrc_empty_input() {
    assert_eq!(parse_lrc(""), Vec::<LyricLine>::new());
}

#[test]
fn parse_lrc_skips_metadata_and_sorts() {
    let doc = parse_lrc("[ti:Song]\n[00:03.00]c\r\n[00:01.00][00:03.00]a\n\nno tag\n[00:02.00]b");
    assert_eq!(
        doc,
        vec![
            one_word_line(1000, "a"),
            one_word_line(2000, "b"),
            one_word_line(3000, "c"),
            one_word_line(3000, "a"),
        ]
    );
}

#[test]
fn normalize_is_stable() {
    let lines = vec![
        one_word_line(5, "x"),
        one_word_line(1, "y"),
        one_word_line(5, "z"),
        LyricLine { words: vec![], is_bg: true, is_duet: false },
    ];
    let r = normalize(lines);
    assert_eq!(r[0], LyricLine { words: vec![], is_bg: true, is_duet: false });
    assert_eq!(r[1], one_word_line(1, "y"));
    assert_eq!(r[2], one_word_line(5, "x"));
    assert_eq!(r[3], one_word_line(5, "z"));
}

#[test]
fn stringify_skips_empty_lines_and_joins_words() {
    let lines = vec![
        LyricLine { words: vec![], is_bg: false, is_duet: false },
        LyricLine {
            words: vec![
                LyricWord { start_time: 61001, end_time: 61500, word: "ab".to_string() },
                LyricWord { start_time: 61500, end_time: 62000, word: "cd".to_string() },
            ],
            is_bg: false,
            is_duet: true,
        },
    ];
    assert_eq!(stringify_lrc(&lines), "[01:01.001]abcd\n");
    assert_eq!(stringify_lrc(&[]), "");
}

#[test]
fn lrc_round_trip_is_fixed_point() {
    let doc = parse_lrc("[00:10.5][00:01.12] one\n[00:05.254]two\nmeta");
    let again = parse_lrc(&stringify_lrc(&doc));
    assert_eq!(again, doc);
}
