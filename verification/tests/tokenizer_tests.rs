use script_asm::iter_words;

fn collect(text: &str) -> Vec<((usize, usize), &str)> {
    iter_words(text)
}

#[test]
fn positions_across_comment_line() {
    let words = collect("OP_1 OP_2\n# comment\nOP_3 // trailing\n");
    assert_eq!(
        words,
        vec![((0, 0), "OP_1"), ((0, 1), "OP_2"), ((2, 0), "OP_3")]
    );
}

#[test]
fn comment_marker_precedence() {
    assert_eq!(collect("OP_1 # foo // bar"), vec![((0, 0), "OP_1")]);
    assert_eq!(collect("OP_1 // foo # bar"), vec![((0, 0), "OP_1")]);
}

#[test]
fn word_count_matches_manual_split() {
    let samples = [
        "OP_1 OP_2\n# comment\nOP_3 // trailing\n",
        "a b c\n\nd\t e // x y\nf # g h\n// only comment\n   \n",
        "",
        "deadbeef 0102 OP_CHECKSIG",
        "one\ntwo three\r\nfour # five\nsix // seven eight",
    ];
    for text in samples {
        let mut manual: usize = 0;
        for line in text.lines() {
            let content = line
                .split('#')
                .next()
                .unwrap()
                .split("//")
                .next()
                .unwrap();
            manual += content.split_whitespace().count();
        }
        assert_eq!(collect(text).len(), manual, "input: {:?}", text);
    }
}

#[test]
fn blank_and_whitespace_lines_advance_line_index() {
    assert_eq!(collect("\n\n  \nword"), vec![((3, 0), "word")]);
}

#[test]
fn crlf_line_endings() {
    assert_eq!(collect("a\r\nb"), vec![((0, 0), "a"), ((1, 0), "b")]);
}

#[test]
fn empty_input_yields_no_words() {
    assert_eq!(collect(""), Vec::<((usize, usize), &str)>::new());
    assert_eq!(collect("\n"), Vec::<((usize, usize), &str)>::new());
}

#[test]
fn comment_only_input_yields_no_words() {
    assert_eq!(collect("# x\n// y"), Vec::<((usize, usize), &str)>::new());
}

#[test]
fn word_index_ignores_extra_whitespace() {
    let words = collect("a\t b  c");
    assert_eq!(words, vec![((0, 0), "a"), ((0, 1), "b"), ((0, 2), "c")]);
}

#[test]
fn hash_inside_word_starts_comment() {
    assert_eq!(collect("de#ad"), vec![((0, 0), "de")]);
}

#[test]
fn unicode_whitespace_separates_words() {
    let words = collect("a\u{00A0}b\u{2003}c");
    assert_eq!(words, vec![((0, 0), "a"), ((0, 1), "b"), ((0, 2), "c")]);
}
