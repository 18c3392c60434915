use print_positions::print_position::new_printPositionIndices;

fn esc_sgr_reset0() -> &'static str {
    "\x1b[0m"
}
fn esc_sgr_reset() -> &'static str {
    "\x1b[m"
}
fn esc_sgr_color() -> &'static str {
    "\x1b[1;3m"
}

fn run_test(input: &[&str], expected: &[(usize, &str)]) {
    let test_input = input.join("");
    let mut observed: Vec<(usize, &str)> = vec![];

    let mut it = new_printPositionIndices(&test_input);

    while let Some((offset, substring)) = it.next() {
        if observed.len() > 0 {
            let last_off = observed.last().expect("length checked").0;
            assert!(
                offset > last_off,
                "new offset({offset}) not greater than last seen ({last_off})"
            );
        }
        assert!(substring.len() > 0, "empty substring returned");
        observed.push((offset, substring));
    }

    assert_eq!(expected, observed);
}

#[test]
fn empty_string() {
    run_test(&vec![], &vec![])
}

#[test]
fn simple1() {
    let test_input = ["abc", esc_sgr_color(), "def"];
    let e1 = [esc_sgr_color(), "d"].join("");
    let expect = vec![
        (0, "a"),
        (1, "b"),
        (2, "c"),
        (3, e1.as_str()),
        (10, "e"),
        (11, "f"),
    ];

    run_test(&test_input, &expect)
}

#[test]
fn trailing_reset() {
    let test_input = ["ef", esc_sgr_reset0()];
    let e2 = ["f", esc_sgr_reset0()].join("");
    let expect = vec![(0, "e"), (1, e2.as_str())];

    run_test(&test_input, &expect)
}

#[test]
fn embedded_csi_and_trailing_reset() {
    let test_input = ["abc", esc_sgr_color(), "def", esc_sgr_reset()];
    let e1 = [esc_sgr_color(), "d"].join("");
    let e2 = ["f", esc_sgr_reset()].join("");
    let expect = vec![
        (0, "a"),
        (1, "b"),
        (2, "c"),
        (3, e1.as_str()),
        (10, "e"),
        (11, e2.as_str()),
    ];

    run_test(&test_input, &expect)
}

#[test]
fn double_trailing_reset() {
    let test_input = [
        "abc",
        esc_sgr_color(),
        "def",
        esc_sgr_reset(),
        esc_sgr_reset0(),
        "g",
    ];
    let e1 = [esc_sgr_color(), "d"].join("");
    let e2 = ["f", esc_sgr_reset(), esc_sgr_reset0()].join("");
    let expect = vec![
        (0, "a"),
        (1, "b"),
        (2, "c"),
        (3, e1.as_str()),
        (10, "e"),
        (11, e2.as_str()),
        (19, "g"),
    ];

    run_test(&test_input, &expect)
}

// fuzz testing found a problem with this input: [45, 27, 91, 109, 221, 133]
#[test]
fn error_from_fuzz_test() {
    let input = ["\u{d1}\u{97}\x1b[m\u{d2}\u{83}"];
    let expected = vec![
        (0, "\u{d1}"),
        (2, "\u{97}\x1b[m"),
        (7, "\u{d2}"),
        (9, "\u{83}"),
    ];

    run_test(&input, &expected)
}

#[test]
fn new_line_tests() {
    // unicode standard says \r\n is a single grapheme.  But separately? or \n\r?
    let input = ["\r\n", "\na\rb", "\n\r", "\r\n"];
    let expected = vec![
        (0, "\r\n"),
        (2, "\n"),
        (3, "a"),
        (4, "\r"),
        (5, "b"),
        (6, "\n"),
        (7, "\r"),
        (8, "\r\n"),
    ];

    run_test(&input, &expected)
}

// testing the whole zoo of Unicode is somebody else's problem
// but we do at least test some multi-byte unicode and some grapheme clusters

#[test]
fn unicode_multibyte_mixed_tests() {
    // samples from UnicodeSegmentation "a̐éö̲"; // 3 bytes each

    let input = ["a", esc_sgr_color(), "a̐é", esc_sgr_reset(), esc_sgr_reset()];
    let e1 = [esc_sgr_color(), "a̐"].join("");
    let e2 = ["é", esc_sgr_reset(), esc_sgr_reset()].join("");
    let expected = vec![(0, "a"), (1, e1.as_str()), (10, e2.as_str())];

    run_test(&input, &expected)
}
