use print_positions::{print_position_indices, print_positions};
use unicode_segmentation::UnicodeSegmentation;

fn ranges_of(s: &str) -> Vec<(usize, usize)> {
    let mut it = print_position_indices(s);
    let mut out: Vec<(usize, usize)> = vec![];
    while let Some(pair) = it.next() {
        out.push(pair);
    }
    out
}

fn slices_of(s: &str) -> Vec<&str> {
    let mut it = print_positions(s);
    let mut out: Vec<&str> = vec![];
    while let Some(slice) = it.next() {
        out.push(slice);
    }
    out
}

fn samples() -> [&'static str; 8] {
    [
        "",
        "abc",
        "abc\x1b[37;46mdef\x1b[0mg",
        "ef\x1b[0m",
        "\x1b[1;3mab",
        "a̐é\x1b[m\x1b[m",
        "abc\x1bz",
        "\u{1b}]0;title\u{7}x",
    ]
}

// Losslessness: concatenating the slices of all emitted positions, in
// order, reproduces the input exactly.
#[test]
fn losslessness_concat_reproduces_input() {
    for s in samples() {
        assert_eq!(slices_of(s).join(""), s);
    }
}

// Coverage and ordering: ranges are strictly increasing, contiguous, start
// at 0 and end at the byte length of the input.
#[test]
fn coverage_and_ordering() {
    for s in samples() {
        let ranges = ranges_of(s);
        if s.is_empty() {
            assert!(ranges.is_empty());
            continue;
        }
        assert_eq!(ranges.first().unwrap().0, 0);
        assert_eq!(ranges.last().unwrap().1, s.len());
        for w in ranges.windows(2) {
            assert_eq!(w[0].1, w[1].0);
            assert!(w[0].0 < w[1].0);
        }
    }
}

// Non-emptiness: no emitted range is empty.
#[test]
fn no_empty_ranges() {
    for s in samples() {
        for (start, end) in ranges_of(s) {
            assert!(start < end);
        }
    }
}

// Idempotent re-scan: scanning the same string twice yields identical
// range sequences.
#[test]
fn rescan_is_identical() {
    for s in samples() {
        assert_eq!(ranges_of(s), ranges_of(s));
        assert_eq!(slices_of(s), slices_of(s));
    }
}

// Grapheme fidelity: without escape sequences, the positions are exactly
// the grapheme clusters that the segmentation service reports.
#[test]
fn grapheme_fidelity_without_escapes() {
    for s in ["", "abc", "a̐éö̲", "\r\n", "x\u{1f468}\u{200d}\u{1f466}y"] {
        let clusters: Vec<(usize, usize)> = UnicodeSegmentation::grapheme_indices(s, true)
            .map(|(start, g)| (start, start + g.len()))
            .collect();
        assert_eq!(ranges_of(s), clusters);
        let slices: Vec<&str> = UnicodeSegmentation::graphemes(s, true).collect();
        assert_eq!(slices_of(s), slices);
    }
}

// Prefix attachment: a style-setting sequence attaches to the cluster that
// follows it, not the one before.
#[test]
fn prefix_attachment() {
    assert_eq!(slices_of("\x1b[1;3mab"), vec!["\x1b[1;3ma", "b"]);
}

// Suffix attachment: a reset sequence attaches to the cluster before it.
#[test]
fn suffix_attachment() {
    assert_eq!(slices_of("ef\x1b[0m"), vec!["e", "f\x1b[0m"]);
}

// Multi-reset absorption: consecutive reset sequences all attach to the
// same preceding position; the next visible cluster starts fresh.
#[test]
fn multi_reset_absorption() {
    assert_eq!(slices_of("ef\x1b[m\x1b[0mg"), vec!["e", "f\x1b[m\x1b[0m", "g"]);
    // all three literal reset forms in a row
    assert_eq!(slices_of("f\x1bc\x1b[m\x1b[0mg"), vec!["f\x1bc\x1b[m\x1b[0m", "g"]);
}

// Malformed-escape resilience: ESC followed by a byte that introduces
// nothing is swallowed without a panic and without losing a byte. The pair
// opens a position of its own: the escape machinery only starts a position,
// it never attaches backwards to an already closed one.
#[test]
fn malformed_escape_resilience() {
    let s = "abc\x1bz";
    let slices = slices_of(s);
    assert_eq!(slices.join(""), s);
    assert_eq!(slices, vec!["a", "b", "c", "\x1bz"]);
    // truncated escape at end of input
    let s = "a\x1b";
    assert_eq!(slices_of(s), vec!["a", "\x1b"]);
    // malformed CSI byte
    let s = "a\x1b[\u{7}b";
    assert_eq!(slices_of(s).join(""), s);
}

// Multi-byte/combining correctness: a combining mark right after a reset
// sequence's final byte merges with it into one cluster, and the whole
// cluster is absorbed into the preceding position.
#[test]
fn combining_mark_after_reset() {
    assert_eq!(slices_of("ef\x1b[0m\u{301}x"), vec!["e", "f\x1b[0m\u{301}", "x"]);
}

// The crate-level documentation example: color, a two-char grapheme and a
// reset render as a single print position.
#[test]
fn styled_grapheme_is_one_position() {
    let content = ["\u{1b}[30;42m", "\u{0065}", "\u{0308}", "\u{1b}[0m"].join("");
    assert_eq!(content.len(), 15);
    assert_eq!(ranges_of(&content), vec![(0, 15)]);
}

#[test]
fn indices_of_family_emoji() {
    let content = "\u{1f468}\u{200d}\u{1f467}\u{200d}\u{1f466}abc";
    assert_eq!(
        ranges_of(content),
        vec![(0, 18), (18, 19), (19, 20), (20, 21)]
    );
}

#[test]
fn slices_with_embedded_escapes() {
    let content = "abc\u{1b}[37;46mdef\u{1b}[0mg";
    assert_eq!(
        slices_of(content),
        vec!["a", "b", "c", "\u{1b}[37;46md", "e", "f\u{1b}[0m", "g"]
    );
}

// An OSC sequence accumulates up to its BEL or ESC \ terminator and
// attaches to the following cluster.
#[test]
fn osc_sequences() {
    assert_eq!(slices_of("\u{1b}]0;title\u{7}x"), vec!["\u{1b}]0;title\u{7}x"]);
    assert_eq!(slices_of("\u{1b}]0;t\u{1b}\\ab"), vec!["\u{1b}]0;t\u{1b}\\a", "b"]);
}

#[test]
fn as_str_tracks_the_cursor() {
    let mut iter = print_positions("abc");
    assert_eq!(iter.as_str(), "abc");
    iter.next();
    assert_eq!(iter.as_str(), "bc");
    iter.next();
    iter.next();
    assert_eq!(iter.as_str(), "");

    let mut iter = print_position_indices("abc");
    assert_eq!(iter.as_str(), "abc");
    iter.next();
    assert_eq!(iter.as_str(), "bc");
    iter.next();
    iter.next();
    assert_eq!(iter.as_str(), "");
}

#[test]
fn cluster_ranges_match_segmentation_service() {
    let s = "a̐é\r\nx\x1b";
    let expect: Vec<(usize, usize)> = UnicodeSegmentation::grapheme_indices(s, true)
        .map(|(start, g)| (start, start + g.len()))
        .collect();
    assert_eq!(print_positions::grapheme_cluster_ranges(s), expect);
}

#[test]
fn exhausted_scanner_keeps_returning_none() {
    let mut it = print_position_indices("a");
    assert_eq!(it.next(), Some((0, 1)));
    assert_eq!(it.next(), None);
    assert_eq!(it.next(), None);
    let mut it = print_positions("");
    assert_eq!(it.next(), None);
}
