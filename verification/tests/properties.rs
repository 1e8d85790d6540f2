use ansi_strip::strip;
use ansi_strip::AnsiStripper;
use ansi_strip::NonEsc;

fn fragments(sample: &str) -> Vec<&str> {
    let mut scanner = AnsiStripper::new(sample);
    let mut actual: Vec<&str> = Vec::new();
    while let Some(frag) = scanner.next() {
        actual.push(frag);
    }
    actual
}

// A text without the escape character passes through as one fragment.
#[test]
fn plain_text_is_one_fragment() {
    assert_eq!(fragments("no escapes here, just text"), vec![
        "no escapes here, just text"
    ]);
}

// Concatenating the fragments gives the input minus the escape sequences.
#[test]
fn concatenation_drops_only_sequences() {
    assert_eq!(strip("Hello, \x1b[0mworld\x1b[123m!"), "Hello, world!");
    assert_eq!(strip(""), "");
    assert_eq!(strip("plain"), "plain");
    assert_eq!(strip("\x1b]2;title\x07body"), "body");
}

// No fragment is empty and none contains the escape character.
#[test]
fn fragments_nonempty_and_esc_free() {
    let sample = "a\x1b[mb\x1b]x\x07c\x1bPq\x1b\\d";
    for frag in fragments(sample) {
        assert!(!frag.is_empty());
        assert!(!frag.contains('\x1b'));
    }
}

// Unterminated trailing sequences of every kind are discarded.
#[test]
fn unterminated_tails_discarded() {
    assert_eq!(fragments("x\x1b"), vec!["x"]);
    assert_eq!(fragments("x\x1b["), vec!["x"]);
    assert_eq!(fragments("x\x1b]"), vec!["x"]);
    assert_eq!(fragments("x\x1bP"), vec!["x"]);
    assert_eq!(fragments("x\x1b]title never ends"), vec!["x"]);
    assert_eq!(fragments("x\x1bPdata without terminator"), vec!["x"]);
}

// A doubled escape character opens a single sequence.
#[test]
fn double_esc_collapses() {
    assert_eq!(fragments("a\x1b\x1b[mb"), vec!["a", "b"]);
    assert_eq!(strip("a\x1b\x1b[mb"), strip("a\x1b[mb"));
}

// DCS, SOS, PM and APC bodies end only at the String Terminator.
#[test]
fn st_only_sequences() {
    assert_eq!(fragments("a\x1bPpayload\x1b\\b"), vec!["a", "b"]);
    assert_eq!(fragments("\x1bXsos body\x1b\\t"), vec!["t"]);
    assert_eq!(fragments("\x1b^pm body\x1b\\q"), vec!["q"]);
    assert_eq!(fragments("\x1b_apc body\x1b\\z"), vec!["z"]);
    // A BEL does not end them.
    assert_eq!(fragments("\x1bPstill inside\x07going\x1b\\w"), vec!["w"]);
}

// An unrecognized introducer discards the escape character alone.
#[test]
fn unsupported_introducer_keeps_character() {
    assert_eq!(fragments("\x1bAx"), vec!["Ax"]);
    assert_eq!(fragments("y\x1b(z"), vec!["y", "(z"]);
}

// An escape character inside a CSI body is not a final byte.
#[test]
fn esc_inside_csi_body() {
    assert_eq!(fragments("\x1b[1\x1b2m x"), vec![" x"]);
}

// An escape character inside an OSC that is not part of a terminator
// returns the scan to the OSC body.
#[test]
fn osc_errant_esc_other_char() {
    assert_eq!(fragments("n\x1b]\x1bq\x07m"), vec!["n", "m"]);
}

// Character positions, not byte positions, delimit the fragments.
#[test]
fn multibyte_characters() {
    assert_eq!(fragments("h\u{e9}llo\x1b[0m\u{2192}\u{f6}k"), vec![
        "h\u{e9}llo",
        "\u{2192}\u{f6}k"
    ]);
    assert_eq!(strip("\u{1f600}\x1b[m\u{1f601}"), "\u{1f600}\u{1f601}");
}

// The scanner stays exhausted once it has answered `None`.
#[test]
fn exhausted_scanner_stays_exhausted() {
    let mut scanner = AnsiStripper::new("a\x1b[m");
    assert_eq!(scanner.next(), Some("a"));
    assert_eq!(scanner.next(), None);
    assert_eq!(scanner.next(), None);
}

// The trait entry point and the constructor agree.
#[test]
fn trait_matches_constructor() {
    let mut by_trait = "o\x1b[mn".non_esc();
    let mut by_new = AnsiStripper::new("o\x1b[mn");
    assert_eq!(by_trait.next(), by_new.next());
    assert_eq!(by_trait.next(), by_new.next());
    assert_eq!(by_trait.next(), by_new.next());
}
