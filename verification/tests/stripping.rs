use ansi_strip::NonEsc;

fn standard_test(sample: &str, expected: Vec<&str>) {
    let mut scanner = sample.non_esc();
    let mut actual: Vec<&str> = Vec::new();
    while let Some(frag) = scanner.next() {
        actual.push(frag);
    }
    assert_eq!(expected, actual);
}

#[test]
fn empty() {
    standard_test("", vec![])
}

#[test]
fn single_good() {
    standard_test("a", vec!["a"])
}

#[test]
fn plain_string() {
    standard_test("Hello, world!", vec!["Hello, world!"])
}

#[test]
fn formatted_word() {
    standard_test(
        "Hello, \x1b[0mworld\x1b[123m!",
        vec!["Hello, ", "world", "!"],
    )
}

#[test]
fn single_esc() {
    standard_test("\x1b", vec![])
}

#[test]
fn multi_esc() {
    standard_test("\x1b\x1b", vec![])
}

#[test]
fn single_csi() {
    standard_test("\x1b[m", vec![])
}

#[test]
fn single_csi_long() {
    standard_test("\x1b[1;2;3m", vec![])
}

#[test]
fn front_loose_esc_single_csi() {
    standard_test("\x1b\x1b[m", vec![])
}

#[test]
fn back_loose_esc_single_csi() {
    standard_test("\x1b[m\x1b", vec![])
}

#[test]
fn csi_then_char() {
    standard_test("\x1b[mn", vec!["n"])
}

#[test]
fn csi_long_then_char() {
    standard_test("\x1b[1;2;3mn", vec!["n"])
}

#[test]
fn csi_char_csi() {
    standard_test("\x1b[mn\x1b[m", vec!["n"])
}

#[test]
fn char_csi_char() {
    standard_test("o\x1b[mn", vec!["o", "n"])
}

#[test]
fn char_then_csi() {
    standard_test("n\x1b[m", vec!["n"])
}

#[test]
fn partial_csi() {
    standard_test("\x1b[", vec![])
}

#[test]
fn char_then_partial_csi() {
    standard_test("n\x1b[", vec!["n"])
}

#[test]
fn osc_bel() {
    standard_test("n\x1b]\x07m", vec!["n", "m"])
}

#[test]
fn osc_st() {
    standard_test("n\x1b]\x1b\x1b\\m", vec!["n", "m"])
}

#[test]
fn osc_errant_esc_st() {
    standard_test("n\x1b]\x1b\x1b\\m", vec!["n", "m"])
}

#[test]
fn osc_errant_esc_bel() {
    standard_test("n\x1b]\x1b\x07m", vec!["n", "m"])
}
