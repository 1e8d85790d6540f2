//! Mathematical model of the escape-sequence scanner.
//!
//! The model is a finite-state machine over a sequence of characters.  A
//! single pass classifies every character as either part of a plain-text run
//! or part of an escape sequence; only the plain-text runs are kept.  The
//! functions here compute, for any input, the list of half-open index ranges
//! of the kept runs and the corresponding character sequences.

use vstd::prelude::*;

verus! {

/// The escape control character that introduces every recognized sequence.
pub const ESC: char = '\x1b';

/// Bell, accepted as a terminator for OSC sequences.
pub const BEL: char = '\x07';

/// The backslash that, right after an escape character, forms the two-character
/// String Terminator ending OSC, DCS, SOS, PM and APC sequences.
pub const ST_CHAR: char = '\\';

/// The scanner's mode while walking the input.
#[derive(Clone, Copy, Debug)]
pub enum Mode {
    /// Accumulating a plain-text run.
    Normal,
    /// Just consumed the escape character that may introduce a sequence.
    InEsc,
    /// Inside a control sequence (CSI); ends at the first final byte.
    InCsi,
    /// Inside an operating-system command (OSC); ends at BEL or the String Terminator.
    InOsc,
    /// Saw an escape character inside an OSC; the String Terminator may follow.
    OscMaybeSt,
    /// Inside a DCS, SOS, PM or APC sequence; only the String Terminator ends it.
    AwaitSt,
    /// Saw an escape character while awaiting a String Terminator.
    MaybeSt,
}

/// A CSI sequence ends at its first byte in the range `@` through `~`.
pub open spec fn is_csi_final(c: char) -> bool {
    '@' <= c && c <= '~'
}

/// The character after `P`, `X`, `^` or `_` opens a sequence that only the
/// String Terminator ends.
pub open spec fn is_st_only_intro(c: char) -> bool {
    c == 'P' || c == 'X' || c == '^' || c == '_'
}

/// The mode after reading one character `c` in mode `mode`.
pub open spec fn step_mode(mode: Mode, c: char) -> Mode {
    match mode {
        Mode::Normal => if c == ESC {
            Mode::InEsc
        } else {
            Mode::Normal
        },
        Mode::InEsc => if c == '[' {
            Mode::InCsi
        } else if c == ']' {
            Mode::InOsc
        } else if is_st_only_intro(c) {
            Mode::AwaitSt
        } else if c == ESC {
            Mode::InEsc
        } else {
            Mode::Normal
        },
        Mode::InCsi => if is_csi_final(c) {
            Mode::Normal
        } else {
            Mode::InCsi
        },
        Mode::InOsc => if c == BEL {
            Mode::Normal
        } else if c == ESC {
            Mode::OscMaybeSt
        } else {
            Mode::InOsc
        },
        Mode::OscMaybeSt => if c == ST_CHAR || c == BEL {
            Mode::Normal
        } else if c == ESC {
            Mode::OscMaybeSt
        } else {
            Mode::InOsc
        },
        Mode::AwaitSt => if c == ESC {
            Mode::MaybeSt
        } else {
            Mode::AwaitSt
        },
        Mode::MaybeSt => if c == ST_CHAR {
            Mode::Normal
        } else {
            Mode::AwaitSt
        },
    }
}

/// Where the current plain-text run starts after reading character `c` at
/// position `i` in mode `mode`, given that it started at `start` before.
///
/// In every mode other than `Normal` the run is empty, kept as `start == i`;
/// the one place a run opens on the character just read is an unrecognized
/// introducer, which is handed back to plain text.
pub open spec fn next_start(mode: Mode, c: char, i: int, start: int) -> int {
    match mode {
        Mode::Normal => if c == ESC {
            i + 1
        } else {
            start
        },
        Mode::InEsc => if c == '[' || c == ']' || is_st_only_intro(c) || c == ESC {
            i + 1
        } else {
            i
        },
        _ => i + 1,
    }
}

/// The ranges of plain text kept from position `i` on, scanning in mode
/// `mode` with the current plain-text run starting at `start`.
///
/// A run is emitted when the escape character interrupts it or when the input
/// ends while in `Normal` mode; a partial escape sequence at the end of the
/// input is discarded.
pub open spec fn scan_frags(s: Seq<char>, i: int, mode: Mode, start: int) -> Seq<(int, int)>
    decreases s.len() - i,
{
    if i >= s.len() {
        if mode is Normal && start < i {
            seq![(start, i)]
        } else {
            seq![]
        }
    } else {
        let c = s[i];
        let rest = scan_frags(s, i + 1, step_mode(mode, c), next_start(mode, c, i, start));
        if mode is Normal && c == ESC && start < i {
            seq![(start, i)] + rest
        } else {
            rest
        }
    }
}

/// The mode the machine is in once the input is exhausted, scanning from
/// position `i` in mode `mode`.
pub open spec fn scan_mode(s: Seq<char>, i: int, mode: Mode) -> Mode
    decreases s.len() - i,
{
    if i >= s.len() {
        mode
    } else {
        scan_mode(s, i + 1, step_mode(mode, s[i]))
    }
}

/// The ranges of plain text kept from a whole input.
pub open spec fn strip_ranges(s: Seq<char>) -> Seq<(int, int)> {
    scan_frags(s, 0, Mode::Normal, 0)
}

/// The character runs named by a list of ranges into `s`.
pub open spec fn fragments_of(s: Seq<char>, ranges: Seq<(int, int)>) -> Seq<Seq<char>> {
    ranges.map_values(|p: (int, int)| s.subrange(p.0, p.1))
}

/// The plain-text fragments kept from a whole input, in order.
pub open spec fn strip_frags(s: Seq<char>) -> Seq<Seq<char>> {
    fragments_of(s, strip_ranges(s))
}

/// The concatenation of a list of fragments.
pub open spec fn concat_frags(fs: Seq<Seq<char>>) -> Seq<char>
    decreases fs.len(),
{
    if fs.len() == 0 {
        Seq::empty()
    } else {
        fs[0] + concat_frags(fs.skip(1))
    }
}

/// Naming the runs of a range list one by one: the first range names the
/// first fragment, the rest follow.
pub proof fn lemma_fragments_of_cons(s: Seq<char>, r0: (int, int), rest: Seq<(int, int)>)
    ensures
        fragments_of(s, seq![r0] + rest) == seq![s.subrange(r0.0, r0.1)] + fragments_of(s, rest),
{
    assert(fragments_of(s, seq![r0] + rest) =~= seq![s.subrange(r0.0, r0.1)] + fragments_of(
        s,
        rest,
    ));
}

} // verus!
