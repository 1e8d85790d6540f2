//! The executable scanner: pulls the plain-text fragments out of a string,
//! one per call, with all recognized escape sequences removed.

use crate::model::concat_frags;
use crate::model::fragments_of;
use crate::model::scan_frags;
use crate::model::strip_frags;
use crate::model::Mode;
use crate::model::BEL;
use crate::model::ESC;
use crate::model::ST_CHAR;
use vstd::prelude::*;
use vstd::string::StrSliceExecFns;
use vstd::string::StringExecFns;

verus! {

/// Yields, one call at a time, the next substring of a source text that
/// contains no ANSI escape sequence.
pub struct AnsiStripper<'a> {
    src: &'a str,
    /// The character length of `src`.
    n: usize,
    /// The character position scanning resumes from.
    cursor: usize,
}

/// Strings gain a method that hands them to an [`AnsiStripper`].
pub trait NonEsc<'a> {
    /// The characters of the text to be stripped.
    spec fn text(self) -> Seq<char>;

    /// A scanner over this text, positioned at its start.
    fn non_esc(self) -> (r: AnsiStripper<'a>)
        ensures
            r.wf(),
            r.text() == self.text(),
            r.pos() == 0,
            r.remaining() == strip_frags(self.text()),
    ;
}

impl<'a> NonEsc<'a> for &'a str {
    open spec fn text(self) -> Seq<char> {
        self@
    }

    fn non_esc(self) -> (r: AnsiStripper<'a>) {
        AnsiStripper::new(self)
    }
}

impl<'a> AnsiStripper<'a> {
    /// The characters of the source text.
    pub closed spec fn text(self) -> Seq<char> {
        self.src@
    }

    /// The character position scanning resumes from.
    pub closed spec fn pos(self) -> int {
        self.cursor as int
    }

    /// The scanner's internal consistency: the cached length is the source's
    /// character length and the resume position lies within the text.
    pub closed spec fn wf(self) -> bool {
        &&& self.n == self.src@.len()
        &&& self.cursor <= self.n
    }

    /// The fragments still to be produced: what scanning the rest of the
    /// text from the resume position yields.
    pub open spec fn remaining(self) -> Seq<Seq<char>> {
        fragments_of(self.text(), scan_frags(self.text(), self.pos(), Mode::Normal, self.pos()))
    }

    /// A scanner over `src`, positioned at its start.
    pub fn new(src: &'a str) -> (r: Self)
        ensures
            r.wf(),
            r.text() == src@,
            r.pos() == 0,
            r.remaining() == strip_frags(src@),
    {
        let n = src.unicode_len();
        AnsiStripper { src, n, cursor: 0 }
    }

    /// The next plain-text fragment, or `None` once the rest of the input is
    /// exhausted or consists only of a partial escape sequence.
    ///
    /// A returned fragment is exactly the head of [`Self::remaining`], and the
    /// scanner moves past it; `None` means nothing remained to produce.
    pub fn next(&mut self) -> (r: Option<&'a str>)
        requires
            old(self).wf(),
        ensures
            final(self).wf(),
            final(self).text() == old(self).text(),
            final(self).pos() <= final(self).text().len(),
            match r {
                Some(frag) => {
                    &&& old(self).remaining().len() > 0
                    &&& frag@ == old(self).remaining()[0]
                    &&& frag@.len() > 0
                    &&& final(self).remaining() == old(self).remaining().skip(1)
                    &&& old(self).pos() < final(self).pos()
                },
                None => {
                    &&& old(self).remaining() == Seq::<Seq<char>>::empty()
                    &&& final(self).remaining() == Seq::<Seq<char>>::empty()
                },
            },
    {
        let ghost s = self.src@;
        let ghost c0: int = self.cursor as int;
        let ghost target = scan_frags(s, c0, Mode::Normal, c0);
        let mut i: usize = self.cursor;
        let mut start: usize = self.cursor;
        let mut mode = Mode::Normal;

        while i < self.n
            invariant
                self.wf(),
                *self == *old(self),
                s == self.src@,
                c0 == self.cursor as int,
                target == scan_frags(s, c0, Mode::Normal, c0),
                self.cursor <= start,
                start <= i <= self.n,
                mode is Normal ==> scan_frags(s, i as int, mode, start as int) == target,
                !(mode is Normal) ==> scan_frags(s, i as int, mode, i as int) == target,
            decreases self.n - i,
        {
            let c = self.src.get_char(i);
            match mode {
                Mode::Normal => {
                    if c == ESC {
                        proof {
                            assert(scan_frags(s, i as int, mode, start as int) == (
                            if start < i {
                                seq![(start as int, i as int)] + scan_frags(
                                    s,
                                    i + 1,
                                    Mode::InEsc,
                                    i + 1,
                                )
                            } else {
                                scan_frags(s, i + 1, Mode::InEsc, i + 1)
                            }));
                        }
                        if i > start {
                            let frag = self.src.substring_char(start, i);
                            proof {
                                let rest = scan_frags(s, i + 1, Mode::InEsc, i + 1);
                                crate::model::lemma_fragments_of_cons(
                                    s,
                                    (start as int, i as int),
                                    rest,
                                );
                                assert(scan_frags(s, i as int, Mode::Normal, i as int) == rest);
                                assert(fragments_of(s, target).skip(1) =~= fragments_of(s, rest));
                            }
                            self.cursor = i;
                            return Some(frag);
                        } else {
                            mode = Mode::InEsc;
                        }
                    }
                },
                Mode::InEsc => {
                    if c == '[' {
                        mode = Mode::InCsi;
                    } else if c == ']' {
                        mode = Mode::InOsc;
                    } else if c == 'P' || c == 'X' || c == '^' || c == '_' {
                        mode = Mode::AwaitSt;
                    } else if c == ESC {
                        mode = Mode::InEsc;
                    } else {
                        mode = Mode::Normal;
                        start = i;
                    }
                },
                Mode::InCsi => {
                    let u = c as u32;
                    if u >= 0x40 && u <= 0x7e {
                        mode = Mode::Normal;
                        start = i + 1;
                    }
                },
                Mode::InOsc => {
                    if c == BEL {
                        mode = Mode::Normal;
                        start = i + 1;
                    } else if c == ESC {
                        mode = Mode::OscMaybeSt;
                    }
                },
                Mode::OscMaybeSt => {
                    if c == ST_CHAR || c == BEL {
                        mode = Mode::Normal;
                        start = i + 1;
                    } else if c == ESC {
                        mode = Mode::OscMaybeSt;
                    } else {
                        mode = Mode::InOsc;
                    }
                },
                Mode::AwaitSt => {
                    if c == ESC {
                        mode = Mode::MaybeSt;
                    }
                },
                Mode::MaybeSt => {
                    if c == ST_CHAR {
                        mode = Mode::Normal;
                        start = i + 1;
                    } else {
                        mode = Mode::AwaitSt;
                    }
                },
            }
            i = i + 1;
        }
        let r = match mode {
            Mode::Normal => {
                if i > start {
                    proof {
                        assert(target == seq![(start as int, i as int)]);
                        crate::model::lemma_fragments_of_cons(s, (start as int, i as int), seq![]);
                        assert(fragments_of(s, Seq::<(int, int)>::empty()) =~= Seq::<
                            Seq<char>,
                        >::empty());
                        assert(fragments_of(s, target).skip(1) =~= Seq::<Seq<char>>::empty());
                        assert(seq![(start as int, i as int)] + Seq::<(int, int)>::empty() =~= seq![
                            (start as int, i as int),
                        ]);
                    }
                    Some(self.src.substring_char(start, i))
                } else {
                    None
                }
            },
            _ => None,
        };
        self.cursor = self.n;
        proof {
            assert(fragments_of(s, scan_frags(s, self.n as int, Mode::Normal, self.n as int)) =~= Seq::<
                Seq<char>,
            >::empty());
            if r is None {
                assert(fragments_of(s, target) =~= Seq::<Seq<char>>::empty());
            }
        }
        r
    }
}

/// The whole text with every recognized escape sequence removed: the
/// concatenation, in order, of all the fragments the scanner yields.
pub fn strip(src: &str) -> (out: String)
    ensures
        out@ == concat_frags(strip_frags(src@)),
{
    let mut scanner = AnsiStripper::new(src);
    let mut out = String::new();
    proof {
        assert(out@ + concat_frags(scanner.remaining()) =~= concat_frags(strip_frags(src@)));
    }
    loop
        invariant
            scanner.wf(),
            scanner.pos() <= scanner.text().len(),
            scanner.text() == src@,
            out@ + concat_frags(scanner.remaining()) == concat_frags(strip_frags(src@)),
        decreases scanner.text().len() - scanner.pos(),
    {
        let ghost before = scanner.remaining();
        match scanner.next() {
            Some(frag) => {
                proof {
                    assert(concat_frags(before) == before[0] + concat_frags(before.skip(1)));
                }
                out.append(frag);
            },
            None => {
                proof {
                    assert(concat_frags(scanner.remaining()) == Seq::<char>::empty());
                    assert(out@ + Seq::<char>::empty() =~= out@);
                }
                return out;
            },
        }
    }
}

} // verus!
