//! Properties of the scanner's model, stated and proved once for all inputs.

use crate::model::fragments_of;
use crate::model::is_st_only_intro;
use crate::model::next_start;
use crate::model::scan_frags;
use crate::model::scan_mode;
use crate::model::step_mode;
use crate::model::strip_frags;
use crate::model::strip_ranges;
use crate::model::Mode;
use crate::model::ESC;
use vstd::prelude::*;

verus! {

/// Every range the scan keeps lies at or after the run start, is non-empty,
/// stays within the input, contains no escape character, and the ranges come
/// in strictly increasing order with a gap between any two of them.
proof fn lemma_scan_ranges_props(s: Seq<char>, i: int, mode: Mode, start: int)
    requires
        0 <= start <= i <= s.len(),
        mode is Normal ==> forall|j: int| start <= j < i ==> s[j] != ESC,
        !(mode is Normal) ==> start == i,
    ensures
        ({
            let r = scan_frags(s, i, mode, start);
            &&& forall|k: int| 0 <= k < r.len() ==> start <= #[trigger] r[k].0 < r[k].1 <= s.len()
            &&& forall|k: int, l: int|
                0 <= k < l < r.len() ==> #[trigger] r[k].1 < #[trigger] r[l].0
            &&& forall|k: int, j: int|
                #![trigger r[k], s[j]]
                0 <= k < r.len() && r[k].0 <= j < r[k].1 ==> s[j] != ESC
        }),
    decreases s.len() - i,
{
    let r = scan_frags(s, i, mode, start);
    if i >= s.len() {
        // At most the final plain-text run is kept, and it is escape-free.
    } else {
        let c = s[i];
        let mode2 = step_mode(mode, c);
        let start2 = next_start(mode, c, i, start);
        let rest = scan_frags(s, i + 1, mode2, start2);
        lemma_scan_ranges_props(s, i + 1, mode2, start2);
        if mode is Normal && c == ESC && start < i {
            assert(r == seq![(start, i)] + rest);
            assert forall|k: int| 0 <= k < r.len() implies start <= #[trigger] r[k].0 < r[k].1
                <= s.len() by {
                if k > 0 {
                    assert(r[k] == rest[k - 1]);
                }
            }
            assert forall|k: int, l: int| 0 <= k < l < r.len() implies #[trigger] r[k].1
                < #[trigger] r[l].0 by {
                assert(r[l] == rest[l - 1]);
                if k > 0 {
                    assert(r[k] == rest[k - 1]);
                }
            }
            assert forall|k: int, j: int|
                #![trigger r[k], s[j]]
                0 <= k < r.len() && r[k].0 <= j < r[k].1 implies s[j] != ESC by {
                if k > 0 {
                    assert(r[k] == rest[k - 1]);
                }
            }
        } else {
            assert(r == rest);
        }
    }
}

/// The fragments kept from any input are, in order, the characters of a
/// strictly increasing list of non-empty, non-overlapping ranges of the
/// input, separated by the removed escape-sequence spans: concatenated, they
/// give back the input with those spans taken out, no character reordered or
/// repeated.
pub proof fn lemma_fragments_partition(s: Seq<char>)
    ensures
        strip_frags(s).len() == strip_ranges(s).len(),
        forall|k: int|
            0 <= k < strip_ranges(s).len() ==> 0 <= #[trigger] strip_ranges(s)[k].0
                < strip_ranges(s)[k].1 <= s.len(),
        forall|k: int, l: int|
            0 <= k < l < strip_ranges(s).len() ==> #[trigger] strip_ranges(s)[k].1
                < #[trigger] strip_ranges(s)[l].0,
        forall|k: int|
            0 <= k < strip_ranges(s).len() ==> #[trigger] strip_frags(s)[k] == s.subrange(
                strip_ranges(s)[k].0,
                strip_ranges(s)[k].1,
            ),
{
    lemma_scan_ranges_props(s, 0, Mode::Normal, 0);
}

/// No kept fragment is empty, and none contains the escape character.
pub proof fn lemma_fragments_nonempty_esc_free(s: Seq<char>)
    ensures
        forall|k: int| 0 <= k < strip_frags(s).len() ==> #[trigger] strip_frags(s)[k].len() > 0,
        forall|k: int, j: int|
            0 <= k < strip_frags(s).len() && 0 <= j < strip_frags(s)[k].len()
                ==> #[trigger] strip_frags(s)[k][j] != ESC,
{
    lemma_scan_ranges_props(s, 0, Mode::Normal, 0);
    let r = strip_ranges(s);
    assert forall|k: int, j: int|
        0 <= k < strip_frags(s).len() && 0 <= j < strip_frags(s)[k].len()
        implies #[trigger] strip_frags(s)[k][j] != ESC by {
        assert(strip_frags(s)[k] == s.subrange(r[k].0, r[k].1));
        assert(strip_frags(s)[k][j] == s[r[k].0 + j]);
    }
}

/// Scanning escape-free text in `Normal` mode keeps everything from the run
/// start to the end of the input as one fragment.
proof fn lemma_scan_plain(s: Seq<char>, i: int, start: int)
    requires
        0 <= start <= i <= s.len(),
        forall|j: int| i <= j < s.len() ==> s[j] != ESC,
    ensures
        scan_frags(s, i, Mode::Normal, start) == if start < s.len() {
            seq![(start, s.len() as int)]
        } else {
            Seq::<(int, int)>::empty()
        },
    decreases s.len() - i,
{
    if i < s.len() {
        lemma_scan_plain(s, i + 1, start);
    }
}

/// A text without the escape character passes through whole: it is kept as a
/// single fragment, or as no fragment at all when it is empty.
pub proof fn lemma_plain_input(s: Seq<char>)
    requires
        forall|j: int| 0 <= j < s.len() ==> s[j] != ESC,
    ensures
        s.len() == 0 ==> strip_frags(s) == Seq::<Seq<char>>::empty(),
        s.len() > 0 ==> strip_frags(s) == seq![s],
{
    lemma_scan_plain(s, 0, 0);
    if s.len() == 0 {
        assert(strip_frags(s) =~= Seq::<Seq<char>>::empty());
    } else {
        assert(s.subrange(0, s.len() as int) =~= s);
        assert(strip_frags(s) =~= seq![s]);
    }
}

/// Reading the escape character never lands the machine back in `Normal`
/// mode: every mode moves to an escape-related one.
proof fn lemma_step_on_esc_not_normal(mode: Mode)
    ensures
        !(step_mode(mode, ESC) is Normal),
{
}

/// A trailing escape character, alone or followed by a single sequence
/// introducer, adds nothing to the scan's output, wherever it is appended:
/// the partial sequence is discarded.
proof fn lemma_scan_tail_inert(s: Seq<char>, tail: Seq<char>, i: int, mode: Mode, start: int)
    requires
        0 <= start <= i <= s.len(),
        !(mode is Normal) ==> start == i,
        tail.len() == 1 || tail.len() == 2,
        tail[0] == ESC,
        tail.len() == 2 ==> tail[1] == '[' || tail[1] == ']' || is_st_only_intro(tail[1]),
    ensures
        scan_frags(s + tail, i, mode, start) == scan_frags(s, i, mode, start),
    decreases s.len() - i,
{
    let u = s + tail;
    let fin = s.len() as int;
    if i < fin {
        assert(u[i] == s[i]);
        let c = s[i];
        lemma_scan_tail_inert(s, tail, i + 1, step_mode(mode, c), next_start(mode, c, i, start));
    } else {
        assert(u[fin] == ESC);
        let m2 = step_mode(mode, ESC);
        lemma_step_on_esc_not_normal(mode);
        if tail.len() == 1 {
            assert(scan_frags(u, fin + 1, m2, fin + 1) == Seq::<(int, int)>::empty());
        } else {
            let x = tail[1];
            assert(u[fin + 1] == x);
            let m3 = step_mode(m2, x);
            let st3 = next_start(m2, x, fin + 1, fin + 1);
            assert(st3 == fin + 2);
            assert(scan_frags(u, fin + 2, m3, st3) == Seq::<(int, int)>::empty());
            assert(scan_frags(u, fin + 1, m2, fin + 1) == Seq::<(int, int)>::empty());
        }
        if mode is Normal && start < fin {
            assert(scan_frags(u, i, mode, start) =~= seq![(start, fin)]);
        }
    }
}

/// A lone trailing escape character, or a trailing escape character followed
/// only by a sequence introducer (`[`, `]`, `P`, `X`, `^` or `_`), yields no
/// fragment: the truncated sequence is silently dropped, whatever came
/// before it.
pub proof fn lemma_unterminated_tail_discarded(s: Seq<char>, tail: Seq<char>)
    requires
        tail.len() == 1 || tail.len() == 2,
        tail[0] == ESC,
        tail.len() == 2 ==> tail[1] == '[' || tail[1] == ']' || is_st_only_intro(tail[1]),
    ensures
        strip_frags(s + tail) == strip_frags(s),
{
    lemma_scan_tail_inert(s, tail, 0, Mode::Normal, 0);
    lemma_scan_ranges_props(s, 0, Mode::Normal, 0);
    let r = strip_ranges(s);
    assert(strip_ranges(s + tail) == r);
    assert forall|k: int| 0 <= k < r.len() implies (s + tail).subrange(
        #[trigger] r[k].0,
        r[k].1,
    ) == s.subrange(r[k].0, r[k].1) by {
        assert((s + tail).subrange(r[k].0, r[k].1) =~= s.subrange(r[k].0, r[k].1));
    }
    assert(strip_frags(s + tail) =~= strip_frags(s));
}

/// Scans of two inputs that agree from their respective positions on, in the
/// same mode and with equal pending runs, keep the same fragments.  The
/// positions may differ, so the kept ranges may be shifted; the characters
/// they name are the same.
proof fn lemma_scan_shift(u: Seq<char>, v: Seq<char>, i: int, j: int, mode: Mode, su: int, sv: int)
    requires
        0 <= su <= i <= u.len(),
        0 <= sv <= j <= v.len(),
        !(mode is Normal) ==> su == i && sv == j,
        u.subrange(i, u.len() as int) == v.subrange(j, v.len() as int),
        u.subrange(su, i) == v.subrange(sv, j),
    ensures
        fragments_of(u, scan_frags(u, i, mode, su)) == fragments_of(v, scan_frags(v, j, mode, sv)),
    decreases u.len() - i,
{
    let tu = u.subrange(i, u.len() as int);
    let tv = v.subrange(j, v.len() as int);
    assert(u.len() - i == v.len() - j) by {
        assert(tu.len() == tv.len());
    }
    assert(u.subrange(su, i).len() == i - su);
    assert(v.subrange(sv, j).len() == j - sv);
    assert(i - su == j - sv);
    if i >= u.len() {
        if mode is Normal && su < i {
            assert(fragments_of(u, seq![(su, i)]) =~= seq![u.subrange(su, i)]);
            assert(fragments_of(v, seq![(sv, j)]) =~= seq![v.subrange(sv, j)]);
        } else {
            assert(fragments_of(u, scan_frags(u, i, mode, su)) =~= Seq::<Seq<char>>::empty());
            assert(fragments_of(v, scan_frags(v, j, mode, sv)) =~= Seq::<Seq<char>>::empty());
        }
    } else {
        let c = u[i];
        assert(v[j] == c) by {
            assert(tu[0] == tv[0]);
        }
        let m2 = step_mode(mode, c);
        let su2 = next_start(mode, c, i, su);
        let sv2 = next_start(mode, c, j, sv);
        assert(u.subrange(i + 1, u.len() as int) == v.subrange(j + 1, v.len() as int)) by {
            assert forall|m: int|
                #![trigger u.subrange(i + 1, u.len() as int)[m]]
                0 <= m < u.len() - (i + 1) implies u.subrange(i + 1, u.len() as int)[m]
                == v.subrange(j + 1, v.len() as int)[m] by {
                assert(tu[m + 1] == tv[m + 1]);
            }
            assert(u.subrange(i + 1, u.len() as int) =~= v.subrange(j + 1, v.len() as int));
        }
        assert(u.subrange(su2, i + 1) == v.subrange(sv2, j + 1)) by {
            if mode is Normal && c != ESC {
                assert(su2 == su && sv2 == sv);
                assert forall|m: int|
                    #![trigger u.subrange(su, i + 1)[m]]
                    0 <= m < i + 1 - su implies u.subrange(su, i + 1)[m] == v.subrange(
                    sv,
                    j + 1,
                )[m] by {
                    if m < i - su {
                        assert(u.subrange(su, i)[m] == v.subrange(sv, j)[m]);
                    } else {
                        assert(tu[0] == tv[0]);
                    }
                }
                assert(u.subrange(su, i + 1) =~= v.subrange(sv, j + 1));
            } else if mode is InEsc && su2 == i {
                assert(tu[0] == tv[0]);
                assert(u.subrange(i, i + 1) =~= v.subrange(j, j + 1));
            } else {
                assert(u.subrange(su2, i + 1) =~= v.subrange(sv2, j + 1));
            }
        }
        lemma_scan_shift(u, v, i + 1, j + 1, m2, su2, sv2);
        if mode is Normal && c == ESC && su < i {
            let ru = scan_frags(u, i + 1, m2, su2);
            let rv = scan_frags(v, j + 1, m2, sv2);
            crate::model::lemma_fragments_of_cons(u, (su, i), ru);
            crate::model::lemma_fragments_of_cons(v, (sv, j), rv);
        }
    }
}

/// Two escape characters in a row open a single escape sequence: the first
/// one is discarded.  This holds wherever the pair stands, except inside the
/// body of a DCS, SOS, PM or APC sequence, where an extra escape character
/// changes how a following backslash is read.
pub proof fn lemma_double_escape_collapses(a: Seq<char>, b: Seq<char>)
    requires
        !(scan_mode(a, 0, Mode::Normal) is AwaitSt),
        !(scan_mode(a, 0, Mode::Normal) is MaybeSt),
    ensures
        strip_frags(a + seq![ESC, ESC] + b) == strip_frags(a + seq![ESC] + b),
{
    lemma_double_escape_aux(a, b, 0, Mode::Normal, 0);
}

/// The induction behind [`lemma_double_escape_collapses`]: scanning the two
/// inputs in step through the shared prefix, then absorbing the extra escape
/// character and comparing the rests with [`lemma_scan_shift`].
proof fn lemma_double_escape_aux(a: Seq<char>, b: Seq<char>, i: int, mode: Mode, start: int)
    requires
        0 <= start <= i <= a.len(),
        !(mode is Normal) ==> start == i,
        !(scan_mode(a, i, mode) is AwaitSt),
        !(scan_mode(a, i, mode) is MaybeSt),
    ensures
        fragments_of(
            a + seq![ESC, ESC] + b,
            scan_frags(a + seq![ESC, ESC] + b, i, mode, start),
        ) == fragments_of(a + seq![ESC] + b, scan_frags(a + seq![ESC] + b, i, mode, start)),
    decreases a.len() - i,
{
    let u = a + seq![ESC, ESC] + b;
    let v = a + seq![ESC] + b;
    let fin = a.len() as int;
    if i < fin {
        let c = a[i];
        assert(u[i] == c && v[i] == c);
        let m2 = step_mode(mode, c);
        let s2 = next_start(mode, c, i, start);
        assert(scan_mode(a, i, mode) == scan_mode(a, i + 1, m2));
        lemma_double_escape_aux(a, b, i + 1, m2, s2);
        if mode is Normal && c == ESC && start < i {
            let ru = scan_frags(u, i + 1, m2, s2);
            let rv = scan_frags(v, i + 1, m2, s2);
            crate::model::lemma_fragments_of_cons(u, (start, i), ru);
            crate::model::lemma_fragments_of_cons(v, (start, i), rv);
            assert(u.subrange(start, i) =~= v.subrange(start, i));
        }
    } else {
        assert(scan_mode(a, i, mode) == mode);
        assert(u[fin] == ESC && u[fin + 1] == ESC && v[fin] == ESC);
        let m2 = step_mode(mode, ESC);
        let m3 = step_mode(m2, ESC);
        assert(m3 == m2);
        lemma_step_on_esc_not_normal(mode);
        assert(u.len() - (fin + 2) == v.len() - (fin + 1));
        assert(u.subrange(fin + 2, u.len() as int) == v.subrange(fin + 1, v.len() as int)) by {
            assert forall|m: int|
                #![trigger u.subrange(fin + 2, u.len() as int)[m]]
                0 <= m < u.len() - (fin + 2) implies u.subrange(fin + 2, u.len() as int)[m]
                == v.subrange(fin + 1, v.len() as int)[m] by {
                assert(u[fin + 2 + m] == b[m]);
                assert(v[fin + 1 + m] == b[m]);
            }
            assert(u.subrange(fin + 2, u.len() as int) =~= v.subrange(fin + 1, v.len() as int));
        }
        assert(u.subrange(fin + 2, fin + 2) =~= v.subrange(fin + 1, fin + 1));
        lemma_scan_shift(u, v, fin + 2, fin + 1, m2, fin + 2, fin + 1);
        assert(scan_frags(u, fin + 1, m2, fin + 1) == scan_frags(u, fin + 2, m2, fin + 2));
        if mode is Normal && start < fin {
            let ru = scan_frags(u, fin + 1, m2, fin + 1);
            let rv = scan_frags(v, fin + 1, m2, fin + 1);
            crate::model::lemma_fragments_of_cons(u, (start, fin), ru);
            crate::model::lemma_fragments_of_cons(v, (start, fin), rv);
            assert(u.subrange(start, fin) =~= v.subrange(start, fin));
        }
    }
}

} // verus!

