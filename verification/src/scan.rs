//! Recognition of ANSI SGR escape sequences.
//!
//! A recognized sequence starts with the ESC control character followed by
//! `[`, runs to the first ASCII alphabetic character (inclusive), and that
//! terminator must be `m`. Anything else starting with ESC is not consumed
//! specially and falls back to ordinary character handling.

use vstd::prelude::*;

use crate::width::char_width;

verus! {

/// Is `c` an ASCII alphabetic character?
pub open spec fn is_ascii_alpha(c: char) -> bool {
    let u = c as u32;
    (97 <= u && u <= 122) || (65 <= u && u <= 90)
}

/// The style-reset sequence, `ESC [ 0 m`.
pub open spec fn reset_seq() -> Seq<char> {
    seq!['\u{1b}', '[', '0', 'm']
}

/// Does `s` end with the style-reset sequence?
pub open spec fn ends_with_reset(s: Seq<char>) -> bool {
    s.len() >= 4 && s.subrange(s.len() - 4, s.len() as int) == reset_seq()
}

/// Index of the first ASCII alphabetic character of `s` at or after `k`.
pub open spec fn find_alpha(s: Seq<char>, k: int) -> Option<int>
    decreases s.len() - k,
{
    if k < 0 || k >= s.len() {
        None
    } else if is_ascii_alpha(s[k]) {
        Some(k)
    } else {
        find_alpha(s, k + 1)
    }
}

pub proof fn lemma_find_alpha(s: Seq<char>, k: int)
    requires
        0 <= k,
    ensures
        match find_alpha(s, k) {
            Some(j) => k <= j < s.len() && is_ascii_alpha(s[j]) && (forall|t: int|
                k <= t < j ==> !is_ascii_alpha(s[t])),
            None => forall|t: int| k <= t < s.len() ==> !is_ascii_alpha(s[t]),
        },
    decreases s.len() - k,
{
    if k < s.len() && !is_ascii_alpha(s[k]) {
        lemma_find_alpha(s, k + 1);
    }
}

/// If a recognized SGR sequence starts at position `i` of `s`, the index
/// one past its end; `None` otherwise.
pub open spec fn sgr_end(s: Seq<char>, i: int) -> Option<int> {
    if 0 <= i < s.len() && s[i] == '\u{1b}' && i + 1 < s.len() && s[i + 1] == '[' {
        match find_alpha(s, i + 2) {
            Some(j) => if s[j] == 'm' {
                Some(j + 1)
            } else {
                None
            },
            None => None,
        }
    } else {
        None
    }
}

pub proof fn lemma_sgr_end(s: Seq<char>, i: int)
    ensures
        match sgr_end(s, i) {
            Some(e) => 0 <= i && i + 3 <= e <= s.len() && s[i] == '\u{1b}' && s[i + 1] == '['
                && s[e - 1] == 'm' && (forall|t: int| i + 2 <= t < e - 1 ==> !is_ascii_alpha(s[t])),
            None => true,
        },
{
    if 0 <= i < s.len() && s[i] == '\u{1b}' && i + 1 < s.len() && s[i + 1] == '[' {
        lemma_find_alpha(s, i + 2);
    }
}

/// Scanning state of one line: the accumulated visible (non-escape)
/// display width from position `i` on, and the active style after it.
/// A recognized non-reset SGR sequence becomes the active style, the
/// reset sequence clears it, and every other character adds its width.
pub open spec fn line_scan(line: Seq<char>, i: int, visible: int, active: Seq<char>) -> (int, Seq<
    char,
>)
    decreases line.len() - i,
    via line_scan_dec
{
    if i < 0 || i >= line.len() {
        (visible, active)
    } else {
        match sgr_end(line, i) {
            Some(e) => {
                let sq = line.subrange(i, e);
                line_scan(line, e, visible, if sq == reset_seq() { Seq::empty() } else { sq })
            },
            None => line_scan(line, i + 1, visible + char_width(line[i]), active),
        }
    }
}

#[via_fn]
proof fn line_scan_dec(line: Seq<char>, i: int, visible: int, active: Seq<char>) {
    lemma_sgr_end(line, i);
}

/// The visible (non-escape) display width of a line.
pub open spec fn visible_width(line: Seq<char>) -> int {
    line_scan(line, 0, 0, Seq::empty()).0
}

/// The style still active after scanning a whole line that started with
/// no active style; empty if the line leaves no style open.
pub open spec fn trailing_active(line: Seq<char>) -> Seq<char> {
    line_scan(line, 0, 0, Seq::empty()).1
}

/// The shape of a recognized SGR sequence: ESC `[`, a non-alphabetic
/// body, and the `m` terminator.
pub open spec fn sgr_shape(sq: Seq<char>) -> bool {
    &&& sq.len() >= 3
    &&& sq[0] == '\u{1b}'
    &&& sq[1] == '['
    &&& sq.last() == 'm'
    &&& forall|t: int| 2 <= t < sq.len() - 1 ==> !is_ascii_alpha(sq[t])
}

/// An SGR sequence with a single escape: its shape, with no further ESC
/// character inside.
pub open spec fn sgr_block(sq: Seq<char>) -> bool {
    &&& sgr_shape(sq)
    &&& forall|t: int| 1 <= t < sq.len() ==> sq[t] != '\u{1b}'
}

/// Every ESC character of `s` starts a recognized SGR sequence.
pub open spec fn scan_clean(s: Seq<char>) -> bool {
    forall|p: int| 0 <= p < s.len() && s[p] == '\u{1b}' ==> (#[trigger] sgr_end(s, p)) is Some
}

pub proof fn lemma_find_alpha_extend(s: Seq<char>, t: Seq<char>, k: int)
    requires
        0 <= k,
        find_alpha(s, k) is Some,
    ensures
        find_alpha(s + t, k) == find_alpha(s, k),
    decreases s.len() - k,
{
    if k < s.len() {
        assert((s + t)[k] == s[k]);
        if !is_ascii_alpha(s[k]) {
            lemma_find_alpha_extend(s, t, k + 1);
        }
    }
}

pub proof fn lemma_find_alpha_is(s: Seq<char>, k: int, j: int)
    requires
        0 <= k <= j < s.len(),
        is_ascii_alpha(s[j]),
        forall|t: int| k <= t < j ==> !is_ascii_alpha(s[t]),
    ensures
        find_alpha(s, k) == Some(j),
    decreases j - k,
{
    if k < j {
        lemma_find_alpha_is(s, k + 1, j);
    }
}

pub proof fn lemma_sgr_end_extend(s: Seq<char>, t: Seq<char>, p: int)
    requires
        sgr_end(s, p) is Some,
    ensures
        sgr_end(s + t, p) == sgr_end(s, p),
{
    lemma_sgr_end(s, p);
    assert((s + t)[p] == s[p]);
    assert((s + t)[p + 1] == s[p + 1]);
    lemma_find_alpha_extend(s, t, p + 2);
    lemma_find_alpha(s, p + 2);
    match find_alpha(s, p + 2) {
        Some(j) => {
            assert((s + t)[j] == s[j]);
        },
        None => {},
    }
}

/// A sequence of SGR shape appended after `s` is recognized exactly
/// there.
pub proof fn lemma_block_append_end(s: Seq<char>, sq: Seq<char>)
    requires
        sgr_shape(sq),
    ensures
        sgr_end(s + sq, s.len() as int) == Some(s.len() + sq.len() as int),
        (s + sq).subrange(s.len() as int, (s.len() + sq.len()) as int) == sq,
{
    let w = s + sq;
    let p = s.len() as int;
    assert(w[p] == sq[0]);
    assert(w[p + 1] == sq[1]);
    assert forall|u: int| p + 2 <= u < p + sq.len() - 1 implies !is_ascii_alpha(w[u]) by {
        assert(w[u] == sq[u - p]);
    }
    assert(w[p + sq.len() - 1] == sq.last());
    assert(is_ascii_alpha('m'));
    lemma_find_alpha_is(w, p + 2, p + sq.len() - 1);
    assert(w.subrange(p, p + sq.len()) =~= sq);
}

/// With `s` scan-clean, scanning `s + t` walks `s` exactly as scanning
/// `s` alone would, and then continues into `t` from the state `s`
/// leaves behind.
pub proof fn lemma_scan_concat(s: Seq<char>, t: Seq<char>, i: int, visible: int, active: Seq<char>)
    requires
        0 <= i <= s.len(),
        scan_clean(s),
    ensures
        line_scan(s + t, i, visible, active) == ({
            let m = line_scan(s, i, visible, active);
            line_scan(s + t, s.len() as int, m.0, m.1)
        }),
    decreases s.len() - i,
{
    if i < s.len() {
        if s[i] == '\u{1b}' {
            assert(sgr_end(s, i) is Some);
            lemma_sgr_end(s, i);
            lemma_sgr_end_extend(s, t, i);
            let e = match sgr_end(s, i) {
                Some(e) => e,
                None => 0,
            };
            assert((s + t).subrange(i, e) =~= s.subrange(i, e));
            let sq = s.subrange(i, e);
            let active2 = if sq == reset_seq() {
                Seq::<char>::empty()
            } else {
                sq
            };
            lemma_scan_concat(s, t, e, visible, active2);
        } else {
            assert((s + t)[i] == s[i]);
            assert(sgr_end(s, i) is None);
            assert(sgr_end(s + t, i) is None);
            lemma_scan_concat(s, t, i + 1, visible + char_width(s[i]) as int, active);
        }
    }
}

pub proof fn lemma_find_alpha_shift(s: Seq<char>, t: Seq<char>, k: int)
    requires
        0 <= k <= t.len(),
    ensures
        find_alpha(s + t, s.len() + k) == match find_alpha(t, k) {
            Some(j) => Some(s.len() as int + j),
            None => None,
        },
    decreases t.len() - k,
{
    if k < t.len() {
        assert((s + t)[s.len() + k] == t[k]);
        if !is_ascii_alpha(t[k]) {
            lemma_find_alpha_shift(s, t, k + 1);
        }
    }
}

pub proof fn lemma_sgr_end_shift(s: Seq<char>, t: Seq<char>, q: int)
    requires
        0 <= q < t.len(),
    ensures
        sgr_end(s + t, s.len() + q) == match sgr_end(t, q) {
            Some(e) => Some(s.len() as int + e),
            None => None,
        },
{
    assert((s + t)[s.len() + q] == t[q]);
    if q + 1 < t.len() {
        assert((s + t)[s.len() + q + 1] == t[q + 1]);
    }
    if t[q] == '\u{1b}' && q + 1 < t.len() && t[q + 1] == '[' {
        if q + 2 <= t.len() {
            lemma_find_alpha_shift(s, t, q + 2);
            lemma_find_alpha(t, q + 2);
            match find_alpha(t, q + 2) {
                Some(j) => {
                    assert((s + t)[s.len() + j] == t[j]);
                },
                None => {},
            }
        }
    }
}

/// Scanning the suffix region of a concatenation is scanning the suffix.
pub proof fn lemma_scan_shift(s: Seq<char>, t: Seq<char>, q: int, visible: int, active: Seq<char>)
    requires
        0 <= q <= t.len(),
    ensures
        line_scan(s + t, s.len() + q, visible, active) == line_scan(t, q, visible, active),
    decreases t.len() - q,
{
    if q < t.len() {
        lemma_sgr_end_shift(s, t, q);
        match sgr_end(t, q) {
            Some(e) => {
                lemma_sgr_end(t, q);
                assert((s + t).subrange(s.len() + q, s.len() as int + e) =~= t.subrange(q, e));
                let sq = t.subrange(q, e);
                let active2 = if sq == reset_seq() {
                    Seq::<char>::empty()
                } else {
                    sq
                };
                lemma_scan_shift(s, t, e, visible, active2);
            },
            None => {
                assert((s + t)[s.len() + q] == t[q]);
                lemma_scan_shift(s, t, q + 1, visible + char_width(t[q]) as int, active);
            },
        }
    }
}

/// The width a scan accumulates does not depend on the visible count or
/// the active style it starts from: it is the start count plus the width
/// scanned from zero.
pub proof fn lemma_scan_vis(l: Seq<char>, i: int, visible: int, active: Seq<char>)
    ensures
        line_scan(l, i, visible, active).0 == visible + line_scan(l, i, 0, Seq::empty()).0,
    decreases l.len() - i,
{
    if 0 <= i < l.len() {
        match sgr_end(l, i) {
            Some(e) => {
                lemma_sgr_end(l, i);
                let sq = l.subrange(i, e);
                let active2 = if sq == reset_seq() {
                    Seq::<char>::empty()
                } else {
                    sq
                };
                lemma_scan_vis(l, e, visible, active2);
                lemma_scan_vis(l, e, 0, active2);
            },
            None => {
                let w = char_width(l[i]) as int;
                lemma_scan_vis(l, i + 1, visible + w, active);
                lemma_scan_vis(l, i + 1, w, Seq::empty());
            },
        }
    }
}

fn ascii_alpha(c: char) -> (b: bool)
    ensures
        b == is_ascii_alpha(c),
{
    let u = c as u32;
    (97 <= u && u <= 122) || (65 <= u && u <= 90)
}

/// Lookahead at position `i` of `line`: the end of the recognized SGR
/// sequence starting there, if any. Never consumes anything.
pub(crate) fn scan_sgr(line: &Vec<char>, i: usize) -> (r: Option<usize>)
    requires
        i < line@.len(),
    ensures
        match r {
            Some(e) => sgr_end(line@, i as int) == Some(e as int),
            None => sgr_end(line@, i as int) is None,
        },
{
    if line[i] != '\u{1b}' {
        return None;
    }
    if i >= line.len() - 1 {
        return None;
    }
    if line[i + 1] != '[' {
        return None;
    }
    let mut j = i + 2;
    while j < line.len() && !ascii_alpha(line[j])
        invariant
            i + 2 <= j <= line@.len(),
            find_alpha(line@, i + 2) == find_alpha(line@, j as int),
        decreases line@.len() - j,
    {
        j = j + 1;
    }
    if j >= line.len() {
        return None;
    }
    if line[j] == 'm' {
        Some(j + 1)
    } else {
        None
    }
}

} // verus!
