//! Display-width measurement.
//!
//! The width table itself lives in the `unicode_width` crate; this module
//! gives its per-character answer a name, `char_width`, and builds the
//! string-level measurement on top of it.

use vstd::prelude::*;

use vstd::std_specs::iter::IteratorSpec;

verus! {

/// Display width, in terminal columns, of one character: what
/// `unicode_width::UnicodeWidthChar::width` reports, with control
/// characters (for which it reports nothing) counted as zero.
pub uninterp spec fn char_width(c: char) -> nat;

/// Display width of a sequence of characters: the sum of the widths of
/// its characters.
pub open spec fn line_width(s: Seq<char>) -> nat
    decreases s.len(),
{
    if s.len() == 0 {
        0
    } else {
        line_width(s.drop_last()) + char_width(s.last())
    }
}

/// `line_width`, clamped to what a `usize` can hold.
pub open spec fn line_width_clamped(s: Seq<char>) -> nat {
    if line_width(s) <= usize::MAX as nat {
        line_width(s)
    } else {
        usize::MAX as nat
    }
}

/// Relies on `unicode_width::UnicodeWidthChar::width`: the displayed width
/// in columns of `c`, or `None` for a control character. The result
/// depends on the character alone, so it is named by `char_width`.
#[verifier::external_body]
pub(crate) fn char_display_width(c: char) -> (w: usize)
    ensures
        w as nat == char_width(c),
{
    unicode_width::UnicodeWidthChar::width(c).unwrap_or(0)
}

/// The characters of `text`, in order, collected in one linear walk of
/// its character iterator.
pub(crate) fn text_chars(text: &str) -> (v: Vec<char>)
    ensures
        v@ == text@,
{
    broadcast use vstd::string::axiom_spec_iter, vstd::string::next_postcondition;

    let mut it = text.chars();
    let mut v: Vec<char> = Vec::new();
    proof {
        assert(Seq::<char>::empty() + text@ =~= text@);
    }
    loop
        invariant
            it.obeys_prophetic_iter_laws(),
            it.decrease() is Some,
            v@ + it.remaining() == text@,
        ensures
            v@ == text@,
        decreases it.decrease().unwrap(),
    {
        match it.next() {
            Some(c) => {
                proof {
                    assert(v@.push(c) + it.remaining() =~= text@);
                }
                v.push(c);
            },
            None => {
                proof {
                    assert(v@ + it.remaining() =~= v@);
                }
                break;
            },
        }
    }
    v
}

/// Display width of `text`: the sum of the display widths of its
/// characters, saturating at `usize::MAX`.
pub fn measure(text: &str) -> (w: usize)
    ensures
        w as nat == line_width_clamped(text@),
{
    let v = text_chars(text);
    let n = v.len();
    let mut total: usize = 0;
    let mut i: usize = 0;
    while i < n
        invariant
            v@ == text@,
            n == text@.len(),
            i <= n,
            total as nat == line_width_clamped(text@.take(i as int)),
        decreases n - i,
    {
        let w = char_display_width(v[i]);
        proof {
            assert(text@.take(i + 1).drop_last() =~= text@.take(i as int));
            assert(text@.take(i + 1).last() == text@[i as int]);
        }
        if w <= usize::MAX - total {
            total = total + w;
        } else {
            total = usize::MAX;
        }
        i = i + 1;
    }
    proof {
        assert(text@.take(n as int) =~= text@);
    }
    total
}

} // verus!
