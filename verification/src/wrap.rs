//! The width-bounded wrapper.
//!
//! `wrap` splits its input on newlines and walks each logical line once.
//! Recognized SGR sequences are copied verbatim at zero width; every other
//! character adds its display width, and a character that would push the
//! visible width past the limit forces the current output line to close.
//! A closing line gets a style reset appended when a style is active, and
//! a continuation line re-emits the active style first. With `ellipsis`
//! enabled the total number of output lines is capped, the last one being
//! either the pending content (when exactly one input line remains) or a
//! literal `...` marker. The functions `run_line`, `run_lines` and
//! `wrap_spec` are the exact mathematical model of this walk, and `wrap`
//! is proved to return precisely `wrap_spec` of its input.

use vstd::prelude::*;

use crate::scan::ends_with_reset;
use crate::scan::reset_seq;
use crate::scan::scan_sgr;
use crate::scan::sgr_end;
use crate::width::char_display_width;
use crate::width::char_width;
use crate::width::text_chars;

verus! {

/// The input split at newline characters; always at least one segment,
/// and a trailing newline yields a trailing empty segment.
pub open spec fn split_lines(s: Seq<char>) -> Seq<Seq<char>>
    decreases s.len(),
{
    if s.len() == 0 {
        seq![Seq::empty()]
    } else if s.last() == '\n' {
        split_lines(s.drop_last()).push(Seq::empty())
    } else {
        let r = split_lines(s.drop_last());
        r.update(r.len() - 1, r.last().push(s.last()))
    }
}

pub proof fn lemma_split_lines_len(s: Seq<char>)
    ensures
        split_lines(s).len() >= 1,
    decreases s.len(),
{
    if s.len() > 0 {
        lemma_split_lines_len(s.drop_last());
    }
}

/// The configuration of one wrapping pass: the visible width limit, the
/// maintain and ellipsis flags, the derived output-line cap, and the
/// number of logical input lines.
pub struct WrapConfig {
    pub width: int,
    pub maintain: bool,
    pub ellipsis: bool,
    pub max_len: int,
    pub input_len: int,
}

/// The literal marker that stands for truncated output.
pub open spec fn ellipsis_marker() -> Seq<char> {
    seq!['.', '.', '.']
}

/// A line about to close: a style reset is appended when a style is
/// active and the line does not already end with one.
pub open spec fn close_style(active: Seq<char>, cur: Seq<char>) -> Seq<char> {
    if active.len() > 0 && !ends_with_reset(cur) {
        cur + reset_seq()
    } else {
        cur
    }
}

/// The height gate, checked whenever an output line is about to be
/// emitted. When the ellipsis policy is on and the next line reaches the
/// cap, the whole pass ends here: with the pending content when exactly
/// one input line remains, with the `...` marker otherwise. Both call
/// sites hand it the pending line already style-closed, so a capped
/// final line never leaves a style open.
pub open spec fn height_gate(cfg: WrapConfig, res: Seq<Seq<char>>, cur: Seq<char>) -> Option<
    Seq<Seq<char>>,
> {
    if cfg.ellipsis && res.len() + 1 >= cfg.max_len {
        if res.len() + 1 == cfg.input_len {
            Some(res.push(cur))
        } else {
            Some(res.push(ellipsis_marker()))
        }
    } else {
        None
    }
}

/// One logical line processed from position `i` with visible width
/// `visible` accumulated, output line `cur` under construction, style
/// `active` in force, and output lines `res` already emitted. Returns the
/// output lines after this logical line, and whether the whole pass
/// stopped at the height gate.
pub open spec fn run_line(
    cfg: WrapConfig,
    line: Seq<char>,
    i: int,
    visible: int,
    cur: Seq<char>,
    active: Seq<char>,
    res: Seq<Seq<char>>,
) -> (Seq<Seq<char>>, bool)
    decreases line.len() - i,
    via run_line_dec
{
    if i < 0 || i >= line.len() {
        let closed = close_style(active, cur);
        match height_gate(cfg, res, closed) {
            Some(r) => (r, true),
            None => {
                if cur.len() > 0 {
                    (res.push(closed), false)
                } else if line.len() == 0 {
                    (res.push(Seq::empty()), false)
                } else {
                    (res, false)
                }
            },
        }
    } else {
        match sgr_end(line, i) {
            Some(e) => {
                let sq = line.subrange(i, e);
                let active2 = if sq == reset_seq() {
                    Seq::<char>::empty()
                } else {
                    sq
                };
                run_line(cfg, line, e, visible, cur + sq, active2, res)
            },
            None => {
                let w = char_width(line[i]) as int;
                if visible + w > cfg.width {
                    let closed = close_style(active, cur);
                    match height_gate(cfg, res, closed) {
                        Some(r) => (r, true),
                        None => {
                            let res2 = res.push(closed);
                            if !cfg.maintain {
                                (res2, false)
                            } else {
                                let cur2 = if active.len() > 0 {
                                    active
                                } else {
                                    Seq::<char>::empty()
                                };
                                run_line(cfg, line, i + 1, w, cur2.push(line[i]), active, res2)
                            }
                        },
                    }
                } else {
                    run_line(cfg, line, i + 1, visible + w, cur.push(line[i]), active, res)
                }
            },
        }
    }
}

#[via_fn]
proof fn run_line_dec(
    cfg: WrapConfig,
    line: Seq<char>,
    i: int,
    visible: int,
    cur: Seq<char>,
    active: Seq<char>,
    res: Seq<Seq<char>>,
) {
    crate::scan::lemma_sgr_end(line, i);
}

/// The logical lines from index `k` on, processed in order; a pass that
/// stops at the height gate discards every later line.
pub open spec fn run_lines(
    cfg: WrapConfig,
    lines: Seq<Seq<char>>,
    k: int,
    res: Seq<Seq<char>>,
) -> Seq<Seq<char>>
    decreases lines.len() - k,
{
    if k < 0 || k >= lines.len() {
        res
    } else {
        let r = run_line(cfg, lines[k], 0, 0, Seq::empty(), Seq::empty(), res);
        if r.1 {
            r.0
        } else {
            run_lines(cfg, lines, k + 1, r.0)
        }
    }
}

/// The output of the wrapping pass on `text`: its logical lines processed
/// under the derived configuration. A `height` of zero means the cap is
/// the number of logical input lines.
pub open spec fn wrap_spec(
    text: Seq<char>,
    width: int,
    maintain: bool,
    ellipsis: bool,
    height: int,
) -> Seq<Seq<char>> {
    let lines = split_lines(text);
    let input_len = lines.len() as int;
    let max_len = if height == 0 {
        input_len
    } else {
        height
    };
    let cfg = WrapConfig {
        width: width,
        maintain: maintain,
        ellipsis: ellipsis,
        max_len: max_len,
        input_len: input_len,
    };
    run_lines(cfg, lines, 0, Seq::empty())
}

/// Relies on `String::push`: appends the given character to the end of
/// this string.
#[verifier::external_body]
fn push_char(s: &mut String, c: char)
    ensures
        final(s)@ == old(s)@.push(c),
{
    s.push(c);
}

fn empty_string() -> (s: String)
    ensures
        s@ == Seq::<char>::empty(),
{
    let s = String::from_str("");
    proof {
        reveal_strlit("");
        assert(s@ =~= Seq::<char>::empty());
    }
    s
}

fn chars_to_string(v: &Vec<char>) -> (s: String)
    ensures
        s@ == v@,
{
    let mut s = empty_string();
    let mut i: usize = 0;
    while i < v.len()
        invariant
            i <= v@.len(),
            s@ == v@.take(i as int),
        decreases v@.len() - i,
    {
        push_char(&mut s, v[i]);
        proof {
            assert(v@.take(i + 1) =~= v@.take(i as int).push(v@[i as int]));
        }
        i = i + 1;
    }
    proof {
        assert(v@.take(v@.len() as int) =~= v@);
    }
    s
}

fn dots_string() -> (s: String)
    ensures
        s@ == ellipsis_marker(),
{
    let s = String::from_str("...");
    proof {
        reveal_strlit("...");
        assert(s@ =~= ellipsis_marker());
    }
    s
}

fn split_chars(v: &Vec<char>) -> (lines: Vec<Vec<char>>)
    ensures
        lines@.len() == split_lines(v@).len(),
        forall|k: int| 0 <= k < lines@.len() ==> lines@[k]@ == split_lines(v@)[k],
{
    let mut acc: Vec<Vec<char>> = Vec::new();
    let mut cur: Vec<char> = Vec::new();
    let mut i: usize = 0;
    while i < v.len()
        invariant
            i <= v@.len(),
            split_lines(v@.take(i as int)).len() == acc@.len() + 1,
            forall|k: int| 0 <= k < acc@.len() ==> split_lines(v@.take(i as int))[k] == acc@[k]@,
            split_lines(v@.take(i as int)).last() == cur@,
        decreases v@.len() - i,
    {
        let c = v[i];
        proof {
            assert(v@.take(i + 1).drop_last() =~= v@.take(i as int));
            assert(v@.take(i + 1).last() == v@[i as int]);
        }
        if c == '\n' {
            acc.push(cur);
            cur = Vec::new();
        } else {
            cur.push(c);
        }
        i = i + 1;
    }
    proof {
        assert(v@.take(v@.len() as int) =~= v@);
    }
    let mut lines = acc;
    lines.push(cur);
    lines
}

fn push_all(dst: &mut Vec<char>, src: &Vec<char>)
    ensures
        final(dst)@ == old(dst)@ + src@,
{
    let mut t: usize = 0;
    while t < src.len()
        invariant
            t <= src@.len(),
            dst@ == old(dst)@ + src@.take(t as int),
        decreases src@.len() - t,
    {
        dst.push(src[t]);
        proof {
            assert(src@.take(t + 1) =~= src@.take(t as int).push(src@[t as int]));
            assert(old(dst)@ + src@.take(t + 1) =~= (old(dst)@ + src@.take(t as int)).push(
                src@[t as int],
            ));
        }
        t = t + 1;
    }
    proof {
        assert(src@.take(src@.len() as int) =~= src@);
    }
}

fn ends_reset(cur: &Vec<char>) -> (b: bool)
    ensures
        b == ends_with_reset(cur@),
{
    let n = cur.len();
    if n < 4 {
        return false;
    }
    let b = cur[n - 4] == '\u{1b}' && cur[n - 3] == '[' && cur[n - 2] == '0' && cur[n - 1] == 'm';
    proof {
        let tail = cur@.subrange(cur@.len() - 4, cur@.len() as int);
        if b {
            assert(tail =~= reset_seq());
        } else {
            assert(tail[0] == cur@[cur@.len() - 4]);
            assert(tail[1] == cur@[cur@.len() - 3]);
            assert(tail[2] == cur@[cur@.len() - 2]);
            assert(tail[3] == cur@[cur@.len() - 1]);
            assert(tail != reset_seq());
        }
    }
    b
}

fn close_line(active: &Vec<char>, cur: &mut Vec<char>)
    ensures
        final(cur)@ == close_style(active@, old(cur)@),
{
    if active.len() > 0 && !ends_reset(cur) {
        cur.push('\u{1b}');
        cur.push('[');
        cur.push('0');
        cur.push('m');
        proof {
            assert(cur@ =~= old(cur)@ + reset_seq());
        }
    }
}

/// Wrap `text` to lines of visible display width at most `width`.
///
/// `maintain` keeps overflowing content on continuation lines instead of
/// discarding it; `ellipsis` caps the number of output lines and marks
/// truncation with `...`; `height` is that cap, with `0` standing for the
/// number of logical input lines. The result is exactly `wrap_spec` of
/// the input.
pub fn wrap(text: &str, width: usize, maintain: bool, ellipsis: bool, height: usize) -> (out: Vec<
    String,
>)
    ensures
        out@.len() == wrap_spec(text@, width as int, maintain, ellipsis, height as int).len(),
        forall|j: int|
            0 <= j < out@.len() ==> out@[j]@ == wrap_spec(
                text@,
                width as int,
                maintain,
                ellipsis,
                height as int,
            )[j],
{
    let chars = text_chars(text);
    let lines = split_chars(&chars);
    proof {
        lemma_split_lines_len(text@);
    }
    let ghost ldv: Seq<Seq<char>> = split_lines(text@);
    let n_lines = lines.len();
    let max_len = if height == 0 {
        n_lines
    } else {
        height
    };
    let ghost cfg = WrapConfig {
        width: width as int,
        maintain: maintain,
        ellipsis: ellipsis,
        max_len: max_len as int,
        input_len: n_lines as int,
    };
    let ghost target: Seq<Seq<char>> = run_lines(cfg, ldv, 0, Seq::empty());
    let mut out: Vec<String> = Vec::new();
    let ghost mut res: Seq<Seq<char>> = Seq::empty();
    let mut halt = false;
    let mut k: usize = 0;
    while k < n_lines && !halt
        invariant
            n_lines == ldv.len(),
            1 <= n_lines,
            k <= n_lines,
            1 <= max_len,
            lines@.len() == ldv.len(),
            forall|t: int| 0 <= t < ldv.len() ==> lines@[t]@ == ldv[t],
            cfg == (WrapConfig {
                width: width as int,
                maintain: maintain,
                ellipsis: ellipsis,
                max_len: max_len as int,
                input_len: n_lines as int,
            }),
            out@.len() == res.len(),
            forall|j: int| 0 <= j < res.len() ==> out@[j]@ == res[j],
            !halt ==> run_lines(cfg, ldv, k as int, res) == target,
            halt ==> res == target,
        decreases n_lines - k,
    {
        let line: &Vec<char> = &lines[k];
        let ghost l: Seq<char> = ldv[k as int];
        let n = line.len();
        let ghost lt: (Seq<Seq<char>>, bool) = run_line(
            cfg,
            l,
            0,
            0,
            Seq::empty(),
            Seq::empty(),
            res,
        );
        proof {
            assert(run_lines(cfg, ldv, k as int, res) == if lt.1 {
                lt.0
            } else {
                run_lines(cfg, ldv, k as int + 1, lt.0)
            });
        }
        let mut i: usize = 0;
        let mut visible: usize = 0;
        let mut cur: Vec<char> = Vec::new();
        let mut active: Vec<char> = Vec::new();
        let mut line_done = false;
        while i < n && !line_done && !halt
            invariant
                line@ == l,
                n == l.len(),
                i <= n,
                1 <= max_len,
                1 <= n_lines,
                cfg == (WrapConfig {
                    width: width as int,
                    maintain: maintain,
                    ellipsis: ellipsis,
                    max_len: max_len as int,
                    input_len: n_lines as int,
                }),
                out@.len() == res.len(),
                forall|j: int| 0 <= j < res.len() ==> out@[j]@ == res[j],
                !line_done && !halt ==> run_line(
                    cfg,
                    l,
                    i as int,
                    visible as int,
                    cur@,
                    active@,
                    res,
                ) == lt,
                line_done ==> !halt && lt == (res, false),
                halt ==> lt == (res, true),
            decreases n - i, (if halt || line_done { 0int } else { 1int }),
        {
            let ghost i0 = i as int;
            let ghost v0 = visible as int;
            let ghost c0 = cur@;
            let ghost a0 = active@;
            let ghost r0 = res;
            match scan_sgr(line, i) {
                Some(e) => {
                    proof {
                        crate::scan::lemma_sgr_end(l, i0);
                    }
                    let ghost sq = l.subrange(i0, e as int);
                    let mut sqv: Vec<char> = Vec::new();
                    let mut t = i;
                    while t < e
                        invariant
                            line@ == l,
                            i <= t <= e,
                            e <= n,
                            n == l.len(),
                            sqv@ == l.subrange(i as int, t as int),
                        decreases e - t,
                    {
                        sqv.push(line[t]);
                        proof {
                            assert(l.subrange(i as int, t + 1) =~= l.subrange(
                                i as int,
                                t as int,
                            ).push(l[t as int]));
                        }
                        t = t + 1;
                    }
                    push_all(&mut cur, &sqv);
                    let is_reset = e - i == 4 && sqv[2] == '0';
                    proof {
                        if is_reset {
                            assert(sq =~= reset_seq());
                        } else if sq.len() == 4 {
                            assert(sq[2] == l[i0 + 2]);
                            assert(sq != reset_seq());
                        } else {
                            assert(sq != reset_seq());
                        }
                    }
                    if is_reset {
                        active = Vec::new();
                    } else {
                        active = sqv;
                    }
                    i = e;
                    proof {
                        assert(run_line(cfg, l, i0, v0, c0, a0, r0) == run_line(
                            cfg,
                            l,
                            i as int,
                            visible as int,
                            cur@,
                            active@,
                            res,
                        ));
                    }
                },
                None => {
                    let c = line[i];
                    let w = char_display_width(c);
                    let over = visible > width || w > width - visible;
                    proof {
                        assert(over == (v0 + char_width(l[i0]) as int > cfg.width));
                    }
                    if over {
                        close_line(&active, &mut cur);
                        let ghost closed = cur@;
                        proof {
                            assert(closed == close_style(a0, c0));
                        }
                        if ellipsis && out.len() >= max_len - 1 {
                            if out.len() == n_lines - 1 {
                                let s = chars_to_string(&cur);
                                out.push(s);
                                proof {
                                    res = res.push(closed);
                                }
                            } else {
                                out.push(dots_string());
                                proof {
                                    res = res.push(ellipsis_marker());
                                }
                            }
                            halt = true;
                            proof {
                                assert(run_line(cfg, l, i0, v0, c0, a0, r0) == (res, true));
                            }
                        } else {
                            let s = chars_to_string(&cur);
                            out.push(s);
                            proof {
                                res = res.push(closed);
                            }
                            cur = Vec::new();
                            if !maintain {
                                line_done = true;
                                proof {
                                    assert(run_line(cfg, l, i0, v0, c0, a0, r0) == (res, false));
                                }
                            } else {
                                visible = 0;
                                if active.len() > 0 {
                                    push_all(&mut cur, &active);
                                }
                                cur.push(c);
                                visible = w;
                                i = i + 1;
                                proof {
                                    assert(run_line(cfg, l, i0, v0, c0, a0, r0) == run_line(
                                        cfg,
                                        l,
                                        i as int,
                                        visible as int,
                                        cur@,
                                        active@,
                                        res,
                                    ));
                                }
                            }
                        }
                    } else {
                        cur.push(c);
                        visible = visible + w;
                        i = i + 1;
                        proof {
                            assert(run_line(cfg, l, i0, v0, c0, a0, r0) == run_line(
                                cfg,
                                l,
                                i as int,
                                visible as int,
                                cur@,
                                active@,
                                res,
                            ));
                        }
                    }
                },
            }
        }
        if !line_done && !halt {
            let ghost i0 = i as int;
            let ghost c0 = cur@;
            let ghost a0 = active@;
            let ghost r0 = res;
            if ellipsis && out.len() >= max_len - 1 {
                if out.len() == n_lines - 1 {
                    close_line(&active, &mut cur);
                    let s = chars_to_string(&cur);
                    out.push(s);
                    proof {
                        res = res.push(close_style(a0, c0));
                    }
                } else {
                    out.push(dots_string());
                    proof {
                        res = res.push(ellipsis_marker());
                    }
                }
                halt = true;
                proof {
                    assert(run_line(cfg, l, i0, visible as int, c0, a0, r0) == (res, true));
                    assert(lt == (res, true));
                }
            } else {
                if cur.len() > 0 {
                    close_line(&active, &mut cur);
                    let s = chars_to_string(&cur);
                    out.push(s);
                    proof {
                        res = res.push(close_style(a0, c0));
                    }
                } else if n == 0 {
                    out.push(empty_string());
                    proof {
                        res = res.push(Seq::<char>::empty());
                    }
                }
                proof {
                    assert(run_line(cfg, l, i0, visible as int, c0, a0, r0) == (res, false));
                    assert(lt == (res, false));
                }
            }
        }
        k = k + 1;
    }
    proof {
        if !halt {
            assert(run_lines(cfg, ldv, n_lines as int, res) == res);
        }
        assert(res == target);
        assert(target == wrap_spec(text@, width as int, maintain, ellipsis, height as int));
    }
    out
}

} // verus!
