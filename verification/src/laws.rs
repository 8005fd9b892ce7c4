//! Laws of the wrapper, stated and proved over the model in `wrap`.

use vstd::prelude::*;

use crate::scan::ends_with_reset;
use crate::scan::lemma_block_append_end;
use crate::scan::lemma_scan_concat;
use crate::scan::lemma_sgr_end;
use crate::scan::lemma_sgr_end_extend;
use crate::scan::reset_seq;
use crate::scan::is_ascii_alpha;
use crate::scan::lemma_find_alpha_is;
use crate::scan::lemma_scan_shift;
use crate::scan::lemma_scan_vis;
use crate::scan::scan_clean;
use crate::scan::sgr_block;
use crate::scan::sgr_shape;
use crate::scan::line_scan;
use crate::scan::sgr_end;
use crate::scan::trailing_active;
use crate::scan::visible_width;
use crate::width::char_width;
use crate::width::line_width;
use crate::wrap::close_style;
use crate::wrap::ellipsis_marker;
use crate::wrap::height_gate;
use crate::wrap::lemma_split_lines_len;
use crate::wrap::run_line;
use crate::wrap::run_lines;
use crate::wrap::split_lines;
use crate::wrap::wrap_spec;
use crate::wrap::WrapConfig;

verus! {

/// Does `s` contain no ESC control character?
pub open spec fn no_esc(s: Seq<char>) -> bool {
    forall|i: int| 0 <= i < s.len() ==> s[i] != '\u{1b}'
}

/// One logical line wrapped by a plain greedy character wrapper: no
/// escape recognition, no style tracking, otherwise the same walk as
/// `run_line`.
pub open spec fn greedy_line(
    cfg: WrapConfig,
    line: Seq<char>,
    i: int,
    visible: int,
    cur: Seq<char>,
    res: Seq<Seq<char>>,
) -> (Seq<Seq<char>>, bool)
    decreases line.len() - i,
{
    if i < 0 || i >= line.len() {
        match height_gate(cfg, res, cur) {
            Some(r) => (r, true),
            None => {
                if cur.len() > 0 {
                    (res.push(cur), false)
                } else if line.len() == 0 {
                    (res.push(Seq::empty()), false)
                } else {
                    (res, false)
                }
            },
        }
    } else {
        let w = char_width(line[i]) as int;
        if visible + w > cfg.width {
            match height_gate(cfg, res, cur) {
                Some(r) => (r, true),
                None => {
                    let res2 = res.push(cur);
                    if !cfg.maintain {
                        (res2, false)
                    } else {
                        greedy_line(cfg, line, i + 1, w, seq![line[i]], res2)
                    }
                },
            }
        } else {
            greedy_line(cfg, line, i + 1, visible + w, cur.push(line[i]), res)
        }
    }
}

/// The logical lines from index `k` on, wrapped by the plain greedy
/// wrapper.
pub open spec fn greedy_lines(
    cfg: WrapConfig,
    lines: Seq<Seq<char>>,
    k: int,
    res: Seq<Seq<char>>,
) -> Seq<Seq<char>>
    decreases lines.len() - k,
{
    if k < 0 || k >= lines.len() {
        res
    } else {
        let r = greedy_line(cfg, lines[k], 0, 0, Seq::empty(), res);
        if r.1 {
            r.0
        } else {
            greedy_lines(cfg, lines, k + 1, r.0)
        }
    }
}

/// The plain greedy character wrapper on the whole input.
pub open spec fn greedy_wrap(
    text: Seq<char>,
    width: int,
    maintain: bool,
    ellipsis: bool,
    height: int,
) -> Seq<Seq<char>> {
    let lines = split_lines(text);
    let input_len = lines.len() as int;
    let max_len = if height == 0 {
        input_len
    } else {
        height
    };
    let cfg = WrapConfig {
        width: width,
        maintain: maintain,
        ellipsis: ellipsis,
        max_len: max_len,
        input_len: input_len,
    };
    greedy_lines(cfg, lines, 0, Seq::empty())
}

proof fn lemma_run_line_greedy(
    cfg: WrapConfig,
    line: Seq<char>,
    i: int,
    visible: int,
    cur: Seq<char>,
    res: Seq<Seq<char>>,
)
    requires
        no_esc(line),
    ensures
        run_line(cfg, line, i, visible, cur, Seq::empty(), res) == greedy_line(
            cfg,
            line,
            i,
            visible,
            cur,
            res,
        ),
    decreases line.len() - i,
{
    if 0 <= i < line.len() {
        assert(line[i] != '\u{1b}');
        assert(sgr_end(line, i) is None);
        let w = char_width(line[i]) as int;
        if visible + w > cfg.width {
            assert(close_style(Seq::empty(), cur) == cur);
            if height_gate(cfg, res, cur) is None && cfg.maintain {
                assert(Seq::<char>::empty().push(line[i]) =~= seq![line[i]]);
                lemma_run_line_greedy(cfg, line, i + 1, w, seq![line[i]], res.push(cur));
            }
        } else {
            lemma_run_line_greedy(cfg, line, i + 1, visible + w, cur.push(line[i]), res);
        }
    } else {
        assert(close_style(Seq::empty(), cur) == cur);
    }
}

proof fn lemma_run_lines_greedy(cfg: WrapConfig, lines: Seq<Seq<char>>, k: int, res: Seq<Seq<char>>)
    requires
        forall|t: int| 0 <= t < lines.len() ==> no_esc(lines[t]),
    ensures
        run_lines(cfg, lines, k, res) == greedy_lines(cfg, lines, k, res),
    decreases lines.len() - k,
{
    if 0 <= k < lines.len() {
        lemma_run_line_greedy(cfg, lines[k], 0, 0, Seq::empty(), res);
        let r = greedy_line(cfg, lines[k], 0, 0, Seq::empty(), res);
        if !r.1 {
            lemma_run_lines_greedy(cfg, lines, k + 1, r.0);
        }
    }
}

/// Every character of every segment of `split_lines(s)` is a character
/// of `s`, so a property of all characters of `s` carries over.
proof fn lemma_split_lines_chars(s: Seq<char>, p: spec_fn(char) -> bool)
    requires
        forall|i: int| 0 <= i < s.len() ==> p(s[i]),
    ensures
        forall|k: int, i: int|
            0 <= k < split_lines(s).len() && 0 <= i < split_lines(s)[k].len() ==> p(
                split_lines(s)[k][i],
            ),
    decreases s.len(),
{
    if s.len() > 0 {
        assert forall|i: int| 0 <= i < s.drop_last().len() implies p(s.drop_last()[i]) by {
            assert(s.drop_last()[i] == s[i]);
        }
        lemma_split_lines_chars(s.drop_last(), p);
        assert(p(s.last()));
        let r = split_lines(s.drop_last());
        lemma_split_lines_len(s.drop_last());
        if s.last() == '\n' {
            assert forall|k: int, i: int|
                0 <= k < split_lines(s).len() && 0 <= i < split_lines(s)[k].len() implies p(
                split_lines(s)[k][i],
            ) by {
                if k < r.len() {
                    assert(split_lines(s)[k] == r[k]);
                    assert(p(r[k][i]));
                } else {
                    assert(split_lines(s)[k] == Seq::<char>::empty());
                }
            }
        } else {
            assert forall|k: int, i: int|
                0 <= k < split_lines(s).len() && 0 <= i < split_lines(s)[k].len() implies p(
                split_lines(s)[k][i],
            ) by {
                if k < r.len() - 1 {
                    assert(split_lines(s)[k] == r[k]);
                    assert(p(r[k][i]));
                } else {
                    assert(split_lines(s)[k] == r[r.len() - 1].push(s.last()));
                    if i < r[r.len() - 1].len() {
                        assert(p(r[r.len() - 1][i]));
                    } else {
                        assert(split_lines(s)[k][i] == s.last());
                    }
                }
            }
        }
    }
}

/// With no ESC character in the input, wrapping agrees with the plain
/// greedy character wrapper: escape handling never fires.
pub proof fn lemma_wrap_plain_greedy(
    text: Seq<char>,
    width: int,
    maintain: bool,
    ellipsis: bool,
    height: int,
)
    requires
        no_esc(text),
    ensures
        wrap_spec(text, width, maintain, ellipsis, height) == greedy_wrap(
            text,
            width,
            maintain,
            ellipsis,
            height,
        ),
{
    lemma_split_lines_chars(text, |c: char| c != '\u{1b}');
    let lines = split_lines(text);
    assert forall|t: int| 0 <= t < lines.len() implies no_esc(lines[t]) by {
        assert(forall|i: int| 0 <= i < lines[t].len() ==> lines[t][i] != '\u{1b}');
    }
    let input_len = lines.len() as int;
    let max_len = if height == 0 {
        input_len
    } else {
        height
    };
    let cfg = WrapConfig {
        width: width,
        maintain: maintain,
        ellipsis: ellipsis,
        max_len: max_len,
        input_len: input_len,
    };
    lemma_run_lines_greedy(cfg, lines, 0, Seq::empty());
}

/// Is `l` an acceptable output line: the ellipsis marker, or of display
/// width at most `width`?
pub open spec fn line_fits(l: Seq<char>, width: int) -> bool {
    l == ellipsis_marker() || line_width(l) <= width
}

/// Does every line of `rs` fit, in the sense of `line_fits`?
pub open spec fn all_fit(rs: Seq<Seq<char>>, width: int) -> bool {
    forall|j: int| 0 <= j < rs.len() ==> line_fits(rs[j], width)
}

proof fn lemma_greedy_line_bounded(
    cfg: WrapConfig,
    line: Seq<char>,
    i: int,
    visible: int,
    cur: Seq<char>,
    res: Seq<Seq<char>>,
)
    requires
        cfg.width >= 0,
        forall|t: int| 0 <= t < line.len() ==> char_width(line[t]) <= cfg.width,
        line_width(cur) == visible,
        visible <= cfg.width,
        all_fit(res, cfg.width),
    ensures
        all_fit(greedy_line(cfg, line, i, visible, cur, res).0, cfg.width),
    decreases line.len() - i,
{
    assert(line_width(Seq::<char>::empty()) == 0);
    assert(line_fits(cur, cfg.width));
    assert forall|x: Seq<char>| line_fits(x, cfg.width) implies all_fit(
        res.push(x),
        cfg.width,
    ) by {
        assert forall|j: int| 0 <= j < res.push(x).len() implies line_fits(
            res.push(x)[j],
            cfg.width,
        ) by {
            if j < res.len() {
                assert(res.push(x)[j] == res[j]);
            } else {
                assert(res.push(x)[j] == x);
            }
        }
    }
    assert(line_fits(ellipsis_marker(), cfg.width));
    if 0 <= i < line.len() {
        let w = char_width(line[i]) as int;
        if visible + w > cfg.width {
            match height_gate(cfg, res, cur) {
                Some(r) => {
                    assert(all_fit(r, cfg.width));
                },
                None => {
                    let res2 = res.push(cur);
                    assert(all_fit(res2, cfg.width));
                    if cfg.maintain {
                        assert(seq![line[i]].drop_last() =~= Seq::<char>::empty());
                        assert(line_width(seq![line[i]]) == w);
                        lemma_greedy_line_bounded(cfg, line, i + 1, w, seq![line[i]], res2);
                    }
                },
            }
        } else {
            assert(cur.push(line[i]).drop_last() =~= cur);
            assert(line_width(cur.push(line[i])) == visible + w);
            lemma_greedy_line_bounded(cfg, line, i + 1, visible + w, cur.push(line[i]), res);
        }
    } else {
        match height_gate(cfg, res, cur) {
            Some(r) => {
                assert(all_fit(r, cfg.width));
            },
            None => {
                assert(line_fits(Seq::<char>::empty(), cfg.width));
                assert(all_fit(res.push(cur), cfg.width));
                assert(all_fit(res.push(Seq::<char>::empty()), cfg.width));
            },
        }
    }
}

proof fn lemma_greedy_lines_bounded(
    cfg: WrapConfig,
    lines: Seq<Seq<char>>,
    k: int,
    res: Seq<Seq<char>>,
)
    requires
        cfg.width >= 0,
        forall|t: int, i: int|
            0 <= t < lines.len() && 0 <= i < lines[t].len() ==> char_width(lines[t][i])
                <= cfg.width,
        all_fit(res, cfg.width),
    ensures
        all_fit(greedy_lines(cfg, lines, k, res), cfg.width),
    decreases lines.len() - k,
{
    if 0 <= k < lines.len() {
        lemma_greedy_line_bounded(cfg, lines[k], 0, 0, Seq::empty(), res);
        let r = greedy_line(cfg, lines[k], 0, 0, Seq::empty(), res);
        if !r.1 {
            lemma_greedy_lines_bounded(cfg, lines, k + 1, r.0);
        }
    }
}

/// Every output line of a wrap of escape-free text, whose characters each
/// fit in the width limit, is either the `...` marker or of display width
/// at most that limit.
pub proof fn lemma_output_width_bounded(
    text: Seq<char>,
    width: int,
    maintain: bool,
    ellipsis: bool,
    height: int,
)
    requires
        width >= 1,
        no_esc(text),
        forall|t: int| 0 <= t < text.len() ==> char_width(text[t]) <= width,
    ensures
        all_fit(wrap_spec(text, width, maintain, ellipsis, height), width),
{
    lemma_wrap_plain_greedy(text, width, maintain, ellipsis, height);
    lemma_split_lines_chars(text, |c: char| char_width(c) <= width);
    let lines = split_lines(text);
    let input_len = lines.len() as int;
    let max_len = if height == 0 {
        input_len
    } else {
        height
    };
    let cfg = WrapConfig {
        width: width,
        maintain: maintain,
        ellipsis: ellipsis,
        max_len: max_len,
        input_len: input_len,
    };
    lemma_greedy_lines_bounded(cfg, lines, 0, Seq::empty());
}

proof fn lemma_line_scan_lb(line: Seq<char>, i: int, visible: int, active: Seq<char>)
    ensures
        line_scan(line, i, visible, active).0 >= visible,
    decreases line.len() - i,
{
    if 0 <= i < line.len() {
        match sgr_end(line, i) {
            Some(e) => {
                crate::scan::lemma_sgr_end(line, i);
                let sq = line.subrange(i, e);
                let active2 = if sq == crate::scan::reset_seq() {
                    Seq::<char>::empty()
                } else {
                    sq
                };
                lemma_line_scan_lb(line, e, visible, active2);
            },
            None => {
                lemma_line_scan_lb(line, i + 1, visible + char_width(line[i]) as int, active);
            },
        }
    }
}

proof fn lemma_run_line_id(
    cfg: WrapConfig,
    line: Seq<char>,
    i: int,
    visible: int,
    active: Seq<char>,
    res: Seq<Seq<char>>,
)
    requires
        0 <= i <= line.len(),
        line_scan(line, i, visible, active).0 <= cfg.width,
        line_scan(line, i, visible, active).1.len() == 0 || ends_with_reset(line),
        cfg.ellipsis && res.len() + 1 >= cfg.max_len ==> res.len() + 1 == cfg.input_len,
    ensures
        run_line(cfg, line, i, visible, line.take(i), active, res).0 == res.push(line),
    decreases line.len() - i,
{
    let cur = line.take(i);
    if i == line.len() {
        assert(cur =~= line);
        match height_gate(cfg, res, cur) {
            Some(r) => {
                assert(r == res.push(line));
            },
            None => {
                if line.len() == 0 {
                    assert(line =~= Seq::<char>::empty());
                } else {
                    assert(close_style(active, line) == line);
                }
            },
        }
    } else {
        match sgr_end(line, i) {
            Some(e) => {
                crate::scan::lemma_sgr_end(line, i);
                let sq = line.subrange(i, e);
                let active2 = if sq == crate::scan::reset_seq() {
                    Seq::<char>::empty()
                } else {
                    sq
                };
                assert(cur + sq =~= line.take(e));
                lemma_run_line_id(cfg, line, e, visible, active2, res);
            },
            None => {
                let w = char_width(line[i]) as int;
                lemma_line_scan_lb(line, i + 1, visible + w, active);
                assert(visible + w <= cfg.width);
                assert(cur.push(line[i]) =~= line.take(i + 1));
                lemma_run_line_id(cfg, line, i + 1, visible + w, active, res);
            },
        }
    }
}

proof fn lemma_split_single(l: Seq<char>)
    requires
        forall|i: int| 0 <= i < l.len() ==> l[i] != '\n',
    ensures
        split_lines(l) == seq![l],
    decreases l.len(),
{
    if l.len() == 0 {
        assert(l =~= Seq::<char>::empty());
        assert(split_lines(l) =~= seq![l]);
    } else {
        lemma_split_single(l.drop_last());
        let r = split_lines(l.drop_last());
        assert(l.last() != '\n');
        assert(r.last().push(l.last()) =~= l);
        assert(split_lines(l) =~= seq![l]);
    }
}

/// Idempotence: a single line that already fits — no newline, visible
/// width within the limit, no dangling style at its end — wraps to
/// exactly itself.
pub proof fn lemma_wrap_idempotent(
    l: Seq<char>,
    width: int,
    maintain: bool,
    ellipsis: bool,
    height: int,
)
    requires
        forall|i: int| 0 <= i < l.len() ==> l[i] != '\n',
        visible_width(l) <= width,
        trailing_active(l).len() == 0 || ends_with_reset(l),
    ensures
        wrap_spec(l, width, maintain, ellipsis, height) == seq![l],
{
    lemma_split_single(l);
    let lines = split_lines(l);
    let max_len = if height == 0 {
        1int
    } else {
        height
    };
    let cfg = WrapConfig {
        width: width,
        maintain: maintain,
        ellipsis: ellipsis,
        max_len: max_len,
        input_len: 1,
    };
    assert(l.take(0) =~= Seq::<char>::empty());
    lemma_run_line_id(cfg, l, 0, 0, Seq::empty(), Seq::empty());
    let r = run_line(cfg, l, 0, 0, Seq::empty(), Seq::empty(), Seq::empty());
    assert(r.0 == seq![l]);
    if !r.1 {
        assert(run_lines(cfg, lines, 1, r.0) == r.0);
    }
}

/// Does scanning any line of `rs` leave no style open?
pub open spec fn all_closed(rs: Seq<Seq<char>>) -> bool {
    forall|j: int| 0 <= j < rs.len() ==> trailing_active(rs[j]).len() == 0
}

/// The end of the SGR span starting at `p`, or the next position when
/// none starts there.
pub open spec fn sgr_span_end(line: Seq<char>, p: int) -> int {
    match sgr_end(line, p) {
        Some(e) => e,
        None => p + 1,
    }
}

/// Well-styled input line: every ESC starts a recognized SGR sequence,
/// and no ESC lies strictly inside the span of another.
pub open spec fn wf_styles(line: Seq<char>) -> bool {
    &&& scan_clean(line)
    &&& forall|p: int, q: int|
        0 <= p < q < line.len() && (#[trigger] line[p]) == '\u{1b}' && (#[trigger] line[q])
            == '\u{1b}' ==> q >= sgr_span_end(line, p)
}

/// The invariant of an output line under construction: every ESC in it
/// is recognized, scanning it yields exactly the active style `act`, it
/// ends with the reset only when no style is active, and the active
/// style itself is a single-escape non-reset sequence when not empty.
pub open spec fn styled(cur: Seq<char>, act: Seq<char>) -> bool {
    &&& scan_clean(cur)
    &&& line_scan(cur, 0, 0, Seq::empty()).1 == act
    &&& (ends_with_reset(cur) ==> act.len() == 0)
    &&& (act.len() == 0 || (sgr_block(act) && act != reset_seq()))
}

proof fn lemma_styled_empty()
    ensures
        styled(Seq::<char>::empty(), Seq::<char>::empty()),
        line_scan(Seq::<char>::empty(), 0, 0, Seq::empty()).0 == 0,
{
    assert(line_scan(Seq::<char>::empty(), 0, 0, Seq::empty()).1 =~= Seq::<char>::empty());
}

proof fn lemma_styled_push_char(cur: Seq<char>, act: Seq<char>, c: char)
    requires
        styled(cur, act),
        c != '\u{1b}',
    ensures
        styled(cur.push(c), act),
        line_scan(cur.push(c), 0, 0, Seq::empty()).0 == line_scan(cur, 0, 0, Seq::empty()).0
            + char_width(c) as int,
    decreases 0int,
{
    let s2 = cur.push(c);
    let ext = seq![c];
    assert(s2 =~= cur + ext);
    let ln = cur.len() as int;
    assert forall|p: int| 0 <= p < s2.len() && s2[p] == '\u{1b}' implies (#[trigger] sgr_end(
        s2,
        p,
    )) is Some by {
        if p < ln {
            assert(cur[p] == '\u{1b}');
            assert(sgr_end(cur, p) is Some);
            lemma_sgr_end_extend(cur, ext, p);
        }
    }
    lemma_scan_concat(cur, ext, 0, 0, Seq::empty());
    let m = line_scan(cur, 0, 0, Seq::empty());
    assert((cur + ext)[ln] == c);
    assert(sgr_end(cur + ext, ln) is None);
    assert(line_scan(cur + ext, ln, m.0, m.1) == line_scan(
        cur + ext,
        ln + 1,
        m.0 + char_width(c) as int,
        m.1,
    ));
    assert(line_scan(s2, 0, 0, Seq::empty()).1 == act);
    if act.len() > 0 {
        assert(!ends_with_reset(s2)) by {
            if ends_with_reset(s2) {
                let tail = s2.subrange(s2.len() - 4, s2.len() as int);
                assert(tail[0] == s2[ln - 3]);
                assert(cur[ln - 3] == '\u{1b}');
                assert(sgr_end(cur, ln - 3) is Some);
                lemma_sgr_end(cur, ln - 3);
                let e = sgr_span_end(cur, ln - 3);
                assert(e == ln);
                assert(cur[ln - 1] == 'm');
                assert(tail[2] == s2[ln - 1]);
                assert(tail[2] == reset_seq()[2]);
            }
        }
    }
}

proof fn lemma_styled_push_block(cur: Seq<char>, act: Seq<char>, sq: Seq<char>)
    requires
        styled(cur, act),
        sgr_block(sq),
    ensures
        styled(
            cur + sq,
            if sq == reset_seq() {
                Seq::<char>::empty()
            } else {
                sq
            },
        ),
        line_scan(cur + sq, 0, 0, Seq::empty()).0 == line_scan(cur, 0, 0, Seq::empty()).0,
{
    let s2 = cur + sq;
    let ln = cur.len() as int;
    lemma_block_append_end(cur, sq);
    assert forall|p: int| 0 <= p < s2.len() && s2[p] == '\u{1b}' implies (#[trigger] sgr_end(
        s2,
        p,
    )) is Some by {
        if p < ln {
            assert(cur[p] == '\u{1b}');
            assert(sgr_end(cur, p) is Some);
            lemma_sgr_end_extend(cur, sq, p);
        } else if p > ln {
            assert(s2[p] == sq[p - ln]);
            assert(sq[p - ln] != '\u{1b}');
        }
    }
    lemma_scan_concat(cur, sq, 0, 0, Seq::empty());
    let m = line_scan(cur, 0, 0, Seq::empty());
    let act2 = if sq == reset_seq() {
        Seq::<char>::empty()
    } else {
        sq
    };
    assert(line_scan(s2, ln, m.0, m.1) == line_scan(s2, ln + sq.len() as int, m.0, act2));
    assert(line_scan(s2, 0, 0, Seq::empty()).1 == act2);
    if act2.len() > 0 {
        assert(!ends_with_reset(s2)) by {
            if ends_with_reset(s2) {
                let tail = s2.subrange(s2.len() - 4, s2.len() as int);
                if sq.len() > 4 {
                    assert(tail[0] == s2[s2.len() - 4]);
                    assert(s2[s2.len() - 4] == sq[sq.len() - 4]);
                    assert(sq[sq.len() - 4] != '\u{1b}');
                } else if sq.len() == 4 {
                    assert(tail =~= sq);
                } else {
                    assert(tail[2] == s2[s2.len() - 2]);
                    assert(s2[s2.len() - 2] == sq[1]);
                    assert(tail[2] == reset_seq()[2]);
                }
            }
        }
    }
}

proof fn lemma_styled_closed(cur: Seq<char>, act: Seq<char>)
    requires
        styled(cur, act),
    ensures
        trailing_active(close_style(act, cur)).len() == 0,
        visible_width(close_style(act, cur)) == visible_width(cur),
{
    if act.len() > 0 {
        assert(!ends_with_reset(cur));
        assert(sgr_block(reset_seq())) by {
            assert(reset_seq()[2] == '0');
            assert(!crate::scan::is_ascii_alpha('0'));
        }
        lemma_styled_push_block(cur, act, reset_seq());
    }
}

proof fn lemma_styled_self(act: Seq<char>)
    requires
        sgr_block(act),
        act != reset_seq(),
    ensures
        styled(act, act),
        visible_width(act) == 0,
{
    lemma_styled_empty();
    lemma_styled_push_block(Seq::<char>::empty(), Seq::<char>::empty(), act);
    assert(Seq::<char>::empty() + act =~= act);
}

proof fn lemma_wf_block(line: Seq<char>, i: int, e: int)
    requires
        wf_styles(line),
        sgr_end(line, i) == Some(e),
    ensures
        sgr_block(line.subrange(i, e)),
{
    lemma_sgr_end(line, i);
    let sq = line.subrange(i, e);
    assert forall|t: int| 1 <= t < sq.len() implies sq[t] != '\u{1b}' by {
        assert(sq[t] == line[i + t]);
        if line[i + t] == '\u{1b}' {
            assert(i + t >= sgr_span_end(line, i));
        }
    }
    assert(sq[0] == line[i]);
    assert(sq[1] == line[i + 1]);
    assert(sq.last() == line[e - 1]);
    assert forall|t: int| 2 <= t < sq.len() - 1 implies !crate::scan::is_ascii_alpha(sq[t]) by {
        assert(sq[t] == line[i + t]);
    }
}

proof fn lemma_marker_closed()
    ensures
        trailing_active(ellipsis_marker()).len() == 0,
{
    let m = ellipsis_marker();
    let w = char_width('.') as int;
    assert(line_scan(m, 0, 0, Seq::empty()) == line_scan(m, 1, w, Seq::empty()));
    assert(line_scan(m, 1, w, Seq::empty()) == line_scan(m, 2, w + w, Seq::empty()));
    assert(line_scan(m, 2, w + w, Seq::empty()) == line_scan(m, 3, w + w + w, Seq::empty()));
    assert(line_scan(m, 3, w + w + w, Seq::empty()).1 =~= Seq::<char>::empty());
}

proof fn lemma_run_line_closed(
    cfg: WrapConfig,
    line: Seq<char>,
    i: int,
    visible: int,
    cur: Seq<char>,
    act: Seq<char>,
    res: Seq<Seq<char>>,
)
    requires
        0 <= i <= line.len(),
        wf_styles(line),
        styled(cur, act),
        all_closed(res),
    ensures
        all_closed(run_line(cfg, line, i, visible, cur, act, res).0),
    decreases line.len() - i,
{
    assert forall|x: Seq<char>| trailing_active(x).len() == 0 implies all_closed(res.push(x)) by {
        assert forall|j: int| 0 <= j < res.push(x).len() implies trailing_active(
            res.push(x)[j],
        ).len() == 0 by {
            if j < res.len() {
                assert(res.push(x)[j] == res[j]);
            } else {
                assert(res.push(x)[j] == x);
            }
        }
    }
    if i == line.len() {
        lemma_styled_closed(cur, act);
        lemma_marker_closed();
        if cur.len() == 0 {
            lemma_styled_empty();
            assert(trailing_active(Seq::<char>::empty()) =~= Seq::<char>::empty());
        }
    } else {
        match sgr_end(line, i) {
            Some(e) => {
                lemma_sgr_end(line, i);
                lemma_wf_block(line, i, e);
                let sq = line.subrange(i, e);
                lemma_styled_push_block(cur, act, sq);
                let act2 = if sq == reset_seq() {
                    Seq::<char>::empty()
                } else {
                    sq
                };
                lemma_run_line_closed(cfg, line, e, visible, cur + sq, act2, res);
            },
            None => {
                assert(line[i] != '\u{1b}');
                let w = char_width(line[i]) as int;
                if visible + w > cfg.width {
                    lemma_styled_closed(cur, act);
                    lemma_marker_closed();
                    let closed = close_style(act, cur);
                    let res2 = res.push(closed);
                    assert(all_closed(res2));
                    if height_gate(cfg, res, closed) is None && cfg.maintain {
                        let cur2 = if act.len() > 0 {
                            act
                        } else {
                            Seq::<char>::empty()
                        };
                        if act.len() > 0 {
                            lemma_styled_self(act);
                        } else {
                            lemma_styled_empty();
                            assert(act =~= Seq::<char>::empty());
                        }
                        lemma_styled_push_char(cur2, act, line[i]);
                        lemma_run_line_closed(cfg, line, i + 1, w, cur2.push(line[i]), act, res2);
                    }
                } else {
                    lemma_styled_push_char(cur, act, line[i]);
                    lemma_run_line_closed(
                        cfg,
                        line,
                        i + 1,
                        visible + w,
                        cur.push(line[i]),
                        act,
                        res,
                    );
                }
            },
        }
    }
}

proof fn lemma_run_lines_closed(
    cfg: WrapConfig,
    lines: Seq<Seq<char>>,
    k: int,
    res: Seq<Seq<char>>,
)
    requires
        forall|t: int| 0 <= t < lines.len() ==> wf_styles(#[trigger] lines[t]),
        all_closed(res),
    ensures
        all_closed(run_lines(cfg, lines, k, res)),
    decreases lines.len() - k,
{
    if 0 <= k < lines.len() {
        lemma_styled_empty();
        lemma_run_line_closed(cfg, lines[k], 0, 0, Seq::empty(), Seq::empty(), res);
        let r = run_line(cfg, lines[k], 0, 0, Seq::empty(), Seq::empty(), res);
        if !r.1 {
            lemma_run_lines_closed(cfg, lines, k + 1, r.0);
        }
    }
}

/// Style containment: with every logical line well-styled, no output
/// line leaks a style past its end: scanning any output line in
/// isolation leaves no active style. Holds under any policy; in
/// particular an ellipsis-capped final line carries its reset.
pub proof fn lemma_style_contained(
    text: Seq<char>,
    width: int,
    maintain: bool,
    ellipsis: bool,
    height: int,
)
    requires
        forall|k: int|
            0 <= k < split_lines(text).len() ==> wf_styles(#[trigger] split_lines(text)[k]),
    ensures
        all_closed(wrap_spec(text, width, maintain, ellipsis, height)),
{
    let lines = split_lines(text);
    let input_len = lines.len() as int;
    let max_len = if height == 0 {
        input_len
    } else {
        height
    };
    let cfg = WrapConfig {
        width: width,
        maintain: maintain,
        ellipsis: ellipsis,
        max_len: max_len,
        input_len: input_len,
    };
    lemma_run_lines_closed(cfg, lines, 0, Seq::empty());
}

proof fn lemma_run_line_capped(
    cfg: WrapConfig,
    line: Seq<char>,
    i: int,
    visible: int,
    cur: Seq<char>,
    act: Seq<char>,
    res: Seq<Seq<char>>,
)
    requires
        cfg.ellipsis,
        res.len() < cfg.max_len,
    ensures
        run_line(cfg, line, i, visible, cur, act, res).1 ==> run_line(
            cfg,
            line,
            i,
            visible,
            cur,
            act,
            res,
        ).0.len() <= cfg.max_len,
        !run_line(cfg, line, i, visible, cur, act, res).1 ==> run_line(
            cfg,
            line,
            i,
            visible,
            cur,
            act,
            res,
        ).0.len() < cfg.max_len,
    decreases line.len() - i,
{
    if 0 <= i < line.len() {
        match sgr_end(line, i) {
            Some(e) => {
                lemma_sgr_end(line, i);
                let sq = line.subrange(i, e);
                let act2 = if sq == reset_seq() {
                    Seq::<char>::empty()
                } else {
                    sq
                };
                lemma_run_line_capped(cfg, line, e, visible, cur + sq, act2, res);
            },
            None => {
                let w = char_width(line[i]) as int;
                if visible + w > cfg.width {
                    let closed = close_style(act, cur);
                    if height_gate(cfg, res, closed) is None && cfg.maintain {
                        let cur2 = if act.len() > 0 {
                            act
                        } else {
                            Seq::<char>::empty()
                        };
                        lemma_run_line_capped(
                            cfg,
                            line,
                            i + 1,
                            w,
                            cur2.push(line[i]),
                            act,
                            res.push(closed),
                        );
                    }
                } else {
                    lemma_run_line_capped(cfg, line, i + 1, visible + w, cur.push(line[i]), act, res);
                }
            },
        }
    }
}

proof fn lemma_run_lines_capped(cfg: WrapConfig, lines: Seq<Seq<char>>, k: int, res: Seq<Seq<char>>)
    requires
        cfg.ellipsis,
        res.len() < cfg.max_len,
    ensures
        run_lines(cfg, lines, k, res).len() <= cfg.max_len,
    decreases lines.len() - k,
{
    if 0 <= k < lines.len() {
        lemma_run_line_capped(cfg, lines[k], 0, 0, Seq::empty(), Seq::empty(), res);
        let r = run_line(cfg, lines[k], 0, 0, Seq::empty(), Seq::empty(), res);
        if !r.1 {
            lemma_run_lines_capped(cfg, lines, k + 1, r.0);
        }
    }
}

/// With the ellipsis policy on, the output never exceeds the height cap:
/// `height` lines when `height` is positive, the input line count when
/// `height` is zero.
pub proof fn lemma_height_capped(text: Seq<char>, width: int, maintain: bool, height: int)
    requires
        height >= 0,
    ensures
        wrap_spec(text, width, maintain, true, height).len() <= (if height == 0 {
            split_lines(text).len() as int
        } else {
            height
        }),
{
    let lines = split_lines(text);
    lemma_split_lines_len(text);
    let input_len = lines.len() as int;
    let max_len = if height == 0 {
        input_len
    } else {
        height
    };
    let cfg = WrapConfig {
        width: width,
        maintain: maintain,
        ellipsis: true,
        max_len: max_len,
        input_len: input_len,
    };
    lemma_run_lines_capped(cfg, lines, 0, Seq::empty());
}

/// Is `l` an acceptable output line in the visible sense: the ellipsis
/// marker, or of visible (escape-free) display width at most `width`?
pub open spec fn line_fits_visible(l: Seq<char>, width: int) -> bool {
    l == ellipsis_marker() || visible_width(l) <= width
}

/// An over-wide exception line: its visible content fits within one
/// single character whose own display width already exceeds the limit.
pub open spec fn lone_wide_char(l: Seq<char>, width: int) -> bool {
    exists|c: char| char_width(c) > width && visible_width(l) <= char_width(c)
}

/// An output line within bounds, or one of the two named exceptions:
/// the `...` marker, or a lone over-wide character.
pub open spec fn line_fits_or_lone_wide(l: Seq<char>, width: int) -> bool {
    line_fits_visible(l, width) || lone_wide_char(l, width)
}

/// Does every line of `rs` fit, in the sense of `line_fits_or_lone_wide`?
pub open spec fn all_fit_or_lone_wide(rs: Seq<Seq<char>>, width: int) -> bool {
    forall|j: int| 0 <= j < rs.len() ==> line_fits_or_lone_wide(rs[j], width)
}

proof fn lemma_scan_to_terminator(t: Seq<char>, p: int, q: int)
    requires
        0 <= p <= q <= t.len(),
        1 <= q,
        t[q - 1] == 'm',
        forall|u: int| p <= u < q - 1 ==> !is_ascii_alpha(t[u]),
    ensures
        line_scan(t, p, 0, Seq::empty()).0 >= line_scan(t, q, 0, Seq::empty()).0,
    decreases q - p,
{
    if p < q {
        match sgr_end(t, p) {
            Some(e) => {
                lemma_sgr_end(t, p);
                assert(is_ascii_alpha('m'));
                assert(p != q - 1);
                assert(p != q - 2);
                if e < q {
                    assert(!is_ascii_alpha(t[e - 1]));
                    assert(false);
                }
                if e > q {
                    assert(!is_ascii_alpha(t[q - 1]));
                    assert(false);
                }
                let sq = t.subrange(p, e);
                let a2 = if sq == reset_seq() {
                    Seq::<char>::empty()
                } else {
                    sq
                };
                lemma_scan_vis(t, q, 0, a2);
            },
            None => {
                lemma_scan_to_terminator(t, p + 1, q);
                lemma_scan_vis(t, p + 1, char_width(t[p]) as int, Seq::empty());
            },
        }
    }
}

proof fn lemma_scan_concat_le(s: Seq<char>, t: Seq<char>, i: int)
    requires
        0 <= i <= s.len(),
    ensures
        line_scan(s + t, i, 0, Seq::empty()).0 <= line_scan(s, i, 0, Seq::empty()).0 + line_scan(
            t,
            0,
            0,
            Seq::empty(),
        ).0,
    decreases s.len() - i,
{
    if i == s.len() {
        lemma_scan_shift(s, t, 0, 0, Seq::empty());
    } else {
        match sgr_end(s, i) {
            Some(e) => {
                lemma_sgr_end(s, i);
                crate::scan::lemma_sgr_end_extend(s, t, i);
                assert((s + t).subrange(i, e) =~= s.subrange(i, e));
                let sq = s.subrange(i, e);
                let a2 = if sq == reset_seq() {
                    Seq::<char>::empty()
                } else {
                    sq
                };
                lemma_scan_vis(s + t, e, 0, a2);
                lemma_scan_vis(s, e, 0, a2);
                lemma_scan_concat_le(s, t, e);
            },
            None => {
                assert((s + t)[i] == s[i]);
                let w = char_width(s[i]) as int;
                match sgr_end(s + t, i) {
                    None => {
                        lemma_scan_vis(s + t, i + 1, w, Seq::empty());
                        lemma_scan_vis(s, i + 1, w, Seq::empty());
                        lemma_scan_concat_le(s, t, i + 1);
                    },
                    Some(e2) => {
                        lemma_sgr_end(s + t, i);
                        assert(is_ascii_alpha('m'));
                        if e2 <= s.len() {
                            assert(s[i] == '\u{1b}');
                            assert(s[i + 1] == (s + t)[i + 1]);
                            assert forall|u: int| i + 2 <= u < e2 - 1 implies !is_ascii_alpha(
                                s[u],
                            ) by {
                                assert(s[u] == (s + t)[u]);
                            }
                            assert(s[e2 - 1] == (s + t)[e2 - 1]);
                            lemma_find_alpha_is(s, i + 2, e2 - 1);
                            assert(sgr_end(s, i) is Some);
                            assert(false);
                        } else {
                            let q = e2 - s.len();
                            let sq2 = (s + t).subrange(i, e2);
                            let a2 = if sq2 == reset_seq() {
                                Seq::<char>::empty()
                            } else {
                                sq2
                            };
                            lemma_scan_vis(s + t, e2, 0, a2);
                            lemma_scan_shift(s, t, q, 0, Seq::empty());
                            assert(t[q - 1] == (s + t)[e2 - 1]);
                            assert(!is_ascii_alpha('['));
                            assert forall|u: int| 0 <= u < q - 1 implies !is_ascii_alpha(t[u]) by {
                                assert((s + t)[s.len() + u] == t[u]);
                                if s.len() + u < i + 2 {
                                    assert(s.len() + u == i + 1);
                                    assert((s + t)[i + 1] == '[');
                                }
                            }
                            lemma_scan_to_terminator(t, 0, q);
                            lemma_line_scan_lb(s, i, 0, Seq::empty());
                        }
                    },
                }
            },
        }
    }
}

/// Appending text can only merge characters into a larger recognized
/// escape sequence, never expose more: visible width is subadditive
/// under concatenation.
pub proof fn lemma_visible_width_subadd(s: Seq<char>, t: Seq<char>)
    ensures
        visible_width(s + t) <= visible_width(s) + visible_width(t),
{
    lemma_scan_concat_le(s, t, 0);
}

proof fn lemma_vw_empty()
    ensures
        visible_width(Seq::<char>::empty()) == 0,
{
    assert(line_scan(Seq::<char>::empty(), 0, 0, Seq::empty()).0 == 0);
}

proof fn lemma_vw_singleton(c: char)
    ensures
        visible_width(seq![c]) == char_width(c),
{
    let l = seq![c];
    assert(sgr_end(l, 0) is None);
    assert(line_scan(l, 0, 0, Seq::empty()).0 == line_scan(
        l,
        1,
        char_width(c) as int,
        Seq::empty(),
    ).0);
}

proof fn lemma_vw_shape(sq: Seq<char>)
    requires
        sgr_shape(sq),
    ensures
        visible_width(sq) == 0,
{
    lemma_block_append_end(Seq::<char>::empty(), sq);
    assert(Seq::<char>::empty() + sq =~= sq);
    assert(sgr_end(sq, 0) == Some(sq.len() as int));
    assert(sq.subrange(0, sq.len() as int) =~= sq);
    let a2 = if sq == reset_seq() {
        Seq::<char>::empty()
    } else {
        sq
    };
    assert(line_scan(sq, 0, 0, Seq::empty()).0 == line_scan(sq, sq.len() as int, 0, a2).0);
}

proof fn lemma_run_line_visible(
    cfg: WrapConfig,
    line: Seq<char>,
    i: int,
    visible: int,
    cur: Seq<char>,
    act: Seq<char>,
    res: Seq<Seq<char>>,
)
    requires
        cfg.width >= 0,
        0 <= i <= line.len(),
        visible_width(cur) <= visible,
        visible <= cfg.width || (exists|c: char|
            char_width(c) > cfg.width && visible <= char_width(c)),
        visible_width(act) == 0,
        all_fit_or_lone_wide(res, cfg.width),
    ensures
        all_fit_or_lone_wide(run_line(cfg, line, i, visible, cur, act, res).0, cfg.width),
    decreases line.len() - i,
{
    assert forall|x: Seq<char>| line_fits_or_lone_wide(x, cfg.width) implies all_fit_or_lone_wide(
        res.push(x),
        cfg.width,
    ) by {
        assert forall|j: int| 0 <= j < res.push(x).len() implies line_fits_or_lone_wide(
            res.push(x)[j],
            cfg.width,
        ) by {
            if j < res.len() {
                assert(res.push(x)[j] == res[j]);
            } else {
                assert(res.push(x)[j] == x);
            }
        }
    }
    assert(line_fits_or_lone_wide(ellipsis_marker(), cfg.width));
    assert(!is_ascii_alpha('0'));
    assert(sgr_shape(reset_seq()));
    lemma_vw_shape(reset_seq());
    let closed = close_style(act, cur);
    if act.len() > 0 && !ends_with_reset(cur) {
        lemma_visible_width_subadd(cur, reset_seq());
    }
    assert(visible_width(closed) <= visible);
    assert(line_fits_or_lone_wide(closed, cfg.width)) by {
        if visible > cfg.width {
            let c = choose|c: char| char_width(c) > cfg.width && visible <= char_width(c);
            assert(char_width(c) > cfg.width && visible_width(closed) <= char_width(c));
        }
    }
    if i == line.len() {
        match height_gate(cfg, res, closed) {
            Some(r) => {},
            None => {
                if cur.len() > 0 {
                } else if line.len() == 0 {
                    lemma_vw_empty();
                    assert(line_fits_or_lone_wide(Seq::<char>::empty(), cfg.width));
                }
            },
        }
    } else {
        match sgr_end(line, i) {
            Some(e) => {
                lemma_sgr_end(line, i);
                let sq = line.subrange(i, e);
                assert(sgr_shape(sq)) by {
                    assert(sq[0] == line[i]);
                    assert(sq[1] == line[i + 1]);
                    assert(sq.last() == line[e - 1]);
                    assert forall|u: int| 2 <= u < sq.len() - 1 implies !is_ascii_alpha(sq[u]) by {
                        assert(sq[u] == line[i + u]);
                    }
                }
                lemma_vw_shape(sq);
                lemma_visible_width_subadd(cur, sq);
                let act2 = if sq == reset_seq() {
                    Seq::<char>::empty()
                } else {
                    sq
                };
                if sq == reset_seq() {
                    lemma_vw_empty();
                }
                lemma_run_line_visible(cfg, line, e, visible, cur + sq, act2, res);
            },
            None => {
                let w = char_width(line[i]) as int;
                lemma_vw_singleton(line[i]);
                if visible + w > cfg.width {
                    match height_gate(cfg, res, closed) {
                        Some(r) => {
                            assert(all_fit_or_lone_wide(r, cfg.width));
                        },
                        None => {
                            let res2 = res.push(closed);
                            assert(all_fit_or_lone_wide(res2, cfg.width));
                            if cfg.maintain {
                                let cur2 = if act.len() > 0 {
                                    act
                                } else {
                                    Seq::<char>::empty()
                                };
                                if act.len() == 0 {
                                    lemma_vw_empty();
                                    assert(act =~= Seq::<char>::empty());
                                }
                                lemma_visible_width_subadd(cur2, seq![line[i]]);
                                assert(cur2.push(line[i]) =~= cur2 + seq![line[i]]);
                                if w > cfg.width {
                                    assert(char_width(line[i]) as int > cfg.width && w
                                        <= char_width(line[i]) as int);
                                }
                                lemma_run_line_visible(
                                    cfg,
                                    line,
                                    i + 1,
                                    w,
                                    cur2.push(line[i]),
                                    act,
                                    res2,
                                );
                            }
                        },
                    }
                } else {
                    lemma_visible_width_subadd(cur, seq![line[i]]);
                    assert(cur.push(line[i]) =~= cur + seq![line[i]]);
                    lemma_run_line_visible(
                        cfg,
                        line,
                        i + 1,
                        visible + w,
                        cur.push(line[i]),
                        act,
                        res,
                    );
                }
            },
        }
    }
}

proof fn lemma_run_lines_visible(
    cfg: WrapConfig,
    lines: Seq<Seq<char>>,
    k: int,
    res: Seq<Seq<char>>,
)
    requires
        cfg.width >= 0,
        all_fit_or_lone_wide(res, cfg.width),
    ensures
        all_fit_or_lone_wide(run_lines(cfg, lines, k, res), cfg.width),
    decreases lines.len() - k,
{
    if 0 <= k < lines.len() {
        lemma_vw_empty();
        lemma_run_line_visible(cfg, lines[k], 0, 0, Seq::empty(), Seq::empty(), res);
        let r = run_line(cfg, lines[k], 0, 0, Seq::empty(), Seq::empty(), res);
        if !r.1 {
            lemma_run_lines_visible(cfg, lines, k + 1, r.0);
        }
    }
}

/// Every output line of a wrap of any text has visible display width —
/// escape sequences not counted — at most the limit, with the two
/// exceptions named in `line_fits_or_lone_wide`: the `...` marker, and
/// a line whose visible content fits within one character that is
/// itself wider than the limit.
pub proof fn lemma_visible_width_bounded(
    text: Seq<char>,
    width: int,
    maintain: bool,
    ellipsis: bool,
    height: int,
)
    requires
        width >= 1,
    ensures
        all_fit_or_lone_wide(wrap_spec(text, width, maintain, ellipsis, height), width),
{
    let lines = split_lines(text);
    let input_len = lines.len() as int;
    let max_len = if height == 0 {
        input_len
    } else {
        height
    };
    let cfg = WrapConfig {
        width: width,
        maintain: maintain,
        ellipsis: ellipsis,
        max_len: max_len,
        input_len: input_len,
    };
    lemma_run_lines_visible(cfg, lines, 0, Seq::empty());
}

/// `run_line` only appends to the emitted lines: whatever was already
/// in `res` stays, in place.
proof fn lemma_run_line_extends(
    cfg: WrapConfig,
    line: Seq<char>,
    i: int,
    visible: int,
    cur: Seq<char>,
    active: Seq<char>,
    res: Seq<Seq<char>>,
)
    ensures
        run_line(cfg, line, i, visible, cur, active, res).0.len() >= res.len(),
        run_line(cfg, line, i, visible, cur, active, res).0.take(res.len() as int) == res,
    decreases line.len() - i,
{
    let r = run_line(cfg, line, i, visible, cur, active, res);
    if i < 0 || i >= line.len() {
        let closed = close_style(active, cur);
        match height_gate(cfg, res, closed) {
            Some(rr) => {
                assert(rr.take(res.len() as int) =~= res);
            },
            None => {
                assert(res.push(closed).take(res.len() as int) =~= res);
                assert(res.push(Seq::<char>::empty()).take(res.len() as int) =~= res);
                assert(res.take(res.len() as int) =~= res);
            },
        }
    } else {
        match sgr_end(line, i) {
            Some(e) => {
                lemma_sgr_end(line, i);
                let sq = line.subrange(i, e);
                let active2 = if sq == reset_seq() {
                    Seq::<char>::empty()
                } else {
                    sq
                };
                lemma_run_line_extends(cfg, line, e, visible, cur + sq, active2, res);
            },
            None => {
                let w = char_width(line[i]) as int;
                if visible + w > cfg.width {
                    let closed = close_style(active, cur);
                    match height_gate(cfg, res, closed) {
                        Some(rr) => {
                            assert(rr.take(res.len() as int) =~= res);
                        },
                        None => {
                            let res2 = res.push(closed);
                            assert(res2.take(res.len() as int) =~= res);
                            if !cfg.maintain {
                            } else {
                                let cur2 = if active.len() > 0 {
                                    active
                                } else {
                                    Seq::<char>::empty()
                                };
                                lemma_run_line_extends(
                                    cfg,
                                    line,
                                    i + 1,
                                    w,
                                    cur2.push(line[i]),
                                    active,
                                    res2,
                                );
                                assert forall|j: int| 0 <= j < res.len() implies #[trigger] r.0.take(
                                    res.len() as int,
                                )[j] == res[j] by {
                                    assert(r.0.take(res2.len() as int)[j] == res2[j]);
                                }
                                assert(r.0.take(res.len() as int) =~= res);
                            }
                        },
                    }
                } else {
                    lemma_run_line_extends(
                        cfg,
                        line,
                        i + 1,
                        visible + w,
                        cur.push(line[i]),
                        active,
                        res,
                    );
                }
            },
        }
    }
}

/// The next line that `run_line` emits from a state with a non-empty
/// buffer keeps that buffer as its prefix, unless it is replaced by the
/// `...` marker at the height gate.
proof fn lemma_next_line_prefix(
    cfg: WrapConfig,
    line: Seq<char>,
    i: int,
    visible: int,
    cur: Seq<char>,
    active: Seq<char>,
    res: Seq<Seq<char>>,
)
    requires
        0 <= i <= line.len(),
        cur.len() > 0,
    ensures
        run_line(cfg, line, i, visible, cur, active, res).0.len() > res.len(),
        run_line(cfg, line, i, visible, cur, active, res).0[res.len() as int] == ellipsis_marker()
            || cur.is_prefix_of(run_line(cfg, line, i, visible, cur, active, res).0[res.len() as int]),
    decreases line.len() - i,
{
    let r = run_line(cfg, line, i, visible, cur, active, res);
    if i >= line.len() {
        let closed = close_style(active, cur);
        assert(cur.is_prefix_of(closed));
    } else {
        match sgr_end(line, i) {
            Some(e) => {
                lemma_sgr_end(line, i);
                let sq = line.subrange(i, e);
                let active2 = if sq == reset_seq() {
                    Seq::<char>::empty()
                } else {
                    sq
                };
                let cur2 = cur + sq;
                lemma_next_line_prefix(cfg, line, e, visible, cur2, active2, res);
                let lline = r.0[res.len() as int];
                if lline != ellipsis_marker() {
                    assert(cur2.is_prefix_of(lline));
                    assert(cur.is_prefix_of(lline)) by {
                        assert forall|j: int| 0 <= j < cur.len() implies cur[j] == #[trigger] lline.subrange(
                            0,
                            cur.len() as int,
                        )[j] by {
                            assert(cur2[j] == lline.subrange(0, cur2.len() as int)[j]);
                        }
                    }
                }
            },
            None => {
                let w = char_width(line[i]) as int;
                if visible + w > cfg.width {
                    let closed = close_style(active, cur);
                    assert(cur.is_prefix_of(closed));
                    match height_gate(cfg, res, closed) {
                        Some(rr) => {},
                        None => {
                            let res2 = res.push(closed);
                            if cfg.maintain {
                                let cur2 = if active.len() > 0 {
                                    active
                                } else {
                                    Seq::<char>::empty()
                                };
                                lemma_run_line_extends(
                                    cfg,
                                    line,
                                    i + 1,
                                    w,
                                    cur2.push(line[i]),
                                    active,
                                    res2,
                                );
                                assert(r.0.take(res2.len() as int)[res.len() as int] == res2[res.len() as int]);
                            }
                        },
                    }
                } else {
                    let cur2 = cur.push(line[i]);
                    lemma_next_line_prefix(cfg, line, i + 1, visible + w, cur2, active, res);
                    let lline = r.0[res.len() as int];
                    if lline != ellipsis_marker() {
                        assert(cur2.is_prefix_of(lline));
                        assert(cur.is_prefix_of(lline)) by {
                            assert forall|j: int| 0 <= j < cur.len() implies cur[j] == #[trigger] lline.subrange(
                                0,
                                cur.len() as int,
                            )[j] by {
                                assert(cur2[j] == lline.subrange(0, cur2.len() as int)[j]);
                            }
                        }
                    }
                }
            },
        }
    }
}

/// A continuation line begins with the style active at the forced break
/// that opened it: after a break with `maintain` on, a non-empty active
/// style, and the height gate letting the pass continue, the output
/// line following the one closed by the break either is the `...`
/// marker or starts with exactly that style sequence. Together with
/// `lemma_style_contained`: such a line re-emits the style and closes
/// it, so it renders self-consistently in isolation.
pub proof fn lemma_continuation_begins_with_style(
    cfg: WrapConfig,
    line: Seq<char>,
    i: int,
    visible: int,
    cur: Seq<char>,
    active: Seq<char>,
    res: Seq<Seq<char>>,
)
    requires
        cfg.maintain,
        active.len() > 0,
        0 <= i < line.len(),
        sgr_end(line, i) is None,
        visible + char_width(line[i]) as int > cfg.width,
        height_gate(cfg, res, close_style(active, cur)) is None,
    ensures
        run_line(cfg, line, i, visible, cur, active, res).0.len() >= res.len() + 2,
        run_line(cfg, line, i, visible, cur, active, res).0[res.len() as int + 1]
            == ellipsis_marker() || active.is_prefix_of(
            run_line(cfg, line, i, visible, cur, active, res).0[res.len() as int + 1],
        ),
{
    let r = run_line(cfg, line, i, visible, cur, active, res);
    let w = char_width(line[i]) as int;
    let closed = close_style(active, cur);
    let res2 = res.push(closed);
    let cur2 = active.push(line[i]);
    lemma_next_line_prefix(cfg, line, i + 1, w, cur2, active, res2);
    let lline = r.0[res.len() as int + 1];
    if lline != ellipsis_marker() {
        assert(cur2.is_prefix_of(lline));
        assert(active.is_prefix_of(lline)) by {
            assert forall|j: int| 0 <= j < active.len() implies active[j] == #[trigger] lline.subrange(
                0,
                active.len() as int,
            )[j] by {
                assert(cur2[j] == lline.subrange(0, cur2.len() as int)[j]);
            }
        }
    }
}

} // verus!
