//! Where the cursor and the screen are after a move, in lines of the text and rows
//! of bytes.

use crate::command::ViewOp;
use crate::cursor;
use crate::line_index;
use crate::line_index::newline_places;
use crate::session;
use crate::tui::viewport;
use vstd::prelude::*;

verus! {

/// How many newlines are before `p` in `doc`: the number of the line that `p` is
/// in, from zero on.
pub open spec fn line_number(doc: Seq<u8>, p: int) -> int {
    newline_places(doc.take(p)).len() as int
}

/// Where in `doc` the line starts that `p` is in: behind the last newline before it.
pub open spec fn line_begin(doc: Seq<u8>, p: int) -> int {
    let places = newline_places(doc.take(p));
    if places.len() == 0 {
        0
    } else {
        places.last() + 1
    }
}

/// `p` is at the end of its line: at a newline, or at the end of `doc`.
pub open spec fn at_line_end(doc: Seq<u8>, p: int) -> bool {
    p == doc.len() || doc[p] == 10
}

/// `line`, or the nearer one of the first and the last line of `doc`.
pub open spec fn existing_line(doc: Seq<u8>, line: int) -> int {
    let last = newline_places(doc).len() as int;
    if line <= 0 {
        0
    } else if line >= last {
        last
    } else {
        line
    }
}

/// The newlines are the places of the bytes that are newlines, each once and in
/// order.
pub proof fn law_newlines_are_where_they_are(doc: Seq<u8>)
    ensures
        forall|i: int|
            0 <= i < doc.len() ==> (doc[i] == 10 <==> #[trigger] newline_places(doc).contains(i)),
        forall|k: int|
            0 <= k < newline_places(doc).len() ==> 0 <= #[trigger] newline_places(doc)[k]
                < doc.len() && doc[newline_places(doc)[k]] == 10,
        forall|k: int, l: int|
            0 <= k < l < newline_places(doc).len() ==> newline_places(doc)[k]
                < newline_places(doc)[l],
    decreases doc.len(),
{
    if doc.len() > 0 {
        let front = doc.drop_last();
        let places = newline_places(doc);
        law_newlines_are_where_they_are(front);
        assert forall|k: int| 0 <= k < places.len() implies 0 <= #[trigger] places[k] < doc.len()
            && doc[places[k]] == 10 by {
            if k < newline_places(front).len() {
                assert(newline_places(front)[k] == places[k]);
                assert(front[places[k]] == doc[places[k]]);
            }
        }
        assert forall|i: int| 0 <= i < doc.len() implies (doc[i] == 10
            <==> #[trigger] places.contains(i)) by {
            if i < front.len() {
                assert(doc[i] == front[i]);
                if doc[i] == 10 {
                    assert(newline_places(front).contains(i));
                    let k = newline_places(front).index_of(i);
                    assert(places[k] == i);
                }
            } else if doc[i] == 10 {
                assert(places[places.len() - 1] == i);
            }
        }
    }
}

/// The line of a place, as numbers and starts of lines are looked up.
pub proof fn lemma_line_in(doc: Seq<u8>, at: int)
    requires
        0 <= at <= doc.len(),
    ensures
        ({
            let nls = newline_places(doc);
            let size = doc.len() as int;
            &&& line_index::in_order(nls, size)
            &&& line_index::count_before(nls, at) == line_number(doc, at)
            &&& line_index::start_of(nls, size, line_number(doc, at)) == line_begin(doc, at)
            &&& 0 <= line_begin(doc, at) <= at
            &&& 0 <= line_number(doc, at) <= nls.len()
        }),
{
    let head = doc.take(at);
    let tail = doc.skip(at);
    let nls = newline_places(doc);
    let before = newline_places(head);
    assert(head + tail =~= doc);
    line_index::lemma_places_append(head, tail);
    line_index::lemma_places_within(head);
    line_index::lemma_places_within(tail);
    law_newlines_are_where_they_are(doc);
    assert(line_index::splits_at(nls, at, before.len() as int)) by {
        assert forall|i: int| 0 <= i < before.len() implies #[trigger] nls[i] < at by {
            assert(nls[i] == before[i]);
        }
        assert forall|i: int| before.len() <= i < nls.len() implies #[trigger] nls[i] >= at by {
            assert(nls[i] == at + newline_places(tail)[i - before.len()]);
        }
    }
    line_index::lemma_count_before(nls, at, before.len() as int);
    if before.len() > 0 {
        assert(nls[before.len() - 1] == before.last());
        assert(before[before.len() - 1] < at);
    }
}

/// A line starts at the start of the document or behind a newline, and there is no
/// newline from there up to any place in the line.
pub proof fn law_line_begins_behind_newline(doc: Seq<u8>, p: int)
    requires
        0 <= p <= doc.len(),
    ensures
        0 <= line_begin(doc, p) <= p,
        line_begin(doc, p) > 0 ==> doc[line_begin(doc, p) - 1] == 10,
        forall|i: int| line_begin(doc, p) <= i < p ==> #[trigger] doc[i] != 10,
{
    let head = doc.take(p);
    law_newlines_are_where_they_are(head);
    lemma_line_in(doc, p);
    let places = newline_places(head);
    if places.len() > 0 {
        assert(head[places[places.len() - 1]] == 10);
    }
    assert forall|i: int| line_begin(doc, p) <= i < p implies #[trigger] doc[i] != 10 by {
        assert(head[i] == doc[i]);
        if doc[i] == 10 {
            assert(places.contains(i));
            let k = places.index_of(i);
            if k < places.len() - 1 {
                assert(places[k] < places[places.len() - 1]);
            }
        }
    }
}

/// `to` is `lines` lines from `from`, or as far as there are lines, and as far into
/// its line as `from` is, or at the end of a line that is shorter.
pub open spec fn lines_away(doc: Seq<u8>, from: int, to: int, lines: int) -> bool {
    let col = from - line_begin(doc, from);
    &&& 0 <= to <= doc.len()
    &&& line_number(doc, to) == existing_line(doc, line_number(doc, from) + lines)
    &&& to - line_begin(doc, to) <= col
    &&& to - line_begin(doc, to) < col ==> at_line_end(doc, to)
}

/// A screen that starts at `to` starts with the line that is `lines` lines from that
/// of `from`, or with the first or the last line.
pub open spec fn screen_lines_away(doc: Seq<u8>, from: int, to: int, lines: int) -> bool {
    &&& 0 <= to <= doc.len()
    &&& line_number(doc, to) == existing_line(doc, line_number(doc, from) + lines)
    &&& to == line_begin(doc, to)
}

proof fn lemma_start_in(doc: Seq<u8>, line: int)
    requires
        0 <= line <= newline_places(doc).len(),
    ensures
        ({
            let start = line_index::start_of(newline_places(doc), doc.len() as int, line);
            &&& 0 <= start <= doc.len()
            &&& line_number(doc, start) == line
            &&& line_begin(doc, start) == start
        }),
{
    let nls = newline_places(doc);
    let size = doc.len() as int;
    law_newlines_are_where_they_are(doc);
    line_index::lemma_start_of(nls, size, line);
    lemma_line_in(doc, line_index::start_of(nls, size, line));
}

/// Where a line starts its start is.
pub proof fn lemma_line_starts(doc: Seq<u8>, p: int)
    requires
        0 <= p <= doc.len(),
    ensures
        line_begin(doc, line_begin(doc, p)) == line_begin(doc, p),
        line_number(doc, line_begin(doc, p)) == line_number(doc, p),
{
    lemma_line_in(doc, p);
    lemma_start_in(doc, line_number(doc, p));
}

/// The cursor goes up or down by lines of the text, as many as are asked for but not
/// beyond the first or the last, and keeps its column where the line is long enough.
pub proof fn law_cursor_moves_by_lines(doc: Seq<u8>, from: int, lines: int)
    requires
        0 <= from <= doc.len(),
    ensures
        lines_away(
            doc,
            from,
            cursor::cursor_target(newline_places(doc), doc.len() as int, from, lines),
            lines,
        ),
{
    let nls = newline_places(doc);
    let size = doc.len() as int;
    let to = cursor::cursor_target(nls, size, from, lines);
    law_newlines_are_where_they_are(doc);
    lemma_line_in(doc, from);
    let goal = existing_line(doc, line_number(doc, from) + lines);
    lemma_start_in(doc, goal);
    let start = line_index::start_of(nls, size, goal);
    let end = cursor::end_of(nls, size, goal);
    if goal < nls.len() {
        assert(0 <= nls[goal] < size);
        if goal > 0 {
            assert(nls[goal - 1] < nls[goal]);
        }
    }
    assert(start <= to <= end);
    assert(line_index::splits_at(nls, to, goal)) by {
        assert forall|i: int| 0 <= i < goal implies #[trigger] nls[i] < to by {
            if i < goal - 1 {
                assert(nls[i] < nls[goal - 1]);
            }
        }
        assert forall|i: int| goal <= i < nls.len() implies #[trigger] nls[i] >= to by {
            if i > goal {
                assert(nls[goal] < nls[i]);
            }
        }
    }
    line_index::lemma_count_before(nls, to, goal);
    lemma_line_in(doc, to);
}

/// What every move does where a text is shown.
///
/// Moving by lines leaves the screen, and scrolling leaves the cursor. A page is as
/// many lines as the screen has rows. A screen that is to show the cursor is the
/// same where the cursor is on it. Otherwise the line of the cursor is its first
/// one, if it is further up, and its middle one, if it is further down and there
/// are as many lines before it.
pub proof fn law_text_moves(op: ViewOp, doc: Seq<u8>, at: int, top: int, rows: int)
    requires
        0 <= at <= doc.len(),
        0 <= top <= doc.len(),
        rows > 0,
    ensures
        ({
            let (c, t) = session::text_move(
                op,
                at,
                top,
                newline_places(doc),
                doc.len() as int,
                rows,
            );
            let line = line_number(doc, at);
            let first = line_number(doc, top);
            &&& 0 <= c <= doc.len()
            &&& 0 <= t <= doc.len()
            &&& match op {
                ViewOp::MoveLines(n) => t == top && lines_away(doc, at, c, n as int),
                ViewOp::ScrollLines(n) => c == at && screen_lines_away(doc, top, t, n as int),
                ViewOp::ScrollPage(n) => c == at && screen_lines_away(doc, top, t, n * rows),
                ViewOp::AlignTop => c == at && t == line_begin(doc, top),
                ViewOp::ShowCursor => {
                    &&& c == at
                    &&& line_number(doc, t) <= line < line_number(doc, t) + rows
                    &&& first <= line < first + rows ==> t == top
                    &&& line < first ==> t == line_begin(doc, at)
                    &&& line >= first + rows ==> {
                        &&& t == line_begin(doc, t)
                        &&& line_number(doc, t) == (if line < rows / 2 {
                            0
                        } else {
                            line - rows / 2
                        })
                    }
                },
            }
        }),
{
    let nls = newline_places(doc);
    let size = doc.len() as int;
    lemma_line_in(doc, at);
    lemma_line_in(doc, top);
    let line = line_number(doc, at);
    let first = line_number(doc, top);
    match op {
        ViewOp::MoveLines(n) => {
            law_cursor_moves_by_lines(doc, at, n as int);
        },
        ViewOp::ScrollLines(n) => {
            lemma_start_in(doc, existing_line(doc, first + n));
        },
        ViewOp::ScrollPage(n) => {
            lemma_start_in(doc, existing_line(doc, first + n * rows));
        },
        ViewOp::AlignTop => {},
        ViewOp::ShowCursor => {
            lemma_start_in(doc, line);
            if line >= rows / 2 {
                lemma_start_in(doc, line - rows / 2);
            } else {
                lemma_start_in(doc, 0);
            }
        },
    }
}

/// `to` is `rows` rows of `width` bytes from `from`, or at the start or the end of a
/// document of `size` bytes where that is nearer.
pub open spec fn rows_away(from: int, to: int, rows: int, width: int, size: int) -> bool {
    let goal = from + rows * width;
    &&& goal < 0 ==> to == 0
    &&& goal > size ==> to == size
    &&& 0 <= goal <= size ==> to == goal
}

/// What every move does where bytes are shown.
///
/// Moving by rows leaves the screen, and scrolling leaves the cursor. A page is as
/// many rows as the screen has. A screen that is to show the cursor is the same
/// where the cursor is on it. Otherwise it starts with a whole row: with that of
/// the cursor, if it is further up, and half a screen before it, if it is further
/// down and there are as many rows before it.
pub proof fn law_hex_moves(op: ViewOp, at: int, top: int, size: int, width: int, rows: int)
    requires
        0 <= at,
        0 <= top,
        0 <= size,
        rows > 0,
        width > 0,
    ensures
        ({
            let (c, t) = session::hex_move(op, at, top, size, width, rows);
            match op {
                ViewOp::MoveLines(n) => t == top && rows_away(at, c, n as int, width, size),
                ViewOp::ScrollLines(n) => c == at && rows_away(top, t, n as int, width, size),
                ViewOp::ScrollPage(n) => c == at && rows_away(top, t, n * rows, width, size),
                ViewOp::AlignTop => c == at && t == top,
                ViewOp::ShowCursor => {
                    &&& c == at
                    &&& 0 <= t <= at < t + rows * width
                    &&& top <= at < top + rows * width ==> t == top
                    &&& at < top ==> t % width == 0 && at - t < width
                    &&& at >= top + rows * width ==> {
                        &&& t % width == 0
                        &&& t > 0 ==> rows / 2 * width <= at - t < rows / 2 * width + width
                        &&& t == 0 ==> at < rows / 2 * width + width
                    }
                },
            }
        }),
{
    if op == ViewOp::ShowCursor {
        let row = at / width;
        let rel = at - top;
        vstd::arithmetic::div_mod::lemma_fundamental_div_mod(at, width);
        vstd::arithmetic::div_mod::lemma_mod_bound(at, width);
        assert(row >= 0) by {
            vstd::arithmetic::div_mod::lemma_div_pos_is_pos(at, width);
        }
        assert(width * row == row * width) by (nonlinear_arith);
        if at < top {
            vstd::arithmetic::div_mod::lemma_mod_multiples_basic(row, width);
            assert(width <= rows * width) by (nonlinear_arith)
                requires
                    rows >= 1,
                    width > 0,
            ;
        } else {
            vstd::arithmetic::div_mod::lemma_fundamental_div_mod(rel, width);
            vstd::arithmetic::div_mod::lemma_mod_bound(rel, width);
            let q = rel / width;
            if q >= rows {
                assert(rel >= rows * width) by (nonlinear_arith)
                    requires
                        q >= rows,
                        rel == width * q + rel % width,
                        rel % width >= 0,
                        width > 0,
                ;
                let half = rows / 2;
                let goal = viewport::centred(row, rows);
                vstd::arithmetic::div_mod::lemma_mod_multiples_basic(goal, width);
                assert(half * width + width <= rows * width) by (nonlinear_arith)
                    requires
                        half + 1 <= rows,
                        width > 0,
                ;
                if row >= half {
                    assert(goal * width == row * width - half * width) by (nonlinear_arith)
                        requires
                            goal == row - half,
                    ;
                } else {
                    assert(row * width + width <= half * width) by (nonlinear_arith)
                        requires
                            row + 1 <= half,
                            width > 0,
                    ;
                    assert(goal * width == 0) by (nonlinear_arith)
                        requires
                            goal == 0,
                    ;
                }
            } else {
                assert(rel < rows * width) by (nonlinear_arith)
                    requires
                        q + 1 <= rows,
                        rel == width * q + rel % width,
                        rel % width < width,
                        width > 0,
                ;
            }
        }
    }
}

/// A move over the lines of a text needs no more of the document than what it goes
/// over: up to the cursor and to the end of the line that the cursor goes to, or up
/// to the top of the screen and to where the screen goes, or up to the further one
/// of screen and cursor.
pub proof fn law_moves_need_no_more(
    op: ViewOp,
    doc: Seq<u8>,
    at: int,
    top: int,
    rows: int,
    q: int,
)
    requires
        0 <= at <= doc.len(),
        0 <= top <= doc.len(),
        rows > 0,
        0 <= q < doc.len(),
        doc[q] == 10,
    ensures
        ({
            let nls = newline_places(doc);
            let size = doc.len() as int;
            let (c, t) = session::text_move(op, at, top, nls, size, rows);
            let reach = session::text_reach(op, at, top, nls, size, rows);
            &&& reach <= doc.len()
            &&& match op {
                ViewOp::MoveLines(_) => q >= c ==> reach <= at || reach <= q + 1,
                ViewOp::ScrollLines(_) | ViewOp::ScrollPage(_) => q >= t ==> reach <= top || reach
                    <= t,
                ViewOp::AlignTop => reach <= top,
                ViewOp::ShowCursor => reach <= top || reach <= at,
            }
        }),
{
    let nls = newline_places(doc);
    let size = doc.len() as int;
    law_newlines_are_where_they_are(doc);
    lemma_line_in(doc, at);
    lemma_line_in(doc, top);
    law_text_moves(op, doc, at, top, rows);
    let (c, t) = session::text_move(op, at, top, nls, size, rows);
    assert(nls.contains(q));
    let k = nls.index_of(q);
    assert(nls[k] == q);
    match op {
        ViewOp::MoveLines(n) => {
            let goal = cursor::further(line_number(doc, at) + n, 0);
            line_index::lemma_starts_in_order(nls, size, goal, goal + 1);
            if q >= c {
                lemma_line_in(doc, c);
                line_index::lemma_line_of(nls, size, c);
                assert(k >= line_number(doc, c));
                if goal < nls.len() {
                    if goal < k {
                        assert(nls[goal] < nls[k]);
                    }
                }
            }
        },
        ViewOp::ScrollLines(n) => {
            lemma_scroll_reach(doc, top, n as int, q);
        },
        ViewOp::ScrollPage(n) => {
            lemma_scroll_reach(doc, top, n * rows, q);
        },
        _ => {},
    }
}

proof fn lemma_scroll_reach(doc: Seq<u8>, top: int, lines: int, q: int)
    requires
        0 <= top <= doc.len(),
        0 <= q < doc.len(),
        doc[q] == 10,
    ensures
        ({
            let nls = newline_places(doc);
            let size = doc.len() as int;
            let t = viewport::scrolled_top(nls, size, top, lines);
            let reach = viewport::scroll_reach(nls, size, top, lines);
            &&& reach <= size
            &&& q >= t ==> reach <= top || reach <= t
        }),
{
    let nls = newline_places(doc);
    let size = doc.len() as int;
    law_newlines_are_where_they_are(doc);
    lemma_line_in(doc, top);
    let goal = cursor::further(line_number(doc, top) + lines, 0);
    line_index::lemma_starts_in_order(nls, size, goal, goal);
    assert(nls.contains(q));
    let k = nls.index_of(q);
    if goal > nls.len() {
        let t = viewport::scrolled_top(nls, size, top, lines);
        if k < nls.len() - 1 {
            assert(nls[k] < nls[nls.len() - 1]);
        }
    }
}

} // verus!
