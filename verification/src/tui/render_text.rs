//! Lines of text.

use crate::config::EditorConfig;
use crate::encoding;
use crate::encoding::TextEncoding;
use crate::tui::line::{Line, Style};
use vstd::prelude::*;

verus! {

/// `n` blanks.
pub open spec fn blanks(n: int) -> Seq<char> {
    Seq::new(n as nat, |i: int| ' ')
}

/// `s` with blanks in place of each tab, up to the next column that is a
/// multiple of `width`.
pub open spec fn expanded(s: Seq<char>, width: int) -> Seq<char>
    decreases s.len(),
{
    if s.len() == 0 {
        Seq::empty()
    } else {
        let front = expanded(s.drop_last(), width);
        if s.last() == '\t' {
            front + blanks(width - front.len() as int % width)
        } else {
            front.push(s.last())
        }
    }
}

/// No tab is left, and what follows a tab starts at a multiple of the width.
pub proof fn law_tabs_become_blanks(s: Seq<char>, width: int)
    requires
        width > 0,
    ensures
        !expanded(s, width).contains('\t'),
        s.len() > 0 && s.last() == '\t' ==> expanded(s, width).len() as int % width == 0,
    decreases s.len(),
{
    if s.len() > 0 {
        law_tabs_become_blanks(s.drop_last(), width);
        let front = expanded(s.drop_last(), width);
        let len = front.len() as int;
        if s.last() == '\t' {
            let whole = len / width;
            vstd::arithmetic::div_mod::lemma_fundamental_div_mod(len, width);
            vstd::arithmetic::div_mod::lemma_mod_bound(len, width);
            assert((whole + 1) * width == width * whole + width) by (nonlinear_arith);
            vstd::arithmetic::div_mod::lemma_fundamental_div_mod_converse(
                len + (width - len % width),
                width,
                whole + 1,
                0,
            );
        }
        assert forall|i: int| 0 <= i < expanded(s, width).len() implies expanded(s, width)[i]
            != '\t' by {
            if i < front.len() {
                assert(front[i] == expanded(s, width)[i]);
                assert(front.contains(front[i]));
            }
        }
    }
}

/// A tab takes the blanks up to the next multiple of the width: at least one
/// column, and at most as many as the width is. What is before it stays.
pub proof fn law_tab_goes_to_next_stop(s: Seq<char>, width: int)
    requires
        width > 0,
    ensures
        ({
            let before = expanded(s, width);
            let after = expanded(s.push('\t'), width);
            &&& before.len() < after.len() <= before.len() + width
            &&& after.len() as int % width == 0
            &&& after.take(before.len() as int) == before
            &&& forall|i: int| before.len() <= i < after.len() ==> #[trigger] after[i] == ' '
        }),
{
    let before = expanded(s, width);
    assert(s.push('\t').drop_last() =~= s);
    law_tabs_become_blanks(s.push('\t'), width);
    vstd::arithmetic::div_mod::lemma_mod_bound(before.len() as int, width);
    assert(expanded(s.push('\t'), width).take(before.len() as int) =~= before);
}

/// Every other character stands as it is behind what is before it, and nothing is
/// shown of an empty text.
pub proof fn law_other_characters_stay(s: Seq<char>, c: char, width: int)
    requires
        c != '\t',
    ensures
        expanded(Seq::empty(), width) == Seq::<char>::empty(),
        expanded(s.push(c), width) == expanded(s, width).push(c),
{
    assert(s.push(c).drop_last() =~= s);
}

/// A text without tabs is shown as it is, whatever the width.
pub proof fn law_text_without_tabs_stays(s: Seq<char>, width: int)
    requires
        forall|i: int| 0 <= i < s.len() ==> #[trigger] s[i] != '\t',
    ensures
        expanded(s, width) == s,
    decreases s.len(),
{
    if s.len() > 0 {
        assert forall|i: int| 0 <= i < s.len() - 1 implies #[trigger] s.drop_last()[i] != '\t' by {
            assert(s[i] != '\t');
        }
        law_text_without_tabs_stays(s.drop_last(), width);
        assert(s.drop_last().push(s.last()) =~= s);
        assert(s[s.len() - 1] != '\t');
    }
}

/// Whether there is a tab in `s`.
pub fn has_tab(s: &str) -> (b: bool)
    ensures
        b == s@.contains('\t'),
{
    let mut found = false;
    for c in it: s.chars()
        invariant
            it.seq() == s@,
            found == exists|i: int| 0 <= i < it.index() && #[trigger] s@[i] == '\t',
    {
        if c == '\t' {
            assert(s@[it.index() as int] == '\t');
            found = true;
        }
    }
    found
}

/// Puts blanks in place of tabs.
pub fn expand_tabs(s: &str, tab_width: usize) -> (out: String)
    requires
        tab_width > 0 || !s@.contains('\t'),
    ensures
        out@ == expanded(s@, tab_width as int),
{
    let mut out = String::new();
    let mut col: usize = 0;
    let ghost width = tab_width as int;
    for c in it: s.chars()
        invariant
            it.seq() == s@,
            tab_width > 0 || !s@.contains('\t'),
            width == tab_width,
            out@ == expanded(s@.subrange(0, it.index() as int), width),
            tab_width > 0 ==> col == out@.len() as int % width && col < tab_width,
    {
        let ghost front = s@.subrange(0, it.index() as int);
        let ghost upto = s@.subrange(0, it.index() + 1);
        let ghost before = out@;
        assert(upto.drop_last() =~= front);
        assert(upto.last() == c);
        assert(s@[it.index() as int] == c);
        if c == '\t' {
            assert(s@.contains('\t'));
            let n: usize = tab_width - col;
            let mut k: usize = 0;
            while k < n
                invariant
                    k <= n,
                    out@ == before + blanks(k as int),
                decreases n - k,
            {
                out.push(' ');
                k = k + 1;
                assert(out@ =~= before + blanks(k as int));
            }
            proof {
                let len = before.len() as int;
                vstd::arithmetic::div_mod::lemma_fundamental_div_mod(len, width);
                let whole = len / width;
                assert((whole + 1) * width == width * whole + width) by (nonlinear_arith);
                vstd::arithmetic::div_mod::lemma_fundamental_div_mod_converse(
                    len + n,
                    width,
                    whole + 1,
                    0,
                );
            }
            col = 0;
        } else {
            out.push(c);
            if tab_width > 0 {
                proof {
                    let len = before.len() as int;
                    vstd::arithmetic::div_mod::lemma_fundamental_div_mod(len, width);
                    let whole = len / width;
                    assert(whole * width == width * whole) by (nonlinear_arith);
                    assert((whole + 1) * width == width * whole + width) by (nonlinear_arith);
                    if col + 1 < tab_width {
                        vstd::arithmetic::div_mod::lemma_fundamental_div_mod_converse(
                            len + 1,
                            width,
                            whole,
                            col + 1,
                        );
                    } else {
                        vstd::arithmetic::div_mod::lemma_fundamental_div_mod_converse(
                            len + 1,
                            width,
                            whole + 1,
                            0,
                        );
                    }
                }
                col = if col + 1 < tab_width { col + 1 } else { 0 };
            }
        }
    }
    assert(s@.subrange(0, s@.len() as int) =~= s@);
    out
}

/// The text of a line: decoded and without tabs, and a blank where that is
/// empty.
pub open spec fn line_text(bytes: Seq<u8>, name: Seq<char>, width: int) -> Seq<char> {
    let text = expanded(encoding::decoded(name, bytes), width);
    if text.len() == 0 {
        " "@
    } else {
        text
    }
}

/// A line shows the text that its bytes stand for: as it is where it holds no tab,
/// and a single blank where it is empty.
pub proof fn law_line_shows_its_text(bytes: Seq<u8>, name: Seq<char>, width: int)
    requires
        forall|i: int|
            0 <= i < encoding::decoded(name, bytes).len() ==> #[trigger] encoding::decoded(
                name,
                bytes,
            )[i] != '\t',
    ensures
        encoding::decoded(name, bytes).len() > 0 ==> line_text(bytes, name, width)
            == encoding::decoded(name, bytes),
        encoding::decoded(name, bytes).len() == 0 ==> line_text(bytes, name, width) == seq![' '],
{
    law_text_without_tabs_stays(encoding::decoded(name, bytes), width);
    reveal_strlit(" ");
    assert(" "@ =~= seq![' ']);
}

/// Where there is a tab in the text, it has a width.
pub open spec fn tabs_have_width(bytes: Seq<u8>, name: Seq<char>, width: int) -> bool {
    width > 0 || !encoding::decoded(name, bytes).contains('\t')
}

/// A line of text from its bytes. Neither the cursor nor what was searched for
/// stands out in it.
pub fn render_text_line(
    bytes: &[u8],
    encoding: &TextEncoding,
    config: &EditorConfig,
    _cursor_byte_in_line: Option<usize>,
    _search_ranges: &[(usize, usize)],
) -> (line: Line)
    requires
        tabs_have_width(bytes@, encoding.spec_name(), config.tab_width as int),
        bytes@.len() <= usize::MAX / 16,
    ensures
        line@ == seq![
            (
                line_text(bytes@, encoding.spec_name(), config.tab_width as int),
                Style::Plain,
            ),
        ],
{
    let text = encoding::decode(bytes, encoding);
    let text = expand_tabs(text.as_str(), config.tab_width as usize);
    if text.as_str().unicode_len() == 0 {
        return Line::styled(" ".to_string(), Style::Plain);
    }
    Line::styled(text, Style::Plain)
}

/// The first `max_cols` characters of `line`, or all where there are not as
/// many.
pub fn truncate_line(line: &str, max_cols: usize) -> (s: String)
    ensures
        s@ == (if line@.len() <= max_cols {
            line@
        } else {
            line@.take(max_cols as int)
        }),
{
    let mut out = String::new();
    let mut n: usize = 0;
    for c in it: line.chars()
        invariant
            it.seq() == line@,
            n <= max_cols,
            n == (if it.index() < max_cols { it.index() as int } else { max_cols as int }),
            out@ == line@.subrange(0, n as int),
    {
        if n < max_cols {
            out.push(c);
            n = n + 1;
            assert(out@ =~= line@.subrange(0, n as int));
        }
    }
    assert(line@.subrange(0, line@.len() as int) =~= line@);
    out
}

} // verus!
