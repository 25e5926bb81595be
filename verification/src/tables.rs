//! Markdown formatting for `:fmt`: trailing-whitespace strip, pipe-table
//! alignment, and blank-run collapsing.

use vstd::prelude::*;
use crate::text;

verus! {

/// Column alignment parsed from a table's `|:--:|` separator row.
#[derive(Debug, Clone, Copy, PartialEq, Eq, Structural)]
pub enum Align {
    Left,
    Right,
    Center,
    Plain,
}

// ---------------------------------------------------------------------------
// Cells
// ---------------------------------------------------------------------------

/// `n` spaces.
pub open spec fn spaces(n: nat) -> Seq<char> {
    text::repeat_char(' ', n)
}

/// `n` dashes.
pub open spec fn dashes(n: nat) -> Seq<char> {
    text::repeat_char('-', n)
}

/// `cell` padded to `w` columns per `a`: right alignment pads on the left,
/// center splits the padding (the extra space on the right), anything else
/// pads on the right. A cell already `w` wide or wider is left as it is.
pub open spec fn padded(cell: Seq<char>, w: nat, a: Align) -> Seq<char> {
    if cell.len() >= w {
        cell
    } else {
        let pad = (w - cell.len()) as nat;
        match a {
            Align::Right => spaces(pad) + cell,
            Align::Center => spaces(pad / 2) + cell + spaces((pad - pad / 2) as nat),
            _ => cell + spaces(pad),
        }
    }
}

/// Pad `cell` to `w` columns per `align` (left/none pad right, right pads left,
/// center splits). Over-wide cells are returned unchanged.
pub fn pad_cell(cell: &str, w: usize, align: Align) -> (r: String)
    ensures
        r@ == padded(cell@, w as nat, align),
{
    let v = text::chars_of(cell);
    let len = v.len();
    if len >= w {
        return text::string_of(&v);
    }
    let pad = w - len;
    let mut out: Vec<char> = Vec::new();
    match align {
        Align::Right => {
            text::push_repeat(&mut out, ' ', pad);
            text::extend(&mut out, &v);
        },
        Align::Center => {
            let l = pad / 2;
            text::push_repeat(&mut out, ' ', l);
            text::extend(&mut out, &v);
            text::push_repeat(&mut out, ' ', pad - l);
        },
        _ => {
            text::extend(&mut out, &v);
            text::push_repeat(&mut out, ' ', pad);
        },
    }
    text::string_of(&out)
}

/// One leading and one trailing `|` dropped.
pub open spec fn strip_pipes(t: Seq<char>) -> Seq<char> {
    let a = if t.len() > 0 && t[0] == '|' {
        t.skip(1)
    } else {
        t
    };
    if a.len() > 0 && a.last() == '|' {
        a.drop_last()
    } else {
        a
    }
}

/// Every piece trimmed.
pub open spec fn trim_all(ps: Seq<Seq<char>>) -> Seq<Seq<char>> {
    Seq::new(ps.len(), |i: int| text::trim(ps[i]))
}

/// The trimmed cells of a table row, without the empty cells an outer `|`
/// would make.
pub open spec fn cells_of(line: Seq<char>) -> Seq<Seq<char>> {
    trim_all(text::split(strip_pipes(text::trim(line)), '|'))
}

fn cells_exec(line: &[char]) -> (r: Vec<Vec<char>>)
    ensures
        text::views(r@) == cells_of(line@),
{
    let t = text::trim_exec(line);
    let a = if t.len() > 0 && t[0] == '|' {
        text::slice_of(&t, 1, t.len())
    } else {
        text::slice_of(&t, 0, t.len())
    };
    let b = if a.len() > 0 && a[a.len() - 1] == '|' {
        text::slice_of(&a, 0, a.len() - 1)
    } else {
        text::slice_of(&a, 0, a.len())
    };
    assert(b@ =~= strip_pipes(t@));
    let pieces = text::split_exec(&b, '|');
    let mut r: Vec<Vec<char>> = Vec::new();
    let mut i: usize = 0;
    while i < pieces.len()
        invariant
            i <= pieces.len(),
            text::views(r@) =~= trim_all(text::views(pieces@).take(i as int)),
        decreases pieces.len() - i,
    {
        let c = text::trim_exec(pieces[i].as_slice());
        let ghost old_r = text::views(r@);
        r.push(c);
        assert(text::views(r@) =~= old_r.push(c@));
        assert(trim_all(text::views(pieces@).take(i + 1)) =~= trim_all(
            text::views(pieces@).take(i as int),
        ).push(text::trim(pieces@[i as int]@)));
        i += 1;
    }
    assert(text::views(pieces@).take(pieces.len() as int) =~= text::views(pieces@));
    r
}

/// Split a table row into trimmed cells, dropping the empty cells that leading /
/// trailing `|` produce (`| a | b |` → `["a", "b"]`).
pub fn table_cells(line: &str) -> (r: Vec<String>)
    ensures
        text::strings(r@) == cells_of(line@),
{
    let v = text::chars_of(line);
    let cs = cells_exec(&v);
    let mut r: Vec<String> = Vec::new();
    let mut i: usize = 0;
    while i < cs.len()
        invariant
            i <= cs.len(),
            text::strings(r@) =~= text::views(cs@).take(i as int),
        decreases cs.len() - i,
    {
        let s = text::string_of(cs[i].as_slice());
        let ghost old_r = text::strings(r@);
        r.push(s);
        assert(text::strings(r@) =~= old_r.push(s@));
        assert(text::views(cs@).take(i + 1) =~= text::views(cs@).take(i as int).push(
            cs@[i as int]@,
        ));
        i += 1;
    }
    assert(text::views(cs@).take(cs.len() as int) =~= text::views(cs@));
    r
}

/// A separator cell: dashes with optional colons, at least one dash.
pub open spec fn sep_cell_ok(c: Seq<char>) -> bool {
    &&& c.len() > 0
    &&& c.contains('-')
    &&& forall|j: int| 0 <= j < c.len() ==> c[j] == '-' || c[j] == ':'
}

/// A separator row: it holds a `|`, and every cell is dashes with optional edge
/// colons and at least one dash.
pub open spec fn separator_row(line: Seq<char>) -> bool {
    &&& line.contains('|')
    &&& cells_of(line).len() > 0
    &&& forall|i: int| 0 <= i < cells_of(line).len() ==> sep_cell_ok(#[trigger] cells_of(line)[i])
}

fn sep_cell_exec(c: &[char]) -> (r: bool)
    ensures
        r == sep_cell_ok(c@),
{
    if c.len() == 0 {
        return false;
    }
    let mut dash = false;
    let mut i: usize = 0;
    while i < c.len()
        invariant
            i <= c.len(),
            forall|j: int| 0 <= j < i ==> c@[j] == '-' || c@[j] == ':',
            dash == exists|j: int| 0 <= j < i && c@[j] == '-',
        decreases c.len() - i,
    {
        if c[i] != '-' && c[i] != ':' {
            return false;
        }
        if c[i] == '-' {
            dash = true;
        }
        i += 1;
    }
    proof {
        if dash {
            let j = choose|j: int| 0 <= j < c.len() && c@[j] == '-';
            assert(c@[j] == '-');
        }
        if c@.contains('-') {
            let j = choose|j: int| 0 <= j < c.len() && c@[j] == '-';
            assert(c@[j] == '-');
        }
    }
    dash
}

fn separator_row_exec(line: &[char]) -> (r: bool)
    ensures
        r == separator_row(line@),
{
    if !text::contains_char(line, '|') {
        return false;
    }
    let cells = cells_exec(line);
    if cells.len() == 0 {
        return false;
    }
    let ghost cs = text::views(cells@);
    let mut i: usize = 0;
    while i < cells.len()
        invariant
            i <= cells.len(),
            cs == text::views(cells@),
            cs == cells_of(line@),
            forall|k: int| 0 <= k < i ==> sep_cell_ok(#[trigger] cs[k]),
        decreases cells.len() - i,
    {
        if !sep_cell_exec(cells[i].as_slice()) {
            assert(!sep_cell_ok(cs[i as int]));
            return false;
        }
        i += 1;
    }
    true
}

/// A separator row: every cell is dashes with optional edge colons (`:--`, `-:`,
/// `:-:`, `---`) and at least one dash.
pub fn is_separator_row(line: &str) -> (r: bool)
    ensures
        r == separator_row(line@),
{
    let v = text::chars_of(line);
    separator_row_exec(&v)
}

/// How far the table's data rows run from line `n`: while lines are non-empty
/// and hold a `|`.
pub open spec fn table_run(ls: Seq<Seq<char>>, n: nat) -> nat
    decreases ls.len() - n,
{
    if n < ls.len() && ls[n as int].len() > 0 && ls[n as int].contains('|') {
        table_run(ls, n + 1)
    } else {
        n
    }
}

/// The length of the pipe table `ls` opens with (header row, separator row,
/// data rows), or `None` when it opens with none.
pub open spec fn block_len(ls: Seq<Seq<char>>) -> Option<nat> {
    if ls.len() >= 2 && ls[0].contains('|') && separator_row(ls[1]) {
        Some(table_run(ls, 2))
    } else {
        None
    }
}

/// An optional count, as a `usize`.
pub open spec fn usize_opt(o: Option<nat>) -> Option<usize> {
    match o {
        Some(n) => Some(n as usize),
        None => None,
    }
}

pub proof fn lemma_table_run(ls: Seq<Seq<char>>, n: nat)
    requires
        n <= ls.len(),
    ensures
        n <= table_run(ls, n) <= ls.len(),
    decreases ls.len() - n,
{
    if n < ls.len() && ls[n as int].len() > 0 && ls[n as int].contains('|') {
        lemma_table_run(ls, n + 1);
    }
}

fn block_len_exec(ls: &Vec<Vec<char>>, from: usize) -> (r: Option<usize>)
    requires
        from <= ls.len(),
    ensures
        r == usize_opt(block_len(text::views(ls@).skip(from as int))),
        r matches Some(n) ==> 2 <= n && from + n <= ls.len() && block_len(
            text::views(ls@).skip(from as int),
        ) == Some(n as nat),
        r is None ==> block_len(text::views(ls@).skip(from as int)) is None,
{
    let ghost s = text::views(ls@).skip(from as int);
    if ls.len() - from < 2 {
        return None;
    }
    assert(s[0] == ls@[from as int]@);
    assert(s[1] == ls@[from + 1]@);
    if !text::contains_char(ls[from].as_slice(), '|') || !separator_row_exec(
        ls[from + 1].as_slice(),
    ) {
        return None;
    }
    let mut n: usize = 2;
    proof {
        lemma_table_run(s, 2);
    }
    while from + n < ls.len() && ls[from + n].len() > 0 && text::contains_char(
        ls[from + n].as_slice(),
        '|',
    )
        invariant
            2 <= n,
            from + n <= ls.len(),
            s == text::views(ls@).skip(from as int),
            table_run(s, 2) == table_run(s, n as nat),
        decreases ls.len() - from - n,
    {
        assert(s[n as int] == ls@[from + n]@);
        n += 1;
    }
    proof {
        if n < s.len() {
            assert(s[n as int] == ls@[from + n]@);
        }
    }
    Some(n)
}

/// If `lines[0..]` starts a pipe table (header row + separator row + data rows),
/// return its length in lines; else `None`.
pub fn table_block_len(lines: &[String]) -> (r: Option<usize>)
    ensures
        r == usize_opt(block_len(text::strings(lines@))),
{
    let mut ls: Vec<Vec<char>> = Vec::new();
    let mut i: usize = 0;
    while i < lines.len()
        invariant
            i <= lines.len(),
            text::views(ls@) =~= text::strings(lines@).take(i as int),
        decreases lines.len() - i,
    {
        let c = text::chars_of(lines[i].as_str());
        let ghost old_ls = text::views(ls@);
        ls.push(c);
        assert(text::views(ls@) =~= old_ls.push(c@));
        assert(text::strings(lines@).take(i + 1) =~= text::strings(lines@).take(i as int).push(
            lines@[i as int]@,
        ));
        i += 1;
    }
    assert(text::strings(lines@).take(lines.len() as int) =~= text::strings(lines@));
    assert(text::views(ls@).skip(0) =~= text::views(ls@));
    block_len_exec(&ls, 0)
}

// ---------------------------------------------------------------------------
// Tables
// ---------------------------------------------------------------------------

/// The alignment a separator cell asks for: colons at both ends center, a
/// leading one aligns left, a trailing one right.
pub open spec fn align_of_cell(c: Seq<char>) -> Align {
    let s = c.len() > 0 && c[0] == ':';
    let e = c.len() > 0 && c.last() == ':';
    if s && e {
        Align::Center
    } else if s {
        Align::Left
    } else if e {
        Align::Right
    } else {
        Align::Plain
    }
}

/// The cells of every row of a table block.
pub open spec fn row_cells(block: Seq<Seq<char>>) -> Seq<Seq<Seq<char>>> {
    Seq::new(block.len(), |i: int| cells_of(block[i]))
}

/// The column alignments the separator row (row 1) declares.
pub open spec fn aligns_of(rows: Seq<Seq<Seq<char>>>) -> Seq<Align> {
    if rows.len() > 1 {
        Seq::new(rows[1].len(), |i: int| align_of_cell(rows[1][i]))
    } else {
        Seq::empty()
    }
}

/// The most cells any of the first `n` rows has.
pub open spec fn max_cells(rows: Seq<Seq<Seq<char>>>, n: nat) -> nat
    decreases n,
{
    if n == 0 {
        0
    } else {
        let m = max_cells(rows, (n - 1) as nat);
        if rows[n - 1].len() > m {
            rows[n - 1].len()
        } else {
            m
        }
    }
}

/// The table's column count: its widest row, or the separator's alignments.
pub open spec fn ncols(rows: Seq<Seq<Seq<char>>>) -> nat {
    let m = max_cells(rows, rows.len());
    if aligns_of(rows).len() > m {
        aligns_of(rows).len()
    } else {
        m
    }
}

/// Width of column `ci` over the first `n` rows: its widest cell outside the
/// separator row, and never under 3.
pub open spec fn col_width(rows: Seq<Seq<Seq<char>>>, ci: int, n: nat) -> nat
    decreases n,
{
    if n == 0 {
        3
    } else {
        let w = col_width(rows, ci, (n - 1) as nat);
        if n - 1 != 1 && ci < rows[n - 1].len() && rows[n - 1][ci].len() > w {
            rows[n - 1][ci].len()
        } else {
            w
        }
    }
}

/// The alignment of column `ci` (unaligned past the separator's cells).
pub open spec fn align_at(al: Seq<Align>, ci: int) -> Align {
    if ci < al.len() {
        al[ci]
    } else {
        Align::Plain
    }
}

/// A rebuilt separator cell of width `w`.
pub open spec fn sep_cell(w: nat, a: Align) -> Seq<char> {
    match a {
        Align::Left => seq![':'] + dashes((w - 1) as nat),
        Align::Right => dashes((w - 1) as nat) + seq![':'],
        Align::Center => seq![':'] + dashes((w - 2) as nat) + seq![':'],
        Align::Plain => dashes(w),
    }
}

/// Cell `ci` of a row, empty past its end.
pub open spec fn cell_at(row: Seq<Seq<char>>, ci: int) -> Seq<char> {
    if ci < row.len() {
        row[ci]
    } else {
        Seq::empty()
    }
}

/// What column `ci` of row `ri` becomes.
pub open spec fn out_cell(rows: Seq<Seq<Seq<char>>>, ri: int, ci: int) -> Seq<char> {
    let w = col_width(rows, ci, rows.len());
    let a = align_at(aligns_of(rows), ci);
    if ri == 1 {
        sep_cell(w, a)
    } else {
        padded(cell_at(rows[ri], ci), w, a)
    }
}

pub open spec fn cell_sep() -> Seq<char> {
    seq![' ', '|', ' ']
}

/// Row `ri` of the formatted table: `| a | b |`.
pub open spec fn table_row(rows: Seq<Seq<Seq<char>>>, ri: int) -> Seq<char> {
    seq!['|', ' '] + text::join_sep(
        Seq::new(ncols(rows), |ci: int| out_cell(rows, ri, ci)),
        cell_sep(),
    ) + seq![' ', '|']
}

/// A table block with every cell padded to its column's width and the
/// separator row rebuilt.
pub open spec fn formatted_table(block: Seq<Seq<char>>) -> Seq<Seq<char>> {
    let rows = row_cells(block);
    Seq::new(rows.len(), |ri: int| table_row(rows, ri))
}

pub open spec fn views2(v: Seq<Vec<Vec<char>>>) -> Seq<Seq<Seq<char>>> {
    Seq::new(v.len(), |i: int| text::views(v[i]@))
}

proof fn lemma_max_cells(rows: Seq<Seq<Seq<char>>>, n: nat, i: int)
    requires
        0 <= i < n <= rows.len(),
    ensures
        rows[i].len() <= max_cells(rows, n),
    decreases n,
{
    if i < n - 1 {
        lemma_max_cells(rows, (n - 1) as nat, i);
    }
}

proof fn lemma_col_width_floor(rows: Seq<Seq<Seq<char>>>, ci: int, n: nat)
    ensures
        col_width(rows, ci, n) >= 3,
    decreases n,
{
    if n > 0 {
        lemma_col_width_floor(rows, ci, (n - 1) as nat);
    }
}

fn align_of_cell_exec(c: &[char]) -> (r: Align)
    ensures
        r == align_of_cell(c@),
{
    let s = c.len() > 0 && c[0] == ':';
    let e = c.len() > 0 && c[c.len() - 1] == ':';
    if s && e {
        Align::Center
    } else if s {
        Align::Left
    } else if e {
        Align::Right
    } else {
        Align::Plain
    }
}

fn padded_exec(cell: &[char], w: usize, align: Align) -> (r: Vec<char>)
    ensures
        r@ == padded(cell@, w as nat, align),
{
    let len = cell.len();
    let mut out: Vec<char> = Vec::new();
    if len >= w {
        text::extend(&mut out, cell);
        return out;
    }
    let pad = w - len;
    match align {
        Align::Right => {
            text::push_repeat(&mut out, ' ', pad);
            text::extend(&mut out, cell);
        },
        Align::Center => {
            let l = pad / 2;
            text::push_repeat(&mut out, ' ', l);
            text::extend(&mut out, cell);
            text::push_repeat(&mut out, ' ', pad - l);
        },
        _ => {
            text::extend(&mut out, cell);
            text::push_repeat(&mut out, ' ', pad);
        },
    }
    out
}

fn sep_cell_out(w: usize, a: Align) -> (r: Vec<char>)
    requires
        w >= 3,
    ensures
        r@ == sep_cell(w as nat, a),
{
    let mut out: Vec<char> = Vec::new();
    match a {
        Align::Left => {
            out.push(':');
            text::push_repeat(&mut out, '-', w - 1);
        },
        Align::Right => {
            text::push_repeat(&mut out, '-', w - 1);
            out.push(':');
        },
        Align::Center => {
            out.push(':');
            text::push_repeat(&mut out, '-', w - 2);
            out.push(':');
        },
        Align::Plain => {
            text::push_repeat(&mut out, '-', w);
        },
    }
    assert(out@ =~= sep_cell(w as nat, a));
    out
}

/// The table lines `ls[from..to]`, formatted.
fn format_block(ls: &Vec<Vec<char>>, from: usize, to: usize) -> (r: Vec<Vec<char>>)
    requires
        from <= to <= ls.len(),
    ensures
        text::views(r@) == formatted_table(text::views(ls@).subrange(from as int, to as int)),
{
    let ghost block = text::views(ls@).subrange(from as int, to as int);
    let ghost rs = row_cells(block);
    let mut rows: Vec<Vec<Vec<char>>> = Vec::new();
    let mut i: usize = from;
    while i < to
        invariant
            from <= i <= to <= ls.len(),
            block == text::views(ls@).subrange(from as int, to as int),
            rs == row_cells(block),
            views2(rows@) =~= rs.take(i - from),
        decreases to - i,
    {
        let cs = cells_exec(ls[i].as_slice());
        let ghost old_rows = views2(rows@);
        rows.push(cs);
        assert(views2(rows@) =~= old_rows.push(text::views(cs@)));
        assert(block[i - from] == ls@[i as int]@);
        assert(rs.take(i + 1 - from) =~= rs.take(i - from).push(rs[i - from]));
        i += 1;
    }
    assert(rs.take(to - from) =~= rs);
    let n = rows.len();
    // Alignments, from the separator row.
    let mut aligns: Vec<Align> = Vec::new();
    if n > 1 {
        let mut k: usize = 0;
        while k < rows[1].len()
            invariant
                n == rows.len() > 1,
                rs == views2(rows@),
                k <= rows[1].len(),
                aligns@ =~= aligns_of(rs).take(k as int),
            decreases rows[1].len() - k,
        {
            let a = align_of_cell_exec(rows[1][k].as_slice());
            aligns.push(a);
            assert(aligns_of(rs).take(k + 1) =~= aligns_of(rs).take(k as int).push(
                aligns_of(rs)[k as int],
            ));
            k += 1;
        }
        assert(aligns_of(rs).take(rows[1].len() as int) =~= aligns_of(rs));
    }
    assert(aligns@ == aligns_of(rs));
    // Column count.
    let mut nc: usize = 0;
    let mut ri: usize = 0;
    while ri < n
        invariant
            n == rows.len(),
            rs == views2(rows@),
            ri <= n,
            nc == max_cells(rs, ri as nat),
        decreases n - ri,
    {
        if rows[ri].len() > nc {
            nc = rows[ri].len();
        }
        ri += 1;
    }
    if aligns.len() > nc {
        nc = aligns.len();
    }
    assert(nc == ncols(rs));
    // Widths.
    let mut width: Vec<usize> = Vec::new();
    let mut c: usize = 0;
    while c < nc
        invariant
            c <= nc,
            width@.len() == c,
            forall|x: int| 0 <= x < c ==> width@[x] == col_width(rs, x, 0),
        decreases nc - c,
    {
        width.push(3);
        c += 1;
    }
    let mut ri: usize = 0;
    while ri < n
        invariant
            n == rows.len(),
            rs == views2(rows@),
            nc == ncols(rs),
            ri <= n,
            width@.len() == nc,
            forall|x: int| 0 <= x < nc ==> width@[x] == col_width(rs, x, ri as nat),
        decreases n - ri,
    {
        if ri != 1 {
            proof {
                lemma_max_cells(rs, n as nat, ri as int);
            }
            let mut ci: usize = 0;
            while ci < rows[ri].len()
                invariant
                    n == rows.len(),
                    rs == views2(rows@),
                    nc == ncols(rs),
                    ri < n,
                    ri != 1,
                    rows[ri as int].len() <= nc,
                    ci <= rows[ri as int].len(),
                    width@.len() == nc,
                    forall|x: int|
                        0 <= x < nc ==> width@[x] == (if x < ci {
                            col_width(rs, x, (ri + 1) as nat)
                        } else {
                            col_width(rs, x, ri as nat)
                        }),
                decreases rows[ri as int].len() - ci,
            {
                let len = rows[ri][ci].len();
                if len > width[ci] {
                    width.set(ci, len);
                }
                ci += 1;
            }
            proof {
                assert forall|x: int| 0 <= x < nc implies width@[x] == col_width(
                    rs,
                    x,
                    (ri + 1) as nat,
                ) by {
                    if x >= rows[ri as int].len() {
                        assert(col_width(rs, x, (ri + 1) as nat) == col_width(rs, x, ri as nat));
                    }
                }
            }
        } else {
            proof {
                assert forall|x: int| 0 <= x < nc implies width@[x] == col_width(
                    rs,
                    x,
                    (ri + 1) as nat,
                ) by {
                    assert(col_width(rs, x, (ri + 1) as nat) == col_width(rs, x, ri as nat));
                }
            }
        }
        ri += 1;
    }
    // The rows.
    let mut out: Vec<Vec<char>> = Vec::new();
    let mut ri: usize = 0;
    let sep = vec![' ', '|', ' '];
    assert(sep@ =~= cell_sep());
    while ri < n
        invariant
            n == rows.len(),
            rs == views2(rows@),
            rs.len() == n,
            nc == ncols(rs),
            aligns@ == aligns_of(rs),
            sep@ == cell_sep(),
            ri <= n,
            width@.len() == nc,
            forall|x: int| 0 <= x < nc ==> width@[x] == col_width(rs, x, n as nat),
            text::views(out@) =~= Seq::new(ri as nat, |r: int| table_row(rs, r)),
        decreases n - ri,
    {
        let ghost cells_spec = Seq::new(nc as nat, |ci: int| out_cell(rs, ri as int, ci));
        let mut line: Vec<char> = vec!['|', ' '];
        let mut ci: usize = 0;
        while ci < nc
            invariant
                n == rows.len(),
                rs == views2(rows@),
                nc == ncols(rs),
                aligns@ == aligns_of(rs),
                sep@ == cell_sep(),
                ri < n,
                ci <= nc,
                width@.len() == nc,
                forall|x: int| 0 <= x < nc ==> width@[x] == col_width(rs, x, n as nat),
                cells_spec == Seq::new(nc as nat, |c: int| out_cell(rs, ri as int, c)),
                line@ == seq!['|', ' '] + text::join_sep(cells_spec.take(ci as int), cell_sep()),
            decreases nc - ci,
        {
            let w = width[ci];
            let a = if ci < aligns.len() {
                aligns[ci]
            } else {
                Align::Plain
            };
            proof {
                lemma_col_width_floor(rs, ci as int, n as nat);
            }
            let cell = if ri == 1 {
                sep_cell_out(w, a)
            } else if ci < rows[ri].len() {
                padded_exec(rows[ri][ci].as_slice(), w, a)
            } else {
                let e: Vec<char> = Vec::new();
                padded_exec(e.as_slice(), w, a)
            };
            assert(cell@ == cells_spec[ci as int]);
            if ci > 0 {
                text::extend(&mut line, sep.as_slice());
            }
            text::extend(&mut line, cell.as_slice());
            proof {
                let t = cells_spec.take(ci + 1);
                assert(t.drop_last() =~= cells_spec.take(ci as int));
                assert(t.last() == cells_spec[ci as int]);
                if ci == 0 {
                    assert(t.len() == 1);
                }
            }
            ci += 1;
        }
        assert(cells_spec.take(nc as int) =~= cells_spec);
        line.push(' ');
        line.push('|');
        assert(line@ =~= table_row(rs, ri as int));
        let ghost old_out = text::views(out@);
        out.push(line);
        assert(text::views(out@) =~= old_out.push(table_row(rs, ri as int)));
        ri += 1;
    }
    out
}

/// Reformat one detected table block: pad every cell to its column's width and
/// rebuild the separator row, honoring per-column alignment colons.
pub fn format_table(block: &[String]) -> (r: Vec<String>)
    ensures
        text::strings(r@) == formatted_table(text::strings(block@)),
{
    let mut ls: Vec<Vec<char>> = Vec::new();
    let mut i: usize = 0;
    while i < block.len()
        invariant
            i <= block.len(),
            text::views(ls@) =~= text::strings(block@).take(i as int),
        decreases block.len() - i,
    {
        let c = text::chars_of(block[i].as_str());
        let ghost old_ls = text::views(ls@);
        ls.push(c);
        assert(text::views(ls@) =~= old_ls.push(c@));
        assert(text::strings(block@).take(i + 1) =~= text::strings(block@).take(i as int).push(
            block@[i as int]@,
        ));
        i += 1;
    }
    assert(text::strings(block@).take(block.len() as int) =~= text::strings(block@));
    assert(text::views(ls@).subrange(0, ls.len() as int) =~= text::views(ls@));
    let rows = format_block(&ls, 0, ls.len());
    let mut r: Vec<String> = Vec::new();
    let mut k: usize = 0;
    while k < rows.len()
        invariant
            k <= rows.len(),
            text::strings(r@) =~= text::views(rows@).take(k as int),
        decreases rows.len() - k,
    {
        let s = text::string_of(rows[k].as_slice());
        let ghost old_r = text::strings(r@);
        r.push(s);
        assert(text::strings(r@) =~= old_r.push(s@));
        assert(text::views(rows@).take(k + 1) =~= text::views(rows@).take(k as int).push(
            rows@[k as int]@,
        ));
        k += 1;
    }
    assert(text::views(rows@).take(rows.len() as int) =~= text::views(rows@));
    r
}

// ---------------------------------------------------------------------------
// The whole buffer
// ---------------------------------------------------------------------------

/// The buffer's lines with trailing whitespace stripped.
pub open spec fn stripped_lines(t: Seq<char>) -> Seq<Seq<char>> {
    Seq::new(text::split(t, '\n').len(), |i: int| text::trim_end(text::split(t, '\n')[i]))
}

/// Lines with every pipe table reformatted in place.
pub open spec fn piped(ls: Seq<Seq<char>>) -> Seq<Seq<char>>
    decreases ls.len(),
{
    if ls.len() == 0 {
        Seq::empty()
    } else {
        match block_len(ls) {
            Some(n) => {
                proof {
                    lemma_table_run(ls, 2);
                }
                formatted_table(ls.take(n as int)) + piped(ls.skip(n as int))
            },
            None => seq![ls[0]] + piped(ls.skip(1)),
        }
    }
}

/// Lines with every run of blank lines collapsed to one blank line.
pub open spec fn collapse_blanks(ls: Seq<Seq<char>>) -> Seq<Seq<char>>
    decreases ls.len(),
{
    if ls.len() == 0 {
        Seq::empty()
    } else {
        let r = collapse_blanks(ls.drop_last());
        if ls.last().len() == 0 && ls.len() >= 2 && ls[ls.len() - 2].len() == 0 {
            r
        } else {
            r.push(ls.last())
        }
    }
}

/// The lines `:fmt` produces for `t`.
pub open spec fn formatted_lines(t: Seq<char>) -> Seq<Seq<char>> {
    collapse_blanks(piped(stripped_lines(t)))
}

/// The text `:fmt` produces for `t`: its formatted lines, joined by `\n`.
pub open spec fn formatted(t: Seq<char>) -> Seq<char> {
    text::join_sep(formatted_lines(t), seq!['\n'])
}

/// Appends copies of `block`'s lines to `out`.
fn append_lines(out: &mut Vec<Vec<char>>, block: &Vec<Vec<char>>)
    ensures
        text::views(final(out)@) == text::views(old(out)@) + text::views(block@),
{
    let ghost old_out = text::views(out@);
    let mut k: usize = 0;
    while k < block.len()
        invariant
            k <= block.len(),
            text::views(out@) =~= old_out + text::views(block@).take(k as int),
        decreases block.len() - k,
    {
        let q = text::slice_of(block[k].as_slice(), 0, block[k].len());
        assert(q@ =~= block@[k as int]@);
        let ghost o = text::views(out@);
        out.push(q);
        assert(text::views(out@) =~= o.push(block@[k as int]@));
        assert(text::views(block@).take(k + 1) =~= text::views(block@).take(k as int).push(
            block@[k as int]@,
        ));
        k += 1;
    }
    assert(text::views(block@).take(block.len() as int) =~= text::views(block@));
}

#[verifier::spinoff_prover]
#[verifier::rlimit(30)]
fn piped_exec(ls: &Vec<Vec<char>>) -> (r: Vec<Vec<char>>)
    ensures
        text::views(r@) == piped(text::views(ls@)),
{
    let ghost all = text::views(ls@);
    let mut out: Vec<Vec<char>> = Vec::new();
    let mut i: usize = 0;
    assert(all.skip(0) =~= all);
    assert(text::views(out@) + piped(all) =~= piped(all));
    while i < ls.len()
        invariant
            i <= ls.len(),
            all == text::views(ls@),
            piped(all) == text::views(out@) + piped(all.skip(i as int)),
        decreases ls.len() - i,
    {
        let ghost rest = all.skip(i as int);
        match block_len_exec(ls, i) {
            Some(n) => {
                let block = format_block(ls, i, i + n);
                assert(rest.take(n as int) =~= all.subrange(i as int, i + n));
                assert(rest.skip(n as int) =~= all.skip(i + n));
                let ghost old_out = text::views(out@);
                append_lines(&mut out, &block);
                assert(block_len(rest) == Some(n as nat));
                assert(piped(rest) == formatted_table(rest.take(n as int)) + piped(
                    rest.skip(n as int),
                ));
                assert(text::views(out@) =~= old_out + formatted_table(rest.take(n as int)));
                assert(piped(all) =~= text::views(out@) + piped(all.skip(i + n)));
                i = i + n;
            },
            None => {
                let q = text::slice_of(ls[i].as_slice(), 0, ls[i].len());
                assert(q@ =~= all[i as int]);
                let ghost o = text::views(out@);
                out.push(q);
                assert(text::views(out@) =~= o.push(all[i as int]));
                assert(rest[0] == all[i as int]);
                assert(rest.skip(1) =~= all.skip(i + 1));
                assert(block_len(rest) is None);
                assert(piped(rest) == seq![rest[0]] + piped(rest.skip(1)));
                assert(piped(all) =~= text::views(out@) + piped(all.skip(i + 1)));
                i = i + 1;
            },
        }
    }
    assert(all.skip(ls.len() as int) =~= Seq::<Seq<char>>::empty());
    assert(text::views(out@) + Seq::<Seq<char>>::empty() =~= text::views(out@));
    out
}

fn collapse_exec(ls: &Vec<Vec<char>>) -> (r: Vec<Vec<char>>)
    ensures
        text::views(r@) == collapse_blanks(text::views(ls@)),
{
    let ghost all = text::views(ls@);
    let mut out: Vec<Vec<char>> = Vec::new();
    let mut i: usize = 0;
    while i < ls.len()
        invariant
            i <= ls.len(),
            all == text::views(ls@),
            text::views(out@) == collapse_blanks(all.take(i as int)),
        decreases ls.len() - i,
    {
        let ghost t = all.take(i + 1);
        assert(t.drop_last() =~= all.take(i as int));
        assert(t.last() == all[i as int]);
        if ls[i].len() == 0 && i >= 1 && ls[i - 1].len() == 0 {
            assert(t[t.len() - 2] == all[i - 1]);
        } else {
            if i >= 1 {
                assert(t[t.len() - 2] == all[i - 1]);
            }
            let q = text::slice_of(ls[i].as_slice(), 0, ls[i].len());
            assert(q@ =~= all[i as int]);
            let ghost o = text::views(out@);
            out.push(q);
            assert(text::views(out@) =~= o.push(all[i as int]));
        }
        i += 1;
    }
    assert(all.take(ls.len() as int) =~= all);
    out
}

/// Normalize a Markdown buffer for `:fmt`: strip trailing whitespace, align
/// pipe tables, and collapse runs of blank lines to a single blank. A trailing
/// blank run collapses the same way, so at most one trailing blank line
/// survives, and a buffer that ends mid-line gains no terminator.
/// Deliberately does NOT reflow paragraphs.
pub fn format_markdown(text: &str) -> (r: String)
    ensures
        r@ == formatted(text@),
{
    let v = text::chars_of(text);
    let pieces = text::split_exec(&v, '\n');
    let mut stripped: Vec<Vec<char>> = Vec::new();
    let mut i: usize = 0;
    while i < pieces.len()
        invariant
            i <= pieces.len(),
            text::views(pieces@) == text::split(v@, '\n'),
            text::views(stripped@) =~= stripped_lines(v@).take(i as int),
        decreases pieces.len() - i,
    {
        let l = text::trim_end_exec(pieces[i].as_slice());
        let ghost o = text::views(stripped@);
        stripped.push(l);
        assert(text::views(stripped@) =~= o.push(l@));
        assert(stripped_lines(v@).take(i + 1) =~= stripped_lines(v@).take(i as int).push(
            text::trim_end(pieces@[i as int]@),
        ));
        i += 1;
    }
    assert(stripped_lines(v@).take(pieces.len() as int) =~= stripped_lines(v@));
    let piped_lines = piped_exec(&stripped);
    let out = collapse_exec(&piped_lines);
    let nl = vec!['\n'];
    assert(nl@ =~= seq!['\n']);
    let joined = text::join_exec(&out, nl.as_slice());
    text::string_of(&joined)
}

/// No two consecutive formatted lines are blank, and the last line is blank
/// only when the last input line is.
proof fn lemma_collapse(ls: Seq<Seq<char>>)
    ensures
        forall|i: int|
            0 <= i < collapse_blanks(ls).len() - 1 ==> !(#[trigger] collapse_blanks(ls)[i].len()
                == 0 && collapse_blanks(ls)[i + 1].len() == 0),
        ls.len() > 0 ==> collapse_blanks(ls).len() > 0 && (collapse_blanks(ls).last().len() == 0
            <==> ls.last().len() == 0),
    decreases ls.len(),
{
    if ls.len() > 0 {
        let d = ls.drop_last();
        lemma_collapse(d);
        let r = collapse_blanks(d);
        if ls.last().len() == 0 && ls.len() >= 2 && ls[ls.len() - 2].len() == 0 {
            assert(d.last() == ls[ls.len() - 2]);
        } else {
            let r2 = r.push(ls.last());
            assert forall|i: int| 0 <= i < r2.len() - 1 implies !(#[trigger] r2[i].len() == 0
                && r2[i + 1].len() == 0) by {
                if i < r.len() - 1 {
                    assert(r2[i] == r[i] && r2[i + 1] == r[i + 1]);
                } else {
                    assert(i == r.len() - 1);
                    assert(r2[i] == r.last());
                    if d.len() > 0 {
                        assert(d.last() == ls[ls.len() - 2]);
                    }
                }
            }
        }
    }
}

/// `:fmt` never leaves two blank lines in a row: in the `\n`-separated lines
/// of its output, a blank line is always followed by a non-blank one.
pub proof fn lemma_format_no_double_blank(t: Seq<char>)
    ensures
        formatted(t) == text::join_sep(formatted_lines(t), seq!['\n']),
        forall|i: int|
            0 <= i < formatted_lines(t).len() - 1 ==> !(#[trigger] formatted_lines(t)[i].len()
                == 0 && formatted_lines(t)[i + 1].len() == 0),
{
    lemma_collapse(piped(stripped_lines(t)));
}


/// A line with no trailing whitespace.
pub open spec fn tidy(l: Seq<char>) -> bool {
    l.len() == 0 || !text::is_ws(l.last())
}

/// Every piece of `split(s, c)` is free of `c`, and takes its chars from
/// `s`; there is at least one piece.
proof fn lemma_split_pieces(s: Seq<char>, c: char)
    ensures
        text::split(s, c).len() >= 1,
        forall|i: int|
            0 <= i < text::split(s, c).len() ==> !(#[trigger] text::split(s, c)[i]).contains(c),
        forall|i: int, x: char|
            0 <= i < text::split(s, c).len() && #[trigger] text::split(s, c)[i].contains(x)
                ==> s.contains(x),
    decreases s.len(),
{
    text::lemma_find(s, c);
    match text::find(s, c) {
        None => {},
        Some(i) => {
            let h = s.take(i as int);
            let t = s.skip(i as int + 1);
            lemma_split_pieces(t, c);
            let sp = text::split(s, c);
            assert(sp == seq![h] + text::split(t, c));
            assert forall|k: int| 0 <= k < sp.len() implies !(#[trigger] sp[k]).contains(c) by {
                if k == 0 {
                    if h.contains(c) {
                        let j = choose|j: int| 0 <= j < h.len() && h[j] == c;
                        assert(s[j] == c);
                    }
                } else {
                    assert(sp[k] == text::split(t, c)[k - 1]);
                }
            }
            assert forall|k: int, x: char|
                0 <= k < sp.len() && #[trigger] sp[k].contains(x) implies s.contains(x) by {
                if k == 0 {
                    let j = choose|j: int| 0 <= j < h.len() && h[j] == x;
                    assert(s[j] == x);
                } else {
                    assert(sp[k] == text::split(t, c)[k - 1]);
                    assert(t.contains(x));
                    let j = choose|j: int| 0 <= j < t.len() && t[j] == x;
                    assert(s[j + i + 1] == x);
                }
            }
        },
    }
}

/// The stripped lines are tidy, free of `\n`, and take their chars from
/// the text.
proof fn lemma_stripped(t: Seq<char>)
    ensures
        stripped_lines(t).len() >= 1,
        forall|i: int|
            0 <= i < stripped_lines(t).len() ==> tidy(#[trigger] stripped_lines(t)[i]) && !stripped_lines(
                t,
            )[i].contains('\n'),
        forall|i: int, x: char|
            0 <= i < stripped_lines(t).len() && #[trigger] stripped_lines(t)[i].contains(x)
                ==> t.contains(x),
{
    lemma_split_pieces(t, '\n');
    let sp = text::split(t, '\n');
    let st = stripped_lines(t);
    assert forall|i: int| 0 <= i < st.len() implies tidy(#[trigger] st[i]) && !st[i].contains(
        '\n',
    ) by {
        let l = sp[i];
        text::lemma_trail_bounds(l, text::ws_pred());
        let m = l.len() - text::trail(l, text::ws_pred());
        if m > 0 {
            assert(st[i].last() == l[m - 1]);
            assert(!text::ws_pred()(l[m - 1]));
        }
        if st[i].contains('\n') {
            let j = choose|j: int| 0 <= j < st[i].len() && st[i][j] == '\n';
            assert(l[j] == '\n');
        }
    }
    assert forall|i: int, x: char|
        0 <= i < st.len() && #[trigger] st[i].contains(x) implies t.contains(x) by {
        let j = choose|j: int| 0 <= j < st[i].len() && st[i][j] == x;
        text::lemma_trail_bounds(sp[i], text::ws_pred());
        assert(st[i] == sp[i].take(sp[i].len() - text::trail(sp[i], text::ws_pred())));
        assert(sp[i][j] == x);
        assert(sp[i].contains(x));
    }
}

proof fn lemma_table_tidy(block: Seq<Seq<char>>)
    ensures
        forall|i: int| 0 <= i < formatted_table(block).len() ==> tidy(#[trigger] formatted_table(block)[i]),
{
    let rows = row_cells(block);
    assert forall|i: int| 0 <= i < formatted_table(block).len() implies tidy(
        #[trigger] formatted_table(block)[i],
    ) by {
        let r = table_row(rows, i);
        assert(r.last() == '|');
    }
}

proof fn lemma_piped_tidy(ls: Seq<Seq<char>>)
    requires
        forall|i: int| 0 <= i < ls.len() ==> tidy(#[trigger] ls[i]),
    ensures
        forall|i: int| 0 <= i < piped(ls).len() ==> tidy(#[trigger] piped(ls)[i]),
    decreases ls.len(),
{
    if ls.len() > 0 {
        match block_len(ls) {
            Some(n) => {
                lemma_table_run(ls, 2);
                let rest = ls.skip(n as int);
                assert forall|i: int| 0 <= i < rest.len() implies tidy(#[trigger] rest[i]) by {
                    assert(rest[i] == ls[i + n]);
                }
                lemma_piped_tidy(rest);
                lemma_table_tidy(ls.take(n as int));
                let p = piped(ls);
                let ft = formatted_table(ls.take(n as int));
                assert forall|i: int| 0 <= i < p.len() implies tidy(#[trigger] p[i]) by {
                    if i < ft.len() {
                        assert(p[i] == ft[i]);
                    } else {
                        assert(p[i] == piped(rest)[i - ft.len()]);
                    }
                }
            },
            None => {
                let rest = ls.skip(1);
                assert forall|i: int| 0 <= i < rest.len() implies tidy(#[trigger] rest[i]) by {
                    assert(rest[i] == ls[i + 1]);
                }
                lemma_piped_tidy(rest);
                let p = piped(ls);
                assert forall|i: int| 0 <= i < p.len() implies tidy(#[trigger] p[i]) by {
                    if i > 0 {
                        assert(p[i] == piped(rest)[i - 1]);
                    }
                }
            },
        }
    }
}

/// Every line of `collapse_blanks(ls)` is a line of `ls`.
proof fn lemma_collapse_from(ls: Seq<Seq<char>>)
    ensures
        forall|i: int|
            0 <= i < collapse_blanks(ls).len() ==> ls.contains(#[trigger] collapse_blanks(ls)[i]),
    decreases ls.len(),
{
    if ls.len() > 0 {
        let d = ls.drop_last();
        lemma_collapse_from(d);
        let c = collapse_blanks(ls);
        assert forall|i: int| 0 <= i < c.len() implies ls.contains(#[trigger] c[i]) by {
            if i < collapse_blanks(d).len() {
                assert(c[i] == collapse_blanks(d)[i]);
                let j = choose|j: int| 0 <= j < d.len() && d[j] == c[i];
                assert(ls[j] == d[j]);
            } else {
                assert(c[i] == ls.last());
                assert(ls[ls.len() - 1] == ls.last());
            }
        }
    }
}

/// No line `:fmt` leaves ends in whitespace (prose lines are stripped,
/// table rows end in `|`).
pub proof fn lemma_format_tidy(t: Seq<char>)
    ensures
        forall|i: int| 0 <= i < formatted_lines(t).len() ==> tidy(#[trigger] formatted_lines(t)[i]),
{
    lemma_stripped(t);
    lemma_piped_tidy(stripped_lines(t));
    let p = piped(stripped_lines(t));
    lemma_collapse_from(p);
    assert forall|i: int| 0 <= i < formatted_lines(t).len() implies tidy(
        #[trigger] formatted_lines(t)[i],
    ) by {
        let j = choose|j: int| 0 <= j < p.len() && p[j] == formatted_lines(t)[i];
        assert(tidy(p[j]));
    }
}


proof fn lemma_piped_plain(ls: Seq<Seq<char>>)
    requires
        forall|i: int| 0 <= i < ls.len() ==> !(#[trigger] ls[i]).contains('|'),
    ensures
        piped(ls) == ls,
    decreases ls.len(),
{
    if ls.len() > 0 {
        assert(block_len(ls) is None);
        let rest = ls.skip(1);
        assert forall|i: int| 0 <= i < rest.len() implies !(#[trigger] rest[i]).contains('|') by {
            assert(rest[i] == ls[i + 1]);
        }
        lemma_piped_plain(rest);
        assert(seq![ls[0]] + rest == ls);
    }
}

/// The predicate "not blank".
pub open spec fn nonblank() -> spec_fn(Seq<char>) -> bool {
    |l: Seq<char>| l.len() > 0
}

proof fn lemma_collapse_nonblank(ls: Seq<Seq<char>>)
    ensures
        collapse_blanks(ls).filter(nonblank()) == ls.filter(nonblank()),
    decreases ls.len(),
{
    reveal(Seq::filter);
    if ls.len() > 0 {
        let d = ls.drop_last();
        lemma_collapse_nonblank(d);
        let r = collapse_blanks(d);
        assert(ls.filter(nonblank()) == if ls.last().len() > 0 {
            d.filter(nonblank()).push(ls.last())
        } else {
            d.filter(nonblank())
        });
        if !(ls.last().len() == 0 && ls.len() >= 2 && ls[ls.len() - 2].len() == 0) {
            assert(r.push(ls.last()).drop_last() == r);
            assert(r.push(ls.last()).last() == ls.last());
        }
    }
}

proof fn lemma_collapse_id(ls: Seq<Seq<char>>)
    requires
        forall|i: int| 0 <= i < ls.len() - 1 ==> !(#[trigger] ls[i].len() == 0 && ls[i + 1].len() == 0),
    ensures
        collapse_blanks(ls) == ls,
    decreases ls.len(),
{
    if ls.len() > 0 {
        let d = ls.drop_last();
        assert forall|i: int| 0 <= i < d.len() - 1 implies !(#[trigger] d[i].len() == 0 && d[i
            + 1].len() == 0) by {
            assert(d[i] == ls[i] && d[i + 1] == ls[i + 1]);
        }
        lemma_collapse_id(d);
        if ls.len() >= 2 {
            assert(ls[ls.len() - 2].len() == 0 ==> ls[ls.len() - 1].len() != 0);
        }
        assert(d.push(ls.last()) == ls);
    }
}

/// Without tables `:fmt` reflows nothing: its non-blank lines are the
/// text's lines with trailing whitespace dropped and blank ones left out,
/// in order.
pub proof fn lemma_format_keeps_prose(t: Seq<char>)
    requires
        !t.contains('|'),
    ensures
        formatted_lines(t).filter(nonblank()) == stripped_lines(t).filter(nonblank()),
{
    let st = stripped_lines(t);
    lemma_stripped(t);
    assert forall|i: int| 0 <= i < st.len() implies !(#[trigger] st[i]).contains('|') by {
        if st[i].contains('|') {
            assert(t.contains('|'));
        }
    }
    lemma_piped_plain(st);
    lemma_collapse_nonblank(st);
}

/// Without tables, formatting formatted text changes nothing.
pub proof fn lemma_format_idempotent_prose(t: Seq<char>)
    requires
        !t.contains('|'),
    ensures
        formatted(formatted(t)) == formatted(t),
{
    let st = stripped_lines(t);
    lemma_stripped(t);
    assert forall|i: int| 0 <= i < st.len() implies !(#[trigger] st[i]).contains('|') by {
        if st[i].contains('|') {
            assert(t.contains('|'));
        }
    }
    lemma_piped_plain(st);
    let l = formatted_lines(t);
    assert(l == collapse_blanks(st));
    lemma_collapse(st);
    lemma_collapse_from(st);
    lemma_format_tidy(t);
    lemma_format_no_double_blank(t);
    assert forall|i: int| 0 <= i < l.len() implies !(#[trigger] l[i]).contains('\n') && !l[i].contains(
        '|',
    ) by {
        let j = choose|j: int| 0 <= j < st.len() && st[j] == l[i];
    }
    text::lemma_split_join(l, '\n');
    let f = formatted(t);
    assert(f == text::join_sep(l, seq!['\n']));
    let st2 = stripped_lines(f);
    assert(text::split(f, '\n') == l);
    assert forall|i: int| 0 <= i < l.len() implies #[trigger] text::trim_end(l[i]) == l[i] by {
        assert(tidy(l[i]));
        assert(text::trail(l[i], text::ws_pred()) == 0);
        assert(l[i].take(l[i].len() as int) == l[i]);
    }
    assert(st2 == l);
    lemma_piped_plain(l);
    lemma_collapse_id(l);
}

// ---------------------------------------------------------------------------
// Column widths
// ---------------------------------------------------------------------------

proof fn lemma_col_width_grows(rows: Seq<Seq<Seq<char>>>, ci: int, m: nat, n: nat)
    requires
        m <= n <= rows.len(),
    ensures
        col_width(rows, ci, m) <= col_width(rows, ci, n),
    decreases n - m,
{
    if m < n {
        lemma_col_width_grows(rows, ci, m, (n - 1) as nat);
    }
}

/// A column is as wide as every cell of it outside the separator row.
proof fn lemma_col_width_fits(rows: Seq<Seq<Seq<char>>>, ci: int, n: nat, i: int)
    requires
        0 <= i < n <= rows.len(),
        i != 1,
        0 <= ci < rows[i].len(),
    ensures
        rows[i][ci].len() <= col_width(rows, ci, n),
    decreases n,
{
    if i < n - 1 {
        lemma_col_width_fits(rows, ci, (n - 1) as nat, i);
        lemma_col_width_grows(rows, ci, (n - 1) as nat, n);
    }
}

proof fn lemma_join_sep_same_len(a: Seq<Seq<char>>, b: Seq<Seq<char>>, sep: Seq<char>)
    requires
        a.len() == b.len(),
        forall|i: int| 0 <= i < a.len() ==> (#[trigger] a[i]).len() == b[i].len(),
    ensures
        text::join_sep(a, sep).len() == text::join_sep(b, sep).len(),
    decreases a.len(),
{
    if a.len() > 1 {
        let da = a.drop_last();
        let db = b.drop_last();
        assert forall|i: int| 0 <= i < da.len() implies (#[trigger] da[i]).len() == db[i].len() by {
            assert(da[i] == a[i] && db[i] == b[i]);
        }
        lemma_join_sep_same_len(da, db, sep);
    }
}

/// Every formatted cell of a column has the column's width.
proof fn lemma_out_cell_width(rows: Seq<Seq<Seq<char>>>, ri: int, ci: int)
    requires
        0 <= ri < rows.len(),
        0 <= ci,
    ensures
        out_cell(rows, ri, ci).len() == col_width(rows, ci, rows.len()),
{
    let n = rows.len();
    lemma_col_width_floor(rows, ci, n);
    if ri != 1 && ci < rows[ri].len() {
        lemma_col_width_fits(rows, ci, n, ri);
    }
}

/// Table alignment: every cell of a column, the header row's included, fits
/// the column; every formatted cell of the column is exactly that wide (at
/// least 3); so every formatted row of the table comes out the same length.
pub proof fn lemma_table_columns_align(block: Seq<Seq<char>>)
    ensures
        forall|ri: int, ci: int|
            0 <= ri < block.len() && ri != 1 && 0 <= ci < cells_of(block[ri]).len() ==> (
            #[trigger] cells_of(block[ri])[ci]).len() <= col_width(
                row_cells(block),
                ci,
                block.len(),
            ),
        forall|ri: int, ci: int|
            0 <= ri < block.len() && 0 <= ci ==> #[trigger] out_cell(row_cells(block), ri, ci).len()
                == col_width(row_cells(block), ci, block.len()) && col_width(
                row_cells(block),
                ci,
                block.len(),
            ) >= 3,
        formatted_table(block).len() == block.len(),
        forall|ri: int, rj: int|
            0 <= ri < block.len() && 0 <= rj < block.len() ==> (#[trigger] formatted_table(
                block,
            )[ri]).len() == (#[trigger] formatted_table(block)[rj]).len(),
{
    let rows = row_cells(block);
    let n = rows.len();
    assert forall|ri: int, ci: int|
        0 <= ri < block.len() && ri != 1 && 0 <= ci < cells_of(block[ri]).len() implies (
        #[trigger] cells_of(block[ri])[ci]).len() <= col_width(rows, ci, n) by {
        assert(rows[ri] == cells_of(block[ri]));
        lemma_col_width_fits(rows, ci, n, ri);
    }
    assert forall|ri: int, ci: int| 0 <= ri < block.len() && 0 <= ci implies #[trigger] out_cell(
        rows,
        ri,
        ci,
    ).len() == col_width(rows, ci, n) && col_width(rows, ci, n) >= 3 by {
        lemma_out_cell_width(rows, ri, ci);
        lemma_col_width_floor(rows, ci, n);
    }
    assert forall|ri: int, rj: int|
        0 <= ri < block.len() && 0 <= rj < block.len() implies (#[trigger] formatted_table(
        block,
    )[ri]).len() == (#[trigger] formatted_table(block)[rj]).len() by {
        let a = Seq::new(ncols(rows), |ci: int| out_cell(rows, ri, ci));
        let b = Seq::new(ncols(rows), |ci: int| out_cell(rows, rj, ci));
        assert forall|i: int| 0 <= i < a.len() implies (#[trigger] a[i]).len() == b[i].len() by {
            lemma_out_cell_width(rows, ri, i);
            lemma_out_cell_width(rows, rj, i);
        }
        lemma_join_sep_same_len(a, b, cell_sep());
        assert(formatted_table(block)[ri] == table_row(rows, ri));
        assert(formatted_table(block)[rj] == table_row(rows, rj));
    }
}

/// The rebuilt separator keeps each column's alignment: read back, a
/// rebuilt separator cell asks for the alignment it was built for; it is
/// dashes with a colon on the left for left, on the right for right, on
/// both ends for center, none for plain.
pub proof fn lemma_separator_keeps_alignment(w: nat, a: Align)
    requires
        w >= 3,
    ensures
        align_of_cell(sep_cell(w, a)) == a,
        sep_cell(w, a).len() == w,
        forall|i: int|
            0 < i < w - 1 ==> #[trigger] sep_cell(w, a)[i] == '-',
        sep_cell(w, a)[0] == ':' <==> (a == Align::Left || a == Align::Center),
        sep_cell(w, a)[w - 1] == ':' <==> (a == Align::Right || a == Align::Center),
{
    let c = sep_cell(w, a);
    match a {
        Align::Left => {
            assert(c[0] == ':');
            assert(c[w - 1] == '-');
        },
        Align::Right => {
            assert(c[0] == '-');
            assert(c[w - 1] == ':');
        },
        Align::Center => {
            assert(c[0] == ':');
            assert(c[w - 1] == ':');
        },
        Align::Plain => {
            assert(c[0] == '-');
            assert(c[w - 1] == '-');
        },
    }
    assert forall|i: int| 0 < i < w - 1 implies #[trigger] sep_cell(w, a)[i] == '-' by {
        match a {
            Align::Left => assert(c[i] == dashes((w - 1) as nat)[i - 1]),
            Align::Right => assert(c[i] == dashes((w - 1) as nat)[i]),
            Align::Center => assert(c[i] == dashes((w - 2) as nat)[i - 1]),
            Align::Plain => assert(c[i] == dashes(w)[i]),
        }
    }
}

/// A padded cell holds the cell unchanged at `l`, with only spaces around it,
/// flush left for left and plain alignment and flush right for right.
proof fn lemma_padded_holds(cell: Seq<char>, w: nat, a: Align) -> (l: int)
    requires
        cell.len() <= w,
    ensures
        0 <= l && l + cell.len() <= padded(cell, w, a).len(),
        padded(cell, w, a).subrange(l, l + cell.len()) == cell,
        forall|j: int|
            0 <= j < padded(cell, w, a).len() && !(l <= j < l + cell.len()) ==> #[trigger] padded(
                cell,
                w,
                a,
            )[j] == ' ',
        (a == Align::Left || a == Align::Plain) ==> l == 0,
        a == Align::Right ==> l + cell.len() == padded(cell, w, a).len(),
{
    let o = padded(cell, w, a);
    if cell.len() >= w {
        assert(o.subrange(0, cell.len() as int) =~= cell);
        0
    } else {
        let pad = (w - cell.len()) as nat;
        match a {
            Align::Right => {
                assert(o.subrange(pad as int, (pad + cell.len()) as int) =~= cell);
                pad as int
            },
            Align::Center => {
                let h = pad / 2;
                assert(o.subrange(h as int, (h + cell.len()) as int) =~= cell);
                h as int
            },
            _ => {
                assert(o.subrange(0, cell.len() as int) =~= cell);
                0
            },
        }
    }
}

/// `out` holds `cell` unchanged at `l` with only spaces around it: flush
/// left for left and plain alignment `a`, flush right for right.
pub open spec fn holds_at(out: Seq<char>, cell: Seq<char>, a: Align, l: int) -> bool {
    &&& 0 <= l && l + cell.len() <= out.len()
    &&& out.subrange(l, l + cell.len()) == cell
    &&& forall|j: int| 0 <= j < out.len() && !(l <= j < l + cell.len()) ==> out[j] == ' '
    &&& (a == Align::Left || a == Align::Plain) ==> l == 0
    &&& a == Align::Right ==> l + cell.len() == out.len()
}

proof fn lemma_table_keeps_cell(block: Seq<Seq<char>>, ri: int, ci: int) -> (l: int)
    requires
        0 <= ri < block.len(),
        ri != 1,
        0 <= ci < cells_of(block[ri]).len(),
    ensures
        holds_at(
            out_cell(row_cells(block), ri, ci),
            cells_of(block[ri])[ci],
            align_at(aligns_of(row_cells(block)), ci),
            l,
        ),
{
    let rows = row_cells(block);
    let n = rows.len();
    assert(rows[ri] == cells_of(block[ri]));
    lemma_col_width_fits(rows, ci, n, ri);
    let cell = cells_of(block[ri])[ci];
    assert(cell_at(rows[ri], ci) == cell);
    let a = align_at(aligns_of(rows), ci);
    let l = lemma_padded_holds(cell, col_width(rows, ci, n), a);
    assert(out_cell(rows, ri, ci) == padded(cell, col_width(rows, ci, n), a));
    l
}

/// The formatted cell `ci` of row `ri` holds the row's cell unchanged, with
/// only padding spaces around it placed as the column's alignment asks.
pub open spec fn keeps_cell(block: Seq<Seq<char>>, ri: int, ci: int) -> bool {
    exists|l: int|
        holds_at(
            out_cell(row_cells(block), ri, ci),
            cells_of(block[ri])[ci],
            align_at(aligns_of(row_cells(block)), ci),
            l,
        )
}

/// Formatting keeps what the table says: every cell of a row other than the
/// separator is found unchanged in its formatted cell with only padding
/// spaces around it (flush left unless the column is right- or
/// center-aligned, flush right when right-aligned), and the rebuilt
/// separator, read back, declares the alignments the original one did.
pub proof fn lemma_table_keeps_cells(block: Seq<Seq<char>>)
    ensures
        forall|ri: int, ci: int|
            0 <= ri < block.len() && ri != 1 && 0 <= ci < cells_of(block[ri]).len()
                ==> #[trigger] keeps_cell(block, ri, ci),
        block.len() > 1 ==> forall|ci: int|
            0 <= ci < ncols(row_cells(block)) ==> align_of_cell(
                #[trigger] out_cell(row_cells(block), 1, ci),
            ) == if ci < cells_of(block[1]).len() {
                align_of_cell(cells_of(block[1])[ci])
            } else {
                Align::Plain
            },
{
    let rows = row_cells(block);
    let n = rows.len();
    assert forall|ri: int, ci: int|
        0 <= ri < block.len() && ri != 1 && 0 <= ci < cells_of(block[ri]).len() implies #[trigger] keeps_cell(
            block,
            ri,
            ci,
        ) by {
        let l = lemma_table_keeps_cell(block, ri, ci);
    }
    assert(rows == row_cells(block));
    if block.len() > 1 {
        assert forall|ci: int| 0 <= ci < ncols(rows) implies align_of_cell(
            #[trigger] out_cell(rows, 1, ci),
        ) == if ci < cells_of(block[1]).len() {
            align_of_cell(cells_of(block[1])[ci])
        } else {
            Align::Plain
        } by {
            assert(rows[1] == cells_of(block[1]));
            lemma_col_width_floor(rows, ci, n);
            lemma_separator_keeps_alignment(col_width(rows, ci, n), align_at(aligns_of(rows), ci));
        }
    }
}

} // verus!
