use vstd::prelude::*;

verus! {

broadcast use vstd::string::group_string_axioms;

/// Width of a level in tiles.
pub const LEVEL_COLS: usize = 60;

/// Height of a level in tiles.
pub const LEVEL_ROWS: usize = 13;

/// A line without the carriage return that ended it, if any.
pub open spec fn strip_cr(l: Seq<char>) -> Seq<char> {
    if l.len() > 0 && l.last() == '\r' {
        l.drop_last()
    } else {
        l
    }
}

/// After reading `s` from the left: the lines already ended by a `'\n'`,
/// and the line still being read.
pub open spec fn split_state(s: Seq<char>) -> (Seq<Seq<char>>, Seq<char>)
    decreases s.len(),
{
    if s.len() == 0 {
        (seq![], seq![])
    } else {
        let (done, cur) = split_state(s.drop_last());
        if s.last() == '\n' {
            (done.push(strip_cr(cur)), seq![])
        } else {
            (done, cur.push(s.last()))
        }
    }
}

/// The lines of a text: split at `"\n"` or `"\r\n"`, with the final line
/// ending optional, so that a trailing newline adds no empty line.
pub open spec fn lines_of(s: Seq<char>) -> Seq<Seq<char>> {
    let (done, cur) = split_state(s);
    if cur.len() > 0 {
        done.push(cur)
    } else {
        done
    }
}

/// A line cut or padded with spaces to exactly `LEVEL_COLS` tiles.
pub open spec fn fit_row(l: Seq<char>) -> Seq<char> {
    Seq::new(LEVEL_COLS as nat, |c: int| if c < l.len() { l[c] } else { ' ' })
}

/// The grid of a level text: its first `LEVEL_ROWS` lines, each fitted to
/// `LEVEL_COLS` tiles, and rows of spaces where the text has fewer lines.
pub open spec fn grid_of_text(t: Seq<char>) -> Seq<Seq<char>> {
    let ls = lines_of(t);
    Seq::new(
        LEVEL_ROWS as nat,
        |r: int| if r < ls.len() { fit_row(ls[r]) } else { fit_row(seq![]) },
    )
}

/// A rectangular grid with at least one row, whose sizes fit in an `i32`.
pub open spec fn grid_wf(g: Seq<Seq<char>>) -> bool {
    &&& 0 < g.len() <= i32::MAX
    &&& g[0].len() <= i32::MAX
    &&& forall|r: int| 0 <= r < g.len() ==> #[trigger] g[r].len() == g[0].len()
}

/// Number of columns of a grid.
pub open spec fn cols_of(g: Seq<Seq<char>>) -> int {
    g[0].len() as int
}

/// Whether `(col, row)` lies inside the grid.
pub open spec fn in_grid(g: Seq<Seq<char>>, col: int, row: int) -> bool {
    0 <= row < g.len() && 0 <= col < cols_of(g)
}

/// Tiles that nothing can walk through.
pub open spec fn is_solid(ch: char) -> bool {
    ch == '#' || ch == '=' || ch == 'H'
}

/// A tile inside the grid that is not solid.
pub open spec fn passable(g: Seq<Seq<char>>, col: int, row: int) -> bool {
    in_grid(g, col, row) && !is_solid(g[row][col])
}

/// A copy of a grid.
pub fn copy_grid(grid: &Vec<Vec<char>>) -> (c: Vec<Vec<char>>)
    ensures
        c.deep_view() == grid.deep_view(),
{
    let mut c: Vec<Vec<char>> = Vec::new();
    let mut r: usize = 0;
    while r < grid.len()
        invariant
            r <= grid@.len(),
            c@.len() == r,
            forall|i: int| 0 <= i < r ==> #[trigger] c@[i]@ == grid@[i]@,
        decreases grid@.len() - r,
    {
        let mut line: Vec<char> = Vec::new();
        let mut j: usize = 0;
        while j < grid[r].len()
            invariant
                r < grid@.len(),
                j <= grid@[r as int]@.len(),
                line@ == grid@[r as int]@.take(j as int),
            decreases grid@[r as int]@.len() - j,
        {
            line.push(grid[r][j]);
            assert(grid@[r as int]@.take(j + 1) =~= grid@[r as int]@.take(j as int).push(
                grid@[r as int]@[j as int],
            ));
            j = j + 1;
        }
        assert(grid@[r as int]@.take(j as int) =~= grid@[r as int]@);
        c.push(line);
        r = r + 1;
    }
    assert(c.deep_view() =~= grid.deep_view());
    c
}

/// Sets one cell of a grid.
pub fn set_cell(grid: &mut Vec<Vec<char>>, r: usize, c: usize, ch: char)
    requires
        r < old(grid)@.len(),
        c < old(grid)@[r as int]@.len(),
    ensures
        final(grid).deep_view() == old(grid).deep_view().update(
            r as int,
            old(grid).deep_view()[r as int].update(c as int, ch),
        ),
        final(grid)@.len() == old(grid)@.len(),
{
    grid[r].set(c, ch);
    assert forall|i: int| 0 <= i < grid@.len() implies #[trigger] grid.deep_view()[i]
        == old(grid).deep_view().update(
        r as int,
        old(grid).deep_view()[r as int].update(c as int, ch),
    )[i] by {
        if i == r as int {
            assert(grid@[i]@ =~= old(grid)@[i]@.update(c as int, ch));
        }
    }
    assert(grid.deep_view() =~= old(grid).deep_view().update(
        r as int,
        old(grid).deep_view()[r as int].update(c as int, ch),
    ));
}

/// The characters of a text.
pub fn text_chars(text: &str) -> (v: Vec<char>)
    ensures
        v@ == text@,
{
    let mut v: Vec<char> = Vec::new();
    for ch in it: text.chars()
        invariant
            it.seq() == text@,
            v@ == it.seq().take(it.index() as int),
    {
        v.push(ch);
    }
    v
}

proof fn lemma_take_last(s: Seq<char>, i: int)
    requires
        0 <= i < s.len(),
    ensures
        s.take(i + 1).drop_last() == s.take(i),
        s.take(i + 1).last() == s[i],
{
    assert(s.take(i + 1).drop_last() =~= s.take(i));
}

/// Where each line of `s` starts and ends, as in `lines_of`.
pub fn line_bounds(s: &Vec<char>) -> (out: Vec<(usize, usize)>)
    ensures
        out@.len() == lines_of(s@).len(),
        forall|k: int|
            0 <= k < out@.len() ==> {
                &&& (#[trigger] out@[k]).0 <= out@[k].1 <= s@.len()
                &&& s@.subrange(out@[k].0 as int, out@[k].1 as int) == lines_of(s@)[k]
            },
{
    let n = s.len();
    let mut out: Vec<(usize, usize)> = Vec::new();
    let mut start: usize = 0;
    let mut i: usize = 0;
    while i < n
        invariant
            n == s@.len(),
            start <= i <= n,
            split_state(s@.take(i as int)).1 == s@.subrange(start as int, i as int),
            out@.len() == split_state(s@.take(i as int)).0.len(),
            forall|k: int|
                0 <= k < out@.len() ==> {
                    &&& (#[trigger] out@[k]).0 <= out@[k].1 <= n
                    &&& s@.subrange(out@[k].0 as int, out@[k].1 as int) == split_state(
                        s@.take(i as int),
                    ).0[k]
                },
        decreases n - i,
    {
        proof {
            lemma_take_last(s@, i as int);
        }
        let ghost cur = s@.subrange(start as int, i as int);
        if s[i] == '\n' {
            let end = if i > start && s[i - 1] == '\r' {
                i - 1
            } else {
                i
            };
            assert(s@.subrange(start as int, end as int) == strip_cr(cur)) by {
                if i > start && s@[i - 1] == '\r' {
                    assert(s@.subrange(start as int, end as int) =~= cur.drop_last());
                }
            }
            out.push((start, end));
            start = i + 1;
            assert(s@.subrange(start as int, (i + 1) as int) =~= seq![]);
        } else {
            assert(s@.subrange(start as int, (i + 1) as int) =~= cur.push(s@[i as int]));
        }
        i = i + 1;
    }
    assert(s@.take(n as int) =~= s@);
    if start < n {
        out.push((start, n));
    }
    out
}

/// The grid of a level text (see `grid_of_text`).
pub fn parse_grid(text: &str) -> (grid: Vec<Vec<char>>)
    ensures
        grid.deep_view() == grid_of_text(text@),
        grid@.len() == LEVEL_ROWS,
        forall|r: int| 0 <= r < grid@.len() ==> (#[trigger] grid@[r])@.len() == LEVEL_COLS,
{
    let chars = text_chars(text);
    let bounds = line_bounds(&chars);
    let ghost ls = lines_of(text@);
    let mut grid: Vec<Vec<char>> = Vec::new();
    for r in 0..LEVEL_ROWS
        invariant
            chars@ == text@,
            ls == lines_of(text@),
            bounds@.len() == ls.len(),
            forall|k: int|
                0 <= k < bounds@.len() ==> {
                    &&& (#[trigger] bounds@[k]).0 <= bounds@[k].1 <= chars@.len()
                    &&& chars@.subrange(bounds@[k].0 as int, bounds@[k].1 as int) == ls[k]
                },
            grid@.len() == r,
            forall|i: int| 0 <= i < r ==> (#[trigger] grid@[i])@ == grid_of_text(text@)[i],
    {
        let mut row: Vec<char> = Vec::new();
        let ghost line: Seq<char> = if r < ls.len() {
            ls[r as int]
        } else {
            seq![]
        };
        for c in 0..LEVEL_COLS
            invariant
                chars@ == text@,
                ls == lines_of(text@),
                bounds@.len() == ls.len(),
                forall|k: int|
                    0 <= k < bounds@.len() ==> {
                        &&& (#[trigger] bounds@[k]).0 <= bounds@[k].1 <= chars@.len()
                        &&& chars@.subrange(bounds@[k].0 as int, bounds@[k].1 as int) == ls[k]
                    },
                r < LEVEL_ROWS,
                line == (if r < ls.len() {
                    ls[r as int]
                } else {
                    seq![]
                }),
                row@.len() == c,
                forall|j: int| 0 <= j < c ==> row@[j] == fit_row(line)[j],
        {
            let mut ch = ' ';
            if r < bounds.len() {
                let (b, e) = bounds[r];
                if c < e - b {
                    ch = chars[b + c];
                    assert(line[c as int] == chars@[b + c]);
                }
            }
            row.push(ch);
        }
        assert(row@ =~= fit_row(line));
        grid.push(row);
    }
    assert forall|i: int| 0 <= i < LEVEL_ROWS implies #[trigger] grid.deep_view()[i]
        == grid_of_text(text@)[i] by {
        assert(grid.deep_view()[i] == grid@[i]@);
    }
    assert(grid.deep_view() =~= grid_of_text(text@));
    grid
}

/// The columns `c < n` of `row` that hold `ch`, from left to right.
pub open spec fn row_hits(row: Seq<char>, ch: char, n: int) -> Seq<int>
    decreases n,
{
    if n <= 0 {
        seq![]
    } else {
        let h = row_hits(row, ch, n - 1);
        if row[n - 1] == ch {
            h.push(n - 1)
        } else {
            h
        }
    }
}

/// The cells `(row, col)` of the rows `r < n` that hold `ch`, in reading
/// order: row by row, each from left to right.
pub open spec fn grid_hits(g: Seq<Seq<char>>, ch: char, n: int) -> Seq<(int, int)>
    decreases n,
{
    if n <= 0 {
        seq![]
    } else {
        grid_hits(g, ch, n - 1) + row_hits(g[n - 1], ch, g[n - 1].len() as int).map_values(
            |c: int| (n - 1, c),
        )
    }
}

/// All cells of the grid that hold `ch`, in reading order.
pub open spec fn hits(g: Seq<Seq<char>>, ch: char) -> Seq<(int, int)> {
    grid_hits(g, ch, g.len() as int)
}

/// A row with every `from` replaced by `to`.
pub open spec fn replace_row(row: Seq<char>, from: char, to: char) -> Seq<char> {
    Seq::new(row.len(), |c: int| if row[c] == from { to } else { row[c] })
}

/// The grid with every `from` replaced by `to`.
pub open spec fn replace_all(g: Seq<Seq<char>>, from: char, to: char) -> Seq<Seq<char>> {
    Seq::new(g.len(), |r: int| replace_row(g[r], from, to))
}

/// Clears every cell that holds `ch` and returns those cells in reading order.
pub fn take_markers(grid: &mut Vec<Vec<char>>, ch: char) -> (out: Vec<(usize, usize)>)
    requires
        ch != ' ',
    ensures
        final(grid).deep_view() == replace_all(old(grid).deep_view(), ch, ' '),
        out@.len() == hits(old(grid).deep_view(), ch).len(),
        forall|k: int|
            0 <= k < out@.len() ==> (#[trigger] out@[k]).0 == hits(old(grid).deep_view(), ch)[k].0
                && out@[k].1 == hits(old(grid).deep_view(), ch)[k].1,
        forall|k: int| 0 <= k < out@.len() ==> (#[trigger] out@[k]).0 < usize::MAX && out@[k].1 < usize::MAX,
{
    let ghost g0 = grid.deep_view();
    let mut out: Vec<(usize, usize)> = Vec::new();
    let rows = grid.len();
    let mut r: usize = 0;
    while r < rows
        invariant
            rows == g0.len(),
            r <= rows,
            grid@.len() == rows,
            forall|i: int|
                0 <= i < rows ==> #[trigger] grid.deep_view()[i] == (if i < r {
                    replace_row(g0[i], ch, ' ')
                } else {
                    g0[i]
                }),
            out@.len() == grid_hits(g0, ch, r as int).len(),
            forall|k: int|
                0 <= k < out@.len() ==> (#[trigger] out@[k]).0 == grid_hits(g0, ch, r as int)[k].0
                    && out@[k].1 == grid_hits(g0, ch, r as int)[k].1,
            forall|k: int| 0 <= k < out@.len() ==> (#[trigger] out@[k]).0 < usize::MAX && out@[k].1 < usize::MAX,
        decreases rows - r,
    {
        let cols = grid[r].len();
        assert(grid.deep_view()[r as int] == g0[r as int]);
        let ghost before = grid_hits(g0, ch, r as int);
        let mut c: usize = 0;
        while c < cols
            invariant
                rows == g0.len(),
                r < rows,
                cols == g0[r as int].len(),
                c <= cols,
                grid@.len() == rows,
                forall|i: int|
                    0 <= i < rows && i != r ==> #[trigger] grid.deep_view()[i] == (if i < r {
                        replace_row(g0[i], ch, ' ')
                    } else {
                        g0[i]
                    }),
                grid.deep_view()[r as int].len() == cols,
                forall|j: int|
                    0 <= j < cols ==> #[trigger] grid.deep_view()[r as int][j] == (if j < c {
                        replace_row(g0[r as int], ch, ' ')[j]
                    } else {
                        g0[r as int][j]
                    }),
                before == grid_hits(g0, ch, r as int),
                out@.len() == before.len() + row_hits(g0[r as int], ch, c as int).len(),
                forall|k: int|
                    0 <= k < before.len() ==> (#[trigger] out@[k]).0 == before[k].0 && out@[k].1
                        == before[k].1,
                forall|k: int| 0 <= k < out@.len() ==> (#[trigger] out@[k]).0 < usize::MAX && out@[k].1 < usize::MAX,
                forall|k: int|
                    0 <= k < row_hits(g0[r as int], ch, c as int).len() ==> (#[trigger] out@[before.len() + k]).0 == r
                        && out@[before.len() + k].1 == row_hits(g0[r as int], ch, c as int)[k],
            decreases cols - c,
        {
            assert(grid.deep_view()[r as int][c as int] == grid@[r as int]@[c as int]);
            if grid[r][c] == ch {
                set_cell(grid, r, c, ' ');
                out.push((r, c));
            }
            c = c + 1;
        }
        proof {
            let rh = row_hits(g0[r as int], ch, cols as int);
            let mapped = rh.map_values(|cc: int| (r as int, cc));
            assert(grid_hits(g0, ch, r + 1) == before + mapped);
            assert forall|k: int| 0 <= k < out@.len() implies (#[trigger] out@[k]).0 == grid_hits(
                g0,
                ch,
                r + 1,
            )[k].0 && out@[k].1 == grid_hits(g0, ch, r + 1)[k].1 by {
                if k >= before.len() {
                    let kk = k - before.len();
                    assert(out@[before.len() + kk] == out@[k]);
                }
            }
            assert(grid.deep_view()[r as int] =~= replace_row(g0[r as int], ch, ' '));
        }
        r = r + 1;
    }
    proof {
        assert forall|i: int| 0 <= i < rows implies #[trigger] grid.deep_view()[i] == replace_all(
            g0,
            ch,
            ' ',
        )[i] by {}
        assert(grid.deep_view() =~= replace_all(g0, ch, ' '));
    }
    out
}

/// Whether `(col, row)` is inside the grid and not solid.
pub fn passable_at(grid: &Vec<Vec<char>>, col: i32, row: i32) -> (b: bool)
    requires
        grid_wf(grid.deep_view()),
    ensures
        b == passable(grid.deep_view(), col as int, row as int),
{
    proof {
        assert(grid.deep_view()[0].len() == grid@[0]@.len());
    }
    if row < 0 || row >= grid.len() as i32 || col < 0 || col >= grid[0].len() as i32 {
        return false;
    }
    proof {
        assert(grid.deep_view()[row as int].len() == grid.deep_view()[0].len());
    }
    let ch = grid[row as usize][col as usize];
    ch != '#' && ch != '=' && ch != 'H'
}

/// The tile at `(col, row)`, or a space outside the grid.
pub open spec fn tile(g: Seq<Seq<char>>, col: int, row: int) -> char {
    if in_grid(g, col, row) {
        g[row][col]
    } else {
        ' '
    }
}

/// The tile at `(col, row)`, or a space outside the grid.
pub fn tile_at(grid: &Vec<Vec<char>>, col: i32, row: i32) -> (ch: char)
    requires
        grid_wf(grid.deep_view()),
    ensures
        ch == tile(grid.deep_view(), col as int, row as int),
{
    proof {
        assert(grid.deep_view()[0].len() == grid@[0]@.len());
    }
    if row < 0 || row >= grid.len() as i32 || col < 0 || col >= grid[0].len() as i32 {
        return ' ';
    }
    proof {
        assert(grid.deep_view()[row as int].len() == grid.deep_view()[0].len());
    }
    grid[row as usize][col as usize]
}

/// The tile at an in-grid cell.
pub fn cell_at(grid: &Vec<Vec<char>>, col: i32, row: i32) -> (ch: char)
    requires
        grid_wf(grid.deep_view()),
        in_grid(grid.deep_view(), col as int, row as int),
    ensures
        ch == grid.deep_view()[row as int][col as int],
{
    proof {
        assert(grid.deep_view()[row as int].len() == grid.deep_view()[0].len());
    }
    grid[row as usize][col as usize]
}


proof fn lemma_row_hits_in_row(row: Seq<char>, ch: char, n: int)
    requires
        n <= row.len(),
    ensures
        forall|k: int|
            0 <= k < row_hits(row, ch, n).len() ==> 0 <= #[trigger] row_hits(row, ch, n)[k] < n
                && row[row_hits(row, ch, n)[k]] == ch,
    decreases n,
{
    if n > 0 {
        lemma_row_hits_in_row(row, ch, n - 1);
        let h = row_hits(row, ch, n - 1);
        assert forall|k: int| 0 <= k < row_hits(row, ch, n).len() implies 0 <= #[trigger] row_hits(
            row,
            ch,
            n,
        )[k] < n && row[row_hits(row, ch, n)[k]] == ch by {
            if k < h.len() {
                assert(row_hits(row, ch, n)[k] == h[k]);
            }
        }
    }
}

proof fn lemma_grid_hits_in_grid(g: Seq<Seq<char>>, ch: char, n: int)
    requires
        n <= g.len(),
    ensures
        forall|k: int|
            0 <= k < grid_hits(g, ch, n).len() ==> {
                let p = #[trigger] grid_hits(g, ch, n)[k];
                &&& 0 <= p.0 < n
                &&& 0 <= p.1 < g[p.0].len()
                &&& g[p.0][p.1] == ch
            },
    decreases n,
{
    if n > 0 {
        lemma_grid_hits_in_grid(g, ch, n - 1);
        lemma_row_hits_in_row(g[n - 1], ch, g[n - 1].len() as int);
        let a = grid_hits(g, ch, n - 1);
        let b = row_hits(g[n - 1], ch, g[n - 1].len() as int).map_values(|c: int| (n - 1, c));
        assert forall|k: int| 0 <= k < (a + b).len() implies {
            let p = #[trigger] (a + b)[k];
            &&& 0 <= p.0 < n
            &&& 0 <= p.1 < g[p.0].len()
            &&& g[p.0][p.1] == ch
        } by {
            if k >= a.len() {
                assert((a + b)[k] == b[k - a.len()]);
            }
        }
    }
}

/// Lemma: every hit is a cell of the grid holding the character.
pub proof fn lemma_hits_in_grid(g: Seq<Seq<char>>, ch: char)
    ensures
        forall|k: int|
            0 <= k < hits(g, ch).len() ==> {
                let p = #[trigger] hits(g, ch)[k];
                &&& 0 <= p.0 < g.len()
                &&& 0 <= p.1 < g[p.0].len()
                &&& g[p.0][p.1] == ch
            },
{
    lemma_grid_hits_in_grid(g, ch, g.len() as int);
}


/// Law: once every `from` is replaced, none is left (where `from` and `to`
/// differ), and the grid keeps its shape.
pub proof fn lemma_replace_all_clears(g: Seq<Seq<char>>, from: char, to: char)
    requires
        from != to,
    ensures
        hits(replace_all(g, from, to), from).len() == 0,
        replace_all(g, from, to).len() == g.len(),
        forall|r: int| 0 <= r < g.len() ==> (#[trigger] replace_all(g, from, to)[r]).len() == g[r].len(),
{
    let g2 = replace_all(g, from, to);
    lemma_hits_in_grid(g2, from);
    if hits(g2, from).len() > 0 {
        let p = hits(g2, from)[0];
        assert(g2[p.0][p.1] == from);
    }
}


/// `row_hits(row, ch, m)` is a prefix of `row_hits(row, ch, n)`.
pub open spec fn row_hits_len_le(row: Seq<char>, ch: char, m: int, n: int) -> bool {
    &&& row_hits(row, ch, m).len() <= row_hits(row, ch, n).len()
    &&& forall|k: int|
        0 <= k < row_hits(row, ch, m).len() ==> row_hits(row, ch, n)[k] == #[trigger] row_hits(
            row,
            ch,
            m,
        )[k]
}

proof fn lemma_row_hits_prefix(row: Seq<char>, ch: char, m: int, n: int)
    requires
        m <= n,
    ensures
        row_hits_len_le(row, ch, m, n),
    decreases n - m,
{
    if m < n {
        lemma_row_hits_prefix(row, ch, m, n - 1);
    }
}


proof fn lemma_row_hits_none(row: Seq<char>, ch: char, n: int)
    requires
        forall|j: int| 0 <= j < n ==> #[trigger] row[j] != ch,
    ensures
        row_hits(row, ch, n).len() == 0,
    decreases n,
{
    if n > 0 {
        lemma_row_hits_none(row, ch, n - 1);
    }
}

proof fn lemma_grid_hits_prefix(g: Seq<Seq<char>>, ch: char, m: int, n: int)
    requires
        m <= n,
    ensures
        grid_hits(g, ch, m).len() <= grid_hits(g, ch, n).len(),
        forall|k: int|
            0 <= k < grid_hits(g, ch, m).len() ==> grid_hits(g, ch, n)[k]
                == #[trigger] grid_hits(g, ch, m)[k],
    decreases n - m,
{
    if m < n {
        lemma_grid_hits_prefix(g, ch, m, n - 1);
    }
}

/// Lemma: rows without `ch` give no hits.
pub proof fn lemma_no_hits(g: Seq<Seq<char>>, ch: char, n: int)
    requires
        forall|i: int, j: int| 0 <= i < n && 0 <= j < g[i].len() ==> #[trigger] g[i][j] != ch,
    ensures
        grid_hits(g, ch, n).len() == 0,
    decreases n,
{
    if n > 0 {
        lemma_no_hits(g, ch, n - 1);
        assert forall|j: int| 0 <= j < g[n - 1].len() implies #[trigger] g[n - 1][j] != ch by {}
        lemma_row_hits_none(g[n - 1], ch, g[n - 1].len() as int);
    }
}

/// The first cell holding `ch`, in reading order, is the first hit.
pub proof fn lemma_first_hit(g: Seq<Seq<char>>, ch: char, r: int, c: int)
    requires
        0 <= r < g.len(),
        0 <= c < g[r].len(),
        g[r][c] == ch,
        forall|i: int, j: int| 0 <= i < r && 0 <= j < g[i].len() ==> #[trigger] g[i][j] != ch,
        forall|j: int| 0 <= j < c ==> #[trigger] g[r][j] != ch,
    ensures
        hits(g, ch).len() > 0,
        hits(g, ch)[0] == (r, c),
{
    lemma_no_hits(g, ch, r);
    lemma_row_hits_none(g[r], ch, c);
    lemma_row_hits_prefix(g[r], ch, c + 1, g[r].len() as int);
    assert(row_hits(g[r], ch, c + 1)[0] == c);
    lemma_grid_hits_prefix(g, ch, r + 1, g.len() as int);
    assert(grid_hits(g, ch, r + 1)[0] == (r, c));
}


/// No character of `s` is `x`.
pub open spec fn free_of(s: Seq<char>, x: char) -> bool {
    forall|i: int| 0 <= i < s.len() ==> s[i] != x
}

/// The text with every `'\n'` written as `"\r\n"`.
pub open spec fn crlf(s: Seq<char>) -> Seq<char>
    decreases s.len(),
{
    if s.len() == 0 {
        seq![]
    } else if s.last() == '\n' {
        crlf(s.drop_last()) + seq!['\r', '\n']
    } else {
        crlf(s.drop_last()).push(s.last())
    }
}

/// Lines joined with a `'\n'` between each two.
pub open spec fn join_lines(ls: Seq<Seq<char>>) -> Seq<char>
    decreases ls.len(),
{
    if ls.len() == 0 {
        seq![]
    } else if ls.len() == 1 {
        ls[0]
    } else {
        join_lines(ls.drop_last()) + seq!['\n'] + ls.last()
    }
}

/// Lemma: the lines being read hold no `'\n'`, and no `'\r'` where the
/// text holds none.
proof fn lemma_split_free(s: Seq<char>)
    ensures
        free_of(split_state(s).1, '\n'),
        forall|k: int| 0 <= k < split_state(s).0.len() ==> free_of(#[trigger] split_state(s).0[k], '\n'),
        free_of(s, '\r') ==> free_of(split_state(s).1, '\r'),
        free_of(s, '\r') ==> forall|k: int|
            0 <= k < split_state(s).0.len() ==> free_of(#[trigger] split_state(s).0[k], '\r'),
    decreases s.len(),
{
    if s.len() > 0 {
        let t = s.drop_last();
        lemma_split_free(t);
        assert(free_of(s, '\r') ==> free_of(t, '\r'));
        let (done, cur) = split_state(t);
        if s.last() == '\n' {
            let st = strip_cr(cur);
            assert(forall|i: int| 0 <= i < st.len() ==> st[i] == cur[i]);
            let d2 = done.push(st);
            assert forall|k: int| 0 <= k < d2.len() implies free_of(#[trigger] d2[k], '\n') by {
                if k < done.len() {
                    assert(d2[k] == done[k]);
                }
            }
            if free_of(s, '\r') {
                assert forall|k: int| 0 <= k < d2.len() implies free_of(#[trigger] d2[k], '\r') by {
                    if k < done.len() {
                        assert(d2[k] == done[k]);
                    }
                }
            }
        } else {
            assert(s[s.len() - 1] == s.last());
        }
    }
}

/// Lemma: reading more text only adds finished lines.
proof fn lemma_split_prefix(s: Seq<char>, b: Seq<char>)
    ensures
        split_state(s).0.len() <= split_state(s + b).0.len(),
        forall|k: int|
            0 <= k < split_state(s).0.len() ==> #[trigger] split_state(s + b).0[k] == split_state(s).0[k],
    decreases b.len(),
{
    if b.len() > 0 {
        lemma_split_prefix(s, b.drop_last());
        assert((s + b).drop_last() =~= s + b.drop_last());
    }
}

/// Lemma: text without `'\n'` only extends the line being read.
proof fn lemma_split_append_line(s: Seq<char>, l: Seq<char>)
    requires
        free_of(l, '\n'),
    ensures
        split_state(s + l) == (split_state(s).0, split_state(s).1 + l),
    decreases l.len(),
{
    if l.len() > 0 {
        lemma_split_append_line(s, l.drop_last());
        assert((s + l).drop_last() =~= s + l.drop_last());
        assert(l[l.len() - 1] == l.last());
        assert(split_state(s).1 + l =~= (split_state(s).1 + l.drop_last()).push(l.last()));
    }
}

/// Lemma: written with `"\r\n"`, a text without `'\r'` is read the same.
proof fn lemma_split_crlf(t: Seq<char>)
    requires
        free_of(t, '\r'),
    ensures
        split_state(crlf(t)) == split_state(t),
    decreases t.len(),
{
    if t.len() > 0 {
        let u = t.drop_last();
        assert(free_of(u, '\r'));
        lemma_split_crlf(u);
        lemma_split_free(u);
        let (done, cur) = split_state(u);
        if t.last() == '\n' {
            let x = crlf(u) + seq!['\r', '\n'];
            assert(crlf(t) == x);
            let y = crlf(u).push('\r');
            assert(x.drop_last() =~= y);
            assert(y.drop_last() =~= crlf(u));
            assert(split_state(y) == (done, cur.push('\r')));
            assert(cur.push('\r').drop_last() =~= cur);
            assert(strip_cr(cur.push('\r')) == cur);
            if cur.len() > 0 {
                assert(cur[cur.len() - 1] != '\r');
            }
            assert(strip_cr(cur) == cur);
            assert(split_state(x) == (done.push(cur), Seq::<char>::empty()));
        } else {
            assert(t[t.len() - 1] == t.last());
            let c = t.last();
            assert(crlf(t) == crlf(u).push(c));
            assert(crlf(u).push(c).drop_last() =~= crlf(u));
        }
    }
}

/// Law: a text without `'\r'` gives the same grid written with `"\r\n"`
/// line endings.
pub proof fn lemma_crlf_same_grid(t: Seq<char>)
    requires
        free_of(t, '\r'),
    ensures
        lines_of(crlf(t)) == lines_of(t),
        grid_of_text(crlf(t)) == grid_of_text(t),
{
    lemma_split_crlf(t);
}

/// Law: once a text has `LEVEL_ROWS` lines, what follows its next line
/// break is not read.
pub proof fn lemma_extra_lines_ignored(a: Seq<char>, b: Seq<char>)
    requires
        lines_of(a).len() >= LEVEL_ROWS,
        !(a.len() > 0 && a.last() == '\r'),
    ensures
        grid_of_text(a + seq!['\n'] + b) == grid_of_text(a),
{
    let an = a.push('\n');
    let x = a + seq!['\n'] + b;
    assert(x =~= an + b);
    assert(an.drop_last() =~= a);
    lemma_split_prefix(an, b);
    let (done, cur) = split_state(a);
    if cur.len() > 0 {
        lemma_split_cur_last(a);
        assert(strip_cr(cur) == cur);
    }
    let la = lines_of(a);
    let lx = lines_of(x);
    lemma_split_prefix(x, seq![]);
    assert forall|r: int| 0 <= r < LEVEL_ROWS implies #[trigger] lx[r] == la[r] by {
        assert(split_state(an).0[r] == split_state(x).0[r]);
    }
    assert(grid_of_text(x) =~= grid_of_text(a));
}

/// Lemma: a line being read ends with the last character read.
proof fn lemma_split_cur_last(s: Seq<char>)
    ensures
        split_state(s).1.len() > 0 ==> split_state(s).1.last() == s.last(),
    decreases s.len(),
{
    if s.len() > 0 {
        lemma_split_cur_last(s.drop_last());
    }
}

/// Lemma: lines without `'\n'`, and without a `'\r'` at their end, are read
/// back from their join.
proof fn lemma_split_join(ls: Seq<Seq<char>>)
    requires
        ls.len() > 0,
        forall|k: int| 0 <= k < ls.len() ==> free_of(#[trigger] ls[k], '\n'),
        forall|k: int| 0 <= k < ls.len() ==> free_of(#[trigger] ls[k], '\r'),
    ensures
        split_state(join_lines(ls)) == (ls.drop_last(), ls.last()),
    decreases ls.len(),
{
    if ls.len() == 1 {
        lemma_split_append_line(seq![], ls[0]);
        assert(seq![] + ls[0] =~= ls[0]);
        assert(ls.drop_last() =~= seq![]);
    } else {
        let init = ls.drop_last();
        lemma_split_join(init);
        let j = join_lines(init);
        let jn = j.push('\n');
        assert(j + seq!['\n'] =~= jn);
        assert(jn.drop_last() =~= j);
        let l = init.last();
        if l.len() > 0 {
            assert(l[l.len() - 1] != '\r');
        }
        assert(strip_cr(l) == l);
        assert(init.drop_last().push(l) =~= init);
        lemma_split_append_line(jn, ls.last());
    }
}

/// Law: writing a text's grid out row by row, joined with `'\n'`, and
/// reading it again gives the same grid, for a text without `'\r'`.
pub proof fn lemma_render_round_trip(t: Seq<char>)
    requires
        free_of(t, '\r'),
    ensures
        grid_of_text(join_lines(grid_of_text(t))) == grid_of_text(t),
{
    let g = grid_of_text(t);
    let ls = lines_of(t);
    lemma_split_free(t);
    assert forall|k: int| 0 <= k < ls.len() implies free_of(#[trigger] ls[k], '\n') && free_of(ls[k], '\r') by {
        let (done, cur) = split_state(t);
        if k < done.len() {
            assert(ls[k] == done[k]);
        }
    }
    assert forall|k: int| 0 <= k < g.len() implies free_of(#[trigger] g[k], '\n') && free_of(g[k], '\r') by {
        if k < ls.len() {
            assert(free_of(ls[k], '\n') && free_of(ls[k], '\r'));
        }
    }
    lemma_split_join(g);
    let lj = lines_of(join_lines(g));
    assert(g.last().len() == LEVEL_COLS);
    assert(g.drop_last().push(g.last()) =~= g);
    assert(lj == g);
    assert forall|r: int| 0 <= r < LEVEL_ROWS implies #[trigger] fit_row(g[r]) == g[r] by {
        assert(fit_row(g[r]) =~= g[r]);
    }
    assert(grid_of_text(join_lines(g)) =~= g);
}

} // verus!
