use vstd::prelude::*;

use crate::grid::{hits, line_bounds, lines_of, replace_all, take_markers, text_chars, LEVEL_ROWS};

verus! {

/// The stages a line of the scroller goes through.
#[derive(Clone, Copy, Debug, PartialEq, Eq)]
pub enum ScrollPhase {
    SlideOn,
    Pause1,
    SlideLeft,
    Pause2,
    SlideOff,
    Pause3,
}

/// A box of the level, marked with `'!'` tiles, in which the lines written
/// below the level's grid scroll one after the other.
pub struct Scroller {
    pub col_start: usize,
    pub col_end: usize,
    pub row_start: usize,
    pub row_end: usize,
    pub lines: Vec<String>,
    pub current_line: usize,
    pub phase: ScrollPhase,
}

/// A character with the Unicode `White_Space` property.
pub open spec fn is_whitespace(c: char) -> bool {
    let u = c as u32;
    ||| 0x9 <= u <= 0xd
    ||| u == 0x20
    ||| u == 0x85
    ||| u == 0xa0
    ||| u == 0x1680
    ||| 0x2000 <= u <= 0x200a
    ||| u == 0x2028
    ||| u == 0x2029
    ||| u == 0x202f
    ||| u == 0x205f
    ||| u == 0x3000
}

/// A line with nothing but whitespace.
pub open spec fn is_blank(l: Seq<char>) -> bool {
    forall|i: int| 0 <= i < l.len() ==> is_whitespace(#[trigger] l[i])
}

/// The lines that are not blank, in order.
pub open spec fn keep_nonblank(ls: Seq<Seq<char>>) -> Seq<Seq<char>>
    decreases ls.len(),
{
    if ls.len() == 0 {
        seq![]
    } else {
        let rest = keep_nonblank(ls.drop_last());
        if is_blank(ls.last()) {
            rest
        } else {
            rest.push(ls.last())
        }
    }
}

/// The scroller's lines in a level text: the lines after the grid's rows
/// that are not blank.
pub open spec fn scroller_lines(t: Seq<char>) -> Seq<Seq<char>> {
    keep_nonblank(lines_after_grid(lines_of(t)))
}

/// The lines after the first `LEVEL_ROWS`, if any.
pub open spec fn lines_after_grid(ls: Seq<Seq<char>>) -> Seq<Seq<char>> {
    if ls.len() > LEVEL_ROWS {
        ls.skip(LEVEL_ROWS as int)
    } else {
        seq![]
    }
}

/// Smallest row, largest row, smallest column and largest column of the
/// cells; `(usize::MAX, 0, usize::MAX, 0)` for no cells.
pub open spec fn bbox(h: Seq<(int, int)>) -> (int, int, int, int)
    decreases h.len(),
{
    if h.len() == 0 {
        (usize::MAX as int, 0, usize::MAX as int, 0)
    } else {
        let b = bbox(h.drop_last());
        let (r, c) = h.last();
        (
            if r < b.0 {
                r
            } else {
                b.0
            },
            if r > b.1 {
                r
            } else {
                b.1
            },
            if c < b.2 {
                c
            } else {
                b.2
            },
            if c > b.3 {
                c
            } else {
                b.3
            },
        )
    }
}

/// The phase after `p`.
pub open spec fn next_phase(p: ScrollPhase) -> ScrollPhase {
    match p {
        ScrollPhase::SlideOn => ScrollPhase::Pause1,
        ScrollPhase::Pause1 => ScrollPhase::SlideLeft,
        ScrollPhase::SlideLeft => ScrollPhase::Pause2,
        ScrollPhase::Pause2 => ScrollPhase::SlideOff,
        ScrollPhase::SlideOff => ScrollPhase::Pause3,
        ScrollPhase::Pause3 => ScrollPhase::SlideOn,
    }
}

impl Scroller {
    /// A scroller with lines to show and a box to show them in.
    pub open spec fn wf(&self) -> bool {
        &&& self.lines@.len() > 0
        &&& self.current_line < self.lines@.len()
        &&& self.col_start < self.col_end
        &&& self.row_start < self.row_end
    }

    /// The lines as sequences of characters.
    pub open spec fn line_views(&self) -> Seq<Seq<char>> {
        self.lines@.map_values(|s: String| s@)
    }

    /// Ends the current phase: each phase leads to the next, and after the
    /// last one the next line (after the last line, the first) slides on.
    pub fn advance_phase(&mut self)
        requires
            old(self).wf(),
        ensures
            final(self).wf(),
            final(self).phase == next_phase(old(self).phase),
            final(self).current_line == (if old(self).phase == ScrollPhase::Pause3 {
                (old(self).current_line + 1) % (old(self).lines@.len() as int)
            } else {
                old(self).current_line as int
            }),
            final(self).lines@ == old(self).lines@,
            final(self).col_start == old(self).col_start,
            final(self).col_end == old(self).col_end,
            final(self).row_start == old(self).row_start,
            final(self).row_end == old(self).row_end,
    {
        self.phase = match self.phase {
            ScrollPhase::SlideOn => ScrollPhase::Pause1,
            ScrollPhase::Pause1 => ScrollPhase::SlideLeft,
            ScrollPhase::SlideLeft => ScrollPhase::Pause2,
            ScrollPhase::Pause2 => ScrollPhase::SlideOff,
            ScrollPhase::SlideOff => ScrollPhase::Pause3,
            ScrollPhase::Pause3 => {
                let n = self.lines.len();
                self.current_line = (self.current_line + 1) % n;
                ScrollPhase::SlideOn
            },
        };
    }

    /// The line being shown.
    pub fn current_text(&self) -> (s: &String)
        requires
            self.wf(),
        ensures
            s@ == self.lines@[self.current_line as int]@,
    {
        &self.lines[self.current_line]
    }
}

fn is_whitespace_char(c: char) -> (b: bool)
    ensures
        b == is_whitespace(c),
{
    let u = c as u32;
    (0x9 <= u && u <= 0xd) || u == 0x20 || u == 0x85 || u == 0xa0 || u == 0x1680 || (0x2000 <= u
        && u <= 0x200a) || u == 0x2028 || u == 0x2029 || u == 0x202f || u == 0x205f || u == 0x3000
}

fn is_blank_range(chars: &Vec<char>, b: usize, e: usize) -> (r: bool)
    requires
        b <= e <= chars@.len(),
    ensures
        r == is_blank(chars@.subrange(b as int, e as int)),
{
    let mut i = b;
    while i < e
        invariant
            b <= i <= e <= chars@.len(),
            forall|j: int| b <= j < i ==> is_whitespace(#[trigger] chars@[j]),
        decreases e - i,
    {
        if !is_whitespace_char(chars[i]) {
            assert(chars@.subrange(b as int, e as int)[i - b] == chars@[i as int]);
            return false;
        }
        i = i + 1;
    }
    assert forall|j: int| 0 <= j < e - b implies is_whitespace(
        #[trigger] chars@.subrange(b as int, e as int)[j],
    ) by {
        assert(chars@.subrange(b as int, e as int)[j] == chars@[b + j]);
    }
    true
}

/// Finds the scroller of a level: the box around all its `'!'` tiles (which
/// are cleared from the grid), showing the non-blank lines of the text below
/// the grid. None without `'!'` tiles or without such lines.
pub fn spawn(grid: &mut Vec<Vec<char>>, level_text: &str) -> (s: Option<Scroller>)
    ensures
        final(grid).deep_view() == replace_all(old(grid).deep_view(), '!', ' '),
        s is Some <==> hits(old(grid).deep_view(), '!').len() > 0 && scroller_lines(level_text@).len() > 0,
        s matches Some(sc) ==> {
            let b = bbox(hits(old(grid).deep_view(), '!'));
            &&& sc.wf()
            &&& sc.row_start == b.0
            &&& sc.row_end == b.1 + 1
            &&& sc.col_start == b.2
            &&& sc.col_end == b.3 + 1
            &&& sc.line_views() == scroller_lines(level_text@)
            &&& sc.current_line == 0
            &&& sc.phase == ScrollPhase::SlideOn
        },
{
    let ghost g0 = grid.deep_view();
    let cells = take_markers(grid, '!');
    let ghost h = hits(g0, '!');
    let mut min_r = usize::MAX;
    let mut max_r: usize = 0;
    let mut min_c = usize::MAX;
    let mut max_c: usize = 0;
    let mut k: usize = 0;
    while k < cells.len()
        invariant
            k <= cells@.len(),
            cells@.len() == h.len(),
            forall|j: int|
                0 <= j < cells@.len() ==> (#[trigger] cells@[j]).0 == h[j].0 && cells@[j].1 == h[j].1,
            forall|j: int| 0 <= j < cells@.len() ==> (#[trigger] cells@[j]).0 < usize::MAX && cells@[j].1 < usize::MAX,
            bbox(h.take(k as int)) == (min_r as int, max_r as int, min_c as int, max_c as int),
        decreases cells@.len() - k,
    {
        let (r, c) = cells[k];
        assert(h.take(k + 1).drop_last() =~= h.take(k as int));
        if r < min_r {
            min_r = r;
        }
        if r > max_r {
            max_r = r;
        }
        if c < min_c {
            min_c = c;
        }
        if c > max_c {
            max_c = c;
        }
        k = k + 1;
    }
    assert(h.take(h.len() as int) =~= h);
    if cells.len() == 0 {
        return None;
    }
    proof {
        assert forall|j: int| 0 <= j < h.len() implies 0 <= (#[trigger] h[j]).0 < usize::MAX && 0 <= h[j].1
            < usize::MAX by {
            assert(cells@[j].0 == h[j].0);
        }
        lemma_bbox_bounds(h);
    }
    let chars = text_chars(level_text);
    let bounds = line_bounds(&chars);
    let ghost ls = lines_of(level_text@);
    let ghost tail = lines_after_grid(ls);
    let mut lines: Vec<String> = Vec::new();
    let mut i: usize = LEVEL_ROWS;
    if i > bounds.len() {
        i = bounds.len();
    }
    assert(tail.take(0) =~= seq![]);
    while i < bounds.len()
        invariant
            chars@ == level_text@,
            ls == lines_of(level_text@),
            tail == lines_after_grid(ls),
            bounds@.len() == ls.len(),
            forall|j: int|
                0 <= j < bounds@.len() ==> {
                    &&& (#[trigger] bounds@[j]).0 <= bounds@[j].1 <= chars@.len()
                    &&& chars@.subrange(bounds@[j].0 as int, bounds@[j].1 as int) == ls[j]
                },
            i <= bounds@.len(),
            bounds@.len() > LEVEL_ROWS ==> i >= LEVEL_ROWS,
            bounds@.len() <= LEVEL_ROWS ==> i == bounds@.len(),
            lines@.map_values(|s: String| s@) == keep_nonblank(
                tail.take(if i >= LEVEL_ROWS {
                    i - LEVEL_ROWS
                } else {
                    0
                }),
            ),
        decreases bounds@.len() - i,
    {
        let (b, e) = bounds[i];
        let ghost prev = tail.take(i - LEVEL_ROWS);
        assert(tail.take(i - LEVEL_ROWS + 1).drop_last() =~= prev);
        assert(tail.take(i - LEVEL_ROWS + 1).last() == ls[i as int]);
        if !is_blank_range(&chars, b, e) {
            let piece = level_text.substring_char(b, e);
            let owned = piece.to_owned();
            let ghost before = lines@;
            lines.push(owned);
            assert(lines@.map_values(|s: String| s@) =~= before.map_values(|s: String| s@).push(
                ls[i as int],
            ));
        }
        i = i + 1;
    }
    proof {
        if bounds@.len() > LEVEL_ROWS {
            assert(tail.take(bounds@.len() - LEVEL_ROWS) =~= tail);
        } else {
            assert(tail =~= seq![]);
        }
    }
    if lines.len() == 0 {
        return None;
    }
    Some(
        Scroller {
            col_start: min_c,
            col_end: max_c + 1,
            row_start: min_r,
            row_end: max_r + 1,
            lines,
            current_line: 0,
            phase: ScrollPhase::SlideOn,
        },
    )
}

/// Lemma: the box of some cells, all inside a grid that `usize` can index,
/// is a real box.
pub proof fn lemma_bbox_bounds(h: Seq<(int, int)>)
    requires
        h.len() > 0,
        forall|k: int| 0 <= k < h.len() ==> 0 <= (#[trigger] h[k]).0 < usize::MAX && 0 <= h[k].1 < usize::MAX,
    ensures
        bbox(h).0 <= bbox(h).1 < usize::MAX,
        bbox(h).2 <= bbox(h).3 < usize::MAX,
    decreases h.len(),
{
    if h.len() > 1 {
        lemma_bbox_bounds(h.drop_last());
    } else {
        assert(bbox(h.drop_last()) == (usize::MAX as int, 0int, usize::MAX as int, 0int));
    }
}


/// Law: the six phases make a cycle.
pub proof fn lemma_phase_cycle(p: ScrollPhase)
    ensures
        next_phase(next_phase(next_phase(next_phase(next_phase(next_phase(p)))))) == p,
        p != next_phase(p),
{
}

/// The place of a phase in the cycle: the line slides on, pauses, slides
/// left, pauses, slides off, pauses.
pub open spec fn phase_rank(p: ScrollPhase) -> int {
    match p {
        ScrollPhase::SlideOn => 0,
        ScrollPhase::Pause1 => 1,
        ScrollPhase::SlideLeft => 2,
        ScrollPhase::Pause2 => 3,
        ScrollPhase::SlideOff => 4,
        ScrollPhase::Pause3 => 5,
    }
}

/// Whether a phase moves the line.
pub open spec fn is_slide(p: ScrollPhase) -> bool {
    p == ScrollPhase::SlideOn || p == ScrollPhase::SlideLeft || p == ScrollPhase::SlideOff
}

/// Law: each phase leads one step on round the cycle slide on, pause, slide
/// left, pause, slide off, pause: slides and pauses alternate, and a line
/// that slid on pauses before it slides left.
pub proof fn lemma_phase_order(p: ScrollPhase)
    ensures
        phase_rank(next_phase(p)) == (phase_rank(p) + 1) % 6,
        is_slide(p) != is_slide(next_phase(p)),
{
}

} // verus!
