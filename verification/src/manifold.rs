//! A manifold of splitters through which rays fall layer by layer.
//!
//! A ray enters above layer 0 at the start column and moves down one layer
//! per step. In a cell without a splitter it keeps its column; a splitter
//! replaces it by two rays, one column to the left and one to the right.

use crate::text::{chars_of, lines_of, max_len, row_views, split_lines, widest, lemma_max_len_bounds};
use vstd::prelude::*;

verus! {

/// Why a manifold could not be built.
#[derive(Debug, Clone, Copy, PartialEq, Eq)]
pub enum ParseError {
    /// The grid has no row, or all of its rows are empty.
    EmptyGrid,
    /// There is no start marker, or the start column is outside the grid.
    MissingStart,
    /// There is more than one start marker.
    MultipleStarts,
    /// A splitter stands on the first or the last column, so that one of
    /// its two rays would leave the grid.
    EdgeSplitter,
    /// The grid has more cells than the machine can count.
    TooLarge,
}

/// The mathematical content of a manifold.
pub struct Grid {
    /// Number of columns.
    pub width: nat,
    /// Number of layers.
    pub depth: nat,
    /// Column at which the first ray enters.
    pub start: nat,
    /// The cells that hold a splitter, as (column, layer).
    pub splitters: Set<(int, int)>,
}

impl Grid {
    /// Whether a splitter stands in column `x` of layer `y`.
    pub open spec fn splits(self, x: int, y: int) -> bool {
        self.splitters.contains((x, y))
    }

    /// A grid that the simulation accepts: it is not empty, the start column
    /// lies in it, every splitter lies in it and has a column on either side,
    /// and its cells can be counted.
    pub open spec fn wf(self) -> bool {
        &&& self.width > 0
        &&& self.depth > 0
        &&& self.start < self.width
        &&& forall|x: int, y: int| #[trigger]
            self.splits(x, y) ==> 0 < x < self.width - 1 && 0 <= y < self.depth
        &&& self.width * self.depth <= usize::MAX
    }

    /// The width and the depth of an accepted grid are machine numbers.
    pub proof fn lemma_fits(self)
        requires
            self.wf(),
        ensures
            self.width <= usize::MAX,
            self.depth <= usize::MAX,
    {
        assert(self.width <= self.width * self.depth && self.depth <= self.width * self.depth)
            by (nonlinear_arith)
            requires
                self.width > 0,
                self.depth > 0,
        ;
    }
}

/// Whether `cells[y][x]` exists and is set.
pub open spec fn cell_set(cells: Seq<Seq<bool>>, x: int, y: int) -> bool {
    0 <= y < cells.len() && 0 <= x < cells[y].len() && cells[y][x]
}

/// Whether a set cell stands in the first or the last of `width` columns.
pub open spec fn has_edge_cell(cells: Seq<Seq<bool>>, width: int) -> bool {
    exists|x: int, y: int| #[trigger] cell_set(cells, x, y) && (x == 0 || x == width - 1)
}

/// The grid whose splitters are the set cells of `cells`, rows shorter than
/// the longest being filled up with empty cells.
pub open spec fn grid_of_cells(cells: Seq<Seq<bool>>, start: nat) -> Grid {
    Grid {
        width: max_len(cells),
        depth: cells.len(),
        start,
        splitters: Set::new(|p: (int, int)| cell_set(cells, p.0, p.1)),
    }
}

/// The first reason, if any, for which `cells` and `start` give no manifold.
pub open spec fn cells_error(cells: Seq<Seq<bool>>, start: nat) -> Option<ParseError> {
    if cells.len() == 0 || max_len(cells) == 0 {
        Some(ParseError::EmptyGrid)
    } else if start >= max_len(cells) {
        Some(ParseError::MissingStart)
    } else if has_edge_cell(cells, max_len(cells) as int) {
        Some(ParseError::EdgeSplitter)
    } else if max_len(cells) * cells.len() > usize::MAX {
        Some(ParseError::TooLarge)
    } else {
        None
    }
}

/// Whether `lines[y][x]` exists and is the character `c`.
pub open spec fn marked(lines: Seq<Seq<char>>, c: char, x: int, y: int) -> bool {
    0 <= y < lines.len() && 0 <= x < lines[y].len() && lines[y][x] == c
}

/// Whether the text holds a start marker.
pub open spec fn has_start(lines: Seq<Seq<char>>) -> bool {
    exists|x: int, y: int| marked(lines, 'S', x, y)
}

/// Whether the text holds start markers at two places.
pub open spec fn has_two_starts(lines: Seq<Seq<char>>) -> bool {
    exists|x1: int, y1: int, x2: int, y2: int|
        marked(lines, 'S', x1, y1) && marked(lines, 'S', x2, y2) && (x1 != x2 || y1 != y2)
}

/// The column of a start marker of the text.
pub open spec fn start_column_of(lines: Seq<Seq<char>>) -> nat {
    let (x, y) = choose|x: int, y: int| marked(lines, 'S', x, y);
    x as nat
}

/// For each character of the text, whether it is a splitter.
pub open spec fn splitter_cells(lines: Seq<Seq<char>>) -> Seq<Seq<bool>> {
    Seq::new(lines.len(), |y: int| Seq::new(lines[y].len(), |x: int| lines[y][x] == '^'))
}

/// Whether the text holds a splitter in its first or its last column.
pub open spec fn has_edge_splitter(lines: Seq<Seq<char>>) -> bool {
    exists|x: int, y: int| #[trigger] marked(lines, '^', x, y) && (x == 0 || x == max_len(lines) - 1)
}

/// The first reason, if any, for which the text describes no manifold. Two
/// start markers are an error: neither is preferred to the other.
pub open spec fn lines_error(lines: Seq<Seq<char>>) -> Option<ParseError> {
    if lines.len() == 0 || max_len(lines) == 0 {
        Some(ParseError::EmptyGrid)
    } else if !has_start(lines) {
        Some(ParseError::MissingStart)
    } else if has_two_starts(lines) {
        Some(ParseError::MultipleStarts)
    } else if has_edge_splitter(lines) {
        Some(ParseError::EdgeSplitter)
    } else if max_len(lines) * lines.len() > usize::MAX {
        Some(ParseError::TooLarge)
    } else {
        None
    }
}

/// The grid that the text describes: `^` is a splitter, `S` marks the start
/// column, every other character is an empty cell. Each line is a layer,
/// the line of the start marker too, and the longest line gives the width.
pub open spec fn grid_of_lines(lines: Seq<Seq<char>>) -> Grid {
    Grid {
        width: max_len(lines),
        depth: lines.len(),
        start: start_column_of(lines),
        splitters: Set::new(|p: (int, int)| marked(lines, '^', p.0, p.1)),
    }
}

/// A grid of splitters with the column at which the first ray enters.
#[derive(Debug, Clone)]
pub struct TachyonManifold {
    splitters: Vec<Vec<bool>>,
    width: usize,
    start_column: usize,
}

impl View for TachyonManifold {
    type V = Grid;

    closed spec fn view(&self) -> Grid {
        Grid {
            width: self.width as nat,
            depth: self.splitters.len() as nat,
            start: self.start_column as nat,
            splitters: Set::new(|p: (int, int)| cell_set(row_views(self.splitters@), p.0, p.1)),
        }
    }
}

/// Rows as long as the lines are as wide as the text.
proof fn lemma_same_lengths(lines: Seq<Seq<char>>, cells: Seq<Seq<bool>>)
    requires
        cells.len() == lines.len(),
        forall|y: int| 0 <= y < lines.len() ==> #[trigger] cells[y].len() == lines[y].len(),
    ensures
        max_len(cells) == max_len(lines),
    decreases lines.len(),
{
    if lines.len() > 0 {
        lemma_same_lengths(lines.drop_last(), cells.drop_last());
    }
}

/// The cells of a text give the grid of the text, or fail as the text does.
proof fn lemma_cells_of_lines(lines: Seq<Seq<char>>)
    requires
        lines.len() > 0,
        max_len(lines) > 0,
        has_start(lines),
        !has_two_starts(lines),
    ensures
        cells_error(splitter_cells(lines), start_column_of(lines)) == lines_error(lines),
        grid_of_cells(splitter_cells(lines), start_column_of(lines)) == grid_of_lines(lines),
{
    let cells = splitter_cells(lines);
    let width = max_len(lines);
    lemma_same_lengths(lines, cells);
    lemma_max_len_bounds(lines);
    let (sx, sy) = choose|x: int, y: int| marked(lines, 'S', x, y);
    assert(marked(lines, 'S', sx, sy));
    assert(start_column_of(lines) < width);
    assert forall|x: int, y: int| cell_set(cells, x, y) == marked(lines, '^', x, y) by {}
    if has_edge_splitter(lines) {
        let (x, y) = choose|x: int, y: int| #[trigger]
            marked(lines, '^', x, y) && (x == 0 || x == width - 1);
        assert(cell_set(cells, x, y));
    }
    if has_edge_cell(cells, width as int) {
        let (x, y) = choose|x: int, y: int| #[trigger]
            cell_set(cells, x, y) && (x == 0 || x == width - 1);
        assert(marked(lines, '^', x, y));
    }
    assert(grid_of_cells(cells, start_column_of(lines)).splitters =~= grid_of_lines(lines).splitters);
}

/// The first `width` cells of `row`, empty cells standing in for those that
/// `row` lacks.
pub open spec fn padded_row(row: Seq<bool>, width: nat) -> Seq<bool> {
    Seq::new(width, |x: int| x < row.len() && row[x])
}

/// A row of `width` cells that starts with the cells of `row`.
fn padded(row: &Vec<bool>, width: usize) -> (out: Vec<bool>)
    ensures
        out@ == padded_row(row@, width as nat),
{
    let mut out: Vec<bool> = Vec::new();
    let mut x: usize = 0;
    while x < width
        invariant
            x <= width,
            out@ =~= padded_row(row@, x as nat),
        decreases width - x,
    {
        if x < row.len() {
            out.push(row[x]);
        } else {
            out.push(false);
        }
        x += 1;
    }
    out
}

/// Whether `row` has a set cell in column 0 or in column `width - 1`.
fn row_touches_edge(row: &Vec<bool>, width: usize) -> (hit: bool)
    requires
        0 < width,
        row.len() <= width,
    ensures
        hit == ((row.len() > 0 && row[0]) || (row.len() == width && row[width - 1])),
{
    (row.len() > 0 && row[0]) || (row.len() == width && row[width - 1])
}

impl TachyonManifold {
    /// The representation is rectangular and holds an accepted grid.
    pub closed spec fn wf(&self) -> bool {
        &&& forall|y: int| 0 <= y < self.splitters.len() ==> #[trigger] self.splitters[y].len() == self.width
        &&& self@.wf()
    }

    /// What is known of the grid of a manifold.
    pub proof fn lemma_wf(&self)
        requires
            self.wf(),
        ensures
            self@.wf(),
    {
    }

    /// Builds a manifold from rows of cells, `true` for a splitter, and the
    /// column at which the ray enters. Short rows are filled up with empty
    /// cells.
    pub fn new(cells: Vec<Vec<bool>>, start_column: usize) -> (res: Result<TachyonManifold, ParseError>)
        ensures
            match res {
                Ok(m) => cells_error(row_views(cells@), start_column as nat) is None && m.wf() && m@
                    == grid_of_cells(row_views(cells@), start_column as nat),
                Err(e) => cells_error(row_views(cells@), start_column as nat) == Some(e),
            },
    {
        let ghost model = row_views(cells@);
        let width = widest(&cells);
        proof {
            lemma_max_len_bounds(model);
        }
        if cells.len() == 0 || width == 0 {
            return Err(ParseError::EmptyGrid);
        }
        if start_column >= width {
            return Err(ParseError::MissingStart);
        }
        let mut y: usize = 0;
        while y < cells.len()
            invariant
                y <= cells.len(),
                0 < width == max_len(model),
                start_column < width,
                model == row_views(cells@),
                forall|r: int| 0 <= r < cells.len() ==> #[trigger] model[r].len() <= width,
                forall|c: int, r: int|
                    0 <= r < y && #[trigger] cell_set(model, c, r) ==> c != 0 && c != width - 1,
            decreases cells.len() - y,
        {
            assert(model[y as int] == cells[y as int]@);
            if row_touches_edge(&cells[y], width) {
                proof {
                    let c: int = if cells[y as int].len() > 0 && cells[y as int][0] {
                        0
                    } else {
                        width - 1
                    };
                    assert(cell_set(model, c, y as int));
                }
                return Err(ParseError::EdgeSplitter);
            }
            y += 1;
        }
        assert(!has_edge_cell(model, width as int));
        if width.checked_mul(cells.len()).is_none() {
            return Err(ParseError::TooLarge);
        }
        let mut splitters: Vec<Vec<bool>> = Vec::new();
        let mut y: usize = 0;
        while y < cells.len()
            invariant
                y <= cells.len(),
                splitters.len() == y,
                model == row_views(cells@),
                forall|r: int| 0 <= r < cells.len() ==> #[trigger] model[r].len() <= width,
                forall|r: int| 0 <= r < y ==> (#[trigger] splitters[r])@ == padded_row(model[r], width as nat),
            decreases cells.len() - y,
        {
            assert(model[y as int] == cells[y as int]@);
            let row = padded(&cells[y], width);
            splitters.push(row);
            y += 1;
        }
        let m = TachyonManifold { splitters, width, start_column };
        proof {
            let want = grid_of_cells(model, start_column as nat);
            assert forall|p: (int, int)| m@.splitters.contains(p) == want.splitters.contains(p) by {
                let (x, y) = p;
                if 0 <= y < cells.len() {
                    assert(model[y].len() <= width);
                    assert(row_views(m.splitters@)[y] == m.splitters[y]@);
                }
            }
            assert(m@.splitters =~= want.splitters);
            assert(m@ == want);
        }
        Ok(m)
    }

    /// Reads a manifold from text, one line per layer.
    pub fn parse(text: &str) -> (res: Result<TachyonManifold, ParseError>)
        ensures
            match res {
                Ok(m) => lines_error(lines_of(text@)) is None && m.wf() && m@ == grid_of_lines(
                    lines_of(text@),
                ),
                Err(e) => lines_error(lines_of(text@)) == Some(e),
            },
    {
        let chars = chars_of(text);
        let lines = split_lines(&chars);
        let ghost model = lines_of(text@);
        let width = widest(&lines);
        let mut cells: Vec<Vec<bool>> = Vec::new();
        let mut found: Option<(usize, usize)> = None;
        let mut repeated = false;
        let mut y: usize = 0;
        while y < lines.len()
            invariant
                y <= lines.len(),
                model == row_views(lines@),
                row_views(cells@) == splitter_cells(model).take(y as int),
                found matches Some(at) ==> marked(model, 'S', at.0 as int, at.1 as int) && at.1 < y,
                found is None ==> forall|c: int, r: int| 0 <= r < y ==> !marked(model, 'S', c, r),
                repeated ==> has_two_starts(model),
                !repeated ==> forall|c: int, r: int|
                    0 <= r < y && marked(model, 'S', c, r) ==> found == Some((c as usize, r as usize)),
            decreases lines.len() - y,
        {
            let line = &lines[y];
            assert(model[y as int] == line@);
            let mut row: Vec<bool> = Vec::new();
            let mut x: usize = 0;
            while x < line.len()
                invariant
                    x <= line.len(),
                    y < lines.len(),
                    model == row_views(lines@),
                    model[y as int] == line@,
                    row@ == splitter_cells(model)[y as int].take(x as int),
                    found matches Some(at) ==> marked(model, 'S', at.0 as int, at.1 as int) && (at.1
                        < y || (at.1 == y && at.0 < x)),
                    found is None ==> forall|c: int, r: int|
                        0 <= r < y || (r == y && 0 <= c < x) ==> !marked(model, 'S', c, r),
                    repeated ==> has_two_starts(model),
                    !repeated ==> forall|c: int, r: int|
                        (0 <= r < y || (r == y && 0 <= c < x)) && marked(model, 'S', c, r) ==> found
                            == Some((c as usize, r as usize)),
                decreases line.len() - x,
            {
                let c = line[x];
                if c == 'S' {
                    assert(marked(model, 'S', x as int, y as int));
                    match found {
                        Some(at) => {
                            repeated = true;
                        },
                        None => {
                            found = Some((x, y));
                        },
                    }
                }
                row.push(c == '^');
                assert(row@ =~= splitter_cells(model)[y as int].take(x as int + 1));
                x += 1;
            }
            assert(row@ =~= splitter_cells(model)[y as int]);
            let ghost before = row_views(cells@);
            cells.push(row);
            assert(row_views(cells@) =~= before.push(row@));
            assert(row_views(cells@) =~= splitter_cells(model).take(y as int + 1));
            y += 1;
        }
        assert(row_views(cells@) =~= splitter_cells(model));
        if lines.len() == 0 || width == 0 {
            return Err(ParseError::EmptyGrid);
        }
        match found {
            None => Err(ParseError::MissingStart),
            Some(at) => {
                if repeated {
                    Err(ParseError::MultipleStarts)
                } else {
                    proof {
                        let (cx, cy) = choose|x: int, y: int| marked(model, 'S', x, y);
                        assert(marked(model, 'S', cx, cy));
                        assert(start_column_of(model) == at.0);
                        assert(!has_two_starts(model));
                        lemma_max_len_bounds(model);
                        lemma_cells_of_lines(model);
                    }
                    TachyonManifold::new(cells, at.0)
                }
            },
        }
    }

    /// Number of columns.
    pub fn width(&self) -> (n: usize)
        ensures
            n == self@.width,
    {
        self.width
    }

    /// Number of layers.
    pub fn depth(&self) -> (n: usize)
        ensures
            n == self@.depth,
    {
        self.splitters.len()
    }

    /// The column at which the first ray enters.
    pub fn start_column(&self) -> (x: usize)
        ensures
            x == self@.start,
    {
        self.start_column
    }

    /// Whether a splitter stands in column `x` of layer `y`.
    pub fn is_splitter(&self, x: usize, y: usize) -> (b: bool)
        requires
            self.wf(),
            x < self@.width,
            y < self@.depth,
        ensures
            b == self@.splits(x as int, y as int),
    {
        assert(self.splitters[y as int].len() == self.width);
        assert(row_views(self.splitters@)[y as int] == self.splitters[y as int]@);
        assert(self@.splits(x as int, y as int) == cell_set(
            row_views(self.splitters@),
            x as int,
            y as int,
        ));
        self.splitters[y][x]
    }
}

} // verus!
