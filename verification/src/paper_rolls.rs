//! A floor plan with rolls of paper. A roll is accessible where fewer than
//! four of the eight places around it hold a roll.

use crate::text::{chars_of, lemma_max_len_bounds, lines_of, max_len, row_views, split_lines, widest};
use vstd::prelude::*;

verus! {

/// The mathematical content of a floor plan.
pub struct Floor {
    /// Number of columns.
    pub width: nat,
    /// Number of rows.
    pub height: nat,
    /// The places that hold a roll, as (column, row).
    pub rolls: Set<(int, int)>,
}

/// 1 if `rolls` holds the place `(x, y)`, else 0.
pub open spec fn one_if_roll(rolls: Set<(int, int)>, x: int, y: int) -> nat {
    if rolls.contains((x, y)) {
        1
    } else {
        0
    }
}

/// The number of rolls in the eight places around `at`.
pub open spec fn rolls_around(rolls: Set<(int, int)>, at: (int, int)) -> nat {
    let (x, y) = at;
    one_if_roll(rolls, x - 1, y - 1) + one_if_roll(rolls, x - 1, y) + one_if_roll(rolls, x - 1, y + 1)
        + one_if_roll(rolls, x, y - 1) + one_if_roll(rolls, x, y + 1) + one_if_roll(
        rolls,
        x + 1,
        y - 1,
    ) + one_if_roll(rolls, x + 1, y) + one_if_roll(rolls, x + 1, y + 1)
}

/// Whether `at` holds a roll with fewer than four rolls around it.
pub open spec fn accessible(rolls: Set<(int, int)>, at: (int, int)) -> bool {
    rolls.contains(at) && rolls_around(rolls, at) < 4
}

/// The rolls that are left when all accessible rolls are taken away at once.
pub open spec fn peeled(rolls: Set<(int, int)>) -> Set<(int, int)> {
    rolls.filter(|at: (int, int)| !accessible(rolls, at))
}

/// Whether a roll is accessible.
pub open spec fn any_accessible(rolls: Set<(int, int)>) -> bool {
    exists|at: (int, int)| accessible(rolls, at)
}

/// The rolls that are left when accessible rolls are taken away, round
/// after round, until none is accessible.
pub open spec fn settled(rolls: Set<(int, int)>) -> Set<(int, int)>
    decreases rolls.len(),
    when rolls.finite()
    via settled_decreases
{
    if any_accessible(rolls) {
        settled(peeled(rolls))
    } else {
        rolls
    }
}

#[via_fn]
proof fn settled_decreases(rolls: Set<(int, int)>) {
    if any_accessible(rolls) {
        lemma_peeled_smaller(rolls);
    }
}

/// A round that takes a roll away leaves fewer rolls.
pub proof fn lemma_peeled_smaller(rolls: Set<(int, int)>)
    requires
        rolls.finite(),
        any_accessible(rolls),
    ensures
        peeled(rolls).finite(),
        peeled(rolls).len() < rolls.len(),
{
    let at = choose|at: (int, int)| accessible(rolls, at);
    assert(peeled(rolls).subset_of(rolls.remove(at)));
    vstd::set_lib::lemma_len_subset(peeled(rolls), rolls.remove(at));
}

/// Whether `lines[y][x]` exists and is a roll.
pub open spec fn is_roll(lines: Seq<Seq<char>>, x: int, y: int) -> bool {
    0 <= y < lines.len() && 0 <= x < lines[y].len() && lines[y][x] == '@'
}

/// The floor plan that the lines draw: `@` is a roll, every other
/// character an empty place.
pub open spec fn floor_of(lines: Seq<Seq<char>>) -> Floor {
    Floor {
        width: max_len(lines),
        height: lines.len(),
        rolls: Set::new(|at: (int, int)| is_roll(lines, at.0, at.1)),
    }
}

/// Whether the plan is too large: whether it has more columns or rows than
/// positions can name, or more places than the machine can count.
pub open spec fn too_large(width: nat, height: nat) -> bool {
    width > isize::MAX || height > isize::MAX || width * height > usize::MAX
}

/// Whether `a` comes before `b`: columns in ascending order, and within a
/// column rows in ascending order.
pub open spec fn comes_before(a: (isize, isize), b: (isize, isize)) -> bool {
    a.0 < b.0 || (a.0 == b.0 && a.1 < b.1)
}

/// Whether the positions are in order and none is there twice.
pub open spec fn in_order(positions: Seq<(isize, isize)>) -> bool {
    forall|i: int, j: int|
        0 <= i < j < positions.len() ==> comes_before(#[trigger] positions[i], #[trigger] positions[j])
}

/// A position as a place of the plan.
pub open spec fn place(at: (isize, isize)) -> (int, int) {
    (at.0 as int, at.1 as int)
}

/// A floor plan with rolls of paper.
#[derive(Debug, Clone)]
pub struct PaperDepartmentMap {
    paper_rolls: Vec<Vec<bool>>,
    width: usize,
    height: usize,
    roll_count: usize,
}

impl View for PaperDepartmentMap {
    type V = Floor;

    closed spec fn view(&self) -> Floor {
        Floor {
            width: self.width as nat,
            height: self.height as nat,
            rolls: Set::new(
                |at: (int, int)|
                    0 <= at.1 < self.paper_rolls.len() && 0 <= at.0 < self.paper_rolls[at.1].len()
                        && self.paper_rolls[at.1][at.0],
            ),
        }
    }
}

/// The rolls among the first `x` places of row `y` and in the rows before.
pub open spec fn rolls_before(lines: Seq<Seq<char>>, x: int, y: int) -> Set<(int, int)> {
    Set::new(|at: (int, int)| is_roll(lines, at.0, at.1) && (at.1 < y || (at.1 == y && at.0 < x)))
}

impl PaperDepartmentMap {
    /// The representation is a rectangle of the plan's size, the rolls are
    /// counted, and positions can name every place.
    pub closed spec fn wf(&self) -> bool {
        &&& self.paper_rolls.len() == self.height
        &&& forall|y: int| 0 <= y < self.height ==> (#[trigger] self.paper_rolls[y]).len() == self.width
        &&& self.width <= isize::MAX
        &&& self.height <= isize::MAX
        &&& self@.rolls.finite()
        &&& self@.rolls.len() == self.roll_count
    }

    /// The rolls of a plan are places of the plan.
    pub proof fn lemma_rolls_inside(&self)
        requires
            self.wf(),
        ensures
            self@.width <= isize::MAX,
            self@.height <= isize::MAX,
            self@.rolls.finite(),
            self@.rolls.len() <= usize::MAX,
            forall|x: int, y: int| #[trigger]
                self@.rolls.contains((x, y)) ==> 0 <= x < self@.width && 0 <= y < self@.height,
    {
    }

    /// Reads a floor plan from text, one line a row. Returns `None` if the
    /// plan is too large.
    pub fn parse(text: &str) -> (out: Option<PaperDepartmentMap>)
        ensures
            out is None <==> too_large(max_len(lines_of(text@)), lines_of(text@).len()),
            out matches Some(map) ==> map.wf() && map@ == floor_of(lines_of(text@)),
    {
        let chars = chars_of(text);
        let lines = split_lines(&chars);
        let ghost model = lines_of(text@);
        let width = widest(&lines);
        let height = lines.len();
        if width > isize::MAX as usize || height > isize::MAX as usize {
            return None;
        }
        if width.checked_mul(height).is_none() {
            return None;
        }
        proof {
            lemma_max_len_bounds(model);
        }
        let mut paper_rolls: Vec<Vec<bool>> = Vec::new();
        let mut roll_count: usize = 0;
        let mut y: usize = 0;
        assert(rolls_before(model, 0, 0) =~= Set::<(int, int)>::empty());
        while y < height
            invariant
                y <= height == lines.len(),
                model == row_views(lines@),
                width == max_len(model),
                width * height <= usize::MAX,
                forall|r: int| 0 <= r < model.len() ==> #[trigger] model[r].len() <= width,
                paper_rolls.len() == y,
                forall|r: int| 0 <= r < y ==> (#[trigger] paper_rolls[r]).len() == width,
                forall|c: int, r: int|
                    0 <= r < y && 0 <= c < width ==> (#[trigger] paper_rolls[r][c]) == is_roll(model, c, r),
                rolls_before(model, 0, y as int).finite(),
                rolls_before(model, 0, y as int).len() == roll_count,
                roll_count <= y * width,
            decreases height - y,
        {
            let line = &lines[y];
            assert(model[y as int] == line@);
            let mut row: Vec<bool> = Vec::new();
            let mut x: usize = 0;
            let ghost before_row = roll_count;
            assert((y + 1) * width <= usize::MAX) by (nonlinear_arith)
                requires
                    y < height,
                    width * height <= usize::MAX,
            ;
            while x < width
                invariant
                    x <= width,
                    y < height == model.len(),
                    model[y as int] == line@,
                    line@.len() <= width,
                    row.len() == x,
                    forall|c: int| 0 <= c < x ==> (#[trigger] row[c]) == is_roll(model, c, y as int),
                    rolls_before(model, x as int, y as int).finite(),
                    rolls_before(model, x as int, y as int).len() == roll_count,
                    roll_count <= before_row + x,
                    before_row <= y * width,
                    (y + 1) * width <= usize::MAX,
                decreases width - x,
            {
                let roll = x < line.len() && line[x] == '@';
                proof {
                    let seen = rolls_before(model, x as int, y as int);
                    let now = rolls_before(model, x as int + 1, y as int);
                    if roll {
                        assert(now =~= seen.insert((x as int, y as int)));
                    } else {
                        assert(now =~= seen);
                    }
                    assert(before_row + x < (y + 1) * width) by (nonlinear_arith)
                        requires
                            before_row <= y * width,
                            x < width,
                    ;
                }
                if roll {
                    roll_count += 1;
                }
                row.push(roll);
                x += 1;
            }
            proof {
                assert(rolls_before(model, 0, y as int + 1) =~= rolls_before(
                    model,
                    width as int,
                    y as int,
                ));
                assert(before_row + width <= (y + 1) * width) by (nonlinear_arith)
                    requires
                        before_row <= y * width,
                ;
            }
            paper_rolls.push(row);
            y += 1;
        }
        let map = PaperDepartmentMap { paper_rolls, width, height, roll_count };
        proof {
            assert(map@.rolls =~= floor_of(model).rolls);
            assert(rolls_before(model, 0, height as int) =~= floor_of(model).rolls);
        }
        Some(map)
    }

    /// Number of columns.
    pub fn width(&self) -> (n: usize)
        ensures
            n == self@.width,
    {
        self.width
    }

    /// Number of rows.
    pub fn height(&self) -> (n: usize)
        ensures
            n == self@.height,
    {
        self.height
    }

    /// The number of rolls.
    pub fn count_paper_rolls(&self) -> (n: usize)
        requires
            self.wf(),
        ensures
            n == self@.rolls.len(),
    {
        self.roll_count
    }

    /// Whether the place at `(x, y)` holds a roll. No place outside the plan
    /// does.
    pub fn has_roll(&self, x: isize, y: isize) -> (b: bool)
        requires
            self.wf(),
        ensures
            b == self@.rolls.contains((x as int, y as int)),
    {
        if x < 0 || y < 0 {
            return false;
        }
        let (column, row) = (x as usize, y as usize);
        row < self.height && column < self.width && self.paper_rolls[row][column]
    }

    /// Adds the place `(x + dx, y + dy)` to `out` if it holds a roll.
    fn push_if_roll(&self, out: &mut Vec<(isize, isize)>, x: isize, dx: i8, y: isize, dy: i8)
        requires
            self.wf(),
            -1 <= dx <= 1,
            -1 <= dy <= 1,
            in_order(old(out)@),
            forall|i: int| 0 <= i < old(out)@.len() ==> lex_lt(place(#[trigger] old(out)@[i]), (x + dx, y + dy)),
        ensures
            in_order(final(out)@),
            final(out)@.len() == old(out)@.len() + one_if_roll(self@.rolls, x + dx, y + dy),
            forall|i: int| 0 <= i < old(out)@.len() ==> final(out)@[i] == old(out)@[i],
            final(out)@.len() > old(out)@.len() ==> place(final(out)@[old(out)@.len() as int]) == (
                x + dx,
                y + dy,
            ),
            forall|i: int|
                0 <= i < final(out)@.len() ==> !lex_lt((x + dx, y + dy), place(#[trigger] final(out)@[i])),
    {
        proof {
            self.lemma_rolls_inside();
        }
        match (x.checked_add(dx as isize), y.checked_add(dy as isize)) {
            (Some(column), Some(row)) => {
                if self.has_roll(column, row) {
                    out.push((column, row));
                }
            },
            _ => {},
        }
    }

    /// The places around `subject_position` that hold a roll: the column to
    /// the left first, then the same column, then the column to the right,
    /// each from the row above to the row below.
    pub fn get_neighbours(&self, subject_position: &(isize, isize)) -> (out: Vec<(isize, isize)>)
        requires
            self.wf(),
        ensures
            out@.len() == rolls_around(self@.rolls, place(*subject_position)),
            in_order(out@),
            forall|at: (isize, isize)|
                out@.contains(at) <==> self@.rolls.contains(place(at)) && is_around(
                    place(*subject_position),
                    place(at),
                ),
    {
        let (x, y) = *subject_position;
        let ghost rolls = self@.rolls;
        let mut out: Vec<(isize, isize)> = Vec::new();
        self.push_if_roll(&mut out, x, -1, y, -1);
        let ghost first = out@;
        self.push_if_roll(&mut out, x, -1, y, 0);
        let ghost second = out@;
        self.push_if_roll(&mut out, x, -1, y, 1);
        let ghost third = out@;
        self.push_if_roll(&mut out, x, 0, y, -1);
        let ghost fourth = out@;
        self.push_if_roll(&mut out, x, 0, y, 1);
        let ghost fifth = out@;
        self.push_if_roll(&mut out, x, 1, y, -1);
        let ghost sixth = out@;
        self.push_if_roll(&mut out, x, 1, y, 0);
        let ghost seventh = out@;
        self.push_if_roll(&mut out, x, 1, y, 1);
        proof {
            assert forall|at: (isize, isize)|
                out@.contains(at) <==> rolls.contains(place(at)) && is_around(
                    place(*subject_position),
                    place(at),
                ) by {
                if out@.contains(at) {
                    let i = choose|i: int| 0 <= i < out@.len() && out@[i] == at;
                    assert(out@[i] == at);
                    if i < first.len() {
                        assert(first[i] == at);
                    } else if i < second.len() {
                        assert(second[i] == at);
                    } else if i < third.len() {
                        assert(third[i] == at);
                    } else if i < fourth.len() {
                        assert(fourth[i] == at);
                    } else if i < fifth.len() {
                        assert(fifth[i] == at);
                    } else if i < sixth.len() {
                        assert(sixth[i] == at);
                    } else if i < seventh.len() {
                        assert(seventh[i] == at);
                    }
                }
                if rolls.contains(place(at)) && is_around(place(*subject_position), place(at)) {
                    let to = place(at);
                    let i: int = if to == (x - 1, y - 1) {
                        0
                    } else if to == (x - 1, y as int) {
                        first.len() as int
                    } else if to == (x - 1, y + 1) {
                        second.len() as int
                    } else if to == (x as int, y - 1) {
                        third.len() as int
                    } else if to == (x as int, y + 1) {
                        fourth.len() as int
                    } else if to == (x + 1, y - 1) {
                        fifth.len() as int
                    } else if to == (x + 1, y as int) {
                        sixth.len() as int
                    } else {
                        seventh.len() as int
                    };
                    assert(place(out@[i]) == to);
                    assert(out@[i] == at);
                }
            }
        }
        out
    }

    /// All places of the plan, column by column, each from the first row to
    /// the last.
    pub fn get_all_positions(&self) -> (out: Vec<(isize, isize)>)
        requires
            self.wf(),
        ensures
            in_order(out@),
            forall|at: (isize, isize)|
                out@.contains(at) <==> 0 <= at.0 < self@.width && 0 <= at.1 < self@.height,
    {
        proof {
            self.lemma_rolls_inside();
        }
        let mut out: Vec<(isize, isize)> = Vec::new();
        let mut x: usize = 0;
        while x < self.width
            invariant
                x <= self.width <= isize::MAX,
                self.height <= isize::MAX,
                in_order(out@),
                forall|at: (isize, isize)|
                    out@.contains(at) <==> 0 <= at.0 < x && 0 <= at.1 < self.height,
            decreases self.width - x,
        {
            let mut y: usize = 0;
            while y < self.height
                invariant
                    x < self.width <= isize::MAX,
                    y <= self.height <= isize::MAX,
                    in_order(out@),
                    forall|at: (isize, isize)|
                        out@.contains(at) <==> (0 <= at.0 < x && 0 <= at.1 < self.height) || (at.0 == x
                            && 0 <= at.1 < y),
                decreases self.height - y,
            {
                let ghost before = out@;
                out.push((x as isize, y as isize));
                proof {
                    assert forall|at: (isize, isize)|
                        out@.contains(at) <==> (0 <= at.0 < x && 0 <= at.1 < self.height) || (at.0
                            == x && 0 <= at.1 < y + 1) by {
                        if out@.contains(at) {
                            let i = choose|i: int| 0 <= i < out@.len() && out@[i] == at;
                            if i < before.len() {
                                assert(before[i] == at);
                                assert(before.contains(at));
                            }
                        }
                        if before.contains(at) {
                            let i = choose|i: int| 0 <= i < before.len() && before[i] == at;
                            assert(out@[i] == at);
                        }
                        if at == (x as isize, y as isize) {
                            assert(out@[before.len() as int] == at);
                        }
                    }
                    assert forall|i: int, j: int| 0 <= i < j < out@.len() implies comes_before(
                        #[trigger] out@[i],
                        #[trigger] out@[j],
                    ) by {
                        if j == before.len() {
                            assert(before.contains(before[i]));
                        }
                    }
                }
                y += 1;
            }
            x += 1;
        }
        out
    }

    /// The places that hold an accessible roll, column by column, each from
    /// the first row to the last.
    pub fn get_accessible_paper_rolls(&self) -> (out: Vec<(isize, isize)>)
        requires
            self.wf(),
        ensures
            in_order(out@),
            forall|at: (isize, isize)| out@.contains(at) <==> accessible(self@.rolls, place(at)),
    {
        proof {
            self.lemma_rolls_inside();
        }
        let positions = self.get_all_positions();
        let mut out: Vec<(isize, isize)> = Vec::new();
        let mut i: usize = 0;
        while i < positions.len()
            invariant
                i <= positions.len(),
                self.wf(),
                in_order(positions@),
                in_order(out@),
                forall|k: int| 0 <= k < out@.len() ==> positions@.take(i as int).contains(#[trigger] out@[k]),
                forall|at: (isize, isize)|
                    out@.contains(at) <==> positions@.take(i as int).contains(at) && accessible(
                        self@.rolls,
                        place(at),
                    ),
            decreases positions.len() - i,
        {
            let at = positions[i];
            let ghost before = out@;
            let ghost seen = positions@.take(i as int);
            let ghost now = positions@.take(i + 1);
            proof {
                assert(now =~= seen.push(at));
                assert forall|p: (isize, isize)| now.contains(p) <==> seen.contains(p) || p == at by {
                    if now.contains(p) {
                        let k = choose|k: int| 0 <= k < now.len() && now[k] == p;
                        if k < seen.len() {
                            assert(seen[k] == p);
                        }
                    }
                    if seen.contains(p) {
                        let k = choose|k: int| 0 <= k < seen.len() && seen[k] == p;
                        assert(now[k] == p);
                    }
                    assert(now[i as int] == at);
                }
            }
            let take = self.has_roll(at.0, at.1) && self.get_neighbours(&at).len() < 4;
            if take {
                out.push(at);
            }
            proof {
                assert forall|p: (isize, isize)|
                    out@.contains(p) <==> now.contains(p) && accessible(self@.rolls, place(p)) by {
                    if out@.contains(p) {
                        let k = choose|k: int| 0 <= k < out@.len() && out@[k] == p;
                        if k < before.len() {
                            assert(before[k] == p);
                            assert(before.contains(p));
                        }
                    }
                    if before.contains(p) {
                        let k = choose|k: int| 0 <= k < before.len() && before[k] == p;
                        assert(out@[k] == p);
                    }
                    if take {
                        assert(out@[before.len() as int] == at);
                    }
                }
                assert forall|k: int| 0 <= k < out@.len() implies now.contains(#[trigger] out@[k]) by {
                    assert(out@.contains(out@[k]));
                }
                assert forall|a: int, b: int| 0 <= a < b < out@.len() implies comes_before(
                    #[trigger] out@[a],
                    #[trigger] out@[b],
                ) by {
                    if b == before.len() {
                        assert(seen.contains(before[a]));
                        let k = choose|k: int| 0 <= k < seen.len() && seen[k] == before[a];
                        assert(positions@[k] == before[a]);
                        assert(comes_before(positions@[k], positions@[i as int]));
                    }
                }
            }
            i += 1;
        }
        proof {
            assert(positions@.take(positions.len() as int) =~= positions@);
            assert forall|at: (isize, isize)|
                out@.contains(at) <==> accessible(self@.rolls, place(at)) by {
                if accessible(self@.rolls, place(at)) {
                    assert(self@.rolls.contains((at.0 as int, at.1 as int)));
                    assert(positions@.contains(at));
                }
            }
        }
        out
    }

    /// Takes the roll at `(x, y)` away.
    fn remove_roll(&mut self, x: isize, y: isize)
        requires
            old(self).wf(),
            old(self)@.rolls.contains((x as int, y as int)),
        ensures
            final(self).wf(),
            final(self)@.width == old(self)@.width,
            final(self)@.height == old(self)@.height,
            final(self)@.rolls == old(self)@.rolls.remove((x as int, y as int)),
    {
        proof {
            self.lemma_rolls_inside();
        }
        let (column, row) = (x as usize, y as usize);
        let ghost before = self@.rolls;
        self.paper_rolls[row][column] = false;
        self.roll_count = self.roll_count - 1;
        proof {
            assert forall|at: (int, int)| self@.rolls.contains(at) == before.remove(
                (x as int, y as int),
            ).contains(at) by {
                if 0 <= at.1 < self.height && at.1 != row {
                    assert(self.paper_rolls[at.1] == old(self).paper_rolls[at.1]);
                }
            }
            assert(self@.rolls =~= before.remove((x as int, y as int)));
        }
    }

    /// Takes accessible rolls away, round after round, until no roll is
    /// accessible. In a round all rolls go that are accessible at its
    /// beginning. Returns the number of rolls taken away.
    pub fn try_remove_all(&mut self) -> (removed: usize)
        requires
            old(self).wf(),
        ensures
            final(self).wf(),
            final(self)@.width == old(self)@.width,
            final(self)@.height == old(self)@.height,
            final(self)@.rolls == settled(old(self)@.rolls),
            removed == old(self)@.rolls.len() - final(self)@.rolls.len(),
    {
        let mut total_removed: usize = 0;
        proof {
            self.lemma_rolls_inside();
        }
        loop
            invariant
                self.wf(),
                self@.width == old(self)@.width,
                self@.height == old(self)@.height,
                old(self)@.rolls.finite(),
                old(self)@.rolls.len() <= usize::MAX,
                settled(self@.rolls) == settled(old(self)@.rolls),
                total_removed + self@.rolls.len() == old(self)@.rolls.len(),
            decreases self@.rolls.len(),
        {
            proof {
                self.lemma_rolls_inside();
            }
            let to_remove = self.get_accessible_paper_rolls();
            let ghost before = self@.rolls;
            let ghost gone = before.filter(|at: (int, int)| accessible(before, at));
            proof {
                lemma_positions_count(to_remove@, gone);
                assert(peeled(before) =~= before.difference(gone));
                if to_remove.len() > 0 {
                    assert(to_remove@.contains(to_remove@[0]));
                    assert(accessible(before, place(to_remove@[0])));
                    lemma_peeled_smaller(before);
                } else {
                    assert forall|at: (int, int)| !accessible(before, at) by {
                        if accessible(before, at) {
                            assert(gone.contains(at));
                        }
                    }
                }
            }
            let to_remove_count = to_remove.len();
            if to_remove_count == 0 {
                return total_removed;
            }
            let mut i: usize = 0;
            while i < to_remove.len()
                invariant
                    i <= to_remove.len(),
                    self.wf(),
                    self@.width == old(self)@.width,
                    self@.height == old(self)@.height,
                    in_order(to_remove@),
                    forall|at: (isize, isize)| to_remove@.contains(at) ==> before.contains(place(at)),
                    self@.rolls == before.difference(places(to_remove@.take(i as int))),
                    self@.rolls.len() + i == before.len(),
                decreases to_remove.len() - i,
            {
                let at = to_remove[i];
                proof {
                    let taken = places(to_remove@.take(i as int));
                    assert(to_remove@.contains(at));
                    assert(!taken.contains(place(at))) by {
                        if taken.contains(place(at)) {
                            let named = to_remove@.take(i as int).map_values(
                                |p: (isize, isize)| place(p),
                            );
                            let k = choose|k: int| 0 <= k < named.len() && named[k] == place(at);
                            assert(comes_before(to_remove@[k], to_remove@[i as int]));
                        }
                    }
                    assert(to_remove@.take(i + 1) =~= to_remove@.take(i as int).push(at));
                    assert(to_remove@.take(i + 1).map_values(|p: (isize, isize)| place(p))
                        =~= to_remove@.take(i as int).map_values(|p: (isize, isize)| place(p)).push(
                        place(at),
                    ));
                    to_remove@.take(i as int).map_values(
                        |p: (isize, isize)| place(p),
                    ).lemma_push_to_set_commute(place(at));
                    assert(before.difference(taken).remove(place(at)) =~= before.difference(
                        taken.insert(place(at)),
                    ));
                }
                proof {
                    self.lemma_rolls_inside();
                }
                self.remove_roll(at.0, at.1);
                proof {
                    self.lemma_rolls_inside();
                }
                i += 1;
            }
            proof {
                assert(to_remove@.take(to_remove.len() as int) =~= to_remove@);
                assert(self@.rolls == peeled(before));
            }
            total_removed += to_remove_count;
        }
    }

    /// The number of accessible rolls.
    pub fn count_accessible_paper_rolls(&self) -> (count: usize)
        requires
            self.wf(),
        ensures
            count == self@.rolls.filter(|at: (int, int)| accessible(self@.rolls, at)).len(),
    {
        let rolls = self.get_accessible_paper_rolls();
        proof {
            lemma_positions_count(rolls@, self@.rolls.filter(|at: (int, int)| accessible(self@.rolls, at)));
        }
        rolls.len()
    }
}

/// Whether `a` comes before `b`: the column counts first, then the row.
pub open spec fn lex_lt(a: (int, int), b: (int, int)) -> bool {
    a.0 < b.0 || (a.0 == b.0 && a.1 < b.1)
}

/// Whether `to` is one of the eight places around `at`.
pub open spec fn is_around(at: (int, int), to: (int, int)) -> bool {
    at.0 - 1 <= to.0 <= at.0 + 1 && at.1 - 1 <= to.1 <= at.1 + 1 && to != at
}

/// The places that positions name.
pub open spec fn places(positions: Seq<(isize, isize)>) -> Set<(int, int)> {
    positions.map_values(|at: (isize, isize)| place(at)).to_set()
}

/// Positions in order that name exactly the places of a set are as many as
/// the set has places.
pub proof fn lemma_positions_count(positions: Seq<(isize, isize)>, set: Set<(int, int)>)
    requires
        in_order(positions),
        forall|at: (isize, isize)| positions.contains(at) <==> set.contains(place(at)),
        forall|at: (int, int)|
            set.contains(at) ==> isize::MIN <= at.0 <= isize::MAX && isize::MIN <= at.1 <= isize::MAX,
    ensures
        set.finite(),
        set.len() == positions.len(),
        set == places(positions),
{
    let named = positions.map_values(|at: (isize, isize)| place(at));
    assert forall|i: int, j: int| 0 <= i < named.len() && 0 <= j < named.len() && i != j implies named[i]
        != named[j] by {
        if i < j {
            assert(comes_before(positions[i], positions[j]));
        } else {
            assert(comes_before(positions[j], positions[i]));
        }
    }
    named.unique_seq_to_set();
    assert forall|at: (int, int)| set.contains(at) <==> named.to_set().contains(at) by {
        if set.contains(at) {
            let p = (at.0 as isize, at.1 as isize);
            assert(place(p) == at);
            assert(positions.contains(p));
            let i = choose|i: int| 0 <= i < positions.len() && positions[i] == p;
            assert(named[i] == at);
        }
        if named.to_set().contains(at) {
            let i = choose|i: int| 0 <= i < named.len() && named[i] == at;
            assert(positions.contains(positions[i]));
        }
    }
    assert(set =~= named.to_set());
}

} // verus!
