//! Rays falling through a manifold: the set of columns that hold a ray, the
//! number of ways in which a ray reaches each column, and the step from one
//! layer to the next.

use crate::manifold::{Grid, TachyonManifold};
use crate::sums::{
    lemma_sum_add, lemma_sum_agree, lemma_sum_differ_at, lemma_sum_le, lemma_sum_shift_down,
    lemma_sum_shift_up, lemma_sum_term, lemma_sum_zero, lemma_sum_zero_tail, sum_to,
};
use std::collections::HashMap;
use std::collections::HashSet;
use vstd::prelude::*;
use vstd::std_specs::hash::*;
use vstd::std_specs::iter::IteratorSpec;

verus! {

broadcast use vstd::std_specs::hash::group_hash_axioms;

/// Whether column `x` is one of `rays`.
pub open spec fn holds(rays: Set<usize>, x: int) -> bool {
    0 <= x <= usize::MAX && rays.contains(x as usize)
}

/// The columns `0 <= x < n`.
pub open spec fn below(n: nat) -> Set<usize> {
    Set::new(|x: usize| x < n)
}

/// The number of rays that `rays` holds in column `x`; none in a column
/// that it does not name.
pub open spec fn amount(rays: Map<usize, usize>, x: int) -> nat {
    if 0 <= x <= usize::MAX && rays.contains_key(x as usize) {
        rays[x as usize] as nat
    } else {
        0
    }
}

/// The number of rays that `rays` holds in all columns together.
pub open spec fn total(rays: Map<usize, usize>) -> nat {
    sum_to(|x: int| amount(rays, x), usize::MAX + 1)
}

impl Grid {
    /// Whether a ray leaves layer `y` in column `x`, given the columns `rays`
    /// in which rays enter that layer: a ray that meets no splitter keeps
    /// its column, and a splitter sends a ray to each of its neighbours.
    pub open spec fn enters(self, rays: Set<usize>, x: int, y: int) -> bool {
        ||| holds(rays, x) && !self.splits(x, y)
        ||| holds(rays, x - 1) && self.splits(x - 1, y)
        ||| holds(rays, x + 1) && self.splits(x + 1, y)
    }

    /// The columns in which rays leave layer `y`. Rays that meet in a column
    /// are one ray.
    pub open spec fn step(self, rays: Set<usize>, y: int) -> Set<usize> {
        Set::new(|x: usize| self.enters(rays, x as int, y))
    }

    /// The columns of `rays` that meet a splitter in layer `y`.
    pub open spec fn hits(self, rays: Set<usize>, y: int) -> Set<usize> {
        rays.filter(|x: usize| self.splits(x as int, y))
    }

    /// The number of rays that leave layer `y` in column `x`, given the
    /// number `held(c)` of rays that enter it in each column `c`. A splitter
    /// does not divide the rays that meet it: it sends all of them to
    /// either side. Rays that meet in a column add up.
    pub open spec fn spread(self, held: spec_fn(int) -> nat, x: int, y: int) -> nat {
        (if !self.splits(x, y) {
            held(x)
        } else {
            0
        }) + (if self.splits(x - 1, y) {
            held(x - 1)
        } else {
            0
        }) + (if self.splits(x + 1, y) {
            held(x + 1)
        } else {
            0
        })
    }

    /// The number of rays that meet a splitter in column `x` of layer `y`.
    pub open spec fn hit(self, held: spec_fn(int) -> nat, x: int, y: int) -> nat {
        if self.splits(x, y) {
            held(x)
        } else {
            0
        }
    }

    /// The number of rays that leave layer `y` in column `x`, given the
    /// rays that enter it.
    pub open spec fn arriving(self, rays: Map<usize, usize>, x: int, y: int) -> nat {
        self.spread(|c: int| amount(rays, c), x, y)
    }

    /// The number of rays of `rays` that meet a splitter in layer `y`.
    pub open spec fn hit_amount(self, rays: Map<usize, usize>, y: int) -> nat {
        sum_to(|x: int| self.hit(|c: int| amount(rays, c), x, y), usize::MAX + 1)
    }

    /// Whether the number of rays that leave layer `y` is a machine number
    /// in every column.
    pub open spec fn step_fits(self, rays: Map<usize, usize>, y: int) -> bool {
        forall|x: int| #[trigger] self.arriving(rays, x, y) <= usize::MAX
    }

    /// The number of ways in which a ray reaches column `x` in `y` layers.
    pub open spec fn paths(self, y: nat, x: int) -> nat
        decreases y,
    {
        if y == 0 {
            if x == self.start {
                1
            } else {
                0
            }
        } else {
            self.spread(|c: int| self.paths((y - 1) as nat, c), x, y - 1)
        }
    }

    /// Whether the number of ways to reach a column in `y` layers is a
    /// machine number for every column.
    pub open spec fn paths_fit(self, y: nat) -> bool {
        forall|x: int| #[trigger] self.paths(y, x) <= usize::MAX
    }

    /// The number of ways in which a ray falls through `y` layers.
    pub open spec fn path_total(self, y: nat) -> nat {
        sum_to(|x: int| self.paths(y, x), self.width as int)
    }

    /// The number of ways in which a ray falls through `y` layers and meets
    /// a splitter in the next.
    pub open spec fn path_hits(self, y: nat) -> nat {
        sum_to(|x: int| self.hit(|c: int| self.paths(y, c), x, y as int), self.width as int)
    }

    /// The columns that hold a ray after `y` layers.
    pub open spec fn front(self, y: nat) -> Set<usize>
        decreases y,
    {
        if y == 0 {
            set![self.start as usize]
        } else {
            self.step(self.front((y - 1) as nat), y - 1)
        }
    }

    /// The number of splitters that a ray has met in the first `y` layers.
    pub open spec fn split_total(self, y: nat) -> nat
        decreases y,
    {
        if y == 0 {
            0
        } else {
            self.split_total((y - 1) as nat) + self.hits(self.front((y - 1) as nat), y - 1).len()
        }
    }
}

/// There are `n` columns below `n`.
pub proof fn lemma_below_len(n: nat)
    requires
        n <= usize::MAX + 1,
    ensures
        below(n).finite(),
        below(n).len() == n,
    decreases n,
{
    if n == 0 {
        assert(below(0) =~= Set::<usize>::empty());
    } else {
        lemma_below_len((n - 1) as nat);
        assert(below(n) =~= below((n - 1) as nat).insert((n - 1) as usize));
    }
}

/// A step from columns of the grid leads to columns of the grid.
pub proof fn lemma_step_stays_inside(g: Grid, rays: Set<usize>, y: int)
    requires
        g.wf(),
        rays.subset_of(below(g.width)),
    ensures
        g.step(rays, y).subset_of(below(g.width)),
{
}

/// Every ray is in a column of the grid, after any number of layers.
pub proof fn lemma_front_stays_inside(g: Grid, y: nat)
    requires
        g.wf(),
    ensures
        g.front(y).subset_of(below(g.width)),
        g.front(y).finite(),
    decreases y,
{
    if y > 0 {
        lemma_front_stays_inside(g, (y - 1) as nat);
        lemma_step_stays_inside(g, g.front((y - 1) as nat), y - 1);
    }
    g.lemma_fits();
    lemma_below_len(g.width);
    vstd::set_lib::lemma_len_subset(g.front(y), below(g.width));
}

/// No layer has more hits than the grid has columns.
pub proof fn lemma_hits_bound(g: Grid, rays: Set<usize>, y: int)
    requires
        g.wf(),
        rays.subset_of(below(g.width)),
    ensures
        g.hits(rays, y).finite(),
        g.hits(rays, y).len() <= g.width,
{
    g.lemma_fits();
    lemma_below_len(g.width);
    vstd::set_lib::lemma_len_subset(g.hits(rays, y), below(g.width));
}

/// The columns of `rays`, each once, in no particular order.
pub fn columns_of(rays: &HashSet<usize>) -> (out: Vec<usize>)
    ensures
        out@.no_duplicates(),
        out@.to_set() == rays@,
{
    let mut out: Vec<usize> = Vec::new();
    let ghost all: Seq<usize> = spec_hash_keys_iter(rays).remaining().unref();
    for x in it: rays.iter()
        invariant
            it.seq().unref() == all,
            out@ == all.take(it.index()),
            all.to_set() == rays@,
            all.no_duplicates(),
    {
        out.push(*x);
    }
    assert(all.take(all.len() as int) =~= all);
    out
}

/// The columns of `rays` with their numbers, each column once, in no
/// particular order.
pub fn entries_of(rays: &HashMap<usize, usize>) -> (out: Vec<(usize, usize)>)
    ensures
        out@.no_duplicates(),
        out@.to_set() == rays@.kv_pairs(),
{
    let mut out: Vec<(usize, usize)> = Vec::new();
    let ghost all: Seq<(usize, usize)> = spec_hash_map_iter(rays).remaining().unref();
    for e in it: rays.iter()
        invariant
            it.seq().unref() == all,
            out@ == all.take(it.index()),
            all.to_set() == rays@.kv_pairs(),
            all.no_duplicates(),
    {
        out.push((*e.0, *e.1));
    }
    assert(all.take(all.len() as int) =~= all);
    out
}

/// Adds `by` rays to column `x` of `rays`, unless the number would be no
/// machine number.
fn add_rays(rays: &mut HashMap<usize, usize>, x: usize, by: usize) -> (done: bool)
    ensures
        done == (amount(old(rays)@, x as int) + by <= usize::MAX),
        done ==> final(rays)@ == old(rays)@.insert(x, (amount(old(rays)@, x as int) + by) as usize),
        !done ==> final(rays)@ == old(rays)@,
{
    let held: usize = match rays.get(&x) {
        Some(n) => *n,
        None => 0,
    };
    match held.checked_add(by) {
        Some(sum) => {
            rays.insert(x, sum);
            true
        },
        None => false,
    }
}

/// Fewer rays going in, fewer rays coming out.
pub proof fn lemma_arriving_monotone(
    g: Grid,
    few: Map<usize, usize>,
    many: Map<usize, usize>,
    x: int,
    y: int,
)
    requires
        few.submap_of(many),
    ensures
        g.arriving(few, x, y) <= g.arriving(many, x, y),
{
    assert forall|c: int| amount(few, c) <= amount(many, c) by {
        if 0 <= c <= usize::MAX && few.contains_key(c as usize) {
            assert(many.dom().contains(c as usize));
        }
    }
}

/// What the rays of one more column `x` add to column `to` behind layer `y`.
pub open spec fn share(g: Grid, x: usize, n: usize, to: int, y: int) -> nat {
    if g.splits(x as int, y) {
        if to == x - 1 || to == x + 1 {
            n as nat
        } else {
            0
        }
    } else {
        if to == x {
            n as nat
        } else {
            0
        }
    }
}

/// The rays that leave a layer when the `n` rays of one more column `x`
/// enter it.
proof fn lemma_one_more_column(g: Grid, done: Map<usize, usize>, x: usize, n: usize, to: int, y: int)
    requires
        !done.contains_key(x),
    ensures
        g.arriving(done.insert(x, n), to, y) == g.arriving(done, to, y) + share(g, x, n, to, y),
{
    let grown = done.insert(x, n);
    assert(amount(grown, to) == amount(done, to) + if to == x { n as nat } else { 0 });
    assert(amount(grown, to - 1) == amount(done, to - 1) + if to - 1 == x { n as nat } else { 0 });
    assert(amount(grown, to + 1) == amount(done, to + 1) + if to + 1 == x { n as nat } else { 0 });
}

/// The state of a step after the rays of a column without a splitter were
/// added.
proof fn lemma_after_pass(
    g: Grid,
    done: Map<usize, usize>,
    x: usize,
    n: usize,
    y: int,
    before: Map<usize, usize>,
    after: Map<usize, usize>,
)
    requires
        g.wf(),
        !done.contains_key(x),
        !g.splits(x as int, y),
        before.dom() == g.step(done.dom(), y),
        forall|c: int| amount(before, c) == #[trigger] g.arriving(done, c, y),
        amount(before, x as int) + n <= usize::MAX,
        after == before.insert(x, (amount(before, x as int) + n) as usize),
    ensures
        after.dom() == g.step(done.insert(x, n).dom(), y),
        forall|c: int| amount(after, c) == #[trigger] g.arriving(done.insert(x, n), c, y),
{
    let grown = done.insert(x, n);
    assert forall|c: int| amount(after, c) == #[trigger] g.arriving(grown, c, y) by {
        lemma_one_more_column(g, done, x, n, c, y);
        assert(amount(before, c) == g.arriving(done, c, y));
    }
    assert forall|c: usize| after.dom().contains(c) == g.step(grown.dom(), y).contains(c) by {
        assert(before.dom().contains(c) == g.enters(done.dom(), c as int, y));
    }
    assert(after.dom() =~= g.step(grown.dom(), y));
}

/// The state of a step after the rays of a column with a splitter were
/// added to either side.
proof fn lemma_after_split(
    g: Grid,
    done: Map<usize, usize>,
    x: usize,
    n: usize,
    y: int,
    before: Map<usize, usize>,
    half: Map<usize, usize>,
    after: Map<usize, usize>,
)
    requires
        g.wf(),
        !done.contains_key(x),
        g.splits(x as int, y),
        before.dom() == g.step(done.dom(), y),
        forall|c: int| amount(before, c) == #[trigger] g.arriving(done, c, y),
        amount(before, x - 1) + n <= usize::MAX,
        half == before.insert((x - 1) as usize, (amount(before, x - 1) + n) as usize),
        amount(half, x + 1) + n <= usize::MAX,
        after == half.insert((x + 1) as usize, (amount(half, x + 1) + n) as usize),
    ensures
        after.dom() == g.step(done.insert(x, n).dom(), y),
        forall|c: int| amount(after, c) == #[trigger] g.arriving(done.insert(x, n), c, y),
{
    g.lemma_fits();
    let grown = done.insert(x, n);
    assert(0 < x < g.width - 1);
    assert forall|c: int| amount(after, c) == #[trigger] g.arriving(grown, c, y) by {
        lemma_one_more_column(g, done, x, n, c, y);
        assert(amount(before, c) == g.arriving(done, c, y));
    }
    assert forall|c: usize| after.dom().contains(c) == g.step(grown.dom(), y).contains(c) by {
        assert(before.dom().contains(c) == g.enters(done.dom(), c as int, y));
    }
    assert(after.dom() =~= g.step(grown.dom(), y));
}

/// A layer adds to the rays as many as meet a splitter in it, whatever the
/// numbers of rays that enter it: summed over the columns below `n`, the
/// rays that leave are the rays that entered and, once more, those that
/// met a splitter.
pub proof fn lemma_spread_total(g: Grid, held: spec_fn(int) -> nat, y: int, n: int)
    requires
        g.wf(),
        n >= g.width,
    ensures
        sum_to(|x: int| g.spread(held, x, y), n) == sum_to(held, n) + sum_to(
            |x: int| g.hit(held, x, y),
            n,
        ),
{
    let hit = |x: int| g.hit(held, x, y);
    let kept = |x: int|
        if !g.splits(x, y) {
            held(x)
        } else {
            0
        };
    let from_left = |x: int| hit(x - 1);
    let from_right = |x: int| hit(x + 1);
    let sides = |x: int| from_left(x) + from_right(x);
    let out = |x: int| g.spread(held, x, y);
    assert(hit(n - 1) == 0 && hit(0) == 0 && hit(n) == 0 && hit(-1) == 0);
    lemma_sum_shift_up(hit, from_left, n);
    lemma_sum_shift_down(hit, from_right, n);
    lemma_sum_add(kept, hit, held, n);
    lemma_sum_add(from_left, from_right, sides, n);
    lemma_sum_add(kept, sides, out, n);
}

/// A layer adds to the rays as many as meet a splitter in it: the number of
/// rays that leave a layer is the number that entered it plus, for each
/// splitter that was met, the number of rays that met it.
pub proof fn lemma_step_total(g: Grid, rays: Map<usize, usize>, y: int)
    requires
        g.wf(),
    ensures
        sum_to(|x: int| g.arriving(rays, x, y), usize::MAX + 1) == total(rays) + g.hit_amount(
            rays,
            y,
        ),
{
    g.lemma_fits();
    let held = |c: int| amount(rays, c);
    lemma_spread_total(g, held, y, usize::MAX + 1);
    lemma_sum_agree(
        |x: int| g.arriving(rays, x, y),
        |x: int| g.spread(held, x, y),
        usize::MAX + 1,
    );
}

/// Layer by layer the number of ways through the grid grows by the number
/// of ways that meet a splitter in the layer.
pub proof fn lemma_layer_total(g: Grid, y: nat)
    requires
        g.wf(),
    ensures
        g.path_total(y + 1) == g.path_total(y) + g.path_hits(y),
        g.path_total(y + 1) >= g.path_total(y),
{
    let held = |c: int| g.paths(y, c);
    lemma_spread_total(g, held, y as int, g.width as int);
    lemma_sum_agree(
        |x: int| g.paths(y + 1, x),
        |x: int| g.spread(held, x, y as int),
        g.width as int,
    );
}

/// No ray is ever outside the grid.
pub proof fn lemma_paths_inside(g: Grid, y: nat, x: int)
    requires
        g.wf(),
        x < 0 || x >= g.width,
    ensures
        g.paths(y, x) == 0,
    decreases y,
{
    if y > 0 {
        lemma_paths_inside(g, (y - 1) as nat, x);
    }
}

/// The rays in a column do not get fewer: as many rays as are in column `x`
/// after `y` layers are in the returned column one layer later.
pub proof fn lemma_paths_persist_step(g: Grid, y: nat, x: int) -> (to: int)
    ensures
        g.paths(y + 1, to) >= g.paths(y, x),
{
    if g.splits(x, y as int) {
        x + 1
    } else {
        x
    }
}

/// As many rays as are in column `x` after `y` layers are in the returned
/// column after `later` layers.
pub proof fn lemma_paths_persist(g: Grid, y: nat, x: int, later: nat) -> (to: int)
    requires
        y <= later,
    ensures
        g.paths(later, to) >= g.paths(y, x),
    decreases later - y,
{
    if y == later {
        x
    } else {
        let next = lemma_paths_persist_step(g, y, x);
        lemma_paths_persist(g, y + 1, next, later)
    }
}

/// The two ways of counting follow the same rays: a column holds a ray
/// exactly if there is a way to reach it.
pub proof fn lemma_front_is_reached(g: Grid, y: nat)
    requires
        g.wf(),
    ensures
        forall|x: int| holds(g.front(y), x) <==> #[trigger] g.paths(y, x) > 0,
    decreases y,
{
    g.lemma_fits();
    if y > 0 {
        let before = (y - 1) as nat;
        lemma_front_is_reached(g, before);
        assert forall|x: int| holds(g.front(y), x) <==> #[trigger] g.paths(y, x) > 0 by {
            assert(holds(g.front(before), x) <==> g.paths(before, x) > 0);
            assert(holds(g.front(before), x - 1) <==> g.paths(before, x - 1) > 0);
            assert(holds(g.front(before), x + 1) <==> g.paths(before, x + 1) > 0);
            if x < 0 || x >= g.width {
                lemma_paths_inside(g, y, x);
                lemma_front_stays_inside(g, y);
            }
        }
    }
}

/// Where no splitter stands below the start, the ray falls straight through:
/// it meets no splitter, stays in the start column, and there is one way
/// through the grid.
pub proof fn lemma_straight_fall(g: Grid, y: nat)
    requires
        g.wf(),
        forall|l: int| 0 <= l < y ==> !g.splits(g.start as int, l),
    ensures
        g.split_total(y) == 0,
        g.front(y) == set![g.start as usize],
        forall|x: int| #[trigger] g.paths(y, x) == if x == g.start { 1nat } else { 0nat },
        g.path_total(y) == 1,
    decreases y,
{
    g.lemma_fits();
    if y > 0 {
        let before = (y - 1) as nat;
        lemma_straight_fall(g, before);
        assert(g.hits(g.front(before), y - 1) =~= Set::<usize>::empty());
        assert(g.front(y) =~= set![g.start as usize]);
        assert forall|x: int| #[trigger] g.paths(y, x) == if x == g.start { 1nat } else { 0nat } by {
            assert(g.paths(before, x) == if x == g.start { 1nat } else { 0nat });
            assert(g.paths(before, x - 1) == if x - 1 == g.start { 1nat } else { 0nat });
            assert(g.paths(before, x + 1) == if x + 1 == g.start { 1nat } else { 0nat });
        }
    }
    let none = |x: int| 0nat;
    let ways = |x: int| g.paths(y, x);
    lemma_sum_zero(none, g.width as int);
    assert(ways(g.start as int) == 1);
    lemma_sum_differ_at(none, ways, g.start as int, g.width as int);
}

/// The number of ways through the grid never falls from layer to layer,
/// and there is always a way.
pub proof fn lemma_path_total_grows(g: Grid, y: nat, later: nat)
    requires
        g.wf(),
        y <= later,
    ensures
        1 <= g.path_total(y) <= g.path_total(later),
    decreases later,
{
    if later == 0 {
        lemma_straight_fall(g, 0);
    } else if y == later {
        lemma_path_total_grows(g, 0, (later - 1) as nat);
        lemma_layer_total(g, (later - 1) as nat);
    } else {
        lemma_path_total_grows(g, y, (later - 1) as nat);
        lemma_layer_total(g, (later - 1) as nat);
    }
}

/// Two runs on manifolds with the same grid end alike: whatever
/// `trace_rays` and `count_paths` return for the one, they return for the
/// other, and for the same manifold when it is run again.
pub proof fn lemma_runs_agree(
    a: TachyonManifold,
    b: TachyonManifold,
    first: (usize, HashSet<usize>),
    second: (usize, HashSet<usize>),
    first_paths: Option<usize>,
    second_paths: Option<usize>,
)
    requires
        a.wf(),
        b.wf(),
        a@ == b@,
        call_ensures(TachyonManifold::trace_rays, (&a,), first),
        call_ensures(TachyonManifold::trace_rays, (&b,), second),
        call_ensures(TachyonManifold::count_paths, (&a,), first_paths),
        call_ensures(TachyonManifold::count_paths, (&b,), second_paths),
    ensures
        first.0 == second.0,
        first.1@ == second.1@,
        first_paths == second_paths,
{
}

/// Two runs that count the ways to each column end alike.
pub proof fn lemma_counted_runs_agree(
    a: TachyonManifold,
    b: TachyonManifold,
    first: Option<HashMap<usize, usize>>,
    second: Option<HashMap<usize, usize>>,
)
    requires
        a.wf(),
        b.wf(),
        a@ == b@,
        call_ensures(TachyonManifold::trace_rays_overlapping, (&a,), first),
        call_ensures(TachyonManifold::trace_rays_overlapping, (&b,), second),
    ensures
        first is Some <==> second is Some,
        first matches Some(m) ==> second matches Some(n) && m@ == n@,
{
    if let Some(m) = first {
        let n = second->0;
        assert forall|k: usize| m@.contains_key(k) implies m@[k] == n@[k] by {
            assert(amount(m@, k as int) == amount(n@, k as int));
        }
        assert(m@ =~= n@);
    }
}

/// The number of rays in all columns of `rays` together, or `None` if it is
/// too large for the machine.
pub fn total_rays(rays: &HashMap<usize, usize>) -> (out: Option<usize>)
    ensures
        out == if total(rays@) <= usize::MAX {
            Some(total(rays@) as usize)
        } else {
            None
        },
{
    let entries = entries_of(rays);
    let ghost n = usize::MAX + 1;
    let ghost mut done: Map<usize, usize> = Map::empty();
    let mut sum: usize = 0;
    let mut i: usize = 0;
    proof {
        lemma_sum_zero(|x: int| amount(done, x), n);
    }
    while i < entries.len()
        invariant
            i <= entries.len(),
            n == usize::MAX + 1,
            entries@.no_duplicates(),
            entries@.to_set() == rays@.kv_pairs(),
            done.submap_of(rays@),
            forall|j: int| 0 <= j < i ==> done.contains_key(#[trigger] entries[j].0),
            forall|j: int| i <= j < entries.len() ==> !done.contains_key(#[trigger] entries[j].0),
            sum == total(done),
        decreases entries.len() - i,
    {
        let (x, by) = entries[i];
        let ghost grown = done.insert(x, by);
        proof {
            assert(entries@.to_set().contains(entries[i as int]));
            assert(rays@.kv_pairs().contains((x, by)));
            assert(grown.submap_of(rays@));
            assert forall|j: int| i < j < entries.len() implies !grown.contains_key(
                #[trigger] entries[j].0,
            ) by {
                if entries[j].0 == x {
                    assert(entries@.to_set().contains(entries[j]));
                    assert(rays@.kv_pairs().contains(entries[j]));
                    assert(entries[j] == entries[i as int]);
                }
            }
            lemma_sum_differ_at(|c: int| amount(done, c), |c: int| amount(grown, c), x as int, n);
            assert(total(grown) == total(done) + by);
            lemma_total_monotone(grown, rays@);
        }
        match sum.checked_add(by) {
            Some(more) => {
                sum = more;
            },
            None => {
                return None;
            },
        }
        proof {
            done = grown;
        }
        i += 1;
    }
    proof {
        assert forall|k: usize| rays@.contains_key(k) implies done.contains_key(k) by {
            assert(rays@.kv_pairs().contains((k, rays@[k])));
            let j = choose|j: int| 0 <= j < entries.len() && entries[j] == (k, rays@[k]);
            assert(done.contains_key(entries[j].0));
        }
        assert(done =~= rays@);
    }
    Some(sum)
}

/// Fewer rays in each column, fewer rays in all.
pub proof fn lemma_total_monotone(few: Map<usize, usize>, many: Map<usize, usize>)
    requires
        few.submap_of(many),
    ensures
        total(few) <= total(many),
{
    assert forall|c: int| amount(few, c) <= amount(many, c) by {
        if 0 <= c <= usize::MAX && few.contains_key(c as usize) {
            assert(many.dom().contains(c as usize));
        }
    }
    lemma_sum_le(|c: int| amount(few, c), |c: int| amount(many, c), usize::MAX + 1);
}

impl TachyonManifold {
    /// Whether a splitter stands in column `x` of layer `y`; none stands
    /// outside the grid.
    pub fn splits_at(&self, x: usize, y: usize) -> (b: bool)
        requires
            self.wf(),
        ensures
            b == self@.splits(x as int, y as int),
    {
        proof {
            self.lemma_wf();
        }
        x < self.width() && y < self.depth() && self.is_splitter(x, y)
    }

    /// Moves the rays in the columns `rays` through layer `layer`. Returns
    /// the number of splitters that a ray met, and the columns in which rays
    /// leave the layer.
    pub fn perform_splits(&self, rays: HashSet<usize>, layer: usize) -> (out: (usize, HashSet<usize>))
        requires
            self.wf(),
        ensures
            out.0 == self@.hits(rays@, layer as int).len(),
            out.1@ == self@.step(rays@, layer as int),
            rays@.subset_of(below(self@.width)) ==> out.1@.subset_of(below(self@.width)),
    {
        let g = Ghost(self@);
        let y = Ghost(layer as int);
        proof {
            self.lemma_wf();
            g@.lemma_fits();
        }
        let columns = columns_of(&rays);
        let mut next: HashSet<usize> = HashSet::new();
        let mut splits: usize = 0;
        let mut i: usize = 0;
        assert(columns@.take(0).to_set() =~= Set::<usize>::empty());
        assert(g@.step(Set::<usize>::empty(), y@) =~= Set::<usize>::empty());
        assert(g@.hits(Set::<usize>::empty(), y@) =~= Set::<usize>::empty());
        while i < columns.len()
            invariant
                i <= columns.len(),
                self.wf(),
                g@ == self@,
                g@.wf(),
                g@.width <= usize::MAX,
                y@ == layer as int,
                columns@.no_duplicates(),
                next@ == g@.step(columns@.take(i as int).to_set(), y@),
                g@.hits(columns@.take(i as int).to_set(), y@).finite(),
                splits == g@.hits(columns@.take(i as int).to_set(), y@).len(),
                splits <= i,
            decreases columns.len() - i,
        {
            let x = columns[i];
            let ghost seen = columns@.take(i as int).to_set();
            let ghost now = columns@.take(i as int + 1).to_set();
            proof {
                assert(columns@.take(i as int + 1) =~= columns@.take(i as int).push(x));
                columns@.take(i as int).lemma_push_to_set_commute(x);
                assert(!seen.contains(x)) by {
                    if seen.contains(x) {
                        let j = choose|j: int| 0 <= j < i && columns@.take(i as int)[j] == x;
                        assert(columns@[j] == columns@[i as int]);
                    }
                }
            }
            if self.splits_at(x, layer) {
                next.insert(x - 1);
                next.insert(x + 1);
                splits += 1;
                proof {
                    assert(g@.hits(now, y@) =~= g@.hits(seen, y@).insert(x));
                }
            } else {
                next.insert(x);
                proof {
                    assert(g@.hits(now, y@) =~= g@.hits(seen, y@));
                }
            }
            proof {
                assert(next@ =~= g@.step(now, y@));
            }
            i += 1;
        }
        assert(columns@.take(columns.len() as int) =~= columns@);
        proof {
            if rays@.subset_of(below(g@.width)) {
                lemma_step_stays_inside(g@, rays@, y@);
            }
        }
        (splits, next)
    }

    /// Moves the rays that `rays` counts for each column through layer
    /// `layer`, and returns the number of rays that leave it in each column.
    /// Columns without a ray are left out. Returns `None` if one of the
    /// numbers is too large for the machine.
    pub fn perform_splits_overlapping(&self, rays: HashMap<usize, usize>, layer: usize) -> (out:
        Option<HashMap<usize, usize>>)
        requires
            self.wf(),
        ensures
            out is Some <==> self@.step_fits(rays@, layer as int),
            out matches Some(next) ==> {
                &&& next@.dom() == self@.step(rays@.dom(), layer as int)
                &&& forall|x: int| amount(next@, x) == self@.arriving(rays@, x, layer as int)
                &&& total(next@) == total(rays@) + self@.hit_amount(rays@, layer as int)
            },
    {
        let g = Ghost(self@);
        let y = Ghost(layer as int);
        proof {
            self.lemma_wf();
            g@.lemma_fits();
        }
        let entries = entries_of(&rays);
        let mut next: HashMap<usize, usize> = HashMap::new();
        let ghost mut done: Map<usize, usize> = Map::empty();
        let mut i: usize = 0;
        assert(next@.dom() =~= g@.step(done.dom(), y@));
        while i < entries.len()
            invariant
                i <= entries.len(),
                self.wf(),
                g@ == self@,
                g@.wf(),
                g@.width <= usize::MAX,
                y@ == layer as int,
                entries@.no_duplicates(),
                entries@.to_set() == rays@.kv_pairs(),
                done.submap_of(rays@),
                forall|j: int| 0 <= j < i ==> done.contains_key(#[trigger] entries[j].0),
                forall|j: int| i <= j < entries.len() ==> !done.contains_key(#[trigger] entries[j].0),
                next@.dom() == g@.step(done.dom(), y@),
                forall|x: int| amount(next@, x) == #[trigger] g@.arriving(done, x, y@),
            decreases entries.len() - i,
        {
            let (x, n) = entries[i];
            let ghost before = next@;
            let ghost grown = done.insert(x, n);
            proof {
                assert(entries@.to_set().contains(entries[i as int]));
                assert(rays@.kv_pairs().contains((x, n)));
                assert(grown.submap_of(rays@));
                assert forall|j: int| i < j < entries.len() implies !grown.contains_key(
                    #[trigger] entries[j].0,
                ) by {
                    if entries[j].0 == x {
                        assert(entries@.to_set().contains(entries[j]));
                        assert(rays@.kv_pairs().contains(entries[j]));
                        assert(entries[j] == entries[i as int]);
                    }
                }
            }
            if self.splits_at(x, layer) {
                let left_done = add_rays(&mut next, x - 1, n);
                if !left_done {
                    proof {
                        lemma_arriving_monotone(g@, grown, rays@, x - 1, y@);
                        lemma_one_more_column(g@, done, x, n, x - 1, y@);
                    }
                    return None;
                }
                let ghost half = next@;
                let right_done = add_rays(&mut next, x + 1, n);
                if !right_done {
                    proof {
                        lemma_arriving_monotone(g@, grown, rays@, x + 1, y@);
                        lemma_one_more_column(g@, done, x, n, x + 1, y@);
                    }
                    return None;
                }
                proof {
                    lemma_after_split(g@, done, x, n, y@, before, half, next@);
                }
            } else {
                let here_done = add_rays(&mut next, x, n);
                if !here_done {
                    proof {
                        lemma_arriving_monotone(g@, grown, rays@, x as int, y@);
                        lemma_one_more_column(g@, done, x, n, x as int, y@);
                    }
                    return None;
                }
                proof {
                    lemma_after_pass(g@, done, x, n, y@, before, next@);
                }
            }
            proof {
                done = grown;
            }
            i += 1;
        }
        proof {
            assert forall|k: usize| rays@.contains_key(k) implies done.contains_key(k) by {
                assert(rays@.kv_pairs().contains((k, rays@[k])));
                let j = choose|j: int| 0 <= j < entries.len() && entries[j] == (k, rays@[k]);
                assert(done.contains_key(entries[j].0));
            }
            assert(done =~= rays@);
            lemma_step_total(g@, rays@, y@);
            lemma_sum_agree(
                |x: int| amount(next@, x),
                |x: int| g@.arriving(rays@, x, y@),
                usize::MAX + 1,
            );
        }
        Some(next)
    }

    /// Lets one ray fall through all layers, rays that meet in a column
    /// counting as one. Returns the number of splitters that a ray met and
    /// the columns in which rays leave the last layer.
    pub fn trace_rays(&self) -> (out: (usize, HashSet<usize>))
        requires
            self.wf(),
        ensures
            out.0 == self@.split_total(self@.depth),
            out.1@ == self@.front(self@.depth),
            out.1@.subset_of(below(self@.width)),
    {
        let g = Ghost(self@);
        proof {
            self.lemma_wf();
            g@.lemma_fits();
        }
        let depth = self.depth();
        let mut splits: usize = 0;
        let mut rays: HashSet<usize> = HashSet::new();
        rays.insert(self.start_column());
        assert(rays@ =~= g@.front(0));
        let mut layer: usize = 0;
        while layer < depth
            invariant
                layer <= depth == g@.depth,
                self.wf(),
                g@ == self@,
                g@.wf(),
                rays@ == g@.front(layer as nat),
                splits == g@.split_total(layer as nat),
                splits <= layer * g@.width,
            decreases depth - layer,
        {
            proof {
                lemma_front_stays_inside(g@, layer as nat);
                lemma_hits_bound(g@, rays@, layer as int);
                assert((layer + 1) * g@.width <= g@.width * g@.depth) by (nonlinear_arith)
                    requires
                        layer + 1 <= g@.depth,
                ;
                assert((layer + 1) * g@.width == layer * g@.width + g@.width) by (nonlinear_arith);
            }
            let (new_splits, new_rays) = self.perform_splits(rays, layer);
            rays = new_rays;
            splits += new_splits;
            layer += 1;
        }
        proof {
            lemma_front_stays_inside(g@, g@.depth);
        }
        (splits, rays)
    }

    /// Lets one ray fall through all layers and counts, for each column, the
    /// ways in which a ray leaves the last layer there. Columns that no ray
    /// reaches are left out. Returns `None` if one of the numbers is too
    /// large for the machine.
    pub fn trace_rays_overlapping(&self) -> (out: Option<HashMap<usize, usize>>)
        requires
            self.wf(),
        ensures
            out is Some <==> self@.paths_fit(self@.depth),
            out matches Some(rays) ==> {
                &&& rays@.dom() == self@.front(self@.depth)
                &&& forall|x: int| amount(rays@, x) == self@.paths(self@.depth, x)
            },
    {
        let g = Ghost(self@);
        proof {
            self.lemma_wf();
            g@.lemma_fits();
        }
        let depth = self.depth();
        let mut rays: HashMap<usize, usize> = HashMap::new();
        rays.insert(self.start_column(), 1);
        assert(rays@.dom() =~= g@.front(0));
        let mut layer: usize = 0;
        while layer < depth
            invariant
                layer <= depth == g@.depth,
                self.wf(),
                g@ == self@,
                g@.wf(),
                rays@.dom() == g@.front(layer as nat),
                forall|x: int| amount(rays@, x) == #[trigger] g@.paths(layer as nat, x),
            decreases depth - layer,
        {
            let ghost before = rays@;
            proof {
                assert forall|x: int| #[trigger]
                    g@.arriving(before, x, layer as int) == g@.paths((layer + 1) as nat, x) by {
                    assert(amount(before, x) == g@.paths(layer as nat, x));
                    assert(amount(before, x - 1) == g@.paths(layer as nat, x - 1));
                    assert(amount(before, x + 1) == g@.paths(layer as nat, x + 1));
                }
            }
            match self.perform_splits_overlapping(rays, layer) {
                Some(next) => {
                    rays = next;
                },
                None => {
                    proof {
                        let x = choose|x: int| g@.arriving(before, x, layer as int) > usize::MAX;
                        let to = lemma_paths_persist(g@, (layer + 1) as nat, x, g@.depth);
                        assert(g@.paths(g@.depth, to) > usize::MAX);
                    }
                    return None;
                },
            }
            layer += 1;
        }
        Some(rays)
    }

    /// The number of ways in which a ray falls through all layers, or `None`
    /// if it is too large for the machine.
    pub fn count_paths(&self) -> (out: Option<usize>)
        requires
            self.wf(),
        ensures
            out == if self@.path_total(self@.depth) <= usize::MAX {
                Some(self@.path_total(self@.depth) as usize)
            } else {
                None
            },
    {
        let g = Ghost(self@);
        proof {
            self.lemma_wf();
            g@.lemma_fits();
        }
        let ghost ways = |x: int| g@.paths(g@.depth, x);
        match self.trace_rays_overlapping() {
            Some(rays) => {
                proof {
                    assert forall|x: int| g@.width <= x < usize::MAX + 1 implies #[trigger] ways(x)
                        == 0 by {
                        lemma_paths_inside(g@, g@.depth, x);
                    }
                    lemma_sum_zero_tail(ways, g@.width as int, usize::MAX + 1);
                    lemma_sum_agree(|x: int| amount(rays@, x), ways, usize::MAX + 1);
                }
                total_rays(&rays)
            },
            None => {
                proof {
                    let x = choose|x: int| g@.paths(g@.depth, x) > usize::MAX;
                    if x < 0 || x >= g@.width {
                        lemma_paths_inside(g@, g@.depth, x);
                    }
                    lemma_sum_term(ways, x, g@.width as int);
                }
                None
            },
        }
    }

    /// The number of splitters that a ray meets when one ray falls through
    /// all layers.
    pub fn count_splits(&self) -> (splits: usize)
        requires
            self.wf(),
        ensures
            splits == self@.split_total(self@.depth),
    {
        self.trace_rays().0
    }
}

} // verus!
