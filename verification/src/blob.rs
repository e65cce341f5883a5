//! Connected groups of cells in a grid.

use vstd::prelude::*;

verus! {

/// The position of a cell in a grid that is stored row by row.
pub open spec fn place(cols: int, c: int, r: int) -> int {
    r * cols + c
}

/// A flood on its way: the cells that are still to be looked at, which cells have
/// been seen, and the cells that were reached, in order.
pub struct Flood {
    pub stack: Seq<(usize, usize)>,
    pub seen: Seq<bool>,
    pub cells: Seq<(usize, usize)>,
}

/// Whether the flood can go to the cell at `i`.
pub open spec fn is_open(on: Seq<bool>, seen: Seq<bool>, i: int) -> bool {
    0 <= i < on.len() && i < seen.len() && on[i] && !seen[i]
}

/// The flood after it was offered a cell.
pub open spec fn offered(
    on: Seq<bool>,
    cols: int,
    rows: int,
    f: Flood,
    c: int,
    r: int,
) -> Flood {
    if 0 <= c < cols && 0 <= r < rows && is_open(on, f.seen, place(cols, c, r)) {
        Flood {
            stack: f.stack.push((c as usize, r as usize)),
            seen: f.seen.update(place(cols, c, r), true),
            cells: f.cells,
        }
    } else {
        f
    }
}

/// The flood after the last cell of the stack was reached: its neighbours to the
/// left and right, above and below are offered.
pub open spec fn stepped(on: Seq<bool>, cols: int, rows: int, f: Flood) -> Flood {
    let (c, r) = f.stack.last();
    let start = Flood { stack: f.stack.drop_last(), seen: f.seen, cells: f.cells.push((c, r)) };
    let left = offered(on, cols, rows, start, c - 1, r as int);
    let right = offered(on, cols, rows, left, c + 1, r as int);
    let above = offered(on, cols, rows, right, c as int, r - 1);
    offered(on, cols, rows, above, c as int, r + 1)
}

/// How many cells have not been seen.
pub open spec fn unseen(seen: Seq<bool>) -> nat
    decreases seen.len(),
{
    if seen.len() == 0 {
        0
    } else {
        unseen(seen.drop_last()) + if seen.last() {
            0nat
        } else {
            1nat
        }
    }
}

/// How much is left to do in a flood.
pub open spec fn effort(f: Flood) -> nat {
    2 * unseen(f.seen) + f.stack.len()
}

/// Seeing a cell makes one less unseen.
pub proof fn lemma_unseen(seen: Seq<bool>, i: int)
    requires
        0 <= i < seen.len(),
        !seen[i],
    ensures
        unseen(seen) == unseen(seen.update(i, true)) + 1,
    decreases seen.len(),
{
    let after = seen.update(i, true);
    if i == seen.len() - 1 {
        assert(after.drop_last() =~= seen.drop_last());
    } else {
        lemma_unseen(seen.drop_last(), i);
        assert(after.drop_last() =~= seen.drop_last().update(i, true));
    }
}

proof fn lemma_offer_effort(on: Seq<bool>, cols: int, rows: int, f: Flood, c: int, r: int)
    ensures
        effort(offered(on, cols, rows, f, c, r)) <= effort(f),
{
    if 0 <= c < cols && 0 <= r < rows && is_open(on, f.seen, place(cols, c, r)) {
        lemma_unseen(f.seen, place(cols, c, r));
    }
}

/// Every step brings the flood nearer to its end.
pub proof fn lemma_step_effort(on: Seq<bool>, cols: int, rows: int, f: Flood)
    requires
        f.stack.len() > 0,
    ensures
        effort(stepped(on, cols, rows, f)) < effort(f),
{
    let (c, r) = f.stack.last();
    let start = Flood { stack: f.stack.drop_last(), seen: f.seen, cells: f.cells.push((c, r)) };
    let left = offered(on, cols, rows, start, c - 1, r as int);
    let right = offered(on, cols, rows, left, c + 1, r as int);
    let above = offered(on, cols, rows, right, c as int, r - 1);
    lemma_offer_effort(on, cols, rows, start, c - 1, r as int);
    lemma_offer_effort(on, cols, rows, left, c + 1, r as int);
    lemma_offer_effort(on, cols, rows, right, c as int, r - 1);
    lemma_offer_effort(on, cols, rows, above, c as int, r + 1);
}

/// The flood at its end.
pub open spec fn flooded(on: Seq<bool>, cols: int, rows: int, f: Flood) -> Flood
    decreases effort(f),
{
    if f.stack.len() == 0 {
        f
    } else {
        proof {
            lemma_step_effort(on, cols, rows, f);
        }
        flooded(on, cols, rows, stepped(on, cols, rows, f))
    }
}

/// A flood that starts at the cell with position `i`.
pub open spec fn flood_at(cols: int, seen: Seq<bool>, i: int) -> Flood {
    Flood {
        stack: seq![((i % cols) as usize, (i / cols) as usize)],
        seen: seen.update(i, true),
        cells: Seq::empty(),
    }
}

/// What is known after the first cells were looked at: which cells were seen, and
/// the largest group so far, the first of several.
pub struct Scan {
    pub seen: Seq<bool>,
    pub best: Seq<(usize, usize)>,
}

/// The scan of the first `n` cells, row by row.
pub open spec fn scanned(on: Seq<bool>, cols: int, rows: int, n: int) -> Scan
    decreases n,
{
    if n <= 0 {
        Scan { seen: Seq::new(on.len(), |i: int| false), best: Seq::empty() }
    } else {
        let before = scanned(on, cols, rows, n - 1);
        if is_open(on, before.seen, n - 1) {
            let f = flooded(on, cols, rows, flood_at(cols, before.seen, n - 1));
            Scan {
                seen: f.seen,
                best: if f.cells.len() > before.best.len() {
                    f.cells
                } else {
                    before.best
                },
            }
        } else {
            before
        }
    }
}

/// The largest connected group of cells that are on, in the order in which a flood
/// reaches them; empty where no cell is on.
pub open spec fn blob_of(on: Seq<bool>, cols: int, rows: int) -> Seq<(usize, usize)> {
    scanned(on, cols, rows, on.len() as int).best
}

/// The position of a cell within the grid is in range.
pub proof fn lemma_place(cols: int, rows: int, c: int, r: int)
    requires
        0 <= c < cols,
        0 <= r < rows,
    ensures
        0 <= place(cols, c, r) < cols * rows,
        r * cols <= place(cols, c, r),
{
    assert(0 <= r * cols && r * cols + c < cols * rows) by (nonlinear_arith)
        requires
            0 <= c < cols,
            0 <= r < rows,
    ;
}

/// The cells of the stack lie in the grid.
spec fn in_grid(cells: Seq<(usize, usize)>, cols: usize, rows: usize) -> bool {
    forall|k: int|
        0 <= k < cells.len() ==> (#[trigger] cells[k]).0 < cols && cells[k].1 < rows
}

/// Offers a cell to the flood.
fn offer(
    on: &Vec<bool>,
    cols: usize,
    rows: usize,
    seen: &mut Vec<bool>,
    stack: &mut Vec<(usize, usize)>,
    c: usize,
    r: usize,
)
    requires
        c < cols,
        r < rows,
        on@.len() == cols * rows,
        old(seen)@.len() == on@.len(),
        in_grid(old(stack)@, cols, rows),
    ensures
        final(seen)@.len() == on@.len(),
        in_grid(final(stack)@, cols, rows),
        forall|cells: Seq<(usize, usize)>|
            #[trigger] offered(
                on@,
                cols as int,
                rows as int,
                (Flood { stack: old(stack)@, seen: old(seen)@, cells }),
                c as int,
                r as int,
            ) == (Flood { stack: final(stack)@, seen: final(seen)@, cells }),
{
    proof {
        lemma_place(cols as int, rows as int, c as int, r as int);
        assert(on.len() <= usize::MAX);
    }
    let i: usize = r * cols + c;
    if on[i] && !seen[i] {
        seen.set(i, true);
        stack.push((c, r));
    }
}

/// Lets a flood run to its end.
fn flood(on: &Vec<bool>, cols: usize, rows: usize, seen: &mut Vec<bool>, start: usize) -> (cells:
    Vec<(usize, usize)>)
    requires
        on@.len() == cols * rows,
        old(seen)@.len() == on@.len(),
        start < on@.len(),
    ensures
        final(seen)@.len() == on@.len(),
        ({
            let f = flooded(
                on@,
                cols as int,
                rows as int,
                flood_at(cols as int, old(seen)@, start as int),
            );
            f.seen == final(seen)@ && f.cells == cells@
        }),
{
    let ghost end = flooded(
        on@,
        cols as int,
        rows as int,
        flood_at(cols as int, seen@, start as int),
    );
    proof {
        let (a, n, m) = (start as int, cols as int, rows as int);
        if n == 0 {
            assert(n * m == 0) by (nonlinear_arith)
                requires
                    n == 0,
            ;
        }
        assert(0 <= a % n < n && 0 <= a / n < m) by (nonlinear_arith)
            requires
                n > 0,
                0 <= a < n * m,
        ;
    }
    let mut stack: Vec<(usize, usize)> = Vec::new();
    stack.push((start % cols, start / cols));
    seen.set(start, true);
    let mut cells: Vec<(usize, usize)> = Vec::new();
    assert(stack@ =~= seq![(start % cols, start / cols)]);
    while stack.len() > 0
        invariant
            on@.len() == cols * rows,
            seen@.len() == on@.len(),
            in_grid(stack@, cols, rows),
            end == flooded(
                on@,
                cols as int,
                rows as int,
                (Flood { stack: stack@, seen: seen@, cells: cells@ }),
            ),
        decreases effort((Flood { stack: stack@, seen: seen@, cells: cells@ })),
    {
        let ghost now = Flood { stack: stack@, seen: seen@, cells: cells@ };
        proof {
            lemma_step_effort(on@, cols as int, rows as int, now);
        }
        let (c, r) = match stack.pop() {
            Some(cell) => cell,
            None => (0, 0),
        };
        assert(now.stack.last() == (c, r));
        cells.push((c, r));
        if c > 0 {
            offer(on, cols, rows, seen, &mut stack, c - 1, r);
        }
        if c + 1 < cols {
            offer(on, cols, rows, seen, &mut stack, c + 1, r);
        }
        if r > 0 {
            offer(on, cols, rows, seen, &mut stack, c, r - 1);
        }
        if r + 1 < rows {
            offer(on, cols, rows, seen, &mut stack, c, r + 1);
        }
        assert(stepped(on@, cols as int, rows as int, now) == (Flood {
            stack: stack@,
            seen: seen@,
            cells: cells@,
        }));
    }
    cells
}

/// The largest group of cells that are on and connected by their sides, as columns
/// and rows; `None` where no cell is on.
pub fn largest_blob(on: &Vec<bool>, cols: usize, rows: usize) -> (r: Option<Vec<(usize, usize)>>)
    requires
        on@.len() == cols * rows,
    ensures
        match r {
            Some(cells) => cells@.len() > 0 && cells@ == blob_of(on@, cols as int, rows as int),
            None => blob_of(on@, cols as int, rows as int).len() == 0,
        },
{
    let mut seen: Vec<bool> = Vec::new();
    let mut i: usize = 0;
    while i < on.len()
        invariant
            i <= on.len(),
            seen@ == Seq::new(i as nat, |k: int| false),
        decreases on.len() - i,
    {
        seen.push(false);
        assert(seen@ =~= Seq::new((i + 1) as nat, |k: int| false));
        i += 1;
    }
    let mut best: Vec<(usize, usize)> = Vec::new();
    let mut i: usize = 0;
    while i < on.len()
        invariant
            i <= on.len(),
            on@.len() == cols * rows,
            seen@.len() == on@.len(),
            (Scan { seen: seen@, best: best@ }) == scanned(
                on@,
                cols as int,
                rows as int,
                i as int,
            ),
        decreases on.len() - i,
    {
        if on[i] && !seen[i] {
            let cells = flood(on, cols, rows, &mut seen, i);
            if cells.len() > best.len() {
                best = cells;
            }
        }
        i += 1;
    }
    if best.len() > 0 {
        Some(best)
    } else {
        None
    }
}

/// Two cells share a side.
pub open spec fn adjacent(a: (usize, usize), b: (usize, usize)) -> bool {
    ||| a.1 == b.1 && (a.0 == b.0 + 1 || b.0 == a.0 + 1)
    ||| a.0 == b.0 && (a.1 == b.1 + 1 || b.1 == a.1 + 1)
}

/// A cell of the grid that is on.
pub open spec fn is_lit(on: Seq<bool>, cols: int, rows: int, cell: (usize, usize)) -> bool {
    cell.0 < cols && cell.1 < rows && on[place(cols, cell.0 as int, cell.1 as int)]
}

/// The cell shares a side with one of the first `n` of `cells`.
pub open spec fn touches(cells: Seq<(usize, usize)>, n: int, cell: (usize, usize)) -> bool {
    exists|j: int| 0 <= j < n && #[trigger] adjacent(cells[j], cell)
}

/// Every cell but the first shares a side with one before it.
pub open spec fn is_connected(cells: Seq<(usize, usize)>) -> bool {
    forall|k: int| 0 < k < cells.len() ==> #[trigger] touches(cells, k, cells[k])
}

/// Different cells that are on and connected, and with which no other such cell
/// shares a side.
pub open spec fn is_group(
    on: Seq<bool>,
    cols: int,
    rows: int,
    cells: Seq<(usize, usize)>,
) -> bool {
    &&& cells.len() > 0
    &&& cells.no_duplicates()
    &&& forall|k: int| 0 <= k < cells.len() ==> is_lit(on, cols, rows, #[trigger] cells[k])
    &&& is_connected(cells)
    &&& forall|k: int, other: (usize, usize)|
        0 <= k < cells.len() && is_lit(on, cols, rows, other) && #[trigger] adjacent(
            cells[k],
            other,
        ) ==> cells.contains(other)
}

/// The cell was seen.
spec fn was_seen(seen: Seq<bool>, cols: int, cell: (usize, usize)) -> bool {
    seen[place(cols, cell.0 as int, cell.1 as int)]
}

/// The seen cells are on, and whatever is on and shares a side with one of them was
/// seen too.
spec fn is_closed(on: Seq<bool>, cols: int, rows: int, seen: Seq<bool>) -> bool {
    forall|a: (usize, usize), b: (usize, usize)|
        a.0 < cols && a.1 < rows && was_seen(seen, cols, a) && is_lit(on, cols, rows, b)
            && #[trigger] adjacent(a, b) ==> was_seen(seen, cols, b)
}

/// Different cells have different positions.
proof fn lemma_place_injective(cols: int, a: (usize, usize), b: (usize, usize))
    requires
        a.0 < cols,
        b.0 < cols,
        place(cols, a.0 as int, a.1 as int) == place(cols, b.0 as int, b.1 as int),
    ensures
        a == b,
{
    let (c, r, d, s) = (a.0 as int, a.1 as int, b.0 as int, b.1 as int);
    assert(r == s) by (nonlinear_arith)
        requires
            0 <= c < cols,
            0 <= d < cols,
            r * cols + c == s * cols + d,
    ;
}

/// What holds of a flood on its way. `before` tells which cells had been seen when
/// it started. Of the cells that were reached, all but the last `late` have had
/// their neighbours offered.
spec fn on_its_way(
    on: Seq<bool>,
    cols: int,
    rows: int,
    before: Seq<bool>,
    f: Flood,
    late: int,
) -> bool {
    &&& on.len() == cols * rows
    &&& before.len() == on.len()
    &&& f.seen.len() == on.len()
    &&& (f.cells + f.stack).no_duplicates()
    &&& forall|k: int|
        0 <= k < f.cells.len() ==> is_lit(on, cols, rows, #[trigger] f.cells[k]) && !was_seen(
            before,
            cols,
            f.cells[k],
        )
    &&& forall|k: int|
        0 <= k < f.stack.len() ==> is_lit(on, cols, rows, #[trigger] f.stack[k]) && !was_seen(
            before,
            cols,
            f.stack[k],
        )
    &&& forall|cell: (usize, usize)|
        cell.0 < cols && cell.1 < rows ==> (#[trigger] was_seen(f.seen, cols, cell) <==> was_seen(
            before,
            cols,
            cell,
        ) || f.cells.contains(cell) || f.stack.contains(cell))
    &&& is_connected(f.cells)
    &&& forall|k: int|
        0 <= k < f.stack.len() ==> (f.cells.len() == 0 && f.stack.len() == 1)
            || #[trigger] touches(f.cells, f.cells.len() as int, f.stack[k])
    &&& forall|k: int, other: (usize, usize)|
        0 <= k < f.cells.len() - late && is_lit(on, cols, rows, other) && #[trigger] adjacent(
            f.cells[k],
            other,
        ) ==> was_seen(f.seen, cols, other)
}

/// An offer keeps what holds, forgets nothing, and reaches its cell.
proof fn lemma_offer(
    on: Seq<bool>,
    cols: int,
    rows: int,
    before: Seq<bool>,
    f: Flood,
    c: int,
    r: int,
)
    requires
        on_its_way(on, cols, rows, before, f, 1),
        f.cells.len() > 0,
        0 <= c < cols && 0 <= r < rows ==> c <= usize::MAX && r <= usize::MAX && adjacent(
            f.cells.last(),
            (c as usize, r as usize),
        ),
    ensures
        ({
            let g = offered(on, cols, rows, f, c, r);
            &&& on_its_way(on, cols, rows, before, g, 1)
            &&& g.cells == f.cells
            &&& forall|cell: (usize, usize)|
                cell.0 < cols && cell.1 < rows && was_seen(f.seen, cols, cell)
                    ==> #[trigger] was_seen(g.seen, cols, cell)
            &&& 0 <= c < cols && 0 <= r < rows && on[place(cols, c, r)] ==> was_seen(
                g.seen,
                cols,
                (c as usize, r as usize),
            )
        }),
{
    let g = offered(on, cols, rows, f, c, r);
    if 0 <= c < cols && 0 <= r < rows {
        lemma_place(cols, rows, c, r);
        let i = place(cols, c, r);
        let cell = (c as usize, r as usize);
        if on[i] && !f.seen[i] {
            assert(!was_seen(f.seen, cols, cell));
            assert(!f.cells.contains(cell) && !f.stack.contains(cell));
            assert forall|other: (usize, usize)| other.0 < cols && other.1 < rows implies (
            #[trigger] was_seen(g.seen, cols, other) <==> was_seen(f.seen, cols, other) || other
                == cell) by {
                lemma_place(cols, rows, other.0 as int, other.1 as int);
                if place(cols, other.0 as int, other.1 as int) == i {
                    lemma_place_injective(cols, other, cell);
                }
            }
            assert((g.cells + g.stack).no_duplicates()) by {
                let p = f.cells + f.stack;
                let q = g.cells + g.stack;
                assert(q =~= p.push(cell));
                assert(!p.contains(cell)) by {
                    if p.contains(cell) {
                        let k = choose|k: int| 0 <= k < p.len() && p[k] == cell;
                        if k < f.cells.len() {
                            assert(f.cells[k] == cell);
                        } else {
                            assert(f.stack[k - f.cells.len()] == cell);
                        }
                    }
                }
            }
            assert forall|other: (usize, usize)| other.0 < cols && other.1 < rows implies (
            #[trigger] was_seen(g.seen, cols, other) <==> was_seen(before, cols, other)
                || g.cells.contains(other) || g.stack.contains(other)) by {
                assert(was_seen(f.seen, cols, other) <==> was_seen(before, cols, other)
                    || f.cells.contains(other) || f.stack.contains(other));
                if f.stack.contains(other) {
                    let k = choose|k: int| 0 <= k < f.stack.len() && f.stack[k] == other;
                    assert(g.stack[k] == other);
                }
                if other == cell {
                    assert(g.stack[g.stack.len() - 1] == cell);
                }
                if g.stack.contains(other) {
                    let k = choose|k: int| 0 <= k < g.stack.len() && g.stack[k] == other;
                    if k < f.stack.len() {
                        assert(f.stack[k] == other);
                    }
                }
            }
            assert forall|k: int| 0 <= k < g.stack.len() implies (g.cells.len() == 0
                && g.stack.len() == 1) || #[trigger] touches(
                g.cells,
                g.cells.len() as int,
                g.stack[k],
            ) by {
                if k < f.stack.len() {
                    assert(g.stack[k] == f.stack[k]);
                    assert(touches(f.cells, f.cells.len() as int, f.stack[k]));
                } else {
                    assert(adjacent(g.cells[g.cells.len() - 1], g.stack[k]));
                }
            }
            assert(on_its_way(on, cols, rows, before, g, 1));
        }
    }
}

/// Taking a cell from the stack keeps what holds, but for its own neighbours.
proof fn lemma_pop(on: Seq<bool>, cols: int, rows: int, before: Seq<bool>, f: Flood)
    requires
        on_its_way(on, cols, rows, before, f, 0),
        f.stack.len() > 0,
    ensures
        on_its_way(
            on,
            cols,
            rows,
            before,
            (Flood {
                stack: f.stack.drop_last(),
                seen: f.seen,
                cells: f.cells.push(f.stack.last()),
            }),
            1,
        ),
{
    let x = f.stack.last();
    let g = Flood { stack: f.stack.drop_last(), seen: f.seen, cells: f.cells.push(x) };
    let n = f.cells.len() as int;
    let p = f.cells + f.stack;
    let q = g.cells + g.stack;
    assert(f.stack[f.stack.len() - 1] == x);
    assert(q.no_duplicates()) by {
        assert forall|k: int, l: int| 0 <= k < q.len() && 0 <= l < q.len() && k != l implies q[k]
            != q[l] by {
            let k2 = if k < n {
                k
            } else if k == n {
                p.len() - 1
            } else {
                k - 1
            };
            let l2 = if l < n {
                l
            } else if l == n {
                p.len() - 1
            } else {
                l - 1
            };
            assert(q[k] == p[k2] && q[l] == p[l2]);
        }
    }
    assert forall|cell: (usize, usize)| cell.0 < cols && cell.1 < rows implies (#[trigger] was_seen(
        g.seen,
        cols,
        cell,
    ) <==> was_seen(before, cols, cell) || g.cells.contains(cell) || g.stack.contains(cell)) by {
        assert(was_seen(f.seen, cols, cell) <==> was_seen(before, cols, cell) || f.cells.contains(
            cell,
        ) || f.stack.contains(cell));
        if f.cells.contains(cell) {
            let k = choose|k: int| 0 <= k < f.cells.len() && f.cells[k] == cell;
            assert(g.cells[k] == cell);
        }
        if f.stack.contains(cell) {
            let k = choose|k: int| 0 <= k < f.stack.len() && f.stack[k] == cell;
            if k < g.stack.len() {
                assert(g.stack[k] == cell);
            } else {
                assert(g.cells[n] == cell);
            }
        }
        if g.cells.contains(cell) {
            let k = choose|k: int| 0 <= k < g.cells.len() && g.cells[k] == cell;
            if k < n {
                assert(f.cells[k] == cell);
            }
        }
        if g.stack.contains(cell) {
            let k = choose|k: int| 0 <= k < g.stack.len() && g.stack[k] == cell;
            assert(f.stack[k] == cell);
        }
    }
    assert(is_connected(g.cells)) by {
        assert forall|k: int| 0 < k < g.cells.len() implies #[trigger] touches(
            g.cells,
            k,
            g.cells[k],
        ) by {
            if k < n {
                assert(touches(f.cells, k, f.cells[k]));
                let j = choose|j: int| 0 <= j < k && #[trigger] adjacent(f.cells[j], f.cells[k]);
                assert(adjacent(g.cells[j], g.cells[k]));
            } else {
                assert(touches(f.cells, n, f.stack[f.stack.len() - 1]));
                let j = choose|j: int| 0 <= j < n && #[trigger] adjacent(f.cells[j], x);
                assert(adjacent(g.cells[j], g.cells[k]));
            }
        }
    }
    assert forall|k: int| 0 <= k < g.stack.len() implies #[trigger] touches(
        g.cells,
        g.cells.len() as int,
        g.stack[k],
    ) by {
        assert(g.stack[k] == f.stack[k]);
        assert(touches(f.cells, n, f.stack[k]));
        let j = choose|j: int| 0 <= j < n && #[trigger] adjacent(f.cells[j], f.stack[k]);
        assert(adjacent(g.cells[j], g.stack[k]));
    }
    assert forall|k: int, other: (usize, usize)|
        0 <= k < g.cells.len() - 1 && is_lit(on, cols, rows, other) && #[trigger] adjacent(
            g.cells[k],
            other,
        ) implies was_seen(g.seen, cols, other) by {
        assert(adjacent(f.cells[k], other));
    }
    assert forall|k: int| 0 <= k < g.cells.len() implies is_lit(
        on,
        cols,
        rows,
        #[trigger] g.cells[k],
    ) && !was_seen(before, cols, g.cells[k]) by {
        if k < n {
            assert(g.cells[k] == f.cells[k]);
        }
    }
    assert forall|k: int| 0 <= k < g.stack.len() implies is_lit(
        on,
        cols,
        rows,
        #[trigger] g.stack[k],
    ) && !was_seen(before, cols, g.stack[k]) by {
        assert(g.stack[k] == f.stack[k]);
    }
}

/// A step keeps what holds.
proof fn lemma_step(on: Seq<bool>, cols: int, rows: int, before: Seq<bool>, f: Flood)
    requires
        on_its_way(on, cols, rows, before, f, 0),
        f.stack.len() > 0,
        cols <= usize::MAX,
        rows <= usize::MAX,
    ensures
        on_its_way(on, cols, rows, before, stepped(on, cols, rows, f), 0),
        stepped(on, cols, rows, f).cells == f.cells.push(f.stack.last()),
{
    let (c, r) = f.stack.last();
    let start = Flood { stack: f.stack.drop_last(), seen: f.seen, cells: f.cells.push((c, r)) };
    let left = offered(on, cols, rows, start, c - 1, r as int);
    let right = offered(on, cols, rows, left, c + 1, r as int);
    let above = offered(on, cols, rows, right, c as int, r - 1);
    let below = offered(on, cols, rows, above, c as int, r + 1);
    lemma_pop(on, cols, rows, before, f);
    lemma_offer(on, cols, rows, before, start, c - 1, r as int);
    lemma_offer(on, cols, rows, before, left, c + 1, r as int);
    lemma_offer(on, cols, rows, before, right, c as int, r - 1);
    lemma_offer(on, cols, rows, before, above, c as int, r + 1);
    assert forall|k: int, other: (usize, usize)|
        0 <= k < below.cells.len() && is_lit(on, cols, rows, other) && #[trigger] adjacent(
            below.cells[k],
            other,
        ) implies was_seen(below.seen, cols, other) by {
        if k == below.cells.len() - 1 {
            if other.1 == r && other.0 == c - 1 {
                assert(was_seen(left.seen, cols, other));
                assert(was_seen(right.seen, cols, other));
                assert(was_seen(above.seen, cols, other));
            } else if other.1 == r && other.0 == c + 1 {
                assert(was_seen(right.seen, cols, other));
                assert(was_seen(above.seen, cols, other));
            } else if other.0 == c && other.1 == r - 1 {
                assert(was_seen(above.seen, cols, other));
            } else {
                assert(other.0 == c && other.1 == r + 1);
            }
        }
    }
}

/// A flood ends with a group, and with all that was seen being closed again.
proof fn lemma_flooded(on: Seq<bool>, cols: int, rows: int, before: Seq<bool>, f: Flood)
    requires
        on_its_way(on, cols, rows, before, f, 0),
        is_closed(on, cols, rows, before),
        f.cells.len() + f.stack.len() > 0,
        cols <= usize::MAX,
        rows <= usize::MAX,
    ensures
        ({
            let end = flooded(on, cols, rows, f);
            &&& is_group(on, cols, rows, end.cells)
            &&& is_closed(on, cols, rows, end.seen)
            &&& end.seen.len() == on.len()
            &&& forall|cell: (usize, usize)|
                cell.0 < cols && cell.1 < rows ==> (#[trigger] was_seen(end.seen, cols, cell)
                    <==> was_seen(before, cols, cell) || end.cells.contains(cell))
        }),
    decreases effort(f),
{
    if f.stack.len() > 0 {
        lemma_step(on, cols, rows, before, f);
        lemma_step_effort(on, cols, rows, f);
        lemma_flooded(on, cols, rows, before, stepped(on, cols, rows, f));
    } else {
        let cells = f.cells;
        assert(cells + f.stack =~= cells);
        assert forall|k: int, other: (usize, usize)|
            0 <= k < cells.len() && is_lit(on, cols, rows, other) && #[trigger] adjacent(
                cells[k],
                other,
            ) implies cells.contains(other) by {
            assert(was_seen(f.seen, cols, other));
            if was_seen(before, cols, other) {
                assert(adjacent(other, cells[k]));
                assert(was_seen(before, cols, cells[k]));
            }
        }
        assert forall|a: (usize, usize), b: (usize, usize)|
            a.0 < cols && a.1 < rows && was_seen(f.seen, cols, a) && is_lit(on, cols, rows, b)
                && #[trigger] adjacent(a, b) implies was_seen(f.seen, cols, b) by {
            if was_seen(before, cols, a) {
                assert(was_seen(before, cols, b));
            } else {
                let k = choose|k: int| 0 <= k < cells.len() && cells[k] == a;
                assert(adjacent(cells[k], b));
            }
        }
    }
}

/// A flood that starts at an open cell is on its way.
proof fn lemma_start(on: Seq<bool>, cols: int, rows: int, before: Seq<bool>, i: int)
    requires
        on.len() == cols * rows,
        before.len() == on.len(),
        is_open(on, before, i),
        0 <= cols <= usize::MAX,
        0 <= rows <= usize::MAX,
    ensures
        ({
            let cell = ((i % cols) as usize, (i / cols) as usize);
            &&& on_its_way(on, cols, rows, before, flood_at(cols, before, i), 0)
            &&& cell.0 < cols
            &&& cell.1 < rows
            &&& place(cols, cell.0 as int, cell.1 as int) == i
        }),
{
    if cols == 0 {
        assert(cols * rows == 0) by (nonlinear_arith)
            requires
                cols == 0,
        ;
    }
    assert(0 <= i % cols < cols && 0 <= i / cols < rows && (i / cols) * cols + i % cols == i)
        by (nonlinear_arith)
        requires
            cols > 0,
            0 <= i < cols * rows,
    ;
    let cell = ((i % cols) as usize, (i / cols) as usize);
    let f = flood_at(cols, before, i);
    assert(f.cells + f.stack =~= seq![cell]);
    assert forall|other: (usize, usize)| other.0 < cols && other.1 < rows implies (
    #[trigger] was_seen(f.seen, cols, other) <==> was_seen(before, cols, other)
        || f.cells.contains(other) || f.stack.contains(other)) by {
        lemma_place(cols, rows, other.0 as int, other.1 as int);
        if place(cols, other.0 as int, other.1 as int) == i {
            lemma_place_injective(cols, other, cell);
            assert(f.stack[0] == other);
        }
        if f.stack.contains(other) {
            assert(other == cell);
        }
    }
    assert(is_lit(on, cols, rows, f.stack[0]));
}

/// A group that has one of the cells of another lies within it.
proof fn lemma_group_within(
    on: Seq<bool>,
    cols: int,
    rows: int,
    group: Seq<(usize, usize)>,
    other: Seq<(usize, usize)>,
)
    requires
        is_group(on, cols, rows, group),
        is_group(on, cols, rows, other),
        group.contains(other[0]),
    ensures
        other.len() <= group.len(),
{
    assert forall|k: int| 0 <= k < other.len() implies group.contains(#[trigger] other[k]) by {
        lemma_cell_within(on, cols, rows, group, other, k);
    }
    group.unique_seq_to_set();
    other.unique_seq_to_set();
    assert(other.to_set().subset_of(group.to_set()));
    vstd::set_lib::lemma_len_subset(other.to_set(), group.to_set());
}

proof fn lemma_cell_within(
    on: Seq<bool>,
    cols: int,
    rows: int,
    group: Seq<(usize, usize)>,
    other: Seq<(usize, usize)>,
    k: int,
)
    requires
        is_group(on, cols, rows, group),
        is_group(on, cols, rows, other),
        group.contains(other[0]),
        0 <= k < other.len(),
    ensures
        group.contains(other[k]),
    decreases k,
{
    if k > 0 {
        assert(touches(other, k, other[k]));
        let j = choose|j: int| 0 <= j < k && #[trigger] adjacent(other[j], other[k]);
        lemma_cell_within(on, cols, rows, group, other, j);
        let i = choose|i: int| 0 <= i < group.len() && group[i] == other[j];
        assert(adjacent(group[i], other[k]));
    }
}

/// What holds of a scan: the seen cells are closed, every cell so far that is on was
/// seen, and the best group is at least as large as any that has a seen cell.
spec fn scan_holds(on: Seq<bool>, cols: int, rows: int, n: int) -> bool {
    let s = scanned(on, cols, rows, n);
    &&& s.seen.len() == on.len()
    &&& is_closed(on, cols, rows, s.seen)
    &&& forall|i: int| 0 <= i < n && #[trigger] on[i] ==> s.seen[i]
    &&& s.best.len() > 0 ==> is_group(on, cols, rows, s.best)
    &&& forall|group: Seq<(usize, usize)>|
        #[trigger] is_group(on, cols, rows, group) && was_seen(s.seen, cols, group[0])
            ==> group.len() <= s.best.len()
}

proof fn lemma_scan(on: Seq<bool>, cols: int, rows: int, n: int)
    requires
        on.len() == cols * rows,
        0 <= cols <= usize::MAX,
        0 <= rows <= usize::MAX,
        0 <= n <= on.len(),
    ensures
        scan_holds(on, cols, rows, n),
    decreases n,
{
    let s = scanned(on, cols, rows, n);
    if n == 0 {
        assert forall|a: (usize, usize)| a.0 < cols && a.1 < rows implies !#[trigger] was_seen(
            s.seen,
            cols,
            a,
        ) by {
            lemma_place(cols, rows, a.0 as int, a.1 as int);
        }
        assert forall|group: Seq<(usize, usize)>| #[trigger]
            is_group(on, cols, rows, group) && was_seen(
                s.seen,
                cols,
                group[0],
            ) implies group.len() <= s.best.len() by {
            assert(is_lit(on, cols, rows, group[0]));
        }
    } else {
        lemma_scan(on, cols, rows, n - 1);
        let before = scanned(on, cols, rows, n - 1);
        if is_open(on, before.seen, n - 1) {
            let start = flood_at(cols, before.seen, n - 1);
            lemma_start(on, cols, rows, before.seen, n - 1);
            lemma_flooded(on, cols, rows, before.seen, start);
            let end = flooded(on, cols, rows, start);
            assert forall|i: int| 0 <= i < n && #[trigger] on[i] implies s.seen[i] by {
                if before.seen[i] {
                    lemma_seen_stays(on, cols, rows, before.seen, end, i);
                } else {
                    assert(i == n - 1);
                    lemma_first_stays(on, cols, rows, start);
                    lemma_start(on, cols, rows, before.seen, i);
                }
            }
            assert forall|group: Seq<(usize, usize)>| #[trigger]
                is_group(on, cols, rows, group) && was_seen(
                    s.seen,
                    cols,
                    group[0],
                ) implies group.len() <= s.best.len() by {
                assert(is_lit(on, cols, rows, group[0]));
                if !was_seen(before.seen, cols, group[0]) {
                    lemma_group_within(on, cols, rows, end.cells, group);
                }
            }
        }
    }
}

/// What had been seen stays seen.
proof fn lemma_seen_stays(
    on: Seq<bool>,
    cols: int,
    rows: int,
    before: Seq<bool>,
    end: Flood,
    i: int,
)
    requires
        on.len() == cols * rows,
        0 <= cols <= usize::MAX,
        0 <= rows <= usize::MAX,
        0 <= i < on.len(),
        before[i],
        forall|cell: (usize, usize)|
            cell.0 < cols && cell.1 < rows ==> (#[trigger] was_seen(end.seen, cols, cell)
                <==> was_seen(before, cols, cell) || end.cells.contains(cell)),
    ensures
        end.seen[i],
{
    if cols == 0 {
        assert(cols * rows == 0) by (nonlinear_arith)
            requires
                cols == 0,
        ;
    }
    assert(0 <= i % cols < cols && 0 <= i / cols < rows && (i / cols) * cols + i % cols == i)
        by (nonlinear_arith)
        requires
            cols > 0,
            0 <= i < cols * rows,
    ;
    let cell = ((i % cols) as usize, (i / cols) as usize);
    assert(was_seen(before, cols, cell));
    assert(was_seen(end.seen, cols, cell));
}

/// A flood never makes a seen cell unseen.
proof fn lemma_first_stays(on: Seq<bool>, cols: int, rows: int, f: Flood)
    ensures
        forall|i: int|
            0 <= i < f.seen.len() && f.seen[i] ==> #[trigger] flooded(on, cols, rows, f).seen[i],
        flooded(on, cols, rows, f).seen.len() == f.seen.len(),
    decreases effort(f),
{
    if f.stack.len() > 0 {
        lemma_step_effort(on, cols, rows, f);
        lemma_first_stays(on, cols, rows, stepped(on, cols, rows, f));
    }
}

/// The largest blob is a group of connected cells that are on and that no other
/// such cell touches; no such group is larger; and there is one as soon as some
/// cell is on.
pub proof fn law_blob_is_the_largest_group(on: Seq<bool>, cols: int, rows: int)
    requires
        on.len() == cols * rows,
        0 <= cols <= usize::MAX,
        0 <= rows <= usize::MAX,
    ensures
        ({
            let blob = blob_of(on, cols, rows);
            &&& blob.len() > 0 <==> exists|i: int| 0 <= i < on.len() && #[trigger] on[i]
            &&& blob.len() > 0 ==> is_group(on, cols, rows, blob)
            &&& forall|group: Seq<(usize, usize)>|
                #[trigger] is_group(on, cols, rows, group) ==> group.len() <= blob.len()
        }),
{
    let n = on.len() as int;
    lemma_scan(on, cols, rows, n);
    let s = scanned(on, cols, rows, n);
    assert forall|group: Seq<(usize, usize)>| #[trigger]
        is_group(on, cols, rows, group) implies group.len() <= s.best.len() by {
        let cell = group[0];
        assert(is_lit(on, cols, rows, cell));
        lemma_place(cols, rows, cell.0 as int, cell.1 as int);
        assert(on[place(cols, cell.0 as int, cell.1 as int)]);
    }
    if s.best.len() > 0 {
        let cell = s.best[0];
        assert(is_lit(on, cols, rows, cell));
        lemma_place(cols, rows, cell.0 as int, cell.1 as int);
        assert(on[place(cols, cell.0 as int, cell.1 as int)]);
    }
    if exists|i: int| 0 <= i < on.len() && #[trigger] on[i] {
        let i = choose|i: int| 0 <= i < on.len() && #[trigger] on[i];
        lemma_some_blob(on, cols, rows, i, n);
    }
}

/// Where a cell is on, there is a group.
proof fn lemma_some_blob(on: Seq<bool>, cols: int, rows: int, i: int, n: int)
    requires
        on.len() == cols * rows,
        0 <= cols <= usize::MAX,
        0 <= rows <= usize::MAX,
        0 <= i < n <= on.len(),
        on[i],
    ensures
        scanned(on, cols, rows, n).best.len() > 0,
    decreases n,
{
    if n - 1 > i {
        lemma_some_blob(on, cols, rows, i, n - 1);
    } else {
        lemma_scan(on, cols, rows, i);
        let before = scanned(on, cols, rows, i);
        if is_open(on, before.seen, i) {
            lemma_start(on, cols, rows, before.seen, i);
            lemma_flooded(on, cols, rows, before.seen, flood_at(cols, before.seen, i));
        } else {
            lemma_seen_needs_best(on, cols, rows, i, i);
        }
    }
}

/// Nothing is seen before there is a group.
proof fn lemma_seen_needs_best(on: Seq<bool>, cols: int, rows: int, n: int, i: int)
    requires
        on.len() == cols * rows,
        0 <= cols <= usize::MAX,
        0 <= rows <= usize::MAX,
        0 <= n <= on.len(),
        0 <= i < on.len(),
        scanned(on, cols, rows, n).seen[i],
    ensures
        scanned(on, cols, rows, n).best.len() > 0,
    decreases n,
{
    if n > 0 {
        lemma_scan(on, cols, rows, n - 1);
        let before = scanned(on, cols, rows, n - 1);
        if is_open(on, before.seen, n - 1) {
            lemma_start(on, cols, rows, before.seen, n - 1);
            lemma_flooded(on, cols, rows, before.seen, flood_at(cols, before.seen, n - 1));
        } else {
            lemma_seen_needs_best(on, cols, rows, n - 1, i);
        }
    }
}

/// A flood lists the cell first that it starts at.
proof fn lemma_flood_first(on: Seq<bool>, cols: int, rows: int, f: Flood)
    requires
        f.cells.len() + f.stack.len() > 0,
    ensures
        flooded(on, cols, rows, f).cells.len() > 0,
        flooded(on, cols, rows, f).cells[0] == if f.cells.len() > 0 {
            f.cells[0]
        } else {
            f.stack.last()
        },
    decreases effort(f),
{
    if f.stack.len() > 0 {
        lemma_step_effort(on, cols, rows, f);
        lemma_flood_first(on, cols, rows, stepped(on, cols, rows, f));
    }
}

proof fn lemma_first_best(on: Seq<bool>, cols: int, rows: int, n: int)
    requires
        on.len() == cols * rows,
        0 <= cols <= usize::MAX,
        0 <= rows <= usize::MAX,
        0 <= n <= on.len(),
    ensures
        ({
            let best = scanned(on, cols, rows, n).best;
            best.len() > 0 ==> forall|group: Seq<(usize, usize)>| #[trigger]
                is_group(on, cols, rows, group) && place(
                    cols,
                    group[0].0 as int,
                    group[0].1 as int,
                ) < place(cols, best[0].0 as int, best[0].1 as int) ==> group.len() < best.len()
        }),
    decreases n,
{
    if n > 0 {
        lemma_first_best(on, cols, rows, n - 1);
        lemma_scan(on, cols, rows, n - 1);
        let before = scanned(on, cols, rows, n - 1);
        if is_open(on, before.seen, n - 1) {
            let start = flood_at(cols, before.seen, n - 1);
            lemma_start(on, cols, rows, before.seen, n - 1);
            lemma_flood_first(on, cols, rows, start);
            let end = flooded(on, cols, rows, start);
            if end.cells.len() > before.best.len() {
                assert forall|group: Seq<(usize, usize)>| #[trigger]
                    is_group(on, cols, rows, group) && place(
                        cols,
                        group[0].0 as int,
                        group[0].1 as int,
                    ) < place(
                        cols,
                        end.cells[0].0 as int,
                        end.cells[0].1 as int,
                    ) implies group.len() < end.cells.len() by {
                    let cell = group[0];
                    assert(is_lit(on, cols, rows, cell));
                    lemma_place(cols, rows, cell.0 as int, cell.1 as int);
                    let i = place(cols, cell.0 as int, cell.1 as int);
                    assert(on[i]);
                    assert(was_seen(before.seen, cols, cell));
                }
            }
        }
    }
}

/// Of several largest groups the blob is the first one: no other one has a cell before the
/// first cell of the blob, row by row.
pub proof fn law_first_of_the_largest_groups_counts(
    on: Seq<bool>,
    cols: int,
    rows: int,
    group: Seq<(usize, usize)>,
)
    requires
        on.len() == cols * rows,
        0 <= cols <= usize::MAX,
        0 <= rows <= usize::MAX,
        is_group(on, cols, rows, group),
        group.len() == blob_of(on, cols, rows).len(),
    ensures
        group[0].1 * cols + group[0].0 >= blob_of(on, cols, rows)[0].1 * cols + blob_of(
            on,
            cols,
            rows,
        )[0].0,
{
    lemma_first_best(on, cols, rows, on.len() as int);
}

/// Two cells are adjacent exactly where one is a single step to the left or right of the
/// other, or a single step above or below it.
pub proof fn law_adjacent_cells_share_a_side(a: (usize, usize), b: (usize, usize))
    ensures
        adjacent(a, b) <==> {
            let across = if a.0 >= b.0 {
                a.0 - b.0
            } else {
                b.0 - a.0
            };
            let down = if a.1 >= b.1 {
                a.1 - b.1
            } else {
                b.1 - a.1
            };
            across + down == 1
        },
{
}

} // verus!
