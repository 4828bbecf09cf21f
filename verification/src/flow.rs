//! Flow-path accumulation: every cell of a destination grid that holds a
//! positive value and a live backlink starts a directional walk through the
//! backlink grid, and the output counts how many walks passed through each
//! cell.

use vstd::prelude::*;

verus! {

use vstd::arithmetic::div_mod::lemma_fundamental_div_mod;
use vstd::arithmetic::div_mod::lemma_fundamental_div_mod_converse;
use vstd::arithmetic::div_mod::lemma_mod_bound;
use vstd::arithmetic::div_mod::lemma_div_pos_is_pos;
use crate::grid::Grid;
use crate::grid::bumped;
use crate::grid::lemma_index_bound;
use crate::grid::lemma_index_injective;
use crate::direction::delta_col;
use crate::direction::delta_row;
use crate::direction::spec_decode;
use crate::direction::decode;
use crate::direction::offset;

/// Errors of the accumulation kernel.
#[derive(Clone, Copy, PartialEq, Eq, Structural, Debug)]
pub enum FlowError {
    /// The destination and backlink grids differ in shape.
    ShapeMismatch,
    /// Some walk revisited a cell: the backlink grid holds a direction cycle.
    CycleDetected,
}

/// The cell a walk standing at `(r, c)` moves to next: the decoded direction
/// of the backlink cell, or `None` when the cell is nodata, holds no
/// direction code, or the step would leave the grid.
pub open spec fn walk_next(bl: Grid, r: int, c: int) -> Option<(int, int)> {
    match bl.cell(r, c) {
        None => None,
        Some(code) => match spec_decode(code) {
            None => None,
            Some(d) => {
                let r2 = r + delta_row(d);
                let c2 = c + delta_col(d);
                if bl.in_bounds(r2, c2) {
                    Some((r2, c2))
                } else {
                    None
                }
            },
        },
    }
}

/// The cells a walk starting at `(r, c)` visits, in order, following at most
/// `fuel` backlinks.
pub open spec fn walk_seq(bl: Grid, r: int, c: int, fuel: nat) -> Seq<(int, int)>
    decreases fuel,
{
    if fuel == 0 {
        Seq::empty()
    } else {
        match walk_next(bl, r, c) {
            None => seq![(r, c)],
            Some(p) => seq![(r, c)] + walk_seq(bl, p.0, p.1, (fuel - 1) as nat),
        }
    }
}

/// The walk starting at `(r, c)` reaches a terminal cell within `fuel`
/// visits.
pub open spec fn walk_complete(bl: Grid, r: int, c: int, fuel: nat) -> bool
    decreases fuel,
{
    fuel > 0 && match walk_next(bl, r, c) {
        None => true,
        Some(p) => walk_complete(bl, p.0, p.1, (fuel - 1) as nat),
    }
}

/// A walk starts at `(r, c)`: the destination cell holds a positive value
/// and the backlink cell is not nodata.
pub open spec fn is_origin(dest: Grid, bl: Grid, r: int, c: int) -> bool {
    match dest.cell(r, c) {
        Some(v) => v > 0 && bl.cell(r, c) is Some,
        None => false,
    }
}

/// One visit: the visited cell is incremented by one, with nodata counting
/// as zero.
pub open spec fn apply_visit(cells: Seq<Option<int>>, columns: int, p: (int, int)) -> Seq<
    Option<int>,
> {
    cells.update(p.0 * columns + p.1, bumped(cells[p.0 * columns + p.1], 1))
}

/// The cell matrix after a whole walk visited `path` in order.
pub open spec fn apply_walk(cells: Seq<Option<int>>, columns: int, path: Seq<(int, int)>) -> Seq<
    Option<int>,
>
    decreases path.len(),
{
    if path.len() == 0 {
        cells
    } else {
        apply_walk(apply_visit(cells, columns, path[0]), columns, path.drop_first())
    }
}

/// An all-nodata cell matrix of `n` cells.
pub open spec fn nodata_cells(n: nat) -> Seq<Option<int>> {
    Seq::new(n, |i: int| None)
}

/// The cell matrix after the walks of the first `k` cells in row-major
/// order have been accumulated; every walk is followed for at most
/// `rows * columns` visits.
pub open spec fn accum_upto(dest: Grid, bl: Grid, k: nat) -> Seq<Option<int>>
    decreases k,
{
    if k == 0 {
        nodata_cells((dest.rows * dest.columns) as nat)
    } else {
        let prev = accum_upto(dest, bl, (k - 1) as nat);
        let r = ((k - 1) as int) / (dest.columns as int);
        let c = ((k - 1) as int) % (dest.columns as int);
        if is_origin(dest, bl, r, c) {
            apply_walk(
                prev,
                dest.columns as int,
                walk_seq(bl, r, c, (dest.rows * dest.columns) as nat),
            )
        } else {
            prev
        }
    }
}

/// The cell matrix of the finished accumulation.
pub open spec fn accumulation_cells(dest: Grid, bl: Grid) -> Seq<Option<int>> {
    accum_upto(dest, bl, (dest.rows * dest.columns) as nat)
}

/// Every walk that the destination grid starts terminates within
/// `rows * columns` visits.
pub open spec fn flow_complete(dest: Grid, bl: Grid) -> bool {
    forall|r: int, c: int|
        bl.in_bounds(r, c) && #[trigger] is_origin(dest, bl, r, c) ==> walk_complete(
            bl,
            r,
            c,
            (bl.rows * bl.columns) as nat,
        )
}

/// How often position `p` occurs in `path`.
pub open spec fn occurrences(path: Seq<(int, int)>, p: (int, int)) -> nat
    decreases path.len(),
{
    if path.len() == 0 {
        0
    } else {
        (if path[0] == p {
            1nat
        } else {
            0nat
        }) + occurrences(path.drop_first(), p)
    }
}

/// How often the walks of the first `k` cells in row-major order pass
/// through position `p` in total.
pub open spec fn visit_total(dest: Grid, bl: Grid, k: nat, p: (int, int)) -> nat
    decreases k,
{
    if k == 0 {
        0
    } else {
        let r = ((k - 1) as int) / (dest.columns as int);
        let c = ((k - 1) as int) % (dest.columns as int);
        visit_total(dest, bl, (k - 1) as nat, p) + (if is_origin(dest, bl, r, c) {
            occurrences(walk_seq(bl, r, c, (dest.rows * dest.columns) as nat), p)
        } else {
            0nat
        })
    }
}

/// What the accumulation output holds at `(r, c)`: nodata where no walk
/// passed, else the number of walks that passed through the cell.
pub open spec fn counted_cell(dest: Grid, bl: Grid, r: int, c: int) -> Option<int> {
    let t = visit_total(dest, bl, (dest.rows * dest.columns) as nat, (r, c));
    if t == 0 {
        None
    } else {
        Some(t as int)
    }
}

/// A position lies within a `rows` by `columns` grid.
pub open spec fn pos_in(p: (int, int), rows: int, columns: int) -> bool {
    0 <= p.0 < rows && 0 <= p.1 < columns
}

/// Every position of `path` lies within a `rows` by `columns` grid.
pub open spec fn path_in(path: Seq<(int, int)>, rows: int, columns: int) -> bool {
    forall|i: int| 0 <= i < path.len() ==> pos_in(#[trigger] path[i], rows, columns)
}

/// Every cell value of `cells` is at most `b`.
pub open spec fn counts_le(cells: Seq<Option<int>>, b: int) -> bool {
    forall|i: int|
        0 <= i < cells.len() ==> match #[trigger] cells[i] {
            Some(v) => v <= b,
            None => true,
        }
}

/// `cur` after `occ` more visits, with nodata counting as zero.
pub open spec fn combine(cur: Option<int>, occ: int) -> Option<int> {
    if occ == 0 {
        cur
    } else {
        match cur {
            None => Some(occ),
            Some(v) => Some(v + occ),
        }
    }
}

proof fn lemma_walk_seq_in_bounds(bl: Grid, r: int, c: int, fuel: nat)
    requires
        bl.in_bounds(r, c),
    ensures
        path_in(walk_seq(bl, r, c, fuel), bl.rows as int, bl.columns as int),
    decreases fuel,
{
    if fuel > 0 {
        match walk_next(bl, r, c) {
            None => {},
            Some(p) => {
                lemma_walk_seq_in_bounds(bl, p.0, p.1, (fuel - 1) as nat);
            },
        }
    }
}

proof fn lemma_walk_seq_len(bl: Grid, r: int, c: int, fuel: nat)
    ensures
        walk_seq(bl, r, c, fuel).len() <= if fuel == 0 {
            0int
        } else {
            fuel as int
        },
        fuel > 0 ==> walk_seq(bl, r, c, fuel).len() >= 1,
    decreases fuel,
{
    if fuel > 0 {
        match walk_next(bl, r, c) {
            None => {},
            Some(p) => {
                lemma_walk_seq_len(bl, p.0, p.1, (fuel - 1) as nat);
            },
        }
    }
}

proof fn lemma_path_in_drop_first(path: Seq<(int, int)>, rows: int, columns: int)
    requires
        path_in(path, rows, columns),
        path.len() > 0,
    ensures
        path_in(path.drop_first(), rows, columns),
{
    assert forall|i: int| 0 <= i < path.drop_first().len() implies pos_in(
        #[trigger] path.drop_first()[i],
        rows,
        columns,
    ) by {
        assert(path.drop_first()[i] == path[i + 1]);
    }
}

proof fn lemma_apply_walk_len(
    cells: Seq<Option<int>>,
    rows: int,
    columns: int,
    path: Seq<(int, int)>,
)
    requires
        cells.len() == rows * columns,
        path_in(path, rows, columns),
    ensures
        apply_walk(cells, columns, path).len() == cells.len(),
    decreases path.len(),
{
    if path.len() > 0 {
        let q = path[0];
        assert(pos_in(q, rows, columns));
        lemma_index_bound(q.0, q.1, rows, columns);
        lemma_path_in_drop_first(path, rows, columns);
        lemma_apply_walk_len(apply_visit(cells, columns, q), rows, columns, path.drop_first());
    }
}

proof fn lemma_apply_walk_push(
    cells: Seq<Option<int>>,
    columns: int,
    path: Seq<(int, int)>,
    p: (int, int),
)
    ensures
        apply_walk(cells, columns, path.push(p)) == apply_visit(
            apply_walk(cells, columns, path),
            columns,
            p,
        ),
    decreases path.len(),
{
    let grown = path.push(p);
    if path.len() == 0 {
        assert(grown[0] == p);
        assert(grown.drop_first() =~= Seq::<(int, int)>::empty());
        assert(apply_walk(cells, columns, grown) == apply_walk(
            apply_visit(cells, columns, p),
            columns,
            grown.drop_first(),
        ));
        assert(apply_walk(apply_visit(cells, columns, p), columns, Seq::<(int, int)>::empty())
            == apply_visit(cells, columns, p));
        assert(apply_walk(cells, columns, path) == cells);
    } else {
        let stepped = apply_visit(cells, columns, path[0]);
        assert(grown[0] == path[0]);
        assert(grown.drop_first() =~= path.drop_first().push(p));
        assert(apply_walk(cells, columns, grown) == apply_walk(
            stepped,
            columns,
            path.drop_first().push(p),
        ));
        lemma_apply_walk_push(stepped, columns, path.drop_first(), p);
        assert(apply_walk(cells, columns, path) == apply_walk(stepped, columns, path.drop_first()));
    }
}

proof fn lemma_apply_walk_at(
    cells: Seq<Option<int>>,
    rows: int,
    columns: int,
    path: Seq<(int, int)>,
    p: (int, int),
)
    requires
        cells.len() == rows * columns,
        path_in(path, rows, columns),
        pos_in(p, rows, columns),
    ensures
        apply_walk(cells, columns, path)[p.0 * columns + p.1] == combine(
            cells[p.0 * columns + p.1],
            occurrences(path, p) as int,
        ),
    decreases path.len(),
{
    lemma_index_bound(p.0, p.1, rows, columns);
    if path.len() == 0 {
    } else {
        let q = path[0];
        assert(pos_in(q, rows, columns));
        lemma_index_bound(q.0, q.1, rows, columns);
        let stepped = apply_visit(cells, columns, q);
        lemma_path_in_drop_first(path, rows, columns);
        lemma_apply_walk_at(stepped, rows, columns, path.drop_first(), p);
        if q != p {
            if q.0 * columns + q.1 == p.0 * columns + p.1 {
                lemma_index_injective(q.0, q.1, p.0, p.1, columns);
                assert(false);
            }
        }
    }
}

proof fn lemma_accum_len(dest: Grid, bl: Grid, k: nat)
    requires
        dest.rows == bl.rows,
        dest.columns == bl.columns,
        k <= dest.rows * dest.columns,
    ensures
        accum_upto(dest, bl, k).len() == dest.rows * dest.columns,
    decreases k,
{
    if k > 0 {
        lemma_accum_len(dest, bl, (k - 1) as nat);
        let rows = dest.rows as int;
        let cols = dest.columns as int;
        assert(cols >= 1) by (nonlinear_arith)
            requires
                k >= 1,
                k <= rows * cols,
                rows >= 0,
                cols >= 0,
        ;
        lemma_div_mod_in_bounds(k as int - 1, rows, cols);
        let r = ((k - 1) as int) / cols;
        let c = ((k - 1) as int) % cols;
        if is_origin(dest, bl, r, c) {
            lemma_walk_seq_in_bounds(bl, r, c, (dest.rows * dest.columns) as nat);
            lemma_apply_walk_len(
                accum_upto(dest, bl, (k - 1) as nat),
                rows,
                cols,
                walk_seq(bl, r, c, (dest.rows * dest.columns) as nat),
            );
        }
    }
}

/// Row-major division of an index below `rows * cols` yields in-range
/// coordinates.
proof fn lemma_div_mod_in_bounds(k: int, rows: int, cols: int)
    requires
        0 <= k < rows * cols,
        cols >= 1,
    ensures
        0 <= k / cols < rows,
        0 <= k % cols < cols,
        (k / cols) * cols + (k % cols) == k,
    decreases 0int,
{
    lemma_fundamental_div_mod(k, cols);
    lemma_mod_bound(k, cols);
    lemma_div_pos_is_pos(k, cols);
    let q = k / cols;
    let m = k % cols;
    assert(q < rows) by (nonlinear_arith)
        requires
            k == cols * q + m,
            0 <= m,
            k < rows * cols,
            cols >= 1,
            q >= 0,
    ;
    assert(q * cols + m == k) by (nonlinear_arith)
        requires
            k == cols * q + m,
    ;
}

proof fn lemma_accum_at(dest: Grid, bl: Grid, k: nat, p: (int, int))
    requires
        dest.rows == bl.rows,
        dest.columns == bl.columns,
        pos_in(p, dest.rows as int, dest.columns as int),
        k <= dest.rows * dest.columns,
    ensures
        accum_upto(dest, bl, k)[p.0 * dest.columns + p.1] == (if visit_total(dest, bl, k, p) == 0 {
            None::<int>
        } else {
            Some(visit_total(dest, bl, k, p) as int)
        }),
    decreases k,
{
    let rows = dest.rows as int;
    let cols = dest.columns as int;
    lemma_index_bound(p.0, p.1, rows, cols);
    if k == 0 {
    } else {
        lemma_accum_at(dest, bl, (k - 1) as nat, p);
        lemma_accum_len(dest, bl, (k - 1) as nat);
        lemma_div_mod_in_bounds(k as int - 1, rows, cols);
        let r = ((k - 1) as int) / cols;
        let c = ((k - 1) as int) % cols;
        if is_origin(dest, bl, r, c) {
            let path = walk_seq(bl, r, c, (dest.rows * dest.columns) as nat);
            lemma_walk_seq_in_bounds(bl, r, c, (dest.rows * dest.columns) as nat);
            assert(bl.rows as int == rows && bl.columns as int == cols);
            lemma_apply_walk_at(accum_upto(dest, bl, (k - 1) as nat), rows, cols, path, p);
        }
    }
}

proof fn lemma_walk_incomplete_len(bl: Grid, r: int, c: int, fuel: nat)
    requires
        !walk_complete(bl, r, c, fuel),
    ensures
        walk_seq(bl, r, c, (fuel + 1) as nat).len() >= fuel + 1,
    decreases fuel,
{
    lemma_walk_seq_len(bl, r, c, (fuel + 1) as nat);
    if fuel > 0 {
        match walk_next(bl, r, c) {
            None => {
                assert(walk_complete(bl, r, c, fuel));
            },
            Some(p) => {
                lemma_walk_incomplete_len(bl, p.0, p.1, (fuel - 1) as nat);
            },
        }
    }
}

/// Law of termination: a walk that revisits no cell within the first
/// `rows * columns + 1` visits reaches a terminal cell in at most
/// `rows * columns` visits. A backlink grid without direction cycles
/// therefore never trips the cycle guard of [`accumulate`].
pub proof fn lemma_acyclic_walk_terminates(bl: Grid, r: int, c: int)
    requires
        bl.in_bounds(r, c),
        walk_seq(bl, r, c, (bl.rows * bl.columns + 1) as nat).no_duplicates(),
    ensures
        walk_complete(bl, r, c, (bl.rows * bl.columns) as nat),
{
    let rows = bl.rows as int;
    let cols = bl.columns as int;
    let n = rows * cols;
    let s = walk_seq(bl, r, c, (n + 1) as nat);
    if !walk_complete(bl, r, c, n as nat) {
        lemma_walk_incomplete_len(bl, r, c, n as nat);
        assert(s.len() >= n + 1);
        lemma_walk_seq_in_bounds(bl, r, c, (n + 1) as nat);
        let t = s.map_values(|p: (int, int)| p.0 * cols + p.1);
        assert(t.no_duplicates()) by {
            assert forall|i: int, j: int|
                0 <= i < t.len() && 0 <= j < t.len() && i != j implies t[i] != t[j] by {
                assert(pos_in(s[i], rows, cols));
                assert(pos_in(s[j], rows, cols));
                assert(s[i] != s[j]);
                if s[i].0 * cols + s[i].1 == s[j].0 * cols + s[j].1 {
                    lemma_index_injective(s[i].0, s[i].1, s[j].0, s[j].1, cols);
                }
            }
        }
        assert(t.to_set().subset_of(vstd::set_lib::set_int_range(0, n))) by {
            assert forall|v: int| t.to_set().contains(v) implies 0 <= v < n by {
                let i = choose|i: int| 0 <= i < t.len() && t[i] == v;
                assert(pos_in(s[i], rows, cols));
                lemma_index_bound(s[i].0, s[i].1, rows, cols);
            }
        }
        t.unique_seq_to_set();
        vstd::set_lib::lemma_int_range(0, n);
        vstd::set_lib::lemma_len_subset(t.to_set(), vstd::set_lib::set_int_range(0, n));
        assert(t.len() <= n);
        assert(false);
    }
}

/// Runs one walk from `(r0, c0)`, incrementing every visited cell of `out`.
/// Returns whether the walk reached a terminal cell within
/// `rows * columns` visits; a `false` return means the backlink grid holds
/// a cycle on this walk's path.
fn run_walk(out: &mut Grid, backlink: &Grid, r0: usize, c0: usize, bound: Ghost<int>) -> (ok: bool)
    requires
        backlink.wf(),
        old(out).wf(),
        old(out).rows == backlink.rows,
        old(out).columns == backlink.columns,
        backlink.in_bounds(r0 as int, c0 as int),
        counts_le(old(out).data(), bound@),
        bound@ >= 0,
        bound@ + backlink.rows * backlink.columns <= i64::MAX,
    ensures
        final(out).wf(),
        final(out).same_frame(*old(out)),
        counts_le(final(out).data(), bound@ + backlink.rows * backlink.columns),
        ok <==> walk_complete(
            *backlink,
            r0 as int,
            c0 as int,
            (backlink.rows * backlink.columns) as nat,
        ),
        ok ==> final(out).data() == apply_walk(
            old(out).data(),
            backlink.columns as int,
            walk_seq(*backlink, r0 as int, c0 as int, (backlink.rows * backlink.columns) as nat),
        ),
{
    let rows = backlink.rows;
    let columns = backlink.columns;
    let n = backlink.cells.len();
    proof {
        assert(rows * columns >= rows && rows * columns >= columns) by (nonlinear_arith)
            requires
                rows >= 1,
                columns >= 1,
        ;
    }
    let ghost gn = (rows * columns) as nat;
    let ghost base = out.data();
    let ghost full = walk_seq(*backlink, r0 as int, c0 as int, gn);
    let mut y = r0;
    let mut x = c0;
    let mut steps: usize = 0;
    let mut ok = true;
    proof {
        assert(full.take(0) =~= Seq::<(int, int)>::empty());
        assert(full =~= full.take(0) + walk_seq(*backlink, r0 as int, c0 as int, gn));
        assert(apply_walk(base, columns as int, full.take(0)) == base);
    }
    loop
        invariant_except_break
            steps < n,
            backlink.in_bounds(y as int, x as int),
            full.len() == steps + walk_seq(*backlink, y as int, x as int, (gn - steps) as nat).len(),
            full == full.take(steps as int) + walk_seq(
                *backlink,
                y as int,
                x as int,
                (gn - steps) as nat,
            ),
            walk_complete(*backlink, r0 as int, c0 as int, gn) == walk_complete(
                *backlink,
                y as int,
                x as int,
                (gn - steps) as nat,
            ),
            out.data() == apply_walk(base, columns as int, full.take(steps as int)),
            ok,
        invariant
            backlink.wf(),
            out.wf(),
            out.rows == rows,
            out.columns == columns,
            out.same_frame(*old(out)),
            rows == backlink.rows,
            columns == backlink.columns,
            rows >= 1,
            columns >= 1,
            rows <= n,
            columns <= n,
            n == rows * columns,
            n <= i64::MAX,
            gn == n as nat,
            full == walk_seq(*backlink, r0 as int, c0 as int, gn),
            base == old(out).data(),
            counts_le(base, bound@),
            bound@ >= 0,
            bound@ + n <= i64::MAX,
            backlink.in_bounds(r0 as int, c0 as int),
            steps <= n,
            counts_le(out.data(), bound@ + steps),
        ensures
            (ok <==> walk_complete(*backlink, r0 as int, c0 as int, gn)),
            ok ==> out.data() == apply_walk(base, columns as int, full),
            counts_le(out.data(), bound@ + n),
            steps <= n,
            out.wf(),
            out.same_frame(*old(out)),
        decreases n - steps,
    {
        let ghost fuel = (gn - steps) as nat;
        let ghost rest = walk_seq(*backlink, y as int, x as int, fuel);
        proof {
            lemma_walk_seq_len(*backlink, y as int, x as int, fuel);
            assert(full.len() == steps + rest.len());
            assert(rest[0] == (y as int, x as int));
            assert(full[steps as int] == rest[0]);
            lemma_index_bound(y as int, x as int, rows as int, columns as int);
            assert(match out.data()[(y as int) * (columns as int) + (x as int)] {
                Some(v) => v <= bound@ + steps,
                None => true,
            });
        }
        // count the visit of the current cell
        out.increment(y, x, 1);
        proof {
            let taken = full.take(steps as int);
            assert(full.take(steps as int + 1) =~= taken.push((y as int, x as int)));
            lemma_apply_walk_push(base, columns as int, taken, (y as int, x as int));
            assert(out.data() == apply_walk(base, columns as int, full.take(steps as int + 1)));
            assert(counts_le(out.data(), bound@ + steps + 1));
        }
        steps = steps + 1;
        // follow the backlink, if the cell has one
        let code = backlink.get(y, x);
        let dir = match code {
            Some(cv) => decode(cv),
            None => None,
        };
        match dir {
            None => {
                proof {
                    assert(walk_next(*backlink, y as int, x as int) is None);
                    assert(rest =~= seq![(y as int, x as int)]);
                    assert(full.len() == steps as int);
                    assert(full =~= full.take(steps as int));
                    assert(walk_complete(*backlink, y as int, x as int, fuel));
                }
                break ;
            },
            Some(d) => {
                let (dc, dr) = offset(d);
                let ny_i = y as i64 + dr;
                let nx_i = x as i64 + dc;
                if ny_i < 0 || ny_i >= rows as i64 || nx_i < 0 || nx_i >= columns as i64 {
                    proof {
                        assert(walk_next(*backlink, y as int, x as int) is None);
                        assert(rest =~= seq![(y as int, x as int)]);
                        assert(full.len() == steps as int);
                        assert(full =~= full.take(steps as int));
                        assert(walk_complete(*backlink, y as int, x as int, fuel));
                    }
                    break ;
                }
                let ny = ny_i as usize;
                let nx = nx_i as usize;
                proof {
                    assert(walk_next(*backlink, y as int, x as int) == Some((
                        ny as int,
                        nx as int,
                    )));
                }
                if steps == n {
                    proof {
                        assert(fuel == 1);
                        assert(!walk_complete(*backlink, ny as int, nx as int, 0));
                        assert(!walk_complete(*backlink, y as int, x as int, fuel));
                    }
                    ok = false;
                    break ;
                }
                proof {
                    let tail = walk_seq(*backlink, ny as int, nx as int, (fuel - 1) as nat);
                    lemma_walk_seq_len(*backlink, ny as int, nx as int, (fuel - 1) as nat);
                    assert(rest == seq![(y as int, x as int)] + tail);
                    assert(full.len() == steps + tail.len());
                    assert(full.take(steps as int) =~= full.take(steps as int - 1).push(
                        (y as int, x as int),
                    ));
                    assert(full =~= full.take(steps as int) + tail);
                    assert(walk_complete(*backlink, y as int, x as int, fuel) == walk_complete(
                        *backlink,
                        ny as int,
                        nx as int,
                        (fuel - 1) as nat,
                    ));
                }
                y = ny;
                x = nx;
            },
        }
    }
    ok
}

/// Traces a walk from every destination cell holding a positive value whose
/// backlink cell is live, counting in the output grid how many walks passed
/// through each cell; cells no walk touched stay nodata.
///
/// The two input grids must share their shape, or nothing is computed; a
/// walk that fails to terminate within `rows * columns` visits has revisited
/// a cell, which means the backlink grid holds a direction cycle, and the
/// run is rejected rather than left unbounded.
pub fn accumulate(dest: &Grid, backlink: &Grid) -> (out: Result<Grid, FlowError>)
    requires
        dest.wf(),
        backlink.wf(),
        (dest.rows * dest.columns) * (dest.rows * dest.columns) <= i64::MAX,
    ensures
        out matches Ok(g) ==> {
            &&& dest.rows == backlink.rows && dest.columns == backlink.columns
            &&& flow_complete(*dest, *backlink)
            &&& g.wf()
            &&& g.same_frame(*dest)
            &&& g.data() == accumulation_cells(*dest, *backlink)
            &&& forall|r: int, c: int|
                g.in_bounds(r, c) ==> #[trigger] g.cell(r, c) == counted_cell(
                    *dest,
                    *backlink,
                    r,
                    c,
                )
        },
        out == Err::<Grid, FlowError>(FlowError::ShapeMismatch) <==> !(dest.rows == backlink.rows
            && dest.columns == backlink.columns),
        out == Err::<Grid, FlowError>(FlowError::CycleDetected) <==> (dest.rows == backlink.rows
            && dest.columns == backlink.columns && !flow_complete(*dest, *backlink)),
{
    if dest.rows != backlink.rows || dest.columns != backlink.columns {
        return Err(FlowError::ShapeMismatch);
    }
    let rows = dest.rows;
    let columns = dest.columns;
    let n = dest.cells.len();
    let ghost gn = (rows * columns) as nat;
    let mut out = Grid::nodata_like(dest);
    proof {
        assert(out.data() =~= nodata_cells(gn));
        assert(out.data() == accum_upto(*dest, *backlink, 0));
    }
    let mut row: usize = 0;
    while row < rows
        invariant
            dest.wf(),
            backlink.wf(),
            out.wf(),
            out.same_frame(*dest),
            rows == dest.rows,
            columns == dest.columns,
            rows == backlink.rows,
            columns == backlink.columns,
            n == rows * columns,
            n * n <= i64::MAX,
            gn == n as nat,
            row <= rows,
            out.data() == accum_upto(*dest, *backlink, (row * columns) as nat),
            counts_le(out.data(), (row * columns) * n),
            forall|r: int, c: int|
                dest.in_bounds(r, c) && r * columns + c < row * columns && #[trigger] is_origin(
                    *dest,
                    *backlink,
                    r,
                    c,
                ) ==> walk_complete(*backlink, r, c, gn),
        decreases rows - row,
    {
        let mut col: usize = 0;
        proof {
            assert(row * columns + columns == (row + 1) * columns) by (nonlinear_arith);
            assert(row * columns >= 0) by (nonlinear_arith)
                requires
                    row >= 0,
                    columns >= 0,
            ;
            assert((row + 1) * columns <= rows * columns) by (nonlinear_arith)
                requires
                    row + 1 <= rows,
                    columns >= 0,
            ;
        }
        while col < columns
            invariant
                dest.wf(),
                backlink.wf(),
                out.wf(),
                out.same_frame(*dest),
                rows == dest.rows,
                columns == dest.columns,
                rows == backlink.rows,
                columns == backlink.columns,
                n == rows * columns,
                n * n <= i64::MAX,
                gn == n as nat,
                row < rows,
                col <= columns,
                row * columns + col <= (row + 1) * columns <= rows * columns,
                row * columns >= 0,
                out.data() == accum_upto(*dest, *backlink, (row * columns + col) as nat),
                counts_le(out.data(), (row * columns + col) * n),
                forall|r: int, c: int|
                    dest.in_bounds(r, c) && r * columns + c < row * columns + col
                        && #[trigger] is_origin(*dest, *backlink, r, c) ==> walk_complete(
                        *backlink,
                        r,
                        c,
                        gn,
                    ),
            decreases columns - col,
        {
            let ghost k = (row * columns + col) as int;
            proof {
                lemma_index_bound(row as int, col as int, rows as int, columns as int);
                lemma_fundamental_div_mod_converse(k, columns as int, row as int, col as int);
                assert(k * n >= 0) by (nonlinear_arith)
                    requires
                        k >= 0,
                        n >= 0,
                ;
                assert((k + 1) * n <= n * n) by (nonlinear_arith)
                    requires
                        k + 1 <= n,
                        n >= 0,
                ;
                assert((k + 1) * n == k * n + n) by (nonlinear_arith);
                assert(row * columns + columns == (row + 1) * columns) by (nonlinear_arith);
            }
            let dval = dest.get(row, col);
            let bval = backlink.get(row, col);
            let origin = match dval {
                Some(v) => v > 0 && bval.is_some(),
                None => false,
            };
            proof {
                assert(origin == is_origin(*dest, *backlink, row as int, col as int));
            }
            if origin {
                let ok = run_walk(&mut out, backlink, row, col, Ghost(k * n));
                if !ok {
                    return Err(FlowError::CycleDetected);
                }
            }
            proof {
                assert(out.data() == accum_upto(*dest, *backlink, (k + 1) as nat));
                assert(counts_le(out.data(), (k + 1) * n));
                assert forall|r: int, c: int|
                    dest.in_bounds(r, c) && r * columns + c < k + 1 && #[trigger] is_origin(
                        *dest,
                        *backlink,
                        r,
                        c,
                    ) implies walk_complete(*backlink, r, c, gn) by {
                    if r * columns + c == k {
                        lemma_index_injective(r, c, row as int, col as int, columns as int);
                    }
                }
            }
            col = col + 1;
        }
        row = row + 1;
    }
    proof {
        assert(out.data() == accumulation_cells(*dest, *backlink));
        assert forall|r: int, c: int|
            backlink.in_bounds(r, c) && #[trigger] is_origin(*dest, *backlink, r, c) implies
            walk_complete(*backlink, r, c, gn) by {
            lemma_index_bound(r, c, rows as int, columns as int);
        }
        assert(flow_complete(*dest, *backlink));
        assert forall|r: int, c: int| out.in_bounds(r, c) implies #[trigger] out.cell(r, c)
            == counted_cell(*dest, *backlink, r, c) by {
            lemma_accum_at(*dest, *backlink, gn, (r, c));
            lemma_index_bound(r, c, rows as int, columns as int);
        }
    }
    Ok(out)
}

} // verus!
