//! Table grid planning: where each cell goes once `colspan` and `rowspan`
//! are taken into account, and the groups of rows a page break never
//! splits.

use vstd::prelude::*;
use crate::layout::warnings::{push_warning, LayoutWarning, LayoutWarningKind};
use crate::text::{chars_of, dec_chars, push_all, push_dec, string_from_chars};

verus! {

/// Whether `blocks` are the maximal runs of `rows` in which every row
/// after the first continues the one before it: consecutive, non-empty,
/// covering `0..rows.len()`, each starting at row 0 or at a row that is no
/// continuation, and every later row of a block a continuation.
pub open spec fn is_block_partition(rows: Seq<bool>, blocks: Seq<(usize, usize)>) -> bool {
    &&& rows.len() == 0 ==> blocks.len() == 0
    &&& rows.len() > 0 ==> blocks.len() > 0 && blocks[0].0 == 0 && blocks.last().1 == rows.len()
    &&& forall|k: int| 0 <= k < blocks.len() - 1 ==> #[trigger] blocks[k].1 == blocks[k + 1].0
    &&& forall|k: int| 0 <= k < blocks.len() ==> #[trigger] blocks[k].0 < blocks[k].1 <= rows.len()
    &&& forall|k: int| 0 < k < blocks.len() ==> !rows[#[trigger] blocks[k].0 as int]
    &&& forall|k: int, i: int|
        #![trigger blocks[k], rows[i]]
        0 <= k < blocks.len() && blocks[k].0 < i < blocks[k].1 ==> rows[i]
}

/// Groups row indices into maximal runs where every row after the first is
/// a continuation of the one before it, as `start..end` pairs in order.
pub fn atomic_blocks(is_continuation: &Vec<bool>) -> (blocks: Vec<(usize, usize)>)
    ensures
        is_block_partition(is_continuation@, blocks@),
{
    let rows = is_continuation;
    let mut blocks: Vec<(usize, usize)> = Vec::new();
    let mut i: usize = 0;
    while i < rows.len()
        invariant
            i <= rows@.len(),
            i == 0 <==> blocks@.len() == 0,
            blocks@.len() > 0 ==> blocks@[0].0 == 0 && blocks@.last().1 == i,
            i < rows@.len() && blocks@.len() > 0 ==> !rows@[i as int],
            forall|k: int| 0 <= k < blocks@.len() - 1 ==> #[trigger] blocks@[k].1 == blocks@[k + 1].0,
            forall|k: int| 0 <= k < blocks@.len() ==> #[trigger] blocks@[k].0 < blocks@[k].1 <= i,
            forall|k: int| 0 < k < blocks@.len() ==> !rows@[#[trigger] blocks@[k].0 as int],
            forall|k: int, j: int|
                #![trigger blocks@[k], rows@[j]]
                0 <= k < blocks@.len() && blocks@[k].0 < j < blocks@[k].1 ==> rows@[j],
        decreases rows@.len() - i,
    {
        let start = i;
        i = i + 1;
        while i < rows.len() && rows[i]
            invariant
                start < i <= rows@.len(),
                forall|j: int| start < j < i ==> rows@[j],
            decreases rows@.len() - i,
        {
            i = i + 1;
        }
        let ghost old_blocks = blocks@;
        blocks.push((start, i));
        proof {
            assert forall|k: int, j: int|
                #![trigger blocks@[k], rows@[j]]
                0 <= k < blocks@.len() && blocks@[k].0 < j < blocks@[k].1 implies rows@[j] by {
                if k < old_blocks.len() {
                    assert(blocks@[k] == old_blocks[k]);
                }
            }
        }
    }
    blocks
}

/// A table cell's spans, which is all the grid planner reads of it.
#[derive(Clone, Copy, PartialEq, Eq, Debug)]
pub struct CellSpan {
    pub colspan: usize,
    pub rowspan: usize,
}

/// A cell's place in the grid: its row, first column, one past its last
/// column, and its index among its row's cells.
#[derive(Clone, Copy, PartialEq, Eq, Debug)]
pub struct CellPlacement {
    pub row: usize,
    pub col_start: usize,
    pub col_end: usize,
    pub cell: usize,
}

/// A span, at least 1.
pub open spec fn at_least_one(v: usize) -> nat {
    if v == 0 {
        1
    } else {
        v as nat
    }
}

/// The first column at or after `col` that row `r` finds free: `blocked[c]`
/// is the first row below an earlier `rowspan` that occupies column `c`.
pub open spec fn next_free(blocked: Seq<nat>, r: nat, col: nat) -> nat
    decreases blocked.len() - col,
{
    if col < blocked.len() && blocked[col as int] > r {
        next_free(blocked, r, col + 1)
    } else {
        col
    }
}

/// Columns `start..end` blocked through row `until - 1`.
pub open spec fn block(blocked: Seq<nat>, start: nat, end: nat, until: nat) -> Seq<nat> {
    Seq::new(blocked.len(), |x: int| if start <= x < end { until } else { blocked[x] })
}

/// Row `r`'s cells from the `k`-th on, placed from column `col`: each in
/// the next free column, `colspan` wide (cut at the last column), blocking
/// its columns for the rows a `rowspan` covers. Gives the placements, the
/// blocked columns after the row, and whether cells were left over for
/// want of a free column.
pub open spec fn place_cells(blocked: Seq<nat>, r: nat, cells: Seq<CellSpan>, k: nat, col: nat) -> (
    Seq<CellPlacement>,
    Seq<nat>,
    bool,
)
    decreases cells.len() - k,
{
    if k >= cells.len() {
        (Seq::empty(), blocked, false)
    } else {
        let c = next_free(blocked, r, col);
        if c >= blocked.len() {
            (Seq::empty(), blocked, true)
        } else {
            let wide = c + at_least_one(cells[k as int].colspan);
            let end = if wide < blocked.len() {
                wide
            } else {
                blocked.len()
            };
            let rs = at_least_one(cells[k as int].rowspan);
            let after = if rs > 1 {
                block(blocked, c, end, r + rs)
            } else {
                blocked
            };
            let rest = place_cells(after, r, cells, k + 1, end);
            (
                seq![CellPlacement { row: r as usize, col_start: c as usize, col_end: end as usize, cell: k as usize }]
                    + rest.0,
                rest.1,
                rest.2,
            )
        }
    }
}

/// The first `j` rows planned: the placements in order, for each row
/// whether it continues an earlier row's `rowspan`, the blocked columns
/// after it, and the rows that had cells left over.
pub open spec fn plan_rows(rows: Seq<Seq<CellSpan>>, columns: nat, j: nat) -> (
    Seq<CellPlacement>,
    Seq<bool>,
    Seq<nat>,
    Seq<nat>,
)
    decreases j,
{
    if j == 0 || j > rows.len() {
        (Seq::empty(), Seq::empty(), Seq::new(columns, |x: int| 0nat), Seq::empty())
    } else {
        let prev = plan_rows(rows, columns, (j - 1) as nat);
        let r = (j - 1) as nat;
        let continues = exists|c: int| 0 <= c < prev.2.len() && #[trigger] prev.2[c] > r;
        let row = place_cells(prev.2, r, rows[r as int], 0, 0);
        (prev.0 + row.0, prev.1.push(continues), row.1, if row.2 {
            prev.3.push(r)
        } else {
            prev.3
        })
    }
}

/// The warning hint for row `r` having cells left over.
pub open spec fn overflow_hint(r: nat) -> Seq<char> {
    "table row "@ + dec_chars(r) + " has more cells than the table has free column(s) after rowspan \u{2014} extra cells dropped"@
}

/// Spans small enough that every column and row index computed from them
/// fits in `usize`.
pub open spec fn spans_fit(rows: Seq<Seq<CellSpan>>, columns: nat) -> bool {
    forall|r: int, k: int|
        #![trigger rows[r][k]]
        0 <= r < rows.len() && 0 <= k < rows[r].len() ==> columns + rows[r][k].colspan <= usize::MAX && rows.len()
            + rows[r][k].rowspan <= usize::MAX
}

/// Blocked-row values as integers.
pub open spec fn nats(v: Seq<usize>) -> Seq<nat> {
    v.map_values(|b: usize| b as nat)
}

/// The rows' cells.
pub open spec fn row_spans(rows: Seq<Vec<CellSpan>>) -> Seq<Seq<CellSpan>> {
    rows.map_values(|v: Vec<CellSpan>| v@)
}

/// The first column at or after `col` that row `r` finds free.
fn next_free_exec(blocked: &Vec<usize>, r: usize, col: usize) -> (c: usize)
    requires
        col <= blocked@.len(),
    ensures
        c == next_free(nats(blocked@), r as nat, col as nat),
        col <= c <= blocked@.len(),
{
    let mut c = col;
    while c < blocked.len() && blocked[c] > r
        invariant
            col <= c <= blocked@.len(),
            next_free(nats(blocked@), r as nat, col as nat) == next_free(nats(blocked@), r as nat, c as nat),
        decreases blocked@.len() - c,
    {
        c = c + 1;
    }
    c
}

/// Places one row's cells, appending the placements and updating the
/// blocked columns; `true` when cells were left over.
fn place_row(blocked: &mut Vec<usize>, r: usize, cells: &Vec<CellSpan>, out: &mut Vec<CellPlacement>, rows_len: usize) -> (overflow: bool)
    requires
        r < rows_len,
        forall|k: int|
            0 <= k < cells@.len() ==> old(blocked)@.len() + (#[trigger] cells@[k]).colspan <= usize::MAX && rows_len
                + cells@[k].rowspan <= usize::MAX,
    ensures
        ({
            let spec = place_cells(nats(old(blocked)@), r as nat, cells@, 0, 0);
            &&& final(out)@ == old(out)@ + spec.0
            &&& nats(final(blocked)@) == spec.1
            &&& overflow == spec.2
        }),
        final(blocked)@.len() == old(blocked)@.len(),
{
    let n = blocked.len();
    let ghost spec = place_cells(nats(blocked@), r as nat, cells@, 0, 0);
    let ghost start = out@;
    let mut col: usize = 0;
    let mut k: usize = 0;
    while k < cells.len()
        invariant
            blocked@.len() == n,
            n == old(blocked)@.len(),
            start == old(out)@,
            spec == place_cells(nats(old(blocked)@), r as nat, cells@, 0, 0),
            col <= n,
            k <= cells@.len(),
            r < rows_len,
            forall|q: int|
                0 <= q < cells@.len() ==> n + (#[trigger] cells@[q]).colspan <= usize::MAX && rows_len + cells@[q].rowspan
                    <= usize::MAX,
            ({
                let rest = place_cells(nats(blocked@), r as nat, cells@, k as nat, col as nat);
                spec == (out@.skip(start.len() as int) + rest.0, rest.1, rest.2)
            }),
            out@.len() >= start.len(),
            out@.take(start.len() as int) == start,
        decreases cells@.len() - k,
    {
        let c = next_free_exec(blocked, r, col);
        if c >= n {
            proof {
                let rest = place_cells(nats(blocked@), r as nat, cells@, k as nat, col as nat);
                assert(rest == (Seq::<CellPlacement>::empty(), nats(blocked@), true));
                assert(out@.skip(start.len() as int) + rest.0 =~= out@.skip(start.len() as int));
                assert(out@ =~= start + out@.skip(start.len() as int));
            }
            return true;
        }
        let cell = cells[k];
        let width: usize = if cell.colspan == 0 {
            1
        } else {
            cell.colspan
        };
        let end = if c + width < n {
            c + width
        } else {
            n
        };
        let rs: usize = if cell.rowspan == 0 {
            1
        } else {
            cell.rowspan
        };
        let ghost before = nats(blocked@);
        if rs > 1 {
            let until = r + rs;
            let mut x = c;
            while x < end
                invariant
                    c <= x <= end <= n,
                    blocked@.len() == n,
                    before.len() == n,
                    forall|y: int| 0 <= y < n ==> (#[trigger] blocked@[y]) as nat == if c <= y < x {
                        until as nat
                    } else {
                        before[y]
                    },
                decreases end - x,
            {
                blocked.set(x, until);
                x = x + 1;
            }
            assert(nats(blocked@) =~= block(before, c as nat, end as nat, (r + rs) as nat));
        }
        let ghost old_out = out@;
        out.push(CellPlacement { row: r, col_start: c, col_end: end, cell: k });
        proof {
            assert(out@.skip(start.len() as int) =~= old_out.skip(start.len() as int).push(
                CellPlacement { row: r, col_start: c, col_end: end, cell: k },
            ));
            assert(out@.take(start.len() as int) =~= old_out.take(start.len() as int));
            let rest_now = place_cells(nats(blocked@), r as nat, cells@, (k + 1) as nat, end as nat);
            assert(old_out.skip(start.len() as int).push(CellPlacement { row: r, col_start: c, col_end: end, cell: k })
                + rest_now.0 =~= old_out.skip(start.len() as int) + (seq![
                CellPlacement { row: r, col_start: c, col_end: end, cell: k },
            ] + rest_now.0));
        }
        col = end;
        k = k + 1;
    }
    assert(out@ =~= start + out@.skip(start.len() as int));
    false
}

/// Plans the grid: each cell's row and column range, in order, and for
/// each row whether an earlier `rowspan` still covers part of it (such a
/// row is no page-break point). A row with more cells than free columns
/// drops the rest and records a `TableRowOverflow` warning.
pub fn plan_grid(rows: &Vec<Vec<CellSpan>>, num_columns: usize, warnings: &mut Vec<LayoutWarning>, page: usize) -> (r: (
    Vec<CellPlacement>,
    Vec<bool>,
))
    requires
        spans_fit(row_spans(rows@), num_columns as nat),
    ensures
        ({
            let plan = plan_rows(row_spans(rows@), num_columns as nat, rows@.len());
            &&& r.0@ == plan.0
            &&& r.1@ == plan.1
            &&& final(warnings)@.len() == old(warnings)@.len() + plan.3.len()
            &&& forall|i: int| 0 <= i < old(warnings)@.len() ==> #[trigger] final(warnings)@[i] == old(warnings)@[i]
            &&& forall|i: int|
                0 <= i < plan.3.len() ==> (#[trigger] final(warnings)@[old(warnings)@.len() + i]).kind
                    == LayoutWarningKind::TableRowOverflow && final(warnings)@[old(warnings)@.len() + i].page == page
                    && final(warnings)@[old(warnings)@.len() + i].element_hint@ == overflow_hint(plan.3[i])
        }),
{
    let ghost rs = row_spans(rows@);
    let mut blocked: Vec<usize> = Vec::new();
    let mut c: usize = 0;
    while c < num_columns
        invariant
            c <= num_columns,
            blocked@.len() == c,
            forall|y: int| 0 <= y < c ==> blocked@[y] == 0,
        decreases num_columns - c,
    {
        blocked.push(0);
        c = c + 1;
    }
    assert(nats(blocked@) =~= Seq::new(num_columns as nat, |x: int| 0nat));
    let mut placements: Vec<CellPlacement> = Vec::new();
    let mut is_continuation: Vec<bool> = Vec::new();
    let ghost w0 = warnings@;
    let mut j: usize = 0;
    while j < rows.len()
        invariant
            j <= rows@.len(),
            rs == row_spans(rows@),
            spans_fit(rs, num_columns as nat),
            blocked@.len() == num_columns,
            ({
                let plan = plan_rows(rs, num_columns as nat, j as nat);
                &&& placements@ == plan.0
                &&& is_continuation@ == plan.1
                &&& nats(blocked@) == plan.2
                &&& warnings@.len() == w0.len() + plan.3.len()
                &&& forall|i: int| 0 <= i < w0.len() ==> #[trigger] warnings@[i] == w0[i]
                &&& forall|i: int|
                    0 <= i < plan.3.len() ==> (#[trigger] warnings@[w0.len() + i]).kind
                        == LayoutWarningKind::TableRowOverflow && warnings@[w0.len() + i].page == page
                        && warnings@[w0.len() + i].element_hint@ == overflow_hint(plan.3[i])
            }),
        decreases rows@.len() - j,
    {
        let ghost prev = plan_rows(rs, num_columns as nat, j as nat);
        let mut continues = false;
        let mut x: usize = 0;
        while x < num_columns
            invariant
                x <= num_columns == blocked@.len(),
                continues == exists|y: int| 0 <= y < x && #[trigger] blocked@[y] > j,
            decreases num_columns - x,
        {
            if blocked[x] > j {
                continues = true;
            }
            x = x + 1;
        }
        proof {
            assert(continues == exists|y: int| 0 <= y < prev.2.len() && #[trigger] prev.2[y] > j as nat) by {
                if continues {
                    let y = choose|y: int| 0 <= y < num_columns && #[trigger] blocked@[y] > j;
                    assert(prev.2[y] == blocked@[y] as nat);
                }
                if exists|y: int| 0 <= y < prev.2.len() && #[trigger] prev.2[y] > j as nat {
                    let y = choose|y: int| 0 <= y < prev.2.len() && #[trigger] prev.2[y] > j as nat;
                    assert(prev.2[y] == blocked@[y] as nat);
                }
            }
            assert(rs[j as int] == rows@[j as int]@);
            assert forall|k: int|
                0 <= k < rows@[j as int]@.len() implies blocked@.len() + (#[trigger] rows@[j as int]@[k]).colspan
                <= usize::MAX && rows@.len() + rows@[j as int]@[k].rowspan <= usize::MAX by {
                assert(rs[j as int][k] == rows@[j as int]@[k]);
            }
        }
        is_continuation.push(continues);
        let overflow = place_row(&mut blocked, j, &rows[j], &mut placements, rows.len());
        if overflow {
            let mut v = chars_of("table row ");
            push_dec(&mut v, j as u64);
            push_all(&mut v, &chars_of(" has more cells than the table has free column(s) after rowspan \u{2014} extra cells dropped"));
            assert(v@ =~= overflow_hint(j as nat));
            let ghost wb = warnings@;
            push_warning(warnings, LayoutWarningKind::TableRowOverflow, page, string_from_chars(v));
            proof {
                let plan = plan_rows(rs, num_columns as nat, (j + 1) as nat);
                assert(plan.3 == prev.3.push(j as nat));
                assert forall|i: int| 0 <= i < w0.len() implies #[trigger] warnings@[i] == w0[i] by {
                    assert(warnings@[i] == wb[i]);
                }
                assert forall|i: int|
                    0 <= i < plan.3.len() implies (#[trigger] warnings@[w0.len() + i]).kind
                    == LayoutWarningKind::TableRowOverflow && warnings@[w0.len() + i].page == page
                    && warnings@[w0.len() + i].element_hint@ == overflow_hint(plan.3[i]) by {
                    if i < prev.3.len() {
                        assert(warnings@[w0.len() + i] == wb[w0.len() + i]);
                    }
                }
            }
        }
        j = j + 1;
    }
    (placements, is_continuation)
}

/// A table whose row count, row lengths and column count are those of
/// vectors.
pub open spec fn rows_fit(rows: Seq<Seq<CellSpan>>, columns: nat) -> bool {
    &&& rows.len() <= usize::MAX
    &&& columns <= usize::MAX
    &&& forall|r: int| 0 <= r < rows.len() ==> #[trigger] rows[r].len() <= usize::MAX
}

/// Within one row's placement, a cell spanning several rows keeps its
/// first column blocked through its last row: later cells of the row lie
/// to its right.
proof fn lemma_place_cells_keeps_spans(blocked: Seq<nat>, r: nat, cells: Seq<CellSpan>, k: nat, col: nat, i: int)
    requires
        r <= usize::MAX,
        cells.len() <= usize::MAX,
        blocked.len() <= usize::MAX,
        0 <= i < place_cells(blocked, r, cells, k, col).0.len(),
        at_least_one(cells[place_cells(blocked, r, cells, k, col).0[i].cell as int].rowspan) > 1,
    ensures
        ({
            let res = place_cells(blocked, r, cells, k, col);
            let q = res.0[i];
            &&& q.row == r
            &&& (q.col_start as int) < res.1.len()
            &&& res.1.len() == blocked.len()
            &&& res.1[q.col_start as int] == r + at_least_one(cells[q.cell as int].rowspan)
        }),
    decreases cells.len() - k,
{
    let res = place_cells(blocked, r, cells, k, col);
    if k < cells.len() {
        let c = next_free(blocked, r, col);
        if c < blocked.len() {
            let wide = c + at_least_one(cells[k as int].colspan);
            let end = if wide < blocked.len() {
                wide
            } else {
                blocked.len()
            };
            let rs = at_least_one(cells[k as int].rowspan);
            let after = if rs > 1 {
                block(blocked, c, end, r + rs)
            } else {
                blocked
            };
            let rest = place_cells(after, r, cells, k + 1, end);
            lemma_place_cells_frame(after, r, cells, k + 1, end);
            if i == 0 {
                assert(res.0[0].cell == k);
                assert(after[c as int] == r + rs);
                assert(rest.1[c as int] == after[c as int]);
            } else {
                assert(res.0[i] == rest.0[i - 1]);
                lemma_place_cells_keeps_spans(after, r, cells, k + 1, end, i - 1);
            }
        }
    }
}

/// A row's placement leaves the columns left of `col` as they were.
proof fn lemma_place_cells_frame(blocked: Seq<nat>, r: nat, cells: Seq<CellSpan>, k: nat, col: nat)
    requires
        r <= usize::MAX,
        cells.len() <= usize::MAX,
        blocked.len() <= usize::MAX,
    ensures
        place_cells(blocked, r, cells, k, col).1.len() == blocked.len(),
        forall|x: int| 0 <= x < col && x < blocked.len() ==> #[trigger] place_cells(blocked, r, cells, k, col).1[x]
            == blocked[x],
        forall|i: int|
            0 <= i < place_cells(blocked, r, cells, k, col).0.len() ==> col <= (#[trigger] place_cells(
                blocked,
                r,
                cells,
                k,
                col,
            ).0[i]).col_start < blocked.len() && place_cells(blocked, r, cells, k, col).0[i].row == r
                && place_cells(blocked, r, cells, k, col).0[i].cell < cells.len(),
    decreases cells.len() - k,
{
    if k < cells.len() {
        let c = next_free(blocked, r, col);
        lemma_next_free_bounds(blocked, r, col);
        if c < blocked.len() {
            let wide = c + at_least_one(cells[k as int].colspan);
            let end = if wide < blocked.len() {
                wide
            } else {
                blocked.len()
            };
            let rs = at_least_one(cells[k as int].rowspan);
            let after = if rs > 1 {
                block(blocked, c, end, r + rs)
            } else {
                blocked
            };
            lemma_place_cells_frame(after, r, cells, k + 1, end);
            let res = place_cells(blocked, r, cells, k, col);
            let rest = place_cells(after, r, cells, k + 1, end);
            assert forall|i: int| 0 <= i < res.0.len() implies col <= (#[trigger] res.0[i]).col_start < blocked.len()
                && res.0[i].row == r && res.0[i].cell < cells.len() by {
                if i > 0 {
                    assert(res.0[i] == rest.0[i - 1]);
                }
            }
        }
    }
}

proof fn lemma_next_free_bounds(blocked: Seq<nat>, r: nat, col: nat)
    ensures
        col <= next_free(blocked, r, col),
        col <= blocked.len() ==> next_free(blocked, r, col) <= blocked.len(),
    decreases blocked.len() - col,
{
    if col < blocked.len() && blocked[col as int] > r {
        lemma_next_free_bounds(blocked, r, col + 1);
    }
}

/// Every placement of the first `j` rows belongs to one of them and
/// names a cell of its row.
proof fn lemma_plan_rows_shape(rows: Seq<Seq<CellSpan>>, columns: nat, j: nat)
    requires
        j <= rows.len(),
        rows_fit(rows, columns),
    ensures
        plan_rows(rows, columns, j).1.len() == j,
        plan_rows(rows, columns, j).2.len() == columns,
        forall|i: int|
            0 <= i < plan_rows(rows, columns, j).0.len() ==> (#[trigger] plan_rows(rows, columns, j).0[i]).row < j
                && plan_rows(rows, columns, j).0[i].cell < rows[plan_rows(rows, columns, j).0[i].row as int].len(),
    decreases j,
{
    if j > 0 {
        lemma_plan_rows_shape(rows, columns, (j - 1) as nat);
        let prev = plan_rows(rows, columns, (j - 1) as nat);
        let r = (j - 1) as nat;
        lemma_place_cells_frame(prev.2, r, rows[r as int], 0, 0);
        let row = place_cells(prev.2, r, rows[r as int], 0, 0);
        let cur = plan_rows(rows, columns, j);
        assert forall|i: int| 0 <= i < cur.0.len() implies (#[trigger] cur.0[i]).row < j && cur.0[i].cell < rows[cur.0[i].row as int].len() by {
            if i < prev.0.len() {
                assert(cur.0[i] == prev.0[i]);
            } else {
                assert(cur.0[i] == row.0[i - prev.0.len()]);
            }
        }
    }
}

/// The row right below a cell that spans several rows continues it, so
/// the two rows always fall in the same unbreakable block.
pub proof fn lemma_rowspan_continues_into_the_next_row(rows: Seq<Seq<CellSpan>>, columns: nat, i: int)
    requires
        rows_fit(rows, columns),
        0 <= i < plan_rows(rows, columns, rows.len()).0.len(),
        at_least_one(
            rows[plan_rows(rows, columns, rows.len()).0[i].row as int][plan_rows(rows, columns, rows.len()).0[i].cell as int].rowspan,
        ) > 1,
        plan_rows(rows, columns, rows.len()).0[i].row + 1 < rows.len(),
    ensures
        plan_rows(rows, columns, rows.len()).1[plan_rows(rows, columns, rows.len()).0[i].row + 1],
{
    let n = rows.len();
    let q = plan_rows(rows, columns, n).0[i];
    let r = q.row as nat;
    lemma_plan_rows_placement_origin(rows, columns, n, i);
    lemma_plan_rows_shape(rows, columns, r);
    lemma_plan_rows_shape(rows, columns, r + 1);
    let prev = plan_rows(rows, columns, r);
    let row = place_cells(prev.2, r, rows[r as int], 0, 0);
    let k = i - plan_rows(rows, columns, r).0.len();
    assert(row.0[k] == q);
    lemma_place_cells_keeps_spans(prev.2, r, rows[r as int], 0, 0, k);
    let after = plan_rows(rows, columns, r + 1);
    assert(after.2 == row.1);
    let next = plan_rows(rows, columns, r + 2);
    let c = q.col_start as int;
    assert(0 <= c < after.2.len() && after.2[c] > r + 1);
    assert(next.1[r + 1int]);
    lemma_plan_rows_prefix(rows, columns, r + 2, n);
    assert(next.1[r + 1int] == plan_rows(rows, columns, n).1[r + 1int]);
}

/// Placement `i` of the whole plan is one of its row's placements, and
/// earlier rows' placements come before it.
proof fn lemma_plan_rows_placement_origin(rows: Seq<Seq<CellSpan>>, columns: nat, j: nat, i: int)
    requires
        j <= rows.len(),
        rows_fit(rows, columns),
        0 <= i < plan_rows(rows, columns, j).0.len(),
    ensures
        ({
            let q = plan_rows(rows, columns, j).0[i];
            let before = plan_rows(rows, columns, q.row as nat);
            let row = place_cells(before.2, q.row as nat, rows[q.row as int], 0, 0);
            &&& q.row < j
            &&& before.0.len() <= i < before.0.len() + row.0.len()
            &&& row.0[i - before.0.len()] == q
        }),
    decreases j,
{
    let prev = plan_rows(rows, columns, (j - 1) as nat);
    let r = (j - 1) as nat;
    let row = place_cells(prev.2, r, rows[r as int], 0, 0);
    let cur = plan_rows(rows, columns, j);
    lemma_plan_rows_shape(rows, columns, r);
    lemma_place_cells_frame(prev.2, r, rows[r as int], 0, 0);
    if i < prev.0.len() {
        assert(cur.0[i] == prev.0[i]);
        lemma_plan_rows_placement_origin(rows, columns, (j - 1) as nat, i);
    } else {
        assert(cur.0[i] == row.0[i - prev.0.len()]);
        assert(row.0[i - prev.0.len()].row == r);
    }
}

/// Later rows only extend the continuation flags.
proof fn lemma_plan_rows_prefix(rows: Seq<Seq<CellSpan>>, columns: nat, j: nat, j2: nat)
    requires
        j <= j2 <= rows.len(),
        rows_fit(rows, columns),
    ensures
        plan_rows(rows, columns, j2).1.len() == j2,
        forall|x: int| 0 <= x < j ==> #[trigger] plan_rows(rows, columns, j2).1[x] == plan_rows(rows, columns, j).1[x],
    decreases j2 - j,
{
    lemma_plan_rows_shape(rows, columns, j2);
    lemma_plan_rows_shape(rows, columns, j);
    if j < j2 {
        lemma_plan_rows_prefix(rows, columns, j, (j2 - 1) as nat);
        lemma_plan_rows_shape(rows, columns, (j2 - 1) as nat);
        assert forall|x: int| 0 <= x < j implies #[trigger] plan_rows(rows, columns, j2).1[x] == plan_rows(rows, columns, j).1[x] by {
            assert(plan_rows(rows, columns, j2).1[x] == plan_rows(rows, columns, (j2 - 1) as nat).1[x]);
        }
    }
}


/// A cell spanning several rows blocks every one of its columns for the
/// rest of its row: once the row is placed, each of them is blocked
/// through the cell's last row.
proof fn lemma_place_cells_keeps_span_columns(blocked: Seq<nat>, r: nat, cells: Seq<CellSpan>, k: nat, col: nat, i: int)
    requires
        r <= usize::MAX,
        cells.len() <= usize::MAX,
        blocked.len() <= usize::MAX,
        0 <= i < place_cells(blocked, r, cells, k, col).0.len(),
        at_least_one(cells[place_cells(blocked, r, cells, k, col).0[i].cell as int].rowspan) > 1,
    ensures
        ({
            let res = place_cells(blocked, r, cells, k, col);
            let q = res.0[i];
            &&& q.col_start < q.col_end <= blocked.len()
            &&& res.1.len() == blocked.len()
            &&& forall|x: int| q.col_start <= x < q.col_end ==> res.1[x] == r + at_least_one(cells[q.cell as int].rowspan)
        }),
    decreases cells.len() - k,
{
    let res = place_cells(blocked, r, cells, k, col);
    if k < cells.len() {
        let c = next_free(blocked, r, col);
        lemma_next_free_bounds(blocked, r, col);
        if c < blocked.len() {
            let wide = c + at_least_one(cells[k as int].colspan);
            let end = if wide < blocked.len() {
                wide
            } else {
                blocked.len()
            };
            let rs = at_least_one(cells[k as int].rowspan);
            let after = if rs > 1 {
                block(blocked, c, end, r + rs)
            } else {
                blocked
            };
            let rest = place_cells(after, r, cells, k + 1, end);
            lemma_place_cells_frame(after, r, cells, k + 1, end);
            if i == 0 {
                assert(res.0[0].cell == k);
                assert forall|x: int| c <= x < end implies res.1[x] == r + rs by {
                    assert(after[x] == r + rs);
                    assert(rest.1[x] == after[x]);
                }
            } else {
                assert(res.0[i] == rest.0[i - 1]);
                lemma_place_cells_keeps_span_columns(after, r, cells, k + 1, end, i - 1);
            }
        }
    }
}

/// The free column `next_free` finds is not blocked for row `r`.
proof fn lemma_next_free_is_free(blocked: Seq<nat>, r: nat, col: nat)
    ensures
        next_free(blocked, r, col) < blocked.len() ==> blocked[next_free(blocked, r, col) as int] <= r,
    decreases blocked.len() - col,
{
    if col < blocked.len() && blocked[col as int] > r {
        lemma_next_free_is_free(blocked, r, col + 1);
    }
}

/// Placing a row never starts a cell in a column that is blocked for it.
proof fn lemma_place_cells_avoids(blocked: Seq<nat>, r: nat, cells: Seq<CellSpan>, k: nat, col: nat, lo: int, hi: int)
    requires
        r <= usize::MAX,
        cells.len() <= usize::MAX,
        blocked.len() <= usize::MAX,
        forall|x: int| lo <= x < hi && 0 <= x < blocked.len() ==> blocked[x] > r,
    ensures
        forall|i: int|
            0 <= i < place_cells(blocked, r, cells, k, col).0.len() ==> !(lo <= (#[trigger] place_cells(
                blocked,
                r,
                cells,
                k,
                col,
            ).0[i]).col_start < hi),
    decreases cells.len() - k,
{
    let res = place_cells(blocked, r, cells, k, col);
    if k < cells.len() {
        let c = next_free(blocked, r, col);
        lemma_next_free_bounds(blocked, r, col);
        lemma_next_free_is_free(blocked, r, col);
        if c < blocked.len() {
            let wide = c + at_least_one(cells[k as int].colspan);
            let end = if wide < blocked.len() {
                wide
            } else {
                blocked.len()
            };
            let rs = at_least_one(cells[k as int].rowspan);
            let after = if rs > 1 {
                block(blocked, c, end, r + rs)
            } else {
                blocked
            };
            let rest = place_cells(after, r, cells, k + 1, end);
            assert forall|x: int| lo <= x < hi && 0 <= x < after.len() implies after[x] > r by {
                assert(blocked[x] > r);
            }
            lemma_place_cells_avoids(after, r, cells, k + 1, end, lo, hi);
            assert forall|i: int| 0 <= i < res.0.len() implies !(lo <= (#[trigger] res.0[i]).col_start < hi) by {
                if i > 0 {
                    assert(res.0[i] == rest.0[i - 1]);
                } else {
                    assert(res.0[0].col_start == c);
                }
            }
        }
    }
}

/// A cell that spans several rows keeps all of its columns from the row
/// below: no cell of the next row starts in any column the spanning cell
/// covers.
pub proof fn lemma_rowspan_blocks_all_its_columns_below(rows: Seq<Seq<CellSpan>>, columns: nat, i: int, j: int)
    requires
        rows_fit(rows, columns),
        0 <= i < plan_rows(rows, columns, rows.len()).0.len(),
        0 <= j < plan_rows(rows, columns, rows.len()).0.len(),
        at_least_one(
            rows[plan_rows(rows, columns, rows.len()).0[i].row as int][plan_rows(rows, columns, rows.len()).0[i].cell as int].rowspan,
        ) > 1,
        plan_rows(rows, columns, rows.len()).0[j].row == plan_rows(rows, columns, rows.len()).0[i].row + 1,
    ensures
        !(plan_rows(rows, columns, rows.len()).0[i].col_start <= plan_rows(rows, columns, rows.len()).0[j].col_start
            < plan_rows(rows, columns, rows.len()).0[i].col_end),
{
    let n = rows.len();
    let q = plan_rows(rows, columns, n).0[i];
    let p = plan_rows(rows, columns, n).0[j];
    let r = q.row as nat;
    lemma_plan_rows_placement_origin(rows, columns, n, i);
    lemma_plan_rows_placement_origin(rows, columns, n, j);
    lemma_plan_rows_shape(rows, columns, r);
    lemma_plan_rows_shape(rows, columns, r + 1);
    let prev = plan_rows(rows, columns, r);
    let row = place_cells(prev.2, r, rows[r as int], 0, 0);
    let k = i - prev.0.len();
    assert(row.0[k] == q);
    lemma_place_cells_keeps_span_columns(prev.2, r, rows[r as int], 0, 0, k);
    let after = plan_rows(rows, columns, r + 1);
    assert(after.2 == row.1);
    let rs = at_least_one(rows[r as int][q.cell as int].rowspan);
    assert forall|x: int| q.col_start <= x < q.col_end && 0 <= x < after.2.len() implies after.2[x] > r + 1 by {
        assert(after.2[x] == r + rs);
    }
    let row2 = place_cells(after.2, r + 1, rows[r + 1int], 0, 0);
    lemma_place_cells_avoids(after.2, r + 1, rows[r + 1int], 0, 0, q.col_start as int, q.col_end as int);
    let k2 = j - after.0.len();
    assert(row2.0[k2] == p);
}


/// A row's placements: the cells from the `k`-th on, in order, each
/// `colspan` wide but cut at the last column, left to right without
/// overlapping.
proof fn lemma_place_cells_shape(blocked: Seq<nat>, r: nat, cells: Seq<CellSpan>, k: nat, col: nat)
    requires
        r <= usize::MAX,
        cells.len() <= usize::MAX,
        blocked.len() <= usize::MAX,
    ensures
        ({
            let res = place_cells(blocked, r, cells, k, col);
            &&& forall|i: int|
                0 <= i < res.0.len() ==> {
                    let q = #[trigger] res.0[i];
                    &&& q.cell == k + i
                    &&& col <= q.col_start < q.col_end <= blocked.len()
                    &&& q.col_end == if q.col_start + at_least_one(cells[q.cell as int].colspan) < blocked.len() {
                        q.col_start + at_least_one(cells[q.cell as int].colspan)
                    } else {
                        blocked.len() as int
                    }
                }
            &&& forall|i: int, j: int| 0 <= i < j < res.0.len() ==> res.0[i].col_end <= res.0[j].col_start
        }),
    decreases cells.len() - k,
{
    let res = place_cells(blocked, r, cells, k, col);
    if k < cells.len() {
        let c = next_free(blocked, r, col);
        lemma_next_free_bounds(blocked, r, col);
        if c < blocked.len() {
            let wide = c + at_least_one(cells[k as int].colspan);
            let end = if wide < blocked.len() {
                wide
            } else {
                blocked.len()
            };
            let rs = at_least_one(cells[k as int].rowspan);
            let after = if rs > 1 {
                block(blocked, c, end, r + rs)
            } else {
                blocked
            };
            let rest = place_cells(after, r, cells, k + 1, end);
            lemma_place_cells_shape(after, r, cells, k + 1, end);
            assert forall|i: int| 0 < i < res.0.len() implies #[trigger] res.0[i] == rest.0[i - 1] by {}
            assert forall|i: int, j: int| 0 <= i < j < res.0.len() implies res.0[i].col_end <= res.0[j].col_start by {
                assert(res.0[j] == rest.0[j - 1]);
                if i > 0 {
                    assert(res.0[i] == rest.0[i - 1]);
                }
            }
        }
    }
}

/// Every cell is placed as wide as its `colspan` (at least one column) but
/// never past the last column, and the cells of one row are placed in
/// their order, left to right, without overlapping one another.
pub proof fn lemma_cells_of_a_row_in_order(rows: Seq<Seq<CellSpan>>, columns: nat, i: int, j: int)
    requires
        rows_fit(rows, columns),
        0 <= i < plan_rows(rows, columns, rows.len()).0.len(),
        0 <= j < plan_rows(rows, columns, rows.len()).0.len(),
    ensures
        ({
            let q = plan_rows(rows, columns, rows.len()).0[i];
            let p = plan_rows(rows, columns, rows.len()).0[j];
            let span = if rows[q.row as int][q.cell as int].colspan == 0 {
                1
            } else {
                rows[q.row as int][q.cell as int].colspan as int
            };
            &&& q.col_start < q.col_end <= columns
            &&& q.col_end == if q.col_start + span < columns {
                q.col_start + span
            } else {
                columns as int
            }
            &&& (i < j && p.row == q.row) ==> p.cell == q.cell + (j - i) && q.col_end <= p.col_start
        }),
{
    let n = rows.len();
    let q = plan_rows(rows, columns, n).0[i];
    let p = plan_rows(rows, columns, n).0[j];
    lemma_plan_rows_placement_origin(rows, columns, n, i);
    lemma_plan_rows_placement_origin(rows, columns, n, j);
    let r = q.row as nat;
    lemma_plan_rows_shape(rows, columns, r);
    let before = plan_rows(rows, columns, r);
    let row = place_cells(before.2, r, rows[r as int], 0, 0);
    lemma_place_cells_shape(before.2, r, rows[r as int], 0, 0);
    let a = i - before.0.len();
    assert(row.0[a] == q);
    if i < j && p.row == q.row {
        let b = j - before.0.len();
        assert(row.0[b] == p);
    }
}

} // verus!
