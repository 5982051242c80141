use vstd::prelude::*;

verus! {

/// The number of entries of `row` that satisfy `f`.
pub open spec fn row_count<T>(row: Seq<T>, f: spec_fn(T) -> bool) -> nat
    decreases row.len(),
{
    if row.len() == 0 {
        0
    } else {
        row_count(row.drop_last(), f) + if f(row.last()) { 1nat } else { 0nat }
    }
}

/// The number of entries of a matrix that satisfy `f`.
pub open spec fn grid_count<T>(rows: Seq<Seq<T>>, f: spec_fn(T) -> bool) -> nat
    decreases rows.len(),
{
    if rows.len() == 0 {
        0
    } else {
        grid_count(rows.drop_last(), f) + row_count(rows.last(), f)
    }
}

/// The number of `false` entries of a matrix.
pub open spec fn false_count(rows: Seq<Seq<bool>>) -> nat {
    grid_count(rows, |b: bool| !b)
}

pub open spec fn indicator(b: bool) -> int {
    if b { 1 } else { 0 }
}

pub proof fn lemma_row_count_update<T>(row: Seq<T>, i: int, x: T, f: spec_fn(T) -> bool)
    requires
        0 <= i < row.len(),
    ensures
        row_count(row.update(i, x), f) == row_count(row, f) - indicator(f(row[i])) + indicator(f(x)),
    decreases row.len(),
{
    let u = row.update(i, x);
    if i == row.len() - 1 {
        assert(u.drop_last() =~= row.drop_last());
    } else {
        assert(u.drop_last() =~= row.drop_last().update(i, x));
        lemma_row_count_update(row.drop_last(), i, x, f);
    }
}

pub proof fn lemma_grid_count_update<T>(rows: Seq<Seq<T>>, r: int, c: int, x: T, f: spec_fn(T) -> bool)
    requires
        0 <= r < rows.len(),
        0 <= c < rows[r].len(),
    ensures
        grid_count(rows.update(r, rows[r].update(c, x)), f) == grid_count(rows, f) - indicator(
            f(rows[r][c]),
        ) + indicator(f(x)),
    decreases rows.len(),
{
    let u = rows.update(r, rows[r].update(c, x));
    if r == rows.len() - 1 {
        assert(u.drop_last() =~= rows.drop_last());
        lemma_row_count_update(rows[r], c, x, f);
    } else {
        assert(u.drop_last() =~= rows.drop_last().update(r, rows[r].update(c, x)));
        lemma_grid_count_update(rows.drop_last(), r, c, x, f);
    }
}

/// Entries are counted by `f` alone: two matrices that agree on `f` entry by entry
/// have equal counts.
pub proof fn lemma_grid_count_same<T>(a: Seq<Seq<T>>, b: Seq<Seq<T>>, f: spec_fn(T) -> bool)
    requires
        a.len() == b.len(),
        forall|r: int| 0 <= r < a.len() ==> (#[trigger] a[r]).len() == b[r].len(),
        forall|r: int, c: int|
            0 <= r < a.len() && 0 <= c < a[r].len() ==> f(#[trigger] a[r][c]) == f(b[r][c]),
    ensures
        grid_count(a, f) == grid_count(b, f),
    decreases a.len(),
{
    if a.len() > 0 {
        lemma_grid_count_same(a.drop_last(), b.drop_last(), f);
        lemma_row_count_same(a.last(), b.last(), f);
    }
}

pub proof fn lemma_row_count_same<T>(a: Seq<T>, b: Seq<T>, f: spec_fn(T) -> bool)
    requires
        a.len() == b.len(),
        forall|c: int| 0 <= c < a.len() ==> f(#[trigger] a[c]) == f(b[c]),
    ensures
        row_count(a, f) == row_count(b, f),
    decreases a.len(),
{
    if a.len() > 0 {
        lemma_row_count_same(a.drop_last(), b.drop_last(), f);
    }
}

/// A row counts at most its length, exactly its length when every entry
/// satisfies `f`, and zero when none does.
pub proof fn lemma_row_count_bounds<T>(row: Seq<T>, f: spec_fn(T) -> bool)
    ensures
        row_count(row, f) <= row.len(),
        (forall|c: int| 0 <= c < row.len() ==> f(#[trigger] row[c])) ==> row_count(row, f) == row.len(),
        (forall|c: int| 0 <= c < row.len() ==> !f(#[trigger] row[c])) ==> row_count(row, f) == 0,
    decreases row.len(),
{
    if row.len() > 0 {
        lemma_row_count_bounds(row.drop_last(), f);
    }
}

/// A matrix of `rows.len()` rows of `w` entries counts at most `rows.len() * w`,
/// exactly that when every entry satisfies `f`, and zero when none does.
pub proof fn lemma_grid_count_bounds<T>(rows: Seq<Seq<T>>, w: nat, f: spec_fn(T) -> bool)
    requires
        forall|r: int| 0 <= r < rows.len() ==> (#[trigger] rows[r]).len() == w,
    ensures
        grid_count(rows, f) <= rows.len() * w,
        (forall|r: int, c: int| 0 <= r < rows.len() && 0 <= c < w ==> f(#[trigger] rows[r][c]))
            ==> grid_count(rows, f) == rows.len() * w,
        (forall|r: int, c: int| 0 <= r < rows.len() && 0 <= c < w ==> !f(#[trigger] rows[r][c]))
            ==> grid_count(rows, f) == 0,
    decreases rows.len(),
{
    if rows.len() > 0 {
        let n = rows.len() - 1;
        lemma_grid_count_bounds(rows.drop_last(), w, f);
        lemma_row_count_bounds(rows.last(), f);
        assert((n + 1) * w == n * w + w) by (nonlinear_arith);
        if forall|r: int, c: int| 0 <= r < rows.len() && 0 <= c < w ==> f(#[trigger] rows[r][c]) {
            assert forall|c: int| 0 <= c < rows.last().len() implies f(#[trigger] rows.last()[c]) by {
                assert(f(rows[n as int][c]));
            }
            assert forall|r: int, c: int| 0 <= r < n && 0 <= c < w implies f(
                #[trigger] rows.drop_last()[r][c],
            ) by {
                assert(f(rows[r][c]));
            }
        }
        if forall|r: int, c: int| 0 <= r < rows.len() && 0 <= c < w ==> !f(#[trigger] rows[r][c]) {
            assert forall|c: int| 0 <= c < rows.last().len() implies !f(#[trigger] rows.last()[c]) by {
                assert(!f(rows[n as int][c]));
            }
            assert forall|r: int, c: int| 0 <= r < n && 0 <= c < w implies !f(
                #[trigger] rows.drop_last()[r][c],
            ) by {
                assert(!f(rows[r][c]));
            }
        }
    }
}

} // verus!
