//! Rows of a matrix and the flat, row-major sequence they make up.

use vstd::prelude::*;

verus! {

/// The rows put end to end.
pub open spec fn flat<T>(rows: Seq<Seq<T>>) -> Seq<T>
    decreases rows.len(),
{
    if rows.len() == 0 {
        Seq::empty()
    } else {
        flat(rows.drop_last()) + rows.last()
    }
}

/// The contents of each vector of a list of vectors.
pub open spec fn views<T>(rows: Seq<Vec<T>>) -> Seq<Seq<T>> {
    Seq::new(rows.len(), |i: int| rows[i]@)
}

/// Whether every row has `width` elements.
pub open spec fn uniform<T>(rows: Seq<Seq<T>>, width: int) -> bool {
    forall|i: int| 0 <= i < rows.len() ==> (#[trigger] rows[i]).len() == width
}

/// Appending a row appends its elements.
pub proof fn lemma_flat_push<T>(rows: Seq<Seq<T>>, row: Seq<T>)
    ensures
        flat(rows.push(row)) == flat(rows) + row,
{
    assert(rows.push(row).drop_last() =~= rows);
}

/// Rows of one width fill `rows.len() * width` places.
pub proof fn lemma_flat_len<T>(rows: Seq<Seq<T>>, width: int)
    requires
        uniform(rows, width),
        width >= 0,
    ensures
        flat(rows).len() == rows.len() * width,
    decreases rows.len(),
{
    if rows.len() > 0 {
        let init = rows.drop_last();
        assert(uniform(init, width)) by {
            assert forall|i: int| 0 <= i < init.len() implies (#[trigger] init[i]).len() == width by {
                assert(init[i] == rows[i]);
            }
        }
        lemma_flat_len(init, width);
        assert(rows.last() == rows[rows.len() - 1]);
        assert(rows.len() * width == (rows.len() - 1) * width + width) by (nonlinear_arith);
        assert(init.len() == rows.len() - 1);
    } else {
        assert(rows.len() * width == 0) by (nonlinear_arith)
            requires
                rows.len() == 0,
        ;
    }
}

/// Row `r` of the flat sequence is the `r`-th stretch of `width` elements.
pub proof fn lemma_flat_row<T>(rows: Seq<Seq<T>>, width: int, r: int)
    requires
        uniform(rows, width),
        width >= 0,
        0 <= r < rows.len(),
    ensures
        flat(rows).len() == rows.len() * width,
        0 <= r * width <= (r + 1) * width <= rows.len() * width,
        flat(rows).subrange(r * width, (r + 1) * width) == rows[r],
    decreases rows.len(),
{
    lemma_flat_len(rows, width);
    let init = rows.drop_last();
    assert(uniform(init, width)) by {
        assert forall|i: int| 0 <= i < init.len() implies (#[trigger] init[i]).len() == width by {
            assert(init[i] == rows[i]);
        }
    }
    lemma_flat_len(init, width);
    let n = init.len() as int;
    assert(0 <= r * width <= (r + 1) * width <= rows.len() * width && (n + 1) * width == n * width
        + width) by (nonlinear_arith)
        requires
            0 <= r < rows.len(),
            width >= 0,
    ;
    if r < n {
        lemma_flat_row(init, width, r);
        assert(flat(rows).subrange(r * width, (r + 1) * width) =~= flat(init).subrange(
            r * width,
            (r + 1) * width,
        ));
        assert(init[r] == rows[r]);
    } else {
        assert(flat(rows).subrange(r * width, (r + 1) * width) =~= rows.last());
    }
}

/// The contents of a list of vectors are the contents of each, in the order of the list.
pub proof fn law_views_are_the_contents<T>(rows: Seq<Vec<T>>)
    ensures
        views(rows).len() == rows.len(),
        forall|i: int| 0 <= i < rows.len() ==> #[trigger] views(rows)[i] == rows[i]@,
{
}

/// Rows put end to end are the rows flattened, the first first.
pub proof fn law_flat_is_flatten<T>(rows: Seq<Seq<T>>)
    ensures
        flat(rows) == rows.flatten(),
    decreases rows.len(),
{
    if rows.len() > 0 {
        law_flat_is_flatten(rows.drop_last());
        assert(rows =~= rows.drop_last().push(rows.last()));
        rows.drop_last().lemma_flatten_push(rows.last());
    }
}

} // verus!
