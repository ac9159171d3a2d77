//! Rectangular tables stored column by column: building them, reading their
//! shape, and counting the entries that satisfy a predicate.

use vstd::prelude::*;

verus! {

/// The table held by nested vectors: `table_view(t)[x][y]` is `t[x][y]`.
pub open spec fn table_view<T>(table: Vec<Vec<T>>) -> Seq<Seq<T>> {
    Seq::new(table@.len(), |x: int| table@[x]@)
}

/// A table has shape `width x height` when it has `width` columns of `height` entries each.
pub open spec fn has_shape<T>(table: Seq<Seq<T>>, width: nat, height: nat) -> bool {
    &&& table.len() == width
    &&& forall|x: int| 0 <= x < width ==> (#[trigger] table[x]).len() == height
}

/// The table of the given shape whose every entry is `value`.
pub open spec fn uniform<T>(width: nat, height: nat, value: T) -> Seq<Seq<T>> {
    Seq::new(width, |x: int| Seq::new(height, |y: int| value))
}

/// `table` with the entry at column `x`, row `y` replaced by `value`.
pub open spec fn with_entry<T>(table: Seq<Seq<T>>, x: int, y: int, value: T) -> Seq<Seq<T>> {
    table.update(x, table[x].update(y, value))
}

/// How many entries of one column satisfy `pred`.
pub open spec fn count_in_column<T>(column: Seq<T>, pred: spec_fn(T) -> bool) -> nat
    decreases column.len(),
{
    if column.len() == 0 {
        0
    } else {
        count_in_column(column.drop_last(), pred) + if pred(column.last()) {
            1nat
        } else {
            0nat
        }
    }
}

/// How many entries of a table satisfy `pred`.
pub open spec fn count<T>(table: Seq<Seq<T>>, pred: spec_fn(T) -> bool) -> nat
    decreases table.len(),
{
    if table.len() == 0 {
        0
    } else {
        count(table.drop_last(), pred) + count_in_column(table.last(), pred)
    }
}

/// No more entries of a column count than it has; fewer if one does not
/// count; none if none does.
pub proof fn lemma_column_count_bounds<T>(column: Seq<T>, pred: spec_fn(T) -> bool)
    ensures
        count_in_column(column, pred) <= column.len(),
        (exists|y: int| 0 <= y < column.len() && !pred(column[y])) ==> count_in_column(column, pred)
            < column.len(),
        (forall|y: int| 0 <= y < column.len() ==> !pred(column[y])) ==> count_in_column(column, pred)
            == 0,
    decreases column.len(),
{
    if column.len() > 0 {
        let rest = column.drop_last();
        lemma_column_count_bounds(rest, pred);
        if exists|y: int| 0 <= y < column.len() && !pred(column[y]) {
            let y = choose|y: int| 0 <= y < column.len() && !pred(column[y]);
            if y < rest.len() {
                assert(!pred(rest[y]));
            }
        }
        if forall|y: int| 0 <= y < column.len() ==> !pred(column[y]) {
            assert forall|y: int| 0 <= y < rest.len() implies !pred(rest[y]) by {
                assert(rest[y] == column[y]);
            }
        }
    }
}

/// What a table holds after one entry was replaced.
pub proof fn lemma_with_entry<T>(table: Seq<Seq<T>>, width: nat, height: nat, x: int, y: int, value: T)
    requires
        has_shape(table, width, height),
        0 <= x < width,
        0 <= y < height,
    ensures
        has_shape(with_entry(table, x, y, value), width, height),
        forall|a: int, b: int|
            0 <= a < width && 0 <= b < height ==> #[trigger] with_entry(table, x, y, value)[a][b]
                == if a == x && b == y {
                value
            } else {
                table[a][b]
            },
{
    let after = with_entry(table, x, y, value);
    assert forall|a: int| 0 <= a < width implies (#[trigger] after[a]).len() == height by {
        assert(table[a].len() == height);
    }
    assert forall|a: int, b: int| 0 <= a < width && 0 <= b < height implies #[trigger] after[a][b]
        == if a == x && b == y {
        value
    } else {
        table[a][b]
    } by {
        assert(table[a].len() == height);
    }
}

/// In a table with the same value everywhere, all entries count or none does.
pub proof fn lemma_count_uniform<T>(width: nat, height: nat, value: T, pred: spec_fn(T) -> bool)
    ensures
        has_shape(uniform(width, height, value), width, height),
        count(uniform(width, height, value), pred) == if pred(value) {
            width * height
        } else {
            0
        },
    decreases width,
{
    let table = uniform(width, height, value);
    assert(has_shape(table, width, height));
    if width > 0 {
        lemma_count_uniform((width - 1) as nat, height, value, pred);
        assert(table.drop_last() =~= uniform((width - 1) as nat, height, value));
        lemma_column_count_uniform(height, value, pred);
        assert(table.last() =~= Seq::new(height, |y: int| value));
        assert(width * height == (width - 1) * height + height) by (nonlinear_arith);
    } else {
        assert(width * height == 0) by (nonlinear_arith)
            requires
                width == 0,
        ;
    }
}

/// In a column with the same value everywhere, all entries count or none does.
pub proof fn lemma_column_count_uniform<T>(height: nat, value: T, pred: spec_fn(T) -> bool)
    ensures
        count_in_column(Seq::new(height, |y: int| value), pred) == if pred(value) {
            height
        } else {
            0
        },
    decreases height,
{
    let column = Seq::new(height, |y: int| value);
    if height > 0 {
        lemma_column_count_uniform((height - 1) as nat, value, pred);
        assert(column.drop_last() =~= Seq::new((height - 1) as nat, |y: int| value));
    }
}

/// Replacing one entry changes the count by what that entry contributes.
pub proof fn lemma_column_count_update<T>(
    column: Seq<T>,
    pred: spec_fn(T) -> bool,
    y: int,
    value: T,
)
    requires
        0 <= y < column.len(),
    ensures
        count_in_column(column.update(y, value), pred) + (if pred(column[y]) { 1int } else { 0int })
            == count_in_column(column, pred) + (if pred(value) { 1int } else { 0int }),
    decreases column.len(),
{
    let after = column.update(y, value);
    if y == column.len() - 1 {
        assert(after.drop_last() =~= column.drop_last());
    } else {
        lemma_column_count_update(column.drop_last(), pred, y, value);
        assert(after.drop_last() =~= column.drop_last().update(y, value));
    }
}

/// No more entries of a table count than it has; fewer if one does not
/// count; none if none does.
pub proof fn lemma_count_bounds<T>(table: Seq<Seq<T>>, pred: spec_fn(T) -> bool, height: nat)
    requires
        has_shape(table, table.len(), height),
    ensures
        count(table, pred) <= table.len() * height,
        (exists|x: int, y: int| 0 <= x < table.len() && 0 <= y < height && !pred(table[x][y]))
            ==> count(table, pred) < table.len() * height,
        (forall|x: int, y: int| 0 <= x < table.len() && 0 <= y < height ==> !pred(table[x][y]))
            ==> count(table, pred) == 0,
    decreases table.len(),
{
    if table.len() > 0 {
        let rest = table.drop_last();
        assert(has_shape(rest, rest.len(), height)) by {
            assert forall|x: int| 0 <= x < rest.len() implies (#[trigger] rest[x]).len()
                == height by {
                assert(rest[x] == table[x]);
            }
        }
        lemma_count_bounds(rest, pred, height);
        lemma_column_count_bounds(table.last(), pred);
        assert(table.len() * height == rest.len() * height + height) by (nonlinear_arith)
            requires
                table.len() == rest.len() + 1,
        ;
        if exists|x: int, y: int| 0 <= x < table.len() && 0 <= y < height && !pred(table[x][y]) {
            let (x, y) = choose|x: int, y: int|
                0 <= x < table.len() && 0 <= y < height && !pred(table[x][y]);
            if x < rest.len() {
                assert(!pred(rest[x][y]));
            } else {
                assert(!pred(table.last()[y]));
            }
        }
        if forall|x: int, y: int| 0 <= x < table.len() && 0 <= y < height ==> !pred(table[x][y]) {
            assert forall|x: int, y: int| 0 <= x < rest.len() && 0 <= y < height implies !pred(
                rest[x][y],
            ) by {
                assert(rest[x] == table[x]);
            }
            assert forall|y: int| 0 <= y < table.last().len() implies !pred(table.last()[y]) by {
                assert(table.last() == table[table.len() - 1]);
            }
        }
    } else {
        assert(table.len() * height == 0) by (nonlinear_arith)
            requires
                table.len() == 0,
        ;
    }
}

/// Replacing one entry of a table changes the count by what that entry contributes.
pub proof fn lemma_count_update<T>(
    table: Seq<Seq<T>>,
    pred: spec_fn(T) -> bool,
    x: int,
    y: int,
    value: T,
)
    requires
        0 <= x < table.len(),
        0 <= y < table[x].len(),
    ensures
        count(with_entry(table, x, y, value), pred) + (if pred(table[x][y]) { 1int } else { 0int })
            == count(table, pred) + (if pred(value) { 1int } else { 0int }),
    decreases table.len(),
{
    let after = with_entry(table, x, y, value);
    if x == table.len() - 1 {
        assert(after.drop_last() =~= table.drop_last());
        lemma_column_count_update(table.last(), pred, y, value);
    } else {
        lemma_count_update(table.drop_last(), pred, x, y, value);
        assert(after.drop_last() =~= with_entry(table.drop_last(), x, y, value));
    }
}

/// A table of the given shape with `value` in every place.
pub fn filled<T: Copy>(width: usize, height: usize, value: T) -> (table: Vec<Vec<T>>)
    ensures
        table_view(table) == uniform(width as nat, height as nat, value),
{
    let mut table: Vec<Vec<T>> = Vec::new();
    let mut x: usize = 0;
    while x < width
        invariant
            x <= width,
            table_view(table) == uniform(x as nat, height as nat, value),
        decreases width - x,
    {
        let mut column: Vec<T> = Vec::new();
        let mut y: usize = 0;
        while y < height
            invariant
                y <= height,
                column@ == Seq::new(y as nat, |j: int| value),
            decreases height - y,
        {
            column.push(value);
            y += 1;
            assert(column@ =~= Seq::new(y as nat, |j: int| value));
        }
        let ghost before = table_view(table);
        assert(before.len() == x);
        assert(table@.len() == x);
        table.push(column);
        x += 1;
        assert(table@.len() == x);
        assert forall|i: int| 0 <= i < x implies #[trigger] table_view(table)[i] == uniform(
            x as nat,
            height as nat,
            value,
        )[i] by {
            if i < x - 1 {
                assert(table_view(table)[i] == before[i]);
            }
        }
        assert(table_view(table) =~= uniform(x as nat, height as nat, value));
    }
    table
}

/// An entry-for-entry copy of a table.
pub fn duplicate<T: Copy>(table: &Vec<Vec<T>>) -> (copy: Vec<Vec<T>>)
    ensures
        table_view(copy) == table_view(*table),
{
    let mut copy: Vec<Vec<T>> = Vec::new();
    let mut x: usize = 0;
    while x < table.len()
        invariant
            x <= table.len(),
            copy@.len() == x,
            forall|i: int| 0 <= i < x ==> (#[trigger] copy@[i])@ == table@[i]@,
        decreases table.len() - x,
    {
        let column = &table[x];
        let mut copied: Vec<T> = Vec::new();
        let mut y: usize = 0;
        while y < column.len()
            invariant
                y <= column.len(),
                copied@ == column@.take(y as int),
            decreases column.len() - y,
        {
            copied.push(column[y]);
            y += 1;
            assert(copied@ =~= column@.take(y as int));
        }
        assert(copied@ =~= column@);
        copy.push(copied);
        x += 1;
    }
    assert(table_view(copy) =~= table_view(*table));
    copy
}

/// Writes `value` at column `x`, row `y`.
pub fn set_entry<T>(table: &mut Vec<Vec<T>>, x: usize, y: usize, value: T)
    requires
        x < old(table)@.len(),
        y < old(table)@[x as int]@.len(),
    ensures
        table_view(*final(table)) == with_entry(table_view(*old(table)), x as int, y as int, value),
{
    let ghost before = *table;
    table[x][y] = value;
    assert(table_view(*table) =~= with_entry(table_view(before), x as int, y as int, value));
}

} // verus!
