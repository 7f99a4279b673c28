//! What INSERT, UPDATE and DELETE leave in a table, row by row and column by column.
use crate::engine::access;
use crate::engine::access::{AccessView, StoredView};
use crate::engine::answer;
use crate::engine::codec;
use crate::engine::delete;
use crate::engine::error::{EngineErrorView, StopView};
use crate::engine::expression;
use crate::engine::float::{FloatOperation, FloatRequest};
use crate::engine::insert;
use crate::engine::insert::Inserting;
use crate::engine::integrity;
use crate::engine::operators;
use crate::engine::operators::Scope;
use crate::engine::output::OutputView;
use crate::engine::results;
use crate::engine::schema;
use crate::engine::schema::{ColumnView, LogicalType, TableView};
use crate::engine::typing;
use crate::engine::update;
use crate::engine::update::Updating;
use crate::engine::value::ValueView;
use crate::engine::world;
use crate::mvcc::prefix;
use crate::syntax::{Assignment, Delete, Expr, Identifier, Insert, Update};
use vstd::prelude::*;

verus! {

/// Whether a column keeps a value as another: an integer in a column of floats as the float nearest to
/// it, and everything else as it is.
pub open spec fn keeps(
    value: ValueView,
    data_type: LogicalType,
    floats: Map<FloatRequest, u64>,
    kept: ValueView,
) -> bool {
    if value is Integer && data_type is Float64 {
        kept matches ValueView::Float(bits) && floats.contains_pair(
            FloatRequest {
                operation: FloatOperation::FromInteger,
                left: (if value->Integer_0 < 0 {
                    value->Integer_0 + 0x1_0000_0000_0000_0000
                } else {
                    value->Integer_0 as int
                }) as u64,
                right: 0,
            },
            bits,
        )
    } else {
        kept == value
    }
}

/// A value is stored as its column keeps it; nothing but an unknown conversion to a float stands
/// against it.
pub proof fn law_columns_keep_values(
    value: ValueView,
    data_type: LogicalType,
    floats: Map<FloatRequest, u64>,
)
    ensures
        access::coerced(value, data_type, floats) matches Ok(kept) ==> keeps(
            value,
            data_type,
            floats,
            kept,
        ),
        access::coerced(value, data_type, floats) matches Err(stop) ==> stop == StopView::Needs
            && value is Integer && data_type is Float64,
{
}

/// Whether a column holds what an expression gives on a row.
pub open spec fn holds(
    expr: Expr,
    scope: Scope,
    data_type: LogicalType,
    kept: ValueView,
) -> bool {
    exists|value: ValueView| #[trigger]
        operators::gives(expr, scope, value) && keeps(value, data_type, scope.floats, kept)
}

/// Whether a column is the first of its name.
pub open spec fn is_named(columns: Seq<ColumnView>, c: int, name: Seq<char>) -> bool {
    &&& 0 <= c < columns.len()
    &&& columns[c].name == name
    &&& forall|i: int| 0 <= i < c ==> (#[trigger] columns[i]).name != name
}

/// Whether some column has a name.
pub open spec fn is_known(columns: Seq<ColumnView>, name: Seq<char>) -> bool {
    exists|c: int| 0 <= c < columns.len() && (#[trigger] columns[c]).name == name
}

proof fn lemma_named(columns: Seq<ColumnView>, name: Seq<char>)
    ensures
        schema::position_from(columns, name, 0) is Some <==> is_known(columns, name),
        forall|c: int| #[trigger]
            is_named(columns, c, name) <==> schema::position_from(columns, name, 0) == Some(c),
{
    schema::lemma_first_named(columns, name, 0);
    assert forall|c: int| #[trigger] is_named(columns, c, name) implies schema::position_from(
        columns,
        name,
        0,
    ) == Some(c) by {
        let found = schema::position_from(columns, name, 0)->0;
        if found < c {
            assert(columns[found].name != name);
        }
    }
}

/// Whether a row is another with assignments made: each column assigned to holds what its expression
/// gives on the row of before, and every other column what it held.
pub open spec fn is_assigned(
    assignments: Seq<Assignment>,
    columns: Seq<ColumnView>,
    floats: Map<FloatRequest, u64>,
    before: Seq<ValueView>,
    after: Seq<ValueView>,
) -> bool {
    let scope = Scope { columns, row: before, floats };
    &&& after.len() == before.len()
    &&& forall|n: int, c: int|
        0 <= n < assignments.len() && #[trigger] is_named(
            columns,
            c,
            (#[trigger] assignments[n]).column.value@,
        ) ==> holds(assignments[n].value, scope, columns[c].data_type, after[c])
    &&& forall|c: int|
        0 <= c < before.len() && (forall|n: int|
            0 <= n < assignments.len() ==> !is_named(
                columns,
                c,
                (#[trigger] assignments[n]).column.value@,
            )) ==> #[trigger] after[c] == before[c]
}

proof fn lemma_assigned(assignments: Seq<Assignment>, columns: Seq<ColumnView>, count: nat)
    requires
        count <= assignments.len(),
    ensures
        update::assigned(assignments, columns, count) matches Ok(positions) ==> {
            &&& positions.len() == count
            &&& positions.no_duplicates()
            &&& forall|n: int|
                0 <= n < count ==> is_named(
                    columns,
                    #[trigger] positions[n],
                    assignments[n].column.value@,
                )
        },
        update::assigned(assignments, columns, count) is Ok <==> {
            &&& forall|n: int|
                0 <= n < count ==> is_known(columns, (#[trigger] assignments[n]).column.value@)
            &&& forall|n: int, m: int|
                0 <= n < m < count ==> (#[trigger] assignments[n]).column.value@ != (
                #[trigger] assignments[m]).column.value@
        },
    decreases count,
{
    if count > 0 {
        let before = (count - 1) as nat;
        lemma_assigned(assignments, columns, before);
        let name = assignments[count - 1].column.value@;
        lemma_named(columns, name);
        if let Ok(front) = update::assigned(assignments, columns, before) {
            if let Some(position) = schema::position_from(columns, name, 0) {
                assert(is_named(columns, position, name));
                if front.contains(position) {
                    let n = front.index_of(position);
                    assert(is_named(columns, front[n], assignments[n].column.value@));
                    assert(assignments[n].column.value@ == name);
                } else {
                    assert forall|n: int| 0 <= n < before implies (
                    #[trigger] assignments[n]).column.value@ != name by {
                        if assignments[n].column.value@ == name {
                            assert(is_named(columns, front[n], name));
                            assert(front[n] == position);
                        }
                    }
                }
            } else {
                assert(!is_known(columns, assignments[count - 1].column.value@));
            }
        }
    }
}

proof fn lemma_changed(
    assignments: Seq<Assignment>,
    positions: Seq<int>,
    columns: Seq<ColumnView>,
    before: Seq<ValueView>,
    values: Seq<ValueView>,
    floats: Map<FloatRequest, u64>,
    at: int,
)
    requires
        0 <= at <= positions.len() == assignments.len(),
        positions.no_duplicates(),
        forall|n: int| 0 <= n < positions.len() ==> 0 <= #[trigger] positions[n] < values.len(),
    ensures
        update::changed(assignments, positions, columns, before, values, floats, at) matches Ok(
            after,
        ) ==> {
            &&& after.len() == values.len()
            &&& forall|n: int|
                at <= n < positions.len() ==> holds(
                    assignments[n].value,
                    Scope { columns, row: before, floats },
                    columns[positions[n]].data_type,
                    after[#[trigger] positions[n]],
                )
            &&& forall|c: int|
                0 <= c < values.len() && (forall|n: int|
                    at <= n < positions.len() ==> #[trigger] positions[n] != c) ==> #[trigger] after[c]
                    == values[c]
        },
    decreases positions.len() - at,
{
    let scope = Scope { columns, row: before, floats };
    if at < positions.len() {
        if let Ok(after) = update::changed(
            assignments,
            positions,
            columns,
            before,
            values,
            floats,
            at,
        ) {
            let plain = expression::evaluated(assignments[at].value, columns, before, floats)->Ok_0;
            let value = access::coerced(plain, columns[positions[at]].data_type, floats)->Ok_0;
            let next = values.update(positions[at], value);
            lemma_changed(assignments, positions, columns, before, next, floats, at + 1);
            law_columns_keep_values(plain, columns[positions[at]].data_type, floats);
            assert(after[positions[at]] == next[positions[at]]) by {
                assert forall|n: int| at + 1 <= n < positions.len() implies #[trigger] positions[n]
                    != positions[at] by {}
            }
            assert(operators::gives(assignments[at].value, scope, plain));
            assert(holds(
                assignments[at].value,
                scope,
                columns[positions[at]].data_type,
                after[positions[at]],
            ));
            assert forall|n: int| at <= n < positions.len() implies holds(
                assignments[n].value,
                scope,
                columns[positions[n]].data_type,
                after[#[trigger] positions[n]],
            ) by {
                if n > at {
                    assert(holds(
                        assignments[n].value,
                        scope,
                        columns[positions[n]].data_type,
                        after[positions[n]],
                    ));
                }
            }
            assert forall|c: int|
                0 <= c < values.len() && (forall|n: int|
                    at <= n < positions.len() ==> #[trigger] positions[n] != c) implies #[trigger] after[c]
                == values[c] by {
                assert(positions[at] != c);
                assert(next[c] == values[c]);
            }
        }
    }
}

/// An UPDATE sets each column that it assigns to to the value that its expression has on the row as it
/// stood before the statement, and leaves every other column of the row alone. It is refused where it
/// names a column that there is not, or a column twice.
pub proof fn law_assignments_see_the_old_row(
    assignments: Seq<Assignment>,
    columns: Seq<ColumnView>,
    floats: Map<FloatRequest, u64>,
    before: Seq<ValueView>,
)
    requires
        before.len() == columns.len(),
    ensures
        update::assigned(assignments, columns, assignments.len()) is Ok <==> {
            &&& forall|n: int|
                0 <= n < assignments.len() ==> is_known(
                    columns,
                    (#[trigger] assignments[n]).column.value@,
                )
            &&& forall|n: int, m: int|
                0 <= n < m < assignments.len() ==> (#[trigger] assignments[n]).column.value@ != (
                #[trigger] assignments[m]).column.value@
        },
        update::assigned(assignments, columns, assignments.len()) matches Ok(positions) ==> (
        update::changed(assignments, positions, columns, before, before, floats, 0) matches Ok(
            after,
        ) ==> is_assigned(assignments, columns, floats, before, after)),
{
    lemma_assigned(assignments, columns, assignments.len());
    if let Ok(positions) = update::assigned(assignments, columns, assignments.len()) {
        assert forall|n: int| 0 <= n < positions.len() implies 0 <= #[trigger] positions[n]
            < before.len() by {
            assert(is_named(columns, positions[n], assignments[n].column.value@));
        }
        lemma_changed(assignments, positions, columns, before, before, floats, 0);
        if let Ok(after) = update::changed(
            assignments,
            positions,
            columns,
            before,
            before,
            floats,
            0,
        ) {
            let scope = Scope { columns, row: before, floats };
            assert forall|n: int, c: int|
                0 <= n < assignments.len() && #[trigger] is_named(
                    columns,
                    c,
                    (#[trigger] assignments[n]).column.value@,
                ) implies holds(
                assignments[n].value,
                scope,
                columns[c].data_type,
                after[c],
            ) by {
                lemma_named(columns, assignments[n].column.value@);
                assert(is_named(columns, positions[n], assignments[n].column.value@));
                assert(positions[n] == c);
            }
            assert forall|c: int|
                0 <= c < before.len() && (forall|n: int|
                    0 <= n < assignments.len() ==> !is_named(
                        columns,
                        c,
                        (#[trigger] assignments[n]).column.value@,
                    )) implies #[trigger] after[c] == before[c] by {
                assert forall|n: int| 0 <= n < positions.len() implies #[trigger] positions[n]
                    != c by {
                    assert(is_named(columns, positions[n], assignments[n].column.value@));
                    assert(!is_named(columns, c, assignments[n].column.value@));
                }
            }
        }
    }
}

/// A row with assignments made is determined by them, in whatever order they are written.
pub proof fn law_assignment_order_does_not_matter(
    first: Seq<Assignment>,
    second: Seq<Assignment>,
    columns: Seq<ColumnView>,
    floats: Map<FloatRequest, u64>,
    before: Seq<ValueView>,
    one: Seq<ValueView>,
    two: Seq<ValueView>,
)
    requires
        before.len() == columns.len(),
        forall|n: int| 0 <= n < first.len() ==> second.contains(#[trigger] first[n]),
        forall|n: int| 0 <= n < second.len() ==> first.contains(#[trigger] second[n]),
        update::assigned(first, columns, first.len()) matches Ok(positions) && update::changed(
            first,
            positions,
            columns,
            before,
            before,
            floats,
            0,
        ) == Ok::<Seq<ValueView>, StopView>(one),
        update::assigned(second, columns, second.len()) matches Ok(positions) && update::changed(
            second,
            positions,
            columns,
            before,
            before,
            floats,
            0,
        ) == Ok::<Seq<ValueView>, StopView>(two),
    ensures
        one == two,
{
    law_assignments_see_the_old_row(first, columns, floats, before);
    law_assignments_see_the_old_row(second, columns, floats, before);
    let scope = Scope { columns, row: before, floats };
    assert forall|c: int| 0 <= c < before.len() implies #[trigger] one[c] == two[c] by {
        if exists|n: int|
            0 <= n < first.len() && is_named(columns, c, (#[trigger] first[n]).column.value@) {
            let n = choose|n: int|
                0 <= n < first.len() && is_named(columns, c, (#[trigger] first[n]).column.value@);
            assert(second.contains(first[n]));
            let m = second.index_of(first[n]);
            assert(is_named(columns, c, second[m].column.value@));
            assert(holds(first[n].value, scope, columns[c].data_type, one[c]));
            assert(holds(second[m].value, scope, columns[c].data_type, two[c]));
        } else {
            assert forall|m: int| 0 <= m < second.len() implies !is_named(
                columns,
                c,
                (#[trigger] second[m]).column.value@,
            ) by {
                assert(first.contains(second[m]));
                let n = first.index_of(second[m]);
                assert(!is_named(columns, c, first[n].column.value@));
            }
            assert(one[c] == before[c]);
            assert(two[c] == before[c]);
        }
    }
    assert(one =~= two);
}

/// Whether places are those of the rows that a condition is true of.
pub open spec fn are_met(
    selection: Option<Expr>,
    columns: Seq<ColumnView>,
    rows: Seq<StoredView>,
    floats: Map<FloatRequest, u64>,
    places: Seq<int>,
) -> bool {
    &&& places.no_duplicates()
    &&& forall|r: int|
        0 <= r < rows.len() ==> (places.contains(r) <==> results::is_met(
            selection,
            results::scope_of(columns, #[trigger] rows[r], floats),
        ))
    &&& forall|i: int| 0 <= i < places.len() ==> 0 <= #[trigger] places[i] < rows.len()
}

proof fn lemma_counted(
    selection: Option<Expr>,
    table: TableView,
    rows: Seq<StoredView>,
    floats: Map<FloatRequest, u64>,
    at: int,
) -> (places: Seq<int>)
    requires
        0 <= at <= rows.len(),
    ensures
        places.len() == integrity::chosen_count(selection, table, rows, floats, at),
        places.no_duplicates(),
        forall|r: int|
            at <= r < rows.len() ==> (places.contains(r) <==> results::is_met(
                selection,
                results::scope_of(table.columns, #[trigger] rows[r], floats),
            )),
        forall|i: int| 0 <= i < places.len() ==> at <= #[trigger] places[i] < rows.len(),
    decreases rows.len() - at,
{
    if at >= rows.len() {
        Seq::empty()
    } else {
        let rest = lemma_counted(selection, table, rows, floats, at + 1);
        let scope = results::scope_of(table.columns, rows[at], floats);
        operators::law_conditions_choose(selection, scope);
        if results::is_met(selection, scope) {
            let places = rest.push(at);
            assert forall|r: int| at <= r < rows.len() implies (places.contains(r)
                <==> results::is_met(
                selection,
                results::scope_of(table.columns, #[trigger] rows[r], floats),
            )) by {
                if r == at {
                    assert(places[rest.len() as int] == at);
                } else if rest.contains(r) {
                    let i = rest.index_of(r);
                    assert(places[i] == r);
                } else if places.contains(r) {
                    let i = places.index_of(r);
                    assert(rest[i] == r);
                }
            }
            places
        } else {
            assert(!rest.contains(at)) by {
                if rest.contains(at) {
                    let i = rest.index_of(at);
                    assert(rest[i] == at);
                }
            }
            rest
        }
    }
}

/// Rows of a table that a statement does not read do not meet its condition.
proof fn lemma_unread(
    table: TableView,
    selection: Option<Expr>,
    world: Map<Seq<u8>, Seq<u8>>,
    floats: Map<FloatRequest, u64>,
    rows: Seq<StoredView>,
    k: Seq<u8>,
)
    requires
        world.dom().finite(),
        integrity::consistent(table, world),
        answer::key_column_named(table),
        typing::typed(table.columns),
        !answer::seeks_zero(table, selection, floats),
        access::rows_read(table, selection, world, floats) == Ok::<Seq<StoredView>, StopView>(rows),
        world.contains_key(k),
        prefix::starts_with(k, codec::rows_of(table.id)),
        !integrity::has_key(rows, k),
    ensures
        integrity::row_at(world, k) matches Some(values) && !results::is_met(
            selection,
            Scope { columns: table.columns, row: values, floats },
        ),
{
    assert(integrity::row_sound(table, world, k));
    let values = integrity::row_at(world, k)->0;
    operators::law_conditions_choose(
        selection,
        Scope { columns: table.columns, row: values, floats },
    );
    match access::planned(table, selection, world, floats)->Ok_0 {
        AccessView::Scan => {
            integrity::law_scan_reads_every_row(table, world);
        },
        AccessView::Point(found) => {
            if found == Some(k) {
                assert(rows[0].key == k);
            }
            answer::lemma_only_the_found(
                table,
                selection,
                world,
                floats,
                found,
                StoredView { key: k, values },
            );
        },
    }
}

/// What a table is like that statements find rows in as their conditions say.
pub open spec fn is_searchable(
    table: TableView,
    selection: Option<Expr>,
    world: Map<Seq<u8>, Seq<u8>>,
    floats: Map<FloatRequest, u64>,
) -> bool {
    &&& world.dom().finite()
    &&& integrity::consistent(table, world)
    &&& answer::key_column_named(table)
    &&& typing::typed(table.columns)
    &&& !answer::seeks_zero(table, selection, floats)
}

/// Whether a key is that of a row of a table.
pub open spec fn is_row(table: TableView, world: Map<Seq<u8>, Seq<u8>>, k: Seq<u8>) -> bool {
    world.contains_key(k) && prefix::starts_with(k, codec::rows_of(table.id))
}

/// A DELETE takes away every row of its table that its condition is true of, leaves every other row as it
/// is, and tells how many rows it took away.
pub proof fn law_delete_takes_what_matches(
    delete: Delete,
    world: Map<Seq<u8>, Seq<u8>>,
    floats: Map<FloatRequest, u64>,
    table: TableView,
    after: Map<Seq<u8>, Seq<u8>>,
    output: OutputView,
)
    requires
        access::table_named(delete.table.value@, world) == Ok::<TableView, StopView>(table),
        is_searchable(table, delete.selection, world, floats),
        delete::deleted(delete, world, floats) == Ok::<
            (Map<Seq<u8>, Seq<u8>>, OutputView),
            StopView,
        >((after, output)),
    ensures
        forall|k: Seq<u8>| #[trigger]
            is_row(table, world, k) ==> (integrity::row_at(world, k) matches Some(values)
                && if results::is_met(
                delete.selection,
                Scope { columns: table.columns, row: values, floats },
            ) {
                !after.contains_key(k)
            } else {
                world::found(after, k) == world::found(world, k)
            }),
        forall|k: Seq<u8>| #[trigger] is_row(table, after, k) ==> is_row(table, world, k),
        access::rows_read(table, delete.selection, world, floats) matches Ok(rows) && exists|
            places: Seq<int>,
        | #[trigger]
            are_met(delete.selection, table.columns, rows, floats, places) && output
                == (OutputView::Command {
                tag: "DELETE"@,
                affected_rows: places.len() as u64,
            }),
{
    integrity::law_delete_is_exact(delete, world, floats, table);
    let rows = access::rows_read(table, delete.selection, world, floats)->Ok_0;
    integrity::lemma_rows_read(table, delete.selection, world, floats);
    let places = lemma_counted(delete.selection, table, rows, floats, 0);
    assert(are_met(delete.selection, table.columns, rows, floats, places));
    lemma_deleted_count(table, delete.selection, rows, world, floats, 0, 0);
    assert forall|k: Seq<u8>| #[trigger] is_row(table, world, k) implies (integrity::row_at(
        world,
        k,
    ) matches Some(values) && if results::is_met(
        delete.selection,
        Scope { columns: table.columns, row: values, floats },
    ) {
        !after.contains_key(k)
    } else {
        world::found(after, k) == world::found(world, k)
    }) by {
        lemma_row_after_delete(delete, world, floats, table, after, output, k);
    }
    assert forall|k: Seq<u8>| #[trigger] is_row(table, after, k) implies is_row(
        table,
        world,
        k,
    ) by {
        lemma_left_alone(table, delete.selection, rows, world, floats, 0, 0, k);
    }
}

proof fn lemma_row_after_delete(
    delete: Delete,
    world: Map<Seq<u8>, Seq<u8>>,
    floats: Map<FloatRequest, u64>,
    table: TableView,
    after: Map<Seq<u8>, Seq<u8>>,
    output: OutputView,
    k: Seq<u8>,
)
    requires
        access::table_named(delete.table.value@, world) == Ok::<TableView, StopView>(table),
        is_searchable(table, delete.selection, world, floats),
        delete::deleted(delete, world, floats) == Ok::<
            (Map<Seq<u8>, Seq<u8>>, OutputView),
            StopView,
        >((after, output)),
        is_row(table, world, k),
    ensures
        integrity::row_at(world, k) matches Some(values) && if results::is_met(
            delete.selection,
            Scope { columns: table.columns, row: values, floats },
        ) {
            !after.contains_key(k)
        } else {
            world::found(after, k) == world::found(world, k)
        },
{
    integrity::law_delete_is_exact(delete, world, floats, table);
    let rows = access::rows_read(table, delete.selection, world, floats)->Ok_0;
    integrity::lemma_rows_read(table, delete.selection, world, floats);
    assert(integrity::row_sound(table, world, k));
    let values = integrity::row_at(world, k)->0;
    let scope = Scope { columns: table.columns, row: values, floats };
    operators::law_conditions_choose(delete.selection, scope);
    if integrity::has_key(rows, k) {
        let i = choose|i: int| 0 <= i < rows.len() && (#[trigger] rows[i]).key == k;
        assert(rows[i].values == values);
        lemma_left_alone(table, delete.selection, rows, world, floats, 0, 0, k);
        lemma_all_judged(table, delete.selection, rows, world, floats, 0, 0, i);
    } else {
        lemma_unread(table, delete.selection, world, floats, rows, k);
        assert(forall|i: int| 0 <= i < rows.len() ==> (#[trigger] rows[i]).key != k);
    }
}

/// A DELETE that ran has judged every row that it read.
proof fn lemma_all_judged(
    table: TableView,
    selection: Option<Expr>,
    rows: Seq<StoredView>,
    world: Map<Seq<u8>, Seq<u8>>,
    floats: Map<FloatRequest, u64>,
    affected: nat,
    at: int,
    i: int,
)
    requires
        0 <= at <= i < rows.len(),
        delete::rows_deleted(table, selection, rows, world, floats, affected, at) is Ok,
    ensures
        delete::chosen(selection, table.columns, rows[i].values, floats) is Ok,
    decreases rows.len() - at,
{
    if at < i {
        match delete::chosen(selection, table.columns, rows[at].values, floats)->Ok_0 {
            true => {
                let next = delete::row_deleted(table, rows[at], world)->Ok_0;
                lemma_all_judged(table, selection, rows, next, floats, affected + 1, at + 1, i);
            },
            false => {
                lemma_all_judged(table, selection, rows, world, floats, affected, at + 1, i);
            },
        }
    }
}

proof fn lemma_deleted_count(
    table: TableView,
    selection: Option<Expr>,
    rows: Seq<StoredView>,
    world: Map<Seq<u8>, Seq<u8>>,
    floats: Map<FloatRequest, u64>,
    affected: nat,
    at: int,
)
    requires
        0 <= at,
    ensures
        delete::rows_deleted(table, selection, rows, world, floats, affected, at) matches Ok(pair)
            ==> pair.1 == affected + integrity::chosen_count(selection, table, rows, floats, at),
    decreases rows.len() - at,
{
    if at < rows.len() {
        match delete::chosen(selection, table.columns, rows[at].values, floats) {
            Ok(true) => {
                if let Ok(next) = delete::row_deleted(table, rows[at], world) {
                    lemma_deleted_count(
                        table,
                        selection,
                        rows,
                        next,
                        floats,
                        affected + 1,
                        at + 1,
                    );
                }
            },
            Ok(false) => {
                lemma_deleted_count(table, selection, rows, world, floats, affected, at + 1);
            },
            Err(_) => {},
        }
    }
}

/// Taking rows away leaves what stays of a table's rows as it is, and adds none.
proof fn lemma_left_alone(
    table: TableView,
    selection: Option<Expr>,
    rows: Seq<StoredView>,
    world: Map<Seq<u8>, Seq<u8>>,
    floats: Map<FloatRequest, u64>,
    affected: nat,
    at: int,
    k: Seq<u8>,
)
    requires
        0 <= at,
        integrity::consistent(table, world),
        integrity::rows_stand(table, world, rows, at),
    ensures
        delete::rows_deleted(table, selection, rows, world, floats, affected, at) matches Ok(pair)
            ==> (prefix::starts_with(k, codec::rows_of(table.id)) && pair.0.contains_key(k)
            ==> world::found(pair.0, k) == world::found(world, k)),
    decreases rows.len() - at,
{
    if at < rows.len() {
        match delete::chosen(selection, table.columns, rows[at].values, floats) {
            Ok(true) => {
                if let Ok(next) = delete::row_deleted(table, rows[at], world) {
                    integrity::law_delete_keeps_rows_sound(table, world, rows[at]);
                    if prefix::starts_with(k, codec::rows_of(table.id)) {
                        integrity::lemma_row_space(table, k);
                    }
                    assert forall|i: int| at + 1 <= i < rows.len() implies integrity::row_at(
                        next,
                        (#[trigger] rows[i]).key,
                    ) == Some(rows[i].values) && prefix::starts_with(
                        rows[i].key,
                        codec::rows_of(table.id),
                    ) by {
                        assert(rows[at].key != rows[i].key);
                        integrity::lemma_row_space(table, rows[i].key);
                        assert(world::found(next, rows[i].key) == world::found(world, rows[i].key));
                    }
                    assert(integrity::rows_stand(table, next, rows, at + 1));
                    lemma_left_alone(
                        table,
                        selection,
                        rows,
                        next,
                        floats,
                        affected + 1,
                        at + 1,
                        k,
                    );
                    if prefix::starts_with(k, codec::rows_of(table.id)) && k != rows[at].key {
                        assert(world::found(next, k) == world::found(world, k));
                    }
                }
            },
            Ok(false) => {
                assert(integrity::rows_stand(table, world, rows, at + 1));
                lemma_left_alone(table, selection, rows, world, floats, affected, at + 1, k);
            },
            Err(_) => {},
        }
    }
}

/// Whether an UPDATE turned a row into another: where its condition is true of the row, the row has its
/// assignments made and keeps its key if its identity stays, and else the row is as it was.
pub open spec fn updates_row(
    update: Update,
    table: TableView,
    floats: Map<FloatRequest, u64>,
    row: StoredView,
    moved: StoredView,
) -> bool {
    if results::is_met(update.selection, results::scope_of(table.columns, row, floats)) {
        &&& is_assigned(update.assignments@, table.columns, floats, row.values, moved.values)
        &&& table.primary_key is None || row.values[table.primary_key->0 as int]
            == moved.values[table.primary_key->0 as int] ==> moved.key == row.key
    } else {
        moved == row
    }
}

/// Whether an UPDATE turned the rows of a table into others: each row that the condition is true of
/// stands in the table with its assignments made, and no longer where it was unless its key is still
/// the same; every other row is as it was; and no row came besides.
pub open spec fn updates_rows(
    update: Update,
    table: TableView,
    world: Map<Seq<u8>, Seq<u8>>,
    floats: Map<FloatRequest, u64>,
    after: Map<Seq<u8>, Seq<u8>>,
    rows: Seq<StoredView>,
    moved: Seq<StoredView>,
) -> bool {
    &&& moved.len() == rows.len()
    &&& integrity::rows_stand(table, after, moved, 0)
    &&& forall|i: int|
        0 <= i < rows.len() ==> integrity::row_at(world, (#[trigger] rows[i]).key) == Some(
            rows[i].values,
        ) && updates_row(update, table, floats, rows[i], moved[i])
    &&& forall|k: Seq<u8>| #[trigger]
        is_row(table, world, k) && !integrity::has_key(rows, k) ==> {
            &&& integrity::row_at(world, k) matches Some(values) && !results::is_met(
                update.selection,
                Scope { columns: table.columns, row: values, floats },
            )
            &&& world::found(after, k) == world::found(world, k)
        }
    &&& forall|k: Seq<u8>| #[trigger]
        is_row(table, after, k) ==> integrity::has_key(moved, k) || is_row(table, world, k)
            && !integrity::has_key(rows, k)
}

/// An UPDATE makes its assignments on every row of its table that its condition is true of, leaves every
/// other row as it is, and tells how many rows it changed.
pub proof fn law_update_changes_what_matches(
    update: Update,
    world: Map<Seq<u8>, Seq<u8>>,
    floats: Map<FloatRequest, u64>,
    table: TableView,
    after: Map<Seq<u8>, Seq<u8>>,
    output: OutputView,
)
    requires
        access::table_named(update.table.value@, world) == Ok::<TableView, StopView>(table),
        is_searchable(table, update.selection, world, floats),
        integrity::told_apart(table),
        table.primary_key matches Some(position) ==> position < table.columns.len(),
        update::updated(update, world, floats) == Ok::<
            (Map<Seq<u8>, Seq<u8>>, OutputView),
            StopView,
        >((after, output)),
    ensures
        access::rows_read(table, update.selection, world, floats) matches Ok(rows) && (exists|
            moved: Seq<StoredView>,
        | #[trigger]
            updates_rows(update, table, world, floats, after, rows, moved)) && exists|
            places: Seq<int>,
        | #[trigger]
            are_met(update.selection, table.columns, rows, floats, places) && output
                == (OutputView::Command {
                tag: "UPDATE"@,
                affected_rows: places.len() as u64,
            }),
{
    let rows = access::rows_read(table, update.selection, world, floats)->Ok_0;
    let from = Updating { rows, world, affected: 0 };
    let positions = update::assigned(
        update.assignments@,
        table.columns,
        update.assignments@.len(),
    )->Ok_0;
    integrity::lemma_rows_read(table, update.selection, world, floats);
    integrity::lemma_rows_changed(update, positions, table, from, floats, 0);
    let state = update::rows_changed(
        table,
        update.assignments@,
        positions,
        update.selection,
        from,
        floats,
        0,
    )->Ok_0;
    let moved = state.rows;
    assert forall|i: int| 0 <= i < rows.len() implies integrity::row_at(
        world,
        (#[trigger] rows[i]).key,
    ) == Some(rows[i].values) && updates_row(update, table, floats, rows[i], moved[i]) by {
        lemma_row_updated(update, positions, table, from, state, floats, i);
    }
    assert forall|k: Seq<u8>| #[trigger]
        is_row(table, world, k) && !integrity::has_key(rows, k) implies {
        &&& integrity::row_at(world, k) matches Some(values) && !results::is_met(
            update.selection,
            Scope { columns: table.columns, row: values, floats },
        )
        &&& world::found(after, k) == world::found(world, k)
    } by {
        lemma_unread(table, update.selection, world, floats, rows, k);
        lemma_unread_stays(update, positions, table, floats, from, state, k);
    }
    assert forall|k: Seq<u8>| #[trigger] is_row(table, after, k) implies integrity::has_key(
        moved,
        k,
    ) || is_row(table, world, k) && !integrity::has_key(rows, k) by {
        lemma_came_from(update, positions, table, floats, from, state, k);
    }
    assert(updates_rows(update, table, world, floats, after, rows, moved));
    let places = lemma_counted(update.selection, table, rows, floats, 0);
    assert(are_met(update.selection, table.columns, rows, floats, places));
}

proof fn lemma_row_updated(
    update: Update,
    positions: Seq<int>,
    table: TableView,
    from: Updating,
    state: Updating,
    floats: Map<FloatRequest, u64>,
    i: int,
)
    requires
        0 <= i < from.rows.len(),
        integrity::consistent(table, from.world),
        integrity::told_apart(table),
        table.primary_key matches Some(position) ==> position < table.columns.len(),
        integrity::rows_stand(table, from.world, from.rows, 0),
        update::assigned(
            update.assignments@,
            table.columns,
            update.assignments@.len(),
        ) == Ok::<Seq<int>, StopView>(positions),
        update::rows_changed(
            table,
            update.assignments@,
            positions,
            update.selection,
            from,
            floats,
            0,
        ) == Ok::<Updating, StopView>(state),
        integrity::rows_moved_well(update, positions, table, floats, from, state, 0),
    ensures
        integrity::row_at(from.world, from.rows[i].key) == Some(from.rows[i].values),
        updates_row(update, table, floats, from.rows[i], state.rows[i]),
{
    let row = from.rows[i];
    let scope = results::scope_of(table.columns, row, floats);
    operators::law_conditions_choose(update.selection, scope);
    assert(integrity::row_sound(table, from.world, row.key));
    law_assignments_see_the_old_row(update.assignments@, table.columns, floats, row.values);
    if results::is_met(update.selection, scope) {
        lemma_change_made(update, positions, table, from, floats, 0, i);
    }
}

proof fn lemma_unread_stays(
    update: Update,
    positions: Seq<int>,
    table: TableView,
    floats: Map<FloatRequest, u64>,
    from: Updating,
    state: Updating,
    k: Seq<u8>,
)
    requires
        integrity::rows_moved_well(update, positions, table, floats, from, state, 0),
        is_row(table, from.world, k),
        !integrity::has_key(from.rows, k),
    ensures
        world::found(state.world, k) == world::found(from.world, k),
{
    integrity::lemma_row_space(table, k);
    if integrity::has_key(state.rows, k) {
        let i = choose|i: int| 0 <= i < state.rows.len() && (#[trigger] state.rows[i]).key == k;
        assert(from.rows[i].key != k);
    }
}

proof fn lemma_came_from(
    update: Update,
    positions: Seq<int>,
    table: TableView,
    floats: Map<FloatRequest, u64>,
    from: Updating,
    state: Updating,
    k: Seq<u8>,
)
    requires
        integrity::rows_moved_well(update, positions, table, floats, from, state, 0),
        is_row(table, state.world, k),
    ensures
        integrity::has_key(state.rows, k) || is_row(table, from.world, k) && !integrity::has_key(
            from.rows,
            k,
        ),
{
    integrity::lemma_row_space(table, k);
    if !integrity::has_key(state.rows, k) && !integrity::has_key(from.rows, k) {
        assert(world::found(state.world, k) == world::found(from.world, k));
    }
}

/// A row that an UPDATE is about gets its assignments, and keeps its key where its identity stays.
proof fn lemma_change_made(
    update: Update,
    positions: Seq<int>,
    table: TableView,
    from: Updating,
    floats: Map<FloatRequest, u64>,
    at: int,
    i: int,
)
    requires
        0 <= at <= i < from.rows.len(),
        integrity::consistent(table, from.world),
        integrity::told_apart(table),
        table.primary_key matches Some(position) ==> position < table.columns.len(),
        integrity::rows_stand(table, from.world, from.rows, 0),
        delete::chosen(
            update.selection,
            table.columns,
            from.rows[i].values,
            floats,
        ) == Ok::<bool, StopView>(true),
    ensures
        update::rows_changed(
            table,
            update.assignments@,
            positions,
            update.selection,
            from,
            floats,
            at,
        ) matches Ok(state) ==> {
            &&& state.rows.len() == from.rows.len()
            &&& update::changed(
                update.assignments@,
                positions,
                table.columns,
                from.rows[i].values,
                from.rows[i].values,
                floats,
                0,
            ) == Ok::<Seq<ValueView>, StopView>(state.rows[i].values)
            &&& table.primary_key is None || from.rows[i].values[table.primary_key->0 as int]
                == state.rows[i].values[table.primary_key->0 as int] ==> state.rows[i].key
                == from.rows[i].key
        },
    decreases from.rows.len() - at,
{
    integrity::lemma_rows_changed(update, positions, table, from, floats, at);
    if let Ok(state) = update::rows_changed(
        table,
        update.assignments@,
        positions,
        update.selection,
        from,
        floats,
        at,
    ) {
        match update::change_of(
            update.assignments@,
            positions,
            update.selection,
            table.columns,
            from.rows[at].values,
            floats,
        )->Ok_0 {
            None => {
                lemma_change_made(update, positions, table, from, floats, at + 1, i);
            },
            Some(after) => {
                let next = update::row_changed(table, from, at, after)->Ok_0;
                integrity::law_update_keeps_rows_sound(table, from, at, after);
                integrity::lemma_step_stands(table, from, at, after, next);
                integrity::lemma_rows_changed(update, positions, table, next, floats, at + 1);
                if at < i {
                    assert(next.rows[i] == from.rows[i]);
                    lemma_change_made(update, positions, table, next, floats, at + 1, i);
                } else {
                    assert(state.rows[at] == next.rows[at]);
                    assert(integrity::row_sound(table, from.world, from.rows[at].key));
                }
            },
        }
    }
}

/// Whether the values of a place in an INSERT are for a column: the column of the name in that place, or
/// without a list of names the column in that place.
pub open spec fn is_target(
    names: Seq<Identifier>,
    columns: Seq<ColumnView>,
    i: int,
    c: int,
) -> bool {
    if names.len() == 0 {
        0 <= i < columns.len() && c == i
    } else {
        0 <= i < names.len() && is_named(columns, c, names[i].value@)
    }
}

/// Whether a row is what an expression of an INSERT sees: the values given before it, and NULL
/// elsewhere.
pub open spec fn is_seen(
    names: Seq<Identifier>,
    columns: Seq<ColumnView>,
    values: Seq<ValueView>,
    i: int,
    row: Seq<ValueView>,
) -> bool {
    &&& row.len() == columns.len()
    &&& forall|c: int|
        0 <= c < columns.len() ==> (#[trigger] row[c]) == (if exists|m: int|
            0 <= m < i && #[trigger] is_target(names, columns, m, c) {
            values[c]
        } else {
            ValueView::Null
        })
}

/// Whether a column holds what an expression of an INSERT gives.
pub open spec fn is_filled(
    names: Seq<Identifier>,
    columns: Seq<ColumnView>,
    expressions: Seq<Expr>,
    floats: Map<FloatRequest, u64>,
    values: Seq<ValueView>,
    i: int,
    c: int,
) -> bool {
    exists|row: Seq<ValueView>| #[trigger]
        is_seen(names, columns, values, i, row) && holds(
            expressions[i],
            Scope { columns, row, floats },
            columns[c].data_type,
            values[c],
        )
}

/// Whether a row is what an INSERT gives: each value in the column that is named in its place, as the
/// column keeps it, and NULL in every column that is not named.
pub open spec fn is_given(
    names: Seq<Identifier>,
    columns: Seq<ColumnView>,
    expressions: Seq<Expr>,
    floats: Map<FloatRequest, u64>,
    values: Seq<ValueView>,
) -> bool {
    &&& values.len() == columns.len()
    &&& expressions.len() == (if names.len() == 0 {
        columns.len()
    } else {
        names.len()
    })
    &&& forall|i: int, c: int|
        0 <= i < expressions.len() && #[trigger] is_target(names, columns, i, c) ==> is_filled(
            names,
            columns,
            expressions,
            floats,
            values,
            i,
            c,
        )
    &&& forall|c: int|
        0 <= c < columns.len() && (forall|i: int|
            0 <= i < expressions.len() ==> !#[trigger] is_target(names, columns, i, c))
            ==> #[trigger] values[c] == ValueView::Null
}

proof fn lemma_positions(names: Seq<Identifier>, columns: Seq<ColumnView>, count: nat)
    requires
        count <= names.len(),
    ensures
        insert::positions_of(names, columns, count) matches Ok(positions) ==> {
            &&& positions.len() == count
            &&& positions.no_duplicates()
            &&& forall|n: int|
                0 <= n < count ==> is_named(columns, #[trigger] positions[n], names[n].value@)
        },
        insert::positions_of(names, columns, count) is Ok <==> {
            &&& forall|n: int|
                0 <= n < count ==> is_known(columns, (#[trigger] names[n]).value@)
            &&& forall|n: int, m: int|
                0 <= n < m < count ==> (#[trigger] names[n]).value@ != (#[trigger] names[m]).value@
        },
    decreases count,
{
    if count > 0 {
        let before = (count - 1) as nat;
        lemma_positions(names, columns, before);
        let name = names[count - 1].value@;
        lemma_named(columns, name);
        if let Ok(front) = insert::positions_of(names, columns, before) {
            if insert::named_before(names, name, count - 1) {
                let n = choose|i: int| 0 <= i < count - 1 && (#[trigger] names[i]).value@ == name;
                assert(names[n].value@ == names[count - 1].value@);
            } else if let Some(position) = schema::position_from(columns, name, 0) {
                assert(is_named(columns, position, name));
                assert(!front.contains(position)) by {
                    if front.contains(position) {
                        let n = front.index_of(position);
                        assert(is_named(columns, front[n], names[n].value@));
                        assert(names[n].value@ == name);
                    }
                }
            } else {
                assert(!is_known(columns, names[count - 1].value@));
            }
        }
    }
}

/// The positions that an INSERT gives values for are those of its names.
proof fn lemma_targets(names: Seq<Identifier>, columns: Seq<ColumnView>, positions: Seq<int>)
    requires
        insert::insert_positions(names, columns) == Ok::<Seq<int>, StopView>(positions),
    ensures
        positions.len() == (if names.len() == 0 {
            columns.len()
        } else {
            names.len()
        }),
        positions.no_duplicates(),
        forall|i: int, c: int| #[trigger]
            is_target(names, columns, i, c) <==> 0 <= i < positions.len() && positions[i] == c,
        forall|i: int| 0 <= i < positions.len() ==> 0 <= #[trigger] positions[i] < columns.len(),
{
    if names.len() > 0 {
        lemma_positions(names, columns, names.len());
        assert forall|i: int, c: int| #[trigger] is_target(names, columns, i, c) <==> 0 <= i
            < positions.len() && positions[i] == c by {
            if 0 <= i < names.len() {
                lemma_named(columns, names[i].value@);
                assert(is_named(columns, positions[i], names[i].value@));
            }
        }
        assert forall|i: int| 0 <= i < positions.len() implies 0 <= #[trigger] positions[i]
            < columns.len() by {
            assert(is_named(columns, positions[i], names[i].value@));
        }
    }
}

proof fn lemma_filled(
    names: Seq<Identifier>,
    expressions: Seq<Expr>,
    positions: Seq<int>,
    columns: Seq<ColumnView>,
    values: Seq<ValueView>,
    floats: Map<FloatRequest, u64>,
    at: int,
)
    requires
        insert::insert_positions(names, columns) == Ok::<Seq<int>, StopView>(positions),
        0 <= at <= expressions.len() == positions.len(),
        values.len() == columns.len(),
    ensures
        insert::filled(expressions, positions, columns, values, floats, at) matches Ok(after) ==> {
            &&& after.len() == values.len()
            &&& forall|c: int|
                0 <= c < values.len() && (forall|n: int|
                    at <= n < positions.len() ==> #[trigger] positions[n] != c) ==> #[trigger] after[c]
                    == values[c]
            &&& (forall|c: int|
                0 <= c < columns.len() && (forall|n: int|
                    0 <= n < at ==> #[trigger] positions[n] != c) ==> #[trigger] values[c]
                    == ValueView::Null) ==> forall|i: int|
                at <= i < expressions.len() ==> is_filled(
                    names,
                    columns,
                    expressions,
                    floats,
                    after,
                    i,
                    #[trigger] positions[i],
                )
        },
    decreases expressions.len() - at,
{
    lemma_targets(names, columns, positions);
    if at < expressions.len() {
        if let Ok(after) = insert::filled(expressions, positions, columns, values, floats, at) {
            let plain = expression::evaluated(expressions[at], columns, values, floats)->Ok_0;
            let value = access::coerced(plain, columns[positions[at]].data_type, floats)->Ok_0;
            let next = values.update(positions[at], value);
            lemma_filled(names, expressions, positions, columns, next, floats, at + 1);
            law_columns_keep_values(plain, columns[positions[at]].data_type, floats);
            assert forall|c: int|
                0 <= c < values.len() && (forall|n: int|
                    at <= n < positions.len() ==> #[trigger] positions[n] != c) implies #[trigger] after[c]
                == values[c] by {
                assert(positions[at] != c);
                assert(next[c] == values[c]);
            }
            let blank = forall|c: int|
                0 <= c < columns.len() && (forall|n: int|
                    0 <= n < at ==> #[trigger] positions[n] != c) ==> #[trigger] values[c]
                    == ValueView::Null;
            if blank {
                assert forall|c: int|
                    0 <= c < columns.len() && (forall|n: int|
                        0 <= n < at + 1 ==> #[trigger] positions[n] != c) implies #[trigger] next[c]
                    == ValueView::Null by {
                    assert(positions[at] != c);
                    assert(values[c] == ValueView::Null);
                }
                assert(after[positions[at]] == value) by {
                    assert forall|n: int| at + 1 <= n < positions.len() implies #[trigger] positions[n]
                        != positions[at] by {}
                    assert(after[positions[at]] == next[positions[at]]);
                }
                assert(is_seen(names, columns, after, at, values)) by {
                    assert forall|c: int| 0 <= c < columns.len() implies (#[trigger] values[c]) == (
                    if exists|m: int| 0 <= m < at && #[trigger] is_target(names, columns, m, c) {
                        after[c]
                    } else {
                        ValueView::Null
                    }) by {
                        if exists|m: int| 0 <= m < at && #[trigger] is_target(names, columns, m, c) {
                            let m = choose|m: int|
                                0 <= m < at && #[trigger] is_target(names, columns, m, c);
                            assert(positions[m] == c);
                            assert forall|n: int| at <= n < positions.len() implies #[trigger] positions[n]
                                != c by {}
                        } else {
                            assert forall|n: int| 0 <= n < at implies #[trigger] positions[n]
                                != c by {
                                assert(!is_target(names, columns, n, c));
                            }
                        }
                    }
                }
                assert(operators::gives(
                    expressions[at],
                    Scope { columns, row: values, floats },
                    plain,
                ));
                assert(is_filled(
                    names,
                    columns,
                    expressions,
                    floats,
                    after,
                    at,
                    positions[at],
                ));
                assert forall|i: int| at <= i < expressions.len() implies is_filled(
                    names,
                    columns,
                    expressions,
                    floats,
                    after,
                    i,
                    #[trigger] positions[i],
                ) by {
                    if i > at {
                        assert(is_filled(
                            names,
                            columns,
                            expressions,
                            floats,
                            after,
                            i,
                            positions[i],
                        ));
                    }
                }
            }
        }
    }
}

/// An INSERT gives each value to the column that is named in the same place of its list, or without a list
/// to the column in the same place of the table, and NULL to every column that it does not name. It is
/// refused where it names a column that there is not, or one twice, or gives more or fewer values than
/// columns.
pub proof fn law_inserted_values_go_by_name(
    names: Seq<Identifier>,
    table: TableView,
    expressions: Seq<Expr>,
    floats: Map<FloatRequest, u64>,
)
    ensures
        insert::insert_positions(names, table.columns) is Ok <==> {
            &&& forall|n: int|
                0 <= n < names.len() ==> is_known(table.columns, (#[trigger] names[n]).value@)
            &&& forall|n: int, m: int|
                0 <= n < m < names.len() ==> (#[trigger] names[n]).value@ != (
                #[trigger] names[m]).value@
        },
        insert::insert_positions(names, table.columns) matches Ok(positions) ==> (
        insert::row_values(table, expressions, positions, floats) matches Ok(values) ==> is_given(
            names,
            table.columns,
            expressions,
            floats,
            values,
        )),
        insert::insert_positions(names, table.columns) matches Ok(positions) ==> (
        expressions.len() != (if names.len() == 0 {
            table.columns.len()
        } else {
            names.len()
        }) ==> (insert::row_values(table, expressions, positions, floats) matches Err(stop)
            && stop matches StopView::Error(EngineErrorView::InvalidRow(_)))),
{
    let columns = table.columns;
    if names.len() > 0 {
        lemma_positions(names, columns, names.len());
    }
    if let Ok(positions) = insert::insert_positions(names, columns) {
        lemma_targets(names, columns, positions);
        if let Ok(values) = insert::row_values(table, expressions, positions, floats) {
            let blank = access::nulls(columns.len());
            lemma_filled(names, expressions, positions, columns, blank, floats, 0);
            assert forall|i: int, c: int|
                0 <= i < expressions.len() && #[trigger] is_target(
                    names,
                    columns,
                    i,
                    c,
                ) implies is_filled(names, columns, expressions, floats, values, i, c) by {
                assert(positions[i] == c);
            }
            assert forall|c: int|
                0 <= c < columns.len() && (forall|i: int|
                    0 <= i < expressions.len() ==> !#[trigger] is_target(
                        names,
                        columns,
                        i,
                        c,
                    )) implies #[trigger] values[c] == ValueView::Null by {
                assert forall|n: int| 0 <= n < positions.len() implies #[trigger] positions[n]
                    != c by {
                    assert(!is_target(names, columns, n, c));
                }
                assert(blank[c] == ValueView::Null);
            }
        }
    }
}

/// Whether an INSERT added rows to a table: one for each that it gives, under keys of their own, and
/// nothing else changed in the table.
pub open spec fn inserts_rows(
    insert: Insert,
    table: TableView,
    world: Map<Seq<u8>, Seq<u8>>,
    floats: Map<FloatRequest, u64>,
    after: Map<Seq<u8>, Seq<u8>>,
    added: Seq<StoredView>,
) -> bool {
    &&& added.len() == insert.rows@.len()
    &&& forall|r: int|
        0 <= r < added.len() ==> {
            &&& is_row(table, after, (#[trigger] added[r]).key)
            &&& !world.contains_key(added[r].key)
            &&& integrity::row_at(after, added[r].key) == Some(added[r].values)
            &&& is_given(
                insert.columns@,
                table.columns,
                insert.rows@[r]@,
                floats,
                added[r].values,
            )
        }
    &&& forall|r: int, s: int|
        0 <= r < s < added.len() ==> (#[trigger] added[r]).key != (#[trigger] added[s]).key
    &&& forall|k: Seq<u8>| #[trigger]
        is_row(table, world, k) ==> world::found(after, k) == world::found(world, k)
    &&& forall|k: Seq<u8>| #[trigger]
        is_row(table, after, k) ==> is_row(table, world, k) || integrity::has_key(added, k)
}

/// Rows added one after the other.
proof fn lemma_added(
    insert: Insert,
    from: Inserting,
    positions: Seq<int>,
    floats: Map<FloatRequest, u64>,
    count: nat,
)
    requires
        count <= insert.rows@.len(),
        integrity::consistent(from.table, from.world),
        from.table.primary_key matches Some(position) ==> position < from.table.columns.len(),
        insert::insert_positions(insert.columns@, from.table.columns) == Ok::<Seq<int>, StopView>(
            positions,
        ),
    ensures
        insert::rows_added(from, insert.rows@, positions, floats, count) matches Ok(state) ==> {
            let added = state.rows.skip(from.rows.len() as int);
            &&& integrity::consistent(state.table, state.world)
            &&& state.table == (TableView { next_row_id: state.table.next_row_id, ..from.table })
            &&& state.rows.len() == from.rows.len() + count
            &&& forall|r: int|
                0 <= r < count ==> {
                    &&& is_row(from.table, state.world, (#[trigger] added[r]).key)
                    &&& !from.world.contains_key(added[r].key)
                    &&& integrity::row_at(state.world, added[r].key) == Some(added[r].values)
                    &&& is_given(
                        insert.columns@,
                        from.table.columns,
                        insert.rows@[r]@,
                        floats,
                        added[r].values,
                    )
                }
            &&& forall|r: int, s: int|
                0 <= r < s < count ==> (#[trigger] added[r]).key != (#[trigger] added[s]).key
            &&& forall|k: Seq<u8>| #[trigger]
                from.world.contains_key(k) ==> world::found(state.world, k) == world::found(
                    from.world,
                    k,
                )
            &&& forall|k: Seq<u8>| #[trigger]
                is_row(from.table, state.world, k) ==> from.world.contains_key(k)
                    || integrity::has_key(added, k)
        },
    decreases count,
{
    if count > 0 {
        let less = (count - 1) as nat;
        lemma_added(insert, from, positions, floats, less);
        if let Ok(next) = insert::rows_added(from, insert.rows@, positions, floats, count) {
            let state = insert::rows_added(from, insert.rows@, positions, floats, less)->Ok_0;
            let values = insert::row_values(
                state.table,
                insert.rows@[count - 1]@,
                positions,
                floats,
            )->Ok_0;
            integrity::law_insert_keeps_rows_sound(state, values);
            law_inserted_values_go_by_name(
                insert.columns@,
                state.table,
                insert.rows@[count - 1]@,
                floats,
            );
            let before = state.rows.skip(from.rows.len() as int);
            let added = next.rows.skip(from.rows.len() as int);
            let last = next.rows.last();
            assert(added =~= before.push(last));
            assert forall|r: int| 0 <= r < count implies {
                &&& is_row(from.table, next.world, (#[trigger] added[r]).key)
                &&& !from.world.contains_key(added[r].key)
                &&& integrity::row_at(next.world, added[r].key) == Some(added[r].values)
                &&& is_given(
                    insert.columns@,
                    from.table.columns,
                    insert.rows@[r]@,
                    floats,
                    added[r].values,
                )
            } by {
                if r < less {
                    assert(added[r] == before[r]);
                    assert(state.world.contains_key(before[r].key));
                    assert(world::found(next.world, before[r].key) == world::found(
                        state.world,
                        before[r].key,
                    ));
                } else {
                    assert(added[r] == last);
                    if from.world.contains_key(last.key) {
                        assert(world::found(state.world, last.key) == world::found(
                            from.world,
                            last.key,
                        ));
                    }
                }
            }
            assert forall|r: int, s: int| 0 <= r < s < count implies (#[trigger] added[r]).key != (
            #[trigger] added[s]).key by {
                assert(added[r] == before[r]);
                assert(is_row(from.table, state.world, before[r].key));
                if s < less {
                    assert(added[s] == before[s]);
                }
            }
            assert forall|k: Seq<u8>| #[trigger] from.world.contains_key(k) implies world::found(
                next.world,
                k,
            ) == world::found(from.world, k) by {
                assert(world::found(state.world, k) == world::found(from.world, k));
                assert(state.world.contains_key(k));
            }
            assert forall|k: Seq<u8>| #[trigger] is_row(
                from.table,
                next.world,
                k,
            ) implies from.world.contains_key(k) || integrity::has_key(added, k) by {
                if state.world.contains_key(k) {
                    assert(is_row(from.table, state.world, k));
                    if integrity::has_key(before, k) {
                        let i = choose|i: int|
                            0 <= i < before.len() && (#[trigger] before[i]).key == k;
                        assert(added[i].key == k);
                    }
                } else {
                    integrity::lemma_row_space(from.table, k);
                    assert(added[count - 1].key == k);
                }
            }
        }
    }
}

/// An INSERT stores one row for each that it gives, leaves every other row of the table as it is, and
/// tells how many rows it stored.
pub proof fn law_insert_stores_what_is_given(
    insert: Insert,
    world: Map<Seq<u8>, Seq<u8>>,
    floats: Map<FloatRequest, u64>,
    table: TableView,
    after: Map<Seq<u8>, Seq<u8>>,
    output: OutputView,
)
    requires
        access::table_named(insert.table.value@, world) == Ok::<TableView, StopView>(table),
        integrity::consistent(table, world),
        table.primary_key matches Some(position) ==> position < table.columns.len(),
        insert::inserted(insert, world, floats) == Ok::<
            (Map<Seq<u8>, Seq<u8>>, OutputView),
            StopView,
        >((after, output)),
    ensures
        exists|added: Seq<StoredView>| #[trigger]
            inserts_rows(insert, table, world, floats, after, added),
        output == (OutputView::Command {
            tag: "INSERT"@,
            affected_rows: insert.rows@.len() as u64,
        }),
{
    let positions = insert::insert_positions(insert.columns@, table.columns)->Ok_0;
    let rows = access::decoded(world::rows_under(world, codec::rows_of(table.id)))->Ok_0;
    let from = Inserting { table, rows, world };
    let count = insert.rows@.len();
    lemma_added(insert, from, positions, floats, count);
    let state = insert::rows_added(from, insert.rows@, positions, floats, count)->Ok_0;
    let added = state.rows.skip(rows.len() as int);
    let catalog = codec::catalog_key_of(insert.table.value@);
    assert forall|k: Seq<u8>| prefix::starts_with(k, codec::rows_of(table.id)) implies #[trigger] world::found(
        after,
        k,
    ) == world::found(state.world, k) by {
        codec::law_key_spaces_are_apart(
            table.id,
            table.id,
            Seq::empty(),
            0,
            Seq::empty(),
            insert.table.value@,
        );
    }
    assert forall|r: int| 0 <= r < added.len() implies {
        &&& is_row(table, after, (#[trigger] added[r]).key)
        &&& !world.contains_key(added[r].key)
        &&& integrity::row_at(after, added[r].key) == Some(added[r].values)
        &&& is_given(
            insert.columns@,
            table.columns,
            insert.rows@[r]@,
            floats,
            added[r].values,
        )
    } by {
        assert(is_row(table, state.world, added[r].key));
        assert(world::found(after, added[r].key) == world::found(state.world, added[r].key));
    }
    assert forall|k: Seq<u8>| #[trigger] is_row(table, world, k) implies world::found(after, k)
        == world::found(world, k) by {
        assert(world::found(after, k) == world::found(state.world, k));
        assert(world.contains_key(k));
    }
    assert forall|k: Seq<u8>| #[trigger] is_row(table, after, k) implies is_row(table, world, k)
        || integrity::has_key(added, k) by {
        assert(world::found(after, k) == world::found(state.world, k));
        assert(is_row(table, state.world, k));
    }
    assert(inserts_rows(insert, table, world, floats, after, added));
}

} // verus!
