//! When statements run: what does not stand against a statement does not stop it.
use crate::bytes;
use crate::engine::access;
use crate::engine::access::{AccessView, StoredView};
use crate::engine::admission;
use crate::engine::changes;
use crate::engine::codec;
use crate::engine::constraint;
use crate::engine::delete;
use crate::engine::error::{EngineErrorView, StopView};
use crate::engine::expression;
use crate::engine::float;
use crate::engine::float::FloatRequest;
use crate::engine::image;
use crate::engine::insert;
use crate::engine::insert::Inserting;
use crate::engine::integrity;
use crate::engine::operators;
use crate::engine::operators::Scope;
use crate::engine::results;
use crate::engine::schema;
use crate::engine::schema::{ColumnView, TableView};
use crate::engine::select;
use crate::engine::sort::SortView;
use crate::engine::statement;
use crate::engine::update;
use crate::engine::update::Updating;
use crate::engine::value;
use crate::engine::value::ValueView;
use crate::engine::world;
use crate::mvcc::prefix;
use crate::mvcc::record;
use crate::mvcc::transaction::RowView;
use crate::storage::page::MAX_PAGE_PAYLOAD;
use crate::syntax::{Delete, Expr, OrderKey, Select, SelectItem, Statement};
use vstd::prelude::*;
use vstd::utf8::encode_utf8;

verus! {

/// Whether a constant can be looked for in a column that tells rows apart: NULL, or a value that the
/// column takes.
pub open spec fn can_be_sought(column: ColumnView, value: ValueView) -> bool {
    value is Null || admission::takes(column, value) && (value matches ValueView::Text(text)
        ==> encode_utf8(text).len() < u32::MAX)
}

/// Whether a condition names only columns that there are where it picks rows by a column's value, and
/// gives the column a value that can be looked for.
pub open spec fn can_pick(
    columns: Seq<ColumnView>,
    selection: Option<Expr>,
    floats: Map<FloatRequest, u64>,
) -> bool {
    selection matches Some(condition) ==> (access::column_equality(condition) matches Some(pair)
        ==> exists|c: int| #[trigger]
        changes::is_named(columns, c, pair.0) && (columns[c].primary_key || columns[c].unique ==> {
            let scope = Scope { columns, row: access::nulls(columns.len()), floats };
            expression::evaluated(pair.1, scope.columns, scope.row, scope.floats) matches Ok(value)
                && can_be_sought(columns[c], value)
        }))
}

/// Whether a condition is true, false or NULL of a row.
pub open spec fn can_judge(selection: Option<Expr>, scope: Scope) -> bool {
    selection matches Some(condition) ==> {
        ||| operators::gives(condition, scope, ValueView::Null)
        ||| operators::says(condition, scope, true)
        ||| operators::says(condition, scope, false)
    }
}

/// Whether a key is that of a row of a table with some values.
pub open spec fn is_row(
    table: TableView,
    world: Map<Seq<u8>, Seq<u8>>,
    k: Seq<u8>,
    values: Seq<ValueView>,
) -> bool {
    &&& prefix::starts_with(k, codec::rows_of(table.id))
    &&& integrity::row_at(world, k) == Some(values)
}

proof fn lemma_planned(
    table: TableView,
    selection: Option<Expr>,
    world: Map<Seq<u8>, Seq<u8>>,
    floats: Map<FloatRequest, u64>,
)
    requires
        can_pick(table.columns, selection, floats),
        table.columns.len() <= u32::MAX,
    ensures
        access::planned(table, selection, world, floats) is Ok,
{
    if let Some(condition) = selection {
        if let Some((name, wanted)) = access::column_equality(condition) {
            let c = choose|c: int| #[trigger]
                changes::is_named(table.columns, c, name) && (table.columns[c].primary_key
                    || table.columns[c].unique ==> {
                    let scope = Scope {
                        columns: table.columns,
                        row: access::nulls(table.columns.len()),
                        floats,
                    };
                    expression::evaluated(
                        wanted,
                        scope.columns,
                        scope.row,
                        scope.floats,
                    ) matches Ok(value) && can_be_sought(table.columns[c], value)
                });
            schema::lemma_first_named(table.columns, name, 0);
            let position = schema::position_from(table.columns, name, 0)->0;
            if position < c {
                assert(table.columns[position].name != name);
            }
            if c < position {
                assert(table.columns[c].name != name);
            }
            if table.columns[c].primary_key || table.columns[c].unique {
                let value = expression::evaluated(
                    wanted,
                    table.columns,
                    access::nulls(table.columns.len()),
                    floats,
                )->Ok_0;
                if !(value is Null) {
                    assert(schema::value_refused(table.columns[c], value) is None);
                    lemma_identity(value);
                }
            }
        }
    }
}

proof fn lemma_identity(value: ValueView)
    requires
        !(value is Null),
        value matches ValueView::Float(bits) ==> float::is_finite(bits),
        value matches ValueView::Text(text) ==> encode_utf8(text).len() < u32::MAX,
    ensures
        codec::identity_of(value) matches Ok(identity) && identity.len() <= u32::MAX,
{
    match value {
        ValueView::Integer(number) => {
            bytes::lemma_be_round_trip(
                (number + float::SIGN) as nat,
                8,
            );
        },
        ValueView::Float(bits) => {
            bytes::lemma_be_round_trip(
                (float::total_rank(bits) + float::SIGN) as nat,
                8,
            );
        },
        _ => {},
    }
}

proof fn lemma_decoded(rows: Seq<RowView>)
    requires
        forall|i: int| 0 <= i < rows.len() ==> image::row_decoded((#[trigger] rows[i]).value) is Ok,
    ensures
        access::decoded(rows) is Ok,
    decreases rows.len(),
{
    if rows.len() > 0 {
        let front = rows.drop_last();
        assert forall|i: int| 0 <= i < front.len() implies image::row_decoded(
            (#[trigger] front[i]).value,
        ) is Ok by {
            assert(front[i] == rows[i]);
        }
        lemma_decoded(front);
        assert(rows.last() == rows[rows.len() - 1]);
    }
}

proof fn lemma_read(
    table: TableView,
    selection: Option<Expr>,
    world: Map<Seq<u8>, Seq<u8>>,
    floats: Map<FloatRequest, u64>,
)
    requires
        world.dom().finite(),
        integrity::consistent(table, world),
        can_pick(table.columns, selection, floats),
        table.columns.len() <= u32::MAX,
    ensures
        access::rows_read(table, selection, world, floats) is Ok,
{
    lemma_planned(table, selection, world, floats);
    match access::planned(table, selection, world, floats)->Ok_0 {
        AccessView::Scan => {
            let p = codec::rows_of(table.id);
            let rows = world::rows_under(world, p);
            integrity::lemma_rows_under(world, p);
            assert forall|i: int| 0 <= i < rows.len() implies image::row_decoded(
                (#[trigger] rows[i]).value,
            ) is Ok by {
                assert(integrity::row_sound(table, world, rows[i].key));
            }
            lemma_decoded(rows);
        },
        AccessView::Point(None) => {},
        AccessView::Point(Some(k)) => {
            if world.contains_key(k) {
                integrity::lemma_point_key(table, selection, world, floats, k);
                assert(integrity::row_sound(table, world, k));
            }
        },
    }
}

/// Whether a query can answer about a row: it can judge the row, and where the row meets the condition its
/// items and its order keys have values.
pub open spec fn can_answer(select: Select, scope: Scope) -> bool {
    &&& can_judge(select.selection, scope)
    &&& results::is_met(select.selection, scope) ==> results::can_be_shown(
        select.projection@,
        scope,
    ) && forall|n: int|
        0 <= n < select.order_by@.len() ==> expression::evaluated(
            (#[trigger] select.order_by@[n]).expression,
            scope.columns,
            scope.row,
            scope.floats,
        ) is Ok
}

proof fn lemma_projects(projection: Seq<SelectItem>, scope: Scope, count: nat)
    requires
        results::can_be_shown(projection, scope),
        count <= projection.len(),
    ensures
        select::projected(projection, scope.columns, scope.row, scope.floats, count) is Ok,
    decreases count,
{
    if count > 0 {
        lemma_projects(projection, scope, (count - 1) as nat);
        assert(projection[count - 1] is Wildcard || projection[count - 1] is Expression);
    }
}

proof fn lemma_orders(order_by: Seq<OrderKey>, scope: Scope, count: nat)
    requires
        forall|n: int|
            0 <= n < order_by.len() ==> expression::evaluated(
                (#[trigger] order_by[n]).expression,
                scope.columns,
                scope.row,
                scope.floats,
            ) is Ok,
        count <= order_by.len(),
    ensures
        select::ordered_by(order_by, scope.columns, scope.row, scope.floats, count) is Ok,
    decreases count,
{
    if count > 0 {
        lemma_orders(order_by, scope, (count - 1) as nat);
        assert(expression::evaluated(
            order_by[count - 1].expression,
            scope.columns,
            scope.row,
            scope.floats,
        ) is Ok);
    }
}

proof fn lemma_takes(
    select: Select,
    table: TableView,
    rows: Seq<StoredView>,
    floats: Map<FloatRequest, u64>,
    before: Seq<SortView>,
    at: int,
)
    requires
        0 <= at,
        forall|i: int|
            0 <= i < rows.len() ==> schema::row_refused(table, (#[trigger] rows[i]).values) is None
                && can_answer(select, results::scope_of(table.columns, rows[i], floats)),
    ensures
        select::taken(select, table, rows, floats, before, at) is Ok,
    decreases rows.len() - at,
{
    if at < rows.len() && !select::has_enough(select, before.len()) {
        let scope = results::scope_of(table.columns, rows[at], floats);
        assert(can_answer(select, scope));
        if results::is_met(select.selection, scope) {
            lemma_projects(select.projection@, scope, select.projection@.len());
            lemma_orders(select.order_by@, scope, select.order_by@.len());
        }
        let item = select::taken_of(select, table.columns, rows[at].values, floats);
        assert(item is Ok);
        match item->Ok_0 {
            None => lemma_takes(select, table, rows, floats, before, at + 1),
            Some(taken) => lemma_takes(select, table, rows, floats, before.push(taken), at + 1),
        }
    }
}

proof fn lemma_columns(projection: Seq<SelectItem>, columns: Seq<ColumnView>, count: nat)
    requires
        count <= projection.len(),
        forall|i: int|
            0 <= i < projection.len() ==> ((#[trigger] projection[i]) matches
                SelectItem::Expression { expression, alias } ==> expression::inferred(
                expression,
                columns,
            ) is Ok),
    ensures
        select::projected_columns(projection, columns, count) is Ok,
    decreases count,
{
    if count > 0 {
        lemma_columns(projection, columns, (count - 1) as nat);
        assert(projection[count - 1] is Wildcard || projection[count - 1] is Expression);
    }
}

proof fn lemma_keys_typed(order_by: Seq<OrderKey>, columns: Seq<ColumnView>, at: int)
    requires
        0 <= at,
        forall|n: int|
            0 <= n < order_by.len() ==> expression::inferred(
                (#[trigger] order_by[n]).expression,
                columns,
            ) is Ok,
    ensures
        select::untyped_key(order_by, columns, at) is None,
    decreases order_by.len() - at,
{
    if at < order_by.len() {
        assert(expression::inferred(order_by[at].expression, columns) is Ok);
        lemma_keys_typed(order_by, columns, at + 1);
    }
}

/// A query runs where its table is there, its items and order keys have types, and every row of the table
/// can be answered about.
pub proof fn law_select_runs(
    select: Select,
    world: Map<Seq<u8>, Seq<u8>>,
    floats: Map<FloatRequest, u64>,
    table: TableView,
)
    requires
        world.dom().finite(),
        access::table_named(select.from.value@, world) == Ok::<TableView, StopView>(table),
        integrity::consistent(table, world),
        table.columns.len() <= u32::MAX,
        can_pick(table.columns, select.selection, floats),
        forall|i: int|
            0 <= i < select.projection@.len() ==> ((#[trigger] select.projection@[i]) matches
                SelectItem::Expression { expression, alias } ==> expression::inferred(
                expression,
                table.columns,
            ) is Ok),
        forall|n: int|
            0 <= n < select.order_by@.len() ==> expression::inferred(
                (#[trigger] select.order_by@[n]).expression,
                table.columns,
            ) is Ok,
        forall|k: Seq<u8>, values: Seq<ValueView>| #[trigger]
            is_row(table, world, k, values) ==> can_answer(
                select,
                Scope { columns: table.columns, row: values, floats },
            ),
    ensures
        statement::refused(Statement::Select(select), world, floats) is None,
{
    lemma_columns(select.projection@, table.columns, select.projection@.len());
    lemma_keys_typed(select.order_by@, table.columns, 0);
    lemma_read(table, select.selection, world, floats);
    integrity::lemma_rows_read(table, select.selection, world, floats);
    let rows = access::rows_read(table, select.selection, world, floats)->Ok_0;
    assert forall|i: int| 0 <= i < rows.len() implies schema::row_refused(
        table,
        (#[trigger] rows[i]).values,
    ) is None && can_answer(select, results::scope_of(table.columns, rows[i], floats)) by {
        assert(is_row(table, world, rows[i].key, rows[i].values));
        assert(integrity::row_sound(table, world, rows[i].key));
    }
    lemma_takes(select, table, rows, floats, Seq::empty(), 0);
}

/// Whether everything that is stored fits in its page.
pub open spec fn all_fit(world: Map<Seq<u8>, Seq<u8>>) -> bool {
    forall|k: Seq<u8>| #[trigger]
        world.contains_key(k) ==> record::record_size(k, Some(world[k])) <= MAX_PAGE_PAYLOAD
}

/// Whether the keys of a row's unique values can be taken away.
spec fn can_release(table: TableView, values: Seq<ValueView>) -> bool {
    forall|c: int|
        0 <= c < table.columns.len() && constraint::keyed(#[trigger] table.columns[c]) && !(
        values[c] is Null) ==> (codec::unique_key_result(table.id, c as nat, values[c]) matches Ok(
            u,
        ) && record::record_size(u, None) <= MAX_PAGE_PAYLOAD)
}

proof fn lemma_released(
    table: TableView,
    values: Seq<ValueView>,
    world: Map<Seq<u8>, Seq<u8>>,
    at: int,
)
    requires
        0 <= at,
        can_release(table, values),
    ensures
        constraint::released(table, values, world, at) is Ok,
    decreases table.columns.len() - at,
{
    if at < table.columns.len() {
        if !constraint::keyed(table.columns[at]) || values[at] is Null {
            lemma_released(table, values, world, at + 1);
        } else {
            let u = codec::unique_key_result(table.id, at as nat, values[at])->Ok_0;
            lemma_released(table, values, world.remove(u), at + 1);
        }
    }
}

proof fn lemma_can_release(
    table: TableView,
    world: Map<Seq<u8>, Seq<u8>>,
    k: Seq<u8>,
    values: Seq<ValueView>,
)
    requires
        all_fit(world),
        table.columns.len() <= u32::MAX,
        integrity::row_sound(table, world, k),
        integrity::row_at(world, k) == Some(values),
    ensures
        can_release(table, values),
        record::record_size(k, None) <= MAX_PAGE_PAYLOAD,
{
    admission::law_rows_are_taken_exactly(table, values);
    assert forall|c: int|
        0 <= c < table.columns.len() && constraint::keyed(#[trigger] table.columns[c]) && !(
        values[c] is Null) implies (codec::unique_key_result(
        table.id,
        c as nat,
        values[c],
    ) matches Ok(u) && record::record_size(u, None) <= MAX_PAGE_PAYLOAD) by {
        assert(admission::takes(table.columns[c], values[c]));
        let u = codec::unique_key_result(table.id, c as nat, values[c])->Ok_0;
        assert(integrity::owns(table, values, c, u));
        assert(integrity::owned(table, values, 0, u));
        assert(world.contains_key(u));
    }
}

proof fn lemma_deletes(
    table: TableView,
    selection: Option<Expr>,
    rows: Seq<StoredView>,
    world: Map<Seq<u8>, Seq<u8>>,
    floats: Map<FloatRequest, u64>,
    affected: nat,
    at: int,
)
    requires
        0 <= at,
        forall|i: int|
            0 <= i < rows.len() ==> schema::row_refused(table, (#[trigger] rows[i]).values) is None
                && can_judge(selection, results::scope_of(table.columns, rows[i], floats))
                && can_release(table, rows[i].values) && record::record_size(rows[i].key, None)
                <= MAX_PAGE_PAYLOAD,
    ensures
        delete::rows_deleted(table, selection, rows, world, floats, affected, at) is Ok,
    decreases rows.len() - at,
{
    if at < rows.len() {
        let row = rows[at];
        assert(can_judge(selection, results::scope_of(table.columns, row, floats)));
        let met = delete::chosen(selection, table.columns, row.values, floats);
        assert(met is Ok);
        if met->Ok_0 {
            lemma_released(table, row.values, world, 0);
            let next = delete::row_deleted(table, row, world)->Ok_0;
            lemma_deletes(table, selection, rows, next, floats, affected + 1, at + 1);
        } else {
            lemma_deletes(table, selection, rows, world, floats, affected, at + 1);
        }
    }
}

/// A deletion runs where its table is there and its condition is true, false or NULL of every row.
pub proof fn law_delete_runs(
    delete: Delete,
    world: Map<Seq<u8>, Seq<u8>>,
    floats: Map<FloatRequest, u64>,
    table: TableView,
)
    requires
        world.dom().finite(),
        all_fit(world),
        access::table_named(delete.table.value@, world) == Ok::<TableView, StopView>(table),
        integrity::consistent(table, world),
        table.columns.len() <= u32::MAX,
        can_pick(table.columns, delete.selection, floats),
        forall|k: Seq<u8>, values: Seq<ValueView>| #[trigger]
            is_row(table, world, k, values) ==> can_judge(
                delete.selection,
                Scope { columns: table.columns, row: values, floats },
            ),
    ensures
        statement::refused(Statement::Delete(delete), world, floats) is None,
{
    lemma_read(table, delete.selection, world, floats);
    integrity::lemma_rows_read(table, delete.selection, world, floats);
    let rows = access::rows_read(table, delete.selection, world, floats)->Ok_0;
    assert forall|i: int| 0 <= i < rows.len() implies schema::row_refused(
        table,
        (#[trigger] rows[i]).values,
    ) is None && can_judge(delete.selection, results::scope_of(table.columns, rows[i], floats))
        && can_release(table, rows[i].values) && record::record_size(rows[i].key, None)
        <= MAX_PAGE_PAYLOAD by {
        assert(is_row(table, world, rows[i].key, rows[i].values));
        assert(integrity::row_sound(table, world, rows[i].key));
        lemma_can_release(table, world, rows[i].key, rows[i].values);
    }
    lemma_deletes(table, delete.selection, rows, world, floats, 0, 0);
}

/// The key under which a new row is put.
pub open spec fn place_of(table: TableView, values: Seq<ValueView>) -> Seq<u8> {
    match table.primary_key {
        Some(position) => codec::row_key_of(
            table.id,
            codec::identity_of(values[position as int])->Ok_0,
        ),
        None => codec::row_key_of(table.id, bytes::be_bytes(table.next_row_id as nat, 8)),
    }
}

/// Whether a row has room: it and the keys of its unique values fit in their pages, and a table that
/// numbers its rows has a number left that no row has.
pub open spec fn has_room(table: TableView, values: Seq<ValueView>, world: Map<Seq<u8>, Seq<u8>>) -> bool {
    let k = place_of(table, values);
    &&& image::row_fits(values)
    &&& record::record_size(k, Some(image::row_image(values))) <= MAX_PAGE_PAYLOAD
    &&& forall|c: int|
        0 <= c < table.columns.len() && constraint::keyed(#[trigger] table.columns[c]) && !(
        values[c] is Null) ==> record::record_size(
            codec::unique_key_of(table.id, c as nat, codec::identity_of(values[c])->Ok_0),
            Some(k),
        ) <= MAX_PAGE_PAYLOAD
    &&& match table.primary_key {
        Some(position) => position < table.columns.len()
            && table.columns[position as int].primary_key && !(values[position as int] is Null) && (
        values[position as int] matches ValueView::Text(text) ==> encode_utf8(text).len()
            < u32::MAX),
        None => table.next_row_id < u64::MAX && !world.contains_key(k),
    }
}

proof fn lemma_same_is_alike(value: ValueView)
    requires
        value matches ValueView::Float(bits) ==> float::is_finite(bits),
    ensures
        admission::alike(value, value),
{
}

proof fn lemma_some_identity(value: ValueView)
    requires
        !(value is Null),
        value matches ValueView::Float(bits) ==> float::is_finite(bits),
    ensures
        codec::identity_of(value) is Ok,
{
}

/// Whether no row of a table shares a value with a new one that tells rows apart.
pub open spec fn is_new(
    table: TableView,
    values: Seq<ValueView>,
    world: Map<Seq<u8>, Seq<u8>>,
) -> bool {
    forall|k: Seq<u8>, row: Seq<ValueView>| #[trigger]
        is_row(table, world, k, row) ==> !admission::share(table.columns, values, row)
}

proof fn lemma_unique_key_free(
    table: TableView,
    values: Seq<ValueView>,
    world: Map<Seq<u8>, Seq<u8>>,
    c: int,
)
    requires
        integrity::consistent(table, world),
        is_new(table, values, world),
        table.columns.len() <= u32::MAX,
        values.len() == table.columns.len(),
        0 <= c < values.len(),
        admission::takes(table.columns[c], values[c]),
        constraint::keyed(table.columns[c]),
        !(values[c] is Null),
    ensures
        codec::unique_key_result(table.id, c as nat, values[c]) matches Ok(u)
            && !world.contains_key(u),
{
    lemma_some_identity(values[c]);
    let identity = codec::identity_of(values[c])->Ok_0;
    let u = codec::unique_key_of(table.id, c as nat, identity);
    assert(codec::unique_key_result(table.id, c as nat, values[c]) == Ok::<
        Seq<u8>,
        EngineErrorView,
    >(u));
    if world.contains_key(u) {
        assert(prefix::starts_with(u, codec::uniques_of(table.id))) by {
            let start = codec::uniques_of(table.id);
            assert(u.subrange(0, start.len() as int) =~= start);
        }
        assert(integrity::owner_sound(table, world, u));
        let k = world::found(world, u)->0;
        let row = integrity::row_at(world, k)->0;
        let column = choose|column: int| 0 <= column && #[trigger] integrity::owns(
            table,
            row,
            column,
            u,
        );
        let other = codec::identity_of(row[column])->Ok_0;
        codec::law_unique_keys_differ(
            table.id,
            c as nat,
            identity,
            table.id,
            column as nat,
            other,
        );
        codec::law_identities_differ(values[c], row[c]);
        lemma_same_is_alike(values[c]);
        assert(is_row(table, world, k, row));
        assert(table.columns[c].unique);
        assert(admission::share(table.columns, values, row));
    }
}

/// Whether a map has nothing more than another but the keys of a row's unique values in front of a column.
spec fn grew(
    table: TableView,
    values: Seq<ValueView>,
    before: Map<Seq<u8>, Seq<u8>>,
    after: Map<Seq<u8>, Seq<u8>>,
    at: int,
) -> bool {
    forall|u: Seq<u8>| #[trigger]
        after.contains_key(u) ==> before.contains_key(u) || exists|c: int|
            0 <= c < at && #[trigger] integrity::owns(table, values, c, u)
}

proof fn lemma_acquires(
    table: TableView,
    values: Seq<ValueView>,
    k: Seq<u8>,
    before: Map<Seq<u8>, Seq<u8>>,
    world: Map<Seq<u8>, Seq<u8>>,
    at: int,
)
    requires
        0 <= at,
        integrity::consistent(table, before),
        is_new(table, values, before),
        table.columns.len() <= u32::MAX,
        values.len() == table.columns.len(),
        forall|c: int|
            0 <= c < values.len() ==> admission::takes(#[trigger] table.columns[c], values[c]),
        k == place_of(table, values),
        has_room(table, values, before),
        grew(table, values, before, world, at),
    ensures
        constraint::acquired(table, values, k, world, at) is Ok,
    decreases table.columns.len() - at,
{
    if at < table.columns.len() {
        assert(admission::takes(table.columns[at], values[at]));
        if !constraint::keyed(table.columns[at]) || values[at] is Null {
            lemma_acquires(table, values, k, before, world, at + 1);
        } else {
            lemma_unique_key_free(table, values, before, at);
            let u = codec::unique_key_result(table.id, at as nat, values[at])->Ok_0;
            if world.contains_key(u) {
                let c = choose|c: int| 0 <= c < at && #[trigger] integrity::owns(
                    table,
                    values,
                    c,
                    u,
                );
                codec::law_unique_keys_differ(
                    table.id,
                    at as nat,
                    codec::identity_of(values[at])->Ok_0,
                    table.id,
                    c as nat,
                    codec::identity_of(values[c])->Ok_0,
                );
            }
            let next = world.insert(u, k);
            assert(integrity::owns(table, values, at, u));
            assert forall|v: Seq<u8>| #[trigger] next.contains_key(v) implies before.contains_key(v)
                || exists|c: int|
                0 <= c < at + 1 && #[trigger] integrity::owns(table, values, c, v) by {
                if v != u && !before.contains_key(v) {
                    let c = choose|c: int| 0 <= c < at && #[trigger] integrity::owns(
                        table,
                        values,
                        c,
                        v,
                    );
                    assert(integrity::owns(table, values, c, v));
                }
            }
            lemma_acquires(table, values, k, before, next, at + 1);
        }
    }
}

proof fn lemma_place_free(table: TableView, values: Seq<ValueView>, world: Map<Seq<u8>, Seq<u8>>)
    requires
        integrity::consistent(table, world),
        is_new(table, values, world),
        values.len() == table.columns.len(),
        forall|c: int|
            0 <= c < values.len() ==> admission::takes(#[trigger] table.columns[c], values[c]),
        has_room(table, values, world),
    ensures
        !world.contains_key(place_of(table, values)),
{
    let k = place_of(table, values);
    if let Some(position) = table.primary_key {
        let p = position as int;
        assert(admission::takes(table.columns[p], values[p]));
        lemma_some_identity(values[p]);
        if world.contains_key(k) {
            assert(prefix::starts_with(k, codec::rows_of(table.id))) by {
                let start = codec::rows_of(table.id);
                assert(k.subrange(0, start.len() as int) =~= start);
            }
            assert(integrity::row_sound(table, world, k));
            let row = integrity::row_at(world, k)->0;
            let other = codec::identity_of(row[p])->Ok_0;
            codec::law_row_keys_differ(
                table.id,
                codec::identity_of(values[p])->Ok_0,
                table.id,
                other,
            );
            codec::law_identities_differ(values[p], row[p]);
            lemma_same_is_alike(values[p]);
            assert(is_row(table, world, k, row));
            assert(admission::share(table.columns, values, row));
        }
    }
}

/// INSERT lets a row in where every column takes its value, no row of the table shares a value with it
/// that tells rows apart, and there is room.
pub proof fn law_new_rows_are_let_in(from: Inserting, values: Seq<ValueView>)
    requires
        integrity::consistent(from.table, from.world),
        integrity::rows_stand(from.table, from.world, from.rows, 0),
        from.table.columns.len() <= u32::MAX,
        values.len() == from.table.columns.len(),
        forall|c: int|
            0 <= c < values.len() ==> admission::takes(#[trigger] from.table.columns[c], values[c]),
        is_new(from.table, values, from.world),
        has_room(from.table, values, from.world),
    ensures
        insert::row_added(from, values) matches Ok(next) && next.world.contains_key(
            place_of(from.table, values),
        ) && next.world[place_of(from.table, values)] == image::row_image(values),
{
    let table = from.table;
    let k = place_of(table, values);
    admission::law_rows_are_taken_exactly(table, values);
    assert forall|r: int| 0 <= r < from.rows.len() implies (#[trigger] from.rows[r]).values.len()
        == table.columns.len() && !admission::share(table.columns, values, from.rows[r].values) by {
        assert(is_row(table, from.world, from.rows[r].key, from.rows[r].values));
        assert(integrity::row_sound(table, from.world, from.rows[r].key));
    }
    admission::law_duplicates_are_refused_exactly(table.columns, values, from.rows, -1);
    lemma_place_free(table, values, from.world);
    if let Some(position) = table.primary_key {
        assert(admission::takes(table.columns[position as int], values[position as int]));
        lemma_identity(values[position as int]);
    } else {
        bytes::lemma_be_round_trip(table.next_row_id as nat, 8);
    }
    let numbered = insert::row_identity(table, values)->Ok_0.1;
    lemma_acquires(table, values, k, from.world, from.world, 0);
    lemma_number_does_not_matter(table, numbered, values, k, from.world, 0);
}

proof fn lemma_number_does_not_matter(
    table: TableView,
    other: TableView,
    values: Seq<ValueView>,
    k: Seq<u8>,
    world: Map<Seq<u8>, Seq<u8>>,
    at: int,
)
    requires
        0 <= at,
        other.id == table.id,
        other.columns == table.columns,
    ensures
        constraint::acquired(other, values, k, world, at) == constraint::acquired(
            table,
            values,
            k,
            world,
            at,
        ),
    decreases table.columns.len() - at,
{
    if at < table.columns.len() {
        if !constraint::keyed(table.columns[at]) || values[at] is Null {
            lemma_number_does_not_matter(table, other, values, k, world, at + 1);
        } else if codec::unique_key_result(table.id, at as nat, values[at]) is Ok {
            let u = codec::unique_key_result(table.id, at as nat, values[at])->Ok_0;
            lemma_number_does_not_matter(table, other, values, k, world.insert(u, k), at + 1);
        }
    }
}

/// The key under which a row is once it has changed.
pub open spec fn place_after(table: TableView, old_key: Seq<u8>, after: Seq<ValueView>) -> Seq<u8> {
    match table.primary_key {
        Some(position) => codec::row_key_of(
            table.id,
            codec::identity_of(after[position as int])->Ok_0,
        ),
        None => old_key,
    }
}

/// Whether a changed row has room under a key.
pub open spec fn has_room_at(table: TableView, after: Seq<ValueView>, k: Seq<u8>) -> bool {
    &&& image::row_fits(after)
    &&& record::record_size(k, Some(image::row_image(after))) <= MAX_PAGE_PAYLOAD
    &&& forall|c: int|
        0 <= c < table.columns.len() && constraint::keyed(#[trigger] table.columns[c]) && !(
        after[c] is Null) ==> record::record_size(
            codec::unique_key_of(table.id, c as nat, codec::identity_of(after[c])->Ok_0),
            Some(k),
        ) <= MAX_PAGE_PAYLOAD
    &&& table.primary_key matches Some(position) ==> position < table.columns.len()
        && table.columns[position as int].primary_key && !(after[position as int] is Null) && (
    after[position as int] matches ValueView::Text(text) ==> encode_utf8(text).len() < u32::MAX)
}

/// Whether no row of a table but one shares a value with the new values of that one.
pub open spec fn is_new_but(
    table: TableView,
    after: Seq<ValueView>,
    world: Map<Seq<u8>, Seq<u8>>,
    old_key: Seq<u8>,
) -> bool {
    forall|k: Seq<u8>, row: Seq<ValueView>| #[trigger]
        is_row(table, world, k, row) && k != old_key ==> !admission::share(
            table.columns,
            after,
            row,
        )
}

proof fn lemma_changed_key_free(
    table: TableView,
    before: Seq<ValueView>,
    after: Seq<ValueView>,
    world: Map<Seq<u8>, Seq<u8>>,
    old_key: Seq<u8>,
    c: int,
)
    requires
        integrity::consistent(table, world),
        is_row(table, world, old_key, before),
        is_new_but(table, after, world, old_key),
        table.columns.len() <= u32::MAX,
        after.len() == table.columns.len(),
        0 <= c < after.len(),
        admission::takes(table.columns[c], after[c]),
        constraint::keyed(table.columns[c]),
        !(after[c] is Null),
    ensures
        codec::unique_key_result(table.id, c as nat, after[c]) matches Ok(u) && (
        !value::equal(before[c], after[c]) ==> !world.contains_key(u)),
{
    lemma_some_identity(after[c]);
    let identity = codec::identity_of(after[c])->Ok_0;
    let u = codec::unique_key_of(table.id, c as nat, identity);
    assert(codec::unique_key_result(table.id, c as nat, after[c]) == Ok::<
        Seq<u8>,
        EngineErrorView,
    >(u));
    if world.contains_key(u) && !value::equal(before[c], after[c]) {
        assert(prefix::starts_with(u, codec::uniques_of(table.id))) by {
            let start = codec::uniques_of(table.id);
            assert(u.subrange(0, start.len() as int) =~= start);
        }
        assert(integrity::owner_sound(table, world, u));
        let k = world::found(world, u)->0;
        let row = integrity::row_at(world, k)->0;
        let column = choose|column: int| 0 <= column && #[trigger] integrity::owns(
            table,
            row,
            column,
            u,
        );
        codec::law_unique_keys_differ(
            table.id,
            c as nat,
            identity,
            table.id,
            column as nat,
            codec::identity_of(row[column])->Ok_0,
        );
        codec::law_identities_differ(after[c], row[c]);
        lemma_same_is_alike(after[c]);
        assert(is_row(table, world, k, row));
        assert(table.columns[c].unique);
        assert(admission::share(table.columns, after, row));
        assert(k == old_key);
        admission::lemma_alike(after[c], after[c]);
    }
}

proof fn lemma_rekeys(
    table: TableView,
    before: Seq<ValueView>,
    after: Seq<ValueView>,
    old_key: Seq<u8>,
    k: Seq<u8>,
    start: Map<Seq<u8>, Seq<u8>>,
    world: Map<Seq<u8>, Seq<u8>>,
    at: int,
)
    requires
        0 <= at,
        integrity::consistent(table, start),
        is_row(table, start, old_key, before),
        is_new_but(table, after, start, old_key),
        table.columns.len() <= u32::MAX,
        after.len() == table.columns.len(),
        forall|c: int|
            0 <= c < after.len() ==> admission::takes(#[trigger] table.columns[c], after[c]),
        can_release(table, before),
        has_room_at(table, after, k),
        grew(table, after, start, world, at),
    ensures
        constraint::rekeyed(table, before, after, old_key, k, world, at) matches Ok(keyed) && grew(
            table,
            after,
            start,
            keyed,
            table.columns.len() as int,
        ),
    decreases table.columns.len() - at,
{
    let width = table.columns.len() as int;
    if at < width {
        assert(admission::takes(table.columns[at], after[at]));
        let changed = !value::equal(before[at], after[at]);
        if !constraint::keyed(table.columns[at]) || (!changed && old_key == k) {
            lemma_grew(table, after, start, world, at, at + 1);
            lemma_rekeys(table, before, after, old_key, k, start, world, at + 1);
        } else {
            let taken = if after[at] is Null {
                world
            } else {
                lemma_changed_key_free(table, before, after, start, old_key, at);
                let u = codec::unique_key_result(table.id, at as nat, after[at])->Ok_0;
                if changed && world.contains_key(u) {
                    let c = choose|c: int| 0 <= c < at && #[trigger] integrity::owns(
                        table,
                        after,
                        c,
                        u,
                    );
                    codec::law_unique_keys_differ(
                        table.id,
                        at as nat,
                        codec::identity_of(after[at])->Ok_0,
                        table.id,
                        c as nat,
                        codec::identity_of(after[c])->Ok_0,
                    );
                }
                assert(integrity::owns(table, after, at, u));
                world.insert(u, k)
            };
            assert(constraint::column_taken(table, at, after[at], changed, k, world) == Ok::<
                Map<Seq<u8>, Seq<u8>>,
                StopView,
            >(taken));
            lemma_grew(table, after, start, world, at, at + 1);
            assert(grew(table, after, start, taken, at + 1));
            let next = constraint::column_left(table, at, before[at], changed, taken)->Ok_0;
            assert(constraint::column_left(table, at, before[at], changed, taken) is Ok);
            assert forall|v: Seq<u8>| #[trigger] next.contains_key(v) implies start.contains_key(v)
                || exists|c: int|
                0 <= c < at + 1 && #[trigger] integrity::owns(table, after, c, v) by {
                assert(taken.contains_key(v));
            }
            lemma_rekeys(table, before, after, old_key, k, start, next, at + 1);
        }
    } else {
        lemma_narrow(table, after, start, world, at);
    }
}

proof fn lemma_narrow(
    table: TableView,
    values: Seq<ValueView>,
    before: Map<Seq<u8>, Seq<u8>>,
    after: Map<Seq<u8>, Seq<u8>>,
    at: int,
)
    requires
        grew(table, values, before, after, at),
    ensures
        grew(table, values, before, after, table.columns.len() as int),
{
    assert forall|u: Seq<u8>| #[trigger] after.contains_key(u) implies before.contains_key(u)
        || exists|c: int|
        0 <= c < table.columns.len() as int && #[trigger] integrity::owns(table, values, c, u) by {
        if !before.contains_key(u) {
            let c = choose|c: int| 0 <= c < at && #[trigger] integrity::owns(table, values, c, u);
            assert(integrity::owns(table, values, c, u));
        }
    }
}

proof fn lemma_grew(
    table: TableView,
    values: Seq<ValueView>,
    before: Map<Seq<u8>, Seq<u8>>,
    after: Map<Seq<u8>, Seq<u8>>,
    few: int,
    many: int,
)
    requires
        few <= many,
        grew(table, values, before, after, few),
    ensures
        grew(table, values, before, after, many),
{
    assert forall|u: Seq<u8>| #[trigger] after.contains_key(u) implies before.contains_key(u)
        || exists|c: int| 0 <= c < many && #[trigger] integrity::owns(table, values, c, u) by {
        if !before.contains_key(u) {
            let c = choose|c: int| 0 <= c < few && #[trigger] integrity::owns(table, values, c, u);
            assert(integrity::owns(table, values, c, u));
        }
    }
}

proof fn lemma_new_place_free(
    table: TableView,
    after: Seq<ValueView>,
    world: Map<Seq<u8>, Seq<u8>>,
    old_key: Seq<u8>,
)
    requires
        integrity::consistent(table, world),
        is_new_but(table, after, world, old_key),
        after.len() == table.columns.len(),
        forall|c: int|
            0 <= c < after.len() ==> admission::takes(#[trigger] table.columns[c], after[c]),
        prefix::starts_with(old_key, codec::rows_of(table.id)),
        has_room_at(table, after, place_after(table, old_key, after)),
    ensures
        ({
            let k = place_after(table, old_key, after);
            &&& prefix::starts_with(k, codec::rows_of(table.id))
            &&& k == old_key || !world.contains_key(k)
        }),
{
    let k = place_after(table, old_key, after);
    if let Some(position) = table.primary_key {
        let p = position as int;
        assert(admission::takes(table.columns[p], after[p]));
        lemma_some_identity(after[p]);
        assert(prefix::starts_with(k, codec::rows_of(table.id))) by {
            let start = codec::rows_of(table.id);
            assert(k.subrange(0, start.len() as int) =~= start);
        }
        if world.contains_key(k) && k != old_key {
            assert(integrity::row_sound(table, world, k));
            let row = integrity::row_at(world, k)->0;
            codec::law_row_keys_differ(
                table.id,
                codec::identity_of(after[p])->Ok_0,
                table.id,
                codec::identity_of(row[p])->Ok_0,
            );
            codec::law_identities_differ(after[p], row[p]);
            lemma_same_is_alike(after[p]);
            assert(is_row(table, world, k, row));
            assert(admission::share(table.columns, after, row));
        }
    }
}

/// UPDATE changes a row where every column takes its new value, no other row of the table shares a value
/// with it that tells rows apart, and there is room.
pub proof fn law_changed_rows_are_let_in(
    table: TableView,
    from: Updating,
    at: int,
    after: Seq<ValueView>,
)
    requires
        all_fit(from.world),
        integrity::consistent(table, from.world),
        integrity::rows_stand(table, from.world, from.rows, 0),
        0 <= at < from.rows.len(),
        table.columns.len() <= u32::MAX,
        after.len() == table.columns.len(),
        forall|c: int|
            0 <= c < after.len() ==> admission::takes(#[trigger] table.columns[c], after[c]),
        is_new_but(table, after, from.world, from.rows[at].key),
        has_room_at(table, after, place_after(table, from.rows[at].key, after)),
    ensures
        update::row_changed(table, from, at, after) is Ok,
{
    let old_key = from.rows[at].key;
    let before = from.rows[at].values;
    let k = place_after(table, old_key, after);
    admission::law_rows_are_taken_exactly(table, after);
    assert forall|r: int| 0 <= r < from.rows.len() implies (#[trigger] from.rows[r]).values.len()
        == table.columns.len() && (r != at ==> !admission::share(
        table.columns,
        after,
        from.rows[r].values,
    )) by {
        assert(is_row(table, from.world, from.rows[r].key, from.rows[r].values));
        assert(integrity::row_sound(table, from.world, from.rows[r].key));
        if r < at {
            assert(from.rows[r].key != from.rows[at].key);
        }
        if at < r {
            assert(from.rows[at].key != from.rows[r].key);
        }
    }
    admission::law_duplicates_are_refused_exactly(table.columns, after, from.rows, at);
    assert(is_row(table, from.world, old_key, before));
    assert(integrity::row_sound(table, from.world, old_key));
    lemma_can_release(table, from.world, old_key, before);
    lemma_new_place_free(table, after, from.world, old_key);
    if let Some(position) = table.primary_key {
        assert(admission::takes(table.columns[position as int], after[position as int]));
        lemma_identity(after[position as int]);
    }
    lemma_rekeys(table, before, after, old_key, k, from.world, from.world, 0);
    let keyed = constraint::rekeyed(table, before, after, old_key, k, from.world, 0)->Ok_0;
    if k != old_key {
        if keyed.contains_key(k) {
            let c = choose|c: int|
                0 <= c < table.columns.len() as int && #[trigger] integrity::owns(
                    table,
                    after,
                    c,
                    k,
                );
            let u = codec::unique_key_of(
                table.id,
                c as nat,
                codec::identity_of(after[c])->Ok_0,
            );
            let start = codec::uniques_of(table.id);
            assert(u.subrange(0, start.len() as int) =~= start);
            integrity::lemma_row_space(table, k);
        }
        if update::key_in_use(from.rows, at, k) {
            let i = choose|i: int|
                0 <= i < from.rows.len() && i != at && (#[trigger] from.rows[i]).key == k;
            assert(integrity::row_at(from.world, from.rows[i].key) == Some(from.rows[i].values));
        }
    }
}

} // verus!
