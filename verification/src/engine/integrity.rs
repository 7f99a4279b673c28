//! What holds of the keys of a table: every row is whole and in its place, the key of every unique
//! value names its row, and no such key names anything else.
use crate::bytes;
use crate::engine::access;
use crate::engine::access::{AccessView, StoredView};
use crate::engine::codec;
use crate::engine::constraint;
use crate::engine::delete;
use crate::engine::error::StopView;
use crate::engine::float::FloatRequest;
use crate::engine::image;
use crate::engine::insert;
use crate::engine::insert::Inserting;
use crate::engine::schema;
use crate::engine::schema::TableView;
use crate::engine::statement;
use crate::engine::update;
use crate::engine::update::Updating;
use crate::engine::value;
use crate::engine::value::ValueView;
use crate::engine::world;
use crate::index::key;
use crate::mvcc::key_map;
use crate::mvcc::prefix;
use crate::mvcc::transaction::RowView;
use crate::syntax::{CreateTable, Delete, DropTable, Expr, Insert, Update};
use vstd::prelude::*;

verus! {

/// Whether a key is the key of a unique value in a column of a row.
pub open spec fn owns(table: TableView, values: Seq<ValueView>, column: int, k: Seq<u8>) -> bool {
    &&& 0 <= column < table.columns.len()
    &&& constraint::keyed(table.columns[column])
    &&& !(values[column] is Null)
    &&& codec::unique_key_result(table.id, column as nat, values[column]) == Ok::<
        Seq<u8>,
        crate::engine::error::EngineErrorView,
    >(k)
}

/// Whether a key is the key of a unique value of a row, in a column from one on.
pub open spec fn owned(table: TableView, values: Seq<ValueView>, at: int, k: Seq<u8>) -> bool {
    exists|column: int| at <= column && #[trigger] owns(table, values, column, k)
}

/// The values of the row under a key.
pub open spec fn row_at(world: Map<Seq<u8>, Seq<u8>>, k: Seq<u8>) -> Option<Seq<ValueView>> {
    match world::found(world, k) {
        Some(bytes) => match image::row_decoded(bytes) {
            Ok(values) => Some(values),
            Err(_) => None,
        },
        None => None,
    }
}

/// Whether a key is where a row of a table belongs.
pub open spec fn placed(table: TableView, values: Seq<ValueView>, k: Seq<u8>) -> bool {
    match table.primary_key {
        Some(position) => {
            &&& position < table.columns.len()
            &&& codec::identity_of(values[position as int]) matches Ok(identity) && k
                == codec::row_key_of(table.id, identity)
        },
        None => true,
    }
}

/// Whether the row under a key is whole, in its place, and named by the keys of its unique values.
pub open spec fn row_sound(table: TableView, world: Map<Seq<u8>, Seq<u8>>, k: Seq<u8>) -> bool {
    &&& row_at(world, k) matches Some(values)
    &&& schema::row_refused(table, values) is None
    &&& placed(table, values, k)
    &&& forall|u: Seq<u8>| #[trigger]
        owned(table, values, 0, u) ==> world::found(world, u) == Some(k)
}

/// Whether a key of a unique value names a row with that value.
pub open spec fn owner_sound(table: TableView, world: Map<Seq<u8>, Seq<u8>>, u: Seq<u8>) -> bool {
    &&& world::found(world, u) matches Some(k)
    &&& prefix::starts_with(k, codec::rows_of(table.id))
    &&& row_at(world, k) matches Some(values)
    &&& owned(table, values, 0, u)
}

/// Whether the rows of a table and the keys of its unique values agree.
pub open spec fn consistent(table: TableView, world: Map<Seq<u8>, Seq<u8>>) -> bool {
    &&& forall|k: Seq<u8>|
        #![trigger row_sound(table, world, k)]
        world.contains_key(k) && prefix::starts_with(k, codec::rows_of(table.id)) ==> row_sound(
            table,
            world,
            k,
        )
    &&& forall|u: Seq<u8>|
        #![trigger owner_sound(table, world, u)]
        world.contains_key(u) && prefix::starts_with(u, codec::uniques_of(table.id))
            ==> owner_sound(table, world, u)
}

/// The key of a unique value is no key of a row, and is among the unique keys of its table.
proof fn lemma_owned_place(table: TableView, values: Seq<ValueView>, at: int, u: Seq<u8>)
    requires
        owned(table, values, at, u),
    ensures
        prefix::starts_with(u, codec::uniques_of(table.id)),
        !prefix::starts_with(u, codec::rows_of(table.id)),
{
    let column = choose|column: int| at <= column && #[trigger] owns(table, values, column, u);
    let identity = codec::identity_of(values[column])->Ok_0;
    codec::law_key_spaces_are_apart(
        table.id,
        table.id,
        Seq::empty(),
        column as nat,
        identity,
        Seq::empty(),
    );
}

/// A unique value has one key, and the key is that of no other value.
proof fn lemma_owned_once(
    table: TableView,
    values: Seq<ValueView>,
    column: int,
    others: Seq<ValueView>,
    other: int,
    u: Seq<u8>,
)
    requires
        owns(table, values, column, u),
        owns(table, others, other, u),
    ensures
        column == other,
        values[column] == others[other],
{
    let a = codec::identity_of(values[column])->Ok_0;
    let b = codec::identity_of(others[other])->Ok_0;
    codec::law_unique_keys_differ(table.id, column as nat, a, table.id, other as nat, b);
    codec::law_identities_differ(values[column], others[other]);
}

/// What taking the keys of a row's unique values does.
proof fn lemma_acquired(
    table: TableView,
    values: Seq<ValueView>,
    row: Seq<u8>,
    world: Map<Seq<u8>, Seq<u8>>,
    at: int,
)
    requires
        0 <= at,
    ensures
        constraint::acquired(table, values, row, world, at) matches Ok(after) ==> {
            forall|u: Seq<u8>| #[trigger]
                world::found(after, u) == (if owned(table, values, at, u) {
                    Some(row)
                } else {
                    world::found(world, u)
                }) && (owned(table, values, at, u) ==> !world.contains_key(u))
        },
    decreases table.columns.len() - at,
{
    if let Ok(after) = constraint::acquired(table, values, row, world, at) {
        if at < table.columns.len() {
            if !constraint::keyed(table.columns[at]) || values[at] is Null {
                lemma_acquired(table, values, row, world, at + 1);
                assert forall|u: Seq<u8>| #[trigger]
                    owned(table, values, at, u) == owned(table, values, at + 1, u) by {
                    lemma_owned_step(table, values, at, u);
                }
            } else {
                let k = codec::unique_key_result(table.id, at as nat, values[at])->Ok_0;
                let next = world.insert(k, row);
                lemma_acquired(table, values, row, next, at + 1);
                assert(owns(table, values, at, k));
                assert forall|u: Seq<u8>| #[trigger]
                    world::found(after, u) == (if owned(table, values, at, u) {
                        Some(row)
                    } else {
                        world::found(world, u)
                    }) && (owned(table, values, at, u) ==> !world.contains_key(u)) by {
                    lemma_owned_step(table, values, at, u);
                    if u == k {
                        assert(owned(table, values, at, u));
                    }
                }
            }
        }
    }
}

/// The unique values from one column on are that of the column and those from the next on.
proof fn lemma_owned_step(table: TableView, values: Seq<ValueView>, at: int, u: Seq<u8>)
    ensures
        owned(table, values, at, u) <==> owns(table, values, at, u) || owned(
            table,
            values,
            at + 1,
            u,
        ),
{
    if owned(table, values, at, u) {
        let column = choose|column: int| at <= column && #[trigger] owns(table, values, column, u);
        if column != at {
            assert(at + 1 <= column && owns(table, values, column, u));
        }
    }
    if owned(table, values, at + 1, u) {
        let column = choose|column: int|
            at + 1 <= column && #[trigger] owns(table, values, column, u);
        assert(at <= column && owns(table, values, column, u));
    }
}

/// What giving up the keys of a row's unique values does.
proof fn lemma_released(
    table: TableView,
    values: Seq<ValueView>,
    world: Map<Seq<u8>, Seq<u8>>,
    at: int,
)
    requires
        0 <= at,
    ensures
        constraint::released(table, values, world, at) matches Ok(after) ==> {
            forall|u: Seq<u8>| #[trigger]
                world::found(after, u) == (if owned(table, values, at, u) {
                    None
                } else {
                    world::found(world, u)
                })
        },
    decreases table.columns.len() - at,
{
    if let Ok(after) = constraint::released(table, values, world, at) {
        if at < table.columns.len() {
            if !constraint::keyed(table.columns[at]) || values[at] is Null {
                lemma_released(table, values, world, at + 1);
                assert forall|u: Seq<u8>| #[trigger]
                    owned(table, values, at, u) == owned(table, values, at + 1, u) by {
                    lemma_owned_step(table, values, at, u);
                }
            } else {
                let k = codec::unique_key_result(table.id, at as nat, values[at])->Ok_0;
                lemma_released(table, values, world.remove(k), at + 1);
                assert(owns(table, values, at, k));
                assert forall|u: Seq<u8>| #[trigger]
                    world::found(after, u) == (if owned(table, values, at, u) {
                        None
                    } else {
                        world::found(world, u)
                    }) by {
                    lemma_owned_step(table, values, at, u);
                }
            }
        }
    }
}

/// Two rows of a table do not share a unique value.
pub proof fn law_unique_values_differ(
    table: TableView,
    world: Map<Seq<u8>, Seq<u8>>,
    first: Seq<u8>,
    second: Seq<u8>,
    column: int,
)
    requires
        consistent(table, world),
        world.contains_key(first) && prefix::starts_with(first, codec::rows_of(table.id)),
        world.contains_key(second) && prefix::starts_with(second, codec::rows_of(table.id)),
        first != second,
        0 <= column < table.columns.len(),
        column <= u32::MAX,
        constraint::keyed(table.columns[column]) || table.primary_key == Some(column as usize)
            && column <= usize::MAX,
    ensures
        row_at(world, first) is Some,
        row_at(world, second) is Some,
        row_at(world, first)->0[column] is Null || row_at(world, first)->0[column] != row_at(
            world,
            second,
        )->0[column],
{
    assert(row_sound(table, world, first));
    assert(row_sound(table, world, second));
    let values = row_at(world, first)->0;
    let others = row_at(world, second)->0;
    if !(values[column] is Null) && values[column] == others[column] && constraint::keyed(
        table.columns[column],
    ) {
        schema::law_accepted_rows(table, values, column);
        let u = codec::unique_key_result(table.id, column as nat, values[column])->Ok_0;
        assert(owns(table, values, column, u));
        assert(owns(table, others, column, u));
        assert(owned(table, values, 0, u));
        assert(owned(table, others, 0, u));
    }
}

/// A row is found by the value of its key column, and no other row is.
pub proof fn law_point_read_finds_the_row(
    table: TableView,
    world: Map<Seq<u8>, Seq<u8>>,
    position: int,
    wanted: ValueView,
    found: Option<Seq<u8>>,
    k: Seq<u8>,
)
    requires
        consistent(table, world),
        0 <= position < table.columns.len(),
        table.columns[position].primary_key ==> table.primary_key == Some(position as usize)
            && position <= usize::MAX,
        table.columns[position].primary_key || table.columns[position].unique,
        !(wanted is Null),
        access::key_for(table, position, wanted, world) == Ok::<AccessView, StopView>(
            AccessView::Point(found),
        ),
        world.contains_key(k) && prefix::starts_with(k, codec::rows_of(table.id)),
    ensures
        row_at(world, k) matches Some(values) && (values[position] == wanted <==> found == Some(k)),
{
    assert(row_sound(table, world, k));
    let values = row_at(world, k)->0;
    schema::law_accepted_rows(table, values, position);
    if table.columns[position].primary_key {
        let identity = codec::identity_of(values[position])->Ok_0;
        let other = codec::identity_of(wanted)->Ok_0;
        if found == Some(k) {
            codec::law_row_keys_differ(table.id, identity, table.id, other);
            codec::law_identities_differ(values[position], wanted);
        }
    } else {
        let u = codec::unique_key_result(table.id, position as nat, wanted)->Ok_0;
        if values[position] == wanted {
            assert(owns(table, values, position, u));
            assert(owned(table, values, 0, u));
        }
        if found == Some(k) {
            let asked = Seq::new(table.columns.len(), |i: int| wanted);
            assert(owns(table, asked, position, u));
            assert(owned(table, asked, 0, u));
            lemma_owned_place(table, asked, 0, u);
            assert(owner_sound(table, world, u));
            let column = choose|column: int| 0 <= column && #[trigger] owns(
                table,
                values,
                column,
                u,
            );
            lemma_owned_once(table, values, column, asked, position, u);
        }
    }
}

/// Tables that differ in the next row number only are alike.
proof fn lemma_numbering(table: TableView, other: TableView, world: Map<Seq<u8>, Seq<u8>>)
    requires
        consistent(table, world),
        other == (TableView { next_row_id: other.next_row_id, ..table }),
    ensures
        consistent(other, world),
{
    assert forall|values: Seq<ValueView>, u: Seq<u8>| #[trigger]
        owned(other, values, 0, u) == owned(table, values, 0, u) by {
        if owned(other, values, 0, u) {
            let c = choose|c: int| 0 <= c && #[trigger] owns(other, values, c, u);
            assert(owns(table, values, c, u));
        }
        if owned(table, values, 0, u) {
            let c = choose|c: int| 0 <= c && #[trigger] owns(table, values, c, u);
            assert(owns(other, values, c, u));
        }
    }
    assert forall|k: Seq<u8>|
        #![trigger row_sound(other, world, k)]
        world.contains_key(k) && prefix::starts_with(k, codec::rows_of(table.id)) implies row_sound(
        other,
        world,
        k,
    ) by {
        assert(row_sound(table, world, k));
    }
    assert forall|u: Seq<u8>|
        #![trigger owner_sound(other, world, u)]
        world.contains_key(u) && prefix::starts_with(u, codec::uniques_of(table.id)) implies
        owner_sound(other, world, u) by {
        assert(owner_sound(table, world, u));
    }
}

/// Putting a row in its place keeps a table consistent and every other key as it is.
pub proof fn law_insert_keeps_rows_sound(from: Inserting, values: Seq<ValueView>)
    requires
        consistent(from.table, from.world),
        from.table.primary_key matches Some(position) ==> position < from.table.columns.len(),
    ensures
        insert::row_added(from, values) matches Ok(next) ==> {
            &&& consistent(next.table, next.world)
            &&& next.table == (TableView { next_row_id: next.table.next_row_id, ..from.table })
            &&& next.rows == from.rows.push(next.rows.last())
            &&& next.rows.last().values == values
            &&& prefix::starts_with(next.rows.last().key, codec::rows_of(from.table.id))
            &&& !from.world.contains_key(next.rows.last().key)
            &&& row_at(next.world, next.rows.last().key) == Some(values)
            &&& forall|k: Seq<u8>| #[trigger]
                from.world.contains_key(k) ==> world::found(next.world, k) == world::found(
                    from.world,
                    k,
                )
            &&& forall|k: Seq<u8>| #[trigger]
                next.world.contains_key(k) && !from.world.contains_key(k)
                    ==> k == next.rows.last().key || prefix::starts_with(
                    k,
                    codec::uniques_of(from.table.id),
                )
        },
{
    if let Ok(next) = insert::row_added(from, values) {
        let (identity, table) = insert::row_identity(from.table, values)->Ok_0;
        let k = codec::row_key_of(table.id, identity);
        let taken = constraint::acquired(table, values, k, from.world, 0)->Ok_0;
        lemma_numbering(from.table, table, from.world);
        lemma_acquired(table, values, k, from.world, 0);
        image::law_row_round_trip(values);
        codec::law_key_spaces_are_apart(
            table.id,
            table.id,
            identity,
            0,
            Seq::empty(),
            Seq::empty(),
        );
        assert(next.rows.last().key == k);
        assert(next.world == taken.insert(k, image::row_image(values)));
        assert(next.rows =~= from.rows.push(next.rows.last()));
        assert forall|u: Seq<u8>| #[trigger] owned(table, values, 0, u) implies u != k
            && prefix::starts_with(u, codec::uniques_of(table.id)) && !prefix::starts_with(
            u,
            codec::rows_of(table.id),
        ) && world::found(next.world, u) == Some(k) by {
            lemma_owned_place(table, values, 0, u);
            assert(world::found(taken, u) == Some(k));
        }
        assert forall|u: Seq<u8>| #[trigger] from.world.contains_key(u) implies world::found(
            next.world,
            u,
        ) == world::found(from.world, u) by {
            assert(world::found(taken, u) == world::found(from.world, u));
        }
        assert forall|u: Seq<u8>| #[trigger]
            next.world.contains_key(u) && !from.world.contains_key(u) implies u == k
            || prefix::starts_with(u, codec::uniques_of(from.table.id)) by {
            assert(world::found(taken, u) is Some || u == k);
        }
        assert forall|row: Seq<u8>|
            #![trigger row_sound(table, next.world, row)]
            next.world.contains_key(row) && prefix::starts_with(
                row,
                codec::rows_of(table.id),
            ) implies row_sound(table, next.world, row) by {
            if row != k {
                assert(world::found(taken, row) is Some);
                assert(from.world.contains_key(row));
                assert(row_sound(table, from.world, row));
                let stored = row_at(from.world, row)->0;
                assert(row_at(next.world, row) == Some(stored));
                assert forall|u: Seq<u8>| #[trigger] owned(table, stored, 0, u) implies
                    world::found(next.world, u) == Some(row) by {
                    assert(world::found(from.world, u) == Some(row));
                    assert(from.world.contains_key(u));
                }
            }
        }
        assert forall|u: Seq<u8>|
            #![trigger owner_sound(table, next.world, u)]
            next.world.contains_key(u) && prefix::starts_with(
                u,
                codec::uniques_of(table.id),
            ) implies owner_sound(table, next.world, u) by {
            if owned(table, values, 0, u) {
                assert(row_at(next.world, k) == Some(values));
            } else {
                assert(u != k);
                assert(world::found(taken, u) == world::found(from.world, u));
                assert(from.world.contains_key(u));
                assert(owner_sound(table, from.world, u));
                let row = from.world[u];
                assert(from.world.contains_key(row));
                assert(row_at(next.world, row) == row_at(from.world, row));
            }
        }
    }
}

/// Taking a row away keeps a table consistent and every other row as it is.
pub proof fn law_delete_keeps_rows_sound(
    table: TableView,
    world: Map<Seq<u8>, Seq<u8>>,
    row: StoredView,
)
    requires
        consistent(table, world),
        row_at(world, row.key) == Some(row.values),
        prefix::starts_with(row.key, codec::rows_of(table.id)),
    ensures
        delete::row_deleted(table, row, world) matches Ok(after) ==> {
            &&& consistent(table, after)
            &&& !after.contains_key(row.key)
            &&& forall|k: Seq<u8>|
                k != row.key && !prefix::starts_with(k, codec::uniques_of(table.id))
                    ==> #[trigger] world::found(after, k) == world::found(world, k)
            &&& forall|k: Seq<u8>| #[trigger] after.contains_key(k) ==> world.contains_key(k)
        },
{
    if let Ok(after) = delete::row_deleted(table, row, world) {
        let freed = constraint::released(table, row.values, world, 0)->Ok_0;
        lemma_released(table, row.values, world, 0);
        assert(after == freed.remove(row.key));
        assert(row_sound(table, world, row.key));
        assert forall|k: Seq<u8>|
            k != row.key && !prefix::starts_with(
                k,
                codec::uniques_of(table.id),
            ) implies #[trigger] world::found(after, k) == world::found(world, k) by {
            if owned(table, row.values, 0, k) {
                lemma_owned_place(table, row.values, 0, k);
            }
            assert(world::found(freed, k) == world::found(world, k));
        }
        assert forall|k: Seq<u8>| #[trigger] after.contains_key(k) implies world.contains_key(
            k,
        ) by {
            assert(world::found(freed, k) is Some);
        }
        lemma_deleted_rows(table, world, after, row, freed);
        assert forall|u: Seq<u8>|
            #![trigger owner_sound(table, after, u)]
            after.contains_key(u) && prefix::starts_with(
                u,
                codec::uniques_of(table.id),
            ) implies owner_sound(table, after, u) by {
            assert(world::found(freed, u) is Some);
            assert(!owned(table, row.values, 0, u));
            assert(owner_sound(table, world, u));
            let owner = world[u];
            assert(owner != row.key);
            if owned(table, row.values, 0, owner) {
                lemma_owned_place(table, row.values, 0, owner);
            }
            assert(world::found(freed, owner) == world::found(world, owner));
            assert(world::found(after, u) == Some(owner));
            assert(row_at(after, owner) == row_at(world, owner));
        }
    }
}

/// The rows that stay are sound.
proof fn lemma_deleted_rows(
    table: TableView,
    world: Map<Seq<u8>, Seq<u8>>,
    after: Map<Seq<u8>, Seq<u8>>,
    row: StoredView,
    freed: Map<Seq<u8>, Seq<u8>>,
)
    requires
        consistent(table, world),
        row_sound(table, world, row.key),
        row_at(world, row.key) == Some(row.values),
        prefix::starts_with(row.key, codec::rows_of(table.id)),
        after == freed.remove(row.key),
        forall|u: Seq<u8>| #[trigger]
            world::found(freed, u) == (if owned(table, row.values, 0, u) {
                None
            } else {
                world::found(world, u)
            }),
    ensures
        forall|k: Seq<u8>|
            #![trigger row_sound(table, after, k)]
            after.contains_key(k) && prefix::starts_with(k, codec::rows_of(table.id)) ==> row_sound(
                table,
                after,
                k,
            ),
{
    assert forall|k: Seq<u8>|
        #![trigger row_sound(table, after, k)]
        after.contains_key(k) && prefix::starts_with(k, codec::rows_of(table.id)) implies row_sound(
        table,
        after,
        k,
    ) by {
        assert(world::found(freed, k) is Some);
        assert(world.contains_key(k));
        assert(row_sound(table, world, k));
        let stored = row_at(world, k)->0;
        assert(row_at(after, k) == Some(stored));
        assert forall|u: Seq<u8>| #[trigger] owned(table, stored, 0, u) implies world::found(
            after,
            u,
        ) == Some(k) by {
            assert(world::found(world, u) == Some(k));
            if owned(table, row.values, 0, u) {
                assert(world::found(world, u) == Some(row.key));
            }
            lemma_owned_place(table, stored, 0, u);
            assert(world::found(freed, u) == world::found(world, u));
        }
    }
}

/// Where a key belongs among rising keys.
proof fn lemma_place(keys: Seq<Seq<u8>>, k: Seq<u8>) -> (at: int)
    requires
        key_map::keys_rise(keys),
        !keys.contains(k),
    ensures
        0 <= at <= keys.len(),
        forall|i: int| 0 <= i < at ==> key::key_lt(#[trigger] keys[i], k),
        forall|i: int| at <= i < keys.len() ==> key::key_lt(k, #[trigger] keys[i]),
    decreases keys.len(),
{
    if keys.len() == 0 {
        0
    } else {
        let last = keys.len() - 1;
        assert(keys[last] != k);
        key::lemma_key_total(keys[last], k);
        if key::key_lt(keys[last], k) {
            assert forall|i: int| 0 <= i < keys.len() implies key::key_lt(
                #[trigger] keys[i],
                k,
            ) by {
                if i < last {
                    key::lemma_key_transitive(keys[i], keys[last], k);
                }
            }
            keys.len() as int
        } else {
            let head = keys.drop_last();
            assert forall|i: int| 0 <= i < head.len() implies head[i] == #[trigger] keys[i] by {}
            assert(!head.contains(k)) by {
                if head.contains(k) {
                    let i = choose|i: int| 0 <= i < head.len() && head[i] == k;
                    assert(keys[i] == k);
                }
            }
            let at = lemma_place(head, k);
            assert forall|i: int| 0 <= i < at implies key::key_lt(#[trigger] keys[i], k) by {
                assert(head[i] == keys[i]);
            }
            assert forall|i: int| at <= i < keys.len() implies key::key_lt(
                k,
                #[trigger] keys[i],
            ) by {
                if i < last {
                    assert(head[i] == keys[i]);
                }
            }
            at
        }
    }
}

/// The keys of a finite map can be put in order.
pub proof fn lemma_listed<V>(map: Map<Seq<u8>, V>)
    requires
        map.dom().finite(),
    ensures
        key_map::is_order(map, key_map::ordered_keys(map)),
    decreases map.dom().len(),
{
    if map.dom().len() == 0 {
        assert(key_map::is_order(map, Seq::<Seq<u8>>::empty())) by {
            assert forall|k: Seq<u8>| #[trigger]
                map.contains_key(k) <==> Seq::<Seq<u8>>::empty().contains(k) by {
                if map.contains_key(k) {
                    assert(map.dom().contains(k));
                    vstd::set::axiom_set_remove_len(map.dom(), k);
                }
            }
        }
    } else {
        let k = map.dom().choose();
        let rest = map.remove(k);
        assert(rest.dom() =~= map.dom().remove(k));
        lemma_listed(rest);
        let keys = key_map::ordered_keys(rest);
        assert(!keys.contains(k)) by {
            assert(rest.contains_key(k) <==> keys.contains(k));
        }
        let at = lemma_place(keys, k);
        let all = keys.insert(at, k);
        assert(key_map::keys_rise(all)) by {
            assert forall|i: int, j: int| 0 <= i < j < all.len() implies key::key_lt(
                #[trigger] all[i],
                #[trigger] all[j],
            ) by {
                let from_i = if i < at {
                    i
                } else {
                    i - 1
                };
                let from_j = if j < at {
                    j
                } else {
                    j - 1
                };
                if i != at {
                    assert(all[i] == keys[from_i]);
                }
                if j != at {
                    assert(all[j] == keys[from_j]);
                }
            }
        }
        assert forall|other: Seq<u8>| #[trigger] map.contains_key(other) <==> all.contains(
            other,
        ) by {
            assert(rest.contains_key(other) <==> keys.contains(other));
            if map.contains_key(other) {
                if other == k {
                    assert(all[at] == other);
                } else {
                    let i = choose|i: int| 0 <= i < keys.len() && keys[i] == other;
                    if i < at {
                        assert(all[i] == other);
                    } else {
                        assert(all[i + 1] == other);
                    }
                }
            }
            if all.contains(other) {
                let i = choose|i: int| 0 <= i < all.len() && all[i] == other;
                if i < at {
                    assert(keys[i] == other);
                } else if i > at {
                    assert(keys[i - 1] == other);
                }
            }
        }
        assert(key_map::is_order(map, all));
    }
}

/// The rows under a prefix are all keys with it and their values, each once.
pub proof fn lemma_rows_under(world: Map<Seq<u8>, Seq<u8>>, p: Seq<u8>)
    requires
        world.dom().finite(),
    ensures
        forall|i: int|
            0 <= i < world::rows_under(world, p).len() ==> {
                let row = #[trigger] world::rows_under(world, p)[i];
                &&& world.contains_key(row.key)
                &&& prefix::starts_with(row.key, p)
                &&& row.value == world[row.key]
            },
        forall|i: int, j: int|
            0 <= i < j < world::rows_under(world, p).len() ==> (
            #[trigger] world::rows_under(world, p)[i]).key != (
            #[trigger] world::rows_under(world, p)[j]).key,
        forall|i: int, j: int|
            0 <= i < j < world::rows_under(world, p).len() ==> key::key_lt(
                (#[trigger] world::rows_under(world, p)[i]).key,
                (#[trigger] world::rows_under(world, p)[j]).key,
            ),
        forall|k: Seq<u8>| #[trigger]
            world.contains_key(k) && prefix::starts_with(k, p) ==> exists|i: int|
                0 <= i < world::rows_under(world, p).len() && (#[trigger] world::rows_under(
                    world,
                    p,
                )[i]).key == k,
{
    let map = world::under(world, p);
    let rows = world::rows_under(world, p);
    assert(map.dom().subset_of(world.dom()));
    vstd::set_lib::lemma_len_subset(map.dom(), world.dom());
    lemma_listed(map);
    let keys = key_map::ordered_keys(map);
    assert forall|i: int| 0 <= i < rows.len() implies {
        let row = #[trigger] rows[i];
        &&& world.contains_key(row.key)
        &&& prefix::starts_with(row.key, p)
        &&& row.value == world[row.key]
    } by {
        assert(keys.contains(keys[i]));
        assert(map.contains_key(keys[i]));
    }
    assert forall|i: int, j: int| 0 <= i < j < rows.len() implies (#[trigger] rows[i]).key != (
    #[trigger] rows[j]).key by {
        assert(key::key_lt(keys[i], keys[j]));
        key::lemma_key_asymmetric(keys[i], keys[j]);
    }
    assert forall|i: int, j: int| 0 <= i < j < rows.len() implies key::key_lt(
        (#[trigger] rows[i]).key,
        (#[trigger] rows[j]).key,
    ) by {
        assert(key::key_lt(keys[i], keys[j]));
    }
    assert forall|k: Seq<u8>| #[trigger]
        world.contains_key(k) && prefix::starts_with(k, p) implies exists|i: int|
        0 <= i < rows.len() && (#[trigger] rows[i]).key == k by {
        assert(map.contains_key(k));
        let i = choose|i: int| 0 <= i < keys.len() && keys[i] == k;
        assert(rows[i].key == k);
    }
}

/// Whether rows that were read are in a table, each once, from one on.
pub open spec fn rows_stand(
    table: TableView,
    world: Map<Seq<u8>, Seq<u8>>,
    rows: Seq<StoredView>,
    at: int,
) -> bool {
    &&& forall|i: int|
        at <= i < rows.len() ==> row_at(world, (#[trigger] rows[i]).key) == Some(rows[i].values)
            && prefix::starts_with(rows[i].key, codec::rows_of(table.id))
    &&& forall|i: int, j: int|
        at <= i < j < rows.len() ==> (#[trigger] rows[i]).key != (#[trigger] rows[j]).key
}

/// Decoded rows are the rows, one by one.
pub proof fn lemma_decoded(rows: Seq<RowView>)
    ensures
        access::decoded(rows) matches Ok(found) ==> found.len() == rows.len() && forall|i: int|
            0 <= i < rows.len() ==> (#[trigger] found[i]).key == rows[i].key && image::row_decoded(
                rows[i].value,
            ) == Ok::<Seq<ValueView>, crate::engine::error::EngineErrorView>(found[i].values),
    decreases rows.len(),
{
    if rows.len() > 0 {
        lemma_decoded(rows.drop_last());
        if let Ok(found) = access::decoded(rows) {
            let front = access::decoded(rows.drop_last())->Ok_0;
            assert forall|i: int| 0 <= i < rows.len() implies (#[trigger] found[i]).key
                == rows[i].key && image::row_decoded(rows[i].value) == Ok::<
                Seq<ValueView>,
                crate::engine::error::EngineErrorView,
            >(found[i].values) by {
                if i < front.len() {
                    assert(front[i] == found[i]);
                    assert(rows.drop_last()[i] == rows[i]);
                }
            }
        }
    }
}

/// Reading all rows of a table gives every row, once.
pub proof fn law_scan_reads_every_row(table: TableView, world: Map<Seq<u8>, Seq<u8>>)
    requires
        world.dom().finite(),
    ensures
        access::decoded(world::rows_under(world, codec::rows_of(table.id))) matches Ok(rows) ==> {
            &&& rows_stand(table, world, rows, 0)
            &&& forall|k: Seq<u8>| #[trigger]
                world.contains_key(k) && prefix::starts_with(k, codec::rows_of(table.id))
                    ==> exists|i: int| 0 <= i < rows.len() && (#[trigger] rows[i]).key == k
        },
{
    let p = codec::rows_of(table.id);
    let all = world::rows_under(world, p);
    lemma_rows_under(world, p);
    lemma_decoded(all);
    if let Ok(rows) = access::decoded(all) {
        assert forall|i: int| 0 <= i < rows.len() implies row_at(world, (#[trigger] rows[i]).key)
            == Some(rows[i].values) && prefix::starts_with(rows[i].key, p) by {
            assert(world.contains_key(all[i].key));
        }
        assert forall|i: int, j: int| 0 <= i < j < rows.len() implies (#[trigger] rows[i]).key != (
        #[trigger] rows[j]).key by {
            assert(all[i].key != all[j].key);
        }
        assert forall|k: Seq<u8>| #[trigger]
            world.contains_key(k) && prefix::starts_with(k, p) implies exists|i: int|
            0 <= i < rows.len() && (#[trigger] rows[i]).key == k by {
            let i = choose|i: int| 0 <= i < all.len() && (#[trigger] all[i]).key == k;
            assert(rows[i].key == k);
        }
    }
}

/// The rows that a statement reads are rows of its table.
pub proof fn lemma_rows_read(
    table: TableView,
    selection: Option<Expr>,
    world: Map<Seq<u8>, Seq<u8>>,
    floats: Map<FloatRequest, u64>,
)
    requires
        world.dom().finite(),
        consistent(table, world),
    ensures
        access::rows_read(table, selection, world, floats) matches Ok(rows) ==> rows_stand(
            table,
            world,
            rows,
            0,
        ),
{
    if let Ok(rows) = access::rows_read(table, selection, world, floats) {
        match access::planned(table, selection, world, floats)->Ok_0 {
            AccessView::Scan => {
                law_scan_reads_every_row(table, world);
            },
            AccessView::Point(None) => {},
            AccessView::Point(Some(k)) => {
                if world.contains_key(k) {
                    lemma_point_key(table, selection, world, floats, k);
                }
            },
        }
    }
}

/// The key that a statement finds a row by is the key of a row.
pub proof fn lemma_point_key(
    table: TableView,
    selection: Option<Expr>,
    world: Map<Seq<u8>, Seq<u8>>,
    floats: Map<FloatRequest, u64>,
    k: Seq<u8>,
)
    requires
        consistent(table, world),
        access::planned(table, selection, world, floats) == Ok::<AccessView, StopView>(
            AccessView::Point(Some(k)),
        ),
    ensures
        prefix::starts_with(k, codec::rows_of(table.id)),
{
    let (name, wanted) = access::column_equality(selection->0)->0;
    let position = schema::position_from(table.columns, name, 0)->0;
    let column = table.columns[position];
    let plain = crate::engine::expression::evaluated(
        wanted,
        table.columns,
        access::nulls(table.columns.len()),
        floats,
    )->Ok_0;
    let value = access::coerced(plain, column.data_type, floats)->Ok_0;
    if column.primary_key {
        let identity = codec::identity_of(value)->Ok_0;
        codec::law_key_spaces_are_apart(
            table.id,
            table.id,
            identity,
            0,
            Seq::empty(),
            Seq::empty(),
        );
    } else {
        let u = codec::unique_key_result(table.id, position as nat, value)->Ok_0;
        let identity = codec::identity_of(value)->Ok_0;
        codec::law_key_spaces_are_apart(
            table.id,
            table.id,
            Seq::empty(),
            position as nat,
            identity,
            Seq::empty(),
        );
        assert(world.contains_key(u));
        assert(owner_sound(table, world, u));
    }
}

/// Taking rows away one after the other keeps a table consistent.
proof fn lemma_rows_deleted(
    table: TableView,
    selection: Option<Expr>,
    rows: Seq<StoredView>,
    world: Map<Seq<u8>, Seq<u8>>,
    floats: Map<FloatRequest, u64>,
    affected: nat,
    at: int,
)
    requires
        0 <= at,
        consistent(table, world),
        rows_stand(table, world, rows, at),
    ensures
        delete::rows_deleted(table, selection, rows, world, floats, affected, at) matches Ok(
            (after, count),
        ) ==> {
            &&& consistent(table, after)
            &&& forall|k: Seq<u8>|
                !prefix::starts_with(k, codec::rows_of(table.id)) && !prefix::starts_with(
                    k,
                    codec::uniques_of(table.id),
                ) ==> #[trigger] world::found(after, k) == world::found(world, k)
            &&& forall|i: int|
                at <= i < rows.len() ==> (after.contains_key((#[trigger] rows[i]).key)
                    <==> delete::chosen(selection, table.columns, rows[i].values, floats) == Ok::<
                    bool,
                    StopView,
                >(false))
            &&& forall|k: Seq<u8>|
                prefix::starts_with(k, codec::rows_of(table.id)) && (forall|i: int|
                    at <= i < rows.len() ==> (#[trigger] rows[i]).key != k) ==> #[trigger]
                world::found(after, k) == world::found(world, k)
        },
    decreases rows.len() - at,
{
    if at < rows.len() {
        if let Ok((after, count)) = delete::rows_deleted(
            table,
            selection,
            rows,
            world,
            floats,
            affected,
            at,
        ) {
            let row = rows[at];
            assert(row_at(world, row.key) == Some(row.values));
            match delete::chosen(selection, table.columns, row.values, floats)->Ok_0 {
                false => {
                    lemma_rows_deleted(table, selection, rows, world, floats, affected, at + 1);
                    assert(world::found(after, row.key) == world::found(world, row.key));
                },
                true => {
                    let next = delete::row_deleted(table, row, world)->Ok_0;
                    law_delete_keeps_rows_sound(table, world, row);
                    assert forall|i: int| at + 1 <= i < rows.len() implies row_at(
                        next,
                        (#[trigger] rows[i]).key,
                    ) == Some(rows[i].values) && prefix::starts_with(
                        rows[i].key,
                        codec::rows_of(table.id),
                    ) by {
                        lemma_row_space(table, rows[i].key);
                        assert(rows[at].key != rows[i].key);
                        assert(world::found(next, rows[i].key) == world::found(
                            world,
                            rows[i].key,
                        ));
                    }
                    lemma_rows_deleted(table, selection, rows, next, floats, affected + 1, at + 1);
                    assert(world::found(after, row.key) == world::found(next, row.key));
                    assert forall|k: Seq<u8>|
                        !prefix::starts_with(k, codec::rows_of(table.id))
                            && !prefix::starts_with(
                            k,
                            codec::uniques_of(table.id),
                        ) implies #[trigger] world::found(after, k) == world::found(world, k) by {
                        assert(world::found(next, k) == world::found(world, k));
                    }
                    assert forall|k: Seq<u8>|
                        prefix::starts_with(k, codec::rows_of(table.id)) && (forall|i: int|
                            at <= i < rows.len() ==> (#[trigger] rows[i]).key
                                != k) implies #[trigger] world::found(after, k) == world::found(
                        world,
                        k,
                    ) by {
                        assert(rows[at].key != k);
                        lemma_row_space(table, k);
                        assert(world::found(next, k) == world::found(world, k));
                    }
                },
            }
        }
    }
}

/// A key of a row is no key of a unique value.
pub proof fn lemma_row_space(table: TableView, k: Seq<u8>)
    requires
        prefix::starts_with(k, codec::rows_of(table.id)),
    ensures
        !prefix::starts_with(k, codec::uniques_of(table.id)),
{
    codec::lemma_spaces(table.id, k);
}

/// A DELETE keeps a table consistent, takes exactly the rows away that it reads and that meet its
/// condition, and leaves every key that is not the table's as it is.
pub proof fn law_delete_is_exact(
    delete: Delete,
    world: Map<Seq<u8>, Seq<u8>>,
    floats: Map<FloatRequest, u64>,
    table: TableView,
)
    requires
        world.dom().finite(),
        access::table_named(delete.table.value@, world) == Ok::<TableView, StopView>(table),
        consistent(table, world),
    ensures
        delete::deleted(delete, world, floats) matches Ok((after, output)) ==> {
            &&& consistent(table, after)
            &&& access::rows_read(table, delete.selection, world, floats) matches Ok(rows) && {
                &&& forall|i: int|
                    0 <= i < rows.len() ==> (after.contains_key((#[trigger] rows[i]).key)
                        <==> delete::chosen(
                        delete.selection,
                        table.columns,
                        rows[i].values,
                        floats,
                    ) == Ok::<bool, StopView>(false))
                &&& forall|k: Seq<u8>|
                    prefix::starts_with(k, codec::rows_of(table.id)) && (forall|i: int|
                        0 <= i < rows.len() ==> (#[trigger] rows[i]).key != k) ==> #[trigger]
                    world::found(after, k) == world::found(world, k)
            }
            &&& forall|k: Seq<u8>|
                !prefix::starts_with(k, codec::rows_of(table.id)) && !prefix::starts_with(
                    k,
                    codec::uniques_of(table.id),
                ) ==> #[trigger] world::found(after, k) == world::found(world, k)
        },
{
    lemma_rows_read(table, delete.selection, world, floats);
    if let Ok(rows) = access::rows_read(table, delete.selection, world, floats) {
        lemma_rows_deleted(table, delete.selection, rows, world, floats, 0, 0);
    }
}

/// Adding rows one after the other keeps a table consistent.
proof fn lemma_rows_added(
    from: Inserting,
    rows: Seq<Vec<Expr>>,
    positions: Seq<int>,
    floats: Map<FloatRequest, u64>,
    count: nat,
)
    requires
        consistent(from.table, from.world),
        from.table.primary_key matches Some(position) ==> position < from.table.columns.len(),
    ensures
        insert::rows_added(from, rows, positions, floats, count) matches Ok(state) ==> {
            &&& consistent(state.table, state.world)
            &&& state.table == (TableView { next_row_id: state.table.next_row_id, ..from.table })
            &&& state.rows.len() == from.rows.len() + count
            &&& forall|i: int| 0 <= i < from.rows.len() ==> state.rows[i] == #[trigger] from.rows[i]
            &&& forall|i: int|
                from.rows.len() <= i < state.rows.len() ==> row_at(
                    state.world,
                    (#[trigger] state.rows[i]).key,
                ) == Some(state.rows[i].values) && !from.world.contains_key(state.rows[i].key)
                    && prefix::starts_with(state.rows[i].key, codec::rows_of(from.table.id))
            &&& forall|k: Seq<u8>| #[trigger]
                from.world.contains_key(k) ==> world::found(state.world, k) == world::found(
                    from.world,
                    k,
                )
            &&& forall|k: Seq<u8>| #[trigger]
                state.world.contains_key(k) && !from.world.contains_key(k) ==> prefix::starts_with(
                    k,
                    codec::rows_of(from.table.id),
                ) || prefix::starts_with(k, codec::uniques_of(from.table.id))
        },
    decreases count,
{
    if count > 0 {
        let before = (count - 1) as nat;
        lemma_rows_added(from, rows, positions, floats, before);
        if let Ok(state) = insert::rows_added(from, rows, positions, floats, count) {
            let middle = insert::rows_added(from, rows, positions, floats, before)->Ok_0;
            let values = insert::row_values(middle.table, rows[count - 1]@, positions, floats)->Ok_0;
            law_insert_keeps_rows_sound(middle, values);
            assert forall|i: int| from.rows.len() <= i < state.rows.len() implies row_at(
                state.world,
                (#[trigger] state.rows[i]).key,
            ) == Some(state.rows[i].values) && !from.world.contains_key(state.rows[i].key)
                && prefix::starts_with(state.rows[i].key, codec::rows_of(from.table.id)) by {
                if i < middle.rows.len() {
                    assert(state.rows[i] == middle.rows[i]);
                    assert(row_at(middle.world, middle.rows[i].key) == Some(middle.rows[i].values));
                    assert(middle.world.contains_key(middle.rows[i].key));
                } else {
                    assert(state.rows[i] == state.rows.last());
                }
                if from.world.contains_key(state.rows[i].key) {
                    assert(world::found(middle.world, state.rows[i].key) is Some);
                }
            }
            assert forall|i: int| 0 <= i < from.rows.len() implies state.rows[i]
                == #[trigger] from.rows[i] by {
                assert(state.rows[i] == middle.rows[i]);
            }
            assert forall|k: Seq<u8>| #[trigger] from.world.contains_key(k) implies world::found(
                state.world,
                k,
            ) == world::found(from.world, k) by {
                assert(world::found(middle.world, k) is Some);
                assert(middle.world.contains_key(k));
            }
            assert forall|k: Seq<u8>| #[trigger]
                state.world.contains_key(k) && !from.world.contains_key(
                    k,
                ) implies prefix::starts_with(k, codec::rows_of(from.table.id))
                || prefix::starts_with(k, codec::uniques_of(from.table.id)) by {
                if middle.world.contains_key(k) {
                    assert(!from.world.contains_key(k));
                }
            }
        }
    }
}

/// A table stays consistent when a key changes that is not its own.
proof fn lemma_other_key(
    table: TableView,
    world: Map<Seq<u8>, Seq<u8>>,
    k: Seq<u8>,
    bytes: Seq<u8>,
)
    requires
        consistent(table, world),
        !prefix::starts_with(k, codec::rows_of(table.id)),
        !prefix::starts_with(k, codec::uniques_of(table.id)),
    ensures
        consistent(table, world.insert(k, bytes)),
{
    let after = world.insert(k, bytes);
    assert forall|row: Seq<u8>|
        #![trigger row_sound(table, after, row)]
        after.contains_key(row) && prefix::starts_with(
            row,
            codec::rows_of(table.id),
        ) implies row_sound(table, after, row) by {
        assert(row_sound(table, world, row));
        let values = row_at(world, row)->0;
        assert(row_at(after, row) == Some(values));
        assert forall|u: Seq<u8>| #[trigger] owned(table, values, 0, u) implies world::found(
            after,
            u,
        ) == Some(row) by {
            lemma_owned_place(table, values, 0, u);
        }
    }
    assert forall|u: Seq<u8>|
        #![trigger owner_sound(table, after, u)]
        after.contains_key(u) && prefix::starts_with(
            u,
            codec::uniques_of(table.id),
        ) implies owner_sound(table, after, u) by {
        assert(owner_sound(table, world, u));
        assert(row_at(after, world[u]) == row_at(world, world[u]));
    }
}

/// What adding rows to a table amounts to: the new rows are stored under keys of their own, every
/// key that was there is as it was, and only keys of the table came.
pub open spec fn rows_joined(
    table: TableView,
    world: Map<Seq<u8>, Seq<u8>>,
    rows: Seq<StoredView>,
    joined: Seq<StoredView>,
    after: Map<Seq<u8>, Seq<u8>>,
    name: Seq<char>,
) -> bool {
    &&& forall|i: int|
        rows.len() <= i < joined.len() ==> row_at(after, (#[trigger] joined[i]).key) == Some(
            joined[i].values,
        ) && !world.contains_key(joined[i].key)
    &&& forall|k: Seq<u8>| #[trigger]
        world.contains_key(k) && k != codec::catalog_key_of(name) ==> world::found(after, k)
            == world::found(world, k)
    &&& forall|k: Seq<u8>| #[trigger]
        after.contains_key(k) && !world.contains_key(k) ==> prefix::starts_with(
            k,
            codec::rows_of(table.id),
        ) || prefix::starts_with(k, codec::uniques_of(table.id))
}

/// The end of an INSERT changes the table's own entry in the catalog only.
proof fn lemma_inserted_all(
    insert: Insert,
    world: Map<Seq<u8>, Seq<u8>>,
    table: TableView,
    rows: Seq<StoredView>,
    state: Inserting,
)
    requires
        access::table_named(insert.table.value@, world) == Ok::<TableView, StopView>(table),
        table.format_version == schema::SCHEMA_FORMAT_VERSION,
        state.table == (TableView { next_row_id: state.table.next_row_id, ..table }),
        table.primary_key is Some ==> state.table == table,
        consistent(state.table, state.world),
        rows_joined(table, world, rows, state.rows, state.world, insert.table.value@),
        world::found(state.world, codec::catalog_key_of(insert.table.value@)) == world::found(
            world,
            codec::catalog_key_of(insert.table.value@),
        ),
    ensures
        insert::inserted_all(insert, state) matches Ok((after, output)) ==> {
            &&& access::table_named(insert.table.value@, after) == Ok::<TableView, StopView>(
                state.table,
            )
            &&& consistent(state.table, after)
            &&& rows_joined(table, world, rows, state.rows, after, insert.table.value@)
        },
{
    let name = insert.table.value@;
    let k = codec::catalog_key_of(name);
    if let Ok((after, output)) = insert::inserted_all(insert, state) {
        codec::law_key_spaces_are_apart(table.id, table.id, Seq::empty(), 0, Seq::empty(), name);
        assert(world.contains_key(k));
        if state.table.primary_key is None {
            assert(after == state.world.insert(k, image::schema_image(state.table)));
            image::law_schema_round_trip(state.table);
            lemma_other_key(state.table, state.world, k, image::schema_image(state.table));
            assert forall|i: int| rows.len() <= i < state.rows.len() implies row_at(
                after,
                (#[trigger] state.rows[i]).key,
            ) == Some(state.rows[i].values) && !world.contains_key(state.rows[i].key) by {
                assert(row_at(state.world, state.rows[i].key) == Some(state.rows[i].values));
            }
            assert forall|other: Seq<u8>| #[trigger]
                world.contains_key(other) && other != k implies world::found(after, other)
                == world::found(world, other) by {
                assert(world::found(state.world, other) == world::found(world, other));
            }
            assert forall|other: Seq<u8>| #[trigger]
                after.contains_key(other) && !world.contains_key(
                    other,
                ) implies prefix::starts_with(other, codec::rows_of(table.id))
                || prefix::starts_with(other, codec::uniques_of(table.id)) by {
                assert(state.world.contains_key(other));
            }
        }
    }
}

/// A table with a primary key does not number its rows.
proof fn lemma_unnumbered(
    from: Inserting,
    rows: Seq<Vec<Expr>>,
    positions: Seq<int>,
    floats: Map<FloatRequest, u64>,
    count: nat,
)
    requires
        from.table.primary_key is Some,
    ensures
        insert::rows_added(from, rows, positions, floats, count) matches Ok(state) ==> state.table
            == from.table,
    decreases count,
{
    if count > 0 {
        lemma_unnumbered(from, rows, positions, floats, (count - 1) as nat);
    }
}

/// An INSERT keeps a table consistent, stores each row that it gives under a key of its own, and
/// leaves every key that was there as it is, but for the table's own entry in the catalog.
pub proof fn law_insert_is_exact(
    insert: Insert,
    world: Map<Seq<u8>, Seq<u8>>,
    floats: Map<FloatRequest, u64>,
    table: TableView,
)
    requires
        access::table_named(insert.table.value@, world) == Ok::<TableView, StopView>(table),
        consistent(table, world),
        table.primary_key matches Some(position) ==> position < table.columns.len(),
        table.format_version == schema::SCHEMA_FORMAT_VERSION,
    ensures
        insert::inserted(insert, world, floats) matches Ok((after, output)) ==> (access::decoded(
            world::rows_under(world, codec::rows_of(table.id)),
        ) matches Ok(rows) && (insert::insert_positions(
            insert.columns@,
            table.columns,
        ) matches Ok(positions) && (insert::rows_added(
            Inserting { table, rows, world },
            insert.rows@,
            positions,
            floats,
            insert.rows@.len(),
        ) matches Ok(state) && {
            &&& access::table_named(insert.table.value@, after) == Ok::<TableView, StopView>(
                state.table,
            )
            &&& consistent(state.table, after)
            &&& state.rows.len() == rows.len() + insert.rows@.len()
            &&& rows_joined(table, world, rows, state.rows, after, insert.table.value@)
        }))),
{
    if let Ok((after, output)) = insert::inserted(insert, world, floats) {
        let positions = insert::insert_positions(insert.columns@, table.columns)->Ok_0;
        let rows = access::decoded(world::rows_under(world, codec::rows_of(table.id)))->Ok_0;
        let from = Inserting { table, rows, world };
        let count = insert.rows@.len();
        let state = insert::rows_added(from, insert.rows@, positions, floats, count)->Ok_0;
        lemma_rows_added(from, insert.rows@, positions, floats, count);
        if table.primary_key is Some {
            lemma_unnumbered(from, insert.rows@, positions, floats, count);
        }
        assert(world.contains_key(codec::catalog_key_of(insert.table.value@)));
        lemma_inserted_all(insert, world, table, rows, state);
    }
}

/// A CREATE TABLE of a new name enters the table under that name, consistent where nothing was
/// kept under its number, hands the next number on, and changes nothing else.
pub proof fn law_create_enters_the_table(
    create: CreateTable,
    world: Map<Seq<u8>, Seq<u8>>,
    id: u64,
)
    requires
        !world.contains_key(codec::catalog_key_of(create.name.value@)),
        statement::next_table_id(world) == Ok::<u64, StopView>(id),
        forall|k: Seq<u8>| #[trigger]
            world.contains_key(k) ==> !prefix::starts_with(k, codec::rows_of(id))
                && !prefix::starts_with(k, codec::uniques_of(id)),
    ensures
        statement::table_created(create, world) matches Ok((after, output)) ==> {
            &&& schema::created(id, create) matches Ok(table) && access::table_named(
                create.name.value@,
                after,
            ) == Ok::<TableView, StopView>(table) && consistent(table, after)
            &&& statement::next_table_id(after) == Ok::<u64, StopView>((id + 1) as u64)
            &&& forall|k: Seq<u8>|
                k != codec::catalog_key_of(create.name.value@) && k != codec::table_counter()
                    ==> #[trigger] world::found(after, k) == world::found(world, k)
        },
{
    if let Ok((after, output)) = statement::table_created(create, world) {
        let name = create.name.value@;
        let table = schema::created(id, create)->Ok_0;
        let k = codec::catalog_key_of(name);
        codec::law_key_spaces_are_apart(id, id, Seq::empty(), 0, Seq::empty(), name);
        image::law_schema_round_trip(table);
        codec::law_number_round_trip((id + 1) as u64);
        assert(after == world.insert(k, image::schema_image(table)).insert(
            codec::table_counter(),
            bytes::be_bytes((id + 1) as nat, 8),
        ));
        assert(world::found(after, k) == Some(image::schema_image(table)));
        assert(consistent(table, after)) by {
            assert forall|row: Seq<u8>|
                #![trigger row_sound(table, after, row)]
                after.contains_key(row) && prefix::starts_with(
                    row,
                    codec::rows_of(id),
                ) implies false by {
                assert(world.contains_key(row));
            }
            assert forall|u: Seq<u8>|
                #![trigger owner_sound(table, after, u)]
                after.contains_key(u) && prefix::starts_with(
                    u,
                    codec::uniques_of(id),
                ) implies false by {
                assert(world.contains_key(u));
            }
        }
    }
}

/// Taking keys away takes those keys away and no others.
proof fn lemma_keys_removed(rows: Seq<RowView>, world: Map<Seq<u8>, Seq<u8>>, at: int)
    requires
        0 <= at,
    ensures
        statement::keys_removed(rows, world, at) matches Ok(after) ==> forall|k: Seq<u8>| #[trigger]
            world::found(after, k) == (if exists|i: int|
                at <= i < rows.len() && (#[trigger] rows[i]).key == k {
                None
            } else {
                world::found(world, k)
            }),
    decreases rows.len() - at,
{
    if at < rows.len() {
        if let Ok(after) = statement::keys_removed(rows, world, at) {
            let next = world.remove(rows[at].key);
            lemma_keys_removed(rows, next, at + 1);
            assert forall|k: Seq<u8>| #[trigger]
                world::found(after, k) == (if exists|i: int|
                    at <= i < rows.len() && (#[trigger] rows[i]).key == k {
                    None
                } else {
                    world::found(world, k)
                }) by {
                if exists|i: int| at <= i < rows.len() && (#[trigger] rows[i]).key == k {
                    let i = choose|i: int| at <= i < rows.len() && (#[trigger] rows[i]).key == k;
                    if i > at {
                        assert(at + 1 <= i < rows.len() && rows[i].key == k);
                    }
                } else {
                    assert(rows[at].key != k);
                }
            }
        }
    }
}

/// Clearing a prefix takes every key with it away and no other.
proof fn lemma_cleared(world: Map<Seq<u8>, Seq<u8>>, p: Seq<u8>)
    requires
        world.dom().finite(),
    ensures
        statement::cleared(world, p) matches Ok(after) ==> after.dom().finite() && forall|
            k: Seq<u8>,
        | #[trigger]
            world::found(after, k) == (if prefix::starts_with(k, p) {
                None
            } else {
                world::found(world, k)
            }),
{
    let rows = world::rows_under(world, p);
    lemma_rows_under(world, p);
    lemma_keys_removed(rows, world, 0);
    if let Ok(after) = statement::cleared(world, p) {
        assert forall|k: Seq<u8>| #[trigger]
            world::found(after, k) == (if prefix::starts_with(k, p) {
                None
            } else {
                world::found(world, k)
            }) by {
            if exists|i: int| 0 <= i < rows.len() && (#[trigger] rows[i]).key == k {
                let i = choose|i: int| 0 <= i < rows.len() && (#[trigger] rows[i]).key == k;
                assert(prefix::starts_with(rows[i].key, p));
            } else if prefix::starts_with(k, p) {
                assert(!world.contains_key(k));
            }
        }
        assert(after.dom().subset_of(world.dom())) by {
            assert forall|k: Seq<u8>| #[trigger] after.dom().contains(k) implies world.dom().contains(
                k,
            ) by {
                assert(world::found(after, k) is Some);
            }
        }
        vstd::set_lib::lemma_len_subset(after.dom(), world.dom());
    }
}

/// A DROP TABLE takes the table, its rows and the keys of its unique values away, and nothing else.
pub proof fn law_drop_is_exact(
    drop: DropTable,
    world: Map<Seq<u8>, Seq<u8>>,
    table: TableView,
)
    requires
        world.dom().finite(),
        access::table_named(drop.name.value@, world) == Ok::<TableView, StopView>(table),
    ensures
        statement::table_dropped(drop, world) matches Ok((after, output)) ==> {
            forall|k: Seq<u8>| #[trigger]
                world::found(after, k) == (if k == codec::catalog_key_of(drop.name.value@)
                    || prefix::starts_with(k, codec::rows_of(table.id)) || prefix::starts_with(
                    k,
                    codec::uniques_of(table.id),
                ) {
                    None
                } else {
                    world::found(world, k)
                })
        },
{
    if let Ok((after, output)) = statement::table_dropped(drop, world) {
        lemma_cleared(world, codec::rows_of(table.id));
        let rowless = statement::cleared(world, codec::rows_of(table.id))->Ok_0;
        lemma_cleared(rowless, codec::uniques_of(table.id));
        let bare = statement::cleared(rowless, codec::uniques_of(table.id))->Ok_0;
        assert forall|k: Seq<u8>| #[trigger]
            world::found(after, k) == (if k == codec::catalog_key_of(drop.name.value@)
                || prefix::starts_with(k, codec::rows_of(table.id)) || prefix::starts_with(
                k,
                codec::uniques_of(table.id),
            ) {
                None
            } else {
                world::found(world, k)
            }) by {
            assert(world::found(rowless, k) == (if prefix::starts_with(k, codec::rows_of(table.id)) {
                None
            } else {
                world::found(world, k)
            }));
            assert(world::found(bare, k) == (if prefix::starts_with(k, codec::uniques_of(table.id)) {
                None
            } else {
                world::found(rowless, k)
            }));
        }
    }
}

/// Whether the unique columns of a table tell different values apart. Columns of floats do not: zero
/// and negative zero are equal, but have keys of their own.
pub open spec fn told_apart(table: TableView) -> bool {
    forall|column: int|
        0 <= column < table.columns.len() && constraint::keyed(#[trigger] table.columns[column])
            ==> !(table.columns[column].data_type is Float64) && !(
        table.columns[column].data_type is Unknown)
}

/// The key of a unique value in one column is not that of a later column.
proof fn lemma_not_later(
    table: TableView,
    values: Seq<ValueView>,
    at: int,
    others: Seq<ValueView>,
    u: Seq<u8>,
)
    requires
        owns(table, values, at, u),
    ensures
        !owned(table, others, at + 1, u),
{
    if owned(table, others, at + 1, u) {
        let column = choose|column: int|
            at + 1 <= column && #[trigger] owns(table, others, column, u);
        lemma_owned_once(table, values, at, others, column, u);
    }
}

/// Bringing the key of one column in line.
proof fn lemma_column_moved(
    table: TableView,
    before: Seq<ValueView>,
    after: Seq<ValueView>,
    new_row: Seq<u8>,
    world: Map<Seq<u8>, Seq<u8>>,
    at: int,
)
    requires
        0 <= at < table.columns.len(),
        constraint::keyed(table.columns[at]),
        value::equal(before[at], after[at]) <==> before[at] == after[at],
    ensures
        ({
            let changed = !value::equal(before[at], after[at]);
            constraint::column_taken(table, at, after[at], changed, new_row, world) matches Ok(
                taken,
            ) ==> (constraint::column_left(table, at, before[at], changed, taken) matches Ok(next)
                ==> forall|u: Seq<u8>| #[trigger]
                world::found(next, u) == (if owns(table, after, at, u) {
                    Some(new_row)
                } else if owns(table, before, at, u) {
                    None
                } else {
                    world::found(world, u)
                }) && (owns(table, after, at, u) && !owns(table, before, at, u)
                    ==> !world.contains_key(u)))
        }),
{
    let changed = !value::equal(before[at], after[at]);
    if let Ok(taken) = constraint::column_taken(table, at, after[at], changed, new_row, world) {
        if let Ok(next) = constraint::column_left(table, at, before[at], changed, taken) {
            assert forall|u: Seq<u8>| #[trigger]
                world::found(next, u) == (if owns(table, after, at, u) {
                    Some(new_row)
                } else if owns(table, before, at, u) {
                    None
                } else {
                    world::found(world, u)
                }) && (owns(table, after, at, u) && !owns(table, before, at, u)
                    ==> !world.contains_key(u)) by {
                if owns(table, after, at, u) && owns(table, before, at, u) {
                    lemma_owned_once(table, after, at, before, at, u);
                }
            }
        }
    }
}

/// What bringing the keys of a row's unique values in line does.
proof fn lemma_rekeyed(
    table: TableView,
    before: Seq<ValueView>,
    after: Seq<ValueView>,
    old_row: Seq<u8>,
    new_row: Seq<u8>,
    world: Map<Seq<u8>, Seq<u8>>,
    at: int,
)
    requires
        0 <= at,
        forall|column: int|
            at <= column < table.columns.len() && constraint::keyed(
                #[trigger] table.columns[column],
            ) ==> (value::equal(before[column], after[column]) <==> before[column]
                == after[column]),
        forall|u: Seq<u8>| #[trigger]
            owned(table, before, at, u) ==> world::found(world, u) == Some(old_row),
    ensures
        constraint::rekeyed(table, before, after, old_row, new_row, world, at) matches Ok(next)
            ==> forall|u: Seq<u8>| #[trigger]
            world::found(next, u) == (if owned(table, after, at, u) {
                Some(new_row)
            } else if owned(table, before, at, u) {
                None
            } else {
                world::found(world, u)
            }) && (owned(table, after, at, u) && !owned(table, before, at, u)
                ==> !world.contains_key(u)),
    decreases table.columns.len() - at,
{
    if let Ok(next) = constraint::rekeyed(table, before, after, old_row, new_row, world, at) {
        if at < table.columns.len() {
            let changed = !value::equal(before[at], after[at]);
            let skipped = !constraint::keyed(table.columns[at]) || (!changed && old_row == new_row);
            let middle = if skipped {
                world
            } else {
                let taken = constraint::column_taken(
                    table,
                    at,
                    after[at],
                    changed,
                    new_row,
                    world,
                )->Ok_0;
                constraint::column_left(table, at, before[at], changed, taken)->Ok_0
            };
            if !skipped {
                lemma_column_moved(table, before, after, new_row, world, at);
            }
            assert forall|u: Seq<u8>| #[trigger] owned(table, before, at + 1, u) implies
                world::found(middle, u) == Some(old_row) by {
                lemma_owned_step(table, before, at, u);
                if owns(table, after, at, u) {
                    lemma_not_later(table, after, at, before, u);
                }
                if owns(table, before, at, u) {
                    lemma_not_later(table, before, at, before, u);
                }
                assert(world::found(middle, u) == world::found(world, u));
            }
            lemma_rekeyed(table, before, after, old_row, new_row, middle, at + 1);
            assert forall|u: Seq<u8>| #[trigger]
                world::found(next, u) == (if owned(table, after, at, u) {
                    Some(new_row)
                } else if owned(table, before, at, u) {
                    None
                } else {
                    world::found(world, u)
                }) && (owned(table, after, at, u) && !owned(table, before, at, u)
                    ==> !world.contains_key(u)) by {
                lemma_owned_step(table, before, at, u);
                lemma_owned_step(table, after, at, u);
                if owns(table, after, at, u) {
                    lemma_not_later(table, after, at, before, u);
                    lemma_not_later(table, after, at, after, u);
                }
                if owns(table, before, at, u) {
                    lemma_not_later(table, before, at, before, u);
                    lemma_not_later(table, before, at, after, u);
                }
                assert(world::found(next, u) == (if owned(table, after, at + 1, u) {
                    Some(new_row)
                } else if owned(table, before, at + 1, u) {
                    None
                } else {
                    world::found(middle, u)
                }));
            }
        }
    }
}

/// Values that a table takes are equal in a unique column only if they are the same.
proof fn lemma_told_apart(
    table: TableView,
    before: Seq<ValueView>,
    after: Seq<ValueView>,
    column: int,
)
    requires
        told_apart(table),
        schema::row_refused(table, before) is None,
        schema::row_refused(table, after) is None,
        0 <= column < table.columns.len(),
        constraint::keyed(table.columns[column]),
    ensures
        value::equal(before[column], after[column]) <==> before[column] == after[column],
{
    schema::law_accepted_rows(table, before, column);
    schema::law_accepted_rows(table, after, column);
}

/// What changing a row does: it keeps the table consistent, puts the new values in their place, and
/// leaves every key alone that is neither the row's nor that of a unique value.
pub open spec fn row_moved_well(
    table: TableView,
    from: Updating,
    at: int,
    after: Seq<ValueView>,
    next: Updating,
) -> bool {
    let k = next.rows[at].key;
    &&& consistent(table, next.world)
    &&& next.rows == from.rows.update(at, StoredView { key: k, values: after })
    &&& row_at(next.world, k) == Some(after)
    &&& prefix::starts_with(k, codec::rows_of(table.id))
    &&& k != from.rows[at].key ==> !from.world.contains_key(k) && !update::key_in_use(
        from.rows,
        at,
        k,
    ) && !next.world.contains_key(from.rows[at].key)
    &&& forall|other: Seq<u8>|
        other != k && other != from.rows[at].key && !prefix::starts_with(
            other,
            codec::uniques_of(table.id),
        ) ==> #[trigger] world::found(next.world, other) == world::found(from.world, other)
}

/// Changing a row keeps a table consistent.
#[verifier::rlimit(40)]
pub proof fn law_update_keeps_rows_sound(
    table: TableView,
    from: Updating,
    at: int,
    after: Seq<ValueView>,
)
    requires
        consistent(table, from.world),
        told_apart(table),
        table.primary_key matches Some(position) ==> position < table.columns.len(),
        0 <= at < from.rows.len(),
        row_at(from.world, from.rows[at].key) == Some(from.rows[at].values),
        prefix::starts_with(from.rows[at].key, codec::rows_of(table.id)),
    ensures
        update::row_changed(table, from, at, after) matches Ok(next) ==> row_moved_well(
            table,
            from,
            at,
            after,
            next,
        ),
{
    if let Ok(next) = update::row_changed(table, from, at, after) {
        let old_row = from.rows[at].key;
        let before = from.rows[at].values;
        let k = update::moved_key(table, old_row, after)->Ok_0;
        assert(from.world.contains_key(old_row));
        assert(row_sound(table, from.world, old_row));
        assert forall|column: int|
            0 <= column < table.columns.len() && constraint::keyed(
                #[trigger] table.columns[column],
            ) implies (value::equal(before[column], after[column]) <==> before[column]
            == after[column]) by {
            lemma_told_apart(table, before, after, column);
        }
        lemma_rekeyed(table, before, after, old_row, k, from.world, 0);
        let keyed = constraint::rekeyed(table, before, after, old_row, k, from.world, 0)->Ok_0;
        image::law_row_round_trip(after);
        assert(next.rows[at].key == k);
        assert(prefix::starts_with(k, codec::rows_of(table.id))) by {
            if table.primary_key is Some {
                let identity = codec::identity_of(after[table.primary_key->0 as int])->Ok_0;
                codec::law_key_spaces_are_apart(
                    table.id,
                    table.id,
                    identity,
                    0,
                    Seq::empty(),
                    Seq::empty(),
                );
            }
        }
        lemma_moved(table, from, at, after, k, keyed, next);
    }
}

/// The rows and unique keys of a table after a row was put in its new place.
proof fn lemma_moved(
    table: TableView,
    from: Updating,
    at: int,
    after: Seq<ValueView>,
    k: Seq<u8>,
    keyed: Map<Seq<u8>, Seq<u8>>,
    next: Updating,
)
    requires
        consistent(table, from.world),
        0 <= at < from.rows.len(),
        row_at(from.world, from.rows[at].key) == Some(from.rows[at].values),
        prefix::starts_with(from.rows[at].key, codec::rows_of(table.id)),
        prefix::starts_with(k, codec::rows_of(table.id)),
        schema::row_refused(table, after) is None,
        placed(table, after, k),
        image::row_decoded(image::row_image(after)) == Ok::<
            Seq<ValueView>,
            crate::engine::error::EngineErrorView,
        >(after),
        forall|u: Seq<u8>| #[trigger]
            world::found(keyed, u) == (if owned(table, after, 0, u) {
                Some(k)
            } else if owned(table, from.rows[at].values, 0, u) {
                None
            } else {
                world::found(from.world, u)
            }) && (owned(table, after, 0, u) && !owned(table, from.rows[at].values, 0, u)
                ==> !from.world.contains_key(u)),
        update::place_freed(from.rows, at, k, keyed) matches Ok(freed) && next.world
            == freed.insert(k, image::row_image(after)),
        next.rows == from.rows.update(at, StoredView { key: k, values: after }),
    ensures
        row_moved_well(table, from, at, after, next),
{
    let old_row = from.rows[at].key;
    let before = from.rows[at].values;
    assert(row_sound(table, from.world, old_row));
    assert forall|other: Seq<u8>|
        !prefix::starts_with(other, codec::uniques_of(table.id)) implies #[trigger] world::found(
        keyed,
        other,
    ) == world::found(from.world, other) by {
        if owned(table, after, 0, other) {
            lemma_owned_place(table, after, 0, other);
        }
        if owned(table, before, 0, other) {
            lemma_owned_place(table, before, 0, other);
        }
    }
    lemma_row_space(table, k);
    lemma_row_space(table, old_row);
    if k != old_row {
        assert(world::found(keyed, k) == world::found(from.world, k));
        assert(!from.world.contains_key(k));
    }
    assert forall|u: Seq<u8>| prefix::starts_with(u, codec::uniques_of(table.id)) implies
        #[trigger] world::found(next.world, u) == world::found(keyed, u) by {}
    assert forall|other: Seq<u8>|
        other != k && other != old_row && !prefix::starts_with(
            other,
            codec::uniques_of(table.id),
        ) implies #[trigger] world::found(next.world, other) == world::found(from.world, other) by {
        assert(world::found(keyed, other) == world::found(from.world, other));
    }
    assert forall|row: Seq<u8>|
        #![trigger row_sound(table, next.world, row)]
        next.world.contains_key(row) && prefix::starts_with(
            row,
            codec::rows_of(table.id),
        ) implies row_sound(table, next.world, row) by {
        lemma_row_space(table, row);
        if row == k {
            assert forall|u: Seq<u8>| #[trigger] owned(table, after, 0, u) implies world::found(
                next.world,
                u,
            ) == Some(k) by {
                lemma_owned_place(table, after, 0, u);
                assert(world::found(next.world, u) == world::found(keyed, u));
            }
        } else {
            assert(row != old_row);
            assert(world::found(next.world, row) == world::found(from.world, row));
            assert(row_sound(table, from.world, row));
            let stored = row_at(from.world, row)->0;
            assert forall|u: Seq<u8>| #[trigger] owned(table, stored, 0, u) implies world::found(
                next.world,
                u,
            ) == Some(row) by {
                lemma_owned_place(table, stored, 0, u);
                assert(world::found(from.world, u) == Some(row));
                assert(world::found(next.world, u) == world::found(keyed, u));
                if owned(table, before, 0, u) {
                    assert(world::found(from.world, u) == Some(old_row));
                }
            }
        }
    }
    assert forall|u: Seq<u8>|
        #![trigger owner_sound(table, next.world, u)]
        next.world.contains_key(u) && prefix::starts_with(
            u,
            codec::uniques_of(table.id),
        ) implies owner_sound(table, next.world, u) by {
        assert(world::found(next.world, u) == world::found(keyed, u));
        if owned(table, after, 0, u) {
            assert(row_at(next.world, k) == Some(after));
        } else {
            assert(!owned(table, before, 0, u));
            assert(owner_sound(table, from.world, u));
            let owner = from.world[u];
            assert(owner != old_row);
            assert(from.world.contains_key(owner));
            lemma_row_space(table, owner);
            assert(world::found(next.world, owner) == world::found(from.world, owner));
        }
    }
}

/// The values of a row after an UPDATE.
pub open spec fn new_values(
    update: Update,
    positions: Seq<int>,
    table: TableView,
    values: Seq<ValueView>,
    floats: Map<FloatRequest, u64>,
) -> Seq<ValueView> {
    match update::change_of(
        update.assignments@,
        positions,
        update.selection,
        table.columns,
        values,
        floats,
    ) {
        Ok(Some(after)) => after,
        _ => values,
    }
}

/// How many rows from one on a statement is about.
pub open spec fn chosen_count(
    selection: Option<Expr>,
    table: TableView,
    rows: Seq<StoredView>,
    floats: Map<FloatRequest, u64>,
    at: int,
) -> nat
    decreases rows.len() - at,
{
    if at < 0 || at >= rows.len() {
        0
    } else {
        let rest = chosen_count(selection, table, rows, floats, at + 1);
        if delete::chosen(selection, table.columns, rows[at].values, floats) == Ok::<bool, StopView>(
            true,
        ) {
            rest + 1
        } else {
            rest
        }
    }
}

/// The count is that of the rows, whatever stands before them.
proof fn lemma_chosen_count(
    selection: Option<Expr>,
    table: TableView,
    first: Seq<StoredView>,
    second: Seq<StoredView>,
    floats: Map<FloatRequest, u64>,
    at: int,
)
    requires
        0 <= at,
        first.len() == second.len(),
        forall|i: int| at <= i < first.len() ==> #[trigger] first[i] == second[i],
    ensures
        chosen_count(selection, table, first, floats, at) == chosen_count(
            selection,
            table,
            second,
            floats,
            at,
        ),
    decreases first.len() - at,
{
    if at < first.len() {
        assert(first[at] == second[at]);
        lemma_chosen_count(selection, table, first, second, floats, at + 1);
    }
}

/// What changing rows amounts to: they stand in the table with their new values and nowhere else, rows
/// that the statement is not about stay where they are, and every key that is not the table's, and
/// every other row, is as it was. The changed rows are counted.
pub open spec fn rows_moved_well(
    update: Update,
    positions: Seq<int>,
    table: TableView,
    floats: Map<FloatRequest, u64>,
    from: Updating,
    state: Updating,
    at: int,
) -> bool {
    &&& consistent(table, state.world)
    &&& rows_stand(table, state.world, state.rows, 0)
    &&& state.rows.len() == from.rows.len()
    &&& forall|i: int| 0 <= i < at && i < from.rows.len() ==> state.rows[i] == #[trigger] from.rows[i]
    &&& forall|i: int|
        at <= i < from.rows.len() ==> state.rows[i].values == new_values(
            update,
            positions,
            table,
            (#[trigger] from.rows[i]).values,
            floats,
        )
    &&& forall|i: int|
        at <= i < from.rows.len() && delete::chosen(
            update.selection,
            table.columns,
            (#[trigger] from.rows[i]).values,
            floats,
        ) != Ok::<bool, StopView>(true) ==> state.rows[i] == from.rows[i]
    &&& forall|i: int|
        at <= i < from.rows.len() ==> (#[trigger] state.rows[i]).key == from.rows[i].key
            || !from.world.contains_key(state.rows[i].key) || has_key(from.rows, state.rows[i].key)
    &&& forall|k: Seq<u8>| #[trigger]
        has_key(from.rows, k) && !has_key(state.rows, k) ==> !state.world.contains_key(k)
    &&& state.affected == from.affected + chosen_count(
        update.selection,
        table,
        from.rows,
        floats,
        at,
    )
    &&& forall|k: Seq<u8>|
        !prefix::starts_with(k, codec::uniques_of(table.id)) && !has_key(from.rows, k) && !has_key(
            state.rows,
            k,
        ) ==> #[trigger] world::found(state.world, k) == world::found(from.world, k)
}

/// Whether one of some rows has a key.
pub open spec fn has_key(rows: Seq<StoredView>, k: Seq<u8>) -> bool {
    exists|i: int| 0 <= i < rows.len() && (#[trigger] rows[i]).key == k
}

/// Changing rows one after the other keeps a table consistent.
#[verifier::rlimit(40)]
pub proof fn lemma_rows_changed(
    update: Update,
    positions: Seq<int>,
    table: TableView,
    from: Updating,
    floats: Map<FloatRequest, u64>,
    at: int,
)
    requires
        0 <= at,
        consistent(table, from.world),
        told_apart(table),
        table.primary_key matches Some(position) ==> position < table.columns.len(),
        rows_stand(table, from.world, from.rows, 0),
    ensures
        update::rows_changed(
            table,
            update.assignments@,
            positions,
            update.selection,
            from,
            floats,
            at,
        ) matches Ok(state) ==> rows_moved_well(update, positions, table, floats, from, state, at),
    decreases from.rows.len() - at,
{
    if at < from.rows.len() {
        if let Ok(state) = update::rows_changed(
            table,
            update.assignments@,
            positions,
            update.selection,
            from,
            floats,
            at,
        ) {
            assert(row_at(from.world, from.rows[at].key) == Some(from.rows[at].values));
            match update::change_of(
                update.assignments@,
                positions,
                update.selection,
                table.columns,
                from.rows[at].values,
                floats,
            )->Ok_0 {
                None => {
                    lemma_rows_changed(update, positions, table, from, floats, at + 1);
                    assert(state.rows[at] == from.rows[at]);
                },
                Some(after) => {
                    let next = update::row_changed(table, from, at, after)->Ok_0;
                    law_update_keeps_rows_sound(table, from, at, after);
                    lemma_step_stands(table, from, at, after, next);
                    lemma_rows_changed(update, positions, table, next, floats, at + 1);
                    lemma_steps(update, positions, table, floats, from, next, state, at, after);
                },
            }
        }
    }
}

/// Rows stand after one of them was changed.
pub proof fn lemma_step_stands(
    table: TableView,
    from: Updating,
    at: int,
    after: Seq<ValueView>,
    next: Updating,
)
    requires
        rows_stand(table, from.world, from.rows, 0),
        0 <= at < from.rows.len(),
        row_moved_well(table, from, at, after, next),
    ensures
        rows_stand(table, next.world, next.rows, 0),
{
    let k = next.rows[at].key;
    assert forall|i: int| 0 <= i < next.rows.len() implies row_at(
        next.world,
        (#[trigger] next.rows[i]).key,
    ) == Some(next.rows[i].values) && prefix::starts_with(
        next.rows[i].key,
        codec::rows_of(table.id),
    ) && (i != at ==> next.rows[i].key != k) by {
        if i != at {
            assert(next.rows[i] == from.rows[i]);
            let own = from.rows[i].key;
            assert(own != from.rows[at].key) by {
                if i < at {
                    assert(from.rows[i].key != from.rows[at].key);
                } else {
                    assert(from.rows[at].key != from.rows[i].key);
                }
            }
            lemma_row_space(table, own);
            assert(own != k);
            assert(world::found(next.world, own) == world::found(from.world, own));
        }
    }
    assert forall|i: int, j: int| 0 <= i < j < next.rows.len() implies (#[trigger] next.rows[i]).key
        != (#[trigger] next.rows[j]).key by {
        if i != at && j != at {
            assert(next.rows[i] == from.rows[i] && next.rows[j] == from.rows[j]);
        }
    }
}

/// Changing one row and then the others changes them all.
proof fn lemma_steps(
    update: Update,
    positions: Seq<int>,
    table: TableView,
    floats: Map<FloatRequest, u64>,
    from: Updating,
    next: Updating,
    state: Updating,
    at: int,
    after: Seq<ValueView>,
)
    requires
        0 <= at < from.rows.len(),
        rows_stand(table, from.world, from.rows, 0),
        row_moved_well(table, from, at, after, next),
        next.affected == from.affected + 1,
        delete::chosen(update.selection, table.columns, from.rows[at].values, floats) == Ok::<
            bool,
            StopView,
        >(true),
        after == new_values(update, positions, table, from.rows[at].values, floats),
        rows_moved_well(update, positions, table, floats, next, state, at + 1),
    ensures
        rows_moved_well(update, positions, table, floats, from, state, at),
{
    assert forall|i: int| 0 <= i < at && i < from.rows.len() implies state.rows[i]
        == #[trigger] from.rows[i] by {
        assert(state.rows[i] == next.rows[i]);
    }
    assert(state.rows[at] == next.rows[at]);
    assert forall|i: int| at <= i < from.rows.len() implies state.rows[i].values == new_values(
        update,
        positions,
        table,
        (#[trigger] from.rows[i]).values,
        floats,
    ) by {
        if i > at {
            assert(next.rows[i] == from.rows[i]);
        }
    }
    assert forall|i: int|
        at <= i < from.rows.len() && delete::chosen(
            update.selection,
            table.columns,
            (#[trigger] from.rows[i]).values,
            floats,
        ) != Ok::<bool, StopView>(true) implies state.rows[i] == from.rows[i] by {
        assert(next.rows[i] == from.rows[i]);
    }
    let old_row = from.rows[at].key;
    let new_row = next.rows[at].key;
    assert(has_key(from.rows, old_row));
    assert forall|k: Seq<u8>| #[trigger] has_key(next.rows, k) implies k == new_row || has_key(
        from.rows,
        k,
    ) by {
        let i = choose|i: int| 0 <= i < next.rows.len() && (#[trigger] next.rows[i]).key == k;
        if i != at {
            assert(next.rows[i] == from.rows[i]);
        }
    }
    assert forall|i: int| at <= i < from.rows.len() implies (#[trigger] state.rows[i]).key
        == from.rows[i].key || !from.world.contains_key(state.rows[i].key) || has_key(
        from.rows,
        state.rows[i].key,
    ) by {
        let k = state.rows[i].key;
        if i > at {
            assert(next.rows[i] == from.rows[i]);
            if k != from.rows[i].key && from.world.contains_key(k) && !has_key(from.rows, k) {
                assert(from.rows[at].key != k);
                assert(k != new_row);
                lemma_row_space(table, k);
                assert(world::found(next.world, k) == world::found(from.world, k));
                assert(has_key(next.rows, k));
            }
        }
    }
    assert forall|k: Seq<u8>| #[trigger] has_key(from.rows, k) && !has_key(
        state.rows,
        k,
    ) implies !state.world.contains_key(k) by {
        let i = choose|i: int| 0 <= i < from.rows.len() && (#[trigger] from.rows[i]).key == k;
        if has_key(next.rows, k) {
            assert(!state.world.contains_key(k));
        } else {
            if i != at {
                assert(next.rows[i] == from.rows[i]);
                assert(next.rows[i].key == k);
            }
            assert(k == old_row);
            assert(state.rows[at] == next.rows[at]);
            assert(new_row != k) by {
                assert(next.rows[at].key == new_row);
            }
            lemma_row_space(table, k);
            assert(world::found(state.world, k) == world::found(next.world, k));
        }
    }
    lemma_chosen_count(update.selection, table, from.rows, next.rows, floats, at + 1);
    assert forall|k: Seq<u8>|
        !prefix::starts_with(k, codec::uniques_of(table.id)) && !has_key(from.rows, k) && !has_key(
            state.rows,
            k,
        ) implies #[trigger] world::found(state.world, k) == world::found(from.world, k) by {
        assert(from.rows[at].key != k);
        assert(state.rows[at].key != k);
        assert(!has_key(next.rows, k)) by {
            if has_key(next.rows, k) {
                let i = choose|i: int| 0 <= i < next.rows.len() && (#[trigger] next.rows[i]).key
                    == k;
                if i != at {
                    assert(next.rows[i] == from.rows[i]);
                }
            }
        }
        assert(world::found(next.world, k) == world::found(from.world, k));
    }
}

/// An UPDATE keeps a table consistent, gives every row that it reads its new values, and leaves
/// every other row, and every key that is not the table's, as it is. The unique columns have to tell
/// different values apart.
pub proof fn law_update_is_exact(
    update: Update,
    world: Map<Seq<u8>, Seq<u8>>,
    floats: Map<FloatRequest, u64>,
    table: TableView,
)
    requires
        world.dom().finite(),
        access::table_named(update.table.value@, world) == Ok::<TableView, StopView>(table),
        consistent(table, world),
        told_apart(table),
        table.primary_key matches Some(position) ==> position < table.columns.len(),
    ensures
        update::updated(update, world, floats) matches Ok((after, output)) ==> (access::rows_read(
            table,
            update.selection,
            world,
            floats,
        ) matches Ok(rows) && (update::assigned(
            update.assignments@,
            table.columns,
            update.assignments@.len(),
        ) matches Ok(positions) && exists|state: Updating|
            state.world == after && #[trigger] rows_moved_well(
                update,
                positions,
                table,
                floats,
                Updating { rows, world, affected: 0 },
                state,
                0,
            ))),
{
    if let Ok((after, output)) = update::updated(update, world, floats) {
        let positions = update::assigned(
            update.assignments@,
            table.columns,
            update.assignments@.len(),
        )->Ok_0;
        let rows = access::rows_read(table, update.selection, world, floats)->Ok_0;
        let from = Updating { rows, world, affected: 0 };
        lemma_rows_read(table, update.selection, world, floats);
        lemma_rows_changed(update, positions, table, from, floats, 0);
        let state = update::rows_changed(
            table,
            update.assignments@,
            positions,
            update.selection,
            from,
            floats,
            0,
        )->Ok_0;
        assert(state.world == after);
    }
}

} // verus!
