//! The order of a query's rows.
//!
//! NULL comes after every value, and before every value where the order is descending. Integers
//! and floats are compared as numbers.
use crate::engine::exact;
use crate::engine::exact::{number_before, order_mixed};
use crate::engine::expression;
use crate::engine::float;
use crate::engine::float::total_rank_of;
use crate::engine::value;
use crate::engine::value::{order_text, Value, ValueView};
use crate::index::key;
use crate::index::key::KeyOrder;
use crate::syntax::OrderKey;
use vstd::prelude::*;
use vstd::utf8::encode_utf8;

verus! {

/// A row on its way to be ordered: the values it is ordered by, and what it shows.
pub struct SortItem {
    pub keys: Vec<Value>,
    pub row: Vec<Value>,
}

#[verifier::ext_equal]
pub struct SortView {
    pub keys: Seq<ValueView>,
    pub row: Seq<ValueView>,
}

impl View for SortItem {
    type V = SortView;

    open spec fn view(&self) -> SortView {
        SortView { keys: value::value_views(self.keys@), row: value::value_views(self.row@) }
    }
}

pub open spec fn sort_views(items: Seq<SortItem>) -> Seq<SortView> {
    Seq::new(items.len(), |i: int| items[i]@)
}

/// A last resort between values of different kinds.
pub open spec fn kind_rank(value: ValueView) -> int {
    match value {
        ValueView::Null => 0,
        ValueView::Boolean(_) => 1,
        ValueView::Integer(_) => 2,
        ValueView::Float(_) => 2,
        ValueView::Text(_) => 3,
    }
}

/// How two values are ordered.
pub open spec fn sort_order(
    left: ValueView,
    right: ValueView,
) -> KeyOrder {
    match (left, right) {
        (ValueView::Null, ValueView::Null) => KeyOrder::Same,
        (ValueView::Null, _) => KeyOrder::After,
        (_, ValueView::Null) => KeyOrder::Before,
        (ValueView::Integer(a), ValueView::Integer(b)) => expression::number_order(
            a as int,
            b as int,
        ),
        (ValueView::Float(a), ValueView::Float(b)) => expression::number_order(
            float::total_rank(a),
            float::total_rank(b),
        ),
        (ValueView::Integer(a), ValueView::Float(b)) => expression::number_order(
            exact::integer_place(a as int),
            exact::float_place(b),
        ),
        (ValueView::Float(a), ValueView::Integer(b)) => expression::number_order(
            exact::float_place(a),
            exact::integer_place(b as int),
        ),
        (ValueView::Boolean(a), ValueView::Boolean(b)) => expression::truth_order(a, b),
        (ValueView::Text(a), ValueView::Text(b)) => expression::text_order(a, b),
        _ => expression::number_order(kind_rank(left), kind_rank(right)),
    }
}

pub open spec fn turned(order: KeyOrder) -> KeyOrder {
    match order {
        KeyOrder::Before => KeyOrder::After,
        KeyOrder::Same => KeyOrder::Same,
        KeyOrder::After => KeyOrder::Before,
    }
}

/// How two values are ordered for one key.
pub open spec fn key_order(
    left: ValueView,
    right: ValueView,
    descending: bool,
) -> KeyOrder {
    if descending {
        turned(sort_order(left, right))
    } else {
        sort_order(left, right)
    }
}

/// How two rows are ordered by the keys from one on: by the first that tells them apart.
pub open spec fn keys_order(
    left: Seq<ValueView>,
    right: Seq<ValueView>,
    order_by: Seq<OrderKey>,
    at: int,
) -> KeyOrder
    decreases order_by.len() - at,
{
    if at < 0 || at >= order_by.len() {
        KeyOrder::Same
    } else {
        let order = key_order(left[at], right[at], order_by[at].descending);
        if order == KeyOrder::Same {
            keys_order(left, right, order_by, at + 1)
        } else {
            order
        }
    }
}

/// Whether a row may stand before another.
pub open spec fn may_precede(
    left: Seq<ValueView>,
    right: Seq<ValueView>,
    order_by: Seq<OrderKey>,
) -> bool {
    keys_order(left, right, order_by, 0) != KeyOrder::After
}

/// Whether rows can be put in order at all: of two rows one may stand before the other, and what
/// may stand before a row may stand before all that may follow it.
pub open spec fn sortable(
    items: Seq<SortView>,
    order_by: Seq<OrderKey>,
) -> bool {
    &&& forall|a: int, b: int|
        0 <= a < items.len() && 0 <= b < items.len() ==> may_precede(
            (#[trigger] items[a]).keys,
            (#[trigger] items[b]).keys,
            order_by,
        ) || may_precede(items[b].keys, items[a].keys, order_by)
    &&& forall|a: int, b: int, c: int|
        0 <= a < items.len() && 0 <= b < items.len() && 0 <= c < items.len() && may_precede(
            (#[trigger] items[a]).keys,
            (#[trigger] items[b]).keys,
            order_by,
        ) && may_precede(items[b].keys, (#[trigger] items[c]).keys, order_by)
            ==> may_precede(items[a].keys, items[c].keys, order_by)
}

/// Whether places are all the places of a list, each once.
pub open spec fn is_arrangement(places: Seq<int>, count: nat) -> bool {
    &&& places.len() == count
    &&& places.no_duplicates()
    &&& forall|i: int| 0 <= i < places.len() ==> 0 <= #[trigger] places[i] < count
}

/// Whether two rows stand in order: the first may precede the second, and where either could be
/// first, they stand as they were given.
pub open spec fn in_order(
    items: Seq<SortView>,
    first: int,
    second: int,
    order_by: Seq<OrderKey>,
) -> bool {
    &&& may_precede(items[first].keys, items[second].keys, order_by)
    &&& may_precede(items[second].keys, items[first].keys, order_by) ==> first < second
}

/// Whether rows are others put in order, by the places where they came from.
pub open spec fn sorted_by(
    items: Seq<SortView>,
    sorted: Seq<SortView>,
    places: Seq<int>,
    order_by: Seq<OrderKey>,
) -> bool {
    &&& is_arrangement(places, items.len())
    &&& sorted == Seq::new(places.len(), |i: int| items[places[i]])
    &&& forall|i: int, j: int|
        0 <= i < j < places.len() ==> in_order(
            items,
            #[trigger] places[i],
            #[trigger] places[j],
            order_by,
        )
}

/// Whether rows are others put in order.
pub open spec fn is_sorted_from(
    items: Seq<SortView>,
    sorted: Seq<SortView>,
    order_by: Seq<OrderKey>,
) -> bool {
    exists|places: Seq<int>| #[trigger] sorted_by(items, sorted, places, order_by)
}

/// NULL comes after every other value in ascending order, and before every other in descending order.
pub proof fn law_nulls_come_last(
    other: ValueView,
    descending: bool,
)
    requires
        !(other is Null),
    ensures
        key_order(ValueView::Null, other, descending) == (if descending {
            KeyOrder::Before
        } else {
            KeyOrder::After
        }),
        key_order(other, ValueView::Null, descending) == (if descending {
            KeyOrder::After
        } else {
            KeyOrder::Before
        }),
{
}

pub proof fn lemma_text_order(a: Seq<char>, b: Seq<char>, c: Seq<char>)
    ensures
        expression::text_order(a, b) == turned(expression::text_order(b, a)),
        expression::text_order(a, b) != KeyOrder::After && expression::text_order(b, c)
            != KeyOrder::After ==> expression::text_order(a, c) != KeyOrder::After,
{
    broadcast use vstd::utf8::encode_utf8_decode_utf8;

    let x = encode_utf8(a);
    let y = encode_utf8(b);
    let z = encode_utf8(c);
    assert(vstd::utf8::decode_utf8(x) == a);
    assert(vstd::utf8::decode_utf8(y) == b);
    assert(vstd::utf8::decode_utf8(z) == c);
    key::lemma_key_irreflexive(x);
    key::lemma_key_irreflexive(y);
    key::lemma_key_total(x, y);
    key::lemma_key_total(y, z);
    key::lemma_key_total(x, z);
    if key::key_lt(x, y) {
        key::lemma_key_asymmetric(x, y);
    }
    if key::key_lt(y, x) {
        key::lemma_key_asymmetric(y, x);
    }
    if key::key_lt(x, y) && key::key_lt(y, z) {
        key::lemma_key_transitive(x, y, z);
    }
}

/// Any two values stand in one order, in which what comes no later than a second value comes no later
/// than any that the second comes no later than. Integers and floats stand in it by their exact values.
pub proof fn law_values_have_one_order(a: ValueView, b: ValueView, c: ValueView)
    ensures
        sort_order(a, b) == turned(sort_order(b, a)),
        sort_order(a, b) != KeyOrder::After && sort_order(b, c) != KeyOrder::After ==> sort_order(
            a,
            c,
        ) != KeyOrder::After,
{
    lemma_number_places(a, b);
    lemma_number_places(b, a);
    lemma_number_places(b, c);
    lemma_number_places(a, c);
    match (a, b) {
        (ValueView::Text(x), ValueView::Text(y)) => {
            match c {
                ValueView::Text(z) => {
                    lemma_text_order(x, y, z);
                },
                _ => {
                    lemma_text_order(x, y, y);
                },
            }
        },
        _ => {},
    }
}

spec fn is_number(value: ValueView) -> bool {
    value is Integer || value is Float
}

spec fn place_of(value: ValueView) -> int {
    match value {
        ValueView::Integer(number) => exact::integer_place(number as int),
        ValueView::Float(bits) => exact::float_place(bits),
        _ => 0,
    }
}

proof fn lemma_number_places(a: ValueView, b: ValueView)
    ensures
        is_number(a) && is_number(b) ==> sort_order(a, b) == expression::number_order(
            place_of(a),
            place_of(b),
        ),
{
    match (a, b) {
        (ValueView::Integer(x), ValueView::Integer(y)) => {
            exact::lemma_integer_places(x as int, y as int);
        },
        (ValueView::Float(x), ValueView::Float(y)) => {
            exact::lemma_float_places(x, y);
        },
        _ => {},
    }
}

proof fn lemma_keys_order(
    a: Seq<ValueView>,
    b: Seq<ValueView>,
    c: Seq<ValueView>,
    order_by: Seq<OrderKey>,
    at: int,
)
    requires
        0 <= at,
    ensures
        keys_order(a, b, order_by, at) == turned(keys_order(b, a, order_by, at)),
        keys_order(a, b, order_by, at) != KeyOrder::After && keys_order(b, c, order_by, at)
            != KeyOrder::After ==> keys_order(a, c, order_by, at) != KeyOrder::After,
    decreases order_by.len() - at,
{
    if at < order_by.len() {
        law_values_have_one_order(a[at], b[at], c[at]);
        law_values_have_one_order(b[at], c[at], a[at]);
        law_values_have_one_order(c[at], a[at], b[at]);
        law_values_have_one_order(c[at], b[at], a[at]);
        law_values_have_one_order(b[at], a[at], c[at]);
        law_values_have_one_order(a[at], c[at], b[at]);
        lemma_keys_order(a, b, c, order_by, at + 1);
    }
}

/// Rows can be put in order, whatever values they are ordered by.
pub proof fn law_rows_are_sortable(items: Seq<SortView>, order_by: Seq<OrderKey>)
    ensures
        sortable(items, order_by),
{
    assert forall|a: int, b: int| 0 <= a < items.len() && 0 <= b < items.len() implies may_precede(
        (#[trigger] items[a]).keys,
        (#[trigger] items[b]).keys,
        order_by,
    ) || may_precede(items[b].keys, items[a].keys, order_by) by {
        lemma_keys_order(items[a].keys, items[b].keys, items[b].keys, order_by, 0);
    }
    assert forall|a: int, b: int, c: int|
        0 <= a < items.len() && 0 <= b < items.len() && 0 <= c < items.len() && may_precede(
            (#[trigger] items[a]).keys,
            (#[trigger] items[b]).keys,
            order_by,
        ) && may_precede(items[b].keys, (#[trigger] items[c]).keys, order_by) implies may_precede(
        items[a].keys,
        items[c].keys,
        order_by,
    ) by {
        lemma_keys_order(items[a].keys, items[b].keys, items[c].keys, order_by, 0);
    }
}

/// There is one way to put rows in order.
pub proof fn law_order_is_determined(
    items: Seq<SortView>,
    first: Seq<SortView>,
    second: Seq<SortView>,
    order_by: Seq<OrderKey>,
)
    requires
        is_sorted_from(items, first, order_by),
        is_sorted_from(items, second, order_by),
    ensures
        first == second,
{
    law_rows_are_sortable(items, order_by);
    let p = choose|places: Seq<int>| #[trigger] sorted_by(items, first, places, order_by);
    let q = choose|places: Seq<int>| #[trigger] sorted_by(items, second, places, order_by);
    lemma_same_arrangement(items, p, q, order_by, p.len() as int);
    assert(p =~= q);
}

pub proof fn lemma_arrangement_has(places: Seq<int>, count: nat, wanted: int)
    requires
        is_arrangement(places, count),
        0 <= wanted < count,
    ensures
        places.contains(wanted),
{
    vstd::set_lib::lemma_int_range(0, count as int);
    let all = vstd::set_lib::set_int_range(0, count as int);
    let held = places.to_set();
    places.unique_seq_to_set();
    assert(held.subset_of(all)) by {
        assert forall|p: int| held.contains(p) implies all.contains(p) by {
            let i = places.index_of(p);
            assert(places[i] == p);
        }
    }
    vstd::set_lib::lemma_subset_equality(held, all);
    assert(held.contains(wanted));
}

proof fn lemma_same_arrangement(
    items: Seq<SortView>,
    p: Seq<int>,
    q: Seq<int>,
    order_by: Seq<OrderKey>,
    count: int,
)
    requires
        sortable(items, order_by),
        is_arrangement(p, items.len()),
        is_arrangement(q, items.len()),
        forall|i: int, j: int|
            0 <= i < j < p.len() ==> in_order(
                items,
                #[trigger] p[i],
                #[trigger] p[j],
                order_by,
            ),
        forall|i: int, j: int|
            0 <= i < j < q.len() ==> in_order(
                items,
                #[trigger] q[i],
                #[trigger] q[j],
                order_by,
            ),
        0 <= count <= p.len(),
    ensures
        forall|i: int| 0 <= i < count ==> #[trigger] p[i] == q[i],
    decreases count,
{
    if count > 0 {
        lemma_same_arrangement(items, p, q, order_by, count - 1);
        let at = count - 1;
        if p[at] != q[at] {
            lemma_arrangement_has(q, items.len(), p[at]);
            lemma_arrangement_has(p, items.len(), q[at]);
            let i = q.index_of(p[at]);
            let j = p.index_of(q[at]);
            if i < at {
                assert(p[i] == q[i]);
                assert(false);
            }
            if j < at {
                assert(p[j] == q[j]);
                assert(false);
            }
            assert(in_order(items, p[at], p[j], order_by));
            assert(in_order(items, q[at], q[i], order_by));
            assert(false);
        }
    }
}

fn type_rank(value: &Value) -> (rank: i128)
    ensures
        rank == kind_rank(value@),
{
    match value {
        Value::Null => 0,
        Value::Boolean(_) => 1,
        Value::Integer(_) => 2,
        Value::Float(_) => 2,
        Value::Text(_) => 3,
    }
}

/// How two values are ordered.
pub fn compare_sort_values(left: &Value, right: &Value) -> (order: KeyOrder)
    ensures
        order == sort_order(left@, right@),
{
    match (left, right) {
        (Value::Null, Value::Null) => KeyOrder::Same,
        (Value::Null, _) => KeyOrder::After,
        (_, Value::Null) => KeyOrder::Before,
        (Value::Integer(a), Value::Integer(b)) => number_before(*a as i128, *b as i128),
        (Value::Float(a), Value::Float(b)) => number_before(total_rank_of(*a), total_rank_of(*b)),
        (Value::Integer(a), Value::Float(b)) => order_mixed(*a, *b),
        (Value::Float(a), Value::Integer(b)) => match order_mixed(*b, *a) {
            KeyOrder::Before => KeyOrder::After,
            KeyOrder::Same => KeyOrder::Same,
            KeyOrder::After => KeyOrder::Before,
        },
        (Value::Boolean(a), Value::Boolean(b)) => if *a == *b {
            KeyOrder::Same
        } else if *b {
            KeyOrder::Before
        } else {
            KeyOrder::After
        },
        (Value::Text(a), Value::Text(b)) => order_text(a.as_str(), b.as_str()),
        (left, right) => number_before(type_rank(left), type_rank(right)),
    }
}

/// How two rows are ordered by their keys.
fn compare_order_keys(
    left: &Vec<Value>,
    right: &Vec<Value>,
    order_by: &Vec<OrderKey>,
) -> (order: KeyOrder)
    requires
        left@.len() == order_by@.len(),
        right@.len() == order_by@.len(),
    ensures
        order == keys_order(
            value::value_views(left@),
            value::value_views(right@),
            order_by@,
            0,
        ),
{
    let ghost a = value::value_views(left@);
    let ghost b = value::value_views(right@);
    let mut index: usize = 0;
    while index < order_by.len()
        invariant
            index <= order_by@.len(),
            left@.len() == order_by@.len(),
            right@.len() == order_by@.len(),
            a == value::value_views(left@),
            b == value::value_views(right@),
            keys_order(a, b, order_by@, 0) == keys_order(
                a,
                b,
                order_by@,
                index as int,
            ),
        decreases order_by@.len() - index,
    {
        let plain = compare_sort_values(&left[index], &right[index]);
        let order = if order_by[index].descending {
            match plain {
                KeyOrder::Before => KeyOrder::After,
                KeyOrder::Same => KeyOrder::Same,
                KeyOrder::After => KeyOrder::Before,
            }
        } else {
            plain
        };
        if !matches!(order, KeyOrder::Same) {
            return order;
        }
        index = index + 1;
    }
    KeyOrder::Same
}

/// The place in ordered rows behind all that may stand before a new one.
fn insertion_place(
    sorted: &Vec<SortItem>,
    item: &SortItem,
    order_by: &Vec<OrderKey>,
    Ghost(items): Ghost<Seq<SortView>>,
    Ghost(places): Ghost<Seq<int>>,
    Ghost(at): Ghost<int>,
) -> (place: usize)
    requires
        0 <= at < items.len(),
        items[at] == item@,
        item.keys@.len() == order_by@.len(),
        places.len() == sorted@.len(),
        forall|i: int| 0 <= i < places.len() ==> 0 <= #[trigger] places[i] < items.len(),
        forall|i: int|
            0 <= i < sorted@.len() ==> (#[trigger] sorted@[i])@ == items[places[i]]
                && sorted@[i].keys@.len() == order_by@.len(),
        sortable(items, order_by@) ==> forall|i: int, j: int|
            0 <= i < j < places.len() ==> in_order(
                items,
                #[trigger] places[i],
                #[trigger] places[j],
                order_by@,
            ),
    ensures
        place <= sorted@.len(),
        sortable(items, order_by@) ==> forall|i: int|
            0 <= i < place ==> may_precede(
                items[#[trigger] places[i]].keys,
                items[at].keys,
                order_by@,
            ),
        sortable(items, order_by@) ==> forall|i: int|
            place <= i < places.len() ==> !may_precede(
                items[#[trigger] places[i]].keys,
                items[at].keys,
                order_by@,
            ),
{
    let mut low: usize = 0;
    let mut high: usize = sorted.len();
    while low < high
        invariant
            low <= high <= sorted@.len(),
            0 <= at < items.len(),
            items[at] == item@,
            item.keys@.len() == order_by@.len(),
            places.len() == sorted@.len(),
            forall|i: int| 0 <= i < places.len() ==> 0 <= #[trigger] places[i] < items.len(),
            forall|i: int|
                0 <= i < sorted@.len() ==> (#[trigger] sorted@[i])@ == items[places[i]]
                    && sorted@[i].keys@.len() == order_by@.len(),
            sortable(items, order_by@) ==> forall|i: int, j: int|
                0 <= i < j < places.len() ==> in_order(
                    items,
                    #[trigger] places[i],
                    #[trigger] places[j],
                    order_by@,
                ),
            sortable(items, order_by@) ==> forall|i: int|
                0 <= i < low ==> may_precede(
                    items[#[trigger] places[i]].keys,
                    items[at].keys,
                    order_by@,
                ),
            sortable(items, order_by@) ==> forall|i: int|
                high <= i < places.len() ==> !may_precede(
                    items[#[trigger] places[i]].keys,
                    items[at].keys,
                    order_by@,
                ),
        decreases high - low,
    {
        let middle: usize = low + (high - low) / 2;
        proof {
            assert(sorted@[middle as int]@ == items[places[middle as int]]);
        }
        let order = compare_order_keys(&sorted[middle].keys, &item.keys, order_by);
        if matches!(order, KeyOrder::After) {
            proof {
                if sortable(items, order_by@) {
                    assert forall|i: int| middle <= i < places.len() implies !may_precede(
                        items[#[trigger] places[i]].keys,
                        items[at].keys,
                        order_by@,
                    ) by {
                        if i > middle {
                            assert(in_order(
                                items,
                                places[middle as int],
                                places[i],
                                order_by@,
                            ));
                        }
                    }
                }
            }
            high = middle;
        } else {
            proof {
                if sortable(items, order_by@) {
                    assert forall|i: int| 0 <= i <= middle implies may_precede(
                        items[#[trigger] places[i]].keys,
                        items[at].keys,
                        order_by@,
                    ) by {
                        if i < middle {
                            assert(in_order(
                                items,
                                places[i],
                                places[middle as int],
                                order_by@,
                            ));
                        }
                    }
                }
            }
            low = middle + 1;
        }
    }
    low
}

proof fn lemma_placed(
    items: Seq<SortView>,
    before: Seq<int>,
    place: int,
    order_by: Seq<OrderKey>,
)
    requires
        before.len() < items.len(),
        is_arrangement(before, before.len()),
        0 <= place <= before.len(),
        sortable(items, order_by) ==> forall|i: int, j: int|
            0 <= i < j < before.len() ==> in_order(
                items,
                #[trigger] before[i],
                #[trigger] before[j],
                order_by,
            ),
        sortable(items, order_by) ==> forall|i: int|
            0 <= i < place ==> may_precede(
                items[#[trigger] before[i]].keys,
                items[before.len() as int].keys,
                order_by,
            ),
        sortable(items, order_by) ==> forall|i: int|
            place <= i < before.len() ==> !may_precede(
                items[#[trigger] before[i]].keys,
                items[before.len() as int].keys,
                order_by,
            ),
    ensures
        is_arrangement(before.insert(place, before.len() as int), before.len() + 1),
        sortable(items, order_by) ==> forall|i: int, j: int|
            0 <= i < j < before.len() + 1 ==> in_order(
                items,
                #[trigger] before.insert(place, before.len() as int)[i],
                #[trigger] before.insert(place, before.len() as int)[j],
                order_by,
            ),
{
    let new = before.len() as int;
    let after = before.insert(place, new);
    assert forall|i: int| 0 <= i < after.len() implies #[trigger] after[i] == if i < place {
        before[i]
    } else if i == place {
        new
    } else {
        before[i - 1]
    } by {}
    assert(after.no_duplicates()) by {
        assert forall|i: int, j: int|
            0 <= i < after.len() && 0 <= j < after.len() && i != j implies after[i] != after[j] by {
            let x = if i < place { i } else { i - 1 };
            let y = if j < place { j } else { j - 1 };
            if i != place && j != place {
                assert(before[x] != before[y]);
            }
        }
    }
    if sortable(items, order_by) {
        assert forall|i: int, j: int| 0 <= i < j < after.len() implies in_order(
            items,
            #[trigger] after[i],
            #[trigger] after[j],
            order_by,
        ) by {
            if j == place {
                assert(may_precede(items[before[i]].keys, items[new].keys, order_by));
            } else if i == place {
                assert(!may_precede(
                    items[before[j - 1]].keys,
                    items[new].keys,
                    order_by,
                ));
                assert(0 <= before[j - 1] < items.len());
                assert(may_precede(items[new].keys, items[before[j - 1]].keys, order_by)
                    || may_precede(items[before[j - 1]].keys, items[new].keys, order_by));
            } else {
                let x = if i < place { i } else { i - 1 };
                let y = if j < place { j } else { j - 1 };
                assert(in_order(items, before[x], before[y], order_by));
            }
        }
    }
}

/// Rows put in order.
pub(crate) fn sort_rows(items: Vec<SortItem>, order_by: &Vec<OrderKey>) -> (sorted:
    Vec<SortItem>)
    requires
        forall|i: int|
            0 <= i < items@.len() ==> (#[trigger] items@[i]).keys@.len() == order_by@.len(),
    ensures
        is_sorted_from(sort_views(items@), sort_views(sorted@), order_by@),
{
    let ghost views = sort_views(items@);
    let count: usize = items.len();
    let mut rest = crate::list::reversed(items);
    let mut sorted: Vec<SortItem> = Vec::new();
    let ghost mut places: Seq<int> = Seq::empty();
    while rest.len() > 0
        invariant
            count == items@.len(),
            views == sort_views(items@),
            rest@.len() + sorted@.len() == count,
            places.len() == sorted@.len(),
            is_arrangement(places, places.len()),
            forall|i: int|
                0 <= i < rest@.len() ==> (#[trigger] rest@[i])@ == views[count - 1 - i]
                    && rest@[i].keys@.len() == order_by@.len(),
            forall|i: int|
                0 <= i < sorted@.len() ==> (#[trigger] sorted@[i])@ == views[places[i]]
                    && sorted@[i].keys@.len() == order_by@.len(),
            sortable(views, order_by@) ==> forall|i: int, j: int|
                0 <= i < j < places.len() ==> in_order(
                    views,
                    #[trigger] places[i],
                    #[trigger] places[j],
                    order_by@,
                ),
        decreases rest@.len(),
    {
        let ghost before = rest@;
        let ghost old_sorted = sorted@;
        let ghost old_places = places;
        let ghost at = sorted@.len() as int;
        if let Some(item) = rest.pop() {
            assert(before[before.len() - 1]@ == views[at]);
            assert(item@ == views[at]);
            let place = insertion_place(
                &sorted,
                &item,
                order_by,
                Ghost(views),
                Ghost(places),
                Ghost(at),
            );
            proof {
                lemma_placed(views, places, place as int, order_by@);
                places = places.insert(place as int, at);
            }
            sorted.insert(place, item);
            proof {
                assert forall|i: int| 0 <= i < sorted@.len() implies (#[trigger] sorted@[i])@
                    == views[places[i]] && sorted@[i].keys@.len() == order_by@.len() by {
                    if i < place {
                        assert(sorted@[i] == old_sorted[i] && places[i] == old_places[i]);
                    } else if i > place {
                        assert(sorted@[i] == old_sorted[i - 1] && places[i] == old_places[i - 1]);
                    }
                }
                assert forall|i: int| 0 <= i < rest@.len() implies (#[trigger] rest@[i])@
                    == views[count - 1 - i] && rest@[i].keys@.len() == order_by@.len() by {
                    assert(rest@[i] == before[i]);
                }
            }
        }
    }
    proof {
        law_rows_are_sortable(views, order_by@);
        assert(sort_views(sorted@) =~= Seq::new(places.len(), |i: int| views[places[i]]));
        assert(sorted_by(views, sort_views(sorted@), places, order_by@));
    }
    sorted
}

} // verus!
