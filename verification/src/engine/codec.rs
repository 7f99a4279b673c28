//! The byte keys of tables, rows and constraints.
use crate::bytes;
use crate::bytes::{copy_bytes, get_be, put_be, put_bytes};
use crate::engine::error::{EngineError, EngineErrorView};
use crate::engine::float;
use crate::engine::float::{finite, total_rank_of};
use crate::engine::value;
use crate::engine::value::{Value, ValueView};
use crate::index::key;
use crate::mvcc::prefix;
use crate::text;
use crate::text::text_with_number;
use vstd::prelude::*;
use vstd::string::*;
use vstd::utf8::encode_utf8;

verus! {

pub open spec fn catalog_prefix() -> Seq<u8> {
    encode_utf8("\0quanta/catalog/table/"@)
}

pub open spec fn index_catalog_start() -> Seq<u8> {
    encode_utf8("\0quanta/catalog/index/"@)
}

pub open spec fn row_start() -> Seq<u8> {
    encode_utf8("\0quanta/row/"@)
}

pub open spec fn unique_start() -> Seq<u8> {
    encode_utf8("\0quanta/unique/"@)
}

pub open spec fn index_start() -> Seq<u8> {
    encode_utf8("\0quanta/index/"@)
}

/// The key of the number that the next table gets.
pub open spec fn table_counter() -> Seq<u8> {
    encode_utf8("\0quanta/catalog/next_table_id"@)
}

/// The key of the number that the next index gets.
pub open spec fn index_counter() -> Seq<u8> {
    encode_utf8("\0quanta/catalog/next_index_id"@)
}

/// Bytes behind their length.
pub open spec fn delimited(component: Seq<u8>) -> Seq<u8> {
    bytes::be_bytes(component.len(), 4) + component
}

pub open spec fn catalog_key_of(name: Seq<char>) -> Seq<u8> {
    catalog_prefix() + delimited(encode_utf8(name))
}

pub open spec fn index_catalog_key_of(name: Seq<char>) -> Seq<u8> {
    index_catalog_start() + delimited(encode_utf8(name))
}

/// What the keys of a table's rows begin with.
pub open spec fn rows_of(table_id: u64) -> Seq<u8> {
    row_start() + bytes::be_bytes(table_id as nat, 8)
}

/// What the keys of a table's unique values begin with.
pub open spec fn uniques_of(table_id: u64) -> Seq<u8> {
    unique_start() + bytes::be_bytes(table_id as nat, 8)
}

/// What the keys of an index's entries begin with.
pub open spec fn entries_of(index_id: u64) -> Seq<u8> {
    index_start() + bytes::be_bytes(index_id as nat, 8)
}

pub open spec fn row_key_of(table_id: u64, identity: Seq<u8>) -> Seq<u8> {
    rows_of(table_id) + delimited(identity)
}

pub open spec fn unique_key_of(table_id: u64, column: nat, identity: Seq<u8>) -> Seq<u8> {
    uniques_of(table_id) + (bytes::be_bytes(column, 4) + delimited(identity))
}

/// The bytes that a value is told by and ordered by.
pub open spec fn identity_of(value: ValueView) -> Result<Seq<u8>, EngineErrorView> {
    match value {
        ValueView::Null => Err(EngineErrorView::ConstraintViolation("primary key cannot be NULL"@)),
        ValueView::Boolean(set) => Ok(seq![1u8] + seq![if set { 1u8 } else { 0u8 }]),
        ValueView::Integer(number) => Ok(
            seq![2u8] + bytes::be_bytes((number + float::SIGN) as nat, 8),
        ),
        ValueView::Float(bits) => if float::is_finite(bits) {
            Ok(seq![3u8] + bytes::be_bytes((float::total_rank(bits) + float::SIGN) as nat, 8))
        } else {
            Err(EngineErrorView::InvalidRow("primary key cannot be a non-finite float"@))
        },
        ValueView::Text(text) => Ok(seq![4u8] + encode_utf8(text)),
    }
}

/// Identities, each behind its length.
pub open spec fn identities_image(identities: Seq<Seq<u8>>) -> Seq<u8>
    decreases identities.len(),
{
    if identities.len() == 0 {
        Seq::empty()
    } else {
        identities_image(identities.drop_last()) + delimited(identities.last())
    }
}

// Equal pieces.

proof fn lemma_pieces(a: Seq<u8>, b: Seq<u8>, c: Seq<u8>, d: Seq<u8>)
    requires
        a + b == c + d,
        a.len() == c.len(),
    ensures
        a == c,
        b == d,
{
    assert((a + b).take(a.len() as int) =~= a);
    assert((c + d).take(c.len() as int) =~= c);
    assert((a + b).skip(a.len() as int) =~= b);
    assert((c + d).skip(c.len() as int) =~= d);
}

proof fn lemma_numbers(a: nat, b: nat, width: nat)
    requires
        bytes::be_bytes(a, width) == bytes::be_bytes(b, width),
        a < bytes::byte_limit(width),
        b < bytes::byte_limit(width),
    ensures
        a == b,
{
    bytes::lemma_be_round_trip(a, width);
    bytes::lemma_be_round_trip(b, width);
}

proof fn lemma_number_length(a: nat, width: nat)
    ensures
        bytes::be_bytes(a, width).len() == width,
    decreases width,
{
    if width > 0 {
        lemma_number_length(a / 256, (width - 1) as nat);
    }
}

proof fn lemma_delimited(a: Seq<u8>, b: Seq<u8>)
    requires
        delimited(a) == delimited(b),
    ensures
        a == b,
{
    lemma_number_length(a.len(), 4);
    lemma_number_length(b.len(), 4);
    lemma_pieces(bytes::be_bytes(a.len(), 4), a, bytes::be_bytes(b.len(), 4), b);
}

/// Rows of different tables, or with different identities, have different keys.
pub proof fn law_row_keys_differ(first: u64, a: Seq<u8>, second: u64, b: Seq<u8>)
    requires
        row_key_of(first, a) == row_key_of(second, b),
    ensures
        first == second,
        a == b,
{
    bytes::lemma_byte_limits();
    lemma_number_length(first as nat, 8);
    lemma_number_length(second as nat, 8);
    lemma_pieces(rows_of(first), delimited(a), rows_of(second), delimited(b));
    lemma_pieces(
        row_start(),
        bytes::be_bytes(first as nat, 8),
        row_start(),
        bytes::be_bytes(second as nat, 8),
    );
    lemma_numbers(first as nat, second as nat, 8);
    lemma_delimited(a, b);
}

/// Unique values of different tables, of different columns, or with different identities, have
/// different keys.
pub proof fn law_unique_keys_differ(
    first: u64,
    column: nat,
    a: Seq<u8>,
    second: u64,
    other: nat,
    b: Seq<u8>,
)
    requires
        unique_key_of(first, column, a) == unique_key_of(second, other, b),
        column <= u32::MAX,
        other <= u32::MAX,
    ensures
        first == second,
        column == other,
        a == b,
{
    bytes::lemma_byte_limits();
    lemma_number_length(first as nat, 8);
    lemma_number_length(second as nat, 8);
    lemma_number_length(column, 4);
    lemma_number_length(other, 4);
    lemma_pieces(
        uniques_of(first),
        bytes::be_bytes(column, 4) + delimited(a),
        uniques_of(second),
        bytes::be_bytes(other, 4) + delimited(b),
    );
    lemma_pieces(
        unique_start(),
        bytes::be_bytes(first as nat, 8),
        unique_start(),
        bytes::be_bytes(second as nat, 8),
    );
    lemma_pieces(bytes::be_bytes(column, 4), delimited(a), bytes::be_bytes(other, 4), delimited(b));
    lemma_numbers(first as nat, second as nat, 8);
    lemma_numbers(column, other, 4);
    lemma_delimited(a, b);
}

/// Tables with different names have different catalog keys.
pub proof fn law_catalog_keys_differ(first: Seq<char>, second: Seq<char>)
    requires
        catalog_key_of(first) == catalog_key_of(second),
    ensures
        first == second,
{
    broadcast use vstd::utf8::encode_utf8_decode_utf8;

    let a = encode_utf8(first);
    let b = encode_utf8(second);
    lemma_pieces(catalog_prefix(), delimited(a), catalog_prefix(), delimited(b));
    lemma_delimited(a, b);
    assert(vstd::utf8::decode_utf8(a) == first);
    assert(vstd::utf8::decode_utf8(b) == second);
}

proof fn lemma_starts()
    ensures
        catalog_prefix().len() == 22,
        catalog_prefix()[8] == 99u8,
        catalog_prefix()[16] == 116u8,
        table_counter().len() == 29,
        table_counter()[8] == 99u8,
        table_counter()[16] == 110u8,
        row_start().len() == 12,
        row_start()[8] == 114u8,
        unique_start().len() == 15,
        unique_start()[8] == 117u8,
        index_start().len() == 14,
        index_start()[8] == 105u8,
{
    reveal_strlit("\0quanta/catalog/table/");
    reveal_strlit("\0quanta/catalog/next_table_id");
    reveal_strlit("\0quanta/row/");
    reveal_strlit("\0quanta/unique/");
    reveal_strlit("\0quanta/index/");
    vstd::utf8::is_ascii_chars_encode_utf8("\0quanta/catalog/table/"@);
    vstd::utf8::is_ascii_chars_encode_utf8("\0quanta/catalog/next_table_id"@);
    vstd::utf8::is_ascii_chars_encode_utf8("\0quanta/row/"@);
    vstd::utf8::is_ascii_chars_encode_utf8("\0quanta/unique/"@);
    vstd::utf8::is_ascii_chars_encode_utf8("\0quanta/index/"@);
    assert("\0quanta/catalog/table/"@[8] == 'c');
    assert("\0quanta/catalog/table/"@[16] == 't');
    assert("\0quanta/catalog/next_table_id"@[8] == 'c');
    assert("\0quanta/catalog/next_table_id"@[16] == 'n');
    assert("\0quanta/row/"@[8] == 'r');
    assert("\0quanta/unique/"@[8] == 'u');
    assert("\0quanta/index/"@[8] == 'i');
}

/// The keys of rows, of unique values, of tables and of the table counter are all apart, and the
/// rows of a table are found under its own prefix and no other's.
pub proof fn law_key_spaces_are_apart(
    table: u64,
    other: u64,
    identity: Seq<u8>,
    column: nat,
    value_identity: Seq<u8>,
    name: Seq<char>,
)
    ensures
        row_key_of(table, identity) != unique_key_of(other, column, value_identity),
        row_key_of(table, identity) != catalog_key_of(name),
        row_key_of(table, identity) != table_counter(),
        unique_key_of(table, column, value_identity) != catalog_key_of(name),
        unique_key_of(table, column, value_identity) != table_counter(),
        catalog_key_of(name) != table_counter(),
        prefix::starts_with(row_key_of(table, identity), rows_of(other)) <==> table == other,
        prefix::starts_with(unique_key_of(table, column, value_identity), uniques_of(other)) <==>
            table == other,
        !prefix::starts_with(unique_key_of(table, column, value_identity), rows_of(other)),
        !prefix::starts_with(catalog_key_of(name), rows_of(other)),
        !prefix::starts_with(table_counter(), rows_of(other)),
        !prefix::starts_with(row_key_of(table, identity), uniques_of(other)),
        !prefix::starts_with(catalog_key_of(name), uniques_of(other)),
        !prefix::starts_with(table_counter(), uniques_of(other)),
{
    lemma_starts();
    bytes::lemma_byte_limits();
    lemma_number_length(table as nat, 8);
    lemma_number_length(other as nat, 8);
    let row = row_key_of(table, identity);
    let unique = unique_key_of(table, column, value_identity);
    let other_unique = unique_key_of(other, column, value_identity);
    let catalog = catalog_key_of(name);
    assert(row[8] == 114u8 && unique[8] == 117u8 && other_unique[8] == 117u8 && catalog[8]
        == 99u8 && catalog[16] == 116u8);
    assert(rows_of(other)[8] == 114u8 && uniques_of(other)[8] == 117u8);
    assert(row.take(rows_of(other).len() as int) =~= rows_of(table));
    assert(unique.take(uniques_of(other).len() as int) =~= uniques_of(table));
    if rows_of(table) == rows_of(other) {
        lemma_pieces(
            row_start(),
            bytes::be_bytes(table as nat, 8),
            row_start(),
            bytes::be_bytes(other as nat, 8),
        );
        lemma_numbers(table as nat, other as nat, 8);
    }
    if uniques_of(table) == uniques_of(other) {
        lemma_pieces(
            unique_start(),
            bytes::be_bytes(table as nat, 8),
            unique_start(),
            bytes::be_bytes(other as nat, 8),
        );
        lemma_numbers(table as nat, other as nat, 8);
    }
    if prefix::starts_with(unique, rows_of(other)) {
        assert(unique.take(rows_of(other).len() as int)[8] == rows_of(other)[8]);
    }
    if prefix::starts_with(catalog, rows_of(other)) {
        assert(catalog.take(rows_of(other).len() as int)[8] == rows_of(other)[8]);
    }
    if prefix::starts_with(table_counter(), rows_of(other)) {
        assert(table_counter().take(rows_of(other).len() as int)[8] == rows_of(other)[8]);
    }
    if prefix::starts_with(row, uniques_of(other)) {
        assert(row.take(uniques_of(other).len() as int)[8] == uniques_of(other)[8]);
    }
    if prefix::starts_with(catalog, uniques_of(other)) {
        assert(catalog.take(uniques_of(other).len() as int)[8] == uniques_of(other)[8]);
    }
    if prefix::starts_with(table_counter(), uniques_of(other)) {
        assert(table_counter().take(uniques_of(other).len() as int)[8] == uniques_of(other)[8]);
    }
}

/// A key under the rows of a table is not under its unique values.
pub proof fn lemma_spaces(table: u64, k: Seq<u8>)
    requires
        prefix::starts_with(k, rows_of(table)),
    ensures
        !prefix::starts_with(k, uniques_of(table)),
{
    lemma_starts();
    bytes::lemma_byte_limits();
    lemma_number_length(table as nat, 8);
    assert(rows_of(table)[8] == 114u8 && uniques_of(table)[8] == 117u8);
    assert(k.subrange(0, rows_of(table).len() as int)[8] == k[8]);
    if prefix::starts_with(k, uniques_of(table)) {
        assert(k.subrange(0, uniques_of(table).len() as int)[8] == k[8]);
    }
}

// Identities.

/// Whether one value comes before another of its kind.
pub open spec fn before(left: ValueView, right: ValueView) -> bool {
    match (left, right) {
        (ValueView::Boolean(a), ValueView::Boolean(b)) => !a && b,
        (ValueView::Integer(a), ValueView::Integer(b)) => a < b,
        (ValueView::Float(a), ValueView::Float(b)) => float::total_rank(a) < float::total_rank(b),
        (ValueView::Text(a), ValueView::Text(b)) => value::text_before(a, b),
        _ => false,
    }
}

pub open spec fn same_kind(left: ValueView, right: ValueView) -> bool {
    match (left, right) {
        (ValueView::Boolean(_), ValueView::Boolean(_)) => true,
        (ValueView::Integer(_), ValueView::Integer(_)) => true,
        (ValueView::Float(_), ValueView::Float(_)) => true,
        (ValueView::Text(_), ValueView::Text(_)) => true,
        _ => false,
    }
}

proof fn lemma_order_push(a: Seq<u8>, b: Seq<u8>, x: u8, y: u8)
    requires
        a.len() == b.len(),
    ensures
        key::key_lt(a.push(x), b.push(y)) <==> key::key_lt(a, b) || (a == b && x < y),
    decreases a.len(),
{
    reveal_with_fuel(key::key_lt, 3);
    if a.len() == 0 {
        assert(a =~= b);
        assert(a.push(x)[0] == x && b.push(y)[0] == y);
        assert(a.push(x).drop_first() =~= Seq::empty());
        assert(b.push(y).drop_first() =~= Seq::empty());
    } else {
        let rest = a.drop_first();
        let other = b.drop_first();
        lemma_order_push(rest, other, x, y);
        assert(a.push(x).drop_first() =~= rest.push(x));
        assert(b.push(y).drop_first() =~= other.push(y));
        if a[0] == b[0] && rest == other {
            assert(a =~= seq![a[0]] + rest);
            assert(b =~= seq![b[0]] + other);
        }
    }
}

/// Numbers of one width are ordered as their bytes are.
proof fn lemma_number_order(a: nat, b: nat, width: nat)
    requires
        a < bytes::byte_limit(width),
        b < bytes::byte_limit(width),
    ensures
        key::key_lt(bytes::be_bytes(a, width), bytes::be_bytes(b, width)) <==> a < b,
    decreases width,
{
    if width == 0 {
        reveal_with_fuel(key::key_lt, 2);
    } else {
        let less = (width - 1) as nat;
        lemma_number_length(a / 256, less);
        lemma_number_length(b / 256, less);
        lemma_number_order(a / 256, b / 256, less);
        lemma_order_push(
            bytes::be_bytes(a / 256, less),
            bytes::be_bytes(b / 256, less),
            (a % 256) as u8,
            (b % 256) as u8,
        );
        if bytes::be_bytes(a / 256, less) == bytes::be_bytes(b / 256, less) {
            lemma_numbers(a / 256, b / 256, less);
        }
    }
}

proof fn lemma_tag_order(tag: u8, a: Seq<u8>, b: Seq<u8>)
    ensures
        key::key_lt(seq![tag] + a, seq![tag] + b) <==> key::key_lt(a, b),
{
    reveal_with_fuel(key::key_lt, 2);
    assert((seq![tag] + a).drop_first() =~= a);
    assert((seq![tag] + b).drop_first() =~= b);
}

/// Identities of one kind are ordered as the values are.
pub proof fn law_identities_keep_order(left: ValueView, right: ValueView)
    requires
        same_kind(left, right),
        identity_of(left) is Ok,
        identity_of(right) is Ok,
    ensures
        key::key_lt(identity_of(left)->Ok_0, identity_of(right)->Ok_0) <==> before(left, right),
{
    bytes::lemma_byte_limits();
    match (left, right) {
        (ValueView::Boolean(a), ValueView::Boolean(b)) => {
            let x = if a { 1u8 } else { 0u8 };
            let y = if b { 1u8 } else { 0u8 };
            lemma_tag_order(1, seq![x], seq![y]);
            reveal_with_fuel(key::key_lt, 2);
        },
        (ValueView::Integer(a), ValueView::Integer(b)) => {
            let x = (a + float::SIGN) as nat;
            let y = (b + float::SIGN) as nat;
            lemma_tag_order(2, bytes::be_bytes(x, 8), bytes::be_bytes(y, 8));
            lemma_number_order(x, y, 8);
        },
        (ValueView::Float(a), ValueView::Float(b)) => {
            let x = (float::total_rank(a) + float::SIGN) as nat;
            let y = (float::total_rank(b) + float::SIGN) as nat;
            lemma_tag_order(3, bytes::be_bytes(x, 8), bytes::be_bytes(y, 8));
            lemma_number_order(x, y, 8);
        },
        (ValueView::Text(a), ValueView::Text(b)) => {
            lemma_tag_order(4, encode_utf8(a), encode_utf8(b));
        },
        _ => {},
    }
}

/// Rows that are numbered have keys in the order of their numbers.
pub proof fn law_numbered_rows_keep_order(table_id: u64, a: u64, b: u64)
    requires
        a < b,
    ensures
        key::key_lt(
            row_key_of(table_id, bytes::be_bytes(a as nat, 8)),
            row_key_of(table_id, bytes::be_bytes(b as nat, 8)),
        ),
{
    let x = bytes::be_bytes(a as nat, 8);
    let y = bytes::be_bytes(b as nat, 8);
    let first = row_key_of(table_id, x);
    let second = row_key_of(table_id, y);
    bytes::lemma_byte_limits();
    lemma_number_length(a as nat, 8);
    lemma_number_length(b as nat, 8);
    lemma_number_length(8, 4);
    lemma_number_order(a as nat, b as nat, 8);
    let at: int = key::law_order_shows_in_a_difference(x, y);
    let front = rows_of(table_id).len() + 4;
    assert forall|n: int| 0 <= n < front + at implies first[n] == second[n] by {
        if n >= front {
            assert(first[n] == x[n - front]);
            assert(second[n] == y[n - front]);
        }
    }
    assert(first[front + at] == x[at]);
    assert(second[front + at] == y[at]);
    assert(key::parts_below(first, second, front + at));
    key::law_first_difference_decides(first, second, front + at);
}

/// An identity begins with a byte that tells the kind of the value.
proof fn lemma_kind(value: ValueView)
    ensures
        identity_of(value) matches Ok(identity) ==> identity.len() > 0 && identity[0] == (
        match value {
            ValueView::Null => 0u8,
            ValueView::Boolean(_) => 1u8,
            ValueView::Integer(_) => 2u8,
            ValueView::Float(_) => 3u8,
            ValueView::Text(_) => 4u8,
        }),
{
}

/// Different values have different identities.
#[verifier::spinoff_prover]
pub proof fn law_identities_differ(left: ValueView, right: ValueView)
    requires
        identity_of(left) is Ok,
        identity_of(left) == identity_of(right),
    ensures
        left == right,
{
    broadcast use vstd::utf8::encode_utf8_decode_utf8;

    bytes::lemma_byte_limits();
    let a = identity_of(left)->Ok_0;
    let b = identity_of(right)->Ok_0;
    lemma_kind(left);
    lemma_kind(right);
    assert(a[0] == b[0]);
    match (left, right) {
        (ValueView::Boolean(x), ValueView::Boolean(y)) => {
            assert(a[1] == b[1]);
        },
        (ValueView::Integer(x), ValueView::Integer(y)) => {
            let m = (x + float::SIGN) as nat;
            let n = (y + float::SIGN) as nat;
            lemma_pieces(seq![2u8], bytes::be_bytes(m, 8), seq![2u8], bytes::be_bytes(n, 8));
            lemma_numbers(m, n, 8);
        },
        (ValueView::Float(x), ValueView::Float(y)) => {
            let m = (float::total_rank(x) + float::SIGN) as nat;
            let n = (float::total_rank(y) + float::SIGN) as nat;
            lemma_pieces(seq![3u8], bytes::be_bytes(m, 8), seq![3u8], bytes::be_bytes(n, 8));
            lemma_numbers(m, n, 8);
        },
        (ValueView::Text(x), ValueView::Text(y)) => {
            lemma_pieces(seq![4u8], encode_utf8(x), seq![4u8], encode_utf8(y));
            assert(vstd::utf8::decode_utf8(encode_utf8(x)) == x);
            assert(vstd::utf8::decode_utf8(encode_utf8(y)) == y);
        },
        _ => {},
    }
}

// Keys as byte vectors.

fn begun(start: &str) -> (out: Vec<u8>)
    ensures
        out@ == encode_utf8(start@),
{
    copy_bytes(start.as_bytes())
}

fn put_delimited(out: &mut Vec<u8>, component: &[u8])
    ensures
        final(out)@ == old(out)@ + delimited(component@),
{
    put_be(out, component.len() as u64, 4);
    put_bytes(out, component);
    assert(out@ =~= old(out)@ + delimited(component@));
}

/// The key of the number that the next table gets.
pub fn table_id_counter_key() -> (found: Vec<u8>)
    ensures
        found@ == table_counter(),
{
    begun("\0quanta/catalog/next_table_id")
}

/// The key of the number that the next index gets.
pub fn index_id_counter_key() -> (found: Vec<u8>)
    ensures
        found@ == index_counter(),
{
    begun("\0quanta/catalog/next_index_id")
}

fn component_key(start: &str, component: &[u8]) -> (found: Result<Vec<u8>, EngineError>)
    ensures
        match found {
            Ok(found) => component@.len() <= u32::MAX && found@ == encode_utf8(start@) + delimited(
                component@,
            ),
            Err(error) => component@.len() > u32::MAX && error@ == EngineErrorView::InvalidSchema(
                "identifier is too large"@,
            ),
        },
{
    if component.len() as u64 > u32::MAX as u64 {
        return Err(EngineError::InvalidSchema(String::from_str("identifier is too large")));
    }
    let mut out = begun(start);
    put_delimited(&mut out, component);
    Ok(out)
}

/// The key of a table's schema.
pub fn catalog_key(name: &str) -> (found: Result<Vec<u8>, EngineError>)
    ensures
        match found {
            Ok(found) => encode_utf8(name@).len() <= u32::MAX && found@ == catalog_key_of(name@),
            Err(error) => encode_utf8(name@).len() > u32::MAX && error@
                == EngineErrorView::InvalidSchema("identifier is too large"@),
        },
{
    component_key("\0quanta/catalog/table/", name.as_bytes())
}

/// The key of an index's schema.
pub fn index_catalog_key(name: &str) -> (found: Result<Vec<u8>, EngineError>)
    ensures
        match found {
            Ok(found) => encode_utf8(name@).len() <= u32::MAX && found@ == index_catalog_key_of(
                name@,
            ),
            Err(error) => encode_utf8(name@).len() > u32::MAX && error@
                == EngineErrorView::InvalidSchema("identifier is too large"@),
        },
{
    component_key("\0quanta/catalog/index/", name.as_bytes())
}

/// What the keys of all index schemas begin with.
pub fn index_catalog_prefix() -> (found: Vec<u8>)
    ensures
        found@ == index_catalog_start(),
{
    begun("\0quanta/catalog/index/")
}

/// What the keys of a table's rows begin with.
pub fn row_prefix(table_id: u64) -> (found: Vec<u8>)
    ensures
        found@ == rows_of(table_id),
{
    let mut out = begun("\0quanta/row/");
    put_be(&mut out, table_id, 8);
    out
}

/// What the keys of a table's unique values begin with.
pub fn unique_prefix(table_id: u64) -> (found: Vec<u8>)
    ensures
        found@ == uniques_of(table_id),
{
    let mut out = begun("\0quanta/unique/");
    put_be(&mut out, table_id, 8);
    out
}

/// The key of a row.
pub fn row_key(table_id: u64, identity: &[u8]) -> (found: Result<Vec<u8>, EngineError>)
    ensures
        match found {
            Ok(found) => identity@.len() <= u32::MAX && found@ == row_key_of(table_id, identity@),
            Err(error) => identity@.len() > u32::MAX && error@ == EngineErrorView::InvalidRow(
                "row identity is too large"@,
            ),
        },
{
    if identity.len() as u64 > u32::MAX as u64 {
        return Err(EngineError::InvalidRow(String::from_str("row identity is too large")));
    }
    let mut out = row_prefix(table_id);
    put_delimited(&mut out, identity);
    Ok(out)
}

/// The key under which a table keeps the owner of a unique value.
pub open spec fn unique_key_result(table_id: u64, column: nat, value: ValueView) -> Result<
    Seq<u8>,
    EngineErrorView,
> {
    if column > u32::MAX {
        Err(EngineErrorView::InvalidSchema("column position exceeds u32"@))
    } else {
        match identity_of(value) {
            Err(error) => Err(error),
            Ok(identity) => Ok(unique_key_of(table_id, column, identity)),
        }
    }
}

/// The key under which a table keeps the owner of a unique value.
pub fn unique_key(table_id: u64, column: usize, value: &Value) -> (found: Result<
    Vec<u8>,
    EngineError,
>)
    ensures
        match found {
            Ok(found) => unique_key_result(table_id, column as nat, value@) == Ok::<
                Seq<u8>,
                EngineErrorView,
            >(found@),
            Err(error) => unique_key_result(table_id, column as nat, value@) == Err::<
                Seq<u8>,
                EngineErrorView,
            >(error@),
        },
{
    if column as u64 > u32::MAX as u64 {
        return Err(EngineError::InvalidSchema(String::from_str("column position exceeds u32")));
    }
    let identity = match encode_identity(value) {
        Ok(identity) => identity,
        Err(error) => {
            return Err(error);
        },
    };
    let mut out = unique_prefix(table_id);
    put_be(&mut out, column as u64, 4);
    put_delimited(&mut out, identity.as_slice());
    assert(out@ =~= unique_key_of(table_id, column as nat, identity@));
    Ok(out)
}

/// The bytes that a value is told by and ordered by.
pub fn encode_identity(value: &Value) -> (identity: Result<Vec<u8>, EngineError>)
    ensures
        match identity {
            Ok(identity) => identity_of(value@) == Ok::<Seq<u8>, EngineErrorView>(identity@),
            Err(error) => identity_of(value@) == Err::<Seq<u8>, EngineErrorView>(error@),
        },
{
    let mut out: Vec<u8> = Vec::new();
    match value {
        Value::Null => {
            return Err(
                EngineError::ConstraintViolation(String::from_str("primary key cannot be NULL")),
            );
        },
        Value::Boolean(set) => {
            out.push(1);
            out.push(if *set { 1 } else { 0 });
            assert(out@ =~= identity_of(value@)->Ok_0);
        },
        Value::Integer(number) => {
            out.push(2);
            put_be(&mut out, (*number as i128 + float::SIGN as i128) as u64, 8);
            assert(out@ =~= identity_of(value@)->Ok_0);
        },
        Value::Float(bits) => {
            if !finite(*bits) {
                return Err(
                    EngineError::InvalidRow(
                        String::from_str("primary key cannot be a non-finite float"),
                    ),
                );
            }
            out.push(3);
            put_be(&mut out, (total_rank_of(*bits) + float::SIGN as i128) as u64, 8);
            assert(out@ =~= identity_of(value@)->Ok_0);
        },
        Value::Text(content) => {
            out.push(4);
            put_bytes(&mut out, content.as_str().as_bytes());
            assert(out@ =~= identity_of(value@)->Ok_0);
        },
    }
    Ok(out)
}

/// A number as eight bytes.
pub fn encode_u64(value: u64) -> (encoded: Vec<u8>)
    ensures
        encoded@ == bytes::be_bytes(value as nat, 8),
{
    let mut out: Vec<u8> = Vec::new();
    put_be(&mut out, value, 8);
    assert(out@ =~= bytes::be_bytes(value as nat, 8));
    out
}

/// The number that eight bytes hold.
pub open spec fn number_decoded(encoded: Seq<u8>) -> Result<u64, EngineErrorView> {
    if encoded.len() == 8 {
        Ok(bytes::from_be(encoded) as u64)
    } else {
        Err(
            EngineErrorView::CorruptRecord(
                "expected an 8-byte integer, got "@ + text::decimal(encoded.len()) + ""@,
            ),
        )
    }
}

/// A stored number reads back as it was written.
pub proof fn law_number_round_trip(value: u64)
    ensures
        number_decoded(bytes::be_bytes(value as nat, 8)) == Ok::<u64, EngineErrorView>(value),
{
    bytes::lemma_byte_limits();
    bytes::lemma_be_round_trip(value as nat, 8);
}

/// The number that eight bytes hold.
pub fn decode_u64(encoded: &[u8]) -> (value: Result<u64, EngineError>)
    ensures
        match value {
            Ok(value) => number_decoded(encoded@) == Ok::<u64, EngineErrorView>(value),
            Err(error) => number_decoded(encoded@) == Err::<u64, EngineErrorView>(error@),
        },
{
    if encoded.len() != 8 {
        return Err(
            EngineError::CorruptRecord(
                text_with_number("expected an 8-byte integer, got ", encoded.len() as u64, ""),
            ),
        );
    }
    assert(encoded@.subrange(0, 8) =~= encoded@);
    Ok(get_be(encoded, 0, 8))
}

// Index entries.

/// An index, as far as the keys of its entries depend on it.
#[derive(Clone, Copy, Debug, PartialEq, Eq, Structural)]
pub struct IndexSchema {
    pub id: u64,
    pub unique: bool,
}

/// The identities of values, or the failure of the first value that has none.
pub open spec fn identities_of(values: Seq<ValueView>) -> Result<Seq<Seq<u8>>, EngineErrorView>
    decreases values.len(),
{
    if values.len() == 0 {
        Ok(Seq::empty())
    } else {
        match identities_of(values.drop_last()) {
            Err(error) => Err(error),
            Ok(front) => match identity_of(values.last()) {
                Err(error) => Err(error),
                Ok(identity) => if identity.len() > u32::MAX {
                    Err(EngineErrorView::InvalidRow("indexed value is too large"@))
                } else {
                    Ok(front.push(identity))
                },
            },
        }
    }
}

/// What the keys of the entries for rows with these values begin with.
pub open spec fn value_prefix_of(index_id: u64, values: Seq<ValueView>) -> Result<
    Seq<u8>,
    EngineErrorView,
> {
    match identities_of(values) {
        Err(error) => Err(error),
        Ok(identities) => Ok(entries_of(index_id) + identities_image(identities)),
    }
}

/// The key of a row's entry.
pub open spec fn entry_key_of(index: IndexSchema, values: Seq<ValueView>, row: Seq<u8>) -> Result<
    Seq<u8>,
    EngineErrorView,
> {
    match value_prefix_of(index.id, values) {
        Err(error) => Err(error),
        Ok(start) => if index.unique {
            Ok(start)
        } else if row.len() > u32::MAX {
            Err(EngineErrorView::InvalidRow("row key is too large"@))
        } else {
            Ok(start + delimited(row))
        },
    }
}

pub proof fn lemma_identities_front(values: Seq<ValueView>, count: int)
    requires
        identities_of(values) is Ok,
        0 <= count <= values.len(),
    ensures
        identities_of(values.take(count)) is Ok,
        identities_of(values)->Ok_0.len() == values.len(),
        identities_of(values.take(count))->Ok_0 == identities_of(values)->Ok_0.take(count),
    decreases values.len(),
{
    if values.len() > 0 {
        lemma_identities_front(values.drop_last(), values.len() - 1);
        if count < values.len() {
            lemma_identities_front(values.drop_last(), count);
            assert(values.drop_last().take(count) =~= values.take(count));
            assert(identities_of(values)->Ok_0.take(count) =~= identities_of(
                values.drop_last(),
            )->Ok_0.take(count));
        } else {
            assert(values.take(count) =~= values);
            assert(identities_of(values)->Ok_0.take(count) =~= identities_of(values)->Ok_0);
        }
    } else {
        assert(values.take(count) =~= values);
        assert(identities_of(values)->Ok_0.take(count) =~= identities_of(values)->Ok_0);
    }
}

proof fn lemma_image_front(identities: Seq<Seq<u8>>, count: int)
    requires
        0 <= count <= identities.len(),
    ensures
        prefix::starts_with(
            identities_image(identities),
            identities_image(identities.take(count)),
        ),
    decreases identities.len(),
{
    if count == identities.len() {
        assert(identities.take(count) =~= identities);
        let all = identities_image(identities);
        assert(all.take(all.len() as int) =~= all);
    } else {
        let front = identities.drop_last();
        lemma_image_front(front, count);
        assert(front.take(count) =~= identities.take(count));
        let part = identities_image(identities.take(count));
        assert(identities_image(identities).take(part.len() as int) =~= identities_image(
            front,
        ).take(part.len() as int));
    }
}

/// Fewer identities take fewer bytes.
proof fn lemma_image_grows(identities: Seq<Seq<u8>>, count: int)
    requires
        0 <= count < identities.len(),
    ensures
        identities_image(identities.take(count)).len() < identities_image(identities).len(),
    decreases identities.len(),
{
    let front = identities.drop_last();
    lemma_number_length(identities.last().len(), 4);
    assert(delimited(identities.last()).len() > 0);
    assert(front.take(count) =~= identities.take(count));
    if count < front.len() {
        lemma_image_grows(front, count);
    } else {
        assert(front.take(count) =~= front);
    }
}

/// The entries for a shorter list of leading values are those whose keys begin with its prefix:
/// the prefix of all values begins with the prefix of the leading ones, and is longer than it
/// where values were left out.
pub proof fn law_leading_columns(index_id: u64, values: Seq<ValueView>, count: int)
    requires
        value_prefix_of(index_id, values) is Ok,
        0 <= count <= values.len(),
    ensures
        value_prefix_of(index_id, values.take(count)) is Ok,
        prefix::starts_with(
            value_prefix_of(index_id, values)->Ok_0,
            value_prefix_of(index_id, values.take(count))->Ok_0,
        ),
        count < values.len() ==> value_prefix_of(index_id, values.take(count))->Ok_0.len()
            < value_prefix_of(index_id, values)->Ok_0.len(),
{
    lemma_identities_front(values, count);
    lemma_identities_front(values, values.len() as int);
    let identities = identities_of(values)->Ok_0;
    if count < values.len() {
        lemma_image_grows(identities, count);
    }
    lemma_image_front(identities, count);
    let start = entries_of(index_id);
    let part = identities_image(identities.take(count));
    let whole = start + identities_image(identities);
    assert(whole.take((start + part).len() as int) =~= start + identities_image(identities).take(
        part.len() as int,
    ));
}

proof fn lemma_images_differ(a: Seq<Seq<u8>>, b: Seq<Seq<u8>>)
    requires
        identities_image(a) == identities_image(b),
        forall|i: int| 0 <= i < a.len() ==> (#[trigger] a[i]).len() <= u32::MAX,
        forall|i: int| 0 <= i < b.len() ==> (#[trigger] b[i]).len() <= u32::MAX,
    ensures
        a == b,
    decreases a.len(),
{
    if a.len() > 0 {
        lemma_image_grows(a, 0);
    }
    if b.len() > 0 {
        lemma_image_grows(b, 0);
    }
    if a.len() == 0 || b.len() == 0 {
        assert(a.take(0) =~= Seq::empty());
        assert(b.take(0) =~= Seq::empty());
        assert(a =~= b);
    } else {
        lemma_split(a);
        lemma_split(b);
        let x = a.drop_first();
        let y = b.drop_first();
        bytes::lemma_byte_limits();
        lemma_number_length(a[0].len(), 4);
        lemma_number_length(b[0].len(), 4);
        assert(delimited(a[0]) + identities_image(x) =~= bytes::be_bytes(a[0].len(), 4) + (a[0]
            + identities_image(x)));
        assert(delimited(b[0]) + identities_image(y) =~= bytes::be_bytes(b[0].len(), 4) + (b[0]
            + identities_image(y)));
        lemma_pieces(
            bytes::be_bytes(a[0].len(), 4),
            a[0] + identities_image(x),
            bytes::be_bytes(b[0].len(), 4),
            b[0] + identities_image(y),
        );
        lemma_numbers(a[0].len(), b[0].len(), 4);
        lemma_pieces(a[0], identities_image(x), b[0], identities_image(y));
        assert forall|i: int| 0 <= i < x.len() implies (#[trigger] x[i]).len() <= u32::MAX by {
            assert(x[i] == a[i + 1]);
        }
        assert forall|i: int| 0 <= i < y.len() implies (#[trigger] y[i]).len() <= u32::MAX by {
            assert(y[i] == b[i + 1]);
        }
        lemma_images_differ(x, y);
        assert(a =~= seq![a[0]] + x);
        assert(b =~= seq![b[0]] + y);
    }
}

proof fn lemma_split(identities: Seq<Seq<u8>>)
    requires
        identities.len() > 0,
    ensures
        identities_image(identities) == delimited(identities[0]) + identities_image(
            identities.drop_first(),
        ),
    decreases identities.len(),
{
    if identities.len() == 1 {
        assert(identities.drop_last() =~= Seq::empty());
        assert(identities.drop_first() =~= Seq::empty());
        assert(identities_image(identities) =~= delimited(identities[0]) + identities_image(
            identities.drop_first(),
        ));
    } else {
        let front = identities.drop_last();
        lemma_split(front);
        let rest = identities.drop_first();
        assert(rest.drop_last() =~= front.drop_first());
        assert(identities_image(identities) =~= delimited(identities[0]) + (identities_image(
            front.drop_first(),
        ) + delimited(identities.last())));
    }
}

proof fn lemma_identities_small(values: Seq<ValueView>, i: int)
    requires
        identities_of(values) is Ok,
        0 <= i < values.len(),
    ensures
        identities_of(values)->Ok_0.len() == values.len(),
        identities_of(values)->Ok_0[i].len() <= u32::MAX,
        identity_of(values[i]) == Ok::<Seq<u8>, EngineErrorView>(identities_of(values)->Ok_0[i]),
    decreases values.len(),
{
    lemma_identities_front(values, values.len() as int);
    if i < values.len() - 1 {
        lemma_identities_small(values.drop_last(), i);
        lemma_identities_front(values.drop_last(), values.len() - 1);
    } else {
        lemma_identities_front(values.drop_last(), values.len() - 1);
    }
}

/// Two rows have the same entry in an index only where their indexed values are the same, and, in
/// an index that is not unique, where they are the same row.
pub proof fn law_entries_differ(
    index: IndexSchema,
    left: Seq<ValueView>,
    first: Seq<u8>,
    right: Seq<ValueView>,
    second: Seq<u8>,
)
    requires
        left.len() == right.len(),
        entry_key_of(index, left, first) is Ok,
        entry_key_of(index, left, first) == entry_key_of(index, right, second),
    ensures
        left == right,
        !index.unique ==> first == second,
{
    let a = identities_of(left)->Ok_0;
    let b = identities_of(right)->Ok_0;
    lemma_identities_front(left, left.len() as int);
    lemma_identities_front(right, right.len() as int);
    assert forall|i: int| 0 <= i < left.len() implies (#[trigger] a[i]).len() <= u32::MAX by {
        lemma_identities_small(left, i);
    }
    assert forall|i: int| 0 <= i < right.len() implies (#[trigger] b[i]).len() <= u32::MAX by {
        lemma_identities_small(right, i);
    }
    let start = entries_of(index.id);
    if index.unique {
        lemma_pieces(start, identities_image(a), start, identities_image(b));
        lemma_images_differ(a, b);
    } else {
        let x = a.push(first);
        let y = b.push(second);
        assert(x.drop_last() =~= a);
        assert(y.drop_last() =~= b);
        assert(start + identities_image(a) + delimited(first) =~= start + identities_image(x));
        assert(start + identities_image(b) + delimited(second) =~= start + identities_image(y));
        lemma_pieces(start, identities_image(x), start, identities_image(y));
        lemma_images_differ(x, y);
        assert(x.last() == y.last());
    }
    assert(left =~= right) by {
        assert forall|i: int| 0 <= i < left.len() implies left[i] == right[i] by {
            lemma_identities_small(left, i);
            lemma_identities_small(right, i);
            law_identities_differ(left[i], right[i]);
        }
    }
}

/// Two lists of values have the same prefix only in the same index and where they are the same
/// list: neither another index nor another number of columns gives it.
pub proof fn law_value_prefixes_differ(
    first: u64,
    left: Seq<ValueView>,
    second: u64,
    right: Seq<ValueView>,
)
    requires
        value_prefix_of(first, left) is Ok,
        value_prefix_of(first, left) == value_prefix_of(second, right),
    ensures
        first == second,
        left == right,
{
    let a = identities_of(left)->Ok_0;
    let b = identities_of(right)->Ok_0;
    lemma_identities_front(left, left.len() as int);
    lemma_identities_front(right, right.len() as int);
    assert forall|i: int| 0 <= i < left.len() implies (#[trigger] a[i]).len() <= u32::MAX by {
        lemma_identities_small(left, i);
    }
    assert forall|i: int| 0 <= i < right.len() implies (#[trigger] b[i]).len() <= u32::MAX by {
        lemma_identities_small(right, i);
    }
    lemma_number_length(first as nat, 8);
    lemma_number_length(second as nat, 8);
    lemma_pieces(entries_of(first), identities_image(a), entries_of(second), identities_image(b));
    lemma_pieces(
        index_start(),
        bytes::be_bytes(first as nat, 8),
        index_start(),
        bytes::be_bytes(second as nat, 8),
    );
    bytes::lemma_byte_limits();
    lemma_numbers(first as nat, second as nat, 8);
    lemma_images_differ(a, b);
    assert(left =~= right) by {
        assert forall|i: int| 0 <= i < left.len() implies left[i] == right[i] by {
            lemma_identities_small(left, i);
            lemma_identities_small(right, i);
            law_identities_differ(left[i], right[i]);
        }
    }
}

/// What the keys of an index's entries begin with.
pub fn index_entry_prefix(index_id: u64) -> (found: Vec<u8>)
    ensures
        found@ == entries_of(index_id),
{
    let mut out = begun("\0quanta/index/");
    put_be(&mut out, index_id, 8);
    out
}

proof fn lemma_identities_stop(values: Seq<ValueView>, count: int)
    requires
        0 <= count <= values.len(),
        identities_of(values.take(count)) is Err,
    ensures
        identities_of(values) == identities_of(values.take(count)),
    decreases values.len(),
{
    if count == values.len() {
        assert(values.take(count) =~= values);
    } else {
        assert(values.drop_last().take(count) =~= values.take(count));
        lemma_identities_stop(values.drop_last(), count);
    }
}

/// What the keys of the entries for rows with these values begin with.
pub fn index_value_prefix(index_id: u64, values: &[Value]) -> (found: Result<
    Vec<u8>,
    EngineError,
>)
    ensures
        match found {
            Ok(found) => value_prefix_of(index_id, value::value_views(values@)) == Ok::<
                Seq<u8>,
                EngineErrorView,
            >(found@),
            Err(error) => value_prefix_of(index_id, value::value_views(values@)) == Err::<
                Seq<u8>,
                EngineErrorView,
            >(error@),
        },
{
    let ghost views = value::value_views(values@);
    let mut out = index_entry_prefix(index_id);
    let mut index: usize = 0;
    proof {
        assert(views.take(0) =~= Seq::empty());
        assert(out@ =~= entries_of(index_id) + identities_image(Seq::empty()));
    }
    while index < values.len()
        invariant
            index <= values@.len(),
            views == value::value_views(values@),
            identities_of(views.take(index as int)) is Ok,
            out@ == entries_of(index_id) + identities_image(
                identities_of(views.take(index as int))->Ok_0,
            ),
        decreases values@.len() - index,
    {
        let ghost more = views.take(index + 1);
        proof {
            assert(more.drop_last() =~= views.take(index as int));
            assert(more.last() == values@[index as int]@);
        }
        match encode_identity(&values[index]) {
            Err(error) => {
                proof {
                    lemma_identities_stop(views, index + 1);
                }
                return Err(error);
            },
            Ok(identity) => {
                if identity.len() as u64 > u32::MAX as u64 {
                    proof {
                        lemma_identities_stop(views, index + 1);
                    }
                    return Err(
                        EngineError::InvalidRow(String::from_str("indexed value is too large")),
                    );
                }
                put_delimited(&mut out, identity.as_slice());
                proof {
                    let known = identities_of(more)->Ok_0;
                    assert(known.drop_last() =~= identities_of(more.drop_last())->Ok_0);
                    assert(out@ =~= entries_of(index_id) + identities_image(known));
                }
            },
        }
        index = index + 1;
    }
    assert(views.take(index as int) =~= views);
    Ok(out)
}

/// The key of a row's entry in an index: where the index is unique, rows with the same values
/// have the same one.
pub fn index_entry_key(index: &IndexSchema, values: &[Value], row: &[u8]) -> (found: Result<
    Vec<u8>,
    EngineError,
>)
    ensures
        match found {
            Ok(found) => entry_key_of(*index, value::value_views(values@), row@) == Ok::<
                Seq<u8>,
                EngineErrorView,
            >(found@),
            Err(error) => entry_key_of(*index, value::value_views(values@), row@) == Err::<
                Seq<u8>,
                EngineErrorView,
            >(error@),
        },
{
    match index_value_prefix(index.id, values) {
        Err(error) => Err(error),
        Ok(start) => {
            let mut out = start;
            if !index.unique {
                if row.len() as u64 > u32::MAX as u64 {
                    return Err(EngineError::InvalidRow(String::from_str("row key is too large")));
                }
                put_delimited(&mut out, row);
            }
            Ok(out)
        },
    }
}

} // verus!
