//! What a parsed statement asks for, word by word.
use crate::server::sql::meaning;
use crate::server::sql::meaning::RowScope;
use crate::server::sql::parser;
use crate::server::sql::parser::ParseStopView;
use crate::server::sql::statements::{ConditionView, StatementView};
use crate::server::sql::tree::{
    ColumnTreeView, ExprShapeView, ExprTreeView, FactorTreeView, ItemTreeView, OperatorTreeView,
    QueryTreeView, StatementTreeView, TypeTreeView, ValueTreeView,
};
use crate::server::storage::types::{DataType, ValueView};
use crate::text;
use vstd::prelude::*;

verus! {

/// An integer is read as its digits say, with a minus sign or without, where it fits in 64 bits.
pub proof fn law_integers_are_read(number: int)
    ensures
        i64::MIN <= number <= i64::MAX ==> parser::integer_read(text::signed_decimal(number))
            == Some(number),
        !(i64::MIN <= number <= i64::MAX) ==> parser::integer_read(text::signed_decimal(number)) is None,
{
    reveal_strlit("-");
    let shown = text::signed_decimal(number);
    if number < 0 {
        let digits = text::decimal((-number) as nat);
        text::lemma_decimal((-number) as nat);
        text::law_decimal_reads_back((-number) as nat, 0x8000_0000_0000_0000);
        assert(text::is_digit(digits[0]));
        assert(shown[1] == digits[0]);
        assert(shown.drop_first() =~= digits);
    } else {
        text::lemma_decimal(number as nat);
        text::law_decimal_reads_back(number as nat, i64::MAX as nat);
        assert(text::is_digit(shown[0]));
    }
}

/// Whether a literal stands for a value.
pub open spec fn stands_for(literal: ValueTreeView, value: ValueView) -> bool {
    match literal {
        ValueTreeView::Number(digits) => forall|number: int|
            i64::MIN <= number <= i64::MAX && digits == #[trigger] text::signed_decimal(number)
                ==> value == ValueView::Int(number as i64),
        ValueTreeView::SingleQuoted(content) => value == ValueView::Text(content),
        ValueTreeView::DoubleQuoted(content) => value == ValueView::Text(content),
        ValueTreeView::Boolean(set) => value == ValueView::Bool(set),
        ValueTreeView::Other { .. } => false,
    }
}

/// A literal that is read stands for its value: digits for the number, quoted text for the text, and a
/// truth for itself.
pub proof fn law_literals_are_read(
    literal: ValueTreeView,
    readings: Map<Seq<char>, Option<u64>>,
    value: ValueView,
)
    requires
        parser::value_read(literal, readings) == Ok::<ValueView, ParseStopView>(value),
    ensures
        stands_for(literal, value),
{
    if let ValueTreeView::Number(digits) = literal {
        assert forall|number: int|
            i64::MIN <= number <= i64::MAX && digits == #[trigger] text::signed_decimal(
                number,
            ) implies value == ValueView::Int(number as i64) by {
            law_integers_are_read(number);
            lemma_no_point(number);
        }
    }
}

proof fn lemma_no_point(number: int)
    ensures
        !text::signed_decimal(number).contains('.'),
{
    reveal_strlit("-");
    let shown = text::signed_decimal(number);
    let size = if number < 0 {
        (-number) as nat
    } else {
        number as nat
    };
    let digits = text::decimal(size);
    text::lemma_decimal(size);
    if shown.contains('.') {
        let i = shown.index_of('.');
        if number < 0 {
            assert(i > 0);
            assert(shown[i] == digits[i - 1]);
            assert(text::is_digit(digits[i - 1]));
        } else {
            assert(text::is_digit(digits[i]));
        }
    }
}

/// The values of a row to insert are read one by one, in the order in which they stand.
pub proof fn law_rows_are_read_in_order(
    exprs: Seq<ExprTreeView>,
    readings: Map<Seq<char>, Option<u64>>,
    values: Seq<ValueView>,
    i: int,
)
    requires
        parser::literals_read(exprs, readings) == Ok::<Seq<ValueView>, ParseStopView>(values),
    ensures
        values.len() == exprs.len(),
        0 <= i < exprs.len() ==> (exprs[i].shape matches ExprShapeView::Value(literal)
            && stands_for(literal, values[i])),
    decreases exprs.len(),
{
    if exprs.len() > 0 {
        let fewer = exprs.drop_last();
        let front = parser::literals_read(fewer, readings)->Ok_0;
        law_rows_are_read_in_order(fewer, readings, front, i);
        if 0 <= i < fewer.len() {
            assert(fewer[i] == exprs[i]);
            assert(front[i] == values[i]);
        } else if i == fewer.len() {
            law_literals_are_read(exprs[i].shape->Value_0, readings, values[i]);
        }
    }
}

/// Whether a word for a type stands for the type.
pub open spec fn is_type(word: TypeTreeView, data_type: DataType) -> bool {
    match data_type {
        DataType::Int => word is Int,
        DataType::Text => word is Varchar || word is Text,
        DataType::Bool => word is Boolean,
        DataType::Float => word is Float || word is Double,
    }
}

/// The columns of a new table are those that are listed, in their order, with their names and types; it is
/// refused only where the word for a type is not known.
pub proof fn law_columns_are_read_in_order(columns: Seq<ColumnTreeView>, i: int)
    ensures
        parser::columns_made(columns) matches Ok(made) ==> {
            &&& made.len() == columns.len()
            &&& 0 <= i < columns.len() ==> made[i].name == columns[i].name && is_type(
                columns[i].data_type,
                made[i].data_type,
            )
        },
        parser::columns_made(columns) is Err <==> exists|j: int|
            0 <= j < columns.len() && (#[trigger] columns[j]).data_type is Other,
    decreases columns.len(),
{
    if columns.len() > 0 {
        let fewer = columns.drop_last();
        law_columns_are_read_in_order(fewer, i);
        if 0 <= i < fewer.len() {
            assert(fewer[i] == columns[i]);
        }
        assert(columns.last() == columns[columns.len() - 1]);
        if exists|j: int| 0 <= j < columns.len() && (#[trigger] columns[j]).data_type is Other {
            let j = choose|j: int|
                0 <= j < columns.len() && (#[trigger] columns[j]).data_type is Other;
            if j < fewer.len() {
                assert(fewer[j].data_type is Other);
            }
        }
        if exists|j: int| 0 <= j < fewer.len() && (#[trigger] fewer[j]).data_type is Other {
            let j = choose|j: int| 0 <= j < fewer.len() && (#[trigger] fewer[j]).data_type is Other;
            assert(columns[j] == fewer[j]);
        }
    }
}

/// Whether a comparison that is written with an operator holds of two numbers.
pub open spec fn holds(operator: OperatorTreeView, a: int, b: int) -> bool {
    match operator {
        OperatorTreeView::Eq => a == b,
        OperatorTreeView::NotEq => a != b,
        OperatorTreeView::Lt => a < b,
        OperatorTreeView::Gt => a > b,
        OperatorTreeView::LtEq => a <= b,
        OperatorTreeView::GtEq => a >= b,
        OperatorTreeView::Other { .. } => false,
    }
}

/// Whether a side of a comparison, as it is written, has a value for a row: a name that of its column, and
/// a literal that which it stands for.
pub open spec fn side_is(
    side: ExprTreeView,
    scope: RowScope,
    readings: Map<Seq<char>, Option<u64>>,
    value: ValueView,
) -> bool {
    match side.shape {
        ExprShapeView::Identifier(name) => exists|c: int| #[trigger]
            meaning::is_named(scope.columns, c, name) && c < scope.row.len() && scope.row[c]
                == value,
        ExprShapeView::Value(literal) => parser::value_read(literal, readings) == Ok::<
            ValueView,
            ParseStopView,
        >(value),
        _ => false,
    }
}

proof fn lemma_side(
    side: ExprTreeView,
    scope: RowScope,
    readings: Map<Seq<char>, Option<u64>>,
    value: ValueView,
)
    requires
        side_is(side, scope, readings, value),
        scope.row.len() == scope.columns.len(),
    ensures
        parser::side_read(side, readings) matches Ok(read) && meaning::gives(read, scope, value),
{
    if let ExprShapeView::Identifier(name) = side.shape {
        let c = choose|c: int| #[trigger]
            meaning::is_named(scope.columns, c, name) && c < scope.row.len() && scope.row[c]
                == value;
        meaning::law_operands(name, value, scope, c);
    }
}

/// A comparison of two integers says of a row what its operator says of the numbers.
pub proof fn law_comparisons_mean_what_they_say(
    left: ExprTreeView,
    operator: OperatorTreeView,
    right: ExprTreeView,
    shown: Seq<char>,
    readings: Map<Seq<char>, Option<u64>>,
    scope: RowScope,
    a: i64,
    b: i64,
)
    requires
        scope.row.len() == scope.columns.len(),
        side_is(left, scope, readings, ValueView::Int(a)),
        side_is(right, scope, readings, ValueView::Int(b)),
        !(operator is Other),
    ensures
        parser::condition_read(
            ExprTreeView {
                shape: ExprShapeView::Binary {
                    left: Box::new(left),
                    operator,
                    right: Box::new(right),
                },
                shown,
            },
            readings,
        ) matches Ok(condition) && meaning::says(
            condition,
            scope,
            holds(operator, a as int, b as int),
        ),
{
    lemma_side(left, scope, readings, ValueView::Int(a));
    lemma_side(right, scope, readings, ValueView::Int(b));
    let first = parser::side_read(left, readings)->Ok_0;
    let second = parser::side_read(right, readings)->Ok_0;
    meaning::law_ordered_values_compare(
        first,
        second,
        scope,
        ValueView::Int(a),
        ValueView::Int(b),
        0,
    );
}

/// Brackets round a condition change nothing of what it says.
pub proof fn law_brackets_change_nothing(
    inner: ExprTreeView,
    shown: Seq<char>,
    readings: Map<Seq<char>, Option<u64>>,
    condition: ConditionView,
    scope: RowScope,
    yes: bool,
)
    requires
        parser::condition_read(inner, readings) == Ok::<ConditionView, ParseStopView>(condition),
        meaning::says(condition, scope, yes),
    ensures
        parser::condition_read(
            ExprTreeView { shape: ExprShapeView::Nested(Box::new(inner)), shown },
            readings,
        ) matches Ok(outer) && meaning::says(outer, scope, yes),
{
    meaning::law_conditions_join(condition, condition, scope, yes);
}

/// A query is read as what it says: one table, all columns or those that it names in their order, and its
/// condition.
pub proof fn law_queries_are_read(
    from: Seq<FactorTreeView>,
    projection: Seq<ItemTreeView>,
    selection: Option<ExprTreeView>,
    readings: Map<Seq<char>, Option<u64>>,
    read: StatementView,
    i: int,
)
    requires
        parser::statement_read(
            StatementTreeView::Query(QueryTreeView::Select { from, projection, selection }),
            readings,
        ) == Ok::<StatementView, ParseStopView>(read),
    ensures
        read matches StatementView::Select { table_name, columns, condition } && {
            &&& from == seq![FactorTreeView::Table { name: seq![table_name] }]
            &&& columns is None <==> projection == seq![ItemTreeView::Wildcard]
            &&& columns matches Some(names) ==> names.len() == projection.len() && (0 <= i
                < projection.len() ==> projection[i] == (ItemTreeView::Column { name: names[i] }))
            &&& condition is None <==> selection is None
            &&& selection matches Some(expr) ==> parser::condition_read(expr, readings) == Ok::<
                ConditionView,
                ParseStopView,
            >(condition->Some_0)
        },
{
    let table_name = read->Select_table_name;
    let name = from[0]->Table_name;
    assert(name =~= seq![table_name]);
    assert(from =~= seq![FactorTreeView::Table { name: seq![table_name] }]);
    if projection.len() == 1 && projection[0] is Wildcard {
        assert(projection =~= seq![ItemTreeView::Wildcard]);
    } else {
        lemma_names_read(projection, i);
    }
}

proof fn lemma_names_read(items: Seq<ItemTreeView>, i: int)
    ensures
        parser::names_read(items) matches Ok(names) ==> names.len() == items.len() && (0 <= i
            < items.len() ==> items[i] == (ItemTreeView::Column { name: names[i] })),
    decreases items.len(),
{
    if items.len() > 0 {
        let fewer = items.drop_last();
        lemma_names_read(fewer, i);
        if 0 <= i < fewer.len() {
            assert(fewer[i] == items[i]);
        }
    }
}

} // verus!
