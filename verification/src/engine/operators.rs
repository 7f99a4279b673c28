//! What the operators of expressions mean, told by the numbers, texts and truths that they work on.
use crate::engine::delete;
use crate::engine::error::{EngineErrorView, StopView};
use crate::engine::exact;
use crate::engine::expression;
use crate::engine::float;
use crate::engine::float::{FloatOperation, FloatRequest};
use crate::engine::schema;
use crate::engine::schema::{ColumnView, LogicalType};
use crate::engine::sort;
use crate::engine::value::ValueView;
use crate::index::key;
use crate::syntax::{BinaryOperator, Expr, Identifier, Literal, UnaryOperator};
use vstd::prelude::*;
use vstd::utf8::encode_utf8;

verus! {

/// The row that an expression is about, with the names of its columns and the known results of float
/// arithmetic.
pub struct Scope {
    pub columns: Seq<ColumnView>,
    pub row: Seq<ValueView>,
    pub floats: Map<FloatRequest, u64>,
}

/// Whether an expression has a value.
pub open spec fn gives(expr: Expr, scope: Scope, value: ValueView) -> bool {
    expression::evaluated(expr, scope.columns, scope.row, scope.floats) == Ok::<
        ValueView,
        StopView,
    >(value)
}

/// Whether an expression is a truth or a falsehood.
pub open spec fn says(expr: Expr, scope: Scope, truth: bool) -> bool {
    gives(expr, scope, ValueView::Boolean(truth))
}

/// Whether an expression has no value, for a reason that lies in the expression.
pub open spec fn fails(expr: Expr, scope: Scope) -> bool {
    expression::evaluated(expr, scope.columns, scope.row, scope.floats) matches Err(stop)
        && stop matches StopView::Error(EngineErrorView::Expression(_))
}

/// Two expressions joined by an operator.
pub open spec fn joined(left: Expr, operator: BinaryOperator, right: Expr) -> Expr {
    Expr::Binary { left: Box::new(left), operator, right: Box::new(right) }
}

/// An operator before an expression.
pub open spec fn prefixed(operator: UnaryOperator, inner: Expr) -> Expr {
    Expr::Unary { operator, expression: Box::new(inner) }
}

/// What the six comparisons say of two operands, of which the first is the smaller, or the second
/// is, or neither.
pub open spec fn compares(
    left: Expr,
    right: Expr,
    scope: Scope,
    smaller: bool,
    larger: bool,
) -> bool {
    &&& says(joined(left, BinaryOperator::LessThan, right), scope, smaller)
    &&& says(joined(left, BinaryOperator::GreaterThan, right), scope, larger)
    &&& says(joined(left, BinaryOperator::LessThanOrEqual, right), scope, !larger)
    &&& says(joined(left, BinaryOperator::GreaterThanOrEqual, right), scope, !smaller)
    &&& says(joined(left, BinaryOperator::Equal, right), scope, !smaller && !larger)
    &&& says(joined(left, BinaryOperator::NotEqual, right), scope, smaller || larger)
}

/// Integers compare as numbers.
pub proof fn law_integers_compare(left: Expr, right: Expr, scope: Scope, a: i64, b: i64)
    requires
        gives(left, scope, ValueView::Integer(a)),
        gives(right, scope, ValueView::Integer(b)),
    ensures
        says(joined(left, BinaryOperator::LessThan, right), scope, a < b),
        says(joined(left, BinaryOperator::LessThanOrEqual, right), scope, a <= b),
        says(joined(left, BinaryOperator::GreaterThan, right), scope, a > b),
        says(joined(left, BinaryOperator::GreaterThanOrEqual, right), scope, a >= b),
        says(joined(left, BinaryOperator::Equal, right), scope, a == b),
        says(joined(left, BinaryOperator::NotEqual, right), scope, a != b),
{
}

/// Floats that are numbers compare by their exact values, and what is no number compares with
/// nothing.
pub proof fn law_floats_compare(left: Expr, right: Expr, scope: Scope, a: u64, b: u64)
    requires
        gives(left, scope, ValueView::Float(a)),
        gives(right, scope, ValueView::Float(b)),
    ensures
        !float::is_nan(a) && !float::is_nan(b) ==> compares(
            left,
            right,
            scope,
            exact::exact_value(a) < exact::exact_value(b),
            exact::exact_value(a) > exact::exact_value(b),
        ),
        float::is_nan(a) || float::is_nan(b) ==> fails(
            joined(left, BinaryOperator::LessThan, right),
            scope,
        ) && fails(joined(left, BinaryOperator::Equal, right), scope),
{
    exact::lemma_ranks_are_values(a, b);
}

/// An integer and a float compare as the float nearest to the integer does with the float.
pub proof fn law_mixed_numbers_compare(
    left: Expr,
    right: Expr,
    scope: Scope,
    a: i64,
    nearest: u64,
    b: u64,
)
    requires
        gives(left, scope, ValueView::Integer(a)),
        gives(right, scope, ValueView::Float(b)),
        scope.floats.contains_pair(
            FloatRequest {
                operation: FloatOperation::FromInteger,
                left: (if a < 0 {
                    a + 0x1_0000_0000_0000_0000
                } else {
                    a as int
                }) as u64,
                right: 0,
            },
            nearest,
        ),
        !float::is_nan(nearest),
        !float::is_nan(b),
    ensures
        compares(
            left,
            right,
            scope,
            exact::exact_value(nearest) < exact::exact_value(b),
            exact::exact_value(nearest) > exact::exact_value(b),
        ),
        compares(
            right,
            left,
            scope,
            exact::exact_value(b) < exact::exact_value(nearest),
            exact::exact_value(b) > exact::exact_value(nearest),
        ),
{
    exact::lemma_ranks_are_values(nearest, b);
    exact::lemma_ranks_are_values(b, nearest);
}

/// False is smaller than true.
pub proof fn law_truths_compare(left: Expr, right: Expr, scope: Scope, a: bool, b: bool)
    requires
        gives(left, scope, ValueView::Boolean(a)),
        gives(right, scope, ValueView::Boolean(b)),
    ensures
        compares(left, right, scope, !a && b, a && !b),
{
}

/// Of two texts the smaller is the one whose encoding has the smaller byte where they first differ,
/// or goes no further than the other; texts are equal where they are the same.
pub proof fn law_texts_compare(
    left: Expr,
    right: Expr,
    scope: Scope,
    a: Seq<char>,
    b: Seq<char>,
    at: int,
)
    requires
        gives(left, scope, ValueView::Text(a)),
        gives(right, scope, ValueView::Text(b)),
    ensures
        key::parts_below(encode_utf8(a), encode_utf8(b), at) ==> compares(
            left,
            right,
            scope,
            true,
            false,
        ),
        key::parts_below(encode_utf8(b), encode_utf8(a), at) ==> compares(
            left,
            right,
            scope,
            false,
            true,
        ),
        a == b ==> compares(left, right, scope, false, false),
{
    let x = encode_utf8(a);
    let y = encode_utf8(b);
    if key::parts_below(x, y, at) {
        key::law_first_difference_decides(x, y, at);
    }
    if key::parts_below(y, x, at) {
        key::law_first_difference_decides(y, x, at);
    }
    key::lemma_key_irreflexive(x);
}

/// Turning a comparison round turns its operands round, and the opposite of a comparison is its
/// denial, also where the operands or their comparison are unknown.
pub proof fn law_comparisons_mirror(left: Expr, right: Expr, scope: Scope, value: ValueView)
    ensures
        gives(joined(left, BinaryOperator::LessThan, right), scope, value) ==> gives(
            joined(right, BinaryOperator::GreaterThan, left),
            scope,
            value,
        ) && gives(
            prefixed(UnaryOperator::Not, joined(left, BinaryOperator::GreaterThanOrEqual, right)),
            scope,
            value,
        ),
        gives(joined(left, BinaryOperator::LessThanOrEqual, right), scope, value) ==> gives(
            joined(right, BinaryOperator::GreaterThanOrEqual, left),
            scope,
            value,
        ) && gives(
            prefixed(UnaryOperator::Not, joined(left, BinaryOperator::GreaterThan, right)),
            scope,
            value,
        ),
        gives(joined(left, BinaryOperator::Equal, right), scope, value) ==> gives(
            joined(right, BinaryOperator::Equal, left),
            scope,
            value,
        ) && gives(
            prefixed(UnaryOperator::Not, joined(left, BinaryOperator::NotEqual, right)),
            scope,
            value,
        ),
{
    reveal_with_fuel(expression::evaluated, 3);
    match (
        expression::evaluated(left, scope.columns, scope.row, scope.floats),
        expression::evaluated(right, scope.columns, scope.row, scope.floats),
    ) {
        (Ok(ValueView::Text(a)), Ok(ValueView::Text(b))) => {
            sort::lemma_text_order(a, b, b);
        },
        _ => {},
    }
}

/// Values of different kinds do not compare, but for integers and floats.
pub proof fn law_kinds_do_not_compare(
    left: Expr,
    operator: BinaryOperator,
    right: Expr,
    scope: Scope,
    a: ValueView,
    b: ValueView,
)
    requires
        gives(left, scope, a),
        gives(right, scope, b),
        operator == BinaryOperator::Equal || operator == BinaryOperator::NotEqual || operator
            == BinaryOperator::LessThan || operator == BinaryOperator::LessThanOrEqual || operator
            == BinaryOperator::GreaterThan || operator == BinaryOperator::GreaterThanOrEqual,
        ({
            ||| a is Boolean && !(b is Boolean) && !(b is Null)
            ||| a is Text && !(b is Text) && !(b is Null)
            ||| (a is Integer || a is Float) && (b is Boolean || b is Text)
        }),
    ensures
        fails(joined(left, operator, right), scope),
{
}

/// What an operator other than AND and OR makes of NULL is NULL.
pub proof fn law_null_spreads(
    left: Expr,
    operator: BinaryOperator,
    right: Expr,
    scope: Scope,
    a: ValueView,
    b: ValueView,
)
    requires
        gives(left, scope, a),
        gives(right, scope, b),
        a is Null || b is Null,
        operator != BinaryOperator::And,
        operator != BinaryOperator::Or,
    ensures
        gives(joined(left, operator, right), scope, ValueView::Null),
{
}

/// AND is false where an operand is, true where both are, and otherwise unknown.
pub proof fn law_and(left: Expr, right: Expr, scope: Scope, a: ValueView, b: ValueView)
    requires
        gives(left, scope, a),
        gives(right, scope, b),
    ensures
        (a is Boolean || a is Null) && (b is Boolean || b is Null) ==> ({
            let both = joined(left, BinaryOperator::And, right);
            &&& says(both, scope, false) <==> a == ValueView::Boolean(false) || b
                == ValueView::Boolean(false)
            &&& says(both, scope, true) <==> a == ValueView::Boolean(true) && b
                == ValueView::Boolean(true)
            &&& says(both, scope, false) || says(both, scope, true) || gives(
                both,
                scope,
                ValueView::Null,
            )
        }),
        !((a is Boolean || a is Null) && (b is Boolean || b is Null)) ==> fails(
            joined(left, BinaryOperator::And, right),
            scope,
        ),
{
}

/// OR is true where an operand is, false where both are, and otherwise unknown.
pub proof fn law_or(left: Expr, right: Expr, scope: Scope, a: ValueView, b: ValueView)
    requires
        gives(left, scope, a),
        gives(right, scope, b),
    ensures
        (a is Boolean || a is Null) && (b is Boolean || b is Null) ==> ({
            let any = joined(left, BinaryOperator::Or, right);
            &&& says(any, scope, true) <==> a == ValueView::Boolean(true) || b
                == ValueView::Boolean(true)
            &&& says(any, scope, false) <==> a == ValueView::Boolean(false) && b
                == ValueView::Boolean(false)
            &&& says(any, scope, false) || says(any, scope, true) || gives(
                any,
                scope,
                ValueView::Null,
            )
        }),
        !((a is Boolean || a is Null) && (b is Boolean || b is Null)) ==> fails(
            joined(left, BinaryOperator::Or, right),
            scope,
        ),
{
}

/// Whether an expression is an integer, or fails where a number is no 64-bit integer.
pub open spec fn counts(expr: Expr, scope: Scope, number: int) -> bool {
    if i64::MIN <= number <= i64::MAX {
        gives(expr, scope, ValueView::Integer(number as i64))
    } else {
        fails(expr, scope)
    }
}

/// Sums, differences and products of integers are exact, or fail.
pub proof fn law_integers_add_up(left: Expr, right: Expr, scope: Scope, a: i64, b: i64)
    requires
        gives(left, scope, ValueView::Integer(a)),
        gives(right, scope, ValueView::Integer(b)),
    ensures
        counts(joined(left, BinaryOperator::Add, right), scope, a + b),
        counts(joined(left, BinaryOperator::Subtract, right), scope, a - b),
        counts(joined(left, BinaryOperator::Multiply, right), scope, a * b),
{
}

/// Division of integers leaves a remainder that is smaller than the divisor and has the sign of the
/// dividend; division by zero fails.
pub proof fn law_integers_divide(left: Expr, right: Expr, scope: Scope, a: i64, b: i64)
    requires
        gives(left, scope, ValueView::Integer(a)),
        gives(right, scope, ValueView::Integer(b)),
    ensures
        b == 0 ==> fails(joined(left, BinaryOperator::Divide, right), scope) && fails(
            joined(left, BinaryOperator::Modulo, right),
            scope,
        ),
        b != 0 && !(a == i64::MIN && b == -1) ==> exists|quotient: i64, rest: i64|
            {
                &&& #[trigger] gives(
                    joined(left, BinaryOperator::Divide, right),
                    scope,
                    ValueView::Integer(quotient),
                )
                &&& #[trigger] gives(
                    joined(left, BinaryOperator::Modulo, right),
                    scope,
                    ValueView::Integer(rest),
                )
                &&& a == quotient * b + rest
                &&& rest < b || rest < -b
                &&& -rest < b || -rest < -b
                &&& a >= 0 ==> rest >= 0
                &&& a <= 0 ==> rest <= 0
            },
        a == i64::MIN && b == -1 ==> fails(joined(left, BinaryOperator::Divide, right), scope)
            && fails(joined(left, BinaryOperator::Modulo, right), scope),
{
    if b != 0 && !(a == i64::MIN && b == -1) {
        let x = if a < 0 {
            -(a as int)
        } else {
            a as int
        };
        let d = if b < 0 {
            -(b as int)
        } else {
            b as int
        };
        let q = x / d;
        let r = x % d;
        assert(x == q * d + r && 0 <= r < d && 0 <= q <= x && (d >= 2 && x > 0 ==> q < x))
            by (nonlinear_arith)
            requires
                x >= 0,
                d >= 1,
                q == x / d,
                r == x % d,
        ;
        let quotient: int = if (a < 0) == (b < 0) {
            q
        } else {
            -q
        };
        let rest: int = if a < 0 {
            -r
        } else {
            r
        };
        assert(a == quotient * b + rest) by (nonlinear_arith)
            requires
                x == q * d + r,
                x == (if a < 0 {
                    -(a as int)
                } else {
                    a as int
                }),
                d == (if b < 0 {
                    -(b as int)
                } else {
                    b as int
                }),
                quotient == (if (a < 0) == (b < 0) {
                    q
                } else {
                    -q
                }),
                rest == (if a < 0 {
                    -r
                } else {
                    r
                }),
        ;
        assert(a.checked_div(b) == Some(quotient as i64));
        assert(a.checked_rem(b) == Some(rest as i64));
        assert(gives(
            joined(left, BinaryOperator::Divide, right),
            scope,
            ValueView::Integer(quotient as i64),
        ));
        assert(gives(
            joined(left, BinaryOperator::Modulo, right),
            scope,
            ValueView::Integer(rest as i64),
        ));
    }
}

/// The operation on floats that an arithmetic operator stands for.
pub open spec fn stands_for(operator: BinaryOperator, operation: FloatOperation) -> bool {
    ||| operator == BinaryOperator::Add && operation == FloatOperation::Add
    ||| operator == BinaryOperator::Subtract && operation == FloatOperation::Subtract
    ||| operator == BinaryOperator::Multiply && operation == FloatOperation::Multiply
    ||| operator == BinaryOperator::Divide && operation == FloatOperation::Divide
    ||| operator == BinaryOperator::Modulo && operation == FloatOperation::Modulo
}

/// Arithmetic on floats is the operation that the operator stands for, on the operands in their
/// order; dividing by a zero fails, and so does a result that is not finite.
pub proof fn law_floats_are_computed(
    left: Expr,
    operator: BinaryOperator,
    right: Expr,
    scope: Scope,
    operation: FloatOperation,
    a: u64,
    b: u64,
    result: u64,
)
    requires
        gives(left, scope, ValueView::Float(a)),
        gives(right, scope, ValueView::Float(b)),
        stands_for(operator, operation),
        scope.floats.contains_pair(FloatRequest { operation, left: a, right: b }, result),
    ensures
        ({
            let by_zero = (operator == BinaryOperator::Divide || operator
                == BinaryOperator::Modulo) && !float::is_nan(b) && exact::exact_value(b) == 0;
            if by_zero || !float::is_finite(result) {
                fails(joined(left, operator, right), scope)
            } else {
                gives(joined(left, operator, right), scope, ValueView::Float(result))
            }
        }),
{
    exact::lemma_ranks_are_values(b, 0);
}

/// Arithmetic on an integer and a float is that on the float nearest to the integer and the float.
pub proof fn law_mixed_numbers_are_computed(
    left: Expr,
    operator: BinaryOperator,
    right: Expr,
    scope: Scope,
    operation: FloatOperation,
    a: i64,
    nearest: u64,
    b: u64,
    result: u64,
)
    requires
        gives(left, scope, ValueView::Integer(a)),
        gives(right, scope, ValueView::Float(b)),
        stands_for(operator, operation),
        scope.floats.contains_pair(
            FloatRequest {
                operation: FloatOperation::FromInteger,
                left: (if a < 0 {
                    a + 0x1_0000_0000_0000_0000
                } else {
                    a as int
                }) as u64,
                right: 0,
            },
            nearest,
        ),
        float::is_finite(result),
        !float::is_nan(b),
        !float::is_nan(nearest),
    ensures
        scope.floats.contains_pair(FloatRequest { operation, left: nearest, right: b }, result)
            && exact::exact_value(b) != 0 ==> gives(
            joined(left, operator, right),
            scope,
            ValueView::Float(result),
        ),
        scope.floats.contains_pair(FloatRequest { operation, left: b, right: nearest }, result)
            && exact::exact_value(nearest) != 0 ==> gives(
            joined(right, operator, left),
            scope,
            ValueView::Float(result),
        ),
{
    exact::lemma_ranks_are_values(b, 0);
    exact::lemma_ranks_are_values(nearest, 0);
}

/// Arithmetic is for numbers.
pub proof fn law_only_numbers_are_computed(
    left: Expr,
    operator: BinaryOperator,
    operation: FloatOperation,
    right: Expr,
    scope: Scope,
    a: ValueView,
    b: ValueView,
)
    requires
        gives(left, scope, a),
        gives(right, scope, b),
        stands_for(operator, operation),
        !(a is Null) && !(b is Null),
        a is Boolean || a is Text || ((b is Boolean || b is Text) && a is Float),
    ensures
        fails(joined(left, operator, right), scope),
{
}

/// NOT denies a truth, minus turns the sign of a number, and plus leaves a number as it is; each
/// leaves NULL alone.
pub proof fn law_unary_operators(inner: Expr, scope: Scope, value: ValueView)
    requires
        gives(inner, scope, value),
    ensures
        value matches ValueView::Boolean(truth) ==> says(
            prefixed(UnaryOperator::Not, inner),
            scope,
            !truth,
        ) && fails(prefixed(UnaryOperator::Minus, inner), scope) && fails(
            prefixed(UnaryOperator::Plus, inner),
            scope,
        ),
        value matches ValueView::Integer(number) ==> counts(
            prefixed(UnaryOperator::Minus, inner),
            scope,
            -number,
        ) && gives(prefixed(UnaryOperator::Plus, inner), scope, value) && fails(
            prefixed(UnaryOperator::Not, inner),
            scope,
        ),
        value matches ValueView::Float(bits) ==> gives(
            prefixed(UnaryOperator::Plus, inner),
            scope,
            value,
        ) && fails(prefixed(UnaryOperator::Not, inner), scope) && exists|other: u64|
            exact::exact_value(other) == -exact::exact_value(bits) && #[trigger] gives(
                prefixed(UnaryOperator::Minus, inner),
                scope,
                ValueView::Float(other),
            ),
        value is Text ==> fails(prefixed(UnaryOperator::Not, inner), scope) && fails(
            prefixed(UnaryOperator::Minus, inner),
            scope,
        ) && fails(prefixed(UnaryOperator::Plus, inner), scope),
        value is Null ==> forall|operator: UnaryOperator| #[trigger]
            gives(prefixed(operator, inner), scope, ValueView::Null),
{
    if let ValueView::Float(bits) = value {
        let other = float::negated(bits);
        assert(gives(prefixed(UnaryOperator::Minus, inner), scope, ValueView::Float(other)));
    }
}

/// IS NULL is true of NULL and false of every other value, and IS NOT NULL the other way round.
pub proof fn law_is_null(inner: Expr, scope: Scope, value: ValueView)
    requires
        gives(inner, scope, value),
    ensures
        says(Expr::IsNull { expression: Box::new(inner), negated: false }, scope, value is Null),
        says(Expr::IsNull { expression: Box::new(inner), negated: true }, scope, !(value is Null)),
{
}

/// Parentheses change nothing.
pub proof fn law_parentheses(inner: Expr, scope: Scope)
    ensures
        expression::evaluated(
            Expr::Parenthesized { expression: Box::new(inner) },
            scope.columns,
            scope.row,
            scope.floats,
        ) == expression::evaluated(inner, scope.columns, scope.row, scope.floats),
{
}

/// A name stands for the value of the first column of that name, and is unknown where no column has
/// it.
pub proof fn law_names_are_columns(name: Identifier, scope: Scope, at: int)
    requires
        scope.row.len() == scope.columns.len(),
    ensures
        0 <= at < scope.columns.len() && scope.columns[at].name == name.value@ && (forall|i: int|
            0 <= i < at ==> (#[trigger] scope.columns[i]).name != name.value@) ==> gives(
            Expr::Identifier(name),
            scope,
            scope.row[at],
        ),
        (forall|i: int|
            0 <= i < scope.columns.len() ==> (#[trigger] scope.columns[i]).name != name.value@)
            ==> expression::evaluated(
            Expr::Identifier(name),
            scope.columns,
            scope.row,
            scope.floats,
        ) == Err::<ValueView, StopView>(
            StopView::Error(EngineErrorView::ColumnNotFound(name.value@)),
        ),
{
    schema::lemma_first_named(scope.columns, name.value@, 0);
}

/// A constant stands for itself; a float has to be finite.
pub proof fn law_constants(value: Literal, scope: Scope)
    ensures
        value is Null ==> gives(Expr::Literal { value }, scope, ValueView::Null),
        value matches Literal::Boolean(truth) ==> says(Expr::Literal { value }, scope, truth),
        value matches Literal::Integer(number) ==> gives(
            Expr::Literal { value },
            scope,
            ValueView::Integer(number),
        ),
        value matches Literal::Float(bits) ==> if float::is_finite(bits) {
            gives(Expr::Literal { value }, scope, ValueView::Float(bits))
        } else {
            fails(Expr::Literal { value }, scope)
        },
        value matches Literal::String(text) ==> gives(
            Expr::Literal { value },
            scope,
            ValueView::Text(text@),
        ),
{
}

/// An expression of which a part stops stops for the same reason, the left part's before the right
/// part's.
pub proof fn law_stops_spread(
    left: Expr,
    operator: BinaryOperator,
    right: Expr,
    unary: UnaryOperator,
    negated: bool,
    scope: Scope,
    stop: StopView,
)
    requires
        ({
            let first = expression::evaluated(left, scope.columns, scope.row, scope.floats);
            let second = expression::evaluated(right, scope.columns, scope.row, scope.floats);
            first == Err::<ValueView, StopView>(stop) || (first is Ok && second == Err::<
                ValueView,
                StopView,
            >(stop))
        }),
    ensures
        expression::evaluated(
            joined(left, operator, right),
            scope.columns,
            scope.row,
            scope.floats,
        ) == Err::<ValueView, StopView>(stop),
        expression::evaluated(left, scope.columns, scope.row, scope.floats) is Err ==> ({
            &&& expression::evaluated(
                prefixed(unary, left),
                scope.columns,
                scope.row,
                scope.floats,
            ) == Err::<ValueView, StopView>(stop)
            &&& expression::evaluated(
                Expr::IsNull { expression: Box::new(left), negated },
                scope.columns,
                scope.row,
                scope.floats,
            ) == Err::<ValueView, StopView>(stop)
        }),
{
}

/// A statement is about the rows of which its condition is true, not about those of which it is false
/// or unknown, and without a condition about all rows. A condition that is no truth value fails.
pub proof fn law_conditions_choose(selection: Option<Expr>, scope: Scope)
    ensures
        selection is None ==> delete::chosen(
            selection,
            scope.columns,
            scope.row,
            scope.floats,
        ) == Ok::<bool, StopView>(true),
        selection matches Some(condition) ==> ({
            let chosen = delete::chosen(selection, scope.columns, scope.row, scope.floats);
            let value = expression::evaluated(
                condition,
                scope.columns,
                scope.row,
                scope.floats,
            );
            &&& chosen == Ok::<bool, StopView>(true) <==> says(condition, scope, true)
            &&& chosen == Ok::<bool, StopView>(false) <==> says(condition, scope, false) || gives(
                condition,
                scope,
                ValueView::Null,
            )
            &&& value matches Err(stop) ==> chosen == Err::<bool, StopView>(stop)
        }),
{
}

/// The type told of an expression: that of a column is the column's, a constant's is its own, a
/// comparison, AND and OR make truths, IS NULL one that is never NULL, and arithmetic makes a float where
/// an operand is one and else an integer. What is made of parts can be NULL where a part can.
pub proof fn law_types_are_told(
    left: Expr,
    operator: BinaryOperator,
    right: Expr,
    negated: bool,
    columns: Seq<ColumnView>,
    at: int,
    a: (LogicalType, bool),
    b: (LogicalType, bool),
)
    requires
        expression::inferred(left, columns) == Ok::<(LogicalType, bool), EngineErrorView>(a),
        expression::inferred(right, columns) == Ok::<(LogicalType, bool), EngineErrorView>(b),
    ensures
        left matches Expr::Identifier(name) ==> (0 <= at < columns.len() && columns[at].name
            == name.value@ && (forall|i: int|
            0 <= i < at ==> (#[trigger] columns[i]).name != name.value@) ==> a == (
            columns[at].data_type,
            columns[at].nullable,
        )),
        left matches Expr::Literal { value } ==> a.1 == (value is Null) && (value is Boolean
            ==> a.0 == LogicalType::Boolean) && (value is Integer ==> a.0 == LogicalType::Int64) && (
        value is Float ==> a.0 == LogicalType::Float64) && (value is String ==> a.0
            == LogicalType::Text { max_length: None }),
        expression::inferred(
            Expr::IsNull { expression: Box::new(left), negated },
            columns,
        ) == Ok::<(LogicalType, bool), EngineErrorView>((LogicalType::Boolean, false)),
        expression::inferred(joined(left, operator, right), columns) == Ok::<
            (LogicalType, bool),
            EngineErrorView,
        >(
            (
                match operator {
                    BinaryOperator::Add
                    | BinaryOperator::Subtract
                    | BinaryOperator::Multiply
                    | BinaryOperator::Divide
                    | BinaryOperator::Modulo => if a.0 is Float64 || b.0 is Float64 {
                        LogicalType::Float64
                    } else {
                        LogicalType::Int64
                    },
                    _ => LogicalType::Boolean,
                },
                a.1 || b.1,
            ),
        ),
{
    if let Expr::Identifier(name) = left {
        schema::lemma_first_named(columns, name.value@, 0);
    }
}

} // verus!
