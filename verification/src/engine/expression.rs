//! Expressions over the columns of a row.
use crate::engine::error::{
    expression_error,
    EngineError,
    EngineErrorView,
    Stop,
    StopView,
};
use crate::engine::error;
use crate::engine::float;
use crate::engine::float::{
    conversion_of,
    finite,
    negate,
    not_a_number,
    rank_of,
    FloatOperation,
    FloatRequest,
    FloatTable,
};
use crate::engine::schema;
use crate::engine::schema::{ColumnView, LogicalType, TableSchema};
use crate::engine::value;
use crate::engine::value::{copy_text, order_text, Value, ValueView};
use crate::index::key::KeyOrder;
use crate::syntax::{BinaryOperator, Expr, Literal, UnaryOperator};
use vstd::prelude::*;
use vstd::string::*;

verus! {

/// What a constant stands for.
pub open spec fn literal_value(literal: Literal) -> Result<ValueView, StopView> {
    match literal {
        Literal::Null => Ok(ValueView::Null),
        Literal::Boolean(value) => Ok(ValueView::Boolean(value)),
        Literal::Integer(value) => Ok(ValueView::Integer(value)),
        Literal::Float(bits) => if float::is_finite(bits) {
            Ok(ValueView::Float(bits))
        } else {
            Err(error::expression_stop("non-finite float literal is not supported"))
        },
        Literal::String(value) => Ok(ValueView::Text(value@)),
    }
}

/// What a unary operator gives.
pub open spec fn unary_value(operator: UnaryOperator, value: ValueView) -> Result<
    ValueView,
    StopView,
> {
    match (operator, value) {
        (_, ValueView::Null) => Ok(ValueView::Null),
        (UnaryOperator::Not, ValueView::Boolean(set)) => Ok(ValueView::Boolean(!set)),
        (UnaryOperator::Plus, ValueView::Integer(number)) => Ok(ValueView::Integer(number)),
        (UnaryOperator::Plus, ValueView::Float(bits)) => Ok(ValueView::Float(bits)),
        (UnaryOperator::Minus, ValueView::Integer(number)) => if number == i64::MIN {
            Err(error::expression_stop("integer negation overflow"))
        } else {
            Ok(ValueView::Integer((-number) as i64))
        },
        (UnaryOperator::Minus, ValueView::Float(bits)) => Ok(ValueView::Float(float::negated(bits))),
        _ => Err(error::expression_stop("invalid operand for unary operator")),
    }
}

/// A truth value: true, false or unknown.
pub open spec fn truth(value: ValueView) -> Result<Option<bool>, StopView> {
    match value {
        ValueView::Boolean(set) => Ok(Some(set)),
        ValueView::Null => Ok(None),
        _ => Err(error::expression_stop("AND/OR operands must be boolean")),
    }
}

pub open spec fn truth_value(known: Option<bool>) -> ValueView {
    match known {
        Some(set) => ValueView::Boolean(set),
        None => ValueView::Null,
    }
}

/// Both: false where either is, unknown where that decides.
pub open spec fn both(left: Option<bool>, right: Option<bool>) -> Option<bool> {
    if left == Some(false) || right == Some(false) {
        Some(false)
    } else if left == Some(true) && right == Some(true) {
        Some(true)
    } else {
        None
    }
}

/// Either: true where one is, unknown where that decides.
pub open spec fn either(left: Option<bool>, right: Option<bool>) -> Option<bool> {
    if left == Some(true) || right == Some(true) {
        Some(true)
    } else if left == Some(false) && right == Some(false) {
        Some(false)
    } else {
        None
    }
}

/// Denying one operand of each law of De Morgan: both and either are each other's mirror.
pub proof fn law_truth_is_dual(left: Option<bool>, right: Option<bool>)
    ensures
        both(left, right) == both(right, left),
        either(left, right) == either(right, left),
        deny(both(left, right)) == either(deny(left), deny(right)),
        deny(either(left, right)) == both(deny(left), deny(right)),
{
}

pub open spec fn deny(known: Option<bool>) -> Option<bool> {
    match known {
        Some(set) => Some(!set),
        None => None,
    }
}

pub open spec fn logic_value(operator: BinaryOperator, left: ValueView, right: ValueView) -> Result<
    ValueView,
    StopView,
> {
    match (truth(left), truth(right)) {
        (Err(stop), _) => Err(stop),
        (_, Err(stop)) => Err(stop),
        (Ok(a), Ok(b)) => Ok(
            truth_value(
                if operator == BinaryOperator::And {
                    both(a, b)
                } else {
                    either(a, b)
                },
            ),
        ),
    }
}

pub open spec fn number_order(left: int, right: int) -> KeyOrder {
    if left < right {
        KeyOrder::Before
    } else if left == right {
        KeyOrder::Same
    } else {
        KeyOrder::After
    }
}

pub open spec fn float_order(left: u64, right: u64) -> Result<KeyOrder, StopView> {
    if float::is_nan(left) || float::is_nan(right) {
        Err(error::expression_stop("comparison is unordered"))
    } else {
        Ok(number_order(float::rank(left), float::rank(right)))
    }
}

pub open spec fn text_order(left: Seq<char>, right: Seq<char>) -> KeyOrder {
    if value::text_before(left, right) {
        KeyOrder::Before
    } else if left == right {
        KeyOrder::Same
    } else {
        KeyOrder::After
    }
}

pub open spec fn truth_order(left: bool, right: bool) -> KeyOrder {
    if left == right {
        KeyOrder::Same
    } else if right {
        KeyOrder::Before
    } else {
        KeyOrder::After
    }
}

/// The float nearest to an integer, where it is known.
pub open spec fn converted(number: i64, floats: Map<FloatRequest, u64>) -> Result<u64, StopView> {
    if floats.contains_key(float::conversion(number)) {
        Ok(floats[float::conversion(number)])
    } else {
        Err(StopView::Needs)
    }
}

/// How two values are ordered; an integer and a float are compared as floats.
pub open spec fn value_order(
    left: ValueView,
    right: ValueView,
    floats: Map<FloatRequest, u64>,
) -> Result<KeyOrder, StopView> {
    match (left, right) {
        (ValueView::Boolean(a), ValueView::Boolean(b)) => Ok(truth_order(a, b)),
        (ValueView::Integer(a), ValueView::Integer(b)) => Ok(number_order(a as int, b as int)),
        (ValueView::Float(a), ValueView::Float(b)) => float_order(a, b),
        (ValueView::Integer(a), ValueView::Float(b)) => match converted(a, floats) {
            Err(stop) => Err(stop),
            Ok(a) => float_order(a, b),
        },
        (ValueView::Float(a), ValueView::Integer(b)) => match converted(b, floats) {
            Err(stop) => Err(stop),
            Ok(b) => float_order(a, b),
        },
        (ValueView::Text(a), ValueView::Text(b)) => Ok(text_order(a, b)),
        _ => Err(error::expression_stop("values of these types cannot be compared")),
    }
}

/// Whether an order is one that a comparison asks for.
pub open spec fn order_meets(operator: BinaryOperator, order: KeyOrder) -> bool {
    match operator {
        BinaryOperator::Equal => order == KeyOrder::Same,
        BinaryOperator::NotEqual => order != KeyOrder::Same,
        BinaryOperator::LessThan => order == KeyOrder::Before,
        BinaryOperator::LessThanOrEqual => order != KeyOrder::After,
        BinaryOperator::GreaterThan => order == KeyOrder::After,
        _ => order != KeyOrder::Before,
    }
}

pub open spec fn comparison_value(
    operator: BinaryOperator,
    left: ValueView,
    right: ValueView,
    floats: Map<FloatRequest, u64>,
) -> Result<ValueView, StopView> {
    match value_order(left, right, floats) {
        Err(stop) => Err(stop),
        Ok(order) => Ok(ValueView::Boolean(order_meets(operator, order))),
    }
}

/// Integer arithmetic: nothing where the result is no 64-bit integer.
pub open spec fn integer_result(operator: BinaryOperator, left: i64, right: i64) -> Option<i64> {
    match operator {
        BinaryOperator::Add => left.checked_add(right),
        BinaryOperator::Subtract => left.checked_sub(right),
        BinaryOperator::Multiply => left.checked_mul(right),
        BinaryOperator::Divide => left.checked_div(right),
        _ => left.checked_rem(right),
    }
}

/// A value as a float.
pub open spec fn as_float(value: ValueView, floats: Map<FloatRequest, u64>) -> Result<
    u64,
    StopView,
> {
    match value {
        ValueView::Integer(number) => converted(number, floats),
        ValueView::Float(bits) => Ok(bits),
        _ => Err(error::expression_stop("arithmetic operands must be numeric")),
    }
}

pub open spec fn float_operation(operator: BinaryOperator) -> FloatOperation {
    match operator {
        BinaryOperator::Add => FloatOperation::Add,
        BinaryOperator::Subtract => FloatOperation::Subtract,
        BinaryOperator::Multiply => FloatOperation::Multiply,
        BinaryOperator::Divide => FloatOperation::Divide,
        _ => FloatOperation::Modulo,
    }
}

pub open spec fn divides(operator: BinaryOperator) -> bool {
    operator == BinaryOperator::Divide || operator == BinaryOperator::Modulo
}

pub open spec fn float_result(
    operator: BinaryOperator,
    left: u64,
    right: u64,
    floats: Map<FloatRequest, u64>,
) -> Result<ValueView, StopView> {
    let request = FloatRequest { operation: float_operation(operator), left, right };
    if !float::is_nan(right) && float::rank(right) == 0 && divides(operator) {
        Err(error::expression_stop("division by zero"))
    } else if !floats.contains_key(request) {
        Err(StopView::Needs)
    } else if !float::is_finite(floats[request]) {
        Err(error::expression_stop("floating-point result is not finite"))
    } else {
        Ok(ValueView::Float(floats[request]))
    }
}

pub open spec fn arithmetic_value(
    operator: BinaryOperator,
    left: ValueView,
    right: ValueView,
    floats: Map<FloatRequest, u64>,
) -> Result<ValueView, StopView> {
    match (left, right) {
        (ValueView::Integer(a), ValueView::Integer(b)) => match integer_result(operator, a, b) {
            Some(number) => Ok(ValueView::Integer(number)),
            None => Err(error::expression_stop("integer overflow or division by zero")),
        },
        _ => match (as_float(left, floats), as_float(right, floats)) {
            (Err(stop), _) => Err(stop),
            (_, Err(stop)) => Err(stop),
            (Ok(a), Ok(b)) => float_result(operator, a, b, floats),
        },
    }
}

pub open spec fn is_logic(operator: BinaryOperator) -> bool {
    operator == BinaryOperator::And || operator == BinaryOperator::Or
}

pub open spec fn is_comparison(operator: BinaryOperator) -> bool {
    match operator {
        BinaryOperator::Equal
        | BinaryOperator::NotEqual
        | BinaryOperator::LessThan
        | BinaryOperator::LessThanOrEqual
        | BinaryOperator::GreaterThan
        | BinaryOperator::GreaterThanOrEqual => true,
        _ => false,
    }
}

/// What a binary operator gives.
pub open spec fn binary_value(
    operator: BinaryOperator,
    left: ValueView,
    right: ValueView,
    floats: Map<FloatRequest, u64>,
) -> Result<ValueView, StopView> {
    if is_logic(operator) {
        logic_value(operator, left, right)
    } else if left is Null || right is Null {
        Ok(ValueView::Null)
    } else if is_comparison(operator) {
        comparison_value(operator, left, right, floats)
    } else {
        arithmetic_value(operator, left, right, floats)
    }
}

pub open spec fn no_column(name: Seq<char>) -> StopView {
    StopView::Error(EngineErrorView::ColumnNotFound(name))
}

/// The value of an expression for a row.
pub open spec fn evaluated(
    expr: Expr,
    columns: Seq<ColumnView>,
    row: Seq<ValueView>,
    floats: Map<FloatRequest, u64>,
) -> Result<ValueView, StopView>
    decreases expr,
{
    match expr {
        Expr::Identifier(identifier) => match schema::position_from(
            columns,
            identifier.value@,
            0,
        ) {
            Some(at) if at < row.len() => Ok(row[at]),
            _ => Err(no_column(identifier.value@)),
        },
        Expr::Literal { value } => literal_value(value),
        Expr::Parenthesized { expression } => evaluated(*expression, columns, row, floats),
        Expr::IsNull { expression, negated } => match evaluated(*expression, columns, row, floats) {
            Err(stop) => Err(stop),
            Ok(value) => Ok(ValueView::Boolean((value is Null) != negated)),
        },
        Expr::Unary { operator, expression } => match evaluated(*expression, columns, row, floats) {
            Err(stop) => Err(stop),
            Ok(value) => unary_value(operator, value),
        },
        Expr::Binary { left, operator, right } => match (
            evaluated(*left, columns, row, floats),
            evaluated(*right, columns, row, floats),
        ) {
            (Err(stop), _) => Err(stop),
            (_, Err(stop)) => Err(stop),
            (Ok(a), Ok(b)) => binary_value(operator, a, b, floats),
        },
    }
}

/// Whether a row meets a condition: an unknown condition is not met.
pub open spec fn meets(
    expr: Expr,
    columns: Seq<ColumnView>,
    row: Seq<ValueView>,
    floats: Map<FloatRequest, u64>,
) -> Result<bool, StopView> {
    match evaluated(expr, columns, row, floats) {
        Err(stop) => Err(stop),
        Ok(ValueView::Boolean(set)) => Ok(set),
        Ok(ValueView::Null) => Ok(false),
        Ok(_) => Err(error::expression_stop("WHERE expression must be boolean")),
    }
}

pub open spec fn literal_type(literal: Literal) -> (LogicalType, bool) {
    match literal {
        Literal::Null => (LogicalType::Unknown, true),
        Literal::Boolean(_) => (LogicalType::Boolean, false),
        Literal::Integer(_) => (LogicalType::Int64, false),
        Literal::Float(_) => (LogicalType::Float64, false),
        Literal::String(_) => (LogicalType::Text { max_length: None }, false),
    }
}

pub open spec fn binary_type(
    operator: BinaryOperator,
    left: (LogicalType, bool),
    right: (LogicalType, bool),
) -> (LogicalType, bool) {
    (
        if is_logic(operator) || is_comparison(operator) {
            LogicalType::Boolean
        } else if left.0 == LogicalType::Float64 || right.0 == LogicalType::Float64 {
            LogicalType::Float64
        } else {
            LogicalType::Int64
        },
        left.1 || right.1,
    )
}

/// The type of an expression, and whether it can be NULL.
pub open spec fn inferred(expr: Expr, columns: Seq<ColumnView>) -> Result<
    (LogicalType, bool),
    EngineErrorView,
>
    decreases expr,
{
    match expr {
        Expr::Identifier(identifier) => match schema::position_from(
            columns,
            identifier.value@,
            0,
        ) {
            Some(at) => Ok((columns[at].data_type, columns[at].nullable)),
            None => Err(EngineErrorView::ColumnNotFound(identifier.value@)),
        },
        Expr::Literal { value } => Ok(literal_type(value)),
        Expr::IsNull { .. } => Ok((LogicalType::Boolean, false)),
        Expr::Parenthesized { expression } => inferred(*expression, columns),
        Expr::Unary { operator, expression } => inferred(*expression, columns),
        Expr::Binary { left, operator, right } => match (
            inferred(*left, columns),
            inferred(*right, columns),
        ) {
            (Err(error), _) => Err(error),
            (_, Err(error)) => Err(error),
            (Ok(a), Ok(b)) => Ok(binary_type(operator, a, b)),
        },
    }
}

fn wants(request: FloatRequest) -> (stop: Stop)
    ensures
        stop@ == StopView::Needs,
        stop matches Stop::Needs(wanted) && wanted@ == seq![request],
{
    let mut wanted: Vec<FloatRequest> = Vec::new();
    wanted.push(request);
    assert(wanted@ =~= seq![request]);
    Stop::Needs(wanted)
}

fn literal(constant: &Literal) -> (value: Result<Value, Stop>)
    ensures
        match value {
            Ok(value) => literal_value(*constant) == Ok::<ValueView, StopView>(value@),
            Err(stop) => literal_value(*constant) == Err::<ValueView, StopView>(stop@) && !(
            stop is Needs),
        },
{
    match constant {
        Literal::Null => Ok(Value::Null),
        Literal::Boolean(set) => Ok(Value::Boolean(*set)),
        Literal::Integer(number) => Ok(Value::Integer(*number)),
        Literal::Float(bits) => if finite(*bits) {
            Ok(Value::Float(*bits))
        } else {
            Err(expression_error("non-finite float literal is not supported"))
        },
        Literal::String(content) => Ok(Value::Text(copy_text(content))),
    }
}

fn unary(operator: UnaryOperator, operand: Value) -> (value: Result<Value, Stop>)
    ensures
        match value {
            Ok(value) => unary_value(operator, operand@) == Ok::<ValueView, StopView>(value@),
            Err(stop) => unary_value(operator, operand@) == Err::<ValueView, StopView>(stop@) && !(
            stop is Needs),
        },
{
    if operand.is_null() {
        return Ok(Value::Null);
    }
    match (operator, operand) {
        (UnaryOperator::Not, Value::Boolean(set)) => Ok(Value::Boolean(!set)),
        (UnaryOperator::Plus, Value::Integer(number)) => Ok(Value::Integer(number)),
        (UnaryOperator::Plus, Value::Float(bits)) => Ok(Value::Float(bits)),
        (UnaryOperator::Minus, Value::Integer(number)) => if number == i64::MIN {
            Err(expression_error("integer negation overflow"))
        } else {
            Ok(Value::Integer(-number))
        },
        (UnaryOperator::Minus, Value::Float(bits)) => Ok(Value::Float(negate(bits))),
        _ => Err(expression_error("invalid operand for unary operator")),
    }
}

fn truth_of(operand: &Value) -> (known: Result<Option<bool>, Stop>)
    ensures
        match known {
            Ok(known) => truth(operand@) == Ok::<Option<bool>, StopView>(known),
            Err(stop) => truth(operand@) == Err::<Option<bool>, StopView>(stop@) && !(
            stop is Needs),
        },
{
    match operand {
        Value::Boolean(set) => Ok(Some(*set)),
        Value::Null => Ok(None),
        _ => Err(expression_error("AND/OR operands must be boolean")),
    }
}

fn boolean_logic(operator: BinaryOperator, left: &Value, right: &Value) -> (value: Result<
    Value,
    Stop,
>)
    requires
        is_logic(operator),
    ensures
        match value {
            Ok(value) => logic_value(operator, left@, right@) == Ok::<ValueView, StopView>(value@),
            Err(stop) => logic_value(operator, left@, right@) == Err::<ValueView, StopView>(stop@)
                && !(stop is Needs),
        },
{
    let first = match truth_of(left) {
        Ok(known) => known,
        Err(stop) => {
            return Err(stop);
        },
    };
    let second = match truth_of(right) {
        Ok(known) => known,
        Err(stop) => {
            return Err(stop);
        },
    };
    let known: Option<bool> = match operator {
        BinaryOperator::And => match (first, second) {
            (Some(false), _) | (_, Some(false)) => Some(false),
            (Some(true), Some(true)) => Some(true),
            _ => None,
        },
        _ => match (first, second) {
            (Some(true), _) | (_, Some(true)) => Some(true),
            (Some(false), Some(false)) => Some(false),
            _ => None,
        },
    };
    match known {
        Some(set) => Ok(Value::Boolean(set)),
        None => Ok(Value::Null),
    }
}

fn order_numbers(left: i128, right: i128) -> (order: KeyOrder)
    ensures
        order == number_order(left as int, right as int),
{
    if left < right {
        KeyOrder::Before
    } else if left == right {
        KeyOrder::Same
    } else {
        KeyOrder::After
    }
}

fn order_floats(left: u64, right: u64) -> (order: Result<KeyOrder, Stop>)
    ensures
        match order {
            Ok(order) => float_order(left, right) == Ok::<KeyOrder, StopView>(order),
            Err(stop) => float_order(left, right) == Err::<KeyOrder, StopView>(stop@) && !(
            stop is Needs),
        },
{
    if not_a_number(left) || not_a_number(right) {
        return Err(expression_error("comparison is unordered"));
    }
    Ok(order_numbers(rank_of(left), rank_of(right)))
}

/// The float nearest to an integer, where it is known.
pub(crate) fn convert(number: i64, floats: &FloatTable) -> (bits: Result<u64, Stop>)
    requires
        floats.wf(),
    ensures
        match bits {
            Ok(bits) => converted(number, floats@) == Ok::<u64, StopView>(bits),
            Err(stop) => converted(number, floats@) == Err::<u64, StopView>(stop@)
                && error::asks_anew(stop, floats@),
        },
{
    let request = conversion_of(number);
    match floats.result(request) {
        Some(bits) => Ok(bits),
        None => Err(wants(request)),
    }
}

fn order_values(left: &Value, right: &Value, floats: &FloatTable) -> (order: Result<
    KeyOrder,
    Stop,
>)
    requires
        floats.wf(),
    ensures
        match order {
            Ok(order) => value_order(left@, right@, floats@) == Ok::<KeyOrder, StopView>(order),
            Err(stop) => value_order(left@, right@, floats@) == Err::<KeyOrder, StopView>(stop@)
                && error::asks_anew(stop, floats@),
        },
{
    match (left, right) {
        (Value::Boolean(a), Value::Boolean(b)) => Ok(
            if *a == *b {
                KeyOrder::Same
            } else if *b {
                KeyOrder::Before
            } else {
                KeyOrder::After
            },
        ),
        (Value::Integer(a), Value::Integer(b)) => Ok(order_numbers(*a as i128, *b as i128)),
        (Value::Float(a), Value::Float(b)) => order_floats(*a, *b),
        (Value::Integer(a), Value::Float(b)) => match convert(*a, floats) {
            Err(stop) => Err(stop),
            Ok(bits) => order_floats(bits, *b),
        },
        (Value::Float(a), Value::Integer(b)) => match convert(*b, floats) {
            Err(stop) => Err(stop),
            Ok(bits) => order_floats(*a, bits),
        },
        (Value::Text(a), Value::Text(b)) => Ok(order_text(a.as_str(), b.as_str())),
        _ => Err(expression_error("values of these types cannot be compared")),
    }
}

fn compare(operator: BinaryOperator, left: &Value, right: &Value, floats: &FloatTable) -> (value:
    Result<Value, Stop>)
    requires
        floats.wf(),
    ensures
        match value {
            Ok(value) => comparison_value(operator, left@, right@, floats@) == Ok::<
                ValueView,
                StopView,
            >(value@),
            Err(stop) => comparison_value(operator, left@, right@, floats@) == Err::<
                ValueView,
                StopView,
            >(stop@) && error::asks_anew(stop, floats@),
        },
{
    let order = match order_values(left, right, floats) {
        Ok(order) => order,
        Err(stop) => {
            return Err(stop);
        },
    };
    Ok(
        Value::Boolean(
            match operator {
                BinaryOperator::Equal => matches!(order, KeyOrder::Same),
                BinaryOperator::NotEqual => !matches!(order, KeyOrder::Same),
                BinaryOperator::LessThan => matches!(order, KeyOrder::Before),
                BinaryOperator::LessThanOrEqual => !matches!(order, KeyOrder::After),
                BinaryOperator::GreaterThan => matches!(order, KeyOrder::After),
                _ => !matches!(order, KeyOrder::Before),
            },
        ),
    )
}

fn number(operand: &Value, floats: &FloatTable) -> (bits: Result<u64, Stop>)
    requires
        floats.wf(),
    ensures
        match bits {
            Ok(bits) => as_float(operand@, floats@) == Ok::<u64, StopView>(bits),
            Err(stop) => as_float(operand@, floats@) == Err::<u64, StopView>(stop@)
                && error::asks_anew(stop, floats@),
        },
{
    match operand {
        Value::Integer(integer) => convert(*integer, floats),
        Value::Float(bits) => Ok(*bits),
        _ => Err(expression_error("arithmetic operands must be numeric")),
    }
}

fn arithmetic(operator: BinaryOperator, left: &Value, right: &Value, floats: &FloatTable) -> (value:
    Result<Value, Stop>)
    requires
        floats.wf(),
    ensures
        match value {
            Ok(value) => arithmetic_value(operator, left@, right@, floats@) == Ok::<
                ValueView,
                StopView,
            >(value@),
            Err(stop) => arithmetic_value(operator, left@, right@, floats@) == Err::<
                ValueView,
                StopView,
            >(stop@) && error::asks_anew(stop, floats@),
        },
{
    if let (Value::Integer(a), Value::Integer(b)) = (left, right) {
        let result: Option<i64> = match operator {
            BinaryOperator::Add => a.checked_add(*b),
            BinaryOperator::Subtract => a.checked_sub(*b),
            BinaryOperator::Multiply => a.checked_mul(*b),
            BinaryOperator::Divide => a.checked_div(*b),
            _ => a.checked_rem(*b),
        };
        return match result {
            Some(integer) => Ok(Value::Integer(integer)),
            None => Err(expression_error("integer overflow or division by zero")),
        };
    }
    let first: u64 = match number(left, floats) {
        Ok(bits) => bits,
        Err(stop) => {
            return Err(stop);
        },
    };
    let second: u64 = match number(right, floats) {
        Ok(bits) => bits,
        Err(stop) => {
            return Err(stop);
        },
    };
    let operation = match operator {
        BinaryOperator::Add => FloatOperation::Add,
        BinaryOperator::Subtract => FloatOperation::Subtract,
        BinaryOperator::Multiply => FloatOperation::Multiply,
        BinaryOperator::Divide => FloatOperation::Divide,
        _ => FloatOperation::Modulo,
    };
    let division = matches!(operator, BinaryOperator::Divide | BinaryOperator::Modulo);
    if division && !not_a_number(second) && rank_of(second) == 0 {
        return Err(expression_error("division by zero"));
    }
    let request = FloatRequest { operation, left: first, right: second };
    match floats.result(request) {
        None => Err(wants(request)),
        Some(bits) => if finite(bits) {
            Ok(Value::Float(bits))
        } else {
            Err(expression_error("floating-point result is not finite"))
        },
    }
}

fn binary(operator: BinaryOperator, left: &Value, right: &Value, floats: &FloatTable) -> (value:
    Result<Value, Stop>)
    requires
        floats.wf(),
    ensures
        match value {
            Ok(value) => binary_value(operator, left@, right@, floats@) == Ok::<
                ValueView,
                StopView,
            >(value@),
            Err(stop) => binary_value(operator, left@, right@, floats@) == Err::<
                ValueView,
                StopView,
            >(stop@) && error::asks_anew(stop, floats@),
        },
{
    if matches!(operator, BinaryOperator::And | BinaryOperator::Or) {
        return boolean_logic(operator, left, right);
    }
    if left.is_null() || right.is_null() {
        return Ok(Value::Null);
    }
    match operator {
        BinaryOperator::Equal
        | BinaryOperator::NotEqual
        | BinaryOperator::LessThan
        | BinaryOperator::LessThanOrEqual
        | BinaryOperator::GreaterThan
        | BinaryOperator::GreaterThanOrEqual => compare(operator, left, right, floats),
        _ => arithmetic(operator, left, right, floats),
    }
}

/// A stop for float results with those that another evaluation wants as well.
pub(crate) fn wants_also<T>(stop: Stop, other: Result<T, Stop>, floats: &FloatTable) -> (joint: Stop)
    requires
        error::asks_anew(stop, floats@),
        other matches Err(second) ==> error::asks_anew(second, floats@),
    ensures
        joint@ == stop@,
        error::asks_anew(joint, floats@),
{
    match (stop, other) {
        (Stop::Needs(mut wanted), Err(Stop::Needs(mut more))) => {
            let ghost first = wanted@;
            let ghost second = more@;
            wanted.append(&mut more);
            proof {
                assert(wanted@ == first + second);
                assert forall|i: int| 0 <= i < wanted@.len() implies !floats@.contains_key(
                    #[trigger] wanted@[i],
                ) by {
                    if i < first.len() {
                        assert(wanted@[i] == first[i]);
                    } else {
                        assert(wanted@[i] == second[i - first.len()]);
                    }
                }
            }
            Stop::Needs(wanted)
        },
        (stop, _) => stop,
    }
}

/// The value of an expression for a row.
pub fn evaluate(expr: &Expr, table: &TableSchema, row: &[Value], floats: &FloatTable) -> (value:
    Result<Value, Stop>)
    requires
        floats.wf(),
    ensures
        match value {
            Ok(value) => evaluated(*expr, table@.columns, value::value_views(row@), floats@) == Ok::<
                ValueView,
                StopView,
            >(value@),
            Err(stop) => evaluated(*expr, table@.columns, value::value_views(row@), floats@)
                == Err::<ValueView, StopView>(stop@) && error::asks_anew(stop, floats@),
        },
    decreases expr,
{
    match expr {
        Expr::Identifier(identifier) => match table.position(identifier.value.as_str()) {
            Some(position) if position < row.len() => Ok(row[position].copy()),
            _ => Err(Stop::Error(EngineError::ColumnNotFound(copy_text(&identifier.value)))),
        },
        Expr::Literal { value } => literal(value),
        Expr::Parenthesized { expression } => evaluate(&**expression, table, row, floats),
        Expr::IsNull { expression, negated } => match evaluate(&**expression, table, row, floats) {
            Err(stop) => Err(stop),
            Ok(value) => Ok(Value::Boolean(value.is_null() != *negated)),
        },
        Expr::Unary { operator, expression } => match evaluate(&**expression, table, row, floats) {
            Err(stop) => Err(stop),
            Ok(value) => unary(*operator, value),
        },
        Expr::Binary { left, operator, right } => {
            let first = evaluate(&**left, table, row, floats);
            let second = evaluate(&**right, table, row, floats);
            match (first, second) {
                (Err(stop), second) => Err(wants_also(stop, second, floats)),
                (Ok(_), Err(stop)) => Err(stop),
                (Ok(a), Ok(b)) => binary(*operator, &a, &b, floats),
            }
        },
    }
}

/// Whether a row meets a condition.
pub fn predicate(expr: &Expr, table: &TableSchema, row: &[Value], floats: &FloatTable) -> (met:
    Result<bool, Stop>)
    requires
        floats.wf(),
    ensures
        match met {
            Ok(met) => meets(*expr, table@.columns, value::value_views(row@), floats@) == Ok::<
                bool,
                StopView,
            >(met),
            Err(stop) => meets(*expr, table@.columns, value::value_views(row@), floats@) == Err::<
                bool,
                StopView,
            >(stop@) && error::asks_anew(stop, floats@),
        },
{
    match evaluate(expr, table, row, floats) {
        Err(stop) => Err(stop),
        Ok(Value::Boolean(set)) => Ok(set),
        Ok(Value::Null) => Ok(false),
        Ok(_) => Err(expression_error("WHERE expression must be boolean")),
    }
}

/// The type of an expression, and whether it can be NULL.
pub fn infer_type(expr: &Expr, table: &TableSchema) -> (found: Result<
    (LogicalType, bool),
    EngineError,
>)
    ensures
        match found {
            Ok(found) => inferred(*expr, table@.columns) == Ok::<
                (LogicalType, bool),
                EngineErrorView,
            >(found),
            Err(error) => inferred(*expr, table@.columns) == Err::<
                (LogicalType, bool),
                EngineErrorView,
            >(error@),
        },
    decreases expr,
{
    match expr {
        Expr::Identifier(identifier) => match table.position(identifier.value.as_str()) {
            Some(position) => {
                let column = &table.columns[position];
                assert(table@.columns[position as int] == column@);
                Ok((column.data_type, column.nullable))
            },
            None => Err(EngineError::ColumnNotFound(copy_text(&identifier.value))),
        },
        Expr::Literal { value } => Ok(
            match value {
                Literal::Null => (LogicalType::Unknown, true),
                Literal::Boolean(_) => (LogicalType::Boolean, false),
                Literal::Integer(_) => (LogicalType::Int64, false),
                Literal::Float(_) => (LogicalType::Float64, false),
                Literal::String(_) => (LogicalType::Text { max_length: None }, false),
            },
        ),
        Expr::IsNull { .. } => Ok((LogicalType::Boolean, false)),
        Expr::Parenthesized { expression } => infer_type(&**expression, table),
        Expr::Unary { operator: _, expression } => infer_type(&**expression, table),
        Expr::Binary { left, operator, right } => {
            let (left_type, left_null) = match infer_type(&**left, table) {
                Ok(found) => found,
                Err(error) => {
                    return Err(error);
                },
            };
            let (right_type, right_null) = match infer_type(&**right, table) {
                Ok(found) => found,
                Err(error) => {
                    return Err(error);
                },
            };
            let data_type = match operator {
                BinaryOperator::Or
                | BinaryOperator::And
                | BinaryOperator::Equal
                | BinaryOperator::NotEqual
                | BinaryOperator::LessThan
                | BinaryOperator::LessThanOrEqual
                | BinaryOperator::GreaterThan
                | BinaryOperator::GreaterThanOrEqual => LogicalType::Boolean,
                _ => if left_type == LogicalType::Float64 || right_type == LogicalType::Float64 {
                    LogicalType::Float64
                } else {
                    LogicalType::Int64
                },
            };
            Ok((data_type, left_null || right_null))
        },
    }
}

} // verus!
