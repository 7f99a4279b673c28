//! Reads statements: what the `sqlparser` crate makes of a text becomes a statement on the tables, or
//! is refused.
use crate::engine::value::copy_text;
use crate::mvcc::key_map::KeyMap;
use crate::server::sql::guard;
use crate::server::sql::guard::is_readable;
use crate::server::sql::statements;
use crate::server::sql::statements::{
    ComparisonOp, Condition, ConditionView, CreateTableStmt, DeleteStmt, DropTableStmt, Expression,
    ExpressionView, InsertStmt, SelectColumns, SelectStmt, Statement, StatementView, WhereClause,
};
use crate::server::sql::tree;
use crate::server::sql::tree::{
    read_statement, ColumnTree, ColumnTreeView, ExprShape, ExprShapeView, ExprTree, ExprTreeView,
    FactorTree, FactorTreeView, ItemTree, ItemTreeView, OperatorTree, OperatorTreeView, QueryTree,
    QueryTreeView, StatementTree, StatementTreeView, TypeTree, TypeTreeView, ValueTree,
    ValueTreeView,
};
use crate::server::storage::error::{QuantaError, QuantaErrorView};
use crate::server::storage::types;
use crate::server::storage::types::{Column, ColumnView, DataType, Value, ValueView};
use crate::text;
use crate::text::{chars_of, join_text, parse_number};
use vstd::prelude::*;
use vstd::string::*;
use vstd::utf8::{decode_utf8, encode_utf8};

verus! {

/// The floats that number texts stand for, as far as the caller has told them: the bits, or nothing
/// for a text that is no float.
pub struct FloatReadings {
    known: KeyMap<Option<u64>>,
}

impl View for FloatReadings {
    type V = Map<Seq<char>, Option<u64>>;

    closed spec fn view(&self) -> Map<Seq<char>, Option<u64>> {
        Map::new(
            |t: Seq<char>| self.known@.contains_key(encode_utf8(t)),
            |t: Seq<char>| self.known@[encode_utf8(t)],
        )
    }
}

impl FloatReadings {
    pub closed spec fn wf(&self) -> bool {
        self.known.wf()
    }

    /// Nothing told yet.
    pub fn new() -> (readings: FloatReadings)
        ensures
            readings.wf(),
            readings@ == Map::<Seq<char>, Option<u64>>::empty(),
    {
        let readings = FloatReadings { known: KeyMap::new() };
        assert(readings@ =~= Map::<Seq<char>, Option<u64>>::empty());
        readings
    }

    /// Says which float a text stands for.
    pub fn set(&mut self, digits: &str, bits: Option<u64>)
        requires
            old(self).wf(),
        ensures
            final(self).wf(),
            final(self)@ == old(self)@.insert(digits@, bits),
    {
        let ghost before = self@;
        self.known.insert(crate::bytes::copy_bytes(digits.as_bytes()), bits);
        proof {
            broadcast use vstd::utf8::encode_utf8_decode_utf8;

            assert forall|t: Seq<char>| #[trigger] encode_utf8(t) == encode_utf8(digits@) implies t
                == digits@ by {
                assert(decode_utf8(encode_utf8(t)) == t);
                assert(decode_utf8(encode_utf8(digits@)) == digits@);
            }
            assert(self@ =~= before.insert(digits@, bits));
        }
    }

    fn get(&self, digits: &str) -> (reading: Option<Option<u64>>)
        requires
            self.wf(),
        ensures
            match reading {
                Some(bits) => self@.contains_key(digits@) && self@[digits@] == bits,
                None => !self@.contains_key(digits@),
            },
    {
        match self.known.get(digits.as_bytes()) {
            Some(bits) => Some(*bits),
            None => None,
        }
    }
}

/// Why a text did not become a statement.
pub enum ParseStop {
    Error(QuantaError),
    /// The float that a number text stands for must be known first.
    Needs(String),
}

#[verifier::ext_equal]
pub enum ParseStopView {
    Error(QuantaErrorView),
    Needs(Seq<char>),
}

impl View for ParseStop {
    type V = ParseStopView;

    open spec fn view(&self) -> ParseStopView {
        match self {
            ParseStop::Error(error) => ParseStopView::Error(error@),
            ParseStop::Needs(digits) => ParseStopView::Needs(digits@),
        }
    }
}

pub open spec fn refused(detail: Seq<char>) -> ParseStopView {
    ParseStopView::Error(QuantaErrorView::SqlParseError(detail))
}

pub open spec fn refused_shown(words: Seq<char>, shown: Seq<char>) -> ParseStopView {
    refused(words + shown + ""@)
}

fn refuse(detail: &str) -> (stop: ParseStop)
    ensures
        stop@ == refused(detail@),
{
    ParseStop::Error(QuantaError::SqlParseError(String::from_str(detail)))
}

fn refuse_shown(words: &str, shown: &str) -> (stop: ParseStop)
    ensures
        stop@ == refused_shown(words@, shown@),
{
    ParseStop::Error(QuantaError::SqlParseError(join_text(words, shown, "")))
}

// Names and types.

/// The name of a table: one part.
pub open spec fn named(parts: Seq<Seq<char>>) -> Result<Seq<char>, ParseStopView> {
    if parts.len() == 1 {
        Ok(parts[0])
    } else {
        Err(refused("Multi-part table names not supported"@))
    }
}

fn object_name_to_string(parts: &Vec<String>) -> (name: Result<String, ParseStop>)
    ensures
        match name {
            Ok(name) => named(tree::text_views(parts@)) == Ok::<Seq<char>, ParseStopView>(name@),
            Err(stop) => named(tree::text_views(parts@)) == Err::<Seq<char>, ParseStopView>(stop@),
        },
{
    if parts.len() == 1 {
        Ok(copy_text(&parts[0]))
    } else {
        Err(refuse("Multi-part table names not supported"))
    }
}

/// The type of a column.
pub open spec fn typed(data_type: TypeTreeView) -> Result<DataType, ParseStopView> {
    match data_type {
        TypeTreeView::Int => Ok(DataType::Int),
        TypeTreeView::Varchar => Ok(DataType::Text),
        TypeTreeView::Text => Ok(DataType::Text),
        TypeTreeView::Boolean => Ok(DataType::Bool),
        TypeTreeView::Float => Ok(DataType::Float),
        TypeTreeView::Double => Ok(DataType::Float),
        TypeTreeView::Other { shown } => Err(refused_shown("Unsupported data type: "@, shown)),
    }
}

fn convert_data_type(data_type: &TypeTree) -> (made: Result<DataType, ParseStop>)
    ensures
        match made {
            Ok(made) => typed(data_type@) == Ok::<DataType, ParseStopView>(made),
            Err(stop) => typed(data_type@) == Err::<DataType, ParseStopView>(stop@),
        },
{
    match data_type {
        TypeTree::Int => Ok(DataType::Int),
        TypeTree::Varchar => Ok(DataType::Text),
        TypeTree::Text => Ok(DataType::Text),
        TypeTree::Boolean => Ok(DataType::Bool),
        TypeTree::Float => Ok(DataType::Float),
        TypeTree::Double => Ok(DataType::Float),
        TypeTree::Other { shown } => Err(refuse_shown("Unsupported data type: ", shown.as_str())),
    }
}

/// The columns of a new table.
pub open spec fn columns_made(columns: Seq<ColumnTreeView>) -> Result<
    Seq<ColumnView>,
    ParseStopView,
>
    decreases columns.len(),
{
    if columns.len() == 0 {
        Ok(Seq::empty())
    } else {
        match columns_made(columns.drop_last()) {
            Err(stop) => Err(stop),
            Ok(front) => match typed(columns.last().data_type) {
                Err(stop) => Err(stop),
                Ok(data_type) => Ok(
                    front.push(ColumnView { name: columns.last().name, data_type }),
                ),
            },
        }
    }
}

proof fn lemma_columns_stop(columns: Seq<ColumnTreeView>, few: int)
    requires
        0 <= few <= columns.len(),
        columns_made(columns.take(few)) is Err,
    ensures
        columns_made(columns) == columns_made(columns.take(few)),
    decreases columns.len(),
{
    if few == columns.len() {
        assert(columns.take(few) =~= columns);
    } else {
        assert(columns.drop_last().take(few) =~= columns.take(few));
        lemma_columns_stop(columns.drop_last(), few);
    }
}

fn convert_columns(columns: &Vec<ColumnTree>) -> (made: Result<Vec<Column>, ParseStop>)
    ensures
        match made {
            Ok(made) => columns_made(tree::column_views(columns@)) == Ok::<
                Seq<ColumnView>,
                ParseStopView,
            >(types::column_views(made@)),
            Err(stop) => columns_made(tree::column_views(columns@)) == Err::<
                Seq<ColumnView>,
                ParseStopView,
            >(stop@),
        },
{
    let ghost views = tree::column_views(columns@);
    let mut made: Vec<Column> = Vec::new();
    let length: usize = columns.len();
    let mut index: usize = 0;
    assert(views.take(0) =~= Seq::empty());
    assert(types::column_views(made@) =~= Seq::empty());
    while index < length
        invariant
            index <= length == columns@.len(),
            views == tree::column_views(columns@),
            columns_made(views.take(index as int)) == Ok::<Seq<ColumnView>, ParseStopView>(
                types::column_views(made@),
            ),
        decreases length - index,
    {
        let ghost before = types::column_views(made@);
        let ghost more = views.take(index + 1);
        proof {
            assert(more.drop_last() =~= views.take(index as int));
            assert(more.last() == columns@[index as int]@);
        }
        match convert_data_type(&columns[index].data_type) {
            Err(stop) => {
                proof {
                    lemma_columns_stop(views, index + 1);
                }
                return Err(stop);
            },
            Ok(data_type) => {
                let column = Column { name: copy_text(&columns[index].name), data_type };
                let ghost view = column@;
                made.push(column);
                assert(types::column_views(made@) =~= before.push(view));
            },
        }
        index = index + 1;
    }
    assert(views.take(length as int) =~= views);
    Ok(made)
}

// Values.

/// The integer that a text stands for: digits behind a sign or not.
pub open spec fn integer_read(digits: Seq<char>) -> Option<int> {
    if digits.len() > 1 && digits[0] == '-' {
        if digits[1] == '+' {
            None
        } else {
            match text::parsed_number(digits.drop_first(), 0x8000_0000_0000_0000) {
                Ok(number) => Some(-(number as int)),
                Err(_) => None,
            }
        }
    } else {
        match text::parsed_number(digits, i64::MAX as nat) {
            Ok(number) => Some(number as int),
            Err(_) => None,
        }
    }
}

fn read_integer(digits: &str) -> (number: Option<i64>)
    ensures
        match number {
            Some(number) => integer_read(digits@) == Some(number as int),
            None => integer_read(digits@) is None,
        },
{
    let chars = chars_of(digits);
    let length: usize = chars.len();
    if length > 1 && chars[0] == '-' {
        if chars[1] == '+' {
            return None;
        }
        assert(chars@.subrange(1, length as int) =~= digits@.drop_first());
        match parse_number(&chars, 1, length, 0x8000_0000_0000_0000) {
            Ok(number) => if number == 0x8000_0000_0000_0000 {
                Some(i64::MIN)
            } else {
                Some(-(number as i64))
            },
            Err(_) => None,
        }
    } else {
        assert(chars@.subrange(0, length as int) =~= digits@);
        match parse_number(&chars, 0, length, i64::MAX as u64) {
            Ok(number) => Some(number as i64),
            Err(_) => None,
        }
    }
}

/// The value of a number text: with a point a float, else an integer.
pub open spec fn number_read(digits: Seq<char>, readings: Map<Seq<char>, Option<u64>>) -> Result<
    ValueView,
    ParseStopView,
> {
    if digits.contains('.') {
        if !readings.contains_key(digits) {
            Err(ParseStopView::Needs(digits))
        } else {
            match readings[digits] {
                Some(bits) => Ok(ValueView::Float(bits)),
                None => Err(refused("Invalid float"@)),
            }
        }
    } else {
        match integer_read(digits) {
            Some(number) => Ok(ValueView::Int(number as i64)),
            None => Err(refused("Invalid integer"@)),
        }
    }
}

fn has_point(digits: &str) -> (yes: bool)
    ensures
        yes == digits@.contains('.'),
{
    let chars = chars_of(digits);
    let length: usize = chars.len();
    let mut index: usize = 0;
    while index < length
        invariant
            index <= length == chars@.len(),
            chars@ == digits@,
            forall|i: int| 0 <= i < index ==> chars@[i] != '.',
        decreases length - index,
    {
        if chars[index] == '.' {
            assert(digits@[index as int] == '.');
            return true;
        }
        index = index + 1;
    }
    false
}

/// The value of a literal.
pub open spec fn value_read(
    value: ValueTreeView,
    readings: Map<Seq<char>, Option<u64>>,
) -> Result<ValueView, ParseStopView> {
    match value {
        ValueTreeView::Number(digits) => number_read(digits, readings),
        ValueTreeView::SingleQuoted(content) => Ok(ValueView::Text(content)),
        ValueTreeView::DoubleQuoted(content) => Ok(ValueView::Text(content)),
        ValueTreeView::Boolean(set) => Ok(ValueView::Bool(set)),
        ValueTreeView::Other { shown } => Err(refused_shown("Unsupported value: "@, shown)),
    }
}

fn convert_value(value: &ValueTree, readings: &FloatReadings) -> (made: Result<Value, ParseStop>)
    requires
        readings.wf(),
    ensures
        match made {
            Ok(made) => value_read(value@, readings@) == Ok::<ValueView, ParseStopView>(made@),
            Err(stop) => value_read(value@, readings@) == Err::<ValueView, ParseStopView>(stop@),
        },
{
    match value {
        ValueTree::Number(digits) => {
            if has_point(digits.as_str()) {
                match readings.get(digits.as_str()) {
                    None => Err(ParseStop::Needs(copy_text(digits))),
                    Some(Some(bits)) => Ok(Value::Float(bits)),
                    Some(None) => Err(refuse("Invalid float")),
                }
            } else {
                match read_integer(digits.as_str()) {
                    Some(number) => Ok(Value::Int(number)),
                    None => Err(refuse("Invalid integer")),
                }
            }
        },
        ValueTree::SingleQuoted(content) => Ok(Value::Text(copy_text(content))),
        ValueTree::DoubleQuoted(content) => Ok(Value::Text(copy_text(content))),
        ValueTree::Boolean(set) => Ok(Value::Bool(*set)),
        ValueTree::Other { shown } => Err(refuse_shown("Unsupported value: ", shown.as_str())),
    }
}

/// The value of an expression in a row to insert: a literal.
pub open spec fn literal_read(
    expr: ExprTreeView,
    readings: Map<Seq<char>, Option<u64>>,
) -> Result<ValueView, ParseStopView> {
    match expr.shape {
        ExprShapeView::Value(value) => value_read(value, readings),
        _ => Err(refused_shown("Unsupported expression in VALUES: "@, expr.shown)),
    }
}

fn convert_expr_to_value(expr: &ExprTree, readings: &FloatReadings) -> (made: Result<
    Value,
    ParseStop,
>)
    requires
        readings.wf(),
    ensures
        match made {
            Ok(made) => literal_read(expr@, readings@) == Ok::<ValueView, ParseStopView>(made@),
            Err(stop) => literal_read(expr@, readings@) == Err::<ValueView, ParseStopView>(stop@),
        },
{
    match &expr.shape {
        ExprShape::Value(value) => convert_value(value, readings),
        _ => Err(refuse_shown("Unsupported expression in VALUES: ", expr.shown.as_str())),
    }
}

pub open spec fn literals_read(
    exprs: Seq<ExprTreeView>,
    readings: Map<Seq<char>, Option<u64>>,
) -> Result<Seq<ValueView>, ParseStopView>
    decreases exprs.len(),
{
    if exprs.len() == 0 {
        Ok(Seq::empty())
    } else {
        match literals_read(exprs.drop_last(), readings) {
            Err(stop) => Err(stop),
            Ok(front) => match literal_read(exprs.last(), readings) {
                Err(stop) => Err(stop),
                Ok(value) => Ok(front.push(value)),
            },
        }
    }
}

proof fn lemma_literals_stop(
    exprs: Seq<ExprTreeView>,
    readings: Map<Seq<char>, Option<u64>>,
    few: int,
)
    requires
        0 <= few <= exprs.len(),
        literals_read(exprs.take(few), readings) is Err,
    ensures
        literals_read(exprs, readings) == literals_read(exprs.take(few), readings),
    decreases exprs.len(),
{
    if few == exprs.len() {
        assert(exprs.take(few) =~= exprs);
    } else {
        assert(exprs.drop_last().take(few) =~= exprs.take(few));
        lemma_literals_stop(exprs.drop_last(), readings, few);
    }
}

fn convert_row(exprs: &Vec<ExprTree>, readings: &FloatReadings) -> (made: Result<
    Vec<Value>,
    ParseStop,
>)
    requires
        readings.wf(),
    ensures
        match made {
            Ok(made) => literals_read(tree::expr_views(exprs@), readings@) == Ok::<
                Seq<ValueView>,
                ParseStopView,
            >(types::value_views(made@)),
            Err(stop) => literals_read(tree::expr_views(exprs@), readings@) == Err::<
                Seq<ValueView>,
                ParseStopView,
            >(stop@),
        },
{
    let ghost views = tree::expr_views(exprs@);
    let mut made: Vec<Value> = Vec::new();
    let length: usize = exprs.len();
    let mut index: usize = 0;
    assert(views.take(0) =~= Seq::empty());
    assert(types::value_views(made@) =~= Seq::empty());
    while index < length
        invariant
            index <= length == exprs@.len(),
            readings.wf(),
            views == tree::expr_views(exprs@),
            literals_read(views.take(index as int), readings@) == Ok::<
                Seq<ValueView>,
                ParseStopView,
            >(types::value_views(made@)),
        decreases length - index,
    {
        let ghost before = types::value_views(made@);
        let ghost more = views.take(index + 1);
        proof {
            assert(more.drop_last() =~= views.take(index as int));
            assert(more.last() == exprs@[index as int]@);
        }
        match convert_expr_to_value(&exprs[index], readings) {
            Err(stop) => {
                proof {
                    lemma_literals_stop(views, readings@, index + 1);
                }
                return Err(stop);
            },
            Ok(value) => {
                let ghost view = value@;
                made.push(value);
                assert(types::value_views(made@) =~= before.push(view));
            },
        }
        index = index + 1;
    }
    assert(views.take(length as int) =~= views);
    Ok(made)
}

/// The values of a row to insert.
pub open spec fn values_read(
    source: QueryTreeView,
    readings: Map<Seq<char>, Option<u64>>,
) -> Result<Seq<ValueView>, ParseStopView> {
    match source {
        QueryTreeView::Values { rows } => if rows.len() != 1 {
            Err(refused("INSERT expects exactly one row"@))
        } else {
            literals_read(rows[0], readings)
        },
        _ => Err(refused("INSERT VALUES expected"@)),
    }
}

fn convert_insert_values(source: &QueryTree, readings: &FloatReadings) -> (made: Result<
    Vec<Value>,
    ParseStop,
>)
    requires
        readings.wf(),
    ensures
        match made {
            Ok(made) => values_read(source@, readings@) == Ok::<Seq<ValueView>, ParseStopView>(
                types::value_views(made@),
            ),
            Err(stop) => values_read(source@, readings@) == Err::<Seq<ValueView>, ParseStopView>(
                stop@,
            ),
        },
{
    match source {
        QueryTree::Values { rows } => if rows.len() != 1 {
            Err(refuse("INSERT expects exactly one row"))
        } else {
            convert_row(&rows[0], readings)
        },
        _ => Err(refuse("INSERT VALUES expected")),
    }
}

// Conditions.

/// A side of a comparison.
pub open spec fn side_read(
    expr: ExprTreeView,
    readings: Map<Seq<char>, Option<u64>>,
) -> Result<ExpressionView, ParseStopView> {
    match expr.shape {
        ExprShapeView::Identifier(name) => Ok(ExpressionView::Column(name)),
        ExprShapeView::Value(value) => match value_read(value, readings) {
            Err(stop) => Err(stop),
            Ok(value) => Ok(ExpressionView::Literal(value)),
        },
        _ => Err(refused_shown("Unsupported expression: "@, expr.shown)),
    }
}

fn convert_expr_to_expression(expr: &ExprTree, readings: &FloatReadings) -> (made: Result<
    Expression,
    ParseStop,
>)
    requires
        readings.wf(),
    ensures
        match made {
            Ok(made) => side_read(expr@, readings@) == Ok::<ExpressionView, ParseStopView>(made@),
            Err(stop) => side_read(expr@, readings@) == Err::<ExpressionView, ParseStopView>(stop@),
        },
{
    match &expr.shape {
        ExprShape::Identifier(name) => Ok(Expression::Column(copy_text(name))),
        ExprShape::Value(value) => match convert_value(value, readings) {
            Err(stop) => Err(stop),
            Ok(value) => Ok(Expression::Literal(value)),
        },
        _ => Err(refuse_shown("Unsupported expression: ", expr.shown.as_str())),
    }
}

pub open spec fn operator_read(operator: OperatorTreeView) -> Result<ComparisonOp, ParseStopView> {
    match operator {
        OperatorTreeView::Eq => Ok(ComparisonOp::Equal),
        OperatorTreeView::NotEq => Ok(ComparisonOp::NotEqual),
        OperatorTreeView::Lt => Ok(ComparisonOp::LessThan),
        OperatorTreeView::Gt => Ok(ComparisonOp::GreaterThan),
        OperatorTreeView::LtEq => Ok(ComparisonOp::LessThanOrEqual),
        OperatorTreeView::GtEq => Ok(ComparisonOp::GreaterThanOrEqual),
        OperatorTreeView::Other { shown } => Err(
            refused_shown("Unsupported comparison operator: "@, shown),
        ),
    }
}

fn convert_binary_op(operator: &OperatorTree) -> (made: Result<ComparisonOp, ParseStop>)
    ensures
        match made {
            Ok(made) => operator_read(operator@) == Ok::<ComparisonOp, ParseStopView>(made),
            Err(stop) => operator_read(operator@) == Err::<ComparisonOp, ParseStopView>(stop@),
        },
{
    match operator {
        OperatorTree::Eq => Ok(ComparisonOp::Equal),
        OperatorTree::NotEq => Ok(ComparisonOp::NotEqual),
        OperatorTree::Lt => Ok(ComparisonOp::LessThan),
        OperatorTree::Gt => Ok(ComparisonOp::GreaterThan),
        OperatorTree::LtEq => Ok(ComparisonOp::LessThanOrEqual),
        OperatorTree::GtEq => Ok(ComparisonOp::GreaterThanOrEqual),
        OperatorTree::Other { shown } => Err(
            refuse_shown("Unsupported comparison operator: ", shown.as_str()),
        ),
    }
}

/// A condition: one comparison, in any number of brackets.
pub open spec fn condition_read(
    expr: ExprTreeView,
    readings: Map<Seq<char>, Option<u64>>,
) -> Result<ConditionView, ParseStopView>
    decreases expr,
{
    match expr.shape {
        ExprShapeView::Binary { left, operator, right } => match side_read(*left, readings) {
            Err(stop) => Err(stop),
            Ok(first) => match side_read(*right, readings) {
                Err(stop) => Err(stop),
                Ok(second) => match operator_read(operator) {
                    Err(stop) => Err(stop),
                    Ok(operator) => Ok(
                        ConditionView::Comparison { left: first, operator, right: second },
                    ),
                },
            },
        },
        ExprShapeView::Nested(inner) => match condition_read(*inner, readings) {
            Err(stop) => Err(stop),
            Ok(condition) => Ok(ConditionView::Parenthesized { condition: Box::new(condition) }),
        },
        _ => Err(refused_shown("Unsupported expression in WHERE clause: "@, expr.shown)),
    }
}

fn convert_expr_to_condition(expr: &ExprTree, readings: &FloatReadings) -> (made: Result<
    Condition,
    ParseStop,
>)
    requires
        readings.wf(),
    ensures
        match made {
            Ok(made) => condition_read(expr@, readings@) == Ok::<ConditionView, ParseStopView>(
                made@,
            ),
            Err(stop) => condition_read(expr@, readings@) == Err::<ConditionView, ParseStopView>(
                stop@,
            ),
        },
    decreases expr,
{
    match &expr.shape {
        ExprShape::Binary { left, operator, right } => {
            let first = match convert_expr_to_expression(left, readings) {
                Err(stop) => {
                    return Err(stop);
                },
                Ok(first) => first,
            };
            let second = match convert_expr_to_expression(right, readings) {
                Err(stop) => {
                    return Err(stop);
                },
                Ok(second) => second,
            };
            match convert_binary_op(operator) {
                Err(stop) => Err(stop),
                Ok(operator) => Ok(Condition::Comparison { left: first, operator, right: second }),
            }
        },
        ExprShape::Nested(inner) => match convert_expr_to_condition(inner, readings) {
            Err(stop) => Err(stop),
            Ok(condition) => Ok(Condition::Parenthesized { condition: Box::new(condition) }),
        },
        _ => Err(refuse_shown("Unsupported expression in WHERE clause: ", expr.shown.as_str())),
    }
}

/// What stands behind WHERE, if anything does.
pub open spec fn where_read(
    selection: Option<ExprTreeView>,
    readings: Map<Seq<char>, Option<u64>>,
) -> Result<Option<ConditionView>, ParseStopView> {
    match selection {
        None => Ok(None),
        Some(expr) => match condition_read(expr, readings) {
            Err(stop) => Err(stop),
            Ok(condition) => Ok(Some(condition)),
        },
    }
}

fn convert_where(selection: &Option<ExprTree>, readings: &FloatReadings) -> (made: Result<
    Option<WhereClause>,
    ParseStop,
>)
    requires
        readings.wf(),
    ensures
        match made {
            Ok(made) => where_read(tree::selection_view(*selection), readings@) == Ok::<
                Option<ConditionView>,
                ParseStopView,
            >(statements::where_view(made)),
            Err(stop) => where_read(tree::selection_view(*selection), readings@) == Err::<
                Option<ConditionView>,
                ParseStopView,
            >(stop@),
        },
{
    match selection {
        None => Ok(None),
        Some(expr) => match convert_expr_to_condition(expr, readings) {
            Err(stop) => Err(stop),
            Ok(condition) => Ok(Some(WhereClause { condition })),
        },
    }
}

// Queries.

/// The one table that a statement names.
pub open spec fn table_read(
    from: Seq<FactorTreeView>,
    count: Seq<char>,
    kind: Seq<char>,
) -> Result<Seq<char>, ParseStopView> {
    if from.len() != 1 {
        Err(refused(count))
    } else {
        match from[0] {
            FactorTreeView::Table { name } => named(name),
            FactorTreeView::Other => Err(refused(kind)),
        }
    }
}

fn convert_from(from: &Vec<FactorTree>, count: &str, kind: &str) -> (made: Result<
    String,
    ParseStop,
>)
    ensures
        match made {
            Ok(made) => table_read(tree::factor_views(from@), count@, kind@) == Ok::<
                Seq<char>,
                ParseStopView,
            >(made@),
            Err(stop) => table_read(tree::factor_views(from@), count@, kind@) == Err::<
                Seq<char>,
                ParseStopView,
            >(stop@),
        },
{
    if from.len() != 1 {
        return Err(refuse(count));
    }
    assert(tree::factor_views(from@)[0] == from@[0]@);
    match &from[0] {
        FactorTree::Table { name } => object_name_to_string(name),
        FactorTree::Other => Err(refuse(kind)),
    }
}

/// The columns that a query names.
pub open spec fn names_read(items: Seq<ItemTreeView>) -> Result<Seq<Seq<char>>, ParseStopView>
    decreases items.len(),
{
    if items.len() == 0 {
        Ok(Seq::empty())
    } else {
        match names_read(items.drop_last()) {
            Err(stop) => Err(stop),
            Ok(front) => match items.last() {
                ItemTreeView::Column { name } => Ok(front.push(name)),
                _ => Err(refused("Unsupported SELECT projection"@)),
            },
        }
    }
}

/// What a query asks for: all columns, where that is all that it says, or those that it names.
pub open spec fn projection_read(items: Seq<ItemTreeView>) -> Result<
    Option<Seq<Seq<char>>>,
    ParseStopView,
> {
    if items.len() == 1 && items[0] is Wildcard {
        Ok(None)
    } else {
        match names_read(items) {
            Err(stop) => Err(stop),
            Ok(names) => Ok(Some(names)),
        }
    }
}

proof fn lemma_names_stop(items: Seq<ItemTreeView>, few: int)
    requires
        0 <= few <= items.len(),
        names_read(items.take(few)) is Err,
    ensures
        names_read(items) == names_read(items.take(few)),
    decreases items.len(),
{
    if few == items.len() {
        assert(items.take(few) =~= items);
    } else {
        assert(items.drop_last().take(few) =~= items.take(few));
        lemma_names_stop(items.drop_last(), few);
    }
}

fn convert_projection(items: &Vec<ItemTree>) -> (made: Result<SelectColumns, ParseStop>)
    ensures
        match made {
            Ok(made) => projection_read(tree::item_views(items@)) == Ok::<
                Option<Seq<Seq<char>>>,
                ParseStopView,
            >(statements::chosen_columns(made)),
            Err(stop) => projection_read(tree::item_views(items@)) == Err::<
                Option<Seq<Seq<char>>>,
                ParseStopView,
            >(stop@),
        },
{
    let ghost views = tree::item_views(items@);
    let length: usize = items.len();
    if length == 1 {
        assert(views[0] == items@[0]@);
        if let ItemTree::Wildcard = &items[0] {
            return Ok(SelectColumns::All);
        }
    }
    let mut names: Vec<String> = Vec::new();
    let mut index: usize = 0;
    assert(views.take(0) =~= Seq::empty());
    assert(statements::text_views(names@) =~= Seq::empty());
    while index < length
        invariant
            index <= length == items@.len(),
            views == tree::item_views(items@),
            !(length == 1 && views[0] is Wildcard),
            names_read(views.take(index as int)) == Ok::<Seq<Seq<char>>, ParseStopView>(
                statements::text_views(names@),
            ),
        decreases length - index,
    {
        let ghost before = statements::text_views(names@);
        let ghost more = views.take(index + 1);
        proof {
            assert(more.drop_last() =~= views.take(index as int));
            assert(more.last() == items@[index as int]@);
        }
        match &items[index] {
            ItemTree::Column { name } => {
                names.push(copy_text(name));
                assert(statements::text_views(names@) =~= before.push(name@));
            },
            _ => {
                proof {
                    lemma_names_stop(views, index + 1);
                }
                return Err(refuse("Unsupported SELECT projection"));
            },
        }
        index = index + 1;
    }
    assert(views.take(length as int) =~= views);
    Ok(SelectColumns::Specific(names))
}

/// A query on one table.
pub open spec fn query_read(query: QueryTreeView, readings: Map<Seq<char>, Option<u64>>) -> Result<
    StatementView,
    ParseStopView,
> {
    match query {
        QueryTreeView::Select { from, projection, selection } => match table_read(
            from,
            "SELECT expects exactly one table"@,
            "Only table references are supported in SELECT"@,
        ) {
            Err(stop) => Err(stop),
            Ok(table_name) => match projection_read(projection) {
                Err(stop) => Err(stop),
                Ok(columns) => match where_read(selection, readings) {
                    Err(stop) => Err(stop),
                    Ok(condition) => Ok(StatementView::Select { table_name, columns, condition }),
                },
            },
        },
        _ => Err(refused("Only SELECT queries are supported"@)),
    }
}

fn convert_query(query: &QueryTree, readings: &FloatReadings) -> (made: Result<
    Statement,
    ParseStop,
>)
    requires
        readings.wf(),
    ensures
        match made {
            Ok(made) => query_read(query@, readings@) == Ok::<StatementView, ParseStopView>(made@),
            Err(stop) => query_read(query@, readings@) == Err::<StatementView, ParseStopView>(
                stop@,
            ),
        },
{
    match query {
        QueryTree::Select { from, projection, selection } => {
            let table_name = match convert_from(
                from,
                "SELECT expects exactly one table",
                "Only table references are supported in SELECT",
            ) {
                Err(stop) => {
                    return Err(stop);
                },
                Ok(name) => name,
            };
            let columns = match convert_projection(projection) {
                Err(stop) => {
                    return Err(stop);
                },
                Ok(columns) => columns,
            };
            match convert_where(selection, readings) {
                Err(stop) => Err(stop),
                Ok(where_clause) => Ok(
                    Statement::Select(SelectStmt { table_name, columns, where_clause }),
                ),
            }
        },
        _ => Err(refuse("Only SELECT queries are supported")),
    }
}

/// The statement on the tables that a parsed statement stands for.
pub open spec fn statement_read(
    statement: StatementTreeView,
    readings: Map<Seq<char>, Option<u64>>,
) -> Result<StatementView, ParseStopView> {
    match statement {
        StatementTreeView::CreateTable { name, columns } => match named(name) {
            Err(stop) => Err(stop),
            Ok(table_name) => match columns_made(columns) {
                Err(stop) => Err(stop),
                Ok(columns) => Ok(StatementView::CreateTable { table_name, columns }),
            },
        },
        StatementTreeView::Drop { table, names } => if !table {
            Err(refused("Only DROP TABLE is supported"@))
        } else if names.len() != 1 {
            Err(refused("DROP TABLE expects exactly one table name"@))
        } else {
            match named(names[0]) {
                Err(stop) => Err(stop),
                Ok(table_name) => Ok(StatementView::DropTable { table_name }),
            }
        },
        StatementTreeView::Insert { name, source } => match named(name) {
            Err(stop) => Err(stop),
            Ok(table_name) => match source {
                None => Err(refused("INSERT source is required"@)),
                Some(query) => match values_read(query, readings) {
                    Err(stop) => Err(stop),
                    Ok(values) => Ok(StatementView::Insert { table_name, values }),
                },
            },
        },
        StatementTreeView::Query(query) => query_read(query, readings),
        StatementTreeView::Delete { from, selection } => match table_read(
            from,
            "DELETE expects exactly one table"@,
            "Only table references are supported in DELETE"@,
        ) {
            Err(stop) => Err(stop),
            Ok(table_name) => match where_read(selection, readings) {
                Err(stop) => Err(stop),
                Ok(condition) => Ok(StatementView::Delete { table_name, condition }),
            },
        },
        StatementTreeView::Other { shown } => Err(refused_shown("Unsupported statement: "@, shown)),
    }
}

/// The statement on the tables that a parsed statement stands for.
pub fn convert_statement(statement: &StatementTree, readings: &FloatReadings) -> (made: Result<
    Statement,
    ParseStop,
>)
    requires
        readings.wf(),
    ensures
        match made {
            Ok(made) => statement_read(statement@, readings@) == Ok::<StatementView, ParseStopView>(
                made@,
            ),
            Err(stop) => statement_read(statement@, readings@) == Err::<
                StatementView,
                ParseStopView,
            >(stop@),
        },
{
    match statement {
        StatementTree::CreateTable { name, columns } => {
            let table_name = match object_name_to_string(name) {
                Err(stop) => {
                    return Err(stop);
                },
                Ok(name) => name,
            };
            match convert_columns(columns) {
                Err(stop) => Err(stop),
                Ok(columns) => Ok(Statement::CreateTable(CreateTableStmt { table_name, columns })),
            }
        },
        StatementTree::Drop { table, names } => {
            if !*table {
                return Err(refuse("Only DROP TABLE is supported"));
            }
            if names.len() != 1 {
                return Err(refuse("DROP TABLE expects exactly one table name"));
            }
            match object_name_to_string(&names[0]) {
                Err(stop) => Err(stop),
                Ok(table_name) => Ok(Statement::DropTable(DropTableStmt { table_name })),
            }
        },
        StatementTree::Insert { name, source } => {
            let table_name = match object_name_to_string(name) {
                Err(stop) => {
                    return Err(stop);
                },
                Ok(name) => name,
            };
            match source {
                None => Err(refuse("INSERT source is required")),
                Some(query) => match convert_insert_values(query, readings) {
                    Err(stop) => Err(stop),
                    Ok(values) => Ok(Statement::Insert(InsertStmt { table_name, values })),
                },
            }
        },
        StatementTree::Query(query) => convert_query(query, readings),
        StatementTree::Delete { from, selection } => {
            let table_name = match convert_from(
                from,
                "DELETE expects exactly one table",
                "Only table references are supported in DELETE",
            ) {
                Err(stop) => {
                    return Err(stop);
                },
                Ok(name) => name,
            };
            match convert_where(selection, readings) {
                Err(stop) => Err(stop),
                Ok(where_clause) => Ok(Statement::Delete(DeleteStmt { table_name, where_clause })),
            }
        },
        StatementTree::Other { shown } => Err(
            refuse_shown("Unsupported statement: ", shown.as_str()),
        ),
    }
}

/// The statement on the tables that a text stands for.
pub open spec fn parsed(sql: Seq<char>, readings: Map<Seq<char>, Option<u64>>) -> Result<
    StatementView,
    ParseStopView,
> {
    if !guard::readable(sql) {
        Err(refused("Unsupported option in statement"@))
    } else {
        match tree::sql_statement(sql) {
            Err(detail) => Err(refused(detail)),
            Ok(read) => statement_read(read.statement, readings),
        }
    }
}

/// Reads statements.
pub struct SqlParser {}

impl SqlParser {
    pub fn new() -> (parser: SqlParser) {
        SqlParser {  }
    }

    /// The statement on the tables that a text stands for.
    pub fn parse(&self, sql: &str, readings: &FloatReadings) -> (made: Result<
        Statement,
        ParseStop,
    >)
        requires
            readings.wf(),
        ensures
            match made {
                Ok(made) => parsed(sql@, readings@) == Ok::<StatementView, ParseStopView>(made@),
                Err(stop) => parsed(sql@, readings@) == Err::<StatementView, ParseStopView>(stop@),
            },
    {
        if !is_readable(sql) {
            return Err(refuse("Unsupported option in statement"));
        }
        match read_statement(sql) {
            Err(detail) => Err(ParseStop::Error(QuantaError::SqlParseError(detail))),
            Ok(read) => convert_statement(&read.statement, readings),
        }
    }
}

} // verus!
