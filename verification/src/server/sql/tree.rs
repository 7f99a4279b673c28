//! What a parsed statement holds: the parts that are looked at as plain values, and for what is not
//! supported the words that show it.
use crate::server::sql::guard;
use sqlparser::ast::{
    BinaryOperator as SqlOperator, ColumnDef as SqlColumn, DataType as SqlType, Expr as SqlExpr,
    ObjectName as SqlName, ObjectType, Query as SqlQuery, SelectItem as SqlItem, SetExpr,
    Statement as SqlStatement, TableFactor, TableWithJoins as SqlTable, Value as SqlValue,
};
use sqlparser::dialect::GenericDialect;
use sqlparser::parser::Parser;
use sqlparser::tokenizer::{Token as SqlToken, Tokenizer};
use vstd::prelude::*;
use vstd::string::*;

verus! {

/// A token of a text: the parts that are looked at.
pub enum TokenTree {
    /// A word, quoted or not, and the keyword that it is.
    Word { keyword: String },
    /// A quoted string that can be an identifier.
    Text,
    Number { digits: String },
    Equal,
    /// White space or a comment.
    Space,
    Other,
}

#[verifier::ext_equal]
pub enum TokenTreeView {
    Word { keyword: Seq<char> },
    Text,
    Number { digits: Seq<char> },
    Equal,
    Space,
    Other,
}

impl View for TokenTree {
    type V = TokenTreeView;

    open spec fn view(&self) -> TokenTreeView {
        match *self {
            TokenTree::Word { keyword } => TokenTreeView::Word { keyword: keyword@ },
            TokenTree::Text => TokenTreeView::Text,
            TokenTree::Number { digits } => TokenTreeView::Number { digits: digits@ },
            TokenTree::Equal => TokenTreeView::Equal,
            TokenTree::Space => TokenTreeView::Space,
            TokenTree::Other => TokenTreeView::Other,
        }
    }
}

/// A token and where it stands in its text: its line and its column, both counted from one.
pub struct PlacedTree {
    pub token: TokenTree,
    pub line: u64,
    pub column: u64,
}

#[verifier::ext_equal]
pub struct PlacedView {
    pub token: TokenTreeView,
    pub line: u64,
    pub column: u64,
}

impl View for PlacedTree {
    type V = PlacedView;

    open spec fn view(&self) -> PlacedView {
        PlacedView { token: self.token@, line: self.line, column: self.column }
    }
}

/// What is read of a text.
pub struct ReadTree {
    pub statement: StatementTree,
    /// The name behind `GRANTED BY`, where the statement, or the last one inside it, has one.
    pub granter: Option<String>,
}

#[verifier::ext_equal]
pub struct ReadTreeView {
    pub statement: StatementTreeView,
    pub granter: Option<Seq<char>>,
}

impl View for ReadTree {
    type V = ReadTreeView;

    open spec fn view(&self) -> ReadTreeView {
        ReadTreeView {
            statement: self.statement@,
            granter: match self.granter {
                Some(name) => Some(name@),
                None => None,
            },
        }
    }
}

pub enum StatementTree {
    CreateTable { name: Vec<String>, columns: Vec<ColumnTree> },
    Drop { table: bool, names: Vec<Vec<String>> },
    Insert { name: Vec<String>, source: Option<QueryTree> },
    Query(QueryTree),
    Delete { from: Vec<FactorTree>, selection: Option<ExprTree> },
    Other { shown: String },
}

pub struct ColumnTree {
    pub name: String,
    pub data_type: TypeTree,
}

pub enum TypeTree {
    Int,
    Varchar,
    Text,
    Boolean,
    Float,
    Double,
    Other { shown: String },
}

pub enum QueryTree {
    Select { from: Vec<FactorTree>, projection: Vec<ItemTree>, selection: Option<ExprTree> },
    Values { rows: Vec<Vec<ExprTree>> },
    Other,
}

pub enum FactorTree {
    Table { name: Vec<String> },
    Other,
}

pub enum ItemTree {
    Wildcard,
    Column { name: String },
    Other,
}

/// An expression, and the words that show it.
pub struct ExprTree {
    pub shape: ExprShape,
    pub shown: String,
}

pub enum ExprShape {
    Identifier(String),
    Value(ValueTree),
    Binary { left: Box<ExprTree>, operator: OperatorTree, right: Box<ExprTree> },
    Nested(Box<ExprTree>),
    Other,
}

pub enum ValueTree {
    Number(String),
    SingleQuoted(String),
    DoubleQuoted(String),
    Boolean(bool),
    Other { shown: String },
}

pub enum OperatorTree {
    Eq,
    NotEq,
    Lt,
    Gt,
    LtEq,
    GtEq,
    Other { shown: String },
}

// The same, as contracts speak of it.

#[verifier::ext_equal]
pub enum StatementTreeView {
    CreateTable { name: Seq<Seq<char>>, columns: Seq<ColumnTreeView> },
    Drop { table: bool, names: Seq<Seq<Seq<char>>> },
    Insert { name: Seq<Seq<char>>, source: Option<QueryTreeView> },
    Query(QueryTreeView),
    Delete { from: Seq<FactorTreeView>, selection: Option<ExprTreeView> },
    Other { shown: Seq<char> },
}

#[verifier::ext_equal]
pub struct ColumnTreeView {
    pub name: Seq<char>,
    pub data_type: TypeTreeView,
}

#[verifier::ext_equal]
pub enum TypeTreeView {
    Int,
    Varchar,
    Text,
    Boolean,
    Float,
    Double,
    Other { shown: Seq<char> },
}

#[verifier::ext_equal]
pub enum QueryTreeView {
    Select {
        from: Seq<FactorTreeView>,
        projection: Seq<ItemTreeView>,
        selection: Option<ExprTreeView>,
    },
    Values { rows: Seq<Seq<ExprTreeView>> },
    Other,
}

#[verifier::ext_equal]
pub enum FactorTreeView {
    Table { name: Seq<Seq<char>> },
    Other,
}

#[verifier::ext_equal]
pub enum ItemTreeView {
    Wildcard,
    Column { name: Seq<char> },
    Other,
}

#[verifier::ext_equal]
pub struct ExprTreeView {
    pub shape: ExprShapeView,
    pub shown: Seq<char>,
}

#[verifier::ext_equal]
pub enum ExprShapeView {
    Identifier(Seq<char>),
    Value(ValueTreeView),
    Binary { left: Box<ExprTreeView>, operator: OperatorTreeView, right: Box<ExprTreeView> },
    Nested(Box<ExprTreeView>),
    Other,
}

#[verifier::ext_equal]
pub enum ValueTreeView {
    Number(Seq<char>),
    SingleQuoted(Seq<char>),
    DoubleQuoted(Seq<char>),
    Boolean(bool),
    Other { shown: Seq<char> },
}

#[verifier::ext_equal]
pub enum OperatorTreeView {
    Eq,
    NotEq,
    Lt,
    Gt,
    LtEq,
    GtEq,
    Other { shown: Seq<char> },
}

pub open spec fn text_views(names: Seq<String>) -> Seq<Seq<char>> {
    Seq::new(names.len(), |i: int| names[i]@)
}

impl View for TypeTree {
    type V = TypeTreeView;

    open spec fn view(&self) -> TypeTreeView {
        match self {
            TypeTree::Int => TypeTreeView::Int,
            TypeTree::Varchar => TypeTreeView::Varchar,
            TypeTree::Text => TypeTreeView::Text,
            TypeTree::Boolean => TypeTreeView::Boolean,
            TypeTree::Float => TypeTreeView::Float,
            TypeTree::Double => TypeTreeView::Double,
            TypeTree::Other { shown } => TypeTreeView::Other { shown: shown@ },
        }
    }
}

impl View for ColumnTree {
    type V = ColumnTreeView;

    open spec fn view(&self) -> ColumnTreeView {
        ColumnTreeView { name: self.name@, data_type: self.data_type@ }
    }
}

impl View for FactorTree {
    type V = FactorTreeView;

    open spec fn view(&self) -> FactorTreeView {
        match self {
            FactorTree::Table { name } => FactorTreeView::Table { name: text_views(name@) },
            FactorTree::Other => FactorTreeView::Other,
        }
    }
}

impl View for ItemTree {
    type V = ItemTreeView;

    open spec fn view(&self) -> ItemTreeView {
        match self {
            ItemTree::Wildcard => ItemTreeView::Wildcard,
            ItemTree::Column { name } => ItemTreeView::Column { name: name@ },
            ItemTree::Other => ItemTreeView::Other,
        }
    }
}

impl View for ValueTree {
    type V = ValueTreeView;

    open spec fn view(&self) -> ValueTreeView {
        match self {
            ValueTree::Number(digits) => ValueTreeView::Number(digits@),
            ValueTree::SingleQuoted(content) => ValueTreeView::SingleQuoted(content@),
            ValueTree::DoubleQuoted(content) => ValueTreeView::DoubleQuoted(content@),
            ValueTree::Boolean(set) => ValueTreeView::Boolean(*set),
            ValueTree::Other { shown } => ValueTreeView::Other { shown: shown@ },
        }
    }
}

impl View for OperatorTree {
    type V = OperatorTreeView;

    open spec fn view(&self) -> OperatorTreeView {
        match self {
            OperatorTree::Eq => OperatorTreeView::Eq,
            OperatorTree::NotEq => OperatorTreeView::NotEq,
            OperatorTree::Lt => OperatorTreeView::Lt,
            OperatorTree::Gt => OperatorTreeView::Gt,
            OperatorTree::LtEq => OperatorTreeView::LtEq,
            OperatorTree::GtEq => OperatorTreeView::GtEq,
            OperatorTree::Other { shown } => OperatorTreeView::Other { shown: shown@ },
        }
    }
}

pub open spec fn expr_view(expr: ExprTree) -> ExprTreeView
    decreases expr,
{
    ExprTreeView {
        shape: match expr.shape {
            ExprShape::Identifier(name) => ExprShapeView::Identifier(name@),
            ExprShape::Value(value) => ExprShapeView::Value(value@),
            ExprShape::Binary { left, operator, right } => ExprShapeView::Binary {
                left: Box::new(expr_view(*left)),
                operator: operator@,
                right: Box::new(expr_view(*right)),
            },
            ExprShape::Nested(inner) => ExprShapeView::Nested(Box::new(expr_view(*inner))),
            ExprShape::Other => ExprShapeView::Other,
        },
        shown: expr.shown@,
    }
}

impl View for ExprTree {
    type V = ExprTreeView;

    open spec fn view(&self) -> ExprTreeView {
        expr_view(*self)
    }
}

pub open spec fn selection_view(selection: Option<ExprTree>) -> Option<ExprTreeView> {
    match selection {
        Some(expr) => Some(expr@),
        None => None,
    }
}

pub open spec fn factor_views(from: Seq<FactorTree>) -> Seq<FactorTreeView> {
    Seq::new(from.len(), |i: int| from[i]@)
}

pub open spec fn item_views(items: Seq<ItemTree>) -> Seq<ItemTreeView> {
    Seq::new(items.len(), |i: int| items[i]@)
}

pub open spec fn column_views(columns: Seq<ColumnTree>) -> Seq<ColumnTreeView> {
    Seq::new(columns.len(), |i: int| columns[i]@)
}

pub open spec fn expr_views(exprs: Seq<ExprTree>) -> Seq<ExprTreeView> {
    Seq::new(exprs.len(), |i: int| exprs[i]@)
}

impl View for QueryTree {
    type V = QueryTreeView;

    open spec fn view(&self) -> QueryTreeView {
        match self {
            QueryTree::Select { from, projection, selection } => QueryTreeView::Select {
                from: factor_views(from@),
                projection: item_views(projection@),
                selection: selection_view(*selection),
            },
            QueryTree::Values { rows } => QueryTreeView::Values {
                rows: Seq::new(rows@.len(), |i: int| expr_views(rows@[i]@)),
            },
            QueryTree::Other => QueryTreeView::Other,
        }
    }
}

impl View for StatementTree {
    type V = StatementTreeView;

    open spec fn view(&self) -> StatementTreeView {
        match self {
            StatementTree::CreateTable { name, columns } => StatementTreeView::CreateTable {
                name: text_views(name@),
                columns: column_views(columns@),
            },
            StatementTree::Drop { table, names } => StatementTreeView::Drop {
                table: *table,
                names: Seq::new(names@.len(), |i: int| text_views(names@[i]@)),
            },
            StatementTree::Insert { name, source } => StatementTreeView::Insert {
                name: text_views(name@),
                source: match source {
                    Some(query) => Some(query@),
                    None => None,
                },
            },
            StatementTree::Query(query) => StatementTreeView::Query(query@),
            StatementTree::Delete { from, selection } => StatementTreeView::Delete {
                from: factor_views(from@),
                selection: selection_view(*selection),
            },
            StatementTree::Other { shown } => StatementTreeView::Other { shown: shown@ },
        }
    }
}

pub open spec fn read_view(read: Result<ReadTree, String>) -> Result<ReadTreeView, Seq<char>> {
    match read {
        Ok(tree) => Ok(tree@),
        Err(detail) => Err(detail@),
    }
}

// The types of the `sqlparser` crate that a parsed statement is made of.

#[verifier::external_type_specification]
#[verifier::external_body]
pub struct ExSqlStatement(SqlStatement);

#[verifier::external_type_specification]
#[verifier::external_body]
pub struct ExSqlName(SqlName);

#[verifier::external_type_specification]
#[verifier::external_body]
pub struct ExSqlColumn(SqlColumn);

#[verifier::external_type_specification]
#[verifier::external_body]
pub struct ExSqlType(SqlType);

#[verifier::external_type_specification]
#[verifier::external_body]
pub struct ExSqlQuery(SqlQuery);

#[verifier::external_type_specification]
#[verifier::external_body]
pub struct ExSqlTable(SqlTable);

#[verifier::external_type_specification]
#[verifier::external_body]
pub struct ExSqlItem(SqlItem);

#[verifier::external_type_specification]
#[verifier::external_body]
pub struct ExSqlExpr(SqlExpr);

#[verifier::external_type_specification]
#[verifier::external_body]
pub struct ExSqlValue(SqlValue);

#[verifier::external_type_specification]
#[verifier::external_body]
pub struct ExSqlOperator(SqlOperator);

#[verifier::external_type_specification]
#[verifier::external_body]
pub struct ExSqlToken(SqlToken);

/// What the `sqlparser` crate takes for the tokens of a text in its generic dialect, and where they
/// stand, or what it says is wrong with the text.
pub uninterp spec fn sql_tokens(sql: Seq<char>) -> Result<Seq<PlacedView>, Seq<char>>;

pub open spec fn tokens_view(read: Result<Vec<PlacedTree>, String>) -> Result<
    Seq<PlacedView>,
    Seq<char>,
> {
    match read {
        Ok(tokens) => Ok(guard::token_views(tokens@)),
        Err(detail) => Err(detail@),
    }
}

/// `Tokenizer::tokenize_with_location` with `GenericDialect`: the tokens with their places, or the text
/// of the error, depend on the text alone.
#[verifier::external_body]
pub(crate) fn read_tokens(sql: &str) -> (read: Result<Vec<PlacedTree>, String>)
    ensures
        tokens_view(read) == sql_tokens(sql@),
{
    let dialect = GenericDialect {};
    let tokens = Tokenizer::new(&dialect, sql).tokenize_with_location().map_err(|error| error.to_string())?;
    Ok(tokens.into_iter().map(|placed| PlacedTree { token: token_tree(placed.token),
        line: placed.location.line, column: placed.location.column }).collect())
}

/// Which `sqlparser::tokenizer::Token` it is. Nothing is claimed of it.
#[verifier::external_body]
fn token_tree(token: SqlToken) -> (tree: TokenTree) {
    match token {
        SqlToken::Word(word) => TokenTree::Word { keyword: format!("{:?}", word.keyword) },
        SqlToken::SingleQuotedString(_) | SqlToken::DoubleQuotedString(_) => TokenTree::Text,
        SqlToken::Number(digits, _) => TokenTree::Number { digits },
        SqlToken::Eq => TokenTree::Equal,
        SqlToken::Whitespace(_) => TokenTree::Space,
        _ => TokenTree::Other,
    }
}

/// What the `sqlparser` crate reads as the first statement of a text in its generic dialect: the
/// statement, or what it says is wrong with the text.
pub uninterp spec fn sql_statement(sql: Seq<char>) -> Result<ReadTreeView, Seq<char>>;

/// `Parser::try_with_sql` and `Parser::parse_statement` with `GenericDialect`: the statement, or the
/// text of the error, depends on the text alone. The parser panics on some texts, which are left out.
#[verifier::external_body]
pub(crate) fn read_statement(sql: &str) -> (read: Result<ReadTree, String>)
    requires
        guard::may_read(sql@),
    ensures
        read_view(read) == sql_statement(sql@),
{
    let dialect = GenericDialect {};
    let mut parser = Parser::new(&dialect).try_with_sql(sql).map_err(|error| error.to_string())?;
    let statement = parser.parse_statement().map_err(|error| error.to_string())?;
    let granter = granter_name(&statement);
    Ok(ReadTree { statement: statement_tree(statement), granter })
}

/// The granter of a `sqlparser::ast::Statement`, or of the last one inside it. Nothing is claimed of it.
#[verifier::external_body]
fn granter_name(statement: &SqlStatement) -> (name: Option<String>) {
    match statement {
        SqlStatement::Grant { granted_by, .. } => granted_by.as_ref().map(|name| name.value.clone()),
        SqlStatement::Revoke { granted_by, .. } => granted_by.as_ref().map(|name| name.value.clone()),
        SqlStatement::Prepare { statement, .. } => granter_name(statement),
        SqlStatement::CreateProcedure { body, .. } => body.last().and_then(granter_name),
        _ => None,
    }
}

/// The parts of a `sqlparser::ast::Statement`. Nothing is claimed of it.
#[verifier::external_body]
fn statement_tree(statement: SqlStatement) -> (tree: StatementTree) {
    match statement {
        SqlStatement::CreateTable { name, columns, .. } => StatementTree::CreateTable {
            name: name_tree(name), columns: columns.into_iter().map(column_tree).collect() },
        SqlStatement::Drop { object_type, names, .. } => StatementTree::Drop {
            table: object_type == ObjectType::Table, names: names.into_iter().map(name_tree).collect() },
        SqlStatement::Insert { table_name, source, .. } => StatementTree::Insert {
            name: name_tree(table_name), source: source.map(|query| query_tree(*query)) },
        SqlStatement::Query(query) => StatementTree::Query(query_tree(*query)),
        SqlStatement::Delete { from, selection, .. } => StatementTree::Delete {
            from: from.into_iter().map(factor_tree).collect(), selection: selection.map(expr_tree) },
        other => StatementTree::Other { shown: format!("{:?}", other) },
    }
}

/// The parts of a `sqlparser::ast::ObjectName`. Nothing is claimed of it.
#[verifier::external_body]
fn name_tree(name: SqlName) -> (tree: Vec<String>) {
    name.0.into_iter().map(|part| part.value).collect()
}

/// The parts of a `sqlparser::ast::ColumnDef`. Nothing is claimed of it.
#[verifier::external_body]
fn column_tree(column: SqlColumn) -> (tree: ColumnTree) {
    ColumnTree { name: column.name.value, data_type: type_tree(column.data_type) }
}

/// Which `sqlparser::ast::DataType` it is. Nothing is claimed of it.
#[verifier::external_body]
fn type_tree(data_type: SqlType) -> (tree: TypeTree) {
    match data_type {
        SqlType::Int(_) => TypeTree::Int,
        SqlType::Varchar(_) => TypeTree::Varchar,
        SqlType::Text => TypeTree::Text,
        SqlType::Boolean => TypeTree::Boolean,
        SqlType::Float(_) => TypeTree::Float,
        SqlType::Double => TypeTree::Double,
        other => TypeTree::Other { shown: format!("{:?}", other) },
    }
}

/// The parts of a `sqlparser::ast::Query`. Nothing is claimed of it.
#[verifier::external_body]
fn query_tree(query: SqlQuery) -> (tree: QueryTree) {
    match *query.body {
        SetExpr::Select(select) => QueryTree::Select {
            from: select.from.into_iter().map(factor_tree).collect(),
            projection: select.projection.into_iter().map(item_tree).collect(),
            selection: select.selection.map(expr_tree),
        },
        SetExpr::Values(values) => QueryTree::Values {
            rows: values.rows.into_iter().map(|row| row.into_iter().map(expr_tree).collect()).collect(),
        },
        _ => QueryTree::Other,
    }
}

/// The table of a `sqlparser::ast::TableWithJoins`. Nothing is claimed of it.
#[verifier::external_body]
fn factor_tree(table: SqlTable) -> (tree: FactorTree) {
    match table.relation {
        TableFactor::Table { name, .. } => FactorTree::Table { name: name_tree(name) },
        _ => FactorTree::Other,
    }
}

/// Which `sqlparser::ast::SelectItem` it is. Nothing is claimed of it.
#[verifier::external_body]
fn item_tree(item: SqlItem) -> (tree: ItemTree) {
    match item {
        SqlItem::Wildcard(_) => ItemTree::Wildcard,
        SqlItem::UnnamedExpr(SqlExpr::Identifier(ident)) => ItemTree::Column { name: ident.value },
        _ => ItemTree::Other,
    }
}

/// The parts of a `sqlparser::ast::Expr`. Nothing is claimed of it.
#[verifier::external_body]
fn expr_tree(expr: SqlExpr) -> (tree: ExprTree) {
    let shown = format!("{:?}", expr);
    let shape = match expr {
        SqlExpr::Identifier(ident) => ExprShape::Identifier(ident.value),
        SqlExpr::Value(value) => ExprShape::Value(value_tree(value)),
        SqlExpr::BinaryOp { left, op, right } => ExprShape::Binary {
            left: Box::new(expr_tree(*left)), operator: operator_tree(op), right: Box::new(expr_tree(*right)) },
        SqlExpr::Nested(inner) => ExprShape::Nested(Box::new(expr_tree(*inner))),
        _ => ExprShape::Other,
    };
    ExprTree { shape, shown }
}

/// Which `sqlparser::ast::Value` it is. Nothing is claimed of it.
#[verifier::external_body]
fn value_tree(value: SqlValue) -> (tree: ValueTree) {
    match value {
        SqlValue::Number(digits, _) => ValueTree::Number(digits),
        SqlValue::SingleQuotedString(content) => ValueTree::SingleQuoted(content),
        SqlValue::DoubleQuotedString(content) => ValueTree::DoubleQuoted(content),
        SqlValue::Boolean(set) => ValueTree::Boolean(set),
        other => ValueTree::Other { shown: format!("{:?}", other) },
    }
}

/// Which `sqlparser::ast::BinaryOperator` it is. Nothing is claimed of it.
#[verifier::external_body]
fn operator_tree(operator: SqlOperator) -> (tree: OperatorTree) {
    match operator {
        SqlOperator::Eq => OperatorTree::Eq,
        SqlOperator::NotEq => OperatorTree::NotEq,
        SqlOperator::Lt => OperatorTree::Lt,
        SqlOperator::Gt => OperatorTree::Gt,
        SqlOperator::LtEq => OperatorTree::LtEq,
        SqlOperator::GtEq => OperatorTree::GtEq,
        other => OperatorTree::Other { shown: format!("{:?}", other) },
    }
}

} // verus!
