//! The statement tree that the parser builds and the executor runs.
use vstd::prelude::*;
use crate::catalog::{opt_text, string_lists_view, strings_view, PolicyCommand, PolicyV};
use crate::session::{SessionSet, SessionSetV};
use crate::text::{lower_chars, lower_text, spells};
use crate::value::{ColumnType, Value, ValueV};
use crate::vector::{IndexParams, Metric};

verus! {

/// Set operations between queries.
#[derive(Debug, Clone, Copy, PartialEq, Eq, Structural)]
pub enum SetOp {
    Union,
    Intersect,
    Except,
}

#[derive(Debug, Clone, Copy, PartialEq, Eq, Structural)]
pub enum JoinKind {
    Inner,
    Left,
    Right,
    Full,
    Cross,
}

#[derive(Debug, Clone, Copy, PartialEq, Eq, Structural)]
pub enum AggFunc {
    Count,
    Sum,
    Min,
    Max,
    Avg,
    /// The group's values as a JSON array.
    JsonAgg,
    /// The group's values joined by a separator.
    GroupConcat,
}

/// The storage class a cast coerces to; types that are not modelled pass the
/// value through.
#[derive(Debug, Clone, Copy, PartialEq, Eq, Structural)]
pub enum CastTarget {
    Int,
    Real,
    Text,
    Bool,
    Passthrough,
}

#[derive(Debug, Clone, Copy, PartialEq, Eq, Structural)]
pub enum BinOp {
    Eq,
    Ne,
    Lt,
    Le,
    Gt,
    Ge,
    And,
    Or,
    Add,
    Sub,
    Mul,
    Div,
    Mod,
    /// `||`.
    Concat,
    /// `<->`.
    VecL2,
    /// `<=>`.
    VecCosine,
    /// `<#>`.
    VecIp,
}

#[derive(Debug, Clone, Copy, PartialEq, Eq, Structural)]
pub enum UnOp {
    Not,
    Neg,
}

/// The cast target of a (lower-cased) type word.
pub open spec fn cast_word(w: Seq<char>) -> CastTarget {
    if w == "int"@ || w == "integer"@ || w == "int2"@ || w == "int4"@ || w == "int8"@ || w
        == "smallint"@ || w == "bigint"@ || w == "oid"@ || w == "serial"@ || w == "bigserial"@ {
        CastTarget::Int
    } else if w == "real"@ || w == "float"@ || w == "float4"@ || w == "float8"@ || w == "double"@
        || w == "numeric"@ || w == "decimal"@ {
        CastTarget::Real
    } else if w == "text"@ || w == "varchar"@ || w == "character"@ || w == "char"@ || w == "name"@
        || w == "citext"@ || w == "bytea"@ || w == "bpchar"@ {
        CastTarget::Text
    } else if w == "bool"@ || w == "boolean"@ {
        CastTarget::Bool
    } else {
        CastTarget::Passthrough
    }
}

impl CastTarget {
    /// The cast target of a type's leading word.
    pub fn from_word(word: &str) -> (r: CastTarget)
        ensures
            r == cast_word(lower_text(word@)),
    {
        let w = lower_chars(word);
        if spells(&w, "int") || spells(&w, "integer") || spells(&w, "int2") || spells(&w, "int4")
            || spells(&w, "int8") || spells(&w, "smallint") || spells(&w, "bigint") || spells(
            &w,
            "oid",
        ) || spells(&w, "serial") || spells(&w, "bigserial") {
            CastTarget::Int
        } else if spells(&w, "real") || spells(&w, "float") || spells(&w, "float4") || spells(
            &w,
            "float8",
        ) || spells(&w, "double") || spells(&w, "numeric") || spells(&w, "decimal") {
            CastTarget::Real
        } else if spells(&w, "text") || spells(&w, "varchar") || spells(&w, "character") || spells(
            &w,
            "char",
        ) || spells(&w, "name") || spells(&w, "citext") || spells(&w, "bytea") || spells(
            &w,
            "bpchar",
        ) {
            CastTarget::Text
        } else if spells(&w, "bool") || spells(&w, "boolean") {
            CastTarget::Bool
        } else {
            CastTarget::Passthrough
        }
    }
}

impl BinOp {
    pub open spec fn metric(self) -> Option<Metric> {
        match self {
            BinOp::VecL2 => Some(Metric::L2),
            BinOp::VecCosine => Some(Metric::Cosine),
            BinOp::VecIp => Some(Metric::InnerProduct),
            _ => None,
        }
    }

    /// The metric of a distance operator, if it is one.
    pub fn vec_metric(self) -> (r: Option<Metric>)
        ensures
            r == self.metric(),
    {
        match self {
            BinOp::VecL2 => Some(Metric::L2),
            BinOp::VecCosine => Some(Metric::Cosine),
            BinOp::VecIp => Some(Metric::InnerProduct),
            _ => None,
        }
    }
}

// ---- queries -------------------------------------------------------------------------

#[derive(Debug)]
pub enum AggArg {
    Star,
    Expr(Box<Expr>),
}

/// An expression. Reals and vector components are held as their bits.
#[derive(Debug)]
#[allow(inconsistent_fields)]
pub enum Expr {
    Null,
    Int(i64),
    Real(u64),
    Str(String),
    Vector(Vec<u32>),
    /// A value computed ahead of the scan.
    Lit(Value),
    /// A bound parameter, counted from one.
    Param(usize),
    Column(String),
    Binary { op: BinOp, l: Box<Expr>, r: Box<Expr> },
    Unary { op: UnOp, e: Box<Expr> },
    IsNull { e: Box<Expr>, negated: bool },
    Like {
        e: Box<Expr>,
        pattern: Box<Expr>,
        escape: Option<Box<Expr>>,
        negated: bool,
        insensitive: bool,
    },
    InList { e: Box<Expr>, list: Vec<Expr>, negated: bool },
    Between { e: Box<Expr>, lo: Box<Expr>, hi: Box<Expr>, negated: bool },
    Case { operand: Option<Box<Expr>>, whens: Vec<(Expr, Expr)>, els: Option<Box<Expr>> },
    /// A column of the row proposed for insertion.
    Excluded(String),
    /// The `DEFAULT` keyword as an insert cell.
    Default,
    Cast { e: Box<Expr>, target: CastTarget },
    Func { name: String, args: Vec<Expr> },
    Aggregate { func: AggFunc, arg: AggArg, distinct: bool, sep: Option<Box<Expr>> },
    Qualified(String, String),
    ScalarSubquery(Box<SelectStmt>),
    Exists { query: Box<SelectStmt>, negated: bool },
    InSubquery { e: Box<Expr>, query: Box<SelectStmt>, negated: bool },
}

#[derive(Debug)]
pub enum SelItem {
    /// `*`, or `alias.*`.
    Star { qualifier: Option<String> },
    Expr { expr: Expr, alias: Option<String> },
}

#[derive(Debug)]
pub struct OrderKey {
    pub expr: Expr,
    pub asc: bool,
    pub nulls_first: bool,
}

#[derive(Debug)]
#[allow(inconsistent_fields)]
pub enum FromClause {
    /// A table or a view, with where in the text it is named.
    Table { name: String, alias: Option<String>, at: u64 },
    Derived { query: Box<SelectStmt>, alias: String },
    Join {
        left: Box<FromClause>,
        right: Box<FromClause>,
        kind: JoinKind,
        on: Option<Box<Expr>>,
        using: Vec<String>,
    },
}

#[derive(Debug)]
pub struct CteDef {
    pub name: String,
    pub query: Box<SelectStmt>,
}

#[derive(Debug)]
pub struct SetOpPart {
    pub op: SetOp,
    pub all: bool,
    pub query: Box<SelectStmt>,
}

#[derive(Debug)]
pub struct SelectStmt {
    pub with: Vec<CteDef>,
    pub distinct: bool,
    pub items: Vec<SelItem>,
    pub from: Option<FromClause>,
    pub filter: Option<Expr>,
    pub group_by: Vec<Expr>,
    pub having: Option<Expr>,
    pub set_ops: Vec<SetOpPart>,
    pub order_by: Vec<OrderKey>,
    pub limit: Option<Expr>,
    pub offset: Option<Expr>,
}

// ---- what queries say ------------------------------------------------------------------

pub enum AggArgV {
    Star,
    Expr(Box<ExprV>),
}

/// What an [`Expr`] says.
#[allow(inconsistent_fields)]
pub enum ExprV {
    Null,
    Int(i64),
    Real(u64),
    Str(Seq<char>),
    Vector(Seq<u32>),
    Lit(ValueV),
    Param(usize),
    Column(Seq<char>),
    Binary { op: BinOp, l: Box<ExprV>, r: Box<ExprV> },
    Unary { op: UnOp, e: Box<ExprV> },
    IsNull { e: Box<ExprV>, negated: bool },
    Like {
        e: Box<ExprV>,
        pattern: Box<ExprV>,
        escape: Option<Box<ExprV>>,
        negated: bool,
        insensitive: bool,
    },
    InList { e: Box<ExprV>, list: Seq<ExprV>, negated: bool },
    Between { e: Box<ExprV>, lo: Box<ExprV>, hi: Box<ExprV>, negated: bool },
    Case { operand: Option<Box<ExprV>>, whens: Seq<(ExprV, ExprV)>, els: Option<Box<ExprV>> },
    Excluded(Seq<char>),
    Default,
    Cast { e: Box<ExprV>, target: CastTarget },
    Func { name: Seq<char>, args: Seq<ExprV> },
    Aggregate { func: AggFunc, arg: AggArgV, distinct: bool, sep: Option<Box<ExprV>> },
    Qualified(Seq<char>, Seq<char>),
    ScalarSubquery(Box<SelectV>),
    Exists { query: Box<SelectV>, negated: bool },
    InSubquery { e: Box<ExprV>, query: Box<SelectV>, negated: bool },
}

pub enum ItemV {
    Star { qualifier: Option<Seq<char>> },
    Expr { expr: ExprV, alias: Option<Seq<char>> },
}

pub struct KeyV {
    pub expr: ExprV,
    pub asc: bool,
    pub nulls_first: bool,
}

#[allow(inconsistent_fields)]
pub enum FromV {
    Table { name: Seq<char>, alias: Option<Seq<char>>, at: u64 },
    Derived { query: Box<SelectV>, alias: Seq<char> },
    Join {
        left: Box<FromV>,
        right: Box<FromV>,
        kind: JoinKind,
        on: Option<Box<ExprV>>,
        using: Seq<Seq<char>>,
    },
}

pub struct CteV {
    pub name: Seq<char>,
    pub query: Box<SelectV>,
}

pub struct SetOpV {
    pub op: SetOp,
    pub all: bool,
    pub query: Box<SelectV>,
}

/// What a [`SelectStmt`] says.
pub struct SelectV {
    pub with: Seq<CteV>,
    pub distinct: bool,
    pub items: Seq<ItemV>,
    pub from: Option<FromV>,
    pub filter: Option<ExprV>,
    pub group_by: Seq<ExprV>,
    pub having: Option<ExprV>,
    pub set_ops: Seq<SetOpV>,
    pub order_by: Seq<KeyV>,
    pub limit: Option<ExprV>,
    pub offset: Option<ExprV>,
}

pub open spec fn agg_arg_view(a: AggArg) -> AggArgV
    decreases a,
{
    match a {
        AggArg::Star => AggArgV::Star,
        AggArg::Expr(e) => AggArgV::Expr(Box::new(expr_view(*e))),
    }
}

pub open spec fn boxed_view(o: Option<Box<Expr>>) -> Option<Box<ExprV>>
    decreases o,
{
    match o {
        Some(e) => Some(Box::new(expr_view(*e))),
        None => None,
    }
}

pub open spec fn expr_view(e: Expr) -> ExprV
    decreases e,
{
    match e {
        Expr::Null => ExprV::Null,
        Expr::Int(i) => ExprV::Int(i),
        Expr::Real(b) => ExprV::Real(b),
        Expr::Str(s) => ExprV::Str(s@),
        Expr::Vector(v) => ExprV::Vector(v@),
        Expr::Lit(v) => ExprV::Lit(v@),
        Expr::Param(i) => ExprV::Param(i),
        Expr::Column(n) => ExprV::Column(n@),
        Expr::Binary { op, l, r } => ExprV::Binary {
            op,
            l: Box::new(expr_view(*l)),
            r: Box::new(expr_view(*r)),
        },
        Expr::Unary { op, e } => ExprV::Unary { op, e: Box::new(expr_view(*e)) },
        Expr::IsNull { e, negated } => ExprV::IsNull { e: Box::new(expr_view(*e)), negated },
        Expr::Like { e, pattern, escape, negated, insensitive } => ExprV::Like {
            e: Box::new(expr_view(*e)),
            pattern: Box::new(expr_view(*pattern)),
            escape: boxed_view(escape),
            negated,
            insensitive,
        },
        Expr::InList { e, list, negated } => ExprV::InList {
            e: Box::new(expr_view(*e)),
            list: Seq::new(
                list@.len(),
                |i: int|
                    if 0 <= i < list@.len() {
                        expr_view(list@[i])
                    } else {
                        ExprV::Null
                    },
            ),
            negated,
        },
        Expr::Between { e, lo, hi, negated } => ExprV::Between {
            e: Box::new(expr_view(*e)),
            lo: Box::new(expr_view(*lo)),
            hi: Box::new(expr_view(*hi)),
            negated,
        },
        Expr::Case { operand, whens, els } => ExprV::Case {
            operand: boxed_view(operand),
            whens: Seq::new(
                whens@.len(),
                |i: int|
                    if 0 <= i < whens@.len() {
                        (expr_view(whens@[i].0), expr_view(whens@[i].1))
                    } else {
                        (ExprV::Null, ExprV::Null)
                    },
            ),
            els: boxed_view(els),
        },
        Expr::Excluded(n) => ExprV::Excluded(n@),
        Expr::Default => ExprV::Default,
        Expr::Cast { e, target } => ExprV::Cast { e: Box::new(expr_view(*e)), target },
        Expr::Func { name, args } => ExprV::Func {
            name: name@,
            args: Seq::new(
                args@.len(),
                |i: int|
                    if 0 <= i < args@.len() {
                        expr_view(args@[i])
                    } else {
                        ExprV::Null
                    },
            ),
        },
        Expr::Aggregate { func, arg, distinct, sep } => ExprV::Aggregate {
            func,
            arg: agg_arg_view(arg),
            distinct,
            sep: boxed_view(sep),
        },
        Expr::Qualified(t, n) => ExprV::Qualified(t@, n@),
        Expr::ScalarSubquery(q) => ExprV::ScalarSubquery(Box::new(select_view(*q))),
        Expr::Exists { query, negated } => ExprV::Exists {
            query: Box::new(select_view(*query)),
            negated,
        },
        Expr::InSubquery { e, query, negated } => ExprV::InSubquery {
            e: Box::new(expr_view(*e)),
            query: Box::new(select_view(*query)),
            negated,
        },
    }
}

pub open spec fn item_view(i: SelItem) -> ItemV
    decreases i,
{
    match i {
        SelItem::Star { qualifier } => ItemV::Star { qualifier: opt_text(qualifier) },
        SelItem::Expr { expr, alias } => ItemV::Expr {
            expr: expr_view(expr),
            alias: opt_text(alias),
        },
    }
}

pub open spec fn key_view(k: OrderKey) -> KeyV
    decreases k,
{
    KeyV { expr: expr_view(k.expr), asc: k.asc, nulls_first: k.nulls_first }
}

pub open spec fn from_view(f: FromClause) -> FromV
    decreases f,
{
    match f {
        FromClause::Table { name, alias, at } => FromV::Table {
            name: name@,
            alias: opt_text(alias),
            at,
        },
        FromClause::Derived { query, alias } => FromV::Derived {
            query: Box::new(select_view(*query)),
            alias: alias@,
        },
        FromClause::Join { left, right, kind, on, using } => FromV::Join {
            left: Box::new(from_view(*left)),
            right: Box::new(from_view(*right)),
            kind,
            on: boxed_view(on),
            using: strings_view(using@),
        },
    }
}

pub open spec fn cte_view(c: CteDef) -> CteV
    decreases c,
{
    CteV { name: c.name@, query: Box::new(select_view(*c.query)) }
}

pub open spec fn set_op_view(p: SetOpPart) -> SetOpV
    decreases p,
{
    SetOpV { op: p.op, all: p.all, query: Box::new(select_view(*p.query)) }
}

pub open spec fn opt_expr_view(o: Option<Expr>) -> Option<ExprV>
    decreases o,
{
    match o {
        Some(e) => Some(expr_view(e)),
        None => None,
    }
}

pub open spec fn opt_from_view(o: Option<FromClause>) -> Option<FromV>
    decreases o,
{
    match o {
        Some(f) => Some(from_view(f)),
        None => None,
    }
}

pub open spec fn select_view(s: SelectStmt) -> SelectV
    decreases s,
{
    SelectV {
        with: Seq::new(
            s.with@.len(),
            |i: int|
                if 0 <= i < s.with@.len() {
                    cte_view(s.with@[i])
                } else {
                    arbitrary()
                },
        ),
        distinct: s.distinct,
        items: Seq::new(
            s.items@.len(),
            |i: int|
                if 0 <= i < s.items@.len() {
                    item_view(s.items@[i])
                } else {
                    arbitrary()
                },
        ),
        from: opt_from_view(s.from),
        filter: opt_expr_view(s.filter),
        group_by: Seq::new(
            s.group_by@.len(),
            |i: int|
                if 0 <= i < s.group_by@.len() {
                    expr_view(s.group_by@[i])
                } else {
                    arbitrary()
                },
        ),
        having: opt_expr_view(s.having),
        set_ops: Seq::new(
            s.set_ops@.len(),
            |i: int|
                if 0 <= i < s.set_ops@.len() {
                    set_op_view(s.set_ops@[i])
                } else {
                    arbitrary()
                },
        ),
        order_by: Seq::new(
            s.order_by@.len(),
            |i: int|
                if 0 <= i < s.order_by@.len() {
                    key_view(s.order_by@[i])
                } else {
                    arbitrary()
                },
        ),
        limit: opt_expr_view(s.limit),
        offset: opt_expr_view(s.offset),
    }
}

pub open spec fn exprs_view(v: Seq<Expr>) -> Seq<ExprV> {
    Seq::new(v.len(), |i: int| expr_view(v[i]))
}

pub open spec fn whens_view(v: Seq<(Expr, Expr)>) -> Seq<(ExprV, ExprV)> {
    Seq::new(v.len(), |i: int| (expr_view(v[i].0), expr_view(v[i].1)))
}

pub open spec fn items_view(v: Seq<SelItem>) -> Seq<ItemV> {
    Seq::new(v.len(), |i: int| item_view(v[i]))
}

pub open spec fn keys_view(v: Seq<OrderKey>) -> Seq<KeyV> {
    Seq::new(v.len(), |i: int| key_view(v[i]))
}

pub open spec fn ctes_view(v: Seq<CteDef>) -> Seq<CteV> {
    Seq::new(v.len(), |i: int| cte_view(v[i]))
}

pub open spec fn set_ops_view(v: Seq<SetOpPart>) -> Seq<SetOpV> {
    Seq::new(v.len(), |i: int| set_op_view(v[i]))
}

impl View for Expr {
    type V = ExprV;

    open spec fn view(&self) -> ExprV {
        expr_view(*self)
    }
}

impl View for SelItem {
    type V = ItemV;

    open spec fn view(&self) -> ItemV {
        item_view(*self)
    }
}

impl View for FromClause {
    type V = FromV;

    open spec fn view(&self) -> FromV {
        from_view(*self)
    }
}

impl View for SelectStmt {
    type V = SelectV;

    open spec fn view(&self) -> SelectV {
        select_view(*self)
    }
}

/// The list parts of an expression, seen element by element.
pub proof fn lemma_expr_lists(e: Expr)
    ensures
        e matches Expr::InList { e: x, list, negated } ==> e@ == (ExprV::InList {
            e: Box::new(x@),
            list: exprs_view(list@),
            negated,
        }),
        e matches Expr::Func { name, args } ==> e@ == (ExprV::Func {
            name: name@,
            args: exprs_view(args@),
        }),
        e matches Expr::Case { operand, whens, els } ==> e@ == (ExprV::Case {
            operand: boxed_view(operand),
            whens: whens_view(whens@),
            els: boxed_view(els),
        }),
{
    match e {
        Expr::InList { e: x, list, negated } => {
            assert(e@->InList_list =~= exprs_view(list@));
        },
        Expr::Func { name, args } => {
            assert(e@->args =~= exprs_view(args@));
        },
        Expr::Case { operand, whens, els } => {
            assert(e@->whens =~= whens_view(whens@));
        },
        _ => {},
    }
}

/// The list parts of a query, seen element by element.
pub proof fn lemma_select_lists(s: SelectStmt)
    ensures
        s@.with == ctes_view(s.with@),
        s@.items == items_view(s.items@),
        s@.group_by == exprs_view(s.group_by@),
        s@.set_ops == set_ops_view(s.set_ops@),
        s@.order_by == keys_view(s.order_by@),
{
    assert(s@.with =~= ctes_view(s.with@));
    assert(s@.items =~= items_view(s.items@));
    assert(s@.group_by =~= exprs_view(s.group_by@));
    assert(s@.set_ops =~= set_ops_view(s.set_ops@));
    assert(s@.order_by =~= keys_view(s.order_by@));
}

/// An optional sub-expression, seen through its box.
pub proof fn lemma_boxed(o: Option<Box<Expr>>)
    ensures
        boxed_view(o) == (match o {
            Some(e) => Some(Box::new(e@)),
            None => None,
        }),
{
}

/// An aggregate's argument, seen through its box.
pub proof fn lemma_agg_arg(a: AggArg)
    ensures
        agg_arg_view(a) == (match a {
            AggArg::Star => AggArgV::Star,
            AggArg::Expr(e) => AggArgV::Expr(Box::new(e@)),
        }),
{
}

/// An optional source, seen through its option.
pub proof fn lemma_from(o: Option<FromClause>)
    ensures
        opt_from_view(o) == (match o {
            Some(f) => Some(f@),
            None => None,
        }),
{
}

/// A source, seen part by part.
pub proof fn lemma_from_parts(f: FromClause)
    ensures
        f matches FromClause::Table { name, alias, at } ==> f@ == (FromV::Table {
            name: name@,
            alias: opt_text(alias),
            at,
        }),
        f matches FromClause::Derived { query, alias } ==> f@ == (FromV::Derived {
            query: Box::new(query@),
            alias: alias@,
        }),
        f matches FromClause::Join { left, right, kind, on, using } ==> f@ == (FromV::Join {
            left: Box::new(left@),
            right: Box::new(right@),
            kind,
            on: boxed_view(on),
            using: strings_view(using@),
        }),
{
}

/// An optional clause, seen through its option.
pub proof fn lemma_opt_expr(o: Option<Expr>)
    ensures
        opt_expr_view(o) == (match o {
            Some(e) => Some(e@),
            None => None,
        }),
{
}


// ---- statements ----------------------------------------------------------------------------------

/// Where an insert gets its rows.
#[derive(Debug)]
pub enum InsertSource {
    Values(Vec<Vec<Expr>>),
    Select(Box<SelectStmt>),
}

/// What an insert does with a row whose key is taken.
#[derive(Debug)]
pub enum OnConflict {
    Error,
    Nothing,
    Update { sets: Vec<(String, Expr)>, filter: Option<Expr> },
    Replace,
}

/// A column as a statement defines it.
#[derive(Debug)]
pub struct ColumnSpec {
    pub name: String,
    pub ty: ColumnType,
    pub primary_key: bool,
    pub not_null: bool,
    pub unique: bool,
    pub autoincrement: bool,
    /// The text of its `DEFAULT`.
    pub default_sql: Option<String>,
    /// The text of its `CHECK`.
    pub check_sql: Option<String>,
    /// The table, and perhaps the column, it refers to.
    pub references: Option<(String, Option<String>)>,
}

#[derive(Debug)]
#[allow(inconsistent_fields)]
pub enum AlterAction {
    AddColumn(ColumnSpec),
    DropColumn { name: String, if_exists: bool },
    RenameColumn { from: String, to: String },
    RenameTable { to: String },
    /// `ENABLE` or `DISABLE ROW LEVEL SECURITY`.
    SetRls(bool),
}

/// A foreign key as a statement defines it. Without referenced columns it refers to
/// the primary key.
#[derive(Debug)]
pub struct ForeignKeySpec {
    pub name: Option<String>,
    pub columns: Vec<String>,
    pub foreign_table: String,
    pub foreign_columns: Vec<String>,
}

/// What a `CREATE TABLE` defines.
#[derive(Debug)]
pub struct TableDef {
    pub name: String,
    pub columns: Vec<ColumnSpec>,
    pub foreign_keys: Vec<ForeignKeySpec>,
    pub primary_key: Vec<String>,
    pub uniques: Vec<Vec<String>>,
    pub checks: Vec<String>,
    pub if_not_exists: bool,
}

#[derive(Debug)]
#[allow(inconsistent_fields)]
pub enum Stmt {
    CreateTable(TableDef),
    AlterTable { table: String, action: AlterAction },
    DropTable { name: String, if_exists: bool },
    CreateIndex {
        name: String,
        table: String,
        column: String,
        params: IndexParams,
        if_not_exists: bool,
    },
    DropIndex { name: String, if_exists: bool },
    Insert {
        table: String,
        columns: Option<Vec<String>>,
        source: InsertSource,
        on_conflict: OnConflict,
        returning: Option<Vec<SelItem>>,
    },
    Select(Box<SelectStmt>),
    Update {
        table: String,
        sets: Vec<(String, Expr)>,
        from: Option<FromClause>,
        filter: Option<Expr>,
        returning: Option<Vec<SelItem>>,
    },
    Delete {
        table: String,
        using: Option<FromClause>,
        filter: Option<Expr>,
        returning: Option<Vec<SelItem>>,
    },
    Begin,
    Commit,
    Rollback,
    Savepoint(String),
    ReleaseSavepoint(String),
    RollbackTo(String),
    /// A session statement that is accepted and ignored.
    Noop,
    /// The session's search width for vector indexes, or back to the default.
    SetVectorEf(Option<usize>),
    Show(String),
    Explain(Box<Stmt>),
    CreateView {
        name: String,
        query: Box<SelectStmt>,
        sql: String,
        or_replace: bool,
        if_not_exists: bool,
    },
    DropView { name: String, if_exists: bool },
    CreatePolicy(PolicyDef),
    DropPolicy { name: String, table: String, if_exists: bool },
    /// A change of the session's principal.
    SetSession(SessionSet),
}

/// What a `CREATE POLICY` defines.
#[derive(Debug)]
pub struct PolicyDef {
    pub name: String,
    pub table: String,
    pub command: PolicyCommand,
    pub roles: Vec<String>,
    pub using: Option<String>,
    pub check: Option<String>,
}

/// What a [`PolicyDef`] says: the table, and the policy that it gets.
pub struct PolicyDefV {
    pub table: Seq<char>,
    pub policy: PolicyV,
}

impl View for PolicyDef {
    type V = PolicyDefV;

    open spec fn view(&self) -> PolicyDefV {
        PolicyDefV {
            table: self.table@,
            policy: PolicyV {
                name: self.name@,
                command: self.command,
                roles: strings_view(self.roles@),
                using: opt_text(self.using),
                check: opt_text(self.check),
            },
        }
    }
}

pub enum InsertSourceV {
    Values(Seq<Seq<ExprV>>),
    Select(SelectV),
}

pub enum OnConflictV {
    Error,
    Nothing,
    Update { sets: Seq<(Seq<char>, ExprV)>, filter: Option<ExprV> },
    Replace,
}

pub struct ColumnSpecV {
    pub name: Seq<char>,
    pub ty: ColumnType,
    pub primary_key: bool,
    pub not_null: bool,
    pub unique: bool,
    pub autoincrement: bool,
    pub default_sql: Option<Seq<char>>,
    pub check_sql: Option<Seq<char>>,
    pub references: Option<(Seq<char>, Option<Seq<char>>)>,
}

#[allow(inconsistent_fields)]
pub enum AlterActionV {
    AddColumn(ColumnSpecV),
    DropColumn { name: Seq<char>, if_exists: bool },
    RenameColumn { from: Seq<char>, to: Seq<char> },
    RenameTable { to: Seq<char> },
    SetRls(bool),
}

pub struct ForeignKeySpecV {
    pub name: Option<Seq<char>>,
    pub columns: Seq<Seq<char>>,
    pub foreign_table: Seq<char>,
    pub foreign_columns: Seq<Seq<char>>,
}

pub struct TableDefV {
    pub name: Seq<char>,
    pub columns: Seq<ColumnSpecV>,
    pub foreign_keys: Seq<ForeignKeySpecV>,
    pub primary_key: Seq<Seq<char>>,
    pub uniques: Seq<Seq<Seq<char>>>,
    pub checks: Seq<Seq<char>>,
    pub if_not_exists: bool,
}

/// What a [`Stmt`] says.
#[allow(inconsistent_fields)]
pub enum StmtV {
    CreateTable(TableDefV),
    AlterTable { table: Seq<char>, action: AlterActionV },
    DropTable { name: Seq<char>, if_exists: bool },
    CreateIndex {
        name: Seq<char>,
        table: Seq<char>,
        column: Seq<char>,
        params: IndexParams,
        if_not_exists: bool,
    },
    DropIndex { name: Seq<char>, if_exists: bool },
    Insert {
        table: Seq<char>,
        columns: Option<Seq<Seq<char>>>,
        source: InsertSourceV,
        on_conflict: OnConflictV,
        returning: Option<Seq<ItemV>>,
    },
    Select(SelectV),
    Update {
        table: Seq<char>,
        sets: Seq<(Seq<char>, ExprV)>,
        from: Option<FromV>,
        filter: Option<ExprV>,
        returning: Option<Seq<ItemV>>,
    },
    Delete {
        table: Seq<char>,
        using: Option<FromV>,
        filter: Option<ExprV>,
        returning: Option<Seq<ItemV>>,
    },
    Begin,
    Commit,
    Rollback,
    Savepoint(Seq<char>),
    ReleaseSavepoint(Seq<char>),
    RollbackTo(Seq<char>),
    Noop,
    SetVectorEf(Option<usize>),
    Show(Seq<char>),
    Explain(Box<StmtV>),
    CreateView {
        name: Seq<char>,
        query: SelectV,
        sql: Seq<char>,
        or_replace: bool,
        if_not_exists: bool,
    },
    DropView { name: Seq<char>, if_exists: bool },
    CreatePolicy(PolicyDefV),
    DropPolicy { name: Seq<char>, table: Seq<char>, if_exists: bool },
    SetSession(SessionSetV),
}

pub open spec fn expr_lists_view(v: Seq<Vec<Expr>>) -> Seq<Seq<ExprV>> {
    Seq::new(v.len(), |i: int| exprs_view(v[i]@))
}

pub open spec fn sets_view(v: Seq<(String, Expr)>) -> Seq<(Seq<char>, ExprV)> {
    Seq::new(v.len(), |i: int| (v[i].0@, v[i].1@))
}

pub open spec fn opt_items_view(o: Option<Vec<SelItem>>) -> Option<Seq<ItemV>> {
    match o {
        Some(v) => Some(items_view(v@)),
        None => None,
    }
}

pub open spec fn opt_strings_view(o: Option<Vec<String>>) -> Option<Seq<Seq<char>>> {
    match o {
        Some(v) => Some(strings_view(v@)),
        None => None,
    }
}

impl View for InsertSource {
    type V = InsertSourceV;

    open spec fn view(&self) -> InsertSourceV {
        match self {
            InsertSource::Values(v) => InsertSourceV::Values(expr_lists_view(v@)),
            InsertSource::Select(q) => InsertSourceV::Select(q@),
        }
    }
}

impl View for OnConflict {
    type V = OnConflictV;

    open spec fn view(&self) -> OnConflictV {
        match self {
            OnConflict::Error => OnConflictV::Error,
            OnConflict::Nothing => OnConflictV::Nothing,
            OnConflict::Update { sets, filter } => OnConflictV::Update {
                sets: sets_view(sets@),
                filter: opt_expr_view(*filter),
            },
            OnConflict::Replace => OnConflictV::Replace,
        }
    }
}

pub open spec fn reference_view(o: Option<(String, Option<String>)>) -> Option<
    (Seq<char>, Option<Seq<char>>),
> {
    match o {
        Some((t, c)) => Some((t@, opt_text(c))),
        None => None,
    }
}

impl View for ColumnSpec {
    type V = ColumnSpecV;

    open spec fn view(&self) -> ColumnSpecV {
        ColumnSpecV {
            name: self.name@,
            ty: self.ty,
            primary_key: self.primary_key,
            not_null: self.not_null,
            unique: self.unique,
            autoincrement: self.autoincrement,
            default_sql: opt_text(self.default_sql),
            check_sql: opt_text(self.check_sql),
            references: reference_view(self.references),
        }
    }
}

pub open spec fn column_specs_view(v: Seq<ColumnSpec>) -> Seq<ColumnSpecV> {
    Seq::new(v.len(), |i: int| v[i]@)
}

impl View for AlterAction {
    type V = AlterActionV;

    open spec fn view(&self) -> AlterActionV {
        match self {
            AlterAction::AddColumn(c) => AlterActionV::AddColumn(c@),
            AlterAction::DropColumn { name, if_exists } => AlterActionV::DropColumn {
                name: name@,
                if_exists: *if_exists,
            },
            AlterAction::RenameColumn { from, to } => AlterActionV::RenameColumn {
                from: from@,
                to: to@,
            },
            AlterAction::RenameTable { to } => AlterActionV::RenameTable { to: to@ },
            AlterAction::SetRls(on) => AlterActionV::SetRls(*on),
        }
    }
}

impl View for ForeignKeySpec {
    type V = ForeignKeySpecV;

    open spec fn view(&self) -> ForeignKeySpecV {
        ForeignKeySpecV {
            name: opt_text(self.name),
            columns: strings_view(self.columns@),
            foreign_table: self.foreign_table@,
            foreign_columns: strings_view(self.foreign_columns@),
        }
    }
}

pub open spec fn key_specs_view(v: Seq<ForeignKeySpec>) -> Seq<ForeignKeySpecV> {
    Seq::new(v.len(), |i: int| v[i]@)
}

impl View for TableDef {
    type V = TableDefV;

    open spec fn view(&self) -> TableDefV {
        TableDefV {
            name: self.name@,
            columns: column_specs_view(self.columns@),
            foreign_keys: key_specs_view(self.foreign_keys@),
            primary_key: strings_view(self.primary_key@),
            uniques: string_lists_view(self.uniques@),
            checks: strings_view(self.checks@),
            if_not_exists: self.if_not_exists,
        }
    }
}

pub open spec fn stmt_view(s: Stmt) -> StmtV
    decreases s,
{
    match s {
        Stmt::CreateTable(d) => StmtV::CreateTable(d@),
        Stmt::AlterTable { table, action } => StmtV::AlterTable {
            table: table@,
            action: action@,
        },
        Stmt::DropTable { name, if_exists } => StmtV::DropTable { name: name@, if_exists },
        Stmt::CreateIndex { name, table, column, params, if_not_exists } => StmtV::CreateIndex {
            name: name@,
            table: table@,
            column: column@,
            params,
            if_not_exists,
        },
        Stmt::DropIndex { name, if_exists } => StmtV::DropIndex { name: name@, if_exists },
        Stmt::Insert { table, columns, source, on_conflict, returning } => StmtV::Insert {
            table: table@,
            columns: opt_strings_view(columns),
            source: source@,
            on_conflict: on_conflict@,
            returning: opt_items_view(returning),
        },
        Stmt::Select(q) => StmtV::Select(q@),
        Stmt::Update { table, sets, from, filter, returning } => StmtV::Update {
            table: table@,
            sets: sets_view(sets@),
            from: opt_from_view(from),
            filter: opt_expr_view(filter),
            returning: opt_items_view(returning),
        },
        Stmt::Delete { table, using, filter, returning } => StmtV::Delete {
            table: table@,
            using: opt_from_view(using),
            filter: opt_expr_view(filter),
            returning: opt_items_view(returning),
        },
        Stmt::Begin => StmtV::Begin,
        Stmt::Commit => StmtV::Commit,
        Stmt::Rollback => StmtV::Rollback,
        Stmt::Savepoint(n) => StmtV::Savepoint(n@),
        Stmt::ReleaseSavepoint(n) => StmtV::ReleaseSavepoint(n@),
        Stmt::RollbackTo(n) => StmtV::RollbackTo(n@),
        Stmt::Noop => StmtV::Noop,
        Stmt::SetVectorEf(o) => StmtV::SetVectorEf(o),
        Stmt::Show(n) => StmtV::Show(n@),
        Stmt::Explain(b) => StmtV::Explain(Box::new(stmt_view(*b))),
        Stmt::CreateView { name, query, sql, or_replace, if_not_exists } => StmtV::CreateView {
            name: name@,
            query: query@,
            sql: sql@,
            or_replace,
            if_not_exists,
        },
        Stmt::DropView { name, if_exists } => StmtV::DropView { name: name@, if_exists },
        Stmt::CreatePolicy(d) => StmtV::CreatePolicy(d@),
        Stmt::DropPolicy { name, table, if_exists } => StmtV::DropPolicy {
            name: name@,
            table: table@,
            if_exists,
        },
        Stmt::SetSession(set) => StmtV::SetSession(set@),
    }
}

impl View for Stmt {
    type V = StmtV;

    open spec fn view(&self) -> StmtV {
        stmt_view(*self)
    }
}

} // verus!
