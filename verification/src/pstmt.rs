//! Parsing statements.
use vstd::prelude::*;
use crate::asks::{Reals, Stop, StopV};
use crate::catalog::{opt_text, string_lists_view, strings_view, PolicyCommand};
use crate::env::sql_stop;
use crate::grammar::{bumped, found, onto, start, sym, to_close, tok, PS, Parsed};
use crate::lex::{lex, render_tokens, Sym, Tok, TokV};
use crate::parser::{
    expr_at, exprs_at, opt_expr_at, opt_text_at, plain_at, text_at, texts_at, went, Parser,
};
use crate::pexpr::{items_at, opt_from_at, select_at};
use crate::session::SessionSet;
use crate::sql::{
    column_specs_view, expr_lists_view, exprs_view, key_specs_view, opt_items_view,
    opt_strings_view, sets_view, AlterAction, ColumnSpec, ColumnSpecV, Expr, ExprV, ForeignKeySpec,
    FromClause, InsertSource, ItemV, OnConflict, PolicyDef, SelItem, SelectStmt, Stmt, StmtV,
    TableDef, TableDefV,
};
use crate::statements::{
    at_least, bare_table, bare_text, class_metric, constraint_here, constraint_word, dotted,
    dotted_from, explained, first_int, ignored_word, marks_from, options_from, p_alter,
    p_alter_action, p_bypass, p_claims, p_class, p_column, p_conflict, p_conflict_target,
    p_conflict_update, p_constraint, p_constraint_name, p_create, p_create_index, p_create_policy,
    p_create_table, p_create_view, p_delete, p_drop, p_drop_index, p_drop_policy, p_drop_table,
    p_drop_view, p_foreign, p_insert, p_insert_or, p_int, p_mark, p_mark2, p_method, p_missing,
    p_name, p_on_conflict, p_opt_names, p_option, p_options, p_paren_text, p_part, p_policy_body,
    p_policy_check, p_policy_command, p_policy_roles, p_policy_using, p_present, p_reference,
    p_rename_column, p_replace, p_returning, p_rls, p_role, p_rollback, p_row, p_rows, p_session,
    p_set, p_setting, p_statement, p_table_head, p_targets, p_text, p_transaction, p_type,
    p_type_size, p_update, p_work, parts_from, past_assign, past_group, past_mode, past_modes,
    read_clause, read_expr, read_exprs, read_from, read_items, read_select, rows_from, serial_type,
    sets_from, settings_from, statement, to_end, view_ahead, with_column, without_back,
    without_front, BYPASS_GUC, CLAIMS_GUC, VECTOR_EF_SEARCH_GUC,
};
use crate::text::{
    concat3, from_chars, lower_chars, names_match, owned, same_chars, slice_chars, spells, to_chars,
    trim_chars,
};
use crate::value::ColumnType;
use crate::vector::{IndexParams, Metric};

verus! {

pub open spec fn view_at<T: View>(r: Result<T, Stop>, f: PS) -> Parsed<T::V> {
    match r {
        Ok(v) => Ok((v@, f)),
        Err(s) => Err(s@),
    }
}

pub open spec fn reference_at(r: Result<(String, Option<String>), Stop>, f: PS) -> Parsed<
    (Seq<char>, Option<Seq<char>>),
> {
    match r {
        Ok((t, c)) => Ok(((t@, opt_text(c)), f)),
        Err(s) => Err(s@),
    }
}

pub open spec fn head_at(r: Result<(String, bool), Stop>, f: PS) -> Parsed<(Seq<char>, bool)> {
    match r {
        Ok((n, b)) => Ok(((n@, b), f)),
        Err(s) => Err(s@),
    }
}

pub open spec fn set_at(r: Result<(String, Expr), Stop>, f: PS) -> Parsed<(Seq<char>, ExprV)> {
    match r {
        Ok((n, e)) => Ok(((n@, e@), f)),
        Err(s) => Err(s@),
    }
}

pub open spec fn sets_at(r: Result<Vec<(String, Expr)>, Stop>, f: PS) -> Parsed<
    Seq<(Seq<char>, ExprV)>,
> {
    match r {
        Ok(v) => Ok((sets_view(v@), f)),
        Err(s) => Err(s@),
    }
}

pub open spec fn rows_at(r: Result<Vec<Vec<Expr>>, Stop>, f: PS) -> Parsed<Seq<Seq<ExprV>>> {
    match r {
        Ok(v) => Ok((expr_lists_view(v@), f)),
        Err(s) => Err(s@),
    }
}

pub open spec fn opt_items_at(r: Result<Option<Vec<SelItem>>, Stop>, f: PS) -> Parsed<
    Option<Seq<ItemV>>,
> {
    match r {
        Ok(v) => Ok((opt_items_view(v), f)),
        Err(s) => Err(s@),
    }
}

pub open spec fn opt_texts_at(r: Result<Option<Vec<String>>, Stop>, f: PS) -> Parsed<
    Option<Seq<Seq<char>>>,
> {
    match r {
        Ok(v) => Ok((opt_strings_view(v), f)),
        Err(s) => Err(s@),
    }
}

pub open spec fn opt_stmt_at(r: Option<Result<Stmt, Stop>>, f: PS) -> Option<Parsed<StmtV>> {
    match r {
        Some(q) => Some(view_at(q, f)),
        None => None,
    }
}

/// What reading one mark left, held against what the grammar says of it.
pub open spec fn marked(
    r: Result<bool, Stop>,
    c: ColumnSpecV,
    f: PS,
    want: Result<Option<(ColumnSpecV, PS)>, StopV>,
) -> bool {
    match r {
        Ok(true) => want == Ok::<Option<(ColumnSpecV, PS)>, StopV>(Some((c, f))),
        Ok(false) => want == Ok::<Option<(ColumnSpecV, PS)>, StopV>(None),
        Err(s) => want == Err::<Option<(ColumnSpecV, PS)>, StopV>(s@),
    }
}

pub open spec fn filled(r: Result<(), Stop>, d: TableDefV, f: PS) -> Parsed<TableDefV> {
    match r {
        Ok(_) => Ok((d, f)),
        Err(s) => Err(s@),
    }
}

pub fn is_constraint_kw(w: &str) -> (r: bool)
    ensures
        r == constraint_word(w@),
{
    names_match(w, "primary") || names_match(w, "not") || names_match(w, "null") || names_match(
        w,
        "unique",
    ) || names_match(w, "references") || names_match(w, "default") || names_match(w, "check")
        || names_match(w, "autoincrement") || names_match(w, "collate") || names_match(
        w,
        "generated",
    )
}

pub fn is_serial_type(w: &str) -> (r: bool)
    ensures
        r == serial_type(w@),
{
    let l = lower_chars(w);
    spells(&l, "serial") || spells(&l, "bigserial") || spells(&l, "smallserial") || spells(
        &l,
        "serial4",
    ) || spells(&l, "serial8") || spells(&l, "serial2")
}

fn strip_front(s: &Vec<char>, p: &str) -> (r: Vec<char>)
    ensures
        r@ == without_front(s@, p@),
{
    let pc = to_chars(p);
    let n: usize = pc.len();
    let mut i: usize = 0;
    let ghost len = s@.len() as int;
    assert(s@.subrange(0, len) =~= s@);
    while n > 0 && n <= s.len() - i && same_chars(&slice_chars(s, i, i + n), &pc)
        invariant
            i <= s.len(),
            n == pc.len(),
            pc@ == p@,
            len == s@.len(),
            without_front(s@.subrange(i as int, len), p@) == without_front(s@, p@),
        decreases s.len() - i,
    {
        let ghost here = s@.subrange(i as int, len);
        assert(here.subrange(0, n as int) =~= s@.subrange(i as int, i + n));
        assert(here.subrange(n as int, here.len() as int) =~= s@.subrange(i + n, len));
        i += n;
    }
    proof {
        let here = s@.subrange(i as int, len);
        if n > 0 && n <= s@.len() - i {
            assert(here.subrange(0, n as int) =~= s@.subrange(i as int, i + n));
        }
    }
    slice_chars(s, i, s.len())
}

fn strip_back(s: &Vec<char>, p: &str) -> (r: Vec<char>)
    ensures
        r@ == without_back(s@, p@),
{
    let pc = to_chars(p);
    let n: usize = pc.len();
    let mut k: usize = s.len();
    assert(s@.subrange(0, k as int) =~= s@);
    while n > 0 && n <= k && same_chars(&slice_chars(s, k - n, k), &pc)
        invariant
            k <= s.len(),
            n == pc.len(),
            pc@ == p@,
            without_back(s@.subrange(0, k as int), p@) == without_back(s@, p@),
        decreases k,
    {
        let ghost here = s@.subrange(0, k as int);
        assert(here.subrange(k - n, k as int) =~= s@.subrange(k - n, k as int));
        assert(here.subrange(0, k - n) =~= s@.subrange(0, k - n));
        k -= n;
    }
    proof {
        let here = s@.subrange(0, k as int);
        if n > 0 && n <= k {
            assert(here.subrange(k - n, k as int) =~= s@.subrange(k - n, k as int));
        }
    }
    slice_chars(s, 0, k)
}

/// The metric that an operator class stands for.
pub fn opclass_metric(w: &str) -> (r: Option<Metric>)
    ensures
        r == class_metric(w@),
{
    let l = lower_chars(w);
    let f = strip_front(&l, "vector_");
    let b = strip_back(&l, "_ops");
    if same_chars(&f, &l) || same_chars(&b, &l) {
        return None;
    }
    let m = strip_back(&f, "_ops");
    if spells(&m, "cosine") {
        Some(Metric::Cosine)
    } else if spells(&m, "l2") {
        Some(Metric::L2)
    } else if spells(&m, "ip") {
        Some(Metric::InnerProduct)
    } else {
        None
    }
}

/// The text of a statement without the white space and semicolons around it.
pub fn strip_statement(s: &str) -> (r: String)
    ensures
        r@ == bare_text(s@),
{
    let t = trim_chars(&to_chars(s));
    let u = strip_back(&t, ";");
    from_chars(&trim_chars(&u))
}

fn no_less(n: i64, low: i64) -> (r: usize)
    ensures
        r == at_least(n, low),
{
    if n < low {
        low as usize
    } else {
        n as usize
    }
}

/// Take a column into a table's definition.
fn take_column(d: &mut TableDef, c: ColumnSpec)
    ensures
        final(d)@ == with_column(old(d)@, c@),
{
    match &c.references {
        Some((t, f)) => {
            let mut columns: Vec<String> = Vec::new();
            columns.push(c.name.clone());
            assert(strings_view(columns@) =~= seq![c.name@]);
            let mut foreign_columns: Vec<String> = Vec::new();
            if let Some(n) = f {
                foreign_columns.push(n.clone());
                assert(strings_view(foreign_columns@) =~= seq![n@]);
            } else {
                assert(strings_view(foreign_columns@) =~= Seq::<Seq<char>>::empty());
            }
            let k = ForeignKeySpec { name: None, columns, foreign_table: t.clone(), foreign_columns };
            let ghost kv = k@;
            let ghost before = key_specs_view(d.foreign_keys@);
            d.foreign_keys.push(k);
            assert(key_specs_view(d.foreign_keys@) =~= before.push(kv));
        },
        None => {},
    }
    match &c.check_sql {
        Some(k) => {
            let w = k.clone();
            let ghost wv = w@;
            let ghost before = strings_view(d.checks@);
            d.checks.push(w);
            assert(strings_view(d.checks@) =~= before.push(wv));
        },
        None => {},
    }
    let ghost cv = c@;
    let ghost before = column_specs_view(d.columns@);
    d.columns.push(c);
    assert(column_specs_view(d.columns@) =~= before.push(cv));
}

impl<'a> Parser<'a> {
    fn read_expr(&mut self) -> (r: Result<Expr, Stop>)
        requires
            old(self).wf(),
        ensures
            expr_at(r, final(self).st()) == read_expr(old(self).x(), old(self).st()),
            r is Ok ==> went(*old(self), *final(self)),
    {
        reveal(read_expr);
        self.expr()
    }

    fn read_exprs(&mut self) -> (r: Result<Vec<Expr>, Stop>)
        requires
            old(self).wf(),
        ensures
            exprs_at(r, final(self).st()) == read_exprs(old(self).x(), old(self).st()),
            r is Ok ==> went(*old(self), *final(self)),
    {
        reveal(read_exprs);
        self.expr_list()
    }

    fn read_items(&mut self) -> (r: Result<Vec<SelItem>, Stop>)
        requires
            old(self).wf(),
        ensures
            items_at(r, final(self).st()) == read_items(old(self).x(), old(self).st()),
            r is Ok ==> went(*old(self), *final(self)),
    {
        reveal(read_items);
        self.select_items()
    }

    fn read_clause(&mut self, k: &str) -> (r: Result<Option<Expr>, Stop>)
        requires
            old(self).wf(),
        ensures
            opt_expr_at(r, final(self).st()) == read_clause(old(self).x(), old(self).st(), k@),
            r is Ok ==> went(*old(self), *final(self)),
    {
        reveal(read_clause);
        self.opt_clause(k)
    }

    fn read_from(&mut self, k: &str) -> (r: Result<Option<FromClause>, Stop>)
        requires
            old(self).wf(),
        ensures
            opt_from_at(r, final(self).st()) == read_from(old(self).x(), old(self).st(), k@),
            r is Ok ==> went(*old(self), *final(self)),
    {
        reveal(read_from);
        self.opt_from(k)
    }

    fn read_select(&mut self) -> (r: Result<SelectStmt, Stop>)
        requires
            old(self).wf(),
        ensures
            select_at(r, final(self).st()) == read_select(old(self).x(), old(self).st()),
            r is Ok ==> went(*old(self), *final(self)),
    {
        reveal(read_select);
        self.select()
    }

    fn if_missing(&mut self) -> (r: Result<bool, Stop>)
        requires
            old(self).wf(),
        ensures
            plain_at(r, final(self).st()) == p_missing(old(self).x(), old(self).st()),
            r is Ok ==> went(*old(self), *final(self)),
    {
        if self.eat_kw("if") {
            self.expect_kw("not")?;
            self.expect_kw("exists")?;
            Ok(true)
        } else {
            Ok(false)
        }
    }

    fn if_present(&mut self) -> (r: Result<bool, Stop>)
        requires
            old(self).wf(),
        ensures
            plain_at(r, final(self).st()) == p_present(old(self).x(), old(self).st()),
            r is Ok ==> went(*old(self), *final(self)),
    {
        if self.eat_kw("if") {
            self.expect_kw("exists")?;
            Ok(true)
        } else {
            Ok(false)
        }
    }

    pub fn drop_table(&mut self) -> (r: Result<Stmt, Stop>)
        requires
            old(self).wf(),
        ensures
            view_at(r, final(self).st()) == p_drop_table(old(self).x(), old(self).st()),
            r is Ok ==> went(*old(self), *final(self)),
    {
        self.expect_kw("drop")?;
        self.expect_kw("table")?;
        let if_exists = self.if_present()?;
        let name = self.ident()?;
        Ok(Stmt::DropTable { name, if_exists })
    }

    pub fn drop_index(&mut self) -> (r: Result<Stmt, Stop>)
        requires
            old(self).wf(),
        ensures
            view_at(r, final(self).st()) == p_drop_index(old(self).x(), old(self).st()),
            r is Ok ==> went(*old(self), *final(self)),
    {
        self.expect_kw("drop")?;
        self.expect_kw("index")?;
        let if_exists = self.if_present()?;
        let name = self.ident()?;
        Ok(Stmt::DropIndex { name, if_exists })
    }

    pub fn drop_view(&mut self) -> (r: Result<Stmt, Stop>)
        requires
            old(self).wf(),
        ensures
            view_at(r, final(self).st()) == p_drop_view(old(self).x(), old(self).st()),
            r is Ok ==> went(*old(self), *final(self)),
    {
        self.expect_kw("drop")?;
        self.expect_kw("view")?;
        let if_exists = self.if_present()?;
        let name = self.ident()?;
        Ok(Stmt::DropView { name, if_exists })
    }

    /// An optional size behind a type's name.
    fn parse_type_size(&mut self, ty: ColumnType) -> (r: Result<ColumnType, Stop>)
        requires
            old(self).wf(),
        ensures
            plain_at(r, final(self).st()) == p_type_size(old(self).x(), old(self).st(), ty),
            r is Ok ==> went(*old(self), *final(self)),
    {
        let ghost x = self.x();
        if !self.skip(Sym::LParen) {
            return Ok(ty);
        }
        let ghost s1 = self.st();
        let mut first: Option<i64> = None;
        while !self.at(Sym::RParen) && !self.at(Sym::Eof)
            invariant
                went(*old(self), *self),
                x == self.x(),
                to_close(x, self.st()) == to_close(x, s1),
                first_int(x, s1) == (match first {
                    Some(n) => Some(n),
                    None => first_int(x, self.st()),
                }),
            decreases self.toks.len() - self.pos,
        {
            if first.is_none() {
                if let Tok::Int(n) = self.peek() {
                    first = Some(*n);
                }
            }
            self.bump();
        }
        self.expect(Sym::RParen)?;
        match ty {
            ColumnType::Vector(_) => {
                let d: i64 = match first {
                    Some(n) => n,
                    None => 0,
                };
                if d <= 0 {
                    Err(sql_stop(owned("vector(N) requires a positive dimension")))
                } else {
                    Ok(
                        ColumnType::Vector(
                            #[verifier::truncate]
                            (d as u32),
                        ),
                    )
                }
            },
            _ => Ok(ty),
        }
    }

    /// An optional type, and whether it counts up by itself.
    fn column_type(&mut self) -> (r: Result<(ColumnType, bool), Stop>)
        requires
            old(self).wf(),
        ensures
            plain_at(r, final(self).st()) == p_type(old(self).x(), old(self).st()),
            r is Ok ==> went(*old(self), *final(self)),
    {
        let named = match self.peek() {
            Tok::Word(w) => if is_constraint_kw(w) {
                None
            } else {
                Some((is_serial_type(w), ColumnType::from_sql(w)))
            },
            _ => None,
        };
        match named {
            None => Ok((ColumnType::Text, false)),
            Some((serial, plain)) => {
                self.bump();
                let ty = if serial {
                    ColumnType::Integer
                } else {
                    plain
                };
                let sized = self.parse_type_size(ty)?;
                Ok((sized, serial))
            },
        }
    }

    /// The text of an expression.
    fn capture_expr_sql(&mut self, tight: bool) -> (r: Result<String, Stop>)
        requires
            old(self).wf(),
        ensures
            text_at(r, final(self).st()) == p_text(old(self).x(), old(self).st(), tight),
            r is Ok ==> went(*old(self), *final(self)),
    {
        let from: usize = self.pos;
        let _ = self.read_expr()?;
        let text = render_tokens(&self.toks, from, self.pos, tight, self.reals)?;
        Ok(text)
    }

    /// The text of an expression in parentheses.
    fn capture_paren_expr_sql(&mut self, tight: bool) -> (r: Result<String, Stop>)
        requires
            old(self).wf(),
        ensures
            text_at(r, final(self).st()) == p_paren_text(old(self).x(), old(self).st(), tight),
            r is Ok ==> went(*old(self), *final(self)),
    {
        self.expect(Sym::LParen)?;
        let text = self.capture_expr_sql(tight)?;
        self.expect(Sym::RParen)?;
        Ok(text)
    }

    fn references_target(&mut self) -> (r: Result<(String, Option<String>), Stop>)
        requires
            old(self).wf(),
        ensures
            reference_at(r, final(self).st()) == p_reference(old(self).x(), old(self).st()),
            r is Ok ==> went(*old(self), *final(self)),
    {
        let table = self.ident()?;
        let column = if self.skip(Sym::LParen) {
            let c = self.ident()?;
            self.expect(Sym::RParen)?;
            Some(c)
        } else {
            None
        };
        Ok((table, column))
    }

    /// Read one further mark of a column, if one stands here.
    #[verifier::rlimit(30)]
    fn column_mark(&mut self, c: &mut ColumnSpec) -> (r: Result<bool, Stop>)
        requires
            old(self).wf(),
        ensures
            marked(r, final(c)@, final(self).st(), p_mark(old(self).x(), old(self).st(), old(c)@)),
            r is Ok ==> went(*old(self), *final(self)),
            r == Ok::<bool, Stop>(false) ==> final(c)@ == old(c)@ && final(self).st() == old(self).st(),
            r == Ok::<bool, Stop>(true) ==> final(self).pos > old(self).pos,
    {
        if self.eat_kw("primary") {
            self.expect_kw("key")?;
            c.primary_key = true;
            c.not_null = true;
            if self.eat_kw("autoincrement") {
                c.autoincrement = true;
            }
            Ok(true)
        } else if self.eat_kw("not") {
            self.expect_kw("null")?;
            c.not_null = true;
            Ok(true)
        } else if self.eat_kw("null") {
            Ok(true)
        } else if self.eat_kw("unique") {
            c.unique = true;
            Ok(true)
        } else if self.eat_kw("autoincrement") {
            c.autoincrement = true;
            Ok(true)
        } else {
            self.column_mark2(c)
        }
    }

    #[verifier::rlimit(30)]
    fn column_mark2(&mut self, c: &mut ColumnSpec) -> (r: Result<bool, Stop>)
        requires
            old(self).wf(),
        ensures
            marked(r, final(c)@, final(self).st(), p_mark2(old(self).x(), old(self).st(), old(c)@)),
            r is Ok ==> went(*old(self), *final(self)),
            r == Ok::<bool, Stop>(false) ==> final(c)@ == old(c)@ && final(self).st() == old(self).st(),
            r == Ok::<bool, Stop>(true) ==> final(self).pos > old(self).pos,
    {
        if self.eat_kw("default") {
            let text = self.capture_expr_sql(false)?;
            c.default_sql = Some(text);
            Ok(true)
        } else if self.eat_kw("check") {
            let text = self.capture_paren_expr_sql(false)?;
            c.check_sql = Some(text);
            Ok(true)
        } else if self.eat_kw("references") {
            let target = self.references_target()?;
            c.references = Some(target);
            Ok(true)
        } else if self.eat_kw("collate") {
            let _ = self.ident()?;
            Ok(true)
        } else if self.is_kw("generated") {
            Err(sql_stop(owned("GENERATED columns are not supported")))
        } else {
            Ok(false)
        }
    }

    /// A column's definition.
    fn column_spec(&mut self) -> (r: Result<ColumnSpec, Stop>)
        requires
            old(self).wf(),
        ensures
            view_at(r, final(self).st()) == p_column(old(self).x(), old(self).st()),
            r is Ok ==> went(*old(self), *final(self)),
    {
        let ghost x = self.x();
        let ghost s0 = self.st();
        let name = self.ident()?;
        let (ty, serial) = self.column_type()?;
        let mut c = ColumnSpec {
            name,
            ty,
            primary_key: false,
            not_null: false,
            unique: false,
            autoincrement: serial,
            default_sql: None,
            check_sql: None,
            references: None,
        };
        loop
            invariant
                went(*old(self), *self),
                x == self.x(),
                x == old(self).x(),
                s0 == old(self).st(),
                marks_from(x, self.st(), c@) == p_column(x, s0),
            decreases self.toks.len() - self.pos,
        {
            let more = self.column_mark(&mut c)?;
            if !more {
                return Ok(c);
            }
        }
    }

    fn constraint_ahead(&self) -> (r: bool)
        requires
            self.wf(),
        ensures
            r == constraint_here(self.x(), self.st()),
    {
        self.is_kw("constraint") || self.is_kw("primary") || self.is_kw("unique") || self.is_kw(
            "foreign",
        ) || self.is_kw("check")
    }

    fn constraint_name(&mut self) -> (r: Result<Option<String>, Stop>)
        requires
            old(self).wf(),
        ensures
            opt_text_at(r, final(self).st()) == p_constraint_name(old(self).x(), old(self).st()),
            r is Ok ==> went(*old(self), *final(self)),
    {
        if self.eat_kw("constraint") {
            let n = self.ident()?;
            Ok(Some(n))
        } else {
            Ok(None)
        }
    }

    fn opt_names(&mut self) -> (r: Result<Vec<String>, Stop>)
        requires
            old(self).wf(),
        ensures
            texts_at(r, final(self).st()) == p_opt_names(old(self).x(), old(self).st()),
            r is Ok ==> went(*old(self), *final(self)),
    {
        if self.at(Sym::LParen) {
            self.paren_ident_list()
        } else {
            let v: Vec<String> = Vec::new();
            assert(strings_view(v@) =~= Seq::<Seq<char>>::empty());
            Ok(v)
        }
    }

    /// Read a constraint of the whole table.
    #[verifier::rlimit(30)]
    fn table_constraint(&mut self, d: &mut TableDef) -> (r: Result<(), Stop>)
        requires
            old(self).wf(),
        ensures
            filled(r, final(d)@, final(self).st()) == p_constraint(
                old(self).x(),
                old(self).st(),
                old(d)@,
            ),
            r is Ok ==> went(*old(self), *final(self)),
    {
        let name = self.constraint_name()?;
        if self.eat_kw("foreign") {
            let k = self.foreign_key(name)?;
            let ghost kv = k@;
            let ghost before = key_specs_view(d.foreign_keys@);
            d.foreign_keys.push(k);
            assert(key_specs_view(d.foreign_keys@) =~= before.push(kv));
        } else if self.eat_kw("primary") {
            self.expect_kw("key")?;
            let mut n = self.paren_ident_list()?;
            let ghost nv = strings_view(n@);
            let ghost before = strings_view(d.primary_key@);
            d.primary_key.append(&mut n);
            assert(strings_view(d.primary_key@) =~= before + nv);
        } else if self.eat_kw("unique") {
            let n = self.paren_ident_list()?;
            let ghost nv = strings_view(n@);
            let ghost before = string_lists_view(d.uniques@);
            d.uniques.push(n);
            assert(string_lists_view(d.uniques@) =~= before.push(nv));
        } else if self.eat_kw("check") {
            let w = self.capture_paren_expr_sql(false)?;
            let ghost wv = w@;
            let ghost before = strings_view(d.checks@);
            d.checks.push(w);
            assert(strings_view(d.checks@) =~= before.push(wv));
        }
        Ok(())
    }

    /// Read one part of a table's definition.
    fn table_part(&mut self, d: &mut TableDef) -> (r: Result<(), Stop>)
        requires
            old(self).wf(),
        ensures
            filled(r, final(d)@, final(self).st()) == p_part(
                old(self).x(),
                old(self).st(),
                old(d)@,
            ),
            r is Ok ==> went(*old(self), *final(self)),
    {
        if self.constraint_ahead() {
            self.table_constraint(d)
        } else {
            let c = self.column_spec()?;
            take_column(d, c);
            Ok(())
        }
    }

    fn table_parts(&mut self, name: String, if_not_exists: bool) -> (r: Result<TableDef, Stop>)
        requires
            old(self).wf(),
        ensures
            view_at(r, final(self).st()) == parts_from(old(self).x(), old(self).st(), bare_table(name@, if_not_exists)),
            r is Ok ==> went(*old(self), *final(self)),
    {
        let ghost x = self.x();
        let ghost s0 = self.st();
        let ghost d0 = bare_table(name@, if_not_exists);
        let mut d = TableDef {
            name,
            columns: Vec::new(),
            foreign_keys: Vec::new(),
            primary_key: Vec::new(),
            uniques: Vec::new(),
            checks: Vec::new(),
            if_not_exists,
        };
        proof {
            assert(column_specs_view(d.columns@) =~= d0.columns);
            assert(key_specs_view(d.foreign_keys@) =~= d0.foreign_keys);
            assert(strings_view(d.primary_key@) =~= d0.primary_key);
            assert(string_lists_view(d.uniques@) =~= d0.uniques);
            assert(strings_view(d.checks@) =~= d0.checks);
        }
        loop
            invariant
                went(*old(self), *self),
                x == self.x(),
                x == old(self).x(),
                s0 == old(self).st(),
                parts_from(x, self.st(), d@) == parts_from(x, s0, d0),
                d0 == bare_table(name@, if_not_exists),
            decreases self.toks.len() - self.pos,
        {
            self.table_part(&mut d)?;
            if !self.skip(Sym::Comma) {
                return Ok(d);
            }
        }
    }

    /// `CREATE TABLE`.
    fn create_table(&mut self) -> (r: Result<Stmt, Stop>)
        requires
            old(self).wf(),
        ensures
            view_at(r, final(self).st()) == p_create_table(old(self).x(), old(self).st()),
            r is Ok ==> went(*old(self), *final(self)),
    {
        let (name, if_not_exists) = self.table_head()?;
        let d = self.table_parts(name, if_not_exists)?;
        self.expect(Sym::RParen)?;
        assert(d@.columns.len() == d.columns@.len());
        if d.columns.len() == 0 {
            return Err(sql_stop(owned("table must have at least one column")));
        }
        Ok(Stmt::CreateTable(d))
    }

    /// A foreign key behind the word `FOREIGN`.
    fn foreign_key(&mut self, name: Option<String>) -> (r: Result<ForeignKeySpec, Stop>)
        requires
            old(self).wf(),
        ensures
            view_at(r, final(self).st()) == p_foreign(old(self).x(), old(self).st(), opt_text(name)),
            r is Ok ==> went(*old(self), *final(self)),
    {
        self.expect_kw("key")?;
        let columns = self.paren_ident_list()?;
        self.expect_kw("references")?;
        let foreign_table = self.ident()?;
        let foreign_columns = self.opt_names()?;
        Ok(ForeignKeySpec { name, columns, foreign_table, foreign_columns })
    }

    fn table_head(&mut self) -> (r: Result<(String, bool), Stop>)
        requires
            old(self).wf(),
        ensures
            head_at(r, final(self).st()) == p_table_head(old(self).x(), old(self).st()),
            r is Ok ==> went(*old(self), *final(self)),
    {
        self.expect_kw("create")?;
        self.expect_kw("table")?;
        let if_not_exists = self.if_missing()?;
        let name = self.ident()?;
        self.expect(Sym::LParen)?;
        Ok((name, if_not_exists))
    }

    fn rename_column(&mut self) -> (r: Result<AlterAction, Stop>)
        requires
            old(self).wf(),
        ensures
            view_at(r, final(self).st()) == p_rename_column(old(self).x(), old(self).st()),
            r is Ok ==> went(*old(self), *final(self)),
    {
        let _ = self.eat_kw("column");
        let from = self.ident()?;
        self.expect_kw("to")?;
        let to = self.ident()?;
        Ok(AlterAction::RenameColumn { from, to })
    }

    #[verifier::rlimit(30)]
    fn alter_action(&mut self) -> (r: Result<AlterAction, Stop>)
        requires
            old(self).wf(),
        ensures
            view_at(r, final(self).st()) == p_alter_action(old(self).x(), old(self).st()),
            r is Ok ==> went(*old(self), *final(self)),
    {
        if self.eat_kw("add") {
            let _ = self.eat_kw("column");
            let c = self.column_spec()?;
            Ok(AlterAction::AddColumn(c))
        } else if self.eat_kw("drop") {
            let _ = self.eat_kw("column");
            let if_exists = self.eat_kw("if") && self.eat_kw("exists");
            let name = self.ident()?;
            Ok(AlterAction::DropColumn { name, if_exists })
        } else if self.eat_kw("rename") {
            if self.eat_kw("to") {
                let to = self.ident()?;
                Ok(AlterAction::RenameTable { to })
            } else {
                self.rename_column()
            }
        } else if self.eat_kw("enable") {
            self.row_level_security(true)
        } else if self.eat_kw("disable") {
            self.row_level_security(false)
        } else {
            Err(
                sql_stop(
                    owned("unsupported ALTER TABLE action (expected ADD/DROP/RENAME)"),
                ),
            )
        }
    }

    fn row_level_security(&mut self, on: bool) -> (r: Result<AlterAction, Stop>)
        requires
            old(self).wf(),
        ensures
            view_at(r, final(self).st()) == p_rls(old(self).x(), old(self).st(), on),
            r is Ok ==> went(*old(self), *final(self)),
    {
        self.expect_kw("row")?;
        self.expect_kw("level")?;
        self.expect_kw("security")?;
        Ok(AlterAction::SetRls(on))
    }

    fn policy_command(&mut self) -> (r: Result<PolicyCommand, Stop>)
        requires
            old(self).wf(),
        ensures
            plain_at(r, final(self).st()) == p_policy_command(old(self).x(), old(self).st()),
            r is Ok ==> went(*old(self), *final(self)),
    {
        if !self.eat_kw("for") || self.eat_kw("all") {
            Ok(PolicyCommand::All)
        } else if self.eat_kw("select") {
            Ok(PolicyCommand::Select)
        } else if self.eat_kw("insert") {
            Ok(PolicyCommand::Insert)
        } else if self.eat_kw("update") {
            Ok(PolicyCommand::Update)
        } else if self.eat_kw("delete") {
            Ok(PolicyCommand::Delete)
        } else {
            Err(self.unexpected("expected a command of a policy, found "))
        }
    }

    fn policy_roles(&mut self) -> (r: Result<Vec<String>, Stop>)
        requires
            old(self).wf(),
        ensures
            texts_at(r, final(self).st()) == p_policy_roles(old(self).x(), old(self).st()),
            r is Ok ==> went(*old(self), *final(self)),
    {
        if !self.eat_kw("to") || self.eat_kw("public") {
            let none: Vec<String> = Vec::new();
            assert(strings_view(none@) =~= Seq::<Seq<char>>::empty());
            return Ok(none);
        }
        self.names()
    }

    fn policy_using(&mut self) -> (r: Result<Option<String>, Stop>)
        requires
            old(self).wf(),
        ensures
            opt_text_at(r, final(self).st()) == p_policy_using(old(self).x(), old(self).st()),
            r is Ok ==> went(*old(self), *final(self)),
    {
        if self.eat_kw("using") {
            let text = self.capture_paren_expr_sql(true)?;
            Ok(Some(text))
        } else {
            Ok(None)
        }
    }

    fn policy_check(&mut self) -> (r: Result<Option<String>, Stop>)
        requires
            old(self).wf(),
        ensures
            opt_text_at(r, final(self).st()) == p_policy_check(old(self).x(), old(self).st()),
            r is Ok ==> went(*old(self), *final(self)),
    {
        if self.eat_kw("with") {
            self.expect_kw("check")?;
            let text = self.capture_paren_expr_sql(true)?;
            Ok(Some(text))
        } else {
            Ok(None)
        }
    }

    fn policy_body(&mut self, name: String, table: String) -> (r: Result<Stmt, Stop>)
        requires
            old(self).wf(),
        ensures
            view_at(r, final(self).st()) == p_policy_body(
                old(self).x(),
                old(self).st(),
                name@,
                table@,
            ),
            r is Ok ==> went(*old(self), *final(self)),
    {
        let command = self.policy_command()?;
        let roles = self.policy_roles()?;
        let using = self.policy_using()?;
        let check = self.policy_check()?;
        Ok(Stmt::CreatePolicy(PolicyDef { name, table, command, roles, using, check }))
    }

    fn create_policy(&mut self) -> (r: Result<Stmt, Stop>)
        requires
            old(self).wf(),
        ensures
            view_at(r, final(self).st()) == p_create_policy(old(self).x(), old(self).st()),
            r is Ok ==> went(*old(self), *final(self)),
    {
        self.bump();
        self.bump();
        let name = self.ident()?;
        self.expect_kw("on")?;
        let table = self.ident()?;
        self.policy_body(name, table)
    }

    fn drop_policy(&mut self) -> (r: Result<Stmt, Stop>)
        requires
            old(self).wf(),
        ensures
            view_at(r, final(self).st()) == p_drop_policy(old(self).x(), old(self).st()),
            r is Ok ==> went(*old(self), *final(self)),
    {
        self.bump();
        self.bump();
        let if_exists = self.if_present()?;
        let name = self.ident()?;
        self.expect_kw("on")?;
        let table = self.ident()?;
        Ok(Stmt::DropPolicy { name, table, if_exists })
    }

    /// `ALTER TABLE`.
    fn alter_table(&mut self) -> (r: Result<Stmt, Stop>)
        requires
            old(self).wf(),
        ensures
            view_at(r, final(self).st()) == p_alter(old(self).x(), old(self).st()),
            r is Ok ==> went(*old(self), *final(self)),
    {
        self.expect_kw("alter")?;
        self.expect_kw("table")?;
        let _ = self.eat_kw("if") && self.eat_kw("exists");
        let table = self.ident()?;
        let action = self.alter_action()?;
        Ok(Stmt::AlterTable { table, action })
    }

    fn int_value(&mut self) -> (r: Result<i64, Stop>)
        requires
            old(self).wf(),
        ensures
            plain_at(r, final(self).st()) == p_int(old(self).x(), old(self).st()),
            r is Ok ==> went(*old(self), *final(self)),
    {
        let n: i64 = match self.peek() {
            Tok::Int(n) => *n,
            _ => {
                return Err(self.unexpected("expected an integer, found "));
            },
        };
        self.bump();
        Ok(n)
    }

    fn string_or_ident(&mut self) -> (r: Result<String, Stop>)
        requires
            old(self).wf(),
        ensures
            text_at(r, final(self).st()) == p_name(old(self).x(), old(self).st()),
            r is Ok ==> went(*old(self), *final(self)),
    {
        let w = match self.peek() {
            Tok::Str(w) => w.clone(),
            Tok::Word(w) => w.clone(),
            _ => {
                return Err(self.unexpected("expected a name, found "));
            },
        };
        self.bump();
        Ok(w)
    }

    /// Read the value of an index option.
    fn apply_index_option(&mut self, key: &str, p: IndexParams) -> (r: Result<IndexParams, Stop>)
        requires
            old(self).wf(),
        ensures
            plain_at(r, final(self).st()) == p_option(old(self).x(), old(self).st(), key@, p),
            r is Ok ==> went(*old(self), *final(self)),
    {
        let mut p = p;
        if names_match(key, "metric") {
            let n = self.string_or_ident()?;
            match Metric::from_name(&n) {
                Some(m) => {
                    p.metric = m;
                    Ok(p)
                },
                None => Err(sql_stop(concat3("unknown vector metric '", &n, "'"))),
            }
        } else {
            let n: i64 = self.int_value()?;
            let k = lower_chars(key);
            if spells(&k, "m") {
                p.m = no_less(n, 2);
                Ok(p)
            } else if spells(&k, "ef_construction") {
                p.ef_construction = no_less(n, 1);
                Ok(p)
            } else if spells(&k, "ef_search") {
                p.ef_search = no_less(n, 1);
                Ok(p)
            } else {
                Err(sql_stop(concat3("unknown index option '", &from_chars(&k), "'")))
            }
        }
    }

    fn options(&mut self, p: IndexParams) -> (r: Result<IndexParams, Stop>)
        requires
            old(self).wf(),
        ensures
            plain_at(r, final(self).st()) == options_from(old(self).x(), old(self).st(), p),
            r is Ok ==> went(*old(self), *final(self)),
    {
        let ghost x = self.x();
        let ghost s0 = self.st();
        let ghost p0 = p;
        let mut q = p;
        loop
            invariant
                went(*old(self), *self),
                x == self.x(),
                x == old(self).x(),
                s0 == old(self).st(),
                options_from(x, self.st(), q) == options_from(x, s0, p0),
                p0 == p,
            decreases self.toks.len() - self.pos,
        {
            let key = self.ident()?;
            self.expect(Sym::Eq)?;
            q = self.apply_index_option(&key, q)?;
            if !self.skip(Sym::Comma) {
                return Ok(q);
            }
        }
    }

    fn parse_index_options(&mut self, p: IndexParams) -> (r: Result<IndexParams, Stop>)
        requires
            old(self).wf(),
        ensures
            plain_at(r, final(self).st()) == p_options(old(self).x(), old(self).st(), p),
            r is Ok ==> went(*old(self), *final(self)),
    {
        if self.eat_kw("with") {
            self.expect(Sym::LParen)?;
            let q = self.options(p)?;
            self.expect(Sym::RParen)?;
            Ok(q)
        } else {
            Ok(p)
        }
    }

    fn index_method(&mut self) -> (r: Result<(), Stop>)
        requires
            old(self).wf(),
        ensures
            plain_at(r, final(self).st()) == p_method(old(self).x(), old(self).st()),
            r is Ok ==> went(*old(self), *final(self)),
    {
        let m = self.ident()?;
        if names_match(&m, "hnsw") {
            Ok(())
        } else {
            Err(
                sql_stop(
                    concat3("unsupported index method '", &m, "'; only HNSW is supported"),
                ),
            )
        }
    }

    fn index_class(&mut self) -> (r: Result<IndexParams, Stop>)
        requires
            old(self).wf(),
        ensures
            plain_at(r, final(self).st()) == p_class(old(self).x(), old(self).st()),
            r is Ok ==> went(*old(self), *final(self)),
    {
        let mut p = IndexParams::default();
        let class = match self.peek() {
            Tok::Word(w) => opclass_metric(w),
            _ => None,
        };
        if let Some(m) = class {
            p.metric = m;
            self.bump();
        }
        Ok(p)
    }

    /// `CREATE INDEX`.
    #[verifier::rlimit(30)]
    pub fn create_index(&mut self) -> (r: Result<Stmt, Stop>)
        requires
            old(self).wf(),
        ensures
            view_at(r, final(self).st()) == p_create_index(old(self).x(), old(self).st()),
            r is Ok ==> went(*old(self), *final(self)),
    {
        self.expect_kw("create")?;
        self.expect_kw("index")?;
        let if_not_exists = self.if_missing()?;
        let name = self.ident()?;
        self.expect_kw("on")?;
        let table = self.ident()?;
        self.expect_kw("using")?;
        let _ = self.index_method()?;
        self.expect(Sym::LParen)?;
        let column = self.ident()?;
        let p = self.index_class()?;
        self.expect(Sym::RParen)?;
        let params = self.parse_index_options(p)?;
        Ok(Stmt::CreateIndex { name, table, column, params, if_not_exists })
    }

    fn view_next(&self) -> (r: bool)
        requires
            self.wf(),
        ensures
            r == view_ahead(self.x(), self.st()),
    {
        let i: usize = if self.kw_ahead(1, "or") && self.kw_ahead(2, "replace") {
            3
        } else {
            1
        };
        if self.kw_ahead(i, "temp") || self.kw_ahead(i, "temporary") {
            self.kw_ahead(i + 1, "view")
        } else {
            self.kw_ahead(i, "view")
        }
    }

    fn or_replace(&mut self) -> (r: Result<bool, Stop>)
        requires
            old(self).wf(),
        ensures
            plain_at(r, final(self).st()) == p_replace(old(self).x(), old(self).st()),
            r is Ok ==> went(*old(self), *final(self)),
    {
        if self.eat_kw("or") {
            self.expect_kw("replace")?;
            Ok(true)
        } else {
            Ok(false)
        }
    }

    /// `CREATE VIEW`.
    #[verifier::rlimit(30)]
    pub fn create_view(&mut self) -> (r: Result<Stmt, Stop>)
        requires
            old(self).wf(),
        ensures
            view_at(r, final(self).st()) == p_create_view(old(self).x(), old(self).st()),
            r is Ok ==> went(*old(self), *final(self)),
    {
        self.expect_kw("create")?;
        let or_replace = self.or_replace()?;
        let _ = self.eat_either("temp", "temporary");
        self.expect_kw("view")?;
        let if_not_exists = self.if_missing()?;
        let name = self.ident()?;
        let _ = self.opt_names()?;
        self.expect_kw("as")?;
        let query = self.read_select()?;
        let sql = strip_statement(self.text);
        Ok(Stmt::CreateView { name, query: Box::new(query), sql, or_replace, if_not_exists })
    }

    fn value_row(&mut self) -> (r: Result<Vec<Expr>, Stop>)
        requires
            old(self).wf(),
        ensures
            exprs_at(r, final(self).st()) == p_row(old(self).x(), old(self).st()),
            r is Ok ==> went(*old(self), *final(self)),
    {
        self.expect(Sym::LParen)?;
        let row: Vec<Expr> = if self.at(Sym::RParen) {
            Vec::new()
        } else {
            self.read_exprs()?
        };
        assert(row@.len() == 0 ==> exprs_view(row@) =~= Seq::<ExprV>::empty());
        self.expect(Sym::RParen)?;
        Ok(row)
    }

    fn value_rows(&mut self) -> (r: Result<Vec<Vec<Expr>>, Stop>)
        requires
            old(self).wf(),
        ensures
            rows_at(r, final(self).st()) == rows_from(old(self).x(), old(self).st(), Seq::empty()),
            r is Ok ==> went(*old(self), *final(self)),
    {
        let ghost x = self.x();
        let ghost s0 = self.st();
        let mut out: Vec<Vec<Expr>> = Vec::new();
        assert(expr_lists_view(out@) =~= Seq::<Seq<ExprV>>::empty());
        loop
            invariant
                went(*old(self), *self),
                x == self.x(),
                x == old(self).x(),
                s0 == old(self).st(),
                rows_from(x, self.st(), expr_lists_view(out@)) == rows_from(x, s0, Seq::empty()),
            decreases self.toks.len() - self.pos,
        {
            let ghost before = expr_lists_view(out@);
            let row = self.value_row()?;
            let ghost rv = exprs_view(row@);
            out.push(row);
            assert(expr_lists_view(out@) =~= before.push(rv));
            if !self.skip(Sym::Comma) {
                return Ok(out);
            }
        }
    }

    /// Where an `INSERT` has its rows from.
    fn insert_source(&mut self) -> (r: Result<InsertSource, Stop>)
        requires
            old(self).wf(),
        ensures
            view_at(r, final(self).st()) == p_rows(old(self).x(), old(self).st()),
            r is Ok ==> went(*old(self), *final(self)),
    {
        if self.is_kw("select") || self.is_kw("with") {
            let q = self.read_select()?;
            Ok(InsertSource::Select(Box::new(q)))
        } else if self.eat_kw("default") {
            self.expect_kw("values")?;
            let row: Vec<Expr> = Vec::new();
            let mut rows: Vec<Vec<Expr>> = Vec::new();
            assert(exprs_view(row@) =~= Seq::<ExprV>::empty());
            rows.push(row);
            assert(expr_lists_view(rows@) =~= seq![Seq::<ExprV>::empty()]);
            Ok(InsertSource::Values(rows))
        } else {
            self.expect_kw("values")?;
            let rows = self.value_rows()?;
            Ok(InsertSource::Values(rows))
        }
    }

    fn assignment_list(&mut self) -> (r: Result<Vec<(String, Expr)>, Stop>)
        requires
            old(self).wf(),
        ensures
            sets_at(r, final(self).st()) == sets_from(old(self).x(), old(self).st(), Seq::empty()),
            r is Ok ==> went(*old(self), *final(self)),
    {
        let ghost x = self.x();
        let ghost s0 = self.st();
        let mut out: Vec<(String, Expr)> = Vec::new();
        assert(sets_view(out@) =~= Seq::<(Seq<char>, ExprV)>::empty());
        loop
            invariant
                went(*old(self), *self),
                x == self.x(),
                x == old(self).x(),
                s0 == old(self).st(),
                sets_from(x, self.st(), sets_view(out@)) == sets_from(x, s0, Seq::empty()),
            decreases self.toks.len() - self.pos,
        {
            let ghost before = sets_view(out@);
            let a = self.assignment()?;
            let ghost av = (a.0@, a.1@);
            out.push(a);
            assert(sets_view(out@) =~= before.push(av));
            if !self.skip(Sym::Comma) {
                return Ok(out);
            }
        }
    }

    fn conflict_target(&mut self) -> (r: Result<(), Stop>)
        requires
            old(self).wf(),
        ensures
            plain_at(r, final(self).st()) == p_conflict_target(old(self).x(), old(self).st()),
            r is Ok ==> went(*old(self), *final(self)),
    {
        if self.at(Sym::LParen) {
            let _ = self.paren_ident_list()?;
        } else if self.eat_kw("on") {
            self.expect_kw("constraint")?;
            let _ = self.ident()?;
        }
        Ok(())
    }

    fn on_conflict_action(&mut self) -> (r: Result<OnConflict, Stop>)
        requires
            old(self).wf(),
        ensures
            view_at(r, final(self).st()) == p_conflict(old(self).x(), old(self).st()),
            r is Ok ==> went(*old(self), *final(self)),
    {
        self.conflict_target()?;
        self.expect_kw("do")?;
        if self.eat_kw("nothing") {
            return Ok(OnConflict::Nothing);
        }
        self.conflict_update()
    }

    fn opt_returning(&mut self) -> (r: Result<Option<Vec<SelItem>>, Stop>)
        requires
            old(self).wf(),
        ensures
            opt_items_at(r, final(self).st()) == p_returning(old(self).x(), old(self).st()),
            r is Ok ==> went(*old(self), *final(self)),
    {
        if self.eat_kw("returning") {
            let v = self.read_items()?;
            Ok(Some(v))
        } else {
            Ok(None)
        }
    }

    fn insert_or(&mut self) -> (r: Result<OnConflict, Stop>)
        requires
            old(self).wf(),
        ensures
            view_at(r, final(self).st()) == p_insert_or(old(self).x(), old(self).st()),
            r is Ok ==> went(*old(self), *final(self)),
    {
        if self.eat_kw("or") {
            if self.eat_kw("replace") {
                return Ok(OnConflict::Replace);
            }
            if self.eat_kw("ignore") {
                return Ok(OnConflict::Nothing);
            }
            if !self.eat_kw("abort") {
                let _ = self.eat_either("fail", "rollback");
            }
        }
        Ok(OnConflict::Error)
    }

    fn target_columns(&mut self) -> (r: Result<Option<Vec<String>>, Stop>)
        requires
            old(self).wf(),
        ensures
            opt_texts_at(r, final(self).st()) == p_targets(old(self).x(), old(self).st()),
            r is Ok ==> went(*old(self), *final(self)),
    {
        if self.at(Sym::LParen) && !self.kw_ahead(1, "select") {
            let v = self.paren_ident_list()?;
            Ok(Some(v))
        } else {
            Ok(None)
        }
    }

    fn on_conflict(&mut self, c: OnConflict) -> (r: Result<OnConflict, Stop>)
        requires
            old(self).wf(),
        ensures
            view_at(r, final(self).st()) == p_on_conflict(old(self).x(), old(self).st(), c@),
            r is Ok ==> went(*old(self), *final(self)),
    {
        if self.eat_kw("on") {
            self.expect_kw("conflict")?;
            self.on_conflict_action()
        } else {
            Ok(c)
        }
    }

    fn assignment(&mut self) -> (r: Result<(String, Expr), Stop>)
        requires
            old(self).wf(),
        ensures
            set_at(r, final(self).st()) == p_set(old(self).x(), old(self).st()),
            r is Ok ==> went(*old(self), *final(self)),
    {
        let name = self.ident()?;
        self.expect(Sym::Eq)?;
        let e = self.read_expr()?;
        Ok((name, e))
    }

    fn conflict_update(&mut self) -> (r: Result<OnConflict, Stop>)
        requires
            old(self).wf(),
        ensures
            view_at(r, final(self).st()) == p_conflict_update(old(self).x(), old(self).st()),
            r is Ok ==> went(*old(self), *final(self)),
    {
        self.expect_kw("update")?;
        self.expect_kw("set")?;
        let sets = self.assignment_list()?;
        let filter = self.read_clause("where")?;
        Ok(OnConflict::Update { sets, filter })
    }

    /// `INSERT`.
    #[verifier::rlimit(30)]
    pub fn insert(&mut self) -> (r: Result<Stmt, Stop>)
        requires
            old(self).wf(),
        ensures
            view_at(r, final(self).st()) == p_insert(old(self).x(), old(self).st()),
            r is Ok ==> went(*old(self), *final(self)),
    {
        self.expect_kw("insert")?;
        let alt = self.insert_or()?;
        self.expect_kw("into")?;
        let table = self.ident()?;
        let columns = self.target_columns()?;
        let source = self.insert_source()?;
        let on_conflict = self.on_conflict(alt)?;
        let returning = self.opt_returning()?;
        Ok(Stmt::Insert { table, columns, source, on_conflict, returning })
    }

    /// `UPDATE`.
    #[verifier::rlimit(30)]
    pub fn update(&mut self) -> (r: Result<Stmt, Stop>)
        requires
            old(self).wf(),
        ensures
            view_at(r, final(self).st()) == p_update(old(self).x(), old(self).st()),
            r is Ok ==> went(*old(self), *final(self)),
    {
        self.expect_kw("update")?;
        let table = self.ident()?;
        self.expect_kw("set")?;
        let sets = self.assignment_list()?;
        let from = self.read_from("from")?;
        let filter = self.read_clause("where")?;
        let returning = self.opt_returning()?;
        Ok(Stmt::Update { table, sets, from, filter, returning })
    }

    /// `DELETE`.
    #[verifier::rlimit(30)]
    pub fn delete(&mut self) -> (r: Result<Stmt, Stop>)
        requires
            old(self).wf(),
        ensures
            view_at(r, final(self).st()) == p_delete(old(self).x(), old(self).st()),
            r is Ok ==> went(*old(self), *final(self)),
    {
        self.expect_kw("delete")?;
        self.expect_kw("from")?;
        let table = self.ident()?;
        let using = self.read_from("using")?;
        let filter = self.read_clause("where")?;
        let returning = self.opt_returning()?;
        Ok(Stmt::Delete { table, using, filter, returning })
    }

    fn skip_to_end(&mut self)
        requires
            old(self).wf(),
        ensures
            final(self).st() == to_end(old(self).x(), old(self).st()),
            went(*old(self), *final(self)),
    {
        let ghost x = self.x();
        let ghost s0 = self.st();
        while !self.at(Sym::Semi) && !self.at(Sym::Eof)
            invariant
                went(*old(self), *self),
                x == self.x(),
                to_end(x, self.st()) == to_end(x, s0),
            decreases self.toks.len() - self.pos,
        {
            self.bump();
        }
    }

    /// Read a group of balanced parentheses.
    fn skip_parens(&mut self)
        requires
            old(self).wf(),
            sym(old(self).x(), old(self).st(), Sym::LParen),
        ensures
            final(self).st() == past_group(old(self).x(), old(self).st(), 0),
            went(*old(self), *final(self)),
    {
        let ghost x = self.x();
        let ghost s0 = self.st();
        self.bump();
        let mut depth: usize = 1;
        loop
            invariant
                went(*old(self), *self),
                x == self.x(),
                x == old(self).x(),
                s0 == old(self).st(),
                1 <= depth <= self.pos,
                past_group(x, self.st(), depth as int) == past_group(x, s0, 0),
            decreases self.toks.len() - self.pos,
        {
            if self.at(Sym::Eof) {
                return;
            }
            if self.at(Sym::LParen) {
                depth += 1;
                self.bump();
            } else if self.at(Sym::RParen) {
                self.bump();
                if depth == 1 {
                    return;
                }
                depth -= 1;
            } else {
                self.bump();
            }
        }
    }

    /// The word that stands here.
    fn word(&self) -> (r: Option<String>)
        requires
            self.wf(),
        ensures
            opt_text(r) == (match tok(self.x(), self.st()) {
                TokV::Word(w) => Some(w),
                _ => None,
            }),
    {
        match self.peek() {
            Tok::Word(w) => Some(w.clone()),
            _ => None,
        }
    }

    /// A dotted name; nothing where no word stands.
    fn read_dotted_name(&mut self) -> (r: String)
        requires
            old(self).wf(),
        ensures
            (r@, final(self).st()) == dotted(old(self).x(), old(self).st()),
            went(*old(self), *final(self)),
            tok(old(self).x(), old(self).st()) is Word ==> final(self).pos > old(self).pos,
    {
        let ghost x = self.x();
        let ghost s0 = self.st();
        let mut out = match self.word() {
            Some(w) => w,
            None => {
                return String::new();
            },
        };
        self.bump();
        loop
            invariant
                went(*old(self), *self),
                x == self.x(),
                x == old(self).x(),
                s0 == old(self).st(),
                dotted_from(x, self.st(), out@) == dotted(x, s0),
                self.pos > old(self).pos,
            decreases self.toks.len() - self.pos,
        {
            if !self.skip(Sym::Dot) {
                return out;
            }
            match self.word() {
                Some(w) => {
                    let ghost before = out@;
                    out = concat3(&out, ".", &w);
                    proof {
                        reveal_strlit(".");
                        assert(out@ =~= before.push('.') + w@);
                    }
                    self.bump();
                },
                None => {
                    return out;
                },
            }
        }
    }

    /// The names behind a `SHOW`.
    fn shown_name(&mut self) -> (r: String)
        requires
            old(self).wf(),
        ensures
            (r@, final(self).st()) == settings_from(
                old(self).x(),
                old(self).st(),
                true,
                Seq::empty(),
            ),
            went(*old(self), *final(self)),
    {
        let ghost x = self.x();
        let ghost s0 = self.st();
        let mut out = String::new();
        let mut first = true;
        loop
            invariant
                went(*old(self), *self),
                x == self.x(),
                x == old(self).x(),
                s0 == old(self).st(),
                settings_from(x, self.st(), first, out@) == settings_from(
                    x,
                    s0,
                    true,
                    Seq::empty(),
                ),
            decreases self.toks.len() - self.pos,
        {
            match self.peek() {
                Tok::Word(_) => {},
                _ => {
                    return out;
                },
            }
            let ghost here = self.st();
            let n = self.read_dotted_name();
            let ghost before = out@;
            if first {
                out = n;
            } else {
                out = concat3(&out, " ", &n);
                proof {
                    reveal_strlit(" ");
                    assert(out@ =~= before.push(' ') + n@);
                }
            }
            assert(onto(bumped(x, here), self.st()) == self.st());
            first = false;
        }
    }

    fn eat_assign(&mut self)
        requires
            old(self).wf(),
        ensures
            final(self).st() == past_assign(old(self).x(), old(self).st()),
            went(*old(self), *final(self)),
    {
        if !self.skip(Sym::Eq) {
            let _ = self.eat_kw("to");
        }
    }

    /// The text of a word or of a string that stands here.
    fn written(&self) -> (r: Option<String>)
        requires
            self.wf(),
        ensures
            match tok(self.x(), self.st()) {
                TokV::Word(w) => r is Some && r->0@ == w,
                TokV::Str(w) => r is Some && r->0@ == w,
                _ => r is None,
            },
    {
        match self.peek() {
            Tok::Word(w) => Some(w.clone()),
            Tok::Str(w) => Some(w.clone()),
            _ => None,
        }
    }

    fn set_role(&mut self) -> (r: Result<Stmt, Stop>)
        requires
            old(self).wf(),
        ensures
            view_at(r, final(self).st()) == p_role(old(self).x(), old(self).st()),
            r is Ok ==> went(*old(self), *final(self)),
    {
        let bare = self.word().is_some();
        let role = match self.written() {
            None => {
                return Err(self.unexpected("expected a role, found "));
            },
            Some(w) => if bare && (names_match(&w, "none") || names_match(&w, "default")) {
                None
            } else {
                Some(w)
            },
        };
        self.bump();
        self.skip_to_end();
        Ok(Stmt::SetSession(SessionSet::Role(role)))
    }

    fn set_claims(&mut self) -> (r: Result<Stmt, Stop>)
        requires
            old(self).wf(),
        ensures
            view_at(r, final(self).st()) == p_claims(old(self).x(), old(self).st()),
            r is Ok ==> went(*old(self), *final(self)),
    {
        let claims = if self.is_kw("default") {
            None
        } else if self.word().is_some() {
            return Err(self.unexpected("expected claims as text, found "));
        } else {
            match self.written() {
                None => {
                    return Err(self.unexpected("expected claims as text, found "));
                },
                Some(w) => Some(w),
            }
        };
        self.bump();
        self.skip_to_end();
        Ok(Stmt::SetSession(SessionSet::Claims(claims)))
    }

    fn set_bypass(&mut self) -> (r: Result<Stmt, Stop>)
        requires
            old(self).wf(),
        ensures
            view_at(r, final(self).st()) == p_bypass(old(self).x(), old(self).st()),
            r is Ok ==> went(*old(self), *final(self)),
    {
        let on = match self.written() {
            None => {
                return Err(self.unexpected("expected on or off, found "));
            },
            Some(w) => if names_match(&w, "on") || names_match(&w, "true") {
                true
            } else if names_match(&w, "off") || names_match(&w, "false") || names_match(
                &w,
                "default",
            ) {
                false
            } else {
                return Err(self.unexpected("expected on or off, found "));
            },
        };
        self.bump();
        self.skip_to_end();
        Ok(Stmt::SetSession(SessionSet::Bypass(on)))
    }

    /// `SET`, behind the word.
    fn setting(&mut self) -> (r: Result<Stmt, Stop>)
        requires
            old(self).wf(),
        ensures
            view_at(r, final(self).st()) == p_setting(old(self).x(), old(self).st()),
            r is Ok ==> went(*old(self), *final(self)),
    {
        let _ = self.eat_either("session", "local");
        let name = self.read_dotted_name();
        if names_match(&name, "role") {
            self.eat_assign();
            self.set_role()
        } else if names_match(&name, CLAIMS_GUC) {
            self.eat_assign();
            self.set_claims()
        } else if names_match(&name, BYPASS_GUC) {
            self.eat_assign();
            self.set_bypass()
        } else if names_match(&name, VECTOR_EF_SEARCH_GUC) {
            self.eat_assign();
            let value = if self.eat_kw("default") {
                None
            } else {
                let n: i64 = self.int_value()?;
                Some(no_less(n, 1))
            };
            self.skip_to_end();
            Ok(Stmt::SetVectorEf(value))
        } else {
            self.skip_to_end();
            Ok(Stmt::Noop)
        }
    }

    fn ignored_ahead(&self) -> (r: bool)
        requires
            self.wf(),
        ensures
            r == ignored_word(self.x(), self.st()),
    {
        self.is_kw("pragma") || self.is_kw("vacuum") || self.is_kw("analyze") || self.is_kw(
            "discard",
        )
    }

    /// A session statement other than `EXPLAIN`, where one stands here.
    fn utility_stmt(&mut self) -> (r: Option<Result<Stmt, Stop>>)
        requires
            old(self).wf(),
        ensures
            opt_stmt_at(r, final(self).st()) == p_session(old(self).x(), old(self).st()),
            r is None ==> *final(self) == *old(self),
            r is Some && r->0 is Ok ==> went(*old(self), *final(self)),
    {
        if self.is_kw("show") {
            self.bump();
            let n = self.shown_name();
            Some(Ok(Stmt::Show(n)))
        } else if self.is_kw("set") {
            self.bump();
            Some(self.setting())
        } else if self.is_kw("reset") {
            self.bump();
            let n = self.read_dotted_name();
            self.skip_to_end();
            if names_match(&n, VECTOR_EF_SEARCH_GUC) {
                Some(Ok(Stmt::SetVectorEf(None)))
            } else if names_match(&n, "role") {
                Some(Ok(Stmt::SetSession(SessionSet::Role(None))))
            } else if names_match(&n, CLAIMS_GUC) {
                Some(Ok(Stmt::SetSession(SessionSet::Claims(None))))
            } else if names_match(&n, BYPASS_GUC) {
                Some(Ok(Stmt::SetSession(SessionSet::Bypass(false))))
            } else {
                Some(Ok(Stmt::Noop))
            }
        } else if self.ignored_ahead() {
            self.skip_to_end();
            Some(Ok(Stmt::Noop))
        } else {
            None
        }
    }

    fn eat_mode(&mut self) -> (r: bool)
        requires
            old(self).wf(),
        ensures
            past_mode(old(self).x(), old(self).st()) == (if r {
                Some(final(self).st())
            } else {
                None
            }),
            !r ==> *final(self) == *old(self),
            went(*old(self), *final(self)),
            r ==> final(self).pos > old(self).pos,
    {
        if self.is_kw("isolation") {
            self.bump();
            let _ = self.eat_kw("level");
            if self.eat_kw("serializable") {
            } else if self.eat_kw("repeatable") {
                let _ = self.eat_kw("read");
            } else if self.eat_kw("read") {
                let _ = self.eat_either("committed", "uncommitted");
            }
            true
        } else if self.is_kw("read") {
            self.bump();
            let _ = self.eat_either("only", "write");
            true
        } else if self.is_kw("not") {
            self.bump();
            let _ = self.eat_kw("deferrable");
            true
        } else if self.is_kw("deferrable") {
            self.bump();
            true
        } else {
            false
        }
    }

    fn eat_transaction_modes(&mut self)
        requires
            old(self).wf(),
        ensures
            final(self).st() == past_modes(old(self).x(), old(self).st()),
            went(*old(self), *final(self)),
    {
        let ghost x = self.x();
        let ghost s0 = self.st();
        loop
            invariant
                went(*old(self), *self),
                x == self.x(),
                x == old(self).x(),
                s0 == old(self).st(),
                past_modes(x, self.st()) == past_modes(x, s0),
            decreases self.toks.len() - self.pos,
        {
            let _ = self.skip(Sym::Comma);
            let ghost c = self.st();
            if !self.eat_mode() {
                return;
            }
            assert(onto(bumped(x, c), self.st()) == self.st());
        }
    }

    fn rollback_stmt(&mut self) -> (r: Result<Stmt, Stop>)
        requires
            old(self).wf(),
        ensures
            view_at(r, final(self).st()) == p_rollback(old(self).x(), old(self).st()),
            r is Ok ==> went(*old(self), *final(self)),
    {
        let _ = self.eat_either("transaction", "work");
        if self.eat_kw("to") {
            let _ = self.eat_kw("savepoint");
            let n = self.ident()?;
            Ok(Stmt::RollbackTo(n))
        } else {
            Ok(Stmt::Rollback)
        }
    }

    /// A statement of transaction control, where one stands here.
    #[verifier::rlimit(30)]
    fn transaction_stmt(&mut self) -> (r: Option<Result<Stmt, Stop>>)
        requires
            old(self).wf(),
        ensures
            opt_stmt_at(r, final(self).st()) == p_transaction(old(self).x(), old(self).st()),
            r is None ==> *final(self) == *old(self),
            r is Some && r->0 is Ok ==> went(*old(self), *final(self)),
    {
        if self.is_kw("begin") {
            self.bump();
            let _ = self.eat_either("transaction", "work");
            self.eat_transaction_modes();
            Some(Ok(Stmt::Begin))
        } else if self.is_kw("start") {
            self.bump();
            let _ = self.eat_kw("transaction");
            self.eat_transaction_modes();
            Some(Ok(Stmt::Begin))
        } else if self.is_kw("commit") || self.is_kw("end") {
            self.bump();
            let _ = self.eat_either("transaction", "work");
            Some(Ok(Stmt::Commit))
        } else if self.is_kw("savepoint") {
            self.bump();
            Some(
                match self.ident() {
                    Ok(n) => Ok(Stmt::Savepoint(n)),
                    Err(e) => Err(e),
                },
            )
        } else if self.is_kw("release") {
            self.bump();
            let _ = self.eat_kw("savepoint");
            Some(
                match self.ident() {
                    Ok(n) => Ok(Stmt::ReleaseSavepoint(n)),
                    Err(e) => Err(e),
                },
            )
        } else if self.is_kw("rollback") || self.is_kw("abort") {
            self.bump();
            Some(self.rollback_stmt())
        } else {
            None
        }
    }

    fn create_stmt(&mut self) -> (r: Result<Stmt, Stop>)
        requires
            old(self).wf(),
        ensures
            view_at(r, final(self).st()) == p_create(old(self).x(), old(self).st()),
            r is Ok ==> went(*old(self), *final(self)),
    {
        if self.kw_ahead(1, "index") {
            self.create_index()
        } else if self.kw_ahead(1, "policy") {
            self.create_policy()
        } else if self.view_next() {
            self.create_view()
        } else {
            self.create_table()
        }
    }

    fn drop_stmt(&mut self) -> (r: Result<Stmt, Stop>)
        requires
            old(self).wf(),
        ensures
            view_at(r, final(self).st()) == p_drop(old(self).x(), old(self).st()),
            r is Ok ==> went(*old(self), *final(self)),
    {
        if self.kw_ahead(1, "index") {
            self.drop_index()
        } else if self.kw_ahead(1, "view") {
            self.drop_view()
        } else if self.kw_ahead(1, "policy") {
            self.drop_policy()
        } else {
            self.drop_table()
        }
    }

    fn select_stmt(&mut self) -> (r: Result<Stmt, Stop>)
        requires
            old(self).wf(),
        ensures
            view_at(r, final(self).st()) == (match read_select(old(self).x(), old(self).st()) {
                Err(e) => Err(e),
                Ok((q, t)) => Ok((StmtV::Select(q), t)),
            }),
            r is Ok ==> went(*old(self), *final(self)),
    {
        let q = self.read_select()?;
        Ok(Stmt::Select(Box::new(q)))
    }

    /// A statement on tables and their rows, where one stands here.
    #[verifier::rlimit(30)]
    fn work_stmt(&mut self) -> (r: Option<Result<Stmt, Stop>>)
        requires
            old(self).wf(),
        ensures
            opt_stmt_at(r, final(self).st()) == p_work(old(self).x(), old(self).st()),
            r is None ==> *final(self) == *old(self),
            r is Some && r->0 is Ok ==> went(*old(self), *final(self)),
    {
        if self.is_kw("create") {
            Some(self.create_stmt())
        } else if self.is_kw("drop") {
            Some(self.drop_stmt())
        } else if self.is_kw("alter") {
            Some(self.alter_table())
        } else if self.is_kw("insert") {
            Some(self.insert())
        } else if self.is_kw("select") || self.is_kw("with") {
            Some(self.select_stmt())
        } else if self.is_kw("update") {
            Some(self.update())
        } else if self.is_kw("delete") {
            Some(self.delete())
        } else {
            None
        }
    }

    /// A statement.
    pub fn statement(&mut self) -> (r: Result<Stmt, Stop>)
        requires
            old(self).wf(),
        ensures
            view_at(r, final(self).st()) == p_statement(old(self).x(), old(self).st()),
            r is Ok ==> went(*old(self), *final(self)),
        decreases old(self).toks.len() - old(self).pos,
    {
        match self.work_stmt() {
            Some(r) => {
                return r;
            },
            None => {},
        }
        if self.is_kw("explain") {
            let ghost x = self.x();
            let ghost s0 = self.st();
            self.bump();
            let ghost b = self.st();
            let _ = self.eat_kw("analyze");
            let _ = self.eat_kw("verbose");
            if self.at(Sym::LParen) {
                self.skip_parens();
            }
            assert(self.st() == explained(x, s0));
            assert(onto(b, self.st()) == self.st());
            let q = self.statement()?;
            return Ok(Stmt::Explain(Box::new(q)));
        }
        match self.utility_stmt() {
            Some(r) => {
                return r;
            },
            None => {},
        }
        match self.transaction_stmt() {
            Some(r) => {
                return r;
            },
            None => {},
        }
        Err(self.unexpected("unsupported statement starting at "))
    }

}

/// Parse one statement; the number is how many parameters it has.
pub fn parse(sql: &str, reals: &Reals) -> (r: Result<(Stmt, usize), Stop>)
    ensures
        statement(sql@, reals@) == (match r {
            Ok((q, n)) => Ok((q@, n as nat)),
            Err(s) => Err(s@),
        }),
{
    let toks = lex(sql, reals)?;
    let mut p = Parser::new(toks, sql, reals, false);
    let q = p.statement()?;
    let _ = p.skip(Sym::Semi);
    if !p.at(Sym::Eof) {
        return Err(sql_stop(owned("trailing tokens after statement")));
    }
    Ok((q, p.max))
}

} // verus!
