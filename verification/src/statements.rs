//! The grammar of statements.
use vstd::prelude::*;
use crate::asks::{RealsV, StopV};
use crate::catalog::{PolicyCommand, PolicyV};
use crate::env::sql_fail;
use crate::grammar::{
    bumped, eat, eat2, exprs_from, found, items_from, kw, kw_at, names_from, need_kw, need_sym,
    onto, p_clause, p_expr, p_ident, p_names, p_opt_from, p_select, room, start, sym, to_close, tok,
    PS, Parsed, SrcV,
};
use crate::lex::{lexed, written_from, Sym, TokV};
use crate::session::SessionSetV;
use crate::sql::{
    AlterActionV, ColumnSpecV, ExprV, ForeignKeySpecV, FromV, InsertSourceV, ItemV, OnConflictV,
    PolicyDefV, SelectV, StmtV, TableDefV,
};
use crate::text::{lower_text, same_name, trimmed, upper_text};
use crate::value::{affinity, ColumnType};
use crate::vector::{default_params, metric_named, IndexParams, Metric};

verus! {

/// The setting that holds the claims of a session.
pub const CLAIMS_GUC: &'static str = "twill.jwt.claims";

/// The setting that exempts a session from row policies.
pub const BYPASS_GUC: &'static str = "twill.rls.bypass";

/// The setting that widens the search of vector indexes.
pub const VECTOR_EF_SEARCH_GUC: &'static str = "twill.vector_ef_search";

/// An expression.
#[verifier::opaque]
pub open spec fn read_expr(x: SrcV, s: PS) -> Parsed<ExprV> {
    p_expr(x, s)
}

/// Expressions separated by commas.
#[verifier::opaque]
pub open spec fn read_exprs(x: SrcV, s: PS) -> Parsed<Seq<ExprV>> {
    exprs_from(x, s, Seq::empty())
}

/// An output list.
#[verifier::opaque]
pub open spec fn read_items(x: SrcV, s: PS) -> Parsed<Seq<ItemV>> {
    items_from(x, s, Seq::empty())
}

/// An expression behind a keyword, where it stands.
#[verifier::opaque]
pub open spec fn read_clause(x: SrcV, s: PS, k: Seq<char>) -> Parsed<Option<ExprV>> {
    p_clause(x, s, k)
}

/// Sources behind a keyword, where it stands.
#[verifier::opaque]
pub open spec fn read_from(x: SrcV, s: PS, k: Seq<char>) -> Parsed<Option<FromV>> {
    p_opt_from(x, s, k)
}

/// A query.
#[verifier::opaque]
pub open spec fn read_select(x: SrcV, s: PS) -> Parsed<SelectV> {
    p_select(x, s)
}

/// An optional `IF NOT EXISTS`.
pub open spec fn p_missing(x: SrcV, s: PS) -> Parsed<bool> {
    if kw(x, s, "if"@) {
        match need_kw(x, bumped(x, s), "not"@) {
            Err(e) => Err(e),
            Ok(s1) => match need_kw(x, s1, "exists"@) {
                Err(e) => Err(e),
                Ok(s2) => Ok((true, s2)),
            },
        }
    } else {
        Ok((false, s))
    }
}

/// An optional `IF EXISTS`.
pub open spec fn p_present(x: SrcV, s: PS) -> Parsed<bool> {
    if kw(x, s, "if"@) {
        match need_kw(x, bumped(x, s), "exists"@) {
            Err(e) => Err(e),
            Ok(s1) => Ok((true, s1)),
        }
    } else {
        Ok((false, s))
    }
}

pub open spec fn p_drop_table(x: SrcV, s: PS) -> Parsed<StmtV> {
    match need_kw(x, s, "drop"@) {
        Err(e) => Err(e),
        Ok(s1) => {
            match need_kw(x, s1, "table"@) {
                Err(e) => Err(e),
                Ok(s2) => {
                    match p_present(x, s2) {
                        Err(e) => Err(e),
                        Ok((if_exists, s3)) => {
                            match p_ident(x, s3) {
                                Err(e) => Err(e),
                                Ok((name, s4)) => {
                                    Ok((StmtV::DropTable { name, if_exists }, s4))
                                },
                            }
                        },
                    }
                },
            }
        },
    }
}

pub open spec fn p_drop_index(x: SrcV, s: PS) -> Parsed<StmtV> {
    match need_kw(x, s, "drop"@) {
        Err(e) => Err(e),
        Ok(s1) => {
            match need_kw(x, s1, "index"@) {
                Err(e) => Err(e),
                Ok(s2) => {
                    match p_present(x, s2) {
                        Err(e) => Err(e),
                        Ok((if_exists, s3)) => {
                            match p_ident(x, s3) {
                                Err(e) => Err(e),
                                Ok((name, s4)) => {
                                    Ok((StmtV::DropIndex { name, if_exists }, s4))
                                },
                            }
                        },
                    }
                },
            }
        },
    }
}

pub open spec fn p_drop_view(x: SrcV, s: PS) -> Parsed<StmtV> {
    match need_kw(x, s, "drop"@) {
        Err(e) => Err(e),
        Ok(s1) => {
            match need_kw(x, s1, "view"@) {
                Err(e) => Err(e),
                Ok(s2) => {
                    match p_present(x, s2) {
                        Err(e) => Err(e),
                        Ok((if_exists, s3)) => {
                            match p_ident(x, s3) {
                                Err(e) => Err(e),
                                Ok((name, s4)) => {
                                    Ok((StmtV::DropView { name, if_exists }, s4))
                                },
                            }
                        },
                    }
                },
            }
        },
    }
}

pub open spec fn constraint_word(w: Seq<char>) -> bool {
    same_name(w, "primary"@) || same_name(w, "not"@) || same_name(w, "null"@) || same_name(
        w,
        "unique"@,
    ) || same_name(w, "references"@) || same_name(w, "default"@) || same_name(w, "check"@)
        || same_name(w, "autoincrement"@) || same_name(w, "collate"@) || same_name(w, "generated"@)
}

/// Whether a type's name is one of an integer that counts up by itself.
pub open spec fn serial_type(w: Seq<char>) -> bool {
    let l = lower_text(w);
    l == "serial"@ || l == "bigserial"@ || l == "smallserial"@ || l == "serial4"@ || l
        == "serial8"@ || l == "serial2"@
}

/// The first integer before a closing parenthesis or the end.
pub open spec fn first_int(x: SrcV, s: PS) -> Option<i64>
    decreases room(x, s),
{
    if sym(x, s, Sym::RParen) || sym(x, s, Sym::Eof) {
        None
    } else {
        match tok(x, s) {
            TokV::Int(n) => Some(n),
            _ => first_int(x, bumped(x, s)),
        }
    }
}

/// An optional size behind a type's name; only a vector's counts.
pub open spec fn p_type_size(x: SrcV, s: PS, ty: ColumnType) -> Parsed<ColumnType> {
    if sym(x, s, Sym::LParen) {
        let s1 = bumped(x, s);
        match need_sym(x, to_close(x, s1), Sym::RParen) {
            Err(e) => Err(e),
            Ok(s2) => if ty is Vector {
                let d: i64 = match first_int(x, s1) {
                    Some(n) => n,
                    None => 0,
                };
                if d <= 0 {
                    Err(sql_fail("vector(N) requires a positive dimension"@))
                } else {
                    Ok((ColumnType::Vector(d as u32), s2))
                }
            } else {
                Ok((ty, s2))
            },
        }
    } else {
        Ok((ty, s))
    }
}

/// An optional type, and whether it counts up by itself.
pub open spec fn p_type(x: SrcV, s: PS) -> Parsed<(ColumnType, bool)> {
    match tok(x, s) {
        TokV::Word(w) => if constraint_word(w) {
            Ok(((ColumnType::Text, false), s))
        } else {
            let serial = serial_type(w);
            let ty = if serial {
                ColumnType::Integer
            } else {
                affinity(upper_text(w))
            };
            match p_type_size(x, bumped(x, s), ty) {
                Err(e) => Err(e),
                Ok((t, s1)) => Ok(((t, serial), s1)),
            }
        },
        _ => Ok(((ColumnType::Text, false), s)),
    }
}

/// The text of an expression.
pub open spec fn p_text(x: SrcV, s: PS, tight: bool) -> Parsed<Seq<char>> {
    match read_expr(x, s) {
        Err(e) => Err(e),
        Ok((_, t)) => match written_from(
            x.reals,
            x.toks,
            s.pos as int,
            t.pos as int,
            s.pos as int,
            tight,
            Seq::empty(),
        ) {
            Err(e) => Err(e),
            Ok(w) => Ok((w, t)),
        },
    }
}

/// The text of an expression in parentheses.
pub open spec fn p_paren_text(x: SrcV, s: PS, tight: bool) -> Parsed<Seq<char>> {
    match need_sym(x, s, Sym::LParen) {
        Err(e) => Err(e),
        Ok(s1) => match p_text(x, s1, tight) {
            Err(e) => Err(e),
            Ok((w, s2)) => match need_sym(x, s2, Sym::RParen) {
                Err(e) => Err(e),
                Ok(s3) => Ok((w, s3)),
            },
        },
    }
}

/// What a `REFERENCES` names: a table, and perhaps a column.
pub open spec fn p_reference(x: SrcV, s: PS) -> Parsed<(Seq<char>, Option<Seq<char>>)> {
    match p_ident(x, s) {
        Err(e) => Err(e),
        Ok((t, s1)) => if sym(x, s1, Sym::LParen) {
            match p_ident(x, bumped(x, s1)) {
                Err(e) => Err(e),
                Ok((c, s2)) => match need_sym(x, s2, Sym::RParen) {
                    Err(e) => Err(e),
                    Ok(s3) => Ok(((t, Some(c)), s3)),
                },
            }
        } else {
            Ok(((t, None), s1))
        },
    }
}

/// One further mark of a column, if one stands here.
pub open spec fn p_mark(x: SrcV, s: PS, c: ColumnSpecV) -> Result<
    Option<(ColumnSpecV, PS)>,
    StopV,
> {
    let b = bumped(x, s);
    if kw(x, s, "primary"@) {
        match need_kw(x, b, "key"@) {
            Err(e) => Err(e),
            Ok(t) => Ok(
                Some(
                    (
                        ColumnSpecV {
                            primary_key: true,
                            not_null: true,
                            autoincrement: c.autoincrement || kw(x, t, "autoincrement"@),
                            ..c
                        },
                        eat(x, t, "autoincrement"@),
                    ),
                ),
            ),
        }
    } else if kw(x, s, "not"@) {
        match need_kw(x, b, "null"@) {
            Err(e) => Err(e),
            Ok(t) => Ok(Some((ColumnSpecV { not_null: true, ..c }, t))),
        }
    } else if kw(x, s, "null"@) {
        Ok(Some((c, b)))
    } else if kw(x, s, "unique"@) {
        Ok(Some((ColumnSpecV { unique: true, ..c }, b)))
    } else if kw(x, s, "autoincrement"@) {
        Ok(Some((ColumnSpecV { autoincrement: true, ..c }, b)))
    } else {
        p_mark2(x, s, c)
    }
}

/// The marks of a column that hold more than words.
pub open spec fn p_mark2(x: SrcV, s: PS, c: ColumnSpecV) -> Result<
    Option<(ColumnSpecV, PS)>,
    StopV,
> {
    let b = bumped(x, s);
    if kw(x, s, "default"@) {
        match p_text(x, b, false) {
            Err(e) => Err(e),
            Ok((w, t)) => Ok(Some((ColumnSpecV { default_sql: Some(w), ..c }, t))),
        }
    } else if kw(x, s, "check"@) {
        match p_paren_text(x, b, false) {
            Err(e) => Err(e),
            Ok((w, t)) => Ok(Some((ColumnSpecV { check_sql: Some(w), ..c }, t))),
        }
    } else if kw(x, s, "references"@) {
        match p_reference(x, b) {
            Err(e) => Err(e),
            Ok((w, t)) => Ok(Some((ColumnSpecV { references: Some(w), ..c }, t))),
        }
    } else if kw(x, s, "collate"@) {
        match p_ident(x, b) {
            Err(e) => Err(e),
            Ok((_, t)) => Ok(Some((c, t))),
        }
    } else if kw(x, s, "generated"@) {
        Err(sql_fail("GENERATED columns are not supported"@))
    } else {
        Ok(None)
    }
}

/// The marks of a column from here on.
pub open spec fn marks_from(x: SrcV, s: PS, c: ColumnSpecV) -> Parsed<ColumnSpecV>
    decreases room(x, s),
{
    match p_mark(x, s, c) {
        Err(e) => Err(e),
        Ok(None) => Ok((c, s)),
        Ok(Some((d, t))) => if sym(x, s, Sym::Eof) {
            Ok((d, t))
        } else {
            marks_from(x, onto(bumped(x, s), t), d)
        },
    }
}

/// A column's definition.
pub open spec fn p_column(x: SrcV, s: PS) -> Parsed<ColumnSpecV> {
    match p_ident(x, s) {
        Err(e) => Err(e),
        Ok((name, s1)) => match p_type(x, s1) {
            Err(e) => Err(e),
            Ok(((ty, serial), s2)) => marks_from(
                x,
                s2,
                ColumnSpecV {
                    name,
                    ty,
                    primary_key: false,
                    not_null: false,
                    unique: false,
                    autoincrement: serial,
                    default_sql: None,
                    check_sql: None,
                    references: None,
                },
            ),
        },
    }
}

pub open spec fn constraint_here(x: SrcV, s: PS) -> bool {
    kw(x, s, "constraint"@) || kw(x, s, "primary"@) || kw(x, s, "unique"@) || kw(x, s, "foreign"@)
        || kw(x, s, "check"@)
}

/// The name of a constraint, where one is given.
pub open spec fn p_constraint_name(x: SrcV, s: PS) -> Parsed<Option<Seq<char>>> {
    if kw(x, s, "constraint"@) {
        match p_ident(x, bumped(x, s)) {
            Err(e) => Err(e),
            Ok((n, t)) => Ok((Some(n), t)),
        }
    } else {
        Ok((None, s))
    }
}

/// Names in parentheses, where they stand.
pub open spec fn p_opt_names(x: SrcV, s: PS) -> Parsed<Seq<Seq<char>>> {
    if sym(x, s, Sym::LParen) {
        p_names(x, s)
    } else {
        Ok((Seq::empty(), s))
    }
}

/// A constraint of the whole table, added to what was read of it.
pub open spec fn p_constraint(x: SrcV, s: PS, d: TableDefV) -> Parsed<TableDefV> {
    match p_constraint_name(x, s) {
        Err(e) => Err(e),
        Ok((name, s1)) => if kw(x, s1, "foreign"@) {
            match p_foreign(x, bumped(x, s1), name) {
                Err(e) => Err(e),
                Ok((k, t)) => Ok((TableDefV { foreign_keys: d.foreign_keys.push(k), ..d }, t)),
            }
        } else if kw(x, s1, "primary"@) {
            match need_kw(x, bumped(x, s1), "key"@) {
                Err(e) => Err(e),
                Ok(s2) => match p_names(x, s2) {
                    Err(e) => Err(e),
                    Ok((n, t)) => Ok((TableDefV { primary_key: d.primary_key + n, ..d }, t)),
                },
            }
        } else if kw(x, s1, "unique"@) {
            match p_names(x, bumped(x, s1)) {
                Err(e) => Err(e),
                Ok((n, t)) => Ok((TableDefV { uniques: d.uniques.push(n), ..d }, t)),
            }
        } else if kw(x, s1, "check"@) {
            match p_paren_text(x, bumped(x, s1), false) {
                Err(e) => Err(e),
                Ok((w, t)) => Ok((TableDefV { checks: d.checks.push(w), ..d }, t)),
            }
        } else {
            Ok((d, s1))
        },
    }
}

/// A column taken into a table's definition, with what its marks say of the table.
pub open spec fn with_column(d: TableDefV, c: ColumnSpecV) -> TableDefV {
    TableDefV {
        columns: d.columns.push(c),
        foreign_keys: match c.references {
            Some((t, f)) => d.foreign_keys.push(
                ForeignKeySpecV {
                    name: None,
                    columns: seq![c.name],
                    foreign_table: t,
                    foreign_columns: match f {
                        Some(n) => seq![n],
                        None => Seq::empty(),
                    },
                },
            ),
            None => d.foreign_keys,
        },
        checks: match c.check_sql {
            Some(k) => d.checks.push(k),
            None => d.checks,
        },
        ..d
    }
}

/// One part of a table's definition: a constraint or a column.
pub open spec fn p_part(x: SrcV, s: PS, d: TableDefV) -> Parsed<TableDefV> {
    if constraint_here(x, s) {
        p_constraint(x, s, d)
    } else {
        match p_column(x, s) {
            Err(e) => Err(e),
            Ok((c, t)) => Ok((with_column(d, c), t)),
        }
    }
}

pub open spec fn parts_from(x: SrcV, s: PS, d: TableDefV) -> Parsed<TableDefV>
    decreases room(x, s),
{
    match p_part(x, s, d) {
        Err(e) => Err(e),
        Ok((d1, t)) => {
            let s1 = onto(s, t);
            if sym(x, s1, Sym::Comma) {
                parts_from(x, bumped(x, s1), d1)
            } else {
                Ok((d1, s1))
            }
        },
    }
}

pub open spec fn bare_table(name: Seq<char>, if_not_exists: bool) -> TableDefV {
    TableDefV {
        name,
        columns: Seq::empty(),
        foreign_keys: Seq::empty(),
        primary_key: Seq::empty(),
        uniques: Seq::empty(),
        checks: Seq::empty(),
        if_not_exists,
    }
}

/// `CREATE TABLE`.
pub open spec fn p_create_table(x: SrcV, s: PS) -> Parsed<StmtV> {
    match p_table_head(x, s) {
        Err(e) => Err(e),
        Ok(((name, if_not_exists), s1)) => match parts_from(
            x,
            s1,
            bare_table(name, if_not_exists),
        ) {
            Err(e) => Err(e),
            Ok((d, s2)) => match need_sym(x, s2, Sym::RParen) {
                Err(e) => Err(e),
                Ok(s3) => if d.columns.len() == 0 {
                    Err(sql_fail("table must have at least one column"@))
                } else {
                    Ok((StmtV::CreateTable(d), s3))
                },
            },
        },
    }
}

/// A foreign key behind the word `FOREIGN`.
pub open spec fn p_foreign(x: SrcV, s: PS, name: Option<Seq<char>>) -> Parsed<ForeignKeySpecV> {
    match need_kw(x, s, "key"@) {
        Err(e) => Err(e),
        Ok(s1) => {
            match p_names(x, s1) {
                Err(e) => Err(e),
                Ok((columns, s2)) => {
                    match need_kw(x, s2, "references"@) {
                        Err(e) => Err(e),
                        Ok(s3) => {
                            match p_ident(x, s3) {
                                Err(e) => Err(e),
                                Ok((foreign_table, s4)) => {
                                    match p_opt_names(x, s4) {
                                        Err(e) => Err(e),
                                        Ok((foreign_columns, s5)) => {
                                            Ok((ForeignKeySpecV { name, columns, foreign_table, foreign_columns }, s5))
                                        },
                                    }
                                },
                            }
                        },
                    }
                },
            }
        },
    }
}

pub open spec fn p_table_head(x: SrcV, s: PS) -> Parsed<(Seq<char>, bool)> {
    match need_kw(x, s, "create"@) {
        Err(e) => Err(e),
        Ok(s1) => {
            match need_kw(x, s1, "table"@) {
                Err(e) => Err(e),
                Ok(s2) => {
                    match p_missing(x, s2) {
                        Err(e) => Err(e),
                        Ok((if_not_exists, s3)) => {
                            match p_ident(x, s3) {
                                Err(e) => Err(e),
                                Ok((name, s4)) => {
                                    match need_sym(x, s4, Sym::LParen) {
                                        Err(e) => Err(e),
                                        Ok(s5) => {
                                            Ok(((name, if_not_exists), s5))
                                        },
                                    }
                                },
                            }
                        },
                    }
                },
            }
        },
    }
}

pub open spec fn p_rename_column(x: SrcV, s: PS) -> Parsed<AlterActionV> {
    let s1 = eat(x, s, "column"@);
    match p_ident(x, s1) {
        Err(e) => Err(e),
        Ok((from, s2)) => {
            match need_kw(x, s2, "to"@) {
                Err(e) => Err(e),
                Ok(s3) => {
                    match p_ident(x, s3) {
                        Err(e) => Err(e),
                        Ok((to, s4)) => {
                            Ok((AlterActionV::RenameColumn { from, to }, s4))
                        },
                    }
                },
            }
        },
    }
}

/// What an `ALTER TABLE` does.
pub open spec fn p_alter_action(x: SrcV, s: PS) -> Parsed<AlterActionV> {
    let b = bumped(x, s);
    if kw(x, s, "add"@) {
        match p_column(x, eat(x, b, "column"@)) {
            Err(e) => Err(e),
            Ok((c, t)) => Ok((AlterActionV::AddColumn(c), t)),
        }
    } else if kw(x, s, "drop"@) {
        let s1 = eat(x, b, "column"@);
        let s2 = eat(x, s1, "if"@);
        let if_exists = kw(x, s1, "if"@) && kw(x, s2, "exists"@);
        let s3 = if if_exists {
            bumped(x, s2)
        } else {
            s2
        };
        match p_ident(x, s3) {
            Err(e) => Err(e),
            Ok((name, t)) => Ok((AlterActionV::DropColumn { name, if_exists }, t)),
        }
    } else if kw(x, s, "rename"@) {
        if kw(x, b, "to"@) {
            match p_ident(x, bumped(x, b)) {
                Err(e) => Err(e),
                Ok((to, t)) => Ok((AlterActionV::RenameTable { to }, t)),
            }
        } else {
            p_rename_column(x, b)
        }
    } else if kw(x, s, "enable"@) {
        p_rls(x, b, true)
    } else if kw(x, s, "disable"@) {
        p_rls(x, b, false)
    } else {
        Err(sql_fail("unsupported ALTER TABLE action (expected ADD/DROP/RENAME)"@))
    }
}

/// `ROW LEVEL SECURITY`, behind what switches it.
pub open spec fn p_rls(x: SrcV, s: PS, on: bool) -> Parsed<AlterActionV> {
    match need_kw(x, s, "row"@) {
        Err(e) => Err(e),
        Ok(s1) => match need_kw(x, s1, "level"@) {
            Err(e) => Err(e),
            Ok(s2) => match need_kw(x, s2, "security"@) {
                Err(e) => Err(e),
                Ok(s3) => Ok((AlterActionV::SetRls(on), s3)),
            },
        },
    }
}

/// The command that a policy is for: all of them unless one is named.
pub open spec fn p_policy_command(x: SrcV, s: PS) -> Parsed<PolicyCommand> {
    let b = bumped(x, s);
    if !kw(x, s, "for"@) {
        Ok((PolicyCommand::All, s))
    } else if kw(x, b, "all"@) {
        Ok((PolicyCommand::All, bumped(x, b)))
    } else if kw(x, b, "select"@) {
        Ok((PolicyCommand::Select, bumped(x, b)))
    } else if kw(x, b, "insert"@) {
        Ok((PolicyCommand::Insert, bumped(x, b)))
    } else if kw(x, b, "update"@) {
        Ok((PolicyCommand::Update, bumped(x, b)))
    } else if kw(x, b, "delete"@) {
        Ok((PolicyCommand::Delete, bumped(x, b)))
    } else {
        Err(found(x, "expected a command of a policy, found "@, tok(x, b)))
    }
}

/// The roles that a policy is for. `PUBLIC`, or nothing, is every role.
pub open spec fn p_policy_roles(x: SrcV, s: PS) -> Parsed<Seq<Seq<char>>> {
    let b = bumped(x, s);
    if !kw(x, s, "to"@) {
        Ok((Seq::empty(), s))
    } else if kw(x, b, "public"@) {
        Ok((Seq::empty(), bumped(x, b)))
    } else {
        names_from(x, b, Seq::empty())
    }
}

/// `USING (...)`, where it stands here.
pub open spec fn p_policy_using(x: SrcV, s: PS) -> Parsed<Option<Seq<char>>> {
    if kw(x, s, "using"@) {
        match p_paren_text(x, bumped(x, s), true) {
            Err(e) => Err(e),
            Ok((w, t)) => Ok((Some(w), t)),
        }
    } else {
        Ok((None, s))
    }
}

/// `WITH CHECK (...)`, where it stands here.
pub open spec fn p_policy_check(x: SrcV, s: PS) -> Parsed<Option<Seq<char>>> {
    if kw(x, s, "with"@) {
        match need_kw(x, bumped(x, s), "check"@) {
            Err(e) => Err(e),
            Ok(s1) => match p_paren_text(x, s1, true) {
                Err(e) => Err(e),
                Ok((w, t)) => Ok((Some(w), t)),
            },
        }
    } else {
        Ok((None, s))
    }
}

/// What stands behind the table of a `CREATE POLICY`.
pub open spec fn p_policy_body(x: SrcV, s: PS, name: Seq<char>, table: Seq<char>) -> Parsed<
    StmtV,
> {
    match p_policy_command(x, s) {
        Err(e) => Err(e),
        Ok((command, s1)) => match p_policy_roles(x, s1) {
            Err(e) => Err(e),
            Ok((roles, s2)) => match p_policy_using(x, s2) {
                Err(e) => Err(e),
                Ok((using, s3)) => match p_policy_check(x, s3) {
                    Err(e) => Err(e),
                    Ok((check, s4)) => Ok(
                        (
                            StmtV::CreatePolicy(
                                PolicyDefV {
                                    table,
                                    policy: PolicyV { name, command, roles, using, check },
                                },
                            ),
                            s4,
                        ),
                    ),
                },
            },
        },
    }
}

/// `CREATE POLICY`.
pub open spec fn p_create_policy(x: SrcV, s: PS) -> Parsed<StmtV> {
    match p_ident(x, bumped(x, bumped(x, s))) {
        Err(e) => Err(e),
        Ok((name, s1)) => match need_kw(x, s1, "on"@) {
            Err(e) => Err(e),
            Ok(s2) => match p_ident(x, s2) {
                Err(e) => Err(e),
                Ok((table, s3)) => p_policy_body(x, s3, name, table),
            },
        },
    }
}

/// `DROP POLICY`.
pub open spec fn p_drop_policy(x: SrcV, s: PS) -> Parsed<StmtV> {
    match p_present(x, bumped(x, bumped(x, s))) {
        Err(e) => Err(e),
        Ok((if_exists, s1)) => match p_ident(x, s1) {
            Err(e) => Err(e),
            Ok((name, s2)) => match need_kw(x, s2, "on"@) {
                Err(e) => Err(e),
                Ok(s3) => match p_ident(x, s3) {
                    Err(e) => Err(e),
                    Ok((table, s4)) => Ok((StmtV::DropPolicy { name, table, if_exists }, s4)),
                },
            },
        },
    }
}

/// Behind an `IF EXISTS`, or behind an `IF` alone.
pub open spec fn past_exists(x: SrcV, s: PS) -> PS {
    if kw(x, s, "if"@) {
        eat(x, bumped(x, s), "exists"@)
    } else {
        s
    }
}

/// `ALTER TABLE`.
pub open spec fn p_alter(x: SrcV, s: PS) -> Parsed<StmtV> {
    match need_kw(x, s, "alter"@) {
        Err(e) => Err(e),
        Ok(s1) => match need_kw(x, s1, "table"@) {
            Err(e) => Err(e),
            Ok(s2) => match p_ident(x, past_exists(x, s2)) {
                Err(e) => Err(e),
                Ok((table, s3)) => match p_alter_action(x, s3) {
                    Err(e) => Err(e),
                    Ok((action, s4)) => Ok((StmtV::AlterTable { table, action }, s4)),
                },
            },
        },
    }
}

/// `s` without the copies of `p` at its front.
pub open spec fn without_front(s: Seq<char>, p: Seq<char>) -> Seq<char>
    decreases s.len(),
{
    if 0 < p.len() <= s.len() && s.subrange(0, p.len() as int) == p {
        without_front(s.subrange(p.len() as int, s.len() as int), p)
    } else {
        s
    }
}

/// `s` without the copies of `p` at its end.
pub open spec fn without_back(s: Seq<char>, p: Seq<char>) -> Seq<char>
    decreases s.len(),
{
    if 0 < p.len() <= s.len() && s.subrange(s.len() - p.len(), s.len() as int) == p {
        without_back(s.subrange(0, s.len() - p.len()), p)
    } else {
        s
    }
}

/// The metric that an operator class stands for.
pub open spec fn class_metric(w: Seq<char>) -> Option<Metric> {
    let l = lower_text(w);
    if without_front(l, "vector_"@) == l || without_back(l, "_ops"@) == l {
        None
    } else {
        let m = without_back(without_front(l, "vector_"@), "_ops"@);
        if m == "cosine"@ {
            Some(Metric::Cosine)
        } else if m == "l2"@ {
            Some(Metric::L2)
        } else if m == "ip"@ {
            Some(Metric::InnerProduct)
        } else {
            None
        }
    }
}

pub open spec fn p_int(x: SrcV, s: PS) -> Parsed<i64> {
    match tok(x, s) {
        TokV::Int(n) => Ok((n, bumped(x, s))),
        t => Err(found(x, "expected an integer, found "@, t)),
    }
}

pub open spec fn p_name(x: SrcV, s: PS) -> Parsed<Seq<char>> {
    match tok(x, s) {
        TokV::Str(w) => Ok((w, bumped(x, s))),
        TokV::Word(w) => Ok((w, bumped(x, s))),
        t => Err(found(x, "expected a name, found "@, t)),
    }
}

/// `n`, but no less than `low`.
pub open spec fn at_least(n: i64, low: i64) -> usize {
    if n < low {
        low as usize
    } else {
        n as usize
    }
}

/// The value of an index option, set.
pub open spec fn p_option(x: SrcV, s: PS, key: Seq<char>, p: IndexParams) -> Parsed<IndexParams> {
    if same_name(key, "metric"@) {
        match p_name(x, s) {
            Err(e) => Err(e),
            Ok((n, t)) => match metric_named(lower_text(n)) {
                Some(metric) => Ok((IndexParams { metric, ..p }, t)),
                None => Err(sql_fail("unknown vector metric '"@ + n + "'"@)),
            },
        }
    } else {
        match p_int(x, s) {
            Err(e) => Err(e),
            Ok((n, t)) => {
                let k = lower_text(key);
                if k == "m"@ {
                    Ok((IndexParams { m: at_least(n, 2), ..p }, t))
                } else if k == "ef_construction"@ {
                    Ok((IndexParams { ef_construction: at_least(n, 1), ..p }, t))
                } else if k == "ef_search"@ {
                    Ok((IndexParams { ef_search: at_least(n, 1), ..p }, t))
                } else {
                    Err(sql_fail("unknown index option '"@ + k + "'"@))
                }
            },
        }
    }
}

pub open spec fn options_from(x: SrcV, s: PS, p: IndexParams) -> Parsed<IndexParams>
    decreases room(x, s),
{
    match p_ident(x, s) {
        Err(e) => Err(e),
        Ok((key, s1)) => match need_sym(x, s1, Sym::Eq) {
            Err(e) => Err(e),
            Ok(s2) => match p_option(x, s2, key, p) {
                Err(e) => Err(e),
                Ok((q, t)) => {
                    let s3 = onto(s, t);
                    if sym(x, s3, Sym::Comma) {
                        options_from(x, bumped(x, s3), q)
                    } else {
                        Ok((q, s3))
                    }
                },
            },
        },
    }
}

/// The options of an index, where they are given.
pub open spec fn p_options(x: SrcV, s: PS, p: IndexParams) -> Parsed<IndexParams> {
    if kw(x, s, "with"@) {
        match need_sym(x, bumped(x, s), Sym::LParen) {
            Err(e) => Err(e),
            Ok(s1) => match options_from(x, s1, p) {
                Err(e) => Err(e),
                Ok((q, s2)) => match need_sym(x, s2, Sym::RParen) {
                    Err(e) => Err(e),
                    Ok(s3) => Ok((q, s3)),
                },
            },
        }
    } else {
        Ok((p, s))
    }
}

/// The method of an index: the one there is.
pub open spec fn p_method(x: SrcV, s: PS) -> Parsed<()> {
    match p_ident(x, s) {
        Err(e) => Err(e),
        Ok((m, t)) => if same_name(m, "hnsw"@) {
            Ok(((), t))
        } else {
            Err(
                sql_fail("unsupported index method '"@ + m + "'; only HNSW is supported"@),
            )
        },
    }
}

/// The parameters of an index, with the metric of an operator class.
pub open spec fn p_class(x: SrcV, s: PS) -> Parsed<IndexParams> {
    match tok(x, s) {
        TokV::Word(w) => match class_metric(w) {
            Some(metric) => Ok((IndexParams { metric, ..default_params() }, bumped(x, s))),
            None => Ok((default_params(), s)),
        },
        _ => Ok((default_params(), s)),
    }
}

/// `CREATE INDEX`.
pub open spec fn p_create_index(x: SrcV, s: PS) -> Parsed<StmtV> {
    match need_kw(x, s, "create"@) {
        Err(e) => Err(e),
        Ok(s1) => {
            match need_kw(x, s1, "index"@) {
                Err(e) => Err(e),
                Ok(s2) => {
                    match p_missing(x, s2) {
                        Err(e) => Err(e),
                        Ok((if_not_exists, s3)) => {
                            match p_ident(x, s3) {
                                Err(e) => Err(e),
                                Ok((name, s4)) => {
                                    match need_kw(x, s4, "on"@) {
                                        Err(e) => Err(e),
                                        Ok(s5) => {
                                            match p_ident(x, s5) {
                                                Err(e) => Err(e),
                                                Ok((table, s6)) => {
                                                    match need_kw(x, s6, "using"@) {
                                                        Err(e) => Err(e),
                                                        Ok(s7) => {
                                                            match p_method(x, s7) {
                                                                Err(e) => Err(e),
                                                                Ok((_, s8)) => {
                                                                    match need_sym(x, s8, Sym::LParen) {
                                                                        Err(e) => Err(e),
                                                                        Ok(s9) => {
                                                                            match p_ident(x, s9) {
                                                                                Err(e) => Err(e),
                                                                                Ok((column, s10)) => {
                                                                                    match p_class(x, s10) {
                                                                                        Err(e) => Err(e),
                                                                                        Ok((p, s11)) => {
                                                                                            match need_sym(x, s11, Sym::RParen) {
                                                                                                Err(e) => Err(e),
                                                                                                Ok(s12) => {
                                                                                                    match p_options(x, s12, p) {
                                                                                                        Err(e) => Err(e),
                                                                                                        Ok((params, s13)) => {
                                                                                                            Ok((StmtV::CreateIndex { name, table, column, params, if_not_exists }, s13))
                                                                                                        },
                                                                                                    }
                                                                                                },
                                                                                            }
                                                                                        },
                                                                                    }
                                                                                },
                                                                            }
                                                                        },
                                                                    }
                                                                },
                                                            }
                                                        },
                                                    }
                                                },
                                            }
                                        },
                                    }
                                },
                            }
                        },
                    }
                },
            }
        },
    }
}

pub open spec fn view_ahead(x: SrcV, s: PS) -> bool {
    let i = if kw_at(x, s.pos + 1, "or"@) && kw_at(x, s.pos + 2, "replace"@) {
        s.pos + 3
    } else {
        s.pos + 1
    };
    if kw_at(x, i, "temp"@) || kw_at(x, i, "temporary"@) {
        kw_at(x, i + 1, "view"@)
    } else {
        kw_at(x, i, "view"@)
    }
}

/// An optional `OR REPLACE`.
pub open spec fn p_replace(x: SrcV, s: PS) -> Parsed<bool> {
    if kw(x, s, "or"@) {
        match need_kw(x, bumped(x, s), "replace"@) {
            Err(e) => Err(e),
            Ok(t) => Ok((true, t)),
        }
    } else {
        Ok((false, s))
    }
}

/// The text of a statement without the white space and semicolons around it.
pub open spec fn bare_text(s: Seq<char>) -> Seq<char> {
    trimmed(without_back(trimmed(s), ";"@))
}

/// `CREATE VIEW`.
pub open spec fn p_create_view(x: SrcV, s: PS) -> Parsed<StmtV> {
    match need_kw(x, s, "create"@) {
        Err(e) => Err(e),
        Ok(s1) => {
            match p_replace(x, s1) {
                Err(e) => Err(e),
                Ok((or_replace, s2)) => {
                    let s3 = eat2(x, s2, "temp"@, "temporary"@);
                    match need_kw(x, s3, "view"@) {
                        Err(e) => Err(e),
                        Ok(s4) => {
                            match p_missing(x, s4) {
                                Err(e) => Err(e),
                                Ok((if_not_exists, s5)) => {
                                    match p_ident(x, s5) {
                                        Err(e) => Err(e),
                                        Ok((name, s6)) => {
                                            match p_opt_names(x, s6) {
                                                Err(e) => Err(e),
                                                Ok((_, s7)) => {
                                                    match need_kw(x, s7, "as"@) {
                                                        Err(e) => Err(e),
                                                        Ok(s8) => {
                                                            match read_select(x, s8) {
                                                                Err(e) => Err(e),
                                                                Ok((query, s9)) => {
                                                                    Ok((StmtV::CreateView { name, query, sql: bare_text(x.text), or_replace, if_not_exists }, s9))
                                                                },
                                                            }
                                                        },
                                                    }
                                                },
                                            }
                                        },
                                    }
                                },
                            }
                        },
                    }
                },
            }
        },
    }
}

pub open spec fn rows_from(x: SrcV, s: PS, acc: Seq<Seq<ExprV>>) -> Parsed<Seq<Seq<ExprV>>>
    decreases room(x, s),
{
    match p_row(x, s) {
        Err(e) => Err(e),
        Ok((row, t)) => {
            let s1 = onto(s, t);
            if sym(x, s1, Sym::Comma) {
                rows_from(x, bumped(x, s1), acc.push(row))
            } else {
                Ok((acc.push(row), s1))
            }
        },
    }
}

/// A row of values in parentheses.
pub open spec fn p_row(x: SrcV, s: PS) -> Parsed<Seq<ExprV>> {
    match need_sym(x, s, Sym::LParen) {
        Err(e) => Err(e),
        Ok(s1) => match if sym(x, s1, Sym::RParen) {
            Ok((Seq::empty(), s1))
        } else {
            read_exprs(x, s1)
        } {
            Err(e) => Err(e),
            Ok((row, s2)) => match need_sym(x, s2, Sym::RParen) {
                Err(e) => Err(e),
                Ok(s3) => Ok((row, s3)),
            },
        },
    }
}

/// Where an `INSERT` has its rows from.
pub open spec fn p_rows(x: SrcV, s: PS) -> Parsed<InsertSourceV> {
    if kw(x, s, "select"@) || kw(x, s, "with"@) {
        match read_select(x, s) {
            Err(e) => Err(e),
            Ok((q, t)) => Ok((InsertSourceV::Select(q), t)),
        }
    } else if kw(x, s, "default"@) {
        match need_kw(x, bumped(x, s), "values"@) {
            Err(e) => Err(e),
            Ok(t) => Ok((InsertSourceV::Values(seq![Seq::empty()]), t)),
        }
    } else {
        match need_kw(x, s, "values"@) {
            Err(e) => Err(e),
            Ok(s1) => match rows_from(x, s1, Seq::empty()) {
                Err(e) => Err(e),
                Ok((rows, t)) => Ok((InsertSourceV::Values(rows), t)),
            },
        }
    }
}

/// Assignments from here on, separated by commas.
pub open spec fn sets_from(x: SrcV, s: PS, acc: Seq<(Seq<char>, ExprV)>) -> Parsed<
    Seq<(Seq<char>, ExprV)>,
>
    decreases room(x, s),
{
    match p_set(x, s) {
        Err(e) => Err(e),
        Ok((a, t)) => {
            let s1 = onto(s, t);
            if sym(x, s1, Sym::Comma) {
                sets_from(x, bumped(x, s1), acc.push(a))
            } else {
                Ok((acc.push(a), s1))
            }
        },
    }
}

/// What a conflict is about, which is not kept.
pub open spec fn p_conflict_target(x: SrcV, s: PS) -> Parsed<()> {
    if sym(x, s, Sym::LParen) {
        match p_names(x, s) {
            Err(e) => Err(e),
            Ok((_, t)) => Ok(((), t)),
        }
    } else if kw(x, s, "on"@) {
        match need_kw(x, bumped(x, s), "constraint"@) {
            Err(e) => Err(e),
            Ok(s1) => match p_ident(x, s1) {
                Err(e) => Err(e),
                Ok((_, t)) => Ok(((), t)),
            },
        }
    } else {
        Ok(((), s))
    }
}

/// What to do on a conflict, behind `ON CONFLICT`.
pub open spec fn p_conflict(x: SrcV, s: PS) -> Parsed<OnConflictV> {
    match p_conflict_target(x, s) {
        Err(e) => Err(e),
        Ok((_, s1)) => match need_kw(x, s1, "do"@) {
            Err(e) => Err(e),
            Ok(s2) => if kw(x, s2, "nothing"@) {
                Ok((OnConflictV::Nothing, bumped(x, s2)))
            } else {
                p_conflict_update(x, s2)
            },
        },
    }
}

/// The list behind a `RETURNING`, where one stands.
pub open spec fn p_returning(x: SrcV, s: PS) -> Parsed<Option<Seq<ItemV>>> {
    if kw(x, s, "returning"@) {
        match read_items(x, bumped(x, s)) {
            Err(e) => Err(e),
            Ok((v, t)) => Ok((Some(v), t)),
        }
    } else {
        Ok((None, s))
    }
}

/// What an `INSERT OR ..` does on a conflict.
pub open spec fn p_insert_or(x: SrcV, s: PS) -> Parsed<OnConflictV> {
    if kw(x, s, "or"@) {
        let b = bumped(x, s);
        if kw(x, b, "replace"@) {
            Ok((OnConflictV::Replace, bumped(x, b)))
        } else if kw(x, b, "ignore"@) {
            Ok((OnConflictV::Nothing, bumped(x, b)))
        } else if kw(x, b, "abort"@) {
            Ok((OnConflictV::Error, bumped(x, b)))
        } else {
            Ok((OnConflictV::Error, eat2(x, b, "fail"@, "rollback"@)))
        }
    } else {
        Ok((OnConflictV::Error, s))
    }
}

/// The target columns of an `INSERT`, where they are given.
pub open spec fn p_targets(x: SrcV, s: PS) -> Parsed<Option<Seq<Seq<char>>>> {
    if sym(x, s, Sym::LParen) && !kw_at(x, s.pos + 1, "select"@) {
        match p_names(x, s) {
            Err(e) => Err(e),
            Ok((v, t)) => Ok((Some(v), t)),
        }
    } else {
        Ok((None, s))
    }
}

/// The `ON CONFLICT` of an `INSERT`, or what was said before.
pub open spec fn p_on_conflict(x: SrcV, s: PS, c: OnConflictV) -> Parsed<OnConflictV> {
    if kw(x, s, "on"@) {
        match need_kw(x, bumped(x, s), "conflict"@) {
            Err(e) => Err(e),
            Ok(s1) => p_conflict(x, s1),
        }
    } else {
        Ok((c, s))
    }
}

pub open spec fn p_set(x: SrcV, s: PS) -> Parsed<(Seq<char>, ExprV)> {
    match p_ident(x, s) {
        Err(e) => Err(e),
        Ok((name, s1)) => {
            match need_sym(x, s1, Sym::Eq) {
                Err(e) => Err(e),
                Ok(s2) => {
                    match read_expr(x, s2) {
                        Err(e) => Err(e),
                        Ok((e, s3)) => {
                            Ok(((name, e), s3))
                        },
                    }
                },
            }
        },
    }
}

pub open spec fn p_conflict_update(x: SrcV, s: PS) -> Parsed<OnConflictV> {
    match need_kw(x, s, "update"@) {
        Err(e) => Err(e),
        Ok(s1) => {
            match need_kw(x, s1, "set"@) {
                Err(e) => Err(e),
                Ok(s2) => {
                    match sets_from(x, s2, Seq::empty()) {
                        Err(e) => Err(e),
                        Ok((sets, s3)) => {
                            match read_clause(x, s3, "where"@) {
                                Err(e) => Err(e),
                                Ok((filter, s4)) => {
                                    Ok((OnConflictV::Update { sets, filter }, s4))
                                },
                            }
                        },
                    }
                },
            }
        },
    }
}

/// `INSERT`.
pub open spec fn p_insert(x: SrcV, s: PS) -> Parsed<StmtV> {
    match need_kw(x, s, "insert"@) {
        Err(e) => Err(e),
        Ok(s1) => {
            match p_insert_or(x, s1) {
                Err(e) => Err(e),
                Ok((alt, s2)) => {
                    match need_kw(x, s2, "into"@) {
                        Err(e) => Err(e),
                        Ok(s3) => {
                            match p_ident(x, s3) {
                                Err(e) => Err(e),
                                Ok((table, s4)) => {
                                    match p_targets(x, s4) {
                                        Err(e) => Err(e),
                                        Ok((columns, s5)) => {
                                            match p_rows(x, s5) {
                                                Err(e) => Err(e),
                                                Ok((source, s6)) => {
                                                    match p_on_conflict(x, s6, alt) {
                                                        Err(e) => Err(e),
                                                        Ok((on_conflict, s7)) => {
                                                            match p_returning(x, s7) {
                                                                Err(e) => Err(e),
                                                                Ok((returning, s8)) => {
                                                                    Ok((StmtV::Insert { table, columns, source, on_conflict, returning }, s8))
                                                                },
                                                            }
                                                        },
                                                    }
                                                },
                                            }
                                        },
                                    }
                                },
                            }
                        },
                    }
                },
            }
        },
    }
}

/// `UPDATE`.
pub open spec fn p_update(x: SrcV, s: PS) -> Parsed<StmtV> {
    match need_kw(x, s, "update"@) {
        Err(e) => Err(e),
        Ok(s1) => {
            match p_ident(x, s1) {
                Err(e) => Err(e),
                Ok((table, s2)) => {
                    match need_kw(x, s2, "set"@) {
                        Err(e) => Err(e),
                        Ok(s3) => {
                            match sets_from(x, s3, Seq::empty()) {
                                Err(e) => Err(e),
                                Ok((sets, s4)) => {
                                    match read_from(x, s4, "from"@) {
                                        Err(e) => Err(e),
                                        Ok((from, s5)) => {
                                            match read_clause(x, s5, "where"@) {
                                                Err(e) => Err(e),
                                                Ok((filter, s6)) => {
                                                    match p_returning(x, s6) {
                                                        Err(e) => Err(e),
                                                        Ok((returning, s7)) => {
                                                            Ok((StmtV::Update { table, sets, from, filter, returning }, s7))
                                                        },
                                                    }
                                                },
                                            }
                                        },
                                    }
                                },
                            }
                        },
                    }
                },
            }
        },
    }
}

/// `DELETE`.
pub open spec fn p_delete(x: SrcV, s: PS) -> Parsed<StmtV> {
    match need_kw(x, s, "delete"@) {
        Err(e) => Err(e),
        Ok(s1) => {
            match need_kw(x, s1, "from"@) {
                Err(e) => Err(e),
                Ok(s2) => {
                    match p_ident(x, s2) {
                        Err(e) => Err(e),
                        Ok((table, s3)) => {
                            match read_from(x, s3, "using"@) {
                                Err(e) => Err(e),
                                Ok((using, s4)) => {
                                    match read_clause(x, s4, "where"@) {
                                        Err(e) => Err(e),
                                        Ok((filter, s5)) => {
                                            match p_returning(x, s5) {
                                                Err(e) => Err(e),
                                                Ok((returning, s6)) => {
                                                    Ok((StmtV::Delete { table, using, filter, returning }, s6))
                                                },
                                            }
                                        },
                                    }
                                },
                            }
                        },
                    }
                },
            }
        },
    }
}

/// Behind everything up to a semicolon or the end.
pub open spec fn to_end(x: SrcV, s: PS) -> PS
    decreases room(x, s),
{
    if sym(x, s, Sym::Semi) || sym(x, s, Sym::Eof) {
        s
    } else {
        to_end(x, bumped(x, s))
    }
}

/// Behind a group of balanced parentheses of which `depth` are open.
pub open spec fn past_group(x: SrcV, s: PS, depth: int) -> PS
    decreases room(x, s),
{
    if sym(x, s, Sym::Eof) {
        s
    } else if sym(x, s, Sym::LParen) {
        past_group(x, bumped(x, s), depth + 1)
    } else if sym(x, s, Sym::RParen) {
        if depth == 1 {
            bumped(x, s)
        } else {
            past_group(x, bumped(x, s), depth - 1)
        }
    } else {
        past_group(x, bumped(x, s), depth)
    }
}

/// The rest of a dotted name behind its first word.
pub open spec fn dotted_from(x: SrcV, s: PS, acc: Seq<char>) -> (Seq<char>, PS)
    decreases room(x, s),
{
    if sym(x, s, Sym::Dot) {
        let b = bumped(x, s);
        match tok(x, b) {
            TokV::Word(w) => dotted_from(x, bumped(x, b), acc.push('.') + w),
            _ => (acc, b),
        }
    } else {
        (acc, s)
    }
}

/// A dotted name; nothing where no word stands.
pub open spec fn dotted(x: SrcV, s: PS) -> (Seq<char>, PS) {
    match tok(x, s) {
        TokV::Word(w) => dotted_from(x, bumped(x, s), w),
        _ => (Seq::empty(), s),
    }
}

/// The dotted names from here on, with spaces between them.
pub open spec fn settings_from(x: SrcV, s: PS, first: bool, acc: Seq<char>) -> (Seq<char>, PS)
    decreases room(x, s),
{
    match tok(x, s) {
        TokV::Word(_) => {
            let (n, t) = dotted(x, s);
            settings_from(
                x,
                onto(bumped(x, s), t),
                false,
                if first {
                    n
                } else {
                    acc.push(' ') + n
                },
            )
        },
        _ => (acc, s),
    }
}

/// Behind the `=` or `TO` of a setting.
pub open spec fn past_assign(x: SrcV, s: PS) -> PS {
    if sym(x, s, Sym::Eq) {
        bumped(x, s)
    } else {
        eat(x, s, "to"@)
    }
}

/// The role that `SET ROLE` takes.
pub open spec fn p_role(x: SrcV, s: PS) -> Parsed<StmtV> {
    match tok(x, s) {
        TokV::Word(w) => Ok(
            (
                StmtV::SetSession(
                    SessionSetV::Role(
                        if same_name(w, "none"@) || same_name(w, "default"@) {
                            None
                        } else {
                            Some(w)
                        },
                    ),
                ),
                to_end(x, bumped(x, s)),
            ),
        ),
        TokV::Str(w) => Ok(
            (StmtV::SetSession(SessionSetV::Role(Some(w))), to_end(x, bumped(x, s))),
        ),
        t => Err(found(x, "expected a role, found "@, t)),
    }
}

/// The claims that a session gets.
pub open spec fn p_claims(x: SrcV, s: PS) -> Parsed<StmtV> {
    match tok(x, s) {
        TokV::Str(w) => Ok(
            (StmtV::SetSession(SessionSetV::Claims(Some(w))), to_end(x, bumped(x, s))),
        ),
        t => if kw(x, s, "default"@) {
            Ok((StmtV::SetSession(SessionSetV::Claims(None)), to_end(x, bumped(x, s))))
        } else {
            Err(found(x, "expected claims as text, found "@, t))
        },
    }
}

/// What a word switches.
pub open spec fn switch_of(w: Seq<char>) -> Option<bool> {
    if same_name(w, "on"@) || same_name(w, "true"@) {
        Some(true)
    } else if same_name(w, "off"@) || same_name(w, "false"@) || same_name(w, "default"@) {
        Some(false)
    } else {
        None
    }
}

/// Whether the session is exempt from row policies.
pub open spec fn p_bypass(x: SrcV, s: PS) -> Parsed<StmtV> {
    match tok(x, s) {
        TokV::Word(w) | TokV::Str(w) => match switch_of(w) {
            Some(on) => Ok(
                (StmtV::SetSession(SessionSetV::Bypass(on)), to_end(x, bumped(x, s))),
            ),
            None => Err(found(x, "expected on or off, found "@, tok(x, s))),
        },
        t => Err(found(x, "expected on or off, found "@, t)),
    }
}

/// The change that takes a session setting back, where the name is of one.
pub open spec fn session_reset(n: Seq<char>) -> Option<SessionSetV> {
    if same_name(n, "role"@) {
        Some(SessionSetV::Role(None))
    } else if same_name(n, CLAIMS_GUC@) {
        Some(SessionSetV::Claims(None))
    } else if same_name(n, BYPASS_GUC@) {
        Some(SessionSetV::Bypass(false))
    } else {
        None
    }
}

/// `SET`, behind the word.
pub open spec fn p_setting(x: SrcV, s: PS) -> Parsed<StmtV> {
    let (n, s1) = dotted(x, eat2(x, s, "session"@, "local"@));
    if same_name(n, "role"@) {
        p_role(x, past_assign(x, s1))
    } else if same_name(n, CLAIMS_GUC@) {
        p_claims(x, past_assign(x, s1))
    } else if same_name(n, BYPASS_GUC@) {
        p_bypass(x, past_assign(x, s1))
    } else if same_name(n, VECTOR_EF_SEARCH_GUC@) {
        let s2 = past_assign(x, s1);
        if kw(x, s2, "default"@) {
            Ok((StmtV::SetVectorEf(None), to_end(x, bumped(x, s2))))
        } else {
            match p_int(x, s2) {
                Err(e) => Err(e),
                Ok((v, t)) => Ok((StmtV::SetVectorEf(Some(at_least(v, 1))), to_end(x, t))),
            }
        }
    } else {
        Ok((StmtV::Noop, to_end(x, s1)))
    }
}

pub open spec fn ignored_word(x: SrcV, s: PS) -> bool {
    kw(x, s, "pragma"@) || kw(x, s, "vacuum"@) || kw(x, s, "analyze"@) || kw(x, s, "discard"@)
}

/// A session statement other than `EXPLAIN`, where one stands here.
pub open spec fn p_session(x: SrcV, s: PS) -> Option<Parsed<StmtV>> {
    if kw(x, s, "show"@) {
        let (n, t) = settings_from(x, bumped(x, s), true, Seq::empty());
        Some(Ok((StmtV::Show(n), t)))
    } else if kw(x, s, "set"@) {
        Some(p_setting(x, bumped(x, s)))
    } else if kw(x, s, "reset"@) {
        let (n, t) = dotted(x, bumped(x, s));
        if same_name(n, VECTOR_EF_SEARCH_GUC@) {
            Some(Ok((StmtV::SetVectorEf(None), to_end(x, t))))
        } else {
            match session_reset(n) {
                Some(set) => Some(Ok((StmtV::SetSession(set), to_end(x, t)))),
                None => Some(Ok((StmtV::Noop, to_end(x, t)))),
            }
        }
    } else if ignored_word(x, s) {
        Some(Ok((StmtV::Noop, to_end(x, s))))
    } else {
        None
    }
}

/// Behind one mode of a transaction; the same place where none stands.
pub open spec fn past_mode(x: SrcV, s: PS) -> Option<PS> {
    let b = bumped(x, s);
    if kw(x, s, "isolation"@) {
        let c = eat(x, b, "level"@);
        let d = bumped(x, c);
        Some(
            if kw(x, c, "serializable"@) {
                d
            } else if kw(x, c, "repeatable"@) {
                eat(x, d, "read"@)
            } else if kw(x, c, "read"@) {
                eat2(x, d, "committed"@, "uncommitted"@)
            } else {
                c
            },
        )
    } else if kw(x, s, "read"@) {
        Some(eat2(x, b, "only"@, "write"@))
    } else if kw(x, s, "not"@) {
        Some(eat(x, b, "deferrable"@))
    } else if kw(x, s, "deferrable"@) {
        Some(b)
    } else {
        None
    }
}

/// Behind a list of modes, which change nothing.
pub open spec fn past_modes(x: SrcV, s: PS) -> PS
    decreases room(x, s),
{
    let c = if sym(x, s, Sym::Comma) {
        bumped(x, s)
    } else {
        s
    };
    match past_mode(x, c) {
        None => c,
        Some(t) => if sym(x, c, Sym::Eof) {
            t
        } else {
            past_modes(x, onto(bumped(x, c), t))
        },
    }
}

/// What ends a transaction or goes back in it, behind `ROLLBACK` or `ABORT`.
pub open spec fn p_rollback(x: SrcV, s: PS) -> Parsed<StmtV> {
    let s1 = eat2(x, s, "transaction"@, "work"@);
    if kw(x, s1, "to"@) {
        match p_ident(x, eat(x, bumped(x, s1), "savepoint"@)) {
            Err(e) => Err(e),
            Ok((n, t)) => Ok((StmtV::RollbackTo(n), t)),
        }
    } else {
        Ok((StmtV::Rollback, s1))
    }
}

/// A statement of transaction control, where one stands here.
pub open spec fn p_transaction(x: SrcV, s: PS) -> Option<Parsed<StmtV>> {
    let b = bumped(x, s);
    if kw(x, s, "begin"@) {
        Some(Ok((StmtV::Begin, past_modes(x, eat2(x, b, "transaction"@, "work"@)))))
    } else if kw(x, s, "start"@) {
        Some(Ok((StmtV::Begin, past_modes(x, eat(x, b, "transaction"@)))))
    } else if kw(x, s, "commit"@) || kw(x, s, "end"@) {
        Some(Ok((StmtV::Commit, eat2(x, b, "transaction"@, "work"@))))
    } else if kw(x, s, "savepoint"@) {
        Some(
            match p_ident(x, b) {
                Err(e) => Err(e),
                Ok((n, t)) => Ok((StmtV::Savepoint(n), t)),
            },
        )
    } else if kw(x, s, "release"@) {
        Some(
            match p_ident(x, eat(x, b, "savepoint"@)) {
                Err(e) => Err(e),
                Ok((n, t)) => Ok((StmtV::ReleaseSavepoint(n), t)),
            },
        )
    } else if kw(x, s, "rollback"@) || kw(x, s, "abort"@) {
        Some(p_rollback(x, b))
    } else {
        None
    }
}

/// A `CREATE` of any kind.
pub open spec fn p_create(x: SrcV, s: PS) -> Parsed<StmtV> {
    if kw_at(x, s.pos + 1, "index"@) {
        p_create_index(x, s)
    } else if kw_at(x, s.pos + 1, "policy"@) {
        p_create_policy(x, s)
    } else if view_ahead(x, s) {
        p_create_view(x, s)
    } else {
        p_create_table(x, s)
    }
}

/// A `DROP` of any kind.
pub open spec fn p_drop(x: SrcV, s: PS) -> Parsed<StmtV> {
    if kw_at(x, s.pos + 1, "index"@) {
        p_drop_index(x, s)
    } else if kw_at(x, s.pos + 1, "view"@) {
        p_drop_view(x, s)
    } else if kw_at(x, s.pos + 1, "policy"@) {
        p_drop_policy(x, s)
    } else {
        p_drop_table(x, s)
    }
}

/// A statement on tables and their rows, where one stands here.
pub open spec fn p_work(x: SrcV, s: PS) -> Option<Parsed<StmtV>> {
    if kw(x, s, "create"@) {
        Some(p_create(x, s))
    } else if kw(x, s, "drop"@) {
        Some(p_drop(x, s))
    } else if kw(x, s, "alter"@) {
        Some(p_alter(x, s))
    } else if kw(x, s, "insert"@) {
        Some(p_insert(x, s))
    } else if kw(x, s, "select"@) || kw(x, s, "with"@) {
        Some(
            match read_select(x, s) {
                Err(e) => Err(e),
                Ok((q, t)) => Ok((StmtV::Select(q), t)),
            },
        )
    } else if kw(x, s, "update"@) {
        Some(p_update(x, s))
    } else if kw(x, s, "delete"@) {
        Some(p_delete(x, s))
    } else {
        None
    }
}

/// Where the statement behind an `EXPLAIN` begins.
pub open spec fn explained(x: SrcV, s: PS) -> PS {
    let s1 = eat(x, eat(x, bumped(x, s), "analyze"@), "verbose"@);
    if sym(x, s1, Sym::LParen) {
        past_group(x, s1, 0)
    } else {
        s1
    }
}

/// A statement.
pub open spec fn p_statement(x: SrcV, s: PS) -> Parsed<StmtV>
    decreases room(x, s),
{
    match p_work(x, s) {
        Some(r) => r,
        None => if kw(x, s, "explain"@) {
            match p_statement(x, onto(bumped(x, s), explained(x, s))) {
                Err(e) => Err(e),
                Ok((q, t)) => Ok((StmtV::Explain(Box::new(q)), t)),
            }
        } else {
            match p_session(x, s) {
                Some(r) => r,
                None => match p_transaction(x, s) {
                    Some(r) => r,
                    None => Err(found(x, "unsupported statement starting at "@, tok(x, s))),
                },
            }
        },
    }
}

/// What a text says as one statement, and how many parameters it has.
pub open spec fn statement(text: Seq<char>, reals: RealsV) -> Result<(StmtV, nat), StopV> {
    match lexed(text, reals) {
        Err(e) => Err(e),
        Ok(toks) => {
            let x = SrcV { toks, reals, text, stored: false };
            match p_statement(x, start()) {
                Err(e) => Err(e),
                Ok((q, s)) => {
                    let t = if sym(x, s, Sym::Semi) {
                        bumped(x, s)
                    } else {
                        s
                    };
                    if sym(x, t, Sym::Eof) {
                        Ok((q, t.max))
                    } else {
                        Err(sql_fail("trailing tokens after statement"@))
                    }
                },
            }
        },
    }
}

} // verus!
