//! The write-ahead log: the operations a transaction makes durable, and the
//! record that each of them is.
//!
//! A committing transaction writes its operations and then one `Commit`. Recovery
//! takes the operations up to each `Commit` as a group; what stands behind the
//! last one never happened.
use vstd::prelude::*;
use crate::catalog::{
    columns_view, foreign_keys_view, opt_text, string_lists_view, strings_view, Column, ColumnV,
    ForeignKey, ForeignKeyV, Policy, PolicyCommand, PolicyV, SchemaV, TableSchema,
};
use crate::codec::{
    get_bytes, get_text, get_texts, get_u32, get_u64, get_u8, got, got_view, le32, le64,
    lemma_got_bytes, lemma_got_text, lemma_got_texts, lemma_got_u32, lemma_got_u64, lemma_got_u8,
    put_all, put_len, put_str, put_strs, put_u32, put_u64, text_bytes, text_fits, texts_bytes,
    texts_fit, Cursor, Got,
};
use crate::error::{internal_err, EngineError, ErrorV};
use crate::text::{concat2, nat_string, nat_text, owned};
use crate::value::{row_view, ColumnType, RowV, Value, ValueV};
use crate::vector::{IndexDef, IndexDefV, IndexParams, Metric};

verus! {

/// One operation in the log.
#[derive(Debug)]
#[allow(inconsistent_fields)]
pub enum WalOp {
    CreateTable { schema: TableSchema },
    DropTable { name: String },
    Insert { table: String, vid: u64, values: Vec<Value> },
    Delete { table: String, vid: u64 },
    CreateIndex { def: IndexDef },
    DropIndex { name: String },
    AlterAddColumn { table: String, column: Column },
    AlterDropColumn { table: String, column: String },
    AlterRenameColumn { table: String, from: String, to: String },
    AlterRenameTable { table: String, to: String },
    /// A view, as the text of the statement that made it.
    CreateView { name: String, sql: String },
    DropView { name: String },
    CreatePolicy { table: String, policy: Policy },
    DropPolicy { table: String, name: String },
    SetRls { table: String, enabled: bool },
    Commit,
}

/// What a [`WalOp`] says.
#[allow(inconsistent_fields)]
pub enum WalOpV {
    CreateTable { schema: SchemaV },
    DropTable { name: Seq<char> },
    Insert { table: Seq<char>, vid: u64, values: RowV },
    Delete { table: Seq<char>, vid: u64 },
    CreateIndex { def: IndexDefV },
    DropIndex { name: Seq<char> },
    AlterAddColumn { table: Seq<char>, column: ColumnV },
    AlterDropColumn { table: Seq<char>, column: Seq<char> },
    AlterRenameColumn { table: Seq<char>, from: Seq<char>, to: Seq<char> },
    AlterRenameTable { table: Seq<char>, to: Seq<char> },
    CreateView { name: Seq<char>, sql: Seq<char> },
    DropView { name: Seq<char> },
    CreatePolicy { table: Seq<char>, policy: PolicyV },
    DropPolicy { table: Seq<char>, name: Seq<char> },
    SetRls { table: Seq<char>, enabled: bool },
    Commit,
}

impl View for WalOp {
    type V = WalOpV;

    open spec fn view(&self) -> WalOpV {
        match self {
            WalOp::CreateTable { schema } => WalOpV::CreateTable { schema: schema@ },
            WalOp::DropTable { name } => WalOpV::DropTable { name: name@ },
            WalOp::Insert { table, vid, values } => WalOpV::Insert {
                table: table@,
                vid: *vid,
                values: row_view(values@),
            },
            WalOp::Delete { table, vid } => WalOpV::Delete { table: table@, vid: *vid },
            WalOp::CreateIndex { def } => WalOpV::CreateIndex { def: def@ },
            WalOp::DropIndex { name } => WalOpV::DropIndex { name: name@ },
            WalOp::AlterAddColumn { table, column } => WalOpV::AlterAddColumn {
                table: table@,
                column: column@,
            },
            WalOp::AlterDropColumn { table, column } => WalOpV::AlterDropColumn {
                table: table@,
                column: column@,
            },
            WalOp::AlterRenameColumn { table, from, to } => WalOpV::AlterRenameColumn {
                table: table@,
                from: from@,
                to: to@,
            },
            WalOp::AlterRenameTable { table, to } => WalOpV::AlterRenameTable {
                table: table@,
                to: to@,
            },
            WalOp::CreateView { name, sql } => WalOpV::CreateView { name: name@, sql: sql@ },
            WalOp::DropView { name } => WalOpV::DropView { name: name@ },
            WalOp::CreatePolicy { table, policy } => WalOpV::CreatePolicy {
                table: table@,
                policy: policy@,
            },
            WalOp::DropPolicy { table, name } => WalOpV::DropPolicy { table: table@, name: name@ },
            WalOp::SetRls { table, enabled } => WalOpV::SetRls { table: table@, enabled: *enabled },
            WalOp::Commit => WalOpV::Commit,
        }
    }
}

pub open spec fn ops_view(v: Seq<WalOp>) -> Seq<WalOpV> {
    Seq::new(v.len(), |i: int| v[i]@)
}

// ---- values ---------------------------------------------------------------------------------------

/// The components of a vector, one behind the other.
pub open spec fn components_bytes(v: Seq<u32>) -> Seq<u8>
    decreases v.len(),
{
    if v.len() == 0 {
        Seq::empty()
    } else {
        components_bytes(v.drop_last()) + le32(v.last())
    }
}

pub open spec fn value_bytes(v: ValueV) -> Seq<u8> {
    match v {
        ValueV::Null => seq![0u8],
        ValueV::Int(i) => seq![1u8] + le64(i as u64),
        ValueV::Real(b) => seq![2u8] + le64(b),
        ValueV::Text(s) => seq![3u8] + text_bytes(s),
        ValueV::Blob(b) => seq![4u8] + (le32(b.len() as u32) + b),
        ValueV::Vector(c) => seq![5u8] + (le32(c.len() as u32) + components_bytes(c)),
    }
}

pub open spec fn values_flat(v: RowV) -> Seq<u8>
    decreases v.len(),
{
    if v.len() == 0 {
        Seq::empty()
    } else {
        values_flat(v.drop_last()) + value_bytes(v.last())
    }
}

pub open spec fn get_components_from(b: Seq<u8>, n: nat, acc: Seq<u32>) -> Got<Seq<u32>>
    decreases n,
{
    if n == 0 {
        Ok((acc, b))
    } else {
        match get_u32(b) {
            Err(e) => Err(e),
            Ok((c, r)) => get_components_from(r, (n - 1) as nat, acc.push(c)),
        }
    }
}

pub open spec fn get_blob(b: Seq<u8>) -> Got<Seq<u8>> {
    match get_u32(b) {
        Err(e) => Err(e),
        Ok((n, r)) => get_bytes(r, n as nat),
    }
}

pub open spec fn get_components(b: Seq<u8>) -> Got<Seq<u32>> {
    match get_u32(b) {
        Err(e) => Err(e),
        Ok((n, r)) => get_components_from(r, n as nat, Seq::empty()),
    }
}

pub open spec fn get_value(b: Seq<u8>) -> Got<ValueV> {
    match get_u8(b) {
        Err(e) => Err(e),
        Ok((tag, r)) => if tag == 0 {
            Ok((ValueV::Null, r))
        } else if tag == 1 {
            match get_u64(r) {
                Err(e) => Err(e),
                Ok((x, r2)) => Ok((ValueV::Int(x as i64), r2)),
            }
        } else if tag == 2 {
            match get_u64(r) {
                Err(e) => Err(e),
                Ok((x, r2)) => Ok((ValueV::Real(x), r2)),
            }
        } else if tag == 3 {
            match get_text(r) {
                Err(e) => Err(e),
                Ok((x, r2)) => Ok((ValueV::Text(x), r2)),
            }
        } else if tag == 4 {
            match get_blob(r) {
                Err(e) => Err(e),
                Ok((x, r2)) => Ok((ValueV::Blob(x), r2)),
            }
        } else if tag == 5 {
            match get_components(r) {
                Err(e) => Err(e),
                Ok((x, r2)) => Ok((ValueV::Vector(x), r2)),
            }
        } else {
            Err(internal_err("bad value tag "@ + nat_text(tag as nat)))
        },
    }
}

pub open spec fn get_values_from(b: Seq<u8>, n: nat, acc: RowV) -> Got<RowV>
    decreases n,
{
    if n == 0 {
        Ok((acc, b))
    } else {
        match get_value(b) {
            Err(e) => Err(e),
            Ok((v, r)) => get_values_from(r, (n - 1) as nat, acc.push(v)),
        }
    }
}

pub open spec fn value_fits(v: ValueV) -> bool {
    match v {
        ValueV::Text(s) => text_fits(s),
        ValueV::Blob(b) => b.len() <= u32::MAX,
        ValueV::Vector(c) => c.len() <= u32::MAX,
        _ => true,
    }
}

proof fn lemma_components_front(v: Seq<u32>)
    requires
        v.len() > 0,
    ensures
        components_bytes(v) == le32(v[0]) + components_bytes(v.drop_first()),
    decreases v.len(),
{
    if v.len() == 1 {
        assert(components_bytes(v.drop_last()) =~= Seq::<u8>::empty());
        assert(components_bytes(v) =~= le32(v[0]) + components_bytes(v.drop_first()));
    } else {
        lemma_components_front(v.drop_last());
        assert(v.drop_last().drop_first() =~= v.drop_first().drop_last());
        assert(components_bytes(v) =~= le32(v[0]) + (components_bytes(v.drop_first().drop_last())
            + le32(v.last())));
    }
}

proof fn lemma_got_components_from(v: Seq<u32>, i: int, rest: Seq<u8>)
    requires
        0 <= i <= v.len(),
    ensures
        get_components_from(
            components_bytes(v.subrange(i, v.len() as int)) + rest,
            (v.len() - i) as nat,
            v.subrange(0, i),
        ) == Ok::<(Seq<u32>, Seq<u8>), ErrorV>((v, rest)),
    decreases v.len() - i,
{
    let tail = v.subrange(i, v.len() as int);
    if i == v.len() {
        assert(components_bytes(tail) + rest =~= rest);
        assert(v.subrange(0, i) =~= v);
    } else {
        let next = v.subrange(i + 1, v.len() as int);
        lemma_components_front(tail);
        assert(tail.drop_first() =~= next);
        assert(components_bytes(tail) + rest =~= le32(v[i]) + (components_bytes(next) + rest));
        lemma_got_u32(v[i], components_bytes(next) + rest);
        assert(v.subrange(0, i).push(v[i]) =~= v.subrange(0, i + 1));
        lemma_got_components_from(v, i + 1, rest);
    }
}

proof fn lemma_i64_bits(i: i64)
    ensures
        (i as u64) as i64 == i,
{
    assert((i as u64) as i64 == i) by (bit_vector);
}

pub proof fn lemma_got_value(v: ValueV, rest: Seq<u8>)
    requires
        value_fits(v),
    ensures
        get_value(value_bytes(v) + rest) == Ok::<(ValueV, Seq<u8>), ErrorV>((v, rest)),
{
    match v {
        ValueV::Null => {
            lemma_got_u8(0, rest);
        },
        ValueV::Int(i) => {
            let x = i as u64;
            assert(value_bytes(v) + rest =~= seq![1u8] + (le64(x) + rest));
            lemma_got_u8(1, le64(x) + rest);
            lemma_got_u64(x, rest);
            lemma_i64_bits(i);
        },
        ValueV::Real(b) => {
            assert(value_bytes(v) + rest =~= seq![2u8] + (le64(b) + rest));
            lemma_got_u8(2, le64(b) + rest);
            lemma_got_u64(b, rest);
        },
        ValueV::Text(s) => {
            assert(value_bytes(v) + rest =~= seq![3u8] + (text_bytes(s) + rest));
            lemma_got_u8(3, text_bytes(s) + rest);
            lemma_got_text(s, rest);
        },
        ValueV::Blob(b) => {
            let n = b.len() as u32;
            assert(value_bytes(v) + rest =~= seq![4u8] + (le32(n) + (b + rest)));
            lemma_got_u8(4, le32(n) + (b + rest));
            lemma_got_u32(n, b + rest);
            lemma_got_bytes(b, rest);
        },
        ValueV::Vector(c) => {
            let n = c.len() as u32;
            let cb = components_bytes(c);
            assert(value_bytes(v) + rest =~= seq![5u8] + (le32(n) + (cb + rest)));
            lemma_got_u8(5, le32(n) + (cb + rest));
            lemma_got_u32(n, cb + rest);
            assert(c.subrange(0, c.len() as int) =~= c);
            assert(c.subrange(0, 0) =~= Seq::<u32>::empty());
            lemma_got_components_from(c, 0, rest);
        },
    }
}

proof fn lemma_values_front(v: RowV)
    requires
        v.len() > 0,
    ensures
        values_flat(v) == value_bytes(v[0]) + values_flat(v.drop_first()),
    decreases v.len(),
{
    if v.len() == 1 {
        assert(values_flat(v.drop_last()) =~= Seq::<u8>::empty());
        assert(values_flat(v) =~= value_bytes(v[0]) + values_flat(v.drop_first()));
    } else {
        lemma_values_front(v.drop_last());
        assert(v.drop_last().drop_first() =~= v.drop_first().drop_last());
        assert(values_flat(v) =~= value_bytes(v[0]) + (values_flat(v.drop_first().drop_last())
            + value_bytes(v.last())));
    }
}

proof fn lemma_got_values_from(v: RowV, i: int, rest: Seq<u8>)
    requires
        forall|k: int| 0 <= k < v.len() ==> value_fits(#[trigger] v[k]),
        0 <= i <= v.len(),
    ensures
        get_values_from(
            values_flat(v.subrange(i, v.len() as int)) + rest,
            (v.len() - i) as nat,
            v.subrange(0, i),
        ) == Ok::<(RowV, Seq<u8>), ErrorV>((v, rest)),
    decreases v.len() - i,
{
    let tail = v.subrange(i, v.len() as int);
    if i == v.len() {
        assert(values_flat(tail) + rest =~= rest);
        assert(v.subrange(0, i) =~= v);
    } else {
        let next = v.subrange(i + 1, v.len() as int);
        lemma_values_front(tail);
        assert(tail.drop_first() =~= next);
        assert(values_flat(tail) + rest =~= value_bytes(v[i]) + (values_flat(next) + rest));
        lemma_got_value(v[i], values_flat(next) + rest);
        assert(v.subrange(0, i).push(v[i]) =~= v.subrange(0, i + 1));
        lemma_got_values_from(v, i + 1, rest);
    }
}

// ---- columns --------------------------------------------------------------------------------------

pub open spec fn type_bytes(ty: ColumnType) -> Seq<u8> {
    match ty {
        ColumnType::Vector(d) => seq![ty.spec_tag()] + le32(d),
        _ => seq![ty.spec_tag()],
    }
}

pub open spec fn get_type(b: Seq<u8>) -> Got<ColumnType> {
    match get_u8(b) {
        Err(e) => Err(e),
        Ok((tag, r)) => if tag == 4 {
            match get_u32(r) {
                Err(e) => Err(e),
                Ok((d, r2)) => Ok((ColumnType::Vector(d), r2)),
            }
        } else {
            Ok((ColumnType::of_tag(tag), r))
        },
    }
}

pub open spec fn flag(on: bool, bit: u8) -> u8 {
    if on {
        bit
    } else {
        0
    }
}

pub open spec fn flags_of(c: ColumnV) -> u8 {
    flag(c.primary_key, 1) | flag(c.not_null, 2) | flag(c.unique, 4) | flag(c.autoincrement, 8)
}

pub open spec fn column_bytes(c: ColumnV) -> Seq<u8> {
    text_bytes(c.name) + (type_bytes(c.ty) + seq![flags_of(c)])
}

/// A column without its default, which is kept elsewhere in a record.
pub open spec fn bare(c: ColumnV) -> ColumnV {
    ColumnV { default_sql: None, ..c }
}

pub open spec fn get_column(b: Seq<u8>) -> Got<ColumnV> {
    match get_text(b) {
        Err(e) => Err(e),
        Ok((name, r)) => match get_type(r) {
            Err(e) => Err(e),
            Ok((ty, r2)) => match get_u8(r2) {
                Err(e) => Err(e),
                Ok((f, r3)) => Ok(
                    (
                        ColumnV {
                            name,
                            ty,
                            primary_key: f & 1 != 0,
                            not_null: f & 2 != 0,
                            unique: f & 4 != 0,
                            autoincrement: f & 8 != 0,
                            default_sql: None,
                        },
                        r3,
                    ),
                ),
            },
        },
    }
}

pub open spec fn columns_flat(v: Seq<ColumnV>) -> Seq<u8>
    decreases v.len(),
{
    if v.len() == 0 {
        Seq::empty()
    } else {
        columns_flat(v.drop_last()) + column_bytes(v.last())
    }
}

pub open spec fn columns_bytes(v: Seq<ColumnV>) -> Seq<u8> {
    le32(v.len() as u32) + columns_flat(v)
}

pub open spec fn get_columns_from(b: Seq<u8>, n: nat, acc: Seq<ColumnV>) -> Got<Seq<ColumnV>>
    decreases n,
{
    if n == 0 {
        Ok((acc, b))
    } else {
        match get_column(b) {
            Err(e) => Err(e),
            Ok((c, r)) => get_columns_from(r, (n - 1) as nat, acc.push(c)),
        }
    }
}

pub open spec fn get_columns(b: Seq<u8>) -> Got<Seq<ColumnV>> {
    match get_u32(b) {
        Err(e) => Err(e),
        Ok((n, r)) => get_columns_from(r, n as nat, Seq::empty()),
    }
}

pub open spec fn default_bytes(d: Option<Seq<char>>) -> Seq<u8> {
    match d {
        Some(s) => seq![1u8] + text_bytes(s),
        None => seq![0u8],
    }
}

pub open spec fn defaults_flat(v: Seq<ColumnV>) -> Seq<u8>
    decreases v.len(),
{
    if v.len() == 0 {
        Seq::empty()
    } else {
        defaults_flat(v.drop_last()) + default_bytes(v.last().default_sql)
    }
}

pub open spec fn with_default(cols: Seq<ColumnV>, i: int, s: Seq<char>) -> Seq<ColumnV> {
    if 0 <= i < cols.len() {
        cols.update(i, ColumnV { default_sql: Some(s), ..cols[i] })
    } else {
        cols
    }
}

/// The defaults of the columns from `i` on, filled in.
pub open spec fn get_defaults_from(b: Seq<u8>, n: nat, i: int, cols: Seq<ColumnV>) -> Got<
    Seq<ColumnV>,
>
    decreases n,
{
    if n == 0 {
        Ok((cols, b))
    } else {
        match get_u8(b) {
            Err(e) => Err(e),
            Ok((f, r)) => if f == 1 {
                match get_text(r) {
                    Err(e) => Err(e),
                    Ok((s, r2)) => get_defaults_from(
                        r2,
                        (n - 1) as nat,
                        i + 1,
                        with_default(cols, i, s),
                    ),
                }
            } else {
                get_defaults_from(r, (n - 1) as nat, i + 1, cols)
            },
        }
    }
}

pub open spec fn column_fits(c: ColumnV) -> bool {
    text_fits(c.name) && (c.default_sql matches Some(s) ==> text_fits(s))
}

pub open spec fn columns_fit(v: Seq<ColumnV>) -> bool {
    v.len() <= u32::MAX && forall|i: int| 0 <= i < v.len() ==> column_fits(#[trigger] v[i])
}

pub open spec fn bare_all(v: Seq<ColumnV>) -> Seq<ColumnV> {
    Seq::new(v.len(), |i: int| bare(v[i]))
}

proof fn lemma_flags(c: ColumnV)
    ensures
        (flags_of(c) & 1 != 0) == c.primary_key,
        (flags_of(c) & 2 != 0) == c.not_null,
        (flags_of(c) & 4 != 0) == c.unique,
        (flags_of(c) & 8 != 0) == c.autoincrement,
{
    let p = flag(c.primary_key, 1);
    let n = flag(c.not_null, 2);
    let u = flag(c.unique, 4);
    let a = flag(c.autoincrement, 8);
    let f = p | n | u | a;
    assert(((f & 1 != 0) == (p == 1)) && ((f & 2 != 0) == (n == 2)) && ((f & 4 != 0) == (u == 4))
        && ((f & 8 != 0) == (a == 8))) by (bit_vector)
        requires
            f == p | n | u | a,
            p == 0 || p == 1,
            n == 0 || n == 2,
            u == 0 || u == 4,
            a == 0 || a == 8,
    ;
}

proof fn lemma_got_type(ty: ColumnType, rest: Seq<u8>)
    ensures
        get_type(type_bytes(ty) + rest) == Ok::<(ColumnType, Seq<u8>), ErrorV>((ty, rest)),
{
    match ty {
        ColumnType::Vector(d) => {
            assert(type_bytes(ty) + rest =~= seq![4u8] + (le32(d) + rest));
            lemma_got_u8(4, le32(d) + rest);
            lemma_got_u32(d, rest);
        },
        _ => {
            lemma_got_u8(ty.spec_tag(), rest);
        },
    }
}

proof fn lemma_got_column(c: ColumnV, rest: Seq<u8>)
    requires
        column_fits(c),
    ensures
        get_column(column_bytes(c) + rest) == Ok::<(ColumnV, Seq<u8>), ErrorV>((bare(c), rest)),
{
    let f = seq![flags_of(c)];
    assert(column_bytes(c) + rest =~= text_bytes(c.name) + (type_bytes(c.ty) + (f + rest)));
    lemma_got_text(c.name, type_bytes(c.ty) + (f + rest));
    lemma_got_type(c.ty, f + rest);
    lemma_got_u8(flags_of(c), rest);
    lemma_flags(c);
}

proof fn lemma_columns_front(v: Seq<ColumnV>)
    requires
        v.len() > 0,
    ensures
        columns_flat(v) == column_bytes(v[0]) + columns_flat(v.drop_first()),
    decreases v.len(),
{
    if v.len() == 1 {
        assert(columns_flat(v.drop_last()) =~= Seq::<u8>::empty());
        assert(columns_flat(v) =~= column_bytes(v[0]) + columns_flat(v.drop_first()));
    } else {
        lemma_columns_front(v.drop_last());
        assert(v.drop_last().drop_first() =~= v.drop_first().drop_last());
        assert(columns_flat(v) =~= column_bytes(v[0]) + (columns_flat(v.drop_first().drop_last())
            + column_bytes(v.last())));
    }
}

proof fn lemma_got_columns_from(v: Seq<ColumnV>, i: int, rest: Seq<u8>)
    requires
        columns_fit(v),
        0 <= i <= v.len(),
    ensures
        get_columns_from(
            columns_flat(v.subrange(i, v.len() as int)) + rest,
            (v.len() - i) as nat,
            bare_all(v).subrange(0, i),
        ) == Ok::<(Seq<ColumnV>, Seq<u8>), ErrorV>((bare_all(v), rest)),
    decreases v.len() - i,
{
    let tail = v.subrange(i, v.len() as int);
    if i == v.len() {
        assert(columns_flat(tail) + rest =~= rest);
        assert(bare_all(v).subrange(0, i) =~= bare_all(v));
    } else {
        let next = v.subrange(i + 1, v.len() as int);
        lemma_columns_front(tail);
        assert(tail.drop_first() =~= next);
        assert(columns_flat(tail) + rest =~= column_bytes(v[i]) + (columns_flat(next) + rest));
        lemma_got_column(v[i], columns_flat(next) + rest);
        assert(bare_all(v).subrange(0, i).push(bare(v[i])) =~= bare_all(v).subrange(0, i + 1));
        lemma_got_columns_from(v, i + 1, rest);
    }
}

proof fn lemma_got_columns(v: Seq<ColumnV>, rest: Seq<u8>)
    requires
        columns_fit(v),
    ensures
        get_columns(columns_bytes(v) + rest) == Ok::<(Seq<ColumnV>, Seq<u8>), ErrorV>(
            (bare_all(v), rest),
        ),
{
    assert(columns_bytes(v) + rest =~= le32(v.len() as u32) + (columns_flat(v) + rest));
    lemma_got_u32(v.len() as u32, columns_flat(v) + rest);
    assert(v.subrange(0, v.len() as int) =~= v);
    assert(bare_all(v).subrange(0, 0) =~= Seq::<ColumnV>::empty());
    lemma_got_columns_from(v, 0, rest);
}

proof fn lemma_defaults_front(v: Seq<ColumnV>)
    requires
        v.len() > 0,
    ensures
        defaults_flat(v) == default_bytes(v[0].default_sql) + defaults_flat(v.drop_first()),
    decreases v.len(),
{
    if v.len() == 1 {
        assert(defaults_flat(v.drop_last()) =~= Seq::<u8>::empty());
        assert(defaults_flat(v) =~= default_bytes(v[0].default_sql) + defaults_flat(
            v.drop_first(),
        ));
    } else {
        lemma_defaults_front(v.drop_last());
        assert(v.drop_last().drop_first() =~= v.drop_first().drop_last());
        assert(defaults_flat(v) =~= default_bytes(v[0].default_sql) + (defaults_flat(
            v.drop_first().drop_last(),
        ) + default_bytes(v.last().default_sql)));
    }
}

/// The columns up to `i` as they are, the others without their defaults.
pub open spec fn half_bare(v: Seq<ColumnV>, i: int) -> Seq<ColumnV> {
    Seq::new(
        v.len(),
        |k: int|
            if k < i {
                v[k]
            } else {
                bare(v[k])
            },
    )
}

proof fn lemma_got_defaults_from(v: Seq<ColumnV>, i: int, rest: Seq<u8>)
    requires
        columns_fit(v),
        0 <= i <= v.len(),
    ensures
        get_defaults_from(
            defaults_flat(v.subrange(i, v.len() as int)) + rest,
            (v.len() - i) as nat,
            i,
            half_bare(v, i),
        ) == Ok::<(Seq<ColumnV>, Seq<u8>), ErrorV>((v, rest)),
    decreases v.len() - i,
{
    let tail = v.subrange(i, v.len() as int);
    if i == v.len() {
        assert(defaults_flat(tail) + rest =~= rest);
        assert(half_bare(v, i) =~= v);
    } else {
        let next = v.subrange(i + 1, v.len() as int);
        let more = defaults_flat(next) + rest;
        lemma_defaults_front(tail);
        assert(tail.drop_first() =~= next);
        let d = v[i].default_sql;
        assert(defaults_flat(tail) + rest =~= default_bytes(d) + more);
        assert(column_fits(v[i]));
        match d {
            Some(s) => {
                assert(default_bytes(d) + more =~= seq![1u8] + (text_bytes(s) + more));
                lemma_got_u8(1, text_bytes(s) + more);
                lemma_got_text(s, more);
                assert(with_default(half_bare(v, i), i, s) =~= half_bare(v, i + 1));
            },
            None => {
                lemma_got_u8(0, more);
                assert(half_bare(v, i) =~= half_bare(v, i + 1));
            },
        }
        lemma_got_defaults_from(v, i + 1, rest);
    }
}

// ---- foreign keys, checks and unique lists ---------------------------------------------------------

pub open spec fn key_bytes(k: ForeignKeyV) -> Seq<u8> {
    text_bytes(k.name) + (text_bytes(k.foreign_table) + (texts_bytes(k.columns) + texts_bytes(
        k.foreign_columns,
    )))
}

pub open spec fn get_key(b: Seq<u8>) -> Got<ForeignKeyV> {
    match get_text(b) {
        Err(e) => Err(e),
        Ok((name, r)) => match get_text(r) {
            Err(e) => Err(e),
            Ok((foreign_table, r2)) => match get_texts(r2) {
                Err(e) => Err(e),
                Ok((columns, r3)) => match get_texts(r3) {
                    Err(e) => Err(e),
                    Ok((foreign_columns, r4)) => Ok(
                        (ForeignKeyV { name, columns, foreign_table, foreign_columns }, r4),
                    ),
                },
            },
        },
    }
}

pub open spec fn keys_flat(v: Seq<ForeignKeyV>) -> Seq<u8>
    decreases v.len(),
{
    if v.len() == 0 {
        Seq::empty()
    } else {
        keys_flat(v.drop_last()) + key_bytes(v.last())
    }
}

pub open spec fn keys_bytes(v: Seq<ForeignKeyV>) -> Seq<u8> {
    le32(v.len() as u32) + keys_flat(v)
}

pub open spec fn get_keys_from(b: Seq<u8>, n: nat, acc: Seq<ForeignKeyV>) -> Got<Seq<ForeignKeyV>>
    decreases n,
{
    if n == 0 {
        Ok((acc, b))
    } else {
        match get_key(b) {
            Err(e) => Err(e),
            Ok((k, r)) => get_keys_from(r, (n - 1) as nat, acc.push(k)),
        }
    }
}

/// The foreign keys; a record that ends before them has none.
pub open spec fn get_keys(b: Seq<u8>) -> Got<Seq<ForeignKeyV>> {
    if b.len() == 0 {
        Ok((Seq::empty(), b))
    } else {
        match get_u32(b) {
            Err(e) => Err(e),
            Ok((n, r)) => get_keys_from(r, n as nat, Seq::empty()),
        }
    }
}

pub open spec fn lists_flat(v: Seq<Seq<Seq<char>>>) -> Seq<u8>
    decreases v.len(),
{
    if v.len() == 0 {
        Seq::empty()
    } else {
        lists_flat(v.drop_last()) + texts_bytes(v.last())
    }
}

pub open spec fn lists_bytes(v: Seq<Seq<Seq<char>>>) -> Seq<u8> {
    le32(v.len() as u32) + lists_flat(v)
}

pub open spec fn get_lists_from(b: Seq<u8>, n: nat, acc: Seq<Seq<Seq<char>>>) -> Got<
    Seq<Seq<Seq<char>>>,
>
    decreases n,
{
    if n == 0 {
        Ok((acc, b))
    } else {
        match get_texts(b) {
            Err(e) => Err(e),
            Ok((v, r)) => get_lists_from(r, (n - 1) as nat, acc.push(v)),
        }
    }
}

pub open spec fn get_lists(b: Seq<u8>) -> Got<Seq<Seq<Seq<char>>>> {
    match get_u32(b) {
        Err(e) => Err(e),
        Ok((n, r)) => get_lists_from(r, n as nat, Seq::empty()),
    }
}

/// What stands behind the foreign keys: defaults, checks and unique lists.
pub struct ExtrasV {
    pub columns: Seq<ColumnV>,
    pub checks: Seq<Seq<char>>,
    pub uniques: Seq<Seq<Seq<char>>>,
}

pub open spec fn extras_bytes(x: ExtrasV) -> Seq<u8> {
    le32(x.columns.len() as u32) + (defaults_flat(x.columns) + (texts_bytes(x.checks)
        + lists_bytes(x.uniques)))
}

/// The extras, with the defaults filled into `cols`; a record that ends before
/// them has none.
pub open spec fn get_extras(b: Seq<u8>, cols: Seq<ColumnV>) -> Got<ExtrasV> {
    if b.len() == 0 {
        Ok((ExtrasV { columns: cols, checks: Seq::empty(), uniques: Seq::empty() }, b))
    } else {
        match get_u32(b) {
            Err(e) => Err(e),
            Ok((n, r)) => match get_defaults_from(r, n as nat, 0, cols) {
                Err(e) => Err(e),
                Ok((columns, r2)) => match get_texts(r2) {
                    Err(e) => Err(e),
                    Ok((checks, r3)) => match get_lists(r3) {
                        Err(e) => Err(e),
                        Ok((uniques, r4)) => Ok((ExtrasV { columns, checks, uniques }, r4)),
                    },
                },
            },
        }
    }
}

pub open spec fn key_fits(k: ForeignKeyV) -> bool {
    text_fits(k.name) && text_fits(k.foreign_table) && texts_fit(k.columns) && texts_fit(
        k.foreign_columns,
    )
}

pub open spec fn schema_fits(s: SchemaV) -> bool {
    &&& text_fits(s.name)
    &&& columns_fit(s.columns)
    &&& s.foreign_keys.len() <= u32::MAX
    &&& forall|i: int| 0 <= i < s.foreign_keys.len() ==> key_fits(#[trigger] s.foreign_keys[i])
    &&& texts_fit(s.checks)
    &&& lists_fit(s.uniques)
}

pub open spec fn lists_fit(v: Seq<Seq<Seq<char>>>) -> bool {
    v.len() <= u32::MAX && forall|i: int| 0 <= i < v.len() ==> texts_fit(#[trigger] v[i])
}

proof fn lemma_got_key(k: ForeignKeyV, rest: Seq<u8>)
    requires
        key_fits(k),
    ensures
        get_key(key_bytes(k) + rest) == Ok::<(ForeignKeyV, Seq<u8>), ErrorV>((k, rest)),
{
    let d = texts_bytes(k.foreign_columns) + rest;
    let c = texts_bytes(k.columns) + d;
    let b = text_bytes(k.foreign_table) + c;
    assert(key_bytes(k) + rest =~= text_bytes(k.name) + b);
    lemma_got_text(k.name, b);
    lemma_got_text(k.foreign_table, c);
    lemma_got_texts(k.columns, d);
    lemma_got_texts(k.foreign_columns, rest);
}

proof fn lemma_keys_front(v: Seq<ForeignKeyV>)
    requires
        v.len() > 0,
    ensures
        keys_flat(v) == key_bytes(v[0]) + keys_flat(v.drop_first()),
    decreases v.len(),
{
    if v.len() == 1 {
        assert(keys_flat(v.drop_last()) =~= Seq::<u8>::empty());
        assert(keys_flat(v) =~= key_bytes(v[0]) + keys_flat(v.drop_first()));
    } else {
        lemma_keys_front(v.drop_last());
        assert(v.drop_last().drop_first() =~= v.drop_first().drop_last());
        assert(keys_flat(v) =~= key_bytes(v[0]) + (keys_flat(v.drop_first().drop_last())
            + key_bytes(v.last())));
    }
}

proof fn lemma_got_keys_from(v: Seq<ForeignKeyV>, i: int, rest: Seq<u8>)
    requires
        forall|k: int| 0 <= k < v.len() ==> key_fits(#[trigger] v[k]),
        0 <= i <= v.len(),
    ensures
        get_keys_from(
            keys_flat(v.subrange(i, v.len() as int)) + rest,
            (v.len() - i) as nat,
            v.subrange(0, i),
        ) == Ok::<(Seq<ForeignKeyV>, Seq<u8>), ErrorV>((v, rest)),
    decreases v.len() - i,
{
    let tail = v.subrange(i, v.len() as int);
    if i == v.len() {
        assert(keys_flat(tail) + rest =~= rest);
        assert(v.subrange(0, i) =~= v);
    } else {
        let next = v.subrange(i + 1, v.len() as int);
        lemma_keys_front(tail);
        assert(tail.drop_first() =~= next);
        assert(keys_flat(tail) + rest =~= key_bytes(v[i]) + (keys_flat(next) + rest));
        lemma_got_key(v[i], keys_flat(next) + rest);
        assert(v.subrange(0, i).push(v[i]) =~= v.subrange(0, i + 1));
        lemma_got_keys_from(v, i + 1, rest);
    }
}

proof fn lemma_lists_front(v: Seq<Seq<Seq<char>>>)
    requires
        v.len() > 0,
    ensures
        lists_flat(v) == texts_bytes(v[0]) + lists_flat(v.drop_first()),
    decreases v.len(),
{
    if v.len() == 1 {
        assert(lists_flat(v.drop_last()) =~= Seq::<u8>::empty());
        assert(lists_flat(v) =~= texts_bytes(v[0]) + lists_flat(v.drop_first()));
    } else {
        lemma_lists_front(v.drop_last());
        assert(v.drop_last().drop_first() =~= v.drop_first().drop_last());
        assert(lists_flat(v) =~= texts_bytes(v[0]) + (lists_flat(v.drop_first().drop_last())
            + texts_bytes(v.last())));
    }
}

proof fn lemma_got_lists_from(v: Seq<Seq<Seq<char>>>, i: int, rest: Seq<u8>)
    requires
        lists_fit(v),
        0 <= i <= v.len(),
    ensures
        get_lists_from(
            lists_flat(v.subrange(i, v.len() as int)) + rest,
            (v.len() - i) as nat,
            v.subrange(0, i),
        ) == Ok::<(Seq<Seq<Seq<char>>>, Seq<u8>), ErrorV>((v, rest)),
    decreases v.len() - i,
{
    let tail = v.subrange(i, v.len() as int);
    if i == v.len() {
        assert(lists_flat(tail) + rest =~= rest);
        assert(v.subrange(0, i) =~= v);
    } else {
        let next = v.subrange(i + 1, v.len() as int);
        lemma_lists_front(tail);
        assert(tail.drop_first() =~= next);
        assert(lists_flat(tail) + rest =~= texts_bytes(v[i]) + (lists_flat(next) + rest));
        lemma_got_texts(v[i], lists_flat(next) + rest);
        assert(v.subrange(0, i).push(v[i]) =~= v.subrange(0, i + 1));
        lemma_got_lists_from(v, i + 1, rest);
    }
}

proof fn lemma_got_extras(x: ExtrasV, rest: Seq<u8>)
    requires
        columns_fit(x.columns),
        texts_fit(x.checks),
        lists_fit(x.uniques),
    ensures
        get_extras(extras_bytes(x) + rest, bare_all(x.columns)) == Ok::<(ExtrasV, Seq<u8>), ErrorV>(
            (x, rest),
        ),
{
    let v = x.columns;
    let c = lists_bytes(x.uniques) + rest;
    let b = texts_bytes(x.checks) + c;
    let a = defaults_flat(v) + b;
    assert(extras_bytes(x) + rest =~= le32(v.len() as u32) + a);
    lemma_got_u32(v.len() as u32, a);
    assert(v.subrange(0, v.len() as int) =~= v);
    assert(half_bare(v, 0) =~= bare_all(v));
    lemma_got_defaults_from(v, 0, b);
    lemma_got_texts(x.checks, c);
    let u = x.uniques;
    assert(c =~= le32(u.len() as u32) + (lists_flat(u) + rest));
    lemma_got_u32(u.len() as u32, lists_flat(u) + rest);
    assert(u.subrange(0, u.len() as int) =~= u);
    assert(u.subrange(0, 0) =~= Seq::<Seq<Seq<char>>>::empty());
    lemma_got_lists_from(u, 0, rest);
}

// ---- operations -----------------------------------------------------------------------------------

pub open spec fn extras_of(s: SchemaV) -> ExtrasV {
    ExtrasV { columns: s.columns, checks: s.checks, uniques: s.uniques }
}

pub open spec fn lone_extras(c: ColumnV) -> ExtrasV {
    ExtrasV { columns: seq![c], checks: Seq::empty(), uniques: Seq::empty() }
}

pub open spec fn schema_bytes(s: SchemaV) -> Seq<u8> {
    text_bytes(s.name) + (columns_bytes(s.columns) + (keys_bytes(s.foreign_keys) + extras_bytes(
        extras_of(s),
    )))
}

pub open spec fn index_bytes(d: IndexDefV) -> Seq<u8> {
    text_bytes(d.name) + (text_bytes(d.table) + (text_bytes(d.column) + (le32(d.params.m as u32) + (
    le32(d.params.ef_construction as u32) + (le32(d.params.ef_search as u32)
        + seq![d.params.metric.spec_tag()])))))
}

pub open spec fn flag_bytes(b: bool) -> Seq<u8> {
    seq![
        if b {
            1u8
        } else {
            0u8
        },
    ]
}

/// A text that may be missing.
pub open spec fn maybe_bytes(o: Option<Seq<char>>) -> Seq<u8> {
    match o {
        None => seq![0u8],
        Some(s) => seq![1u8] + text_bytes(s),
    }
}

pub open spec fn command_tag(c: PolicyCommand) -> u8 {
    match c {
        PolicyCommand::All => 0,
        PolicyCommand::Select => 1,
        PolicyCommand::Insert => 2,
        PolicyCommand::Update => 3,
        PolicyCommand::Delete => 4,
    }
}

pub open spec fn policy_bytes(p: PolicyV) -> Seq<u8> {
    text_bytes(p.name) + (seq![command_tag(p.command)] + (texts_bytes(p.roles) + (maybe_bytes(
        p.using,
    ) + maybe_bytes(p.check))))
}

pub open spec fn op_tag(op: WalOpV) -> u8 {
    match op {
        WalOpV::CreateTable { .. } => 1,
        WalOpV::DropTable { .. } => 2,
        WalOpV::Insert { .. } => 3,
        WalOpV::Delete { .. } => 4,
        WalOpV::Commit => 5,
        WalOpV::CreateIndex { .. } => 6,
        WalOpV::DropIndex { .. } => 7,
        WalOpV::AlterAddColumn { .. } => 8,
        WalOpV::AlterDropColumn { .. } => 9,
        WalOpV::AlterRenameColumn { .. } => 10,
        WalOpV::AlterRenameTable { .. } => 11,
        WalOpV::CreateView { .. } => 12,
        WalOpV::DropView { .. } => 13,
        WalOpV::CreatePolicy { .. } => 14,
        WalOpV::DropPolicy { .. } => 15,
        WalOpV::SetRls { .. } => 16,
    }
}

/// What a record holds behind its tag.
pub open spec fn body_bytes(op: WalOpV) -> Seq<u8> {
    match op {
        WalOpV::CreateTable { schema } => schema_bytes(schema),
        WalOpV::DropTable { name } => text_bytes(name),
        WalOpV::Insert { table, vid, values } => text_bytes(table) + (le64(vid) + (le32(
            values.len() as u32,
        ) + values_flat(values))),
        WalOpV::Delete { table, vid } => text_bytes(table) + le64(vid),
        WalOpV::Commit => Seq::empty(),
        WalOpV::CreateIndex { def } => index_bytes(def),
        WalOpV::DropIndex { name } => text_bytes(name),
        WalOpV::AlterAddColumn { table, column } => text_bytes(table) + (columns_bytes(seq![column])
            + extras_bytes(lone_extras(column))),
        WalOpV::AlterDropColumn { table, column } => text_bytes(table) + text_bytes(column),
        WalOpV::AlterRenameColumn { table, from, to } => text_bytes(table) + (text_bytes(from)
            + text_bytes(to)),
        WalOpV::AlterRenameTable { table, to } => text_bytes(table) + text_bytes(to),
        WalOpV::CreateView { name, sql } => text_bytes(name) + text_bytes(sql),
        WalOpV::DropView { name } => text_bytes(name),
        WalOpV::CreatePolicy { table, policy } => text_bytes(table) + policy_bytes(policy),
        WalOpV::DropPolicy { table, name } => text_bytes(table) + text_bytes(name),
        WalOpV::SetRls { table, enabled } => text_bytes(table) + flag_bytes(enabled),
    }
}

/// The record of an operation.
pub open spec fn op_bytes(op: WalOpV) -> Seq<u8> {
    seq![op_tag(op)] + body_bytes(op)
}

pub open spec fn get_schema(b: Seq<u8>) -> Got<SchemaV> {
    match get_text(b) {
        Err(e) => Err(e),
        Ok((name, r)) => match get_columns(r) {
            Err(e) => Err(e),
            Ok((cols, r2)) => match get_keys(r2) {
                Err(e) => Err(e),
                Ok((foreign_keys, r3)) => match get_extras(r3, cols) {
                    Err(e) => Err(e),
                    Ok((x, r4)) => Ok(
                        (
                            SchemaV {
                                name,
                                columns: x.columns,
                                foreign_keys,
                                checks: x.checks,
                                uniques: x.uniques,
                                rls_enabled: false,
                                policies: Seq::empty(),
                            },
                            r4,
                        ),
                    ),
                },
            },
        },
    }
}

pub open spec fn get_index(b: Seq<u8>) -> Got<IndexDefV> {
    match get_text(b) {
        Err(e) => Err(e),
        Ok((name, r)) => match get_text(r) {
            Err(e) => Err(e),
            Ok((table, r2)) => match get_text(r2) {
                Err(e) => Err(e),
                Ok((column, r3)) => match get_params(r3) {
                    Err(e) => Err(e),
                    Ok((params, r4)) => Ok((IndexDefV { name, table, column, params }, r4)),
                },
            },
        },
    }
}

pub open spec fn get_params(b: Seq<u8>) -> Got<IndexParams> {
    match get_u32(b) {
        Err(e) => Err(e),
        Ok((m, r)) => match get_u32(r) {
            Err(e) => Err(e),
            Ok((c, r2)) => match get_u32(r2) {
                Err(e) => Err(e),
                Ok((s, r3)) => match get_u8(r3) {
                    Err(e) => Err(e),
                    Ok((t, r4)) => Ok(
                        (
                            IndexParams {
                                m: m as usize,
                                ef_construction: c as usize,
                                ef_search: s as usize,
                                metric: Metric::of_tag(t),
                            },
                            r4,
                        ),
                    ),
                },
            },
        },
    }
}

pub open spec fn get_insert(b: Seq<u8>) -> Result<WalOpV, ErrorV> {
    match get_text(b) {
        Err(e) => Err(e),
        Ok((table, r)) => match get_u64(r) {
            Err(e) => Err(e),
            Ok((vid, r2)) => match get_u32(r2) {
                Err(e) => Err(e),
                Ok((n, r3)) => match get_values_from(r3, n as nat, Seq::empty()) {
                    Err(e) => Err(e),
                    Ok((values, _)) => Ok(WalOpV::Insert { table, vid, values }),
                },
            },
        },
    }
}

pub open spec fn get_added(b: Seq<u8>) -> Result<WalOpV, ErrorV> {
    match get_text(b) {
        Err(e) => Err(e),
        Ok((table, r)) => match get_columns(r) {
            Err(e) => Err(e),
            Ok((cols, r2)) => match get_extras(r2, cols) {
                Err(e) => Err(e),
                Ok((x, _)) => if x.columns.len() == 0 {
                    Err(internal_err("ALTER ADD COLUMN record has no column"@))
                } else {
                    Ok(WalOpV::AlterAddColumn { table, column: x.columns.last() })
                },
            },
        },
    }
}

pub open spec fn get_maybe(b: Seq<u8>) -> Got<Option<Seq<char>>> {
    match get_u8(b) {
        Err(e) => Err(e),
        Ok((t, r)) => if t == 0 {
            Ok((None, r))
        } else {
            match get_text(r) {
                Err(e) => Err(e),
                Ok((s, r2)) => Ok((Some(s), r2)),
            }
        },
    }
}

pub open spec fn get_command(b: Seq<u8>) -> Got<PolicyCommand> {
    match get_u8(b) {
        Err(e) => Err(e),
        Ok((t, r)) => if t == 0 {
            Ok((PolicyCommand::All, r))
        } else if t == 1 {
            Ok((PolicyCommand::Select, r))
        } else if t == 2 {
            Ok((PolicyCommand::Insert, r))
        } else if t == 3 {
            Ok((PolicyCommand::Update, r))
        } else if t == 4 {
            Ok((PolicyCommand::Delete, r))
        } else {
            Err(internal_err("bad policy command tag "@ + nat_text(t as nat)))
        },
    }
}

pub open spec fn get_policy(b: Seq<u8>) -> Got<PolicyV> {
    match get_text(b) {
        Err(e) => Err(e),
        Ok((name, r)) => match get_command(r) {
            Err(e) => Err(e),
            Ok((command, r2)) => match get_texts(r2) {
                Err(e) => Err(e),
                Ok((roles, r3)) => match get_maybe(r3) {
                    Err(e) => Err(e),
                    Ok((using, r4)) => match get_maybe(r4) {
                        Err(e) => Err(e),
                        Ok((check, r5)) => Ok((PolicyV { name, command, roles, using, check }, r5)),
                    },
                },
            },
        },
    }
}

/// An operation on the policies of a table, by its tag.
pub open spec fn get_guard_op(tag: u8, b: Seq<u8>) -> Result<WalOpV, ErrorV> {
    match get_text(b) {
        Err(e) => Err(e),
        Ok((table, r)) => if tag == 14 {
            match get_policy(r) {
                Err(e) => Err(e),
                Ok((policy, _)) => Ok(WalOpV::CreatePolicy { table, policy }),
            }
        } else if tag == 15 {
            match get_text(r) {
                Err(e) => Err(e),
                Ok((name, _)) => Ok(WalOpV::DropPolicy { table, name }),
            }
        } else {
            match get_u8(r) {
                Err(e) => Err(e),
                Ok((on, _)) => Ok(WalOpV::SetRls { table, enabled: on != 0 }),
            }
        },
    }
}

/// Two texts.
pub open spec fn get_pair(b: Seq<u8>) -> Got<(Seq<char>, Seq<char>)> {
    match get_text(b) {
        Err(e) => Err(e),
        Ok((x, r)) => match get_text(r) {
            Err(e) => Err(e),
            Ok((y, r2)) => Ok(((x, y), r2)),
        },
    }
}

/// An operation that is made of texts and numbers, by its tag.
pub open spec fn get_plain(tag: u8, r: Seq<u8>) -> Result<WalOpV, ErrorV> {
    if tag == 9 {
        match get_pair(r) {
            Err(e) => Err(e),
            Ok(((table, column), _)) => Ok(WalOpV::AlterDropColumn { table, column }),
        }
    } else if tag == 10 {
        match get_pair(r) {
            Err(e) => Err(e),
            Ok(((table, from), r2)) => match get_text(r2) {
                Err(e) => Err(e),
                Ok((to, _)) => Ok(WalOpV::AlterRenameColumn { table, from, to }),
            },
        }
    } else if tag == 11 {
        match get_pair(r) {
            Err(e) => Err(e),
            Ok(((table, to), _)) => Ok(WalOpV::AlterRenameTable { table, to }),
        }
    } else if tag == 12 {
        match get_pair(r) {
            Err(e) => Err(e),
            Ok(((name, sql), _)) => Ok(WalOpV::CreateView { name, sql }),
        }
    } else if tag == 4 {
        match get_text(r) {
            Err(e) => Err(e),
            Ok((table, r2)) => match get_u64(r2) {
                Err(e) => Err(e),
                Ok((vid, _)) => Ok(WalOpV::Delete { table, vid }),
            },
        }
    } else if tag == 13 || tag == 2 || tag == 7 {
        match get_text(r) {
            Err(e) => Err(e),
            Ok((name, _)) => if tag == 13 {
                Ok(WalOpV::DropView { name })
            } else if tag == 2 {
                Ok(WalOpV::DropTable { name })
            } else {
                Ok(WalOpV::DropIndex { name })
            },
        }
    } else if tag == 5 {
        Ok(WalOpV::Commit)
    } else {
        Err(internal_err("bad WAL op tag "@ + nat_text(tag as nat)))
    }
}

/// The operation that a record holds.
pub open spec fn op_of(b: Seq<u8>) -> Result<WalOpV, ErrorV> {
    match get_u8(b) {
        Err(e) => Err(e),
        Ok((tag, r)) => if tag == 1 {
            match get_schema(r) {
                Err(e) => Err(e),
                Ok((schema, _)) => Ok(WalOpV::CreateTable { schema }),
            }
        } else if tag == 8 {
            get_added(r)
        } else if tag == 6 {
            match get_index(r) {
                Err(e) => Err(e),
                Ok((def, _)) => Ok(WalOpV::CreateIndex { def }),
            }
        } else if tag == 3 {
            get_insert(r)
        } else if 14 <= tag <= 16 {
            get_guard_op(tag, r)
        } else {
            get_plain(tag, r)
        },
    }
}

/// A schema without policies, as a new table has it.
pub open spec fn unguarded(s: SchemaV) -> bool {
    !s.rls_enabled && s.policies == Seq::<PolicyV>::empty()
}

pub open spec fn maybe_fits(o: Option<Seq<char>>) -> bool {
    o matches Some(s) ==> text_fits(s)
}

pub open spec fn policy_fits(p: PolicyV) -> bool {
    text_fits(p.name) && texts_fit(p.roles) && maybe_fits(p.using) && maybe_fits(p.check)
}

/// Whether every length in an operation fits the four bytes it is given. The record
/// of a new table has no place for policies; each of them has a record of its own.
pub open spec fn op_fits(op: WalOpV) -> bool {
    match op {
        WalOpV::CreateTable { schema } => schema_fits(schema) && unguarded(schema),
        WalOpV::Insert { table, values, .. } => text_fits(table) && values.len() <= u32::MAX
            && forall|i: int| 0 <= i < values.len() ==> value_fits(#[trigger] values[i]),
        WalOpV::Delete { table, .. } => text_fits(table),
        WalOpV::Commit => true,
        WalOpV::CreateIndex { def } => text_fits(def.name) && text_fits(def.table) && text_fits(
            def.column,
        ) && def.params.m <= u32::MAX && def.params.ef_construction <= u32::MAX
            && def.params.ef_search <= u32::MAX,
        WalOpV::AlterAddColumn { table, column } => text_fits(table) && column_fits(column),
        WalOpV::AlterDropColumn { table, column } => text_fits(table) && text_fits(column),
        WalOpV::AlterRenameColumn { table, from, to } => text_fits(table) && text_fits(from)
            && text_fits(to),
        WalOpV::AlterRenameTable { table, to } => text_fits(table) && text_fits(to),
        WalOpV::CreateView { name, sql } => text_fits(name) && text_fits(sql),
        WalOpV::DropTable { name } => text_fits(name),
        WalOpV::DropIndex { name } => text_fits(name),
        WalOpV::DropView { name } => text_fits(name),
        WalOpV::CreatePolicy { table, policy } => text_fits(table) && policy_fits(policy),
        WalOpV::DropPolicy { table, name } => text_fits(table) && text_fits(name),
        WalOpV::SetRls { table, .. } => text_fits(table),
    }
}

proof fn lemma_pad(b: Seq<u8>)
    ensures
        b + Seq::<u8>::empty() == b,
{
    assert(b + Seq::<u8>::empty() =~= b);
}

proof fn lemma_got_schema(s: SchemaV)
    requires
        schema_fits(s),
        unguarded(s),
    ensures
        get_schema(schema_bytes(s)) == Ok::<(SchemaV, Seq<u8>), ErrorV>((s, Seq::empty())),
{
    let x = extras_of(s);
    let k = s.foreign_keys;
    let c = extras_bytes(x);
    let b = keys_bytes(k) + c;
    let a = columns_bytes(s.columns) + b;
    lemma_got_text(s.name, a);
    lemma_got_columns(s.columns, b);
    assert(b =~= le32(k.len() as u32) + (keys_flat(k) + c));
    lemma_got_u32(k.len() as u32, keys_flat(k) + c);
    assert(b.len() > 0);
    assert(k.subrange(0, k.len() as int) =~= k);
    assert(k.subrange(0, 0) =~= Seq::<ForeignKeyV>::empty());
    lemma_got_keys_from(k, 0, c);
    lemma_pad(c);
    lemma_got_extras(x, Seq::empty());
    lemma_got_u32(x.columns.len() as u32, Seq::empty());
    assert(c.len() > 0);
}

proof fn lemma_got_index(d: IndexDefV)
    requires
        op_fits(WalOpV::CreateIndex { def: d }),
    ensures
        get_index(index_bytes(d)) == Ok::<(IndexDefV, Seq<u8>), ErrorV>((d, Seq::empty())),
{
    let p = d.params;
    let t = seq![p.metric.spec_tag()];
    let f = le32(p.ef_search as u32) + t;
    let e = le32(p.ef_construction as u32) + f;
    let m = le32(p.m as u32) + e;
    let c = text_bytes(d.column) + m;
    let b = text_bytes(d.table) + c;
    lemma_got_text(d.name, b);
    lemma_got_text(d.table, c);
    lemma_got_text(d.column, m);
    lemma_got_u32(p.m as u32, e);
    lemma_got_u32(p.ef_construction as u32, f);
    lemma_got_u32(p.ef_search as u32, t);
    lemma_pad(t);
    lemma_got_u8(p.metric.spec_tag(), Seq::empty());
}

proof fn lemma_got_insert(table: Seq<char>, vid: u64, values: RowV)
    requires
        op_fits(WalOpV::Insert { table, vid, values }),
    ensures
        get_insert(body_bytes(WalOpV::Insert { table, vid, values })) == Ok::<WalOpV, ErrorV>(
            WalOpV::Insert { table, vid, values },
        ),
{
    let d = values_flat(values);
    let c = le32(values.len() as u32) + d;
    let b = le64(vid) + c;
    lemma_got_text(table, b);
    lemma_got_u64(vid, c);
    lemma_got_u32(values.len() as u32, d);
    assert(values.subrange(0, values.len() as int) =~= values);
    assert(values.subrange(0, 0) =~= Seq::<ValueV>::empty());
    lemma_pad(d);
    lemma_got_values_from(values, 0, Seq::empty());
}

proof fn lemma_got_added(table: Seq<char>, column: ColumnV)
    requires
        text_fits(table),
        column_fits(column),
    ensures
        get_added(body_bytes(WalOpV::AlterAddColumn { table, column })) == Ok::<WalOpV, ErrorV>(
            WalOpV::AlterAddColumn { table, column },
        ),
{
    let x = lone_extras(column);
    let c = extras_bytes(x);
    let b = columns_bytes(seq![column]) + c;
    lemma_got_text(table, b);
    lemma_got_columns(seq![column], c);
    lemma_pad(c);
    lemma_got_extras(x, Seq::empty());
    lemma_got_u32(x.columns.len() as u32, Seq::empty());
    assert(c.len() > 0);
}

proof fn lemma_got_pair(x: Seq<char>, y: Seq<char>, rest: Seq<u8>)
    requires
        text_fits(x),
        text_fits(y),
    ensures
        get_pair(text_bytes(x) + (text_bytes(y) + rest)) == Ok::<
            ((Seq<char>, Seq<char>), Seq<u8>),
            ErrorV,
        >(((x, y), rest)),
{
    lemma_got_text(x, text_bytes(y) + rest);
    lemma_got_text(y, rest);
}

proof fn lemma_got_maybe(o: Option<Seq<char>>, rest: Seq<u8>)
    requires
        maybe_fits(o),
    ensures
        get_maybe(maybe_bytes(o) + rest) == Ok::<(Option<Seq<char>>, Seq<u8>), ErrorV>((o, rest)),
{
    match o {
        None => {
            lemma_got_u8(0u8, rest);
        },
        Some(s) => {
            assert(maybe_bytes(o) + rest =~= seq![1u8] + (text_bytes(s) + rest));
            lemma_got_u8(1u8, text_bytes(s) + rest);
            lemma_got_text(s, rest);
        },
    }
}

proof fn lemma_got_policy(p: PolicyV)
    requires
        policy_fits(p),
    ensures
        get_policy(policy_bytes(p)) == Ok::<(PolicyV, Seq<u8>), ErrorV>((p, Seq::empty())),
{
    let d = maybe_bytes(p.check);
    let c = maybe_bytes(p.using) + d;
    let b = texts_bytes(p.roles) + c;
    let a = seq![command_tag(p.command)] + b;
    lemma_got_text(p.name, a);
    lemma_got_u8(command_tag(p.command), b);
    lemma_got_texts(p.roles, c);
    lemma_got_maybe(p.using, d);
    lemma_pad(d);
    lemma_got_maybe(p.check, Seq::empty());
}

/// A schema as a record tells it that ends behind the columns: no column has a default,
/// and there are no foreign keys, no checks and no unique sets.
pub open spec fn columns_only(s: SchemaV) -> SchemaV {
    SchemaV {
        columns: bare_all(s.columns),
        foreign_keys: Seq::empty(),
        checks: Seq::empty(),
        uniques: Seq::empty(),
        ..s
    }
}

/// The length of a table's record up to the end of its columns.
pub open spec fn columns_end(s: SchemaV) -> int {
    1int + text_bytes(s.name).len() + columns_bytes(s.columns).len()
}

/// The length of a table's record up to the end of its foreign keys.
pub open spec fn keys_end(s: SchemaV) -> int {
    columns_end(s) + keys_bytes(s.foreign_keys).len()
}

/// The record of a table that ends behind its columns, or behind its foreign keys, is
/// complete: it decodes to what is there, and what would follow is empty.
pub proof fn law_shorter_records_decode(s: SchemaV)
    requires
        schema_fits(s),
        unguarded(s),
    ensures
        op_of(op_bytes(WalOpV::CreateTable { schema: s }).take(columns_end(s))) == Ok::<
            WalOpV,
            ErrorV,
        >(WalOpV::CreateTable { schema: columns_only(s) }),
        op_of(op_bytes(WalOpV::CreateTable { schema: s }).take(keys_end(s))) == Ok::<
            WalOpV,
            ErrorV,
        >(
            WalOpV::CreateTable {
                schema: SchemaV { foreign_keys: s.foreign_keys, ..columns_only(s) },
            },
        ),
{
    let nil = Seq::<u8>::empty();
    let whole = op_bytes(WalOpV::CreateTable { schema: s });
    let k = s.foreign_keys;
    let name = text_bytes(s.name);
    let cols = columns_bytes(s.columns);
    let keys = keys_bytes(k);
    let short = name + cols;
    assert(whole.take(columns_end(s)) =~= seq![1u8] + short);
    lemma_got_u8(1, short);
    lemma_got_text(s.name, cols);
    lemma_pad(cols);
    lemma_got_columns(s.columns, nil);
    let long = name + (cols + keys);
    assert(whole.take(keys_end(s)) =~= seq![1u8] + long);
    lemma_got_u8(1, long);
    lemma_got_text(s.name, cols + keys);
    lemma_got_columns(s.columns, keys);
    lemma_pad(keys);
    assert(keys =~= le32(k.len() as u32) + (keys_flat(k) + nil));
    lemma_got_u32(k.len() as u32, keys_flat(k) + nil);
    assert(keys.len() > 0);
    assert(k.subrange(0, k.len() as int) =~= k);
    assert(k.subrange(0, 0) =~= Seq::<ForeignKeyV>::empty());
    lemma_got_keys_from(k, 0, nil);
}

/// What the log is written with it is read back as: decoding the record of an
/// operation gives that operation, wherever its lengths fit the format.
pub proof fn law_wal_round_trip(op: WalOpV)
    requires
        op_fits(op),
    ensures
        op_of(op_bytes(op)) == Ok::<WalOpV, ErrorV>(op),
{
    let r = body_bytes(op);
    lemma_got_u8(op_tag(op), r);
    let nil = Seq::<u8>::empty();
    match op {
        WalOpV::CreateTable { schema } => {
            lemma_got_schema(schema);
        },
        WalOpV::Insert { table, vid, values } => {
            lemma_got_insert(table, vid, values);
        },
        WalOpV::Delete { table, vid } => {
            lemma_got_text(table, le64(vid));
            lemma_pad(le64(vid));
            lemma_got_u64(vid, nil);
        },
        WalOpV::Commit => {},
        WalOpV::CreateIndex { def } => {
            lemma_got_index(def);
        },
        WalOpV::AlterAddColumn { table, column } => {
            lemma_got_added(table, column);
        },
        WalOpV::AlterDropColumn { table, column } => {
            lemma_pad(text_bytes(column));
            lemma_got_pair(table, column, nil);
        },
        WalOpV::AlterRenameColumn { table, from, to } => {
            lemma_got_pair(table, from, text_bytes(to));
            lemma_pad(text_bytes(to));
            lemma_got_text(to, nil);
        },
        WalOpV::AlterRenameTable { table, to } => {
            lemma_pad(text_bytes(to));
            lemma_got_pair(table, to, nil);
        },
        WalOpV::CreateView { name, sql } => {
            lemma_pad(text_bytes(sql));
            lemma_got_pair(name, sql, nil);
        },
        WalOpV::DropTable { name } => {
            lemma_pad(text_bytes(name));
            lemma_got_text(name, nil);
        },
        WalOpV::DropIndex { name } => {
            lemma_pad(text_bytes(name));
            lemma_got_text(name, nil);
        },
        WalOpV::DropView { name } => {
            lemma_pad(text_bytes(name));
            lemma_got_text(name, nil);
        },
        WalOpV::CreatePolicy { table, policy } => {
            lemma_got_text(table, policy_bytes(policy));
            lemma_got_policy(policy);
        },
        WalOpV::DropPolicy { table, name } => {
            lemma_got_text(table, text_bytes(name));
            lemma_pad(text_bytes(name));
            lemma_got_text(name, nil);
        },
        WalOpV::SetRls { table, enabled } => {
            lemma_got_text(table, flag_bytes(enabled));
            lemma_pad(flag_bytes(enabled));
            lemma_got_u8(flag_bytes(enabled)[0], nil);
        },
    }
}

// ---- writing records ------------------------------------------------------------------------------

fn put_coltype(b: &mut Vec<u8>, ty: ColumnType)
    ensures
        final(b)@ == old(b)@ + type_bytes(ty),
{
    b.push(ty.tag());
    assert(b@ =~= old(b)@ + seq![ty.spec_tag()]);
    if let ColumnType::Vector(d) = ty {
        put_u32(b, d);
    }
    assert(b@ =~= old(b)@ + type_bytes(ty));
}

fn put_components(b: &mut Vec<u8>, v: &Vec<u32>)
    ensures
        final(b)@ == old(b)@ + components_bytes(v@),
{
    let mut i: usize = 0;
    assert(components_bytes(v@.subrange(0, 0)) =~= Seq::<u8>::empty());
    while i < v.len()
        invariant
            i <= v.len(),
            b@ == old(b)@ + components_bytes(v@.subrange(0, i as int)),
        decreases v.len() - i,
    {
        put_u32(b, v[i]);
        proof {
            let next = v@.subrange(0, i + 1);
            assert(next.drop_last() =~= v@.subrange(0, i as int));
            assert(b@ =~= old(b)@ + components_bytes(next));
        }
        i += 1;
    }
    assert(v@.subrange(0, i as int) =~= v@);
}

fn put_value(b: &mut Vec<u8>, v: &Value)
    ensures
        final(b)@ == old(b)@ + value_bytes(v@),
{
    match v {
        Value::Null => {
            b.push(0);
        },
        Value::Int(i) => {
            b.push(1);
            put_u64(
                b,
                #[verifier::truncate]
                (*i as u64),
            );
        },
        Value::Real(r) => {
            b.push(2);
            put_u64(b, *r);
        },
        Value::Text(s) => {
            b.push(3);
            put_str(b, s);
        },
        Value::Blob(x) => {
            b.push(4);
            put_len(b, x.len());
            put_all(b, x);
        },
        Value::Vector(c) => {
            b.push(5);
            put_len(b, c.len());
            put_components(b, c);
        },
    }
    assert(b@ =~= old(b)@ + value_bytes(v@));
}

fn put_values(b: &mut Vec<u8>, v: &Vec<Value>)
    ensures
        final(b)@ == old(b)@ + values_flat(row_view(v@)),
{
    let ghost rv = row_view(v@);
    let mut i: usize = 0;
    assert(values_flat(rv.subrange(0, 0)) =~= Seq::<u8>::empty());
    while i < v.len()
        invariant
            i <= v.len(),
            rv == row_view(v@),
            b@ == old(b)@ + values_flat(rv.subrange(0, i as int)),
        decreases v.len() - i,
    {
        put_value(b, &v[i]);
        proof {
            let next = rv.subrange(0, i + 1);
            assert(next.drop_last() =~= rv.subrange(0, i as int));
            assert(next.last() == v@[i as int]@);
            assert(b@ =~= old(b)@ + values_flat(next));
        }
        i += 1;
    }
    assert(rv.subrange(0, i as int) =~= rv);
}

fn flag_bit(on: bool, bit: u8) -> (r: u8)
    ensures
        r == flag(on, bit),
{
    if on {
        bit
    } else {
        0
    }
}

fn put_column(b: &mut Vec<u8>, c: &Column)
    ensures
        final(b)@ == old(b)@ + column_bytes(c@),
{
    put_str(b, &c.name);
    put_coltype(b, c.ty);
    let f: u8 = flag_bit(c.primary_key, 1) | flag_bit(c.not_null, 2) | flag_bit(c.unique, 4)
        | flag_bit(c.autoincrement, 8);
    b.push(f);
    assert(b@ =~= old(b)@ + column_bytes(c@));
}

fn put_columns(b: &mut Vec<u8>, v: &Vec<Column>)
    ensures
        final(b)@ == old(b)@ + columns_bytes(columns_view(v@)),
{
    let ghost cv = columns_view(v@);
    put_len(b, v.len());
    let ghost head = b@;
    let mut i: usize = 0;
    assert(columns_flat(cv.subrange(0, 0)) =~= Seq::<u8>::empty());
    while i < v.len()
        invariant
            i <= v.len(),
            cv == columns_view(v@),
            b@ == head + columns_flat(cv.subrange(0, i as int)),
        decreases v.len() - i,
    {
        put_column(b, &v[i]);
        proof {
            let next = cv.subrange(0, i + 1);
            assert(next.drop_last() =~= cv.subrange(0, i as int));
            assert(next.last() == v@[i as int]@);
            assert(b@ =~= head + columns_flat(next));
        }
        i += 1;
    }
    assert(cv.subrange(0, i as int) =~= cv);
    assert(b@ =~= old(b)@ + columns_bytes(cv));
}

fn put_default(b: &mut Vec<u8>, d: &Option<String>)
    ensures
        final(b)@ == old(b)@ + default_bytes(opt_text(*d)),
{
    match d {
        Some(s) => {
            b.push(1);
            put_str(b, s);
        },
        None => {
            b.push(0);
        },
    }
    assert(b@ =~= old(b)@ + default_bytes(opt_text(*d)));
}

fn put_defaults(b: &mut Vec<u8>, v: &Vec<Column>)
    ensures
        final(b)@ == old(b)@ + defaults_flat(columns_view(v@)),
{
    let ghost cv = columns_view(v@);
    let mut i: usize = 0;
    assert(defaults_flat(cv.subrange(0, 0)) =~= Seq::<u8>::empty());
    while i < v.len()
        invariant
            i <= v.len(),
            cv == columns_view(v@),
            b@ == old(b)@ + defaults_flat(cv.subrange(0, i as int)),
        decreases v.len() - i,
    {
        put_default(b, &v[i].default_sql);
        proof {
            let next = cv.subrange(0, i + 1);
            assert(next.drop_last() =~= cv.subrange(0, i as int));
            assert(next.last() == v@[i as int]@);
            assert(b@ =~= old(b)@ + defaults_flat(next));
        }
        i += 1;
    }
    assert(cv.subrange(0, i as int) =~= cv);
}

fn put_keys(b: &mut Vec<u8>, v: &Vec<ForeignKey>)
    ensures
        final(b)@ == old(b)@ + keys_bytes(foreign_keys_view(v@)),
{
    let ghost kv = foreign_keys_view(v@);
    put_len(b, v.len());
    let ghost head = b@;
    let mut i: usize = 0;
    assert(keys_flat(kv.subrange(0, 0)) =~= Seq::<u8>::empty());
    while i < v.len()
        invariant
            i <= v.len(),
            kv == foreign_keys_view(v@),
            b@ == head + keys_flat(kv.subrange(0, i as int)),
        decreases v.len() - i,
    {
        let ghost before = b@;
        let k = &v[i];
        put_str(b, &k.name);
        put_str(b, &k.foreign_table);
        put_strs(b, &k.columns);
        put_strs(b, &k.foreign_columns);
        proof {
            assert(b@ =~= before + key_bytes(k@));
            let next = kv.subrange(0, i + 1);
            assert(next.drop_last() =~= kv.subrange(0, i as int));
            assert(next.last() == v@[i as int]@);
            assert(b@ =~= head + keys_flat(next));
        }
        i += 1;
    }
    assert(kv.subrange(0, i as int) =~= kv);
    assert(b@ =~= old(b)@ + keys_bytes(kv));
}

fn put_lists(b: &mut Vec<u8>, v: &Vec<Vec<String>>)
    ensures
        final(b)@ == old(b)@ + lists_bytes(string_lists_view(v@)),
{
    let ghost lv = string_lists_view(v@);
    put_len(b, v.len());
    let ghost head = b@;
    let mut i: usize = 0;
    assert(lists_flat(lv.subrange(0, 0)) =~= Seq::<u8>::empty());
    while i < v.len()
        invariant
            i <= v.len(),
            lv == string_lists_view(v@),
            b@ == head + lists_flat(lv.subrange(0, i as int)),
        decreases v.len() - i,
    {
        put_strs(b, &v[i]);
        proof {
            let next = lv.subrange(0, i + 1);
            assert(next.drop_last() =~= lv.subrange(0, i as int));
            assert(next.last() == strings_view(v@[i as int]@));
            assert(b@ =~= head + lists_flat(next));
        }
        i += 1;
    }
    assert(lv.subrange(0, i as int) =~= lv);
    assert(b@ =~= old(b)@ + lists_bytes(lv));
}

fn put_extras(b: &mut Vec<u8>, cols: &Vec<Column>, checks: &Vec<String>, uniques: &Vec<Vec<String>>)
    ensures
        final(b)@ == old(b)@ + extras_bytes(
            ExtrasV {
                columns: columns_view(cols@),
                checks: strings_view(checks@),
                uniques: string_lists_view(uniques@),
            },
        ),
{
    let ghost x = ExtrasV {
        columns: columns_view(cols@),
        checks: strings_view(checks@),
        uniques: string_lists_view(uniques@),
    };
    put_len(b, cols.len());
    put_defaults(b, cols);
    put_strs(b, checks);
    put_lists(b, uniques);
    assert(b@ =~= old(b)@ + extras_bytes(x));
}

fn put_schema(b: &mut Vec<u8>, s: &TableSchema)
    ensures
        final(b)@ == old(b)@ + schema_bytes(s@),
{
    put_str(b, &s.name);
    put_columns(b, &s.columns);
    put_keys(b, &s.foreign_keys);
    put_extras(b, &s.columns, &s.checks, &s.uniques);
    assert(b@ =~= old(b)@ + schema_bytes(s@));
}

fn put_index(b: &mut Vec<u8>, d: &IndexDef)
    ensures
        final(b)@ == old(b)@ + index_bytes(d@),
{
    put_str(b, &d.name);
    put_str(b, &d.table);
    put_str(b, &d.column);
    put_len(b, d.params.m);
    put_len(b, d.params.ef_construction);
    put_len(b, d.params.ef_search);
    b.push(d.params.metric.tag());
    assert(b@ =~= old(b)@ + index_bytes(d@));
}

fn put_added(b: &mut Vec<u8>, column: &Column)
    ensures
        final(b)@ == old(b)@ + (columns_bytes(seq![column@]) + extras_bytes(lone_extras(column@))),
{
    let mut lone: Vec<Column> = Vec::new();
    lone.push(column.clone());
    let none: Vec<String> = Vec::new();
    let no_lists: Vec<Vec<String>> = Vec::new();
    proof {
        assert(columns_view(lone@) =~= seq![column@]);
        assert(strings_view(none@) =~= Seq::<Seq<char>>::empty());
        assert(string_lists_view(no_lists@) =~= Seq::<Seq<Seq<char>>>::empty());
    }
    put_columns(b, &lone);
    put_extras(b, &lone, &none, &no_lists);
    assert(b@ =~= old(b)@ + (columns_bytes(seq![column@]) + extras_bytes(lone_extras(column@))));
}

fn put_maybe(b: &mut Vec<u8>, o: &Option<String>)
    ensures
        final(b)@ == old(b)@ + maybe_bytes(opt_text(*o)),
{
    match o {
        None => {
            b.push(0);
        },
        Some(s) => {
            b.push(1);
            put_str(b, s);
        },
    }
    assert(b@ =~= old(b)@ + maybe_bytes(opt_text(*o)));
}

fn put_policy(b: &mut Vec<u8>, p: &Policy)
    ensures
        final(b)@ == old(b)@ + policy_bytes(p@),
{
    put_str(b, &p.name);
    b.push(
        match p.command {
            PolicyCommand::All => 0,
            PolicyCommand::Select => 1,
            PolicyCommand::Insert => 2,
            PolicyCommand::Update => 3,
            PolicyCommand::Delete => 4,
        },
    );
    put_strs(b, &p.roles);
    put_maybe(b, &p.using);
    put_maybe(b, &p.check);
    assert(b@ =~= old(b)@ + policy_bytes(p@));
}

impl WalOp {
    /// The number that stands first in a record.
    fn tag(&self) -> (r: u8)
        ensures
            r == op_tag(self@),
    {
        match self {
            WalOp::CreateTable { .. } => 1,
            WalOp::DropTable { .. } => 2,
            WalOp::Insert { .. } => 3,
            WalOp::Delete { .. } => 4,
            WalOp::Commit => 5,
            WalOp::CreateIndex { .. } => 6,
            WalOp::DropIndex { .. } => 7,
            WalOp::AlterAddColumn { .. } => 8,
            WalOp::AlterDropColumn { .. } => 9,
            WalOp::AlterRenameColumn { .. } => 10,
            WalOp::AlterRenameTable { .. } => 11,
            WalOp::CreateView { .. } => 12,
            WalOp::DropView { .. } => 13,
            WalOp::CreatePolicy { .. } => 14,
            WalOp::DropPolicy { .. } => 15,
            WalOp::SetRls { .. } => 16,
        }
    }

    /// The record of an operation.
    pub fn encode(&self) -> (r: Vec<u8>)
        ensures
            r@ == op_bytes(self@),
    {
        let mut b: Vec<u8> = Vec::new();
        b.push(self.tag());
        match self {
            WalOp::CreateTable { schema } => {
                put_schema(&mut b, schema);
            },
            WalOp::Insert { table, vid, values } => {
                put_str(&mut b, table);
                put_u64(&mut b, *vid);
                put_len(&mut b, values.len());
                put_values(&mut b, values);
            },
            WalOp::Delete { table, vid } => {
                put_str(&mut b, table);
                put_u64(&mut b, *vid);
            },
            WalOp::Commit => {},
            WalOp::CreateIndex { def } => {
                put_index(&mut b, def);
            },
            WalOp::AlterAddColumn { table, column } => {
                put_str(&mut b, table);
                put_added(&mut b, column);
            },
            WalOp::AlterDropColumn { table, column } => {
                put_str(&mut b, table);
                put_str(&mut b, column);
            },
            WalOp::AlterRenameColumn { table, from, to } => {
                put_str(&mut b, table);
                put_str(&mut b, from);
                put_str(&mut b, to);
            },
            WalOp::AlterRenameTable { table, to } => {
                put_str(&mut b, table);
                put_str(&mut b, to);
            },
            WalOp::CreateView { name, sql } => {
                put_str(&mut b, name);
                put_str(&mut b, sql);
            },
            WalOp::DropTable { name } => {
                put_str(&mut b, name);
            },
            WalOp::DropIndex { name } => {
                put_str(&mut b, name);
            },
            WalOp::DropView { name } => {
                put_str(&mut b, name);
            },
            WalOp::CreatePolicy { table, policy } => {
                put_str(&mut b, table);
                put_policy(&mut b, policy);
            },
            WalOp::DropPolicy { table, name } => {
                put_str(&mut b, table);
                put_str(&mut b, name);
            },
            WalOp::SetRls { table, enabled } => {
                put_str(&mut b, table);
                b.push(
                    if *enabled {
                        1
                    } else {
                        0
                    },
                );
            },
        }
        assert(b@ =~= op_bytes(self@));
        b
    }

    /// The operation that a record holds.
    pub fn decode(bytes: &[u8]) -> (r: Result<WalOp, EngineError>)
        ensures
            op_of(bytes@) == (match r {
                Ok(op) => Ok(op@),
                Err(e) => Err(e@),
            }),
    {
        let mut c = Cursor::new(bytes);
        let tag: u8 = c.u8()?;
        if tag == 1 {
            let schema = read_schema(&mut c)?;
            Ok(WalOp::CreateTable { schema })
        } else if tag == 8 {
            read_added(&mut c)
        } else if tag == 6 {
            let def = read_index(&mut c)?;
            Ok(WalOp::CreateIndex { def })
        } else if tag == 3 {
            read_insert(&mut c)
        } else if 14 <= tag && tag <= 16 {
            read_guard_op(tag, &mut c)
        } else {
            read_plain(tag, &mut c)
        }
    }
}

// ---- reading records ------------------------------------------------------------------------------

pub open spec fn op_result(r: Result<WalOp, EngineError>) -> Result<WalOpV, ErrorV> {
    match r {
        Ok(op) => Ok(op@),
        Err(e) => Err(e@),
    }
}

pub open spec fn got_row(r: Result<Vec<Value>, EngineError>, rest: Seq<u8>) -> Got<RowV> {
    match r {
        Ok(v) => Ok((row_view(v@), rest)),
        Err(e) => Err(e@),
    }
}

pub open spec fn got_columns(r: Result<Vec<Column>, EngineError>, rest: Seq<u8>) -> Got<Seq<ColumnV>> {
    match r {
        Ok(v) => Ok((columns_view(v@), rest)),
        Err(e) => Err(e@),
    }
}

pub open spec fn got_keys(r: Result<Vec<ForeignKey>, EngineError>, rest: Seq<u8>) -> Got<
    Seq<ForeignKeyV>,
> {
    match r {
        Ok(v) => Ok((foreign_keys_view(v@), rest)),
        Err(e) => Err(e@),
    }
}

pub open spec fn got_lists(r: Result<Vec<Vec<String>>, EngineError>, rest: Seq<u8>) -> Got<
    Seq<Seq<Seq<char>>>,
> {
    match r {
        Ok(v) => Ok((string_lists_view(v@), rest)),
        Err(e) => Err(e@),
    }
}

fn read_components(c: &mut Cursor) -> (r: Result<Vec<u32>, EngineError>)
    requires
        old(c).wf(),
    ensures
        final(c).wf(),
        got_view(r, final(c).rest()) == get_components(old(c).rest()),
{
    let n: u32 = c.u32()?;
    let ghost b0 = c.rest();
    let mut out: Vec<u32> = Vec::new();
    let mut i: u32 = 0;
    while i < n
        invariant
            i <= n,
            c.wf(),
            get_components_from(c.rest(), (n - i) as nat, out@) == get_components_from(
                b0,
                n as nat,
                Seq::empty(),
            ),
            get_components(old(c).rest()) == get_components_from(b0, n as nat, Seq::empty()),
        decreases n - i,
    {
        let x: u32 = c.u32()?;
        out.push(x);
        i += 1;
    }
    Ok(out)
}

fn read_value(c: &mut Cursor) -> (r: Result<Value, EngineError>)
    requires
        old(c).wf(),
    ensures
        final(c).wf(),
        got_view(r, final(c).rest()) == get_value(old(c).rest()),
{
    let tag: u8 = c.u8()?;
    if tag == 0 {
        Ok(Value::Null)
    } else if tag == 1 {
        let x: u64 = c.u64()?;
        Ok(
            Value::Int(
                #[verifier::truncate]
                (x as i64),
            ),
        )
    } else if tag == 2 {
        let x: u64 = c.u64()?;
        Ok(Value::Real(x))
    } else if tag == 3 {
        let s = c.str()?;
        Ok(Value::Text(s))
    } else if tag == 4 {
        let n: u32 = c.u32()?;
        let x = c.take(n as usize)?;
        Ok(Value::Blob(x))
    } else if tag == 5 {
        let v = read_components(c)?;
        Ok(Value::Vector(v))
    } else {
        Err(EngineError::internal(concat2("bad value tag ", &nat_string(tag as u64))))
    }
}

fn read_values(c: &mut Cursor, n: u32) -> (r: Result<Vec<Value>, EngineError>)
    requires
        old(c).wf(),
    ensures
        final(c).wf(),
        got_row(r, final(c).rest()) == get_values_from(old(c).rest(), n as nat, Seq::empty()),
{
    let ghost b0 = c.rest();
    let mut out: Vec<Value> = Vec::new();
    assert(row_view(out@) =~= Seq::<ValueV>::empty());
    let mut i: u32 = 0;
    while i < n
        invariant
            i <= n,
            c.wf(),
            b0 == old(c).rest(),
            get_values_from(c.rest(), (n - i) as nat, row_view(out@)) == get_values_from(
                b0,
                n as nat,
                Seq::empty(),
            ),
        decreases n - i,
    {
        let ghost before = row_view(out@);
        let v = read_value(c)?;
        let ghost vv = v@;
        out.push(v);
        assert(row_view(out@) =~= before.push(vv));
        i += 1;
    }
    Ok(out)
}

fn read_type(c: &mut Cursor) -> (r: Result<ColumnType, EngineError>)
    requires
        old(c).wf(),
    ensures
        final(c).wf(),
        got(r, final(c).rest()) == get_type(old(c).rest()),
{
    let tag: u8 = c.u8()?;
    if tag == 4 {
        let d: u32 = c.u32()?;
        Ok(ColumnType::Vector(d))
    } else {
        Ok(ColumnType::from_tag(tag))
    }
}

fn read_column(c: &mut Cursor) -> (r: Result<Column, EngineError>)
    requires
        old(c).wf(),
    ensures
        final(c).wf(),
        got_view(r, final(c).rest()) == get_column(old(c).rest()),
{
    let name = c.str()?;
    let ty = read_type(c)?;
    let f: u8 = c.u8()?;
    Ok(
        Column {
            name,
            ty,
            primary_key: f & 1 != 0,
            not_null: f & 2 != 0,
            unique: f & 4 != 0,
            autoincrement: f & 8 != 0,
            default_sql: None,
        },
    )
}

fn read_columns(c: &mut Cursor) -> (r: Result<Vec<Column>, EngineError>)
    requires
        old(c).wf(),
    ensures
        final(c).wf(),
        got_columns(r, final(c).rest()) == get_columns(old(c).rest()),
{
    let n: u32 = c.u32()?;
    let ghost b0 = c.rest();
    let mut out: Vec<Column> = Vec::new();
    assert(columns_view(out@) =~= Seq::<ColumnV>::empty());
    let mut i: u32 = 0;
    while i < n
        invariant
            i <= n,
            c.wf(),
            get_columns_from(c.rest(), (n - i) as nat, columns_view(out@)) == get_columns_from(
                b0,
                n as nat,
                Seq::empty(),
            ),
            get_columns(old(c).rest()) == get_columns_from(b0, n as nat, Seq::empty()),
        decreases n - i,
    {
        let ghost before = columns_view(out@);
        let x = read_column(c)?;
        let ghost xv = x@;
        out.push(x);
        assert(columns_view(out@) =~= before.push(xv));
        i += 1;
    }
    Ok(out)
}

fn read_keys(c: &mut Cursor) -> (r: Result<Vec<ForeignKey>, EngineError>)
    requires
        old(c).wf(),
    ensures
        final(c).wf(),
        got_keys(r, final(c).rest()) == get_keys(old(c).rest()),
{
    let mut out: Vec<ForeignKey> = Vec::new();
    assert(foreign_keys_view(out@) =~= Seq::<ForeignKeyV>::empty());
    if c.at_end() {
        return Ok(out);
    }
    let n: u32 = c.u32()?;
    let ghost b0 = c.rest();
    let mut i: u32 = 0;
    while i < n
        invariant
            i <= n,
            c.wf(),
            get_keys_from(c.rest(), (n - i) as nat, foreign_keys_view(out@)) == get_keys_from(
                b0,
                n as nat,
                Seq::empty(),
            ),
            get_keys(old(c).rest()) == get_keys_from(b0, n as nat, Seq::empty()),
        decreases n - i,
    {
        let ghost before = foreign_keys_view(out@);
        let name = c.str()?;
        let foreign_table = c.str()?;
        let columns = c.strs()?;
        let foreign_columns = c.strs()?;
        let k = ForeignKey { name, columns, foreign_table, foreign_columns };
        let ghost kv = k@;
        out.push(k);
        assert(foreign_keys_view(out@) =~= before.push(kv));
        i += 1;
    }
    Ok(out)
}

fn read_lists(c: &mut Cursor) -> (r: Result<Vec<Vec<String>>, EngineError>)
    requires
        old(c).wf(),
    ensures
        final(c).wf(),
        got_lists(r, final(c).rest()) == get_lists(old(c).rest()),
{
    let n: u32 = c.u32()?;
    let ghost b0 = c.rest();
    let mut out: Vec<Vec<String>> = Vec::new();
    assert(string_lists_view(out@) =~= Seq::<Seq<Seq<char>>>::empty());
    let mut i: u32 = 0;
    while i < n
        invariant
            i <= n,
            c.wf(),
            get_lists_from(c.rest(), (n - i) as nat, string_lists_view(out@)) == get_lists_from(
                b0,
                n as nat,
                Seq::empty(),
            ),
            get_lists(old(c).rest()) == get_lists_from(b0, n as nat, Seq::empty()),
        decreases n - i,
    {
        let ghost before = string_lists_view(out@);
        let x = c.strs()?;
        let ghost xv = strings_view(x@);
        out.push(x);
        assert(string_lists_view(out@) =~= before.push(xv));
        i += 1;
    }
    Ok(out)
}

/// Fill in the defaults of `n` columns.
fn read_defaults(c: &mut Cursor, n: u32, cols: Vec<Column>) -> (r: Result<Vec<Column>, EngineError>)
    requires
        old(c).wf(),
    ensures
        final(c).wf(),
        got_columns(r, final(c).rest()) == get_defaults_from(
            old(c).rest(),
            n as nat,
            0,
            columns_view(cols@),
        ),
{
    let ghost b0 = c.rest();
    let ghost cols0 = columns_view(cols@);
    let mut filled = cols;
    let mut i: u32 = 0;
    while i < n
        invariant
            i <= n,
            c.wf(),
            b0 == old(c).rest(),
            cols0 == columns_view(cols@),
            get_defaults_from(c.rest(), (n - i) as nat, i as int, columns_view(filled@))
                == get_defaults_from(b0, n as nat, 0, cols0),
        decreases n - i,
    {
        let f: u8 = c.u8()?;
        if f == 1 {
            let s = c.str()?;
            let ghost sv = s@;
            let k: usize = i as usize;
            let ghost before = columns_view(filled@);
            if k < filled.len() {
                let old_col = filled[k].clone();
                let col = Column {
                    name: old_col.name,
                    ty: old_col.ty,
                    primary_key: old_col.primary_key,
                    not_null: old_col.not_null,
                    unique: old_col.unique,
                    autoincrement: old_col.autoincrement,
                    default_sql: Some(s),
                };
                let ghost colv = col@;
                filled.set(k, col);
                assert(columns_view(filled@) =~= before.update(k as int, colv));
            }
            assert(columns_view(filled@) =~= with_default(before, i as int, sv));
        }
        i += 1;
    }
    Ok(filled)
}

fn read_schema(c: &mut Cursor) -> (r: Result<TableSchema, EngineError>)
    requires
        old(c).wf(),
    ensures
        final(c).wf(),
        got_view(r, final(c).rest()) == get_schema(old(c).rest()),
{
    let name = c.str()?;
    let cols = read_columns(c)?;
    let foreign_keys = read_keys(c)?;
    let (columns, checks, uniques) = read_extras(c, cols)?;
    let schema = TableSchema {
        name,
        columns,
        foreign_keys,
        checks,
        uniques,
        rls_enabled: false,
        policies: Vec::new(),
    };
    assert(schema@.policies =~= Seq::<PolicyV>::empty());
    Ok(schema)
}

pub open spec fn got_extras(
    r: Result<(Vec<Column>, Vec<String>, Vec<Vec<String>>), EngineError>,
    rest: Seq<u8>,
) -> Got<ExtrasV> {
    match r {
        Ok((c, k, u)) => Ok(
            (
                ExtrasV {
                    columns: columns_view(c@),
                    checks: strings_view(k@),
                    uniques: string_lists_view(u@),
                },
                rest,
            ),
        ),
        Err(e) => Err(e@),
    }
}

fn read_extras(c: &mut Cursor, cols: Vec<Column>) -> (r: Result<
    (Vec<Column>, Vec<String>, Vec<Vec<String>>),
    EngineError,
>)
    requires
        old(c).wf(),
    ensures
        final(c).wf(),
        got_extras(r, final(c).rest()) == get_extras(old(c).rest(), columns_view(cols@)),
{
    if c.at_end() {
        let checks: Vec<String> = Vec::new();
        let uniques: Vec<Vec<String>> = Vec::new();
        assert(strings_view(checks@) =~= Seq::<Seq<char>>::empty());
        assert(string_lists_view(uniques@) =~= Seq::<Seq<Seq<char>>>::empty());
        return Ok((cols, checks, uniques));
    }
    let n: u32 = c.u32()?;
    let columns = read_defaults(c, n, cols)?;
    let checks = c.strs()?;
    let uniques = read_lists(c)?;
    Ok((columns, checks, uniques))
}

fn read_index(c: &mut Cursor) -> (r: Result<IndexDef, EngineError>)
    requires
        old(c).wf(),
    ensures
        final(c).wf(),
        got_view(r, final(c).rest()) == get_index(old(c).rest()),
{
    let name = c.str()?;
    let table = c.str()?;
    let column = c.str()?;
    let m: u32 = c.u32()?;
    let ef_construction: u32 = c.u32()?;
    let ef_search: u32 = c.u32()?;
    let t: u8 = c.u8()?;
    let params = IndexParams {
        m: m as usize,
        ef_construction: ef_construction as usize,
        ef_search: ef_search as usize,
        metric: Metric::from_tag(t),
    };
    Ok(IndexDef { name, table, column, params })
}

fn read_insert(c: &mut Cursor) -> (r: Result<WalOp, EngineError>)
    requires
        old(c).wf(),
    ensures
        op_result(r) == get_insert(old(c).rest()),
{
    let table = c.str()?;
    let vid: u64 = c.u64()?;
    let n: u32 = c.u32()?;
    let values = read_values(c, n)?;
    Ok(WalOp::Insert { table, vid, values })
}

fn read_added(c: &mut Cursor) -> (r: Result<WalOp, EngineError>)
    requires
        old(c).wf(),
    ensures
        op_result(r) == get_added(old(c).rest()),
{
    let table = c.str()?;
    let cols = read_columns(c)?;
    let (columns, _, _) = read_extras(c, cols)?;
    let ghost cv = columns_view(columns@);
    let mut columns = columns;
    match columns.pop() {
        Some(column) => {
            assert(cv.last() == column@);
            Ok(WalOp::AlterAddColumn { table, column })
        },
        None => Err(EngineError::internal(owned("ALTER ADD COLUMN record has no column"))),
    }
}

pub open spec fn got_maybe(r: Result<Option<String>, EngineError>, rest: Seq<u8>) -> Got<
    Option<Seq<char>>,
> {
    match r {
        Ok(o) => Ok((opt_text(o), rest)),
        Err(e) => Err(e@),
    }
}

fn read_maybe(c: &mut Cursor) -> (r: Result<Option<String>, EngineError>)
    requires
        old(c).wf(),
    ensures
        final(c).wf(),
        got_maybe(r, final(c).rest()) == get_maybe(old(c).rest()),
{
    let t: u8 = c.u8()?;
    if t == 0 {
        return Ok(None);
    }
    let s = c.str()?;
    Ok(Some(s))
}

pub open spec fn got_command(r: Result<PolicyCommand, EngineError>, rest: Seq<u8>) -> Got<
    PolicyCommand,
> {
    match r {
        Ok(o) => Ok((o, rest)),
        Err(e) => Err(e@),
    }
}

fn read_command(c: &mut Cursor) -> (r: Result<PolicyCommand, EngineError>)
    requires
        old(c).wf(),
    ensures
        final(c).wf(),
        got_command(r, final(c).rest()) == get_command(old(c).rest()),
{
    let t: u8 = c.u8()?;
    if t == 0 {
        Ok(PolicyCommand::All)
    } else if t == 1 {
        Ok(PolicyCommand::Select)
    } else if t == 2 {
        Ok(PolicyCommand::Insert)
    } else if t == 3 {
        Ok(PolicyCommand::Update)
    } else if t == 4 {
        Ok(PolicyCommand::Delete)
    } else {
        Err(EngineError::internal(concat2("bad policy command tag ", &nat_string(t as u64))))
    }
}

fn read_policy(c: &mut Cursor) -> (r: Result<Policy, EngineError>)
    requires
        old(c).wf(),
    ensures
        final(c).wf(),
        got_view(r, final(c).rest()) == get_policy(old(c).rest()),
{
    let name = c.str()?;
    let command = read_command(c)?;
    let roles = c.strs()?;
    let using = read_maybe(c)?;
    let check = read_maybe(c)?;
    Ok(Policy { name, command, roles, using, check })
}

fn read_guard_op(tag: u8, c: &mut Cursor) -> (r: Result<WalOp, EngineError>)
    requires
        old(c).wf(),
    ensures
        op_result(r) == get_guard_op(tag, old(c).rest()),
{
    let table = c.str()?;
    if tag == 14 {
        let policy = read_policy(c)?;
        Ok(WalOp::CreatePolicy { table, policy })
    } else if tag == 15 {
        let name = c.str()?;
        Ok(WalOp::DropPolicy { table, name })
    } else {
        let on: u8 = c.u8()?;
        Ok(WalOp::SetRls { table, enabled: on != 0 })
    }
}

fn read_plain(tag: u8, c: &mut Cursor) -> (r: Result<WalOp, EngineError>)
    requires
        old(c).wf(),
    ensures
        op_result(r) == get_plain(tag, old(c).rest()),
{
    if tag == 9 {
        let table = c.str()?;
        let column = c.str()?;
        Ok(WalOp::AlterDropColumn { table, column })
    } else if tag == 10 {
        let table = c.str()?;
        let from = c.str()?;
        let to = c.str()?;
        Ok(WalOp::AlterRenameColumn { table, from, to })
    } else if tag == 11 {
        let table = c.str()?;
        let to = c.str()?;
        Ok(WalOp::AlterRenameTable { table, to })
    } else if tag == 12 {
        let name = c.str()?;
        let sql = c.str()?;
        Ok(WalOp::CreateView { name, sql })
    } else if tag == 4 {
        let table = c.str()?;
        let vid: u64 = c.u64()?;
        Ok(WalOp::Delete { table, vid })
    } else if tag == 13 || tag == 2 || tag == 7 {
        let name = c.str()?;
        if tag == 13 {
            Ok(WalOp::DropView { name })
        } else if tag == 2 {
            Ok(WalOp::DropTable { name })
        } else {
            Ok(WalOp::DropIndex { name })
        }
    } else if tag == 5 {
        Ok(WalOp::Commit)
    } else {
        Err(EngineError::internal(concat2("bad WAL op tag ", &nat_string(tag as u64))))
    }
}

} // verus!
