//! SQL values and column types: the engine's row-cell representation.
use vstd::prelude::*;
use crate::asks::{number32_of, shown, Ask, AskV, Reals, RealsV, Stop, StopV};
use crate::base64::{base64_encode, base64_text};
use crate::ieee::{
    as_exact_int, compare_reals, exact_int, fractionless, int_to_real, is_integral, mag_bits,
    no_fraction, real_integral, real_mag, real_neg, real_of_int, real_order, whole_of, whole_part,
    BIG_BITS, BIG_BITS32, INF_BITS32, Order, SIGN_BIT, SIGN_BIT32,
};
use crate::text::{
    contains_text, has_text, int_chars, int_text, nat_chars, nat_text, spells, to_chars, trim_chars,
    trimmed, upper_chars, upper_text,
};

verus! {

/// A single SQL value. Reals and vector components are held as their bits.
#[derive(Debug)]
pub enum Value {
    Null,
    Int(i64),
    Real(u64),
    Text(String),
    Blob(Vec<u8>),
    Vector(Vec<u32>),
}

/// What a [`Value`] is.
pub enum ValueV {
    Null,
    Int(i64),
    Real(u64),
    Text(Seq<char>),
    Blob(Seq<u8>),
    Vector(Seq<u32>),
}

/// A row.
pub type RowV = Seq<ValueV>;

impl View for Value {
    type V = ValueV;

    open spec fn view(&self) -> ValueV {
        match self {
            Value::Null => ValueV::Null,
            Value::Int(i) => ValueV::Int(*i),
            Value::Real(r) => ValueV::Real(*r),
            Value::Text(s) => ValueV::Text(s@),
            Value::Blob(b) => ValueV::Blob(b@),
            Value::Vector(v) => ValueV::Vector(v@),
        }
    }
}

impl DeepView for Value {
    type V = ValueV;

    open spec fn deep_view(&self) -> ValueV {
        self@
    }
}

impl Clone for Value {
    fn clone(&self) -> (r: Value)
        ensures
            r@ == self@,
    {
        match self {
            Value::Null => Value::Null,
            Value::Int(i) => Value::Int(*i),
            Value::Real(r) => Value::Real(*r),
            Value::Text(s) => Value::Text(s.clone()),
            Value::Blob(b) => {
                let c = b.clone();
                assert(c@ =~= b@);
                Value::Blob(c)
            },
            Value::Vector(v) => {
                let c = v.clone();
                assert(c@ =~= v@);
                Value::Vector(c)
            },
        }
    }
}

/// A row of values, seen as what they are.
pub open spec fn row_view(r: Seq<Value>) -> RowV {
    Seq::new(r.len(), |i: int| r[i]@)
}

/// Rows, seen as what they hold.
pub open spec fn rows_view(rs: Seq<Vec<Value>>) -> Seq<RowV> {
    Seq::new(rs.len(), |i: int| row_view(rs[i]@))
}

pub fn clone_row(r: &[Value]) -> (c: Vec<Value>)
    ensures
        row_view(c@) == row_view(r@),
{
    let mut out: Vec<Value> = Vec::new();
    let mut i: usize = 0;
    while i < r.len()
        invariant
            i <= r.len(),
            row_view(out@) == row_view(r@).take(i as int),
        decreases r.len() - i,
    {
        let ghost before = row_view(out@);
        out.push(r[i].clone());
        assert(row_view(out@) =~= before.push(r@[i as int]@));
        assert(row_view(r@).take(i + 1) =~= row_view(r@).take(i as int).push(row_view(r@)[i as int]));
        i += 1;
    }
    assert(row_view(r@).take(i as int) =~= row_view(r@));
    out
}

// ---- text forms ----------------------------------------------------------------

/// The text of a real: an integral one below `1e15` with a trailing `.0`, any
/// other by its shortest decimal form.
pub open spec fn real_text(t: RealsV, b: u64) -> Result<Seq<char>, StopV> {
    if real_integral(b) && real_mag(b) < BIG_BITS {
        let sign = if real_neg(b) {
            seq!['-']
        } else {
            Seq::empty()
        };
        Ok(sign + nat_text(whole_part(real_mag(b), 52, 1075)) + seq!['.', '0'])
    } else {
        shown(t, AskV::Show(b))
    }
}

pub open spec fn mag32(b: u32) -> nat {
    if b >= SIGN_BIT32 {
        (b - SIGN_BIT32) as nat
    } else {
        b as nat
    }
}

/// The text of a vector component: an integral one below `1e15` as an integer,
/// any other by its shortest decimal form.
pub open spec fn component_text(t: RealsV, b: u32) -> Result<Seq<char>, StopV> {
    if mag32(b) < BIG_BITS32 && no_fraction(mag32(b), 23, 150) {
        let sign = if b >= SIGN_BIT32 {
            seq!['-']
        } else {
            Seq::empty()
        };
        Ok(sign + nat_text(whole_part(mag32(b), 23, 150)))
    } else {
        shown(t, AskV::Show32(b))
    }
}

/// The components from `i` on, comma-separated, behind `acc`.
pub open spec fn components_text(t: RealsV, v: Seq<u32>, i: int, acc: Seq<char>) -> Result<
    Seq<char>,
    StopV,
>
    decreases v.len() - i,
{
    if i >= v.len() {
        Ok(acc)
    } else {
        match component_text(t, v[i]) {
            Ok(x) => components_text(
                t,
                v,
                i + 1,
                (if i > 0 {
                    acc.push(',')
                } else {
                    acc
                }) + x,
            ),
            Err(s) => Err(s),
        }
    }
}

/// A vector as `[a,b,c]`.
pub open spec fn vector_text(t: RealsV, v: Seq<u32>) -> Result<Seq<char>, StopV> {
    match components_text(t, v, 0, seq!['[']) {
        Ok(x) => Ok(x.push(']')),
        Err(s) => Err(s),
    }
}

/// The text form of a value; `NULL` has none.
pub open spec fn rendered(t: RealsV, v: ValueV) -> Result<Option<Seq<char>>, StopV> {
    match v {
        ValueV::Null => Ok(None),
        ValueV::Int(i) => Ok(Some(int_text(i as int))),
        ValueV::Real(b) => match real_text(t, b) {
            Ok(s) => Ok(Some(s)),
            Err(e) => Err(e),
        },
        ValueV::Text(s) => Ok(Some(s)),
        ValueV::Blob(b) => Ok(Some(base64_text(b))),
        ValueV::Vector(x) => match vector_text(t, x) {
            Ok(s) => Ok(Some(s)),
            Err(e) => Err(e),
        },
    }
}

/// The text of a value for string functions: `NULL` reads as empty.
pub open spec fn text_form(t: RealsV, v: ValueV) -> Result<Seq<char>, StopV> {
    match rendered(t, v) {
        Ok(Some(s)) => Ok(s),
        Ok(None) => Ok(Seq::empty()),
        Err(e) => Err(e),
    }
}

pub open spec fn text_result(r: Result<Vec<char>, Stop>) -> Result<Seq<char>, StopV> {
    match r {
        Ok(v) => Ok(v@),
        Err(s) => Err(s@),
    }
}

pub fn format_real(reals: &Reals, b: u64) -> (r: Result<Vec<char>, Stop>)
    ensures
        text_result(r) == real_text(reals@, b),
{
    let m = mag_bits(b);
    if m < BIG_BITS && is_integral(b) {
        match whole_of(m, 52, 1075) {
            Some(n) => {
                let mut out: Vec<char> = Vec::new();
                if b >= SIGN_BIT {
                    out.push('-');
                }
                let mut digits = nat_chars(n);
                out.append(&mut digits);
                out.push('.');
                out.push('0');
                assert(out@ =~= real_text(reals@, b)->Ok_0);
                return Ok(out);
            },
            None => {
                proof {
                    crate::ieee::lemma_small_whole(b);
                }
            },
        }
    }
    match reals.show(Ask::Show(b)) {
        Ok(s) => Ok(to_chars(&s)),
        Err(e) => Err(e),
    }
}

fn format_component(reals: &Reals, b: u32) -> (r: Result<Vec<char>, Stop>)
    ensures
        text_result(r) == component_text(reals@, b),
{
    let m: u32 = if b >= SIGN_BIT32 {
        b - SIGN_BIT32
    } else {
        b
    };
    if m < BIG_BITS32 && fractionless(m as u64, 23, 150) {
        match whole_of(m as u64, 23, 150) {
            Some(n) => {
                let mut out: Vec<char> = Vec::new();
                if b >= SIGN_BIT32 {
                    out.push('-');
                }
                let mut digits = nat_chars(n);
                out.append(&mut digits);
                assert(out@ =~= component_text(reals@, b)->Ok_0);
                return Ok(out);
            },
            None => {
                proof {
                    crate::ieee::lemma_small_whole32(m);
                }
            },
        }
    }
    match reals.show(Ask::Show32(b)) {
        Ok(s) => Ok(to_chars(&s)),
        Err(e) => Err(e),
    }
}

/// Render a vector as its `[a,b,c]` literal.
pub fn format_vector(reals: &Reals, v: &[u32]) -> (r: Result<Vec<char>, Stop>)
    ensures
        text_result(r) == vector_text(reals@, v@),
{
    let mut out: Vec<char> = Vec::new();
    out.push('[');
    assert(out@ =~= seq!['[']);
    let mut i: usize = 0;
    while i < v.len()
        invariant
            i <= v.len(),
            components_text(reals@, v@, i as int, out@) == components_text(
                reals@,
                v@,
                0,
                seq!['['],
            ),
        decreases v.len() - i,
    {
        let ghost before = out@;
        match format_component(reals, v[i]) {
            Ok(mut x) => {
                if i > 0 {
                    out.push(',');
                }
                out.append(&mut x);
            },
            Err(e) => {
                return Err(e);
            },
        }
        i += 1;
    }
    out.push(']');
    Ok(out)
}

impl Value {
    pub fn is_null(&self) -> (r: bool)
        ensures
            r == (self@ is Null),
    {
        match self {
            Value::Null => true,
            _ => false,
        }
    }

    pub fn class_name(&self) -> (r: &'static str)
        ensures
            r@ == class_name(self@),
    {
        match self {
            Value::Null => "NULL",
            Value::Int(_) => "INTEGER",
            Value::Real(_) => "REAL",
            Value::Text(_) => "TEXT",
            Value::Blob(_) => "BLOB",
            Value::Vector(_) => "VECTOR",
        }
    }

    /// The text form of a value, `None` for `NULL`.
    pub fn render(&self, reals: &Reals) -> (r: Result<Option<Vec<char>>, Stop>)
        ensures
            match r {
                Ok(Some(s)) => rendered(reals@, self@) == Ok::<Option<Seq<char>>, StopV>(
                    Some(s@),
                ),
                Ok(None) => rendered(reals@, self@) == Ok::<Option<Seq<char>>, StopV>(None),
                Err(e) => rendered(reals@, self@) == Err::<Option<Seq<char>>, StopV>(e@),
            },
    {
        match self {
            Value::Null => Ok(None),
            Value::Int(i) => Ok(Some(int_chars(*i))),
            Value::Real(b) => match format_real(reals, *b) {
                Ok(s) => Ok(Some(s)),
                Err(e) => Err(e),
            },
            Value::Text(s) => Ok(Some(to_chars(s))),
            Value::Blob(b) => {
                let s = base64_encode(b);
                Ok(Some(to_chars(&s)))
            },
            Value::Vector(v) => match format_vector(reals, v) {
                Ok(s) => Ok(Some(s)),
                Err(e) => Err(e),
            },
        }
    }

    /// The text of a value, with `NULL` read as empty.
    pub fn text_of(&self, reals: &Reals) -> (r: Result<Vec<char>, Stop>)
        ensures
            text_result(r) == text_form(reals@, self@),
    {
        match self.render(reals) {
            Ok(Some(s)) => Ok(s),
            Ok(None) => {
                let v: Vec<char> = Vec::new();
                assert(v@ =~= Seq::<char>::empty());
                Ok(v)
            },
            Err(e) => Err(e),
        }
    }
}

pub open spec fn class_name(v: ValueV) -> Seq<char> {
    match v {
        ValueV::Null => "NULL"@,
        ValueV::Int(_) => "INTEGER"@,
        ValueV::Real(_) => "REAL"@,
        ValueV::Text(_) => "TEXT"@,
        ValueV::Blob(_) => "BLOB"@,
        ValueV::Vector(_) => "VECTOR"@,
    }
}

// ---- truth, comparison, equality -------------------------------------------------

/// Truth under three-valued logic: `None` is unknown.
pub open spec fn truth(v: ValueV) -> Option<bool> {
    match v {
        ValueV::Null => None,
        ValueV::Int(i) => Some(i != 0),
        ValueV::Real(b) => Some(real_mag(b) != 0),
        ValueV::Text(s) => Some(s.len() > 0 && s != "0"@),
        ValueV::Blob(b) => Some(b.len() > 0),
        ValueV::Vector(x) => Some(x.len() > 0),
    }
}

/// Lexicographic order.
pub open spec fn codes_order(a: Seq<u32>, b: Seq<u32>) -> Order
    decreases a.len(),
{
    if a.len() == 0 && b.len() == 0 {
        Order::Equal
    } else if a.len() == 0 {
        Order::Less
    } else if b.len() == 0 {
        Order::Greater
    } else if a[0] < b[0] {
        Order::Less
    } else if a[0] > b[0] {
        Order::Greater
    } else {
        codes_order(a.drop_first(), b.drop_first())
    }
}

pub open spec fn char_codes(s: Seq<char>) -> Seq<u32> {
    Seq::new(s.len(), |i: int| s[i] as u32)
}

pub open spec fn byte_codes(s: Seq<u8>) -> Seq<u32> {
    Seq::new(s.len(), |i: int| s[i] as u32)
}

/// The number a value is, as the bits of a double.
pub open spec fn numeric(v: ValueV) -> Option<u64> {
    match v {
        ValueV::Int(i) => Some(real_of_int(i)),
        ValueV::Real(b) => Some(b),
        _ => None,
    }
}

/// SQL comparison: numbers as doubles, texts and blobs lexicographically,
/// anything else (and `NULL`) unknown.
pub open spec fn value_order(a: ValueV, b: ValueV) -> Option<Order> {
    match (numeric(a), numeric(b)) {
        (Some(x), Some(y)) => real_order(x, y),
        _ => match (a, b) {
            (ValueV::Text(x), ValueV::Text(y)) => Some(codes_order(char_codes(x), char_codes(y))),
            (ValueV::Blob(x), ValueV::Blob(y)) => Some(codes_order(byte_codes(x), byte_codes(y))),
            _ => None,
        },
    }
}

/// SQL equality: unknown with a `NULL`, false for what cannot be compared.
pub open spec fn value_eq(a: ValueV, b: ValueV) -> Option<bool> {
    if a is Null || b is Null {
        None
    } else {
        Some(value_order(a, b) == Some(Order::Equal))
    }
}

fn codes_of_text(s: &str) -> (r: Vec<u32>)
    ensures
        r@ == char_codes(s@),
{
    let cs = to_chars(s);
    let mut out: Vec<u32> = Vec::new();
    let mut i: usize = 0;
    while i < cs.len()
        invariant
            i <= cs.len(),
            cs@ == s@,
            out@ == char_codes(s@).take(i as int),
        decreases cs.len() - i,
    {
        out.push(cs[i] as u32);
        assert(out@ =~= char_codes(s@).take(i + 1));
        i += 1;
    }
    assert(char_codes(s@).take(i as int) =~= char_codes(s@));
    out
}

fn codes_of_bytes(s: &[u8]) -> (r: Vec<u32>)
    ensures
        r@ == byte_codes(s@),
{
    let mut out: Vec<u32> = Vec::new();
    let mut i: usize = 0;
    while i < s.len()
        invariant
            i <= s.len(),
            out@ == byte_codes(s@).take(i as int),
        decreases s.len() - i,
    {
        out.push(s[i] as u32);
        assert(out@ =~= byte_codes(s@).take(i + 1));
        i += 1;
    }
    assert(byte_codes(s@).take(i as int) =~= byte_codes(s@));
    out
}

fn compare_codes(a: &[u32], b: &[u32]) -> (r: Order)
    ensures
        r == codes_order(a@, b@),
{
    let mut i: usize = 0;
    assert(a@.skip(0) =~= a@ && b@.skip(0) =~= b@);
    while i < a.len() && i < b.len()
        invariant
            i <= a.len(),
            i <= b.len(),
            codes_order(a@.skip(i as int), b@.skip(i as int)) == codes_order(a@, b@),
        decreases a.len() - i,
    {
        assert(a@.skip(i as int).drop_first() =~= a@.skip(i + 1));
        assert(b@.skip(i as int).drop_first() =~= b@.skip(i + 1));
        if a[i] < b[i] {
            return Order::Less;
        }
        if a[i] > b[i] {
            return Order::Greater;
        }
        i += 1;
    }
    if i < b.len() {
        Order::Less
    } else if i < a.len() {
        Order::Greater
    } else {
        Order::Equal
    }
}

impl Value {
    /// Truth under three-valued logic: `None` is unknown.
    pub fn as_bool(&self) -> (r: Option<bool>)
        ensures
            r == truth(self@),
    {
        match self {
            Value::Null => None,
            Value::Int(i) => Some(*i != 0),
            Value::Real(b) => Some(mag_bits(*b) != 0),
            Value::Text(s) => {
                let cs = to_chars(s);
                Some(cs.len() > 0 && !spells(&cs, "0"))
            },
            Value::Blob(b) => Some(b.len() > 0),
            Value::Vector(v) => Some(v.len() > 0),
        }
    }

    /// The vector payload, if this value is a vector.
    pub fn as_vector(&self) -> (r: Option<&[u32]>)
        ensures
            match r {
                Some(x) => self@ == ValueV::Vector(x@),
                None => !(self@ is Vector),
            },
    {
        match self {
            Value::Vector(v) => Some(v.as_slice()),
            _ => None,
        }
    }

    fn numeric(&self) -> (r: Option<u64>)
        ensures
            r == numeric(self@),
    {
        match self {
            Value::Int(i) => Some(int_to_real(*i)),
            Value::Real(b) => Some(*b),
            _ => None,
        }
    }

    /// SQL comparison; `None` when the outcome is unknown.
    pub fn compare(&self, other: &Value) -> (r: Option<Order>)
        ensures
            r == value_order(self@, other@),
    {
        match (self.numeric(), other.numeric()) {
            (Some(a), Some(b)) => {
                return compare_reals(a, b);
            },
            _ => {},
        }
        match (self, other) {
            (Value::Text(a), Value::Text(b)) => {
                let x = codes_of_text(a);
                let y = codes_of_text(b);
                Some(compare_codes(&x, &y))
            },
            (Value::Blob(a), Value::Blob(b)) => {
                let x = codes_of_bytes(a);
                let y = codes_of_bytes(b);
                Some(compare_codes(&x, &y))
            },
            _ => None,
        }
    }

    /// SQL equality, three-valued.
    pub fn sql_eq(&self, other: &Value) -> (r: Option<bool>)
        ensures
            r == value_eq(self@, other@),
    {
        if self.is_null() || other.is_null() {
            return None;
        }
        match self.compare(other) {
            Some(o) => Some(o == Order::Equal),
            None => Some(false),
        }
    }

    /// SQL comparison as a standard ordering.
    pub fn sql_cmp(&self, other: &Value) -> (r: Option<std::cmp::Ordering>)
        ensures
            match value_order(self@, other@) {
                None => r is None,
                Some(Order::Less) => r == Some(std::cmp::Ordering::Less),
                Some(Order::Equal) => r == Some(std::cmp::Ordering::Equal),
                Some(Order::Greater) => r == Some(std::cmp::Ordering::Greater),
            },
    {
        match self.compare(other) {
            None => None,
            Some(Order::Less) => Some(std::cmp::Ordering::Less),
            Some(Order::Equal) => Some(std::cmp::Ordering::Equal),
            Some(Order::Greater) => Some(std::cmp::Ordering::Greater),
        }
    }
}

// ---- column types ------------------------------------------------------------------

/// Declared column storage class; a vector column carries its dimension.
#[derive(Clone, Copy, Debug, PartialEq, Eq, Structural)]
pub enum ColumnType {
    Integer,
    Real,
    Text,
    Blob,
    Vector(u32),
}

/// The storage class an (upper-cased) declared type name stands for.
pub open spec fn affinity(n: Seq<char>) -> ColumnType {
    if contains_text(n, "INT"@) {
        ColumnType::Integer
    } else if contains_text(n, "CHAR"@) || contains_text(n, "TEXT"@) || contains_text(n, "CLOB"@)
        || contains_text(n, "STRING"@) {
        ColumnType::Text
    } else if contains_text(n, "VEC"@) {
        ColumnType::Vector(0)
    } else if contains_text(n, "REAL"@) || contains_text(n, "FLOA"@) || contains_text(n, "DOUB"@)
        || contains_text(n, "NUMERIC"@) || contains_text(n, "DEC"@) {
        ColumnType::Real
    } else if contains_text(n, "BLOB"@) || contains_text(n, "BYTEA"@) {
        ColumnType::Blob
    } else {
        ColumnType::Text
    }
}

impl ColumnType {
    /// The storage class of a declared type; a vector's dimension is filled in
    /// by the parser.
    pub fn from_sql(name: &str) -> (r: ColumnType)
        ensures
            r == affinity(upper_text(name@)),
    {
        let n = upper_chars(name);
        if has_text(&n, "INT") {
            ColumnType::Integer
        } else if has_text(&n, "CHAR") || has_text(&n, "TEXT") || has_text(&n, "CLOB") || has_text(
            &n,
            "STRING",
        ) {
            ColumnType::Text
        } else if has_text(&n, "VEC") {
            ColumnType::Vector(0)
        } else if has_text(&n, "REAL") || has_text(&n, "FLOA") || has_text(&n, "DOUB") || has_text(
            &n,
            "NUMERIC",
        ) || has_text(&n, "DEC") {
            ColumnType::Real
        } else if has_text(&n, "BLOB") || has_text(&n, "BYTEA") {
            ColumnType::Blob
        } else {
            ColumnType::Text
        }
    }

    pub fn is_vector(self) -> (r: bool)
        ensures
            r == (self is Vector),
    {
        match self {
            ColumnType::Vector(_) => true,
            _ => false,
        }
    }

    pub open spec fn spec_tag(self) -> u8 {
        match self {
            ColumnType::Integer => 0,
            ColumnType::Real => 1,
            ColumnType::Text => 2,
            ColumnType::Blob => 3,
            ColumnType::Vector(_) => 4,
        }
    }

    pub fn tag(self) -> (r: u8)
        ensures
            r == self.spec_tag(),
    {
        match self {
            ColumnType::Integer => 0,
            ColumnType::Real => 1,
            ColumnType::Text => 2,
            ColumnType::Blob => 3,
            ColumnType::Vector(_) => 4,
        }
    }

    pub open spec fn of_tag(t: u8) -> ColumnType {
        if t == 0 {
            ColumnType::Integer
        } else if t == 1 {
            ColumnType::Real
        } else if t == 3 {
            ColumnType::Blob
        } else if t == 4 {
            ColumnType::Vector(0)
        } else {
            ColumnType::Text
        }
    }

    /// The class of a tag; an unknown tag reads as text, and a vector's dimension
    /// is stored beside its tag.
    pub fn from_tag(t: u8) -> (r: ColumnType)
        ensures
            r == ColumnType::of_tag(t),
    {
        if t == 0 {
            ColumnType::Integer
        } else if t == 1 {
            ColumnType::Real
        } else if t == 3 {
            ColumnType::Blob
        } else if t == 4 {
            ColumnType::Vector(0)
        } else {
            ColumnType::Text
        }
    }
}

/// A column type comes back from its tag, up to a vector's dimension.
pub proof fn law_column_tag_round_trip(t: ColumnType)
    ensures
        ColumnType::of_tag(t.spec_tag()) == (match t {
            ColumnType::Vector(_) => ColumnType::Vector(0),
            other => other,
        }),
{
}

// ---- vector literals and coercion ---------------------------------------------------

/// Characters that separate vector components.
pub open spec fn separates(c: char) -> bool {
    c == ',' || c == ' ' || c == '\t'
}

/// The non-empty fields of `s` from `i` on, `cur` being the field under way.
pub open spec fn fields_from(s: Seq<char>, i: int, cur: Seq<char>, acc: Seq<Seq<char>>) -> Seq<
    Seq<char>,
>
    decreases s.len() - i,
{
    let flushed = if cur.len() > 0 {
        acc.push(cur)
    } else {
        acc
    };
    if i >= s.len() {
        flushed
    } else if separates(s[i]) {
        fields_from(s, i + 1, Seq::empty(), flushed)
    } else {
        fields_from(s, i + 1, cur.push(s[i]), acc)
    }
}

/// The body of a vector literal: trimmed, with its brackets taken off.
pub open spec fn vector_body(s: Seq<char>) -> Seq<char> {
    let t = trimmed(s);
    let inner = if t.len() > 0 && t[0] == '[' {
        let r = t.drop_first();
        if r.len() > 0 && r.last() == ']' {
            r.drop_last()
        } else {
            r
        }
    } else {
        t
    };
    trimmed(inner)
}

pub open spec fn finite32(b: u32) -> bool {
    mag32(b) < INF_BITS32
}

/// The components that fields from `i` on denote, behind `acc`; `None` as soon
/// as one is not a finite number.
pub open spec fn components_of(t: RealsV, f: Seq<Seq<char>>, i: int, acc: Seq<u32>) -> Result<
    Option<Seq<u32>>,
    StopV,
>
    decreases f.len() - i,
{
    if i >= f.len() {
        Ok(Some(acc))
    } else {
        match number32_of(t, trimmed(f[i])) {
            Ok(Some(b)) => if finite32(b) {
                components_of(t, f, i + 1, acc.push(b))
            } else {
                Ok(None)
            },
            Ok(None) => Ok(None),
            Err(e) => Err(e),
        }
    }
}

/// The vector a literal denotes: `[1, 2, 3]`, `1,2,3` or blank-separated.
pub open spec fn vector_of_text(t: RealsV, s: Seq<char>) -> Result<Option<Seq<u32>>, StopV> {
    let body = vector_body(s);
    if body.len() == 0 {
        Ok(Some(Seq::empty()))
    } else {
        components_of(t, fields_from(body, 0, Seq::empty(), Seq::empty()), 0, Seq::empty())
    }
}

pub open spec fn texts_view(v: Seq<Vec<char>>) -> Seq<Seq<char>> {
    Seq::new(v.len(), |i: int| v[i]@)
}

fn split_fields(s: &[char]) -> (r: Vec<Vec<char>>)
    ensures
        texts_view(r@) == fields_from(s@, 0, Seq::empty(), Seq::empty()),
{
    let mut out: Vec<Vec<char>> = Vec::new();
    let mut cur: Vec<char> = Vec::new();
    let mut i: usize = 0;
    assert(texts_view(out@) =~= Seq::<Seq<char>>::empty());
    assert(cur@ =~= Seq::<char>::empty());
    while i < s.len()
        invariant
            i <= s.len(),
            fields_from(s@, i as int, cur@, texts_view(out@)) == fields_from(
                s@,
                0,
                Seq::empty(),
                Seq::empty(),
            ),
        decreases s.len() - i,
    {
        let c = s[i];
        if c == ',' || c == ' ' || c == '\t' {
            if cur.len() > 0 {
                let ghost before = texts_view(out@);
                let ghost field = cur@;
                out.push(cur);
                assert(texts_view(out@) =~= before.push(field));
            }
            cur = Vec::new();
            assert(cur@ =~= Seq::<char>::empty());
        } else {
            cur.push(c);
        }
        i += 1;
    }
    if cur.len() > 0 {
        let ghost before = texts_view(out@);
        let ghost field = cur@;
        out.push(cur);
        assert(texts_view(out@) =~= before.push(field));
    }
    out
}

pub open spec fn vector_result(r: Result<Option<Vec<u32>>, Stop>) -> Result<
    Option<Seq<u32>>,
    StopV,
> {
    match r {
        Ok(Some(v)) => Ok(Some(v@)),
        Ok(None) => Ok(None),
        Err(e) => Err(e@),
    }
}

/// Parse a vector literal; `None` when a component is not a finite number.
pub fn parse_vector(reals: &Reals, s: &str) -> (r: Result<Option<Vec<u32>>, Stop>)
    ensures
        vector_result(r) == vector_of_text(reals@, s@),
{
    let cs = to_chars(s);
    let t = trim_chars(&cs);
    let mut from: usize = 0;
    let mut to: usize = t.len();
    if to > 0 && t[0] == '[' {
        from = 1;
        if to > 1 && t[to - 1] == ']' {
            to -= 1;
        }
    }
    let inner = crate::text::slice_chars(&t, from, to);
    proof {
        let tv = t@;
        if tv.len() > 0 && tv[0] == '[' {
            let r = tv.drop_first();
            if r.len() > 0 && r.last() == ']' {
                assert(inner@ =~= r.drop_last());
            } else {
                assert(inner@ =~= r);
            }
        } else {
            assert(inner@ =~= tv);
        }
    }
    let body = trim_chars(&inner);
    let mut out: Vec<u32> = Vec::new();
    assert(out@ =~= Seq::<u32>::empty());
    if body.len() == 0 {
        return Ok(Some(out));
    }
    let fields = split_fields(&body);
    let ghost fv = texts_view(fields@);
    let mut i: usize = 0;
    while i < fields.len()
        invariant
            i <= fields.len(),
            fv == texts_view(fields@),
            components_of(reals@, fv, i as int, out@) == vector_of_text(reals@, s@),
        decreases fields.len() - i,
    {
        let f = trim_chars(&fields[i]);
        assert(fv[i as int] == fields@[i as int]@);
        match reals.number32(&f) {
            Ok(Some(b)) => {
                let m: u32 = if b >= SIGN_BIT32 {
                    b - SIGN_BIT32
                } else {
                    b
                };
                if m >= INF_BITS32 {
                    return Ok(None);
                }
                out.push(b);
            },
            Ok(None) => {
                return Ok(None);
            },
            Err(e) => {
                return Err(e);
            },
        }
        i += 1;
    }
    Ok(Some(out))
}

/// Light type affinity: towards the column's class where that is lossless. A number
/// goes over where the same number is there on the other side.
pub open spec fn coerced(t: RealsV, ty: ColumnType, v: ValueV) -> Result<ValueV, StopV> {
    match (ty, v) {
        (ColumnType::Real, ValueV::Int(i)) => if exact_int(real_of_int(i)) == Some(i) {
            Ok(ValueV::Real(real_of_int(i)))
        } else {
            Ok(v)
        },
        (ColumnType::Integer, ValueV::Real(b)) => match exact_int(b) {
            Some(n) => Ok(ValueV::Int(n)),
            None => Ok(v),
        },
        (ColumnType::Vector(_), ValueV::Text(s)) => match vector_of_text(t, s) {
            Ok(Some(x)) => Ok(ValueV::Vector(x)),
            Ok(None) => Ok(v),
            Err(e) => Err(e),
        },
        _ => Ok(v),
    }
}

pub open spec fn value_result(r: Result<Value, Stop>) -> Result<ValueV, StopV> {
    match r {
        Ok(v) => Ok(v@),
        Err(e) => Err(e@),
    }
}

impl ColumnType {
    /// Coerce a value towards the column's class where that is lossless, else
    /// leave it alone.
    pub fn coerce(self, reals: &Reals, v: Value) -> (r: Result<Value, Stop>)
        ensures
            value_result(r) == coerced(reals@, self, v@),
    {
        match (self, v) {
            (ColumnType::Real, Value::Int(i)) => {
                let b = int_to_real(i);
                match as_exact_int(b) {
                    Some(n) => if n == i {
                        Ok(Value::Real(b))
                    } else {
                        Ok(Value::Int(i))
                    },
                    None => Ok(Value::Int(i)),
                }
            },
            (ColumnType::Integer, Value::Real(b)) => match as_exact_int(b) {
                Some(n) => Ok(Value::Int(n)),
                None => Ok(Value::Real(b)),
            },
            (ColumnType::Vector(_), Value::Text(s)) => match parse_vector(reals, &s) {
                Ok(Some(x)) => Ok(Value::Vector(x)),
                Ok(None) => Ok(Value::Text(s)),
                Err(e) => Err(e),
            },
            (_, other) => Ok(other),
        }
    }
}

/// No coercion loses a number: what is stored is the value itself, the same number in
/// the other class, or a vector that the text spells.
pub proof fn law_coercion_is_lossless(t: RealsV, ty: ColumnType, v: ValueV)
    requires
        coerced(t, ty, v) is Ok,
    ensures
        match (v, coerced(t, ty, v)->Ok_0) {
            (ValueV::Int(i), ValueV::Real(b)) => exact_int(b) == Some(i),
            (ValueV::Real(b), ValueV::Int(i)) => exact_int(b) == Some(i),
            (ValueV::Text(s), ValueV::Vector(x)) => vector_of_text(t, s) == Ok::<
                Option<Seq<u32>>,
                StopV,
            >(Some(x)),
            (_, w) => w == v,
        },
{
}

} // verus!
