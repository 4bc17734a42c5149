//! What the scalar functions are for.
use vstd::prelude::*;
use crate::asks::{RealsV, StopV};
use crate::datetime::{
    clock, day_number, law_civil_inverse, unit_start, valid_date, weekday, yearday, TimeUnit,
};
use crate::env::EnvV;
use crate::funcs::{
    applied, as_number, extreme_from, first_known, law_quotient_remainder, mod_call, quotient,
    remainder, side, substring, Func,
};
use crate::ieee::{
    law_integers_keep_their_order, law_small_integers_are_exact, lemma_zero, real_mag, real_of_int,
    real_to_int, Order,
};
use crate::json::{element, key_end, member, member_from, value_at_path, walk, JsonV};
use crate::strfn::{copies, hex_text, occurrence, padded, replaced, replaced_from, reversed};
use crate::text::{
    is_space, lower_char, lower_text, occurs_at, same_name, trim_left, trim_right, upper_char,
};
use crate::value::{truth, value_order, RowV, ValueV};

verus! {

// ---- NULLs and choices ----------------------------------------------------------------------------

/// `COALESCE` gives the first argument that is not `NULL`, or `NULL` if there is none.
pub proof fn law_coalesce(env: EnvV, tick: u64, args: RowV)
    ensures
        applied(env, tick, Func::Coalesce, args) matches Ok(v) && (if exists|k: int|
            0 <= k < args.len() && !((#[trigger] args[k]) is Null) {
            !(v is Null) && is_first_known(args, v)
        } else {
            v is Null
        }),
{
    reveal(applied);
    lemma_first_known(args, 0);
}

/// Whether a value is that of an argument with only `NULL`s before it.
pub open spec fn is_first_known(args: RowV, v: ValueV) -> bool {
    exists|k: int|
        0 <= k < args.len() && (#[trigger] args[k]) == v && forall|m: int|
            0 <= m < k ==> (#[trigger] args[m]) is Null
}

proof fn lemma_first_known(args: RowV, i: int)
    requires
        0 <= i <= args.len(),
        forall|m: int| 0 <= m < i ==> (#[trigger] args[m]) is Null,
    ensures
        (exists|k: int| 0 <= k < args.len() && !((#[trigger] args[k]) is Null)) ==> !(first_known(
            args,
            i,
        ) is Null) && is_first_known(args, first_known(args, i)),
        (forall|k: int| 0 <= k < args.len() ==> (#[trigger] args[k]) is Null) ==> first_known(
            args,
            i,
        ) is Null,
    decreases args.len() - i,
{
    if i < args.len() && args[i] is Null {
        lemma_first_known(args, i + 1);
    }
}

/// `IFNULL` gives its second argument for a first that is `NULL`. `IIF` chooses by whether
/// a condition is true; one that is unknown counts as false.
pub proof fn law_choices(env: EnvV, tick: u64, a: ValueV, b: ValueV, c: ValueV)
    ensures
        applied(env, tick, Func::Ifnull, seq![a, b]) == Ok::<ValueV, StopV>(
            if a is Null {
                b
            } else {
                a
            },
        ),
        applied(env, tick, Func::Iif, seq![a, b, c]) == Ok::<ValueV, StopV>(
            if truth(a) == Some(true) {
                b
            } else {
                c
            },
        ),
        applied(env, tick, Func::Coalesce, seq![a, b]) == applied(
            env,
            tick,
            Func::Ifnull,
            seq![a, b],
        ),
{
    reveal(applied);
    reveal_with_fuel(first_known, 3);
}

/// `NULLIF` gives `NULL` for two equal integers or texts, and else its first argument.
pub proof fn law_nullif(env: EnvV, tick: u64, a: i64, b: i64, v: ValueV)
    requires
        -0x20_0000_0000_0000 < a < 0x20_0000_0000_0000,
        -0x20_0000_0000_0000 < b < 0x20_0000_0000_0000,
    ensures
        applied(env, tick, Func::Nullif, seq![ValueV::Int(a), ValueV::Int(b)]) == Ok::<
            ValueV,
            StopV,
        >(
            if a == b {
                ValueV::Null
            } else {
                ValueV::Int(a)
            },
        ),
        applied(env, tick, Func::Nullif, seq![v, ValueV::Null]) == Ok::<ValueV, StopV>(v),
{
    reveal(applied);
    law_integers_keep_their_order(a, b);
}

/// `NULL`, or an integer that is small enough to be told from its neighbours.
pub open spec fn small(v: ValueV) -> bool {
    match v {
        ValueV::Int(i) => -0x20_0000_0000_0000 < i < 0x20_0000_0000_0000,
        ValueV::Null => true,
        _ => false,
    }
}

/// Whether a value is the largest, or else the smallest, of the first `n` that are known.
pub open spec fn is_extreme(args: RowV, n: int, largest: bool, v: ValueV) -> bool {
    if forall|k: int| 0 <= k < n ==> (#[trigger] args[k]) is Null {
        v is Null
    } else {
        &&& v is Int
        &&& exists|k: int| 0 <= k < n && #[trigger] args[k] == v
        &&& forall|k: int|
            0 <= k < n && (#[trigger] args[k]) is Int ==> (if largest {
                args[k]->Int_0 <= v->Int_0
            } else {
                args[k]->Int_0 >= v->Int_0
            })
    }
}

proof fn lemma_extreme(args: RowV, largest: bool, i: int, best: ValueV)
    requires
        0 <= i <= args.len(),
        forall|k: int| 0 <= k < args.len() ==> small(#[trigger] args[k]),
        is_extreme(args, i, largest, best),
        small(best),
    ensures
        is_extreme(
            args,
            args.len() as int,
            largest,
            extreme_from(
                args,
                if largest {
                    Order::Greater
                } else {
                    Order::Less
                },
                i,
                best,
            ),
        ),
    decreases args.len() - i,
{
    let want = if largest {
        Order::Greater
    } else {
        Order::Less
    };
    if i < args.len() {
        assert(small(args[i]));
        if args[i] is Null {
            assert(is_extreme(args, i + 1, largest, best)) by {
                if !(best is Null) {
                    let k = choose|k: int| 0 <= k < i && #[trigger] args[k] == best;
                    assert(args[k] == best);
                }
            }
            lemma_extreme(args, largest, i + 1, best);
        } else if best is Null {
            assert(is_extreme(args, i + 1, largest, args[i])) by {
                assert forall|k: int| 0 <= k < i + 1 && (#[trigger] args[k]) is Int implies args[k]
                    == args[i] by {
                    if k < i {
                        assert(args[k] is Null);
                    }
                }
            }
            lemma_extreme(args, largest, i + 1, args[i]);
        } else {
            law_integers_keep_their_order(best->Int_0, args[i]->Int_0);
            let next = if value_order(best, args[i]) != Some(want) {
                args[i]
            } else {
                best
            };
            assert(is_extreme(args, i + 1, largest, next)) by {
                let k = choose|k: int| 0 <= k < i && #[trigger] args[k] == best;
                assert(args[k] == best);
                assert(!(args[i] is Null));
            }
            lemma_extreme(args, largest, i + 1, next);
        }
    }
}

/// `GREATEST` and `LEAST` of integers give the largest and the smallest; `NULL`s are
/// passed over.
pub proof fn law_greatest_and_least(env: EnvV, tick: u64, args: RowV)
    requires
        forall|k: int| 0 <= k < args.len() ==> small(#[trigger] args[k]),
    ensures
        applied(env, tick, Func::Greatest, args) matches Ok(v) && is_extreme(
            args,
            args.len() as int,
            true,
            v,
        ),
        applied(env, tick, Func::Least, args) matches Ok(v) && is_extreme(
            args,
            args.len() as int,
            false,
            v,
        ),
{
    reveal(applied);
    lemma_extreme(args, true, 0, ValueV::Null);
    lemma_extreme(args, false, 0, ValueV::Null);
}

// ---- numbers --------------------------------------------------------------------------------------

proof fn lemma_small_number(t: RealsV, i: i64)
    requires
        -0x20_0000_0000_0000 < i < 0x20_0000_0000_0000,
    ensures
        as_number(t, ValueV::Int(i)) == Ok::<Option<u64>, StopV>(Some(real_of_int(i))),
        real_to_int(real_of_int(i)) == i,
{
    law_small_integers_are_exact(i);
}

/// `ABS` gives the size of a number, and `ROUND` leaves an integer as it is.
pub proof fn law_abs_and_round(env: EnvV, tick: u64, i: i64)
    requires
        i > i64::MIN,
    ensures
        applied(env, tick, Func::Abs, seq![ValueV::Int(i)]) matches Ok(ValueV::Int(n)) && n >= 0
            && (n == i || n == -i),
        applied(env, tick, Func::Round, seq![ValueV::Int(i)]) == Ok::<ValueV, StopV>(
            ValueV::Int(i),
        ),
        applied(env, tick, Func::Abs, seq![ValueV::Null]) == Ok::<ValueV, StopV>(ValueV::Null),
        applied(env, tick, Func::Round, seq![ValueV::Null]) == Ok::<ValueV, StopV>(ValueV::Null),
{
    reveal(applied);
}

/// `SIGN` tells on which side of zero an integer is.
pub proof fn law_sign(env: EnvV, tick: u64, i: i64)
    requires
        -0x20_0000_0000_0000 < i < 0x20_0000_0000_0000,
    ensures
        applied(env, tick, Func::Sign, seq![ValueV::Int(i)]) == Ok::<ValueV, StopV>(
            ValueV::Int(
                if i < 0 {
                    -1i64
                } else if i > 0 {
                    1
                } else {
                    0
                },
            ),
        ),
{
    reveal(applied);
    law_integers_keep_their_order(i, 0);
}

/// `MOD` gives what is left of a division that rounds towards zero; by zero it is `NULL`.
pub proof fn law_mod(env: EnvV, tick: u64, a: i64, b: i64)
    requires
        -0x20_0000_0000_0000 < a < 0x20_0000_0000_0000,
        -0x20_0000_0000_0000 < b < 0x20_0000_0000_0000,
        b != 0,
    ensures
        applied(env, tick, Func::Mod, seq![ValueV::Int(a), ValueV::Int(b)]) matches Ok(
            ValueV::Int(r),
        ) && (exists|q: int| #[trigger] (q * b) + r == a) && (if b < 0 {
            b < r && r < -b
        } else {
            -b < r && r < b
        }) && (a >= 0 ==> r >= 0) && (a <= 0 ==> r <= 0),
{
    lemma_mod(env.reals, a, b);
    reveal(applied);
}

proof fn lemma_mod(t: RealsV, a: i64, b: i64)
    requires
        -0x20_0000_0000_0000 < a < 0x20_0000_0000_0000,
        -0x20_0000_0000_0000 < b < 0x20_0000_0000_0000,
        b != 0,
    ensures
        mod_call(t, seq![ValueV::Int(a), ValueV::Int(b)]) matches Ok(ValueV::Int(r)) && (exists|q: int|
            #[trigger] (q * b) + r == a) && (if b < 0 {
            b < r && r < -b
        } else {
            -b < r && r < b
        }) && (a >= 0 ==> r >= 0) && (a <= 0 ==> r <= 0),
{
    lemma_small_number(t, a);
    lemma_small_number(t, b);
    law_small_integers_are_exact(b);
    lemma_zero();
    assert(real_mag(real_of_int(b)) != 0);
    law_quotient_remainder(a as int, b as int);
    let q = quotient(a as int, b as int);
    let r = remainder(a as int, b as int);
    assert((q * b) + r == a);
    assert(mod_call(t, seq![ValueV::Int(a), ValueV::Int(b)]) == Ok::<ValueV, StopV>(
        ValueV::Int(r as i64),
    ));
}

// ---- texts ----------------------------------------------------------------------------------------

/// `LENGTH` counts characters.
pub proof fn law_length(env: EnvV, tick: u64, s: Seq<char>)
    ensures
        applied(env, tick, Func::Length, seq![ValueV::Text(s)]) == Ok::<ValueV, StopV>(
            ValueV::Int(s.len() as i64),
        ),
        applied(env, tick, Func::Length, seq![ValueV::Null]) == Ok::<ValueV, StopV>(ValueV::Null),
{
    reveal(applied);
}

/// `CONCAT` puts texts one behind the other; `NULL`s add nothing.
pub proof fn law_concat(env: EnvV, tick: u64, a: Seq<char>, b: Seq<char>)
    ensures
        applied(env, tick, Func::Concat, seq![ValueV::Text(a), ValueV::Text(b)]) == Ok::<
            ValueV,
            StopV,
        >(ValueV::Text(a + b)),
        applied(env, tick, Func::Concat, seq![ValueV::Text(a), ValueV::Null, ValueV::Text(b)])
            == Ok::<ValueV, StopV>(ValueV::Text(a + b)),
{
    reveal(applied);
    reveal_with_fuel(crate::funcs::joined_from, 4);
    assert(Seq::<char>::empty() + a + b =~= a + b);
}

/// `SUBSTR` from a place counted from one takes as many characters as are asked for and
/// there are; a place below zero is counted from the end.
pub proof fn law_substr(env: EnvV, tick: u64, s: Seq<char>, i: i64, k: i64)
    requires
        s.len() < 0x10_0000_0000_0000,
        1 <= i <= s.len(),
        0 <= k < 0x10_0000_0000_0000,
    ensures
        ({
            let n = s.len();
            let end = if i - 1 + k < n {
                i - 1 + k
            } else {
                n as int
            };
            let text = ValueV::Text(s);
            let back = ValueV::Int((i - 1 - n) as i64);
            &&& applied(env, tick, Func::Substr, seq![text, ValueV::Int(i)]) == Ok::<ValueV, StopV>(
                ValueV::Text(s.skip(i - 1)),
            )
            &&& applied(env, tick, Func::Substr, seq![text, ValueV::Int(i), ValueV::Int(k)]) == Ok::<
                ValueV,
                StopV,
            >(ValueV::Text(s.subrange(i - 1, end)))
            &&& applied(env, tick, Func::Substr, seq![text, back]) == Ok::<ValueV, StopV>(
                ValueV::Text(s.skip(i - 1)),
            )
            &&& applied(env, tick, Func::Substr, seq![text, back, ValueV::Int(k)]) == Ok::<
                ValueV,
                StopV,
            >(ValueV::Text(s.subrange(i - 1, end)))
        }),
{
    let n = s.len();
    let b = (i - 1 - n) as i64;
    let end = if i - 1 + k < n {
        i - 1 + k
    } else {
        n as int
    };
    lemma_substr(env, tick, s, i, k);
    lemma_substr(env, tick, s, b, k);
    assert(substring(s, i as int, None) =~= s.skip(i - 1));
    assert(substring(s, b as int, None) =~= s.skip(i - 1));
    assert(substring(s, i as int, Some(k as int)) =~= s.subrange(i - 1, end));
    assert(substring(s, b as int, Some(k as int)) =~= s.subrange(i - 1, end));
}

proof fn lemma_substr(env: EnvV, tick: u64, s: Seq<char>, i: i64, k: i64)
    requires
        -0x20_0000_0000_0000 < i < 0x20_0000_0000_0000,
        -0x20_0000_0000_0000 < k < 0x20_0000_0000_0000,
    ensures
        applied(env, tick, Func::Substr, seq![ValueV::Text(s), ValueV::Int(i)]) == Ok::<
            ValueV,
            StopV,
        >(ValueV::Text(substring(s, i as int, None))),
        applied(env, tick, Func::Substr, seq![ValueV::Text(s), ValueV::Int(i), ValueV::Int(k)])
            == Ok::<ValueV, StopV>(ValueV::Text(substring(s, i as int, Some(k as int)))),
{
    reveal(applied);
    lemma_small_number(env.reals, i);
    lemma_small_number(env.reals, k);
}

/// `LEFT` and `RIGHT` take so many characters from an end, all of them where there are no
/// more; a count below zero leaves so many out at the other end.
pub proof fn law_left_and_right(env: EnvV, tick: u64, s: Seq<char>, k: i64)
    requires
        s.len() < 0x10_0000_0000_0000,
        0 <= k <= s.len(),
    ensures
        ({
            let n = s.len();
            let text = ValueV::Text(s);
            &&& applied(env, tick, Func::Left, seq![text, ValueV::Int(k)]) == Ok::<ValueV, StopV>(
                ValueV::Text(s.take(k as int)),
            )
            &&& applied(env, tick, Func::Right, seq![text, ValueV::Int(k)]) == Ok::<ValueV, StopV>(
                ValueV::Text(s.skip(n - k)),
            )
            &&& 0 < k ==> applied(env, tick, Func::Left, seq![text, ValueV::Int((-k) as i64)])
                == Ok::<ValueV, StopV>(ValueV::Text(s.take(n - k)))
            &&& 0 < k ==> applied(env, tick, Func::Right, seq![text, ValueV::Int((-k) as i64)])
                == Ok::<ValueV, StopV>(ValueV::Text(s.skip(k as int)))
        }),
{
    reveal(applied);
    lemma_small_number(env.reals, k);
    lemma_small_number(env.reals, (-k) as i64);
    let n = s.len();
    assert(side(s, k as int, true) =~= s.take(k as int));
    assert(side(s, k as int, false) =~= s.skip(n - k));
}

/// `LPAD` and `RPAD` give a text of the length asked for: a longer one is cut at its end,
/// a shorter one is filled up, in front or behind, by the fill over and over.
pub proof fn law_padding(
    env: EnvV,
    tick: u64,
    s: Seq<char>,
    n: i64,
    fill: Seq<char>,
)
    requires
        0 <= n < 0x10_0000_0000_0000,
        fill.len() > 0,
    ensures
        ({
            let args = seq![ValueV::Text(s), ValueV::Int(n), ValueV::Text(fill)];
            let l = applied(env, tick, Func::Lpad, args);
            let r = applied(env, tick, Func::Rpad, args);
            &&& l matches Ok(ValueV::Text(x)) && r matches Ok(ValueV::Text(y)) && {
                &&& x.len() == n && y.len() == n
                &&& s.len() >= n ==> x == s.take(n as int) && y == s.take(n as int)
                &&& s.len() < n ==> {
                    &&& x.skip(n - s.len()) == s
                    &&& y.take(s.len() as int) == s
                    &&& forall|k: int|
                        0 <= k < n - s.len() ==> #[trigger] x[k] == fill[k % fill.len() as int]
                    &&& forall|k: int|
                        0 <= k < n - s.len() ==> #[trigger] y[s.len() + k] == fill[k
                            % fill.len() as int]
                }
            }
        }),
{
    reveal(applied);
    lemma_small_number(env.reals, n);
    let x = padded(s, n as nat, fill, true);
    let y = padded(s, n as nat, fill, false);
    if s.len() < n {
        assert(x.skip(n - s.len()) =~= s);
        assert(y.take(s.len() as int) =~= s);
    }
}

proof fn lemma_occurrence(s: Seq<char>, n: Seq<char>, i: int)
    requires
        0 <= i,
    ensures
        match occurrence(s, n, i) {
            Some(p) => i <= p && occurs_at(s, n, p) && forall|m: int|
                i <= m < p ==> !#[trigger] occurs_at(s, n, m),
            None => forall|m: int| i <= m ==> !#[trigger] occurs_at(s, n, m),
        },
    decreases s.len() - i + 1,
{
    if i <= s.len() && !occurs_at(s, n, i) {
        lemma_occurrence(s, n, i + 1);
    }
}

/// `INSTR` gives the place, counted from one, where a text first occurs in another, and
/// zero just where it does not.
pub proof fn law_instr(env: EnvV, tick: u64, s: Seq<char>, x: Seq<char>)
    requires
        s.len() < i64::MAX,
    ensures
        applied(env, tick, Func::Instr, seq![ValueV::Text(s), ValueV::Text(x)]) matches Ok(
            ValueV::Int(p),
        ) && 0 <= p && (p == 0 ==> forall|m: int| 0 <= m ==> !#[trigger] occurs_at(s, x, m)) && (p
            > 0 ==> occurs_at(s, x, p - 1) && forall|m: int|
            0 <= m < p - 1 ==> !#[trigger] occurs_at(s, x, m)),
{
    reveal(applied);
    lemma_occurrence(s, x, 0);
}

proof fn lemma_replaced_on(
    s: Seq<char>,
    f: Seq<char>,
    t: Seq<char>,
    i: int,
    acc: Seq<char>,
)
    requires
        f.len() > 0,
        0 <= i <= s.len(),
    ensures
        replaced_from(s, f, t, i, acc) == acc + replaced_from(s.skip(i), f, t, 0, Seq::empty()),
    decreases s.len() - i,
{
    lemma_replaced_shift(s, f, t, i, s.skip(i), 0, acc, Seq::empty());
    assert(acc + Seq::<char>::empty() =~= acc);
}

proof fn lemma_replaced_shift(
    s: Seq<char>,
    f: Seq<char>,
    t: Seq<char>,
    i: int,
    r: Seq<char>,
    j: int,
    a: Seq<char>,
    b: Seq<char>,
)
    requires
        f.len() > 0,
        0 <= j,
        i - j >= 0,
        i - j <= s.len(),
        r == s.skip(i - j),
    ensures
        replaced_from(s, f, t, i, a + b) == a + replaced_from(r, f, t, j, b),
    decreases s.len() - i,
{
    if i < s.len() {
        assert(occurs_at(s, f, i) <==> occurs_at(r, f, j)) by {
            if i + f.len() <= s.len() {
                assert(s.subrange(i, i + f.len()) =~= r.subrange(j, j + f.len()));
            }
        }
        if occurs_at(s, f, i) {
            assert(a + b + t =~= a + (b + t));
            lemma_replaced_shift(s, f, t, i + f.len(), r, j + f.len(), a, b + t);
        } else {
            assert((a + b).push(s[i]) =~= a + b.push(r[j]));
            lemma_replaced_shift(s, f, t, i + 1, r, j + 1, a, b.push(r[j]));
        }
    }
}

proof fn lemma_replaced_first(s: Seq<char>, f: Seq<char>, t: Seq<char>, p: int, i: int)
    requires
        f.len() > 0,
        0 <= i <= p <= s.len(),
        forall|m: int| i <= m < p ==> !#[trigger] occurs_at(s, f, m),
    ensures
        replaced_from(s, f, t, i, s.take(i)) == replaced_from(s, f, t, p, s.take(p)),
    decreases p - i,
{
    if i < p {
        assert(!occurs_at(s, f, i));
        assert(s.take(i).push(s[i]) =~= s.take(i + 1));
        lemma_replaced_first(s, f, t, p, i + 1);
    }
}

/// `REPLACE` leaves a text alone in which the other does not occur; else it puts the
/// third in place of its first occurrence, and goes on behind it.
pub proof fn law_replace(
    env: EnvV,
    tick: u64,
    s: Seq<char>,
    f: Seq<char>,
    x: Seq<char>,
    p: int,
)
    requires
        f.len() > 0,
        0 <= p <= s.len(),
        forall|m: int| 0 <= m < p ==> !#[trigger] occurs_at(s, f, m),
        p == s.len() || occurs_at(s, f, p),
    ensures
        applied(
            env,
            tick,
            Func::Replace,
            seq![ValueV::Text(s), ValueV::Text(f), ValueV::Text(x)],
        ) == Ok::<ValueV, StopV>(
            ValueV::Text(
                if p == s.len() {
                    s
                } else {
                    s.take(p) + x + replaced(s.skip(p + f.len()), f, x)
                },
            ),
        ),
{
    reveal(applied);
    lemma_replaced_first(s, f, x, p, 0);
    assert(s.take(0) =~= Seq::<char>::empty());
    if p == s.len() {
        assert(s.take(p) =~= s);
    } else {
        assert(replaced_from(s, f, x, p, s.take(p)) == replaced_from(
            s,
            f,
            x,
            p + f.len(),
            s.take(p) + x,
        ));
        lemma_replaced_on(s, f, x, p + f.len(), s.take(p) + x);
    }
}

proof fn lemma_copies(s: Seq<char>, k: nat)
    ensures
        copies(s, k).len() == k * s.len(),
        forall|i: int| 0 <= i < copies(s, k).len() ==> copies(s, k)[i] == s[#[trigger] (i % s.len() as int)],
    decreases k,
{
    if k > 0 {
        let j = (k - 1) as nat;
        lemma_copies(s, j);
        let n = s.len() as int;
        assert(k * n == j * n + n) by (nonlinear_arith)
            requires
                k == j + 1,
        ;
        assert(0 * n == 0);
        assert forall|i: int| 0 <= i < copies(s, k).len() implies copies(s, k)[i]
            == s[#[trigger] (i % n)] by {
            if i >= j * n {
                vstd::arithmetic::div_mod::lemma_fundamental_div_mod_converse(
                    i,
                    n,
                    j as int,
                    i - j * n,
                );
            } else {
                assert(copies(s, j)[i] == s[i % n]);
            }
        }
    } else {
        assert(k * s.len() == 0) by (nonlinear_arith)
            requires
                k == 0,
        ;
    }
}

/// `REPEAT` gives a text so many times over, and an empty one for a count below one.
pub proof fn law_repeat(env: EnvV, tick: u64, s: Seq<char>, k: i64)
    requires
        -0x20_0000_0000_0000 < k < 0x20_0000_0000_0000,
    ensures
        applied(env, tick, Func::Repeat, seq![ValueV::Text(s), ValueV::Int(k)]) matches Ok(
            ValueV::Text(x),
        ) && x.len() == (if k > 0 {
            k * s.len()
        } else {
            0
        }) && forall|i: int| 0 <= i < x.len() ==> x[i] == s[#[trigger] (i % s.len() as int)],
{
    reveal(applied);
    lemma_small_number(env.reals, k);
    lemma_copies(
        s,
        if k > 0 {
            k as nat
        } else {
            0
        },
    );
}

/// `REVERSE` gives the characters from the last to the first, so that twice it changes
/// nothing.
pub proof fn law_reverse(env: EnvV, tick: u64, s: Seq<char>)
    ensures
        applied(env, tick, Func::Reverse, seq![ValueV::Text(s)]) matches Ok(ValueV::Text(x))
            && x.len() == s.len() && (forall|i: int|
            0 <= i < s.len() ==> #[trigger] x[i] == s[s.len() - 1 - i]) && reversed(x) == s,
{
    reveal(applied);
    assert(reversed(reversed(s)) =~= s);
}

/// Whether a text is white space throughout.
pub open spec fn blank(s: Seq<char>) -> bool {
    forall|i: int| 0 <= i < s.len() ==> is_space(#[trigger] s[i])
}

proof fn lemma_trim_left(s: Seq<char>) -> (k: int)
    ensures
        0 <= k <= s.len(),
        trim_left(s) == s.skip(k),
        blank(s.take(k)),
        k < s.len() ==> !is_space(s[k]),
    decreases s.len(),
{
    if s.len() > 0 && is_space(s[0]) {
        let r = s.drop_first();
        let j = lemma_trim_left(r);
        assert(r.skip(j) =~= s.skip(j + 1));
        assert forall|i: int| 0 <= i < j + 1 implies is_space(#[trigger] s.take(j + 1)[i]) by {
            if i > 0 {
                assert(is_space(r.take(j)[i - 1]));
            }
        }
        j + 1
    } else {
        assert(s.skip(0) =~= s);
        0
    }
}

proof fn lemma_trim_right(s: Seq<char>) -> (k: int)
    ensures
        0 <= k <= s.len(),
        trim_right(s) == s.take(k),
        blank(s.skip(k)),
        k > 0 ==> !is_space(s[k - 1]),
    decreases s.len(),
{
    if s.len() > 0 && is_space(s.last()) {
        let r = s.drop_last();
        let j = lemma_trim_right(r);
        assert(r.take(j) =~= s.take(j));
        assert forall|i: int| 0 <= i < s.skip(j).len() implies is_space(#[trigger] s.skip(j)[i]) by {
            if i < r.skip(j).len() {
                assert(is_space(r.skip(j)[i]));
            }
        }
        j
    } else {
        assert(s.take(s.len() as int) =~= s);
        s.len() as int
    }
}

/// `LTRIM`, `RTRIM` and `TRIM` take away the white space in front, behind and at both
/// ends, all of it and nothing else.
pub proof fn law_trim(env: EnvV, tick: u64, s: Seq<char>) -> (r: (int, int, int))
    ensures
        ({
            let (a, b, c) = r;
            let text = seq![ValueV::Text(s)];
            &&& 0 <= a <= c <= s.len()
            &&& 0 <= b <= s.len()
            &&& applied(env, tick, Func::Ltrim, text) == Ok::<ValueV, StopV>(
                ValueV::Text(s.skip(a)),
            )
            &&& applied(env, tick, Func::Rtrim, text) == Ok::<ValueV, StopV>(
                ValueV::Text(s.take(b)),
            )
            &&& applied(env, tick, Func::Trim, text) == Ok::<ValueV, StopV>(
                ValueV::Text(s.subrange(a, c)),
            )
            &&& blank(s.take(a))
            &&& blank(s.skip(b))
            &&& blank(s.skip(c))
            &&& a < s.len() ==> !is_space(s[a])
            &&& b > 0 ==> !is_space(s[b - 1])
            &&& a < c ==> !is_space(s[c - 1])
        }),
{
    reveal(applied);
    let a = lemma_trim_left(s);
    let b = lemma_trim_right(s);
    let u = s.skip(a);
    let d = lemma_trim_right(u);
    assert(u.take(d) =~= s.subrange(a, a + d));
    assert(u.skip(d) =~= s.skip(a + d));
    (a, b, a + d)
}

/// Names are the same whatever the case of their letters: a letter and its other case
/// differ by the distance between the alphabets, and no other characters are the same.
pub proof fn law_case(c: char, d: char)
    ensures
        lower_char(c) == lower_char(d) <==> c == d || ('A' <= c && c <= 'Z' && d as u32 == c as u32
            + 32) || ('A' <= d && d <= 'Z' && c as u32 == d as u32 + 32),
        'A' <= c && c <= 'Z' ==> upper_char(lower_char(c)) == c,
        'a' <= c && c <= 'z' ==> lower_char(upper_char(c)) == c,
        lower_char(lower_char(c)) == lower_char(c),
{
}

/// Two names are the same just when they are as long and the same letter by letter.
pub proof fn law_names(a: Seq<char>, b: Seq<char>)
    ensures
        same_name(a, b) <==> a.len() == b.len() && forall|i: int|
            0 <= i < a.len() ==> lower_char(#[trigger] a[i]) == lower_char(b[i]),
{
    if same_name(a, b) {
        assert(lower_text(a).len() == lower_text(b).len());
        assert forall|i: int| 0 <= i < a.len() implies lower_char(#[trigger] a[i]) == lower_char(
            b[i],
        ) by {
            assert(lower_text(a)[i] == lower_text(b)[i]);
        }
    } else if a.len() == b.len() && (forall|i: int|
        0 <= i < a.len() ==> lower_char(#[trigger] a[i]) == lower_char(b[i])) {
        assert(lower_text(a) =~= lower_text(b));
    }
}

// ---- dates ----------------------------------------------------------------------------------------

/// The clock reads back the date and the time that a moment is made of.
pub proof fn law_clock(y: int, m: int, d: int, h: int, n: int, s: int)
    requires
        valid_date(y, m, d),
        0 <= h < 24,
        0 <= n < 60,
        0 <= s < 60,
    ensures
        clock(day_number(y, m, d) * 86400 + h * 3600 + n * 60 + s) == (y, m, d, h, n, s),
{
    let z = day_number(y, m, d);
    let e = z * 86400 + h * 3600 + n * 60 + s;
    assert(e / 86400 == z && e % 86400 == h * 3600 + n * 60 + s);
    law_civil_inverse(y, m, d, z);
}

/// Days of the week follow one another in a round of seven; those of the year count from
/// one on its first day.
pub proof fn law_days(e: int, y: int)
    ensures
        0 <= weekday(e) < 7,
        weekday(e + 86400) == (weekday(e) + 1) % 7,
        weekday(e - e % 86400) == weekday(e),
        yearday(day_number(y, 1, 1) * 86400) == 1,
        clock(e + 86400).0 == clock(e).0 ==> yearday(e + 86400) == yearday(e) + 1,
{
    assert((e + 86400) / 86400 == e / 86400 + 1);
    assert((e - e % 86400) / 86400 == e / 86400);
    assert((e / 86400 + 5) % 7 == ((e / 86400 + 4) % 7 + 1) % 7);
    law_clock(y, 1, 1, 0, 0, 0);
}

/// A unit of time starts where its finer parts are zero, or one for months and days: no
/// later than the moment, and in the same unit.
pub proof fn law_unit_starts(e: int)
    ensures
        ({
            let p = clock(e);
            &&& clock(unit_start(TimeUnit::Year, e)) == (p.0, 1int, 1int, 0int, 0int, 0int)
            &&& clock(unit_start(TimeUnit::Month, e)) == (p.0, p.1, 1int, 0int, 0int, 0int)
            &&& clock(unit_start(TimeUnit::Day, e)) == (p.0, p.1, p.2, 0int, 0int, 0int)
            &&& clock(unit_start(TimeUnit::Hour, e)) == (p.0, p.1, p.2, p.3, 0int, 0int)
            &&& clock(unit_start(TimeUnit::Minute, e)) == (p.0, p.1, p.2, p.3, p.4, 0int)
            &&& unit_start(TimeUnit::Second, e) == e
        }),
{
    let p = clock(e);
    lemma_made_of(e);
    law_clock(p.0, 1, 1, 0, 0, 0);
    law_clock(p.0, p.1, 1, 0, 0, 0);
    law_clock(p.0, p.1, p.2, 0, 0, 0);
    law_clock(p.0, p.1, p.2, p.3, 0, 0);
    law_clock(p.0, p.1, p.2, p.3, p.4, 0);
}

proof fn lemma_made_of(e: int)
    ensures
        ({
            let p = clock(e);
            let day = day_number(p.0, p.1, p.2) * 86400;
            &&& valid_date(p.0, p.1, p.2)
            &&& 0 <= p.3 < 24 && 0 <= p.4 < 60 && 0 <= p.5 < 60
            &&& e == day + p.3 * 3600 + p.4 * 60 + p.5
            &&& e - e % 86400 == day
            &&& e - e % 3600 == day + p.3 * 3600
            &&& e - e % 60 == day + p.3 * 3600 + p.4 * 60
        }),
{
    law_civil_inverse(0, 0, 0, e / 86400);
    lemma_split(e);
}

proof fn lemma_split(e: int)
    ensures
        ({
            let z = e / 86400;
            let t = e % 86400;
            let h = t / 3600;
            let n = (t % 3600) / 60;
            &&& 0 <= h < 24 && 0 <= n < 60 && 0 <= t % 60 < 60
            &&& e == z * 86400 + h * 3600 + n * 60 + t % 60
            &&& e - e % 86400 == z * 86400
            &&& e - e % 3600 == z * 86400 + h * 3600
            &&& e - e % 60 == z * 86400 + h * 3600 + n * 60
        }),
{
    let z = e / 86400;
    let t = e % 86400;
    let h = t / 3600;
    let u = t % 3600;
    let n = u / 60;
    let v = u % 60;
    assert(t == 60 * (60 * h + n) + v);
    assert(t % 60 == v);
    assert(e == 3600 * (24 * z + h) + u);
    assert(e % 3600 == u);
    assert(e == 60 * (1440 * z + 60 * h + n) + v);
    assert(e % 60 == v);
}

/// A week starts on its Monday, at most six days before.
pub proof fn law_week_starts(e: int)
    ensures
        weekday(unit_start(TimeUnit::Week, e)) == 1,
        unit_start(TimeUnit::Week, e) % 86400 == 0,
        0 <= e - unit_start(TimeUnit::Week, e) < 7 * 86400,
{
    let z = e / 86400;
    let w = z - (z + 3) % 7;
    assert((w * 86400) / 86400 == w);
    assert((w + 4) % 7 == 1);
}

// ---- JSON -----------------------------------------------------------------------------------------

proof fn lemma_member(m: Seq<(Seq<char>, JsonV)>, key: Seq<char>, i: int, k: int)
    requires
        0 <= i <= k < m.len(),
        m[k].0 == key,
        forall|n: int| i <= n < k ==> (#[trigger] m[n]).0 != key,
    ensures
        member_from(m, key, i) == Some(m[k].1),
    decreases k - i,
{
    if i < k {
        assert(m[i].0 != key);
        lemma_member(m, key, i + 1, k);
    }
}

proof fn lemma_no_member(m: Seq<(Seq<char>, JsonV)>, key: Seq<char>, i: int)
    requires
        0 <= i <= m.len(),
        forall|n: int| i <= n < m.len() ==> (#[trigger] m[n]).0 != key,
    ensures
        member_from(m, key, i) is None,
    decreases m.len() - i,
{
    if i < m.len() {
        assert(m[i].0 != key);
        lemma_no_member(m, key, i + 1);
    }
}

/// A key finds its member of an object, the first where it is there more than once, and
/// nothing where it is not there. A number finds the element at that place of an array,
/// counted from zero, or from the end where it is below zero.
pub proof fn law_json_parts(
    m: Seq<(Seq<char>, JsonV)>,
    k: int,
    other: Seq<char>,
    a: Seq<JsonV>,
    i: int,
)
    requires
        0 <= k < m.len(),
        forall|n: int| 0 <= n < k ==> (#[trigger] m[n]).0 != m[k].0,
        forall|n: int| 0 <= n < m.len() ==> (#[trigger] m[n]).0 != other,
        0 <= i,
    ensures
        member(JsonV::Obj(m), m[k].0) == Some(m[k].1),
        member(JsonV::Obj(m), other) is None,
        member(JsonV::Arr(a), other) is None,
        i < a.len() ==> element(JsonV::Arr(a), i) == Some(a[i]) && element(
            JsonV::Arr(a),
            i - a.len(),
        ) == Some(a[i]),
        i >= a.len() ==> element(JsonV::Arr(a), i) is None,
        element(JsonV::Arr(a), -1 - a.len() - i) is None,
        element(JsonV::Obj(m), i) is None,
{
    lemma_member(m, m[k].0, 0, k);
    lemma_no_member(m, other, 0);
}

proof fn lemma_key_end(p: Seq<char>, i: int, e: int)
    requires
        0 <= i <= e <= p.len(),
        forall|k: int| i <= k < e ==> #[trigger] p[k] != '.' && p[k] != '[',
        e == p.len() || p[e] == '.' || p[e] == '[',
    ensures
        key_end(p, i) == e,
    decreases e - i,
{
    if i < e {
        assert(p[i] != '.' && p[i] != '[');
        lemma_key_end(p, i + 1, e);
    }
}

/// A path of one key finds the member with that key; the empty path finds the whole.
pub proof fn law_json_paths(j: JsonV, key: Seq<char>)
    requires
        forall|k: int| 0 <= k < key.len() ==> #[trigger] key[k] != '.' && key[k] != '[',
    ensures
        value_at_path(j, seq!['$']) == Some(j),
        value_at_path(j, seq!['$', '.'] + key) == member(j, key),
{
    let p = seq!['.'] + key;
    assert(seq!['$'].drop_first() =~= Seq::<char>::empty());
    assert((seq!['$', '.'] + key).drop_first() =~= p);
    assert forall|k: int| 1 <= k < p.len() implies #[trigger] p[k] != '.' && p[k] != '[' by {
        assert(p[k] == key[k - 1]);
    }
    lemma_key_end(p, 1, p.len() as int);
    assert(p.subrange(1, p.len() as int) =~= key);
    match member(j, key) {
        Some(x) => {
            assert(walk(x, p, p.len() as int) == Some(x));
        },
        None => {},
    }
}

// ---- bytes ----------------------------------------------------------------------------------------

/// `HEX` writes two digits for each byte, the upper half first.
pub proof fn law_hex(b: Seq<u8>, i: int)
    requires
        0 <= i < b.len(),
    ensures
        hex_text(b).len() == 2 * b.len(),
        hex_text(b)[2 * i] == crate::strfn::hex_upper(b[i] as int / 16),
        hex_text(b)[2 * i + 1] == crate::strfn::hex_upper(b[i] as int % 16),
    decreases b.len(),
{
    let a = b.drop_last();
    if i < a.len() {
        law_hex(a, i);
    } else if a.len() > 0 {
        law_hex(a, 0);
    } else {
        assert(hex_text(a) == Seq::<char>::empty());
    }
}

} // verus!
