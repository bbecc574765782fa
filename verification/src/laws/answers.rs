//! A deterministic arithmetic gives every formula one value.

use crate::arith::{
    Arithmetic, Binary, Formula, Test, Unary, binary_answers, byte_answers, bytes_of,
    clamp_answers, decides, evals, index_answers, indexes, offset_answers, offsets, power_answers,
    test_answers, unary_answers,
};
use vstd::prelude::*;

verus! {

/// The arithmetic gives one answer for each constant.
pub open spec fn has_one_constant<T, A: Arithmetic<T>>(ops: &A) -> bool {
    &&& forall|p: u64, q: u64, u: T, v: T| #[trigger]
        call_ensures(A::ratio, (ops, p, q), u) && #[trigger] call_ensures(A::ratio, (ops, p, q), v)
            ==> u == v
    &&& forall|n: usize, u: T, v: T| #[trigger]
        call_ensures(A::count, (ops, n), u) && #[trigger] call_ensures(A::count, (ops, n), v) ==> u
            == v
    &&& forall|u: T, v: T| #[trigger]
        call_ensures(A::infinity, (ops,), u) && #[trigger] call_ensures(A::infinity, (ops,), v)
            ==> u == v
    &&& forall|u: T, v: T| #[trigger]
        call_ensures(A::turn, (ops,), u) && #[trigger] call_ensures(A::turn, (ops,), v) ==> u == v
}

/// The arithmetic gives one answer for each operation.
pub open spec fn has_one_result<T, A: Arithmetic<T>>(ops: &A) -> bool {
    &&& forall|op: Unary, x: T, u: T, v: T| #[trigger]
        unary_answers(ops, op, x, u) && #[trigger] unary_answers(ops, op, x, v) ==> u == v
    &&& forall|op: Binary, x: T, y: T, u: T, v: T| #[trigger]
        binary_answers(ops, op, x, y, u) && #[trigger] binary_answers(ops, op, x, y, v) ==> u == v
    &&& forall|x: T, n: usize, u: T, v: T| #[trigger]
        power_answers(ops, x, n, u) && #[trigger] power_answers(ops, x, n, v) ==> u == v
    &&& forall|x: T, l: T, h: T, u: T, v: T| #[trigger]
        clamp_answers(ops, x, l, h, u) && #[trigger] clamp_answers(ops, x, l, h, v) ==> u == v
}

/// The arithmetic gives one answer to each question.
pub open spec fn has_one_reply<T, A: Arithmetic<T>>(ops: &A) -> bool {
    &&& forall|test: Test, x: T, y: T, r: bool, s: bool| #[trigger]
        test_answers(ops, test, x, y, r) && #[trigger] test_answers(ops, test, x, y, s) ==> r == s
    &&& forall|x: T, r: bool, s: bool| #[trigger]
        call_ensures(A::is_nan, (ops, x), r) && #[trigger] call_ensures(A::is_nan, (ops, x), s)
            ==> r == s
    &&& forall|x: T, r: u64, s: u64| #[trigger]
        call_ensures(A::order_key, (ops, x), r) && #[trigger] call_ensures(
            A::order_key,
            (ops, x),
            s,
        ) ==> r == s
    &&& forall|x: T, r: usize, s: usize| #[trigger]
        index_answers(ops, x, r) && #[trigger] index_answers(ops, x, s) ==> r == s
    &&& forall|x: T, r: i64, s: i64| #[trigger]
        offset_answers(ops, x, r) && #[trigger] offset_answers(ops, x, s) ==> r == s
    &&& forall|x: T, r: u8, s: u8| #[trigger]
        byte_answers(ops, x, r) && #[trigger] byte_answers(ops, x, s) ==> r == s
}

/// The arithmetic gives one answer to everything it is asked.
pub open spec fn is_deterministic<T, A: Arithmetic<T>>(ops: &A) -> bool {
    &&& has_one_constant(ops)
    &&& has_one_result(ops)
    &&& has_one_reply(ops)
}

/// A formula has one value.
pub proof fn lemma_one_value<T, A: Arithmetic<T>>(ops: &A, f: Formula<T>, u: T, v: T)
    requires
        is_deterministic(ops),
        evals(ops, f, u),
        evals(ops, f, v),
    ensures
        u == v,
    decreases f,
{
    match f {
        Formula::Unary(op, a) => {
            let x = choose|x: T| evals(ops, *a, x) && #[trigger] unary_answers(ops, op, x, u);
            let y = choose|x: T| evals(ops, *a, x) && #[trigger] unary_answers(ops, op, x, v);
            lemma_one_value(ops, *a, x, y);
        },
        Formula::Binary(op, a, b) => {
            let (x, y) = choose|x: T, y: T|
                evals(ops, *a, x) && evals(ops, *b, y) && #[trigger] binary_answers(
                    ops,
                    op,
                    x,
                    y,
                    u,
                );
            let (s, t) = choose|x: T, y: T|
                evals(ops, *a, x) && evals(ops, *b, y) && #[trigger] binary_answers(
                    ops,
                    op,
                    x,
                    y,
                    v,
                );
            lemma_one_value(ops, *a, x, s);
            lemma_one_value(ops, *b, y, t);
        },
        Formula::Power(a, n) => {
            let x = choose|x: T| evals(ops, *a, x) && #[trigger] power_answers(ops, x, n, u);
            let y = choose|x: T| evals(ops, *a, x) && #[trigger] power_answers(ops, x, n, v);
            lemma_one_value(ops, *a, x, y);
        },
        Formula::Clamp(a, low, high) => {
            let (x, l, h) = choose|x: T, l: T, h: T|
                evals(ops, *a, x) && evals(ops, *low, l) && evals(ops, *high, h)
                    && #[trigger] clamp_answers(ops, x, l, h, u);
            let (y, m, k) = choose|x: T, l: T, h: T|
                evals(ops, *a, x) && evals(ops, *low, l) && evals(ops, *high, h)
                    && #[trigger] clamp_answers(ops, x, l, h, v);
            lemma_one_value(ops, *a, x, y);
            lemma_one_value(ops, *low, l, m);
            lemma_one_value(ops, *high, h, k);
        },
        Formula::Select(test, a, b, then, other) => {
            let (x, y, r) = choose|x: T, y: T, r: bool|
                evals(ops, *a, x) && evals(ops, *b, y) && #[trigger] test_answers(
                    ops,
                    test,
                    x,
                    y,
                    r,
                ) && (if r {
                    evals(ops, *then, u)
                } else {
                    evals(ops, *other, u)
                });
            let (s, t, q) = choose|x: T, y: T, r: bool|
                evals(ops, *a, x) && evals(ops, *b, y) && #[trigger] test_answers(
                    ops,
                    test,
                    x,
                    y,
                    r,
                ) && (if r {
                    evals(ops, *then, v)
                } else {
                    evals(ops, *other, v)
                });
            lemma_one_value(ops, *a, x, s);
            lemma_one_value(ops, *b, y, t);
            if r {
                lemma_one_value(ops, *then, u, v);
            } else {
                lemma_one_value(ops, *other, u, v);
            }
        },
        _ => {},
    }
}

/// A question about two formulas has one answer.
pub proof fn lemma_one_decision<T, A: Arithmetic<T>>(
    ops: &A,
    test: Test,
    a: Formula<T>,
    b: Formula<T>,
    r: bool,
    s: bool,
)
    requires
        is_deterministic(ops),
        decides(ops, test, a, b, r),
        decides(ops, test, a, b, s),
    ensures
        r == s,
{
    let (x, y) = choose|x: T, y: T|
        evals(ops, a, x) && evals(ops, b, y) && #[trigger] test_answers(ops, test, x, y, r);
    let (u, v) = choose|x: T, y: T|
        evals(ops, a, x) && evals(ops, b, y) && #[trigger] test_answers(ops, test, x, y, s);
    lemma_one_value(ops, a, x, u);
    lemma_one_value(ops, b, y, v);
}

/// A formula has one index.
pub proof fn lemma_one_index<T, A: Arithmetic<T>>(ops: &A, f: Formula<T>, k: usize, l: usize)
    requires
        is_deterministic(ops),
        indexes(ops, f, k),
        indexes(ops, f, l),
    ensures
        k == l,
{
    let x = choose|x: T| evals(ops, f, x) && #[trigger] index_answers(ops, x, k);
    let y = choose|x: T| evals(ops, f, x) && #[trigger] index_answers(ops, x, l);
    lemma_one_value(ops, f, x, y);
}

/// A formula has one offset.
pub proof fn lemma_one_offset<T, A: Arithmetic<T>>(ops: &A, f: Formula<T>, k: i64, l: i64)
    requires
        is_deterministic(ops),
        offsets(ops, f, k),
        offsets(ops, f, l),
    ensures
        k == l,
{
    let x = choose|x: T| evals(ops, f, x) && #[trigger] offset_answers(ops, x, k);
    let y = choose|x: T| evals(ops, f, x) && #[trigger] offset_answers(ops, x, l);
    lemma_one_value(ops, f, x, y);
}

/// A formula has one byte.
pub proof fn lemma_one_byte<T, A: Arithmetic<T>>(ops: &A, f: Formula<T>, k: u8, l: u8)
    requires
        is_deterministic(ops),
        bytes_of(ops, f, k),
        bytes_of(ops, f, l),
    ensures
        k == l,
{
    let x = choose|x: T| evals(ops, f, x) && #[trigger] byte_answers(ops, x, k);
    let y = choose|x: T| evals(ops, f, x) && #[trigger] byte_answers(ops, x, l);
    lemma_one_value(ops, f, x, y);
}

/// A sequence of formulas has one sequence of values.
pub proof fn lemma_one_sequence<T, A: Arithmetic<T>>(
    ops: &A,
    fs: spec_fn(int) -> Formula<T>,
    s: Seq<T>,
    t: Seq<T>,
)
    requires
        is_deterministic(ops),
        s.len() == t.len(),
        forall|i: int| 0 <= i < s.len() ==> evals(ops, fs(i), #[trigger] s[i]),
        forall|i: int| 0 <= i < t.len() ==> evals(ops, fs(i), #[trigger] t[i]),
    ensures
        s == t,
{
    assert forall|i: int| 0 <= i < s.len() implies #[trigger] s[i] == t[i] by {
        lemma_one_value(ops, fs(i), s[i], t[i]);
    }
    assert(s =~= t);
}

/// A sequence of questions has one sequence of answers.
pub proof fn lemma_one_answering<T, A: Arithmetic<T>>(
    ops: &A,
    test: Test,
    fs: spec_fn(int) -> Formula<T>,
    gs: spec_fn(int) -> Formula<T>,
    s: Seq<bool>,
    t: Seq<bool>,
)
    requires
        is_deterministic(ops),
        s.len() == t.len(),
        forall|i: int| 0 <= i < s.len() ==> decides(ops, test, fs(i), gs(i), #[trigger] s[i]),
        forall|i: int| 0 <= i < t.len() ==> decides(ops, test, fs(i), gs(i), #[trigger] t[i]),
    ensures
        s == t,
{
    assert forall|i: int| 0 <= i < s.len() implies #[trigger] s[i] == t[i] by {
        lemma_one_decision(ops, test, fs(i), gs(i), s[i], t[i]);
    }
    assert(s =~= t);
}

} // verus!
