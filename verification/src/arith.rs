//! The arithmetic built-ins on 64-bit integers, with Rust's overflow and division rules.
use vstd::prelude::*;

verus! {

/// The sum of the integers, from the left.
pub open spec fn sum(xs: Seq<i64>) -> int
    decreases xs.len(),
{
    if xs.len() == 0 {
        0
    } else {
        sum(xs.drop_last()) + xs.last()
    }
}

/// The product of the integers, from the left.
pub open spec fn product(xs: Seq<i64>) -> int
    decreases xs.len(),
{
    if xs.len() == 0 {
        1
    } else {
        product(xs.drop_last()) * xs.last()
    }
}

/// `x` is a value of `i64`.
pub open spec fn fits(x: int) -> bool {
    i64::MIN <= x <= i64::MAX
}

/// Every partial sum from the left is a value of `i64`: adding them up does not overflow.
pub open spec fn sums_fit(xs: Seq<i64>) -> bool {
    forall|k: int| 0 <= k <= xs.len() ==> fits(#[trigger] sum(xs.take(k)))
}

/// Every partial product from the left is a value of `i64`.
pub open spec fn products_fit(xs: Seq<i64>) -> bool {
    forall|k: int| 0 <= k <= xs.len() ==> fits(#[trigger] product(xs.take(k)))
}

/// Division rounded toward zero, as Rust divides integers.
pub open spec fn trunc_div(x: int, d: int) -> int {
    if x == 0 {
        0
    } else if x > 0 && d > 0 {
        x / d
    } else if x < 0 && d < 0 {
        (-x) / (-d)
    } else if x < 0 {
        -((-x) / d)
    } else {
        -(x / (-d))
    }
}

/// `a < b` as a test: success with `a` when it holds, failure with `a` when not.
pub fn lt(a: i64, b: i64) -> (r: Result<i64, i64>)
    ensures
        r == (if a < b {
            Ok::<i64, i64>(a)
        } else {
            Err::<i64, i64>(a)
        }),
{
    if a < b {
        Ok(a)
    } else {
        Err(a)
    }
}

/// The sum of the integers; `None` where a partial sum overflows.
pub fn plus(xs: &Vec<i64>) -> (r: Option<i64>)
    ensures
        r is Some <==> sums_fit(xs@),
        r matches Some(v) ==> v == sum(xs@),
{
    let mut acc: i64 = 0;
    let mut k: usize = 0;
    assert(xs@.take(0) =~= Seq::<i64>::empty());
    while k < xs.len()
        invariant
            k <= xs@.len(),
            acc == sum(xs@.take(k as int)),
            forall|j: int| 0 <= j <= k ==> fits(#[trigger] sum(xs@.take(j))),
        decreases xs@.len() - k,
    {
        assert(xs@.take(k + 1).drop_last() =~= xs@.take(k as int));
        match acc.checked_add(xs[k]) {
            Some(v) => {
                acc = v;
                k += 1;
            },
            None => {
                assert(!fits(sum(xs@.take(k + 1))));
                return None;
            },
        }
    }
    assert(xs@.take(k as int) =~= xs@);
    Some(acc)
}

/// `x` less the sum of the others; `None` where that overflows.
pub fn minus(x: i64, rest: &Vec<i64>) -> (r: Option<i64>)
    ensures
        r is Some <==> sums_fit(rest@) && fits(x - sum(rest@)),
        r matches Some(v) ==> v == x - sum(rest@),
{
    match plus(rest) {
        Some(s) => x.checked_sub(s),
        None => None,
    }
}

/// The product of the integers; `None` where a partial product overflows.
pub fn times(xs: &Vec<i64>) -> (r: Option<i64>)
    ensures
        r is Some <==> products_fit(xs@),
        r matches Some(v) ==> v == product(xs@),
{
    let mut acc: i64 = 1;
    let mut k: usize = 0;
    assert(xs@.take(0) =~= Seq::<i64>::empty());
    while k < xs.len()
        invariant
            k <= xs@.len(),
            acc == product(xs@.take(k as int)),
            forall|j: int| 0 <= j <= k ==> fits(#[trigger] product(xs@.take(j))),
        decreases xs@.len() - k,
    {
        assert(xs@.take(k + 1).drop_last() =~= xs@.take(k as int));
        match acc.checked_mul(xs[k]) {
            Some(v) => {
                acc = v;
                k += 1;
            },
            None => {
                assert(!fits(product(xs@.take(k + 1))));
                return None;
            },
        }
    }
    assert(xs@.take(k as int) =~= xs@);
    Some(acc)
}

/// `x` divided, rounding toward zero, by the product of the others; `None` where the
/// product overflows, is zero, or the quotient overflows.
pub fn div(x: i64, rest: &Vec<i64>) -> (r: Option<i64>)
    ensures
        r is Some <==> products_fit(rest@) && product(rest@) != 0 && fits(trunc_div(x as int, product(rest@))),
        r matches Some(v) ==> v == trunc_div(x as int, product(rest@)),
{
    match times(rest) {
        Some(p) => x.checked_div(p),
        None => None,
    }
}

} // verus!
