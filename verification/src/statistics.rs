//! Sums, means and deviations of measurements. Each step of arithmetic is the caller's; which
//! steps are made on what is told here.
use crate::calc::answered;
use crate::calc::ask;
use crate::calc::computes;
use crate::calc::result_of;
use crate::scalar::Scalar;
use vstd::prelude::*;

verus! {

/// One step of arithmetic on measurements.
#[derive(Clone, Copy, Debug)]
pub enum Arithmetic {
    /// The sum of two numbers.
    Sum(Scalar, Scalar),
    /// A number divided by a count.
    Share(Scalar, usize),
    /// The square of the difference of two numbers.
    Deviation(Scalar, Scalar),
    /// The square root of a number.
    Root(Scalar),
    /// A number times a count.
    Times(Scalar, usize),
    /// A count divided by a number.
    Per(usize, Scalar),
}

/// The sum of the first `n` numbers, added up from zero in order.
pub open spec fn sum_of<C: Fn(Arithmetic) -> Scalar>(calc: C, xs: Seq<Scalar>, n: int) -> Scalar
    decreases n,
{
    if n <= 0 {
        Scalar { bits: 0 }
    } else {
        result_of(calc, Arithmetic::Sum(sum_of(calc, xs, n - 1), xs[n - 1]))
    }
}

/// The mean of some numbers: their sum by their count.
pub open spec fn mean_of<C: Fn(Arithmetic) -> Scalar>(calc: C, xs: Seq<Scalar>) -> Scalar {
    result_of(calc, Arithmetic::Share(sum_of(calc, xs, xs.len() as int), xs.len() as usize))
}

/// The squared deviations of some numbers from one.
pub open spec fn deviations<C: Fn(Arithmetic) -> Scalar>(calc: C, xs: Seq<Scalar>, from: Scalar) -> Seq<Scalar> {
    Seq::new(xs.len(), |i: int| result_of(calc, Arithmetic::Deviation(xs[i], from)))
}

/// The standard deviation of some numbers: the root of the mean of their squared deviations
/// from their mean.
pub open spec fn std_of<C: Fn(Arithmetic) -> Scalar>(calc: C, xs: Seq<Scalar>) -> Scalar {
    result_of(calc, Arithmetic::Root(mean_of(calc, deviations(calc, xs, mean_of(calc, xs)))))
}

/// `calc` was asked for every step of the mean of some numbers.
pub open spec fn mean_answered<C: Fn(Arithmetic) -> Scalar>(calc: C, xs: Seq<Scalar>) -> bool {
    &&& forall|i: int|
        0 <= i < xs.len() ==> answered(calc, Arithmetic::Sum(sum_of(calc, xs, i), #[trigger] xs[i]))
    &&& answered(calc, Arithmetic::Share(sum_of(calc, xs, xs.len() as int), xs.len() as usize))
}

/// `calc` was asked for every step of the standard deviation of some numbers.
pub open spec fn std_answered<C: Fn(Arithmetic) -> Scalar>(calc: C, xs: Seq<Scalar>) -> bool {
    let mean = mean_of(calc, xs);
    let squares = deviations(calc, xs, mean);
    &&& mean_answered(calc, xs)
    &&& forall|i: int| 0 <= i < xs.len() ==> answered(calc, Arithmetic::Deviation(#[trigger] xs[i], mean))
    &&& mean_answered(calc, squares)
    &&& answered(calc, Arithmetic::Root(mean_of(calc, squares)))
}

/// The mean of some numbers.
pub fn mean<C: Fn(Arithmetic) -> Scalar>(calc: &C, xs: &Vec<Scalar>) -> (r: Scalar)
    requires
        computes(*calc),
    ensures
        r == mean_of(*calc, xs@),
        mean_answered(*calc, xs@),
{
    let n: usize = xs.len();
    let mut total = Scalar::from_bits(0);
    let mut i: usize = 0;
    while i < n
        invariant
            i <= n,
            n == xs@.len(),
            computes(*calc),
            total == sum_of(*calc, xs@, i as int),
            forall|k: int|
                0 <= k < i ==> answered(*calc, Arithmetic::Sum(sum_of(*calc, xs@, k), #[trigger] xs@[k])),
        decreases n - i,
    {
        total = ask(calc, Arithmetic::Sum(total, xs[i]));
        i += 1;
    }
    ask(calc, Arithmetic::Share(total, n))
}

/// The standard deviation of some numbers.
pub fn standard_deviation<C: Fn(Arithmetic) -> Scalar>(calc: &C, xs: &Vec<Scalar>) -> (r: Scalar)
    requires
        computes(*calc),
    ensures
        r == std_of(*calc, xs@),
        std_answered(*calc, xs@),
{
    let from = mean(calc, xs);
    let ghost all = deviations(*calc, xs@, from);
    let n: usize = xs.len();
    let mut squares: Vec<Scalar> = Vec::new();
    let mut i: usize = 0;
    while i < n
        invariant
            i <= n,
            n == xs@.len(),
            computes(*calc),
            all == deviations(*calc, xs@, from),
            squares@ == all.take(i as int),
            forall|k: int| 0 <= k < i ==> answered(*calc, Arithmetic::Deviation(#[trigger] xs@[k], from)),
        decreases n - i,
    {
        squares.push(ask(calc, Arithmetic::Deviation(xs[i], from)));
        assert(squares@ =~= all.take(i + 1));
        i += 1;
    }
    assert(squares@ =~= all);
    let variance = mean(calc, &squares);
    ask(calc, Arithmetic::Root(variance))
}

proof fn lemma_sum_folds<C: Fn(Arithmetic) -> Scalar>(calc: C, xs: Seq<Scalar>, n: int)
    requires
        0 <= n <= xs.len(),
    ensures
        sum_of(calc, xs, n) == xs.take(n).fold_left(
            Scalar { bits: 0 },
            |sum: Scalar, x: Scalar| result_of(calc, Arithmetic::Sum(sum, x)),
        ),
    decreases n,
{
    if n > 0 {
        lemma_sum_folds(calc, xs, n - 1);
        assert(xs.take(n).drop_last() =~= xs.take(n - 1));
    }
}

/// The mean adds every number once, from the first to the last and starting from zero, and
/// divides by how many there are.
pub proof fn mean_takes_each_number_once<C: Fn(Arithmetic) -> Scalar>(calc: C, xs: Seq<Scalar>)
    ensures
        mean_of(calc, xs) == result_of(
            calc,
            Arithmetic::Share(
                xs.fold_left(
                    Scalar { bits: 0 },
                    |sum: Scalar, x: Scalar| result_of(calc, Arithmetic::Sum(sum, x)),
                ),
                xs.len() as usize,
            ),
        ),
{
    lemma_sum_folds(calc, xs, xs.len() as int);
    assert(xs.take(xs.len() as int) =~= xs);
}

/// The standard deviation is the root of the mean of the squared deviations of every number
/// from the mean of all.
pub proof fn deviation_takes_each_number_once<C: Fn(Arithmetic) -> Scalar>(calc: C, xs: Seq<Scalar>)
    ensures
        ({
            let add_up = |sum: Scalar, x: Scalar| result_of(calc, Arithmetic::Sum(sum, x));
            let zero = Scalar { bits: 0 };
            let middle = result_of(calc, Arithmetic::Share(xs.fold_left(zero, add_up), xs.len() as usize));
            let squares = xs.map_values(|x: Scalar| result_of(calc, Arithmetic::Deviation(x, middle)));
            std_of(calc, xs) == result_of(
                calc,
                Arithmetic::Root(
                    result_of(calc, Arithmetic::Share(squares.fold_left(zero, add_up), xs.len() as usize)),
                ),
            )
        }),
{
    let middle = mean_of(calc, xs);
    let squares = xs.map_values(|x: Scalar| result_of(calc, Arithmetic::Deviation(x, middle)));
    mean_takes_each_number_once(calc, xs);
    mean_takes_each_number_once(calc, squares);
    assert(squares =~= deviations(calc, xs, middle));
}

} // verus!
