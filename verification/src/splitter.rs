//! Splitting a labeled file list into train, test and validation subsets.
//!
//! The list is shuffled once and cut twice. The training subset takes the
//! floor of its fraction of the whole. Of what remains, the test subset takes
//! the floor of `test / (1 - train)`, and the validation subset takes the rest.
//! Nothing is handed back to even out what the two floors cut off.

use crate::model::{Fraction, LabeledPath, LabeledPathView, PipelineError};
use crate::random::{drawn, is_draw, shuffled_order};
use vstd::prelude::*;

verus! {

/// The three subsets of a split.
#[derive(Debug, PartialEq, Eq)]
pub struct Split {
    pub train: Vec<LabeledPath>,
    pub test: Vec<LabeledPath>,
    pub valid: Vec<LabeledPath>,
}

/// `f` lies strictly between 0 and 1.
pub open spec fn is_proper(f: Fraction) -> bool {
    0 < f.numerator < f.denominator
}

/// Both fractions lie strictly between 0 and 1, and so does their sum.
pub open spec fn fractions_valid(train: Fraction, test: Fraction) -> bool {
    &&& is_proper(train)
    &&& is_proper(test)
    &&& train.numerator * test.denominator + test.numerator * train.denominator
        < train.denominator * test.denominator
}

/// The floor of `numerator / denominator` of `count`.
pub open spec fn scaled_floor(count: int, numerator: int, denominator: int) -> int {
    (numerator * count) / denominator
}

/// The size of the training subset of `n` items.
pub open spec fn train_size(n: int, train: Fraction) -> int {
    scaled_floor(n, train.numerator as int, train.denominator as int)
}

/// The size of the test subset of `n` items: the floor of
/// `test / (1 - train)` of what the training subset leaves.
pub open spec fn test_size(n: int, train: Fraction, test: Fraction) -> int {
    scaled_floor(
        n - train_size(n, train),
        test.numerator * train.denominator,
        test.denominator * (train.denominator - train.numerator),
    )
}

/// The items at the positions `order[from]`, .., `order[to - 1]`.
pub open spec fn taken_in_order<T>(items: Seq<T>, order: Seq<usize>, from: int, to: int) -> Seq<
    T,
> {
    Seq::new((to - from) as nat, |i: int| items[order[from + i] as int])
}

/// What a split of `items`, taken in `order`, puts into the training subset.
pub open spec fn train_part(
    items: Seq<LabeledPathView>,
    order: Seq<usize>,
    train: Fraction,
) -> Seq<LabeledPathView> {
    taken_in_order(items, order, 0, train_size(items.len() as int, train))
}

/// What a split of `items`, taken in `order`, puts into the test subset.
pub open spec fn test_part(
    items: Seq<LabeledPathView>,
    order: Seq<usize>,
    train: Fraction,
    test: Fraction,
) -> Seq<LabeledPathView> {
    let a = train_size(items.len() as int, train);
    taken_in_order(items, order, a, a + test_size(items.len() as int, train, test))
}

/// What a split of `items`, taken in `order`, puts into the validation subset.
pub open spec fn valid_part(
    items: Seq<LabeledPathView>,
    order: Seq<usize>,
    train: Fraction,
    test: Fraction,
) -> Seq<LabeledPathView> {
    let a = train_size(items.len() as int, train);
    taken_in_order(
        items,
        order,
        a + test_size(items.len() as int, train, test),
        items.len() as int,
    )
}

/// `order` names positions of a list of `n` items, one for each item.
pub open spec fn is_order_of(order: Seq<usize>, n: nat) -> bool {
    &&& order.len() == n
    &&& forall|k: int| 0 <= k < order.len() ==> (#[trigger] order[k]) < n
}

/// A fraction of at most 1 of a count is at most the count.
pub proof fn lemma_scaled_floor_bounds(count: int, numerator: int, denominator: int)
    requires
        0 <= count,
        0 <= numerator <= denominator,
        0 < denominator,
    ensures
        0 <= scaled_floor(count, numerator, denominator) <= count,
{
    assert(0 <= numerator * count <= denominator * count) by (nonlinear_arith)
        requires
            0 <= count,
            0 <= numerator <= denominator,
    ;
    vstd::arithmetic::div_mod::lemma_div_is_ordered(
        numerator * count,
        denominator * count,
        denominator,
    );
    vstd::arithmetic::div_mod::lemma_div_multiples_vanish(count, denominator);
    vstd::arithmetic::div_mod::lemma_div_pos_is_pos(numerator * count, denominator);
    assert(denominator * count == count * denominator) by (nonlinear_arith);
}

/// With valid fractions the second cut is a fraction of at most 1.
pub proof fn lemma_second_cut_is_fraction(train: Fraction, test: Fraction)
    requires
        fractions_valid(train, test),
    ensures
        0 < test.numerator * train.denominator < test.denominator * (train.denominator
            - train.numerator),
{
    let tn = train.numerator as int;
    let td = train.denominator as int;
    let sn = test.numerator as int;
    let sd = test.denominator as int;
    assert(sd * (td - tn) == td * sd - tn * sd) by (nonlinear_arith);
    assert(0 < sn * td) by (nonlinear_arith)
        requires
            0 < sn,
            0 < td,
    ;
}

/// With valid fractions the three sizes are non-negative and add up to `n`.
pub proof fn lemma_split_sizes(n: int, train: Fraction, test: Fraction)
    requires
        0 <= n,
        fractions_valid(train, test),
    ensures
        0 <= train_size(n, train) <= n,
        0 <= test_size(n, train, test) <= n - train_size(n, train),
{
    lemma_scaled_floor_bounds(n, train.numerator as int, train.denominator as int);
    lemma_second_cut_is_fraction(train, test);
    lemma_scaled_floor_bounds(
        n - train_size(n, train),
        test.numerator * train.denominator,
        test.denominator * (train.denominator - train.numerator),
    );
}

/// Tells whether two fractions can drive a split.
pub fn check_fractions(train: Fraction, test: Fraction) -> (ok: bool)
    ensures
        ok == fractions_valid(train, test),
{
    if train.numerator == 0 || train.numerator >= train.denominator {
        return false;
    }
    if test.numerator == 0 || test.numerator >= test.denominator {
        return false;
    }
    let tn = train.numerator as u128;
    let td = train.denominator as u128;
    let sn = test.numerator as u128;
    let sd = test.denominator as u128;
    assert(tn * sd <= 0xffff_ffff * 0xffff_ffff && sn * td <= 0xffff_ffff * 0xffff_ffff && td * sd
        <= 0xffff_ffff * 0xffff_ffff) by (nonlinear_arith)
        requires
            tn <= 0xffff_ffff,
            td <= 0xffff_ffff,
            sn <= 0xffff_ffff,
            sd <= 0xffff_ffff,
    ;
    tn * sd + sn * td < td * sd
}

/// The floor of `numerator / denominator` of `count`.
pub fn floor_of_fraction(count: usize, numerator: u64, denominator: u64) -> (part: usize)
    requires
        numerator <= denominator,
        0 < denominator,
    ensures
        part == scaled_floor(count as int, numerator as int, denominator as int),
        part <= count,
{
    let wide_numerator = numerator as u128;
    let wide_count = count as u128;
    assert(wide_numerator * wide_count <= 0xffff_ffff_ffff_ffff * 0xffff_ffff_ffff_ffff)
        by (nonlinear_arith)
        requires
            wide_numerator <= 0xffff_ffff_ffff_ffff,
            wide_count <= 0xffff_ffff_ffff_ffff,
    ;
    let quotient = (wide_numerator * wide_count) / (denominator as u128);
    proof {
        lemma_scaled_floor_bounds(count as int, numerator as int, denominator as int);
    }
    quotient as usize
}

/// Copies the items at the positions `order[from]`, .., `order[to - 1]`.
pub fn collect_in_order(paths: &Vec<LabeledPath>, order: &Vec<usize>, from: usize, to: usize) -> (out:
    Vec<LabeledPath>)
    requires
        from <= to <= order.len(),
        forall|k: int| 0 <= k < order.len() ==> (#[trigger] order[k]) < paths.len(),
    ensures
        out@ == taken_in_order(paths@, order@, from as int, to as int),
        out.deep_view() == taken_in_order(paths.deep_view(), order@, from as int, to as int),
        out.len() == to - from,
{
    let mut out: Vec<LabeledPath> = Vec::new();
    let mut k: usize = from;
    while k < to
        invariant
            from <= k <= to <= order.len(),
            forall|q: int| 0 <= q < order.len() ==> (#[trigger] order[q]) < paths.len(),
            out@.len() == k - from,
            forall|i: int| 0 <= i < out@.len() ==> out@[i] == paths@[order@[from + i] as int],
        decreases to - k,
    {
        let position = order[k];
        out.push(paths[position].clone());
        k = k + 1;
    }
    assert(out@ =~= taken_in_order(paths@, order@, from as int, to as int));
    assert(out.deep_view() =~= taken_in_order(
        paths.deep_view(),
        order@,
        from as int,
        to as int,
    ));
    out
}

/// Splits `paths`, taken in the given order, into the three subsets.
///
/// Fails exactly when the fractions are not valid: one of them lies outside
/// `(0, 1)`, or their sum reaches 1.
pub fn split_in_order(
    paths: &Vec<LabeledPath>,
    order: &Vec<usize>,
    train: Fraction,
    test: Fraction,
) -> (split: Result<Split, PipelineError>)
    requires
        is_order_of(order@, paths@.len()),
    ensures
        split is Ok <==> fractions_valid(train, test),
        split matches Ok(s) ==> {
            &&& s.train.deep_view() == train_part(paths.deep_view(), order@, train)
            &&& s.test.deep_view() == test_part(paths.deep_view(), order@, train, test)
            &&& s.valid.deep_view() == valid_part(paths.deep_view(), order@, train, test)
            &&& s.train.len() == train_size(paths.len() as int, train)
            &&& s.test.len() == test_size(paths.len() as int, train, test)
            &&& s.train.len() + s.test.len() + s.valid.len() == paths.len()
        },
        split matches Err(e) ==> e == (PipelineError::InvalidFraction { train, test }),
{
    if !check_fractions(train, test) {
        return Err(PipelineError::InvalidFraction { train, test });
    }
    let n = paths.len();
    let train_count = floor_of_fraction(n, train.numerator as u64, train.denominator as u64);
    let remaining = n - train_count;
    proof {
        lemma_second_cut_is_fraction(train, test);
        assert(test.numerator * train.denominator <= 0xffff_ffff * 0xffff_ffff
            && test.denominator * (train.denominator - train.numerator) <= 0xffff_ffff
            * 0xffff_ffff) by (nonlinear_arith)
            requires
                test.numerator <= 0xffff_ffff,
                test.denominator <= 0xffff_ffff,
                train.denominator <= 0xffff_ffff,
                0 <= train.denominator - train.numerator <= 0xffff_ffff,
        ;
    }
    let second_numerator = (test.numerator as u64) * (train.denominator as u64);
    let second_denominator = (test.denominator as u64) * ((train.denominator
        - train.numerator) as u64);
    let test_count = floor_of_fraction(remaining, second_numerator, second_denominator);
    let cut = train_count + test_count;
    let train_items = collect_in_order(paths, order, 0, train_count);
    let test_items = collect_in_order(paths, order, train_count, cut);
    let valid_items = collect_in_order(paths, order, cut, n);
    assert(paths.deep_view().len() == n);
    Ok(Split { train: train_items, test: test_items, valid: valid_items })
}

/// Shuffles `paths` with a generator seeded by `seed` and splits them into the
/// three subsets.
///
/// Fails exactly when the fractions are not valid: one of them lies outside
/// `(0, 1)`, or their sum reaches 1.
pub fn split(paths: &Vec<LabeledPath>, train: Fraction, test: Fraction, seed: u64) -> (split:
    Result<Split, PipelineError>)
    ensures
        split is Ok <==> fractions_valid(train, test),
        split matches Ok(s) ==> {
            let order = drawn(paths.len(), paths.len(), seed);
            &&& is_draw(order, paths.len(), paths.len())
            &&& s.train.deep_view() == train_part(paths.deep_view(), order, train)
            &&& s.test.deep_view() == test_part(paths.deep_view(), order, train, test)
            &&& s.valid.deep_view() == valid_part(paths.deep_view(), order, train, test)
            &&& s.train.len() == train_size(paths.len() as int, train)
            &&& s.test.len() == test_size(paths.len() as int, train, test)
            &&& s.train.len() + s.test.len() + s.valid.len() == paths.len()
        },
        split matches Err(e) ==> e == (PipelineError::InvalidFraction { train, test }),
{
    let order = shuffled_order(paths.len(), seed);
    split_in_order(paths, &order, train, test)
}

} // verus!
