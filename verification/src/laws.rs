//! What holds of the pipeline as a whole.

use crate::generator::{
    after_step, at_end, batch_file, batch_items, batch_len, batch_resolves, epoch_order,
    first_unknown, is_first_unknown, item_at, label_known, lemma_first_unknown_unique,
    serving_cursor, serving_epochs, serving_order, step_outcome, well_formed, BatchItemView,
    GeneratorView, StepView,
};
use crate::model::{ClassDirView, Fraction, LabeledPathView, PipelineErrorView};
use crate::order::{
    label_keys, lemma_sorted_order_exists, lemma_sorted_order_of_relisted,
    lemma_sorted_order_without, without,
};
use crate::random::{drawn, is_draw, lemma_full_draw_covers};
use crate::sampler::{
    class_at, class_draw, class_names, class_order, class_sample, class_share, draw_holds_at,
    eligible_files, has_images, kept_upto, lemma_class_draw_bounded, paths_of, sample_is_lawful,
    sampled, sampled_upto, seed_at, skipped, skipped_upto,
};
use crate::splitter::{
    fractions_valid, lemma_split_sizes, taken_in_order, test_part, test_size, train_part,
    train_size, valid_part,
};
use crate::text::lemma_bytes_of_injective;
use vstd::prelude::*;

verus! {

/// The three subsets of a split, laid end to end, are the whole list in the
/// order of the shuffle: the sizes add up, and nothing is left out.
pub proof fn lemma_split_is_the_shuffled_list(
    items: Seq<LabeledPathView>,
    order: Seq<usize>,
    train: Fraction,
    test: Fraction,
)
    requires
        fractions_valid(train, test),
    ensures
        train_part(items, order, train) + test_part(items, order, train, test) + valid_part(
            items,
            order,
            train,
            test,
        ) == taken_in_order(items, order, 0, items.len() as int),
        train_part(items, order, train).len() == train_size(items.len() as int, train),
        test_part(items, order, train, test).len() == test_size(items.len() as int, train, test),
        train_part(items, order, train).len() + test_part(items, order, train, test).len()
            + valid_part(items, order, train, test).len() == items.len(),
{
    lemma_split_sizes(items.len() as int, train, test);
    assert(train_part(items, order, train) + test_part(items, order, train, test) + valid_part(
        items,
        order,
        train,
        test,
    ) =~= taken_in_order(items, order, 0, items.len() as int));
}

/// Every file of a subset is a file of the list that was split, and where
/// that list names no path twice, no path occurs twice in the three subsets
/// taken together: none within a subset, none in two subsets.
pub proof fn lemma_split_subsets_disjoint(
    items: Seq<LabeledPathView>,
    order: Seq<usize>,
    train: Fraction,
    test: Fraction,
)
    requires
        fractions_valid(train, test),
        items.len() <= usize::MAX,
        is_draw(order, items.len() as usize, items.len() as usize),
    ensures
        forall|x: LabeledPathView|
            (train_part(items, order, train) + test_part(items, order, train, test) + valid_part(
                items,
                order,
                train,
                test,
            )).contains(x) ==> items.contains(x),
        paths_of(items).no_duplicates() ==> paths_of(
            train_part(items, order, train) + test_part(items, order, train, test) + valid_part(
                items,
                order,
                train,
                test,
            ),
        ).no_duplicates(),
{
    lemma_split_is_the_shuffled_list(items, order, train, test);
    let all = taken_in_order(items, order, 0, items.len() as int);
    assert forall|x: LabeledPathView| all.contains(x) implies items.contains(x) by {
        let i = choose|i: int| 0 <= i < all.len() && all[i] == x;
        assert(order[i] < items.len());
        assert(items[order[i] as int] == x);
    }
    if paths_of(items).no_duplicates() {
        let paths = paths_of(items);
        assert forall|i: int, j: int|
            0 <= i < all.len() && 0 <= j < all.len() && i != j implies paths_of(all)[i]
            != paths_of(all)[j] by {
            assert(order[i] < items.len() && order[j] < items.len());
            if i < j {
                assert(order[i] != order[j]);
            } else {
                assert(order[j] != order[i]);
            }
            assert(paths_of(all)[i] == paths[order[i] as int]);
            assert(paths_of(all)[j] == paths[order[j] as int]);
        }
    }
}

/// Every file of the list that was split is in one of the three subsets.
pub proof fn lemma_split_covers(
    items: Seq<LabeledPathView>,
    order: Seq<usize>,
    train: Fraction,
    test: Fraction,
)
    requires
        fractions_valid(train, test),
        items.len() <= usize::MAX,
        is_draw(order, items.len() as usize, items.len() as usize),
    ensures
        forall|x: LabeledPathView|
            items.contains(x) ==> (train_part(items, order, train) + test_part(
                items,
                order,
                train,
                test,
            ) + valid_part(items, order, train, test)).contains(x),
{
    lemma_split_is_the_shuffled_list(items, order, train, test);
    let n = items.len() as usize;
    lemma_full_draw_covers(order, n, n);
    let all = taken_in_order(items, order, 0, items.len() as int);
    assert forall|x: LabeledPathView| items.contains(x) implies all.contains(x) by {
        let i = choose|i: int| 0 <= i < items.len() && items[i] == x;
        assert(order.contains(i as usize));
        let k = choose|k: int| 0 <= k < order.len() && order[k] == i as usize;
        assert(all[k] == x);
    }
}

/// Where `test / (1 - train)` is one half, as it is for `train` 8/10 and
/// `test` 1/10, the test subset takes half of what the training subset
/// leaves, rounded down.
pub proof fn lemma_second_cut_of_one_half(n: int, train: Fraction, test: Fraction)
    requires
        0 <= n,
        fractions_valid(train, test),
        2 * (test.numerator * train.denominator) == test.denominator * (train.denominator
            - train.numerator),
    ensures
        test_size(n, train, test) == (n - train_size(n, train)) / 2,
{
    let part = test.numerator * train.denominator;
    let rest = n - train_size(n, train);
    lemma_split_sizes(n, train, test);
    crate::splitter::lemma_second_cut_is_fraction(train, test);
    vstd::arithmetic::div_mod::lemma_div_multiples_vanish_quotient(part, rest, 2);
    assert(part * rest == (test.numerator * train.denominator) * rest);
    assert(part * 2 == test.denominator * (train.denominator - train.numerator));
}

/// What the two floors cut off goes to the validation subset, and it is
/// less than two files: the training subset is short of its exact share by
/// less than one file, the test subset of the share `test` of the whole by
/// less than one, and the validation subset exceeds the rest by less than two.
pub proof fn lemma_split_drift(n: int, train: Fraction, test: Fraction)
    requires
        0 <= n,
        fractions_valid(train, test),
    ensures
        train.numerator * n - train.denominator < train.denominator * train_size(n, train)
            <= train.numerator * n,
        test.numerator * n - test.denominator < test.denominator * test_size(n, train, test),
        test.denominator * train.denominator * (n - train_size(n, train) - test_size(
            n,
            train,
            test,
        )) < (test.denominator * train.denominator - train.numerator * test.denominator
            - test.numerator * train.denominator) * n + 2 * test.denominator * train.denominator,
{
    let tn = train.numerator as int;
    let td = train.denominator as int;
    let sn = test.numerator as int;
    let sd = test.denominator as int;
    let a = train_size(n, train);
    let r = n - a;
    let b = test_size(n, train, test);
    let num2 = sn * td;
    let den2 = sd * (td - tn);
    lemma_split_sizes(n, train, test);
    crate::splitter::lemma_second_cut_is_fraction(train, test);
    vstd::arithmetic::div_mod::lemma_fundamental_div_mod(tn * n, td);
    vstd::arithmetic::div_mod::lemma_mod_bound(tn * n, td);
    assert(td * a <= tn * n && tn * n - td < td * a);
    vstd::arithmetic::div_mod::lemma_fundamental_div_mod(num2 * r, den2);
    vstd::arithmetic::div_mod::lemma_mod_bound(num2 * r, den2);
    assert(den2 * b <= num2 * r && num2 * r - den2 < den2 * b);
    // r >= (td - tn) * n / td, so num2 * r >= sn * (td - tn) * n
    assert(sd * (td - tn) * b > sn * td * r - sd * (td - tn));
    assert(td * r >= (td - tn) * n) by (nonlinear_arith)
        requires
            r == n - a,
            td * a <= tn * n,
    ;
    assert(sn * td * r >= sn * (td - tn) * n) by (nonlinear_arith)
        requires
            td * r >= (td - tn) * n,
            sn > 0,
    ;
    assert(sd * b > sn * n - sd) by (nonlinear_arith)
        requires
            sd * (td - tn) * b > sn * td * r - sd * (td - tn),
            sn * td * r >= sn * (td - tn) * n,
            td - tn > 0,
    ;
    assert(sd * td * (r - b) < (sd * td - tn * sd - sn * td) * n + 2 * sd * td)
        by (nonlinear_arith)
        requires
            r == n - a,
            tn * n - td < td * a,
            sd * b > sn * n - sd,
            sd > 0,
            td > 0,
    ;
}

/// Two runs over classes that agree place by place draw the same files and
/// skip the same classes.
proof fn lemma_sampled_upto_agrees(
    first: Seq<ClassDirView>,
    second: Seq<ClassDirView>,
    first_order: Seq<usize>,
    second_order: Seq<usize>,
    per_class_count: usize,
    seed: u64,
    upto: nat,
)
    requires
        forall|k: int|
            0 <= k < upto ==> #[trigger] class_at(first, first_order, k) == class_at(
                second,
                second_order,
                k,
            ),
    ensures
        sampled_upto(first, first_order, per_class_count, seed, upto) == sampled_upto(
            second,
            second_order,
            per_class_count,
            seed,
            upto,
        ),
        kept_upto(first, first_order, upto) == kept_upto(second, second_order, upto),
        skipped_upto(first, first_order, upto) == skipped_upto(second, second_order, upto),
    decreases upto,
{
    if upto > 0 {
        lemma_sampled_upto_agrees(
            first,
            second,
            first_order,
            second_order,
            per_class_count,
            seed,
            (upto - 1) as nat,
        );
        assert(class_at(first, first_order, upto - 1) == class_at(second, second_order, upto - 1));
    }
}

/// A run that lacks one class without image files, and agrees with the
/// other run on the classes behind it one place on, draws the same files.
proof fn lemma_sampled_upto_shifted(
    first: Seq<ClassDirView>,
    second: Seq<ClassDirView>,
    first_order: Seq<usize>,
    second_order: Seq<usize>,
    per_class_count: usize,
    seed: u64,
    p: nat,
    upto: nat,
)
    requires
        p <= upto,
        sampled_upto(second, second_order, per_class_count, seed, p) == sampled_upto(
            first,
            first_order,
            per_class_count,
            seed,
            p + 1,
        ),
        kept_upto(second, second_order, p) == kept_upto(first, first_order, p + 1),
        forall|k: int|
            p <= k < upto ==> #[trigger] class_at(second, second_order, k) == class_at(
                first,
                first_order,
                k + 1,
            ),
    ensures
        sampled_upto(second, second_order, per_class_count, seed, upto) == sampled_upto(
            first,
            first_order,
            per_class_count,
            seed,
            upto + 1,
        ),
        kept_upto(second, second_order, upto) == kept_upto(first, first_order, upto + 1),
    decreases upto,
{
    if upto > p {
        lemma_sampled_upto_shifted(
            first,
            second,
            first_order,
            second_order,
            per_class_count,
            seed,
            p,
            (upto - 1) as nat,
        );
        assert(class_at(second, second_order, upto - 1) == class_at(first, first_order, upto as int));
    }
}

/// What each class gives to a lawful sample: where the class at place `r` of
/// the classes' order holds image files, its stretch of the sample has as
/// many files as its share, which is no more than were asked for; each of
/// them is an image file of that class under the name of that class; and,
/// where the class lists no path twice, none of them occurs twice.
pub proof fn lemma_sample_is_stratified(
    classes: Seq<ClassDirView>,
    per_class_count: usize,
    seed: u64,
    r: int,
)
    requires
        sample_is_lawful(classes, per_class_count, seed),
        0 <= r < classes.len(),
        has_images(class_at(classes, class_order(classes), r)),
    ensures
        ({
            let class = class_at(classes, class_order(classes), r);
            let stretch = class_sample(
                class,
                per_class_count,
                seed_at(classes, class_order(classes), seed, r),
            );
            &&& stretch.len() == class_share(class, per_class_count)
            &&& stretch.len() <= per_class_count
            &&& forall|i: int|
                0 <= i < stretch.len() ==> (#[trigger] stretch[i]).label == class.name
                    && eligible_files(class.files).contains(stretch[i].path)
            &&& class.files.no_duplicates() ==> paths_of(stretch).no_duplicates()
        }),
{
    let order = class_order(classes);
    let class = class_at(classes, order, r);
    assert(draw_holds_at(classes, order, per_class_count, seed, r));
    lemma_class_draw_bounded(
        class,
        class_draw(class, per_class_count, seed_at(classes, order, seed, r)),
        per_class_count,
    );
}

/// The order in which a root directory lists its classes does not matter:
/// two listings of the same classes, no two of them under one name, give the
/// same sample and skip the same classes.
pub proof fn lemma_sample_ignores_listing_order(
    first: Seq<ClassDirView>,
    second: Seq<ClassDirView>,
    via: Seq<usize>,
    per_class_count: usize,
    seed: u64,
)
    requires
        first.len() == second.len(),
        first.len() <= usize::MAX,
        class_names(first).no_duplicates(),
        is_draw(via, first.len() as usize, first.len() as usize),
        forall|i: int| 0 <= i < second.len() ==> second[i] == first[(#[trigger] via[i]) as int],
    ensures
        sampled(first, per_class_count, seed) == sampled(second, per_class_count, seed),
        skipped(first) == skipped(second),
{
    let first_keys = label_keys(class_names(first));
    let second_keys = label_keys(class_names(second));
    assert forall|i: int, j: int|
        0 <= i < first_keys.len() && 0 <= j < first_keys.len() && i != j implies first_keys[i]
        != first_keys[j] by {
        if first_keys[i] == first_keys[j] {
            lemma_bytes_of_injective(class_names(first)[i], class_names(first)[j]);
        }
    }
    assert forall|i: int| 0 <= i < second_keys.len() implies second_keys[i] == first_keys[(
    #[trigger] via[i]) as int] by {
        assert(via[i] < first.len());
    }
    lemma_sorted_order_of_relisted(first_keys, second_keys, via);
    lemma_sorted_order_exists(second_keys);
    let first_order = class_order(first);
    let second_order = class_order(second);
    assert forall|k: int| 0 <= k < first.len() implies #[trigger] class_at(first, first_order, k)
        == class_at(second, second_order, k) by {
        assert(second_order[k] < second.len());
        assert(first_order[k] == via[second_order[k] as int]);
    }
    lemma_sampled_upto_agrees(
        first,
        second,
        first_order,
        second_order,
        per_class_count,
        seed,
        first.len(),
    );
}

/// A class without image files is skipped as if it were not listed: the
/// sample is the sample of the listing without that class.
pub proof fn lemma_sample_ignores_empty_class(
    classes: Seq<ClassDirView>,
    i: int,
    per_class_count: usize,
    seed: u64,
)
    requires
        0 <= i < classes.len(),
        classes.len() <= usize::MAX,
        !has_images(classes[i]),
    ensures
        sampled(classes.remove(i), per_class_count, seed) == sampled(
            classes,
            per_class_count,
            seed,
        ),
{
    let rest = classes.remove(i);
    let keys = label_keys(class_names(classes));
    let rest_keys = label_keys(class_names(rest));
    assert(rest_keys =~= keys.remove(i));
    let order = class_order(classes);
    let rest_order = class_order(rest);
    let n = classes.len() as usize;
    lemma_sorted_order_exists(keys);
    lemma_sorted_order_exists(rest_keys);
    crate::order::lemma_sorted_order_is_draw(keys, order);
    lemma_full_draw_covers(order, n, n);
    assert(order.contains(i as usize));
    let p = choose|p: int| 0 <= p < order.len() && order[p] == i as usize;
    lemma_sorted_order_without(keys, i, p);
    assert forall|k: int| 0 <= k < rest.len() implies #[trigger] class_at(rest, rest_order, k)
        == class_at(classes, order, if k < p {
        k
    } else {
        k + 1
    }) by {
        let from = order[if k < p {
            k
        } else {
            k + 1
        }];
        assert(from < classes.len());
        assert(rest_order[k] == without(from, i));
        if k < p {
            assert(order[k] != order[p]);
        } else {
            assert(order[p] != order[k + 1]);
        }
    }
    assert forall|k: int| 0 <= k < p implies #[trigger] class_at(rest, rest_order, k) == class_at(
        classes,
        order,
        k,
    ) by {}
    lemma_sampled_upto_agrees(rest, classes, rest_order, order, per_class_count, seed, p as nat);
    assert(class_at(classes, order, p) == classes[i]);
    assert forall|k: int| p <= k < rest.len() implies #[trigger] class_at(rest, rest_order, k)
        == class_at(classes, order, k + 1) by {}
    lemma_sampled_upto_shifted(
        classes,
        rest,
        order,
        rest_order,
        per_class_count,
        seed,
        p as nat,
        rest.len(),
    );
}

/// What a run of the pipeline is given.
pub struct RunInputs {
    pub classes: Seq<ClassDirView>,
    pub per_class_count: usize,
    pub sample_seed: u64,
    pub train: Fraction,
    pub test: Fraction,
    pub split_seed: u64,
    pub shuffle: bool,
    pub epoch_seed: u64,
}

/// What a run of the pipeline yields: the sample, the classes skipped, the
/// three subsets, and the orders of the epochs over the training subset, as
/// many as were run.
pub struct RunView {
    pub sample: Seq<LabeledPathView>,
    pub skipped: Seq<PipelineErrorView>,
    pub train: Seq<LabeledPathView>,
    pub test: Seq<LabeledPathView>,
    pub valid: Seq<LabeledPathView>,
    pub epoch_orders: Seq<Seq<usize>>,
}

/// `run` is what sampling, splitting and the generator over the training
/// subset yield on `inputs`.
pub open spec fn is_run_of(run: RunView, inputs: RunInputs) -> bool {
    let order = drawn(run.sample.len() as usize, run.sample.len() as usize, inputs.split_seed);
    &&& run.sample == sampled(inputs.classes, inputs.per_class_count, inputs.sample_seed)
    &&& run.skipped == skipped(inputs.classes)
    &&& run.train == train_part(run.sample, order, inputs.train)
    &&& run.test == test_part(run.sample, order, inputs.train, inputs.test)
    &&& run.valid == valid_part(run.sample, order, inputs.train, inputs.test)
    &&& forall|e: int|
        0 <= e < run.epoch_orders.len() ==> #[trigger] run.epoch_orders[e] == epoch_order(
            run.train.len() as usize,
            inputs.shuffle,
            inputs.epoch_seed,
            e as u64,
        )
}

/// Two runs on the same inputs that go through as many epochs yield the
/// same sample, the same three subsets and the same order in every epoch.
pub proof fn lemma_runs_agree(first: RunView, second: RunView, inputs: RunInputs)
    requires
        is_run_of(first, inputs),
        is_run_of(second, inputs),
        first.epoch_orders.len() == second.epoch_orders.len(),
    ensures
        first == second,
{
    assert(first.epoch_orders =~= second.epoch_orders);
}

/// Once an epoch is exhausted the generator stands outside any epoch, with
/// its files, its class index and its configuration as they were. The call
/// after that begins the next epoch at the head of an order of its own, and
/// that order, being a draw of every position, reaches every file.
pub proof fn lemma_restart_after_end(s: GeneratorView)
    requires
        well_formed(s),
        s.files.len() <= usize::MAX,
        at_end(s),
    ensures
        well_formed(after_step(s)),
        !after_step(s).in_epoch,
        after_step(s).files == s.files,
        after_step(s).labels == s.labels,
        after_step(s).config == s.config,
        after_step(s).epochs_begun == serving_epochs(s),
        serving_cursor(after_step(s)) == 0,
        serving_order(after_step(s)) == epoch_order(
            s.files.len() as usize,
            s.config.shuffle,
            s.config.seed,
            serving_epochs(s),
        ),
        s.files.len() > 0 ==> !at_end(after_step(s)),
        batch_len(after_step(s)) == if s.config.batch_size <= s.files.len() {
            s.config.batch_size as nat
        } else {
            s.files.len()
        },
        is_draw(
            serving_order(after_step(s)),
            s.files.len() as usize,
            s.files.len() as usize,
        ) ==> forall|p: usize| p < s.files.len() ==> serving_order(after_step(s)).contains(p),
{
    let t = after_step(s);
    let n = s.files.len() as usize;
    if is_draw(serving_order(t), n, n) {
        lemma_full_draw_covers(serving_order(t), n, n);
    }
}

/// The state after `k` calls.
pub open spec fn after_steps(s: GeneratorView, k: nat) -> GeneratorView
    decreases k,
{
    if k == 0 {
        s
    } else {
        after_step(after_steps(s, (k - 1) as nat))
    }
}

/// What the call after `k` calls hands out.
pub open spec fn outcome_at(s: GeneratorView, k: nat) -> StepView {
    step_outcome(after_steps(s, k))
}

/// Two generators stand at the same point of the same course: they hold the
/// same files, class index and configuration, have begun as many epochs, and
/// either both stand outside an epoch or both at the same place of the same
/// order.
pub open spec fn same_course(a: GeneratorView, b: GeneratorView) -> bool {
    &&& a.files == b.files
    &&& a.labels == b.labels
    &&& a.config == b.config
    &&& a.epochs_begun == b.epochs_begun
    &&& a.in_epoch == b.in_epoch
    &&& a.in_epoch ==> a.order == b.order && a.cursor == b.cursor
}

/// Below an unknown label of the next batch there is a first one.
proof fn lemma_least_unknown(s: GeneratorView, j: int)
    requires
        0 <= j < batch_len(s),
        !label_known(s, j),
    ensures
        exists|i: int| is_first_unknown(s, i),
    decreases j,
{
    if forall|i: int| 0 <= i < j ==> label_known(s, i) {
        assert(is_first_unknown(s, j));
    } else {
        let i = choose|i: int| 0 <= i < j && !label_known(s, i);
        lemma_least_unknown(s, i);
    }
}

/// A batch that does not resolve has a first unknown label, and
/// `first_unknown` is its place.
pub proof fn lemma_first_unknown_exists(s: GeneratorView)
    requires
        !batch_resolves(s),
    ensures
        is_first_unknown(s, first_unknown(s)),
{
    let j = choose|j: int| 0 <= j < batch_len(s) && !label_known(s, j);
    lemma_least_unknown(s, j);
}

/// Two generators at the same point of the same course hand out the same
/// and stand at the same point afterwards.
pub proof fn lemma_step_agrees(a: GeneratorView, b: GeneratorView)
    requires
        same_course(a, b),
    ensures
        step_outcome(a) == step_outcome(b),
        same_course(after_step(a), after_step(b)),
{
    assert(serving_order(a) == serving_order(b));
    assert(serving_cursor(a) == serving_cursor(b));
    assert(batch_len(a) == batch_len(b));
    assert forall|j: int| batch_file(a, j) == batch_file(b, j) by {}
    assert forall|j: int| label_known(a, j) == label_known(b, j) by {
        assert(batch_file(a, j) == batch_file(b, j));
    }
    assert(batch_resolves(a) == batch_resolves(b)) by {
        if batch_resolves(a) {
            assert forall|j: int| 0 <= j < batch_len(b) implies label_known(b, j) by {
                assert(label_known(a, j));
            }
        }
        if batch_resolves(b) {
            assert forall|j: int| 0 <= j < batch_len(a) implies label_known(a, j) by {
                assert(label_known(b, j));
            }
        }
    }
    assert(batch_items(a) =~= batch_items(b)) by {
        assert forall|j: int| 0 <= j < batch_len(a) implies batch_items(a)[j] == batch_items(
            b,
        )[j] by {
            assert(batch_file(a, j) == batch_file(b, j));
        }
    }
    if !at_end(a) && !batch_resolves(a) {
        lemma_first_unknown_exists(a);
        lemma_first_unknown_exists(b);
        let i = first_unknown(a);
        assert(is_first_unknown(b, i)) by {
            assert(label_known(a, i) == label_known(b, i));
            assert forall|w: int| 0 <= w < i implies label_known(b, w) by {
                assert(label_known(a, w));
            }
        }
        lemma_first_unknown_unique(b, i, first_unknown(b));
    }
}

/// Two generators made of the same files, class index, configuration and
/// seed, and driven by the same calls, hand out the same at every call: the
/// same batches in the same order in every epoch, the same ends of epochs and
/// the same failures.
pub proof fn lemma_generators_agree(a: GeneratorView, b: GeneratorView, k: nat)
    requires
        same_course(a, b),
    ensures
        same_course(after_steps(a, k), after_steps(b, k)),
        outcome_at(a, k) == outcome_at(b, k),
    decreases k,
{
    if k > 0 {
        lemma_generators_agree(a, b, (k - 1) as nat);
        lemma_step_agrees(after_steps(a, (k - 1) as nat), after_steps(b, (k - 1) as nat));
    }
    lemma_step_agrees(after_steps(a, k), after_steps(b, k));
}

/// The order of the epoch that a generator outside any epoch begins next.
pub open spec fn next_order(s: GeneratorView) -> Seq<usize> {
    epoch_order(s.files.len() as usize, s.config.shuffle, s.config.seed, s.epochs_begun)
}

/// The class index holds the label of every file.
pub open spec fn labels_known(s: GeneratorView) -> bool {
    forall|i: int| 0 <= i < s.files.len() ==> s.labels.contains((#[trigger] s.files[i]).label)
}

/// The generator stands before an epoch that can run to its end: outside any
/// epoch, with a batch size of at least one, every label known, and the
/// order of the epoch a draw of every position.
pub open spec fn begins_epoch(s: GeneratorView) -> bool {
    &&& well_formed(s)
    &&& !s.in_epoch
    &&& s.config.batch_size >= 1
    &&& labels_known(s)
    &&& is_draw(next_order(s), s.files.len() as usize, s.files.len() as usize)
}

/// How many files of `n` have been handed out after `j` batches of size `b`.
pub open spec fn served(n: nat, b: nat, j: nat) -> nat
    decreases j,
{
    if j == 0 {
        0
    } else {
        let before = served(n, b, (j - 1) as nat);
        if b <= n - before {
            before + b
        } else {
            n
        }
    }
}

/// The number of batches of an epoch over `n` files: `n / b`, rounded up.
pub open spec fn steps_of_epoch(n: nat, b: nat) -> nat {
    ((n + b - 1) / (b as int)) as nat
}

/// The items of the epoch that begins next, in the order of that epoch.
pub open spec fn epoch_items(s: GeneratorView) -> Seq<BatchItemView> {
    Seq::new(s.files.len(), |p: int| item_at(s.labels, s.files, next_order(s), p))
}

/// The generator in the epoch that `s` begins, `cursor` files handed out.
pub open spec fn running(s: GeneratorView, cursor: nat) -> GeneratorView {
    GeneratorView {
        order: next_order(s),
        cursor: cursor as usize,
        epochs_begun: s.epochs_begun.wrapping_add(1),
        in_epoch: true,
        ..s
    }
}

/// The generator after the epoch that `s` begins.
pub open spec fn ended(s: GeneratorView) -> GeneratorView {
    GeneratorView { in_epoch: false, ..running(s, s.files.len()) }
}

/// After `j` batches of size `b`, `j * b` files have been handed out, or all.
pub proof fn lemma_served_is_min(n: nat, b: nat, j: nat)
    ensures
        served(n, b, j) == if j * b <= n {
            j * b
        } else {
            n
        },
        served(n, b, j) <= n,
    decreases j,
{
    if j > 0 {
        lemma_served_is_min(n, b, (j - 1) as nat);
        assert(j * b == (j - 1) * b + b) by (nonlinear_arith);
    } else {
        assert(0 * b == 0) by (nonlinear_arith);
    }
}

/// An epoch has `n / b` batches, rounded up: before that many the list is
/// not exhausted, and with that many it is.
pub proof fn lemma_steps_of_epoch(n: nat, b: nat, j: nat)
    requires
        b >= 1,
    ensures
        served(n, b, steps_of_epoch(n, b)) == n,
        j < steps_of_epoch(n, b) ==> served(n, b, j) < n,
{
    let k = steps_of_epoch(n, b);
    vstd::arithmetic::div_mod::lemma_fundamental_div_mod(n + b - 1, b as int);
    vstd::arithmetic::div_mod::lemma_mod_bound(n + b - 1, b as int);
    vstd::arithmetic::div_mod::lemma_div_pos_is_pos(n + b - 1, b as int);
    assert(b * k == k * b) by (nonlinear_arith);
    assert(k * b >= n);
    lemma_served_is_min(n, b, k);
    if j < k {
        lemma_served_is_min(n, b, j);
        assert(j * b <= (k - 1) * b) by (nonlinear_arith)
            requires
                j <= k - 1,
        ;
        assert((k - 1) * b == k * b - b) by (nonlinear_arith);
    }
}

/// Place `p` of the epoch's order lies in batch `j`.
pub open spec fn in_batch(n: nat, b: nat, j: nat, p: nat) -> bool {
    served(n, b, j) <= p < served(n, b, j + 1)
}

/// Place `p` of the epoch's order lies in one of the epoch's batches.
pub open spec fn place_is_served(n: nat, b: nat, p: nat) -> bool {
    exists|j: nat| j < steps_of_epoch(n, b) && #[trigger] in_batch(n, b, j, p)
}

/// Every place of the epoch's order lies in one of its batches.
pub proof fn lemma_place_is_served(n: nat, b: nat, p: nat)
    requires
        b >= 1,
        p < n,
    ensures
        place_is_served(n, b, p),
{
    let j = (p / b) as nat;
    vstd::arithmetic::div_mod::lemma_fundamental_div_mod(p as int, b as int);
    vstd::arithmetic::div_mod::lemma_mod_bound(p as int, b as int);
    vstd::arithmetic::div_mod::lemma_div_pos_is_pos(p as int, b as int);
    assert(b * j == j * b) by (nonlinear_arith);
    assert((j + 1) * b == j * b + b) by (nonlinear_arith);
    lemma_served_is_min(n, b, j);
    lemma_served_is_min(n, b, j + 1);
    let k = steps_of_epoch(n, b);
    if j >= k {
        lemma_steps_of_epoch(n, b, 0);
        lemma_served_is_min(n, b, k);
        assert(k * b <= j * b) by (nonlinear_arith)
            requires
                k <= j,
        ;
    }
    assert(j < k && in_batch(n, b, j, p));
}

/// In the epoch that `s` begins, while files are left the next call hands
/// out the batch of the next places of the epoch's order and moves on by its
/// length.
proof fn lemma_running_step(s: GeneratorView, t: GeneratorView, j: nat)
    requires
        begins_epoch(s),
        served(s.files.len(), s.config.batch_size as nat, j) < s.files.len(),
        j == 0 ==> t == s,
        j > 0 ==> t == running(s, served(s.files.len(), s.config.batch_size as nat, j)),
    ensures
        after_step(t) == running(s, served(s.files.len(), s.config.batch_size as nat, j + 1)),
        step_outcome(t) == StepView::Batch(
            epoch_items(s).subrange(
                served(s.files.len(), s.config.batch_size as nat, j) as int,
                served(s.files.len(), s.config.batch_size as nat, j + 1) as int,
            ),
        ),
{
    let n = s.files.len();
    let b = s.config.batch_size as nat;
    let c = served(n, b, j);
    let c2 = served(n, b, j + 1);
    lemma_served_is_min(n, b, j);
    lemma_served_is_min(n, b, j + 1);
    assert(serving_order(t) == next_order(s));
    assert(serving_cursor(t) == c);
    assert(serving_epochs(t) == s.epochs_begun.wrapping_add(1));
    assert(batch_len(t) == c2 - c);
    assert forall|i: int| 0 <= i < batch_len(t) implies label_known(t, i) by {
        let position = next_order(s)[c + i];
        assert(position < n);
        assert(s.labels.contains(s.files[position as int].label));
    }
    assert(batch_items(t) =~= epoch_items(s).subrange(c as int, c2 as int));
}

/// The course of an epoch over a list that is not empty. The call after `j`
/// calls hands out the batch of the places from `served(j)` up to
/// `served(j + 1)` of the epoch's order, as long as files are left; the call
/// after the last batch hands out `EndOfEpoch` and leaves the generator
/// outside the epoch.
pub proof fn lemma_epoch_course(s: GeneratorView, j: nat)
    requires
        begins_epoch(s),
        s.files.len() > 0,
    ensures
        served(s.files.len(), s.config.batch_size as nat, j) < s.files.len() ==> {
            &&& after_steps(s, j + 1) == running(
                s,
                served(s.files.len(), s.config.batch_size as nat, j + 1),
            )
            &&& outcome_at(s, j) == StepView::Batch(
                epoch_items(s).subrange(
                    served(s.files.len(), s.config.batch_size as nat, j) as int,
                    served(s.files.len(), s.config.batch_size as nat, j + 1) as int,
                ),
            )
        },
        j >= 1 && served(s.files.len(), s.config.batch_size as nat, j) == s.files.len() && served(
            s.files.len(),
            s.config.batch_size as nat,
            (j - 1) as nat,
        ) < s.files.len() ==> {
            &&& outcome_at(s, j) == StepView::EndOfEpoch
            &&& after_steps(s, j + 1) == ended(s)
        },
    decreases j,
{
    let n = s.files.len();
    let b = s.config.batch_size as nat;
    lemma_served_is_min(n, b, j);
    if j == 0 {
        lemma_running_step(s, s, 0);
        assert(after_steps(s, 1) == after_step(after_steps(s, 0)));
    } else {
        let before = (j - 1) as nat;
        lemma_epoch_course(s, before);
        lemma_served_is_min(n, b, before);
        assert(after_steps(s, j + 1) == after_step(after_steps(s, j)));
        if served(n, b, before) < n {
            let t = after_steps(s, j);
            assert(t == running(s, served(n, b, j)));
            if served(n, b, j) < n {
                lemma_running_step(s, t, j);
            } else {
                assert(at_end(t));
                assert(after_step(t) == ended(s));
            }
        }
    }
}

/// After `EndOfEpoch` a whole epoch follows. From a generator that stands
/// outside any epoch, the next `n / b` calls, rounded up, each hand out a
/// batch; the batches are the stretches `served(j) .. served(j + 1)` of the
/// epoch's items, which lie end to end from the first place to the last; the
/// call after them hands out `EndOfEpoch`, which is no failure, and leaves
/// the generator outside the epoch; the epoch's order names every file
/// once, so that the batches together hold each file exactly once; and the
/// generator then stands before the next epoch as it stood before this one.
pub proof fn lemma_epoch_covers_the_list(s: GeneratorView)
    requires
        begins_epoch(s),
    ensures
        forall|j: nat|
            j < steps_of_epoch(s.files.len(), s.config.batch_size as nat) ==> #[trigger] outcome_at(
                s,
                j,
            ) == StepView::Batch(
                epoch_items(s).subrange(
                    served(s.files.len(), s.config.batch_size as nat, j) as int,
                    served(s.files.len(), s.config.batch_size as nat, j + 1) as int,
                ),
            ),
        outcome_at(s, steps_of_epoch(s.files.len(), s.config.batch_size as nat))
            == StepView::EndOfEpoch,
        after_steps(s, steps_of_epoch(s.files.len(), s.config.batch_size as nat) + 1) == ended(s),
        served(s.files.len(), s.config.batch_size as nat, 0) == 0,
        served(
            s.files.len(),
            s.config.batch_size as nat,
            steps_of_epoch(s.files.len(), s.config.batch_size as nat),
        ) == s.files.len(),
        forall|p: nat|
            p < s.files.len() ==> #[trigger] place_is_served(
                s.files.len(),
                s.config.batch_size as nat,
                p,
            ),
        forall|i: usize| i < s.files.len() ==> next_order(s).contains(i),
        forall|p: int, q: int|
            0 <= p < q < s.files.len() ==> next_order(s)[p] != next_order(s)[q],
        is_draw(next_order(ended(s)), s.files.len() as usize, s.files.len() as usize)
            ==> begins_epoch(ended(s)),
{
    let n = s.files.len();
    let b = s.config.batch_size as nat;
    let k = steps_of_epoch(n, b);
    assert(labels_known(ended(s))) by {
        assert forall|i: int| 0 <= i < ended(s).files.len() implies ended(s).labels.contains(
            (#[trigger] ended(s).files[i]).label,
        ) by {
            assert(s.labels.contains(s.files[i].label));
        }
    }
    lemma_steps_of_epoch(n, b, 0);
    lemma_full_draw_covers(next_order(s), n as usize, n as usize);
    assert forall|p: nat| p < n implies #[trigger] place_is_served(n, b, p) by {
        lemma_place_is_served(n, b, p);
    }
    if n == 0 {
        assert(k == 0) by {
            vstd::arithmetic::div_mod::lemma_basic_div(b - 1, b as int);
        }
        assert(at_end(s));
        assert(after_steps(s, 1) == after_step(after_steps(s, 0)));
        assert(after_step(s) == ended(s));
    } else {
        assert forall|j: nat| j < k implies #[trigger] outcome_at(s, j) == StepView::Batch(
            epoch_items(s).subrange(served(n, b, j) as int, served(n, b, j + 1) as int),
        ) by {
            lemma_steps_of_epoch(n, b, j);
            lemma_epoch_course(s, j);
        }
        assert(k >= 1) by {
            if k == 0 {
                assert(served(n, b, 0) == 0);
            }
        }
        lemma_steps_of_epoch(n, b, (k - 1) as nat);
        lemma_epoch_course(s, k);
    }
}

} // verus!
