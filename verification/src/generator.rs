//! The batch generator: which files make up the next batch, and under which
//! label index.
//!
//! An epoch is one pass over the file list, in the stored order or in a
//! shuffled one. The order of the epoch with number `e` is drawn with the seed
//! `seed + e` (wrapping), so each epoch has an order of its own and the same
//! seed gives the same epochs. The generator hands out the files of a batch;
//! reading and decoding them is left to the caller, so nothing is loaded
//! before it is asked for.
//!
//! With a batch size of zero every batch is empty and an epoch over a
//! non-empty list never ends.

use crate::class_index::{lemma_ascending_labels_distinct, strictly_ascending, ClassIndex};
use crate::model::{LabeledPath, LabeledPathView, PipelineError, PipelineErrorView};
use crate::order::label_keys;
use crate::pixels::{ColorMode, Normalization};
use crate::random::{counting_order, drawn, is_draw, shuffled_order};
use vstd::prelude::*;

verus! {

/// What a generator is made with, besides its files and its class index.
#[derive(Clone, Copy, Debug, PartialEq, Eq, Structural)]
pub struct GeneratorConfig {
    pub target_width: u32,
    pub target_height: u32,
    pub color_mode: ColorMode,
    pub normalization: Normalization,
    pub batch_size: usize,
    pub shuffle: bool,
    pub seed: u64,
}

/// One file of a batch and the index of its class.
#[derive(Debug, PartialEq, Eq)]
pub struct BatchItem {
    pub path: String,
    pub label_index: usize,
}

/// What a [`BatchItem`] holds.
pub struct BatchItemView {
    pub path: Seq<char>,
    pub label_index: usize,
}

impl DeepView for BatchItem {
    type V = BatchItemView;

    open spec fn deep_view(&self) -> BatchItemView {
        BatchItemView { path: self.path@, label_index: self.label_index }
    }
}

/// What one call of [`ImageBatchGenerator::next_batch`] hands out.
#[derive(Debug, PartialEq, Eq)]
pub enum BatchStep {
    /// The files of the next batch, in the order of the epoch.
    Batch(Vec<BatchItem>),
    /// The epoch is exhausted. The next call begins a new one.
    EndOfEpoch,
}

/// The state of a generator.
pub struct GeneratorView {
    pub files: Seq<LabeledPathView>,
    pub labels: Seq<Seq<char>>,
    pub config: GeneratorConfig,
    /// The order of the running epoch.
    pub order: Seq<usize>,
    /// How many files of the running epoch have been handed out.
    pub cursor: usize,
    /// How many epochs have begun.
    pub epochs_begun: u64,
    /// An epoch is running.
    pub in_epoch: bool,
}

/// The positions `0, 1, .., n - 1`.
pub open spec fn counting(n: usize) -> Seq<usize> {
    Seq::new(n as nat, |i: int| i as usize)
}

/// The order of the epoch with number `epoch` over `n` files.
pub open spec fn epoch_order(n: usize, shuffle: bool, seed: u64, epoch: u64) -> Seq<usize> {
    if shuffle {
        drawn(n, n, seed.wrapping_add(epoch))
    } else {
        counting(n)
    }
}

/// The number of the running epoch: one less than the epochs begun.
pub open spec fn running_epoch(s: GeneratorView) -> u64 {
    s.epochs_begun.wrapping_sub(1)
}

/// The labels of the class index ascend, and the order of a running epoch is
/// the order of that epoch: it names every file once.
pub open spec fn well_formed(s: GeneratorView) -> bool {
    &&& s.files.len() <= usize::MAX
    &&& strictly_ascending(label_keys(s.labels))
    &&& s.in_epoch ==> {
        &&& s.order == epoch_order(
            s.files.len() as usize,
            s.config.shuffle,
            s.config.seed,
            running_epoch(s),
        )
        &&& is_draw(s.order, s.files.len() as usize, s.files.len() as usize)
        &&& s.cursor <= s.files.len()
    }
}

/// The order that the next call serves from: that of the running epoch, or
/// that of the epoch which the call begins.
pub open spec fn serving_order(s: GeneratorView) -> Seq<usize> {
    if s.in_epoch {
        s.order
    } else {
        epoch_order(s.files.len() as usize, s.config.shuffle, s.config.seed, s.epochs_begun)
    }
}

/// The place in the serving order at which the next call starts.
pub open spec fn serving_cursor(s: GeneratorView) -> usize {
    if s.in_epoch {
        s.cursor
    } else {
        0
    }
}

/// The number of epochs begun once the next call has been made.
pub open spec fn serving_epochs(s: GeneratorView) -> u64 {
    if s.in_epoch {
        s.epochs_begun
    } else {
        s.epochs_begun.wrapping_add(1)
    }
}

/// The next call finds the epoch exhausted.
pub open spec fn at_end(s: GeneratorView) -> bool {
    serving_cursor(s) == s.files.len()
}

/// The length of the next batch: the batch size, or what is left of the epoch.
pub open spec fn batch_len(s: GeneratorView) -> nat {
    let rest = s.files.len() - serving_cursor(s);
    if s.config.batch_size <= rest {
        s.config.batch_size as nat
    } else {
        rest as nat
    }
}

/// The file that stands at place `j` of the next batch.
pub open spec fn batch_file(s: GeneratorView, j: int) -> LabeledPathView {
    s.files[serving_order(s)[serving_cursor(s) + j] as int]
}

/// The class index holds the label of the file at place `j` of the next batch.
pub open spec fn label_known(s: GeneratorView, j: int) -> bool {
    s.labels.contains(batch_file(s, j).label)
}

/// The class index holds the label of every file of the next batch.
pub open spec fn batch_resolves(s: GeneratorView) -> bool {
    forall|j: int| 0 <= j < batch_len(s) ==> label_known(s, j)
}

/// Place `j` is the first of the next batch whose label the class index lacks.
pub open spec fn is_first_unknown(s: GeneratorView, j: int) -> bool {
    &&& 0 <= j < batch_len(s)
    &&& !label_known(s, j)
    &&& forall|i: int| 0 <= i < j ==> label_known(s, i)
}

/// A batch has one first unknown label at most.
pub proof fn lemma_first_unknown_unique(s: GeneratorView, i: int, j: int)
    requires
        is_first_unknown(s, i),
        is_first_unknown(s, j),
    ensures
        i == j,
{
    if i < j {
        assert(label_known(s, i));
    } else if j < i {
        assert(label_known(s, j));
    }
}

/// The next batch.
pub open spec fn batch_items(s: GeneratorView) -> Seq<BatchItemView> {
    Seq::new(
        batch_len(s),
        |j: int|
            BatchItemView {
                path: batch_file(s, j).path,
                label_index: s.labels.index_of(batch_file(s, j).label) as usize,
            },
    )
}

/// What a call hands out, seen without the strings' storage.
pub enum StepView {
    EndOfEpoch,
    Batch(Seq<BatchItemView>),
    Failed(PipelineErrorView),
}

/// What `step` hands out.
pub open spec fn step_view(step: Result<BatchStep, PipelineError>) -> StepView {
    match step {
        Ok(BatchStep::EndOfEpoch) => StepView::EndOfEpoch,
        Ok(BatchStep::Batch(items)) => StepView::Batch(items.deep_view()),
        Err(e) => StepView::Failed(e.deep_view()),
    }
}

/// The first place of the next batch whose label the class index lacks.
pub open spec fn first_unknown(s: GeneratorView) -> int {
    choose|j: int| is_first_unknown(s, j)
}

/// What the next call hands out: the end of the epoch, the next batch, or
/// the first label of that batch that the class index lacks.
pub open spec fn step_outcome(s: GeneratorView) -> StepView {
    if at_end(s) {
        StepView::EndOfEpoch
    } else if batch_resolves(s) {
        StepView::Batch(batch_items(s))
    } else {
        StepView::Failed(
            PipelineErrorView::UnknownClass { label: batch_file(s, first_unknown(s)).label },
        )
    }
}

/// The state after the next call: past the batch it hands out, out of the
/// epoch where it finds the epoch exhausted, unchanged where it fails.
pub open spec fn after_step(s: GeneratorView) -> GeneratorView {
    if at_end(s) {
        GeneratorView {
            order: serving_order(s),
            cursor: serving_cursor(s),
            epochs_begun: serving_epochs(s),
            in_epoch: false,
            ..s
        }
    } else if batch_resolves(s) {
        GeneratorView {
            order: serving_order(s),
            cursor: (serving_cursor(s) + batch_len(s)) as usize,
            epochs_begun: serving_epochs(s),
            in_epoch: true,
            ..s
        }
    } else {
        s
    }
}

/// Produces, epoch after epoch, the batches of a labeled file list.
#[derive(Debug)]
pub struct ImageBatchGenerator {
    files: Vec<LabeledPath>,
    class_index: ClassIndex,
    config: GeneratorConfig,
    order: Vec<usize>,
    cursor: usize,
    epochs_begun: u64,
    in_epoch: bool,
}

impl View for ImageBatchGenerator {
    type V = GeneratorView;

    closed spec fn view(&self) -> GeneratorView {
        GeneratorView {
            files: self.files.deep_view(),
            labels: self.class_index.labels(),
            config: self.config,
            order: self.order@,
            cursor: self.cursor,
            epochs_begun: self.epochs_begun,
            in_epoch: self.in_epoch,
        }
    }
}

/// The file at place `p` of `order`.
pub open spec fn file_at(files: Seq<LabeledPathView>, order: Seq<usize>, p: int) -> LabeledPathView {
    files[order[p] as int]
}

/// `labels` holds the label of the file at place `p` of `order`.
pub open spec fn known_at(
    labels: Seq<Seq<char>>,
    files: Seq<LabeledPathView>,
    order: Seq<usize>,
    p: int,
) -> bool {
    labels.contains(file_at(files, order, p).label)
}

/// The batch item for the file at place `p` of `order`.
pub open spec fn item_at(
    labels: Seq<Seq<char>>,
    files: Seq<LabeledPathView>,
    order: Seq<usize>,
    p: int,
) -> BatchItemView {
    BatchItemView {
        path: file_at(files, order, p).path,
        label_index: labels.index_of(file_at(files, order, p).label) as usize,
    }
}

/// `items` are the batch items for the places `cursor`, `cursor + 1`, .. of
/// `order`, and the labels of those files are all known.
pub open spec fn resolved_from(
    labels: Seq<Seq<char>>,
    files: Seq<LabeledPathView>,
    order: Seq<usize>,
    cursor: int,
    items: Seq<BatchItemView>,
) -> bool {
    forall|p: int|
        cursor <= p < cursor + items.len() ==> {
            &&& #[trigger] known_at(labels, files, order, p)
            &&& items[p - cursor] == item_at(labels, files, order, p)
        }
}

/// `e` reports the first unknown label among the files at the places
/// `cursor`, .., `cursor + take - 1` of `order`.
pub open spec fn refused_from(
    labels: Seq<Seq<char>>,
    files: Seq<LabeledPathView>,
    order: Seq<usize>,
    cursor: int,
    take: int,
    e: PipelineErrorView,
) -> bool {
    exists|p: int|
        {
            &&& cursor <= p < cursor + take
            &&& !#[trigger] known_at(labels, files, order, p)
            &&& forall|q: int| cursor <= q < p ==> #[trigger] known_at(labels, files, order, q)
            &&& e == (PipelineErrorView::UnknownClass { label: file_at(files, order, p).label })
        }
}

/// Looks up the files at the places `cursor`, .., `cursor + take - 1` of
/// `order` and resolves their labels.
fn resolve_batch(
    files: &Vec<LabeledPath>,
    class_index: &ClassIndex,
    order: &Vec<usize>,
    cursor: usize,
    take: usize,
) -> (outcome: Result<Vec<BatchItem>, PipelineError>)
    requires
        cursor + take <= order.len(),
        forall|k: int| 0 <= k < order.len() ==> (#[trigger] order[k]) < files.len(),
    ensures
        strictly_ascending(label_keys(class_index.labels())),
        match outcome {
            Ok(items) => {
                &&& items.len() == take
                &&& resolved_from(
                    class_index.labels(),
                    files.deep_view(),
                    order@,
                    cursor as int,
                    items.deep_view(),
                )
            },
            Err(e) => refused_from(
                class_index.labels(),
                files.deep_view(),
                order@,
                cursor as int,
                take as int,
                e.deep_view(),
            ),
        },
{
    proof {
        use_type_invariant(class_index);
        lemma_ascending_labels_distinct(class_index.labels());
    }
    let ghost labels = class_index.labels();
    let ghost listed = files.deep_view();
    let mut items: Vec<BatchItem> = Vec::new();
    let mut j: usize = 0;
    while j < take
        invariant
            cursor + take <= order.len(),
            forall|k: int| 0 <= k < order.len() ==> (#[trigger] order[k]) < files.len(),
            labels == class_index.labels(),
            listed == files.deep_view(),
            labels.no_duplicates(),
            strictly_ascending(label_keys(labels)),
            j <= take,
            items.len() == j,
            resolved_from(labels, listed, order@, cursor as int, items.deep_view()),
        decreases take - j,
    {
        let place = cursor + j;
        let file = &files[order[place]];
        let ghost file_view = file_at(listed, order@, place as int);
        assert(file_view.label == file.label@ && file_view.path == file.path@);
        match class_index.index_of(&file.label) {
            Some(label_index) => {
                let ghost before = items.deep_view();
                items.push(BatchItem { path: file.path.clone(), label_index });
                proof {
                    let chosen = labels.index_of(file_view.label);
                    assert(labels[label_index as int] == file_view.label);
                    assert(labels.contains(file_view.label));
                    assert(0 <= chosen < labels.len() && labels[chosen] == file_view.label);
                    assert(chosen == label_index);
                    let after = items.deep_view();
                    assert(after[j as int] == item_at(labels, listed, order@, place as int));
                    assert forall|p: int| cursor <= p < cursor + after.len() implies {
                        &&& #[trigger] known_at(labels, listed, order@, p)
                        &&& after[p - cursor] == item_at(labels, listed, order@, p)
                    } by {
                        if p < cursor + j {
                            assert(known_at(labels, listed, order@, p));
                            assert(before[p - cursor] == item_at(labels, listed, order@, p));
                            assert(after[p - cursor] == before[p - cursor]);
                        } else {
                            assert(p == place);
                        }
                    }
                }
            },
            None => {
                let e = PipelineError::UnknownClass { label: file.label.clone() };
                assert(!known_at(labels, listed, order@, place as int));
                return Err(e);
            },
        }
        j = j + 1;
    }
    Ok(items)
}

/// A batch whose items resolve place by place is the next batch.
proof fn lemma_batch_served(s: GeneratorView, items: Seq<BatchItemView>)
    requires
        items.len() == batch_len(s),
        resolved_from(s.labels, s.files, serving_order(s), serving_cursor(s) as int, items),
    ensures
        batch_resolves(s),
        items == batch_items(s),
{
    let cursor = serving_cursor(s) as int;
    assert forall|j: int| 0 <= j < batch_len(s) implies label_known(s, j) by {
        assert(known_at(s.labels, s.files, serving_order(s), cursor + j));
    }
    assert forall|j: int| 0 <= j < batch_len(s) implies items[j] == batch_items(s)[j] by {
        assert(known_at(s.labels, s.files, serving_order(s), cursor + j));
    }
    assert(items =~= batch_items(s));
}

/// A batch that fails at its first unknown label fails as the next batch does.
proof fn lemma_batch_refused(s: GeneratorView, e: PipelineErrorView)
    requires
        refused_from(
            s.labels,
            s.files,
            serving_order(s),
            serving_cursor(s) as int,
            batch_len(s) as int,
            e,
        ),
    ensures
        !batch_resolves(s),
        exists|j: int|
            #![trigger batch_file(s, j)]
            {
                &&& is_first_unknown(s, j)
                &&& e == (PipelineErrorView::UnknownClass { label: batch_file(s, j).label })
            },
        e == (PipelineErrorView::UnknownClass { label: batch_file(s, first_unknown(s)).label }),
{
    let cursor = serving_cursor(s) as int;
    let p = choose|p: int|
        {
            &&& cursor <= p < cursor + batch_len(s)
            &&& !#[trigger] known_at(s.labels, s.files, serving_order(s), p)
            &&& forall|q: int|
                cursor <= q < p ==> #[trigger] known_at(s.labels, s.files, serving_order(s), q)
            &&& e == (PipelineErrorView::UnknownClass {
                label: file_at(s.files, serving_order(s), p).label,
            })
        };
    let j = p - cursor;
    assert(!label_known(s, j));
    assert forall|i: int| 0 <= i < j implies label_known(s, i) by {
        assert(known_at(s.labels, s.files, serving_order(s), cursor + i));
    }
    assert(is_first_unknown(s, j));
    assert(batch_file(s, j).label == file_at(s.files, serving_order(s), p).label);
    lemma_first_unknown_unique(s, j, first_unknown(s));
}

impl ImageBatchGenerator {
    #[verifier::type_invariant]
    spec fn holds(&self) -> bool {
        well_formed(self@)
    }

    /// Makes a generator over `files`. No epoch is running yet.
    pub fn new(files: Vec<LabeledPath>, class_index: ClassIndex, config: GeneratorConfig) -> (made:
        ImageBatchGenerator)
        ensures
            well_formed(made@),
            made@.files == files.deep_view(),
            made@.labels == class_index.labels(),
            made@.config == config,
            made@.epochs_begun == 0,
            !made@.in_epoch,
    {
        proof {
            use_type_invariant(&class_index);
            assert(files.deep_view().len() == files.len());
        }
        ImageBatchGenerator {
            files,
            class_index,
            config,
            order: Vec::new(),
            cursor: 0,
            epochs_begun: 0,
            in_epoch: false,
        }
    }

    /// What the generator was made with.
    pub fn config(&self) -> (config: GeneratorConfig)
        ensures
            config == self@.config,
    {
        self.config
    }

    /// The class index.
    pub fn class_index(&self) -> (index: &ClassIndex)
        ensures
            index.labels() == self@.labels,
    {
        &self.class_index
    }

    /// The number of files of an epoch.
    pub fn len(&self) -> (n: usize)
        ensures
            n == self@.files.len(),
    {
        self.files.len()
    }

    /// The number of epochs that have begun.
    pub fn epochs_begun(&self) -> (n: u64)
        ensures
            n == self@.epochs_begun,
    {
        self.epochs_begun
    }

    /// Tells whether an epoch is running.
    pub fn in_epoch(&self) -> (running: bool)
        ensures
            running == self@.in_epoch,
    {
        self.in_epoch
    }

    /// Hands out the next batch of the running epoch, or `EndOfEpoch` where
    /// that epoch is exhausted. Where no epoch is running the call begins
    /// one, with an order of its own if the generator shuffles.
    ///
    /// Fails with `UnknownClass` exactly when the class index lacks the label
    /// of a file of the batch; the error names the first such label, and the
    /// generator is left as it was.
    pub fn next_batch(&mut self) -> (step: Result<BatchStep, PipelineError>)
        ensures
            well_formed(old(self)@),
            well_formed(final(self)@),
            final(self)@ == after_step(old(self)@),
            step_view(step) == step_outcome(old(self)@),
            is_draw(
                serving_order(old(self)@),
                old(self)@.files.len() as usize,
                old(self)@.files.len() as usize,
            ),
            match step {
                Ok(BatchStep::EndOfEpoch) => at_end(old(self)@),
                Ok(BatchStep::Batch(items)) => {
                    &&& !at_end(old(self)@)
                    &&& batch_resolves(old(self)@)
                    &&& items.deep_view() == batch_items(old(self)@)
                    &&& items.len() == batch_len(old(self)@)
                },
                Err(e) => {
                    &&& !at_end(old(self)@)
                    &&& exists|j: int|
                        #![trigger batch_file(old(self)@, j)]
                        {
                            &&& is_first_unknown(old(self)@, j)
                            &&& e.deep_view() == (PipelineErrorView::UnknownClass {
                                label: batch_file(old(self)@, j).label,
                            })
                        }
                },
            },
    {
        proof {
            use_type_invariant(&*self);
        }
        let ghost before = self@;
        let n = self.files.len();
        if !self.in_epoch {
            let fresh = if self.config.shuffle {
                shuffled_order(n, self.config.seed.wrapping_add(self.epochs_begun))
            } else {
                counting_order(n)
            };
            assert(fresh@ =~= serving_order(before));
            if n == 0 {
                self.order = fresh;
                self.cursor = 0;
                self.epochs_begun = self.epochs_begun.wrapping_add(1);
                return Ok(BatchStep::EndOfEpoch);
            }
            let take = if self.config.batch_size <= n {
                self.config.batch_size
            } else {
                n
            };
            match resolve_batch(&self.files, &self.class_index, &fresh, 0, take) {
                Ok(items) => {
                    proof {
                        lemma_batch_served(before, items.deep_view());
                    }
                    self.order = fresh;
                    self.cursor = take;
                    self.epochs_begun = self.epochs_begun.wrapping_add(1);
                    self.in_epoch = true;
                    Ok(BatchStep::Batch(items))
                },
                Err(e) => {
                    proof {
                        lemma_batch_refused(before, e.deep_view());
                    }
                    Err(e)
                },
            }
        } else {
            if self.cursor == n {
                self.in_epoch = false;
                return Ok(BatchStep::EndOfEpoch);
            }
            let rest = n - self.cursor;
            let take = if self.config.batch_size <= rest {
                self.config.batch_size
            } else {
                rest
            };
            let cursor = self.cursor;
            match resolve_batch(&self.files, &self.class_index, &self.order, cursor, take) {
                Ok(items) => {
                    proof {
                        lemma_batch_served(before, items.deep_view());
                    }
                    self.cursor = cursor + take;
                    Ok(BatchStep::Batch(items))
                },
                Err(e) => {
                    proof {
                        lemma_batch_refused(before, e.deep_view());
                    }
                    Err(e)
                },
            }
        }
    }
}

} // verus!
