//! Stratified sampling of class directories.
//!
//! The classes are taken in ascending order of their names. Of each class the
//! image files are kept, and a fixed number of them is drawn at random without
//! repetition. A class without image files is skipped and reported, and the
//! others are sampled as if it were not there: each class that holds image
//! files is drawn with a seed of its own, the caller's seed plus the number
//! of such classes before it. The draws are laid end to end.

use crate::model::{
    ClassDir, ClassDirView, LabeledPath, LabeledPathView, PipelineError, PipelineErrorView,
};
use crate::order::{is_sorted_order, label_keys, sorted_order, sorted_order_of};
use crate::random::{draw_positions, drawn, is_draw};
use crate::text::{bytes_of, has_image_extension, is_image_path};
use vstd::prelude::*;

verus! {

/// A root directory as it was found: its path, and its class directories
/// where the root exists and is a directory.
#[derive(Debug, PartialEq, Eq)]
pub struct RootListing {
    pub root: String,
    pub classes: Option<Vec<ClassDir>>,
}

/// The outcome of sampling: the files drawn, and one `EmptyClass` for each
/// class that was skipped because it holds no image file.
#[derive(Debug, PartialEq, Eq)]
pub struct Sample {
    pub paths: Vec<LabeledPath>,
    pub skipped: Vec<PipelineError>,
}

/// The test that keeps image files.
pub open spec fn image_file_test() -> spec_fn(Seq<char>) -> bool {
    |path: Seq<char>| is_image_path(bytes_of(path))
}

/// The image files among `files`, in the order given.
pub open spec fn eligible_files(files: Seq<Seq<char>>) -> Seq<Seq<char>> {
    files.filter(image_file_test())
}

/// The files at the positions `picks`, each with `label`.
pub open spec fn labeled_picks(files: Seq<Seq<char>>, label: Seq<char>, picks: Seq<usize>) -> Seq<
    LabeledPathView,
> {
    Seq::new(picks.len(), |i: int| LabeledPathView { path: files[picks[i] as int], label })
}

/// The class holds at least one image file.
pub open spec fn has_images(class: ClassDirView) -> bool {
    eligible_files(class.files).len() > 0
}

/// The seed of the class that stands at `rank` among the classes that hold
/// image files.
pub open spec fn class_seed(seed: u64, rank: nat) -> u64 {
    seed.wrapping_add(rank as u64)
}

/// The positions drawn from the image files of one class with the seed given.
pub open spec fn class_draw(class: ClassDirView, per_class_count: usize, seed: u64) -> Seq<usize> {
    drawn(eligible_files(class.files).len() as usize, per_class_count, seed)
}

/// What is drawn from one class with the seed given.
pub open spec fn class_sample(class: ClassDirView, per_class_count: usize, seed: u64) -> Seq<
    LabeledPathView,
> {
    labeled_picks(
        eligible_files(class.files),
        class.name,
        class_draw(class, per_class_count, seed),
    )
}

/// The number of files that a class contributes: as many as are asked for,
/// or every image file where it holds fewer.
pub open spec fn class_share(class: ClassDirView, per_class_count: usize) -> nat {
    if per_class_count <= eligible_files(class.files).len() {
        per_class_count as nat
    } else {
        eligible_files(class.files).len()
    }
}

/// The names of the classes, in the order given.
pub open spec fn class_names(classes: Seq<ClassDirView>) -> Seq<Seq<char>> {
    Seq::new(classes.len(), |i: int| classes[i].name)
}

/// The order in which the classes are taken.
pub open spec fn class_order(classes: Seq<ClassDirView>) -> Seq<usize> {
    sorted_order_of(label_keys(class_names(classes)))
}

/// The class that stands at place `r` of `order`.
pub open spec fn class_at(classes: Seq<ClassDirView>, order: Seq<usize>, r: int) -> ClassDirView {
    classes[order[r] as int]
}

/// The number of classes with image files among the first `upto` of `order`.
pub open spec fn kept_upto(classes: Seq<ClassDirView>, order: Seq<usize>, upto: nat) -> nat
    decreases upto,
{
    if upto == 0 {
        0
    } else if has_images(class_at(classes, order, upto - 1)) {
        kept_upto(classes, order, (upto - 1) as nat) + 1
    } else {
        kept_upto(classes, order, (upto - 1) as nat)
    }
}

/// The seed with which the class at place `r` of `order` is drawn.
pub open spec fn seed_at(classes: Seq<ClassDirView>, order: Seq<usize>, seed: u64, r: int) -> u64 {
    class_seed(seed, kept_upto(classes, order, r as nat))
}

/// The draw from the class at place `r` of `order` is a draw: as many
/// distinct positions among its image files as asked for, or all of them.
pub open spec fn draw_holds_at(
    classes: Seq<ClassDirView>,
    order: Seq<usize>,
    per_class_count: usize,
    seed: u64,
    r: int,
) -> bool {
    &&& eligible_files(class_at(classes, order, r).files).len() <= usize::MAX
    &&& is_draw(
        class_draw(class_at(classes, order, r), per_class_count, seed_at(classes, order, seed, r)),
        eligible_files(class_at(classes, order, r).files).len() as usize,
        per_class_count,
    )
}

/// What is drawn from the first `upto` classes of `order`.
pub open spec fn sampled_upto(
    classes: Seq<ClassDirView>,
    order: Seq<usize>,
    per_class_count: usize,
    seed: u64,
    upto: nat,
) -> Seq<LabeledPathView>
    decreases upto,
{
    if upto == 0 {
        Seq::empty()
    } else {
        let r = (upto - 1) as int;
        let before = sampled_upto(classes, order, per_class_count, seed, r as nat);
        if has_images(class_at(classes, order, r)) {
            before + class_sample(
                class_at(classes, order, r),
                per_class_count,
                seed_at(classes, order, seed, r),
            )
        } else {
            before
        }
    }
}

/// The number of files that the first `upto` classes of `order` contribute.
pub open spec fn shares_upto(
    classes: Seq<ClassDirView>,
    order: Seq<usize>,
    per_class_count: usize,
    upto: nat,
) -> nat
    decreases upto,
{
    if upto == 0 {
        0
    } else {
        shares_upto(classes, order, per_class_count, (upto - 1) as nat) + class_share(
            class_at(classes, order, upto - 1),
            per_class_count,
        )
    }
}

/// The classes among the first `upto` of `order` that hold no image file.
pub open spec fn skipped_upto(classes: Seq<ClassDirView>, order: Seq<usize>, upto: nat) -> Seq<
    PipelineErrorView,
>
    decreases upto,
{
    if upto == 0 {
        Seq::empty()
    } else {
        let class = class_at(classes, order, upto - 1);
        if has_images(class) {
            skipped_upto(classes, order, (upto - 1) as nat)
        } else {
            skipped_upto(classes, order, (upto - 1) as nat).push(
                PipelineErrorView::EmptyClass { class: class.name },
            )
        }
    }
}

/// What sampling draws from `classes`.
pub open spec fn sampled(classes: Seq<ClassDirView>, per_class_count: usize, seed: u64) -> Seq<
    LabeledPathView,
> {
    sampled_upto(classes, class_order(classes), per_class_count, seed, classes.len())
}

/// The classes that sampling skips.
pub open spec fn skipped(classes: Seq<ClassDirView>) -> Seq<PipelineErrorView> {
    skipped_upto(classes, class_order(classes), classes.len())
}

/// What holds of a sample of `classes`: the classes are taken in their
/// sorted order, the draw from each class that holds image files is a draw,
/// and the sample has as many files as the classes' shares add up to.
pub open spec fn sample_is_lawful(
    classes: Seq<ClassDirView>,
    per_class_count: usize,
    seed: u64,
) -> bool {
    let order = class_order(classes);
    &&& is_sorted_order(label_keys(class_names(classes)), order)
    &&& forall|r: int|
        0 <= r < classes.len() && has_images(class_at(classes, order, r)) ==> #[trigger] draw_holds_at(
            classes,
            order,
            per_class_count,
            seed,
            r,
        )
    &&& sampled(classes, per_class_count, seed).len() == shares_upto(
        classes,
        order,
        per_class_count,
        classes.len(),
    )
}

/// The paths of a list of labeled files.
pub open spec fn paths_of(items: Seq<LabeledPathView>) -> Seq<Seq<char>> {
    Seq::new(items.len(), |i: int| items[i].path)
}

/// Keeping the image files of a list without repeated paths leaves a list
/// without repeated paths, each of them a path of the list.
pub proof fn lemma_eligible_files_distinct(files: Seq<Seq<char>>)
    requires
        files.no_duplicates(),
    ensures
        eligible_files(files).no_duplicates(),
        forall|path: Seq<char>| eligible_files(files).contains(path) ==> files.contains(path),
    decreases files.len(),
{
    let kept = eligible_files(files);
    assert forall|path: Seq<char>| kept.contains(path) implies files.contains(path) by {
        files.lemma_filter_contains_rev(image_file_test(), path);
    }
    if files.len() == 0 {
        files.lemma_filter_len(image_file_test());
    } else {
        let rest = files.drop_last();
        let last = files.last();
        lemma_eligible_files_distinct(rest);
        assert(files =~= rest.push(last));
        rest.lemma_filter_push(last, image_file_test());
        let kept_rest = eligible_files(rest);
        if image_file_test()(last) {
            assert(kept == kept_rest.push(last));
            assert(!kept_rest.contains(last)) by {
                if kept_rest.contains(last) {
                    assert(rest.contains(last));
                    let i = choose|i: int| 0 <= i < rest.len() && rest[i] == last;
                    assert(files[i] == files[files.len() - 1]);
                }
            }
            assert forall|i: int, j: int|
                0 <= i < kept.len() && 0 <= j < kept.len() && i != j implies kept[i]
                != kept[j] by {
                if i < kept_rest.len() && j < kept_rest.len() {
                    assert(kept_rest[i] != kept_rest[j]);
                } else if i < kept_rest.len() {
                    assert(kept_rest.contains(kept_rest[i]));
                } else {
                    assert(kept_rest.contains(kept_rest[j]));
                }
            }
        }
    }
}

/// A draw from one class yields no more files than were asked for, each of
/// them an image file of the class under the name of the class, and, where
/// the class lists no path twice, no path twice.
pub proof fn lemma_class_draw_bounded(
    class: ClassDirView,
    picks: Seq<usize>,
    per_class_count: usize,
)
    requires
        eligible_files(class.files).len() <= usize::MAX,
        is_draw(picks, eligible_files(class.files).len() as usize, per_class_count),
    ensures
        labeled_picks(eligible_files(class.files), class.name, picks).len() <= per_class_count,
        forall|i: int|
            0 <= i < picks.len() ==> {
                let item = #[trigger] labeled_picks(
                    eligible_files(class.files),
                    class.name,
                    picks,
                )[i];
                item.label == class.name && eligible_files(class.files).contains(item.path)
            },
        class.files.no_duplicates() ==> paths_of(
            labeled_picks(eligible_files(class.files), class.name, picks),
        ).no_duplicates(),
{
    let files = eligible_files(class.files);
    let drawn = labeled_picks(files, class.name, picks);
    assert forall|i: int| 0 <= i < picks.len() implies {
        let item = #[trigger] drawn[i];
        item.label == class.name && files.contains(item.path)
    } by {
        assert(picks[i] < files.len());
        assert(files[picks[i] as int] == drawn[i].path);
    }
    if class.files.no_duplicates() {
        lemma_eligible_files_distinct(class.files);
        assert forall|i: int, j: int|
            0 <= i < drawn.len() && 0 <= j < drawn.len() && i != j implies paths_of(drawn)[i]
            != paths_of(drawn)[j] by {
            assert(picks[i] < files.len() && picks[j] < files.len());
            if i < j {
                assert(picks[i] != picks[j]);
            } else {
                assert(picks[j] != picks[i]);
            }
        }
    }
}

/// Keeps the image files among `files`, in the order given.
pub fn eligible_of(files: &Vec<String>) -> (kept: Vec<String>)
    ensures
        kept.deep_view() == eligible_files(files.deep_view()),
        kept.len() <= files.len(),
{
    let ghost given = files.deep_view();
    let mut kept: Vec<String> = Vec::new();
    let mut k: usize = 0;
    proof {
        assert(given.take(0) =~= Seq::<Seq<char>>::empty());
        assert(kept.deep_view() =~= Seq::<Seq<char>>::empty());
        assert(Seq::<Seq<char>>::empty().filter(image_file_test()) =~= Seq::<Seq<char>>::empty())
            by {
            Seq::<Seq<char>>::empty().lemma_filter_len(image_file_test());
        }
    }
    while k < files.len()
        invariant
            given == files.deep_view(),
            k <= files.len(),
            kept.len() <= k,
            kept.deep_view() == eligible_files(given.take(k as int)),
        decreases files.len() - k,
    {
        let ghost seen = given.take(k as int);
        let ghost before = kept.deep_view();
        let keep = has_image_extension(&files[k]);
        if keep {
            kept.push(files[k].clone());
        }
        proof {
            let elem = given[k as int];
            assert(elem == files@[k as int]@);
            assert(given.take(k + 1) =~= seen.push(elem));
            seen.lemma_filter_push(elem, image_file_test());
            if keep {
                assert(kept.deep_view() =~= before.push(elem));
            } else {
                assert(kept.deep_view() =~= before);
            }
        }
        k = k + 1;
    }
    assert(given.take(files.len() as int) =~= given);
    kept
}

/// Pairs the files at the positions `picks` with `label`.
pub fn label_picks(files: &Vec<String>, label: &String, picks: &Vec<usize>) -> (out: Vec<
    LabeledPath,
>)
    requires
        forall|i: int| 0 <= i < picks.len() ==> (#[trigger] picks[i]) < files.len(),
    ensures
        out.deep_view() == labeled_picks(files.deep_view(), label@, picks@),
        out.len() == picks.len(),
{
    let mut out: Vec<LabeledPath> = Vec::new();
    let mut i: usize = 0;
    while i < picks.len()
        invariant
            i <= picks.len(),
            forall|j: int| 0 <= j < picks.len() ==> (#[trigger] picks[j]) < files.len(),
            out.len() == i,
            forall|j: int|
                0 <= j < i ==> (#[trigger] out@[j]).path@ == files@[picks@[j] as int]@ && out@[j].label@
                    == label@,
        decreases picks.len() - i,
    {
        let position = picks[i];
        out.push(LabeledPath::new(files[position].clone(), label.clone()));
        i = i + 1;
    }
    assert(out.deep_view() =~= labeled_picks(files.deep_view(), label@, picks@));
    out
}

/// Draws from the image files of one class and tells how many it holds.
fn draw_from_class(class: &ClassDir, per_class_count: usize, seed: u64) -> (out: (
    Vec<LabeledPath>,
    usize,
))
    ensures
        out.1 == eligible_files(class.deep_view().files).len(),
        out.0.deep_view() == class_sample(class.deep_view(), per_class_count, seed),
        is_draw(class_draw(class.deep_view(), per_class_count, seed), out.1, per_class_count),
        out.0.len() == class_share(class.deep_view(), per_class_count),
        class.deep_view().files.no_duplicates() ==> paths_of(out.0.deep_view()).no_duplicates(),
{
    let files = eligible_of(&class.files);
    let picks = draw_positions(files.len(), per_class_count, seed);
    proof {
        lemma_class_draw_bounded(class.deep_view(), picks@, per_class_count);
    }
    let available = files.len();
    (label_picks(&files, &class.name, &picks), available)
}

/// Draws at most `per_class_count` image files of one class, with a
/// generator seeded by `seed`: as many as asked for, or every image file
/// where the class holds fewer, none of them twice.
pub fn sample_class(class: &ClassDir, per_class_count: usize, seed: u64) -> (out: Vec<LabeledPath>)
    ensures
        out.deep_view() == class_sample(class.deep_view(), per_class_count, seed),
        is_draw(
            class_draw(class.deep_view(), per_class_count, seed),
            eligible_files(class.deep_view().files).len() as usize,
            per_class_count,
        ),
        out.len() == class_share(class.deep_view(), per_class_count),
        class.deep_view().files.no_duplicates() ==> paths_of(out.deep_view()).no_duplicates(),
{
    draw_from_class(class, per_class_count, seed).0
}

/// Samples every class of `classes`, in ascending order of the class names.
/// A class without image files is reported among the skipped and adds no
/// file.
pub fn sample_classes(classes: &Vec<ClassDir>, per_class_count: usize, seed: u64) -> (sample:
    Sample)
    ensures
        sample.paths.deep_view() == sampled(classes.deep_view(), per_class_count, seed),
        sample.skipped.deep_view() == skipped(classes.deep_view()),
        sample_is_lawful(classes.deep_view(), per_class_count, seed),
{
    let n = classes.len();
    let mut names: Vec<String> = Vec::new();
    let mut i: usize = 0;
    while i < n
        invariant
            n == classes.len(),
            i <= n,
            names.len() == i,
            forall|j: int| 0 <= j < i ==> (#[trigger] names@[j])@ == classes@[j].name@,
        decreases n - i,
    {
        names.push(classes[i].name.clone());
        i = i + 1;
    }
    let ghost given = classes.deep_view();
    assert(names.deep_view() =~= class_names(given));
    let order = sorted_order(&names);
    let mut paths: Vec<LabeledPath> = Vec::new();
    let mut skipped_classes: Vec<PipelineError> = Vec::new();
    let mut rank: usize = 0;
    let mut k: usize = 0;
    assert(paths.deep_view() =~= sampled_upto(given, order@, per_class_count, seed, 0));
    assert(skipped_classes.deep_view() =~= skipped_upto(given, order@, 0));
    while k < n
        invariant
            n == classes.len(),
            given == classes.deep_view(),
            order@.len() == n,
            forall|q: int| 0 <= q < order@.len() ==> (#[trigger] order@[q]) < n,
            k <= n,
            rank <= k,
            rank == kept_upto(given, order@, k as nat),
            paths.deep_view() == sampled_upto(given, order@, per_class_count, seed, k as nat),
            paths.len() == shares_upto(given, order@, per_class_count, k as nat),
            skipped_classes.deep_view() == skipped_upto(given, order@, k as nat),
            forall|r: int|
                0 <= r < k && has_images(class_at(given, order@, r)) ==> #[trigger] draw_holds_at(
                    given,
                    order@,
                    per_class_count,
                    seed,
                    r,
                ),
        decreases n - k,
    {
        let class = &classes[order[k]];
        let ghost class_view = class_at(given, order@, k as int);
        assert(class_view == class.deep_view());
        let ghost paths_before = paths.deep_view();
        let ghost skipped_before = skipped_classes.deep_view();
        let (mut drawn_files, available) = draw_from_class(
            class,
            per_class_count,
            seed.wrapping_add(rank as u64),
        );
        assert(seed.wrapping_add(rank as u64) == seed_at(given, order@, seed, k as int));
        if available == 0 {
            skipped_classes.push(PipelineError::EmptyClass { class: class.name.clone() });
            assert(skipped_classes.deep_view() =~= skipped_before.push(
                PipelineErrorView::EmptyClass { class: class_view.name },
            ));
        } else {
            let ghost drawn_view = drawn_files.deep_view();
            paths.append(&mut drawn_files);
            assert(paths.deep_view() =~= paths_before + drawn_view);
            assert(skipped_classes.deep_view() =~= skipped_before);
            assert(draw_holds_at(given, order@, per_class_count, seed, k as int));
            rank = rank + 1;
        }
        k = k + 1;
    }
    Sample { paths, skipped: skipped_classes }
}

/// Samples the classes of a root directory.
///
/// Fails exactly when the root is missing or is no directory. A class
/// without image files does not fail the run: it is reported among the
/// skipped, and the other classes are sampled as without it.
pub fn sample(root: &RootListing, per_class_count: usize, seed: u64) -> (outcome: Result<
    Sample,
    PipelineError,
>)
    ensures
        outcome is Ok <==> root.classes is Some,
        outcome matches Ok(sample) ==> {
            &&& sample.paths.deep_view() == sampled(
                root.classes->0.deep_view(),
                per_class_count,
                seed,
            )
            &&& sample.skipped.deep_view() == skipped(root.classes->0.deep_view())
            &&& sample_is_lawful(root.classes->0.deep_view(), per_class_count, seed)
        },
        outcome matches Err(e) ==> e.deep_view() == (PipelineErrorView::DirectoryNotFound {
            path: root.root@,
        }),
{
    match &root.classes {
        Some(classes) => Ok(sample_classes(classes, per_class_count, seed)),
        None => Err(PipelineError::DirectoryNotFound { path: root.root.clone() }),
    }
}

} // verus!
