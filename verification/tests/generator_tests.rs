use dataset_pipeline::class_index::ClassIndex;
use dataset_pipeline::generator::{BatchItem, BatchStep, GeneratorConfig, ImageBatchGenerator};
use dataset_pipeline::model::{LabeledPath, PipelineError};
use dataset_pipeline::pixels::{ColorMode, Normalization};
use dataset_pipeline::random::shuffled_order;

fn config_with(batch_size: usize, shuffle: bool, seed: u64) -> GeneratorConfig {
    GeneratorConfig {
        target_width: 224,
        target_height: 224,
        color_mode: ColorMode::Rgb,
        normalization: Normalization::SignedUnit,
        batch_size,
        shuffle,
        seed,
    }
}

fn files_labeled(labels: &[&str]) -> Vec<LabeledPath> {
    labels
        .iter()
        .enumerate()
        .map(|(i, l)| LabeledPath::new(format!("{}/{}.png", l, i), l.to_string()))
        .collect()
}

fn index_of_a_and_b() -> ClassIndex {
    ClassIndex::from_labels(&vec!["A".to_string(), "B".to_string()])
}

fn item(path: &str, label_index: usize) -> BatchItem {
    BatchItem { path: path.to_string(), label_index }
}

fn paths_of_one_epoch(generator: &mut ImageBatchGenerator) -> Vec<String> {
    let mut seen = Vec::new();
    loop {
        match generator.next_batch().unwrap() {
            BatchStep::Batch(items) => seen.extend(items.into_iter().map(|i| i.path)),
            BatchStep::EndOfEpoch => return seen,
        }
    }
}

#[test]
fn unknown_label_fails_with_unknown_class() {
    let files = vec![LabeledPath::new("C/0.png".to_string(), "C".to_string())];
    let mut generator = ImageBatchGenerator::new(files, index_of_a_and_b(), config_with(4, false, 0));
    assert_eq!(
        generator.next_batch(),
        Err(PipelineError::UnknownClass { label: "C".to_string() })
    );
}

#[test]
fn first_unknown_label_of_the_batch_is_named() {
    let files = files_labeled(&["A", "Z", "B", "Y"]);
    let mut generator = ImageBatchGenerator::new(files, index_of_a_and_b(), config_with(4, false, 0));
    assert_eq!(
        generator.next_batch(),
        Err(PipelineError::UnknownClass { label: "Z".to_string() })
    );
}

#[test]
fn failure_leaves_the_generator_as_it_was() {
    let files = files_labeled(&["A", "B", "Z"]);
    let mut generator = ImageBatchGenerator::new(files, index_of_a_and_b(), config_with(2, false, 0));
    assert_eq!(
        generator.next_batch(),
        Ok(BatchStep::Batch(vec![item("A/0.png", 0), item("B/1.png", 1)]))
    );
    assert!(generator.in_epoch());
    for _ in 0..3 {
        assert_eq!(
            generator.next_batch(),
            Err(PipelineError::UnknownClass { label: "Z".to_string() })
        );
        assert!(generator.in_epoch());
        assert_eq!(generator.epochs_begun(), 1);
    }
}

#[test]
fn batches_follow_the_stored_order_without_shuffle() {
    let files = files_labeled(&["A", "B", "B", "A", "B"]);
    let mut generator = ImageBatchGenerator::new(files, index_of_a_and_b(), config_with(2, false, 9));
    assert_eq!(
        generator.next_batch(),
        Ok(BatchStep::Batch(vec![item("A/0.png", 0), item("B/1.png", 1)]))
    );
    assert_eq!(
        generator.next_batch(),
        Ok(BatchStep::Batch(vec![item("B/2.png", 1), item("A/3.png", 0)]))
    );
    assert_eq!(generator.next_batch(), Ok(BatchStep::Batch(vec![item("B/4.png", 1)])));
    assert_eq!(generator.next_batch(), Ok(BatchStep::EndOfEpoch));
}

#[test]
fn after_end_of_epoch_the_next_call_starts_over() {
    let files = files_labeled(&["A", "B", "A"]);
    let mut generator = ImageBatchGenerator::new(files, index_of_a_and_b(), config_with(2, false, 0));
    assert!(!generator.in_epoch());
    let first = paths_of_one_epoch(&mut generator);
    assert!(!generator.in_epoch());
    assert_eq!(generator.epochs_begun(), 1);
    let second = paths_of_one_epoch(&mut generator);
    assert_eq!(generator.epochs_begun(), 2);
    assert_eq!(first, vec!["A/0.png", "B/1.png", "A/2.png"]);
    assert_eq!(second, first);
}

#[test]
fn every_shuffled_epoch_covers_the_whole_list() {
    let labels: Vec<&str> = (0..23).map(|i| if i % 2 == 0 { "A" } else { "B" }).collect();
    let files = files_labeled(&labels);
    let mut expected: Vec<String> = files.iter().map(|f| f.path.clone()).collect();
    expected.sort();
    let mut generator = ImageBatchGenerator::new(files, index_of_a_and_b(), config_with(5, true, 3));
    for _ in 0..4 {
        let mut seen = paths_of_one_epoch(&mut generator);
        assert_eq!(seen.len(), 23);
        seen.sort();
        assert_eq!(seen, expected);
    }
}

#[test]
fn each_epoch_is_shuffled_with_its_own_seed() {
    let labels: Vec<&str> = (0..16).map(|_| "A").collect();
    let files = files_labeled(&labels);
    let seed = u64::MAX - 1;
    let mut generator =
        ImageBatchGenerator::new(files.clone(), index_of_a_and_b(), config_with(16, true, seed));
    for epoch in 0u64..4 {
        let order = shuffled_order(16, seed.wrapping_add(epoch));
        let expected: Vec<String> = order.iter().map(|p| files[*p].path.clone()).collect();
        assert_eq!(paths_of_one_epoch(&mut generator), expected);
    }
}

#[test]
fn same_seed_gives_the_same_epochs() {
    let labels: Vec<&str> = (0..31).map(|_| "B").collect();
    let mut one =
        ImageBatchGenerator::new(files_labeled(&labels), index_of_a_and_b(), config_with(4, true, 21));
    let mut other =
        ImageBatchGenerator::new(files_labeled(&labels), index_of_a_and_b(), config_with(4, true, 21));
    let first_epoch = paths_of_one_epoch(&mut one);
    assert_eq!(first_epoch, paths_of_one_epoch(&mut other));
    let second_epoch = paths_of_one_epoch(&mut one);
    assert_eq!(second_epoch, paths_of_one_epoch(&mut other));
    assert_ne!(first_epoch, second_epoch);
}

#[test]
fn batch_size_that_divides_the_list_gives_full_batches() {
    let labels: Vec<&str> = (0..12).map(|_| "A").collect();
    let mut generator =
        ImageBatchGenerator::new(files_labeled(&labels), index_of_a_and_b(), config_with(4, true, 1));
    for _ in 0..3 {
        match generator.next_batch().unwrap() {
            BatchStep::Batch(items) => assert_eq!(items.len(), 4),
            BatchStep::EndOfEpoch => panic!("epoch ended early"),
        }
    }
    assert_eq!(generator.next_batch(), Ok(BatchStep::EndOfEpoch));
}

#[test]
fn empty_file_list_ends_every_epoch_at_once() {
    let mut generator =
        ImageBatchGenerator::new(Vec::new(), index_of_a_and_b(), config_with(4, true, 1));
    assert_eq!(generator.len(), 0);
    assert_eq!(generator.next_batch(), Ok(BatchStep::EndOfEpoch));
    assert_eq!(generator.next_batch(), Ok(BatchStep::EndOfEpoch));
    assert_eq!(generator.epochs_begun(), 2);
}

#[test]
fn batch_size_zero_gives_empty_batches() {
    let mut generator =
        ImageBatchGenerator::new(files_labeled(&["A"]), index_of_a_and_b(), config_with(0, false, 1));
    assert_eq!(generator.next_batch(), Ok(BatchStep::Batch(Vec::new())));
    assert_eq!(generator.next_batch(), Ok(BatchStep::Batch(Vec::new())));
}

#[test]
fn generator_keeps_what_it_was_made_with() {
    let config = config_with(8, true, 77);
    let generator = ImageBatchGenerator::new(files_labeled(&["A", "B"]), index_of_a_and_b(), config);
    assert_eq!(generator.config(), config);
    assert_eq!(generator.len(), 2);
    assert_eq!(generator.class_index().len(), 2);
    assert_eq!(generator.epochs_begun(), 0);
    assert!(!generator.in_epoch());
}
