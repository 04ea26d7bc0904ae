use dataset_pipeline::model::{ClassDir, LabeledPath, PipelineError};
use dataset_pipeline::random::draw_positions;
use dataset_pipeline::sampler::{
    eligible_of, label_picks, sample, sample_class, sample_classes, RootListing,
};

fn class_of(name: &str, files: &[&str]) -> ClassDir {
    ClassDir {
        name: name.to_string(),
        files: files.iter().map(|f| format!("root/{}/{}", name, f)).collect(),
    }
}

fn class_with_images(name: &str, count: usize) -> ClassDir {
    ClassDir {
        name: name.to_string(),
        files: (0..count).map(|i| format!("root/{}/{}.jpg", name, i)).collect(),
    }
}

fn labels_of_sample(paths: &Vec<LabeledPath>) -> Vec<String> {
    paths.iter().map(|p| p.label.clone()).collect()
}

#[test]
fn missing_root_is_reported_with_its_path() {
    let root = RootListing { root: "/data/lung_image_sets".to_string(), classes: None };
    assert_eq!(
        sample(&root, 10, 1),
        Err(PipelineError::DirectoryNotFound { path: "/data/lung_image_sets".to_string() })
    );
}

#[test]
fn root_with_classes_is_sampled() {
    let classes = vec![class_with_images("A", 4), class_with_images("B", 4)];
    let root = RootListing { root: "root".to_string(), classes: Some(classes) };
    let outcome = sample(&root, 2, 1).unwrap();
    assert_eq!(labels_of_sample(&outcome.paths), vec!["A", "A", "B", "B"]);
    assert!(outcome.skipped.is_empty());
}

#[test]
fn classes_are_taken_in_order_of_their_names() {
    let classes = vec![
        class_with_images("lung_scc", 3),
        class_with_images("lung_aca", 3),
        class_with_images("lung_n", 3),
    ];
    let outcome = sample_classes(&classes, 1, 5);
    assert_eq!(labels_of_sample(&outcome.paths), vec!["lung_aca", "lung_n", "lung_scc"]);
}

#[test]
fn listing_order_of_classes_does_not_change_the_sample() {
    let forward = vec![class_with_images("A", 9), class_with_images("B", 7), class_with_images("C", 5)];
    let backward = vec![class_with_images("C", 5), class_with_images("A", 9), class_with_images("B", 7)];
    assert_eq!(sample_classes(&forward, 4, 17), sample_classes(&backward, 4, 17));
}

#[test]
fn at_most_the_count_is_drawn_from_each_class_without_repeats() {
    let classes = vec![class_with_images("A", 30), class_with_images("B", 4)];
    let outcome = sample_classes(&classes, 10, 8);
    let of_a: Vec<&LabeledPath> = outcome.paths.iter().filter(|p| p.label == "A").collect();
    let of_b: Vec<&LabeledPath> = outcome.paths.iter().filter(|p| p.label == "B").collect();
    assert_eq!(of_a.len(), 10);
    assert_eq!(of_b.len(), 4);
    let mut names: Vec<&String> = outcome.paths.iter().map(|p| &p.path).collect();
    names.sort();
    for pair in names.windows(2) {
        assert_ne!(pair[0], pair[1]);
    }
    for p in &of_a {
        assert!(classes[0].files.contains(&p.path));
    }
}

#[test]
fn class_without_image_files_is_skipped_not_fatal() {
    let classes = vec![
        class_of("docs", &["readme.txt", "notes.md"]),
        class_with_images("A", 2),
        class_of("void", &[]),
    ];
    let outcome = sample_classes(&classes, 5, 1);
    assert_eq!(labels_of_sample(&outcome.paths), vec!["A", "A"]);
    assert_eq!(
        outcome.skipped,
        vec![
            PipelineError::EmptyClass { class: "docs".to_string() },
            PipelineError::EmptyClass { class: "void".to_string() },
        ]
    );
}

#[test]
fn no_classes_give_an_empty_sample() {
    let outcome = sample_classes(&Vec::new(), 5, 1);
    assert!(outcome.paths.is_empty() && outcome.skipped.is_empty());
}

#[test]
fn only_image_files_are_eligible() {
    let files: Vec<String> =
        ["a.jpg", "b.txt", "c.png", "d.JPG", ".jpg", "e.jpeg"].iter().map(|f| f.to_string()).collect();
    assert_eq!(eligible_of(&files), vec!["a.jpg".to_string(), "c.png".to_string()]);
    assert_eq!(eligible_of(&Vec::new()), Vec::<String>::new());
}

#[test]
fn picks_are_paired_with_the_label() {
    let files: Vec<String> = ["x.png", "y.png", "z.png"].iter().map(|f| f.to_string()).collect();
    let out = label_picks(&files, &"cat".to_string(), &vec![2, 0]);
    assert_eq!(
        out,
        vec![
            LabeledPath::new("z.png".to_string(), "cat".to_string()),
            LabeledPath::new("x.png".to_string(), "cat".to_string()),
        ]
    );
}

#[test]
fn class_sample_follows_the_seeded_draw() {
    let class = class_of("A", &["0.jpg", "skip.txt", "1.jpg", "2.png", "3.jpg"]);
    let eligible = eligible_of(&class.files);
    assert_eq!(eligible.len(), 4);
    let picks = draw_positions(4, 2, 77);
    let expected = label_picks(&eligible, &class.name, &picks);
    assert_eq!(sample_class(&class, 2, 77), expected);
    assert_eq!(sample_class(&class, 2, 77).len(), 2);
    assert_eq!(sample_class(&class, 9, 77).len(), 4);
    assert_eq!(sample_class(&class, 0, 77).len(), 0);
}

#[test]
fn each_class_is_drawn_with_a_seed_of_its_own() {
    let classes = vec![class_with_images("B", 12), class_with_images("A", 12)];
    let seed = u64::MAX;
    let outcome = sample_classes(&classes, 5, seed);
    let mut expected = sample_class(&classes[1], 5, seed);
    expected.extend(sample_class(&classes[0], 5, seed.wrapping_add(1)));
    assert_eq!(outcome.paths, expected);
}

#[test]
fn same_seed_gives_the_same_sample() {
    let classes = vec![class_with_images("A", 50), class_with_images("B", 50)];
    assert_eq!(sample_classes(&classes, 10, 4), sample_classes(&classes, 10, 4));
    assert_ne!(sample_classes(&classes, 10, 4).paths, sample_classes(&classes, 10, 5).paths);
}

#[test]
fn empty_class_leaves_the_other_classes_as_without_it() {
    let with_empty = vec![
        class_with_images("B", 9),
        class_of("A_docs", &["readme.txt"]),
        class_with_images("C", 9),
        class_of("B_void", &[]),
    ];
    let without = vec![class_with_images("B", 9), class_with_images("C", 9)];
    for seed in [0u64, 7, u64::MAX] {
        assert_eq!(sample_classes(&with_empty, 4, seed).paths, sample_classes(&without, 4, seed).paths);
    }
}

#[test]
fn two_classes_of_ten_give_twenty_paths() {
    let classes = vec![class_with_images("A", 10), class_with_images("B", 10)];
    let outcome = sample_classes(&classes, 10, 123);
    assert_eq!(outcome.paths.len(), 20);
    assert_eq!(labels_of_sample(&outcome.paths[..10].to_vec()), vec!["A"; 10]);
    assert_eq!(labels_of_sample(&outcome.paths[10..].to_vec()), vec!["B"; 10]);
}

#[test]
fn each_class_gives_the_count_or_all_it_has() {
    let classes = vec![class_with_images("A", 3), class_with_images("B", 8), class_with_images("C", 5)];
    let outcome = sample_classes(&classes, 5, 1);
    let count_of = |label: &str| outcome.paths.iter().filter(|p| p.label == label).count();
    assert_eq!((count_of("A"), count_of("B"), count_of("C")), (3, 5, 5));
}
