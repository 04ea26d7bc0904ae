use dataset_pipeline::class_index::ClassIndex;
use dataset_pipeline::order::sorted_order;
use dataset_pipeline::text::{
    bytes_equal, has_image_extension, label_precedence, precedence_of_bytes, Precedence,
};

fn owned_labels(labels: &[&str]) -> Vec<String> {
    labels.iter().map(|l| l.to_string()).collect()
}

#[test]
fn bytes_are_compared_lexicographically() {
    assert_eq!(precedence_of_bytes(b"abc", b"abd"), Precedence::Before);
    assert_eq!(precedence_of_bytes(b"abd", b"abc"), Precedence::After);
    assert_eq!(precedence_of_bytes(b"abc", b"abc"), Precedence::Same);
    assert_eq!(precedence_of_bytes(b"", b""), Precedence::Same);
}

#[test]
fn a_prefix_comes_before_what_it_begins() {
    assert_eq!(precedence_of_bytes(b"ab", b"abc"), Precedence::Before);
    assert_eq!(precedence_of_bytes(b"abc", b"ab"), Precedence::After);
    assert_eq!(precedence_of_bytes(b"", b"a"), Precedence::Before);
}

#[test]
fn labels_are_ordered_as_strings_are() {
    let pairs = [("lung_aca", "lung_n"), ("B", "a"), ("a", "B"), ("é", "z"), ("same", "same")];
    for (a, b) in pairs {
        let expected = match a.cmp(b) {
            std::cmp::Ordering::Less => Precedence::Before,
            std::cmp::Ordering::Equal => Precedence::Same,
            std::cmp::Ordering::Greater => Precedence::After,
        };
        assert_eq!(label_precedence(&a.to_string(), &b.to_string()), expected);
    }
}

#[test]
fn equal_bytes_are_told_from_different_ones() {
    assert!(bytes_equal(b"rgb", b"rgb"));
    assert!(!bytes_equal(b"rgb", b"rgB"));
    assert!(!bytes_equal(b"rgb", b"rgba"));
    assert!(bytes_equal(b"", b""));
}

#[test]
fn jpg_and_png_are_image_extensions() {
    assert!(has_image_extension(&"lung_n/img1.jpg".to_string()));
    assert!(has_image_extension(&"lung_n/img1.png".to_string()));
    assert!(has_image_extension(&"a.jpg".to_string()));
}

#[test]
fn other_extensions_are_ignored() {
    assert!(!has_image_extension(&"lung_n/notes.txt".to_string()));
    assert!(!has_image_extension(&"lung_n/img1.jpeg".to_string()));
    assert!(!has_image_extension(&"lung_n/img1.JPG".to_string()));
    assert!(!has_image_extension(&"lung_n/img1".to_string()));
    assert!(!has_image_extension(&"".to_string()));
    assert!(!has_image_extension(&"jpg".to_string()));
}

#[test]
fn a_bare_extension_is_no_image_file() {
    assert!(!has_image_extension(&".jpg".to_string()));
    assert!(!has_image_extension(&"lung_n/.png".to_string()));
    assert!(has_image_extension(&"lung_n/..png".to_string()));
}

#[test]
fn sorted_order_lists_positions_by_label() {
    let labels = owned_labels(&["pear", "apple", "fig"]);
    assert_eq!(sorted_order(&labels), vec![1, 2, 0]);
    assert_eq!(sorted_order(&Vec::new()), Vec::<usize>::new());
}

#[test]
fn equal_labels_keep_their_given_order() {
    let labels = owned_labels(&["b", "a", "b", "a"]);
    assert_eq!(sorted_order(&labels), vec![1, 3, 0, 2]);
}

#[test]
fn class_index_sorts_and_drops_repeats() {
    let index = ClassIndex::from_labels(&owned_labels(&["lung_scc", "lung_aca", "lung_n", "lung_aca"]));
    assert_eq!(index.len(), 3);
    assert_eq!(index.label(0), "lung_aca");
    assert_eq!(index.label(1), "lung_n");
    assert_eq!(index.label(2), "lung_scc");
}

#[test]
fn class_index_does_not_depend_on_the_order_given() {
    let one = ClassIndex::from_labels(&owned_labels(&["c", "a", "b"]));
    let other = ClassIndex::from_labels(&owned_labels(&["b", "c", "a"]));
    assert_eq!(one, other);
}

#[test]
fn class_index_finds_each_label_at_its_index() {
    let index = ClassIndex::from_labels(&owned_labels(&["B", "A"]));
    assert_eq!(index.index_of(&"A".to_string()), Some(0));
    assert_eq!(index.index_of(&"B".to_string()), Some(1));
    assert_eq!(index.index_of(&"C".to_string()), None);
    assert_eq!(index.index_of(&"".to_string()), None);
}

#[test]
fn empty_class_index_holds_nothing() {
    let index = ClassIndex::from_labels(&Vec::new());
    assert_eq!(index.len(), 0);
    assert_eq!(index.index_of(&"A".to_string()), None);
}
