//! The mapping from class labels to dense indices.
//!
//! The labels are sorted before they are numbered, so the index of a label
//! depends on the set of labels alone, not on the order in which a directory
//! was listed.

use crate::order::{is_sorted_order, key_before, label_keys, sorted_order};
use crate::text::{
    bytes_of, label_precedence, lemma_bytes_of_injective, lemma_lex_asymmetric,
    lemma_lex_irreflexive, lemma_lex_transitive, lex_less, Precedence,
};
use vstd::prelude::*;

verus! {

/// Every key precedes the keys behind it.
pub open spec fn strictly_ascending(keys: Seq<Seq<u8>>) -> bool {
    forall|i: int, j: int| 0 <= i < j < keys.len() ==> lex_less(keys[i], keys[j])
}

/// `i` is the first position at which `labels` holds `label`.
pub open spec fn is_first_position(labels: Seq<Seq<char>>, label: Seq<char>, i: int) -> bool {
    &&& 0 <= i < labels.len()
    &&& labels[i] == label
    &&& forall|j: int| 0 <= j < i ==> labels[j] != label
}

/// A label has one first position at most.
pub proof fn lemma_first_position_unique(labels: Seq<Seq<char>>, label: Seq<char>, i: int, j: int)
    requires
        is_first_position(labels, label, i),
        is_first_position(labels, label, j),
    ensures
        i == j,
{
}

/// Labels in strictly ascending order are pairwise different.
pub proof fn lemma_ascending_labels_distinct(labels: Seq<Seq<char>>)
    requires
        strictly_ascending(label_keys(labels)),
    ensures
        labels.no_duplicates(),
{
    let keys = label_keys(labels);
    assert forall|i: int, j: int| 0 <= i < labels.len() && 0 <= j < labels.len() && i
        != j implies labels[i] != labels[j] by {
        lemma_lex_irreflexive(keys[i]);
        if i < j {
            assert(lex_less(keys[i], keys[j]));
        } else {
            assert(lex_less(keys[j], keys[i]));
        }
    }
}

/// Two ascending lists of the same labels agree on their first `k` entries.
proof fn lemma_ascending_lists_agree(a: Seq<Seq<char>>, b: Seq<Seq<char>>, k: int)
    requires
        strictly_ascending(label_keys(a)),
        strictly_ascending(label_keys(b)),
        forall|l: Seq<char>| a.contains(l) <==> b.contains(l),
        0 <= k <= a.len(),
        k <= b.len(),
    ensures
        forall|j: int| 0 <= j < k ==> a[j] == b[j],
    decreases k,
{
    if k > 0 {
        lemma_ascending_lists_agree(a, b, k - 1);
        lemma_ascending_labels_distinct(a);
        lemma_ascending_labels_distinct(b);
        let x = a[k - 1];
        let y = b[k - 1];
        if x != y {
            assert(a.contains(x) && b.contains(y));
            let m = choose|m: int| 0 <= m < b.len() && b[m] == x;
            let w = choose|w: int| 0 <= w < a.len() && a[w] == y;
            if m < k - 1 {
                assert(a[m] == b[m]);
            }
            if w < k - 1 {
                assert(a[w] == b[w]);
            }
            assert(lex_less(label_keys(b)[k - 1], label_keys(b)[m]));
            assert(lex_less(label_keys(a)[k - 1], label_keys(a)[w]));
            lemma_lex_asymmetric(bytes_of(x), bytes_of(y));
        }
    }
}

/// The set of labels decides the index: two ascending lists of the same
/// labels are the same list.
pub proof fn lemma_labels_decide_index(a: Seq<Seq<char>>, b: Seq<Seq<char>>)
    requires
        strictly_ascending(label_keys(a)),
        strictly_ascending(label_keys(b)),
        forall|l: Seq<char>| a.contains(l) <==> b.contains(l),
    ensures
        a == b,
{
    lemma_ascending_labels_distinct(a);
    lemma_ascending_labels_distinct(b);
    if a.len() <= b.len() {
        lemma_ascending_lists_agree(a, b, a.len() as int);
        if a.len() < b.len() {
            let extra = b[a.len() as int];
            assert(b.contains(extra));
            let w = choose|w: int| 0 <= w < a.len() && a[w] == extra;
            assert(b[w] == b[a.len() as int]);
        }
    } else {
        lemma_ascending_lists_agree(a, b, b.len() as int);
        let extra = a[b.len() as int];
        assert(a.contains(extra));
        let m = choose|m: int| 0 <= m < b.len() && b[m] == extra;
        assert(a[m] == a[b.len() as int]);
    }
    assert(a =~= b);
}

/// The class labels of a run, each with its index.
#[derive(Debug, PartialEq, Eq)]
pub struct ClassIndex {
    labels: Vec<String>,
}

impl ClassIndex {
    /// The labels, each at the position that is its index.
    pub closed spec fn labels(&self) -> Seq<Seq<char>> {
        self.labels.deep_view()
    }

    /// The labels stand in strictly ascending order.
    #[verifier::type_invariant]
    pub open spec fn well_formed(&self) -> bool {
        strictly_ascending(label_keys(self.labels()))
    }

    /// Builds the index of the labels given: sorted, each label once.
    pub fn from_labels(labels: &Vec<String>) -> (index: ClassIndex)
        ensures
            index.well_formed(),
            forall|l: Seq<char>| labels.deep_view().contains(l) <==> index.labels().contains(l),
    {
        let order = sorted_order(labels);
        let ghost given = labels.deep_view();
        let ghost keys = label_keys(given);
        let mut kept: Vec<String> = Vec::new();
        let mut k: usize = 0;
        while k < order.len()
            invariant
                given == labels.deep_view(),
                keys == label_keys(given),
                is_sorted_order(keys, order@),
                k <= order.len(),
                kept.len() <= k,
                strictly_ascending(label_keys(kept.deep_view())),
                forall|j: int| 0 <= j < kept.len() ==> given.contains(#[trigger] kept.deep_view()[j]),
                forall|q: int|
                    0 <= q < k ==> kept.deep_view().contains(given[(#[trigger] order@[q]) as int]),
                k > 0 ==> kept.len() > 0 && kept.deep_view().last() == given[order@[k - 1] as int],
            decreases order.len() - k,
        {
            let position = order[k];
            let current = &labels[position];
            let ghost before = kept.deep_view();
            let fresh = kept.len() == 0 || label_precedence(&kept[kept.len() - 1], current)
                != Precedence::Same;
            assert(given[position as int] == current@);
            if fresh {
                kept.push(current.clone());
                proof {
                    let after = kept.deep_view();
                    assert(after =~= before.push(current@));
                    let after_keys = label_keys(after);
                    assert forall|i: int, j: int| 0 <= i < j < after_keys.len() implies lex_less(
                        after_keys[i],
                        after_keys[j],
                    ) by {
                        let before_keys = label_keys(before);
                        if j < before.len() {
                            assert(lex_less(before_keys[i], before_keys[j]));
                        } else {
                            let last = before.len() - 1;
                            assert(key_before(keys, order@[k - 1] as int, order@[k as int] as int));
                            lemma_lex_asymmetric(bytes_of(before[last]), bytes_of(current@));
                            assert(lex_less(bytes_of(before[last]), bytes_of(current@)));
                            if i < last {
                                assert(lex_less(before_keys[i], before_keys[last]));
                                lemma_lex_transitive(
                                    bytes_of(before[i]),
                                    bytes_of(before[last]),
                                    bytes_of(current@),
                                );
                            }
                        }
                    }
                    assert forall|j: int| 0 <= j < after.len() implies given.contains(
                        #[trigger] after[j],
                    ) by {
                        if j < before.len() {
                            assert(after[j] == before[j]);
                        } else {
                            assert(given[position as int] == after[j]);
                        }
                    }
                    assert forall|q: int| 0 <= q < k + 1 implies after.contains(
                        given[(#[trigger] order@[q]) as int],
                    ) by {
                        if q < k {
                            let w = choose|w: int|
                                0 <= w < before.len() && before[w] == given[order@[q] as int];
                            assert(after[w] == before[w]);
                        } else {
                            assert(after[before.len() as int] == current@);
                        }
                    }
                }
            } else {
                proof {
                    let last = before.len() - 1;
                    lemma_bytes_of_injective(before[last], current@);
                    assert(before[last] == given[order@[k as int] as int]);
                }
            }
            k = k + 1;
        }
        proof {
            crate::order::lemma_sorted_order_is_draw(keys, order@);
            crate::random::lemma_full_draw_covers(order@, given.len() as usize, given.len() as usize);
            assert forall|l: Seq<char>| given.contains(l) implies kept.deep_view().contains(l) by {
                let i = choose|i: int| 0 <= i < given.len() && given[i] == l;
                assert(order@.contains(i as usize));
                let q = choose|q: int| 0 <= q < order@.len() && order@[q] == i as usize;
                assert(kept.deep_view().contains(given[order@[q] as int]));
            }
        }
        ClassIndex { labels: kept }
    }

    /// The number of classes.
    pub fn len(&self) -> (n: usize)
        ensures
            n == self.labels().len(),
    {
        self.labels.len()
    }

    /// The label with index `i`.
    pub fn label(&self, i: usize) -> (label: &String)
        requires
            i < self.labels().len(),
        ensures
            label@ == self.labels()[i as int],
    {
        &self.labels[i]
    }

    /// The index of `label`, or `None` where the index does not hold it.
    pub fn index_of(&self, label: &String) -> (found: Option<usize>)
        ensures
            found matches Some(i) ==> is_first_position(self.labels(), label@, i as int),
            found is None <==> !self.labels().contains(label@),
    {
        let mut i: usize = 0;
        while i < self.labels.len()
            invariant
                i <= self.labels.len(),
                forall|j: int| 0 <= j < i ==> self.labels.deep_view()[j] != label@,
            decreases self.labels.len() - i,
        {
            if self.labels[i] == *label {
                assert(self.labels.deep_view()[i as int] == label@);
                return Some(i);
            }
            i = i + 1;
        }
        None
    }
}

} // verus!
