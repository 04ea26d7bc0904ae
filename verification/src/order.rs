//! The order in which labels are taken: ascending, as Rust orders strings,
//! with equal labels in the order in which they were given.

use crate::random::{is_draw, lemma_full_draw_covers};
use crate::text::{
    bytes_of, label_precedence, lemma_lex_asymmetric, lemma_lex_irreflexive, lemma_lex_total,
    lemma_lex_transitive, lex_less, Precedence,
};
use vstd::prelude::*;

verus! {

/// The sort keys of a list of labels: their UTF-8 encodings.
pub open spec fn label_keys(labels: Seq<Seq<char>>) -> Seq<Seq<u8>> {
    Seq::new(labels.len(), |i: int| bytes_of(labels[i]))
}

/// The label at position `i` comes before the one at position `j`.
pub open spec fn key_before(keys: Seq<Seq<u8>>, i: int, j: int) -> bool {
    lex_less(keys[i], keys[j]) || (keys[i] == keys[j] && i < j)
}

/// `order` lists every position of `keys` once, ascending by key, positions
/// with equal keys ascending.
pub open spec fn is_sorted_order(keys: Seq<Seq<u8>>, order: Seq<usize>) -> bool {
    &&& order.len() == keys.len()
    &&& forall|k: int| 0 <= k < order.len() ==> (#[trigger] order[k]) < keys.len()
    &&& forall|k: int, m: int|
        0 <= k < m < order.len() ==> key_before(
            keys,
            (#[trigger] order[k]) as int,
            (#[trigger] order[m]) as int,
        )
}

/// `order` lists the first `n` positions of `keys` once each, ascending by
/// key, positions with equal keys ascending.
pub open spec fn is_sorted_prefix(keys: Seq<Seq<u8>>, order: Seq<usize>, n: nat) -> bool {
    &&& order.len() == n
    &&& forall|k: int| 0 <= k < order.len() ==> (#[trigger] order[k]) < n
    &&& forall|k: int, m: int|
        0 <= k < m < order.len() ==> key_before(
            keys,
            (#[trigger] order[k]) as int,
            (#[trigger] order[m]) as int,
        )
}

/// The first place of `order`, from `from` on, whose label comes after the
/// label at `x`; the length of `order` where there is none.
pub open spec fn place_after(keys: Seq<Seq<u8>>, order: Seq<usize>, x: int, from: nat) -> nat
    decreases order.len() - from,
{
    if from >= order.len() {
        order.len()
    } else if lex_less(keys[x], keys[order[from as int] as int]) {
        from
    } else {
        place_after(keys, order, x, from + 1)
    }
}

/// `place_after` finds the first place whose label comes after the label at `x`.
pub proof fn lemma_place_after(keys: Seq<Seq<u8>>, order: Seq<usize>, x: int, from: nat)
    requires
        from <= order.len(),
    ensures
        from <= place_after(keys, order, x, from) <= order.len(),
        forall|q: int|
            from <= q < place_after(keys, order, x, from) ==> !lex_less(
                keys[x],
                keys[(#[trigger] order[q]) as int],
            ),
        place_after(keys, order, x, from) < order.len() ==> lex_less(
            keys[x],
            keys[order[place_after(keys, order, x, from) as int] as int],
        ),
    decreases order.len() - from,
{
    if from < order.len() && !lex_less(keys[x], keys[order[from as int] as int]) {
        lemma_place_after(keys, order, x, from + 1);
    }
}

/// Putting position `x` behind every label that does not come after its own
/// keeps the order sorted.
pub proof fn lemma_insert_keeps_sorted(keys: Seq<Seq<u8>>, before: Seq<usize>, p: int, x: usize)
    requires
        is_sorted_prefix(keys, before, x as nat),
        0 <= p <= before.len(),
        forall|q: int| 0 <= q < p ==> !lex_less(keys[x as int], keys[(#[trigger] before[q]) as int]),
        p < before.len() ==> lex_less(keys[x as int], keys[before[p] as int]),
    ensures
        is_sorted_prefix(keys, before.insert(p, x), (x + 1) as nat),
{
    before.insert_ensures(p, x);
    let after = before.insert(p, x);
    assert forall|k: int| 0 <= k < after.len() implies (#[trigger] after[k]) < x + 1 by {
        if k < p {
            assert(after[k] == before[k]);
        } else if k > p {
            assert(after[k] == before[k - 1]);
        }
    }
    assert forall|k: int, m: int| 0 <= k < m < after.len() implies key_before(
        keys,
        (#[trigger] after[k]) as int,
        (#[trigger] after[m]) as int,
    ) by {
        if m < p {
            assert(after[k] == before[k] && after[m] == before[m]);
        } else if m == p {
            assert(after[k] == before[k]);
            lemma_lex_total(keys[x as int], keys[before[k] as int]);
        } else if k < p {
            assert(after[k] == before[k] && after[m] == before[m - 1]);
        } else if k == p {
            assert(after[m] == before[m - 1]);
            if m - 1 > p {
                assert(key_before(keys, before[p] as int, before[m - 1] as int));
                if lex_less(keys[before[p] as int], keys[before[m - 1] as int]) {
                    lemma_lex_transitive(
                        keys[x as int],
                        keys[before[p] as int],
                        keys[before[m - 1] as int],
                    );
                }
            }
        } else {
            assert(after[k] == before[k - 1] && after[m] == before[m - 1]);
        }
    }
}

/// The first `n` positions of any keys can be put in sorted order.
pub proof fn lemma_sorted_prefix_exists(keys: Seq<Seq<u8>>, n: nat)
    requires
        n <= keys.len() <= usize::MAX,
    ensures
        exists|order: Seq<usize>| is_sorted_prefix(keys, order, n),
    decreases n,
{
    if n == 0 {
        assert(is_sorted_prefix(keys, Seq::<usize>::empty(), 0));
    } else {
        let x = (n - 1) as usize;
        lemma_sorted_prefix_exists(keys, x as nat);
        let before = choose|order: Seq<usize>| is_sorted_prefix(keys, order, x as nat);
        let p = place_after(keys, before, x as int, 0);
        lemma_place_after(keys, before, x as int, 0);
        lemma_insert_keeps_sorted(keys, before, p as int, x);
        assert(is_sorted_prefix(keys, before.insert(p as int, x), n));
    }
}

/// Any keys have a sorted order, and `sorted_order_of` is it.
pub proof fn lemma_sorted_order_exists(keys: Seq<Seq<u8>>)
    requires
        keys.len() <= usize::MAX,
    ensures
        is_sorted_order(keys, sorted_order_of(keys)),
{
    lemma_sorted_prefix_exists(keys, keys.len());
    let order = choose|order: Seq<usize>| is_sorted_prefix(keys, order, keys.len());
    assert(is_sorted_order(keys, order));
}

/// Listing the same keys, all different, in another order changes nothing
/// about the order in which they are taken: where `second` holds at each
/// place `i` the key that `first` holds at place `via[i]`, the sorted order of
/// `second` leads through `via` to the sorted order of `first`.
pub proof fn lemma_sorted_order_of_relisted(
    first: Seq<Seq<u8>>,
    second: Seq<Seq<u8>>,
    via: Seq<usize>,
)
    requires
        first.len() == second.len(),
        first.len() <= usize::MAX,
        first.no_duplicates(),
        is_draw(via, first.len() as usize, first.len() as usize),
        forall|i: int| 0 <= i < second.len() ==> second[i] == first[(#[trigger] via[i]) as int],
    ensures
        forall|k: int|
            0 <= k < first.len() ==> (#[trigger] sorted_order_of(first)[k]) == via[sorted_order_of(
                second,
            )[k] as int],
{
    lemma_sorted_order_exists(first);
    lemma_sorted_order_exists(second);
    let o2 = sorted_order_of(second);
    lemma_sorted_order_distinct(second, o2);
    let led = Seq::new(first.len(), |k: int| via[o2[k] as int]);
    assert forall|k: int, m: int| 0 <= k < m < led.len() implies key_before(
        first,
        (#[trigger] led[k]) as int,
        (#[trigger] led[m]) as int,
    ) by {
        assert(key_before(second, o2[k] as int, o2[m] as int));
        assert(o2[k] != o2[m]);
        assert(o2[k] < second.len() && o2[m] < second.len());
        let a = o2[k] as int;
        let b = o2[m] as int;
        if a < b {
            assert(via[a] != via[b]);
        } else {
            assert(via[b] != via[a]);
        }
        assert(second[a] == first[via[a] as int]);
        assert(second[b] == first[via[b] as int]);
        assert(first[via[a] as int] != first[via[b] as int]);
    }
    assert forall|k: int| 0 <= k < led.len() implies (#[trigger] led[k]) < first.len() by {
        assert(o2[k] < second.len());
        assert(via[o2[k] as int] < first.len());
    }
    assert(is_sorted_order(first, led));
    lemma_sorted_order_unique(first, led);
}

/// Where position `x` stands once position `i` is taken out of the list.
pub open spec fn without(x: usize, i: int) -> usize {
    if x > i {
        (x - 1) as usize
    } else {
        x
    }
}

/// Taking a key out of the list takes its position out of the sorted order
/// and leaves the others in the order they had: where the key at `i` stands
/// at place `p` of the sorted order, the sorted order of the rest is the
/// old one without place `p`, each position counted without `i`.
pub proof fn lemma_sorted_order_without(keys: Seq<Seq<u8>>, i: int, p: int)
    requires
        0 <= i < keys.len(),
        keys.len() <= usize::MAX,
        0 <= p < keys.len(),
        sorted_order_of(keys)[p] == i,
    ensures
        forall|k: int|
            0 <= k < keys.len() - 1 ==> (#[trigger] sorted_order_of(keys.remove(i))[k]) == without(
                sorted_order_of(keys)[if k < p {
                    k
                } else {
                    k + 1
                }],
                i,
            ),
{
    lemma_sorted_order_exists(keys);
    let o = sorted_order_of(keys);
    lemma_sorted_order_distinct(keys, o);
    let rest = keys.remove(i);
    let at = |k: int|
        if k < p {
            k
        } else {
            k + 1
        };
    let c = Seq::new((keys.len() - 1) as nat, |k: int| without(o[at(k)], i));
    assert forall|k: int| 0 <= k < c.len() implies (#[trigger] c[k]) < rest.len() && o[at(k)] != i
        && rest[c[k] as int] == keys[o[at(k)] as int] by {
        let a = o[at(k)];
        assert(a < keys.len());
        if at(k) < p {
            assert(o[at(k)] != o[p]);
        } else {
            assert(o[p] != o[at(k)]);
        }
    }
    assert forall|k: int, m: int| 0 <= k < m < c.len() implies key_before(
        rest,
        (#[trigger] c[k]) as int,
        (#[trigger] c[m]) as int,
    ) by {
        assert(c[k] < rest.len() && c[m] < rest.len());
        assert(rest[c[k] as int] == keys[o[at(k)] as int]);
        assert(rest[c[m] as int] == keys[o[at(m)] as int]);
        assert(key_before(keys, o[at(k)] as int, o[at(m)] as int));
    }
    assert(is_sorted_order(rest, c));
    lemma_sorted_order_unique(rest, c);
}

/// Of two different positions one comes before the other, and never both.
pub proof fn lemma_key_before_total(keys: Seq<Seq<u8>>, i: int, j: int)
    ensures
        i != j ==> (key_before(keys, i, j) != key_before(keys, j, i)),
        !key_before(keys, i, i),
{
    lemma_lex_total(keys[i], keys[j]);
    lemma_lex_asymmetric(keys[i], keys[j]);
    lemma_lex_irreflexive(keys[i]);
    lemma_lex_irreflexive(keys[j]);
}

/// A sorted order names no position twice.
pub proof fn lemma_sorted_order_distinct(keys: Seq<Seq<u8>>, order: Seq<usize>)
    requires
        is_sorted_order(keys, order),
    ensures
        forall|k: int, m: int| 0 <= k < m < order.len() ==> order[k] != order[m],
{
    assert forall|k: int, m: int| 0 <= k < m < order.len() implies order[k] != order[m] by {
        lemma_key_before_total(keys, order[k] as int, order[k] as int);
    }
}

/// The sorted order of `keys`. There is exactly one where the keys have any:
/// see [`lemma_sorted_order_unique`].
pub open spec fn sorted_order_of(keys: Seq<Seq<u8>>) -> Seq<usize> {
    choose|order: Seq<usize>| is_sorted_order(keys, order)
}

/// A sorted order is a full draw of the positions.
pub proof fn lemma_sorted_order_is_draw(keys: Seq<Seq<u8>>, order: Seq<usize>)
    requires
        is_sorted_order(keys, order),
        keys.len() <= usize::MAX,
    ensures
        is_draw(order, keys.len() as usize, keys.len() as usize),
{
    lemma_sorted_order_distinct(keys, order);
}

/// Two sorted orders of the same keys agree on their first `k` entries.
proof fn lemma_sorted_orders_agree(keys: Seq<Seq<u8>>, a: Seq<usize>, b: Seq<usize>, k: int)
    requires
        is_sorted_order(keys, a),
        is_sorted_order(keys, b),
        keys.len() <= usize::MAX,
        0 <= k <= keys.len(),
    ensures
        forall|j: int| 0 <= j < k ==> a[j] == b[j],
    decreases k,
{
    if k > 0 {
        lemma_sorted_orders_agree(keys, a, b, k - 1);
        let x = a[k - 1];
        let y = b[k - 1];
        if x != y {
            let n = keys.len() as usize;
            lemma_sorted_order_is_draw(keys, a);
            lemma_sorted_order_is_draw(keys, b);
            lemma_full_draw_covers(a, n, n);
            lemma_full_draw_covers(b, n, n);
            assert(b.contains(x));
            assert(a.contains(y));
            let m = choose|m: int| 0 <= m < b.len() && b[m] == x;
            let w = choose|w: int| 0 <= w < a.len() && a[w] == y;
            if m < k - 1 {
                assert(a[m] == b[m]);
                assert(a[m] != a[k - 1]);
            }
            if w < k - 1 {
                assert(a[w] == b[w]);
                assert(b[w] != b[k - 1]);
            }
            assert(key_before(keys, b[k - 1] as int, b[m] as int));
            assert(key_before(keys, a[k - 1] as int, a[w] as int));
            lemma_key_before_total(keys, x as int, y as int);
        }
    }
}

/// The keys have one sorted order and no other.
pub proof fn lemma_sorted_order_unique(keys: Seq<Seq<u8>>, order: Seq<usize>)
    requires
        is_sorted_order(keys, order),
        keys.len() <= usize::MAX,
    ensures
        order == sorted_order_of(keys),
{
    let chosen = sorted_order_of(keys);
    assert(is_sorted_order(keys, chosen));
    lemma_sorted_orders_agree(keys, order, chosen, keys.len() as int);
    assert(order =~= chosen);
}

/// Tells whether the label at `i` precedes the label at `j` in byte order.
fn label_precedes(labels: &Vec<String>, i: usize, j: usize) -> (r: bool)
    requires
        i < labels.len(),
        j < labels.len(),
    ensures
        r == lex_less(
            label_keys(labels.deep_view())[i as int],
            label_keys(labels.deep_view())[j as int],
        ),
{
    label_precedence(&labels[i], &labels[j]) == Precedence::Before
}

/// Where the label at `i` goes among the positions already in order: behind
/// every label that does not come after it.
fn insertion_point(labels: &Vec<String>, order: &Vec<usize>, i: usize) -> (p: usize)
    requires
        i < labels.len(),
        forall|k: int| 0 <= k < order.len() ==> (#[trigger] order[k]) < labels.len(),
    ensures
        p <= order.len(),
        forall|q: int|
            0 <= q < p ==> !lex_less(
                label_keys(labels.deep_view())[i as int],
                label_keys(labels.deep_view())[(#[trigger] order[q]) as int],
            ),
        p < order.len() ==> lex_less(
            label_keys(labels.deep_view())[i as int],
            label_keys(labels.deep_view())[order[p as int] as int],
        ),
{
    let mut p: usize = 0;
    while p < order.len() && !label_precedes(labels, i, order[p])
        invariant
            p <= order.len(),
            i < labels.len(),
            forall|k: int| 0 <= k < order.len() ==> (#[trigger] order[k]) < labels.len(),
            forall|q: int|
                0 <= q < p ==> !lex_less(
                    label_keys(labels.deep_view())[i as int],
                    label_keys(labels.deep_view())[(#[trigger] order[q]) as int],
                ),
        decreases order.len() - p,
    {
        p = p + 1;
    }
    p
}

/// Sorts the positions of `labels` by label, ascending; equal labels keep
/// the order in which they were given.
pub fn sorted_order(labels: &Vec<String>) -> (order: Vec<usize>)
    ensures
        is_sorted_order(label_keys(labels.deep_view()), order@),
        order@ == sorted_order_of(label_keys(labels.deep_view())),
{
    let n = labels.len();
    let ghost keys = label_keys(labels.deep_view());
    let mut order: Vec<usize> = Vec::new();
    let mut i: usize = 0;
    while i < n
        invariant
            n == labels.len(),
            keys == label_keys(labels.deep_view()),
            i <= n,
            is_sorted_prefix(keys, order@, i as nat),
        decreases n - i,
    {
        let p = insertion_point(labels, &order, i);
        let ghost before = order@;
        order.insert(p, i);
        proof {
            lemma_insert_keeps_sorted(keys, before, p as int, i);
        }
        i = i + 1;
    }
    proof {
        lemma_sorted_order_unique(keys, order@);
    }
    order
}

} // verus!
