//! Putting texts in order.

use crate::text;
use vstd::prelude::*;

verus! {

/// Whether a text comes before another, character by character.
pub open spec fn less(a: Seq<char>, b: Seq<char>) -> bool
    decreases a.len(),
{
    if b.len() == 0 {
        false
    } else if a.len() == 0 {
        true
    } else if a[0] == b[0] {
        less(a.drop_first(), b.drop_first())
    } else {
        a[0] < b[0]
    }
}

/// Whether an item goes before another: the smaller key first, and of equal
/// keys the one that came first.
pub open spec fn goes_before(keys: Seq<Seq<char>>, i: int, j: int) -> bool {
    less(keys[i], keys[j]) || (keys[i] == keys[j] && i < j)
}

/// Whether a list names every item once, each before those that come after it.
pub open spec fn is_order(keys: Seq<Seq<char>>, order: Seq<usize>) -> bool {
    &&& order.len() == keys.len()
    &&& forall|a: int| 0 <= a < order.len() ==> #[trigger] order[a] < keys.len()
    &&& forall|i: int| 0 <= i < keys.len() ==> order.contains(#[trigger] (i as usize))
    &&& forall|a: int, b: int|
        0 <= a < b < order.len() ==> #[trigger] goes_before(
            keys,
            order[a] as int,
            order[b] as int,
        )
}

proof fn lemma_less_is_total(a: Seq<char>, b: Seq<char>)
    ensures
        less(a, b) || less(b, a) || a == b,
        !(less(a, b) && less(b, a)),
        !less(a, a),
    decreases a.len(),
{
    if a.len() > 0 && b.len() > 0 {
        lemma_less_is_total(a.drop_first(), b.drop_first());
        if a[0] == b[0] && a.drop_first() == b.drop_first() {
            assert(a =~= seq![a[0]] + a.drop_first());
            assert(b =~= seq![b[0]] + b.drop_first());
        }
    } else if a.len() == 0 && b.len() == 0 {
        assert(a =~= b);
    }
    if a.len() > 0 {
        lemma_less_is_total(a.drop_first(), a.drop_first());
    }
}

proof fn lemma_less_is_transitive(a: Seq<char>, b: Seq<char>, c: Seq<char>)
    requires
        less(a, b),
        less(b, c),
    ensures
        less(a, c),
    decreases a.len(),
{
    if a.len() > 0 && a[0] == b[0] && b[0] == c[0] {
        lemma_less_is_transitive(a.drop_first(), b.drop_first(), c.drop_first());
    }
}

proof fn lemma_goes_before_is_transitive(keys: Seq<Seq<char>>, i: int, j: int, k: int)
    requires
        goes_before(keys, i, j),
        goes_before(keys, j, k),
    ensures
        goes_before(keys, i, k),
{
    if less(keys[i], keys[j]) && less(keys[j], keys[k]) {
        lemma_less_is_transitive(keys[i], keys[j], keys[k]);
    }
}

/// There is one order only.
pub proof fn law_the_order_is_settled(keys: Seq<Seq<char>>, a: Seq<usize>, b: Seq<usize>)
    requires
        is_order(keys, a),
        is_order(keys, b),
    ensures
        a == b,
{
    lemma_same_order(keys, a, b, a.len() as int);
    assert(a =~= b);
}

proof fn lemma_same_order(keys: Seq<Seq<char>>, a: Seq<usize>, b: Seq<usize>, n: int)
    requires
        is_order(keys, a),
        is_order(keys, b),
        0 <= n <= a.len(),
    ensures
        forall|k: int| 0 <= k < n ==> #[trigger] a[k] == b[k],
    decreases n,
{
    if n > 0 {
        lemma_same_order(keys, a, b, n - 1);
        let last = n - 1;
        if a[last] != b[last] {
            assert(b.contains((a[last] as int) as usize));
            assert(a.contains((b[last] as int) as usize));
            let p = choose|p: int| 0 <= p < b.len() && b[p] == a[last];
            let q = choose|q: int| 0 <= q < a.len() && a[q] == b[last];
            if p < last {
                assert(a[p] == b[p]);
                assert(goes_before(keys, a[p] as int, a[last] as int));
                lemma_less_is_total(keys[a[last] as int], keys[a[last] as int]);
            }
            if q < last {
                assert(a[q] == b[q]);
                assert(goes_before(keys, b[q] as int, b[last] as int));
                lemma_less_is_total(keys[b[last] as int], keys[b[last] as int]);
            }
            assert(goes_before(keys, b[last] as int, b[p] as int));
            assert(goes_before(keys, a[last] as int, a[q] as int));
            lemma_less_is_total(keys[a[last] as int], keys[b[last] as int]);
        }
    }
}

/// Whether a text comes before another.
pub fn is_less(a: &[char], b: &[char]) -> (before: bool)
    ensures
        before == less(a@, b@),
{
    let mut i: usize = 0;
    assert(a@.skip(0) =~= a@);
    assert(b@.skip(0) =~= b@);
    while i < a.len() && i < b.len() && a[i] == b[i]
        invariant
            i <= a@.len(),
            i <= b@.len(),
            less(a@, b@) == less(a@.skip(i as int), b@.skip(i as int)),
        decreases a@.len() - i,
    {
        assert(a@.skip(i as int).drop_first() =~= a@.skip(i + 1));
        assert(b@.skip(i as int).drop_first() =~= b@.skip(i + 1));
        i += 1;
    }
    if i >= b.len() {
        false
    } else if i >= a.len() {
        true
    } else {
        a[i] < b[i]
    }
}

/// The order of the items with these keys.
pub fn order_of(keys: &[Vec<char>]) -> (order: Vec<usize>)
    ensures
        is_order(text::texts(keys@), order@),
{
    let ghost all = text::texts(keys@);
    let mut order: Vec<usize> = Vec::new();
    let mut n: usize = 0;
    assert(all.take(0) =~= Seq::<Seq<char>>::empty());
    while n < keys.len()
        invariant
            all == text::texts(keys@),
            n <= keys@.len(),
            is_order(all.take(n as int), order@),
        decreases keys@.len() - n,
    {
        let ghost before = order@;
        let ghost prefix = all.take(n as int);
        let ghost longer = all.take(n + 1);
        assert(forall|k: int| 0 <= k < n ==> #[trigger] prefix[k] == longer[k]);
        assert(longer[n as int] == keys@[n as int]@);
        let mut p: usize = order.len();
        while p > 0 && is_less(&keys[n], &keys[order[p - 1]])
            invariant
                n < keys@.len(),
                order@ == before,
                p <= order@.len(),
                longer == all.take(n + 1),
                all == text::texts(keys@),
                order@.len() == n,
                forall|a: int| 0 <= a < order@.len() ==> #[trigger] order@[a] < n,
                forall|k: int| p <= k < order@.len() ==> less(
                    longer[n as int],
                    longer[#[trigger] order@[k] as int],
                ),
            decreases p,
        {
            assert(order@[p - 1] < n);
            p -= 1;
        }
        order.insert(p, n);
        proof {
            lemma_inserted(prefix, longer, before, p as int);
            assert(order@ =~= before.insert(p as int, n));
        }
        n += 1;
    }
    assert(all.take(keys@.len() as int) =~= all);
    order
}

proof fn lemma_inserted(
    prefix: Seq<Seq<char>>,
    longer: Seq<Seq<char>>,
    before: Seq<usize>,
    p: int,
)
    requires
        longer.len() == prefix.len() + 1,
        longer.len() <= usize::MAX,
        forall|k: int| 0 <= k < prefix.len() ==> #[trigger] prefix[k] == longer[k],
        is_order(prefix, before),
        0 <= p <= before.len(),
        p > 0 ==> !less(longer.last(), longer[before[p - 1] as int]),
        forall|k: int| p <= k < before.len() ==> less(
            longer.last(),
            longer[#[trigger] before[k] as int],
        ),
    ensures
        is_order(longer, before.insert(p, prefix.len() as usize)),
{
    let n = prefix.len() as usize;
    let after = before.insert(p, n);
    assert forall|a: int| 0 <= a < after.len() implies #[trigger] after[a] < longer.len() by {
        if a < p {
            assert(after[a] == before[a]);
        } else if a > p {
            assert(after[a] == before[a - 1]);
        }
    }
    assert forall|i: int| 0 <= i < longer.len() implies after.contains(#[trigger] (i as usize)) by {
        if i == n {
            assert(after[p] == n);
        } else {
            assert(before.contains(i as usize));
            let k = choose|k: int| 0 <= k < before.len() && before[k] == i as usize;
            if k < p {
                assert(after[k] == before[k]);
            } else {
                assert(after[k + 1] == before[k]);
            }
        }
    }
    assert forall|a: int, b: int| 0 <= a < b < after.len() implies #[trigger] goes_before(
        longer,
        after[a] as int,
        after[b] as int,
    ) by {
        if a != p && b != p {
            let x = if a < p { a } else { a - 1 };
            let y = if b < p { b } else { b - 1 };
            assert(after[a] == before[x]);
            assert(after[b] == before[y]);
            assert(before[x] < prefix.len());
            assert(before[y] < prefix.len());
            assert(goes_before(prefix, before[x] as int, before[y] as int));
            assert(prefix[before[x] as int] == longer[before[x] as int]);
            assert(prefix[before[y] as int] == longer[before[y] as int]);
        } else if b == p {
            assert(after[a] == before[a]);
            assert(before[a] < prefix.len());
            assert(before[p - 1] < prefix.len());
            lemma_less_is_total(longer.last(), longer[before[p - 1] as int]);
            assert(goes_before(longer, before[p - 1] as int, n as int));
            if a < p - 1 {
                assert(goes_before(prefix, before[a] as int, before[p - 1] as int));
                assert(prefix[before[a] as int] == longer[before[a] as int]);
                assert(prefix[before[p - 1] as int] == longer[before[p - 1] as int]);
                lemma_goes_before_is_transitive(
                    longer,
                    before[a] as int,
                    before[p - 1] as int,
                    n as int,
                );
            }
        } else {
            assert(after[b] == before[b - 1]);
        }
    }
}

/// Texts are ordered as in a dictionary: by the first character in which they differ,
/// and one that the other begins with comes first.
pub proof fn law_texts_are_ordered_as_in_a_dictionary(
    start: Seq<char>,
    a: char,
    b: char,
    rest: Seq<char>,
    other: Seq<char>,
)
    ensures
        a != b ==> less(start + seq![a] + rest, start + seq![b] + other) == (a < b),
        less(start, start + seq![a] + rest),
        !less(start + seq![a] + rest, start),
        !less(start, start),
    decreases start.len(),
{
    let (x, y) = (start + seq![a] + rest, start + seq![b] + other);
    if start.len() == 0 {
        assert(x[0] == a && y[0] == b);
    } else {
        let shorter = start.drop_first();
        law_texts_are_ordered_as_in_a_dictionary(shorter, a, b, rest, other);
        assert(x[0] == start[0] && y[0] == start[0]);
        assert(x.drop_first() =~= shorter + seq![a] + rest);
        assert(y.drop_first() =~= shorter + seq![b] + other);
    }
}

} // verus!
