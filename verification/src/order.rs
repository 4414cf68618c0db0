//! Texts in order.

use crate::text::{chars_of, texts};
use vstd::prelude::*;
use vstd::relations::{sorted_by, total_ordering};
use vstd::seq_lib::lemma_sorted_unique;
use vstd::utf8::char_u32_cast;

verus! {

/// Whether `a` comes before `b` or is the same text. The first character in which they differ
/// decides, by its code; a text comes after its own beginnings. Strings of bytes in UTF-8 have
/// the same order.
pub open spec fn text_le(a: Seq<char>, b: Seq<char>) -> bool
    decreases a.len(),
{
    if a.len() == 0 {
        true
    } else if b.len() == 0 {
        false
    } else if a[0] == b[0] {
        text_le(a.skip(1), b.skip(1))
    } else {
        (a[0] as u32) < (b[0] as u32)
    }
}

/// The order of texts as a relation.
pub open spec fn text_order() -> spec_fn(Seq<char>, Seq<char>) -> bool {
    |a: Seq<char>, b: Seq<char>| text_le(a, b)
}

proof fn lemma_reflexive(a: Seq<char>)
    ensures
        text_le(a, a),
    decreases a.len(),
{
    if a.len() > 0 {
        lemma_reflexive(a.skip(1));
    }
}

proof fn lemma_antisymmetric(a: Seq<char>, b: Seq<char>)
    requires
        text_le(a, b),
        text_le(b, a),
    ensures
        a == b,
    decreases a.len(),
{
    if a.len() > 0 && b.len() > 0 {
        lemma_antisymmetric(a.skip(1), b.skip(1));
        assert(a =~= seq![a[0]] + a.skip(1));
        assert(b =~= seq![b[0]] + b.skip(1));
    } else {
        assert(a =~= b);
    }
}

proof fn lemma_transitive(a: Seq<char>, b: Seq<char>, c: Seq<char>)
    requires
        text_le(a, b),
        text_le(b, c),
    ensures
        text_le(a, c),
    decreases a.len(),
{
    if a.len() > 0 && b.len() > 0 && c.len() > 0 && a[0] == b[0] && b[0] == c[0] {
        lemma_transitive(a.skip(1), b.skip(1), c.skip(1));
    }
}

proof fn lemma_connected(a: Seq<char>, b: Seq<char>)
    ensures
        text_le(a, b) || text_le(b, a),
    decreases a.len(),
{
    if a.len() > 0 && b.len() > 0 && a[0] == b[0] {
        lemma_connected(a.skip(1), b.skip(1));
    } else if a.len() > 0 && b.len() > 0 {
        char_u32_cast(a[0], a[0] as u32);
        char_u32_cast(b[0], b[0] as u32);
    }
}

/// The order of texts is total: any two texts are ordered one way, and both ways only where
/// they are the same.
pub proof fn law_text_order_is_total()
    ensures
        total_ordering(text_order()),
{
    let r = text_order();
    assert forall|a: Seq<char>| #[trigger] r(a, a) by {
        lemma_reflexive(a);
    }
    assert forall|a: Seq<char>, b: Seq<char>| #[trigger] r(a, b) && #[trigger] r(b, a) implies a
        == b by {
        lemma_antisymmetric(a, b);
    }
    assert forall|a: Seq<char>, b: Seq<char>, c: Seq<char>|
        #[trigger] r(a, b) && #[trigger] r(b, c) implies r(a, c) by {
        lemma_transitive(a, b, c);
    }
    assert forall|a: Seq<char>, b: Seq<char>| #[trigger] r(a, b) || #[trigger] r(b, a) by {
        lemma_connected(a, b);
    }
}

/// Whether `a` comes before `b` or is the same text.
pub fn not_after(a: &str, b: &str) -> (r: bool)
    ensures
        r == text_le(a@, b@),
{
    let x = chars_of(a);
    let y = chars_of(b);
    let mut i: usize = 0;
    assert(a@.skip(0) =~= a@);
    assert(b@.skip(0) =~= b@);
    while i < x.len() && i < y.len()
        invariant
            x@ == a@,
            y@ == b@,
            i <= a@.len(),
            i <= b@.len(),
            text_le(a@.skip(i as int), b@.skip(i as int)) == text_le(a@, b@),
        decreases a@.len() - i,
    {
        let ghost p = a@.skip(i as int);
        let ghost q = b@.skip(i as int);
        assert(p[0] == a@[i as int] && q[0] == b@[i as int]);
        if x[i] != y[i] {
            return (x[i] as u32) < (y[i] as u32);
        }
        assert(p.skip(1) =~= a@.skip(i + 1));
        assert(q.skip(1) =~= b@.skip(i + 1));
        i += 1;
    }
    i == x.len()
}

/// Texts in order.
pub open spec fn sorted(s: Seq<Seq<char>>) -> Seq<Seq<char>> {
    s.sort_by(text_order())
}

/// Puts texts in order.
pub fn sort_texts(files: Vec<String>) -> (r: Vec<String>)
    ensures
        texts(r@) == sorted(texts(files@)),
        r@.len() == files@.len(),
{
    proof {
        law_text_order_is_total();
    }
    let ghost order = text_order();
    let ghost all = texts(files@);
    let mut out: Vec<String> = Vec::new();
    let mut rest: Vec<String> = files;
    assert(texts(out@) =~= Seq::empty());
    proof {
        broadcast use vstd::seq_lib::group_to_multiset_ensures;

        assert(texts(out@).to_multiset() =~= vstd::multiset::Multiset::empty());
        assert(texts(rest@).to_multiset().add(texts(out@).to_multiset())
            =~= all.to_multiset());
    }
    while rest.len() > 0
        invariant
            order == text_order(),
            total_ordering(order),
            sorted_by(texts(out@), order),
            texts(rest@).to_multiset().add(texts(out@).to_multiset()) == all.to_multiset(),
            rest@.len() + out@.len() == all.len(),
        decreases rest@.len(),
    {
        let ghost rest_before = rest@;
        let ghost out_before = out@;
        match rest.pop() {
            Some(file) => {
                let at: usize = insertion_point(&out, &file);
                let ghost text = file@;
                out.insert(at, file);
                proof {
                    broadcast use vstd::seq_lib::group_to_multiset_ensures;
                    broadcast use vstd::multiset::group_multiset_axioms;

                    let before = texts(out_before);
                    let after = texts(out@);
                    assert(after =~= before.insert(at as int, text));
                    assert(texts(rest_before) =~= texts(rest@).push(text));
                    assert(after.remove(at as int) =~= before);
                    assert(after.to_multiset().count(text) > 0) by {
                        assert(after[at as int] == text);
                        assert(after.contains(text));
                    }
                    assert(after.to_multiset() =~= before.to_multiset().insert(text));
                    assert(texts(rest@).to_multiset().add(after.to_multiset())
                        =~= all.to_multiset());
                    assert forall|i: int, j: int| 0 <= i < j < after.len() implies #[trigger] order(
                        after[i],
                        after[j],
                    ) by {
                        lemma_inserted(before, at as int, text, i, j);
                    }
                }
            },
            None => {},
        }
    }
    proof {
        broadcast use vstd::seq_lib::group_to_multiset_ensures;
        broadcast use vstd::multiset::group_multiset_axioms;

        assert(texts(rest@) =~= Seq::empty());
        assert(texts(rest@).to_multiset() =~= vstd::multiset::Multiset::empty());
        assert(texts(out@).to_multiset() =~= all.to_multiset());
        all.lemma_sort_by_ensures(order);
        lemma_sorted_unique(texts(out@), all.sort_by(order), order);
    }
    out
}

proof fn lemma_inserted(before: Seq<Seq<char>>, at: int, text: Seq<char>, i: int, j: int)
    requires
        sorted_by(before, text_order()),
        0 <= at <= before.len(),
        forall|k: int| 0 <= k < at ==> text_le(#[trigger] before[k], text),
        forall|k: int| at <= k < before.len() ==> text_le(text, #[trigger] before[k]),
        0 <= i < j <= before.len(),
    ensures
        text_le(before.insert(at, text)[i], before.insert(at, text)[j]),
{
    let after = before.insert(at, text);
    let order = text_order();
    if j < at {
        assert(order(before[i], before[j]));
    } else if j == at {
        assert(after[i] == before[i]);
    } else if i < at {
        assert(order(before[i], before[j - 1]));
    } else if i == at {
        assert(after[j] == before[j - 1]);
    } else {
        assert(order(before[i - 1], before[j - 1]));
    }
}

/// Where a text belongs among texts that are in order.
fn insertion_point(sorted: &Vec<String>, text: &String) -> (r: usize)
    requires
        sorted_by(texts(sorted@), text_order()),
    ensures
        r <= sorted@.len(),
        forall|k: int| 0 <= k < r ==> text_le(#[trigger] texts(sorted@)[k], text@),
        forall|k: int| r <= k < sorted@.len() ==> text_le(text@, #[trigger] texts(sorted@)[k]),
{
    let mut lo: usize = 0;
    let mut hi: usize = sorted.len();
    let ghost s = texts(sorted@);
    let ghost order = text_order();
    while lo < hi
        invariant
            lo <= hi <= sorted@.len(),
            s == texts(sorted@),
            order == text_order(),
            sorted_by(s, order),
            forall|k: int| 0 <= k < lo ==> text_le(#[trigger] s[k], text@),
            forall|k: int| hi <= k < sorted@.len() ==> text_le(text@, #[trigger] s[k]),
        decreases hi - lo,
    {
        let mid: usize = lo + (hi - lo) / 2;
        if not_after(sorted[mid].as_str(), text.as_str()) {
            proof {
                assert forall|k: int| 0 <= k < mid + 1 implies text_le(#[trigger] s[k], text@) by {
                    if k < mid {
                        assert(order(s[k], s[mid as int]));
                        lemma_transitive(s[k], s[mid as int], text@);
                    }
                }
            }
            lo = mid + 1;
        } else {
            proof {
                lemma_connected(s[mid as int], text@);
                assert forall|k: int| mid <= k < sorted@.len() implies text_le(
                    text@,
                    #[trigger] s[k],
                ) by {
                    if k > mid {
                        assert(order(s[mid as int], s[k]));
                        lemma_transitive(text@, s[mid as int], s[k]);
                    }
                }
            }
            hi = mid;
        }
    }
    lo
}

/// The order in which texts are found does not matter for the order they are put in.
pub proof fn law_sorting_forgets_the_order(a: Seq<Seq<char>>, b: Seq<Seq<char>>)
    requires
        a.to_multiset() == b.to_multiset(),
    ensures
        sorted(a) == sorted(b),
{
    law_text_order_is_total();
    a.lemma_sort_by_ensures(text_order());
    b.lemma_sort_by_ensures(text_order());
    lemma_sorted_unique(sorted(a), sorted(b), text_order());
}

/// Putting texts in order keeps each of them, as often as it was there.
pub proof fn law_sorting_keeps_the_texts(a: Seq<Seq<char>>)
    ensures
        sorted(a).to_multiset() == a.to_multiset(),
        sorted(a).len() == a.len(),
        sorted_by(sorted(a), text_order()),
{
    broadcast use vstd::seq_lib::group_to_multiset_ensures;

    law_text_order_is_total();
    a.lemma_sort_by_ensures(text_order());
    assert(sorted(a).len() == sorted(a).to_multiset().len());
    assert(a.len() == a.to_multiset().len());
}

/// A text comes before another one, or is the same, exactly where it is a beginning of the other
/// one, or has the smaller character where they first differ.
pub proof fn law_order_of_texts(a: Seq<char>, b: Seq<char>)
    ensures
        text_le(a, b) <==> a.is_prefix_of(b) || exists|k: int|
            0 <= k < a.len() && k < b.len() && #[trigger] a.take(k) == b.take(k) && (a[k] as u32)
                < (b[k] as u32),
    decreases a.len(),
{
    let (x, y) = (a.skip(1), b.skip(1));
    if a.len() == 0 {
        assert(a =~= b.subrange(0, 0));
    } else if b.len() == 0 {
    } else if a[0] == b[0] {
        law_order_of_texts(x, y);
        if text_le(x, y) {
            if x.is_prefix_of(y) {
                assert(a =~= b.subrange(0, a.len() as int)) by {
                    assert forall|i: int| 0 <= i < a.len() implies a[i] == b[i] by {
                        if i > 0 {
                            assert(x[i - 1] == y.subrange(0, x.len() as int)[i - 1]);
                        }
                    }
                }
            } else {
                let k = choose|k: int|
                    0 <= k < x.len() && k < y.len() && #[trigger] x.take(k) == y.take(k) && (
                    x[k] as u32) < (y[k] as u32);
                assert(a.take(k + 1) =~= seq![a[0]] + x.take(k));
                assert(b.take(k + 1) =~= seq![b[0]] + y.take(k));
                assert(x[k] == a[k + 1] && y[k] == b[k + 1]);
            }
        }
        if a.is_prefix_of(b) {
            assert(x =~= y.subrange(0, x.len() as int)) by {
                assert forall|i: int| 0 <= i < x.len() implies x[i] == y[i] by {
                    assert(a[i + 1] == b.subrange(0, a.len() as int)[i + 1]);
                }
            }
        }
        if exists|k: int|
            0 <= k < a.len() && k < b.len() && #[trigger] a.take(k) == b.take(k) && (a[k] as u32)
                < (b[k] as u32) {
            let k = choose|k: int|
                0 <= k < a.len() && k < b.len() && #[trigger] a.take(k) == b.take(k) && (
                a[k] as u32) < (b[k] as u32);
            assert(x.take(k - 1) =~= a.take(k).skip(1));
            assert(y.take(k - 1) =~= b.take(k).skip(1));
            assert(x[k - 1] == a[k] && y[k - 1] == b[k]);
        }
    } else {
        if text_le(a, b) {
            assert(a.take(0) =~= b.take(0));
        }
        if a.is_prefix_of(b) {
            assert(a[0] == b.subrange(0, a.len() as int)[0]);
        }
        if exists|k: int|
            0 <= k < a.len() && k < b.len() && #[trigger] a.take(k) == b.take(k) && (a[k] as u32)
                < (b[k] as u32) {
            let k = choose|k: int|
                0 <= k < a.len() && k < b.len() && #[trigger] a.take(k) == b.take(k) && (
                a[k] as u32) < (b[k] as u32);
            if k > 0 {
                assert(a.take(k)[0] == a[0] && b.take(k)[0] == b[0]);
            }
        }
    }
}

} // verus!
