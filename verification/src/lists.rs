//! Lists: copies, searches, and facts about filtered and joined lists.

use vstd::prelude::*;

use crate::Id;

verus! {

/// Adds copies of the items of `more`.
pub(crate) fn push_all<T: Copy>(items: &mut Vec<T>, more: &Vec<T>)
    ensures
        final(items)@ == old(items)@ + more@,
{
    let ghost before = items@;
    let mut i: usize = 0;
    while i < more.len()
        invariant
            i <= more.len(),
            items@ =~= before + more@.take(i as int),
        decreases more.len() - i,
    {
        items.push(more[i]);
        i = i + 1;
    }
    assert(more@.take(i as int) =~= more@);
}

/// A copy of a list.
pub(crate) fn copy_all<T: Copy>(items: &Vec<T>) -> (copy: Vec<T>)
    ensures
        copy@ == items@,
{
    let mut copy: Vec<T> = Vec::new();
    push_all(&mut copy, items);
    assert(copy@ =~= items@);
    copy
}

/// Whether the id is in the list.
pub(crate) fn contains_id(ids: &Vec<Id>, id: Id) -> (found: bool)
    ensures
        found == ids@.contains(id),
{
    let mut i: usize = 0;
    while i < ids.len()
        invariant
            i <= ids.len(),
            forall|k: int| 0 <= k < i ==> ids@[k] != id,
        decreases ids.len() - i,
    {
        if ids[i] == id {
            return true;
        }
        i = i + 1;
    }
    false
}

/// One more item of a filtered list.
pub(crate) proof fn lemma_filter_next<A>(s: Seq<A>, i: int, wanted: spec_fn(A) -> bool)
    requires
        0 <= i < s.len(),
    ensures
        s.take(i + 1).filter(wanted) == if wanted(s[i]) {
            s.take(i).filter(wanted).push(s[i])
        } else {
            s.take(i).filter(wanted)
        },
{
    reveal(Seq::filter);
    assert(s.take(i + 1).drop_last() =~= s.take(i));
    assert(s.take(i + 1).last() == s[i]);
}

/// The start of a filtered list.
pub(crate) proof fn lemma_filter_start<A>(s: Seq<A>, wanted: spec_fn(A) -> bool)
    ensures
        s.take(0).filter(wanted) == Seq::<A>::empty(),
{
    reveal(Seq::filter);
    assert(s.take(0).filter(wanted) =~= Seq::<A>::empty());
}

/// What a filtered list holds.
pub(crate) proof fn lemma_filter_holds<A>(s: Seq<A>, wanted: spec_fn(A) -> bool, a: A)
    ensures
        s.filter(wanted).contains(a) <==> s.contains(a) && wanted(a),
{
    if s.filter(wanted).contains(a) {
        let i = s.filter(wanted).index_of(a);
        s.lemma_filter_pred(wanted, i);
        s.lemma_filter_contains_rev(wanted, a);
    }
    if s.contains(a) && wanted(a) {
        let i = s.index_of(a);
        s.lemma_filter_contains(wanted, i);
    }
}

/// What the joined images of a list's items hold.
pub(crate) proof fn lemma_flat_map_holds<A, B>(s: Seq<A>, f: spec_fn(A) -> Seq<B>, b: B)
    ensures
        s.flat_map(f).contains(b) <==> exists|i: int|
            0 <= i < s.len() && f(#[trigger] s[i]).contains(b),
    decreases s.len(),
{
    if s.len() == 0 {
        assert(s.flat_map(f) =~= Seq::<B>::empty());
    } else {
        let rest = s.drop_last();
        let last = s.last();
        lemma_flat_map_holds(rest, f, b);
        rest.lemma_flat_map_push(f, last);
        assert(rest.push(last) =~= s);
        let before = rest.flat_map(f);
        let all = s.flat_map(f);
        assert(all =~= before + f(last));
        if all.contains(b) {
            let k = all.index_of(b);
            if k < before.len() {
                assert(before[k] == b);
                let i = choose|i: int| 0 <= i < rest.len() && f(#[trigger] rest[i]).contains(b);
                assert(f(s[i]).contains(b));
            } else {
                assert(f(last)[k - before.len()] == b);
                assert(f(s[s.len() - 1]).contains(b));
            }
        }
        if exists|i: int| 0 <= i < s.len() && f(#[trigger] s[i]).contains(b) {
            let i = choose|i: int| 0 <= i < s.len() && f(#[trigger] s[i]).contains(b);
            if i < rest.len() {
                assert(f(rest[i]).contains(b));
                assert(all[before.index_of(b)] == b);
            } else {
                assert(all[before.len() + f(last).index_of(b)] == b);
            }
        }
    }
}

/// A filter that keeps nothing.
pub(crate) proof fn lemma_filter_none<A>(s: Seq<A>, wanted: spec_fn(A) -> bool)
    requires
        forall|i: int| 0 <= i < s.len() ==> !wanted(#[trigger] s[i]),
    ensures
        s.filter(wanted) == Seq::<A>::empty(),
    decreases s.len(),
{
    reveal(Seq::filter);
    if s.len() > 0 {
        lemma_filter_none(s.drop_last(), wanted);
    }
    assert(s.filter(wanted) =~= Seq::<A>::empty());
}

/// A filter that keeps everything.
pub(crate) proof fn lemma_filter_all<A>(s: Seq<A>, wanted: spec_fn(A) -> bool)
    requires
        forall|i: int| 0 <= i < s.len() ==> wanted(#[trigger] s[i]),
    ensures
        s.filter(wanted) == s,
    decreases s.len(),
{
    reveal(Seq::filter);
    if s.len() > 0 {
        lemma_filter_all(s.drop_last(), wanted);
    }
    assert(s.filter(wanted) =~= s);
}

/// A filter that looks at the images of the items only.
pub(crate) proof fn lemma_filter_by_image<A, B>(
    s: Seq<A>,
    image: spec_fn(A) -> B,
    on_item: spec_fn(A) -> bool,
    on_image: spec_fn(B) -> bool,
)
    requires
        forall|a: A| #[trigger] on_item(a) == on_image(image(a)),
    ensures
        s.filter(on_item).map_values(image) == s.map_values(image).filter(on_image),
    decreases s.len(),
{
    reveal(Seq::filter);
    let images = s.map_values(image);
    if s.len() > 0 {
        lemma_filter_by_image(s.drop_last(), image, on_item, on_image);
        assert(images.drop_last() =~= s.drop_last().map_values(image));
        assert(on_item(s.last()) == on_image(images.last()));
        let before = s.drop_last().filter(on_item);
        assert(before.push(s.last()).map_values(image) =~= before.map_values(image).push(
            image(s.last()),
        ));
    } else {
        assert(s.filter(on_item).map_values(image) =~= images.filter(on_image));
    }
}

/// Filtering a filtered list.
pub(crate) proof fn lemma_filter_twice<A>(
    s: Seq<A>,
    first: spec_fn(A) -> bool,
    second: spec_fn(A) -> bool,
    both: spec_fn(A) -> bool,
)
    requires
        forall|a: A| #[trigger] both(a) == (first(a) && second(a)),
    ensures
        s.filter(both) == s.filter(first).filter(second),
    decreases s.len(),
{
    reveal(Seq::filter);
    if s.len() > 0 {
        lemma_filter_twice(s.drop_last(), first, second, both);
        assert(both(s.last()) == (first(s.last()) && second(s.last())));
        let before = s.drop_last().filter(first);
        assert(before.push(s.last()).drop_last() =~= before);
    }
}

/// Two filters that part what a third one keeps.
pub(crate) proof fn lemma_filter_parts<A>(
    s: Seq<A>,
    first: spec_fn(A) -> bool,
    second: spec_fn(A) -> bool,
    both: spec_fn(A) -> bool,
)
    requires
        forall|a: A| #[trigger] both(a) == (first(a) || second(a)),
        forall|a: A| #[trigger] both(a) ==> !(first(a) && second(a)),
    ensures
        s.filter(first).to_multiset().add(s.filter(second).to_multiset()) == s.filter(
            both,
        ).to_multiset(),
    decreases s.len(),
{
    broadcast use vstd::seq_lib::group_to_multiset_ensures;

    reveal(Seq::filter);
    if s.len() > 0 {
        let rest = s.drop_last();
        let last = s.last();
        lemma_filter_parts(rest, first, second, both);
        assert(both(last) == (first(last) || second(last)));
        let a = rest.filter(first);
        let b = rest.filter(second);
        let c = rest.filter(both);
        assert(a.push(last).to_multiset() =~= a.to_multiset().insert(last));
        assert(b.push(last).to_multiset() =~= b.to_multiset().insert(last));
        assert(c.push(last).to_multiset() =~= c.to_multiset().insert(last));
    }
    assert(s.filter(first).to_multiset().add(s.filter(second).to_multiset()) =~= s.filter(
        both,
    ).to_multiset());
}

/// What two joined lists hold.
pub(crate) proof fn lemma_join_holds<A>(a: Seq<A>, b: Seq<A>, x: A)
    ensures
        (a + b).contains(x) <==> a.contains(x) || b.contains(x),
{
    let all = a + b;
    if all.contains(x) {
        let i = all.index_of(x);
        if i < a.len() {
            assert(a[i] == x);
        } else {
            assert(b[i - a.len()] == x);
        }
    }
    if a.contains(x) {
        assert(all[a.index_of(x)] == x);
    }
    if b.contains(x) {
        assert(all[a.len() + b.index_of(x)] == x);
    }
}

/// The images of two joined lists are the images of the one before those of the other.
pub(crate) proof fn lemma_flat_map_join<A, B>(a: Seq<A>, b: Seq<A>, f: spec_fn(A) -> Seq<B>)
    ensures
        (a + b).flat_map(f) == a.flat_map(f) + b.flat_map(f),
    decreases b.len(),
{
    if b.len() == 0 {
        assert(a + b =~= a);
        assert(b.flat_map(f) =~= Seq::<B>::empty());
        assert(a.flat_map(f) + b.flat_map(f) =~= a.flat_map(f));
    } else {
        let rest = b.drop_last();
        let last = b.last();
        lemma_flat_map_join(a, rest, f);
        (a + rest).lemma_flat_map_push(f, last);
        rest.lemma_flat_map_push(f, last);
        assert((a + rest).push(last) =~= a + b);
        assert(rest.push(last) =~= b);
        assert((a.flat_map(f) + rest.flat_map(f)) + f(last) =~= a.flat_map(f) + (rest.flat_map(f)
            + f(last)));
    }
}

/// Where all images are of one length, they stand at even distances.
pub(crate) proof fn lemma_flat_map_even<A, B>(s: Seq<A>, f: spec_fn(A) -> Seq<B>, n: nat)
    requires
        forall|i: int| 0 <= i < s.len() ==> f(#[trigger] s[i]).len() == n,
    ensures
        s.flat_map(f).len() == s.len() * n,
        forall|i: int, k: int|
            #![trigger f(s[i])[k]]
            0 <= i < s.len() && 0 <= k < n ==> s.flat_map(f)[i * n + k] == f(s[i])[k],
    decreases s.len(),
{
    if s.len() == 0 {
        assert(s.flat_map(f) =~= Seq::<B>::empty());
    } else {
        let rest = s.drop_last();
        let last = s.last();
        let m = rest.len();
        assert forall|i: int| 0 <= i < rest.len() implies f(#[trigger] rest[i]).len() == n by {
            assert(rest[i] == s[i]);
        }
        lemma_flat_map_even(rest, f, n);
        rest.lemma_flat_map_push(f, last);
        assert(rest.push(last) =~= s);
        let before = rest.flat_map(f);
        let all = s.flat_map(f);
        assert(all =~= before + f(last));
        assert(f(s[m as int]).len() == n);
        assert((m + 1) * n == m * n + n) by (nonlinear_arith);
        assert forall|i: int, k: int|
            #![trigger f(s[i])[k]]
            0 <= i < s.len() && 0 <= k < n implies all[i * n + k] == f(s[i])[k] by {
            if i < m {
                assert(i * n + k < m * n) by (nonlinear_arith)
                    requires
                        i + 1 <= m,
                        k < n,
                ;
                assert(0 <= i * n) by (nonlinear_arith)
                    requires
                        0 <= i,
                ;
                assert(rest[i] == s[i]);
                assert(before[i * n + k] == f(rest[i])[k]);
            } else {
                assert(i == m);
            }
        }
    }
}

} // verus!
