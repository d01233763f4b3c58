//! Lists of transport protocols.

use vstd::prelude::*;

verus! {

/// The numbers ascend, so none occurs twice.
pub open spec fn ascending(numbers: Seq<i32>) -> bool {
    forall|i: int, j: int| 0 <= i < j < numbers.len() ==> numbers[i] < numbers[j]
}

/// `sorted` holds the numbers of the list in ascending order, each of them once.
pub open spec fn is_sorted_set(sorted: Seq<i32>, numbers: Seq<i32>) -> bool {
    &&& ascending(sorted)
    &&& forall|n: i32| sorted.contains(n) <==> numbers.contains(n)
}

/// The numbers of a list in ascending order, each of them once.
pub open spec fn sorted_set(numbers: Seq<i32>) -> Seq<i32> {
    choose|sorted: Seq<i32>| is_sorted_set(sorted, numbers)
}

/// Two ascending lists of the same numbers are the same list.
pub proof fn lemma_ascending_unique(a: Seq<i32>, b: Seq<i32>)
    requires
        ascending(a),
        ascending(b),
        forall|n: i32| a.contains(n) <==> b.contains(n),
    ensures
        a == b,
    decreases a.len(),
{
    if a.len() == 0 {
        if b.len() > 0 {
            assert(b.contains(b[0]));
        }
        assert(a =~= b);
    } else {
        assert(a.contains(a[0]));
        assert(b.len() > 0);
        let x = a.last();
        let y = b.last();
        assert(a.contains(x) && b.contains(y));
        let i = a.index_of(y);
        let j = b.index_of(x);
        assert(a[i] == y && b[j] == x);
        assert(x == y);
        let c = a.drop_last();
        let d = b.drop_last();
        assert forall|n: i32| c.contains(n) <==> d.contains(n) by {
            if c.contains(n) {
                let k = c.index_of(n);
                assert(a[k] == n);
                assert(b.contains(n));
                let l = b.index_of(n);
                assert(d[l] == n);
            }
            if d.contains(n) {
                let k = d.index_of(n);
                assert(b[k] == n);
                assert(a.contains(n));
                let l = a.index_of(n);
                assert(c[l] == n);
            }
        }
        lemma_ascending_unique(c, d);
        assert(a =~= c.push(x));
        assert(b =~= d.push(y));
    }
}

/// Only one list holds the numbers in ascending order, each of them once.
pub proof fn lemma_is_sorted_set(sorted: Seq<i32>, numbers: Seq<i32>)
    requires
        is_sorted_set(sorted, numbers),
    ensures
        sorted == sorted_set(numbers),
{
    lemma_ascending_unique(sorted, sorted_set(numbers));
}

/// Adds a number to an ascending list, unless it is there.
fn insert_sorted(sorted: &mut Vec<i32>, number: i32)
    requires
        ascending(old(sorted)@),
    ensures
        ascending(final(sorted)@),
        forall|n: i32|
            #[trigger] final(sorted)@.contains(n) <==> old(sorted)@.contains(n) || n == number,
{
    let ghost before = sorted@;
    let mut i: usize = 0;
    while i < sorted.len() && sorted[i] < number
        invariant
            i <= sorted.len(),
            sorted@ == before,
            forall|k: int| 0 <= k < i ==> sorted@[k] < number,
        decreases sorted.len() - i,
    {
        i = i + 1;
    }
    if i < sorted.len() && sorted[i] == number {
        assert(before.contains(number));
        return ;
    }
    sorted.insert(i, number);
    let ghost after = sorted@;
    assert forall|n: i32| #[trigger] after.contains(n) <==> before.contains(n) || n == number by {
        if after.contains(n) {
            let k = after.index_of(n);
            if k < i {
                assert(before[k] == n);
            } else if k > i {
                assert(before[k - 1] == n);
            }
        }
        if before.contains(n) {
            let k = before.index_of(n);
            if k < i {
                assert(after[k] == n);
            } else {
                assert(after[k + 1] == n);
            }
        }
        assert(after[i as int] == number);
    }
}

/// Sorts the numbers of protocols and drops those that occur again.
pub fn sort_protocols(protocols: &Vec<i32>) -> (sorted: Vec<i32>)
    ensures
        is_sorted_set(sorted@, protocols@),
        sorted@ == sorted_set(protocols@),
{
    let mut sorted: Vec<i32> = Vec::new();
    let mut i: usize = 0;
    while i < protocols.len()
        invariant
            i <= protocols.len(),
            is_sorted_set(sorted@, protocols@.take(i as int)),
        decreases protocols.len() - i,
    {
        let ghost before = protocols@.take(i as int);
        let ghost after = protocols@.take(i + 1);
        assert forall|n: i32| #[trigger] after.contains(n) <==> before.contains(n) || n
            == protocols@[i as int] by {
            if after.contains(n) {
                let k = after.index_of(n);
                if k < i {
                    assert(before[k] == n);
                }
            }
            if before.contains(n) {
                assert(after[before.index_of(n)] == n);
            }
            assert(after[i as int] == protocols@[i as int]);
        }
        insert_sorted(&mut sorted, protocols[i]);
        i = i + 1;
    }
    assert(protocols@.take(i as int) =~= protocols@);
    proof {
        lemma_is_sorted_set(sorted@, protocols@);
    }
    sorted
}

/// There is a list of the numbers in ascending order, each of them once.
proof fn lemma_sorted_set_exists(numbers: Seq<i32>) -> (sorted: Seq<i32>)
    ensures
        is_sorted_set(sorted, numbers),
    decreases numbers.len(),
{
    if numbers.len() == 0 {
        assert(is_sorted_set(Seq::<i32>::empty(), numbers));
        Seq::<i32>::empty()
    } else {
        let before = lemma_sorted_set_exists(numbers.drop_last());
        let number = numbers.last();
        let sorted = lemma_insert_exists(before, number);
        assert forall|n: i32| sorted.contains(n) <==> numbers.contains(n) by {
            if numbers.contains(n) {
                let k = numbers.index_of(n);
                if k < numbers.len() - 1 {
                    assert(numbers.drop_last()[k] == n);
                }
            }
            if numbers.drop_last().contains(n) {
                assert(numbers[numbers.drop_last().index_of(n)] == n);
            }
        }
        sorted
    }
}

proof fn lemma_insert_exists(before: Seq<i32>, number: i32) -> (after: Seq<i32>)
    requires
        ascending(before),
    ensures
        ascending(after),
        forall|n: i32| #[trigger] after.contains(n) <==> before.contains(n) || n == number,
    decreases before.len(),
{
    if before.len() == 0 {
        let after = seq![number];
        assert(after[0] == number);
        after
    } else if before.last() < number {
        let after = before.push(number);
        assert forall|n: i32| #[trigger] after.contains(n) <==> before.contains(n) || n
            == number by {
            if before.contains(n) {
                assert(after[before.index_of(n)] == n);
            }
            assert(after[before.len() as int] == number);
        }
        after
    } else if before.last() == number {
        assert(before.contains(number));
        before
    } else {
        let last = before.last();
        let rest = lemma_insert_exists(before.drop_last(), number);
        let after = rest.push(last);
        assert forall|n: i32| before.contains(n) <==> before.drop_last().contains(n) || n
            == last by {
            if before.contains(n) {
                let k = before.index_of(n);
                if k < before.len() - 1 {
                    assert(before.drop_last()[k] == n);
                }
            }
            if before.drop_last().contains(n) {
                assert(before[before.drop_last().index_of(n)] == n);
            }
        }
        assert forall|i: int, j: int| 0 <= i < j < after.len() implies after[i] < after[j] by {
            if j == rest.len() {
                assert(rest.contains(rest[i]));
                if before.drop_last().contains(rest[i]) {
                    let k = before.drop_last().index_of(rest[i]);
                    assert(before[k] == rest[i]);
                }
            }
        }
        assert forall|n: i32| #[trigger] after.contains(n) <==> before.contains(n) || n
            == number by {
            if rest.contains(n) {
                assert(after[rest.index_of(n)] == n);
            }
            assert(after[rest.len() as int] == last);
        }
        after
    }
}

/// The list of protocols of a firewall rule holds the numbers that it was made of and no others, in
/// ascending order, so each of them once.
pub proof fn lemma_protocols_are_kept(numbers: Seq<i32>)
    ensures
        forall|n: i32| #[trigger] sorted_set(numbers).contains(n) <==> numbers.contains(n),
        forall|i: int, j: int|
            0 <= i < j < sorted_set(numbers).len() ==> #[trigger] sorted_set(numbers)[i]
                < #[trigger] sorted_set(numbers)[j],
{
    let sorted = lemma_sorted_set_exists(numbers);
    assert(is_sorted_set(sorted_set(numbers), numbers));
}

} // verus!
