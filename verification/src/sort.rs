//! A stable sort for items that sit at a line.

use vstd::prelude::*;

verus! {

/// Lexicographic order on pairs.
pub open spec fn key_le(a: (int, int), b: (int, int)) -> bool {
    a.0 < b.0 || (a.0 == b.0 && a.1 <= b.1)
}

/// An item that is sorted by a pair of line numbers.
pub trait ByLine: Sized {
    /// What the item is sorted by.
    spec fn line_key(&self) -> (int, int);

    /// Whether this item may stand before `other` in a sorted list.
    fn not_after(&self, other: &Self) -> (b: bool)
        ensures
            b == key_le(self.line_key(), other.line_key()),
    ;
}

/// `x` placed into the sorted `s`, before the items that it is not after.
pub open spec fn insert_by_line<T: ByLine>(x: T, s: Seq<T>) -> Seq<T>
    decreases s.len(),
{
    if s.len() == 0 || key_le(x.line_key(), s[0].line_key()) {
        seq![x] + s
    } else {
        seq![s[0]] + insert_by_line(x, s.drop_first())
    }
}

/// `s` sorted by line; items with the same key keep their order.
pub open spec fn sorted_by_line<T: ByLine>(s: Seq<T>) -> Seq<T>
    decreases s.len(),
{
    if s.len() == 0 {
        s
    } else {
        insert_by_line(s[0], sorted_by_line(s.drop_first()))
    }
}

/// Whether the keys of `s` never go down.
pub open spec fn in_line_order<T: ByLine>(s: Seq<T>) -> bool {
    forall|i: int, j: int|
        0 <= i <= j < s.len() ==> key_le((#[trigger] s[i]).line_key(), (#[trigger] s[j]).line_key())
}

/// The place where `x` goes is the first item that it is not after.
proof fn lemma_insert_at<T: ByLine>(x: T, s: Seq<T>, k: int)
    requires
        0 <= k <= s.len(),
        forall|i: int| 0 <= i < k ==> !key_le(x.line_key(), (#[trigger] s[i]).line_key()),
        k < s.len() ==> key_le(x.line_key(), s[k].line_key()),
    ensures
        insert_by_line(x, s) == s.insert(k, x),
    decreases s.len(),
{
    if k == 0 {
        assert(seq![x] + s == s.insert(0, x));
    } else {
        let rest = s.drop_first();
        assert(!key_le(x.line_key(), s[0].line_key()));
        assert forall|i: int| 0 <= i < k - 1 implies !key_le(
            x.line_key(),
            (#[trigger] rest[i]).line_key(),
        ) by {
            assert(rest[i] == s[i + 1]);
        }
        lemma_insert_at(x, rest, k - 1);
        assert(seq![s[0]] + rest.insert(k - 1, x) == s.insert(k, x));
    }
}

/// Sorts `items` by line, keeping the order of items with the same key.
pub fn sort_by_line<T: ByLine>(items: Vec<T>) -> (r: Vec<T>)
    ensures
        r@ == sorted_by_line(items@),
{
    let mut left = items;
    let mut out: Vec<T> = Vec::new();
    assert(items@.skip(items@.len() as int) == Seq::<T>::empty());
    while left.len() > 0
        invariant
            left@.len() <= items@.len(),
            left@ == items@.take(left@.len() as int),
            out@ == sorted_by_line(items@.skip(left@.len() as int)),
        decreases left@.len(),
    {
        let ghost n = left@.len() as int;
        let ghost sorted = out@;
        match left.pop() {
            Some(x) => {
                assert(x == items@[n - 1]);
                let mut k: usize = 0;
                while k < out.len() && !x.not_after(&out[k])
                    invariant
                        k <= out@.len(),
                        out@ == sorted,
                        forall|i: int|
                            0 <= i < k ==> !key_le(x.line_key(), (#[trigger] out@[i]).line_key()),
                    decreases out@.len() - k,
                {
                    k += 1;
                }
                proof {
                    lemma_insert_at(x, out@, k as int);
                    assert(items@.skip(n - 1)[0] == x);
                    assert(items@.skip(n - 1).drop_first() == items@.skip(n));
                }
                out.insert(k, x);
            },
            None => {},
        }
    }
    assert(items@.skip(0) == items@);
    out
}

proof fn lemma_insert_keeps_order<T: ByLine>(x: T, s: Seq<T>)
    requires
        in_line_order(s),
    ensures
        in_line_order(insert_by_line(x, s)),
        insert_by_line(x, s).to_multiset() == s.to_multiset().insert(x),
    decreases s.len(),
{
    broadcast use vstd::seq_lib::group_to_multiset_ensures;

    let r = insert_by_line(x, s);
    if s.len() == 0 || key_le(x.line_key(), s[0].line_key()) {
        assert forall|i: int, j: int| 0 <= i <= j < r.len() implies key_le(
            (#[trigger] r[i]).line_key(),
            (#[trigger] r[j]).line_key(),
        ) by {
            if j > 0 {
                assert(r[j] == s[j - 1]);
                assert(key_le(s[0].line_key(), s[j - 1].line_key()));
                if i > 0 {
                    assert(r[i] == s[i - 1]);
                }
            }
        }
        assert(r == s.insert(0, x));
        vstd::seq_lib::to_multiset_insert(s, 0, x);
    } else {
        let rest = s.drop_first();
        assert forall|i: int, j: int| 0 <= i <= j < rest.len() implies key_le(
            (#[trigger] rest[i]).line_key(),
            (#[trigger] rest[j]).line_key(),
        ) by {
            assert(rest[i] == s[i + 1] && rest[j] == s[j + 1]);
        }
        lemma_insert_keeps_order(x, rest);
        let t = insert_by_line(x, rest);
        assert(r == t.insert(0, s[0]));
        vstd::seq_lib::to_multiset_insert(t, 0, s[0]);
        assert(s == rest.insert(0, s[0]));
        vstd::seq_lib::to_multiset_insert(rest, 0, s[0]);
        assert(r.to_multiset() =~= s.to_multiset().insert(x));
        assert forall|j: int| 0 <= j < t.len() implies key_le(
            s[0].line_key(),
            (#[trigger] t[j]).line_key(),
        ) by {
            assert(t.contains(t[j]));
            assert(t.to_multiset().count(t[j]) > 0);
            if t[j] != x {
                assert(rest.to_multiset().count(t[j]) > 0);
                assert(rest.contains(t[j]));
                let k = choose|k: int| 0 <= k < rest.len() && rest[k] == t[j];
                assert(s[k + 1] == t[j]);
                assert(key_le(s[0].line_key(), s[k + 1].line_key()));
            }
        }
        assert forall|i: int, j: int| 0 <= i <= j < r.len() implies key_le(
            (#[trigger] r[i]).line_key(),
            (#[trigger] r[j]).line_key(),
        ) by {
            if i > 0 {
                assert(r[i] == t[i - 1] && r[j] == t[j - 1]);
            } else if j > 0 {
                assert(r[j] == t[j - 1]);
            }
        }
    }
}

/// Sorting puts the keys in order and keeps every item, as often as it was there.
pub proof fn law_sort_orders_and_keeps<T: ByLine>(s: Seq<T>)
    ensures
        in_line_order(sorted_by_line(s)),
        sorted_by_line(s).to_multiset() == s.to_multiset(),
        sorted_by_line(s).len() == s.len(),
    decreases s.len(),
{
    broadcast use vstd::seq_lib::group_to_multiset_ensures;

    if s.len() > 0 {
        let rest = s.drop_first();
        law_sort_orders_and_keeps(rest);
        lemma_insert_keeps_order(s[0], sorted_by_line(rest));
        assert(s == rest.insert(0, s[0]));
        vstd::seq_lib::to_multiset_insert(rest, 0, s[0]);
    }
    assert(s.to_multiset().len() == s.len());
    assert(sorted_by_line(s).to_multiset().len() == sorted_by_line(s).len());
}

/// A list that is in order already is left as it is.
pub proof fn law_sort_leaves_ordered<T: ByLine>(s: Seq<T>)
    requires
        in_line_order(s),
    ensures
        sorted_by_line(s) == s,
    decreases s.len(),
{
    if s.len() > 0 {
        let rest = s.drop_first();
        assert forall|i: int, j: int| 0 <= i <= j < rest.len() implies key_le(
            (#[trigger] rest[i]).line_key(),
            (#[trigger] rest[j]).line_key(),
        ) by {
            assert(rest[i] == s[i + 1] && rest[j] == s[j + 1]);
        }
        law_sort_leaves_ordered(rest);
        if rest.len() > 0 {
            assert(rest[0] == s[1]);
            assert(key_le(s[0].line_key(), s[1].line_key()));
        }
        assert(seq![s[0]] + rest == s);
    }
}

/// The items of `s` with the key `k`, in their order.
pub open spec fn with_key<T: ByLine>(s: Seq<T>, k: (int, int)) -> Seq<T>
    decreases s.len(),
{
    if s.len() == 0 {
        s
    } else if s[0].line_key() == k {
        seq![s[0]] + with_key(s.drop_first(), k)
    } else {
        with_key(s.drop_first(), k)
    }
}

/// An item goes before those of its own key.
proof fn lemma_insert_with_key<T: ByLine>(x: T, s: Seq<T>, k: (int, int))
    ensures
        with_key(insert_by_line(x, s), k) == if x.line_key() == k {
            seq![x] + with_key(s, k)
        } else {
            with_key(s, k)
        },
    decreases s.len(),
{
    if s.len() == 0 || key_le(x.line_key(), s[0].line_key()) {
        assert((seq![x] + s).drop_first() == s);
    } else {
        let rest = s.drop_first();
        lemma_insert_with_key(x, rest, k);
        assert((seq![s[0]] + insert_by_line(x, rest)).drop_first() == insert_by_line(x, rest));
    }
}

/// Sorting keeps the order of items with the same key.
pub proof fn law_sort_is_stable<T: ByLine>(s: Seq<T>, k: (int, int))
    ensures
        with_key(sorted_by_line(s), k) == with_key(s, k),
    decreases s.len(),
{
    if s.len() > 0 {
        law_sort_is_stable(s.drop_first(), k);
        lemma_insert_with_key(s[0], sorted_by_line(s.drop_first()), k);
    }
}

/// In a sorted list the first number of the key never goes down, and where it stays the same
/// the second never does.
pub proof fn law_sort_is_by_first_then_second<T: ByLine>(s: Seq<T>, i: int, j: int)
    requires
        0 <= i <= j < s.len(),
    ensures
        ({
            let (a, b) = (sorted_by_line(s)[i].line_key(), sorted_by_line(s)[j].line_key());
            a.0 < b.0 || (a.0 == b.0 && a.1 <= b.1)
        }),
{
    law_sort_orders_and_keeps(s);
}

} // verus!
