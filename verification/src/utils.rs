//! Small helpers shared by the algorithm variants: in-place vector upkeep in
//! the swap-remove style, a fixed-capacity ring buffer, and decimal
//! formatting for the introspection strings.

use vstd::prelude::*;
use vstd::std_specs::cmp::PartialEqSpec;
use vstd::string::StrSliceExecFns;

verus! {

/// Swapping the last element into slot `i` and dropping the tail removes
/// exactly one occurrence of the slot's element from the multiset.
proof fn lemma_swap_remove_multiset<T>(s: Seq<T>, i: int)
    requires
        0 <= i < s.len(),
    ensures
        s.update(i, s.last()).drop_last().to_multiset() =~= s.to_multiset().remove(s[i]),
{
    broadcast use vstd::seq_lib::group_to_multiset_ensures;
    broadcast use vstd::multiset::group_multiset_axioms;

    vstd::seq_lib::to_multiset_update(s, i, s.last());
    let s2 = s.update(i, s.last());
    assert(s2.drop_last() =~= s2.remove(s2.len() - 1));
    assert(s2[s2.len() - 1] == s.last());
}

/// Replace the first element equal to `entry`, or append it when none
/// compares equal.
pub fn vec_add_entry<T: PartialEq + Copy>(vec: &mut Vec<T>, entry: &T)
    ensures
        T::obeys_eq_spec() ==> {
            if exists|j: int| 0 <= j < old(vec)@.len() && (#[trigger] old(vec)@[j]).eq_spec(entry) {
                exists|j: int|
                    {
                        &&& 0 <= j < old(vec)@.len()
                        &&& (#[trigger] old(vec)@[j]).eq_spec(entry)
                        &&& forall|k: int| 0 <= k < j ==> !(#[trigger] old(vec)@[k]).eq_spec(entry)
                        &&& final(vec)@ == old(vec)@.update(j, *entry)
                    }
            } else {
                final(vec)@ == old(vec)@.push(*entry)
            }
        },
{
    let mut i: usize = 0;
    while i < vec.len()
        invariant
            i <= vec@.len(),
            vec@ == old(vec)@,
            T::obeys_eq_spec() ==> forall|k: int|
                0 <= k < i ==> !(#[trigger] old(vec)@[k]).eq_spec(entry),
        decreases vec@.len() - i,
    {
        if vec[i] == *entry {
            vec[i] = *entry;
            return ;
        }
        i += 1;
    }
    vec.push(*entry);
}

/// Remove every element equal to `entry`, swapping the last element into
/// each hole, so the surviving order is not kept.
pub fn vec_del_entry<T: PartialEq + Copy>(vec: &mut Vec<T>, entry: &T)
    ensures
        final(vec)@.len() <= old(vec)@.len(),
        T::obeys_eq_spec() ==> {
            &&& forall|i: int|
                0 <= i < final(vec)@.len() ==> !(#[trigger] final(vec)@[i]).eq_spec(entry)
                    && old(vec)@.contains(final(vec)@[i])
            &&& forall|j: int|
                0 <= j < old(vec)@.len() && !(#[trigger] old(vec)@[j]).eq_spec(entry)
                    ==> final(vec)@.contains(old(vec)@[j])
            // every surviving element keeps its exact multiplicity
            &&& forall|x: T|
                !x.eq_spec(entry) ==> #[trigger] final(vec)@.to_multiset().count(x)
                    == old(vec)@.to_multiset().count(x)
        },
{
    let ghost orig = vec@;
    let mut i: usize = 0;
    while i != vec.len()
        invariant
            i <= vec@.len(),
            vec@.len() <= orig.len(),
            forall|k: int| 0 <= k < vec@.len() ==> orig.contains(#[trigger] vec@[k]),
            T::obeys_eq_spec() ==> forall|k: int|
                0 <= k < i ==> !(#[trigger] vec@[k]).eq_spec(entry),
            T::obeys_eq_spec() ==> forall|j: int|
                0 <= j < orig.len() && !(#[trigger] orig[j]).eq_spec(entry) ==> vec@.contains(
                    orig[j],
                ),
            T::obeys_eq_spec() ==> forall|x: T|
                !x.eq_spec(entry) ==> #[trigger] vec@.to_multiset().count(x)
                    == orig.to_multiset().count(x),
        decreases vec@.len() - i,
    {
        if vec[i] == *entry {
            let ghost before = vec@;
            vec.swap_remove(i);
            proof {
                lemma_swap_remove_multiset(before, i as int);
                if T::obeys_eq_spec() {
                    broadcast use vstd::multiset::group_multiset_axioms;

                    assert forall|x: T| !x.eq_spec(entry) implies #[trigger] vec@.to_multiset().count(
                        x,
                    ) == orig.to_multiset().count(x) by {
                        assert(x != before[i as int]);
                    }
                }
                if T::obeys_eq_spec() {
                    assert forall|j: int|
                        0 <= j < orig.len() && !(#[trigger] orig[j]).eq_spec(entry)
                            implies vec@.contains(orig[j]) by {
                        assert(before.contains(orig[j]));
                        let k = choose|k: int| 0 <= k < before.len() && before[k] == orig[j];
                        if k < i {
                            assert(vec@[k] == orig[j]);
                        } else if k == i {
                            // the removed slot held an element equal to `entry`
                            assert(false);
                        } else if k < before.len() - 1 {
                            assert(vec@[k] == orig[j]);
                        } else {
                            assert(vec@[i as int] == orig[j]);
                        }
                    }
                }
                assert forall|k: int| 0 <= k < vec@.len() implies orig.contains(
                    #[trigger] vec@[k],
                ) by {
                    if k == i {
                        assert(vec@[k] == before[before.len() - 1]);
                    } else {
                        assert(vec@[k] == before[k]);
                    }
                }
            }
        } else {
            i += 1;
        }
    }
}

/// Keep exactly the elements the filter accepts, swapping the last element
/// into each hole, so the surviving order is not kept.
pub fn vec_filter<T, F: Fn(&T) -> bool>(vec: &mut Vec<T>, filter: F)
    requires
        forall|t: &T| #[trigger] call_requires(filter, (t,)),
    ensures
        final(vec)@.len() <= old(vec)@.len(),
        forall|i: int|
            0 <= i < final(vec)@.len() ==> call_ensures(filter, (&final(vec)@[i],), true)
                && old(vec)@.contains(final(vec)@[i]),
        forall|j: int|
            0 <= j < old(vec)@.len() ==> call_ensures(filter, (&old(vec)@[j],), false)
                || final(vec)@.contains(old(vec)@[j]),
        // multiplicities only drop, and only where the filter can reject
        forall|x: T| #[trigger] final(vec)@.to_multiset().count(x) <= old(vec)@.to_multiset().count(
            x,
        ),
        forall|x: T|
            !call_ensures(filter, (&x,), false) ==> #[trigger] final(vec)@.to_multiset().count(x)
                == old(vec)@.to_multiset().count(x),
{
    let ghost orig = vec@;
    let mut i: usize = 0;
    while i != vec.len()
        invariant
            forall|t: &T| #[trigger] call_requires(filter, (t,)),
            i <= vec@.len(),
            vec@.len() <= orig.len(),
            forall|k: int| 0 <= k < vec@.len() ==> orig.contains(#[trigger] vec@[k]),
            forall|k: int| 0 <= k < i ==> call_ensures(filter, (&vec@[k],), true),
            forall|j: int|
                0 <= j < orig.len() ==> call_ensures(filter, (&orig[j],), false) || vec@.contains(
                    #[trigger] orig[j],
                ),
            forall|x: T| #[trigger] vec@.to_multiset().count(x) <= orig.to_multiset().count(x),
            forall|x: T|
                !call_ensures(filter, (&x,), false) ==> #[trigger] vec@.to_multiset().count(x)
                    == orig.to_multiset().count(x),
        decreases vec@.len() - i,
    {
        let keep = filter(&vec[i]);
        if keep {
            i += 1;
        } else {
            let ghost before = vec@;
            vec.swap_remove(i);
            proof {
                lemma_swap_remove_multiset(before, i as int);
                broadcast use vstd::multiset::group_multiset_axioms;

                assert forall|x: T| #[trigger] vec@.to_multiset().count(x)
                    <= orig.to_multiset().count(x) by {}
                assert forall|x: T|
                    !call_ensures(filter, (&x,), false) implies #[trigger] vec@.to_multiset().count(
                    x,
                ) == orig.to_multiset().count(x) by {
                    assert(x != before[i as int]);
                }
                assert forall|j: int|
                    0 <= j < orig.len() implies call_ensures(filter, (&orig[j],), false)
                    || vec@.contains(#[trigger] orig[j]) by {
                    if !call_ensures(filter, (&orig[j],), false) {
                        assert(before.contains(orig[j]));
                        let k = choose|k: int| 0 <= k < before.len() && before[k] == orig[j];
                        if k == i {
                            // the removed slot failed the filter
                            assert(false);
                        } else if k < before.len() - 1 {
                            assert(vec@[k] == orig[j]);
                        } else {
                            assert(vec@[i as int] == orig[j]);
                        }
                    }
                }
                assert forall|k: int| 0 <= k < vec@.len() implies orig.contains(
                    #[trigger] vec@[k],
                ) by {
                    if k == i {
                        assert(vec@[k] == before[before.len() - 1]);
                    } else {
                        assert(vec@[k] == before[k]);
                    }
                }
            }
        }
    }
}

/// Grow the vector to `new_len` by filling each new slot from its index, or
/// truncate it down to `new_len`.
pub fn vec_resize_with<T, F: Fn(usize) -> T>(vec: &mut Vec<T>, new_len: usize, f: F)
    requires
        forall|i: usize| #[trigger] call_requires(f, (i,)),
    ensures
        final(vec)@.len() == new_len,
        forall|i: int|
            0 <= i < new_len && i < old(vec)@.len() ==> final(vec)@[i] == old(vec)@[i],
        forall|i: int|
            old(vec)@.len() <= i < new_len ==> call_ensures(
                f,
                (i as usize,),
                #[trigger] final(vec)@[i],
            ),
{
    let len = vec.len();
    if new_len > len {
        vec.reserve(new_len - len);
        let mut i: usize = len;
        while i < new_len
            invariant
                forall|k: usize| #[trigger] call_requires(f, (k,)),
                len <= i <= new_len,
                vec@.len() == i,
                forall|k: int| 0 <= k < len ==> vec@[k] == old(vec)@[k],
                forall|k: int|
                    len <= k < i ==> call_ensures(f, (k as usize,), #[trigger] vec@[k]),
            decreases new_len - i,
        {
            let tmp = f(i);
            vec.push(tmp);
            i += 1;
        }
    } else {
        vec.truncate(new_len);
    }
}

/// A ring buffer of up to 20 entries: once full, each push overwrites the
/// oldest entry.
pub struct CircularVec<T> {
    pub len: usize,
    pub idx: usize,
    pub data: Vec<T>,
}

impl<T: Copy> CircularVec<T> {
    /// The filled prefix and the write cursor stay within the fixed capacity.
    pub open spec fn wf(&self) -> bool {
        &&& self.len == self.data@.len()
        &&& self.len <= 20
        &&& self.idx < 20
        &&& (self.len < 20 ==> self.idx == self.len)
    }

    pub fn new() -> (r: CircularVec<T>)
        ensures
            r.wf(),
            r.len == 0,
            r.idx == 0,
    {
        CircularVec { len: 0, idx: 0, data: Vec::new() }
    }

    /// Append while there is room, else overwrite the slot under the cursor;
    /// the cursor always advances cyclically.
    pub fn push(&mut self, item: T)
        requires
            old(self).wf(),
        ensures
            final(self).wf(),
            old(self).len < 20 ==> final(self).data@ == old(self).data@.push(item)
                && final(self).len == old(self).len + 1,
            old(self).len == 20 ==> final(self).data@ == old(self).data@.update(
                old(self).idx as int,
                item,
            ) && final(self).len == 20,
            final(self).idx == (old(self).idx + 1) % 20,
    {
        if self.data.len() < 20 {
            self.data.push(item);
            self.len += 1;
        } else {
            self.data[self.idx] = item;
        }
        self.idx = (self.idx + 1) % 20;
    }

    /// Number of filled entries.
    pub fn len(&self) -> (r: usize)
        ensures
            r == self.len,
    {
        self.len
    }

    /// The entry at position `i` of the filled prefix.
    pub fn get(&self, i: usize) -> (r: &T)
        requires
            self.wf(),
            i < self.len,
        ensures
            *r == self.data@[i as int],
    {
        &self.data[i]
    }
}

/// Whether two string slices hold the same characters; used to dispatch the
/// introspection keys.
pub fn str_eq(a: &str, b: &str) -> (r: bool)
    ensures
        r == (a@ == b@),
{
    let alen = a.unicode_len();
    let blen = b.unicode_len();
    if alen != blen {
        return false;
    }
    let mut i: usize = 0;
    while i < alen
        invariant
            alen as nat == a@.len(),
            a@.len() == b@.len(),
            i <= alen,
            forall|k: int| 0 <= k < i ==> a@[k] == b@[k],
        decreases alen - i,
    {
        if a.get_char(i) != b.get_char(i) {
            return false;
        }
        i += 1;
    }
    proof {
        assert(a@ =~= b@);
    }
    true
}

/// The decimal digits of `n`, most significant first.
pub open spec fn dec_digits(n: nat) -> Seq<char>
    decreases n,
{
    if n < 10 {
        seq![dec_digit(n)]
    } else {
        dec_digits(n / 10).push(dec_digit(n % 10))
    }
}

/// The character of one decimal digit.
pub open spec fn dec_digit(d: nat) -> char {
    if d == 0 {
        '0'
    } else if d == 1 {
        '1'
    } else if d == 2 {
        '2'
    } else if d == 3 {
        '3'
    } else if d == 4 {
        '4'
    } else if d == 5 {
        '5'
    } else if d == 6 {
        '6'
    } else if d == 7 {
        '7'
    } else if d == 8 {
        '8'
    } else {
        '9'
    }
}

/// One decimal digit as a string slice.
fn dec_digit_str(d: u64) -> (r: &'static str)
    requires
        d < 10,
    ensures
        r@ == seq![dec_digit(d as nat)],
{
    proof {
        reveal_strlit("0");
        reveal_strlit("1");
        reveal_strlit("2");
        reveal_strlit("3");
        reveal_strlit("4");
        reveal_strlit("5");
        reveal_strlit("6");
        reveal_strlit("7");
        reveal_strlit("8");
        reveal_strlit("9");
    }
    if d == 0 {
        "0"
    } else if d == 1 {
        "1"
    } else if d == 2 {
        "2"
    } else if d == 3 {
        "3"
    } else if d == 4 {
        "4"
    } else if d == 5 {
        "5"
    } else if d == 6 {
        "6"
    } else if d == 7 {
        "7"
    } else if d == 8 {
        "8"
    } else {
        "9"
    }
}

/// `n` written in decimal.
pub fn u64_to_string(n: u64) -> (r: String)
    ensures
        r@ == dec_digits(n as nat),
    decreases n,
{
    if n < 10 {
        String::from_str(dec_digit_str(n))
    } else {
        let front = u64_to_string(n / 10);
        front.concat(dec_digit_str(n % 10))
    }
}

} // verus!
