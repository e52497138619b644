use vstd::prelude::*;

verus! {

/// What a value is ordered by: three numbers, of which the first counts
/// most.
pub trait Keyed {
    /// The key of the value.
    spec fn spec_key(&self) -> (u64, u64, u64);

    /// The key of the value.
    fn key(&self) -> (r: (u64, u64, u64))
        ensures
            r == self.spec_key(),
    ;
}

/// Whether key `a` comes before key `b`.
pub open spec fn key_lt(a: (u64, u64, u64), b: (u64, u64, u64)) -> bool {
    a.0 < b.0 || (a.0 == b.0 && (a.1 < b.1 || (a.1 == b.1 && a.2 < b.2)))
}

/// Whether the keys of the values go up from each value to the next.
pub open spec fn is_sorted<T: Keyed>(s: Seq<T>) -> bool {
    forall|i: int, j: int| 0 <= i < j < s.len() ==> key_lt(#[trigger] s[i].spec_key(), #[trigger] s[j].spec_key())
}

/// Whether no two values have the same key.
pub open spec fn keys_differ<T: Keyed>(s: Seq<T>) -> bool {
    forall|i: int, j: int| 0 <= i < j < s.len() ==> #[trigger] s[i].spec_key() != #[trigger] s[j].spec_key()
}

/// Whether no value of `a` has the key of a value of `b`.
pub open spec fn keys_apart<T: Keyed>(a: Seq<T>, b: Seq<T>) -> bool {
    forall|i: int, j: int|
        0 <= i < a.len() && 0 <= j < b.len() ==> #[trigger] a[i].spec_key() != #[trigger] b[j].spec_key()
}

/// Whether key `a` comes before key `b`.
pub fn key_before(a: (u64, u64, u64), b: (u64, u64, u64)) -> (r: bool)
    ensures
        r == key_lt(a, b),
{
    a.0 < b.0 || (a.0 == b.0 && (a.1 < b.1 || (a.1 == b.1 && a.2 < b.2)))
}

/// The items of a vector, last first.
pub fn turned<T>(v: Vec<T>) -> (r: Vec<T>)
    ensures
        r@.len() == v@.len(),
        forall|i: int| 0 <= i < r@.len() ==> r@[i] == v@[v@.len() - 1 - i],
{
    let mut v = v;
    let ghost all = v@;
    let mut out: Vec<T> = Vec::with_capacity(v.len());
    while v.len() > 0
        invariant
            v@.len() + out@.len() == all.len(),
            forall|i: int| 0 <= i < v@.len() ==> v@[i] == all[i],
            forall|i: int| 0 <= i < out@.len() ==> out@[i] == all[all.len() - 1 - i],
        decreases v@.len(),
    {
        let x = v.pop().unwrap();
        out.push(x);
    }
    out
}

/// Two sorted lists as one sorted list.
pub fn merge<T: Keyed>(a: Vec<T>, b: Vec<T>) -> (r: Vec<T>)
    requires
        is_sorted(a@),
        is_sorted(b@),
        keys_apart(a@, b@),
    ensures
        is_sorted(r@),
        r@.len() == a@.len() + b@.len(),
        forall|x: T| r@.contains(x) <==> a@.contains(x) || b@.contains(x),
{
    let mut a = a;
    let mut b = b;
    let ghost a0 = a@;
    let ghost b0 = b@;
    // Gathered from the end; turned round below
    let mut back: Vec<T> = Vec::new();
    while a.len() > 0 || b.len() > 0
        invariant
            a@.len() <= a0.len(),
            b@.len() <= b0.len(),
            a@ == a0.take(a@.len() as int),
            b@ == b0.take(b@.len() as int),
            is_sorted(a0),
            is_sorted(b0),
            keys_apart(a0, b0),
            back@.len() == (a0.len() - a@.len()) + (b0.len() - b@.len()),
            forall|i: int, j: int|
                0 <= i < j < back@.len() ==> key_lt(
                    #[trigger] back@[j].spec_key(),
                    #[trigger] back@[i].spec_key(),
                ),
            forall|i: int, j: int|
                0 <= i < a@.len() && 0 <= j < back@.len() ==> key_lt(
                    #[trigger] a0[i].spec_key(),
                    #[trigger] back@[j].spec_key(),
                ),
            forall|i: int, j: int|
                0 <= i < b@.len() && 0 <= j < back@.len() ==> key_lt(
                    #[trigger] b0[i].spec_key(),
                    #[trigger] back@[j].spec_key(),
                ),
            forall|x: T|
                back@.contains(x) || a@.contains(x) || b@.contains(x) <==> a0.contains(x)
                    || b0.contains(x),
        decreases a@.len() + b@.len(),
    {
        let take_b = if a.len() == 0 {
            true
        } else if b.len() == 0 {
            false
        } else {
            key_before(a[a.len() - 1].key(), b[b.len() - 1].key())
        };
        let ghost old_a = a@;
        let ghost old_b = b@;
        let ghost old_back = back@;
        if take_b {
            let x = b.pop().unwrap();
            back.push(x);
            proof {
                assert(b@ =~= b0.take(b@.len() as int));
                assert(x == b0[b@.len() as int]);
                assert forall|i: int, j: int| 0 <= i < a@.len() && 0 <= j < back@.len() implies key_lt(
                    #[trigger] a0[i].spec_key(),
                    #[trigger] back@[j].spec_key(),
                ) by {
                    if j == old_back.len() {
                        assert(old_a[a@.len() - 1] == a0[a@.len() - 1]);
                        if i < a@.len() - 1 {
                            assert(key_lt(a0[i].spec_key(), a0[a@.len() - 1].spec_key()));
                        }
                    }
                }
                assert forall|y: T|
                    back@.contains(y) || a@.contains(y) || b@.contains(y) <==> a0.contains(y)
                        || b0.contains(y) by {
                    lemma_pop_push(old_b, old_back, b@, back@, y);
                }
            }
        } else {
            let x = a.pop().unwrap();
            back.push(x);
            proof {
                assert(a@ =~= a0.take(a@.len() as int));
                assert(x == a0[a@.len() as int]);
                assert forall|i: int, j: int| 0 <= i < b@.len() && 0 <= j < back@.len() implies key_lt(
                    #[trigger] b0[i].spec_key(),
                    #[trigger] back@[j].spec_key(),
                ) by {
                    if j == old_back.len() {
                        assert(old_b[b@.len() - 1] == b0[b@.len() - 1]);
                        assert(a0[a@.len() as int].spec_key() != b0[b@.len() - 1].spec_key());
                        if i < b@.len() - 1 {
                            assert(key_lt(b0[i].spec_key(), b0[b@.len() - 1].spec_key()));
                        }
                    }
                }
                assert forall|y: T|
                    back@.contains(y) || a@.contains(y) || b@.contains(y) <==> a0.contains(y)
                        || b0.contains(y) by {
                    lemma_pop_push(old_a, old_back, a@, back@, y);
                }
            }
        }
    }
    let ghost gathered = back@;
    let r = turned(back);
    proof {
        assert forall|x: T| r@.contains(x) <==> gathered.contains(x) by {
            if r@.contains(x) {
                let i = choose|i: int| 0 <= i < r@.len() && r@[i] == x;
                assert(gathered[gathered.len() - 1 - i] == x);
            }
            if gathered.contains(x) {
                let i = choose|i: int| 0 <= i < gathered.len() && gathered[i] == x;
                assert(r@[gathered.len() - 1 - i] == x);
            }
        }
        assert forall|x: T| !a@.contains(x) && !b@.contains(x) by {}
    }
    r
}

/// What two lists hold when the last item of the first is moved to the end
/// of the second.
pub proof fn lemma_pop_push<T>(from: Seq<T>, to: Seq<T>, from2: Seq<T>, to2: Seq<T>, y: T)
    requires
        from.len() > 0,
        from2 == from.drop_last(),
        to2 == to.push(from.last()),
    ensures
        from2.contains(y) || to2.contains(y) <==> from.contains(y) || to.contains(y),
{
    if from.contains(y) {
        let i = choose|i: int| 0 <= i < from.len() && from[i] == y;
        if i < from.len() - 1 {
            assert(from2[i] == y);
        } else {
            assert(to2[to.len() as int] == y);
        }
    }
    if to.contains(y) {
        let i = choose|i: int| 0 <= i < to.len() && to[i] == y;
        assert(to2[i] == y);
    }
    if from2.contains(y) {
        let i = choose|i: int| 0 <= i < from2.len() && from2[i] == y;
        assert(from[i] == y);
    }
    if to2.contains(y) {
        let i = choose|i: int| 0 <= i < to2.len() && to2[i] == y;
        if i < to.len() {
            assert(to[i] == y);
        } else {
            assert(from[from.len() - 1] == y);
        }
    }
}

/// The values in the order of their keys.
pub fn sort_by_key<T: Keyed>(v: Vec<T>) -> (r: Vec<T>)
    requires
        keys_differ(v@),
    ensures
        is_sorted(r@),
        r@.len() == v@.len(),
        forall|x: T| r@.contains(x) <==> v@.contains(x),
    decreases v@.len(),
{
    if v.len() <= 1 {
        return v;
    }
    let mut left = v;
    let ghost all = left@;
    let mid = left.len() / 2;
    let right = left.split_off(mid);
    proof {
        assert(left@ =~= all.take(mid as int));
        assert(right@ =~= all.skip(mid as int));
        assert(keys_differ(left@)) by {
            assert forall|i: int, j: int| 0 <= i < j < left@.len() implies #[trigger] left@[i].spec_key()
                != #[trigger] left@[j].spec_key() by {
                assert(left@[i] == all[i] && left@[j] == all[j]);
            }
        }
        assert(keys_differ(right@)) by {
            assert forall|i: int, j: int| 0 <= i < j < right@.len() implies #[trigger] right@[i].spec_key()
                != #[trigger] right@[j].spec_key() by {
                assert(right@[i] == all[mid + i] && right@[j] == all[mid + j]);
            }
        }
    }
    let ghost l0 = left@;
    let ghost r0 = right@;
    let l = sort_by_key(left);
    let r = sort_by_key(right);
    proof {
        assert(keys_apart(l@, r@)) by {
            assert forall|i: int, j: int| 0 <= i < l@.len() && 0 <= j < r@.len() implies #[trigger] l@[i].spec_key()
                != #[trigger] r@[j].spec_key() by {
                assert(l@.contains(l@[i]));
                assert(r@.contains(r@[j]));
                let p = choose|p: int| 0 <= p < l0.len() && l0[p] == l@[i];
                let q = choose|q: int| 0 <= q < r0.len() && r0[q] == r@[j];
                assert(l0[p] == all[p] && r0[q] == all[mid + q]);
            }
        }
    }
    let out = merge(l, r);
    proof {
        assert forall|x: T| out@.contains(x) <==> all.contains(x) by {
            if all.contains(x) {
                let i = choose|i: int| 0 <= i < all.len() && all[i] == x;
                if i < mid {
                    assert(l0[i] == x);
                } else {
                    assert(r0[i - mid] == x);
                }
            }
            if l0.contains(x) {
                let i = choose|i: int| 0 <= i < l0.len() && l0[i] == x;
                assert(all[i] == x);
            }
            if r0.contains(x) {
                let i = choose|i: int| 0 <= i < r0.len() && r0[i] == x;
                assert(all[mid + i] == x);
            }
        }
    }
    out
}

/// Whether one of the values has the key `k`.
#[verifier::opaque]
pub open spec fn has_key<T: Keyed>(s: Seq<T>, k: (u64, u64, u64)) -> bool {
    exists|i: int| 0 <= i < s.len() && #[trigger] s[i].spec_key() == k
}

/// The key of a value of a list is a key of the list.
pub proof fn lemma_key_of_item<T: Keyed>(s: Seq<T>, i: int)
    requires
        0 <= i < s.len(),
    ensures
        has_key(s, s[i].spec_key()),
{
    reveal(has_key);
}

/// A value that has a key of the list.
pub proof fn lemma_item_of_key<T: Keyed>(s: Seq<T>, k: (u64, u64, u64)) -> (i: int)
    requires
        has_key(s, k),
    ensures
        0 <= i < s.len(),
        s[i].spec_key() == k,
{
    reveal(has_key);
    choose|i: int| 0 <= i < s.len() && #[trigger] s[i].spec_key() == k
}

/// Two sorted lists in which the same keys occur have the same keys at the
/// same places.
pub proof fn lemma_sorted_keys_agree<T: Keyed>(a: Seq<T>, b: Seq<T>)
    requires
        is_sorted(a),
        is_sorted(b),
        forall|k: (u64, u64, u64)| has_key(a, k) <==> has_key(b, k),
    ensures
        a.len() == b.len(),
        forall|i: int| 0 <= i < a.len() ==> #[trigger] a[i].spec_key() == b[i].spec_key(),
    decreases a.len(),
{
    if a.len() == 0 {
        if b.len() > 0 {
            lemma_key_of_item(b, 0);
            let i = lemma_item_of_key(a, b[0].spec_key());
        }
    } else {
        let n = a.len() - 1;
        lemma_key_of_item(a, n);
        let k = lemma_item_of_key(b, a[n].spec_key());
        let m = b.len() - 1;
        assert(k == m) by {
            if k < m {
                lemma_key_of_item(b, m);
                let i = lemma_item_of_key(a, b[m].spec_key());
                assert(key_lt(b[k].spec_key(), b[m].spec_key()));
                if i < n {
                    assert(key_lt(a[i].spec_key(), a[n].spec_key()));
                }
            }
        }
        let a1 = a.drop_last();
        let b1 = b.drop_last();
        assert forall|key: (u64, u64, u64)| has_key(a1, key) <==> has_key(b1, key) by {
            if has_key(a1, key) {
                let i = lemma_item_of_key(a1, key);
                assert(a1[i] == a[i]);
                lemma_key_of_item(a, i);
                let j = lemma_item_of_key(b, key);
                assert(key_lt(a[i].spec_key(), a[n].spec_key()));
                assert(j < m);
                assert(b1[j] == b[j]);
                lemma_key_of_item(b1, j);
            }
            if has_key(b1, key) {
                let j = lemma_item_of_key(b1, key);
                assert(b1[j] == b[j]);
                lemma_key_of_item(b, j);
                let i = lemma_item_of_key(a, key);
                assert(key_lt(b[j].spec_key(), b[m].spec_key()));
                assert(i < n);
                assert(a1[i] == a[i]);
                lemma_key_of_item(a1, i);
            }
        }
        assert(is_sorted(a1)) by {
            assert forall|i: int, j: int| 0 <= i < j < a1.len() implies key_lt(
                #[trigger] a1[i].spec_key(),
                #[trigger] a1[j].spec_key(),
            ) by {
                assert(key_lt(a[i].spec_key(), a[j].spec_key()));
            }
        }
        assert(is_sorted(b1)) by {
            assert forall|i: int, j: int| 0 <= i < j < b1.len() implies key_lt(
                #[trigger] b1[i].spec_key(),
                #[trigger] b1[j].spec_key(),
            ) by {
                assert(key_lt(b[i].spec_key(), b[j].spec_key()));
            }
        }
        lemma_sorted_keys_agree(a1, b1);
        assert forall|i: int| 0 <= i < a.len() implies #[trigger] a[i].spec_key()
            == b[i].spec_key() by {
            if i < n {
                assert(a1[i].spec_key() == b1[i].spec_key());
            }
        }
    }
}

} // verus!
