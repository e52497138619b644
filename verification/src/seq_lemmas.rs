use vstd::prelude::*;

verus! {

/// Filtering a sequence with one more item keeps that item or not, and the
/// rest as before.
pub proof fn lemma_filter_push<T>(s: Seq<T>, x: T, p: spec_fn(T) -> bool)
    ensures
        s.push(x).filter(p) == if p(x) {
            s.filter(p).push(x)
        } else {
            s.filter(p)
        },
{
    reveal(Seq::filter);
    assert(s.push(x).drop_last() =~= s);
}

/// Two tests that agree on every item of a sequence keep the same items.
pub proof fn lemma_filter_same<T>(s: Seq<T>, p: spec_fn(T) -> bool, q: spec_fn(T) -> bool)
    requires
        forall|i: int| 0 <= i < s.len() ==> p(#[trigger] s[i]) == q(s[i]),
    ensures
        s.filter(p) == s.filter(q),
    decreases s.len(),
{
    reveal(Seq::filter);
    if s.len() > 0 {
        lemma_filter_same(s.drop_last(), p, q);
    }
}

/// Each item of a filtered and mapped sequence comes from an item of the
/// sequence that passes the test.
pub proof fn lemma_filter_map_origin<T, U>(
    s: Seq<T>,
    p: spec_fn(T) -> bool,
    f: spec_fn(T) -> U,
    j: int,
) -> (i: int)
    requires
        0 <= j < s.filter(p).map_values(f).len(),
    ensures
        0 <= i < s.len(),
        p(s[i]),
        f(s[i]) == s.filter(p).map_values(f)[j],
    decreases s.len(),
{
    reveal(Seq::filter);
    if s.len() == 0 {
        0
    } else {
        let rest = s.drop_last();
        if p(s.last()) && j == rest.filter(p).len() {
            s.len() - 1
        } else {
            assert(s.filter(p).map_values(f)[j] == rest.filter(p).map_values(f)[j]);
            lemma_filter_map_origin(rest, p, f, j)
        }
    }
}

/// An item that passes the test is found, mapped, in the filtered and mapped
/// sequence.
pub proof fn lemma_filter_map_member<T, U>(
    s: Seq<T>,
    p: spec_fn(T) -> bool,
    f: spec_fn(T) -> U,
    i: int,
)
    requires
        0 <= i < s.len(),
        p(s[i]),
    ensures
        s.filter(p).map_values(f).contains(f(s[i])),
    decreases s.len(),
{
    reveal(Seq::filter);
    let rest = s.drop_last();
    let out = s.filter(p).map_values(f);
    if i == s.len() - 1 {
        assert(out[rest.filter(p).len() as int] == f(s[i]));
    } else {
        lemma_filter_map_member(rest, p, f, i);
        let k = choose|k: int|
            0 <= k < rest.filter(p).map_values(f).len() && rest.filter(p).map_values(f)[k] == f(
                s[i],
            );
        assert(out[k] == f(s[i]));
    }
}

/// Two lists of numbers that go up and hold the same numbers are one list.
pub proof fn lemma_ascending_same(s: Seq<u32>, t: Seq<u32>)
    requires
        forall|i: int, j: int| 0 <= i < j < s.len() ==> s[i] < s[j],
        forall|i: int, j: int| 0 <= i < j < t.len() ==> t[i] < t[j],
        forall|x: u32| s.contains(x) <==> t.contains(x),
    ensures
        s == t,
    decreases s.len(),
{
    if s.len() == 0 {
        if t.len() > 0 {
            assert(t.contains(t[0]));
        }
        assert(s =~= t);
    } else {
        let top = s.last();
        assert(s.contains(s[s.len() - 1]));
        assert(t.contains(top));
        assert(t.len() > 0);
        let k = choose|k: int| 0 <= k < t.len() && t[k] == top;
        assert(k == t.len() - 1) by {
            if k < t.len() - 1 {
                assert(t.contains(t[t.len() - 1]));
                let i = choose|i: int| 0 <= i < s.len() && s[i] == t[t.len() - 1];
                assert(t[k] < t[t.len() - 1]);
                if i < s.len() - 1 {
                    assert(s[i] < s[s.len() - 1]);
                }
            }
        }
        let s1 = s.drop_last();
        let t1 = t.drop_last();
        assert forall|x: u32| s1.contains(x) <==> t1.contains(x) by {
            if s1.contains(x) {
                let i = choose|i: int| 0 <= i < s1.len() && s1[i] == x;
                assert(s[i] == x);
                assert(s[i] < s[s.len() - 1]);
                assert(s.contains(x));
                let j = choose|j: int| 0 <= j < t.len() && t[j] == x;
                assert(t1[j] == x);
            }
            if t1.contains(x) {
                let i = choose|i: int| 0 <= i < t1.len() && t1[i] == x;
                assert(t[i] == x);
                assert(t[i] < t[t.len() - 1]);
                assert(t.contains(x));
                let j = choose|j: int| 0 <= j < s.len() && s[j] == x;
                assert(s1[j] == x);
            }
        }
        assert forall|i: int, j: int| 0 <= i < j < s1.len() implies s1[i] < s1[j] by {
            assert(s[i] < s[j]);
        }
        assert forall|i: int, j: int| 0 <= i < j < t1.len() implies t1[i] < t1[j] by {
            assert(t[i] < t[j]);
        }
        lemma_ascending_same(s1, t1);
        assert(s =~= s1.push(top));
        assert(t =~= t1.push(top));
    }
}

} // verus!
