//! Sequences of key-value entries, read as ordered maps.

use vstd::prelude::*;

verus! {

/// Some entry of `s` has key `k`.
pub open spec fn holds<K, V>(s: Seq<(K, V)>, k: K) -> bool {
    exists|i: int| 0 <= i < s.len() && (#[trigger] s[i]).0 == k
}

/// Where the entry with key `k` stands, if `s` holds one.
pub open spec fn place_of<K, V>(s: Seq<(K, V)>, k: K) -> int {
    choose|i: int| 0 <= i < s.len() && (#[trigger] s[i]).0 == k
}

/// The value under `k`, if there is one.
pub open spec fn value_of<K, V>(s: Seq<(K, V)>, k: K) -> Option<V> {
    if holds(s, k) {
        Some(s[place_of(s, k)].1)
    } else {
        None
    }
}

/// `s` with `v` under `k`: in place if `k` is there, at the end if it is new.
pub open spec fn put<K, V>(s: Seq<(K, V)>, k: K, v: V) -> Seq<(K, V)> {
    if holds(s, k) {
        s.update(place_of(s, k), (k, v))
    } else {
        s.push((k, v))
    }
}

/// `s` without the entry for `k`; the others keep their order.
pub open spec fn without<K, V>(s: Seq<(K, V)>, k: K) -> Seq<(K, V)> {
    if holds(s, k) {
        s.remove(place_of(s, k))
    } else {
        s
    }
}

/// `s` with `v` under `k` at the end; an entry that `k` had before is taken out.
pub open spec fn to_back<K, V>(s: Seq<(K, V)>, k: K, v: V) -> Seq<(K, V)> {
    put(without(s, k), k, v)
}

/// No key occurs twice.
pub open spec fn unique<K, V>(s: Seq<(K, V)>) -> bool {
    forall|i: int, j: int| 0 <= i < j < s.len() ==> (#[trigger] s[i]).0 != (#[trigger] s[j]).0
}

/// An entry that is there is the one that is found.
pub proof fn lemma_found<K, V>(s: Seq<(K, V)>, i: int)
    requires
        unique(s),
        0 <= i < s.len(),
    ensures
        holds(s, s[i].0),
        place_of(s, s[i].0) == i,
        value_of(s, s[i].0) == Some(s[i].1),
{
    let p = place_of(s, s[i].0);
    assert(0 <= p < s.len() && s[p].0 == s[i].0);
}

/// What is found is there.
pub proof fn lemma_place<K, V>(s: Seq<(K, V)>, k: K)
    requires
        holds(s, k),
    ensures
        0 <= place_of(s, k) < s.len(),
        s[place_of(s, k)].0 == k,
        value_of(s, k) == Some(s[place_of(s, k)].1),
{
}

/// `put` changes the value under one key and no other.
pub proof fn lemma_put<K, V>(s: Seq<(K, V)>, k: K, v: V)
    requires
        unique(s),
    ensures
        unique(put(s, k, v)),
        holds(put(s, k, v), k),
        value_of(put(s, k, v), k) == Some(v),
        forall|other: K|
            other != k ==> #[trigger] value_of(put(s, k, v), other) == value_of(s, other),
        forall|other: K|
            other != k ==> (#[trigger] holds(put(s, k, v), other) <==> holds(s, other)),
        put(s, k, v).len() == if holds(s, k) { s.len() } else { s.len() + 1 },
{
    let t = put(s, k, v);
    if holds(s, k) {
        lemma_place(s, k);
        assert(t[place_of(s, k)].0 == k);
        lemma_found(t, place_of(s, k));
    } else {
        assert(t[t.len() - 1].0 == k);
        lemma_found(t, t.len() - 1);
    }
    assert forall|other: K| other != k implies (#[trigger] value_of(t, other)) == value_of(s, other)
        && (holds(t, other) <==> holds(s, other)) by {
        if holds(t, other) {
            lemma_place(t, other);
            let p = place_of(t, other);
            assert(s[p] == t[p]);
            lemma_found(s, p);
        }
        if holds(s, other) {
            lemma_place(s, other);
            let p = place_of(s, other);
            assert(t[p] == s[p]);
            lemma_found(t, p);
        }
    }
    assert forall|other: K| other != k implies (#[trigger] holds(t, other) <==> holds(
        s,
        other,
    )) by {
        assert(value_of(t, other) == value_of(s, other));
    }
}

/// `without` takes one key out and no other.
pub proof fn lemma_without<K, V>(s: Seq<(K, V)>, k: K)
    requires
        unique(s),
    ensures
        unique(without(s, k)),
        !holds(without(s, k), k),
        value_of(without(s, k), k) is None,
        forall|other: K|
            other != k ==> #[trigger] value_of(without(s, k), other) == value_of(s, other),
        forall|other: K|
            other != k ==> (#[trigger] holds(without(s, k), other) <==> holds(s, other)),
{
    let t = without(s, k);
    if holds(s, k) {
        lemma_place(s, k);
        let at = place_of(s, k);
        assert forall|i: int| 0 <= i < t.len() implies (#[trigger] t[i]) == s[if i < at {
            i
        } else {
            i + 1
        }] by {}
        assert forall|other: K| other != k implies (#[trigger] value_of(t, other)) == value_of(
            s,
            other,
        ) by {
            if holds(t, other) {
                lemma_place(t, other);
                let p = place_of(t, other);
                lemma_found(s, if p < at { p } else { p + 1 });
            }
            if holds(s, other) {
                lemma_place(s, other);
                let p = place_of(s, other);
                let q = if p < at { p } else { p - 1 };
                assert(t[q] == s[p]);
                lemma_found(t, q);
            }
        }
        assert forall|other: K| other != k implies (#[trigger] holds(t, other) <==> holds(
            s,
            other,
        )) by {
            assert(value_of(t, other) == value_of(s, other));
        }
    }
}

/// `to_back` changes the value under one key and no other.
pub proof fn lemma_to_back<K, V>(s: Seq<(K, V)>, k: K, v: V)
    requires
        unique(s),
    ensures
        unique(to_back(s, k, v)),
        holds(to_back(s, k, v), k),
        value_of(to_back(s, k, v), k) == Some(v),
        forall|other: K|
            other != k ==> #[trigger] value_of(to_back(s, k, v), other) == value_of(s, other),
        forall|other: K|
            other != k ==> (#[trigger] holds(to_back(s, k, v), other) <==> holds(s, other)),
        to_back(s, k, v).len() == if holds(s, k) { s.len() } else { s.len() + 1 },
        to_back(s, k, v) == without(s, k).push((k, v)),
{
    lemma_without(s, k);
    lemma_put(without(s, k), k, v);
    assert forall|other: K| other != k implies (#[trigger] value_of(to_back(s, k, v), other))
        == value_of(s, other) && (holds(to_back(s, k, v), other) <==> holds(s, other)) by {
        assert(value_of(without(s, k), other) == value_of(s, other));
    }
    assert forall|other: K| other != k implies (#[trigger] holds(to_back(s, k, v), other)
        <==> holds(s, other)) by {
        assert(value_of(to_back(s, k, v), other) == value_of(s, other));
    }
}

/// Taking the first entry off removes its key and no other.
pub proof fn lemma_drop_first<K, V>(s: Seq<(K, V)>)
    requires
        unique(s),
        s.len() > 0,
    ensures
        unique(s.drop_first()),
        s.drop_first() == without(s, s[0].0),
        !holds(s.drop_first(), s[0].0),
        forall|other: K|
            other != s[0].0 ==> #[trigger] value_of(s.drop_first(), other) == value_of(s, other),
        forall|other: K|
            other != s[0].0 ==> (#[trigger] holds(s.drop_first(), other) <==> holds(s, other)),
{
    lemma_found(s, 0);
    lemma_without(s, s[0].0);
    assert(s.drop_first() =~= s.remove(0));
}

/// Keys of the entries after the first `n` are keys that were there, and differ from those before.
pub proof fn lemma_skip<K, V>(s: Seq<(K, V)>, n: int)
    requires
        unique(s),
        0 <= n <= s.len(),
    ensures
        unique(s.skip(n)),
        forall|k: K| #[trigger]
            holds(s.skip(n), k) ==> holds(s, k) && value_of(s.skip(n), k) == value_of(s, k),
        forall|i: int| 0 <= i < n ==> !holds(s.skip(n), (#[trigger] s[i]).0),
        forall|i: int| n <= i < s.len() ==> holds(s.skip(n), (#[trigger] s[i]).0),
{
    let t = s.skip(n);
    assert forall|k: K| #[trigger] holds(t, k) implies holds(s, k) && value_of(t, k) == value_of(
        s,
        k,
    ) by {
        let p = place_of(t, k);
        assert(t[p] == s[p + n]);
        lemma_found(s, p + n);
        lemma_found(t, p);
    }
    assert forall|i: int| 0 <= i < n implies !holds(t, (#[trigger] s[i]).0) by {
        if holds(t, s[i].0) {
            let p = place_of(t, s[i].0);
            assert(t[p] == s[p + n]);
        }
    }
    assert forall|i: int| n <= i < s.len() implies holds(t, (#[trigger] s[i]).0) by {
        assert(t[i - n] == s[i]);
    }
}

/// The first entries are entries that were there.
pub proof fn lemma_take<K, V>(s: Seq<(K, V)>, n: int)
    requires
        unique(s),
        0 <= n <= s.len(),
    ensures
        unique(s.take(n)),
        forall|k: K| #[trigger]
            holds(s.take(n), k) ==> {
                &&& holds(s, k)
                &&& place_of(s, k) < n
                &&& value_of(s.take(n), k) == value_of(s, k)
            },
        forall|i: int| 0 <= i < n ==> holds(s.take(n), (#[trigger] s[i]).0),
{
    let t = s.take(n);
    assert forall|k: K| #[trigger] holds(t, k) implies {
        &&& holds(s, k)
        &&& place_of(s, k) < n
        &&& value_of(t, k) == value_of(s, k)
    } by {
        let p = place_of(t, k);
        assert(t[p] == s[p]);
        lemma_found(s, p);
        lemma_found(t, p);
    }
    assert forall|i: int| 0 <= i < n implies holds(t, (#[trigger] s[i]).0) by {
        assert(t[i] == s[i]);
    }
}

/// Replacing the value of a key that is there commutes with putting another key.
pub proof fn lemma_put_commutes<K, V>(s: Seq<(K, V)>, k: K, v: V, other: K, w: V)
    requires
        unique(s),
        holds(s, k),
        k != other,
    ensures
        put(put(s, other, w), k, v) == put(put(s, k, v), other, w),
{
    lemma_put(s, k, v);
    lemma_put(s, other, w);
    let p = place_of(s, k);
    assert(s[p].0 == k);
    lemma_found(put(s, other, w), p);
    if holds(s, other) {
        let q = place_of(s, other);
        assert(s[q].0 == other);
        lemma_found(put(s, k, v), q);
    }
    assert(put(put(s, other, w), k, v) =~= put(put(s, k, v), other, w));
}

/// Putting a key twice is putting it once, with the second value.
pub proof fn lemma_put_twice<K, V>(s: Seq<(K, V)>, k: K, v: V, w: V)
    requires
        unique(s),
    ensures
        put(put(s, k, v), k, w) == put(s, k, w),
{
    lemma_put(s, k, v);
    let p = if holds(s, k) {
        place_of(s, k)
    } else {
        s.len() as int
    };
    if holds(s, k) {
        assert(s[p].0 == k);
    }
    lemma_found(put(s, k, v), p);
    assert(put(put(s, k, v), k, w) =~= put(s, k, w));
}

/// Replacing the value of a key that is there commutes with moving another key to the back.
pub proof fn lemma_put_to_back<K, V>(s: Seq<(K, V)>, k: K, v: V, other: K, w: V)
    requires
        unique(s),
        holds(s, k),
        k != other,
    ensures
        put(to_back(s, other, w), k, v) == to_back(put(s, k, v), other, w),
{
    lemma_put(s, k, v);
    lemma_without(s, other);
    lemma_put_without(s, k, v, other);
    lemma_put_commutes(without(s, other), k, v, other, w);
}

/// Putting a key commutes with taking another one out.
pub proof fn lemma_put_without<K, V>(s: Seq<(K, V)>, k: K, v: V, other: K)
    requires
        unique(s),
        k != other,
    ensures
        put(without(s, other), k, v) == without(put(s, k, v), other),
{
    lemma_put(s, k, v);
    lemma_without(s, other);
    let t = put(s, k, v);
    if holds(s, other) {
        let q = place_of(s, other);
        assert(s[q].0 == other);
        assert(t[q].0 == other);
        lemma_found(t, q);
        if holds(s, k) {
            let p = place_of(s, k);
            assert(s[p].0 == k);
            let p2 = if p < q { p } else { p - 1 };
            assert(without(s, other)[p2] == s[p]);
            lemma_found(without(s, other), p2);
        }
    }
    assert(put(without(s, other), k, v) =~= without(t, other));
}

/// Moving a key to the back and then giving it another value is moving it with that value.
pub proof fn lemma_to_back_put<K, V>(s: Seq<(K, V)>, k: K, v: V, w: V)
    requires
        unique(s),
    ensures
        put(to_back(s, k, v), k, w) == to_back(s, k, w),
{
    lemma_without(s, k);
    lemma_put_twice(without(s, k), k, v, w);
}

/// A key that is taken out leaves no trace of the value it was given.
pub proof fn lemma_put_then_without<K, V>(s: Seq<(K, V)>, k: K, v: V)
    requires
        unique(s),
    ensures
        without(put(s, k, v), k) == without(s, k),
        without(to_back(s, k, v), k) == without(s, k),
{
    let t = put(s, k, v);
    lemma_put(s, k, v);
    if holds(s, k) {
        let p = place_of(s, k);
        assert(s[p].0 == k);
        assert(t[p].0 == k);
        lemma_found(t, p);
    } else {
        lemma_found(t, s.len() as int);
    }
    assert(without(t, k) =~= without(s, k));
    lemma_without(s, k);
    lemma_to_back(s, k, v);
    let b = to_back(s, k, v);
    lemma_found(b, b.len() - 1);
    assert(without(b, k) =~= without(s, k));
}

/// Two keys can be taken out in either order.
pub proof fn lemma_without_commutes<K, V>(s: Seq<(K, V)>, a: K, b: K)
    requires
        unique(s),
    ensures
        without(without(s, a), b) == without(without(s, b), a),
{
    let sa = without(s, a);
    let sb = without(s, b);
    lemma_without(s, a);
    lemma_without(s, b);
    if a != b && holds(s, a) && holds(s, b) {
        let p = place_of(s, a);
        let q = place_of(s, b);
        assert(s[p].0 == a && s[q].0 == b);
        let q2 = if q < p { q } else { q - 1 };
        let p2 = if p < q { p } else { p - 1 };
        assert(sa[q2] == s[q]);
        assert(sb[p2] == s[p]);
        lemma_found(sa, q2);
        lemma_found(sb, p2);
        assert(without(sa, b) =~= without(sb, a));
    }
}

/// Moving a key to the back commutes with taking another one out.
pub proof fn lemma_to_back_without<K, V>(s: Seq<(K, V)>, k: K, v: V, other: K)
    requires
        unique(s),
        k != other,
    ensures
        to_back(without(s, other), k, v) == without(to_back(s, k, v), other),
{
    lemma_without(s, k);
    lemma_without_commutes(s, k, other);
    lemma_put_without(without(s, k), k, v, other);
}

/// Taking a key out leaves the entry at the front there, unless it is the one that is taken.
pub proof fn lemma_front_without<K, V>(s: Seq<(K, V)>, k: K)
    requires
        unique(s),
        s.len() > 0,
    ensures
        s[0].0 == k ==> without(s, k) == s.drop_first(),
        s[0].0 != k ==> {
            &&& without(s, k).len() > 0
            &&& without(s, k)[0] == s[0]
            &&& without(s, k).drop_first() == without(s.drop_first(), k)
        },
{
    lemma_drop_first(s);
    if s[0].0 != k {
        lemma_found(s, 0);
        if holds(s, k) {
            let p = place_of(s, k);
            assert(s[p].0 == k);
            assert(s.drop_first()[p - 1] == s[p]);
            lemma_found(s.drop_first(), p - 1);
        }
        assert(without(s, k).drop_first() =~= without(s.drop_first(), k));
    }
}

/// The first entries and the others, each without a key, make up the whole without that key.
pub proof fn lemma_split_without<K, V>(s: Seq<(K, V)>, n: int, k: K)
    requires
        unique(s),
        0 <= n <= s.len(),
    ensures
        without(s, k) == without(s.take(n), k) + without(s.skip(n), k),
{
    lemma_take(s, n);
    lemma_skip(s, n);
    if holds(s, k) {
        let p = place_of(s, k);
        assert(s[p].0 == k);
        if p < n {
            assert(s.take(n)[p] == s[p]);
            lemma_found(s.take(n), p);
            assert(!holds(s.skip(n), s[p].0));
        } else {
            assert(s.skip(n)[p - n] == s[p]);
            lemma_found(s.skip(n), p - n);
            if holds(s.take(n), k) {
                assert(place_of(s, k) < n);
            }
        }
    }
    assert(without(s, k) =~= without(s.take(n), k) + without(s.skip(n), k));
}

/// A sequence whose keys are all in another is no longer than that.
pub proof fn lemma_same_keys<K, V>(s: Seq<(K, V)>, t: Seq<(K, V)>)
    requires
        unique(s),
        unique(t),
        forall|k: K| #[trigger] holds(s, k) ==> holds(t, k),
    ensures
        s.len() <= t.len(),
    decreases s.len(),
{
    if s.len() > 0 {
        let k = s[0].0;
        lemma_found(s, 0);
        lemma_drop_first(s);
        lemma_without(t, k);
        assert forall|other: K| #[trigger] holds(s.drop_first(), other) implies holds(
            without(t, k),
            other,
        ) by {
            assert(holds(s, other));
        }
        lemma_same_keys(s.drop_first(), without(t, k));
    }
}

} // verus!
