//! Key-indexed records held in a `Vec`: keys are unique strings, and the
//! contents are viewed as a `Map` from key to value.
use vstd::prelude::*;

verus! {

/// One record of a keyed collection.
#[derive(Clone, Debug, PartialEq, Eq)]
pub struct Entry<V> {
    pub key: String,
    pub value: V,
}

/// No key occurs twice.
pub open spec fn keys_unique<V>(s: Seq<Entry<V>>) -> bool {
    forall|i: int, j: int|
        0 <= i < s.len() && 0 <= j < s.len() && i != j ==> #[trigger] s[i].key@ != #[trigger] s[j].key@
}

/// Whether some record has key `k`.
pub open spec fn has_key<V>(s: Seq<Entry<V>>, k: Seq<char>) -> bool {
    exists|i: int| 0 <= i < s.len() && #[trigger] s[i].key@ == k
}

/// The records as a map from key to value.
pub open spec fn as_map<V>(s: Seq<Entry<V>>) -> Map<Seq<char>, V> {
    Map::new(
        |k: Seq<char>| has_key(s, k),
        |k: Seq<char>| s[choose|i: int| 0 <= i < s.len() && #[trigger] s[i].key@ == k].value,
    )
}

/// The sum of `f` over the values of the records.
pub open spec fn sum_of<V>(s: Seq<Entry<V>>, f: spec_fn(V) -> nat) -> nat
    decreases s.len(),
{
    if s.len() == 0 {
        0
    } else {
        sum_of(s.drop_last(), f) + f(s.last().value)
    }
}

pub proof fn lemma_map_index<V>(s: Seq<Entry<V>>, i: int)
    requires
        keys_unique(s),
        0 <= i < s.len(),
    ensures
        as_map(s).contains_key(s[i].key@),
        as_map(s)[s[i].key@] == s[i].value,
{
    let k = s[i].key@;
    assert(has_key(s, k));
    let j = choose|j: int| 0 <= j < s.len() && #[trigger] s[j].key@ == k;
    assert(i == j);
}

pub proof fn lemma_map_update<V>(s: Seq<Entry<V>>, i: int, e: Entry<V>)
    requires
        keys_unique(s),
        0 <= i < s.len(),
        e.key@ == s[i].key@,
    ensures
        keys_unique(s.update(i, e)),
        as_map(s.update(i, e)) =~= as_map(s).insert(e.key@, e.value),
{
    let t = s.update(i, e);
    assert forall|a: int, b: int|
        0 <= a < t.len() && 0 <= b < t.len() && a != b implies #[trigger] t[a].key@ != #[trigger] t[b].key@ by {
        assert(s[a].key@ != s[b].key@);
    }
    assert forall|k: Seq<char>| has_key(t, k) == (has_key(s, k) || k == e.key@) by {
        if has_key(s, k) {
            let j = choose|j: int| 0 <= j < s.len() && #[trigger] s[j].key@ == k;
            assert(t[j].key@ == k);
        }
        if has_key(t, k) {
            let j = choose|j: int| 0 <= j < t.len() && #[trigger] t[j].key@ == k;
            assert(s[j].key@ == k);
        }
        if k == e.key@ {
            assert(t[i].key@ == k);
        }
    }
    assert forall|k: Seq<char>| #[trigger] as_map(t).contains_key(k) implies as_map(t)[k] == as_map(s).insert(e.key@, e.value)[k] by {
        let j = choose|j: int| 0 <= j < t.len() && #[trigger] t[j].key@ == k;
        lemma_map_index(t, j);
        if j != i {
            lemma_map_index(s, j);
        }
    }
}

pub proof fn lemma_map_remove<V>(s: Seq<Entry<V>>, i: int)
    requires
        keys_unique(s),
        0 <= i < s.len(),
    ensures
        keys_unique(s.remove(i)),
        as_map(s.remove(i)) =~= as_map(s).remove(s[i].key@),
{
    let t = s.remove(i);
    assert forall|a: int, b: int|
        0 <= a < t.len() && 0 <= b < t.len() && a != b implies #[trigger] t[a].key@ != #[trigger] t[b].key@ by {
        let a2 = if a < i { a } else { a + 1 };
        let b2 = if b < i { b } else { b + 1 };
        assert(t[a] == s[a2] && t[b] == s[b2]);
        assert(s[a2].key@ != s[b2].key@);
    }
    assert forall|k: Seq<char>| has_key(t, k) == (has_key(s, k) && k != s[i].key@) by {
        if has_key(s, k) && k != s[i].key@ {
            let j = choose|j: int| 0 <= j < s.len() && #[trigger] s[j].key@ == k;
            if j < i {
                assert(t[j].key@ == k);
            } else {
                assert(t[j - 1].key@ == k);
            }
        }
        if has_key(t, k) {
            let j = choose|j: int| 0 <= j < t.len() && #[trigger] t[j].key@ == k;
            let j2 = if j < i { j } else { j + 1 };
            assert(s[j2].key@ == k);
        }
    }
    assert forall|k: Seq<char>| #[trigger] as_map(t).contains_key(k) implies as_map(t)[k] == as_map(s)[k] by {
        let j = choose|j: int| 0 <= j < t.len() && #[trigger] t[j].key@ == k;
        let j2 = if j < i { j } else { j + 1 };
        assert(t[j] == s[j2]);
        lemma_map_index(t, j);
        lemma_map_index(s, j2);
    }
}

pub proof fn lemma_map_push<V>(s: Seq<Entry<V>>, e: Entry<V>)
    requires
        keys_unique(s),
        !as_map(s).contains_key(e.key@),
    ensures
        keys_unique(s.push(e)),
        as_map(s.push(e)) =~= as_map(s).insert(e.key@, e.value),
{
    let t = s.push(e);
    assert forall|a: int, b: int|
        0 <= a < t.len() && 0 <= b < t.len() && a != b implies #[trigger] t[a].key@ != #[trigger] t[b].key@ by {
        if a == s.len() {
            assert(!has_key(s, e.key@));
            assert(s[b].key@ == t[b].key@);
        } else if b == s.len() {
            assert(!has_key(s, e.key@));
            assert(s[a].key@ == t[a].key@);
        } else {
            assert(s[a].key@ != s[b].key@);
        }
    }
    assert forall|k: Seq<char>| has_key(t, k) == (has_key(s, k) || k == e.key@) by {
        if has_key(s, k) {
            let j = choose|j: int| 0 <= j < s.len() && #[trigger] s[j].key@ == k;
            assert(t[j].key@ == k);
        }
        if has_key(t, k) {
            let j = choose|j: int| 0 <= j < t.len() && #[trigger] t[j].key@ == k;
            if j < s.len() {
                assert(s[j].key@ == k);
            }
        }
        if k == e.key@ {
            assert(t[s.len() as int].key@ == k);
        }
    }
    assert forall|k: Seq<char>| #[trigger] as_map(t).contains_key(k) implies as_map(t)[k] == as_map(s).insert(e.key@, e.value)[k] by {
        let j = choose|j: int| 0 <= j < t.len() && #[trigger] t[j].key@ == k;
        lemma_map_index(t, j);
        if j < s.len() {
            assert(t[j] == s[j]);
            lemma_map_index(s, j);
        }
    }
}

/// The sum after one record's value is replaced.
pub proof fn lemma_sum_update<V>(s: Seq<Entry<V>>, f: spec_fn(V) -> nat, i: int, e: Entry<V>)
    requires
        0 <= i < s.len(),
    ensures
        sum_of(s.update(i, e), f) + f(s[i].value) == sum_of(s, f) + f(e.value),
    decreases s.len(),
{
    let t = s.update(i, e);
    if i == s.len() - 1 {
        assert(t.drop_last() =~= s.drop_last());
    } else {
        assert(t.drop_last() =~= s.drop_last().update(i, e));
        lemma_sum_update(s.drop_last(), f, i, e);
    }
}

/// The sum after one record is taken out.
pub proof fn lemma_sum_remove<V>(s: Seq<Entry<V>>, f: spec_fn(V) -> nat, i: int)
    requires
        0 <= i < s.len(),
    ensures
        sum_of(s.remove(i), f) + f(s[i].value) == sum_of(s, f),
    decreases s.len(),
{
    let t = s.remove(i);
    if i == s.len() - 1 {
        assert(t =~= s.drop_last());
    } else {
        assert(t.drop_last() =~= s.drop_last().remove(i));
        assert(t.last() == s.last());
        lemma_sum_remove(s.drop_last(), f, i);
    }
}

/// A single value never exceeds the sum.
pub proof fn lemma_sum_bounds<V>(s: Seq<Entry<V>>, f: spec_fn(V) -> nat, i: int)
    requires
        0 <= i < s.len(),
    ensures
        f(s[i].value) <= sum_of(s, f),
    decreases s.len(),
{
    if i < s.len() - 1 {
        lemma_sum_bounds(s.drop_last(), f, i);
    }
}

/// The position of the record with key `key`, if any.
pub fn find_key<V>(v: &Vec<Entry<V>>, key: &String) -> (r: Option<usize>)
    ensures
        r is None ==> !has_key(v@, key@),
        r matches Some(i) ==> i < v@.len() && v@[i as int].key@ == key@,
{
    let mut i: usize = 0;
    while i < v.len()
        invariant
            i <= v@.len(),
            forall|j: int| 0 <= j < i ==> #[trigger] v@[j].key@ != key@,
        decreases v@.len() - i,
    {
        if v[i].key == *key {
            return Some(i);
        }
        i += 1;
    }
    None
}

/// The sum over a record put in front of others.
pub proof fn lemma_sum_prepend<V>(e: Entry<V>, r: Seq<Entry<V>>, f: spec_fn(V) -> nat)
    ensures
        sum_of(seq![e] + r, f) == f(e.value) + sum_of(r, f),
    decreases r.len(),
{
    let t = seq![e] + r;
    if r.len() == 0 {
        assert(t.drop_last() =~= Seq::<Entry<V>>::empty());
        assert(t.last() == e);
        assert(sum_of(t.drop_last(), f) == 0);
        assert(sum_of(t, f) == sum_of(t.drop_last(), f) + f(t.last().value));
    } else {
        assert(t.drop_last() =~= seq![e] + r.drop_last());
        assert(t.last() == r.last());
        lemma_sum_prepend(e, r.drop_last(), f);
        assert(sum_of(t, f) == sum_of(t.drop_last(), f) + f(t.last().value));
        assert(sum_of(r, f) == sum_of(r.drop_last(), f) + f(r.last().value));
    }
}

/// A record whose key is new keeps keys unique when put in front.
pub proof fn lemma_unique_prepend<V>(e: Entry<V>, r: Seq<Entry<V>>)
    requires
        keys_unique(r),
        !has_key(r, e.key@),
    ensures
        keys_unique(seq![e] + r),
{
    let t = seq![e] + r;
    assert forall|a: int, b: int|
        0 <= a < t.len() && 0 <= b < t.len() && a != b implies #[trigger] t[a].key@ != #[trigger] t[b].key@ by {
        if a == 0 {
            assert(t[b] == r[b - 1]);
        } else if b == 0 {
            assert(t[a] == r[a - 1]);
        } else {
            assert(t[a] == r[a - 1] && t[b] == r[b - 1]);
        }
    }
}

} // verus!
