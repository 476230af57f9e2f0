//! Association sequences keyed by strings: the common model behind the file
//! catalog and the definition registry, with first-match lookup and the
//! lemmas that relate lookup to pushing and updating entries.
use vstd::prelude::*;

verus! {

/// The value under `k`, first match wins.
pub open spec fn lookup<V>(s: Seq<(Seq<char>, V)>, k: Seq<char>) -> Option<V>
    decreases s.len(),
{
    if s.len() == 0 {
        None
    } else if s[0].0 == k {
        Some(s[0].1)
    } else {
        lookup(s.drop_first(), k)
    }
}

/// No two entries share a key.
pub open spec fn distinct_keys<V>(s: Seq<(Seq<char>, V)>) -> bool {
    forall|i: int, j: int| 0 <= i < j < s.len() ==> (#[trigger] s[i]).0 != (#[trigger] s[j]).0
}

/// Looking up the key of entry `i` finds that entry.
pub proof fn lemma_lookup_at<V>(s: Seq<(Seq<char>, V)>, i: int)
    requires
        distinct_keys(s),
        0 <= i < s.len(),
    ensures
        lookup(s, s[i].0) == Some(s[i].1),
    decreases s.len(),
{
    if i > 0 {
        assert(s[0].0 != s[i].0);
        assert(distinct_keys(s.drop_first())) by {
            assert(forall|a: int, b: int|
                0 <= a < b < s.drop_first().len() ==> (#[trigger] s.drop_first()[a]).0 != (
                #[trigger] s.drop_first()[b]).0);
        }
        lemma_lookup_at(s.drop_first(), i - 1);
        assert(s.drop_first()[i - 1] == s[i]);
    }
}

/// A key under no entry is not found.
pub proof fn lemma_lookup_absent<V>(s: Seq<(Seq<char>, V)>, k: Seq<char>)
    requires
        forall|j: int| 0 <= j < s.len() ==> (#[trigger] s[j]).0 != k,
    ensures
        lookup(s, k) is None,
    decreases s.len(),
{
    if s.len() > 0 {
        assert(forall|j: int|
            0 <= j < s.drop_first().len() ==> (#[trigger] s.drop_first()[j]).0 != k);
        lemma_lookup_absent(s.drop_first(), k);
    }
}

/// Appending an entry answers for its key only where nothing answered before.
pub proof fn lemma_lookup_push<V>(s: Seq<(Seq<char>, V)>, p: (Seq<char>, V), k: Seq<char>)
    ensures
        lookup(s.push(p), k) == if lookup(s, k) is Some {
            lookup(s, k)
        } else if p.0 == k {
            Some(p.1)
        } else {
            None
        },
    decreases s.len(),
{
    if s.len() == 0 {
        assert(s.push(p)[0] == p);
        assert(s.push(p).drop_first() =~= Seq::<(Seq<char>, V)>::empty());
    } else {
        assert(s.push(p)[0] == s[0]);
        assert(s.push(p).drop_first() =~= s.drop_first().push(p));
        lemma_lookup_push(s.drop_first(), p, k);
    }
}

/// Replacing the value of entry `i` changes lookup for that key alone.
pub proof fn lemma_lookup_update<V>(s: Seq<(Seq<char>, V)>, i: int, v: V, k: Seq<char>)
    requires
        distinct_keys(s),
        0 <= i < s.len(),
    ensures
        lookup(s.update(i, (s[i].0, v)), k) == if k == s[i].0 {
            Some(v)
        } else {
            lookup(s, k)
        },
    decreases s.len(),
{
    let s1 = s.update(i, (s[i].0, v));
    if i == 0 {
        assert(s1[0] == (s[0].0, v));
        assert(s1.drop_first() =~= s.drop_first());
    } else {
        assert(s1[0] == s[0]);
        assert(s[i].0 != s[0].0);
        assert(distinct_keys(s.drop_first())) by {
            assert(forall|a: int, b: int|
                0 <= a < b < s.drop_first().len() ==> (#[trigger] s.drop_first()[a]).0 != (
                #[trigger] s.drop_first()[b]).0);
        }
        assert(s1.drop_first() =~= s.drop_first().update(i - 1, (s.drop_first()[i - 1].0, v)));
        lemma_lookup_update(s.drop_first(), i - 1, v, k);
    }
}

/// Appending an entry under a fresh key keeps the keys distinct.
pub proof fn lemma_distinct_push<V>(s: Seq<(Seq<char>, V)>, p: (Seq<char>, V))
    requires
        distinct_keys(s),
        forall|j: int| 0 <= j < s.len() ==> (#[trigger] s[j]).0 != p.0,
    ensures
        distinct_keys(s.push(p)),
{
    assert forall|a: int, b: int| 0 <= a < b < s.push(p).len() implies (#[trigger] s.push(p)[a]).0
        != (#[trigger] s.push(p)[b]).0 by {
        if b < s.len() {
            assert(s[a].0 != s[b].0);
        } else {
            assert(s[a].0 != p.0);
        }
    }
}

/// Replacing the value of entry `i` keeps the keys distinct.
pub proof fn lemma_distinct_update<V>(s: Seq<(Seq<char>, V)>, i: int, v: V)
    requires
        distinct_keys(s),
        0 <= i < s.len(),
    ensures
        distinct_keys(s.update(i, (s[i].0, v))),
{
    let s1 = s.update(i, (s[i].0, v));
    assert forall|a: int, b: int| 0 <= a < b < s1.len() implies (#[trigger] s1[a]).0 != (
    #[trigger] s1[b]).0 by {
        assert(s1[a].0 == s[a].0);
        assert(s1[b].0 == s[b].0);
    }
}

/// The position of the entry whose key reads as `key`, if any.
pub fn find_key<V>(v: &Vec<(String, V)>, key: &String) -> (r: Option<usize>)
    ensures
        match r {
            Some(i) => {
                &&& i < v@.len()
                &&& v@[i as int].0@ == key@
                &&& forall|j: int| 0 <= j < i ==> (#[trigger] v@[j]).0@ != key@
            },
            None => forall|j: int| 0 <= j < v@.len() ==> (#[trigger] v@[j]).0@ != key@,
        },
{
    let n = v.len();
    let mut i: usize = 0;
    while i < n
        invariant
            n == v@.len(),
            i <= n,
            forall|j: int| 0 <= j < i ==> (#[trigger] v@[j]).0@ != key@,
        decreases n - i,
    {
        let p = &v[i];
        if p.0 == *key {
            return Some(i);
        }
        i = i + 1;
    }
    None
}

} // verus!
