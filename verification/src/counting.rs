//! How often each value was looked up.
use std::collections::HashMap;
use vstd::prelude::*;
use crate::tensor::Element;

verus! {

broadcast use vstd::std_specs::hash::group_hash_axioms;

/// How often `v` occurs in `s`.
pub open spec fn occurrences(s: Seq<Element>, v: Element) -> nat
    decreases s.len(),
{
    if s.len() == 0 {
        0
    } else {
        occurrences(s.drop_last(), v) + if s.last() == v {
            1nat
        } else {
            0nat
        }
    }
}

pub proof fn lemma_occurrences(s: Seq<Element>, v: Element)
    ensures
        occurrences(s, v) <= s.len(),
    decreases s.len(),
{
    if s.len() > 0 {
        lemma_occurrences(s.drop_last(), v);
    }
}

/// The map holds the values of `s`, each with how often it occurs.
pub open spec fn counts(m: Map<Element, u64>, s: Seq<Element>) -> bool {
    forall|v: Element|
        {
            &&& #[trigger] m.contains_key(v) <==> occurrences(s, v) > 0
            &&& m.contains_key(v) ==> m[v] == occurrences(s, v)
        }
}

/// Counts one more value.
pub fn count_value(m: &mut HashMap<Element, u64>, v: Element, Ghost(s): Ghost<Seq<Element>>)
    requires
        counts(old(m)@, s),
        s.len() < u64::MAX,
    ensures
        counts(final(m)@, s.push(v)),
{
    proof {
        lemma_occurrences(s, v);
    }
    let ghost before = m@;
    let n: u64 = match m.get(&v) {
        Some(n) => *n,
        None => 0,
    };
    m.insert(v, n + 1);
    proof {
        let t = s.push(v);
        assert(t.drop_last() =~= s);
        assert forall|w: Element|
            {
                &&& #[trigger] m@.contains_key(w) <==> occurrences(t, w) > 0
                &&& m@.contains_key(w) ==> m@[w] == occurrences(t, w)
            } by {
            assert(before.contains_key(w) <==> occurrences(s, w) > 0);
        }
    }
}

/// How often a map counts `v`.
pub open spec fn counted(m: Map<Element, u64>, v: Element) -> int {
    if m.contains_key(v) {
        m[v] as int
    } else {
        0
    }
}

/// How often entries count `v`.
pub open spec fn entry_total(entries: Seq<(Element, u64)>, v: Element) -> int
    decreases entries.len(),
{
    if entries.len() == 0 {
        0
    } else {
        entry_total(entries.drop_last(), v) + if entries.last().0 == v {
            entries.last().1 as int
        } else {
            0
        }
    }
}

/// Entries never count less than their first ones.
pub proof fn lemma_entry_total(entries: Seq<(Element, u64)>, k: int, v: Element)
    requires
        0 <= k <= entries.len(),
    ensures
        0 <= entry_total(entries.take(k), v) <= entry_total(entries, v),
    decreases entries.len(),
{
    if k == entries.len() {
        assert(entries.take(k) =~= entries);
        if k > 0 {
            assert(entries.drop_last().take(k - 1) =~= entries.drop_last());
            lemma_entry_total(entries.drop_last(), k - 1, v);
        }
    } else {
        lemma_entry_total(entries.drop_last(), k, v);
        assert(entries.drop_last().take(k) =~= entries.take(k));
    }
}

/// Adds what entries count to what a map counts.
pub fn merge_counts(m: &mut HashMap<Element, u64>, entries: &Vec<(Element, u64)>)
    requires
        forall|v: Element|
            #[trigger] counted(old(m)@, v) + entry_total(entries@, v) <= u64::MAX,
    ensures
        forall|v: Element|
            #[trigger] counted(final(m)@, v) == counted(old(m)@, v) + entry_total(entries@, v),
{
    let ghost start = m@;
    assert(entries@.take(0) =~= Seq::<(Element, u64)>::empty());
    for i in 0..entries.len()
        invariant
            start == old(m)@,
            forall|v: Element|
                #[trigger] counted(start, v) + entry_total(entries@, v) <= u64::MAX,
            forall|v: Element|
                #[trigger] counted(m@, v) == counted(start, v) + entry_total(
                    entries@.take(i as int),
                    v,
                ),
    {
        let ghost before = m@;
        let (key, value) = entries[i];
        let n: u64 = match m.get(&key) {
            Some(n) => *n,
            None => 0,
        };
        proof {
            let next = entries@.take(i + 1);
            assert(next.drop_last() =~= entries@.take(i as int));
            lemma_entry_total(entries@, i + 1, key);
            assert(counted(start, key) + entry_total(entries@, key) <= u64::MAX);
            assert(counted(before, key) == n);
        }
        m.insert(key, n + value);
        proof {
            let next = entries@.take(i + 1);
            assert(next.last() == (key, value));
            assert forall|v: Element| #[trigger] counted(m@, v) == counted(start, v) + entry_total(
                next,
                v,
            ) by {
                assert(counted(before, v) == counted(start, v) + entry_total(
                    entries@.take(i as int),
                    v,
                ));
            }
        }
    }
    assert(entries@.take(entries@.len() as int) =~= entries@);
}

/// What a map counts is how often each value stands in the sequence, in whatever order:
/// the multiset of its values.
pub proof fn law_counts(m: Map<Element, u64>, s: Seq<Element>, v: Element)
    requires
        counts(m, s),
    ensures
        counted(m, v) == s.to_multiset().count(v),
{
    lemma_multiset(s, v);
    assert(m.contains_key(v) <==> occurrences(s, v) > 0);
}

/// How often a value occurs is its count in the multiset.
proof fn lemma_multiset(s: Seq<Element>, v: Element)
    ensures
        occurrences(s, v) == s.to_multiset().count(v),
    decreases s.len(),
{
    broadcast use vstd::seq_lib::group_to_multiset_ensures;

    if s.len() > 0 {
        let t = s.drop_last();
        lemma_multiset(t, v);
        assert(s =~= t.push(s.last()));
    }
}

/// What lists of entries count together is the sum of what each counts, and a single entry
/// counts its own value, as often as it says.
pub proof fn law_entries(a: Seq<(Element, u64)>, b: Seq<(Element, u64)>, e: (Element, u64), v: Element)
    ensures
        entry_total(a + b, v) == entry_total(a, v) + entry_total(b, v),
        entry_total(seq![e], v) == if e.0 == v {
            e.1 as int
        } else {
            0
        },
    decreases b.len(),
{
    reveal_with_fuel(entry_total, 2);
    assert(seq![e].drop_last() =~= Seq::<(Element, u64)>::empty());
    if b.len() == 0 {
        assert(a + b =~= a);
    } else {
        law_entries(a, b.drop_last(), e, v);
        assert((a + b).drop_last() =~= a + b.drop_last());
        assert((a + b).last() == b.last());
    }
}

} // verus!
