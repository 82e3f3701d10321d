//! Insertion-ordered string-keyed maps, stored as vectors of pairs.
//!
//! Project descriptors keep their source nodes, buffers and jobs in
//! declaration order, so the library models every such table as a
//! `Vec<(String, V)>` looked up by first match.

use vstd::prelude::*;

verus! {

/// The pairs of an entry vector with the keys taken as character
/// sequences.
pub open spec fn key_pairs<V>(m: Seq<(String, V)>) -> Seq<(Seq<char>, V)> {
    m.map_values(|p: (String, V)| (p.0@, p.1))
}

/// First-match association lookup.
pub open spec fn assoc<V>(pairs: Seq<(Seq<char>, V)>, k: Seq<char>) -> Option<V>
    decreases pairs.len(),
{
    if pairs.len() == 0 {
        None
    } else if pairs[0].0 == k {
        Some(pairs[0].1)
    } else {
        assoc(pairs.drop_first(), k)
    }
}

/// Replacing the binding of `k` (first occurrence) or appending it.
pub open spec fn spec_map_set<V>(pairs: Seq<(Seq<char>, V)>, k: Seq<char>, v: V) -> Seq<
    (Seq<char>, V),
>
    decreases pairs.len(),
{
    if pairs.len() == 0 {
        seq![(k, v)]
    } else if pairs[0].0 == k {
        pairs.update(0, (k, v))
    } else {
        seq![pairs[0]] + spec_map_set(pairs.drop_first(), k, v)
    }
}

/// After a set, lookup returns the new binding for `k` and is unchanged
/// for every other key.
pub proof fn lemma_assoc_after_set<V>(pairs: Seq<(Seq<char>, V)>, k: Seq<char>, v: V, q: Seq<char>)
    ensures
        assoc(spec_map_set(pairs, k, v), q) == if q == k {
            Some(v)
        } else {
            assoc(pairs, q)
        },
    decreases pairs.len(),
{
    if pairs.len() == 0 {
        assert(seq![(k, v)][0] == (k, v));
        assert(seq![(k, v)].drop_first() =~= Seq::<(Seq<char>, V)>::empty());
        if q == k {
            assert(assoc(spec_map_set(pairs, k, v), q) == Some(v));
        } else {
            assert(assoc(spec_map_set(pairs, k, v), q) == assoc(
                Seq::<(Seq<char>, V)>::empty(),
                q,
            ));
        }
    } else if pairs[0].0 == k {
        let updated = pairs.update(0, (k, v));
        assert(updated[0] == (k, v));
        assert(updated.len() == pairs.len());
        if q == k {
            assert(assoc(updated, q) == Some(v));
        } else {
            assert(updated.drop_first() =~= pairs.drop_first());
            assert(assoc(updated, q) == assoc(pairs.drop_first(), q));
            assert(assoc(pairs, q) == assoc(pairs.drop_first(), q));
        }
    } else {
        let rest = spec_map_set(pairs.drop_first(), k, v);
        assert((seq![pairs[0]] + rest)[0] == pairs[0]);
        assert((seq![pairs[0]] + rest).drop_first() =~= rest);
        lemma_assoc_after_set(pairs.drop_first(), k, v, q);
    }
}

/// Looks `k` up in an entry vector, first match wins.
pub fn map_get<'a, V>(m: &'a Vec<(String, V)>, k: &String) -> (r: Option<&'a V>)
    ensures
        match r {
            Some(v) => assoc(key_pairs(m@), k@) == Some(*v),
            None => assoc(key_pairs(m@), k@) is None,
        },
{
    let mut i: usize = 0;
    proof {
        assert(key_pairs(m@).skip(0) =~= key_pairs(m@));
    }
    while i < m.len()
        invariant
            i <= m@.len(),
            forall|j: int| 0 <= j < i ==> (#[trigger] m@[j]).0@ != k@,
            assoc(key_pairs(m@), k@) == assoc(key_pairs(m@).skip(i as int), k@),
        decreases m@.len() - i,
    {
        if m[i].0.eq(k) {
            proof {
                assert(key_pairs(m@).skip(i as int)[0] == (m@[i as int].0@, m@[i as int].1));
            }
            return Some(&m[i].1);
        }
        i = i + 1;
        proof {
            assert(key_pairs(m@).skip(i - 1).drop_first() =~= key_pairs(m@).skip(i as int));
            assert(key_pairs(m@).skip(i - 1)[0] == (m@[i - 1].0@, m@[i - 1].1));
        }
    }
    proof {
        assert(key_pairs(m@).skip(i as int) =~= Seq::<(Seq<char>, V)>::empty());
    }
    None
}

/// Binds `k` to `v` in an entry vector: replaces the first binding of
/// `k`, or appends one if the key is new.
pub fn map_set<V>(m: &mut Vec<(String, V)>, k: String, v: V)
    ensures
        key_pairs(final(m)@) == spec_map_set(key_pairs(old(m)@), k@, v),
{
    let mut i: usize = 0;
    while i < m.len()
        invariant
            i <= m@.len(),
            forall|j: int| 0 <= j < i ==> (#[trigger] m@[j]).0@ != k@,
            m@ == old(m)@,
        decreases m@.len() - i,
    {
        if m[i].0.eq(&k) {
            let ghost pre = m@;
            m.set(i, (k, v));
            proof {
                lemma_map_set_found(key_pairs(pre), k@, v, i as int);
                assert(key_pairs(m@) =~= key_pairs(pre).update(i as int, (k@, v)));
            }
            return ;
        }
        i = i + 1;
    }
    let ghost pre = m@;
    m.push((k, v));
    proof {
        lemma_map_set_absent(key_pairs(pre), k@, v);
        assert(key_pairs(m@) =~= key_pairs(pre).push((k@, v)));
    }
}

/// When the first occurrence of `k` is at `i`, a set is the update at `i`.
proof fn lemma_map_set_found<V>(pairs: Seq<(Seq<char>, V)>, k: Seq<char>, v: V, i: int)
    requires
        0 <= i < pairs.len(),
        pairs[i].0 == k,
        forall|j: int| 0 <= j < i ==> (#[trigger] pairs[j]).0 != k,
    ensures
        spec_map_set(pairs, k, v) == pairs.update(i, (k, v)),
    decreases pairs.len(),
{
    if i == 0 {
    } else {
        assert(forall|j: int|
            0 <= j < i - 1 ==> (#[trigger] pairs.drop_first()[j]).0 == pairs[j + 1].0);
        lemma_map_set_found(pairs.drop_first(), k, v, i - 1);
        assert(seq![pairs[0]] + pairs.drop_first().update(i - 1, (k, v)) =~= pairs.update(
            i,
            (k, v),
        ));
    }
}

/// When `k` is absent, a set appends the binding.
proof fn lemma_map_set_absent<V>(pairs: Seq<(Seq<char>, V)>, k: Seq<char>, v: V)
    requires
        forall|j: int| 0 <= j < pairs.len() ==> (#[trigger] pairs[j]).0 != k,
    ensures
        spec_map_set(pairs, k, v) == pairs.push((k, v)),
    decreases pairs.len(),
{
    if pairs.len() == 0 {
        assert(spec_map_set(pairs, k, v) =~= pairs.push((k, v)));
    } else {
        assert(forall|j: int|
            0 <= j < pairs.drop_first().len() ==> (#[trigger] pairs.drop_first()[j]).0 == pairs[j
                + 1].0);
        lemma_map_set_absent(pairs.drop_first(), k, v);
        assert(seq![pairs[0]] + pairs.drop_first().push((k, v)) =~= pairs.push((k, v)));
    }
}

} // verus!
