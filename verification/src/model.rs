use vstd::prelude::*;

verus! {

/// The mathematical value of one outgoing edge: the index of the target
/// node and the deep view of the edge payload.
#[verifier::ext_equal]
pub struct RibView<UV> {
    pub target: usize,
    pub value: UV,
}

/// The mathematical value of one node: the deep view of its payload and
/// the ordered sequence of its outgoing edges.
#[verifier::ext_equal]
pub struct NodeView<TV, UV> {
    pub value: TV,
    pub edges: Seq<RibView<UV>>,
}

/// The keys of an association list, in storage order.
pub open spec fn key_seq<V>(es: Seq<(usize, V)>) -> Seq<usize> {
    es.map_values(|p: (usize, V)| p.0)
}

/// Keys strictly increase along the list.
pub open spec fn sorted_keys(ks: Seq<usize>) -> bool {
    forall|i: int, j: int| 0 <= i < j < ks.len() ==> ks[i] < ks[j]
}

/// The finite map that an association list stands for; a later entry
/// with the same key replaces an earlier one.
pub open spec fn entries_to_map<V>(es: Seq<(usize, V)>) -> Map<usize, V>
    decreases es.len(),
{
    if es.len() == 0 {
        Map::empty()
    } else {
        entries_to_map(es.drop_last()).insert(es.last().0, es.last().1)
    }
}

pub proof fn lemma_sorted_keys_no_duplicates(ks: Seq<usize>)
    requires
        sorted_keys(ks),
    ensures
        ks.no_duplicates(),
{
}

/// The map of a duplicate-free association list: its domain is the set of
/// keys, it is finite, its cardinality is the list's length, and each
/// entry is found under its key.
pub proof fn lemma_entries_to_map<V>(es: Seq<(usize, V)>)
    requires
        key_seq(es).no_duplicates(),
    ensures
        forall|k: usize|
            entries_to_map(es).dom().contains(k) <==> exists|i: int|
                0 <= i < es.len() && #[trigger] es[i].0 == k,
        forall|i: int|
            0 <= i < es.len() ==> entries_to_map(es).dom().contains(#[trigger] es[i].0)
                && entries_to_map(es)[es[i].0] == es[i].1,
        entries_to_map(es).dom().finite(),
        entries_to_map(es).dom().len() == es.len(),
    decreases es.len(),
{
    if es.len() > 0 {
        let rest = es.drop_last();
        assert(key_seq(rest) =~= key_seq(es).drop_last());
        lemma_entries_to_map(rest);
        let last = es.last();
        let m = entries_to_map(es);
        let mr = entries_to_map(rest);
        assert forall|i: int| 0 <= i < es.len() - 1 implies (#[trigger] es[i]).0 != last.0 by {
            assert(key_seq(es)[i] == es[i].0);
            assert(key_seq(es)[es.len() - 1] == last.0);
        }
        assert(!mr.dom().contains(last.0)) by {
            if mr.dom().contains(last.0) {
                let i = choose|i: int| 0 <= i < rest.len() && (#[trigger] rest[i]).0 == last.0;
                assert(es[i] == rest[i]);
            }
        }
        assert(m.dom() =~= mr.dom().insert(last.0));
        assert forall|k: usize|
            m.dom().contains(k) implies exists|i: int|
                0 <= i < es.len() && #[trigger] es[i].0 == k by {
            if k == last.0 {
                assert(es[es.len() - 1].0 == k);
            } else {
                let i = choose|i: int| 0 <= i < rest.len() && (#[trigger] rest[i]).0 == k;
                assert(es[i].0 == k);
            }
        }
        assert forall|k: usize|
            (exists|i: int| 0 <= i < es.len() && #[trigger] es[i].0 == k) implies m.dom().contains(
            k) by {
            let i = choose|i: int| 0 <= i < es.len() && (#[trigger] es[i]).0 == k;
            if i < es.len() - 1 {
                assert(rest[i].0 == k);
            }
        }
        assert forall|i: int|
            0 <= i < es.len() implies m.dom().contains((#[trigger] es[i]).0) && m[es[i].0]
                == es[i].1 by {
            if i < es.len() - 1 {
                assert(rest[i] == es[i]);
                assert(es[i].0 != last.0);
            }
        }
    }
}

/// Appending a fresh entry inserts its key.
pub proof fn lemma_entries_to_map_push<V>(es: Seq<(usize, V)>, k: usize, v: V)
    ensures
        entries_to_map(es.push((k, v))) == entries_to_map(es).insert(k, v),
{
    assert(es.push((k, v)).drop_last() =~= es);
}

/// Replacing the node of one entry updates the map at that entry's key.
pub proof fn lemma_entries_to_map_update<V>(es: Seq<(usize, V)>, pos: int, v: V)
    requires
        key_seq(es).no_duplicates(),
        0 <= pos < es.len(),
    ensures
        entries_to_map(es.update(pos, (es[pos].0, v))) =~= entries_to_map(es).insert(es[pos].0, v),
{
    let es2 = es.update(pos, (es[pos].0, v));
    assert(key_seq(es2) =~= key_seq(es));
    lemma_entries_to_map(es);
    lemma_entries_to_map(es2);
    let m1 = entries_to_map(es);
    let m2 = entries_to_map(es2);
    let target = m1.insert(es[pos].0, v);
    assert forall|k: usize| m2.dom().contains(k) implies target.dom().contains(k) && m2[k]
        == target[k] by {
        let i = choose|i: int| 0 <= i < es2.len() && (#[trigger] es2[i]).0 == k;
        assert(es[i].0 == k);
        if i == pos {
            assert(m2[k] == es2[pos].1);
        } else {
            assert(key_seq(es)[i] == k);
            assert(key_seq(es)[pos] == es[pos].0);
            assert(k != es[pos].0);
            assert(m2[k] == es2[i].1);
            assert(es2[i] == es[i]);
            assert(m1[k] == es[i].1);
        }
    }
    assert forall|k: usize| target.dom().contains(k) implies m2.dom().contains(k) by {
        if k == es[pos].0 {
            assert(es2[pos].0 == k);
        } else {
            let i = choose|i: int| 0 <= i < es.len() && (#[trigger] es[i]).0 == k;
            assert(es2[i].0 == k);
        }
    }
    assert(m2 =~= target);
}

/// Inserting an entry with a fresh key inserts that key into the map.
pub proof fn lemma_entries_to_map_insert<V>(es: Seq<(usize, V)>, pos: int, k: usize, v: V)
    requires
        key_seq(es).no_duplicates(),
        !key_seq(es).contains(k),
        0 <= pos <= es.len(),
    ensures
        entries_to_map(es.insert(pos, (k, v))) =~= entries_to_map(es).insert(k, v),
{
    let es2 = es.insert(pos, (k, v));
    assert(key_seq(es2) =~= key_seq(es).insert(pos, k));
    assert forall|i: int| 0 <= i < es.len() implies (#[trigger] es[i]).0 != k by {
        assert(key_seq(es)[i] == es[i].0);
    }
    assert(key_seq(es2).no_duplicates()) by {
        assert forall|a: int, b: int|
            0 <= a < b < key_seq(es2).len() implies key_seq(es2)[a] != key_seq(es2)[b] by {
            let oa: int = if a < pos { a } else { a - 1 };
            let ob: int = if b < pos { b } else { b - 1 };
            if a != pos && b != pos {
                assert(key_seq(es2)[a] == key_seq(es)[oa]);
                assert(key_seq(es2)[b] == key_seq(es)[ob]);
            } else if a == pos {
                assert(key_seq(es2)[b] == key_seq(es)[ob] && es[ob].0 == key_seq(es)[ob]);
            } else {
                assert(key_seq(es2)[a] == key_seq(es)[oa] && es[oa].0 == key_seq(es)[oa]);
            }
        }
    }
    lemma_entries_to_map(es);
    lemma_entries_to_map(es2);
    let m1 = entries_to_map(es);
    let m2 = entries_to_map(es2);
    let target = m1.insert(k, v);
    assert forall|q: usize| m2.dom().contains(q) implies target.dom().contains(q) && m2[q]
        == target[q] by {
        let i = choose|i: int| 0 <= i < es2.len() && (#[trigger] es2[i]).0 == q;
        if i == pos {
            assert(m2[q] == es2[pos].1);
        } else {
            let oi: int = if i < pos { i } else { i - 1 };
            assert(es2[i] == es[oi]);
            assert(m2[q] == es2[i].1);
            assert(m1[q] == es[oi].1);
        }
    }
    assert forall|q: usize| target.dom().contains(q) implies m2.dom().contains(q) by {
        if q == k {
            assert(es2[pos].0 == q);
        } else {
            let i = choose|i: int| 0 <= i < es.len() && (#[trigger] es[i]).0 == q;
            let ni: int = if i < pos { i } else { i + 1 };
            assert(es2[ni] == es[i]);
            assert(es2[ni].0 == q);
        }
    }
    assert(m2 =~= target);
}

/// Removing one entry removes its key from the map.
pub proof fn lemma_entries_to_map_remove<V>(es: Seq<(usize, V)>, pos: int)
    requires
        key_seq(es).no_duplicates(),
        0 <= pos < es.len(),
    ensures
        entries_to_map(es.remove(pos)) =~= entries_to_map(es).remove(es[pos].0),
{
    let es2 = es.remove(pos);
    assert(key_seq(es2) =~= key_seq(es).remove(pos));
    lemma_entries_to_map(es);
    lemma_entries_to_map(es2);
    let m1 = entries_to_map(es);
    let m2 = entries_to_map(es2);
    let target = m1.remove(es[pos].0);
    assert forall|q: usize| m2.dom().contains(q) implies target.dom().contains(q) && m2[q]
        == target[q] by {
        let i = choose|i: int| 0 <= i < es2.len() && (#[trigger] es2[i]).0 == q;
        let oi: int = if i < pos { i } else { i + 1 };
        assert(es2[i] == es[oi]);
        assert(key_seq(es)[oi] == q);
        assert(key_seq(es)[pos] == es[pos].0);
        assert(q != es[pos].0);
        assert(m2[q] == es2[i].1);
        assert(m1[q] == es[oi].1);
    }
    assert forall|q: usize| target.dom().contains(q) implies m2.dom().contains(q) by {
        let i = choose|i: int| 0 <= i < es.len() && (#[trigger] es[i]).0 == q;
        assert(key_seq(es)[i] == q);
        assert(key_seq(es)[pos] == es[pos].0);
        assert(i != pos);
        let ni: int = if i < pos { i } else { i - 1 };
        assert(es2[ni] == es[i]);
        assert(es2[ni].0 == q);
    }
    assert(m2 =~= target);
}

} // verus!
