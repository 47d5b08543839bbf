//! Properties of the index that relate several of its operations.

use vstd::prelude::*;
use crate::date::date_ordinal;
use crate::record::{Data, key_of};
use crate::tree::{AvlTree, inserted_at, lemma_locate, locate, sorted};

verus! {

proof fn lemma_insert_positions(s: Seq<Data>, a: Data, b: Data, i1: int, j1: int, i2: int)
    requires
        key_of(a) < key_of(b),
        inserted_at(s, s.insert(i1, a), a, i1),
        inserted_at(s.insert(i1, a), s.insert(i1, a).insert(j1, b), b, j1),
        inserted_at(s, s.insert(i2, b), b, i2),
    ensures
        i1 <= i2,
        j1 == i2 + 1,
{
    let t1 = s.insert(i1, a);
    if i2 < i1 {
        assert(key_of(s[i2]) <= key_of(a));
        assert(key_of(b) < key_of(s[i2]));
    }
    if j1 < i2 + 1 {
        if j1 <= i1 {
            assert(t1[j1] == (if j1 == i1 { a } else { s[j1] }));
            if j1 < i1 {
                assert(key_of(s[j1]) <= key_of(a));
            }
        } else {
            assert(t1[j1] == s[j1 - 1]);
            assert(key_of(s[j1 - 1]) <= key_of(b));
        }
        assert(key_of(b) < key_of(t1[j1]));
    }
    if j1 > i2 + 1 {
        assert(t1[i2 + 1] == s[i2]);
        assert(key_of(t1[i2 + 1]) <= key_of(b));
        assert(key_of(b) < key_of(s[i2]));
    }
}

proof fn lemma_insert_positions_rev(s: Seq<Data>, a: Data, b: Data, i2: int, j2: int, i1: int)
    requires
        key_of(a) < key_of(b),
        inserted_at(s, s.insert(i2, b), b, i2),
        inserted_at(s.insert(i2, b), s.insert(i2, b).insert(j2, a), a, j2),
        inserted_at(s, s.insert(i1, a), a, i1),
        i1 <= i2,
    ensures
        j2 == i1,
{
    let t2 = s.insert(i2, b);
    if j2 < i1 {
        assert(t2[j2] == s[j2]);
        assert(key_of(s[j2]) <= key_of(a));
        assert(key_of(a) < key_of(t2[j2]));
    }
    if j2 > i1 {
        if i1 < i2 {
            assert(t2[i1] == s[i1]);
            assert(key_of(a) < key_of(s[i1]));
        } else {
            assert(t2[i1] == b);
        }
        assert(key_of(t2[i1]) <= key_of(a));
    }
}

/// Inserting two records whose dates have different keys gives the same
/// sequence of records whichever is inserted first.
pub proof fn lemma_insert_order_irrelevant(
    s: Seq<Data>,
    a: Data,
    b: Data,
    t1: Seq<Data>,
    u1: Seq<Data>,
    t2: Seq<Data>,
    u2: Seq<Data>,
)
    requires
        sorted(s),
        key_of(a) != key_of(b),
        exists|i: int| inserted_at(s, t1, a, i),
        exists|j: int| inserted_at(t1, u1, b, j),
        exists|i: int| inserted_at(s, t2, b, i),
        exists|j: int| inserted_at(t2, u2, a, j),
    ensures
        u1 == u2,
{
    let i1 = choose|i: int| inserted_at(s, t1, a, i);
    let j1 = choose|j: int| inserted_at(t1, u1, b, j);
    let i2 = choose|i: int| inserted_at(s, t2, b, i);
    let j2 = choose|j: int| inserted_at(t2, u2, a, j);
    if key_of(a) < key_of(b) {
        lemma_insert_positions(s, a, b, i1, j1, i2);
        lemma_insert_positions_rev(s, a, b, i2, j2, i1);
        assert(u1 =~= u2);
    } else {
        lemma_insert_positions(s, b, a, i2, j2, i1);
        lemma_insert_positions_rev(s, b, a, i1, j1, i2);
        assert(u1 =~= u2);
    }
}

/// In a tree of one record, a search for that record's date stops at it,
/// so deleting that date leaves no record; in a tree with no record a
/// search for any key stops nowhere.
pub proof fn lemma_delete_only_record(t: AvlTree, k: int)
    requires
        t.wf(),
        t@.len() == 1,
        date_ordinal(t@[0].date@) matches Some(n) && n == k,
    ensures
        locate(t.root, k) == 0,
        t@.remove(0) == Seq::<Data>::empty(),
        forall|u: AvlTree, key: int| u@.len() == 0 ==> locate(u.root, key) < 0,
{
    lemma_locate(t.root, k);
    assert(key_of(t@[0]) == k);
    assert(t@.remove(0) =~= Seq::<Data>::empty());
    assert forall|u: AvlTree, key: int| u@.len() == 0 implies locate(u.root, key) < 0 by {
        lemma_locate(u.root, key);
    }
}

} // verus!
