//! The table's governing laws, stated over the models that the executable
//! contracts use: upserting twice under one key keeps the identifier and the
//! last handle; a recency listing of strictly ordered times is exactly the
//! descending arrangement; and a fresh use moves its entry to the front.

use vstd::prelude::*;

use crate::entry::EntryView;
use crate::table::{
    distinct_keys, entries, entry_of, has_key, key_index, sorted_desc, upsert, TableView,
};
use crate::time_stamp::TsView;

verus! {

/// Upsert identity stability: after `record_use(k, v1)` and then
/// `record_use(k, v2)`, the table holds exactly one entry for `k` (its keys
/// stay unique and `k` is among them); that entry's handle is `v2` and its
/// time is the second use's; and its identifier is the one the first call
/// left, so it never changes once assigned.
pub proof fn lemma_upsert_id_stable(
    t: TableView,
    k: Seq<char>,
    id1: Seq<char>,
    v1: Seq<char>,
    at1: TsView,
    id2: Seq<char>,
    v2: Seq<char>,
    at2: TsView,
)
    requires
        distinct_keys(t),
    ensures
        ({
            let t1 = upsert(t, k, id1, v1, at1);
            let t2 = upsert(t1, k, id2, v2, at2);
            &&& distinct_keys(t2)
            &&& has_key(t2, k)
            &&& entry_of(t2, k).file_id == v2
            &&& entry_of(t2, k).at == at2
            &&& entry_of(t2, k).id == entry_of(t1, k).id
            &&& entry_of(t1, k).id == if has_key(t, k) {
                entry_of(t, k).id
            } else {
                id1
            }
            &&& t2.len() == t1.len()
        }),
{
    crate::table::lemma_upsert_props(t, k, id1, v1, at1);
    let t1 = upsert(t, k, id1, v1, at1);
    crate::table::lemma_upsert_props(t1, k, id2, v2, at2);
}

/// Recency ordering: a table of three entries used at strictly increasing
/// times, listed as `list_by_recency` promises (same entries as a multiset,
/// sorted by descending recency), comes out latest first: `[t3, t2, t1]`.
pub proof fn lemma_recency_ordering(
    t: TableView,
    r: Seq<EntryView>,
    i1: int,
    i2: int,
    i3: int,
)
    requires
        t.len() == 3,
        0 <= i1 < 3 && 0 <= i2 < 3 && 0 <= i3 < 3,
        i1 != i2 && i2 != i3 && i1 != i3,
        t[i1].1.at.lt(t[i2].1.at),
        t[i2].1.at.lt(t[i3].1.at),
        r.to_multiset() == entries(t).to_multiset(),
        sorted_desc(r),
    ensures
        r =~= seq![t[i3].1, t[i2].1, t[i1].1],
{
    broadcast use vstd::seq_lib::group_to_multiset_ensures;

    let e1 = t[i1].1;
    let e2 = t[i2].1;
    let e3 = t[i3].1;
    assert(entries(t).len() == 3);
    assert(r.len() == 3) by {
        assert(r.to_multiset().len() == r.len());
        assert(entries(t).to_multiset().len() == entries(t).len());
    }
    assert(entries(t)[i1] == e1 && entries(t)[i2] == e2 && entries(t)[i3] == e3);
    assert(r.contains(e1)) by {
        assert(entries(t).contains(e1));
        assert(entries(t).to_multiset().count(e1) > 0);
        assert(r.to_multiset().count(e1) > 0);
    }
    assert(r.contains(e2)) by {
        assert(entries(t).contains(e2));
        assert(entries(t).to_multiset().count(e2) > 0);
        assert(r.to_multiset().count(e2) > 0);
    }
    assert(r.contains(e3)) by {
        assert(entries(t).contains(e3));
        assert(entries(t).to_multiset().count(e3) > 0);
        assert(r.to_multiset().count(e3) > 0);
    }
    let j1 = choose|j: int| 0 <= j < r.len() && r[j] == e1;
    let j2 = choose|j: int| 0 <= j < r.len() && r[j] == e2;
    let j3 = choose|j: int| 0 <= j < r.len() && r[j] == e3;
    assert(e1 != e2 && e2 != e3 && e1 != e3);
    assert(j1 != j2 && j2 != j3 && j1 != j3);
    assert(j3 < j2) by {
        if j2 < j3 {
            assert(r[j3].at.le(r[j2].at));
        }
    }
    assert(j2 < j1) by {
        if j1 < j2 {
            assert(r[j2].at.le(r[j1].at));
        }
    }
    assert(j3 == 0 && j2 == 1 && j1 == 2);
}

/// Update reorders: record a use of key `k` at a time strictly later than
/// every other entry's, and any listing that `list_by_recency` promises of
/// the new table starts with `k`'s entry — the new handle and time under the
/// identifier the entry already had.
pub proof fn lemma_update_reorders(
    t: TableView,
    k: Seq<char>,
    id: Seq<char>,
    v: Seq<char>,
    at: TsView,
    r: Seq<EntryView>,
)
    requires
        distinct_keys(t),
        has_key(t, k),
        forall|j: int| 0 <= j < t.len() && (#[trigger] t[j]).0 != k ==> t[j].1.at.lt(at),
        r.to_multiset() == entries(upsert(t, k, id, v, at)).to_multiset(),
        sorted_desc(r),
    ensures
        r.len() == t.len(),
        r.len() > 0,
        r[0] == entry_of(upsert(t, k, id, v, at), k),
        r[0].file_id == v,
        r[0].at == at,
        r[0].id == entry_of(t, k).id,
{
    broadcast use vstd::seq_lib::group_to_multiset_ensures;

    crate::table::lemma_upsert_props(t, k, id, v, at);
    crate::table::lemma_key_index_props(t, k);
    let u = upsert(t, k, id, v, at);
    crate::table::lemma_key_index_props(u, k);
    let i = key_index(u, k);
    let ke = entry_of(u, k);
    assert(entries(u).len() == u.len());
    assert(r.len() == u.len()) by {
        assert(r.to_multiset().len() == r.len());
        assert(entries(u).to_multiset().len() == entries(u).len());
    }
    assert(u.len() == t.len());
    assert(r.contains(ke)) by {
        assert(entries(u)[i] == ke);
        assert(entries(u).contains(ke));
        assert(entries(u).to_multiset().count(ke) > 0);
        assert(r.to_multiset().count(ke) > 0);
    }
    let jk = choose|j: int| 0 <= j < r.len() && r[j] == ke;
    // every entry of `u` other than `k`'s is strictly older than `at`
    assert forall|m: int| 0 <= m < u.len() && m != i implies (#[trigger] u[m]).1.at.lt(at) by {
        assert(key_index(t, k) == i) by {
            crate::table::lemma_key_index_update(
                t,
                key_index(t, k),
                (k, EntryView { id: t[key_index(t, k)].1.id, file_id: v, at }),
                k,
            );
        }
        assert(u[m] == t[m]);
        assert(t[m].0 != k) by {
            if t[m].0 == k {
                assert(key_index(t, k) >= 0 && t[key_index(t, k)].0 == k);
            }
        }
    }
    if jk > 0 {
        assert(r[jk].at.le(r[0].at));
        assert(entries(u).contains(r[0])) by {
            assert(r.contains(r[0]));
            assert(r.to_multiset().count(r[0]) > 0);
            assert(entries(u).to_multiset().count(r[0]) > 0);
        }
        let m0 = choose|m: int| 0 <= m < entries(u).len() && entries(u)[m] == r[0];
        assert(u[m0].1 == r[0]);
        if m0 != i {
            assert(u[m0].1.at.lt(at));
            assert(false);
        }
    }
}

} // verus!

