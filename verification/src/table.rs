//! The recency table: one entry per identity key, upserted on every use and
//! listed most-recent-first on demand.

use vstd::multiset::Multiset;
use vstd::prelude::*;

use crate::entry::{EntryView, StickersEntry};
use crate::ext;
use crate::time_stamp::{Timestamp, TsView};

verus! {

/// Model of the table: the keyed entries, in insertion order.
pub type TableView = Seq<(Seq<char>, EntryView)>;

/// Index of the first pair whose key is `k`, or `-1` if there is none.
pub open spec fn key_index(t: TableView, k: Seq<char>) -> int
    decreases t.len(),
{
    if t.len() == 0 {
        -1
    } else if t[0].0 == k {
        0
    } else {
        let r = key_index(t.drop_first(), k);
        if r < 0 {
            -1
        } else {
            r + 1
        }
    }
}

/// Some pair of the table has key `k`.
pub open spec fn has_key(t: TableView, k: Seq<char>) -> bool {
    key_index(t, k) >= 0
}

/// The entry stored under key `k`.
pub open spec fn entry_of(t: TableView, k: Seq<char>) -> EntryView {
    t[key_index(t, k)].1
}

/// No two pairs share a key.
pub open spec fn distinct_keys(t: TableView) -> bool {
    forall|i: int, j: int| 0 <= i < j < t.len() ==> t[i].0 != t[j].0
}

/// Table well-formedness: keys are unique and every entry's timestamp is
/// well formed.
pub open spec fn table_wf(t: TableView) -> bool {
    &&& distinct_keys(t)
    &&& forall|i: int| 0 <= i < t.len() ==> (#[trigger] t[i]).1.wf()
}

/// The effect of recording a use of key `k` under handle `fid` at time `at`:
/// if `k` is present its entry keeps its identifier and gets the new handle
/// and time; otherwise a new entry with identifier `fresh` is appended.
pub open spec fn upsert(
    t: TableView,
    k: Seq<char>,
    fresh: Seq<char>,
    fid: Seq<char>,
    at: TsView,
) -> TableView {
    let i = key_index(t, k);
    if i >= 0 {
        t.update(i, (k, EntryView { id: t[i].1.id, file_id: fid, at }))
    } else {
        t.push((k, EntryView { id: fresh, file_id: fid, at }))
    }
}

/// The entries of the table, keys dropped.
pub open spec fn entries(t: TableView) -> Seq<EntryView> {
    t.map_values(|p: (Seq<char>, EntryView)| p.1)
}

/// The views of a sequence of entries.
pub open spec fn views(s: Seq<StickersEntry>) -> Seq<EntryView> {
    s.map_values(|e: StickersEntry| e@)
}

/// Descending recency: every later element is no more recent than any
/// earlier one.
pub open spec fn sorted_desc(s: Seq<EntryView>) -> bool {
    forall|a: int, b: int| 0 <= a < b < s.len() ==> (#[trigger] s[b]).at.le(#[trigger] s[a].at)
}

/// The recency table itself: every sticker ever seen, keyed by its stable
/// identity key, each key held by exactly one pair.
pub struct Data {
    pub stickers: Vec<(String, StickersEntry)>,
}

/// The model of a vector of keyed entries.
pub open spec fn pairs_view(s: Seq<(String, StickersEntry)>) -> TableView {
    s.map_values(|p: (String, StickersEntry)| (p.0@, p.1@))
}

impl View for Data {
    type V = TableView;

    open spec fn view(&self) -> TableView {
        pairs_view(self.stickers@)
    }
}

impl Data {
    /// An empty table.
    pub fn new() -> (r: Data)
        ensures
            r@ == Seq::<(Seq<char>, EntryView)>::empty(),
            r@.len() == 0,
    {
        let r = Data { stickers: Vec::new() };
        proof {
            assert(r@ =~= Seq::<(Seq<char>, EntryView)>::empty());
        }
        r
    }

    /// How many distinct items the table holds.
    pub fn len(&self) -> (r: usize)
        ensures
            r == self@.len(),
    {
        self.stickers.len()
    }

    /// Record a use of the item named `file_unique_id`, now seen under the
    /// handle `file_id`, at time `at`; a new entry gets the identifier
    /// `id_if_new`, an existing one keeps its own.
    pub fn record_use_at(
        &mut self,
        file_unique_id: String,
        file_id: String,
        id_if_new: String,
        at: Timestamp,
    )
        ensures
            final(self)@ == upsert(old(self)@, file_unique_id@, id_if_new@, file_id@, at@),
    {
        let ghost t0 = self@;
        let ghost kv = file_unique_id@;
        let ghost fv = file_id@;
        let ghost idv = id_if_new@;
        let ghost atv = at@;
        proof {
            lemma_key_index_props(t0, kv);
        }
        match find_key(&self.stickers, &file_unique_id) {
            Some(i) => {
                proof {
                    lemma_key_index_is(t0, kv, i as int);
                }
                let (k0, e0) = self.stickers.remove(i);
                let e1 = StickersEntry { id: e0.id, file_id, last_usage_time: at };
                self.stickers.insert(i, (k0, e1));
                proof {
                    let pv = (kv, EntryView { id: t0[i as int].1.id, file_id: fv, at: atv });
                    assert(self@ =~= t0.update(i as int, pv));
                }
            },
            None => {
                let e1 = StickersEntry { id: id_if_new, file_id, last_usage_time: at };
                self.stickers.push((file_unique_id, e1));
                proof {
                    assert(key_index(t0, kv) == -1) by {
                        if key_index(t0, kv) >= 0 {
                            assert(t0[key_index(t0, kv)].0 == kv);
                        }
                    }
                    assert(self@ =~= t0.push((kv, EntryView { id: idv, file_id: fv, at: atv })));
                }
            },
        }
    }

    /// Record a use of `file_unique_id` under `file_id` at the current time,
    /// drawing a fresh identifier in case the key is new.
    pub fn record_use(&mut self, file_unique_id: String, file_id: String)
        ensures
            exists|fresh: Seq<char>, at: TsView|
                at.wf() && final(self)@ == upsert(old(self)@, file_unique_id@, fresh, file_id@, at),
    {
        let id = ext::fresh_id();
        let at = Timestamp::now();
        let ghost fresh_v = id@;
        let ghost at_v = at@;
        let ghost kv = file_unique_id@;
        let ghost fv = file_id@;
        self.record_use_at(file_unique_id, file_id, id, at);
        proof {
            assert(at_v.wf() && self@ == upsert(old(self)@, kv, fresh_v, fv, at_v));
        }
    }

    /// A snapshot of every entry, most recently used first. Entries with the
    /// same time may come in any relative order.
    pub fn list_by_recency(&self) -> (r: Vec<StickersEntry>)
        ensures
            views(r@).to_multiset() == entries(self@).to_multiset(),
            sorted_desc(views(r@)),
            r@.len() == self@.len(),
    {
        broadcast use vstd::seq_lib::group_to_multiset_ensures;

        let mut out: Vec<StickersEntry> = Vec::new();
        let n = self.stickers.len();
        let mut i: usize = 0;
        proof {
            assert(views(out@) =~= Seq::<EntryView>::empty());
            assert(entries(self@).take(0) =~= Seq::<EntryView>::empty());
        }
        while i < n
            invariant
                i <= n,
                n == self.stickers@.len(),
                out@.len() == i,
                sorted_desc(views(out@)),
                views(out@).to_multiset() == entries(self@).take(i as int).to_multiset(),
            decreases n - i,
        {
            broadcast use vstd::seq_lib::group_to_multiset_ensures;

            let p = &self.stickers[i];
            let e = p.1.clone();
            let ghost before = views(out@);
            insert_desc(&mut out, e);
            proof {
                assert(entries(self@).take(i + 1) =~= entries(self@).take(i as int).push(
                    self@[i as int].1,
                ));
                assert(e@ == self@[i as int].1);
            }
            i += 1;
        }
        proof {
            assert(entries(self@).take(n as int) =~= entries(self@));
        }
        out
    }
}

/// The position of the first pair of `v` whose key equals `k`, if any.
pub(crate) fn find_key(v: &Vec<(String, StickersEntry)>, k: &String) -> (r: Option<usize>)
    ensures
        match r {
            Some(i) => i < v@.len() && v@[i as int].0@ == k@ && (forall|j: int|
                0 <= j < i ==> (#[trigger] v@[j]).0@ != k@),
            None => forall|j: int| 0 <= j < v@.len() ==> (#[trigger] v@[j]).0@ != k@,
        },
{
    let n = v.len();
    let mut i: usize = 0;
    while i < n
        invariant
            i <= n,
            n == v@.len(),
            forall|j: int| 0 <= j < i ==> (#[trigger] v@[j]).0@ != k@,
        decreases n - i,
    {
        let p = &v[i];
        if p.0 == *k {
            return Some(i);
        }
        i += 1;
    }
    None
}

/// Insert `e` into a descending-recency sequence, keeping it sorted.
fn insert_desc(out: &mut Vec<StickersEntry>, e: StickersEntry)
    requires
        sorted_desc(views(old(out)@)),
    ensures
        sorted_desc(views(final(out)@)),
        views(final(out)@).to_multiset() == views(old(out)@).to_multiset().insert(e@),
        final(out)@.len() == old(out)@.len() + 1,
{
    let j = find_pos(out, &e);
    let ghost before = out@;
    out.insert(j, e);
    proof {
        assert(views(out@) =~= views(before).insert(j as int, e@));
        lemma_views_insert_multiset(views(before), j as int, e@);
        assert forall|a: int, b: int|
            0 <= a < b < views(out@).len() implies (#[trigger] views(out@)[b]).at.le(
            #[trigger] views(out@)[a].at) by {
            let s = views(before);
            let w = views(out@);
            if b < j {
                assert(w[a] == s[a] && w[b] == s[b]);
            } else if b == j {
                assert(w[a] == s[a]);
            } else {
                if a < j {
                    assert(w[a] == s[a] && w[b] == s[b - 1]);
                    if j < s.len() {
                        assert(s[b - 1].at.le(s[j as int].at) || b - 1 == j);
                    }
                } else if a == j {
                    assert(w[b] == s[b - 1]);
                    assert(!e@.at.le(s[j as int].at));
                    assert(s[b - 1].at.le(s[j as int].at) || b - 1 == j);
                } else {
                    assert(w[a] == s[a - 1] && w[b] == s[b - 1]);
                }
            }
        }
    }
}

/// The position before which `e` belongs in a descending-recency sequence:
/// everything before it is at least as recent as `e`, and the element at the
/// position, if any, is strictly older.
fn find_pos(out: &Vec<StickersEntry>, e: &StickersEntry) -> (j: usize)
    ensures
        j <= out@.len(),
        forall|m: int| 0 <= m < j ==> e@.at.le((#[trigger] views(out@)[m]).at),
        j < out@.len() ==> !e@.at.le(views(out@)[j as int].at),
{
    let n = out.len();
    let mut j: usize = 0;
    while j < n
        invariant
            j <= n,
            n == out@.len(),
            forall|m: int| 0 <= m < j ==> e@.at.le((#[trigger] views(out@)[m]).at),
        decreases n - j,
    {
        let p = &out[j];
        if !e.last_usage_time.le(&p.last_usage_time) {
            return j;
        }
        j += 1;
    }
    n
}

/// Inserting an element anywhere adds exactly it to the sequence's multiset.
proof fn lemma_views_insert_multiset(s: Seq<EntryView>, j: int, x: EntryView)
    requires
        0 <= j <= s.len(),
    ensures
        s.insert(j, x).to_multiset() == s.to_multiset().insert(x),
{
    broadcast use vstd::seq_lib::group_to_multiset_ensures;
    broadcast use vstd::multiset::group_multiset_axioms;

    let left = s.take(j);
    let right = s.skip(j);
    assert(s.insert(j, x) =~= left + (seq![x] + right));
    vstd::seq_lib::lemma_multiset_commutative(left, seq![x] + right);
    vstd::seq_lib::lemma_multiset_commutative(seq![x], right);
    assert(seq![x] =~= Seq::<EntryView>::empty().push(x));
    assert(seq![x].to_multiset() =~= Multiset::<EntryView>::empty().insert(x));
    assert(s =~= left + right);
    vstd::seq_lib::lemma_multiset_commutative(left, right);
    assert(s.insert(j, x).to_multiset() =~= s.to_multiset().insert(x));
}

/// `key_index` finds `i` where `i` bears `k` and no earlier pair does.
pub proof fn lemma_key_index_is(t: TableView, k: Seq<char>, i: int)
    requires
        0 <= i < t.len(),
        t[i].0 == k,
        forall|j: int| 0 <= j < i ==> (#[trigger] t[j]).0 != k,
    ensures
        key_index(t, k) == i,
    decreases t.len(),
{
    if i > 0 {
        lemma_key_index_is(t.drop_first(), k, i - 1);
        assert(forall|j: int| 0 < j < t.len() ==> #[trigger] t[j] == t.drop_first()[j - 1]);
    }
}

/// What `key_index` finds: a real index bearing `k`, before which no pair
/// bears `k`; or `-1`, and then no pair bears `k`.
pub proof fn lemma_key_index_props(t: TableView, k: Seq<char>)
    ensures
        key_index(t, k) == -1 || 0 <= key_index(t, k) < t.len(),
        key_index(t, k) >= 0 ==> t[key_index(t, k)].0 == k,
        forall|j: int| 0 <= j < t.len() && (#[trigger] t[j]).0 == k ==> key_index(t, k) >= 0,
        forall|j: int| 0 <= j < key_index(t, k) ==> (#[trigger] t[j]).0 != k,
    decreases t.len(),
{
    if t.len() > 0 && t[0].0 != k {
        lemma_key_index_props(t.drop_first(), k);
        assert(forall|j: int| 0 < j < t.len() ==> #[trigger] t[j] == t.drop_first()[j - 1]);
    }
}

/// `key_index` of a table with one pair appended.
pub proof fn lemma_key_index_push(t: TableView, p: (Seq<char>, EntryView), k: Seq<char>)
    ensures
        key_index(t.push(p), k) == if key_index(t, k) >= 0 {
            key_index(t, k)
        } else if p.0 == k {
            t.len() as int
        } else {
            -1
        },
    decreases t.len(),
{
    if t.len() == 0 {
        assert(t.push(p)[0] == p);
        assert(t.push(p).drop_first() =~= t);
    } else {
        lemma_key_index_push(t.drop_first(), p, k);
        assert(t.push(p).drop_first() =~= t.drop_first().push(p));
        assert(t.push(p)[0] == t[0]);
    }
}

/// `key_index` is unmoved by replacing a pair with one of the same key.
pub proof fn lemma_key_index_update(
    t: TableView,
    i: int,
    p: (Seq<char>, EntryView),
    k: Seq<char>,
)
    requires
        0 <= i < t.len(),
        p.0 == t[i].0,
    ensures
        key_index(t.update(i, p), k) == key_index(t, k),
    decreases t.len(),
{
    if t.len() > 0 {
        assert(t.update(i, p)[0] == if i == 0 {
            p
        } else {
            t[0]
        });
        if i == 0 {
            assert(t.update(i, p).drop_first() =~= t.drop_first());
        } else if t[0].0 != k {
            lemma_key_index_update(t.drop_first(), i - 1, p, k);
            assert(t.update(i, p).drop_first() =~= t.drop_first().update(i - 1, p));
        }
    }
}

/// An upsert keeps the table well formed, stores exactly the recorded handle
/// and time under `k` (with the old identifier where `k` was present, with
/// `fresh` where it was not), and leaves every other key's entry unchanged.
pub proof fn lemma_upsert_props(
    t: TableView,
    k: Seq<char>,
    fresh: Seq<char>,
    fid: Seq<char>,
    at: TsView,
)
    requires
        distinct_keys(t),
    ensures
        ({
            let u = upsert(t, k, fresh, fid, at);
            &&& distinct_keys(u)
            &&& has_key(u, k)
            &&& entry_of(u, k).file_id == fid
            &&& entry_of(u, k).at == at
            &&& entry_of(u, k).id == if has_key(t, k) {
                entry_of(t, k).id
            } else {
                fresh
            }
            &&& u.len() == if has_key(t, k) {
                t.len()
            } else {
                t.len() + 1
            }
            &&& forall|k2: Seq<char>| k2 != k ==> #[trigger] key_index(u, k2) == key_index(t, k2)
            &&& forall|k2: Seq<char>|
                k2 != k && has_key(t, k2) ==> #[trigger] entry_of(u, k2) == entry_of(t, k2)
            &&& (table_wf(t) && at.wf() ==> table_wf(u))
        }),
{
    let u = upsert(t, k, fresh, fid, at);
    lemma_key_index_props(t, k);
    let i = key_index(t, k);
    if i >= 0 {
        let p = (k, EntryView { id: t[i].1.id, file_id: fid, at });
        lemma_key_index_update(t, i, p, k);
        assert forall|k2: Seq<char>| k2 != k implies #[trigger] key_index(u, k2) == key_index(
            t,
            k2,
        ) by {
            lemma_key_index_update(t, i, p, k2);
        }
        assert forall|k2: Seq<char>| k2 != k && has_key(t, k2) implies #[trigger] entry_of(u, k2)
            == entry_of(t, k2) by {
            lemma_key_index_props(t, k2);
            lemma_key_index_props(u, k2);
        }
    } else {
        let p = (k, EntryView { id: fresh, file_id: fid, at });
        lemma_key_index_push(t, p, k);
        assert(u[t.len() as int] == p);
        assert forall|k2: Seq<char>| k2 != k implies #[trigger] key_index(u, k2) == key_index(
            t,
            k2,
        ) by {
            lemma_key_index_push(t, p, k2);
        }
        assert forall|k2: Seq<char>| k2 != k && has_key(t, k2) implies #[trigger] entry_of(u, k2)
            == entry_of(t, k2) by {
            lemma_key_index_props(t, k2);
            lemma_key_index_props(u, k2);
            assert(u[key_index(t, k2)] == t[key_index(t, k2)]);
        }
        assert forall|a: int, b: int| 0 <= a < b < u.len() implies u[a].0 != u[b].0 by {
            if b == t.len() as int {
                assert(u[a] == t[a]);
                assert(t[a].0 != k);
            } else {
                assert(u[a] == t[a] && u[b] == t[b]);
            }
        }
    }
}

} // verus!
