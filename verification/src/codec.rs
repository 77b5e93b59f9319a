//! The snapshot text: a JSON-shaped record holding one object per entry,
//! keyed by identity key, with the fields `id`, `file_id` and
//! `last_usage_time`. Strings escape the quote and the backslash; the writer
//! always produces this one canonical form and the reader accepts exactly it,
//! so a snapshot determines its table and every table round-trips.

use vstd::prelude::*;

use crate::entry::{EntryView, StickersEntry};
use crate::ext;
use crate::table::{find_key, pairs_view, table_wf, Data, TableView};
use crate::time_stamp::{Timestamp, TsView};

verus! {

/// How one character is written inside a quoted string: quote and backslash
/// get a backslash before them, everything else stands as itself.
pub open spec fn esc_char(c: char) -> Seq<char> {
    if c == '"' || c == '\\' {
        seq!['\\', c]
    } else {
        seq![c]
    }
}

/// How a whole string is written inside quotes.
pub open spec fn esc(s: Seq<char>) -> Seq<char>
    decreases s.len(),
{
    if s.len() == 0 {
        Seq::empty()
    } else {
        esc_char(s[0]) + esc(s.drop_first())
    }
}

/// The opening of the snapshot record.
pub open spec fn lit_header() -> Seq<char> {
    seq!['{', '"', 's', 't', 'i', 'c', 'k', 'e', 'r', 's', '"', ':', '{']
}

/// Between a key and its entry's identifier.
pub open spec fn lit_id() -> Seq<char> {
    seq![':', '{', '"', 'i', 'd', '"', ':', '"']
}

/// Between the identifier and the handle.
pub open spec fn lit_fid() -> Seq<char> {
    seq![',', '"', 'f', 'i', 'l', 'e', '_', 'i', 'd', '"', ':', '"']
}

/// Between the handle and the time of last use.
pub open spec fn lit_ts() -> Seq<char> {
    seq![',', '"', 'l', 'a', 's', 't', '_', 'u', 's', 'a', 'g', 'e', '_', 't', 'i', 'm', 'e', '"',
        ':', '"']
}

/// A string's written form up to and including its closing quote.
pub open spec fn quoted(s: Seq<char>) -> Seq<char> {
    esc(s) + seq!['"']
}

/// One entry of the snapshot: the quoted key, then the three quoted fields.
pub open spec fn entry_json(p: (Seq<char>, EntryView)) -> Seq<char> {
    seq!['"'] + (quoted(p.0) + (lit_id() + (quoted(p.1.id) + (lit_fid() + (quoted(p.1.file_id) + (
    lit_ts() + (quoted(p.1.at.text) + seq!['}'])))))))
}

/// The entries of the snapshot, comma-separated, in table order.
pub open spec fn entries_json(t: TableView) -> Seq<char>
    decreases t.len(),
{
    if t.len() == 0 {
        Seq::empty()
    } else if t.len() == 1 {
        entry_json(t[0])
    } else {
        entry_json(t[0]) + seq![','] + entries_json(t.drop_first())
    }
}

/// The whole snapshot of a table.
pub open spec fn spec_json(t: TableView) -> Seq<char> {
    lit_header() + entries_json(t) + seq!['}', '}']
}

/// Escaping a string one character longer appends that character's escape.
proof fn lemma_esc_push(s: Seq<char>, c: char)
    ensures
        esc(s.push(c)) == esc(s) + esc_char(c),
    decreases s.len(),
{
    if s.len() == 0 {
        assert(s.push(c)[0] == c);
        assert(s.push(c).drop_first() =~= s);
        assert(esc(s.push(c)) == esc_char(c) + esc(s));
        assert(esc(s) =~= Seq::<char>::empty());
        assert(esc(s.push(c)) =~= esc(s) + esc_char(c));
    } else {
        lemma_esc_push(s.drop_first(), c);
        assert(s.push(c).drop_first() =~= s.drop_first().push(c));
        assert(s.push(c)[0] == s[0]);
        assert(esc(s.push(c)) == esc_char(s[0]) + esc(s.drop_first().push(c)));
        assert(esc(s.push(c)) =~= esc(s) + esc_char(c));
    }
}

/// An escaped string followed by a closing quote decomposes in only one way:
/// if some prefix of the same text also reads as an escaped string, the two
/// strings agree as far as the shorter runs, and so do the remainders.
proof fn lemma_esc_prefix(acc: Seq<char>, s: Seq<char>, t1: Seq<char>, t2: Seq<char>)
    requires
        esc(acc) + t1 == esc(s) + seq!['"'] + t2,
    ensures
        acc.is_prefix_of(s),
        t1 == esc(s.skip(acc.len() as int)) + seq!['"'] + t2,
    decreases acc.len(),
{
    let w = esc(acc) + t1;
    if acc.len() == 0 {
        assert(esc(acc) =~= Seq::<char>::empty());
        assert(acc.is_prefix_of(s));
        assert(s.skip(0) =~= s);
        assert(t1 =~= esc(acc) + t1);
    } else {
        let a = acc[0];
        assert(esc(acc) == esc_char(a) + esc(acc.drop_first()));
        assert(w[0] == esc_char(a)[0]);
        if s.len() == 0 {
            assert(esc(s) =~= Seq::<char>::empty());
            assert(w == seq!['"'] + t2);
            assert(w[0] == '"');
            assert(esc_char(a)[0] != '"');
            assert(false);
        }
        let b = s[0];
        assert(esc(s) == esc_char(b) + esc(s.drop_first()));
        assert(w == esc_char(b) + (esc(s.drop_first()) + seq!['"'] + t2));
        assert(w[0] == esc_char(b)[0]);
        assert(a == b) by {
            if a == '"' || a == '\\' {
                assert(esc_char(a)[0] == '\\');
                if b != '"' && b != '\\' {
                    assert(esc_char(b)[0] == b);
                    assert(b == '\\');
                    assert(false);
                }
                assert(w[1] == esc_char(a)[1] && w[1] == esc_char(b)[1]);
                assert(esc_char(a)[1] == a && esc_char(b)[1] == b);
            } else {
                assert(esc_char(a)[0] == a);
                if b == '"' || b == '\\' {
                    assert(esc_char(b)[0] == '\\');
                    assert(a == '\\');
                    assert(false);
                }
                assert(esc_char(b)[0] == b);
            }
        }
        assert(esc_char(a) == esc_char(b));
        assert(esc_char(a) + (esc(acc.drop_first()) + t1) == esc_char(a) + (esc(s.drop_first())
            + seq!['"'] + t2)) by {
            assert(w =~= esc_char(a) + (esc(acc.drop_first()) + t1));
            assert(w =~= esc_char(a) + (esc(s.drop_first()) + seq!['"'] + t2));
        }
        assert(esc(acc.drop_first()) + t1 == esc(s.drop_first()) + seq!['"'] + t2) by {
            let lhs = esc(acc.drop_first()) + t1;
            let rhs = esc(s.drop_first()) + seq!['"'] + t2;
            let n = esc_char(a).len();
            assert((esc_char(a) + lhs).skip(n as int) =~= lhs);
            assert((esc_char(a) + rhs).skip(n as int) =~= rhs);
        }
        lemma_esc_prefix(acc.drop_first(), s.drop_first(), t1, t2);
        assert(acc.drop_first().is_prefix_of(s.drop_first()));
        assert(acc.is_prefix_of(s)) by {
            assert(acc =~= seq![a] + acc.drop_first());
            assert(forall|j: int| 0 <= j < acc.drop_first().len() ==> #[trigger] acc.drop_first()[j]
                == s.drop_first()[j]);
            assert(forall|j: int| 0 < j < acc.len() ==> #[trigger] acc[j] == acc.drop_first()[j - 1]);
            assert(acc =~= s.take(acc.len() as int));
        }
        assert(s.drop_first().skip(acc.drop_first().len() as int) =~= s.skip(acc.len() as int));
    }
}

/// Two escaped-string decompositions of one text are the same string and the
/// same remainder.
proof fn lemma_esc_unique(s1: Seq<char>, s2: Seq<char>, t1: Seq<char>, t2: Seq<char>)
    requires
        esc(s1) + seq!['"'] + t1 == esc(s2) + seq!['"'] + t2,
    ensures
        s1 == s2,
        t1 == t2,
{
    assert(esc(s1) + (seq!['"'] + t1) =~= esc(s1) + seq!['"'] + t1);
    lemma_esc_prefix(s1, s2, seq!['"'] + t1, t2);
    assert(s1.is_prefix_of(s2));
    if s1.len() < s2.len() {
        let u = s2.skip(s1.len() as int);
        assert(u.len() > 0);
        assert(esc(u) == esc_char(u[0]) + esc(u.drop_first()));
        assert((seq!['"'] + t1)[0] == '"');
        assert((esc(u) + seq!['"'] + t2)[0] == esc_char(u[0])[0]);
        assert(esc_char(u[0])[0] != '"');
        assert(seq!['"'] + t1 =~= esc(u) + seq!['"'] + t2);
        assert(false);
    }
    assert(s1 =~= s2);
    let u = s2.skip(s1.len() as int);
    assert(u.len() == 0);
    assert(esc(u) =~= Seq::<char>::empty());
    assert(seq!['"'] + t1 == esc(u) + seq!['"'] + t2);
    assert(seq!['"'] + t1 =~= seq!['"'] + t2);
    assert(t1 =~= (seq!['"'] + t1).drop_first());
    assert(t2 =~= (seq!['"'] + t2).drop_first());
}

/// The four textual fields of an entry pair: everything its snapshot form
/// shows (the instant's seconds and nanoseconds are not written; the text
/// names them).
pub(crate) open spec fn raw_eq(p: (Seq<char>, EntryView), q: (Seq<char>, EntryView)) -> bool {
    &&& p.0 == q.0
    &&& p.1.id == q.1.id
    &&& p.1.file_id == q.1.file_id
    &&& p.1.at.text == q.1.at.text
}

/// Equal prefixes cancel.
proof fn lemma_strip(x: Seq<char>, a: Seq<char>, b: Seq<char>)
    requires
        x + a == x + b,
    ensures
        a == b,
{
    assert(a =~= (x + a).skip(x.len() as int));
    assert(b =~= (x + b).skip(x.len() as int));
}

/// Concatenation regroups.
proof fn lemma_add_assoc(a: Seq<char>, b: Seq<char>, c: Seq<char>)
    ensures
        (a + b) + c == a + (b + c),
{
    assert((a + b) + c =~= a + (b + c));
}

/// A quoted string cancels against a quoted string.
proof fn lemma_peel_quoted(s1: Seq<char>, s2: Seq<char>, a1: Seq<char>, a2: Seq<char>)
    requires
        quoted(s1) + a1 == quoted(s2) + a2,
    ensures
        s1 == s2,
        a1 == a2,
{
    lemma_esc_unique(s1, s2, a1, a2);
}

/// One snapshot text reads as at most one entry: two entry decompositions of
/// the same text agree on every written field and on the remainder.
proof fn lemma_entry_json_parts(
    p1: (Seq<char>, EntryView),
    p2: (Seq<char>, EntryView),
    r1: Seq<char>,
    r2: Seq<char>,
)
    requires
        entry_json(p1) + r1 == entry_json(p2) + r2,
    ensures
        raw_eq(p1, p2),
        r1 == r2,
{
    let ka = quoted(p1.0) + (lit_id() + (quoted(p1.1.id) + (lit_fid() + (quoted(p1.1.file_id) + (
    lit_ts() + (quoted(p1.1.at.text) + seq!['}']))))));
    let kb = quoted(p2.0) + (lit_id() + (quoted(p2.1.id) + (lit_fid() + (quoted(p2.1.file_id) + (
    lit_ts() + (quoted(p2.1.at.text) + seq!['}']))))));
    lemma_add_assoc(seq!['"'], ka, r1);
    lemma_add_assoc(seq!['"'], kb, r2);
    lemma_strip(seq!['"'], ka + r1, kb + r2);
    let ia = lit_id() + (quoted(p1.1.id) + (lit_fid() + (quoted(p1.1.file_id) + (lit_ts() + (
    quoted(p1.1.at.text) + seq!['}'])))));
    let ib = lit_id() + (quoted(p2.1.id) + (lit_fid() + (quoted(p2.1.file_id) + (lit_ts() + (
    quoted(p2.1.at.text) + seq!['}'])))));
    lemma_add_assoc(quoted(p1.0), ia, r1);
    lemma_add_assoc(quoted(p2.0), ib, r2);
    lemma_peel_quoted(p1.0, p2.0, ia + r1, ib + r2);
    let ja = quoted(p1.1.id) + (lit_fid() + (quoted(p1.1.file_id) + (lit_ts() + (quoted(
        p1.1.at.text,
    ) + seq!['}']))));
    let jb = quoted(p2.1.id) + (lit_fid() + (quoted(p2.1.file_id) + (lit_ts() + (quoted(
        p2.1.at.text,
    ) + seq!['}']))));
    lemma_add_assoc(lit_id(), ja, r1);
    lemma_add_assoc(lit_id(), jb, r2);
    lemma_strip(lit_id(), ja + r1, jb + r2);
    let fa = lit_fid() + (quoted(p1.1.file_id) + (lit_ts() + (quoted(p1.1.at.text) + seq!['}'])));
    let fb = lit_fid() + (quoted(p2.1.file_id) + (lit_ts() + (quoted(p2.1.at.text) + seq!['}'])));
    lemma_add_assoc(quoted(p1.1.id), fa, r1);
    lemma_add_assoc(quoted(p2.1.id), fb, r2);
    lemma_peel_quoted(p1.1.id, p2.1.id, fa + r1, fb + r2);
    let ga = quoted(p1.1.file_id) + (lit_ts() + (quoted(p1.1.at.text) + seq!['}']));
    let gb = quoted(p2.1.file_id) + (lit_ts() + (quoted(p2.1.at.text) + seq!['}']));
    lemma_add_assoc(lit_fid(), ga, r1);
    lemma_add_assoc(lit_fid(), gb, r2);
    lemma_strip(lit_fid(), ga + r1, gb + r2);
    let ha = lit_ts() + (quoted(p1.1.at.text) + seq!['}']);
    let hb = lit_ts() + (quoted(p2.1.at.text) + seq!['}']);
    lemma_add_assoc(quoted(p1.1.file_id), ha, r1);
    lemma_add_assoc(quoted(p2.1.file_id), hb, r2);
    lemma_peel_quoted(p1.1.file_id, p2.1.file_id, ha + r1, hb + r2);
    let ma = quoted(p1.1.at.text) + seq!['}'];
    let mb = quoted(p2.1.at.text) + seq!['}'];
    lemma_add_assoc(lit_ts(), ma, r1);
    lemma_add_assoc(lit_ts(), mb, r2);
    lemma_strip(lit_ts(), ma + r1, mb + r2);
    lemma_add_assoc(quoted(p1.1.at.text), seq!['}'], r1);
    lemma_add_assoc(quoted(p2.1.at.text), seq!['}'], r2);
    lemma_peel_quoted(p1.1.at.text, p2.1.at.text, seq!['}'] + r1, seq!['}'] + r2);
    lemma_strip(seq!['}'], r1, r2);
}

/// One snapshot text reads as at most one entry list: two comma-separated
/// decompositions that end at the same closing brace are entrywise equal on
/// every written field.
proof fn lemma_entries_json_unique(t1: TableView, t2: TableView, r1: Seq<char>, r2: Seq<char>)
    requires
        entries_json(t1) + seq!['}'] + r1 == entries_json(t2) + seq!['}'] + r2,
    ensures
        t1.len() == t2.len(),
        forall|i: int| 0 <= i < t1.len() ==> raw_eq(#[trigger] t1[i], t2[i]),
        r1 == r2,
    decreases t1.len(),
{
    let w = entries_json(t1) + seq!['}'] + r1;
    if t1.len() == 0 && t2.len() == 0 {
        assert(entries_json(t1) =~= Seq::<char>::empty());
        assert(entries_json(t2) =~= Seq::<char>::empty());
        assert(seq!['}'] + r1 =~= w);
        assert(seq!['}'] + r2 =~= w);
        lemma_strip(seq!['}'], r1, r2);
    } else if t1.len() == 0 {
        assert(entries_json(t1) =~= Seq::<char>::empty());
        assert(w[0] == '}');
        assert(entry_json(t2[0])[0] == '"');
        assert(w[0] == entry_json(t2[0])[0]) by {
            if t2.len() == 1 {
                assert(entries_json(t2) == entry_json(t2[0]));
            }
        }
        assert(false);
    } else if t2.len() == 0 {
        assert(entries_json(t2) =~= Seq::<char>::empty());
        assert(w[0] == '}');
        assert(entry_json(t1[0])[0] == '"');
        assert(w[0] == entry_json(t1[0])[0]) by {
            if t1.len() == 1 {
                assert(entries_json(t1) == entry_json(t1[0]));
            }
        }
        assert(false);
    } else {
        let x1 = if t1.len() == 1 {
            seq!['}'] + r1
        } else {
            seq![','] + entries_json(t1.drop_first()) + seq!['}'] + r1
        };
        let x2 = if t2.len() == 1 {
            seq!['}'] + r2
        } else {
            seq![','] + entries_json(t2.drop_first()) + seq!['}'] + r2
        };
        assert(w =~= entry_json(t1[0]) + x1);
        assert(w =~= entry_json(t2[0]) + x2);
        lemma_entry_json_parts(t1[0], t2[0], x1, x2);
        if t1.len() == 1 && t2.len() == 1 {
            lemma_strip(seq!['}'], r1, r2);
        } else if t1.len() == 1 {
            assert(x1[0] == '}' && x2[0] == ',');
            assert(false);
        } else if t2.len() == 1 {
            assert(x1[0] == ',' && x2[0] == '}');
            assert(false);
        } else {
            let y1 = entries_json(t1.drop_first()) + seq!['}'] + r1;
            let y2 = entries_json(t2.drop_first()) + seq!['}'] + r2;
            assert(x1 =~= seq![','] + y1);
            assert(x2 =~= seq![','] + y2);
            lemma_strip(seq![','], y1, y2);
            lemma_entries_json_unique(t1.drop_first(), t2.drop_first(), r1, r2);
            assert forall|i: int| 0 <= i < t1.len() implies raw_eq(#[trigger] t1[i], t2[i]) by {
                if i > 0 {
                    assert(raw_eq(t1.drop_first()[i - 1], t2.drop_first()[i - 1]));
                }
            }
        }
    }
}

/// Round trip: a snapshot pins its table down. Two well-formed tables with
/// the same snapshot text are equal, so reading a saved table back (which
/// [`Data::from_json`] promises to do, and to accept) yields the table that
/// was saved, field for field.
pub proof fn lemma_snapshot_round_trip(t1: TableView, t2: TableView)
    requires
        table_wf(t1),
        table_wf(t2),
        spec_json(t1) == spec_json(t2),
    ensures
        t1 == t2,
{
    let w1 = entries_json(t1) + seq!['}'] + seq!['}'];
    let w2 = entries_json(t2) + seq!['}'] + seq!['}'];
    assert(spec_json(t1) =~= lit_header() + w1);
    assert(spec_json(t2) =~= lit_header() + w2);
    lemma_strip(lit_header(), w1, w2);
    lemma_entries_json_unique(t1, t2, seq!['}'], seq!['}']);
    assert forall|i: int| 0 <= i < t1.len() implies #[trigger] t1[i] == t2[i] by {
        assert(raw_eq(t1[i], t2[i]));
        assert(t1[i].1.at.wf() && t2[i].1.at.wf());
        assert(t1[i].1.at =~= t2[i].1.at);
        assert(t1[i].1 =~= t2[i].1);
    }
    assert(t1 =~= t2);
}

/// Escaping distributes over concatenation.
proof fn lemma_esc_concat(a: Seq<char>, b: Seq<char>)
    ensures
        esc(a + b) == esc(a) + esc(b),
    decreases a.len(),
{
    if a.len() == 0 {
        assert(a + b =~= b);
        assert(esc(a) =~= Seq::<char>::empty());
        assert(esc(a + b) =~= esc(a) + esc(b));
    } else {
        assert((a + b)[0] == a[0]);
        assert((a + b).drop_first() =~= a.drop_first() + b);
        lemma_esc_concat(a.drop_first(), b);
        assert(esc(a + b) == esc_char(a[0]) + (esc(a.drop_first()) + esc(b)));
        assert(esc(a + b) =~= esc(a) + esc(b));
    }
}

/// The separator written before entry `m`.
pub(crate) open spec fn sep(m: int) -> Seq<char> {
    if m == 0 {
        Seq::empty()
    } else {
        seq![',']
    }
}

/// What follows entry `m` of the list: nothing if it is the last, otherwise
/// a comma and the remaining entries.
pub(crate) open spec fn tail_json(t: TableView, m: int) -> Seq<char> {
    if m + 1 == t.len() {
        Seq::empty()
    } else {
        seq![','] + entries_json(t.skip(m + 1))
    }
}

/// The entry list splits at any position: what stands before entry `m`, the
/// entry itself, and what follows it.
proof fn lemma_entries_split(t: TableView, m: int)
    requires
        0 <= m < t.len(),
    ensures
        entries_json(t) == entries_json(t.take(m)) + sep(m) + entry_json(t[m]) + tail_json(t, m),
    decreases m,
{
    if m == 0 {
        assert(t.take(0) =~= Seq::<(Seq<char>, EntryView)>::empty());
        assert(entries_json(t.take(0)) =~= Seq::<char>::empty());
        if t.len() == 1 {
            assert(entries_json(t) == entry_json(t[0]));
            assert(entries_json(t) =~= entries_json(t.take(0)) + sep(0) + entry_json(t[0])
                + tail_json(t, 0));
        } else {
            assert(entries_json(t) == entry_json(t[0]) + seq![','] + entries_json(t.drop_first()));
            assert(t.skip(1) =~= t.drop_first());
            assert(entries_json(t) =~= entries_json(t.take(0)) + sep(0) + entry_json(t[0])
                + tail_json(t, 0));
        }
    } else {
        let d = t.drop_first();
        assert(t.len() >= 2);
        assert(entries_json(t) == entry_json(t[0]) + seq![','] + entries_json(d));
        lemma_entries_split(d, m - 1);
        assert(d[m - 1] == t[m]);
        assert(d.skip(m) =~= t.skip(m + 1));
        assert(tail_json(d, m - 1) == tail_json(t, m));
        assert(d.take(m - 1) =~= t.take(m).drop_first());
        if m == 1 {
            assert(entries_json(d.take(0)) =~= Seq::<char>::empty());
            assert(t.take(1)[0] == t[0]);
            assert(entries_json(t.take(1)) == entry_json(t[0]));
            assert(entries_json(t) =~= entries_json(t.take(m)) + sep(m) + entry_json(t[m])
                + tail_json(t, m));
        } else {
            assert(t.take(m)[0] == t[0]);
            assert(entries_json(t.take(m)) == entry_json(t[0]) + seq![','] + entries_json(
                t.take(m).drop_first(),
            ));
            assert(entries_json(t.take(m).drop_first()) == entries_json(d.take(m - 1)));
            assert(entries_json(t) =~= entries_json(t.take(m)) + sep(m) + entry_json(t[m])
                + tail_json(t, m));
        }
    }
}

/// `pat` stands in `v` at position `i`.
fn expect(v: &Vec<char>, i: usize, pat: &Vec<char>) -> (r: bool)
    requires
        i <= v@.len(),
    ensures
        r <==> (i + pat@.len() <= v@.len() && v@.subrange(i as int, i + pat@.len()) == pat@),
{
    let m = pat.len();
    let vn = v.len();
    if m > vn - i {
        proof {
            assert(i + pat@.len() > v@.len());
        }
        return false;
    }
    let mut j: usize = 0;
    while j < m
        invariant
            j <= m,
            m == pat@.len(),
            vn == v@.len(),
            i + m <= vn,
            forall|x: int| 0 <= x < j ==> v@[i + x] == pat@[x],
        decreases m - j,
    {
        if v[i + j] != pat[j] {
            proof {
                assert(v@.subrange(i as int, i + pat@.len()) != pat@) by {
                    assert(v@.subrange(i as int, i + pat@.len())[j as int] == v@[i + j]);
                }
            }
            return false;
        }
        j += 1;
    }
    proof {
        assert(v@.subrange(i as int, i + pat@.len()) =~= pat@);
    }
    true
}

/// Append `pat` to `out`.
fn push_seq(out: &mut Vec<char>, pat: &Vec<char>)
    ensures
        final(out)@ == old(out)@ + pat@,
{
    let m = pat.len();
    let mut j: usize = 0;
    while j < m
        invariant
            j <= m,
            m == pat@.len(),
            out@ == old(out)@ + pat@.take(j as int),
        decreases m - j,
    {
        out.push(pat[j]);
        proof {
            assert(pat@.take(j + 1) =~= pat@.take(j as int).push(pat@[j as int]));
            assert(out@ =~= old(out)@ + pat@.take(j + 1));
        }
        j += 1;
    }
    proof {
        assert(pat@.take(m as int) =~= pat@);
    }
}

/// Append the quoted form of `s` — its escape and the closing quote.
fn push_quoted(out: &mut Vec<char>, s: &String)
    ensures
        final(out)@ == old(out)@ + quoted(s@),
{
    let cs = ext::str_to_chars(s.as_str());
    let m = cs.len();
    let mut j: usize = 0;
    proof {
        assert(esc(s@.take(0)) =~= Seq::<char>::empty());
        assert(out@ =~= old(out)@ + esc(s@.take(0)));
    }
    while j < m
        invariant
            j <= m,
            m == s@.len(),
            cs@ == s@,
            out@ == old(out)@ + esc(s@.take(j as int)),
        decreases m - j,
    {
        let c = cs[j];
        if c == '"' || c == '\\' {
            out.push('\\');
        }
        out.push(c);
        proof {
            lemma_esc_push(s@.take(j as int), c);
            assert(s@.take(j + 1) =~= s@.take(j as int).push(c));
            assert(out@ =~= old(out)@ + esc(s@.take(j + 1)));
        }
        j += 1;
    }
    out.push('"');
    proof {
        assert(s@.take(m as int) =~= s@);
        assert(out@ =~= old(out)@ + quoted(s@));
    }
}

/// Append the snapshot form of one entry.
fn push_entry(
    out: &mut Vec<char>,
    key: &String,
    e: &StickersEntry,
    lit_id_v: &Vec<char>,
    lit_fid_v: &Vec<char>,
    lit_ts_v: &Vec<char>,
)
    requires
        lit_id_v@ == lit_id(),
        lit_fid_v@ == lit_fid(),
        lit_ts_v@ == lit_ts(),
    ensures
        final(out)@ == old(out)@ + entry_json((key@, e@)),
{
    let ghost b = out@;
    out.push('"');
    let ghost a0 = out@;
    proof {
        assert(a0 =~= b + seq!['"']);
    }
    push_quoted(out, key);
    let ghost a1 = out@;
    push_seq(out, lit_id_v);
    let ghost a2 = out@;
    push_quoted(out, &e.id);
    let ghost a3 = out@;
    push_seq(out, lit_fid_v);
    let ghost a4 = out@;
    push_quoted(out, &e.file_id);
    let ghost a5 = out@;
    push_seq(out, lit_ts_v);
    let ghost a6 = out@;
    push_quoted(out, e.last_usage_time.text());
    let ghost a7 = out@;
    out.push('}');
    proof {
        let rb = seq!['}'];
        assert(out@ =~= a7 + rb);
        let qt = quoted(e@.at.text);
        let qf = quoted(e@.file_id);
        let qi = quoted(e@.id);
        let qk = quoted(key@);
        let t9 = qt + rb;
        let t8 = lit_ts() + t9;
        let t7 = qf + t8;
        let t6 = lit_fid() + t7;
        let t5 = qi + t6;
        let t4 = lit_id() + t5;
        let t3 = qk + t4;
        lemma_add_assoc(a6, qt, rb);
        lemma_add_assoc(a5, lit_ts(), t9);
        lemma_add_assoc(a4, qf, t8);
        lemma_add_assoc(a3, lit_fid(), t7);
        lemma_add_assoc(a2, qi, t6);
        lemma_add_assoc(a1, lit_id(), t5);
        lemma_add_assoc(a0, qk, t4);
        lemma_add_assoc(b, seq!['"'], t3);
        assert(out@ == b + (seq!['"'] + t3));
        assert(seq!['"'] + t3 == entry_json((key@, e@)));
    }
}

/// The quoted form of `s` — escape then closing quote — stands in `v` at `i`.
pub(crate) open spec fn is_quoted_at(v: Seq<char>, i: int, s: Seq<char>) -> bool {
    &&& 0 <= i
    &&& i + quoted(s).len() <= v.len()
    &&& v.subrange(i, i + quoted(s).len() as int) == quoted(s)
}

/// What the scanner knows mid-string: with `esc(acc)` consumed between
/// `start` and `cur`, any quoted string at `start` continues at `cur` with
/// the escape of its unread remainder, then its closing quote.
proof fn lemma_scan_state(v: Seq<char>, start: int, cur: int, acc: Seq<char>, s: Seq<char>)
    requires
        0 <= start <= cur <= v.len(),
        v.subrange(start, cur) == esc(acc),
        is_quoted_at(v, start, s),
        acc.is_prefix_of(s),
    ensures
        ({
            let u = s.skip(acc.len() as int);
            &&& cur + esc(u).len() + 1 <= v.len()
            &&& v.subrange(cur, cur + esc(u).len() + 1) == esc(u) + seq!['"']
        }),
{
    let u = s.skip(acc.len() as int);
    assert(s =~= acc + u);
    lemma_esc_concat(acc, u);
    let q = quoted(s);
    assert(q =~= esc(acc) + (esc(u) + seq!['"']));
    assert(cur - start == esc(acc).len());
    assert(start + q.len() == cur + esc(u).len() + 1);
    assert forall|x: int| 0 <= x < esc(u).len() + 1 implies v[cur + x] == (esc(u) + seq!['"'])[x]
        by {
        assert(v[cur + x] == v.subrange(start, start + q.len() as int)[(cur - start) + x]);
        assert(q[(cur - start) + x] == (esc(acc) + (esc(u) + seq!['"']))[(cur - start) + x]);
    }
    assert(v.subrange(cur, cur + esc(u).len() + 1) =~= esc(u) + seq!['"']);
}

/// Read one quoted string starting just past its opening quote: the escaped
/// characters up to and including the closing quote. Succeeds with the
/// string and the position after the quote exactly when some quoted string
/// stands at `start`.
fn scan_string(v: &Vec<char>, start: usize) -> (r: Option<(Vec<char>, usize)>)
    requires
        start <= v@.len(),
    ensures
        match r {
            Some(p) => {
                &&& start <= p.1 <= v@.len()
                &&& p.1 == start + quoted(p.0@).len()
                &&& v@.subrange(start as int, p.1 as int) == quoted(p.0@)
            },
            None => forall|s: Seq<char>| !is_quoted_at(v@, start as int, s),
        },
{
    let n = v.len();
    let mut acc: Vec<char> = Vec::new();
    let mut cur = start;
    proof {
        assert(esc(acc@) =~= Seq::<char>::empty());
        assert(v@.subrange(start as int, cur as int) =~= esc(acc@));
    }
    while cur < n
        invariant
            start <= cur <= n,
            n == v@.len(),
            v@.subrange(start as int, cur as int) == esc(acc@),
            forall|s: Seq<char>|
                #[trigger] is_quoted_at(v@, start as int, s) ==> acc@.is_prefix_of(s),
        decreases n - cur,
    {
        let c = v[cur];
        if c == '"' {
            proof {
                assert(v@.subrange(start as int, cur + 1) =~= quoted(acc@));
            }
            return Some((acc, cur + 1));
        }
        if c == '\\' {
            if cur + 1 == n {
                proof {
                    assert forall|s: Seq<char>| !is_quoted_at(v@, start as int, s) by {
                        if is_quoted_at(v@, start as int, s) {
                            lemma_scan_state(v@, start as int, cur as int, acc@, s);
                            let u = s.skip(acc@.len() as int);
                            let w = esc(u) + seq!['"'];
                            assert(v@[cur as int] == w[0]);
                            if u.len() == 0 {
                                assert(esc(u) =~= Seq::<char>::empty());
                                assert(w[0] == '"');
                            } else {
                                assert(esc(u) == esc_char(u[0]) + esc(u.drop_first()));
                                assert(w[0] == esc_char(u[0])[0]);
                                assert(u[0] == '"' || u[0] == '\\');
                                assert(esc(u).len() >= 2);
                                assert(cur + 2 <= n);
                            }
                        }
                    }
                }
                return None;
            }
            let d = v[cur + 1];
            if d == '"' || d == '\\' {
                let ghost acc0 = acc@;
                acc.push(d);
                proof {
                    lemma_esc_push(acc0, d);
                    assert(esc_char(d) =~= seq!['\\', d]);
                    assert(v@.subrange(start as int, cur + 2) =~= esc(acc@));
                    assert forall|s: Seq<char>|
                        #[trigger] is_quoted_at(v@, start as int, s) implies acc@.is_prefix_of(
                        s) by {
                        lemma_scan_state(v@, start as int, cur as int, acc0, s);
                        let u = s.skip(acc0.len() as int);
                        let w = esc(u) + seq!['"'];
                        assert(v@[cur as int] == w[0]);
                        if u.len() == 0 {
                            assert(esc(u) =~= Seq::<char>::empty());
                            assert(w[0] == '"');
                            assert(false);
                        }
                        assert(esc(u) == esc_char(u[0]) + esc(u.drop_first()));
                        assert(w[0] == esc_char(u[0])[0]);
                        assert(u[0] == '"' || u[0] == '\\');
                        assert(w[1] == esc_char(u[0])[1] && esc_char(u[0])[1] == u[0]);
                        assert(v@[cur + 1] == w[1]);
                        assert(u[0] == d);
                        assert(acc@ =~= acc0.push(d));
                        assert(s =~= acc0 + u);
                        assert(acc@.is_prefix_of(s)) by {
                            assert(acc@ =~= s.take(acc@.len() as int));
                        }
                    }
                }
                cur = cur + 2;
            } else {
                proof {
                    assert forall|s: Seq<char>| !is_quoted_at(v@, start as int, s) by {
                        if is_quoted_at(v@, start as int, s) {
                            lemma_scan_state(v@, start as int, cur as int, acc@, s);
                            let u = s.skip(acc@.len() as int);
                            let w = esc(u) + seq!['"'];
                            assert(v@[cur as int] == w[0]);
                            if u.len() == 0 {
                                assert(esc(u) =~= Seq::<char>::empty());
                                assert(w[0] == '"');
                            } else {
                                assert(esc(u) == esc_char(u[0]) + esc(u.drop_first()));
                                assert(w[0] == esc_char(u[0])[0]);
                                assert(u[0] == '"' || u[0] == '\\');
                                assert(w[1] == esc_char(u[0])[1] && esc_char(u[0])[1] == u[0]);
                                assert(v@[cur + 1] == w[1]);
                                assert(d == u[0]);
                            }
                        }
                    }
                }
                return None;
            }
        } else {
            let ghost acc0 = acc@;
            acc.push(c);
            proof {
                lemma_esc_push(acc0, c);
                assert(esc_char(c) =~= seq![c]);
                assert(v@.subrange(start as int, cur + 1) =~= esc(acc@));
                assert forall|s: Seq<char>|
                    #[trigger] is_quoted_at(v@, start as int, s) implies acc@.is_prefix_of(s) by {
                    lemma_scan_state(v@, start as int, cur as int, acc0, s);
                    let u = s.skip(acc0.len() as int);
                    let w = esc(u) + seq!['"'];
                    assert(v@[cur as int] == w[0]);
                    if u.len() == 0 {
                        assert(esc(u) =~= Seq::<char>::empty());
                        assert(w[0] == '"');
                        assert(false);
                    }
                    assert(esc(u) == esc_char(u[0]) + esc(u.drop_first()));
                    assert(w[0] == esc_char(u[0])[0]);
                    assert(u[0] == c) by {
                        if u[0] == '"' || u[0] == '\\' {
                            assert(esc_char(u[0])[0] == '\\');
                        }
                    }
                    assert(acc@ =~= acc0.push(c));
                    assert(s =~= acc0 + u);
                    assert(acc@.is_prefix_of(s)) by {
                        assert(acc@ =~= s.take(acc@.len() as int));
                    }
                }
            }
            cur = cur + 1;
        }
    }
    proof {
        assert forall|s: Seq<char>| !is_quoted_at(v@, start as int, s) by {
            if is_quoted_at(v@, start as int, s) {
                lemma_scan_state(v@, start as int, cur as int, acc@, s);
            }
        }
    }
    None
}

/// The snapshot form of entry `p` stands in `v` at position `i`.
pub(crate) open spec fn entry_at(v: Seq<char>, i: int, p: (Seq<char>, EntryView)) -> bool {
    &&& 0 <= i
    &&& i + entry_json(p).len() <= v.len()
    &&& v.subrange(i, i + entry_json(p).len() as int) == entry_json(p)
}

/// A known slice turns the tail at its start into the slice plus the tail at
/// its end.
proof fn lemma_subrange_skip(v: Seq<char>, i: int, j: int, w: Seq<char>)
    requires
        0 <= i <= j <= v.len(),
        v.subrange(i, j) == w,
    ensures
        v.skip(i) == w + v.skip(j),
{
    assert(v.skip(i) =~= w + v.skip(j));
}

/// A decomposed tail turns back into a known slice and the later tail.
proof fn lemma_split_skip(v: Seq<char>, i: int, w: Seq<char>, x: Seq<char>)
    requires
        0 <= i <= v.len(),
        v.skip(i) == w + x,
    ensures
        i + w.len() <= v.len(),
        v.subrange(i, i + w.len() as int) == w,
        v.skip(i + w.len() as int) == x,
{
    assert(v.skip(i).len() == v.len() - i);
    assert((w + x).len() == w.len() + x.len());
    assert forall|j: int| 0 <= j < w.len() implies v[i + j] == w[j] by {
        assert(v.skip(i)[j] == v[i + j]);
        assert((w + x)[j] == w[j]);
    }
    assert(v.subrange(i, i + w.len() as int) =~= w);
    assert forall|j: int| 0 <= j < x.len() implies v[i + w.len() + j] == x[j] by {
        assert(v.skip(i)[w.len() + j] == v[i + w.len() + j]);
        assert((w + x)[w.len() + j] == x[j]);
    }
    assert(v.skip(i + w.len() as int) =~= x);
}

/// Where an entry stands at `cur`, the text after its opening quote is the
/// quoted key, the three literal-quoted fields, the closing brace, and then
/// the rest of the text.
proof fn lemma_entry_shape(v: Seq<char>, cur: int, p: (Seq<char>, EntryView))
    requires
        entry_at(v, cur, p),
    ensures
        cur + 1 <= v.len(),
        v[cur] == '"',
        v.skip(cur + 1) == quoted(p.0) + (lit_id() + (quoted(p.1.id) + (lit_fid() + (quoted(
            p.1.file_id,
        ) + (lit_ts() + (quoted(p.1.at.text) + (seq!['}'] + v.skip(
            cur + entry_json(p).len() as int,
        )))))))),
{
    let l = entry_json(p).len() as int;
    lemma_subrange_skip(v, cur, cur + l, entry_json(p));
    let r = v.skip(cur + l);
    let m7 = seq!['}'];
    let m6 = quoted(p.1.at.text) + m7;
    let m5 = lit_ts() + m6;
    let m4 = quoted(p.1.file_id) + m5;
    let m3 = lit_fid() + m4;
    let m2 = quoted(p.1.id) + m3;
    let m1 = lit_id() + m2;
    let n1 = quoted(p.0) + m1;
    assert(entry_json(p) == seq!['"'] + n1);
    lemma_add_assoc(seq!['"'], n1, r);
    assert(v.skip(cur) == seq!['"'] + (n1 + r));
    assert(v[cur] == '"') by {
        assert(v.skip(cur)[0] == v[cur]);
        assert((seq!['"'] + (n1 + r))[0] == '"');
    }
    assert(v.skip(cur + 1) =~= n1 + r) by {
        assert forall|j: int| 0 <= j < (n1 + r).len() implies v.skip(cur + 1)[j] == (n1 + r)[j] by {
            assert(v.skip(cur + 1)[j] == v[cur + 1 + j]);
            assert(v.skip(cur)[1 + j] == v[cur + 1 + j]);
            assert((seq!['"'] + (n1 + r))[1 + j] == (n1 + r)[j]);
        }
    }
    lemma_add_assoc(quoted(p.0), m1, r);
    lemma_add_assoc(lit_id(), m2, r);
    lemma_add_assoc(quoted(p.1.id), m3, r);
    lemma_add_assoc(lit_fid(), m4, r);
    lemma_add_assoc(quoted(p.1.file_id), m5, r);
    lemma_add_assoc(lit_ts(), m6, r);
    lemma_add_assoc(quoted(p.1.at.text), m7, r);
}

/// The converse: the pieces read back in order make the entry stand at `cur`.
proof fn lemma_entry_shape_rev(v: Seq<char>, cur: int, end: int, p: (Seq<char>, EntryView))
    requires
        0 <= cur < v.len(),
        cur < end <= v.len(),
        v[cur] == '"',
        v.skip(cur + 1) == quoted(p.0) + (lit_id() + (quoted(p.1.id) + (lit_fid() + (quoted(
            p.1.file_id,
        ) + (lit_ts() + (quoted(p.1.at.text) + (seq!['}'] + v.skip(end)))))))),
    ensures
        entry_at(v, cur, p),
        end == cur + entry_json(p).len(),
{
    let r = v.skip(end);
    let m7 = seq!['}'];
    let m6 = quoted(p.1.at.text) + m7;
    let m5 = lit_ts() + m6;
    let m4 = quoted(p.1.file_id) + m5;
    let m3 = lit_fid() + m4;
    let m2 = quoted(p.1.id) + m3;
    let m1 = lit_id() + m2;
    let n1 = quoted(p.0) + m1;
    lemma_add_assoc(quoted(p.1.at.text), m7, r);
    lemma_add_assoc(lit_ts(), m6, r);
    lemma_add_assoc(quoted(p.1.file_id), m5, r);
    lemma_add_assoc(lit_fid(), m4, r);
    lemma_add_assoc(quoted(p.1.id), m3, r);
    lemma_add_assoc(lit_id(), m2, r);
    lemma_add_assoc(quoted(p.0), m1, r);
    assert(v.skip(cur + 1) == n1 + r);
    assert(v.skip(cur) =~= seq!['"'] + (n1 + r));
    lemma_add_assoc(seq!['"'], n1, r);
    assert(entry_json(p) == seq!['"'] + n1);
    assert(v.skip(cur) == entry_json(p) + r);
    lemma_split_skip(v, cur, entry_json(p), r);
    assert(v.skip(cur + entry_json(p).len() as int) == v.skip(end));
    assert(end == cur + entry_json(p).len());
}

/// Peel the key of a hypothetical entry at `cur` against the quoted string
/// the scanner actually read at `cur + 1`.
proof fn lemma_hyp_key(v: Seq<char>, cur: int, kend: int, kacc: Seq<char>, p: (Seq<char>, EntryView))
    requires
        entry_at(v, cur, p),
        cur + 1 <= kend <= v.len(),
        v.subrange(cur + 1, kend) == quoted(kacc),
    ensures
        kacc == p.0,
        v.skip(kend) == lit_id() + (quoted(p.1.id) + (lit_fid() + (quoted(p.1.file_id) + (lit_ts()
            + (quoted(p.1.at.text) + (seq!['}'] + v.skip(cur + entry_json(p).len() as int))))))),
{
    lemma_entry_shape(v, cur, p);
    lemma_subrange_skip(v, cur + 1, kend, quoted(kacc));
    lemma_peel_quoted(
        kacc,
        p.0,
        v.skip(kend),
        lit_id() + (quoted(p.1.id) + (lit_fid() + (quoted(p.1.file_id) + (lit_ts() + (quoted(
            p.1.at.text,
        ) + (seq!['}'] + v.skip(cur + entry_json(p).len() as int))))))),
    );
}

/// Peel on through the identifier field.
proof fn lemma_hyp_id(
    v: Seq<char>,
    cur: int,
    kend: int,
    kacc: Seq<char>,
    iend: int,
    iacc: Seq<char>,
    p: (Seq<char>, EntryView),
)
    requires
        entry_at(v, cur, p),
        cur + 1 <= kend <= v.len(),
        v.subrange(cur + 1, kend) == quoted(kacc),
        kend + 8 <= iend <= v.len(),
        v.subrange(kend, kend + 8) == lit_id(),
        v.subrange(kend + 8, iend) == quoted(iacc),
    ensures
        kacc == p.0,
        iacc == p.1.id,
        v.skip(iend) == lit_fid() + (quoted(p.1.file_id) + (lit_ts() + (quoted(p.1.at.text) + (
        seq!['}'] + v.skip(cur + entry_json(p).len() as int))))),
{
    lemma_hyp_key(v, cur, kend, kacc, p);
    let rest2 = quoted(p.1.id) + (lit_fid() + (quoted(p.1.file_id) + (lit_ts() + (quoted(
        p.1.at.text,
    ) + (seq!['}'] + v.skip(cur + entry_json(p).len() as int))))));
    lemma_split_skip(v, kend, lit_id(), rest2);
    lemma_subrange_skip(v, kend + 8, iend, quoted(iacc));
    lemma_peel_quoted(
        iacc,
        p.1.id,
        v.skip(iend),
        lit_fid() + (quoted(p.1.file_id) + (lit_ts() + (quoted(p.1.at.text) + (seq!['}'] + v.skip(
            cur + entry_json(p).len() as int,
        ))))),
    );
}

/// Peel on through the handle field.
proof fn lemma_hyp_fid(
    v: Seq<char>,
    cur: int,
    kend: int,
    kacc: Seq<char>,
    iend: int,
    iacc: Seq<char>,
    fend: int,
    facc: Seq<char>,
    p: (Seq<char>, EntryView),
)
    requires
        entry_at(v, cur, p),
        cur + 1 <= kend <= v.len(),
        v.subrange(cur + 1, kend) == quoted(kacc),
        kend + 8 <= iend <= v.len(),
        v.subrange(kend, kend + 8) == lit_id(),
        v.subrange(kend + 8, iend) == quoted(iacc),
        iend + 12 <= fend <= v.len(),
        v.subrange(iend, iend + 12) == lit_fid(),
        v.subrange(iend + 12, fend) == quoted(facc),
    ensures
        kacc == p.0,
        iacc == p.1.id,
        facc == p.1.file_id,
        v.skip(fend) == lit_ts() + (quoted(p.1.at.text) + (seq!['}'] + v.skip(
            cur + entry_json(p).len() as int,
        ))),
{
    lemma_hyp_id(v, cur, kend, kacc, iend, iacc, p);
    let rest4 = quoted(p.1.file_id) + (lit_ts() + (quoted(p.1.at.text) + (seq!['}'] + v.skip(
        cur + entry_json(p).len() as int,
    ))));
    lemma_split_skip(v, iend, lit_fid(), rest4);
    lemma_subrange_skip(v, iend + 12, fend, quoted(facc));
    lemma_peel_quoted(
        facc,
        p.1.file_id,
        v.skip(fend),
        lit_ts() + (quoted(p.1.at.text) + (seq!['}'] + v.skip(cur + entry_json(p).len() as int))),
    );
}

/// Peel to the end of a hypothetical entry: the scanned time text is its
/// time text, and the closing brace stands right after, at `tend`.
proof fn lemma_hyp_text(
    v: Seq<char>,
    cur: int,
    kend: int,
    kacc: Seq<char>,
    iend: int,
    iacc: Seq<char>,
    fend: int,
    facc: Seq<char>,
    tend: int,
    tacc: Seq<char>,
    p: (Seq<char>, EntryView),
)
    requires
        entry_at(v, cur, p),
        cur + 1 <= kend <= v.len(),
        v.subrange(cur + 1, kend) == quoted(kacc),
        kend + 8 <= iend <= v.len(),
        v.subrange(kend, kend + 8) == lit_id(),
        v.subrange(kend + 8, iend) == quoted(iacc),
        iend + 12 <= fend <= v.len(),
        v.subrange(iend, iend + 12) == lit_fid(),
        v.subrange(iend + 12, fend) == quoted(facc),
        fend + 20 <= tend <= v.len(),
        v.subrange(fend, fend + 20) == lit_ts(),
        v.subrange(fend + 20, tend) == quoted(tacc),
    ensures
        kacc == p.0,
        iacc == p.1.id,
        facc == p.1.file_id,
        tacc == p.1.at.text,
        tend < v.len(),
        v[tend] == '}',
        cur + entry_json(p).len() == tend + 1,
{
    lemma_hyp_fid(v, cur, kend, kacc, iend, iacc, fend, facc, p);
    let r = v.skip(cur + entry_json(p).len() as int);
    let rest6 = quoted(p.1.at.text) + (seq!['}'] + r);
    lemma_split_skip(v, fend, lit_ts(), rest6);
    lemma_subrange_skip(v, fend + 20, tend, quoted(tacc));
    lemma_peel_quoted(tacc, p.1.at.text, v.skip(tend), seq!['}'] + r);
    lemma_split_skip(v, tend, seq!['}'], r);
    assert(v.subrange(tend, tend + 1)[0] == v[tend]);
}

/// Read one entry at `cur`: its opening quote, key, three fields and closing
/// brace. Succeeds exactly where the snapshot form of some entry with a
/// well-formed time stands.
fn parse_entry(
    v: &Vec<char>,
    cur: usize,
    lit_id_v: &Vec<char>,
    lit_fid_v: &Vec<char>,
    lit_ts_v: &Vec<char>,
) -> (r: Option<(String, StickersEntry, usize)>)
    requires
        cur <= v@.len(),
        lit_id_v@ == lit_id(),
        lit_fid_v@ == lit_fid(),
        lit_ts_v@ == lit_ts(),
    ensures
        match r {
            Some(q) => {
                &&& cur < q.2 <= v@.len()
                &&& q.1@.wf()
                &&& q.2 == cur + entry_json((q.0@, q.1@)).len()
                &&& entry_at(v@, cur as int, (q.0@, q.1@))
            },
            None => forall|p: (Seq<char>, EntryView)|
                p.1.wf() ==> !#[trigger] entry_at(v@, cur as int, p),
        },
{
    let n = v.len();
    if cur == n {
        proof {
            assert forall|p: (Seq<char>, EntryView)|
                p.1.wf() implies !#[trigger] entry_at(v@, cur as int, p) by {
                if entry_at(v@, cur as int, p) {
                    lemma_entry_shape(v@, cur as int, p);
                }
            }
        }
        return None;
    }
    if v[cur] != '"' {
        proof {
            assert forall|p: (Seq<char>, EntryView)|
                p.1.wf() implies !#[trigger] entry_at(v@, cur as int, p) by {
                if entry_at(v@, cur as int, p) {
                    lemma_entry_shape(v@, cur as int, p);
                }
            }
        }
        return None;
    }
    let kr = scan_string(v, cur + 1);
    if kr.is_none() {
        proof {
            assert forall|p: (Seq<char>, EntryView)|
                p.1.wf() implies !#[trigger] entry_at(v@, cur as int, p) by {
                if entry_at(v@, cur as int, p) {
                    lemma_entry_shape(v@, cur as int, p);
                    lemma_split_skip(
                        v@,
                        cur + 1,
                        quoted(p.0),
                        lit_id() + (quoted(p.1.id) + (lit_fid() + (quoted(p.1.file_id) + (lit_ts()
                            + (quoted(p.1.at.text) + (seq!['}'] + v@.skip(
                            cur + entry_json(p).len() as int,
                        ))))))),
                    );
                    assert(is_quoted_at(v@, cur + 1, p.0));
                }
            }
        }
        return None;
    }
    let (kacc, kend) = kr.unwrap();
    if !expect(v, kend, lit_id_v) {
        proof {
            assert forall|p: (Seq<char>, EntryView)|
                p.1.wf() implies !#[trigger] entry_at(v@, cur as int, p) by {
                if entry_at(v@, cur as int, p) {
                    lemma_hyp_key(v@, cur as int, kend as int, kacc@, p);
                    lemma_split_skip(
                        v@,
                        kend as int,
                        lit_id(),
                        quoted(p.1.id) + (lit_fid() + (quoted(p.1.file_id) + (lit_ts() + (quoted(
                            p.1.at.text,
                        ) + (seq!['}'] + v@.skip(cur + entry_json(p).len() as int)))))),
                    );
                }
            }
        }
        return None;
    }
    let ir = scan_string(v, kend + 8);
    if ir.is_none() {
        proof {
            assert forall|p: (Seq<char>, EntryView)|
                p.1.wf() implies !#[trigger] entry_at(v@, cur as int, p) by {
                if entry_at(v@, cur as int, p) {
                    lemma_hyp_key(v@, cur as int, kend as int, kacc@, p);
                    let rest2 = quoted(p.1.id) + (lit_fid() + (quoted(p.1.file_id) + (lit_ts() + (
                    quoted(p.1.at.text) + (seq!['}'] + v@.skip(
                        cur + entry_json(p).len() as int,
                    ))))));
                    lemma_split_skip(v@, kend as int, lit_id(), rest2);
                    lemma_split_skip(
                        v@,
                        kend + 8,
                        quoted(p.1.id),
                        lit_fid() + (quoted(p.1.file_id) + (lit_ts() + (quoted(p.1.at.text) + (
                        seq!['}'] + v@.skip(cur + entry_json(p).len() as int))))),
                    );
                    assert(is_quoted_at(v@, kend + 8, p.1.id));
                }
            }
        }
        return None;
    }
    let (iacc, iend) = ir.unwrap();
    if !expect(v, iend, lit_fid_v) {
        proof {
            assert forall|p: (Seq<char>, EntryView)|
                p.1.wf() implies !#[trigger] entry_at(v@, cur as int, p) by {
                if entry_at(v@, cur as int, p) {
                    lemma_hyp_id(v@, cur as int, kend as int, kacc@, iend as int, iacc@, p);
                    lemma_split_skip(
                        v@,
                        iend as int,
                        lit_fid(),
                        quoted(p.1.file_id) + (lit_ts() + (quoted(p.1.at.text) + (seq!['}']
                            + v@.skip(cur + entry_json(p).len() as int)))),
                    );
                }
            }
        }
        return None;
    }
    let fr = scan_string(v, iend + 12);
    if fr.is_none() {
        proof {
            assert forall|p: (Seq<char>, EntryView)|
                p.1.wf() implies !#[trigger] entry_at(v@, cur as int, p) by {
                if entry_at(v@, cur as int, p) {
                    lemma_hyp_id(v@, cur as int, kend as int, kacc@, iend as int, iacc@, p);
                    let rest4 = quoted(p.1.file_id) + (lit_ts() + (quoted(p.1.at.text) + (
                    seq!['}'] + v@.skip(cur + entry_json(p).len() as int))));
                    lemma_split_skip(v@, iend as int, lit_fid(), rest4);
                    lemma_split_skip(
                        v@,
                        iend + 12,
                        quoted(p.1.file_id),
                        lit_ts() + (quoted(p.1.at.text) + (seq!['}'] + v@.skip(
                            cur + entry_json(p).len() as int,
                        ))),
                    );
                    assert(is_quoted_at(v@, iend + 12, p.1.file_id));
                }
            }
        }
        return None;
    }
    let (facc, fend) = fr.unwrap();
    if !expect(v, fend, lit_ts_v) {
        proof {
            assert forall|p: (Seq<char>, EntryView)|
                p.1.wf() implies !#[trigger] entry_at(v@, cur as int, p) by {
                if entry_at(v@, cur as int, p) {
                    lemma_hyp_fid(
                        v@,
                        cur as int,
                        kend as int,
                        kacc@,
                        iend as int,
                        iacc@,
                        fend as int,
                        facc@,
                        p,
                    );
                    lemma_split_skip(
                        v@,
                        fend as int,
                        lit_ts(),
                        quoted(p.1.at.text) + (seq!['}'] + v@.skip(
                            cur + entry_json(p).len() as int,
                        )),
                    );
                }
            }
        }
        return None;
    }
    let tr = scan_string(v, fend + 20);
    if tr.is_none() {
        proof {
            assert forall|p: (Seq<char>, EntryView)|
                p.1.wf() implies !#[trigger] entry_at(v@, cur as int, p) by {
                if entry_at(v@, cur as int, p) {
                    lemma_hyp_fid(
                        v@,
                        cur as int,
                        kend as int,
                        kacc@,
                        iend as int,
                        iacc@,
                        fend as int,
                        facc@,
                        p,
                    );
                    let rest6 = quoted(p.1.at.text) + (seq!['}'] + v@.skip(
                        cur + entry_json(p).len() as int,
                    ));
                    lemma_split_skip(v@, fend as int, lit_ts(), rest6);
                    lemma_split_skip(
                        v@,
                        fend + 20,
                        quoted(p.1.at.text),
                        seq!['}'] + v@.skip(cur + entry_json(p).len() as int),
                    );
                    assert(is_quoted_at(v@, fend + 20, p.1.at.text));
                }
            }
        }
        return None;
    }
    let (tacc, tend) = tr.unwrap();
    if tend == n {
        proof {
            assert forall|p: (Seq<char>, EntryView)|
                p.1.wf() implies !#[trigger] entry_at(v@, cur as int, p) by {
                if entry_at(v@, cur as int, p) {
                    lemma_hyp_text(
                        v@,
                        cur as int,
                        kend as int,
                        kacc@,
                        iend as int,
                        iacc@,
                        fend as int,
                        facc@,
                        tend as int,
                        tacc@,
                        p,
                    );
                }
            }
        }
        return None;
    }
    if v[tend] != '}' {
        proof {
            assert forall|p: (Seq<char>, EntryView)|
                p.1.wf() implies !#[trigger] entry_at(v@, cur as int, p) by {
                if entry_at(v@, cur as int, p) {
                    lemma_hyp_text(
                        v@,
                        cur as int,
                        kend as int,
                        kacc@,
                        iend as int,
                        iacc@,
                        fend as int,
                        facc@,
                        tend as int,
                        tacc@,
                        p,
                    );
                }
            }
        }
        return None;
    }
    let text_s = ext::chars_to_string(&tacc);
    let tso = Timestamp::from_text(text_s);
    if tso.is_none() {
        proof {
            assert forall|p: (Seq<char>, EntryView)|
                p.1.wf() implies !#[trigger] entry_at(v@, cur as int, p) by {
                if entry_at(v@, cur as int, p) {
                    lemma_hyp_text(
                        v@,
                        cur as int,
                        kend as int,
                        kacc@,
                        iend as int,
                        iacc@,
                        fend as int,
                        facc@,
                        tend as int,
                        tacc@,
                        p,
                    );
                }
            }
        }
        return None;
    }
    let ts = tso.unwrap();
    let key_s = ext::chars_to_string(&kacc);
    let id_s = ext::chars_to_string(&iacc);
    let fid_s = ext::chars_to_string(&facc);
    let e = StickersEntry::new_at(id_s, fid_s, ts);
    proof {
        let pb = (key_s@, e@);
        assert(v@.skip(tend as int) =~= seq!['}'] + v@.skip(tend + 1));
        lemma_subrange_skip(v@, fend + 20, tend as int, quoted(tacc@));
        lemma_subrange_skip(v@, fend as int, fend + 20, lit_ts());
        lemma_subrange_skip(v@, iend + 12, fend as int, quoted(facc@));
        lemma_subrange_skip(v@, iend as int, iend + 12, lit_fid());
        lemma_subrange_skip(v@, kend + 8, iend as int, quoted(iacc@));
        lemma_subrange_skip(v@, kend as int, kend + 8, lit_id());
        lemma_subrange_skip(v@, cur + 1, kend as int, quoted(kacc@));
        assert(v@.skip(cur + 1) == quoted(pb.0) + (lit_id() + (quoted(pb.1.id) + (lit_fid() + (
        quoted(pb.1.file_id) + (lit_ts() + (quoted(pb.1.at.text) + (seq!['}'] + v@.skip(
            tend + 1,
        )))))))));
        lemma_entry_shape_rev(v@, cur as int, tend + 1, pb);
    }
    Some((key_s, e, tend + 1))
}

/// Adjacent slices of one text concatenate.
proof fn lemma_subrange_concat(v: Seq<char>, a: int, b: int, c: int)
    requires
        0 <= a <= b <= c <= v.len(),
    ensures
        v.subrange(a, c) == v.subrange(a, b) + v.subrange(b, c),
{
    assert(v.subrange(a, c) =~= v.subrange(a, b) + v.subrange(b, c));
}

/// Two well-formed entries standing at the same position of one text are the
/// same entry.
proof fn lemma_entry_agree(
    v: Seq<char>,
    cur: int,
    pb: (Seq<char>, EntryView),
    p2: (Seq<char>, EntryView),
)
    requires
        entry_at(v, cur, pb),
        entry_at(v, cur, p2),
        pb.1.wf(),
        p2.1.wf(),
    ensures
        pb == p2,
        entry_json(pb).len() == entry_json(p2).len(),
{
    lemma_subrange_skip(v, cur, cur + entry_json(pb).len() as int, entry_json(pb));
    lemma_subrange_skip(v, cur, cur + entry_json(p2).len() as int, entry_json(p2));
    lemma_entry_json_parts(
        pb,
        p2,
        v.skip(cur + entry_json(pb).len() as int),
        v.skip(cur + entry_json(p2).len() as int),
    );
    assert(pb.1.at =~= p2.1.at);
    assert(pb.1 =~= p2.1);
}

/// Where the reader stands mid-table — the header, the entries read so far
/// and a leading comma consumed — the snapshot of any table `t` it could
/// still be reading puts `t`'s next entry exactly at the cursor.
proof fn lemma_doc_decompose(v: Seq<char>, cur: int, pv: TableView, t: TableView)
    requires
        v == spec_json(t),
        pv.len() < t.len(),
        pv == t.take(pv.len() as int),
        0 <= cur <= v.len(),
        v.subrange(0, cur) == lit_header() + entries_json(pv) + sep(pv.len() as int),
    ensures
        entry_at(v, cur, t[pv.len() as int]),
        v.skip(cur + entry_json(t[pv.len() as int]).len() as int) == tail_json(t, pv.len() as int)
            + seq!['}', '}'],
{
    let m = pv.len() as int;
    lemma_entries_split(t, m);
    let a = entries_json(t.take(m));
    assert(a == entries_json(pv));
    let e = entry_json(t[m]);
    let tl = tail_json(t, m);
    let bb = seq!['}', '}'];
    assert(spec_json(t) =~= ((lit_header() + a) + sep(m)) + (e + (tl + bb)));
    let c = lit_header() + entries_json(pv) + sep(m);
    assert(c.len() == cur);
    assert(v.skip(0) =~= v);
    lemma_split_skip(v, 0, c, e + (tl + bb));
    assert(v.skip(cur) == e + (tl + bb));
    lemma_split_skip(v, cur, e, tl + bb);
}

/// Read a whole snapshot. Succeeds exactly on the snapshot text of a
/// well-formed table, and then returns that table.
fn from_chars(v: &Vec<char>) -> (r: Option<Data>)
    ensures
        match r {
            Some(d) => table_wf(d@) && v@ == spec_json(d@),
            None => forall|t: TableView| table_wf(t) ==> v@ != spec_json(t),
        },
{
    let n = v.len();
    let lit_header_v = ext::str_to_chars("{\"stickers\":{");
    let lit_id_v = ext::str_to_chars(":{\"id\":\"");
    let lit_fid_v = ext::str_to_chars(",\"file_id\":\"");
    let lit_ts_v = ext::str_to_chars(",\"last_usage_time\":\"");
    proof {
        reveal_strlit("{\"stickers\":{");
        reveal_strlit(":{\"id\":\"");
        reveal_strlit(",\"file_id\":\"");
        reveal_strlit(",\"last_usage_time\":\"");
        assert(lit_header_v@ =~= lit_header());
        assert(lit_id_v@ =~= lit_id());
        assert(lit_fid_v@ =~= lit_fid());
        assert(lit_ts_v@ =~= lit_ts());
    }
    if !expect(v, 0, &lit_header_v) {
        proof {
            assert forall|t: TableView| table_wf(t) implies v@ != spec_json(t) by {
                if v@ == spec_json(t) {
                    assert(spec_json(t) =~= lit_header() + (entries_json(t) + seq!['}', '}']));
                    assert(v@.skip(0) =~= v@);
                    lemma_split_skip(v@, 0, lit_header(), entries_json(t) + seq!['}', '}']);
                }
            }
        }
        return None;
    }
    let mut cur: usize = lit_header_v.len();
    proof {
        assert(cur == 13);
    }
    if cur < n && v[cur] == '}' {
        if cur + 1 < n {
            if v[cur + 1] == '}' && cur + 2 == n {
                let d = Data::new();
                proof {
                    assert(entries_json(d@) =~= Seq::<char>::empty());
                    assert(v@ =~= spec_json(d@));
                }
                return Some(d);
            }
        }
        proof {
            assert forall|t: TableView| table_wf(t) implies v@ != spec_json(t) by {
                if v@ == spec_json(t) {
                    assert(v@.skip(0) =~= v@);
                    if t.len() == 0 {
                        assert(entries_json(t) =~= Seq::<char>::empty());
                        assert(spec_json(t) =~= lit_header() + seq!['}', '}']);
                        assert(v@.len() == 15);
                        assert(v@[13] == '}' && v@[14] == '}');
                    } else {
                        lemma_entries_split(t, 0);
                        assert(t.take(0) =~= Seq::<(Seq<char>, EntryView)>::empty());
                        assert(entries_json(t.take(0)) =~= Seq::<char>::empty());
                        let e = entry_json(t[0]);
                        let rest = e + (tail_json(t, 0) + seq!['}', '}']);
                        assert(spec_json(t) =~= lit_header() + rest);
                        lemma_split_skip(v@, 0, lit_header(), rest);
                        lemma_split_skip(v@, 13, e, tail_json(t, 0) + seq!['}', '}']);
                        assert(v@[13] == e[0]) by {
                            assert(v@.subrange(13, 13 + e.len() as int)[0] == v@[13]);
                        }
                        assert(e[0] == '"');
                    }
                }
            }
        }
        return None;
    }
    if cur == n {
        proof {
            assert forall|t: TableView| table_wf(t) implies v@ != spec_json(t) by {
                if v@ == spec_json(t) {
                    assert(spec_json(t).len() >= 15);
                }
            }
        }
        return None;
    }
    let mut parsed: Vec<(String, StickersEntry)> = Vec::new();
    proof {
        assert(pairs_view(parsed@) =~= Seq::<(Seq<char>, EntryView)>::empty());
        assert(entries_json(pairs_view(parsed@)) =~= Seq::<char>::empty());
        assert(v@.subrange(0, cur as int) =~= lit_header() + entries_json(pairs_view(parsed@))
            + sep(0));
        assert forall|t: TableView|
            table_wf(t) && v@ == spec_json(t) implies parsed@.len() < t.len() && pairs_view(
            parsed@,
        ) == t.take(parsed@.len() as int) by {
            assert(v@.skip(0) =~= v@);
            if t.len() == 0 {
                assert(entries_json(t) =~= Seq::<char>::empty());
                assert(spec_json(t) =~= lit_header() + seq!['}', '}']);
                assert(v@.len() == 15);
                assert(v@[13] == '}');
            }
            assert(pairs_view(parsed@) =~= t.take(0));
        }
    }
    loop
        invariant
            13 <= cur <= n,
            n == v@.len(),
            lit_id_v@ == lit_id(),
            lit_fid_v@ == lit_fid(),
            lit_ts_v@ == lit_ts(),
            v@.subrange(0, cur as int) == lit_header() + entries_json(pairs_view(parsed@)) + sep(
                parsed@.len() as int,
            ),
            table_wf(pairs_view(parsed@)),
            parsed@.len() == pairs_view(parsed@).len(),
            forall|t: TableView|
                table_wf(t) && v@ == spec_json(t) ==> parsed@.len() < t.len() && pairs_view(parsed@)
                    == t.take(parsed@.len() as int),
        decreases n - cur,
    {
        let ghost pv0 = pairs_view(parsed@);
        let ghost m = parsed@.len() as int;
        let pr = parse_entry(v, cur, &lit_id_v, &lit_fid_v, &lit_ts_v);
        if pr.is_none() {
            proof {
                assert forall|t: TableView| table_wf(t) implies v@ != spec_json(t) by {
                    if v@ == spec_json(t) {
                        lemma_doc_decompose(v@, cur as int, pv0, t);
                        assert(t[m].1.wf());
                        assert(entry_at(v@, cur as int, t[m]));
                    }
                }
            }
            return None;
        }
        let (k, e, end) = pr.unwrap();
        let ghost pb = (k@, e@);
        match find_key(&parsed, &k) {
            Some(dup_i) => {
                proof {
                    assert forall|t: TableView| table_wf(t) implies v@ != spec_json(t) by {
                        if v@ == spec_json(t) {
                            lemma_doc_decompose(v@, cur as int, pv0, t);
                            assert(t[m].1.wf());
                            lemma_entry_agree(v@, cur as int, pb, t[m]);
                            assert(pv0[dup_i as int].0 == t[m].0);
                            assert(t[dup_i as int].0 == t[m].0);
                        }
                    }
                }
                return None;
            },
            None => {},
        }
        let ghost dupfree = parsed@;
        parsed.push((k, e));
        let ghost pv1 = pairs_view(parsed@);
        proof {
            assert(pv1 =~= pv0.push(pb));
            assert(table_wf(pv1)) by {
                assert forall|i: int, j: int| 0 <= i < j < pv1.len() implies pv1[i].0 != pv1[j].0
                    by {
                    if j == m {
                        assert(pv1[i] == pv0[i]);
                        assert(dupfree[i].0@ != k@);
                    } else {
                        assert(pv1[i] == pv0[i] && pv1[j] == pv0[j]);
                    }
                }
                assert forall|i: int| 0 <= i < pv1.len() implies (#[trigger] pv1[i]).1.wf() by {
                    if i < m {
                        assert(pv1[i] == pv0[i]);
                    } else {
                        assert(pv1[i] == pb);
                    }
                }
            }
            lemma_entries_split(pv1, m);
            assert(pv1.take(m) =~= pv0);
            assert(pv1[m] == pb);
            assert(tail_json(pv1, m) =~= Seq::<char>::empty());
            assert(entries_json(pv1) == entries_json(pv0) + sep(m) + entry_json(pb) + Seq::<
                char,
            >::empty());
            assert(entries_json(pv1) =~= (entries_json(pv0) + sep(m)) + entry_json(pb));
            lemma_subrange_concat(v@, 0, cur as int, end as int);
            assert(v@.subrange(cur as int, end as int) == entry_json(pb));
            assert(v@.subrange(0, end as int) =~= lit_header() + entries_json(pv1));
        }
        if end < n {
            let c2 = v[end];
            if c2 == ',' {
                proof {
                    lemma_subrange_concat(v@, 0, end as int, end + 1);
                    assert(v@.subrange(end as int, end + 1) =~= seq![',']);
                    assert(v@.subrange(0, end + 1) =~= lit_header() + entries_json(pv1) + sep(
                        pv1.len() as int,
                    ));
                    assert forall|t: TableView|
                        table_wf(t) && v@ == spec_json(t) implies parsed@.len() < t.len()
                        && pairs_view(parsed@) == t.take(parsed@.len() as int) by {
                        lemma_doc_decompose(v@, cur as int, pv0, t);
                        assert(t[m].1.wf());
                        lemma_entry_agree(v@, cur as int, pb, t[m]);
                        assert(v@.skip(end as int) == tail_json(t, m) + seq!['}', '}']);
                        if m + 1 == t.len() {
                            assert(tail_json(t, m) =~= Seq::<char>::empty());
                            assert(v@[end as int] == '}') by {
                                assert(v@.skip(end as int)[0] == v@[end as int]);
                            }
                        }
                        assert(m + 1 < t.len());
                        assert(pv1 =~= t.take(m + 1));
                    }
                }
                cur = end + 1;
            } else if c2 == '}' {
                if end + 1 < n {
                    if v[end + 1] == '}' && end + 2 == n {
                        let d = Data { stickers: parsed };
                        proof {
                            lemma_subrange_concat(v@, 0, end as int, n as int);
                            assert(v@.subrange(end as int, n as int) =~= seq!['}', '}']);
                            assert(v@ =~= v@.subrange(0, n as int));
                            assert(d@ == pv1);
                            assert(v@ =~= spec_json(pv1));
                        }
                        return Some(d);
                    }
                }
                proof {
                    assert forall|t: TableView| table_wf(t) implies v@ != spec_json(t) by {
                        if v@ == spec_json(t) {
                            lemma_doc_decompose(v@, cur as int, pv0, t);
                            assert(t[m].1.wf());
                            lemma_entry_agree(v@, cur as int, pb, t[m]);
                            assert(v@.skip(end as int) == tail_json(t, m) + seq!['}', '}']);
                            if m + 1 < t.len() {
                                assert(tail_json(t, m) == seq![','] + entries_json(t.skip(m + 1)));
                                assert(v@[end as int] == ',') by {
                                    assert(v@.skip(end as int)[0] == v@[end as int]);
                                }
                            } else {
                                assert(tail_json(t, m) =~= Seq::<char>::empty());
                                assert(v@.skip(end as int) =~= seq!['}', '}']);
                                assert(v@.len() == end + 2);
                                assert(v@[end + 1] == '}') by {
                                    assert(v@.skip(end as int)[1] == v@[end + 1]);
                                }
                            }
                        }
                    }
                }
                return None;
            } else {
                proof {
                    assert forall|t: TableView| table_wf(t) implies v@ != spec_json(t) by {
                        if v@ == spec_json(t) {
                            lemma_doc_decompose(v@, cur as int, pv0, t);
                            assert(t[m].1.wf());
                            lemma_entry_agree(v@, cur as int, pb, t[m]);
                            assert(v@.skip(end as int) == tail_json(t, m) + seq!['}', '}']);
                            if m + 1 < t.len() {
                                assert(tail_json(t, m) == seq![','] + entries_json(t.skip(m + 1)));
                                assert(v@[end as int] == ',') by {
                                    assert(v@.skip(end as int)[0] == v@[end as int]);
                                }
                            } else {
                                assert(tail_json(t, m) =~= Seq::<char>::empty());
                                assert(v@[end as int] == '}') by {
                                    assert(v@.skip(end as int)[0] == v@[end as int]);
                                }
                            }
                        }
                    }
                }
                return None;
            }
        } else {
            proof {
                assert forall|t: TableView| table_wf(t) implies v@ != spec_json(t) by {
                    if v@ == spec_json(t) {
                        lemma_doc_decompose(v@, cur as int, pv0, t);
                        assert(t[m].1.wf());
                        lemma_entry_agree(v@, cur as int, pb, t[m]);
                        assert(v@.skip(end as int) == tail_json(t, m) + seq!['}', '}']);
                        assert(v@.skip(end as int).len() >= 2);
                    }
                }
            }
            return None;
        }
    }
}

impl Data {
    /// Read a table back from its snapshot text. Succeeds exactly on the
    /// snapshot of a well-formed table — the text [`Data::to_json`] writes —
    /// and returns that table; anything else is refused.
    pub fn from_json(s: &str) -> (r: Option<Data>)
        ensures
            match r {
                Some(d) => table_wf(d@) && s@ == spec_json(d@),
                None => forall|t: TableView| table_wf(t) ==> s@ != spec_json(t),
            },
    {
        let v = ext::str_to_chars(s);
        from_chars(&v)
    }

    /// The snapshot text of the whole table, in the one canonical form that
    /// [`Data::from_json`] reads back.
    pub fn to_json(&self) -> (r: String)
        ensures
            r@ == spec_json(self@),
    {
        let lit_header_v = ext::str_to_chars("{\"stickers\":{");
        let lit_id_v = ext::str_to_chars(":{\"id\":\"");
        let lit_fid_v = ext::str_to_chars(",\"file_id\":\"");
        let lit_ts_v = ext::str_to_chars(",\"last_usage_time\":\"");
        proof {
            reveal_strlit("{\"stickers\":{");
            reveal_strlit(":{\"id\":\"");
            reveal_strlit(",\"file_id\":\"");
            reveal_strlit(",\"last_usage_time\":\"");
            assert(lit_header_v@ =~= lit_header());
            assert(lit_id_v@ =~= lit_id());
            assert(lit_fid_v@ =~= lit_fid());
            assert(lit_ts_v@ =~= lit_ts());
        }
        let mut out: Vec<char> = Vec::new();
        proof {
            assert(out@ =~= Seq::<char>::empty());
        }
        push_seq(&mut out, &lit_header_v);
        let n = self.stickers.len();
        let mut i: usize = 0;
        proof {
            assert(self@.take(0) =~= Seq::<(Seq<char>, EntryView)>::empty());
            assert(entries_json(self@.take(0)) =~= Seq::<char>::empty());
            assert(out@ =~= lit_header() + entries_json(self@.take(0)));
        }
        while i < n
            invariant
                i <= n,
                n == self@.len(),
                n == self.stickers@.len(),
                lit_id_v@ == lit_id(),
                lit_fid_v@ == lit_fid(),
                lit_ts_v@ == lit_ts(),
                out@ == lit_header() + entries_json(self@.take(i as int)),
            decreases n - i,
        {
            let ghost before = out@;
            if i > 0 {
                out.push(',');
            }
            let ghost mid = out@;
            let p = &self.stickers[i];
            push_entry(&mut out, &p.0, &p.1, &lit_id_v, &lit_fid_v, &lit_ts_v);
            proof {
                let pv = self@[i as int];
                assert(pv.0 == p.0@ && pv.1 == p.1@);
                assert(mid =~= before + sep(i as int));
                assert(out@ == (before + sep(i as int)) + entry_json(pv));
                lemma_entries_split(self@.take(i + 1), i as int);
                assert(self@.take(i + 1).take(i as int) =~= self@.take(i as int));
                assert(self@.take(i + 1)[i as int] == pv);
                assert(tail_json(self@.take(i + 1), i as int) =~= Seq::<char>::empty());
                let a = entries_json(self@.take(i as int));
                assert(entries_json(self@.take(i + 1)) == a + sep(i as int) + entry_json(pv)
                    + tail_json(self@.take(i + 1), i as int));
                assert(entries_json(self@.take(i + 1)) =~= (a + sep(i as int)) + entry_json(pv));
                lemma_add_assoc(lit_header(), a, sep(i as int));
                lemma_add_assoc(lit_header(), a + sep(i as int), entry_json(pv));
                assert(before + sep(i as int) == lit_header() + (a + sep(i as int)));
                assert(out@ == lit_header() + entries_json(self@.take(i + 1)));
            }
            i += 1;
        }
        out.push('}');
        out.push('}');
        proof {
            assert(self@.take(n as int) =~= self@);
            assert(out@ =~= spec_json(self@));
        }
        ext::chars_to_string(&out)
    }
}

} // verus!
