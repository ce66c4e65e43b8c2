//! The canonical form of a graph's edges and labels: the edges in ascending
//! order of their keys, each with its timestamps in ascending order. Every
//! finite set of labels has exactly one such form, which makes it usable as
//! a key for recognising a configuration that was seen before.
use crate::model::{key_lt, Label, TimeStep, VertexId};
use vstd::prelude::*;
use vstd::std_specs::cmp::PartialEqSpecImpl;

verus! {

/// One edge of a canonical form: its key and its timestamps.
pub type StateEntry = ((VertexId, VertexId), Seq<TimeStep>);

pub open spec fn increasing_times(s: Seq<TimeStep>) -> bool {
    forall|i: int, j: int| 0 <= i < j < s.len() ==> s[i] < s[j]
}

pub open spec fn increasing_vertices(s: Seq<VertexId>) -> bool {
    forall|i: int, j: int| 0 <= i < j < s.len() ==> s[i] < s[j]
}

pub open spec fn increasing_keys(s: Seq<(VertexId, VertexId)>) -> bool {
    forall|i: int, j: int| 0 <= i < j < s.len() ==> key_lt(s[i], s[j])
}

/// An entry is valid when its key is normalised and its timestamps are
/// strictly ascending and not empty.
pub open spec fn valid_entry(e: StateEntry) -> bool {
    e.0.0 <= e.0.1 && e.1.len() > 0 && increasing_times(e.1)
}

/// Valid entries in strictly ascending order of their keys.
pub open spec fn canonical(s: Seq<StateEntry>) -> bool {
    &&& forall|i: int| 0 <= i < s.len() ==> valid_entry(#[trigger] s[i])
    &&& forall|i: int, j: int| 0 <= i < j < s.len() ==> key_lt(#[trigger] s[i].0, #[trigger] s[j].0)
}

pub open spec fn entry_has(e: StateEntry, l: Label) -> bool {
    e.0 == (l.0, l.1) && e.1.contains(l.2)
}

/// The labels that the entries of `s` hold.
pub open spec fn labels_of(s: Seq<StateEntry>) -> Set<Label> {
    Set::new(|l: Label| exists|i: int| 0 <= i < s.len() && entry_has(#[trigger] s[i], l))
}

/// `s` is the canonical form of the label set `labels`.
pub open spec fn is_state_of(s: Seq<StateEntry>, labels: Set<Label>) -> bool {
    canonical(s) && labels_of(s) == labels
}

/// Whether every key before position `p` is smaller than `k` and no key from
/// `p` on is.
pub open spec fn key_position(s: Seq<StateEntry>, k: (VertexId, VertexId), p: int) -> bool {
    &&& 0 <= p <= s.len()
    &&& forall|i: int| 0 <= i < p ==> key_lt((#[trigger] s[i]).0, k)
    &&& forall|i: int| p <= i < s.len() ==> !key_lt((#[trigger] s[i]).0, k)
}

/// Whether every timestamp before position `q` is smaller than `t` and none
/// from `q` on is.
pub open spec fn time_position(s: Seq<TimeStep>, t: TimeStep, q: int) -> bool {
    &&& 0 <= q <= s.len()
    &&& forall|i: int| 0 <= i < q ==> s[i] < t
    &&& forall|i: int| q <= i < s.len() ==> s[i] >= t
}

/// In a canonical form the labels of an edge are those of its one entry.
pub proof fn lemma_entry_labels(s: Seq<StateEntry>, i: int, l: Label)
    requires
        canonical(s),
        0 <= i < s.len(),
        s[i].0 == (l.0, l.1),
    ensures
        labels_of(s).contains(l) <==> s[i].1.contains(l.2),
{
    if labels_of(s).contains(l) {
        let j = choose|j: int| 0 <= j < s.len() && entry_has(#[trigger] s[j], l);
        if j < i {
            assert(key_lt(s[j].0, s[i].0));
        }
        if i < j {
            assert(key_lt(s[i].0, s[j].0));
        }
    }
    if s[i].1.contains(l.2) {
        assert(entry_has(s[i], l));
    }
}

/// A key that has no entry has no labels.
pub proof fn lemma_absent_key(s: Seq<StateEntry>, k: (VertexId, VertexId), p: int)
    requires
        canonical(s),
        key_position(s, k, p),
        p == s.len() || s[p].0 != k,
    ensures
        forall|t: TimeStep| !labels_of(s).contains((k.0, k.1, t)),
{
    assert forall|t: TimeStep| !labels_of(s).contains((k.0, k.1, t)) by {
        let l = (k.0, k.1, t);
        if labels_of(s).contains(l) {
            let j = choose|j: int| 0 <= j < s.len() && entry_has(#[trigger] s[j], l);
            if j < p {
                assert(key_lt(s[j].0, k));
            } else if j > p {
                assert(key_lt(s[p].0, s[j].0));
                assert(!key_lt(s[p].0, k));
            }
        }
    }
}

/// A timestamp that is not at its position in an ascending sequence is not
/// in the sequence.
pub proof fn lemma_absent_time(s: Seq<TimeStep>, t: TimeStep, q: int)
    requires
        increasing_times(s),
        time_position(s, t, q),
    ensures
        s.contains(t) <==> (q < s.len() && s[q] == t),
{
    if s.contains(t) {
        let j = choose|j: int| 0 <= j < s.len() && s[j] == t;
        if j > q {
            assert(s[q] < s[j]);
        }
    }
}

/// Entering a new edge with one timestamp at its position keeps the form
/// canonical and adds exactly that label.
pub proof fn lemma_insert_entry(s: Seq<StateEntry>, k: (VertexId, VertexId), t: TimeStep, p: int)
    requires
        canonical(s),
        k.0 <= k.1,
        key_position(s, k, p),
        p == s.len() || s[p].0 != k,
    ensures
        canonical(s.insert(p, (k, seq![t]))),
        labels_of(s.insert(p, (k, seq![t]))) == labels_of(s).insert((k.0, k.1, t)),
{
    let e: StateEntry = (k, seq![t]);
    let r = s.insert(p, e);
    assert(valid_entry(e));
    assert forall|i: int| 0 <= i < r.len() implies valid_entry(#[trigger] r[i]) by {
        if i < p {
            assert(r[i] == s[i]);
        } else if i > p {
            assert(r[i] == s[i - 1]);
        }
    }
    assert forall|i: int, j: int| 0 <= i < j < r.len() implies key_lt(
        #[trigger] r[i].0,
        #[trigger] r[j].0,
    ) by {
        if j < p {
            assert(r[i] == s[i] && r[j] == s[j]);
        } else if j == p {
            assert(r[i] == s[i]);
        } else if i < p {
            assert(r[i] == s[i] && r[j] == s[j - 1]);
        } else if i == p {
            assert(r[j] == s[j - 1]);
            assert(!key_lt(s[j - 1].0, k));
            if j - 1 > p {
                assert(key_lt(s[p].0, s[j - 1].0));
            }
        } else {
            assert(r[i] == s[i - 1] && r[j] == s[j - 1]);
        }
    }
    assert forall|l: Label| labels_of(r).contains(l) <==> labels_of(s).insert(
        (k.0, k.1, t),
    ).contains(l) by {
        if labels_of(r).contains(l) {
            let j = choose|j: int| 0 <= j < r.len() && entry_has(#[trigger] r[j], l);
            if j < p {
                assert(entry_has(s[j], l));
            } else if j > p {
                assert(entry_has(s[j - 1], l));
            } else {
                assert(e.1[0] == t);
            }
        }
        if labels_of(s).contains(l) {
            let j = choose|j: int| 0 <= j < s.len() && entry_has(#[trigger] s[j], l);
            if j < p {
                assert(entry_has(r[j], l));
            } else {
                assert(entry_has(r[j + 1], l));
            }
        }
        if l == (k.0, k.1, t) {
            assert(e.1[0] == t);
            assert(entry_has(r[p], l));
        }
    }
    assert(labels_of(r) =~= labels_of(s).insert((k.0, k.1, t)));
}

/// Entering a new timestamp at its position in an entry keeps the form
/// canonical and adds exactly that label.
pub proof fn lemma_insert_time(s: Seq<StateEntry>, i: int, t: TimeStep, q: int)
    requires
        canonical(s),
        0 <= i < s.len(),
        time_position(s[i].1, t, q),
        !s[i].1.contains(t),
    ensures
        canonical(s.update(i, (s[i].0, s[i].1.insert(q, t)))),
        labels_of(s.update(i, (s[i].0, s[i].1.insert(q, t)))) == labels_of(s).insert(
            (s[i].0.0, s[i].0.1, t),
        ),
{
    let k = s[i].0;
    let old_times = s[i].1;
    let times = old_times.insert(q, t);
    let e: StateEntry = (k, times);
    let r = s.update(i, e);
    assert(valid_entry(s[i]));
    assert forall|a: int, b: int| 0 <= a < b < times.len() implies times[a] < times[b] by {
        if b < q {
            assert(times[a] == old_times[a] && times[b] == old_times[b]);
        } else if b == q {
            assert(times[a] == old_times[a]);
        } else if a < q {
            assert(times[a] == old_times[a] && times[b] == old_times[b - 1]);
        } else if a == q {
            assert(times[b] == old_times[b - 1]);
            assert(old_times[b - 1] >= t);
            assert(old_times[b - 1] != t);
        } else {
            assert(times[a] == old_times[a - 1] && times[b] == old_times[b - 1]);
        }
    }
    assert forall|a: int| 0 <= a < r.len() implies valid_entry(#[trigger] r[a]) by {
        if a != i {
            assert(r[a] == s[a]);
        }
    }
    assert forall|a: int, b: int| 0 <= a < b < r.len() implies key_lt(
        #[trigger] r[a].0,
        #[trigger] r[b].0,
    ) by {
        assert(r[a].0 == s[a].0 && r[b].0 == s[b].0);
    }
    let added = (k.0, k.1, t);
    assert forall|l: Label| labels_of(r).contains(l) <==> labels_of(s).insert(added).contains(
        l,
    ) by {
        if labels_of(r).contains(l) {
            let j = choose|j: int| 0 <= j < r.len() && entry_has(#[trigger] r[j], l);
            if j != i {
                assert(entry_has(s[j], l));
            } else if l.2 != t {
                let c = choose|c: int| 0 <= c < times.len() && times[c] == l.2;
                if c < q {
                    assert(old_times[c] == l.2);
                } else {
                    assert(old_times[c - 1] == l.2);
                }
                assert(entry_has(s[i], l));
            }
        }
        if labels_of(s).contains(l) {
            let j = choose|j: int| 0 <= j < s.len() && entry_has(#[trigger] s[j], l);
            if j != i {
                assert(entry_has(r[j], l));
            } else {
                let c = choose|c: int| 0 <= c < old_times.len() && old_times[c] == l.2;
                if c < q {
                    assert(times[c] == l.2);
                } else {
                    assert(times[c + 1] == l.2);
                }
                assert(entry_has(r[i], l));
            }
        }
        if l == added {
            assert(times[q] == t);
            assert(entry_has(r[i], l));
        }
    }
    assert(labels_of(r) =~= labels_of(s).insert(added));
}

/// Taking one of several timestamps out of an entry keeps the form
/// canonical and removes exactly that label.
pub proof fn lemma_remove_time(s: Seq<StateEntry>, i: int, q: int)
    requires
        canonical(s),
        0 <= i < s.len(),
        0 <= q < s[i].1.len(),
        s[i].1.len() > 1,
    ensures
        canonical(s.update(i, (s[i].0, s[i].1.remove(q)))),
        labels_of(s.update(i, (s[i].0, s[i].1.remove(q)))) == labels_of(s).remove(
            (s[i].0.0, s[i].0.1, s[i].1[q]),
        ),
{
    let k = s[i].0;
    let old_times = s[i].1;
    let t = old_times[q];
    let times = old_times.remove(q);
    let e: StateEntry = (k, times);
    let r = s.update(i, e);
    assert(valid_entry(s[i]));
    assert forall|a: int, b: int| 0 <= a < b < times.len() implies times[a] < times[b] by {
        let a0 = if a < q { a } else { a + 1 };
        let b0 = if b < q { b } else { b + 1 };
        assert(times[a] == old_times[a0] && times[b] == old_times[b0]);
    }
    assert forall|a: int| 0 <= a < r.len() implies valid_entry(#[trigger] r[a]) by {
        if a != i {
            assert(r[a] == s[a]);
        }
    }
    assert forall|a: int, b: int| 0 <= a < b < r.len() implies key_lt(
        #[trigger] r[a].0,
        #[trigger] r[b].0,
    ) by {
        assert(r[a].0 == s[a].0 && r[b].0 == s[b].0);
    }
    let gone = (k.0, k.1, t);
    assert forall|l: Label| labels_of(r).contains(l) <==> labels_of(s).remove(gone).contains(
        l,
    ) by {
        if labels_of(r).contains(l) {
            let j = choose|j: int| 0 <= j < r.len() && entry_has(#[trigger] r[j], l);
            if j != i {
                assert(entry_has(s[j], l));
                if l == gone {
                    if j < i {
                        assert(key_lt(s[j].0, s[i].0));
                    } else {
                        assert(key_lt(s[i].0, s[j].0));
                    }
                }
            } else {
                let c = choose|c: int| 0 <= c < times.len() && times[c] == l.2;
                let c0 = if c < q { c } else { c + 1 };
                assert(old_times[c0] == l.2);
                if c0 < q {
                    assert(old_times[c0] < old_times[q]);
                } else {
                    assert(old_times[q] < old_times[c0]);
                }
                assert(entry_has(s[i], l));
            }
        }
        if labels_of(s).remove(gone).contains(l) {
            let j = choose|j: int| 0 <= j < s.len() && entry_has(#[trigger] s[j], l);
            if j != i {
                assert(entry_has(r[j], l));
            } else {
                let c = choose|c: int| 0 <= c < old_times.len() && old_times[c] == l.2;
                assert(c != q);
                if c < q {
                    assert(times[c] == l.2);
                } else {
                    assert(times[c - 1] == l.2);
                }
                assert(entry_has(r[i], l));
            }
        }
    }
    assert(labels_of(r) =~= labels_of(s).remove(gone));
}

/// Taking an entry out keeps the form canonical and removes exactly the
/// labels of its edge.
pub proof fn lemma_remove_entry(s: Seq<StateEntry>, i: int)
    requires
        canonical(s),
        0 <= i < s.len(),
    ensures
        canonical(s.remove(i)),
        labels_of(s.remove(i)) == labels_of(s).filter(|l: Label| (l.0, l.1) != s[i].0),
{
    let k = s[i].0;
    let r = s.remove(i);
    assert forall|a: int| 0 <= a < r.len() implies valid_entry(#[trigger] r[a]) by {
        let a0 = if a < i { a } else { a + 1 };
        assert(r[a] == s[a0]);
    }
    assert forall|a: int, b: int| 0 <= a < b < r.len() implies key_lt(
        #[trigger] r[a].0,
        #[trigger] r[b].0,
    ) by {
        let a0 = if a < i { a } else { a + 1 };
        let b0 = if b < i { b } else { b + 1 };
        assert(r[a] == s[a0] && r[b] == s[b0]);
    }
    let kept = labels_of(s).filter(|l: Label| (l.0, l.1) != k);
    assert forall|l: Label| labels_of(r).contains(l) <==> kept.contains(l) by {
        if labels_of(r).contains(l) {
            let j = choose|j: int| 0 <= j < r.len() && entry_has(#[trigger] r[j], l);
            let j0 = if j < i { j } else { j + 1 };
            assert(r[j] == s[j0]);
            assert(entry_has(s[j0], l));
            if j0 < i {
                assert(key_lt(s[j0].0, s[i].0));
            } else {
                assert(key_lt(s[i].0, s[j0].0));
            }
        }
        if kept.contains(l) {
            let j = choose|j: int| 0 <= j < s.len() && entry_has(#[trigger] s[j], l);
            assert(j != i);
            if j < i {
                assert(entry_has(r[j], l));
            } else {
                assert(r[j - 1] == s[j]);
                assert(entry_has(r[j - 1], l));
            }
        }
    }
    assert(labels_of(r) =~= kept);
}

/// Taking out an entry with a single timestamp removes exactly that label.
pub proof fn lemma_remove_last_time(s: Seq<StateEntry>, i: int)
    requires
        canonical(s),
        0 <= i < s.len(),
        s[i].1.len() == 1,
    ensures
        labels_of(s.remove(i)) == labels_of(s).remove((s[i].0.0, s[i].0.1, s[i].1[0])),
{
    lemma_remove_entry(s, i);
    let k = s[i].0;
    let gone = (k.0, k.1, s[i].1[0]);
    let kept = labels_of(s).filter(|l: Label| (l.0, l.1) != k);
    assert forall|l: Label| kept.contains(l) <==> labels_of(s).remove(gone).contains(l) by {
        if labels_of(s).contains(l) && (l.0, l.1) == k {
            lemma_entry_labels(s, i, l);
            let c = choose|c: int| 0 <= c < s[i].1.len() && s[i].1[c] == l.2;
            assert(c == 0);
        }
    }
    assert(kept =~= labels_of(s).remove(gone));
}

/// Whether the ranks of the elements of `s` ascend strictly.
pub open spec fn ascending_by<T>(s: Seq<T>, rank: spec_fn(T) -> int) -> bool {
    forall|i: int, j: int| 0 <= i < j < s.len() ==> rank(s[i]) < rank(s[j])
}

/// Two strictly ascending sequences with the same elements are equal.
pub proof fn lemma_ascending_unique<T>(a: Seq<T>, b: Seq<T>, rank: spec_fn(T) -> int)
    requires
        ascending_by(a, rank),
        ascending_by(b, rank),
        forall|x: T, y: T| #![trigger rank(x), rank(y)] rank(x) == rank(y) ==> x == y,
        forall|x: T| a.contains(x) <==> b.contains(x),
    ensures
        a == b,
    decreases a.len(),
{
    if a.len() == 0 {
        if b.len() > 0 {
            assert(b.contains(b[0]));
        }
        assert(a =~= b);
    } else {
        assert(a.contains(a.last()));
        let ja = choose|j: int| 0 <= j < b.len() && b[j] == a.last();
        assert(b.contains(b.last()));
        let jb = choose|j: int| 0 <= j < a.len() && a[j] == b.last();
        if ja < b.len() - 1 {
            assert(rank(b[ja]) < rank(b[b.len() - 1]));
        }
        if jb < a.len() - 1 {
            assert(rank(a[jb]) < rank(a[a.len() - 1]));
        }
        assert(a.last() == b.last());
        let a0 = a.drop_last();
        let b0 = b.drop_last();
        assert forall|x: T| a0.contains(x) <==> b0.contains(x) by {
            if a0.contains(x) {
                let i = choose|i: int| 0 <= i < a0.len() && a0[i] == x;
                assert(a[i] == x);
                assert(rank(a[i]) < rank(a[a.len() - 1]));
                assert(a.contains(x));
                let j = choose|j: int| 0 <= j < b.len() && b[j] == x;
                assert(b0[j] == x);
            }
            if b0.contains(x) {
                let i = choose|i: int| 0 <= i < b0.len() && b0[i] == x;
                assert(b[i] == x);
                assert(rank(b[i]) < rank(b[b.len() - 1]));
                assert(b.contains(x));
                let j = choose|j: int| 0 <= j < a.len() && a[j] == x;
                assert(a0[j] == x);
            }
        }
        assert(ascending_by(a0, rank)) by {
            assert forall|i: int, j: int| 0 <= i < j < a0.len() implies rank(a0[i]) < rank(
                a0[j],
            ) by {
                assert(a0[i] == a[i] && a0[j] == a[j]);
            }
        }
        assert(ascending_by(b0, rank)) by {
            assert forall|i: int, j: int| 0 <= i < j < b0.len() implies rank(b0[i]) < rank(
                b0[j],
            ) by {
                assert(b0[i] == b[i] && b0[j] == b[j]);
            }
        }
        lemma_ascending_unique(a0, b0, rank);
        assert(a =~= a0.push(a.last()));
        assert(b =~= b0.push(b.last()));
    }
}

/// A rank for edge keys that ascends as the keys do.
pub open spec fn key_rank(k: (VertexId, VertexId)) -> int {
    k.0 * 0x1_0000_0000_0000_0000 + k.1
}

/// A set of labels has at most one canonical form.
pub proof fn lemma_state_unique(a: Seq<StateEntry>, b: Seq<StateEntry>)
    requires
        canonical(a),
        canonical(b),
        labels_of(a) == labels_of(b),
    ensures
        a == b,
{
    let ka = a.map_values(|e: StateEntry| e.0);
    let kb = b.map_values(|e: StateEntry| e.0);
    let krank = |k: (VertexId, VertexId)| key_rank(k);
    assert(ascending_by(ka, krank)) by {
        assert forall|i: int, j: int| 0 <= i < j < ka.len() implies krank(ka[i]) < krank(
            ka[j],
        ) by {
            assert(key_lt(a[i].0, a[j].0));
        }
    }
    assert(ascending_by(kb, krank)) by {
        assert forall|i: int, j: int| 0 <= i < j < kb.len() implies krank(kb[i]) < krank(
            kb[j],
        ) by {
            assert(key_lt(b[i].0, b[j].0));
        }
    }
    assert forall|k: (VertexId, VertexId)| ka.contains(k) <==> kb.contains(k) by {
        if ka.contains(k) {
            let i = choose|i: int| 0 <= i < ka.len() && ka[i] == k;
            assert(valid_entry(a[i]));
            let l = (k.0, k.1, a[i].1[0]);
            assert(entry_has(a[i], l));
            assert(labels_of(a).contains(l));
            let j = choose|j: int| 0 <= j < b.len() && entry_has(#[trigger] b[j], l);
            assert(kb[j] == k);
        }
        if kb.contains(k) {
            let i = choose|i: int| 0 <= i < kb.len() && kb[i] == k;
            assert(valid_entry(b[i]));
            let l = (k.0, k.1, b[i].1[0]);
            assert(entry_has(b[i], l));
            assert(labels_of(b).contains(l));
            let j = choose|j: int| 0 <= j < a.len() && entry_has(#[trigger] a[j], l);
            assert(ka[j] == k);
        }
    }
    lemma_ascending_unique(ka, kb, krank);
    assert(a.len() == ka.len() && b.len() == kb.len());
    let trank = |t: TimeStep| t as int;
    assert forall|i: int| 0 <= i < a.len() implies a[i] == b[i] by {
        assert(ka[i] == a[i].0 && kb[i] == b[i].0);
        assert(valid_entry(a[i]) && valid_entry(b[i]));
        assert forall|t: TimeStep| a[i].1.contains(t) <==> b[i].1.contains(t) by {
            let l = (a[i].0.0, a[i].0.1, t);
            lemma_entry_labels(a, i, l);
            lemma_entry_labels(b, i, l);
        }
        lemma_ascending_unique(a[i].1, b[i].1, trank);
    }
    assert(a =~= b);
}

/// The canonical form of the label set `labels`, where it has one.
pub open spec fn state_of(labels: Set<Label>) -> Seq<StateEntry> {
    choose|s: Seq<StateEntry>| is_state_of(s, labels)
}

/// A canonical form of a label set is its canonical form.
pub proof fn lemma_state_of(s: Seq<StateEntry>, labels: Set<Label>)
    requires
        is_state_of(s, labels),
    ensures
        state_of(labels) == s,
{
    lemma_state_unique(s, state_of(labels));
}

/// A snapshot of a graph's edges and labels in canonical form. Two graphs
/// have equal states exactly when they have the same labels, whatever the
/// order in which those were added.
#[derive(Debug, Clone, Eq, Hash)]
pub struct GraphState {
    pub(crate) edge_labels: Vec<((VertexId, VertexId), Vec<TimeStep>)>,
}

impl View for GraphState {
    type V = Seq<StateEntry>;

    closed spec fn view(&self) -> Seq<StateEntry> {
        state_entries(self.edge_labels@)
    }
}

/// The entries that a vector of keys and timestamp vectors stands for.
pub open spec fn state_entries(v: Seq<((VertexId, VertexId), Vec<TimeStep>)>) -> Seq<StateEntry> {
    v.map_values(|e: ((VertexId, VertexId), Vec<TimeStep>)| (e.0, e.1@))
}

/// Whether two vectors of timestamps hold the same sequence.
fn same_times(a: &Vec<TimeStep>, b: &Vec<TimeStep>) -> (same: bool)
    ensures
        same == (a@ == b@),
{
    if a.len() != b.len() {
        return false;
    }
    let mut i: usize = 0;
    while i < a.len()
        invariant
            i <= a.len(),
            a.len() == b.len(),
            forall|j: int| 0 <= j < i ==> a[j] == b[j],
        decreases a.len() - i,
    {
        if a[i] != b[i] {
            return false;
        }
        i += 1;
    }
    assert(a@ =~= b@);
    true
}

impl GraphState {
    /// The snapshot that holds the given edges and timestamps.
    pub(crate) fn from_entries(edge_labels: Vec<((VertexId, VertexId), Vec<TimeStep>)>) -> (state:
        GraphState)
        ensures
            state@ == state_entries(edge_labels@),
    {
        GraphState { edge_labels }
    }

    /// The edges of the snapshot, each with its timestamps, in canonical
    /// order.
    pub fn edge_labels(&self) -> (entries: &Vec<((VertexId, VertexId), Vec<TimeStep>)>)
        ensures
            state_entries(entries@) == self@,
    {
        &self.edge_labels
    }

    /// Whether two snapshots hold the same edges with the same timestamps.
    pub fn equals(&self, other: &GraphState) -> (same: bool)
        ensures
            same == (self@ == other@),
    {
        if self.edge_labels.len() != other.edge_labels.len() {
            return false;
        }
        let mut i: usize = 0;
        while i < self.edge_labels.len()
            invariant
                i <= self.edge_labels.len(),
                self.edge_labels.len() == other.edge_labels.len(),
                self@.len() == self.edge_labels.len(),
                other@.len() == other.edge_labels.len(),
                forall|j: int| 0 <= j < i ==> self@[j] == other@[j],
            decreases self.edge_labels.len() - i,
        {
            let same_key = self.edge_labels[i].0.0 == other.edge_labels[i].0.0
                && self.edge_labels[i].0.1 == other.edge_labels[i].0.1;
            if !same_key || !same_times(&self.edge_labels[i].1, &other.edge_labels[i].1) {
                assert(self@[i as int] != other@[i as int]);
                return false;
            }
            i += 1;
        }
        assert(self@ =~= other@);
        true
    }
}

impl PartialEq for GraphState {
    fn eq(&self, other: &GraphState) -> (same: bool) {
        self.equals(other)
    }
}

impl PartialEqSpecImpl for GraphState {
    open spec fn obeys_eq_spec() -> bool {
        true
    }

    open spec fn eq_spec(&self, other: &GraphState) -> bool {
        self@ == other@
    }
}

} // verus!
