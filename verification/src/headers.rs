//! A header mapping kept as an association list of name/value pairs.
//!
//! Insertion replaces the value of an existing name in place and appends
//! a fresh name at the end, so at most one entry per name ever exists:
//! the semantics of a map in which the last insertion wins.

use vstd::prelude::*;

verus! {

/// The mathematical content of a header list: each pair as its character
/// sequences.
pub open spec fn views_of(hs: Seq<(String, String)>) -> Seq<(Seq<char>, Seq<char>)> {
    hs.map_values(|p: (String, String)| (p.0@, p.1@))
}

/// The value mapped to `k`, going by the first entry that carries it.
pub open spec fn hget(m: Seq<(Seq<char>, Seq<char>)>, k: Seq<char>) -> Option<Seq<char>>
    decreases m.len(),
{
    if m.len() == 0 {
        None
    } else if m[0].0 == k {
        Some(m[0].1)
    } else {
        hget(m.drop_first(), k)
    }
}

/// Mapping `k` to `v`: the first entry for `k` is replaced in place, or a
/// fresh entry is appended.
pub open spec fn hinsert(
    m: Seq<(Seq<char>, Seq<char>)>,
    k: Seq<char>,
    v: Seq<char>,
) -> Seq<(Seq<char>, Seq<char>)>
    decreases m.len(),
{
    if m.len() == 0 {
        seq![(k, v)]
    } else if m[0].0 == k {
        seq![(k, v)] + m.drop_first()
    } else {
        seq![m[0]] + hinsert(m.drop_first(), k, v)
    }
}

/// All insertions of `ps` applied in order.
pub open spec fn hinsert_all(
    m: Seq<(Seq<char>, Seq<char>)>,
    ps: Seq<(Seq<char>, Seq<char>)>,
) -> Seq<(Seq<char>, Seq<char>)>
    decreases ps.len(),
{
    if ps.len() == 0 {
        m
    } else {
        hinsert_all(hinsert(m, ps[0].0, ps[0].1), ps.drop_first())
    }
}

/// An insertion is read back: looking up the inserted name finds the
/// inserted value.
pub proof fn lemma_hget_hinsert_same(m: Seq<(Seq<char>, Seq<char>)>, k: Seq<char>, v: Seq<char>)
    ensures
        hget(hinsert(m, k, v), k) == Some(v),
    decreases m.len(),
{
    if m.len() == 0 {
    } else if m[0].0 == k {
        assert(hinsert(m, k, v)[0] == (k, v));
        assert(hinsert(m, k, v).len() > 0);
    } else {
        lemma_hget_hinsert_same(m.drop_first(), k, v);
        assert(hinsert(m, k, v).drop_first() =~= hinsert(m.drop_first(), k, v));
    }
}

/// An insertion leaves every other name alone.
pub proof fn lemma_hget_hinsert_other(
    m: Seq<(Seq<char>, Seq<char>)>,
    k: Seq<char>,
    v: Seq<char>,
    k2: Seq<char>,
)
    requires
        k2 != k,
    ensures
        hget(hinsert(m, k, v), k2) == hget(m, k2),
    decreases m.len(),
{
    if m.len() == 0 {
        let h = hinsert(m, k, v);
        assert(h == seq![(k, v)]);
        assert(h.drop_first() =~= Seq::<(Seq<char>, Seq<char>)>::empty());
        assert(hget(h.drop_first(), k2) is None);
        assert(hget(h, k2) == hget(h.drop_first(), k2));
    } else if m[0].0 == k {
        let h = hinsert(m, k, v);
        assert(h == seq![(k, v)] + m.drop_first());
        assert(h[0] == (k, v));
        assert(h.drop_first() =~= m.drop_first());
        assert(hget(h, k2) == hget(h.drop_first(), k2));
    } else {
        let h = hinsert(m, k, v);
        assert(h == seq![m[0]] + hinsert(m.drop_first(), k, v));
        assert(h[0] == m[0]);
        lemma_hget_hinsert_other(m.drop_first(), k, v, k2);
        assert(h.drop_first() =~= hinsert(m.drop_first(), k, v));
    }
}

/// Folding one more insertion onto the end of a batch.
pub proof fn lemma_hinsert_all_push(
    m: Seq<(Seq<char>, Seq<char>)>,
    ps: Seq<(Seq<char>, Seq<char>)>,
    p: (Seq<char>, Seq<char>),
)
    ensures
        hinsert_all(m, ps.push(p)) == hinsert(hinsert_all(m, ps), p.0, p.1),
    decreases ps.len(),
{
    let q = ps.push(p);
    if ps.len() == 0 {
        assert(q[0] == p);
        assert(q.drop_first() =~= Seq::<(Seq<char>, Seq<char>)>::empty());
        assert(hinsert_all(m, q) == hinsert_all(hinsert(m, p.0, p.1), q.drop_first()));
        assert(hinsert_all(hinsert(m, p.0, p.1), q.drop_first()) == hinsert(m, p.0, p.1));
        assert(hinsert_all(m, ps) == m);
    } else {
        assert(q[0] == ps[0]);
        assert(q.drop_first() =~= ps.drop_first().push(p));
        assert(hinsert_all(m, q) == hinsert_all(hinsert(m, q[0].0, q[0].1), q.drop_first()));
        lemma_hinsert_all_push(hinsert(m, ps[0].0, ps[0].1), ps.drop_first(), p);
        assert(hinsert_all(m, ps) == hinsert_all(hinsert(m, ps[0].0, ps[0].1), ps.drop_first()));
    }
}

/// Replacing the first entry that carries `k` is exactly `hinsert`.
proof fn lemma_hinsert_update(
    m: Seq<(Seq<char>, Seq<char>)>,
    k: Seq<char>,
    v: Seq<char>,
    i: int,
)
    requires
        0 <= i < m.len(),
        m[i].0 == k,
        forall|j: int| 0 <= j < i ==> m[j].0 != k,
    ensures
        hinsert(m, k, v) =~= m.update(i, (k, v)),
    decreases i,
{
    if i == 0 {
        assert(hinsert(m, k, v) =~= seq![(k, v)] + m.drop_first());
    } else {
        assert(m[0].0 != k);
        lemma_hinsert_update(m.drop_first(), k, v, i - 1);
        assert(hinsert(m, k, v) =~= seq![m[0]] + hinsert(m.drop_first(), k, v));
        assert(m.update(i, (k, v)).drop_first() =~= m.drop_first().update(i - 1, (k, v)));
        assert(hinsert(m, k, v) =~= m.update(i, (k, v)));
    }
}

/// Appending a fresh entry is exactly `hinsert` when no entry carries `k`.
proof fn lemma_hinsert_append(m: Seq<(Seq<char>, Seq<char>)>, k: Seq<char>, v: Seq<char>)
    requires
        forall|j: int| 0 <= j < m.len() ==> m[j].0 != k,
    ensures
        hinsert(m, k, v) =~= m.push((k, v)),
    decreases m.len(),
{
    if m.len() == 0 {
    } else {
        lemma_hinsert_append(m.drop_first(), k, v);
        assert(hinsert(m, k, v) =~= seq![m[0]] + hinsert(m.drop_first(), k, v));
        assert(m.push((k, v)).drop_first() =~= m.drop_first().push((k, v)));
    }
}

/// Maps `key` to `value` in the list, replacing the entry of an existing
/// name and appending a new name at the end.
pub fn header_insert(hs: &mut Vec<(String, String)>, key: String, value: String)
    ensures
        views_of(final(hs)@) == hinsert(views_of(old(hs)@), key@, value@),
{
    let n = hs.len();
    let mut i: usize = 0;
    while i < n
        invariant
            n == hs@.len(),
            0 <= i <= n,
            hs@ == old(hs)@,
            forall|j: int| 0 <= j < i ==> #[trigger] hs@[j].0@ != key@,
        decreases n - i,
    {
        if hs[i].0 == key {
            let v = hs.remove(i);
            hs.insert(i, (v.0, value));
            proof {
                assert(hs@ =~= old(hs)@.update(i as int, (v.0, value)));
                lemma_hinsert_update(views_of(old(hs)@), key@, value@, i as int);
                assert(views_of(hs@) =~= views_of(old(hs)@).update(i as int, (key@, value@)));
            }
            return ;
        }
        i = i + 1;
    }
    hs.push((key, value));
    proof {
        lemma_hinsert_append(views_of(old(hs)@), key@, value@);
        assert(views_of(hs@) =~= views_of(old(hs)@).push((key@, value@)));
    }
}

/// Looks `key` up in the list.
pub fn header_get<'a>(hs: &'a Vec<(String, String)>, key: &str) -> (r: Option<&'a String>)
    ensures
        match r {
            Some(v) => hget(views_of(hs@), key@) == Some(v@),
            None => hget(views_of(hs@), key@) is None,
        },
{
    let n = hs.len();
    let mut i: usize = 0;
    while i < n
        invariant
            n == hs@.len(),
            0 <= i <= n,
            forall|j: int| 0 <= j < i ==> #[trigger] hs@[j].0@ != key@,
        decreases n - i,
    {
        if crate::text::str_eq(hs[i].0.as_str(), key) {
            proof {
                lemma_hget_first_match(views_of(hs@), key@, i as int);
            }
            return Some(&hs[i].1);
        }
        i = i + 1;
    }
    proof {
        lemma_hget_no_match(views_of(hs@), key@);
    }
    None
}

/// A lookup lands on the first entry that carries the name.
proof fn lemma_hget_first_match(m: Seq<(Seq<char>, Seq<char>)>, k: Seq<char>, i: int)
    requires
        0 <= i < m.len(),
        m[i].0 == k,
        forall|j: int| 0 <= j < i ==> m[j].0 != k,
    ensures
        hget(m, k) == Some(m[i].1),
    decreases i,
{
    if i == 0 {
    } else {
        lemma_hget_first_match(m.drop_first(), k, i - 1);
    }
}

/// A lookup of an absent name finds nothing.
proof fn lemma_hget_no_match(m: Seq<(Seq<char>, Seq<char>)>, k: Seq<char>)
    requires
        forall|j: int| 0 <= j < m.len() ==> m[j].0 != k,
    ensures
        hget(m, k) is None,
    decreases m.len(),
{
    if m.len() == 0 {
    } else {
        lemma_hget_no_match(m.drop_first(), k);
    }
}

} // verus!
