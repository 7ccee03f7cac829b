//! The link and tag graph: mappings from a title (or tag) to the distinct
//! set of note titles that reference it, updated as notes are written,
//! renamed and deleted.
use vstd::prelude::*;

use crate::bytes::eq_bytes;

verus! {

/// Is `v` among the views of `vals`?
pub open spec fn vec_has(vals: Seq<Vec<u8>>, v: Seq<u8>) -> bool {
    exists|j: int| 0 <= j < vals.len() && vals[j]@ == v
}


/// Lexicographic (bytewise) order on byte strings; a proper prefix comes
/// first.
pub open spec fn lex_lt(a: Seq<u8>, b: Seq<u8>) -> bool
    decreases a.len(),
{
    if b.len() == 0 {
        false
    } else if a.len() == 0 {
        true
    } else if a[0] < b[0] {
        true
    } else if a[0] > b[0] {
        false
    } else {
        lex_lt(a.drop_first(), b.drop_first())
    }
}

pub proof fn lemma_lex_irrefl(a: Seq<u8>)
    ensures
        !lex_lt(a, a),
    decreases a.len(),
{
    if a.len() > 0 {
        lemma_lex_irrefl(a.drop_first());
    }
}

pub proof fn lemma_lex_trichotomy(a: Seq<u8>, b: Seq<u8>)
    ensures
        lex_lt(a, b) || lex_lt(b, a) || a == b,
    decreases a.len(),
{
    if a.len() == 0 && b.len() == 0 {
        assert(a =~= b);
    } else if a.len() > 0 && b.len() > 0 && a[0] == b[0] {
        lemma_lex_trichotomy(a.drop_first(), b.drop_first());
        if a.drop_first() == b.drop_first() {
            assert(a =~= seq![a[0]] + a.drop_first());
            assert(b =~= seq![b[0]] + b.drop_first());
        }
    }
}

pub proof fn lemma_lex_trans(a: Seq<u8>, b: Seq<u8>, c: Seq<u8>)
    requires
        lex_lt(a, b),
        lex_lt(b, c),
    ensures
        lex_lt(a, c),
    decreases a.len(),
{
    if a.len() > 0 && b.len() > 0 && c.len() > 0 && a[0] == b[0] && b[0] == c[0] {
        lemma_lex_trans(a.drop_first(), b.drop_first(), c.drop_first());
    }
}

/// Is `a` lexicographically before `b`?
pub fn lex_less(a: &[u8], b: &[u8]) -> (r: bool)
    ensures
        r == lex_lt(a@, b@),
{
    let na = a.len();
    let nb = b.len();
    let mut i: usize = 0;
    proof {
        assert(a@.skip(0) =~= a@);
        assert(b@.skip(0) =~= b@);
    }
    while i < na && i < nb
        invariant
            0 <= i <= na == a@.len(),
            0 <= i <= nb == b@.len(),
            lex_lt(a@, b@) == lex_lt(a@.skip(i as int), b@.skip(i as int)),
        decreases na - i,
    {
        proof {
            let sa = a@.skip(i as int);
            let sb = b@.skip(i as int);
            assert(sa[0] == a@[i as int]);
            assert(sb[0] == b@[i as int]);
            assert(sa.drop_first() =~= a@.skip(i as int + 1));
            assert(sb.drop_first() =~= b@.skip(i as int + 1));
        }
        if a[i] < b[i] {
            return true;
        }
        if a[i] > b[i] {
            return false;
        }
        i = i + 1;
    }
    proof {
        let sa = a@.skip(i as int);
        let sb = b@.skip(i as int);
        assert(sa.len() == 0 || sb.len() == 0);
    }
    na < nb
}

/// One mapping of the graph: association entries from a key to the distinct
/// values recorded under it.  Keys are distinct and kept in lexicographic
/// order, so iteration is deterministic.
pub struct TitleMap {
    pub entries: Vec<(Vec<u8>, Vec<Vec<u8>>)>,
}

/// Does `entries` hold key `k`?
pub open spec fn sk_has(entries: Seq<(Vec<u8>, Vec<Vec<u8>>)>, k: Seq<u8>) -> bool {
    exists|i: int| 0 <= i < entries.len() && entries[i].0@ == k
}

/// Does `entries` record value `v` under key `k`?
pub open spec fn sk_val(entries: Seq<(Vec<u8>, Vec<Vec<u8>>)>, k: Seq<u8>, v: Seq<u8>) -> bool {
    exists|i: int| 0 <= i < entries.len() && entries[i].0@ == k && vec_has(entries[i].1@, v)
}

impl TitleMap {
    /// Well-formed: keys are distinct and lexicographically ordered, and
    /// the values under each key are distinct.
    pub open spec fn wf(&self) -> bool {
        &&& forall|i: int, j: int|
            0 <= i < j < self.entries@.len() ==> self.entries@[i].0@ != self.entries@[j].0@
        &&& forall|i: int, j: int|
            0 <= i < j < self.entries@.len() ==> lex_lt(
                self.entries@[i].0@,
                self.entries@[j].0@,
            )
        &&& forall|i: int, j1: int, j2: int|
            0 <= i < self.entries@.len() && 0 <= j1 < j2 < self.entries@[i].1@.len()
                ==> self.entries@[i].1@[j1]@ != self.entries@[i].1@[j2]@
    }

    /// Does the mapping hold key `k`?
    pub open spec fn has_key(&self, k: Seq<u8>) -> bool {
        sk_has(self.entries@, k)
    }

    /// Is `v` recorded under `k`?
    pub open spec fn val_in(&self, k: Seq<u8>, v: Seq<u8>) -> bool {
        sk_val(self.entries@, k, v)
    }

    /// An empty mapping.
    pub fn new() -> (r: TitleMap)
        ensures
            r.wf(),
            forall|k: Seq<u8>| !r.has_key(k),
            forall|k: Seq<u8>, v: Seq<u8>| !r.val_in(k, v),
    {
        TitleMap { entries: Vec::new() }
    }

    /// Index of the entry with key `k`, or the number of entries.
    fn find_entry(&self, k: &[u8]) -> (r: usize)
        ensures
            r <= self.entries@.len(),
            r < self.entries@.len() ==> self.entries@[r as int].0@ == k@,
            r == self.entries@.len() ==> !self.has_key(k@),
    {
        let n = self.entries.len();
        let mut i: usize = 0;
        while i < n
            invariant
                0 <= i <= n == self.entries@.len(),
                forall|m: int| 0 <= m < i ==> self.entries@[m].0@ != k@,
            decreases n - i,
        {
            if eq_bytes(self.entries[i].0.as_slice(), k) {
                return i;
            }
            i = i + 1;
        }
        i
    }

    /// Record `v` under `k`, creating the key if new and deduplicating so a
    /// value appears at most once per key.
    pub fn insert_value(&mut self, k: &[u8], v: &[u8])
        requires
            old(self).wf(),
        ensures
            final(self).wf(),
            forall|k2: Seq<u8>|
                #[trigger] final(self).has_key(k2) <==> old(self).has_key(k2) || k2 == k@,
            forall|k2: Seq<u8>, v2: Seq<u8>|
                #[trigger] final(self).val_in(k2, v2) <==> old(self).val_in(k2, v2) || (k2 == k@
                    && v2 == v@),
    {
        let i = self.find_entry(k);
        if i < self.entries.len() {
            let mut e = self.entries.remove(i);
            let already = vec_contains(&e.1, v);
            if !already {
                e.1.push(vstd::slice::slice_to_vec(v));
            }
            self.entries.insert(i, e);
            proof {
                assert(self.entries@ =~= old(self).entries@.update(i as int, e));
                if !already {
                    assert(e.1@.drop_last() =~= old(self).entries@[i as int].1@);
                }
                lemma_update_entry(old(self).entries@, i as int, e, k@, v@, already);
            }
        } else {
            let vals: Vec<Vec<u8>> = vec![vstd::slice::slice_to_vec(v)];
            let e = (vstd::slice::slice_to_vec(k), vals);
            self.insert_entry_sorted(e);
        }
    }

    /// Insert an entry with a fresh key at its lexicographic position.
    fn insert_entry_sorted(&mut self, e: (Vec<u8>, Vec<Vec<u8>>))
        requires
            old(self).wf(),
            !old(self).has_key(e.0@),
            forall|j1: int, j2: int| 0 <= j1 < j2 < e.1@.len() ==> e.1@[j1]@ != e.1@[j2]@,
        ensures
            final(self).wf(),
            forall|k2: Seq<u8>|
                #[trigger] final(self).has_key(k2) <==> old(self).has_key(k2) || k2 == e.0@,
            forall|k2: Seq<u8>, v2: Seq<u8>|
                #[trigger] final(self).val_in(k2, v2) <==> old(self).val_in(k2, v2) || (k2 == e.0@
                    && vec_has(e.1@, v2)),
    {
        let n = self.entries.len();
        let mut pos: usize = 0;
        while pos < n && !lex_less(e.0.as_slice(), self.entries[pos].0.as_slice())
            invariant
                0 <= pos <= n == self.entries@.len(),
                forall|m: int| 0 <= m < pos ==> !lex_lt(e.0@, self.entries@[m].0@),
            decreases n - pos,
        {
            pos = pos + 1;
        }
        let ghost orig = self.entries@;
        let ghost at = pos as int;
        self.entries.insert(pos, e);
        proof {
            assert forall|m: int| 0 <= m < at implies lex_lt(orig[m].0@, e.0@) by {
                lemma_lex_trichotomy(orig[m].0@, e.0@);
                assert(orig[m].0@ != e.0@);
            }
            assert forall|m: int| at <= m < orig.len() implies lex_lt(e.0@, orig[m].0@) by {
                if m > at {
                    lemma_lex_trans(e.0@, orig[at].0@, orig[m].0@);
                }
            }
            let upd = self.entries@;
            assert forall|i: int, j: int| 0 <= i < j < upd.len() implies lex_lt(
                upd[i].0@,
                upd[j].0@,
            ) && upd[i].0@ != upd[j].0@ by {
                let oi: int = if i < at {
                    i
                } else {
                    i - 1
                };
                let oj: int = if j < at {
                    j
                } else {
                    j - 1
                };
                if i != at && j != at {
                    assert(upd[i] == orig[oi]);
                    assert(upd[j] == orig[oj]);
                } else if i == at {
                    assert(upd[j] == orig[oj]);
                } else {
                    assert(upd[i] == orig[oi]);
                }
                if lex_lt(upd[i].0@, upd[j].0@) {
                    lemma_lex_irrefl(upd[i].0@);
                }
            }
            lemma_sk_insert_at(orig, at, e);
        }
    }

    /// Values recorded under `k`, when the key is present.
    pub fn get<'a>(&'a self, k: &[u8]) -> (r: Option<&'a Vec<Vec<u8>>>)
        requires
            self.wf(),
        ensures
            match r {
                Some(vals) => self.has_key(k@) && forall|v2: Seq<u8>|
                    #[trigger] vec_has(vals@, v2) <==> self.val_in(k@, v2),
                None => !self.has_key(k@),
            },
    {
        let i = self.find_entry(k);
        if i < self.entries.len() {
            let vals = &self.entries[i].1;
            proof {
                assert forall|v2: Seq<u8>| #[trigger] vec_has(vals@, v2) implies self.val_in(
                    k@,
                    v2,
                ) by {
                    assert(self.entries@[i as int].0@ == k@ && vec_has(
                        self.entries@[i as int].1@,
                        v2,
                    ));
                }
                assert forall|v2: Seq<u8>| self.val_in(k@, v2) implies #[trigger] vec_has(
                    vals@,
                    v2,
                ) by {
                    let w = choose|w: int|
                        0 <= w < self.entries@.len() && self.entries@[w].0@ == k@ && vec_has(
                            self.entries@[w].1@,
                            v2,
                        );
                    assert(w == i);
                }
            }
            Some(vals)
        } else {
            None
        }
    }

    /// Drop the key `t` and remove `t` as a value from every entry: after a
    /// delete no entry references the title.
    pub fn remove_title(&mut self, t: &[u8])
        requires
            old(self).wf(),
        ensures
            final(self).wf(),
            forall|k2: Seq<u8>|
                #[trigger] final(self).has_key(k2) <==> old(self).has_key(k2) && k2 != t@,
            forall|k2: Seq<u8>, v2: Seq<u8>|
                #[trigger] final(self).val_in(k2, v2) <==> old(self).val_in(k2, v2) && k2 != t@
                    && v2 != t@,
    {
        let ghost orig = self.entries@;
        let n = self.entries.len();
        let mut out: Vec<(Vec<u8>, Vec<Vec<u8>>)> = Vec::new();
        let mut i: usize = 0;
        proof {
            assert(orig.take(0) =~= Seq::<(Vec<u8>, Vec<Vec<u8>>)>::empty());
        }
        while i < n
            invariant
                0 <= i <= n == orig.len(),
                orig == self.entries@,
                old(self).wf(),
                orig == old(self).entries@,
                forall|m1: int, m2: int|
                    0 <= m1 < m2 < out@.len() ==> out@[m1].0@ != out@[m2].0@,
                forall|m1: int, m2: int|
                    0 <= m1 < m2 < out@.len() ==> lex_lt(out@[m1].0@, out@[m2].0@),
                out@.len() > 0 ==> exists|w: int|
                    0 <= w < i && out@.last().0@ == #[trigger] orig[w].0@,
                forall|m: int, j1: int, j2: int|
                    0 <= m < out@.len() && 0 <= j1 < j2 < out@[m].1@.len() ==> out@[m].1@[j1]@
                        != out@[m].1@[j2]@,
                forall|k2: Seq<u8>|
                    #[trigger] sk_has(out@, k2) <==> sk_has(orig.take(i as int), k2) && k2 != t@,
                forall|k2: Seq<u8>, v2: Seq<u8>|
                    #[trigger] sk_val(out@, k2, v2) <==> sk_val(orig.take(i as int), k2, v2) && k2
                        != t@ && v2 != t@,
            decreases n - i,
        {
            let e = &self.entries[i];
            let ghost out0 = out@;
            if !eq_bytes(e.0.as_slice(), t) {
                let mut vals: Vec<Vec<u8>> = Vec::new();
                let vn = e.1.len();
                let mut j: usize = 0;
                proof {
                    assert(e.1@.take(0) =~= Seq::<Vec<u8>>::empty());
                }
                while j < vn
                    invariant
                        0 <= j <= vn == e.1@.len(),
                        e == &self.entries@[i as int],
                        0 <= i < self.entries@.len(),
                        old(self).wf(),
                        self.entries@ == old(self).entries@,
                        forall|j1: int, j2: int|
                            0 <= j1 < j2 < vals@.len() ==> vals@[j1]@ != vals@[j2]@,
                        forall|v2: Seq<u8>|
                            #[trigger] vec_has(vals@, v2) <==> vec_has(e.1@.take(j as int), v2)
                                && v2 != t@,
                    decreases vn - j,
                {
                    let keep = !eq_bytes(e.1[j].as_slice(), t);
                    proof {
                        assert(e.1@.take(j + 1) =~= e.1@.take(j as int).push(e.1@[j as int]));
                        assert forall|v2: Seq<u8>| #[trigger] vec_has(e.1@.take(j + 1), v2)
                            implies vec_has(e.1@.take(j as int), v2) || v2 == e.1@[j as int]@ by {
                            let w = choose|w: int|
                                0 <= w < j + 1 && #[trigger] e.1@.take(j + 1)[w]@ == v2;
                            if w < j {
                                assert(e.1@.take(j as int)[w]@ == v2);
                            }
                        }
                        if vec_has(vals@, e.1@[j as int]@) {
                            let w = choose|w: int|
                                0 <= w < e.1@.take(j as int).len() && e.1@.take(j as int)[w]@
                                    == e.1@[j as int]@;
                            assert(e.1@[w]@ == e.1@[j as int]@);
                        }
                    }
                    if keep {
                        let ghost vals0 = vals@;
                        vals.push(vstd::slice::slice_to_vec(e.1[j].as_slice()));
                        proof {
                            assert(vals@.len() == vals0.len() + 1);
                            assert(vals@.last()@ == e.1@[j as int]@);
                            assert forall|w: int| 0 <= w < vals0.len() implies vals@[w] == vals0[w]
                                by {}
                            assert forall|v2: Seq<u8>|
                                vec_has(e.1@.take(j + 1), v2) && v2 != t@ implies #[trigger] vec_has(
                                vals@,
                                v2,
                            ) by {
                                if vec_has(e.1@.take(j as int), v2) {
                                    assert(vec_has(vals0, v2));
                                    let w = choose|w: int|
                                        0 <= w < vals0.len() && vals0[w]@ == v2;
                                    assert(vals@[w]@ == v2);
                                } else {
                                    assert(v2 == e.1@[j as int]@);
                                    assert(vals@.last()@ == v2);
                                }
                            }
                            assert forall|v2: Seq<u8>| #[trigger] vec_has(vals@, v2) implies
                                vec_has(e.1@.take(j + 1), v2) && v2 != t@ by {
                                let w = choose|w: int| 0 <= w < vals@.len() && vals@[w]@ == v2;
                                if w < vals0.len() {
                                    assert(vals0[w]@ == v2);
                                    assert(vec_has(vals0, v2));
                                    let m = choose|m: int|
                                        0 <= m < e.1@.take(j as int).len() && #[trigger] e.1@.take(
                                            j as int,
                                        )[m]@ == v2;
                                    assert(e.1@.take(j + 1)[m]@ == v2);
                                } else {
                                    assert(v2 == e.1@[j as int]@);
                                    assert(e.1@.take(j + 1)[j as int]@ == v2);
                                }
                            }
                        }
                    }
                    j = j + 1;
                }
                proof {
                    assert(e.1@.take(vn as int) =~= e.1@);
                }
                let ne = (vstd::slice::slice_to_vec(e.0.as_slice()), vals);
                proof {
                    if sk_has(out0, ne.0@) {
                        let w = choose|w: int| 0 <= w < out0.len() && out0[w].0@ == ne.0@;
                        assert(sk_has(orig.take(i as int), ne.0@));
                        let m = choose|m: int|
                            0 <= m < i && orig.take(i as int)[m].0@ == ne.0@;
                        assert(orig[m].0@ == orig[i as int].0@);
                        assert(false);
                    }
                }
                out.push(ne);
                proof {
                    lemma_sk_push(out0, ne);
                    if out0.len() > 0 {
                        let w = choose|w: int| 0 <= w < i && out0.last().0@ == #[trigger] orig[w].0@;
                        assert(lex_lt(orig[w].0@, orig[i as int].0@));
                        assert(lex_lt(out0.last().0@, ne.0@));
                        assert forall|m1: int, m2: int| 0 <= m1 < m2 < out@.len() implies lex_lt(
                            out@[m1].0@,
                            out@[m2].0@,
                        ) by {
                            if m2 == out@.len() - 1 {
                                if m1 < out0.len() - 1 {
                                    assert(lex_lt(out0[m1].0@, out0.last().0@));
                                    lemma_lex_trans(out0[m1].0@, out0.last().0@, ne.0@);
                                }
                            } else {
                                assert(out@[m1] == out0[m1]);
                                assert(out@[m2] == out0[m2]);
                            }
                        }
                    }
                    assert(out@.last().0@ == orig[i as int].0@);
                }
            }
            proof {
                assert(orig.take(i + 1) =~= orig.take(i as int).push(orig[i as int]));
                lemma_sk_push(orig.take(i as int), orig[i as int]);
            }
            i = i + 1;
        }
        proof {
            assert(orig.take(n as int) =~= orig);
        }
        self.entries = out;
    }

    /// Rename: every occurrence of `old_t` as a value becomes `new_t`, and
    /// the key `old_t`, if present, migrates to `new_t`, merging value sets
    /// when `new_t` already exists.
    pub fn rename(&mut self, new_t: &[u8], old_t: &[u8])
        requires
            old(self).wf(),
            new_t@ != old_t@,
        ensures
            final(self).wf(),
            rename_rel(*old(self), *final(self), new_t@, old_t@),
    {
        let ghost orig = self.entries@;
        // First pass: rename the values of every entry.
        let n = self.entries.len();
        let mut out: Vec<(Vec<u8>, Vec<Vec<u8>>)> = Vec::new();
        let mut i: usize = 0;
        while i < n
            invariant
                0 <= i <= n == orig.len(),
                orig == self.entries@,
                old(self).wf(),
                orig == old(self).entries@,
                out@.len() == i,
                forall|m: int| 0 <= m < i ==> out@[m].0@ == orig[m].0@,
                forall|m: int, j1: int, j2: int|
                    0 <= m < i && 0 <= j1 < j2 < out@[m].1@.len() ==> out@[m].1@[j1]@
                        != out@[m].1@[j2]@,
                forall|m: int, v2: Seq<u8>|
                    0 <= m < i ==> (#[trigger] vec_has(out@[m].1@, v2) <==> (vec_has(
                        orig[m].1@,
                        v2,
                    ) && v2 != old_t@) || (v2 == new_t@ && vec_has(orig[m].1@, old_t@))),
            decreases n - i,
        {
            let e = &self.entries[i];
            let vals = rename_vals(&e.1, new_t, old_t);
            out.push((vstd::slice::slice_to_vec(e.0.as_slice()), vals));
            i = i + 1;
        }
        self.entries = out;
        let ghost mid = self.entries@;
        proof {
            // Key set unchanged; the recorded values are the renamed ones.
            assert forall|k2: Seq<u8>| #[trigger] sk_has(mid, k2) implies sk_has(orig, k2) by {
                let w = choose|w: int| 0 <= w < mid.len() && mid[w].0@ == k2;
                assert(orig[w].0@ == k2);
            }
            assert forall|k2: Seq<u8>| #[trigger] sk_has(orig, k2) implies sk_has(mid, k2) by {
                let w = choose|w: int| 0 <= w < orig.len() && orig[w].0@ == k2;
                assert(mid[w].0@ == k2);
            }
            assert forall|k2: Seq<u8>, v2: Seq<u8>| #[trigger] sk_val(mid, k2, v2) implies (sk_val(
                orig,
                k2,
                v2,
            ) && v2 != old_t@) || (v2 == new_t@ && sk_val(orig, k2, old_t@)) by {
                let w = choose|w: int|
                    0 <= w < mid.len() && mid[w].0@ == k2 && vec_has(mid[w].1@, v2);
                assert(vec_has(orig[w].1@, v2) && v2 != old_t@ || (v2 == new_t@ && vec_has(
                    orig[w].1@,
                    old_t@,
                )));
            }
            assert forall|k2: Seq<u8>, v2: Seq<u8>|
                (sk_val(orig, k2, v2) && v2 != old_t@) || (v2 == new_t@ && sk_val(
                    orig,
                    k2,
                    old_t@,
                )) implies #[trigger] sk_val(mid, k2, v2) by {
                if sk_val(orig, k2, v2) && v2 != old_t@ {
                    let w = choose|w: int|
                        0 <= w < orig.len() && orig[w].0@ == k2 && vec_has(orig[w].1@, v2);
                    assert(vec_has(mid[w].1@, v2));
                    assert(mid[w].0@ == k2);
                } else {
                    let w = choose|w: int|
                        0 <= w < orig.len() && orig[w].0@ == k2 && vec_has(orig[w].1@, old_t@);
                    assert(vec_has(mid[w].1@, v2));
                    assert(mid[w].0@ == k2);
                }
            }
        }
        proof {
            assert forall|i2: int, j2: int| 0 <= i2 < j2 < self.entries@.len() implies self.entries@[i2].0@
                != self.entries@[j2].0@ by {
                assert(orig[i2].0@ != orig[j2].0@);
            }
            assert forall|i2: int, j2: int| 0 <= i2 < j2 < self.entries@.len() implies lex_lt(
                self.entries@[i2].0@,
                self.entries@[j2].0@,
            ) by {
                assert(lex_lt(orig[i2].0@, orig[j2].0@));
            }
            assert(self.wf());
        }
        // Second pass: migrate the key itself.
        let io = self.find_entry(old_t);
        if io < self.entries.len() {
            let eo = self.entries.remove(io);
            proof {
                lemma_sk_remove(mid, io as int);
            }
            let ghost mid2 = *self;
            proof {
                let rem = self.entries@;
                assert forall|a: int, b: int| 0 <= a < b < rem.len() implies rem[a].0@
                    != rem[b].0@ && lex_lt(rem[a].0@, rem[b].0@) by {
                    let a2: int = if a < io { a } else { a + 1 };
                    let b2: int = if b < io { b } else { b + 1 };
                    assert(rem[a] == mid[a2]);
                    assert(rem[b] == mid[b2]);
                }
                assert forall|m: int, j1: int, j2: int|
                    0 <= m < rem.len() && 0 <= j1 < j2 < rem[m].1@.len() implies rem[m].1@[j1]@
                    != rem[m].1@[j2]@ by {
                    let m2: int = if m < io { m } else { m + 1 };
                    assert(rem[m] == mid[m2]);
                }
                assert(mid2.wf());
            }
            proof {
                assert forall|v2: Seq<u8>| #[trigger] vec_has(eo.1@, v2) implies sk_val(
                    mid,
                    old_t@,
                    v2,
                ) by {
                    assert(mid[io as int].0@ == old_t@ && vec_has(mid[io as int].1@, v2));
                }
                assert forall|v2: Seq<u8>| sk_val(mid, old_t@, v2) implies #[trigger] vec_has(
                    eo.1@,
                    v2,
                ) by {
                    let w = choose|w: int|
                        0 <= w < mid.len() && mid[w].0@ == old_t@ && vec_has(mid[w].1@, v2);
                    assert(w == io as int);
                }
            }
            let vn = eo.1.len();
            let mut j: usize = 0;
            while j < vn
                invariant
                    0 <= j <= vn == eo.1@.len(),
                    mid2.wf(),
                    self.wf(),
                    forall|k2: Seq<u8>|
                        #[trigger] self.has_key(k2) <==> mid2.has_key(k2) || (j > 0 && k2
                            == new_t@),
                    forall|k2: Seq<u8>, v2: Seq<u8>|
                        #[trigger] self.val_in(k2, v2) <==> mid2.val_in(k2, v2) || (k2 == new_t@
                            && vec_has(eo.1@.take(j as int), v2)),
                decreases vn - j,
            {
                self.insert_value(new_t, eo.1[j].as_slice());
                proof {
                    assert(eo.1@.take(j + 1) =~= eo.1@.take(j as int).push(eo.1@[j as int]));
                    assert forall|v2: Seq<u8>| #[trigger] vec_has(eo.1@.take(j + 1), v2) implies
                        vec_has(eo.1@.take(j as int), v2) || v2 == eo.1@[j as int]@ by {
                        let w = choose|w: int|
                            0 <= w < j + 1 && #[trigger] eo.1@.take(j + 1)[w]@ == v2;
                        if w < j {
                            assert(eo.1@.take(j as int)[w]@ == v2);
                        }
                    }
                    assert forall|v2: Seq<u8>| vec_has(eo.1@.take(j as int), v2) implies
                        #[trigger] vec_has(eo.1@.take(j + 1), v2) by {
                        let w = choose|w: int|
                            0 <= w < j && #[trigger] eo.1@.take(j as int)[w]@ == v2;
                        assert(eo.1@.take(j + 1)[w]@ == v2);
                    }
                    assert(eo.1@.take(j + 1)[j as int]@ == eo.1@[j as int]@);
                }
                j = j + 1;
            }
            let ghost exit_s = *self;
            proof {
                assert(eo.1@.take(vn as int) =~= eo.1@);
                assert(forall|k2: Seq<u8>|
                    #[trigger] exit_s.has_key(k2) <==> mid2.has_key(k2) || (vn > 0 && k2
                        == new_t@));
                assert(forall|k2: Seq<u8>, v2: Seq<u8>|
                    #[trigger] exit_s.val_in(k2, v2) <==> mid2.val_in(k2, v2) || (k2 == new_t@
                        && vec_has(eo.1@, v2)));
            }
            let has_new = self.contains_key(new_t);
            let need_key = vn == 0 && !has_new;
            if need_key {
                let emptyvals: Vec<Vec<u8>> = Vec::new();
                let ne = (vstd::slice::slice_to_vec(new_t), emptyvals);
                proof {
                    assert(forall|v2: Seq<u8>| !vec_has(ne.1@, v2));
                }
                self.insert_entry_sorted(ne);
            }
            proof {
                let pre = *old(self);
                let post = *self;
                assert(mid[io as int].0@ == old_t@);
                assert(sk_has(mid, old_t@));
                assert(pre.has_key(old_t@));
                assert forall|k: Seq<u8>| #[trigger] post.has_key(k) <==> mid2.has_key(k) || k
                    == new_t@ by {
                    if need_key {
                        assert(post.has_key(k) <==> exit_s.has_key(k) || k == new_t@);
                    } else {
                        assert(post.has_key(k) <==> exit_s.has_key(k));
                        if vn == 0 {
                            assert(has_new);
                            assert(exit_s.has_key(new_t@));
                            assert(mid2.has_key(new_t@));
                        }
                    }
                }
                assert forall|k: Seq<u8>, v: Seq<u8>| #[trigger] post.val_in(k, v) <==> mid2.val_in(
                    k,
                    v,
                ) || (k == new_t@ && vec_has(eo.1@, v)) by {
                    if need_key {
                        assert(post.val_in(k, v) <==> exit_s.val_in(k, v));
                    } else {
                        assert(post.val_in(k, v) <==> exit_s.val_in(k, v));
                    }
                }
                assert forall|k: Seq<u8>| #[trigger] post.has_key(k) <==> (pre.has_key(k) && k
                    != old_t@) || (k == new_t@ && pre.has_key(old_t@)) by {
                    assert(mid2.has_key(k) <==> sk_has(mid, k) && k != old_t@);
                    assert(sk_has(mid, k) <==> pre.has_key(k));
                }
                assert forall|k: Seq<u8>, v: Seq<u8>| #[trigger] post.val_in(k, v) <==> k
                    != old_t@ && (renamed_val_in(pre, k, v, new_t@, old_t@) || (k == new_t@
                    && renamed_val_in(pre, old_t@, v, new_t@, old_t@))) by {
                    assert(mid2.val_in(k, v) <==> sk_val(mid, k, v) && k != old_t@);
                    assert(sk_val(mid, k, v) <==> renamed_val_in(pre, k, v, new_t@, old_t@));
                    assert(vec_has(eo.1@, v) <==> sk_val(mid, old_t@, v));
                    assert(sk_val(mid, old_t@, v) <==> renamed_val_in(
                        pre,
                        old_t@,
                        v,
                        new_t@,
                        old_t@,
                    ));
                }
            }
        } else {
            proof {
                let pre = *old(self);
                let post = *self;
                assert(!pre.has_key(old_t@));
                assert forall|v: Seq<u8>| !(#[trigger] pre.val_in(old_t@, v)) by {}
                assert forall|k: Seq<u8>| #[trigger] post.has_key(k) <==> (pre.has_key(k) && k
                    != old_t@) || (k == new_t@ && pre.has_key(old_t@)) by {
                    assert(post.has_key(k) <==> pre.has_key(k));
                }
                assert forall|k: Seq<u8>, v: Seq<u8>| #[trigger] post.val_in(k, v) <==> k
                    != old_t@ && (renamed_val_in(pre, k, v, new_t@, old_t@) || (k == new_t@
                    && renamed_val_in(pre, old_t@, v, new_t@, old_t@))) by {
                    assert(sk_val(mid, k, v) <==> renamed_val_in(pre, k, v, new_t@, old_t@));
                }
            }
        }
    }

    /// Is the key present?
    pub fn contains_key(&self, k: &[u8]) -> (r: bool)
        ensures
            r == self.has_key(k@),
    {
        let i = self.find_entry(k);
        i < self.entries.len()
    }
}

/// Rename within one value list: `old_t` becomes `new_t`, deduplicated.
fn rename_vals(vals: &Vec<Vec<u8>>, new_t: &[u8], old_t: &[u8]) -> (r: Vec<Vec<u8>>)
    ensures
        forall|j1: int, j2: int| 0 <= j1 < j2 < r@.len() ==> r@[j1]@ != r@[j2]@,
        forall|v2: Seq<u8>|
            #[trigger] vec_has(r@, v2) <==> (vec_has(vals@, v2) && v2 != old_t@) || (v2 == new_t@
                && vec_has(vals@, old_t@)),
{
    let n = vals.len();
    let mut out: Vec<Vec<u8>> = Vec::new();
    let mut j: usize = 0;
    while j < n
        invariant
            0 <= j <= n == vals@.len(),
            forall|j1: int, j2: int| 0 <= j1 < j2 < out@.len() ==> out@[j1]@ != out@[j2]@,
            forall|v2: Seq<u8>|
                #[trigger] vec_has(out@, v2) <==> (vec_has(vals@.take(j as int), v2) && v2
                    != old_t@) || (v2 == new_t@ && vec_has(vals@.take(j as int), old_t@)),
        decreases n - j,
    {
        let w: Vec<u8> = if eq_bytes(vals[j].as_slice(), old_t) {
            vstd::slice::slice_to_vec(new_t)
        } else {
            vstd::slice::slice_to_vec(vals[j].as_slice())
        };
        proof {
            assert(vals@.take(j + 1) =~= vals@.take(j as int).push(vals@[j as int]));
            assert forall|v2: Seq<u8>| #[trigger] vec_has(vals@.take(j + 1), v2) implies vec_has(
                vals@.take(j as int),
                v2,
            ) || v2 == vals@[j as int]@ by {
                let m = choose|m: int| 0 <= m < j + 1 && #[trigger] vals@.take(j + 1)[m]@ == v2;
                if m < j {
                    assert(vals@.take(j as int)[m]@ == v2);
                }
            }
            assert forall|v2: Seq<u8>| vec_has(vals@.take(j as int), v2) implies #[trigger] vec_has(
                vals@.take(j + 1),
                v2,
            ) by {
                let m = choose|m: int| 0 <= m < j && #[trigger] vals@.take(j as int)[m]@ == v2;
                assert(vals@.take(j + 1)[m]@ == v2);
            }
            assert(vals@.take(j + 1)[j as int]@ == vals@[j as int]@);
        }
        let dup = vec_contains(&out, w.as_slice());
        if !dup {
            let ghost out0 = out@;
            out.push(w);
            proof {
                assert(out@.len() == out0.len() + 1);
                assert(out@.last()@ == w@);
                assert forall|m: int| 0 <= m < out0.len() implies out@[m] == out0[m] by {}
                assert forall|v2: Seq<u8>| #[trigger] vec_has(out@, v2) implies vec_has(out0, v2)
                    || v2 == w@ by {
                    let m = choose|m: int| 0 <= m < out@.len() && out@[m]@ == v2;
                    if m < out0.len() {
                        assert(out0[m]@ == v2);
                    }
                }
                assert forall|v2: Seq<u8>| vec_has(out0, v2) implies #[trigger] vec_has(
                    out@,
                    v2,
                ) by {
                    let m = choose|m: int| 0 <= m < out0.len() && out0[m]@ == v2;
                    assert(out@[m]@ == v2);
                }
                assert(vec_has(out@, w@));
            }
        }
        j = j + 1;
    }
    proof {
        assert(vals@.take(n as int) =~= vals@);
    }
    out
}

/// Removing the entry at `io` removes exactly its key (keys being distinct).
proof fn lemma_sk_remove(entries: Seq<(Vec<u8>, Vec<Vec<u8>>)>, io: int)
    requires
        0 <= io < entries.len(),
        forall|i: int, j: int| 0 <= i < j < entries.len() ==> entries[i].0@ != entries[j].0@,
    ensures
        forall|k2: Seq<u8>| #[trigger] sk_has(entries.remove(io), k2) <==> sk_has(entries, k2)
            && k2 != entries[io].0@,
        forall|k2: Seq<u8>, v2: Seq<u8>|
            #[trigger] sk_val(entries.remove(io), k2, v2) <==> sk_val(entries, k2, v2) && k2
                != entries[io].0@,
{
    let rem = entries.remove(io);
    assert forall|k2: Seq<u8>| #[trigger] sk_has(rem, k2) implies sk_has(entries, k2) && k2
        != entries[io].0@ by {
        let w = choose|w: int| 0 <= w < rem.len() && rem[w].0@ == k2;
        if w < io {
            assert(entries[w].0@ == k2);
        } else {
            assert(entries[w + 1].0@ == k2);
        }
    }
    assert forall|k2: Seq<u8>| sk_has(entries, k2) && k2 != entries[io].0@ implies #[trigger] sk_has(
        rem,
        k2,
    ) by {
        let w = choose|w: int| 0 <= w < entries.len() && entries[w].0@ == k2;
        if w < io {
            assert(rem[w].0@ == k2);
        } else {
            assert(rem[w - 1].0@ == k2);
        }
    }
    assert forall|k2: Seq<u8>, v2: Seq<u8>| #[trigger] sk_val(rem, k2, v2) implies sk_val(
        entries,
        k2,
        v2,
    ) && k2 != entries[io].0@ by {
        let w = choose|w: int| 0 <= w < rem.len() && rem[w].0@ == k2 && vec_has(rem[w].1@, v2);
        if w < io {
            assert(entries[w].0@ == k2 && vec_has(entries[w].1@, v2));
        } else {
            assert(entries[w + 1].0@ == k2 && vec_has(entries[w + 1].1@, v2));
        }
    }
    assert forall|k2: Seq<u8>, v2: Seq<u8>|
        sk_val(entries, k2, v2) && k2 != entries[io].0@ implies #[trigger] sk_val(rem, k2, v2) by {
        let w = choose|w: int|
            0 <= w < entries.len() && entries[w].0@ == k2 && vec_has(entries[w].1@, v2);
        if w < io {
            assert(rem[w].0@ == k2 && vec_has(rem[w].1@, v2));
        } else {
            assert(rem[w - 1].0@ == k2 && vec_has(rem[w - 1].1@, v2));
        }
    }
}

/// The value-rename relation: `v` stands among the renamed values of `k`.
pub open spec fn renamed_val_in(
    pre: TitleMap,
    k: Seq<u8>,
    v: Seq<u8>,
    new_t: Seq<u8>,
    old_t: Seq<u8>,
) -> bool {
    (pre.val_in(k, v) && v != old_t) || (v == new_t && pre.val_in(k, old_t))
}

/// What a rename does to a mapping: values renamed everywhere, the old key
/// migrated onto the new one, value sets merged when both existed.
pub open spec fn rename_rel(pre: TitleMap, post: TitleMap, new_t: Seq<u8>, old_t: Seq<u8>) -> bool {
    &&& forall|k: Seq<u8>|
        #[trigger] post.has_key(k) <==> (pre.has_key(k) && k != old_t) || (k == new_t
            && pre.has_key(old_t))
    &&& forall|k: Seq<u8>, v: Seq<u8>|
        #[trigger] post.val_in(k, v) <==> k != old_t && (renamed_val_in(pre, k, v, new_t, old_t)
            || (k == new_t && renamed_val_in(pre, old_t, v, new_t, old_t)))
}


/// Pushing an entry extends the keys by its key and the recorded values by
/// its values.
proof fn lemma_sk_push(entries: Seq<(Vec<u8>, Vec<Vec<u8>>)>, e: (Vec<u8>, Vec<Vec<u8>>))
    ensures
        forall|k2: Seq<u8>| #[trigger] sk_has(entries.push(e), k2) <==> sk_has(entries, k2) || k2
            == e.0@,
        forall|k2: Seq<u8>, v2: Seq<u8>|
            #[trigger] sk_val(entries.push(e), k2, v2) <==> sk_val(entries, k2, v2) || (k2 == e.0@
                && vec_has(e.1@, v2)),
{
    let p = entries.push(e);
    let n = entries.len() as int;
    assert forall|k2: Seq<u8>| #[trigger] sk_has(p, k2) implies sk_has(entries, k2) || k2
        == e.0@ by {
        let w = choose|w: int| 0 <= w < p.len() && p[w].0@ == k2;
        if w < n {
            assert(entries[w].0@ == k2);
        }
    }
    assert forall|k2: Seq<u8>| sk_has(entries, k2) || k2 == e.0@ implies #[trigger] sk_has(
        p,
        k2,
    ) by {
        if k2 == e.0@ {
            assert(p[n].0@ == k2);
        } else {
            let w = choose|w: int| 0 <= w < entries.len() && entries[w].0@ == k2;
            assert(p[w].0@ == k2);
        }
    }
    assert forall|k2: Seq<u8>, v2: Seq<u8>| #[trigger] sk_val(p, k2, v2) implies sk_val(
        entries,
        k2,
        v2,
    ) || (k2 == e.0@ && vec_has(e.1@, v2)) by {
        let w = choose|w: int| 0 <= w < p.len() && p[w].0@ == k2 && vec_has(p[w].1@, v2);
        if w < n {
            assert(entries[w].0@ == k2 && vec_has(entries[w].1@, v2));
        }
    }
    assert forall|k2: Seq<u8>, v2: Seq<u8>|
        sk_val(entries, k2, v2) || (k2 == e.0@ && vec_has(e.1@, v2)) implies #[trigger] sk_val(
        p,
        k2,
        v2,
    ) by {
        if sk_val(entries, k2, v2) {
            let w = choose|w: int|
                0 <= w < entries.len() && entries[w].0@ == k2 && vec_has(entries[w].1@, v2);
            assert(p[w].0@ == k2 && vec_has(p[w].1@, v2));
        } else {
            assert(p[n].0@ == k2 && vec_has(p[n].1@, v2));
        }
    }
}

/// Is `v` among the elements of `vals`?
fn vec_contains(vals: &Vec<Vec<u8>>, v: &[u8]) -> (r: bool)
    ensures
        r == vec_has(vals@, v@),
{
    let n = vals.len();
    let mut j: usize = 0;
    while j < n
        invariant
            0 <= j <= n == vals@.len(),
            forall|m: int| 0 <= m < j ==> vals@[m]@ != v@,
        decreases n - j,
    {
        if eq_bytes(vals[j].as_slice(), v) {
            return true;
        }
        j = j + 1;
    }
    false
}

proof fn lemma_update_entry(
    entries: Seq<(Vec<u8>, Vec<Vec<u8>>)>,
    i: int,
    e: (Vec<u8>, Vec<Vec<u8>>),
    k: Seq<u8>,
    v: Seq<u8>,
    already: bool,
)
    requires
        0 <= i < entries.len(),
        entries[i].0@ == k,
        e.0@ == k,
        already == vec_has(entries[i].1@, v),
        already ==> e.1@ == entries[i].1@,
        !already ==> e.1@.len() == entries[i].1@.len() + 1 && e.1@.drop_last() == entries[i].1@
            && e.1@.last()@ == v,
    ensures
        forall|k2: Seq<u8>| #[trigger] sk_has(entries.update(i, e), k2) <==> sk_has(entries, k2)
            || k2 == k,
        forall|k2: Seq<u8>, v2: Seq<u8>|
            #[trigger] sk_val(entries.update(i, e), k2, v2) <==> sk_val(entries, k2, v2) || (k2
                == k && v2 == v),
{
    let upd = entries.update(i, e);
    assert forall|k2: Seq<u8>| #[trigger] sk_has(upd, k2) implies sk_has(entries, k2) || k2
        == k by {
        let w = choose|w: int| 0 <= w < upd.len() && upd[w].0@ == k2;
        if w != i {
            assert(entries[w].0@ == k2);
        }
    }
    assert forall|k2: Seq<u8>| sk_has(entries, k2) || k2 == k implies #[trigger] sk_has(
        upd,
        k2,
    ) by {
        if k2 == k {
            assert(upd[i].0@ == k2);
        } else {
            let w = choose|w: int| 0 <= w < entries.len() && entries[w].0@ == k2;
            assert(upd[w].0@ == k2);
        }
    }
    assert forall|k2: Seq<u8>, v2: Seq<u8>| #[trigger] sk_val(upd, k2, v2) implies sk_val(
        entries,
        k2,
        v2,
    ) || (k2 == k && v2 == v) by {
        let w = choose|w: int| 0 <= w < upd.len() && upd[w].0@ == k2 && vec_has(upd[w].1@, v2);
        if w != i {
            assert(entries[w].0@ == k2 && vec_has(entries[w].1@, v2));
        } else {
            if !already {
                let j = choose|j: int| 0 <= j < e.1@.len() && e.1@[j]@ == v2;
                if j < e.1@.len() - 1 {
                    assert(entries[i].1@[j]@ == v2);
                    assert(vec_has(entries[i].1@, v2));
                } else {
                    assert(v2 == v);
                }
            }
        }
    }
    assert forall|k2: Seq<u8>, v2: Seq<u8>|
        sk_val(entries, k2, v2) || (k2 == k && v2 == v) implies #[trigger] sk_val(
        upd,
        k2,
        v2,
    ) by {
        if k2 == k && v2 == v {
            if already {
                assert(vec_has(upd[i].1@, v2));
            } else {
                assert(e.1@.last()@ == v2);
                assert(vec_has(e.1@, v2));
            }
            assert(upd[i].0@ == k2);
        } else if sk_val(entries, k2, v2) {
            let w = choose|w: int|
                0 <= w < entries.len() && entries[w].0@ == k2 && vec_has(entries[w].1@, v2);
            if w != i {
                assert(upd[w].0@ == k2 && vec_has(upd[w].1@, v2));
            } else {
                let j = choose|j: int| 0 <= j < entries[i].1@.len() && entries[i].1@[j]@ == v2;
                if !already {
                    assert(e.1@[j]@ == v2);
                }
                assert(vec_has(e.1@, v2));
                assert(upd[i].0@ == k2);
            }
        }
    }
}

/// Inserting an entry at any position adds exactly its key and values.
proof fn lemma_sk_insert_at(
    entries: Seq<(Vec<u8>, Vec<Vec<u8>>)>,
    at: int,
    e: (Vec<u8>, Vec<Vec<u8>>),
)
    requires
        0 <= at <= entries.len(),
        !sk_has(entries, e.0@),
    ensures
        forall|k2: Seq<u8>| #[trigger] sk_has(entries.insert(at, e), k2) <==> sk_has(entries, k2)
            || k2 == e.0@,
        forall|k2: Seq<u8>, v2: Seq<u8>|
            #[trigger] sk_val(entries.insert(at, e), k2, v2) <==> sk_val(entries, k2, v2) || (k2
                == e.0@ && vec_has(e.1@, v2)),
{
    let p = entries.insert(at, e);
    assert forall|k2: Seq<u8>| #[trigger] sk_has(p, k2) implies sk_has(entries, k2) || k2
        == e.0@ by {
        let w = choose|w: int| 0 <= w < p.len() && p[w].0@ == k2;
        if w < at {
            assert(entries[w].0@ == k2);
        } else if w > at {
            assert(entries[w - 1].0@ == k2);
        }
    }
    assert forall|k2: Seq<u8>| sk_has(entries, k2) || k2 == e.0@ implies #[trigger] sk_has(
        p,
        k2,
    ) by {
        if k2 == e.0@ {
            assert(p[at].0@ == k2);
        } else {
            let w = choose|w: int| 0 <= w < entries.len() && entries[w].0@ == k2;
            if w < at {
                assert(p[w].0@ == k2);
            } else {
                assert(p[w + 1].0@ == k2);
            }
        }
    }
    assert forall|k2: Seq<u8>, v2: Seq<u8>| #[trigger] sk_val(p, k2, v2) implies sk_val(
        entries,
        k2,
        v2,
    ) || (k2 == e.0@ && vec_has(e.1@, v2)) by {
        let w = choose|w: int| 0 <= w < p.len() && p[w].0@ == k2 && vec_has(p[w].1@, v2);
        if w < at {
            assert(entries[w].0@ == k2 && vec_has(entries[w].1@, v2));
        } else if w > at {
            assert(entries[w - 1].0@ == k2 && vec_has(entries[w - 1].1@, v2));
        }
    }
    assert forall|k2: Seq<u8>, v2: Seq<u8>|
        sk_val(entries, k2, v2) || (k2 == e.0@ && vec_has(e.1@, v2)) implies #[trigger] sk_val(
        p,
        k2,
        v2,
    ) by {
        if k2 == e.0@ && vec_has(e.1@, v2) {
            assert(p[at].0@ == k2 && vec_has(p[at].1@, v2));
        } else if sk_val(entries, k2, v2) {
            let w = choose|w: int|
                0 <= w < entries.len() && entries[w].0@ == k2 && vec_has(entries[w].1@, v2);
            if w < at {
                assert(p[w].0@ == k2 && vec_has(p[w].1@, v2));
            } else {
                assert(p[w + 1].0@ == k2 && vec_has(p[w + 1].1@, v2));
            }
        }
    }
}


/// A note as the graph sees it: its title, the targets of its page links,
/// and its tags.
pub struct NoteSummary {
    pub title: Vec<u8>,
    pub outlinks: Vec<Vec<u8>>,
    pub tags: Vec<Vec<u8>>,
}

/// Some note of `corpus` has title `v` and links to `k`.
pub open spec fn corpus_links(corpus: Seq<NoteSummary>, k: Seq<u8>, v: Seq<u8>) -> bool {
    exists|i: int|
        0 <= i < corpus.len() && corpus[i].title@ == v && vec_has(corpus[i].outlinks@, k)
}

/// Some note of `corpus` has title `v` and carries tag `k`.
pub open spec fn corpus_tagged(corpus: Seq<NoteSummary>, k: Seq<u8>, v: Seq<u8>) -> bool {
    exists|i: int| 0 <= i < corpus.len() && corpus[i].title@ == v && vec_has(corpus[i].tags@, k)
}

/// The graph records exactly the links and tags of `corpus`.
pub open spec fn built_from(g: LinkGraph, corpus: Seq<NoteSummary>) -> bool {
    &&& forall|k: Seq<u8>, v: Seq<u8>|
        #[trigger] g.backlinks.val_in(k, v) <==> corpus_links(corpus, k, v)
    &&& forall|k: Seq<u8>|
        #[trigger] g.backlinks.has_key(k) <==> exists|i: int|
            0 <= i < corpus.len() && vec_has(corpus[i].outlinks@, k)
    &&& forall|k: Seq<u8>, v: Seq<u8>| #[trigger] g.tags.val_in(k, v) <==> corpus_tagged(
        corpus,
        k,
        v,
    )
    &&& forall|k: Seq<u8>|
        #[trigger] g.tags.has_key(k) <==> exists|i: int|
            0 <= i < corpus.len() && vec_has(corpus[i].tags@, k)
}

/// The link and tag graph of the wiki: backlinks keyed by target title,
/// and the tag index keyed by tag.
pub struct LinkGraph {
    pub backlinks: TitleMap,
    pub tags: TitleMap,
}

impl LinkGraph {
    pub open spec fn wf(&self) -> bool {
        self.backlinks.wf() && self.tags.wf()
    }

    /// An empty graph.
    pub fn new() -> (g: LinkGraph)
        ensures
            g.wf(),
            forall|k: Seq<u8>| !g.backlinks.has_key(k) && !g.tags.has_key(k),
            forall|k: Seq<u8>, v: Seq<u8>| !g.backlinks.val_in(k, v) && !g.tags.val_in(k, v),
    {
        LinkGraph { backlinks: TitleMap::new(), tags: TitleMap::new() }
    }

    /// Record one note: its title becomes a backlink source of every
    /// outlink target, deduplicated, and a carrier of every tag.
    pub fn apply_note(&mut self, title: &[u8], outlinks: &Vec<Vec<u8>>, tags: &Vec<Vec<u8>>)
        requires
            old(self).wf(),
        ensures
            final(self).wf(),
            forall|k: Seq<u8>, v: Seq<u8>|
                #[trigger] final(self).backlinks.val_in(k, v) <==> old(self).backlinks.val_in(
                    k,
                    v,
                ) || (v == title@ && vec_has(outlinks@, k)),
            forall|k: Seq<u8>|
                #[trigger] final(self).backlinks.has_key(k) <==> old(self).backlinks.has_key(k)
                    || vec_has(outlinks@, k),
            forall|k: Seq<u8>, v: Seq<u8>|
                #[trigger] final(self).tags.val_in(k, v) <==> old(self).tags.val_in(k, v) || (v
                    == title@ && vec_has(tags@, k)),
            forall|k: Seq<u8>|
                #[trigger] final(self).tags.has_key(k) <==> old(self).tags.has_key(k) || vec_has(
                    tags@,
                    k,
                ),
    {
        let n = outlinks.len();
        let mut m: usize = 0;
        while m < n
            invariant
                0 <= m <= n == outlinks@.len(),
                self.backlinks.wf(),
                self.tags == old(self).tags,
                forall|k: Seq<u8>, v: Seq<u8>|
                    #[trigger] self.backlinks.val_in(k, v) <==> old(self).backlinks.val_in(k, v)
                        || (v == title@ && vec_has(outlinks@.take(m as int), k)),
                forall|k: Seq<u8>|
                    #[trigger] self.backlinks.has_key(k) <==> old(self).backlinks.has_key(k)
                        || vec_has(outlinks@.take(m as int), k),
            decreases n - m,
        {
            proof {
                lemma_vec_has_take_step(outlinks@, m as int);
            }
            self.backlinks.insert_value(outlinks[m].as_slice(), title);
            m = m + 1;
        }
        proof {
            assert(outlinks@.take(n as int) =~= outlinks@);
        }
        let tn = tags.len();
        let ghost snap = *self;
        let mut m2: usize = 0;
        while m2 < tn
            invariant
                0 <= m2 <= tn == tags@.len(),
                self.tags.wf(),
                self.backlinks == snap.backlinks,
                forall|k: Seq<u8>, v: Seq<u8>|
                    #[trigger] self.tags.val_in(k, v) <==> snap.tags.val_in(k, v) || (v == title@
                        && vec_has(tags@.take(m2 as int), k)),
                forall|k: Seq<u8>|
                    #[trigger] self.tags.has_key(k) <==> snap.tags.has_key(k) || vec_has(
                        tags@.take(m2 as int),
                        k,
                    ),
            decreases tn - m2,
        {
            proof {
                lemma_vec_has_take_step(tags@, m2 as int);
            }
            self.tags.insert_value(tags[m2].as_slice(), title);
            m2 = m2 + 1;
        }
        proof {
            assert(tags@.take(tn as int) =~= tags@);
        }
    }

    /// Rename a note in both mappings.
    pub fn rename(&mut self, new_title: &[u8], old_title: &[u8])
        requires
            old(self).wf(),
            new_title@ != old_title@,
        ensures
            final(self).wf(),
            rename_rel(old(self).backlinks, final(self).backlinks, new_title@, old_title@),
            rename_rel(old(self).tags, final(self).tags, new_title@, old_title@),
    {
        self.backlinks.rename(new_title, old_title);
        self.tags.rename(new_title, old_title);
    }

    /// Forget a note: its key is dropped and its title removed as a value
    /// from every entry of both mappings, leaving no dangling references.
    pub fn delete(&mut self, title: &[u8])
        requires
            old(self).wf(),
        ensures
            final(self).wf(),
            forall|k: Seq<u8>|
                #[trigger] final(self).backlinks.has_key(k) <==> old(self).backlinks.has_key(k)
                    && k != title@,
            forall|k: Seq<u8>, v: Seq<u8>|
                #[trigger] final(self).backlinks.val_in(k, v) <==> old(self).backlinks.val_in(
                    k,
                    v,
                ) && k != title@ && v != title@,
            forall|k: Seq<u8>|
                #[trigger] final(self).tags.has_key(k) <==> old(self).tags.has_key(k) && k
                    != title@,
            forall|k: Seq<u8>, v: Seq<u8>|
                #[trigger] final(self).tags.val_in(k, v) <==> old(self).tags.val_in(k, v) && k
                    != title@ && v != title@,
    {
        self.backlinks.remove_title(title);
        self.tags.remove_title(title);
    }
}

proof fn lemma_vec_has_take_step(vals: Seq<Vec<u8>>, j: int)
    requires
        0 <= j < vals.len(),
    ensures
        forall|v2: Seq<u8>|
            #[trigger] vec_has(vals.take(j + 1), v2) <==> vec_has(vals.take(j), v2) || v2
                == vals[j]@,
{
    assert(vals.take(j + 1) =~= vals.take(j).push(vals[j]));
    assert forall|v2: Seq<u8>| #[trigger] vec_has(vals.take(j + 1), v2) implies vec_has(
        vals.take(j),
        v2,
    ) || v2 == vals[j]@ by {
        let w = choose|w: int| 0 <= w < j + 1 && #[trigger] vals.take(j + 1)[w]@ == v2;
        if w < j {
            assert(vals.take(j)[w]@ == v2);
        }
    }
    assert forall|v2: Seq<u8>| vec_has(vals.take(j), v2) || v2 == vals[j]@ implies #[trigger] vec_has(
        vals.take(j + 1),
        v2,
    ) by {
        if vec_has(vals.take(j), v2) {
            let w = choose|w: int| 0 <= w < j && #[trigger] vals.take(j)[w]@ == v2;
            assert(vals.take(j + 1)[w]@ == v2);
        } else {
            assert(vals.take(j + 1)[j]@ == v2);
        }
    }
}

/// Rebuild: compute the whole graph afresh from the current corpus.
pub fn build_tags_and_links(corpus: &Vec<NoteSummary>) -> (g: LinkGraph)
    ensures
        g.wf(),
        built_from(g, corpus@),
{
    let mut g = LinkGraph::new();
    let n = corpus.len();
    let mut i: usize = 0;
    while i < n
        invariant
            0 <= i <= n == corpus@.len(),
            g.wf(),
            built_from(g, corpus@.take(i as int)),
        decreases n - i,
    {
        let ghost before = g;
        let note = &corpus[i];
        g.apply_note(note.title.as_slice(), &note.outlinks, &note.tags);
        proof {
            let pre = corpus@.take(i as int);
            let cur = corpus@.take(i + 1);
            assert(cur =~= pre.push(corpus@[i as int]));
            assert forall|k: Seq<u8>, v: Seq<u8>| #[trigger] g.backlinks.val_in(k, v) implies
                corpus_links(cur, k, v) by {
                if before.backlinks.val_in(k, v) {
                    let w = choose|w: int|
                        0 <= w < pre.len() && pre[w].title@ == v && vec_has(pre[w].outlinks@, k);
                    assert(cur[w].title@ == v && vec_has(cur[w].outlinks@, k));
                } else {
                    assert(cur[i as int].title@ == v && vec_has(cur[i as int].outlinks@, k));
                }
            }
            assert forall|k: Seq<u8>, v: Seq<u8>| corpus_links(cur, k, v) implies
                #[trigger] g.backlinks.val_in(k, v) by {
                let w = choose|w: int|
                    0 <= w < cur.len() && cur[w].title@ == v && vec_has(cur[w].outlinks@, k);
                if w < i {
                    assert(pre[w].title@ == v && vec_has(pre[w].outlinks@, k));
                    assert(corpus_links(pre, k, v));
                } else {
                    assert(cur[w] == corpus@[i as int]);
                }
            }
            assert forall|k: Seq<u8>| #[trigger] g.backlinks.has_key(k) implies exists|w: int|
                0 <= w < cur.len() && vec_has(cur[w].outlinks@, k) by {
                if before.backlinks.has_key(k) {
                    let w = choose|w: int| 0 <= w < pre.len() && vec_has(pre[w].outlinks@, k);
                    assert(vec_has(cur[w].outlinks@, k));
                } else {
                    assert(vec_has(cur[i as int].outlinks@, k));
                }
            }
            assert forall|k: Seq<u8>|
                (exists|w: int| 0 <= w < cur.len() && vec_has(cur[w].outlinks@, k)) implies
                #[trigger] g.backlinks.has_key(k) by {
                let w = choose|w: int| 0 <= w < cur.len() && vec_has(cur[w].outlinks@, k);
                if w < i {
                    assert(vec_has(pre[w].outlinks@, k));
                    assert(before.backlinks.has_key(k));
                } else {
                    assert(cur[w] == corpus@[i as int]);
                    assert(vec_has(corpus@[i as int].outlinks@, k));
                }
            }
            assert forall|k: Seq<u8>, v: Seq<u8>| #[trigger] g.tags.val_in(k, v) implies
                corpus_tagged(cur, k, v) by {
                if before.tags.val_in(k, v) {
                    let w = choose|w: int|
                        0 <= w < pre.len() && pre[w].title@ == v && vec_has(pre[w].tags@, k);
                    assert(cur[w].title@ == v && vec_has(cur[w].tags@, k));
                } else {
                    assert(cur[i as int].title@ == v && vec_has(cur[i as int].tags@, k));
                }
            }
            assert forall|k: Seq<u8>, v: Seq<u8>| corpus_tagged(cur, k, v) implies
                #[trigger] g.tags.val_in(k, v) by {
                let w = choose|w: int|
                    0 <= w < cur.len() && cur[w].title@ == v && vec_has(cur[w].tags@, k);
                if w < i {
                    assert(pre[w].title@ == v && vec_has(pre[w].tags@, k));
                    assert(corpus_tagged(pre, k, v));
                } else {
                    assert(cur[w] == corpus@[i as int]);
                }
            }
            assert forall|k: Seq<u8>| #[trigger] g.tags.has_key(k) implies exists|w: int|
                0 <= w < cur.len() && vec_has(cur[w].tags@, k) by {
                if before.tags.has_key(k) {
                    let w = choose|w: int| 0 <= w < pre.len() && vec_has(pre[w].tags@, k);
                    assert(vec_has(cur[w].tags@, k));
                } else {
                    assert(vec_has(cur[i as int].tags@, k));
                }
            }
            assert forall|k: Seq<u8>|
                (exists|w: int| 0 <= w < cur.len() && vec_has(cur[w].tags@, k)) implies
                #[trigger] g.tags.has_key(k) by {
                let w = choose|w: int| 0 <= w < cur.len() && vec_has(cur[w].tags@, k);
                if w < i {
                    assert(vec_has(pre[w].tags@, k));
                    assert(before.tags.has_key(k));
                } else {
                    assert(cur[w] == corpus@[i as int]);
                    assert(vec_has(corpus@[i as int].tags@, k));
                }
            }
        }
        i = i + 1;
    }
    proof {
        assert(corpus@.take(n as int) =~= corpus@);
    }
    g
}

/// Rename round-trip law: renaming `b` to `a` and then `a` back to `b`
/// restores the original mapping, provided the intermediate name `a`
/// occurred nowhere in it (as a key or as a value).  When `a` already
/// occurs, the first rename merges it with `b` and the round trip is lost.
pub proof fn lemma_rename_round_trip(
    m0: TitleMap,
    m1: TitleMap,
    m2: TitleMap,
    a: Seq<u8>,
    b: Seq<u8>,
)
    requires
        a != b,
        !m0.has_key(a),
        forall|k: Seq<u8>, v: Seq<u8>| #[trigger] m0.val_in(k, v) ==> v != a,
        rename_rel(m0, m1, a, b),
        rename_rel(m1, m2, b, a),
    ensures
        forall|k: Seq<u8>| #[trigger] m2.has_key(k) <==> m0.has_key(k),
        forall|k: Seq<u8>, v: Seq<u8>| #[trigger] m2.val_in(k, v) <==> m0.val_in(k, v),
{
    assert forall|k: Seq<u8>| #[trigger] m2.has_key(k) <==> m0.has_key(k) by {
        assert(m2.has_key(k) <==> (m1.has_key(k) && k != a) || (k == b && m1.has_key(a)));
        assert(m1.has_key(k) <==> (m0.has_key(k) && k != b) || (k == a && m0.has_key(b)));
        assert(m1.has_key(a) <==> (m0.has_key(a) && a != b) || (a == a && m0.has_key(b)));
        if m0.has_key(k) && k == a {
            assert(false);
        }
    }
    assert forall|k: Seq<u8>, v: Seq<u8>| #[trigger] m2.val_in(k, v) <==> m0.val_in(k, v) by {
        assert(m2.val_in(k, v) <==> k != a && (renamed_val_in(m1, k, v, b, a) || (k == b
            && renamed_val_in(m1, a, v, b, a))));
        assert(m1.val_in(k, v) <==> k != b && (renamed_val_in(m0, k, v, a, b) || (k == a
            && renamed_val_in(m0, b, v, a, b))));
        assert(m1.val_in(k, a) <==> k != b && (renamed_val_in(m0, k, a, a, b) || (k == a
            && renamed_val_in(m0, b, a, a, b))));
        assert(m1.val_in(a, v) <==> a != b && (renamed_val_in(m0, a, v, a, b) || (a == a
            && renamed_val_in(m0, b, v, a, b))));
        assert(m1.val_in(a, a) <==> a != b && (renamed_val_in(m0, a, a, a, b) || (a == a
            && renamed_val_in(m0, b, a, a, b))));
        if m0.val_in(k, v) {
            assert(v != a);
        }
        if m0.val_in(k, a) {
            assert(false);
        }
        if m0.val_in(b, a) {
            assert(false);
        }
        if m0.val_in(a, v) {
            assert(m0.has_key(a));
            assert(false);
        }
        if m0.val_in(a, a) {
            assert(m0.has_key(a));
            assert(false);
        }
    }
}

/// The round-trip law lifted to the whole graph.
pub proof fn lemma_graph_rename_round_trip(
    g0: LinkGraph,
    g1: LinkGraph,
    g2: LinkGraph,
    a: Seq<u8>,
    b: Seq<u8>,
)
    requires
        a != b,
        !g0.backlinks.has_key(a),
        !g0.tags.has_key(a),
        forall|k: Seq<u8>, v: Seq<u8>| #[trigger] g0.backlinks.val_in(k, v) ==> v != a,
        forall|k: Seq<u8>, v: Seq<u8>| #[trigger] g0.tags.val_in(k, v) ==> v != a,
        rename_rel(g0.backlinks, g1.backlinks, a, b),
        rename_rel(g0.tags, g1.tags, a, b),
        rename_rel(g1.backlinks, g2.backlinks, b, a),
        rename_rel(g1.tags, g2.tags, b, a),
    ensures
        forall|k: Seq<u8>| #[trigger] g2.backlinks.has_key(k) <==> g0.backlinks.has_key(k),
        forall|k: Seq<u8>, v: Seq<u8>|
            #[trigger] g2.backlinks.val_in(k, v) <==> g0.backlinks.val_in(k, v),
        forall|k: Seq<u8>| #[trigger] g2.tags.has_key(k) <==> g0.tags.has_key(k),
        forall|k: Seq<u8>, v: Seq<u8>| #[trigger] g2.tags.val_in(k, v) <==> g0.tags.val_in(k, v),
{
    lemma_rename_round_trip(g0.backlinks, g1.backlinks, g2.backlinks, a, b);
    lemma_rename_round_trip(g0.tags, g1.tags, g2.tags, a, b);
}

/// Delete-then-rebuild convergence law: a graph rebuilt from a corpus that
/// no longer holds the deleted title references it as a source nowhere; and
/// when no remaining note links to it, it is no backlink key either.
pub proof fn lemma_rebuild_forgets_deleted(g: LinkGraph, corpus: Seq<NoteSummary>, t: Seq<u8>)
    requires
        built_from(g, corpus),
        forall|i: int| 0 <= i < corpus.len() ==> corpus[i].title@ != t,
    ensures
        forall|k: Seq<u8>, v: Seq<u8>| #[trigger] g.backlinks.val_in(k, v) ==> v != t,
        forall|k: Seq<u8>, v: Seq<u8>| #[trigger] g.tags.val_in(k, v) ==> v != t,
        (forall|i: int| 0 <= i < corpus.len() ==> !vec_has(corpus[i].outlinks@, t))
            ==> !g.backlinks.has_key(t),
{
    assert forall|k: Seq<u8>, v: Seq<u8>| #[trigger] g.backlinks.val_in(k, v) implies v != t by {
        let w = choose|w: int|
            0 <= w < corpus.len() && corpus[w].title@ == v && vec_has(corpus[w].outlinks@, k);
    }
    assert forall|k: Seq<u8>, v: Seq<u8>| #[trigger] g.tags.val_in(k, v) implies v != t by {
        let w = choose|w: int|
            0 <= w < corpus.len() && corpus[w].title@ == v && vec_has(corpus[w].tags@, k);
    }
    if forall|i: int| 0 <= i < corpus.len() ==> !vec_has(corpus[i].outlinks@, t) {
        if g.backlinks.has_key(t) {
            let w = choose|w: int| 0 <= w < corpus.len() && vec_has(corpus[w].outlinks@, t);
            assert(false);
        }
    }
}


} // verus!
