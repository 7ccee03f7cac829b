//! Small verified utilities over byte slices: searching, prefix and suffix
//! tests, and substring replacement.  Note text is held as bytes throughout
//! the crate.
use vstd::prelude::*;

verus! {

/// Index of the first occurrence of `b` in `s` (`s.len()` if none).
pub open spec fn index_of(s: Seq<u8>, b: u8) -> nat
    decreases s.len(),
{
    if s.len() == 0 {
        0
    } else if s[0] == b {
        0
    } else {
        1 + index_of(s.drop_first(), b)
    }
}

pub proof fn lemma_index_of(s: Seq<u8>, b: u8)
    ensures
        index_of(s, b) <= s.len(),
        forall|j: int| 0 <= j < index_of(s, b) ==> s[j] != b,
        index_of(s, b) < s.len() ==> s[index_of(s, b) as int] == b,
    decreases s.len(),
{
    if s.len() > 0 && s[0] != b {
        lemma_index_of(s.drop_first(), b);
        assert forall|j: int| 0 <= j < index_of(s, b) implies s[j] != b by {
            if j > 0 {
                assert(s[j] == s.drop_first()[j - 1]);
            }
        }
    }
}

proof fn lemma_index_of_is(s: Seq<u8>, b: u8, m: int)
    requires
        0 <= m <= s.len(),
        forall|k: int| 0 <= k < m ==> s[k] != b,
        m < s.len() ==> s[m] == b,
    ensures
        index_of(s, b) == m,
    decreases s.len(),
{
    if s.len() > 0 && s[0] != b {
        assert forall|k: int| 0 <= k < m - 1 implies s.drop_first()[k] != b by {
            assert(s.drop_first()[k] == s[k + 1]);
        }
        assert(m - 1 < s.drop_first().len() ==> s.drop_first()[m - 1] == b);
        lemma_index_of_is(s.drop_first(), b, m - 1);
    }
}

/// First position of `b` in `v`, or `v.len()` when `b` does not occur.
pub fn find_byte(v: &[u8], b: u8) -> (r: usize)
    ensures
        r == index_of(v@, b),
{
    let n = v.len();
    let mut i: usize = 0;
    while i < n && v[i] != b
        invariant
            0 <= i <= n == v@.len(),
            forall|k: int| 0 <= k < i ==> v@[k] != b,
        decreases n - i,
    {
        i = i + 1;
    }
    proof {
        lemma_index_of_is(v@, b, i as int);
    }
    i
}

/// Does `v` begin with the bytes of `p`?
pub fn starts_with_bytes(v: &[u8], p: &[u8]) -> (r: bool)
    ensures
        r == (v@.len() >= p@.len() && v@.take(p@.len() as int) == p@),
{
    if v.len() < p.len() {
        return false;
    }
    let mut i: usize = 0;
    while i < p.len()
        invariant
            0 <= i <= p@.len() <= v@.len(),
            forall|k: int| 0 <= k < i ==> v@[k] == p@[k],
        decreases p@.len() - i,
    {
        if v[i] != p[i] {
            assert(v@.take(p@.len() as int)[i as int] != p@[i as int]);
            return false;
        }
        i = i + 1;
    }
    proof {
        assert(v@.take(p@.len() as int) =~= p@);
    }
    true
}

/// Does `v` end with the bytes of `p`?
pub fn ends_with_bytes(v: &[u8], p: &[u8]) -> (r: bool)
    ensures
        r == (v@.len() >= p@.len() && v@.skip(v@.len() - p@.len()) == p@),
{
    if v.len() < p.len() {
        return false;
    }
    let n = v.len();
    let off = n - p.len();
    let mut i: usize = 0;
    while i < p.len()
        invariant
            0 <= i <= p@.len(),
            off + p@.len() == n == v@.len(),
            forall|k: int| 0 <= k < i ==> v@[off + k] == p@[k],
        decreases p@.len() - i,
    {
        if v[off + i] != p[i] {
            assert(v@.skip(v@.len() - p@.len())[i as int] != p@[i as int]);
            return false;
        }
        i = i + 1;
    }
    proof {
        assert(v@.skip(v@.len() - p@.len()) =~= p@);
    }
    true
}

/// `n` occurs in `h` starting at position `i`.
pub open spec fn occurs_at(h: Seq<u8>, n: Seq<u8>, i: int) -> bool {
    0 <= i && i + n.len() <= h.len() && h.subrange(i, i + n.len()) == n
}

/// `n` occurs somewhere in `h`.
pub open spec fn contains_seq(h: Seq<u8>, n: Seq<u8>) -> bool {
    exists|i: int| occurs_at(h, n, i)
}

/// Does the byte string `n` occur anywhere in `h`?
pub fn contains_bytes(h: &[u8], n: &[u8]) -> (r: bool)
    ensures
        r == contains_seq(h@, n@),
{
    if n.len() == 0 {
        proof {
            assert(h@.subrange(0, 0) =~= n@);
            assert(occurs_at(h@, n@, 0));
        }
        return true;
    }
    if n.len() > h.len() {
        return false;
    }
    let last = h.len() - n.len();
    let mut i: usize = 0;
    loop
        invariant
            0 <= i <= last + 1,
            n@.len() >= 1,
            last + n@.len() == h@.len(),
            h@.len() <= usize::MAX,
            forall|k: int| 0 <= k < i ==> !occurs_at(h@, n@, k),
        ensures
            (i <= last && occurs_at(h@, n@, i as int)) || (i == last + 1 && !contains_seq(
                h@,
                n@,
            )),
        decreases last + 1 - i,
    {
        if i > last {
            proof {
                assert forall|k: int| true implies !occurs_at(h@, n@, k) by {
                    if 0 <= k <= last {
                        assert(!occurs_at(h@, n@, k));
                    }
                }
            }
            break;
        }
        let hit = starts_with_bytes(&h[i..h.len()], n);
        proof {
            assert(h@.subrange(i as int, h@.len() as int).take(n@.len() as int) =~= h@.subrange(
                i as int,
                i + n@.len(),
            ));
        }
        if hit {
            break;
        }
        i = i + 1;
    }
    i <= last
}

/// `h` with every non-overlapping occurrence of `n` (scanned left to right)
/// replaced by `r`.
pub open spec fn replaced(h: Seq<u8>, n: Seq<u8>, r: Seq<u8>) -> Seq<u8>
    recommends
        n.len() > 0,
    decreases h.len(),
{
    if n.len() == 0 || h.len() < n.len() {
        h
    } else if h.take(n.len() as int) == n {
        r + replaced(h.skip(n.len() as int), n, r)
    } else {
        seq![h[0]] + replaced(h.drop_first(), n, r)
    }
}

/// Replace every occurrence of `needle` in `h` by `repl`, scanning left to
/// right without rescanning replacements.
pub fn replace_all(h: &[u8], needle: &[u8], repl: &[u8]) -> (out: Vec<u8>)
    requires
        needle@.len() > 0,
    ensures
        out@ == replaced(h@, needle@, repl@),
{
    let n = h.len();
    let mut out: Vec<u8> = Vec::new();
    let mut i: usize = 0;
    proof {
        assert(h@.skip(0) =~= h@);
        assert(out@ + replaced(h@, needle@, repl@) =~= replaced(h@, needle@, repl@));
    }
    while i < n
        invariant
            0 <= i <= n == h@.len(),
            needle@.len() > 0,
            replaced(h@, needle@, repl@) == out@ + replaced(h@.skip(i as int), needle@, repl@),
        decreases n - i,
    {
        let ghost hi = h@.skip(i as int);
        let hit = if needle.len() <= n - i {
            let r = starts_with_bytes(&h[i..n], needle);
            proof {
                assert(h@.subrange(i as int, n as int).take(needle@.len() as int) =~= hi.take(
                    needle@.len() as int,
                ));
            }
            r
        } else {
            false
        };
        if hit {
            out.extend_from_slice(repl);
            proof {
                assert(hi.skip(needle@.len() as int) =~= h@.skip(i + needle@.len()));
            }
            i = i + needle.len();
        } else {
            proof {
                assert(hi[0] == h@[i as int]);
                assert(hi.drop_first() =~= h@.skip(i as int + 1));
                assert(out@.push(h@[i as int]) + replaced(h@.skip(i as int + 1), needle@, repl@)
                    =~= out@ + (seq![hi[0]] + replaced(hi.drop_first(), needle@, repl@)));
                if hi.len() < needle@.len() {
                    assert(replaced(hi, needle@, repl@) == hi);
                    assert(hi =~= seq![hi[0]] + hi.drop_first());
                    assert(replaced(hi.drop_first(), needle@, repl@) == hi.drop_first());
                }
            }
            let b = h[i];
            out.push(b);
            i = i + 1;
        }
    }
    proof {
        assert(h@.skip(n as int) =~= Seq::<u8>::empty());
        assert(out@ + Seq::<u8>::empty() =~= out@);
    }
    out
}

/// Are two byte slices equal?
pub fn eq_bytes(a: &[u8], b: &[u8]) -> (r: bool)
    ensures
        r == (a@ == b@),
{
    if a.len() != b.len() {
        proof {
            assert(a@ != b@);
        }
        return false;
    }
    let r = starts_with_bytes(a, b);
    proof {
        assert(a@.take(b@.len() as int) =~= a@);
    }
    r
}

} // verus!
