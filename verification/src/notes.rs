//! Notes and their metadata: a note is raw wikitext content under a
//! string-keyed header; lookups return the first entry with a key.
use vstd::prelude::*;
use vstd::string::StringSliceAdditionalSpecFns;

use crate::bytes::{ends_with_bytes, eq_bytes};
use crate::render::ends_with_seq;

verus! {

/// One wiki note: free-form metadata header and raw body content.
pub struct Note {
    pub header: Vec<(Vec<u8>, Vec<u8>)>,
    pub content: Vec<u8>,
}

/// First value recorded under `k`, if any.
pub open spec fn kv_lookup(s: Seq<(Vec<u8>, Vec<u8>)>, k: Seq<u8>) -> Option<Seq<u8>>
    decreases s.len(),
{
    if s.len() == 0 {
        Option::None
    } else if s[0].0@ == k {
        Option::Some(s[0].1@)
    } else {
        kv_lookup(s.drop_first(), k)
    }
}

/// Look a key up in a metadata header: the first entry with that key wins.
pub fn meta_get<'a>(header: &'a Vec<(Vec<u8>, Vec<u8>)>, k: &[u8]) -> (r: Option<&'a Vec<u8>>)
    ensures
        match r {
            Some(v) => kv_lookup(header@, k@) == Option::Some(v@),
            None => kv_lookup(header@, k@) is None,
        },
{
    let n = header.len();
    let mut i: usize = 0;
    proof {
        assert(header@.skip(0) =~= header@);
    }
    while i < n
        invariant
            0 <= i <= n == header@.len(),
            kv_lookup(header@, k@) == kv_lookup(header@.skip(i as int), k@),
        decreases n - i,
    {
        proof {
            let si = header@.skip(i as int);
            assert(si[0] == header@[i as int]);
            assert(si.drop_first() =~= header@.skip(i as int + 1));
        }
        if eq_bytes(header[i].0.as_slice(), k) {
            return Some(&header[i].1);
        }
        i = i + 1;
    }
    proof {
        assert(header@.skip(n as int) =~= Seq::<(Vec<u8>, Vec<u8>)>::empty());
    }
    None
}

/// A note file's default title: its file name with the `.txt` suffix
/// stripped; `None` for any other file name.
pub fn strip_txt_suffix(fname: &[u8]) -> (r: Option<Vec<u8>>)
    ensures
        match r {
            Some(v) => ends_with_seq(fname@, ".txt".spec_bytes()) && v@ == fname@.take(
                fname@.len() - 4,
            ),
            None => !ends_with_seq(fname@, ".txt".spec_bytes()),
        },
{
    if ends_with_bytes(fname, ".txt".as_bytes()) {
        proof {
            vstd::string::is_ascii_spec_bytes(".txt");
            reveal_strlit(".txt");
        }
        let cut = fname.len() - 4;
        let kept = vstd::slice::slice_to_vec(&fname[0..cut]);
        proof {
            assert(kept@ =~= fname@.take(fname@.len() - 4));
        }
        Some(kept)
    } else {
        None
    }
}

/// Give a loaded note a title when its header carries none: the file name
/// without its extension.
pub fn ensure_title(note: &mut Note, default_title: &[u8])
    ensures
        final(note).content == old(note).content,
        kv_lookup(old(note).header@, "title".spec_bytes()) is Some ==> final(note).header
            == old(note).header,
        kv_lookup(old(note).header@, "title".spec_bytes()) is None ==> {
            &&& final(note).header@.len() == old(note).header@.len() + 1
            &&& final(note).header@.drop_last() == old(note).header@
            &&& final(note).header@.last().0@ == "title".spec_bytes()
            &&& final(note).header@.last().1@ == default_title@
        },
        kv_lookup(final(note).header@, "title".spec_bytes()) is Some,
{
    proof {
        reveal_strlit("title");
    }
    let has = meta_get(&note.header, "title".as_bytes());
    let found = has.is_some();
    if !found {
        let key = vstd::slice::slice_to_vec("title".as_bytes());
        note.header.push((key, vstd::slice::slice_to_vec(default_title)));
        proof {
            let hdr = note.header@;
            assert(hdr.drop_last() =~= old(note).header@);
            assert(hdr =~= old(note).header@.push(hdr.last()));
            lemma_kv_lookup_push_absent(old(note).header@, hdr.last(), "title".spec_bytes());
        }
    }
}

proof fn lemma_kv_lookup_push_absent(s: Seq<(Vec<u8>, Vec<u8>)>, e: (Vec<u8>, Vec<u8>), k: Seq<u8>)
    requires
        kv_lookup(s, k) is None,
        e.0@ == k,
    ensures
        kv_lookup(s.push(e), k) == Option::Some(e.1@),
    decreases s.len(),
{
    if s.len() == 0 {
        assert(s.push(e)[0] == e);
    } else {
        assert(s.push(e)[0] == s[0]);
        assert(s.push(e).drop_first() =~= s.drop_first().push(e));
        lemma_kv_lookup_push_absent(s.drop_first(), e, k);
    }
}

} // verus!
