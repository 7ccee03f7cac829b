//! The search-document builder: weighted term maps for a note, with title
//! terms tripled.  The tokenizer itself is an outside collaborator: its two
//! outputs — the term counts of the combined text and of the title alone —
//! are taken as arguments, and this module does the weighting.
use vstd::prelude::*;
use vstd::string::StringSliceAdditionalSpecFns;

use crate::bytes::eq_bytes;
use crate::notes::{kv_lookup, Note};

verus! {

/// A search document: the note's title as id, its weighted terms, and the
/// raw content kept for snippet generation.
pub struct Doc {
    pub id: Vec<u8>,
    pub tokens: Vec<(Vec<u8>, u64)>,
    pub content: Vec<u8>,
}

/// Is `k` among the keys of a term map?
pub open spec fn tok_has(s: Seq<(Vec<u8>, u64)>, k: Seq<u8>) -> bool {
    exists|m: int| 0 <= m < s.len() && s[m].0@ == k
}

/// The weight a combined term earns: tripled when the term also appears in
/// the title's own tokenization, unchanged otherwise.
pub open spec fn weighted(w: u64, boost: bool) -> int {
    if boost {
        3 * w
    } else {
        w as int
    }
}

fn tok_contains(s: &Vec<(Vec<u8>, u64)>, k: &[u8]) -> (r: bool)
    ensures
        r == tok_has(s@, k@),
{
    let n = s.len();
    let mut m: usize = 0;
    while m < n
        invariant
            0 <= m <= n == s@.len(),
            forall|w: int| 0 <= w < m ==> s@[w].0@ != k@,
        decreases n - m,
    {
        if eq_bytes(s[m].0.as_slice(), k) {
            return true;
        }
        m = m + 1;
    }
    false
}

/// The text handed to the tokenizer for a note: body, tags and title,
/// separated by single spaces.
pub fn tokenizable_content(content: &[u8], tags: &[u8], title: &[u8]) -> (r: Vec<u8>)
    ensures
        r@ == content@ + seq![32u8] + tags@ + seq![32u8] + title@,
{
    let mut out: Vec<u8> = Vec::new();
    out.extend_from_slice(content);
    out.push(32u8);
    out.extend_from_slice(tags);
    out.push(32u8);
    out.extend_from_slice(title);
    proof {
        assert(out@ =~= content@ + seq![32u8] + tags@ + seq![32u8] + title@);
    }
    out
}

/// Build the search document of a note from the tokenizer's two outputs:
/// `combined` are the term counts of body, tags and title together, and
/// `title_tokens` those of the title alone.  Every term of the title keeps
/// three times its combined weight; all other terms keep their count.
pub fn tokenize_note_meta(
    note: &Note,
    combined: &Vec<(Vec<u8>, u64)>,
    title_tokens: &Vec<(Vec<u8>, u64)>,
) -> (doc: Doc)
    requires
        kv_lookup(note.header@, "title".spec_bytes()) is Some,
        forall|m: int|
            0 <= m < combined@.len() && tok_has(title_tokens@, combined@[m].0@)
                ==> combined@[m].1 <= u64::MAX / 3,
    ensures
        doc.id@ == kv_lookup(note.header@, "title".spec_bytes()).unwrap(),
        doc.content@ == note.content@,
        doc.tokens@.len() == combined@.len(),
        forall|m: int|
            0 <= m < combined@.len() ==> #[trigger] doc.tokens@[m].0@ == combined@[m].0@
                && doc.tokens@[m].1 == weighted(combined@[m].1, tok_has(
                title_tokens@,
                combined@[m].0@,
            )),
{
    proof {
        reveal_strlit("title");
    }
    let title = match crate::notes::meta_get(&note.header, "title".as_bytes()) {
        Some(t) => vstd::slice::slice_to_vec(t.as_slice()),
        None => Vec::new(),
    };
    let n = combined.len();
    let mut tokens: Vec<(Vec<u8>, u64)> = Vec::new();
    let mut m: usize = 0;
    while m < n
        invariant
            0 <= m <= n == combined@.len(),
            forall|w: int|
                0 <= w < combined@.len() && tok_has(title_tokens@, combined@[w].0@)
                    ==> combined@[w].1 <= u64::MAX / 3,
            tokens@.len() == m,
            forall|w: int|
                0 <= w < m ==> #[trigger] tokens@[w].0@ == combined@[w].0@ && tokens@[w].1
                    == weighted(combined@[w].1, tok_has(title_tokens@, combined@[w].0@)),
        decreases n - m,
    {
        let key = vstd::slice::slice_to_vec(combined[m].0.as_slice());
        let w = combined[m].1;
        let boosted = tok_contains(title_tokens, key.as_slice());
        if boosted {
            tokens.push((key, w * 3));
        } else {
            tokens.push((key, w));
        }
        m = m + 1;
    }
    Doc { id: title, tokens, content: vstd::slice::slice_to_vec(note.content.as_slice()) }
}

} // verus!
