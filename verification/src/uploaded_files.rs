//! The uploaded-files listing: one anchor per stored file name.
use vstd::prelude::*;
use vstd::string::StringSliceAdditionalSpecFns;

use crate::render::{seqs_of, write_to_string};

verus! {

/// One file entry's anchor.
pub open spec fn entry_anchor(e: Seq<u8>) -> Seq<u8> {
    "<a href=\"/files/".spec_bytes() + e + "\">".spec_bytes() + e + "</a>".spec_bytes()
}

/// The anchors of all entries, concatenated in order.
pub open spec fn entry_anchors(es: Seq<Seq<u8>>) -> Seq<u8>
    decreases es.len(),
{
    if es.len() == 0 {
        Seq::empty()
    } else {
        entry_anchor(es[0]) + entry_anchors(es.drop_first())
    }
}

/// The page listing the files a user has uploaded.
pub struct UploadedFilesPage {
    pub entries: Vec<Vec<u8>>,
}

impl UploadedFilesPage {
    pub fn new(entries: Vec<Vec<u8>>) -> (r: UploadedFilesPage)
        ensures
            r.entries == entries,
    {
        UploadedFilesPage { entries }
    }

    /// The anchor list the page's template receives.
    pub fn render_entries(&self) -> (r: Vec<u8>)
        ensures
            r@ == entry_anchors(seqs_of(self.entries@)),
    {
        let n = self.entries.len();
        let mut out: Vec<u8> = Vec::new();
        let mut i: usize = 0;
        proof {
            assert(entry_anchors(seqs_of(self.entries@).take(0)) =~= Seq::<u8>::empty());
            assert(out@ =~= Seq::<u8>::empty());
        }
        while i < n
            invariant
                0 <= i <= n == self.entries@.len(),
                out@ == entry_anchors(seqs_of(self.entries@).take(i as int)),
            decreases n - i,
        {
            write_to_string(&mut out, "<a href=\"/files/".as_bytes());
            write_to_string(&mut out, self.entries[i].as_slice());
            write_to_string(&mut out, "\">".as_bytes());
            write_to_string(&mut out, self.entries[i].as_slice());
            write_to_string(&mut out, "</a>".as_bytes());
            proof {
                let all = seqs_of(self.entries@);
                assert(all.take(i + 1) =~= all.take(i as int).push(all[i as int]));
                lemma_entry_anchors_snoc(all.take(i as int), all[i as int]);
                assert(out@ =~= entry_anchors(all.take(i as int)) + entry_anchor(all[i as int]));
            }
            i = i + 1;
        }
        proof {
            assert(seqs_of(self.entries@).take(n as int) =~= seqs_of(self.entries@));
        }
        out
    }
}

proof fn lemma_entry_anchors_snoc(es: Seq<Seq<u8>>, e: Seq<u8>)
    ensures
        entry_anchors(es.push(e)) == entry_anchors(es) + entry_anchor(e),
    decreases es.len(),
{
    let p = es.push(e);
    assert(entry_anchors(p) == entry_anchor(p[0]) + entry_anchors(p.drop_first()));
    if es.len() == 0 {
        assert(p[0] == e);
        assert(p.drop_first() =~= Seq::<Seq<u8>>::empty());
        assert(entry_anchors(Seq::<Seq<u8>>::empty()) == Seq::<u8>::empty());
        assert(entry_anchor(e) + Seq::<u8>::empty() =~= entry_anchor(e));
        assert(Seq::<u8>::empty() + entry_anchor(e) =~= entry_anchor(e));
    } else {
        assert(p[0] == es[0]);
        assert(p.drop_first() =~= es.drop_first().push(e));
        lemma_entry_anchors_snoc(es.drop_first(), e);
        assert(entry_anchors(es) == entry_anchor(es[0]) + entry_anchors(es.drop_first()));
        assert(entry_anchor(es[0]) + (entry_anchors(es.drop_first()) + entry_anchor(e)) =~= (
        entry_anchor(es[0]) + entry_anchors(es.drop_first())) + entry_anchor(e));
    }
}

} // verus!
