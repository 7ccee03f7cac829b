//! The job pipeline's decision logic: each pulled job becomes the exact
//! sequence of store, graph, search and archive effects the processor must
//! run.  The outside work itself — queue pulls, fetches, compression,
//! storage — happens in the surrounding runtime, which feeds its results
//! (an extraction, a compressed body, an existence check) back in as plain
//! values.
use vstd::prelude::*;
use vstd::string::StringSliceAdditionalSpecFns;

verus! {

/// The payload of a patch job: a full note write, with the previous title
/// when the note was renamed.
pub struct PatchData {
    pub body: Vec<u8>,
    pub tags: Vec<Vec<u8>>,
    pub title: Vec<u8>,
    pub old_title: Vec<u8>,
    pub metadata: Vec<(Vec<u8>, Vec<u8>)>,
}

/// A job pulled from the durable queue.
pub enum Message {
    Rebuild,
    Patch { patch: PatchData },
    Delete { title: Vec<u8> },
    Archive { url: Vec<u8>, title: Vec<u8> },
    ArchiveMove { old_title: Vec<u8>, new_title: Vec<u8> },
    NewFromUrl { url: Vec<u8>, tags: Vec<Vec<u8>> },
    ArchiveBody { title: Vec<u8>, body: Vec<u8> },
}

/// One effect on the shared stores.
pub enum Action {
    RebuildIndex,
    UpdateStore { title: Vec<u8> },
    UpdateSearch { title: Vec<u8> },
    RenameStores { new_title: Vec<u8>, old_title: Vec<u8> },
    TouchMru { old_title: Vec<u8>, new_title: Vec<u8> },
    WriteArchive { title: Vec<u8>, compressed: Vec<u8> },
    IndexArchive { title: Vec<u8>, text: Vec<u8> },
    MoveArchive { old_title: Vec<u8>, new_title: Vec<u8> },
    RemoveStore { title: Vec<u8> },
    RemoveSearch { title: Vec<u8> },
    RemoveArchive { title: Vec<u8> },
    DeleteContent { title: Vec<u8> },
    PersistNote { title: Vec<u8>, body: Vec<u8> },
}

/// The mathematical shape of an effect.
pub enum ActionModel {
    RebuildIndex,
    UpdateStore { title: Seq<u8> },
    UpdateSearch { title: Seq<u8> },
    RenameStores { new_title: Seq<u8>, old_title: Seq<u8> },
    TouchMru { old_title: Seq<u8>, new_title: Seq<u8> },
    WriteArchive { title: Seq<u8>, compressed: Seq<u8> },
    IndexArchive { title: Seq<u8>, text: Seq<u8> },
    MoveArchive { old_title: Seq<u8>, new_title: Seq<u8> },
    RemoveStore { title: Seq<u8> },
    RemoveSearch { title: Seq<u8> },
    RemoveArchive { title: Seq<u8> },
    DeleteContent { title: Seq<u8> },
    PersistNote { title: Seq<u8>, body: Seq<u8> },
}

impl View for Action {
    type V = ActionModel;

    open spec fn view(&self) -> ActionModel {
        match self {
            Action::RebuildIndex => ActionModel::RebuildIndex,
            Action::UpdateStore { title } => ActionModel::UpdateStore { title: title@ },
            Action::UpdateSearch { title } => ActionModel::UpdateSearch { title: title@ },
            Action::RenameStores { new_title, old_title } => ActionModel::RenameStores {
                new_title: new_title@,
                old_title: old_title@,
            },
            Action::TouchMru { old_title, new_title } => ActionModel::TouchMru {
                old_title: old_title@,
                new_title: new_title@,
            },
            Action::WriteArchive { title, compressed } => ActionModel::WriteArchive {
                title: title@,
                compressed: compressed@,
            },
            Action::IndexArchive { title, text } => ActionModel::IndexArchive {
                title: title@,
                text: text@,
            },
            Action::MoveArchive { old_title, new_title } => ActionModel::MoveArchive {
                old_title: old_title@,
                new_title: new_title@,
            },
            Action::RemoveStore { title } => ActionModel::RemoveStore { title: title@ },
            Action::RemoveSearch { title } => ActionModel::RemoveSearch { title: title@ },
            Action::RemoveArchive { title } => ActionModel::RemoveArchive { title: title@ },
            Action::DeleteContent { title } => ActionModel::DeleteContent { title: title@ },
            Action::PersistNote { title, body } => ActionModel::PersistNote {
                title: title@,
                body: body@,
            },
        }
    }
}

/// The views of a planned action sequence.
pub open spec fn actions_of(s: Seq<Action>) -> Seq<ActionModel> {
    Seq::new(s.len(), |i: int| s[i]@)
}

/// The effect sequence of a patch job: write the note to the store, update
/// the search index, propagate a rename when the title changed, and touch
/// the recency cache.
pub open spec fn patch_plan(title: Seq<u8>, old_title: Seq<u8>) -> Seq<ActionModel> {
    seq![
        ActionModel::UpdateStore { title: title },
        ActionModel::UpdateSearch { title: title },
    ] + (if old_title.len() > 0 && old_title != title {
        seq![ActionModel::RenameStores { new_title: title, old_title: old_title }]
    } else {
        Seq::empty()
    }) + seq![ActionModel::TouchMru { old_title: old_title, new_title: title }]
}

/// The effect sequence of a delete job.
pub open spec fn delete_plan(title: Seq<u8>) -> Seq<ActionModel> {
    seq![
        ActionModel::RemoveStore { title: title },
        ActionModel::RemoveSearch { title: title },
        ActionModel::RemoveArchive { title: title },
        ActionModel::DeleteContent { title: title },
    ]
}

/// Plan a patch job.
pub fn plan_patch(patch: &PatchData) -> (r: Vec<Action>)
    ensures
        actions_of(r@) == patch_plan(patch.title@, patch.old_title@),
{
    let mut r: Vec<Action> = Vec::new();
    r.push(Action::UpdateStore { title: vstd::slice::slice_to_vec(patch.title.as_slice()) });
    r.push(Action::UpdateSearch { title: vstd::slice::slice_to_vec(patch.title.as_slice()) });
    if patch.old_title.len() > 0 && !crate::bytes::eq_bytes(
        patch.old_title.as_slice(),
        patch.title.as_slice(),
    ) {
        r.push(
            Action::RenameStores {
                new_title: vstd::slice::slice_to_vec(patch.title.as_slice()),
                old_title: vstd::slice::slice_to_vec(patch.old_title.as_slice()),
            },
        );
    }
    r.push(
        Action::TouchMru {
            old_title: vstd::slice::slice_to_vec(patch.old_title.as_slice()),
            new_title: vstd::slice::slice_to_vec(patch.title.as_slice()),
        },
    );
    proof {
        assert(actions_of(r@) =~= patch_plan(patch.title@, patch.old_title@));
    }
    r
}

/// Plan a delete job.  The title must have resolved to a stored note; when
/// it has not, the job aborts and no effect runs.
pub fn plan_delete(title: &[u8], resolved: bool) -> (r: Option<Vec<Action>>)
    ensures
        resolved <==> r is Some,
        r matches Some(acts) ==> actions_of(acts@) == delete_plan(title@),
{
    if !resolved {
        return None;
    }
    let mut r: Vec<Action> = Vec::new();
    r.push(Action::RemoveStore { title: vstd::slice::slice_to_vec(title) });
    r.push(Action::RemoveSearch { title: vstd::slice::slice_to_vec(title) });
    r.push(Action::RemoveArchive { title: vstd::slice::slice_to_vec(title) });
    r.push(Action::DeleteContent { title: vstd::slice::slice_to_vec(title) });
    proof {
        assert(actions_of(r@) =~= delete_plan(title@));
    }
    Some(r)
}

/// Plan an archive job: the fetched text is compressed and stored only
/// when no archive entry exists for the title yet; a stale entry is never
/// refreshed.
pub fn plan_archive(
    title: &[u8],
    compressed: &[u8],
    text: &[u8],
    archive_exists: bool,
) -> (r: Vec<Action>)
    ensures
        archive_exists ==> actions_of(r@) == Seq::<ActionModel>::empty(),
        !archive_exists ==> actions_of(r@) == seq![
            ActionModel::WriteArchive { title: title@, compressed: compressed@ },
            ActionModel::IndexArchive { title: title@, text: text@ },
        ],
{
    let mut r: Vec<Action> = Vec::new();
    if !archive_exists {
        r.push(
            Action::WriteArchive {
                title: vstd::slice::slice_to_vec(title),
                compressed: vstd::slice::slice_to_vec(compressed),
            },
        );
        r.push(
            Action::IndexArchive {
                title: vstd::slice::slice_to_vec(title),
                text: vstd::slice::slice_to_vec(text),
            },
        );
        proof {
            assert(actions_of(r@) =~= seq![
                ActionModel::WriteArchive { title: title@, compressed: compressed@ },
                ActionModel::IndexArchive { title: title@, text: text@ },
            ]);
        }
    } else {
        proof {
            assert(actions_of(r@) =~= Seq::<ActionModel>::empty());
        }
    }
    r
}

/// Plan an archive-move job: re-key the entry, content untouched.
pub fn plan_archive_move(old_title: &[u8], new_title: &[u8]) -> (r: Vec<Action>)
    ensures
        actions_of(r@) == seq![
            ActionModel::MoveArchive { old_title: old_title@, new_title: new_title@ },
        ],
{
    let mut r: Vec<Action> = Vec::new();
    r.push(
        Action::MoveArchive {
            old_title: vstd::slice::slice_to_vec(old_title),
            new_title: vstd::slice::slice_to_vec(new_title),
        },
    );
    proof {
        assert(actions_of(r@) =~= seq![
            ActionModel::MoveArchive { old_title: old_title@, new_title: new_title@ },
        ]);
    }
    r
}

/// Plan a direct archive-body job: compress and store the given body and
/// index it, no extraction involved.
pub fn plan_archive_body(title: &[u8], body: &[u8], compressed: &[u8]) -> (r: Vec<Action>)
    ensures
        actions_of(r@) == seq![
            ActionModel::WriteArchive { title: title@, compressed: compressed@ },
            ActionModel::IndexArchive { title: title@, text: body@ },
        ],
{
    let mut r: Vec<Action> = Vec::new();
    r.push(
        Action::WriteArchive {
            title: vstd::slice::slice_to_vec(title),
            compressed: vstd::slice::slice_to_vec(compressed),
        },
    );
    r.push(
        Action::IndexArchive {
            title: vstd::slice::slice_to_vec(title),
            text: vstd::slice::slice_to_vec(body),
        },
    );
    proof {
        assert(actions_of(r@) =~= seq![
            ActionModel::WriteArchive { title: title@, compressed: compressed@ },
            ActionModel::IndexArchive { title: title@, text: body@ },
        ]);
    }
    r
}

/// A byte the title sanitizer strips: `? \ / | : ; > < , .`, line feed,
/// `$` and `&`.
pub open spec fn is_blocked(b: u8) -> bool {
    ||| b == 63
    ||| b == 92
    ||| b == 47
    ||| b == 124
    ||| b == 58
    ||| b == 59
    ||| b == 62
    ||| b == 60
    ||| b == 44
    ||| b == 46
    ||| b == 10
    ||| b == 36
    ||| b == 38
}

/// `s` with every blocked byte removed.
pub open spec fn strip_blocked(s: Seq<u8>) -> Seq<u8>
    decreases s.len(),
{
    if s.len() == 0 {
        Seq::empty()
    } else if is_blocked(s[0]) {
        strip_blocked(s.drop_first())
    } else {
        seq![s[0]] + strip_blocked(s.drop_first())
    }
}

/// Strip the fixed blocklist of characters from an extracted title.
pub fn sanitize_title(t: &[u8]) -> (r: Vec<u8>)
    ensures
        r@ == strip_blocked(t@),
{
    let n = t.len();
    let mut out: Vec<u8> = Vec::new();
    let mut i: usize = 0;
    proof {
        assert(t@.skip(0) =~= t@);
        assert(out@ + strip_blocked(t@) =~= strip_blocked(t@));
    }
    while i < n
        invariant
            0 <= i <= n == t@.len(),
            strip_blocked(t@) == out@ + strip_blocked(t@.skip(i as int)),
        decreases n - i,
    {
        let ghost ti = t@.skip(i as int);
        proof {
            assert(ti[0] == t@[i as int]);
            assert(ti.drop_first() =~= t@.skip(i as int + 1));
        }
        let b = t[i];
        let blocked = b == 63 || b == 92 || b == 47 || b == 124 || b == 58 || b == 59 || b == 62
            || b == 60 || b == 44 || b == 46 || b == 10 || b == 36 || b == 38;
        if !blocked {
            out.push(b);
            proof {
                assert(out@ + strip_blocked(t@.skip(i as int + 1)) =~= out@.drop_last() + (seq![b]
                    + strip_blocked(t@.skip(i as int + 1))));
            }
        }
        i = i + 1;
    }
    proof {
        assert(t@.skip(n as int) =~= Seq::<u8>::empty());
        assert(out@ + Seq::<u8>::empty() =~= out@);
    }
    out
}

/// Plan a new-from-url job: the extracted title is sanitized, the fetched
/// text archived and indexed under it, and a note with the sanitized body,
/// the given tags and `content-type=html`, `url=<source>` metadata is
/// persisted and indexed.
pub fn plan_new_from_url(
    url: &[u8],
    tags: Vec<Vec<u8>>,
    extracted_title: &[u8],
    text: &[u8],
    sanitized_content: &[u8],
    compressed: &[u8],
) -> (r: (PatchData, Vec<Action>))
    ensures
        r.0.title@ == strip_blocked(extracted_title@),
        r.0.old_title@.len() == 0,
        r.0.body@ == sanitized_content@,
        r.0.tags == tags,
        r.0.metadata@.len() == 2,
        r.0.metadata@[0].0@ == "url".spec_bytes() && r.0.metadata@[0].1@ == url@,
        r.0.metadata@[1].0@ == "content-type".spec_bytes() && r.0.metadata@[1].1@
            == "html".spec_bytes(),
        actions_of(r.1@) == seq![
            ActionModel::WriteArchive {
                title: strip_blocked(extracted_title@),
                compressed: compressed@,
            },
            ActionModel::IndexArchive { title: strip_blocked(extracted_title@), text: text@ },
            ActionModel::PersistNote {
                title: strip_blocked(extracted_title@),
                body: sanitized_content@,
            },
        ] + patch_plan(strip_blocked(extracted_title@), Seq::empty()),
{
    let note_title = sanitize_title(extracted_title);
    let mut metadata: Vec<(Vec<u8>, Vec<u8>)> = Vec::new();
    metadata.push(
        (
            vstd::slice::slice_to_vec("url".as_bytes()),
            vstd::slice::slice_to_vec(url),
        ),
    );
    metadata.push(
        (
            vstd::slice::slice_to_vec("content-type".as_bytes()),
            vstd::slice::slice_to_vec("html".as_bytes()),
        ),
    );
    let patch = PatchData {
        body: vstd::slice::slice_to_vec(sanitized_content),
        tags,
        title: vstd::slice::slice_to_vec(note_title.as_slice()),
        old_title: Vec::new(),
        metadata,
    };
    let mut acts: Vec<Action> = Vec::new();
    acts.push(
        Action::WriteArchive {
            title: vstd::slice::slice_to_vec(note_title.as_slice()),
            compressed: vstd::slice::slice_to_vec(compressed),
        },
    );
    acts.push(
        Action::IndexArchive {
            title: vstd::slice::slice_to_vec(note_title.as_slice()),
            text: vstd::slice::slice_to_vec(text),
        },
    );
    acts.push(
        Action::PersistNote {
            title: vstd::slice::slice_to_vec(note_title.as_slice()),
            body: vstd::slice::slice_to_vec(sanitized_content),
        },
    );
    let mut rest = plan_patch(&patch);
    let ghost rest0 = rest@;
    acts.append(&mut rest);
    proof {
        assert(patch.old_title@ =~= Seq::<u8>::empty());
        assert forall|i: int| 0 <= i < rest0.len() implies actions_of(acts@)[3 + i]
            == actions_of(rest0)[i] by {
            assert(acts@[3 + i] == rest0[i]);
        }
        assert(actions_of(acts@) =~= seq![
            ActionModel::WriteArchive {
                title: strip_blocked(extracted_title@),
                compressed: compressed@,
            },
            ActionModel::IndexArchive { title: strip_blocked(extracted_title@), text: text@ },
            ActionModel::PersistNote {
                title: strip_blocked(extracted_title@),
                body: sanitized_content@,
            },
        ] + patch_plan(strip_blocked(extracted_title@), Seq::empty()));
    }
    (patch, acts)
}

/// The recency cache: note titles, most recently touched first.
pub struct MruCache {
    pub entries: Vec<Vec<u8>>,
}

/// `s` with every element equal to `a` or `b` removed.
pub open spec fn drop_titles(s: Seq<Vec<u8>>, a: Seq<u8>, b: Seq<u8>) -> Seq<Seq<u8>>
    decreases s.len(),
{
    if s.len() == 0 {
        Seq::empty()
    } else if s[0]@ == a || s[0]@ == b {
        drop_titles(s.drop_first(), a, b)
    } else {
        seq![s[0]@] + drop_titles(s.drop_first(), a, b)
    }
}

impl MruCache {
    pub fn new() -> (r: MruCache)
        ensures
            r.entries@.len() == 0,
    {
        MruCache { entries: Vec::new() }
    }

    /// Touch a note: its title moves to the front; any entry under its old
    /// title is re-keyed onto it rather than keeping a stale name.
    pub fn update_mru_cache(&mut self, old_title: &[u8], title: &[u8])
        ensures
            final(self).entries@.len() >= 1,
            final(self).entries@[0]@ == title@,
            crate::render::seqs_of(final(self).entries@).drop_first() == drop_titles(
                old(self).entries@,
                title@,
                old_title@,
            ),
    {
        let ghost orig = self.entries@;
        let mut out: Vec<Vec<u8>> = Vec::new();
        out.push(vstd::slice::slice_to_vec(title));
        let n = self.entries.len();
        let mut i: usize = 0;
        proof {
            assert(crate::render::seqs_of(out@).drop_first() =~= Seq::<Seq<u8>>::empty());
            assert(orig.skip(0) =~= orig);
            assert(Seq::<Seq<u8>>::empty() + drop_titles(orig, title@, old_title@) =~= drop_titles(
                orig,
                title@,
                old_title@,
            ));
        }
        while i < n
            invariant
                0 <= i <= n == orig.len(),
                orig == self.entries@,
                out@.len() >= 1,
                out@[0]@ == title@,
                drop_titles(orig, title@, old_title@) == crate::render::seqs_of(
                    out@,
                ).drop_first() + drop_titles(orig.skip(i as int), title@, old_title@),
            decreases n - i,
        {
            let ghost oi = orig.skip(i as int);
            proof {
                assert(oi[0] == orig[i as int]);
                assert(oi.drop_first() =~= orig.skip(i as int + 1));
            }
            let e = &self.entries[i];
            let keep = !crate::bytes::eq_bytes(e.as_slice(), title) && !crate::bytes::eq_bytes(
                e.as_slice(),
                old_title,
            );
            if keep {
                out.push(vstd::slice::slice_to_vec(e.as_slice()));
                proof {
                    assert(crate::render::seqs_of(out@).drop_first() + drop_titles(
                        orig.skip(i as int + 1),
                        title@,
                        old_title@,
                    ) =~= crate::render::seqs_of(out@).drop_first().drop_last() + (seq![
                        orig[i as int]@,
                    ] + drop_titles(orig.skip(i as int + 1), title@, old_title@)));
                    assert(crate::render::seqs_of(out@).drop_first().drop_last()
                        =~= crate::render::seqs_of(out@.drop_last()).drop_first());
                }
            }
            i = i + 1;
        }
        proof {
            assert(orig.skip(n as int) =~= Seq::<Vec<u8>>::empty());
            assert(crate::render::seqs_of(out@).drop_first() + Seq::<Seq<u8>>::empty()
                =~= crate::render::seqs_of(out@).drop_first());
        }
        self.entries = out;
    }
}

/// The shared indexes as the concurrency law sees them: which titles the
/// note store, the search index and the archive store hold.
pub struct IndexState {
    pub store: Set<Seq<u8>>,
    pub search: Set<Seq<u8>>,
    pub archive: Set<Seq<u8>>,
}

/// How one effect changes the shared indexes.
pub open spec fn apply_action(st: IndexState, a: ActionModel) -> IndexState {
    match a {
        ActionModel::UpdateStore { title } => IndexState { store: st.store.insert(title), ..st },
        ActionModel::UpdateSearch { title } => IndexState {
            search: st.search.insert(title),
            ..st
        },
        ActionModel::PersistNote { title, .. } => IndexState {
            store: st.store.insert(title),
            ..st
        },
        ActionModel::WriteArchive { title, .. } => IndexState {
            archive: st.archive.insert(title),
            ..st
        },
        ActionModel::IndexArchive { title, .. } => IndexState {
            search: st.search.insert(title),
            ..st
        },
        ActionModel::RemoveStore { title } => IndexState { store: st.store.remove(title), ..st },
        ActionModel::RemoveSearch { title } => IndexState {
            search: st.search.remove(title),
            ..st
        },
        ActionModel::RemoveArchive { title } => IndexState {
            archive: st.archive.remove(title),
            ..st
        },
        _ => st,
    }
}

/// A whole effect sequence, applied in order.
pub open spec fn apply_all(st: IndexState, acts: Seq<ActionModel>) -> IndexState
    decreases acts.len(),
{
    if acts.len() == 0 {
        st
    } else {
        apply_all(apply_action(st, acts[0]), acts.drop_first())
    }
}

/// Title `x` is consistently indexed: in the note store exactly when in
/// the search index.
pub open spec fn consistent_for(st: IndexState, x: Seq<u8>) -> bool {
    st.store.contains(x) <==> st.search.contains(x)
}

proof fn lemma_apply_all_concat(st: IndexState, a: Seq<ActionModel>, b: Seq<ActionModel>)
    ensures
        apply_all(st, a + b) == apply_all(apply_all(st, a), b),
    decreases a.len(),
{
    if a.len() == 0 {
        assert(a + b =~= b);
    } else {
        assert((a + b)[0] == a[0]);
        assert((a + b).drop_first() =~= a.drop_first() + b);
        lemma_apply_all_concat(apply_action(st, a[0]), a.drop_first(), b);
    }
}

/// Concurrency law for a batch holding a patch and a delete of the same
/// title: whichever whole job runs first, the terminal state is valid —
/// the title either fully indexed or absent everywhere, never in the note
/// store without the search index or the reverse.  (Only whole-job orders
/// are covered: interleaving the two jobs' individual guarded operations
/// can part the two stores until the next rebuild, as when a delete's
/// search removal runs between a patch's store write and search write.)
pub proof fn lemma_patch_delete_batch_consistent(
    st0: IndexState,
    x: Seq<u8>,
    old_title: Seq<u8>,
)
    requires
        old_title.len() == 0,
    ensures
        consistent_for(apply_all(st0, patch_plan(x, old_title) + delete_plan(x)), x),
        consistent_for(apply_all(st0, delete_plan(x) + patch_plan(x, old_title)), x),
        !apply_all(st0, patch_plan(x, old_title) + delete_plan(x)).store.contains(x),
        apply_all(st0, delete_plan(x) + patch_plan(x, old_title)).store.contains(x),
{
    let p = patch_plan(x, old_title);
    let d = delete_plan(x);
    lemma_apply_all_concat(st0, p, d);
    lemma_apply_all_concat(st0, d, p);
    let s1 = apply_all(st0, p);
    reveal_with_fuel(apply_all, 5);
    assert(p.len() == 3);
    assert(p[0] == ActionModel::UpdateStore { title: x });
    assert(p[1] == ActionModel::UpdateSearch { title: x });
    assert(p[2] == (ActionModel::TouchMru { old_title: old_title, new_title: x }));
    assert(p.drop_first().drop_first().drop_first() =~= Seq::<ActionModel>::empty());
    assert(d.drop_first().drop_first().drop_first().drop_first() =~= Seq::<ActionModel>::empty());
    assert(s1.store.contains(x) && s1.search.contains(x));
    let s2 = apply_all(s1, d);
    assert(!s2.store.contains(x) && !s2.search.contains(x));
    let t1 = apply_all(st0, d);
    let t2 = apply_all(t1, p);
    assert(t2.store.contains(x) && t2.search.contains(x));
}

} // verus!
