use std::collections::HashSet;

use wiki_core::graph::NoteSummary;
use wiki_core::jobs::{plan_archive, plan_delete, plan_patch, sanitize_title, Action, MruCache};
use wiki_core::notes::Note;
use wiki_core::search::{tokenizable_content, tokenize_note_meta};
use wiki_core::{build_tags_and_links, LinkGraph, PatchData, TitleMap};

fn values_of(m: &TitleMap, key: &[u8]) -> Option<Vec<Vec<u8>>> {
    m.get(key).map(|vals| {
        let mut v = vals.clone();
        v.sort();
        v
    })
}

#[test]
fn backlinks_deduplicate_sources() {
    let mut g = LinkGraph::new();
    let outlinks = vec![b"target".to_vec(), b"target".to_vec()];
    let tags: Vec<Vec<u8>> = Vec::new();
    g.apply_note(b"source", &outlinks, &tags);
    let vals = values_of(&g.backlinks, b"target").unwrap();
    assert_eq!(vals, vec![b"source".to_vec()]);
}

#[test]
fn rename_round_trip_restores_graph() {
    let mut g = LinkGraph::new();
    g.apply_note(b"one", &vec![b"two".to_vec()], &vec![b"wiki".to_vec()]);
    g.apply_note(b"three", &vec![b"two".to_vec(), b"one".to_vec()], &vec![b"wiki".to_vec()]);

    // "fresh" occurs nowhere in the graph.
    let mut g2 = LinkGraph {
        backlinks: TitleMap { entries: g.backlinks.entries.clone() },
        tags: TitleMap { entries: g.tags.entries.clone() },
    };
    g2.rename(b"fresh", b"one");
    g2.rename(b"one", b"fresh");

    for (k, _) in &g.backlinks.entries {
        assert_eq!(values_of(&g.backlinks, k), values_of(&g2.backlinks, k));
    }
    for (k, _) in &g.tags.entries {
        assert_eq!(values_of(&g.tags, k), values_of(&g2.tags, k));
    }
    assert_eq!(g.backlinks.entries.len(), g2.backlinks.entries.len());
    assert_eq!(g.tags.entries.len(), g2.tags.entries.len());
}

#[test]
fn rename_merges_into_existing_title() {
    let mut g = LinkGraph::new();
    g.apply_note(b"a", &vec![b"x".to_vec()], &vec![]);
    g.apply_note(b"b", &vec![b"y".to_vec()], &vec![]);
    g.rename(b"y", b"x");
    assert!(values_of(&g.backlinks, b"x").is_none());
    let vals = values_of(&g.backlinks, b"y").unwrap();
    assert_eq!(vals, vec![b"a".to_vec(), b"b".to_vec()]);
}

#[test]
fn delete_leaves_no_dangling_references() {
    let mut g = LinkGraph::new();
    g.apply_note(b"keeper", &vec![b"gone".to_vec()], &vec![b"wiki".to_vec()]);
    g.apply_note(b"gone", &vec![b"keeper".to_vec()], &vec![b"wiki".to_vec()]);
    g.delete(b"gone");
    assert!(values_of(&g.backlinks, b"gone").is_none());
    for (_, vals) in &g.backlinks.entries {
        for v in vals {
            assert_ne!(v, &b"gone".to_vec());
        }
    }
    for (_, vals) in &g.tags.entries {
        for v in vals {
            assert_ne!(v, &b"gone".to_vec());
        }
    }
}

#[test]
fn rebuild_after_delete_forgets_the_title() {
    // The corpus no longer holds "gone"; the rebuilt graph references it
    // neither as a source anywhere nor, since nothing links to it, as a key.
    let corpus = vec![
        NoteSummary {
            title: b"left".to_vec(),
            outlinks: vec![b"right".to_vec()],
            tags: vec![b"wiki".to_vec()],
        },
        NoteSummary { title: b"right".to_vec(), outlinks: vec![], tags: vec![b"wiki".to_vec()] },
    ];
    let g = build_tags_and_links(&corpus);
    assert!(values_of(&g.backlinks, b"gone").is_none());
    for (_, vals) in &g.backlinks.entries {
        for v in vals {
            assert_ne!(v, &b"gone".to_vec());
        }
    }
    for (_, vals) in &g.tags.entries {
        for v in vals {
            assert_ne!(v, &b"gone".to_vec());
        }
    }
    let vals = values_of(&g.backlinks, b"right").unwrap();
    assert_eq!(vals, vec![b"left".to_vec()]);
}

#[test]
fn title_token_weighs_three() {
    // A title token appearing once in the title and nowhere else holds a
    // combined count of one, and the built document weighs it at three.
    let note = Note {
        header: vec![(b"title".to_vec(), b"t".to_vec())],
        content: b"body words".to_vec(),
    };
    let combined = vec![(b"body".to_vec(), 1u64), (b"words".to_vec(), 1u64), (
        b"t".to_vec(),
        1u64,
    )];
    let title_tokens = vec![(b"t".to_vec(), 1u64)];
    let doc = tokenize_note_meta(&note, &combined, &title_tokens);
    assert_eq!(doc.id, b"t".to_vec());
    let weight = doc.tokens.iter().find(|(k, _)| k == &b"t".to_vec()).unwrap().1;
    assert_eq!(weight, 3);
    let other = doc.tokens.iter().find(|(k, _)| k == &b"body".to_vec()).unwrap().1;
    assert_eq!(other, 1);
}

#[test]
fn tokenizable_content_joins_with_spaces() {
    let joined = tokenizable_content(b"body", b"tagtext", b"title");
    assert_eq!(joined, b"body tagtext title".to_vec());
}

#[test]
fn patch_plan_includes_rename_only_on_title_change() {
    let patch = PatchData {
        body: b"b".to_vec(),
        tags: vec![],
        title: b"new".to_vec(),
        old_title: b"old".to_vec(),
        metadata: vec![],
    };
    let acts = plan_patch(&patch);
    assert_eq!(acts.len(), 4);
    assert!(matches!(&acts[2], Action::RenameStores { .. }));

    let same = PatchData {
        body: b"b".to_vec(),
        tags: vec![],
        title: b"new".to_vec(),
        old_title: b"new".to_vec(),
        metadata: vec![],
    };
    let acts = plan_patch(&same);
    assert_eq!(acts.len(), 3);
    assert!(matches!(&acts[2], Action::TouchMru { .. }));
}

#[test]
fn delete_plan_aborts_on_unresolved_title() {
    assert!(plan_delete(b"missing", false).is_none());
    let acts = plan_delete(b"there", true).unwrap();
    assert_eq!(acts.len(), 4);
    assert!(matches!(&acts[0], Action::RemoveStore { .. }));
    assert!(matches!(&acts[3], Action::DeleteContent { .. }));
}

#[test]
fn archive_plan_is_idempotent_by_existence() {
    let acts = plan_archive(b"t", b"zz", b"text", true);
    assert!(acts.is_empty());
    let acts = plan_archive(b"t", b"zz", b"text", false);
    assert_eq!(acts.len(), 2);
}

#[test]
fn sanitize_title_strips_blocklist() {
    let out = sanitize_title(b"a?b\\c/d|e:f;g>h<i,j.k\nl$m&n");
    assert_eq!(out, b"abcdefghijklmn".to_vec());
    let clean = sanitize_title(b"Plain Title 7");
    assert_eq!(clean, b"Plain Title 7".to_vec());
}

fn apply(store: &mut HashSet<Vec<u8>>, search: &mut HashSet<Vec<u8>>, a: &Action) {
    match a {
        Action::UpdateStore { title } | Action::PersistNote { title, .. } => {
            store.insert(title.clone());
        }
        Action::UpdateSearch { title } | Action::IndexArchive { title, .. } => {
            search.insert(title.clone());
        }
        Action::RemoveStore { title } => {
            store.remove(title);
        }
        Action::RemoveSearch { title } => {
            search.remove(title);
        }
        _ => {}
    }
}

#[test]
fn patch_then_delete_batch_ends_in_valid_state_either_order() {
    let patch = PatchData {
        body: b"b".to_vec(),
        tags: vec![],
        title: b"X".to_vec(),
        old_title: Vec::new(),
        metadata: vec![],
    };
    let patch_acts = plan_patch(&patch);
    let delete_acts = plan_delete(b"X", true).unwrap();

    // Patch job first, then delete job: X absent everywhere.
    let mut store = HashSet::new();
    let mut search = HashSet::new();
    for a in patch_acts.iter().chain(delete_acts.iter()) {
        apply(&mut store, &mut search, a);
    }
    assert_eq!(store.contains(&b"X".to_vec()), search.contains(&b"X".to_vec()));
    assert!(!store.contains(&b"X".to_vec()));

    // Delete job first, then patch job: X fully indexed.
    let mut store = HashSet::new();
    let mut search = HashSet::new();
    for a in delete_acts.iter().chain(patch_acts.iter()) {
        apply(&mut store, &mut search, a);
    }
    assert_eq!(store.contains(&b"X".to_vec()), search.contains(&b"X".to_vec()));
    assert!(store.contains(&b"X".to_vec()));
}

#[test]
fn graph_keys_stay_lexicographically_ordered() {
    let mut g = LinkGraph::new();
    g.apply_note(b"n", &vec![b"zebra".to_vec(), b"apple".to_vec(), b"mango".to_vec()], &vec![]);
    let keys: Vec<Vec<u8>> = g.backlinks.entries.iter().map(|(k, _)| k.clone()).collect();
    assert_eq!(keys, vec![b"apple".to_vec(), b"mango".to_vec(), b"zebra".to_vec()]);
}

#[test]
fn mru_touch_moves_to_front_and_rekeys() {
    let mut mru = MruCache::new();
    mru.update_mru_cache(b"", b"one");
    mru.update_mru_cache(b"", b"two");
    assert_eq!(mru.entries, vec![b"two".to_vec(), b"one".to_vec()]);
    // Rename re-keys the old entry instead of keeping a stale name.
    mru.update_mru_cache(b"one", b"renamed");
    assert_eq!(mru.entries, vec![b"renamed".to_vec(), b"two".to_vec()]);
}
