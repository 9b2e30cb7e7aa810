use instagrep::index::{
    add_file, apply_update, build, build_from_states, changed_since, check_index, choose_action, chunk_size, count_live, index_chunk,
    patch_changed, plan_update, remove_file, FileMeta, FileState, Index, UpdateAction,
};
use instagrep::stats::{index_stats, IndexStats};
use instagrep::store::{load, save};
use instagrep::trigram::encode;

/// What is read of a file with this content.
fn state(text: &str) -> FileState {
    FileState {
        meta: Some(FileMeta { mtime_secs: 1_700_000_000, size: text.len() as u64 }),
        bytes: Some(text.as_bytes().to_vec()),
    }
}

fn names(files: &[(&str, &str)]) -> Vec<Vec<u8>> {
    files.iter().map(|(name, _)| name.as_bytes().to_vec()).collect()
}

/// Index files in chunks of a size.
fn built(files: &[(&str, &str)], chunk: usize) -> Index {
    let states: Vec<FileState> = files.iter().map(|(_, text)| state(text)).collect();
    let partials = states.chunks(chunk).enumerate().map(|(k, part)| index_chunk(part, (k * chunk) as u32)).collect();
    build(names(files), &partials, 7)
}

/// Bring an index up to date with these files.
fn updated(mut index: Index, files: &[(&str, &str)]) -> Index {
    let current = names(files);
    let states: Vec<FileState> = files.iter().map(|(_, text)| state(text)).collect();
    let metas = states.iter().map(|s| s.meta).collect();
    let plan = plan_update(&index, &current, &metas);
    match choose_action(&plan, &index) {
        UpdateAction::Keep => index,
        UpdateAction::Patch => {
            let changed = plan.changed.iter().map(|&(_, at)| state(files[at].1)).collect();
            let added = plan.added.iter().map(|&at| state(files[at].1)).collect();
            apply_update(&mut index, &plan, &current, &changed, &added);
            index
        }
        UpdateAction::Rebuild => built(files, 64),
    }
}

fn reloaded(index: &Index) -> Index {
    load(&save(index)).unwrap().unwrap()
}

/// The ids listed under a trigram.
fn ids(index: &Index, t: &[u8; 3]) -> Vec<u32> {
    index.postings.get(&encode(t[0], t[1], t[2])).map_or(Vec::new(), |bm| bm.iter().collect())
}

#[test]
fn build_indexes_folded_trigrams() {
    let index = built(&[("a.txt", "Hello World\n")], 64);
    assert!(index.postings.contains_key(&encode(b'H', b'e', b'l')));
    assert!(index.postings.contains_key(&encode(b'h', b'e', b'l'))); // folded
    assert_eq!(index.files, vec![b"a.txt".to_vec()]);
}

#[test]
fn save_load_roundtrip_preserves_postings() {
    let index = built(&[("x.txt", "alpha beta gamma\n"), ("y.txt", "delta beta gamma\n")], 64);
    let loaded = reloaded(&index);

    assert_eq!(loaded.files, index.files);
    assert_eq!(loaded.postings.len(), index.postings.len());
    for key in index.postings.keys() {
        assert_eq!(loaded.postings[key], index.postings[key], "trigram {key}");
    }
    assert_eq!(loaded.metas, index.metas);
    assert_eq!(loaded.removed_ids, index.removed_ids);
    assert_eq!(loaded.build_time_us, index.build_time_us);
}

#[test]
fn update_appends_new_files_incrementally() {
    let before = reloaded(&built(&[("a.txt", "one two three\n")], 64));
    let a_id = before.files.iter().position(|p| p == b"a.txt").unwrap();
    let after = updated(before, &[("a.txt", "one two three\n"), ("b.txt", "four five six\n")]);

    assert!(after.files.contains(&b"b.txt".to_vec()));
    // Existing file kept its id.
    assert_eq!(after.files[a_id], b"a.txt".to_vec());
}

#[test]
fn update_surgically_patches_changed_file() {
    let before = reloaded(&built(&[("a.txt", "alpha beta gamma\n")], 64));
    let a_id = before.files.iter().position(|p| p == b"a.txt").unwrap() as u32;

    // Rewrite the file so "alpha"/"beta" disappear and "delta"/"epsilon" appear.
    let after = updated(before, &[("a.txt", "delta epsilon gamma\n")]);

    let beta = encode(b'b', b'e', b't');
    let delt = encode(b'd', b'e', b'l');
    // Old trigram removed for this file ...
    assert!(
        !after.postings.get(&beta).is_some_and(|bm| bm.contains(a_id)),
        "stale trigram 'bet' still indexed for a.txt"
    );
    // ... new trigram added, same id, no new file slot.
    assert!(after.postings.get(&delt).is_some_and(|bm| bm.contains(a_id)));
    assert_eq!(after.files.len(), 1, "changed file should not add a slot");
    assert_eq!(after.metas[0].size, 20);
}

#[test]
fn update_surgically_removes_deleted_file() {
    let before = reloaded(&built(&[("gone.txt", "unique to gone\n"), ("keep.txt", "shared content\n")], 64));
    let gone_id = before.files.iter().position(|p| p == b"gone.txt").unwrap() as u32;
    let after = updated(before, &[("keep.txt", "shared content\n")]);

    // gone's id is marked removed and carries no postings.
    assert!(after.removed_ids.contains(gone_id));
    let uni = encode(b'u', b'n', b'i');
    assert!(
        after.postings.get(&uni).is_none_or(|bm| !bm.contains(gone_id)),
        "removed file still referenced in postings"
    );
    // Resolving all files excludes the removed one.
    assert!(!after.resolve_files(None).iter().any(|p| p == b"gone.txt"));
}

#[test]
fn chunks_make_no_difference() {
    let files = [("a", "one two"), ("b", "two three"), ("c", "three four"), ("d", "four one")];
    let whole = built(&files, 4);
    for chunk in 1..4 {
        let index = built(&files, chunk);
        assert_eq!(index.postings, whole.postings);
        assert_eq!(index.metas, whole.metas);
    }
    assert_eq!(ids(&whole, b"two"), vec![0, 1]);
    assert_eq!(ids(&whole, b"our"), vec![2, 3]);
}

#[test]
fn workers_make_no_difference_to_a_build() {
    let listed: Vec<(String, String)> = (0..200).map(|i| (format!("{i:03}"), format!("text {}", i * i))).collect();
    let files: Vec<(&str, &str)> = listed.iter().map(|(n, t)| (n.as_str(), t.as_str())).collect();
    let whole = built(&files, 200);
    for workers in [1, 2, 3, 7, 500] {
        let states: Vec<FileState> = files.iter().map(|(_, text)| state(text)).collect();
        let index = build_from_states(names(&files), &states, workers, 11);
        assert_eq!(index.files, whole.files);
        assert_eq!(index.postings, whole.postings);
        assert_eq!(index.metas, whole.metas);
        assert_eq!(index.build_time_us, 11);
    }
}

#[test]
fn an_update_gives_what_a_build_would() {
    let old = [("a", "alpha"), ("b", "beta"), ("c", "gamma")];
    let new = [("b", "beta prime"), ("c", "gamma"), ("d", "delta"), ("e", "epsilon")];
    let index = updated(built(&old, 64), &new);
    assert!(check_index(&index));
    // The slot of the removed file is used again.
    assert_eq!(index.files.len(), 4);
    let fresh = built(&new, 64);
    for (id, name) in index.files.iter().enumerate() {
        let other = fresh.files.iter().position(|p| p == name).unwrap() as u32;
        for (t, listed) in &fresh.postings {
            let here = index.postings.get(t).is_some_and(|bm| bm.contains(id as u32));
            assert_eq!(here, listed.contains(other), "trigram {t} of {name:?}");
        }
        assert_eq!(index.metas[id], fresh.metas[other as usize]);
    }
}

#[test]
fn an_unchanged_tree_is_left_alone() {
    let files = [("a", "alpha"), ("b", "beta")];
    let index = built(&files, 64);
    let metas = vec![index.metas[0], index.metas[1]].into_iter().map(Some).collect();
    let plan = plan_update(&index, &names(&files), &metas);
    assert_eq!((plan.added.len(), plan.changed.len(), plan.removed.len(), plan.unchanged), (0, 0, 0, 2));
    assert_eq!(choose_action(&plan, &index), UpdateAction::Keep);
}

#[test]
fn a_large_change_set_asks_for_a_rebuild() {
    let listed: Vec<(String, String)> = (0..1001).map(|i| (format!("{i:04}"), format!("text {i}"))).collect();
    let files: Vec<(&str, &str)> = listed.iter().map(|(n, t)| (n.as_str(), t.as_str())).collect();
    let index = built(&files, 64);
    let few: Vec<Option<FileMeta>> = index.metas.iter().enumerate().map(|(i, m)| if i < 250 { None } else { Some(*m) }).collect();
    let plan = plan_update(&index, &names(&files), &few);
    assert_eq!(plan.changed.len(), 250);
    assert_eq!(choose_action(&plan, &index), UpdateAction::Patch);
    let many: Vec<Option<FileMeta>> = index.metas.iter().enumerate().map(|(i, m)| if i < 251 { None } else { Some(*m) }).collect();
    let plan = plan_update(&index, &names(&files), &many);
    assert_eq!(choose_action(&plan, &index), UpdateAction::Rebuild);
}

#[test]
fn a_change_is_told_by_time_and_size() {
    let recorded = FileMeta { mtime_secs: 5, size: 9 };
    assert!(!changed_since(&Some(recorded), &recorded));
    assert!(changed_since(&Some(FileMeta { mtime_secs: 6, size: 9 }), &recorded));
    assert!(changed_since(&Some(FileMeta { mtime_secs: 5, size: 8 }), &recorded));
    assert!(changed_since(&None, &recorded));
}

#[test]
fn a_removed_slot_is_reused() {
    let mut index = built(&[("a", "alpha"), ("b", "beta"), ("c", "gamma")], 64);
    remove_file(&mut index, 1);
    assert_eq!(count_live(&index), 2);
    assert_eq!(ids(&index, b"bet"), Vec::<u32>::new());
    add_file(&mut index, b"d", &state("delta"));
    assert_eq!(index.files, vec![b"a".to_vec(), b"d".to_vec(), b"c".to_vec()]);
    assert_eq!(ids(&index, b"del"), vec![1]);
    add_file(&mut index, b"e", &state("epsilon"));
    assert_eq!(index.files[3], b"e".to_vec());
    assert_eq!(count_live(&index), 4);
}

#[test]
fn a_patched_file_keeps_its_id() {
    let mut index = built(&[("a", "alpha"), ("b", "beta")], 64);
    patch_changed(&mut index, 1, &state("delta"));
    assert_eq!(ids(&index, b"bet"), Vec::<u32>::new());
    assert_eq!(ids(&index, b"del"), vec![1]);
    assert_eq!(ids(&index, b"alp"), vec![0]);
    // A file that cannot be read any more has no trigrams and keeps its metadata.
    let meta = index.metas[1];
    patch_changed(&mut index, 1, &FileState { meta: None, bytes: None });
    assert_eq!(ids(&index, b"del"), Vec::<u32>::new());
    assert_eq!(index.metas[1], meta);
}

#[test]
fn binary_files_are_recorded_without_trigrams() {
    let index = built(&[("bin", "abc\0def"), ("txt", "abcdef")], 64);
    assert_eq!(index.metas[0].size, 7);
    assert_eq!(ids(&index, b"abc"), vec![1]);
}

#[test]
fn work_is_shared_in_chunks() {
    assert_eq!(chunk_size(0, 8), 1);
    assert_eq!(chunk_size(10, 8), 10);
    assert_eq!(chunk_size(100, 8), 64);
    assert_eq!(chunk_size(8000, 8), 1000);
}

#[test]
fn files_are_resolved_by_id() {
    let mut index = built(&[("a", "alpha"), ("b", "beta"), ("c", "gamma")], 64);
    let some = [2, 0, 9].into_iter().collect();
    assert_eq!(index.resolve_files(Some(&some)), vec![b"a".to_vec(), b"c".to_vec()]);
    remove_file(&mut index, 0);
    assert_eq!(index.resolve_files(Some(&some)), vec![b"c".to_vec()]);
    assert_eq!(index.resolve_files(None), vec![b"b".to_vec(), b"c".to_vec()]);
}

#[test]
fn an_index_that_lists_unknown_files_is_not_well_formed() {
    let mut index = built(&[("a", "alpha")], 64);
    assert!(check_index(&index));
    index.removed_ids.insert(3);
    assert!(!check_index(&index));
    index.removed_ids.remove(3);
    index.postings.entry(1).or_default().insert(7);
    assert!(!check_index(&index));
}

#[test]
fn statistics_count_files_trigrams_and_entries() {
    let mut index = built(&[("a", "abcd"), ("b", "bcde")], 64);
    assert_eq!(index_stats(&index), IndexStats { files: 2, trigrams: 3, postings: 4 });
    remove_file(&mut index, 0);
    assert_eq!(index_stats(&index), IndexStats { files: 1, trigrams: 3, postings: 2 });
}

#[test]
fn an_update_lists_the_trigrams_of_what_it_read() {
    let before = built(&[("a", "abcd"), ("b", "bcde"), ("c", "cdef"), ("d", "defg"), ("e", "efgh")], 64);
    let files = [("b", "bcdx1"), ("c", "cdef"), ("d", "defg"), ("e", "efgh"), ("f", "xyz")];
    let current = names(&files);
    let metas = files.iter().map(|(_, text)| state(text).meta).collect();
    let plan = plan_update(&before, &current, &metas);
    assert_eq!((plan.removed.len(), plan.changed.len(), plan.added.len()), (1, 1, 1));
    let mut after = reloaded(&before);
    apply_update(&mut after, &plan, &current, &vec![state("bcdx1")], &vec![state("xyz")]);
    let mut listed: Vec<u32> = after.postings.keys().copied().collect();
    listed.sort_unstable();
    // What a removed or changed file alone held stays listed, without files.
    let mut expected: Vec<u32> = before.postings.keys().copied().collect();
    expected.extend([encode(b'c', b'd', b'x'), encode(b'd', b'x', b'1'), encode(b'x', b'y', b'z')]);
    expected.sort_unstable();
    assert_eq!(listed, expected);
    assert_eq!(ids(&after, b"abc"), Vec::<u32>::new());
    assert_eq!(ids(&after, b"dx1"), vec![1]);
}

#[test]
fn a_path_is_known_however_it_is_written() {
    let stored = built(&[("a//b", "alpha"), ("c/./d/", "beta"), ("./e", "gamma"), ("/f", "delta")], 64);
    let files = [("a/b", "alpha"), ("c/d", "beta"), ("e", "gamma"), ("f", "delta")];
    let metas = files.iter().map(|(_, text)| state(text).meta).collect();
    let plan = plan_update(&stored, &names(&files), &metas);
    // A leading `.` and the root count, nothing else of the kind does.
    assert_eq!(plan.added, vec![2, 3]);
    assert_eq!(plan.removed, vec![2, 3]);
    assert!(plan.changed.is_empty());
    assert_eq!(plan.unchanged, 2);
}

#[test]
fn live_files_are_counted_by_number() {
    let mut index = built(&[("a", "alpha"), ("b", "beta")], 64);
    index.removed_ids.insert(7); // the id of no file
    assert_eq!(count_live(&index), 1);
    assert_eq!(index_stats(&index).files, 1);
}

#[test]
fn a_clone_is_the_same_index() {
    let mut index = built(&[("a", "alpha beta"), ("b", "beta"), ("c", "gamma")], 2);
    remove_file(&mut index, 1);
    let mut copy = index.clone();
    assert_eq!(save(&copy), save(&index));
    assert_eq!((&copy.files, &copy.metas, copy.build_time_us), (&index.files, &index.metas, 7));
    assert_eq!((&copy.postings, &copy.removed_ids), (&index.postings, &index.removed_ids));
    remove_file(&mut copy, 0);
    assert_eq!(ids(&index, b"alp"), vec![0]);
}
