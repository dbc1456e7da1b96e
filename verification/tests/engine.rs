//! End-to-end checks of the version-control engine: diffing, applying,
//! packing, committing, exporting and rendering, run against the real
//! outside crates.

use lily::garden::Garden;
use lily::model::LilyError;
use lily::pack::Pack;
use lily::patch::ChangeMode;
use lily::patch::Patch;
use lily::patch::PatchFile;
use lily::smap::SMap;
use lily::stage::Stage;

/// Waits for the millisecond clock to move, so commits get distinct
/// timestamps.
fn wait_a_tick() {
    let t0 = lily::util::unix_epoch_timestamp();
    while lily::util::unix_epoch_timestamp() == t0 {}
}

fn round_trip(old_text: &str, new_text: &str) {
    let pf = PatchFile::diff(old_text.to_string(), &new_text.to_string());
    assert_eq!(pf.apply(old_text.to_string()), new_text.to_string());
}

#[test]
fn diff_apply_round_trip_pairs() {
    round_trip("", "");
    round_trip("", "x\ny");
    round_trip("x\ny", "");
    round_trip("x\ny", "x\nz");
    round_trip("a\nb", "c\nd");
    round_trip("a\nb\nc", "b");
    round_trip("b", "a\nb\nc");
    round_trip("one\ntwo\nthree\n", "one\nthree\nfour");
    round_trip("same\nsame\nsame", "same\nsame\nsame\nsame");
    round_trip("tail\n", "tail");
    round_trip("\n\n", "\n");
    round_trip("alpha", "beta\ngamma\nalpha");
}

#[test]
fn diff_equal_texts_has_no_changes() {
    let pf = PatchFile::diff("a\nb\nc".to_string(), &"a\nb\nc".to_string());
    assert_eq!(pf.1.len(), 0);
    let pf2 = PatchFile::diff(String::new(), &String::new());
    assert_eq!(pf2.1.len(), 0);
}

#[test]
fn diff_to_empty_deletes_every_line() {
    let pf = PatchFile::diff("x\nz".to_string(), &String::new());
    assert_eq!(pf.1.len(), 2);
    for change in &pf.1 {
        assert!(matches!(change.1, ChangeMode::Deleted));
    }
    assert_eq!(pf.apply("x\nz".to_string()), "");
}

#[test]
fn summary_is_additions_plus_deletions() {
    let pf = PatchFile::diff("x\ny".to_string(), &"x\nz".to_string());
    let s = pf.summary();
    assert_eq!(s, (2, 1, 1));
    let pf2 = PatchFile::diff("".to_string(), &"a\nb\nc".to_string());
    let s2 = pf2.summary();
    assert_eq!(s2.0, s2.1 + s2.2);
    assert_eq!(s2, (3, 3, 0));
}

#[test]
fn patch_from_file_keeps_one_entry() {
    let p = Patch::from_file(
        "a.txt".to_string(),
        "old".to_string(),
        "new".to_string(),
    );
    assert_eq!(p.files.len(), 1);
    assert_eq!(p.files.key_at(0).as_str(), "a.txt");
    assert!(p.files.get("a.txt").is_some());
}

#[test]
fn pack_round_trip_restores_contents() {
    let mut files: SMap<String> = SMap::new();
    files.insert("dir/inner.txt".to_string(), "first\nsecond".to_string());
    files.insert("a.txt".to_string(), "hello".to_string());
    let pack = Pack::new(&files);
    let opened = pack.open().expect("the archive lists back");
    assert_eq!(opened.len(), 2);
    assert_eq!(opened.get("a.txt").unwrap().as_str(), "hello");
    assert_eq!(opened.get("dir/inner.txt").unwrap().as_str(), "first\nsecond");
    // Keys come back sorted.
    assert_eq!(opened.key_at(0).as_str(), "a.txt");
    assert_eq!(opened.key_at(1).as_str(), "dir/inner.txt");
}

#[test]
fn pack_rejects_garbage() {
    let pack = Pack { data: vec![1, 2, 3, 4] };
    assert!(matches!(pack.open(), Err(LilyError::ValueError)));
    assert!(matches!(
        Pack::decode_vec(vec![9, 9, 9]),
        Err(LilyError::ValueError)
    ));
}

#[test]
fn compressed_text_reads_back() {
    let bytes = Pack::from_string("a compressed patch\nwith lines".to_string());
    let text = Pack::decode_vec(bytes).unwrap();
    assert_eq!(text, "a compressed patch\nwith lines");
}

#[test]
fn fresh_init_has_exactly_main() {
    let mut g = Garden::bare("repo".to_string());
    g.init().unwrap();
    let branches = g.get_all_branches().unwrap();
    assert_eq!(branches.len(), 1);
    assert_eq!(branches[0].name, "main");
    assert_eq!(branches[0].id.len(), 64);
}

#[test]
fn init_is_idempotent() {
    let mut g = Garden::bare("repo".to_string());
    g.init().unwrap();
    g.init().unwrap();
    let branches = g.get_all_branches().unwrap();
    assert_eq!(branches.len(), 1);
    assert_eq!(branches[0].name, "main");
}

#[test]
fn traversal_paths_stay_out_of_snapshots() {
    // Paths the archive boundary would rewrite or refuse never reach it.
    let mut files: SMap<String> = SMap::new();
    files.insert("a/../b".to_string(), "escape".to_string());
    files.insert("./c".to_string(), "dot".to_string());
    files.insert("d//e".to_string(), "doubled".to_string());
    files.insert("/abs".to_string(), "absolute".to_string());
    files.insert("plain.txt".to_string(), "kept".to_string());
    let pack = Pack::new(&files);
    let opened = pack.open().unwrap();
    assert_eq!(opened.len(), 1);
    assert_eq!(opened.get("plain.txt").unwrap().as_str(), "kept");
    // The same holds through a commit.
    let mut g = Garden::bare("repo".to_string());
    g.init().unwrap();
    let mut wt: SMap<String> = SMap::new();
    wt.insert("a/../b".to_string(), "escape".to_string());
    wt.insert("ok.txt".to_string(), "fine".to_string());
    g.stage.add("a/../b".to_string());
    g.stage.add("ok.txt".to_string());
    let id = g
        .create_commit(
            "main".to_string(),
            "guarded".to_string(),
            "tester@host".to_string(),
            &wt,
        )
        .unwrap();
    let bytes = g.objects.get(&id).unwrap().clone();
    let snapshot = Pack { data: bytes }.open().unwrap();
    assert_eq!(snapshot.len(), 1);
    assert!(snapshot.get("ok.txt").is_some());
}

#[test]
fn first_commit_adds_both_lines() {
    let mut g = Garden::bare("repo".to_string());
    g.init().unwrap();
    let mut wt: SMap<String> = SMap::new();
    wt.insert("a.txt".to_string(), "x\ny".to_string());
    g.stage.add("a.txt".to_string());
    let id = g
        .create_commit(
            "main".to_string(),
            "first".to_string(),
            "tester@host".to_string(),
            &wt,
        )
        .unwrap();
    let c = g.get_latest_commit().unwrap();
    assert_eq!(c.id, id);
    assert_eq!(c.message, "first");
    // Queries are case-folded: the generated ids are lowercase hex.
    let upper = id.to_uppercase();
    assert_eq!(g.get_commit(&upper).unwrap().id, id);
    assert_eq!(c.content.files.len(), 1);
    let pf = c.content.files.get("a.txt").unwrap();
    assert_eq!(pf.1.len(), 2);
    for change in &pf.1 {
        assert!(matches!(change.1, ChangeMode::Added));
    }
    // Snapshot fidelity: the new object holds exactly the staged file.
    let bytes = g.objects.get(&id).unwrap().clone();
    let snapshot = Pack { data: bytes }.open().unwrap();
    assert_eq!(snapshot.len(), 1);
    assert_eq!(snapshot.get("a.txt").unwrap().as_str(), "x\ny");
}

#[test]
fn second_commit_records_the_line_change() {
    let mut g = Garden::bare("repo".to_string());
    g.init().unwrap();
    let mut wt: SMap<String> = SMap::new();
    wt.insert("a.txt".to_string(), "x\ny".to_string());
    g.stage.add("a.txt".to_string());
    g.create_commit(
        "main".to_string(),
        "first".to_string(),
        "tester@host".to_string(),
        &wt,
    )
    .unwrap();
    wait_a_tick();
    wt.insert("a.txt".to_string(), "x\nz".to_string());
    let id2 = g
        .create_commit(
            "main".to_string(),
            "second".to_string(),
            "tester@host".to_string(),
            &wt,
        )
        .unwrap();
    let c2 = g.get_commit(&id2).unwrap();
    let pf = c2.content.files.get("a.txt").unwrap();
    assert_eq!(pf.summary(), (2, 1, 1));
    let mut deleted = Vec::new();
    let mut added = Vec::new();
    for change in &pf.1 {
        match change.1 {
            ChangeMode::Deleted => deleted.push(change.2.clone()),
            ChangeMode::Added => added.push(change.2.clone()),
        }
    }
    assert_eq!(deleted, vec!["y".to_string()]);
    assert_eq!(added, vec!["z".to_string()]);
}

#[test]
fn third_commit_captures_the_deletion() {
    let mut g = Garden::bare("repo".to_string());
    g.init().unwrap();
    let mut wt: SMap<String> = SMap::new();
    wt.insert("a.txt".to_string(), "x\nz".to_string());
    g.stage.add("a.txt".to_string());
    g.create_commit(
        "main".to_string(),
        "first".to_string(),
        "tester@host".to_string(),
        &wt,
    )
    .unwrap();
    wait_a_tick();
    // The file leaves the working tree and the stage.
    wt.remove("a.txt");
    g.stage.clear();
    let id3 = g
        .create_commit(
            "main".to_string(),
            "third".to_string(),
            "tester@host".to_string(),
            &wt,
        )
        .unwrap();
    let c3 = g.get_commit(&id3).unwrap();
    let pf = c3.content.files.get("a.txt").expect("deletion recorded");
    assert_eq!(pf.1.len(), 2);
    for change in &pf.1 {
        assert!(matches!(change.1, ChangeMode::Deleted));
    }
    assert_eq!(pf.apply("x\nz".to_string()), "");
    // The third snapshot no longer holds the file.
    let bytes = g.objects.get(&id3).unwrap().clone();
    let snapshot = Pack { data: bytes }.open().unwrap();
    assert!(snapshot.get("a.txt").is_none());
}

#[test]
fn render_lists_three_commits_newest_first() {
    let mut g = Garden::bare("repo".to_string());
    g.init().unwrap();
    let mut wt: SMap<String> = SMap::new();
    let mut ids = Vec::new();
    for (content, message) in [("x\ny", "first"), ("x\nz", "second"), ("x", "third")] {
        wt.insert("a.txt".to_string(), content.to_string());
        g.stage.clear();
        g.stage.add("a.txt".to_string());
        ids.push(
            g.create_commit(
                "main".to_string(),
                message.to_string(),
                "tester@host".to_string(),
                &wt,
            )
            .unwrap(),
        );
        wait_a_tick();
    }
    let site = g.render(&"main".to_string()).unwrap();
    let index = site.get("commits/index.html").unwrap();
    assert_eq!(index.matches("lily:commit_listing").count(), 3);
    // Newest first: the third id comes before the second, the second
    // before the first.
    let p1 = index.find(ids[0].as_str()).unwrap();
    let p2 = index.find(ids[1].as_str()).unwrap();
    let p3 = index.find(ids[2].as_str()).unwrap();
    assert!(p3 < p2 && p2 < p1);
    // Each commit links to a page and a tree page.
    for id in &ids {
        assert!(site.get(&format!("commits/{id}/index.html")).is_some());
        assert!(site.get(&format!("commits/{id}/tree.html")).is_some());
    }
    // The latest tree enumerates the snapshot file and links its page.
    let tree = site.get(&format!("commits/{}/tree.html", ids[2])).unwrap();
    assert!(tree.contains("a.txt"));
    assert!(tree.contains("lily:file_listing"));
    assert!(tree.contains("tree/a.txt.html"));
    // The source page is present, escaped and line-numbered.
    let page = site
        .get(&format!("commits/{}/tree/a.txt.html", ids[2]))
        .unwrap();
    assert!(page.contains("ln-1"));
    assert!(page.contains("lily:file_lines"));
}

#[test]
fn rendered_source_pages_escape_markup() {
    let mut g = Garden::bare("repo".to_string());
    g.init().unwrap();
    let mut wt: SMap<String> = SMap::new();
    wt.insert("dir/page.html".to_string(), "<b>bold</b>\nplain".to_string());
    g.stage.add("dir/page.html".to_string());
    let id = g
        .create_commit(
            "main".to_string(),
            "markup".to_string(),
            "tester@host".to_string(),
            &wt,
        )
        .unwrap();
    let site = g.render(&"main".to_string()).unwrap();
    // The separator becomes `>` in the page's site path.
    let page = site
        .get(&format!("commits/{id}/tree/dir>page.html.html"))
        .unwrap();
    assert!(page.contains("&lt;b&gt;bold&lt;/b&gt;"));
    assert!(!page.contains("<b>bold"));
    assert!(page.contains("ln-2"));
}

#[test]
fn export_import_restores_rows() {
    let mut g = Garden::bare("repo".to_string());
    g.init().unwrap();
    g.create_branch("side".to_string()).unwrap();
    let mut wt: SMap<String> = SMap::new();
    wt.insert("a.txt".to_string(), "x\ny".to_string());
    g.stage.add("a.txt".to_string());
    g.create_commit(
        "main".to_string(),
        "first".to_string(),
        "tester@host".to_string(),
        &wt,
    )
    .unwrap();
    wait_a_tick();
    wt.insert("a.txt".to_string(), "x\nz".to_string());
    g.create_commit(
        "side".to_string(),
        "second".to_string(),
        "other@host".to_string(),
        &wt,
    )
    .unwrap();
    let tree = g.serialize().unwrap();
    assert_eq!(tree.branch_files.len(), 2);
    assert_eq!(tree.commit_files.len(), 2);

    let mut h = Garden::bare("other".to_string());
    h.deserialize(&tree).unwrap();
    assert_eq!(h.branches.len(), g.branches.len());
    for (a, b) in g.branches.iter().zip(h.branches.iter()) {
        assert_eq!(a.id, b.id);
        assert_eq!(a.name, b.name);
        assert_eq!(a.timestamp, b.timestamp);
    }
    assert_eq!(h.commits.len(), g.commits.len());
    for rec in &g.commits {
        let exported = g.get_commit(&rec.id).unwrap();
        let restored = h.get_commit(&rec.id).unwrap();
        assert_eq!(exported.id, restored.id);
        assert_eq!(exported.branch, restored.branch);
        assert_eq!(exported.timestamp, restored.timestamp);
        assert_eq!(exported.author, restored.author);
        assert_eq!(exported.message, restored.message);
        assert_eq!(exported.content.files.len(), restored.content.files.len());
        for i in 0..exported.content.files.len() {
            assert_eq!(exported.content.files.key_at(i).as_str(), restored.content.files.key_at(i).as_str());
            let pa = exported.content.files.val_at(i);
            let pb = restored.content.files.val_at(i);
            assert_eq!(pa.0, pb.0);
            assert_eq!(pa.1, pb.1);
        }
    }
    // Importing the same rows again collides on the ids.
    assert!(matches!(h.deserialize(&tree), Err(LilyError::MustBeUnique)));
    // A tree that repeats an id within itself is rejected too.
    let mut doubled = lily::garden::ExportTree {
        branch_files: Vec::new(),
        commit_files: Vec::new(),
    };
    for (p, t) in &tree.branch_files {
        doubled.branch_files.push((p.clone(), t.clone()));
        doubled.branch_files.push((p.clone(), t.clone()));
    }
    let mut fresh = Garden::bare("third".to_string());
    assert!(matches!(
        fresh.deserialize(&doubled),
        Err(LilyError::MustBeUnique)
    ));
}

#[test]
fn unchanged_staged_file_stays_out_of_the_patch() {
    let mut g = Garden::bare("repo".to_string());
    g.init().unwrap();
    let mut wt: SMap<String> = SMap::new();
    wt.insert("same.txt".to_string(), "constant".to_string());
    wt.insert("edit.txt".to_string(), "a".to_string());
    g.stage.add("same.txt".to_string());
    g.stage.add("edit.txt".to_string());
    g.create_commit(
        "main".to_string(),
        "first".to_string(),
        "tester@host".to_string(),
        &wt,
    )
    .unwrap();
    wait_a_tick();
    // Only one of the two staged files changes.
    wt.insert("edit.txt".to_string(), "b".to_string());
    let id2 = g
        .create_commit(
            "main".to_string(),
            "second".to_string(),
            "tester@host".to_string(),
            &wt,
        )
        .unwrap();
    let c2 = g.get_commit(&id2).unwrap();
    assert!(c2.content.files.get("same.txt").is_none());
    assert!(c2.content.files.get("edit.txt").is_some());
    // Every stored entry carries at least one change.
    for i in 0..c2.content.files.len() {
        assert!(c2.content.files.val_at(i).1.len() > 0);
    }
}

#[test]
fn export_repository_produces_an_archive() {
    let mut g = Garden::bare("repo".to_string());
    g.init().unwrap();
    let tree = g.serialize().unwrap();
    let pack = g.export_repository(&tree);
    assert!(!pack.data.is_empty());
}

#[test]
fn branch_lookup_finds_and_misses() {
    let mut g = Garden::bare("repo".to_string());
    g.init().unwrap();
    let id = g.create_branch("feature".to_string()).unwrap();
    let by_id = g.get_branch(&id).unwrap();
    assert_eq!(by_id.name, "feature");
    let by_name = g.get_branch_by_name(&"feature".to_string()).unwrap();
    assert_eq!(by_name.id, id);
    assert!(matches!(
        g.get_branch(&"missing".to_string()),
        Err(LilyError::NotFound)
    ));
    assert!(matches!(
        g.get_branch_by_name(&"missing".to_string()),
        Err(LilyError::NotFound)
    ));
}

#[test]
fn branch_listing_is_newest_first() {
    let mut g = Garden::bare("repo".to_string());
    g.init().unwrap();
    wait_a_tick();
    g.create_branch("later".to_string()).unwrap();
    let branches = g.get_all_branches().unwrap();
    assert_eq!(branches.len(), 2);
    assert!(branches[0].timestamp >= branches[1].timestamp);
    assert_eq!(branches[0].name, "later");
}

#[test]
fn set_branch_and_remote_update_info() {
    let mut g = Garden::bare("repo".to_string());
    g.set_branch("dev".to_string());
    assert_eq!(g.info.branch.current, "dev");
    assert_eq!(g.info.branch.default, "main");
    g.set_remote("https://example.net/repo".to_string());
    assert_eq!(g.info.remote, "https://example.net/repo");
}

#[test]
fn commits_are_tracked_locally() {
    let mut g = Garden::bare("repo".to_string());
    g.init().unwrap();
    let mut wt: SMap<String> = SMap::new();
    wt.insert("a.txt".to_string(), "x".to_string());
    g.stage.add("a.txt".to_string());
    let id = g
        .create_commit(
            "main".to_string(),
            "first".to_string(),
            "tester@host".to_string(),
            &wt,
        )
        .unwrap();
    let unsynced = g.local.get_files();
    assert_eq!(unsynced, vec![id]);
}

#[test]
fn get_all_commits_filters_by_branch() {
    let mut g = Garden::bare("repo".to_string());
    g.init().unwrap();
    g.create_branch("side".to_string()).unwrap();
    let mut wt: SMap<String> = SMap::new();
    wt.insert("a.txt".to_string(), "x".to_string());
    g.stage.add("a.txt".to_string());
    g.create_commit(
        "main".to_string(),
        "on main".to_string(),
        "tester@host".to_string(),
        &wt,
    )
    .unwrap();
    wait_a_tick();
    g.create_commit(
        "side".to_string(),
        "on side".to_string(),
        "tester@host".to_string(),
        &wt,
    )
    .unwrap();
    let on_main = g.get_all_commits(&"main".to_string()).unwrap();
    assert_eq!(on_main.len(), 1);
    assert_eq!(on_main[0].message, "on main");
    let on_side = g.get_all_commits(&"side".to_string()).unwrap();
    assert_eq!(on_side.len(), 1);
    assert_eq!(on_side[0].message, "on side");
}

#[test]
fn stage_lists_nonempty_lines() {
    let s = Stage::init(Some("a.txt\n\nb.txt\n".to_string()));
    assert_eq!(s.get_files(), vec!["a.txt".to_string(), "b.txt".to_string()]);
    let mut s2 = Stage::init(None);
    assert_eq!(s2.get_files().len(), 0);
    s2.add("c.txt".to_string());
    s2.add("d.txt".to_string());
    assert_eq!(s2.get_files(), vec!["c.txt".to_string(), "d.txt".to_string()]);
    s2.clear();
    assert_eq!(s2.get_files().len(), 0);
}

#[test]
fn add_glob_skips_tracking_directories() {
    let mut s = Stage::init(None);
    s.add_glob(&".".to_string(), &vec!["target/**/*".to_string()])
        .unwrap();
    for path in s.get_files() {
        assert!(!path.starts_with(".garden"));
        assert!(!path.starts_with(".git"));
        assert!(!path.starts_with("target/"));
    }
}

#[test]
fn add_glob_fails_on_a_missing_tree() {
    let mut s = Stage::init(None);
    let r = s.add_glob(&"no_such_directory_here".to_string(), &Vec::new());
    assert!(matches!(r, Err(LilyError::Other)));
    assert_eq!(s.get_files().len(), 0);
}

#[test]
fn add_glob_rejects_a_bad_glob() {
    let mut s = Stage::init(None);
    let r = s.add_glob(&".".to_string(), &vec!["a{{".to_string()]);
    assert!(matches!(r, Err(LilyError::ValueError)));
    assert_eq!(s.get_files().len(), 0);
}

#[test]
fn commit_rendering_mentions_the_metadata() {
    let mut g = Garden::bare("repo".to_string());
    g.init().unwrap();
    let mut wt: SMap<String> = SMap::new();
    wt.insert("a.txt".to_string(), "x\ny".to_string());
    g.stage.add("a.txt".to_string());
    let id = g
        .create_commit(
            "main".to_string(),
            "a message".to_string(),
            "tester@host".to_string(),
            &wt,
        )
        .unwrap();
    let c = g.get_commit(&id).unwrap();
    let page = c.render();
    assert!(page.contains(&id));
    assert!(page.contains("a message"));
    assert!(page.contains("tester@host"));
    let short = c.short();
    assert_eq!(short.len(), 10);
    assert!(id.starts_with(&short));
}

#[test]
fn patch_rendering_has_one_block_per_file_and_totals() {
    let p = Patch::from_file(
        "a.txt".to_string(),
        "x\ny".to_string(),
        "x\nz".to_string(),
    );
    let blocks = p.render();
    assert_eq!(blocks.len(), 2);
    assert!(blocks[0].contains("a.txt"));
    assert!(blocks[1].contains("2 total changes"));
    assert!(blocks[1].contains("1 additions"));
    assert!(blocks[1].contains("1 deletions"));
    let html = p.render_html();
    assert_eq!(html.len(), 2);
    assert!(html[0].starts_with("<pre class=\"lily:patch\">"));
    assert!(!html[0].contains('\u{1b}'));
}

#[test]
fn applying_handles_out_of_range_changes() {
    // A deletion past the end is ignored; an addition past the end
    // appends.
    let pf = PatchFile(
        "a".to_string(),
        vec![
            (9, ChangeMode::Deleted, "zz".to_string()),
            (9, ChangeMode::Added, "b".to_string()),
        ],
    );
    assert_eq!(pf.apply("a".to_string()), "a\nb");
}
