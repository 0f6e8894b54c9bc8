//! Where the text is kept.
use herdr_scratchpad::app::{plan_startup, purge_paths, Environment};
use herdr_scratchpad::state::{
    export, export_path, fallback_dir, file_name, herdr_state_dir, is_same_place, join_path,
    purge_legacy, purge_legacy_target, spare, state_dirs, sweep_orphans, tab_id_of, temp_path,
    Entry, SaveStage, Saving, Store, STATE_FILE,
};

#[test]
fn the_file_name_carries_the_tab_id() {
    assert_eq!(file_name(Some("w1:t2")), "scratchpad-w1:t2.txt");
}

#[test]
fn without_a_tab_id_the_name_has_no_suffix() {
    assert_eq!(file_name(None), STATE_FILE);
}

#[test]
fn two_tabs_do_not_share_their_file() {
    assert_ne!(file_name(Some("w1:t1")), file_name(Some("w1:t2")));
}

#[test]
fn the_tab_id_can_be_read_back_from_the_file_name() {
    assert_eq!(tab_id_of("scratchpad-w1:t2.txt"), Some("w1:t2"));
}

#[test]
fn the_unsuffixed_file_carries_no_tab_id() {
    assert_eq!(tab_id_of(STATE_FILE), None);
    assert_eq!(tab_id_of("scratchpad-.txt"), None);
    assert_eq!(tab_id_of("scratchpad-w1:t1.tmp.42"), None);
}

#[test]
fn export_path_is_stable_across_calls() {
    assert_eq!(export_path("/tmp", Some("w1:t1")), export_path("/tmp", Some("w1:t1")));
}

#[test]
fn the_export_path_carries_the_tab_id() {
    assert!(export_path("/tmp", Some("w1:t2")).ends_with("herdr-scratchpad-w1:t2.txt"));
}

#[test]
fn two_tabs_do_not_export_to_the_same_file() {
    assert_ne!(export_path("/tmp", Some("w1:t1")), export_path("/tmp", Some("w1:t2")));
}

#[test]
fn without_a_tab_id_the_export_keeps_the_bare_path() {
    assert!(export_path("/tmp", None).ends_with("herdr-scratchpad.txt"));
    assert_eq!(export_path("/tmp", None), "/tmp/herdr-scratchpad.txt");
}

#[test]
fn names_that_carry_no_tab_id() {
    for name in ["", "scratchpad-", "scratchpad-.tx", "other.txt", "xscratchpad-a.txt"] {
        assert_eq!(tab_id_of(name), None, "{name}");
    }
    assert_eq!(tab_id_of("scratchpad-.txt.txt"), Some(".txt"));
    assert_eq!(tab_id_of("scratchpad-é.txt"), Some("é"));
}

#[test]
fn paths_are_joined_with_one_slash() {
    assert_eq!(join_path("/a", "b"), "/a/b");
    assert_eq!(join_path("/a/", "b"), "/a/b");
    assert_eq!(join_path("", "b"), "b");
    for dir in ["/a", "/a/", "", "/"] {
        let expected = std::path::Path::new(dir).join("b");
        assert_eq!(join_path(dir, "b"), expected.to_str().unwrap());
    }
}

#[test]
fn the_temporary_file_carries_the_process_id() {
    assert_eq!(temp_path("/s/scratchpad-w1:t1.txt", 42), "/s/scratchpad-w1:t1.tmp.42");
    for path in [
        "/s/a.txt", "/s/a", "/s.d/a", "a.b.c", "/s/.hidden", "/s/.hidden.txt", "x.", ".x", "/s/a/",
        "/s/a.txt/", "/s/a.txt//", "/s/a.txt/.", "/s/a.txt/./", "./a.txt", "/s/../a.txt", "...",
        "..b", "/s/..b", "/s/é.txt", "", ".", "./", "./.", "..", "../", "/", "/.", "/s/..",
        "/s/../.", "/s/...",
    ] {
        let mut expected = std::path::PathBuf::from(path);
        expected.set_extension("tmp.7");
        assert_eq!(temp_path(path, 7), expected.to_str().unwrap(), "{path}");
    }
    assert_eq!(tab_id_of("scratchpad-w1:t1.tmp.4294967295"), None);
    assert_ne!(temp_path("/s/a.tmp.7", 7), "/s/a.tmp.7");
}

#[test]
fn a_store_is_named_after_its_tab() {
    assert_eq!(
        Store::from_env(Some("/s"), Some("w1:t1")),
        Some(Store::at("/s/scratchpad-w1:t1.txt".to_owned()))
    );
    assert_eq!(Store::from_env(Some("/s"), None).unwrap().path(), "/s/scratchpad.txt");
    assert_eq!(Store::from_env(None, Some("w1:t1")), None);
}

#[test]
fn a_file_that_cannot_be_read_is_an_empty_text() {
    let mut store = Store::at("/s/x".to_owned());
    assert_eq!(store.load(None, None), "");
    assert_eq!(store.load(Some(3), Some("texte".to_owned())), "texte");
}

#[test]
fn a_change_by_others_is_told_once() {
    let mut store = Store::at("/s/x".to_owned());
    store.load(Some(1), Some("a".to_owned()));
    assert!(!store.is_changed(Some(1)));
    assert_eq!(store.reload_if_changed(Some(1), Some("a".to_owned())), None);
    assert!(store.is_changed(Some(2)));
    assert_eq!(
        store.reload_if_changed(Some(2), Some("b".to_owned())),
        Some("b".to_owned())
    );
    assert_eq!(store.reload_if_changed(Some(2), Some("b".to_owned())), None);
    assert_eq!(store.reload_if_changed(None, None), Some(String::new()));
    store.saved(Some(9));
    assert!(!store.is_changed(Some(9)));
    assert!(store.is_changed(None));
}

fn saving() -> Saving {
    Store::at("/s/a.txt".to_owned()).save("texte", 7)
}

#[test]
fn a_save_goes_through_its_stages() {
    let mut s = saving();
    assert_eq!((s.path.as_str(), s.temp.as_str()), ("/s/a.txt", "/s/a.tmp.7"));
    assert_eq!(s.text, "texte");
    let stages = [SaveStage::MakeDir, SaveStage::Write, SaveStage::Rename, SaveStage::Stamp];
    for stage in stages {
        assert_eq!(s.stage, stage);
        s.step(Ok(()));
    }
    assert_eq!(s.stage, SaveStage::Saved);
    assert_eq!(s.error, None);
    s.step(Err("late".to_owned()));
    assert_eq!((s.stage, s.error), (SaveStage::Saved, None));
}

#[test]
fn a_failed_write_removes_its_file_and_never_renames() {
    let mut s = saving();
    s.step(Ok(()));
    s.step(Err("disk full".to_owned()));
    assert_eq!(s.stage, SaveStage::Discard);
    s.step(Err("gone".to_owned()));
    assert_eq!(s.stage, SaveStage::Failed);
    assert_eq!(s.error, Some("disk full".to_owned()));
    s.step(Ok(()));
    assert_eq!(s.stage, SaveStage::Failed);
}

#[test]
fn a_save_fails_where_the_directory_or_the_rename_does() {
    let mut s = saving();
    s.step(Err("no".to_owned()));
    assert_eq!((s.stage, s.error), (SaveStage::Failed, Some("no".to_owned())));
    let mut s = saving();
    s.step(Ok(()));
    s.step(Ok(()));
    s.step(Err("busy".to_owned()));
    assert_eq!((s.stage, s.error), (SaveStage::Failed, Some("busy".to_owned())));
}

#[test]
fn an_export_is_as_safe_as_a_save() {
    let s = export("/tmp", "texte", Some("w1:t1"), 9);
    assert_eq!(s.path, "/tmp/herdr-scratchpad-w1:t1.txt");
    assert_eq!(s.temp, "/tmp/herdr-scratchpad-w1:t1.tmp.9");
    assert_eq!(s.stage, SaveStage::MakeDir);
}

#[test]
fn directories_come_from_the_environment() {
    assert_eq!(herdr_state_dir(Some("/s".to_owned())), Some("/s".to_owned()));
    assert_eq!(herdr_state_dir(Some(String::new())), None);
    assert_eq!(herdr_state_dir(None), None);
    assert_eq!(fallback_dir(Some("/c"), Some("/h")), Some("/c/herdr/scratchpad".to_owned()));
    assert_eq!(
        fallback_dir(None, Some("/h")),
        Some("/h/.config/herdr/scratchpad".to_owned())
    );
    assert_eq!(fallback_dir(None, None), None);
}

#[test]
fn one_directory_is_listed_once() {
    assert_eq!(state_dirs(Some("/a"), Some("/b")), vec!["/a", "/b"]);
    assert_eq!(state_dirs(Some("/a/b"), Some("/a//b/")), vec!["/a/b"]);
    assert_eq!(state_dirs(None, Some("/b")), vec!["/b"]);
    assert!(state_dirs(None, None).is_empty());
    assert_eq!(state_dirs(Some("/a"), None), vec!["/a"]);
}

#[test]
fn paths_are_compared_step_by_step() {
    let paths = [
        "", ".", "./", "..", "/", "//", "/.", "a", "./a", "a/", "a/.", "a/./", "/a", "//a", "/./a",
        "/a/b", "/a//b/", "/a/./b", "/a/../b", "/a/b/.", "a/b", "./a/b", "././a/b", "/a.b", "/a/.b",
        "/a/b.", "...", "/...", "/é/b", "/e/b",
    ];
    for a in paths {
        for b in paths {
            let expected = std::path::Path::new(a) == std::path::Path::new(b);
            assert_eq!(is_same_place(a, b), expected, "{a} {b}");
        }
    }
}

#[test]
fn a_purge_takes_two_names_from_the_server_and_one_elsewhere() {
    assert_eq!(purge_legacy("/s"), vec!["/s/scratchpad.txt", "/s/target.txt"]);
    assert_eq!(purge_legacy_target("/f"), "/f/target.txt");
    let dirs = vec!["/s".to_owned(), "/f".to_owned()];
    assert_eq!(
        purge_paths(&dirs, Some("/s")),
        vec!["/s/target.txt", "/f/target.txt", "/s/scratchpad.txt", "/s/target.txt"]
    );
    assert_eq!(purge_paths(&dirs[1..], None), vec!["/f/target.txt"]);
}

#[test]
fn a_path_without_a_file_name_is_left_as_it_is() {
    assert_eq!(temp_path("/s/a/", 7), "/s/a.tmp.7");
    assert_eq!(temp_path("/s/..", 7), "/s/..");
    assert_eq!(temp_path("/", 7), "/");
}

fn entry(name: &str) -> Entry {
    Entry { path: format!("/s/{name}"), name: Some(name.to_owned()) }
}

#[test]
fn a_sweep_takes_orphans_alone() {
    let entries = vec![
        entry("scratchpad-w1:t1.txt"),
        entry("scratchpad-w9:t9.txt"),
        entry("scratchpad-w2:t2.txt"),
        entry("scratchpad.txt"),
        entry("scratchpad-w9:t9.tmp.3"),
        entry("notes.md"),
        Entry { path: "/s/unreadable".to_owned(), name: None },
    ];
    let live = vec!["w2:t2".to_owned()];
    assert_eq!(
        sweep_orphans(&entries, &live, "/s/scratchpad-w1:t1.txt"),
        vec!["/s/scratchpad-w9:t9.txt"]
    );
    // The same file by another spelling is still our own.
    assert_eq!(
        sweep_orphans(&entries, &live, "/s//scratchpad-w1:t1.txt"),
        vec!["/s/scratchpad-w9:t9.txt"]
    );
    assert_eq!(
        sweep_orphans(&entries, &live, "/elsewhere"),
        vec!["/s/scratchpad-w1:t1.txt", "/s/scratchpad-w9:t9.txt"]
    );
}

#[test]
fn a_sweep_takes_only_what_is_named_after_a_tab() {
    let live = vec!["w1:t1".to_owned()];
    let own = "/s/scratchpad-w1:t1.txt";
    for name in ["notes", "w", "w1", "w1t1", "w1:", "w1:p2", "x1:t1", ":t1", "t1:w1", "W1:t1"] {
        let entries = [entry(&format!("scratchpad-{name}.txt"))];
        assert!(sweep_orphans(&entries, &live, own).is_empty(), "{name}");
    }
    for name in ["w:t", "w2:t1", "w12:t34", "w1:p2:t3", "w1::t1"] {
        let entries = [entry(&format!("scratchpad-{name}.txt"))];
        assert_eq!(sweep_orphans(&entries, &live, own), vec![entries[0].path.clone()], "{name}");
    }
}

#[test]
fn a_pane_never_removes_the_file_it_opens() {
    let open = |tab_id: Option<&str>, state_dir: &str, config: &str| {
        plan_startup(Environment {
            tab_id: tab_id.map(str::to_owned),
            pane_id: None,
            state_dir: Some(state_dir.to_owned()),
            config: Some(config.to_owned()),
            home: None,
        })
    };
    let plan = open(None, "/d", "/c");
    assert_eq!(plan.store.unwrap().path(), "/d/scratchpad.txt");
    assert_eq!(
        plan.purge,
        vec!["/d/target.txt", "/c/herdr/scratchpad/target.txt", "/d/target.txt"]
    );
    // The same where the server's directory is the fallback, by another spelling.
    let plan = open(None, "/c/herdr//scratchpad/", "/c");
    assert_eq!(plan.store.unwrap().path(), "/c/herdr//scratchpad/scratchpad.txt");
    assert_eq!(
        plan.purge,
        vec!["/c/herdr//scratchpad/target.txt", "/c/herdr//scratchpad/target.txt"]
    );
    // With a tab, the bare file is a leftover.
    let plan = open(Some("w1:t1"), "/d", "/c");
    assert!(plan.purge.contains(&"/d/scratchpad.txt".to_owned()));
}

#[test]
fn paths_to_one_place_are_left_out() {
    let paths = ["/a/x", "/a//x/", "/a/y"].map(str::to_owned);
    assert_eq!(spare(&paths, "/a/x"), vec!["/a/y"]);
    assert_eq!(spare(&paths, "/b"), paths);
}

#[test]
fn a_pane_opens_by_its_environment() {
    let plan = plan_startup(Environment {
        tab_id: Some("w1:t1".to_owned()),
        pane_id: Some(String::new()),
        state_dir: Some("/s".to_owned()),
        config: None,
        home: Some("/h".to_owned()),
    });
    assert_eq!(plan.tab_id, Some("w1:t1".to_owned()));
    assert_eq!(plan.pane_id, None);
    assert_eq!(plan.store.unwrap().path(), "/s/scratchpad-w1:t1.txt");
    assert_eq!(plan.sweep, vec!["/s", "/h/.config/herdr/scratchpad"]);
    assert_eq!(
        plan.purge,
        vec![
            "/s/target.txt",
            "/h/.config/herdr/scratchpad/target.txt",
            "/s/scratchpad.txt",
            "/s/target.txt",
        ]
    );
}

#[test]
fn a_pane_without_a_directory_keeps_nothing() {
    let plan = plan_startup(Environment {
        tab_id: None,
        pane_id: None,
        state_dir: Some(String::new()),
        config: None,
        home: None,
    });
    assert!(plan.store.is_none());
    assert!(plan.sweep.is_empty() && plan.purge.is_empty());
}
