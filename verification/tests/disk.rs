//! Saves, reloads, purges and sweeps, carried out on a disk in memory.
use std::collections::{BTreeMap, BTreeSet};

use herdr_scratchpad::state::{
    join_path, purge_legacy, purge_legacy_target, sweep_orphans, Entry, SaveStage, Saving, Store,
    STATE_FILE, TARGET_FILE,
};

/// Files with the time of their last change, and directories.
#[derive(Default)]
struct Disk {
    files: BTreeMap<String, (String, i128)>,
    dirs: BTreeSet<String>,
    clock: i128,
    full: bool,
}

fn parent(path: &str) -> &str {
    &path[..path.rfind('/').unwrap_or(0)]
}

impl Disk {
    fn with(dir: &str) -> Self {
        let mut disk = Disk::default();
        disk.dirs.insert(dir.to_owned());
        disk
    }

    fn write(&mut self, path: &str, text: &str) -> Result<(), String> {
        if self.full {
            return Err("disk full".to_owned());
        }
        if !self.dirs.contains(parent(path)) {
            return Err("no such directory".to_owned());
        }
        self.clock += 1;
        self.files.insert(path.to_owned(), (text.to_owned(), self.clock));
        Ok(())
    }

    fn touch(&mut self, path: &str) {
        self.write(path, "").unwrap();
    }

    fn modified(&self, path: &str) -> Option<i128> {
        self.files.get(path).map(|f| f.1)
    }

    fn read(&self, path: &str) -> Option<String> {
        self.files.get(path).map(|f| f.0.clone())
    }

    fn remove(&mut self, paths: &[String]) {
        for path in paths {
            self.files.remove(path);
        }
    }

    fn names(&self, dir: &str) -> Vec<String> {
        self.files
            .keys()
            .filter(|p| parent(p) == dir)
            .map(|p| p[dir.len() + 1..].to_owned())
            .collect()
    }

    fn entries(&self, dir: &str) -> Vec<Entry> {
        self.names(dir)
            .into_iter()
            .map(|name| Entry { path: join_path(dir, &name), name: Some(name) })
            .collect()
    }

    fn carry_out(&mut self, mut saving: Saving) -> Result<Option<i128>, String> {
        let mut time = None;
        loop {
            let outcome = match saving.stage {
                SaveStage::MakeDir => {
                    self.dirs.insert(parent(&saving.path).to_owned());
                    Ok(())
                }
                SaveStage::Write => self.write(&saving.temp, &saving.text),
                SaveStage::Rename => match self.files.remove(&saving.temp) {
                    Some(file) => {
                        self.files.insert(saving.path.clone(), file);
                        Ok(())
                    }
                    None => Err("no such file".to_owned()),
                },
                SaveStage::Stamp => {
                    time = self.modified(&saving.path);
                    Ok(())
                }
                SaveStage::Discard => {
                    self.files.remove(&saving.temp);
                    Ok(())
                }
                SaveStage::Saved => return Ok(time),
                SaveStage::Failed => return Err(saving.error.unwrap()),
            };
            saving.step(outcome);
        }
    }

    fn save(&mut self, store: &mut Store, text: &str) -> Result<(), String> {
        let time = self.carry_out(store.save(text, 42))?;
        store.saved(time);
        Ok(())
    }

    fn load(&self, store: &mut Store) -> String {
        let (time, text) = (self.modified(store.path()), self.read(store.path()));
        store.load(time, text)
    }

    fn reload_if_changed(&self, store: &mut Store) -> Option<String> {
        let (time, text) = (self.modified(store.path()), self.read(store.path()));
        store.reload_if_changed(time, text)
    }
}

const DIR: &str = "/s";

fn store() -> Store {
    Store::at(join_path(DIR, STATE_FILE))
}

#[test]
fn missing_file_loads_as_empty() {
    assert_eq!(Disk::with(DIR).load(&mut store()), "");
}

#[test]
fn save_then_load_round_trips() {
    let (mut disk, mut store) = (Disk::with(DIR), store());
    disk.save(&mut store, "une ligne\net une autre").unwrap();
    assert_eq!(disk.load(&mut store), "une ligne\net une autre");
}

#[test]
fn save_creates_missing_directories() {
    let mut disk = Disk::with(DIR);
    let path = join_path(&join_path(&join_path(DIR, "a"), "b"), STATE_FILE);
    disk.save(&mut Store::at(path.clone()), "x").unwrap();
    assert!(disk.files.contains_key(&path));
}

#[test]
fn a_save_to_a_path_without_a_file_name_is_read_back_too() {
    for path in ["/", "/s/..", ".."] {
        let (mut disk, mut store) = (Disk::with(DIR), Store::at(path.to_owned()));
        disk.save(&mut store, "texte").unwrap();
        assert_eq!(disk.files.len(), 1, "{path}");
        assert_eq!(disk.reload_if_changed(&mut store), None, "{path}");
        assert_eq!(disk.load(&mut store), "texte", "{path}");
    }
}

#[test]
fn state_file_is_plain_text_readable_by_anything() {
    let (mut disk, mut store) = (Disk::with(DIR), store());
    disk.save(&mut store, "# titre\n\"guillemets\"\ttab").unwrap();
    // Nothing is escaped: others read and write the file as it is.
    assert_eq!(disk.read(store.path()).unwrap(), "# titre\n\"guillemets\"\ttab");
}

#[test]
fn save_leaves_no_temp_file_behind() {
    let (mut disk, mut store) = (Disk::with(DIR), store());
    disk.save(&mut store, "x").unwrap();
    let leftovers: Vec<_> = disk.names(DIR).into_iter().filter(|n| n.contains("tmp")).collect();
    assert!(leftovers.is_empty(), "{leftovers:?}");
    assert_eq!(disk.names(DIR), vec![STATE_FILE]);
}

#[test]
fn a_failed_save_leaves_the_good_file_and_nothing_else() {
    let (mut disk, mut store) = (Disk::with(DIR), store());
    disk.save(&mut store, "good").unwrap();
    disk.full = true;
    assert_eq!(disk.save(&mut store, "lost"), Err("disk full".to_owned()));
    assert_eq!(disk.read(store.path()).unwrap(), "good");
    assert_eq!(disk.names(DIR), vec![STATE_FILE]);
}

#[test]
fn our_own_save_does_not_look_like_an_external_change() {
    let (mut disk, mut store) = (Disk::with(DIR), store());
    disk.load(&mut store);
    disk.save(&mut store, "écrit par nous").unwrap();
    assert_eq!(disk.reload_if_changed(&mut store), None);
}

#[test]
fn external_write_is_detected() {
    let (mut disk, mut store) = (Disk::with(DIR), store());
    disk.save(&mut store, "initial").unwrap();
    disk.write(store.path(), "écrit par un agent").unwrap();
    assert_eq!(disk.reload_if_changed(&mut store).as_deref(), Some("écrit par un agent"));
}

#[test]
fn detected_change_is_reported_once() {
    let (mut disk, mut store) = (Disk::with(DIR), store());
    disk.save(&mut store, "a").unwrap();
    disk.write(store.path(), "b").unwrap();
    assert!(disk.reload_if_changed(&mut store).is_some());
    assert_eq!(disk.reload_if_changed(&mut store), None);
}

#[test]
fn deleting_the_file_reads_as_empty_not_as_an_error() {
    let (mut disk, mut store) = (Disk::with(DIR), store());
    disk.save(&mut store, "du texte").unwrap();
    disk.remove(&[store.path().to_owned()]);
    assert_eq!(disk.reload_if_changed(&mut store).as_deref(), Some(""));
}

#[test]
fn purge_legacy_deletes_the_old_global_buffer_and_the_stored_target() {
    let mut disk = Disk::with(DIR);
    disk.touch(&join_path(DIR, STATE_FILE));
    disk.touch(&join_path(DIR, TARGET_FILE));
    disk.touch(&join_path(DIR, "scratchpad-w1:t1.txt"));
    disk.remove(&purge_legacy(DIR));
    assert_eq!(disk.names(DIR), vec!["scratchpad-w1:t1.txt"]);
}

#[test]
fn purge_legacy_on_an_empty_directory_does_not_panic() {
    let mut disk = Disk::with(DIR);
    disk.remove(&purge_legacy(DIR));
    assert!(disk.names(DIR).is_empty());
}

#[test]
fn purge_legacy_target_spares_the_unsuffixed_buffer() {
    let mut disk = Disk::with(DIR);
    disk.touch(&join_path(DIR, STATE_FILE));
    disk.touch(&join_path(DIR, TARGET_FILE));
    disk.remove(&[purge_legacy_target(DIR)]);
    assert_eq!(disk.names(DIR), vec![STATE_FILE]);
}

#[test]
fn sweep_deletes_a_buffer_whose_tab_is_gone() {
    let mut disk = Disk::with(DIR);
    let own = join_path(DIR, "scratchpad-w1:t1.txt");
    disk.touch(&own);
    disk.touch(&join_path(DIR, "scratchpad-w9:t9.txt"));
    disk.remove(&sweep_orphans(&disk.entries(DIR), &["w1:t1".to_owned()], &own));
    assert_eq!(disk.names(DIR), vec!["scratchpad-w1:t1.txt"]);
}

#[test]
fn sweep_never_deletes_its_own() {
    let mut disk = Disk::with(DIR);
    let own = join_path(DIR, "scratchpad-w1:t1.txt");
    disk.touch(&own);
    disk.remove(&sweep_orphans(&disk.entries(DIR), &["w2:t2".to_owned()], &own));
    assert_eq!(disk.names(DIR), vec!["scratchpad-w1:t1.txt"]);
}

#[test]
fn sweep_leaves_the_unsuffixed_file_alone() {
    let mut disk = Disk::with(DIR);
    disk.touch(&join_path(DIR, STATE_FILE));
    let own = join_path(DIR, "ailleurs.txt");
    disk.remove(&sweep_orphans(&disk.entries(DIR), &["w1:t1".to_owned()], &own));
    assert_eq!(disk.names(DIR), vec![STATE_FILE]);
}

#[test]
fn sweep_on_a_missing_directory_does_not_panic() {
    let dir = join_path(DIR, "jamais-cree");
    let entries = Disk::with(DIR).entries(&dir);
    assert!(sweep_orphans(&entries, &["w1:t1".to_owned()], &join_path(&dir, "x.txt")).is_empty());
}
