//! Where the text is kept: `scratchpad-<tab id>.txt`, as plain text.
//!
//! The state file is the text, and nothing else: a pane writes it and an agent
//! reads it, an agent writes it and the pane reloads it. Its name carries the
//! tab id: there is one buffer per tab.
//!
//! Paths are text here, with `/` between their parts.
use crate::text;
use vstd::prelude::*;

verus! {

/// The state file without a tab: that of a binary started by hand.
pub const STATE_FILE: &'static str = "scratchpad.txt";

/// What comes before and after the tab id in the name of a state file.
pub const PREFIX: &'static str = "scratchpad-";

pub const SUFFIX: &'static str = ".txt";

/// The file that once held the chosen target. Its name survives only for the
/// file to be removed.
pub const TARGET_FILE: &'static str = "target.txt";

/// The name of the state file of a tab; the bare name without one.
pub open spec fn name_for(tab_id: Option<Seq<char>>) -> Seq<char> {
    match tab_id {
        Some(id) => PREFIX@ + id + SUFFIX@,
        None => STATE_FILE@,
    }
}

/// Whether a text begins with another.
pub open spec fn begins_with(s: Seq<char>, prefix: Seq<char>) -> bool {
    prefix.len() <= s.len() && s.take(prefix.len() as int) == prefix
}

/// Whether a text ends with another.
pub open spec fn ends_with(s: Seq<char>, suffix: Seq<char>) -> bool {
    suffix.len() <= s.len() && s.skip(s.len() - suffix.len()) == suffix
}

/// The tab id that a file name carries, between prefix and suffix.
pub open spec fn tab_in(name: Seq<char>) -> Option<Seq<char>> {
    let (p, q) = (PREFIX@.len(), SUFFIX@.len());
    if begins_with(name, PREFIX@) && ends_with(name, SUFFIX@) && p + q < name.len() {
        Some(name.subrange(p as int, name.len() - q))
    } else {
        None
    }
}

/// A file of a directory.
pub open spec fn joined(dir: Seq<char>, name: Seq<char>) -> Seq<char> {
    if dir.len() == 0 || dir.last() == '/' {
        dir + name
    } else {
        dir.push('/') + name
    }
}

/// The name of the export of a tab; the bare name without one.
pub open spec fn export_name(tab_id: Option<Seq<char>>) -> Seq<char> {
    match tab_id {
        Some(id) => "herdr-scratchpad-"@ + id + ".txt"@,
        None => "herdr-scratchpad.txt"@,
    }
}

/// A text with something on either side is known by its middle.
proof fn lemma_middle(prefix: Seq<char>, a: Seq<char>, b: Seq<char>, suffix: Seq<char>)
    requires
        prefix + a + suffix == prefix + b + suffix,
    ensures
        a == b,
{
    let x = prefix + a + suffix;
    let y = prefix + b + suffix;
    let p = prefix.len() as int;
    assert(x.len() == p + a.len() + suffix.len());
    assert(y.len() == p + b.len() + suffix.len());
    assert(x.subrange(p, p + a.len()) =~= a);
    assert(y.subrange(p, p + b.len()) =~= b);
}

/// Two files of one directory are one file only if they have one name.
proof fn lemma_joined(dir: Seq<char>, a: Seq<char>, b: Seq<char>)
    requires
        joined(dir, a) == joined(dir, b),
    ensures
        a == b,
{
    let base = if dir.len() == 0 || dir.last() == '/' {
        dir
    } else {
        dir.push('/')
    };
    assert(joined(dir, a).skip(base.len() as int) =~= a);
    assert(joined(dir, b).skip(base.len() as int) =~= b);
}

/// A tab id is read back from the name of its file.
pub proof fn tab_id_survives_the_name(id: Seq<char>)
    requires
        id.len() > 0,
    ensures
        tab_in(name_for(Some(id))) == Some(id),
{
    let name = name_for(Some(id));
    assert(name.take(PREFIX@.len() as int) =~= PREFIX@);
    assert(name.skip(name.len() - SUFFIX@.len()) =~= SUFFIX@);
    assert(name.subrange(PREFIX@.len() as int, name.len() - SUFFIX@.len()) =~= id);
}

/// A file name that carries a tab id is the name of that tab's file.
pub proof fn name_is_known_by_its_tab_id(name: Seq<char>)
    ensures
        tab_in(name) matches Some(id) ==> name == name_for(Some(id)) && id.len() > 0,
{
    if let Some(id) = tab_in(name) {
        let whole = name_for(Some(id));
        let p = PREFIX@.len() as int;
        let q = SUFFIX@.len() as int;
        assert(whole.len() == name.len());
        assert forall|i: int| 0 <= i < name.len() implies name[i] == whole[i] by {
            if i < p {
                assert(name.take(p)[i] == PREFIX@[i]);
            } else if i >= name.len() - q {
                assert(name.skip(name.len() - q)[i - (name.len() - q)] == SUFFIX@[i - (name.len()
                    - q)]);
            }
        }
        assert(whole =~= name);
    }
}

/// The file without a tab carries no tab id, and so is never anyone's orphan.
pub proof fn bare_file_carries_no_tab_id()
    ensures
        tab_in(STATE_FILE@) is None,
{
    reveal_strlit("scratchpad.txt");
    reveal_strlit("scratchpad-");
    reveal_strlit(".txt");
    if begins_with(STATE_FILE@, PREFIX@) {
        assert(STATE_FILE@.take(11)[10] == PREFIX@[10]);
    }
}

/// Two tabs never share their state file.
pub proof fn tabs_never_share_a_file(dir: Seq<char>, a: Option<Seq<char>>, b: Option<Seq<char>>)
    requires
        joined(dir, name_for(a)) == joined(dir, name_for(b)),
    ensures
        a == b,
{
    lemma_joined(dir, name_for(a), name_for(b));
    reveal_strlit("scratchpad.txt");
    reveal_strlit("scratchpad-");
    if a is Some && b is Some {
        lemma_middle(PREFIX@, a->0, b->0, SUFFIX@);
    } else if a is Some {
        assert(name_for(a)[10] == PREFIX@[10]);
        assert(name_for(b)[10] == STATE_FILE@[10]);
    } else if b is Some {
        assert(name_for(b)[10] == PREFIX@[10]);
        assert(name_for(a)[10] == STATE_FILE@[10]);
    }
}

/// Two tabs never export to the same file.
pub proof fn tabs_never_share_an_export(
    dir: Seq<char>,
    a: Option<Seq<char>>,
    b: Option<Seq<char>>,
)
    requires
        joined(dir, export_name(a)) == joined(dir, export_name(b)),
    ensures
        a == b,
{
    lemma_joined(dir, export_name(a), export_name(b));
    reveal_strlit("herdr-scratchpad.txt");
    reveal_strlit("herdr-scratchpad-");
    if a is Some && b is Some {
        lemma_middle("herdr-scratchpad-"@, a->0, b->0, ".txt"@);
    } else if a is Some {
        assert(export_name(a)[16] == "herdr-scratchpad-"@[16]);
        assert(export_name(b)[16] == "herdr-scratchpad.txt"@[16]);
    } else if b is Some {
        assert(export_name(b)[16] == "herdr-scratchpad-"@[16]);
        assert(export_name(a)[16] == "herdr-scratchpad.txt"@[16]);
    }
}

/// The name of the state file of a tab, the bare name without one.
pub fn file_name(tab_id: Option<&str>) -> (name: String)
    ensures
        name@ == name_for(text::text_view(tab_id)),
{
    match tab_id {
        Some(id) => {
            let mut name: String = PREFIX.to_owned();
            name.append(id);
            name.append(SUFFIX);
            name
        },
        None => STATE_FILE.to_owned(),
    }
}

/// The tab id that a file name carries, if any. The bare name carries none, nor
/// does the temporary file of a save.
pub fn tab_id_of(name: &str) -> (id: Option<&str>)
    ensures
        text::text_view(id) == tab_in(name@),
{
    let n = name.unicode_len();
    let p = PREFIX.unicode_len();
    let q = SUFFIX.unicode_len();
    proof {
        reveal_strlit("scratchpad-");
        reveal_strlit(".txt");
    }
    if n <= p + q {
        return None;
    }
    assert(name@.subrange(0, p as int) =~= name@.take(p as int));
    assert(name@.subrange(n - q, n as int) =~= name@.skip(n - q));
    if text::same(name.substring_char(0, p), PREFIX) && text::same(
        name.substring_char(n - q, n),
        SUFFIX,
    ) {
        Some(name.substring_char(p, n - q))
    } else {
        None
    }
}

/// The path of a file of a directory.
pub fn join_path(dir: &str, name: &str) -> (path: String)
    ensures
        path@ == joined(dir@, name@),
{
    let mut path: String = dir.to_owned();
    let n = dir.unicode_len();
    if n > 0 && dir.get_char(n - 1) != '/' {
        path.push('/');
    }
    path.append(name);
    path
}

/// The path of the export of a tab. Scripts and agents put it together on their
/// own, hence the tab id, which they know.
pub fn export_path(temp_dir: &str, tab_id: Option<&str>) -> (path: String)
    ensures
        path@ == joined(temp_dir@, export_name(text::text_view(tab_id))),
{
    let name: String = match tab_id {
        Some(id) => {
            let mut name: String = "herdr-scratchpad-".to_owned();
            name.append(id);
            name.append(".txt");
            name
        },
        None => "herdr-scratchpad.txt".to_owned(),
    };
    join_path(temp_dir, name.as_str())
}

/// Begins the export of a text by the process `pid`. It is as safe as a save: an
/// agent may be reading it.
pub fn export(temp_dir: &str, text: &str, tab_id: Option<&str>, pid: u32) -> (saving: Saving)
    ensures
        saving.stage == SaveStage::MakeDir,
        saving.path@ == joined(temp_dir@, export_name(text::text_view(tab_id))),
        saving.temp@ == temp_for(saving.path@, pid as nat),
        saving.text@ == text@,
        saving.error is None,
{
    let store = Store::at(export_path(temp_dir, tab_id));
    store.save(text, pid)
}

/// The last dot of the file name that ends a path, looking back from `n`.
pub open spec fn last_dot(path: Seq<char>, n: int) -> Option<int>
    decreases n,
{
    if n <= 0 || n > path.len() || path[n - 1] == '/' {
        None
    } else if path[n - 1] == '.' {
        Some(n - 1)
    } else {
        last_dot(path, n - 1)
    }
}

/// Where the last piece of a path that leads anywhere ends, looking back from
/// `n`: slashes and lone dots are passed over.
pub open spec fn name_end(path: Seq<char>, n: int) -> int
    decreases n,
{
    if n <= 0 || n > path.len() {
        0
    } else if path[n - 1] == '/' || (path[n - 1] == '.' && (n == 1 || path[n - 2] == '/')) {
        name_end(path, n - 1)
    } else {
        n
    }
}

/// Whether a path ends in the name of a file: it has a piece that leads anywhere,
/// and the last such piece does not lead back up.
pub open spec fn has_name(path: Seq<char>) -> bool {
    let end = name_end(path, path.len() as int);
    end > 0 && !(end >= 2 && path[end - 1] == '.' && path[end - 2] == '.' && (end == 2 || path[end
        - 3] == '/'))
}

/// Where the name of a file ends without its extension. A dot at the start of a
/// file name begins no extension.
pub open spec fn stem_end(path: Seq<char>) -> int {
    let end = name_end(path, path.len() as int);
    match last_dot(path, end) {
        Some(k) => if k > 0 && path[k - 1] != '/' {
            k
        } else {
            end
        },
        None => end,
    }
}

/// The temporary file of a save: the extension gives way to one that carries the
/// process id, so that two writers never share it. A path that names no file
/// stays as it is.
pub open spec fn temp_for(path: Seq<char>, pid: nat) -> Seq<char> {
    if has_name(path) {
        path.take(stem_end(path)) + ".tmp."@ + text::decimal(pid)
    } else {
        path
    }
}

proof fn lemma_name_end(path: Seq<char>, n: int)
    requires
        0 <= n <= path.len(),
    ensures
        0 <= name_end(path, n) <= n,
    decreases n,
{
    if n > 0 {
        lemma_name_end(path, n - 1);
    }
}

proof fn lemma_last_dot(path: Seq<char>, n: int)
    requires
        0 <= n <= path.len(),
    ensures
        last_dot(path, n) matches Some(k) ==> 0 <= k < n,
    decreases n,
{
    if n > 0 {
        lemma_last_dot(path, n - 1);
    }
}

/// A dot with neither dots nor slashes after it is the last one.
proof fn lemma_dot_found(path: Seq<char>, n: int, k: int)
    requires
        0 <= k < n <= path.len(),
        path[k] == '.',
        forall|i: int| k < i < n ==> path[i] != '.' && path[i] != '/',
    ensures
        last_dot(path, n) == Some(k),
    decreases n,
{
    if k < n - 1 {
        lemma_dot_found(path, n - 1, k);
    }
}

/// A save never writes into the very file it is to replace.
pub proof fn temp_is_another_file(path: Seq<char>, pid: nat)
    requires
        has_name(path),
    ensures
        temp_for(path, pid) != path,
{
    let n = path.len() as int;
    let k = stem_end(path);
    let temp = temp_for(path, pid);
    let digits = text::decimal(pid);
    reveal_strlit(".tmp.");
    text::lemma_decimal_digits(pid);
    lemma_name_end(path, n);
    lemma_last_dot(path, name_end(path, n));
    if temp == path {
        assert(temp[k + 3] == ".tmp."@[3]);
        assert(temp[k + 4] == ".tmp."@[4]);
        assert forall|i: int| k + 4 < i < n implies path[i] != '.' && path[i] != '/' by {
            assert(temp[i] == digits[i - (k + 5)]);
            assert(text::is_digit(digits[i - (k + 5)]));
        }
        assert(path[n - 1] != '.' && path[n - 1] != '/');
        lemma_dot_found(path, n, k + 4);
        assert(false);
    }
}

/// Every state file and every export has a name, whatever its directory and tab.
pub proof fn state_files_are_named(dir: Seq<char>, tab_id: Option<Seq<char>>)
    ensures
        has_name(joined(dir, name_for(tab_id))),
        has_name(joined(dir, export_name(tab_id))),
{
    reveal_strlit("scratchpad.txt");
    reveal_strlit(".txt");
    reveal_strlit("herdr-scratchpad.txt");
    assert(name_for(tab_id).last() == 't');
    assert(export_name(tab_id).last() == 't');
    assert(joined(dir, name_for(tab_id)).last() == 't');
    assert(joined(dir, export_name(tab_id)).last() == 't');
}

/// The temporary file of a save is never taken for the file of a tab.
pub proof fn temp_carries_no_tab_id(path: Seq<char>, pid: nat)
    ensures
        tab_in(temp_for(path, pid)) is None,
{
    let temp = temp_for(path, pid);
    reveal_strlit(".txt");
    text::lemma_decimal_digits(pid);
    if ends_with(temp, SUFFIX@) {
        assert(temp.skip(temp.len() - 4)[3] == SUFFIX@[3]);
        assert(temp.last() == 't');
        if has_name(path) {
            let digits = text::decimal(pid);
            assert(temp.last() == digits[digits.len() - 1]);
            assert(text::is_digit(digits[digits.len() - 1]));
        }
    }
}

/// Where a save stands. The file is written aside, brought safely to disk, and
/// only then given its name.
#[derive(Debug, Clone, Copy, PartialEq, Eq, Structural)]
pub enum SaveStage {
    /// Make the directory of the file, where it is missing.
    MakeDir,
    /// Write the text to the temporary file and flush it to disk.
    Write,
    /// Give the temporary file the name of the state file.
    Rename,
    /// Ask for the time of the file.
    Stamp,
    /// Remove the temporary file.
    Discard,
    Saved,
    Failed,
}

/// The stage that follows a stage that succeeded or failed.
pub open spec fn next_stage(stage: SaveStage, ok: bool) -> SaveStage {
    match stage {
        SaveStage::MakeDir => if ok {
            SaveStage::Write
        } else {
            SaveStage::Failed
        },
        SaveStage::Write => if ok {
            SaveStage::Rename
        } else {
            SaveStage::Discard
        },
        SaveStage::Rename => if ok {
            SaveStage::Stamp
        } else {
            SaveStage::Failed
        },
        SaveStage::Stamp => SaveStage::Saved,
        SaveStage::Discard => SaveStage::Failed,
        SaveStage::Saved => SaveStage::Saved,
        SaveStage::Failed => SaveStage::Failed,
    }
}

/// Whether an error of this stage is the error of the save.
pub open spec fn reports_error(stage: SaveStage) -> bool {
    stage == SaveStage::MakeDir || stage == SaveStage::Write || stage == SaveStage::Rename
}

/// A good file is only ever replaced by one that was written and flushed as a
/// whole: the rename comes after a successful write and after nothing else, a
/// failed write ends with the temporary file removed, and a save succeeds only
/// after the rename did.
pub proof fn only_a_complete_file_takes_the_name(stage: SaveStage, ok: bool)
    ensures
        next_stage(stage, ok) == SaveStage::Rename ==> stage == SaveStage::Write && ok,
        stage == SaveStage::Write && !ok ==> next_stage(stage, ok) == SaveStage::Discard,
        stage == SaveStage::Discard ==> next_stage(stage, ok) == SaveStage::Failed,
        next_stage(stage, ok) == SaveStage::Stamp ==> stage == SaveStage::Rename && ok,
        next_stage(stage, ok) == SaveStage::Saved ==> stage == SaveStage::Stamp || stage
            == SaveStage::Saved,
        stage == SaveStage::Failed ==> next_stage(stage, ok) == SaveStage::Failed,
{
}

/// What a disk holds: the text of each file, by path, and the directories.
pub struct Disk {
    pub files: Map<Seq<char>, Seq<char>>,
    pub dirs: Set<Seq<char>>,
}

/// The text of a file, where there is one.
pub open spec fn file_on(disk: Disk, path: Seq<char>) -> Option<Seq<char>> {
    if disk.files.dom().contains(path) {
        Some(disk.files[path])
    } else {
        None
    }
}

/// Whether a directory stands above what a path leads to: it is what precedes one
/// of the slashes before the last piece that leads anywhere.
pub open spec fn stands_above(dir: Seq<char>, path: Seq<char>) -> bool {
    &&& 0 < dir.len() < name_end(path, path.len() as int)
    &&& path[dir.len() as int] == '/'
    &&& path.take(dir.len() as int) == dir
}

/// What a stage of a save does to a disk. A write that fails leaves `scraps` in
/// the temporary file, which may be anything. A file that is given the name it
/// has stays.
pub open spec fn performed(
    disk: Disk,
    stage: SaveStage,
    ok: bool,
    scraps: Seq<char>,
    path: Seq<char>,
    temp: Seq<char>,
    text: Seq<char>,
) -> Disk {
    match stage {
        SaveStage::MakeDir => if ok {
            Disk {
                dirs: disk.dirs.union(Set::new(|dir: Seq<char>| stands_above(dir, path))),
                ..disk
            }
        } else {
            disk
        },
        SaveStage::Write => Disk {
            files: disk.files.insert(
                temp,
                if ok {
                    text
                } else {
                    scraps
                },
            ),
            ..disk
        },
        SaveStage::Rename => if ok && temp != path {
            Disk { files: disk.files.insert(path, disk.files[temp]).remove(temp), ..disk }
        } else {
            disk
        },
        SaveStage::Discard => if ok {
            Disk { files: disk.files.remove(temp), ..disk }
        } else {
            disk
        },
        _ => disk,
    }
}

/// The disk and the stage after some stages of a save, given how each of them
/// went.
pub open spec fn carried_out(
    disk: Disk,
    outcomes: Seq<(bool, Seq<char>)>,
    path: Seq<char>,
    temp: Seq<char>,
    text: Seq<char>,
) -> (Disk, SaveStage)
    decreases outcomes.len(),
{
    if outcomes.len() == 0 {
        (disk, SaveStage::MakeDir)
    } else {
        let (before, stage) = carried_out(disk, outcomes.drop_last(), path, temp, text);
        let (ok, scraps) = outcomes.last();
        (performed(before, stage, ok, scraps, path, temp, text), next_stage(stage, ok))
    }
}

/// A save that succeeded leaves the whole text in its file, and no temporary file
/// beside it. A save to a named file is all or nothing, wherever it stops and
/// whatever goes wrong: the file holds what it held or the whole new text, and
/// what it held once the save has failed. No save touches any other file.
pub proof fn save_is_all_or_nothing(
    disk: Disk,
    outcomes: Seq<(bool, Seq<char>)>,
    path: Seq<char>,
    pid: nat,
    text: Seq<char>,
    other: Seq<char>,
)
    ensures
        ({
            let temp = temp_for(path, pid);
            let (after, stage) = carried_out(disk, outcomes, path, temp, text);
            &&& stage == SaveStage::Saved ==> file_on(after, path) == Some(text)
            &&& stage == SaveStage::Saved && temp != path ==> file_on(after, temp) is None
            &&& has_name(path) ==> temp != path
            &&& has_name(path) ==> file_on(after, path) == file_on(disk, path) || file_on(
                after,
                path,
            ) == Some(text)
            &&& has_name(path) && stage == SaveStage::Failed ==> file_on(after, path) == file_on(
                disk,
                path,
            )
            &&& other != path && other != temp ==> file_on(after, other) == file_on(disk, other)
        }),
{
    lemma_carried_out(disk, outcomes, path, pid, text, other);
    if has_name(path) {
        temp_is_another_file(path, pid);
    }
}

/// What a save that succeeded wrote is read back: loading its file gives the
/// text, and a look at the file right after tells no change. The directories
/// above the file are there.
pub proof fn saved_text_is_read_back(
    disk: Disk,
    outcomes: Seq<(bool, Seq<char>)>,
    store: StoreView,
    pid: nat,
    text: Seq<char>,
    modified: Option<i128>,
)
    requires
        carried_out(disk, outcomes, store.path, temp_for(store.path, pid), text).1
            == SaveStage::Saved,
    ensures
        ({
            let temp = temp_for(store.path, pid);
            let after = carried_out(disk, outcomes, store.path, temp, text).0;
            let content = file_on(after, store.path);
            let noted = StoreView { seen: modified, ..store };
            &&& text_or_empty(content) == text
            &&& reloaded(noted, modified, content) is None
            &&& forall|dir: Seq<char>| #[trigger]
                stands_above(dir, store.path) ==> after.dirs.contains(dir)
        }),
{
    lemma_carried_out(disk, outcomes, store.path, pid, text, store.path);
}

proof fn lemma_carried_out(
    disk: Disk,
    outcomes: Seq<(bool, Seq<char>)>,
    path: Seq<char>,
    pid: nat,
    text: Seq<char>,
    other: Seq<char>,
)
    ensures
        ({
            let temp = temp_for(path, pid);
            let (after, stage) = carried_out(disk, outcomes, path, temp, text);
            let done = stage == SaveStage::Stamp || stage == SaveStage::Saved;
            &&& done ==> file_on(after, path) == Some(text)
            &&& done && temp != path ==> file_on(after, temp) is None
            &&& !done && temp != path ==> file_on(after, path) == file_on(disk, path)
            &&& stage == SaveStage::Rename ==> file_on(after, temp) == Some(text)
            &&& other != path && other != temp ==> file_on(after, other) == file_on(disk, other)
            &&& done || stage == SaveStage::Write || stage == SaveStage::Rename ==> forall|
                dir: Seq<char>,
            | #[trigger]
                stands_above(dir, path) ==> after.dirs.contains(dir)
        }),
    decreases outcomes.len(),
{
    if outcomes.len() > 0 {
        lemma_carried_out(disk, outcomes.drop_last(), path, pid, text, other);
    }
}

/// A save under way.
#[derive(Debug)]
pub struct Saving {
    pub stage: SaveStage,
    /// The file to replace.
    pub path: String,
    /// The file to write.
    pub temp: String,
    pub text: String,
    /// What went wrong first.
    pub error: Option<String>,
}

impl Saving {
    /// Moves on, given what came of the stage it stands at.
    pub fn step(&mut self, outcome: Result<(), String>)
        ensures
            final(self).stage == next_stage(old(self).stage, outcome is Ok),
            final(self).path@ == old(self).path@,
            final(self).temp@ == old(self).temp@,
            final(self).text@ == old(self).text@,
            text::string_view(final(self).error) == if reports_error(old(self).stage) && outcome is Err {
                Some(outcome->Err_0@)
            } else {
                text::string_view(old(self).error)
            },
    {
        let stage = self.stage;
        let reports = matches!(stage, SaveStage::MakeDir | SaveStage::Write | SaveStage::Rename);
        let ok = match outcome {
            Ok(()) => true,
            Err(e) => {
                if reports {
                    self.error = Some(e);
                }
                false
            },
        };
        self.stage = match stage {
            SaveStage::MakeDir => if ok {
                SaveStage::Write
            } else {
                SaveStage::Failed
            },
            SaveStage::Write => if ok {
                SaveStage::Rename
            } else {
                SaveStage::Discard
            },
            SaveStage::Rename => if ok {
                SaveStage::Stamp
            } else {
                SaveStage::Failed
            },
            SaveStage::Stamp => SaveStage::Saved,
            SaveStage::Discard => SaveStage::Failed,
            SaveStage::Saved => SaveStage::Saved,
            SaveStage::Failed => SaveStage::Failed,
        };
    }
}

/// The temporary file of a save.
pub fn temp_path(path: &str, pid: u32) -> (temp: String)
    ensures
        temp@ == temp_for(path@, pid as nat),
{
    let n = path.unicode_len();
    let chars = text::chars_of(path);
    let mut end: usize = n;
    while end > 0 && (chars[end - 1] == '/' || (chars[end - 1] == '.' && (end == 1 || chars[end - 2]
        == '/')))
        invariant
            chars@ == path@,
            n == path@.len(),
            end <= n,
            name_end(path@, n as int) == name_end(path@, end as int),
        decreases end,
    {
        end = end - 1;
    }
    // A path that ends at the root, here or above names no file.
    if end == 0 || (end >= 2 && chars[end - 1] == '.' && chars[end - 2] == '.' && (end == 2
        || chars[end - 3] == '/')) {
        return path.to_owned();
    }
    let mut k: usize = end;
    while k > 0 && chars[k - 1] != '/' && chars[k - 1] != '.'
        invariant
            chars@ == path@,
            n == path@.len(),
            k <= end <= n,
            last_dot(path@, end as int) == last_dot(path@, k as int),
        decreases k,
    {
        k = k - 1;
    }
    let stem: usize = if k > 1 && chars[k - 1] == '.' && chars[k - 2] != '/' {
        k - 1
    } else {
        end
    };
    assert(path@.subrange(0, stem as int) =~= path@.take(stem_end(path@)));
    let mut temp: String = path.substring_char(0, stem).to_owned();
    temp.append(".tmp.");
    temp.append(text::write_decimal(pid as u64).as_str());
    temp
}

/// The place of the state file, and when it was last written or read here, in
/// nanoseconds since the epoch: that tells our own writes from those of others.
#[derive(Debug, PartialEq, Eq)]
pub struct Store {
    path: String,
    seen: Option<i128>,
}

/// A store as plain data.
pub struct StoreView {
    pub path: Seq<char>,
    pub seen: Option<i128>,
}

impl View for Store {
    type V = StoreView;

    closed spec fn view(&self) -> StoreView {
        StoreView { path: self.path@, seen: self.seen }
    }
}

impl Clone for Store {
    fn clone(&self) -> (copy: Self)
        ensures
            copy@ == self@,
    {
        Store { path: self.path.clone(), seen: self.seen }
    }
}

/// An optional text, empty where there is none.
pub open spec fn text_or_empty(content: Option<Seq<char>>) -> Seq<char> {
    match content {
        Some(s) => s,
        None => Seq::empty(),
    }
}

/// What a look at the file tells: its text where it has changed since it was last
/// read or written here, and nothing where it has not.
pub open spec fn reloaded(
    store: StoreView,
    modified: Option<i128>,
    content: Option<Seq<char>>,
) -> Option<Seq<char>> {
    if modified == store.seen {
        None
    } else {
        Some(text_or_empty(content))
    }
}

impl Store {
    /// The state file of a tab in the state directory, where there is one.
    pub fn from_env(state_dir: Option<&str>, tab_id: Option<&str>) -> (store: Option<Self>)
        ensures
            store is Some <==> state_dir is Some,
            store matches Some(s) ==> s@ == (StoreView {
                path: joined(state_dir->0@, name_for(text::text_view(tab_id))),
                seen: None,
            }),
    {
        match state_dir {
            Some(dir) => Some(Store::at(join_path(dir, file_name(tab_id).as_str()))),
            None => None,
        }
    }

    /// A state file at an explicit place.
    pub fn at(path: String) -> (store: Self)
        ensures
            store@ == (StoreView { path: path@, seen: None }),
    {
        Store { path, seen: None }
    }

    /// The path of the file.
    pub fn path(&self) -> (path: &str)
        ensures
            path@ == self@.path,
    {
        self.path.as_str()
    }

    /// The text of the file, given its time and what was read of it. A file that
    /// is missing or cannot be read gives an empty text: nothing here may keep
    /// the pane from opening.
    pub fn load(&mut self, modified: Option<i128>, content: Option<String>) -> (text: String)
        ensures
            final(self)@ == (StoreView { seen: modified, ..old(self)@ }),
            text@ == text_or_empty(text::string_view(content)),
    {
        self.seen = modified;
        match content {
            Some(text) => text,
            None => String::new(),
        }
    }

    /// Whether the file has changed since it was last read or written here.
    pub fn is_changed(&self, modified: Option<i128>) -> (changed: bool)
        ensures
            changed == (modified != self@.seen),
    {
        match (modified, self.seen) {
            (Some(a), Some(b)) => a != b,
            (None, None) => false,
            _ => true,
        }
    }

    /// The text of the file if it has changed since it was last read or written
    /// here, given its time and what was read of it. Each change is told once.
    pub fn reload_if_changed(
        &mut self,
        modified: Option<i128>,
        content: Option<String>,
    ) -> (text: Option<String>)
        ensures
            final(self)@ == (StoreView { seen: modified, ..old(self)@ }),
            text::string_view(text) == reloaded(
                old(self)@,
                modified,
                text::string_view(content),
            ),
    {
        if !self.is_changed(modified) {
            return None;
        }
        self.seen = modified;
        Some(
            match content {
                Some(text) => text,
                None => String::new(),
            },
        )
    }

    /// Begins a save of `text` by the process `pid`.
    pub fn save(&self, text: &str, pid: u32) -> (saving: Saving)
        ensures
            saving.stage == SaveStage::MakeDir,
            saving.path@ == self@.path,
            saving.temp@ == temp_for(self@.path, pid as nat),
            saving.text@ == text@,
            saving.error is None,
    {
        Saving {
            stage: SaveStage::MakeDir,
            path: self.path.clone(),
            temp: temp_path(self.path.as_str(), pid),
            text: text.to_owned(),
            error: None,
        }
    }

    /// Takes note of our own write, given the time of the file after it: it does
    /// not look like a change made by others.
    pub fn saved(&mut self, modified: Option<i128>)
        ensures
            final(self)@ == (StoreView { seen: modified, ..old(self)@ }),
    {
        self.seen = modified;
    }
}

/// What stands between the slashes of a path: always at least one piece.
pub open spec fn pieces(path: Seq<char>) -> Seq<Seq<char>>
    decreases path.len(),
{
    if path.len() == 0 {
        seq![Seq::empty()]
    } else {
        let before = pieces(path.drop_last());
        if path.last() == '/' {
            before.push(Seq::empty())
        } else {
            before.drop_last().push(before.last().push(path.last()))
        }
    }
}

/// Whether a piece of a path leads anywhere: an empty one and a dot do not.
pub open spec fn leads(piece: Seq<char>) -> bool {
    piece.len() > 0 && piece != seq!['.']
}

/// The pieces of a path that lead anywhere.
pub open spec fn steps(path: Seq<char>) -> Seq<Seq<char>> {
    pieces(path).filter(|piece: Seq<char>| leads(piece))
}

/// Whether a path starts at the root.
pub open spec fn rooted(path: Seq<char>) -> bool {
    path.len() > 0 && path[0] == '/'
}

/// Whether a path starts with a dot of its own, which is kept.
pub open spec fn dotted(path: Seq<char>) -> bool {
    path.len() > 0 && path[0] == '.' && (path.len() == 1 || path[1] == '/')
}

/// Whether two paths are one: they start alike and take the same steps. Slashes
/// repeated or at the end, and dots on the way, make no difference.
pub open spec fn same_place(a: Seq<char>, b: Seq<char>) -> bool {
    rooted(a) == rooted(b) && dotted(a) == dotted(b) && steps(a) == steps(b)
}

/// One more piece is one more step, where it leads anywhere.
proof fn lemma_step(done: Seq<Seq<char>>, piece: Seq<char>)
    ensures
        done.push(piece).filter(|p: Seq<char>| leads(p)) == if leads(piece) {
            done.filter(|p: Seq<char>| leads(p)).push(piece)
        } else {
            done.filter(|p: Seq<char>| leads(p))
        },
{
    reveal(Seq::filter);
    assert(done.push(piece).drop_last() =~= done);
}

fn is_step(piece: &str) -> (known: bool)
    ensures
        known == leads(piece@),
{
    let n = piece.unicode_len();
    if n == 1 {
        let c = piece.get_char(0);
        assert(c != '.' || piece@ =~= seq!['.']);
        c != '.'
    } else {
        n > 0
    }
}

/// The steps that a path takes.
fn steps_of(path: &str) -> (out: Vec<String>)
    ensures
        text::strings(out@) == steps(path@),
{
    let mut out: Vec<String> = Vec::new();
    let mut current = String::new();
    let ghost mut done: Seq<Seq<char>> = Seq::empty();
    proof {
        reveal(Seq::filter);
        assert(done.push(current@) =~= pieces(path@.take(0)));
        assert(text::strings(out@) =~= done.filter(|p: Seq<char>| leads(p)));
    }
    for c in it: path.chars()
        invariant
            it.seq() == path@,
            done.push(current@) == pieces(path@.take(it.index())),
            text::strings(out@) == done.filter(|p: Seq<char>| leads(p)),
    {
        proof {
            let i = it.index();
            assert(path@.take(i + 1).drop_last() =~= path@.take(i));
            assert(path@.take(i + 1).last() == c);
            assert(done.push(current@).drop_last() =~= done);
            assert(done.push(current@).last() == current@);
        }
        if c == '/' {
            let ghost before = text::strings(out@);
            let ghost piece = current@;
            if is_step(current.as_str()) {
                out.push(current);
                assert(text::strings(out@) =~= before.push(piece));
            }
            current = String::new();
            proof {
                lemma_step(done, piece);
                done = done.push(piece);
            }
        } else {
            current.push(c);
        }
    }
    assert(path@.take(path@.len() as int) =~= path@);
    let ghost before = text::strings(out@);
    let ghost piece = current@;
    proof {
        lemma_step(done, piece);
    }
    if is_step(current.as_str()) {
        out.push(current);
        assert(text::strings(out@) =~= before.push(piece));
    }
    out
}

fn is_rooted(path: &str) -> (known: bool)
    ensures
        known == rooted(path@),
{
    path.unicode_len() > 0 && path.get_char(0) == '/'
}

fn is_dotted(path: &str) -> (known: bool)
    ensures
        known == dotted(path@),
{
    let n = path.unicode_len();
    n > 0 && path.get_char(0) == '.' && (n == 1 || path.get_char(1) == '/')
}

/// Whether two paths are one.
pub fn is_same_place(a: &str, b: &str) -> (same: bool)
    ensures
        same == same_place(a@, b@),
{
    if is_rooted(a) != is_rooted(b) || is_dotted(a) != is_dotted(b) {
        return false;
    }
    let x = steps_of(a);
    let y = steps_of(b);
    assert(text::strings(x@).len() == x@.len());
    assert(text::strings(y@).len() == y@.len());
    if x.len() != y.len() {
        return false;
    }
    for i in 0..x.len()
        invariant
            text::strings(x@) == steps(a@),
            text::strings(y@) == steps(b@),
            x@.len() == y@.len(),
            forall|k: int| 0 <= k < i ==> steps(a@)[k] == steps(b@)[k],
    {
        assert(steps(a@)[i as int] == x@[i as int]@);
        assert(steps(b@)[i as int] == y@[i as int]@);
        if !text::same(x[i].as_str(), y[i].as_str()) {
            return false;
        }
    }
    assert(steps(a@) =~= steps(b@));
    true
}

/// A name without slashes goes on with the last piece of a path.
proof fn lemma_pieces_name(base: Seq<char>, name: Seq<char>)
    requires
        !name.contains('/'),
    ensures
        pieces(base).len() >= 1,
        pieces(base + name) == pieces(base).drop_last().push(pieces(base).last() + name),
    decreases base.len() + name.len(),
{
    if name.len() == 0 {
        assert(base + name =~= base);
        if base.len() > 0 {
            lemma_pieces_name(base.drop_last(), name);
        }
        assert(pieces(base).last() + name =~= pieces(base).last());
        assert(pieces(base) =~= pieces(base).drop_last().push(pieces(base).last()));
    } else {
        let init = name.drop_last();
        let c = name.last();
        assert forall|k: int| 0 <= k < init.len() implies init[k] != '/' by {
            assert(name.contains(name[k]));
        }
        assert(name.contains(c));
        lemma_pieces_name(base, init);
        assert((base + name).drop_last() =~= base + init);
        let before = pieces(base + init);
        assert(before.drop_last() =~= pieces(base).drop_last());
        assert(before.last() == pieces(base).last() + init);
        assert((pieces(base).last() + init).push(c) =~= pieces(base).last() + name);
    }
}

/// The last step of a path to a file of a directory is the name of the file.
pub proof fn lemma_last_step(dir: Seq<char>, name: Seq<char>)
    requires
        leads(name),
        !name.contains('/'),
    ensures
        steps(joined(dir, name)).len() > 0,
        steps(joined(dir, name)).last() == name,
{
    let base = if dir.len() == 0 || dir.last() == '/' {
        dir
    } else {
        dir.push('/')
    };
    lemma_pieces_name(base, name);
    assert(joined(dir, name) == base + name);
    if base.len() > 0 {
        assert(base.last() == '/');
    }
    assert(pieces(base).last() + name =~= name);
    lemma_step(pieces(base).drop_last(), name);
}

/// The paths of a list that do not lead to a given place.
pub open spec fn spared(paths: Seq<Seq<char>>, own: Seq<char>) -> Seq<Seq<char>> {
    paths.filter(|p: Seq<char>| !same_place(p, own))
}

/// Leaves out of a list the paths that lead to a given place.
pub fn spare(paths: &[String], own: &str) -> (out: Vec<String>)
    ensures
        text::strings(out@) == spared(text::strings(paths@), own@),
        forall|i: int| 0 <= i < out@.len() ==> !same_place((#[trigger] out@[i])@, own@),
{
    let mut out: Vec<String> = Vec::new();
    let ghost all = text::strings(paths@);
    proof {
        reveal(Seq::filter);
        assert(text::strings(out@) =~= spared(all.take(0), own@));
    }
    for i in 0..paths.len()
        invariant
            all == text::strings(paths@),
            text::strings(out@) == spared(all.take(i as int), own@),
            forall|k: int| 0 <= k < out@.len() ==> !same_place((#[trigger] out@[k])@, own@),
    {
        let ghost before = text::strings(out@);
        proof {
            reveal(Seq::filter);
            assert(all.take(i + 1).drop_last() =~= all.take(i as int));
            assert(all.take(i + 1).last() == paths@[i as int]@);
        }
        if !is_same_place(paths[i].as_str(), own) {
            out.push(paths[i].clone());
            assert(text::strings(out@) =~= before.push(paths@[i as int]@));
        }
    }
    assert(all.take(all.len() as int) =~= all);
    out
}

/// The state directory the server gives, where it gives one.
pub fn herdr_state_dir(variable: Option<String>) -> (dir: Option<String>)
    ensures
        dir is Some <==> variable is Some && variable->0@.len() > 0,
        dir matches Some(d) ==> d@ == variable->0@,
{
    match variable {
        Some(dir) => if dir.as_str().unicode_len() > 0 {
            Some(dir)
        } else {
            None
        },
        None => None,
    }
}

/// The directory to fall back to: `herdr/scratchpad` below the configuration
/// directory, which is the one given or `.config` below the home directory.
pub open spec fn fallback_for(
    config: Option<Seq<char>>,
    home: Option<Seq<char>>,
) -> Option<Seq<char>> {
    let base = match config {
        Some(c) => Some(c),
        None => match home {
            Some(h) => Some(joined(h, ".config"@)),
            None => None,
        },
    };
    match base {
        Some(b) => Some(joined(joined(b, "herdr"@), "scratchpad"@)),
        None => None,
    }
}

/// The directory to fall back to without the server.
pub fn fallback_dir(config: Option<&str>, home: Option<&str>) -> (dir: Option<String>)
    ensures
        text::string_view(dir) == fallback_for(text::text_view(config), text::text_view(home)),
{
    let base: String = match config {
        Some(c) => c.to_owned(),
        None => match home {
            Some(h) => join_path(h, ".config"),
            None => {
                return None;
            },
        },
    };
    let herdr = join_path(base.as_str(), "herdr");
    Some(join_path(herdr.as_str(), "scratchpad"))
}

/// The directories that may hold buffers: the server's and the fallback, once
/// where they are one.
pub open spec fn dirs_of(
    herdr: Option<Seq<char>>,
    fallback: Option<Seq<char>>,
) -> Seq<Seq<char>> {
    match (herdr, fallback) {
        (Some(h), Some(f)) => if same_place(h, f) {
            seq![h]
        } else {
            seq![h, f]
        },
        (Some(h), None) => seq![h],
        (None, Some(f)) => seq![f],
        (None, None) => Seq::empty(),
    }
}

/// The directories that may hold buffers.
pub fn state_dirs(herdr: Option<&str>, fallback: Option<&str>) -> (dirs: Vec<String>)
    ensures
        text::strings(dirs@) == dirs_of(text::text_view(herdr), text::text_view(fallback)),
{
    let mut dirs: Vec<String> = Vec::new();
    if let Some(h) = herdr {
        dirs.push(h.to_owned());
    }
    if let Some(f) = fallback {
        let listed: bool = match herdr {
            Some(h) => is_same_place(h, f),
            None => false,
        };
        if !listed {
            dirs.push(f.to_owned());
        }
    }
    assert(text::strings(dirs@) =~= dirs_of(
        text::text_view(herdr),
        text::text_view(fallback),
    ));
    dirs
}

/// The leftovers to remove from the server's state directory: the file of the
/// time when there was one buffer for all, and the remembered target.
pub fn purge_legacy(dir: &str) -> (paths: Vec<String>)
    ensures
        text::strings(paths@) == seq![joined(dir@, STATE_FILE@), joined(dir@, TARGET_FILE@)],
{
    let mut paths: Vec<String> = Vec::new();
    paths.push(join_path(dir, STATE_FILE));
    paths.push(join_path(dir, TARGET_FILE));
    assert(text::strings(paths@) =~= seq![
        joined(dir@, STATE_FILE@),
        joined(dir@, TARGET_FILE@),
    ]);
    paths
}

/// The leftover to remove from any state directory: the remembered target. In
/// the fallback directory the bare file is nobody's leftover.
pub fn purge_legacy_target(dir: &str) -> (path: String)
    ensures
        path@ == joined(dir@, TARGET_FILE@),
{
    join_path(dir, TARGET_FILE)
}

/// A file found in a state directory; its name only where it is readable text.
#[derive(Debug)]
pub struct Entry {
    pub path: String,
    pub name: Option<String>,
}

/// Whether an id has the shape of those the server gives its tabs: `w`, later on
/// `:t`.
pub open spec fn tab_shaped(id: Seq<char>) -> bool {
    id.len() > 0 && id[0] == 'w' && exists|k: int|
        1 <= k < id.len() - 1 && #[trigger] id[k] == ':' && id[k + 1] == 't'
}

/// Whether a file is an orphan: it is not our own, its name carries the id of a
/// tab, and that tab is gone.
pub open spec fn orphan(
    path: Seq<char>,
    name: Option<Seq<char>>,
    own: Seq<char>,
    live: Seq<Seq<char>>,
) -> bool {
    &&& !same_place(path, own)
    &&& name is Some
    &&& tab_in(name->0) is Some
    &&& tab_shaped(tab_in(name->0)->0)
    &&& !live.contains(tab_in(name->0)->0)
}

/// The orphans among the first `n` files, by path.
pub open spec fn orphans(
    entries: Seq<Entry>,
    own: Seq<char>,
    live: Seq<Seq<char>>,
    n: int,
) -> Seq<Seq<char>>
    decreases n,
{
    if n <= 0 || n > entries.len() {
        Seq::empty()
    } else {
        let before = orphans(entries, own, live, n - 1);
        let e = entries[n - 1];
        if orphan(e.path@, text::string_view(e.name), own, live) {
            before.push(e.path@)
        } else {
            before
        }
    }
}

/// A sweep spares our own file however it is spelled, the file of every live tab
/// and the bare file; the file of a tab that is gone is taken, if its id has the
/// shape of one.
pub proof fn sweep_spares_the_living(
    path: Seq<char>,
    id: Seq<char>,
    own: Seq<char>,
    live: Seq<Seq<char>>,
)
    requires
        id.len() > 0,
    ensures
        same_place(path, own) ==> !orphan(path, Some(name_for(Some(id))), own, live),
        live.contains(id) ==> !orphan(path, Some(name_for(Some(id))), own, live),
        !orphan(path, Some(name_for(None)), own, live),
        !same_place(path, own) && tab_shaped(id) && !live.contains(id) ==> orphan(
            path,
            Some(name_for(Some(id))),
            own,
            live,
        ),
{
    tab_id_survives_the_name(id);
    bare_file_carries_no_tab_id();
}

/// A sweep never takes a file whose name is not that of some tab: a file that
/// someone else put there stays.
pub proof fn sweep_spares_other_names(
    path: Seq<char>,
    name: Seq<char>,
    own: Seq<char>,
    live: Seq<Seq<char>>,
)
    requires
        forall|id: Seq<char>| #[trigger] tab_shaped(id) ==> name != name_for(Some(id)),
    ensures
        !orphan(path, Some(name), own, live),
{
    name_is_known_by_its_tab_id(name);
}

/// A sweep takes orphans that were found in the directory, and nothing else: our
/// own file is never among them.
pub proof fn sweep_takes_orphans_alone(
    entries: Seq<Entry>,
    own: Seq<char>,
    live: Seq<Seq<char>>,
    n: int,
    path: Seq<char>,
)
    requires
        0 <= n <= entries.len(),
        orphans(entries, own, live, n).contains(path),
    ensures
        !same_place(path, own),
        exists|i: int|
            0 <= i < n && (#[trigger] entries[i]).path@ == path && orphan(
                path,
                text::string_view(entries[i].name),
                own,
                live,
            ),
    decreases n,
{
    let taken = orphans(entries, own, live, n);
    let before = orphans(entries, own, live, n - 1);
    let k = choose|k: int| 0 <= k < taken.len() && taken[k] == path;
    if k < before.len() {
        assert(before[k] == path);
        assert(before.contains(path));
        sweep_takes_orphans_alone(entries, own, live, n - 1, path);
    } else {
        assert(entries[n - 1].path@ == path);
    }
}

fn is_live(id: &str, live: &[String]) -> (found: bool)
    ensures
        found == text::strings(live@).contains(id@),
{
    for i in 0..live.len()
        invariant
            forall|k: int| 0 <= k < i ==> text::strings(live@)[k] != id@,
    {
        assert(text::strings(live@)[i as int] == live@[i as int]@);
        if text::same(live[i].as_str(), id) {
            return true;
        }
    }
    false
}

/// Whether an id has the shape of those the server gives its tabs.
fn is_tab_shaped(id: &str) -> (shaped: bool)
    ensures
        shaped == tab_shaped(id@),
{
    let chars = text::chars_of(id);
    let n = chars.len();
    if n < 3 || chars[0] != 'w' {
        return false;
    }
    for k in 1..n - 1
        invariant
            chars@ == id@,
            n == chars@.len(),
            n >= 3,
            chars@[0] == 'w',
            forall|j: int| 1 <= j < k ==> !(#[trigger] id@[j] == ':' && id@[j + 1] == 't'),
    {
        if chars[k] == ':' && chars[k + 1] == 't' {
            assert(id@[k as int] == ':' && id@[k + 1] == 't');
            return true;
        }
    }
    false
}

/// The files to remove from a state directory: those whose tab is gone. Tab ids
/// are never used again, so no new tab can inherit them. `own` is never among
/// them.
pub fn sweep_orphans(entries: &[Entry], live_tab_ids: &[String], own: &str) -> (paths: Vec<String>)
    ensures
        text::strings(paths@) == orphans(
            entries@,
            own@,
            text::strings(live_tab_ids@),
            entries@.len() as int,
        ),
{
    let mut paths: Vec<String> = Vec::new();
    let ghost live = text::strings(live_tab_ids@);
    assert(text::strings(paths@) =~= orphans(entries@, own@, live, 0));
    for i in 0..entries.len()
        invariant
            live == text::strings(live_tab_ids@),
            text::strings(paths@) == orphans(entries@, own@, live, i as int),
    {
        let ghost e = entries@[i as int];
        let gone: bool = match &entries[i].name {
            Some(name) => match tab_id_of(name.as_str()) {
                Some(id) => is_tab_shaped(id) && !is_live(id, live_tab_ids),
                None => false,
            },
            None => false,
        };
        let ghost before = text::strings(paths@);
        if gone && !is_same_place(entries[i].path.as_str(), own) {
            assert(orphan(e.path@, text::string_view(e.name), own@, live));
            paths.push(entries[i].path.clone());
            assert(text::strings(paths@) =~= before.push(e.path@));
        } else {
            assert(!orphan(e.path@, text::string_view(e.name), own@, live));
        }
    }
    paths
}

/// What is spared of a list is each of its paths that does not lead to the given
/// place.
pub proof fn lemma_spared(paths: Seq<Seq<char>>, own: Seq<char>, path: Seq<char>)
    ensures
        spared(paths, own).contains(path) <==> paths.contains(path) && !same_place(path, own),
    decreases paths.len(),
{
    reveal(Seq::filter);
    if paths.len() > 0 {
        let init = paths.drop_last();
        let last = paths.last();
        let before = spared(init, own);
        let after = spared(paths, own);
        lemma_spared(init, own, path);
        assert(paths =~= init.push(last));
        assert(paths.contains(path) <==> init.contains(path) || path == last) by {
            if init.contains(path) {
                let k = choose|k: int| 0 <= k < init.len() && init[k] == path;
                assert(paths[k] == path);
            }
            if paths.contains(path) && path != last {
                let k = choose|k: int| 0 <= k < paths.len() && paths[k] == path;
                assert(init[k] == path);
            }
            assert(paths[paths.len() - 1] == last);
        }
        if !same_place(last, own) {
            assert(after == before.push(last));
            if before.contains(path) {
                let k = choose|k: int| 0 <= k < before.len() && before[k] == path;
                assert(after[k] == path);
            }
            assert(after[before.len() as int] == last);
            if after.contains(path) && path != last {
                let k = choose|k: int| 0 <= k < after.len() && after[k] == path;
                assert(before[k] == path);
            }
        } else {
            assert(after == before);
        }
    }
}

/// The file of a tab carries the id of the tab between a prefix and a suffix, and
/// nothing more; so does the export.
pub proof fn files_are_named_after_their_tab(id: Seq<char>)
    ensures
        name_for(Some(id)) == "scratchpad-"@ + id + ".txt"@,
        name_for(None) == "scratchpad.txt"@,
        export_name(Some(id)) == "herdr-scratchpad-"@ + id + ".txt"@,
        export_name(None) == "herdr-scratchpad.txt"@,
{
}

/// A file of a directory lies in that directory: its path is the one of the
/// directory, one slash between them at most, and its name.
pub proof fn files_lie_in_their_directory(dir: Seq<char>, name: Seq<char>)
    ensures
        joined(dir, name).take(dir.len() as int) == dir,
        joined(dir, name).skip(joined(dir, name).len() - name.len()) == name,
        dir.len() > 0 && dir.last() != '/' ==> joined(dir, name).len() == dir.len() + 1 + name.len()
            && joined(dir, name)[dir.len() as int] == '/',
        dir.len() == 0 || dir.last() == '/' ==> joined(dir, name).len() == dir.len() + name.len(),
{
    assert(joined(dir, name).take(dir.len() as int) =~= dir);
    assert(joined(dir, name).skip(joined(dir, name).len() - name.len()) =~= name);
}

/// Two processes never write to the same temporary file, and each writes beside
/// the file it is to replace: up to its name the two paths are one.
pub proof fn temporary_files_are_never_shared(path: Seq<char>, a: nat, b: nat)
    requires
        has_name(path),
        a != b,
        a <= u64::MAX,
        b <= u64::MAX,
    ensures
        temp_for(path, a) != temp_for(path, b),
        forall|i: int|
            stem_end(path) <= i < temp_for(path, a).len() ==> #[trigger] temp_for(path, a)[i]
                != '/',
        0 <= stem_end(path) <= name_end(path, path.len() as int) <= path.len(),
        temp_for(path, a).take(stem_end(path)) == path.take(stem_end(path)),
        forall|i: int|
            stem_end(path) <= i < name_end(path, path.len() as int) ==> #[trigger] path[i] != '/',
{
    let end = name_end(path, path.len() as int);
    let k = stem_end(path);
    let x = text::decimal(a);
    let y = text::decimal(b);
    let head = path.take(k) + ".tmp."@;
    reveal_strlit(".tmp.");
    lemma_name_end(path, path.len() as int);
    lemma_last_dot(path, end);
    lemma_after_dot(path, end);
    text::lemma_decimal_digits(a);
    text::lemma_decimal_digits(b);
    text::number_survives_decimal(a);
    text::number_survives_decimal(b);
    if temp_for(path, a) == temp_for(path, b) {
        assert(temp_for(path, a).skip(head.len() as int) =~= x);
        assert(temp_for(path, b).skip(head.len() as int) =~= y);
    }
    assert forall|i: int| k <= i < temp_for(path, a).len() implies #[trigger] temp_for(path, a)[i]
        != '/' by {
        if i < k + 5 {
            assert(temp_for(path, a)[i] == ".tmp."@[i - k]);
        } else {
            assert(temp_for(path, a)[i] == x[i - (k + 5)]);
            assert(text::is_digit(x[i - (k + 5)]));
        }
    }
    assert(temp_for(path, a).take(k) =~= path.take(k));
}

proof fn lemma_after_dot(path: Seq<char>, n: int)
    requires
        0 <= n <= path.len(),
    ensures
        last_dot(path, n) matches Some(k) ==> forall|i: int|
            k <= i < n ==> #[trigger] path[i] != '/',
    decreases n,
{
    if n > 0 && path[n - 1] != '/' && path[n - 1] != '.' {
        lemma_after_dot(path, n - 1);
    }
}

/// A save of which every stage succeeds is done after four of them. One that goes
/// wrong is over after three at most, and removes the temporary file of a failed
/// write if it can.
pub proof fn saves_come_to_an_end(
    disk: Disk,
    outcomes: Seq<(bool, Seq<char>)>,
    path: Seq<char>,
    pid: nat,
    text: Seq<char>,
)
    requires
        outcomes.len() >= 4,
    ensures
        ({
            let temp = temp_for(path, pid);
            let (after, stage) = carried_out(disk, outcomes.take(4), path, temp, text);
            &&& stage == SaveStage::Saved || stage == SaveStage::Failed
            &&& stage == SaveStage::Saved <==> outcomes[0].0 && outcomes[1].0 && outcomes[2].0
            &&& outcomes[0].0 && !outcomes[1].0 && outcomes[2].0 ==> file_on(after, temp) is None
        }),
{
    let temp = temp_for(path, pid);
    let four = outcomes.take(4);
    assert(four.drop_last() =~= outcomes.take(3));
    assert(outcomes.take(3).drop_last() =~= outcomes.take(2));
    assert(outcomes.take(2).drop_last() =~= outcomes.take(1));
    assert(outcomes.take(1).drop_last() =~= outcomes.take(0));
    reveal_with_fuel(carried_out, 5);
}

/// The error of a save is that of the stage that made it fail: making the
/// directory, writing, or renaming. What goes wrong in tidying up, or in asking
/// for the time of the file, is nobody's error.
pub proof fn failures_report_what_went_wrong(stage: SaveStage)
    ensures
        reports_error(stage) <==> stage == SaveStage::MakeDir || stage == SaveStage::Write || stage
            == SaveStage::Rename,
        (next_stage(stage, false) == SaveStage::Failed || next_stage(stage, false)
            == SaveStage::Discard) && stage != SaveStage::Discard && stage != SaveStage::Failed
            ==> reports_error(stage),
{
}

/// A change by others is told with the whole text of the file, an empty one where
/// the file is gone; no change tells nothing.
pub proof fn changes_are_told_with_the_whole_text(
    store: StoreView,
    modified: Option<i128>,
    content: Option<Seq<char>>,
)
    ensures
        modified == store.seen ==> reloaded(store, modified, content) is None,
        modified != store.seen && content is Some ==> reloaded(store, modified, content) == content,
        modified != store.seen && content is None ==> reloaded(store, modified, content) == Some(
            Seq::<char>::empty(),
        ),
{
}

/// The directory to fall back to lies below the configuration directory, which is
/// the one given, or else the hidden one of the home directory.
pub proof fn fallback_lies_below_the_configuration(
    config: Option<Seq<char>>,
    home: Option<Seq<char>>,
)
    ensures
        config matches Some(c) ==> fallback_for(config, home) == Some(
            joined(joined(c, "herdr"@), "scratchpad"@),
        ),
        config is None && home is Some ==> fallback_for(config, home) == fallback_for(
            Some(joined(home->0, ".config"@)),
            None,
        ),
        config is None && home is None ==> fallback_for(config, home) is None,
{
}

/// The directories that may hold buffers are those that there are, the server's
/// first, and none of them twice.
pub proof fn directories_are_listed_once(herdr: Option<Seq<char>>, fallback: Option<Seq<char>>)
    ensures
        ({
            let dirs = dirs_of(herdr, fallback);
            &&& dirs.len() <= 2
            &&& herdr matches Some(h) ==> dirs.len() > 0 && dirs[0] == h
            &&& fallback matches Some(f) ==> exists|i: int|
                0 <= i < dirs.len() && (same_place(#[trigger] dirs[i], f))
            &&& dirs.len() == 2 ==> !same_place(dirs[0], dirs[1])
            &&& forall|i: int|
                0 <= i < dirs.len() ==> Some(#[trigger] dirs[i]) == herdr || Some(dirs[i])
                    == fallback
        }),
{
    let dirs = dirs_of(herdr, fallback);
    if let Some(f) = fallback {
        assert(same_place(f, f));
        if dirs.len() == 2 {
            assert(same_place(dirs[1], f));
        } else {
            assert(same_place(dirs[0], f));
        }
    }
}

/// Paths to one place are an equivalence, and a path leads to one place however
/// its last directory is spelled: with one slash or two, or a dot on the way.
pub proof fn places_are_told_by_their_steps(a: Seq<char>, b: Seq<char>, c: Seq<char>)
    ensures
        same_place(a, a),
        same_place(a, b) ==> same_place(b, a),
        same_place(a, b) && same_place(b, c) ==> same_place(a, c),
        a.len() > 0 && a.last() == '/' ==> same_place(a, a.push('/')) && same_place(
            a,
            a.push('.').push('/'),
        ),
        a.len() > 0 && a.last() != '/' && a != seq!['.'] && !(a.len() > 1 && a.last() == '.'
            && a[a.len() - 2] == '/') ==> same_place(a, a.push('/')),
{
    reveal_with_fuel(pieces, 3);
    let p = pieces(a);
    let slash = a.push('/');
    lemma_pieces_name(a, Seq::empty());
    assert(slash.drop_last() =~= a);
    assert(pieces(slash) == p.push(Seq::empty()));
    lemma_step(p, Seq::empty());
    if a.len() > 0 && a.last() == '/' {
        let dot = a.push('.');
        let both = dot.push('/');
        assert(dot.drop_last() =~= a);
        assert(both.drop_last() =~= dot);
        assert(p.last() =~= Seq::<char>::empty());
        assert(p.last().push('.') =~= seq!['.']);
        let q = p.drop_last();
        assert(p =~= q.push(Seq::empty()));
        assert(pieces(dot) == q.push(seq!['.']));
        assert(pieces(both) == q.push(seq!['.']).push(Seq::empty()));
        lemma_step(q, Seq::empty());
        lemma_step(q, seq!['.']);
        lemma_step(q.push(seq!['.']), Seq::empty());
    }
}

/// Files of different names in one directory are different places.
pub proof fn names_tell_places_apart(dir: Seq<char>, other: Seq<char>, a: Seq<char>, b: Seq<char>)
    requires
        leads(a) && !a.contains('/'),
        leads(b) && !b.contains('/'),
        a != b,
    ensures
        !same_place(joined(dir, a), joined(other, b)),
{
    lemma_last_step(dir, a);
    lemma_last_step(other, b);
}

/// A sweep takes every orphan it finds.
pub proof fn sweep_takes_every_orphan(
    entries: Seq<Entry>,
    own: Seq<char>,
    live: Seq<Seq<char>>,
    n: int,
    i: int,
)
    requires
        0 <= i < n <= entries.len(),
        orphan(entries[i].path@, text::string_view(entries[i].name), own, live),
    ensures
        orphans(entries, own, live, n).contains(entries[i].path@),
    decreases n,
{
    let before = orphans(entries, own, live, n - 1);
    let taken = orphans(entries, own, live, n);
    if i < n - 1 {
        sweep_takes_every_orphan(entries, own, live, n - 1, i);
        let k = choose|k: int| 0 <= k < before.len() && before[k] == entries[i].path@;
        assert(taken[k] == entries[i].path@);
    } else {
        assert(taken[before.len() as int] == entries[i].path@);
    }
}

/// Every id of a workspace and a tab has the shape of one: `w`, what tells the
/// workspace, `:t`, and what tells the tab.
pub proof fn ids_of_tabs_have_their_shape(workspace: Seq<char>, tab: Seq<char>)
    ensures
        tab_shaped(seq!['w'] + workspace + seq![':', 't'] + tab),
{
    let id = seq!['w'] + workspace + seq![':', 't'] + tab;
    let k = 1 + workspace.len() as int;
    assert(id[k] == ':' && id[k + 1] == 't');
    assert(id[0] == 'w');
}

proof fn lemma_some_dot(path: Seq<char>, n: int, k: int)
    requires
        0 <= k < n <= path.len(),
        path[k] == '.',
        forall|i: int| k <= i < n ==> #[trigger] path[i] != '/',
    ensures
        last_dot(path, n) matches Some(j) && k <= j < n && path[j] == '.' && forall|i: int|
            j < i < n ==> #[trigger] path[i] != '.',
    decreases n,
{
    assert(path[n - 1] != '/');
    if path[n - 1] != '.' {
        lemma_some_dot(path, n - 1, k);
    }
}

/// What gives way in the name of a temporary file is the extension of the file,
/// from its last dot on, and nothing where it has none: a dot at the start of the
/// name begins no extension.
pub proof fn only_the_extension_gives_way(path: Seq<char>, k: int)
    ensures
        ({
            let end = name_end(path, path.len() as int);
            let stem = stem_end(path);
            &&& stem < end ==> 0 < stem && path[stem] == '.' && path[stem - 1] != '/'
            &&& 0 < k < end && path[k] == '.' && path[k - 1] != '/' && (forall|i: int|
                k <= i < end ==> #[trigger] path[i] != '/') ==> k <= stem < end && (forall|i: int|
                stem < i < end ==> #[trigger] path[i] != '.')
        }),
{
    let end = name_end(path, path.len() as int);
    lemma_name_end(path, path.len() as int);
    lemma_last_dot(path, end);
    lemma_dot_is_one(path, end);
    if 0 < k < end && path[k] == '.' && path[k - 1] != '/' && (forall|i: int|
        k <= i < end ==> #[trigger] path[i] != '/') {
        lemma_some_dot(path, end, k);
        let j = last_dot(path, end)->0;
        if j > k {
            assert(path[j - 1] != '/');
        }
    }
}

proof fn lemma_dot_is_one(path: Seq<char>, n: int)
    requires
        0 <= n <= path.len(),
    ensures
        last_dot(path, n) matches Some(k) ==> path[k] == '.',
    decreases n,
{
    if n > 0 && path[n - 1] != '/' && path[n - 1] != '.' {
        lemma_dot_is_one(path, n - 1);
    }
}

} // verus!
