//! The application's session state: which file or folder is open, the
//! generations that tell stale scans and watchers apart, startup, and the
//! texts shown in window titles.

use vstd::prelude::*;
use crate::paths::{
    final_name, lemma_parent_plain, parent_spec, path_file_name, path_file_stem, path_parent, path_starts_with,
    paths_equal, plain_path, stem_spec, under,
};
use crate::registry::PathRegistry;
use crate::text::{display_path, display_path_spec};

verus! {

/// What the window shows.
#[derive(Clone, Copy, Debug)]
pub enum AppMode {
    Empty,
    File,
    Folder,
}

/// `x + 1`, wrapping around at `u64::MAX` as an atomic counter does.
pub open spec fn next_gen(x: u64) -> u64 {
    if x == u64::MAX {
        0
    } else {
        (x + 1) as u64
    }
}

/// The two generation counters. `scan` tells the current progressive scan
/// from superseded ones; `folder` identifies the watched file or folder and
/// changes only when that target changes, so that restarting a scan never
/// stops a live folder watcher.
#[derive(Clone, Copy, Debug)]
pub struct Generations {
    pub scan: u64,
    pub folder: u64,
}

impl Generations {
    pub open spec fn after_scan_start(self) -> Generations {
        Generations { scan: next_gen(self.scan), folder: self.folder }
    }

    pub open spec fn after_target_switch(self) -> Generations {
        Generations { scan: next_gen(self.scan), folder: next_gen(self.folder) }
    }

    pub open spec fn watcher_stale(self, folder_gen: u64) -> bool {
        folder_gen != self.folder
    }

    pub open spec fn scan_current(self, scan_gen: u64) -> bool {
        scan_gen == self.scan
    }

    /// Both counters at zero.
    pub fn new() -> (g: Self)
        ensures
            g.scan == 0 && g.folder == 0,
    {
        Generations { scan: 0, folder: 0 }
    }

    /// Starts a progressive scan and returns its generation; every earlier
    /// scan becomes stale.
    pub fn start_scan(&mut self) -> (g: u64)
        ensures
            *final(self) == old(self).after_scan_start(),
            g == final(self).scan,
    {
        self.scan = self.scan.wrapping_add(1);
        self.scan
    }

    /// Cancels any running scan (leaving folder mode).
    pub fn cancel_scan(&mut self)
        ensures
            *final(self) == old(self).after_scan_start(),
    {
        self.scan = self.scan.wrapping_add(1);
    }

    /// Switches the watched target (another file or folder): cancels any
    /// running scan and returns the generation for the new target's watcher.
    pub fn switch_target(&mut self) -> (g: u64)
        ensures
            *final(self) == old(self).after_target_switch(),
            g == final(self).folder,
    {
        self.scan = self.scan.wrapping_add(1);
        self.folder = self.folder.wrapping_add(1);
        self.folder
    }

    /// Whether a scan of this generation is still the current one.
    pub fn scan_is_current(&self, scan_gen: u64) -> (r: bool)
        ensures
            r == self.scan_current(scan_gen),
    {
        scan_gen == self.scan
    }

    /// Whether a folder watcher created for this generation must ignore its
    /// events because the watched target has changed since.
    pub fn folder_watcher_is_stale(&self, folder_gen: u64) -> (r: bool)
        ensures
            r == self.watcher_stale(folder_gen),
    {
        folder_gen != self.folder
    }
}

/// Starting or cancelling a scan never changes whether a folder watcher is
/// stale: live updates survive the initial scan and every rescan.
pub proof fn lemma_scan_keeps_watcher(g: Generations, folder_gen: u64)
    ensures
        g.after_scan_start().watcher_stale(folder_gen) == g.watcher_stale(folder_gen),
{
}

/// Switching the watched target makes the watcher of the previous target
/// stale, and the watcher created for the new target live.
pub proof fn lemma_switch_retires_watcher(g: Generations)
    ensures
        g.after_target_switch().watcher_stale(g.folder),
        !g.after_target_switch().watcher_stale(g.after_target_switch().folder),
{
}

/// A new scan supersedes the running one, and is itself current; so does a
/// switch of target.
pub proof fn lemma_new_scan_supersedes(g: Generations)
    ensures
        !g.after_scan_start().scan_current(g.scan),
        g.after_scan_start().scan_current(g.after_scan_start().scan),
        !g.after_target_switch().scan_current(g.scan),
{
}

} // verus!

verus! {

/// What the path given on the command line turned out to be on disk.
pub enum ResolvedArg {
    /// It could not be resolved (nothing there).
    Missing,
    /// A directory at this canonical path, with the file to open in it.
    Directory { path: String, default_file: Option<String> },
    /// A file (or anything that is not a directory) at this canonical path.
    File { path: String },
}

/// The state the application starts in.
pub struct StartupState {
    pub mode: AppMode,
    /// The open file; empty when none.
    pub file_path: String,
    pub folder_path: Option<String>,
    pub startup_error: Option<String>,
}

/// The command-line path argument, when one was given and is not empty.
pub fn startup_argument(arg: Option<String>) -> (r: Option<String>)
    ensures
        r is Some <==> (arg is Some && arg->0@.len() > 0),
        r is Some ==> r->0@ == arg->0@,
{
    match arg {
        Some(a) => {
            if a.as_str().unicode_len() > 0 {
                Some(a)
            } else {
                None
            }
        },
        None => None,
    }
}

/// The message shown when the path given at startup does not exist.
pub open spec fn not_found_message(arg: Seq<char>) -> Seq<char> {
    "File not found: "@ + arg
}

/// Decides the startup state from the (non-empty) path argument and what it
/// resolved to: no argument gives an empty window; a missing path an empty
/// window with an error; a directory folder mode on its default file; a file
/// file mode.
pub fn startup_state(arg: Option<String>, resolved: ResolvedArg) -> (s: StartupState)
    ensures
        arg is None ==> s.mode is Empty && s.file_path@.len() == 0 && s.folder_path is None
            && s.startup_error is None,
        arg is Some ==> match resolved {
            ResolvedArg::Missing => s.mode is Empty && s.file_path@.len() == 0 && s.folder_path is None
                && s.startup_error is Some && s.startup_error->0@ == not_found_message(arg->0@),
            ResolvedArg::Directory { path, default_file } => s.mode is Folder && s.folder_path is Some
                && s.folder_path->0@ == path@ && s.startup_error is None && s.file_path@ == match default_file {
                Some(f) => f@,
                None => Seq::<char>::empty(),
            },
            ResolvedArg::File { path } => s.mode is File && s.file_path@ == path@ && s.folder_path is None
                && s.startup_error is None,
        },
{
    match arg {
        None => StartupState { mode: AppMode::Empty, file_path: String::new(), folder_path: None, startup_error: None },
        Some(a) => match resolved {
            ResolvedArg::Missing => StartupState {
                mode: AppMode::Empty,
                file_path: String::new(),
                folder_path: None,
                startup_error: Some(String::from_str("File not found: ").concat(a.as_str())),
            },
            ResolvedArg::Directory { path, default_file } => StartupState {
                mode: AppMode::Folder,
                file_path: match default_file {
                    Some(f) => f,
                    None => String::new(),
                },
                folder_path: Some(path),
                startup_error: None,
            },
            ResolvedArg::File { path } => StartupState {
                mode: AppMode::File,
                file_path: path,
                folder_path: None,
                startup_error: None,
            },
        },
    }
}

/// What the front end is told about the mode.
pub struct ModeReport {
    pub mode: AppMode,
    /// In folder mode, the open file (displayed), if any.
    pub current_file: Option<String>,
    /// In folder mode, the open folder (displayed).
    pub folder_path: Option<String>,
    /// In folder mode, the open folder's name (by `Path::file_name`).
    pub folder_name: Option<String>,
}

/// Reports the mode: only folder mode carries the open file, the folder's
/// displayed path and its name.
pub fn mode_report(mode: AppMode, file_path: &str, folder_path: &Option<String>) -> (r: ModeReport)
    ensures
        r.mode == mode,
        !(mode is Folder) ==> r.current_file is None && r.folder_path is None && r.folder_name is None,
        mode is Folder ==> {
            &&& (r.current_file is Some <==> file_path@.len() > 0)
            &&& r.current_file is Some ==> r.current_file->0@ == display_path_spec(file_path@)
            &&& (r.folder_path is Some <==> folder_path is Some)
            &&& (r.folder_name is Some <==> folder_path is Some)
            &&& r.folder_path is Some ==> r.folder_path->0@ == display_path_spec(folder_path->0@)
            &&& folder_path is Some && plain_path(folder_path->0@) ==> r.folder_name->0@ == final_name(
                folder_path->0@,
            )
        },
{
    match mode {
        AppMode::Folder => {
            let current_file = if file_path.unicode_len() > 0 {
                Some(display_path(file_path))
            } else {
                None
            };
            let (fp, name) = match folder_path {
                Some(f) => {
                    let n = match path_file_name(f.as_str()) {
                        Some(n) => n,
                        None => String::new(),
                    };
                    (Some(display_path(f.as_str())), Some(n))
                },
                None => (None, None),
            };
            ModeReport { mode, current_file, folder_path: fp, folder_name: name }
        },
        _ => ModeReport { mode, current_file: None, folder_path: None, folder_name: None },
    }
}

/// What switching to another file requires.
pub struct FileSwitch {
    /// A new watcher must be set up (another directory, or a mode change).
    pub needs_new_watcher: bool,
    /// The window was not in file mode before.
    pub was_not_file: bool,
}

/// The switch plan, given whether the new file lies in the directory of the
/// old one: a new watcher is needed when the mode was not file mode or the
/// directory changes.
pub fn file_switch_from(mode: AppMode, same_dir: bool) -> (r: FileSwitch)
    ensures
        r.was_not_file == !(mode is File),
        r.needs_new_watcher == (!same_dir || !(mode is File)),
{
    let was_other = match mode {
        AppMode::File => false,
        _ => true,
    };
    FileSwitch { needs_new_watcher: !same_dir || was_other, was_not_file: was_other }
}

/// Plans a switch from the current state to the file `new_file` (see
/// `file_switch_from`); the directories are compared by `Path::parent` and
/// path equality.
pub fn plan_file_switch(mode: AppMode, old_file: &str, new_file: &str) -> (r: FileSwitch)
    ensures
        r.was_not_file == !(mode is File),
        r.was_not_file ==> r.needs_new_watcher,
        plain_path(old_file@) && plain_path(new_file@) ==> r.needs_new_watcher == (!(mode is File)
            || parent_spec(old_file@) != parent_spec(new_file@)),
{
    proof {
        if plain_path(old_file@) && plain_path(new_file@) {
            lemma_parent_plain(old_file@);
            lemma_parent_plain(new_file@);
        }
    }
    let old_dir = path_parent(old_file);
    let new_dir = path_parent(new_file);
    let same_dir = match (old_dir, new_dir) {
        (None, None) => true,
        (Some(a), Some(b)) => paths_equal(a.as_str(), b.as_str()),
        _ => false,
    };
    file_switch_from(mode, same_dir)
}

/// What the window has open: the mode, the open file (empty when none), the
/// open folder, the startup error still to be shown, and the markdown files
/// known under the open folder.
pub struct ViewState {
    pub mode: AppMode,
    pub file_path: String,
    pub folder_path: Option<String>,
    pub startup_error: Option<String>,
    pub folder_files: PathRegistry,
}

impl ViewState {
    /// Switches to the file `new_file`: file mode on that file, with no open
    /// folder, no startup error and no known folder files. Returns the plan
    /// (see `plan_file_switch`) made from the state before the switch.
    pub fn switch_file(&mut self, new_file: &str) -> (r: FileSwitch)
        ensures
            r.was_not_file == !(old(self).mode is File),
            r.was_not_file ==> r.needs_new_watcher,
            plain_path(old(self).file_path@) && plain_path(new_file@) ==> r.needs_new_watcher == (!(old(self).mode is File)
                || parent_spec(old(self).file_path@) != parent_spec(new_file@)),
            final(self).mode is File,
            final(self).file_path@ == new_file@,
            final(self).folder_path is None,
            final(self).startup_error is None,
            final(self).folder_files.view() == Set::<Seq<char>>::empty(),
    {
        let plan = plan_file_switch(self.mode, self.file_path.as_str(), new_file);
        self.file_path = new_file.to_owned();
        self.mode = AppMode::File;
        self.folder_path = None;
        self.startup_error = None;
        self.folder_files.clear();
        plan
    }

    /// Opens the file `new_file` if it exists on disk (`exists`): then the
    /// switch of `switch_file` and its plan; else nothing changes and no plan
    /// is made (the caller prunes the recent lists instead).
    pub fn open_file(&mut self, new_file: &str, exists: bool) -> (r: Option<FileSwitch>)
        ensures
            r is Some <==> exists,
            !exists ==> *final(self) == *old(self),
            exists ==> {
                &&& r->0.was_not_file == !(old(self).mode is File)
                &&& r->0.was_not_file ==> r->0.needs_new_watcher
                &&& plain_path(old(self).file_path@) && plain_path(new_file@) ==> r->0.needs_new_watcher == (!(old(
                    self,
                ).mode is File) || parent_spec(old(self).file_path@) != parent_spec(new_file@))
                &&& final(self).mode is File
                &&& final(self).file_path@ == new_file@
                &&& final(self).folder_path is None
                &&& final(self).startup_error is None
                &&& final(self).folder_files.view() == Set::<Seq<char>>::empty()
            },
    {
        if exists {
            Some(self.switch_file(new_file))
        } else {
            None
        }
    }

    /// Switches to the folder `folder` with `default_file` open in it (none:
    /// no file open): folder mode, with no startup error and no known folder
    /// files yet.
    pub fn switch_to_folder(&mut self, folder: String, default_file: Option<String>)
        ensures
            final(self).mode is Folder,
            final(self).folder_path == Some(folder),
            final(self).file_path@ == match default_file {
                Some(f) => f@,
                None => Seq::<char>::empty(),
            },
            final(self).startup_error is None,
            final(self).folder_files.view() == Set::<Seq<char>>::empty(),
    {
        self.mode = AppMode::Folder;
        self.folder_path = Some(folder);
        self.file_path = match default_file {
            Some(f) => f,
            None => String::new(),
        };
        self.startup_error = None;
        self.folder_files.clear();
    }
}

/// The window title in file mode: `mdlite — ` and the file's name.
pub fn file_title(file_name: &str) -> (r: String)
    ensures
        r@ == "mdlite — "@ + file_name@,
{
    String::from_str("mdlite — ").concat(file_name)
}

/// The window title in folder mode: `mdlite — ` and the folder's name, then
/// ` — ` and the open file's name when a file is open.
pub fn folder_title(folder_name: &str, file_name: Option<String>) -> (r: String)
    ensures
        file_name is None ==> r@ == "mdlite — "@ + folder_name@,
        file_name is Some ==> r@ == "mdlite — "@ + folder_name@ + " — "@ + file_name->0@,
{
    let t = String::from_str("mdlite — ").concat(folder_name);
    match file_name {
        Some(f) => t.concat(" — ").concat(f.as_str()),
        None => t,
    }
}

/// The suggested name of an exported PDF: the document's stem with `.pdf`, or
/// `document.pdf` when the stem is empty.
pub open spec fn pdf_name_spec(stem: Seq<char>) -> Seq<char> {
    if stem.len() == 0 {
        "document.pdf"@
    } else {
        stem + ".pdf"@
    }
}

/// The suggested name of an exported PDF (see `pdf_name_spec`).
pub fn pdf_name_from_stem(stem: &str) -> (r: String)
    ensures
        r@ == pdf_name_spec(stem@),
{
    if stem.unicode_len() == 0 {
        String::from_str("document.pdf")
    } else {
        stem.to_owned().concat(".pdf")
    }
}

/// The suggested name of the PDF exported from the open file, whose stem is
/// taken by `Path::file_stem` (`stem_spec` of the final name, for a plain
/// path).
pub fn pdf_filename(file_path: &str) -> (r: String)
    ensures
        exists|stem: Seq<char>| r@ == pdf_name_spec(stem),
        file_path@.len() == 0 ==> r@ == "document.pdf"@,
        plain_path(file_path@) ==> r@ == pdf_name_spec(stem_spec(final_name(file_path@))),
{
    let stem = match path_file_stem(file_path) {
        Some(s) => s,
        None => String::new(),
    };
    pdf_name_from_stem(stem.as_str())
}

/// Whether a file may be opened from the navigation tree: always when no
/// folder is open, else when it lies inside the open folder (by
/// `Path::starts_with`; the folder itself counts).
pub fn inside_open_folder(file: &str, folder: &Option<String>) -> (r: bool)
    ensures
        folder is None ==> r,
        folder is Some && folder->0@ == file@ ==> r,
        folder is Some && plain_path(file@) && plain_path(folder->0@) ==> (r <==> file@ == folder->0@
            || under(file@, folder->0@)),
{
    match folder {
        Some(f) => path_starts_with(file, f.as_str()),
        None => true,
    }
}

} // verus!
