//! What the folder watcher reports for a batch of filesystem events.

use vstd::prelude::*;
use crate::paths::{
    final_name, final_segment, lemma_extension_of_suffix, lemma_plain_displayed, path_file_name, paths_equal, plain_path,
    tail_named, under,
};
use crate::config::{keep_flagged, lemma_keep_flagged_selects};
use crate::registry::{lemma_keep_flagged_members, negated, removal_entry, removed_folder_change_entries, FolderChangeEntry, PathRegistry};
use crate::scan::{chain_joined, chain_names, compute_path_chain, path_chain_names, DirAncestor};
use crate::text::{display_path, display_path_spec, is_markdown_name, is_markdown_name_exec, last_dot};

verus! {

/// A path that a filesystem event touched, with what was on disk there when
/// the batch was handled.
pub struct FsEvent {
    pub path: String,
    /// A regular file is there.
    pub is_file: bool,
    /// Anything is there.
    pub exists: bool,
}

/// The paths of a list of changes.
pub open spec fn change_paths(changes: Seq<FolderChangeEntry>) -> Seq<Seq<char>> {
    changes.map_values(|c: FolderChangeEntry| c.path@)
}

/// The positions of the first occurrence of each distinct path, in order.
pub open spec fn first_occurrences(paths: Seq<Seq<char>>) -> Seq<int>
    decreases paths.len(),
{
    if paths.len() == 0 {
        Seq::empty()
    } else {
        let prev = first_occurrences(paths.drop_last());
        if paths.drop_last().contains(paths.last()) {
            prev
        } else {
            prev.push(paths.len() - 1)
        }
    }
}

/// The changes at the given positions.
pub open spec fn changes_at(changes: Seq<FolderChangeEntry>, idx: Seq<int>) -> Seq<FolderChangeEntry> {
    idx.map_values(|i: int| changes[i])
}

proof fn lemma_first_occurrences_bounds(paths: Seq<Seq<char>>)
    ensures
        forall|k: int| 0 <= k < first_occurrences(paths).len() ==> 0 <= #[trigger] first_occurrences(paths)[k] < paths.len(),
    decreases paths.len(),
{
    if paths.len() > 0 {
        lemma_first_occurrences_bounds(paths.drop_last());
        let prev = first_occurrences(paths.drop_last());
        let fo = first_occurrences(paths);
        assert forall|k: int| 0 <= k < fo.len() implies 0 <= #[trigger] fo[k] < paths.len() by {
            if k < prev.len() {
                assert(fo[k] == prev[k]);
            }
        }
    }
}

/// Keeps the first change for each path and drops later ones with the same
/// path, preserving order.
pub fn dedupe_by_path(changes: Vec<FolderChangeEntry>) -> (r: Vec<FolderChangeEntry>)
    ensures
        r@ == changes_at(changes@, first_occurrences(change_paths(changes@))),
{
    let ghost cp = change_paths(changes@);
    let mut seen = PathRegistry::new();
    let mut r: Vec<FolderChangeEntry> = Vec::new();
    let mut i: usize = 0;
    let ghost all = changes@;
    let n = changes.len();
    assert(all.len() == n);
    let mut src = changes;
    let mut rest: Vec<FolderChangeEntry> = Vec::new();
    while src.len() > 0
        invariant
            src.len() + rest.len() == all.len(),
            forall|m: int| 0 <= m < src.len() ==> src@[m] == all[m],
            forall|m: int| 0 <= m < rest.len() ==> rest@[m] == all[all.len() - 1 - m],
        decreases src.len(),
    {
        let c = src.pop().unwrap();
        rest.push(c);
    }
    while rest.len() > 0
        invariant
            i + rest.len() == all.len(),
            all.len() <= usize::MAX,
            cp == change_paths(all),
            forall|m: int| 0 <= m < rest.len() ==> rest@[m] == all[all.len() - 1 - m],
            seen.view() == cp.subrange(0, i as int).to_set(),
            r@ == changes_at(all, first_occurrences(cp.subrange(0, i as int))),
        decreases rest.len(),
    {
        let c = rest.pop().unwrap();
        assert(c == all[i as int]);
        let ghost prefix = cp.subrange(0, i as int);
        proof {
            assert(cp.subrange(0, i + 1).drop_last() =~= prefix);
            assert(cp.subrange(0, i + 1).last() == c.path@);
        }
        let fresh = seen.insert(c.path.clone());
        proof {
            assert(seen.view() =~= cp.subrange(0, i + 1).to_set()) by {
                assert forall|x: Seq<char>| seen.view().contains(x) <==> cp.subrange(0, i + 1).contains(x) by {
                    if x == c.path@ {
                        assert(cp.subrange(0, i + 1)[i as int] == x);
                    }
                    if prefix.contains(x) {
                        let k = choose|k: int| 0 <= k < prefix.len() && prefix[k] == x;
                        assert(cp.subrange(0, i + 1)[k] == x);
                    }
                    let ps = cp.subrange(0, i + 1);
                    if ps.contains(x) && x != c.path@ {
                        let k = choose|k: int| 0 <= k < ps.len() && ps[k] == x;
                        assert(prefix[k] == x);
                    }
                }
            }
        }
        if fresh {
            r.push(c);
            proof {
                assert(r@ =~= changes_at(all, first_occurrences(cp.subrange(0, i + 1))));
            }
        }
        i = i + 1;
    }
    assert(cp.subrange(0, i as int) =~= cp);
    r
}

/// After dropping repeats, no two changes share a path, and every path that
/// was reported is still reported.
pub proof fn lemma_dedupe_distinct_paths(changes: Seq<FolderChangeEntry>)
    ensures
        change_paths(changes_at(changes, first_occurrences(change_paths(changes)))).no_duplicates(),
        change_paths(changes_at(changes, first_occurrences(change_paths(changes)))).to_set()
            == change_paths(changes).to_set(),
{
    let cp = change_paths(changes);
    lemma_first_occurrence_paths(cp);
    lemma_first_occurrences_bounds(cp);
    let fo = first_occurrences(cp);
    assert(change_paths(changes_at(changes, fo)) =~= fo.map_values(|i: int| cp[i]));
}

proof fn lemma_first_occurrence_paths(paths: Seq<Seq<char>>)
    ensures
        first_occurrences(paths).map_values(|i: int| paths[i]).no_duplicates(),
        first_occurrences(paths).map_values(|i: int| paths[i]).to_set() == paths.to_set(),
    decreases paths.len(),
{
    if paths.len() > 0 {
        let init = paths.drop_last();
        lemma_first_occurrence_paths(init);
        lemma_first_occurrences_bounds(init);
        let prev = first_occurrences(init);
        let pv = prev.map_values(|i: int| init[i]);
        let pw = prev.map_values(|i: int| paths[i]);
        assert(pv =~= pw) by {
            assert forall|k: int| 0 <= k < prev.len() implies pv[k] == pw[k] by {
                assert(0 <= prev[k] < init.len());
            }
        }
        let cur = first_occurrences(paths).map_values(|i: int| paths[i]);
        if init.contains(paths.last()) {
            assert(cur =~= pw);
            assert(paths.to_set() =~= init.to_set()) by {
                assert forall|x: Seq<char>| paths.contains(x) <==> init.contains(x) by {
                    if paths.contains(x) {
                        let k = choose|k: int| 0 <= k < paths.len() && paths[k] == x;
                        if k < init.len() {
                            assert(init[k] == x);
                        }
                    }
                    if init.contains(x) {
                        let k = choose|k: int| 0 <= k < init.len() && init[k] == x;
                        assert(paths[k] == x);
                    }
                }
            }
        } else {
            assert(cur =~= pw.push(paths.last()));
            assert(!pw.contains(paths.last())) by {
                if pw.contains(paths.last()) {
                    assert(pw.to_set().contains(paths.last()));
                }
            }
            assert forall|a: int, b: int| 0 <= a < cur.len() && 0 <= b < cur.len() && a != b implies cur[a] != cur[b] by {
                if a == pw.len() {
                    assert(pw.contains(cur[b]));
                } else if b == pw.len() {
                    assert(pw.contains(cur[a]));
                }
            }
            assert(cur.to_set() =~= paths.to_set()) by {
                assert forall|x: Seq<char>| cur.contains(x) <==> paths.contains(x) by {
                    if cur.contains(x) && x != paths.last() {
                        let k = choose|k: int| 0 <= k < cur.len() && cur[k] == x;
                        assert(pw[k] == x);
                        assert(pw.to_set().contains(x));
                        let j = choose|j: int| 0 <= j < init.len() && init[j] == x;
                        assert(paths[j] == x);
                    }
                    if x == paths.last() {
                        assert(cur[pw.len() as int] == x);
                        assert(paths[paths.len() - 1] == x);
                    }
                    if paths.contains(x) && x != paths.last() {
                        let j = choose|j: int| 0 <= j < paths.len() && paths[j] == x;
                        assert(init[j] == x);
                        assert(init.to_set().contains(x));
                        assert(pw.to_set().contains(x));
                        let k = choose|k: int| 0 <= k < pw.len() && pw[k] == x;
                        assert(cur[k] == x);
                    }
                }
            }
        }
    } else {
        assert(first_occurrences(paths).map_values(|i: int| paths[i]) =~= Seq::<Seq<char>>::empty());
        assert(paths.to_set() =~= Set::<Seq<char>>::empty());
    }
}

} // verus!

verus! {

/// Whether a file name, if there is one, carries a markdown extension.
pub open spec fn name_is_markdown(name: Option<Seq<char>>) -> bool {
    name is Some && is_markdown_name(name->0)
}

/// Whether any flag is set.
pub open spec fn any_set(flags: Seq<bool>) -> bool {
    exists|i: int| 0 <= i < flags.len() && flags[i]
}

/// Whether the file name of `p` carries a markdown extension. The file name is
/// taken by `Path::file_name`: the final name of a plain path.
fn path_has_markdown_ext(p: &str) -> (r: bool)
    ensures
        exists|name: Option<Seq<char>>| #![trigger name_is_markdown(name)] r == name_is_markdown(name),
        plain_path(p@) ==> r == is_markdown_name(final_name(p@)),
        tail_named(p@) && last_dot(final_segment(p@)) > 0 ==> r == is_markdown_name(final_segment(p@)),
{
    match path_file_name(p) {
        Some(n) => {
            proof {
                if tail_named(p@) && last_dot(final_segment(p@)) > 0 {
                    lemma_extension_of_suffix(n@, final_segment(p@));
                }
            }
            let r = is_markdown_name_exec(n.as_str());
            assert(r == name_is_markdown(Some(n@)));
            r
        },
        None => {
            assert(!name_is_markdown(None));
            false
        },
    }
}

/// Whether any event touched the path `current`: whether `Path` equality
/// holds between `current` and some event's path (the flags below, one per
/// event). An event with exactly the path `current` always counts, and with
/// no events nothing is touched.
pub fn touches(events: &Vec<FsEvent>, current: &str) -> (r: bool)
    ensures
        exists|flags: Seq<bool>|
            #![trigger any_set(flags)]
            {
                &&& flags.len() == events@.len()
                &&& forall|i: int| 0 <= i < flags.len() && events@[i].path@ == current@ ==> #[trigger] flags[i]
                &&& r == any_set(flags)
            },
        (exists|i: int| 0 <= i < events@.len() && (#[trigger] events@[i]).path@ == current@) ==> r,
        events@.len() == 0 ==> !r,
        plain_path(current@) && (forall|i: int| 0 <= i < events@.len() ==> plain_path((#[trigger] events@[i]).path@))
            ==> (r <==> exists|i: int| 0 <= i < events@.len() && (#[trigger] events@[i]).path@ == current@),
{
    let mut flags: Vec<bool> = Vec::new();
    let mut r = false;
    let mut i: usize = 0;
    while i < events.len()
        invariant
            i <= events.len(),
            flags@.len() == i,
            forall|m: int| 0 <= m < i && events@[m].path@ == current@ ==> #[trigger] flags@[m],
            forall|m: int|
                0 <= m < i && plain_path(current@) && plain_path(events@[m].path@) && #[trigger] flags@[m] ==> events@[m].path@
                    == current@,
            r == any_set(flags@),
        decreases events.len() - i,
    {
        let f = paths_equal(events[i].path.as_str(), current);
        let ghost before = flags@;
        flags.push(f);
        proof {
            assert forall|m: int| 0 <= m < i + 1 && events@[m].path@ == current@ implies #[trigger] flags@[m] by {
                if m < i {
                    assert(flags@[m] == before[m]);
                }
            }
            assert forall|m: int|
                0 <= m < i + 1 && plain_path(current@) && plain_path(events@[m].path@) && #[trigger] flags@[m] implies events@[m].path@
                    == current@ by {
                if m < i {
                    assert(flags@[m] == before[m]);
                }
            }
            if any_set(before) {
                let k = choose|k: int| 0 <= k < before.len() && before[k];
                assert(flags@[k]);
            }
            if f {
                assert(flags@[i as int]);
            }
            if any_set(flags@) {
                let k = choose|k: int| 0 <= k < flags@.len() && flags@[k];
                if k < i {
                    assert(before[k]);
                }
            }
        }
        r = r || f;
        i = i + 1;
    }
    proof {
        if exists|j: int| 0 <= j < events@.len() && (#[trigger] events@[j]).path@ == current@ {
            let j = choose|j: int| 0 <= j < events@.len() && (#[trigger] events@[j]).path@ == current@;
            assert(flags@[j]);
        }
        if r && plain_path(current@) && (forall|i: int| 0 <= i < events@.len() ==> plain_path((#[trigger] events@[i]).path@)) {
            let k = choose|k: int| 0 <= k < flags@.len() && flags@[k];
            assert(events@[k].path@ == current@);
        }
    }
    r
}

/// What one batch of folder-watcher events amounts to.
pub struct FolderBatch {
    /// Some event touched the open file.
    pub current_touched: bool,
    /// The changes to report, at most one per path.
    pub changes: Vec<FolderChangeEntry>,
}

/// Whether a change was reported for a file that an event found on disk.
pub open spec fn from_file_event(c: FolderChangeEntry, events: Seq<FsEvent>) -> bool {
    exists|i: int| 0 <= i < events.len() && (#[trigger] events[i]).is_file && c.path@ == display_path_spec(events[i].path@)
}

/// Events that agree with one state of the disk: one answer per path, a file
/// exists, and nothing exists beneath a path that does not.
pub open spec fn consistent_batch(events: Seq<FsEvent>) -> bool {
    &&& forall|i: int, j: int|
        0 <= i < events.len() && 0 <= j < events.len() && #[trigger] events[i].path@ == #[trigger] events[j].path@
            ==> events[i].is_file == events[j].is_file && events[i].exists == events[j].exists
    &&& forall|i: int| 0 <= i < events.len() && (#[trigger] events[i]).is_file ==> events[i].exists
    &&& forall|i: int, j: int|
        0 <= i < events.len() && 0 <= j < events.len() && !(#[trigger] events[i]).exists && under(
            (#[trigger] events[j]).path@,
            events[i].path@,
        ) ==> !events[j].exists
}

/// The open file, every event's path and every registered path are plain.
pub open spec fn plain_batch(events: Seq<FsEvent>, current: Seq<char>, registered: Set<Seq<char>>) -> bool {
    &&& plain_path(current)
    &&& forall|i: int| 0 <= i < events.len() ==> plain_path((#[trigger] events[i]).path@)
    &&& forall|q: Seq<char>| #[trigger] registered.contains(q) ==> plain_path(q)
}

/// Event `i` finds a markdown file at a plain path other than the open file.
pub open spec fn creates(events: Seq<FsEvent>, current: Seq<char>, i: int) -> bool {
    &&& events[i].path@ != current
    &&& events[i].is_file
    &&& is_markdown_name(final_name(events[i].path@))
}

/// Event `i` finds nothing at a path other than the open file.
pub open spec fn deletes(events: Seq<FsEvent>, current: Seq<char>, i: int) -> bool {
    events[i].path@ != current && !events[i].exists
}

/// Some change for the path `p` with the given `exists`.
pub open spec fn reported(changes: Seq<FolderChangeEntry>, p: Seq<char>, ex: bool) -> bool {
    exists|j: int| 0 <= j < changes.len() && (#[trigger] changes[j]).path@ == p && changes[j].exists == ex
}

/// Some event creates the path `p`.
pub open spec fn created_path(events: Seq<FsEvent>, current: Seq<char>, p: Seq<char>) -> bool {
    exists|i: int| 0 <= i < events.len() && #[trigger] creates(events, current, i) && events[i].path@ == p
}

/// Some event among the first `upto` deletes `q` or a folder holding it.
pub open spec fn beneath_deleted(events: Seq<FsEvent>, current: Seq<char>, q: Seq<char>, upto: int) -> bool {
    exists|i: int|
        0 <= i < upto && #[trigger] deletes(events, current, i) && (q == events[i].path@ || under(q, events[i].path@))
}

/// Some event deletes the path `p`, whose name is a markdown name.
pub open spec fn deleted_markdown(events: Seq<FsEvent>, current: Seq<char>, p: Seq<char>) -> bool {
    exists|i: int|
        0 <= i < events.len() && #[trigger] deletes(events, current, i) && events[i].path@ == p && is_markdown_name(
            final_name(p),
        )
}

/// A change for a plain path carries its final name; one for a present file
/// carries the folder chain under the open folder (plain), none without one;
/// one for a gone file carries no chain.
pub open spec fn entry_shape(c: FolderChangeEntry, folder_root: Option<Seq<char>>) -> bool {
    &&& c.name@ == final_name(c.path@)
    &&& c.exists ==> match folder_root {
        Some(r) => plain_path(r) ==> chain_names(c.path_chain@) == path_chain_names(r, c.path@) && chain_joined(
            r,
            c.path_chain@,
        ),
        None => c.path_chain@.len() == 0,
    }
    &&& !c.exists ==> c.path_chain@.len() == 0
}

/// The folder root as a character sequence, if any.
pub open spec fn root_view(folder_root: Option<String>) -> Option<Seq<char>> {
    match folder_root {
        Some(r) => Some(r@),
        None => None,
    }
}

/// The changes of several steps, one after another.
pub open spec fn flatten(s: Seq<Seq<FolderChangeEntry>>) -> Seq<FolderChangeEntry>
    decreases s.len(),
{
    if s.len() == 0 {
        Seq::empty()
    } else {
        flatten(s.drop_last()) + s.last()
    }
}

/// The registered paths, in stored order, after registering `p`.
pub open spec fn insert_entry(s: Seq<Seq<char>>, p: Seq<char>) -> Seq<Seq<char>> {
    if s.contains(p) {
        s
    } else {
        s.push(p)
    }
}

/// `added` reports, in order, that the paths `gone` went away: each with its
/// displayed path, no chain, and (for a plain path) its final name.
pub open spec fn removal_changes(gone: Seq<Seq<char>>, added: Seq<FolderChangeEntry>) -> bool {
    &&& added.len() == gone.len()
    &&& forall|i: int|
        0 <= i < gone.len() ==> {
            &&& (#[trigger] added[i]).path@ == display_path_spec(gone[i])
            &&& !added[i].exists
            &&& added[i].path_chain@.len() == 0
            &&& plain_path(gone[i]) ==> added[i].name@ == final_name(gone[i])
        }
}

/// What `Path::starts_with` may have answered for each registered path against
/// a deleted path `p`: the path itself counts, and on plain paths exactly the
/// paths at or beneath `p` count.
pub open spec fn removal_flags(before: Seq<Seq<char>>, p: Seq<char>, flags: Seq<bool>) -> bool {
    &&& flags.len() == before.len()
    &&& forall|i: int| 0 <= i < flags.len() && before[i] == p ==> #[trigger] flags[i]
    &&& forall|i: int|
        0 <= i < flags.len() && plain_path(p) && plain_path(before[i]) ==> (#[trigger] flags[i] <==> (before[i] == p
            || under(before[i], p)))
}

/// One event applied to the registered paths `before` (giving `after`), with
/// the changes it adds, given what the path calls answered for it: whether it
/// is the open file (`is_cur`), whether its name is a markdown name (`md`),
/// its file name and folder chain (used when it is a created file), and which
/// registered paths lie beneath it (`flags`, used when it deletes).
/// - a created markdown file is registered and reported present;
/// - a path found gone takes out and reports the flagged paths, then, if its
///   name is a markdown name, is reported gone itself;
/// - any other event changes nothing.
pub open spec fn event_step(
    before: Seq<Seq<char>>,
    after: Seq<Seq<char>>,
    added: Seq<FolderChangeEntry>,
    e: FsEvent,
    is_cur: bool,
    md: bool,
    name: Seq<char>,
    chain: Seq<DirAncestor>,
    flags: Seq<bool>,
) -> bool {
    if !is_cur && e.is_file && md {
        &&& after == insert_entry(before, e.path@)
        &&& added.len() == 1
        &&& added[0].path@ == display_path_spec(e.path@)
        &&& added[0].name@ == name
        &&& added[0].exists
        &&& added[0].path_chain@ == chain
    } else if !is_cur && !e.exists {
        let gone = keep_flagged(before, flags);
        &&& removal_flags(before, e.path@, flags)
        &&& after == keep_flagged(before, negated(flags))
        &&& added.len() == gone.len() + if md {
            1int
        } else {
            0int
        }
        &&& removal_changes(gone, added.subrange(0, gone.len() as int))
        &&& md ==> removal_changes(seq![e.path@], added.subrange(gone.len() as int, added.len() as int))
    } else {
        &&& after == before
        &&& added.len() == 0
    }
}

/// What the path calls answered for one event, as far as it is stated: the
/// markdown test on a plain path is that of its final name, and on any path
/// whose last component every platform reads alike and holds a `.` after its
/// first character (`C:\docs\a.md` among them), that of what follows its last
/// separator; a created file's
/// name is, on a plain path, its final name, and its chain, under a plain
/// open folder, that of `compute_path_chain` (none without an open folder).
pub open spec fn event_answers(
    e: FsEvent,
    is_cur: bool,
    md: bool,
    name: Seq<char>,
    chain: Seq<DirAncestor>,
    folder_root: Option<Seq<char>>,
) -> bool {
    &&& plain_path(e.path@) ==> md == is_markdown_name(final_name(e.path@))
    &&& tail_named(e.path@) && last_dot(final_segment(e.path@)) > 0 ==> md == is_markdown_name(final_segment(e.path@))
    &&& (!is_cur && e.is_file && md) ==> {
        &&& plain_path(e.path@) ==> name == final_name(e.path@)
        &&& match folder_root {
            Some(r) => plain_path(r) && plain_path(e.path@) ==> chain_names(chain) == path_chain_names(r, e.path@)
                && chain_joined(r, chain),
            None => chain.len() == 0,
        }
    }
}

/// A whole batch, for any paths, over what the path calls answered: the
/// per-event answers (`is_cur` from path equality with the open file, the
/// markdown tests, names, chains and removal flags), the registered paths
/// after the open file's removal (`states[0]`) and after each event, the
/// changes each event adds, and the open file's own removal change (`first`).
/// The open file is dropped when an event touched it and it is no longer a
/// file; the reported changes are the first for each path among `first`
/// followed by every event's changes.
pub open spec fn batch_run(
    events: Seq<FsEvent>,
    current: Seq<char>,
    current_is_file: bool,
    folder_root: Option<Seq<char>>,
    old_entries: Seq<Seq<char>>,
    final_entries: Seq<Seq<char>>,
    touched: bool,
    reported_changes: Seq<FolderChangeEntry>,
    is_cur: Seq<bool>,
    md: Seq<bool>,
    names: Seq<Seq<char>>,
    chains: Seq<Seq<DirAncestor>>,
    flags: Seq<Seq<bool>>,
    states: Seq<Seq<Seq<char>>>,
    adds: Seq<Seq<FolderChangeEntry>>,
    first: Seq<FolderChangeEntry>,
) -> bool {
    let n = events.len();
    let drop_current = touched && !current_is_file;
    let all = first + flatten(adds);
    &&& is_cur.len() == n && md.len() == n && names.len() == n && chains.len() == n
    &&& flags.len() == n && adds.len() == n && states.len() == n + 1
    &&& forall|i: int| 0 <= i < n && events[i].path@ == current ==> #[trigger] is_cur[i]
    &&& forall|i: int|
        0 <= i < n && plain_path(current) && plain_path(events[i].path@) ==> (#[trigger] is_cur[i] <==> events[i].path@
            == current)
    &&& touched == any_set(is_cur)
    &&& drop_current ==> removal_changes(seq![current], first)
    &&& !drop_current ==> first.len() == 0
    &&& drop_current && old_entries.contains(current) ==> exists|j: int|
        0 <= j < old_entries.len() && old_entries[j] == current && states[0] == old_entries.remove(j)
    &&& !(drop_current && old_entries.contains(current)) ==> states[0] == old_entries
    &&& forall|i: int|
        0 <= i < n ==> #[trigger] event_answers(events[i], is_cur[i], md[i], names[i], chains[i], folder_root)
    &&& forall|i: int|
        0 <= i < n ==> #[trigger] event_step(
            states[i],
            states[i + 1],
            adds[i],
            events[i],
            is_cur[i],
            md[i],
            names[i],
            chains[i],
            flags[i],
        )
    &&& final_entries == states[n as int]
    &&& reported_changes == changes_at(all, first_occurrences(change_paths(all)))
}

/// Removing a deleted plain path twice removes nothing the second time: once
/// the registered plain paths at or beneath it are taken out, a second
/// removal flags none of what is left, keeps it all and reports nothing.
pub proof fn lemma_removal_idempotent(before: Seq<Seq<char>>, p: Seq<char>, flags: Seq<bool>, flags2: Seq<bool>)
    requires
        plain_path(p),
        forall|i: int| 0 <= i < before.len() ==> plain_path(#[trigger] before[i]),
        removal_flags(before, p, flags),
        removal_flags(keep_flagged(before, negated(flags)), p, flags2),
    ensures
        keep_flagged(keep_flagged(before, negated(flags)), negated(flags2)) == keep_flagged(before, negated(flags)),
        keep_flagged(keep_flagged(before, negated(flags)), flags2).len() == 0,
{
    let after = keep_flagged(before, negated(flags));
    assert(negated(flags).len() == before.len());
    assert forall|i: int| 0 <= i < flags2.len() implies !#[trigger] flags2[i] by {
        let x = after[i];
        assert(after.contains(x));
        lemma_keep_flagged_members(before, negated(flags), x);
        let j = choose|j: int| 0 <= j < before.len() && before[j] == x && negated(flags)[j];
        assert(!flags[j]);
    }
    assert(negated(flags2).len() == after.len());
    assert forall|i: int| 0 <= i < negated(flags2).len() implies #[trigger] negated(flags2)[i] by {
        assert(!flags2[i]);
    }
    lemma_keep_flagged_selects(after, negated(flags2), Seq::empty());
    lemma_keep_flagged_selects(after, flags2, Seq::empty());
}

/// Changes only grow at their end: what was reported stays reported.
proof fn lemma_reported_grows(before: Seq<FolderChangeEntry>, after: Seq<FolderChangeEntry>)
    requires
        before.len() <= after.len(),
        forall|j: int| 0 <= j < before.len() ==> after[j] == before[j],
    ensures
        forall|p: Seq<char>, ex: bool| reported(before, p, ex) ==> #[trigger] reported(after, p, ex),
{
    assert forall|p: Seq<char>, ex: bool| reported(before, p, ex) implies #[trigger] reported(after, p, ex) by {
        let j = choose|j: int| 0 <= j < before.len() && (#[trigger] before[j]).path@ == p && before[j].exists == ex;
        assert(after[j] == before[j]);
    }
}

/// In a consistent batch a path that one event creates is neither a path that
/// another deletes nor beneath one.
proof fn lemma_no_clash(events: Seq<FsEvent>, current: Seq<char>, c: int, d: int)
    requires
        consistent_batch(events),
        0 <= c < events.len(),
        0 <= d < events.len(),
        events[c].is_file,
        !events[d].exists,
    ensures
        events[c].path@ != events[d].path@,
        !under(events[c].path@, events[d].path@),
{
    if events[c].path@ == events[d].path@ {
        assert(events[c].exists == events[d].exists);
    }
    if under(events[c].path@, events[d].path@) {
        assert(!events[c].exists);
    }
}

/// Turns a batch of filesystem events under the open folder into changes for
/// the navigation tree, keeping the registry of known markdown files current:
/// - if the open file `current` was touched and is no longer a file, it is
///   reported gone and dropped from the registry;
/// - every other event path that is now a markdown file is reported present
///   (with its folder chain under `folder_root`) and registered;
/// - every other event path that no longer exists is reported gone together
///   with every registered file beneath it (`removed_folder_change_entries`),
///   and, if it looks like a markdown file, itself;
/// - of several changes for one path only the first is kept.
/// For any paths the contract states the whole batch (`batch_run`) over what
/// the path calls answered for each event. Where all paths are plain and the
/// events agree with one state of the disk, it also states each of these
/// outright, and that no other change is reported.
#[verifier::rlimit(100)]
pub fn folder_batch(
    events: &Vec<FsEvent>,
    current: &str,
    current_is_file: bool,
    folder_root: &Option<String>,
    registry: &mut PathRegistry,
) -> (b: FolderBatch)
    ensures
        (exists|i: int| 0 <= i < events@.len() && (#[trigger] events@[i]).path@ == current@) ==> b.current_touched,
        b.current_touched && !current_is_file ==> !final(registry).view().contains(current@),
        forall|p: Seq<char>|
            #[trigger] final(registry).view().contains(p) ==> old(registry).view().contains(p) || exists|i: int|
                0 <= i < events@.len() && (#[trigger] events@[i]).is_file && events@[i].path@ == p,
        change_paths(b.changes@).no_duplicates(),
        forall|k: int| 0 <= k < b.changes@.len() && (#[trigger] b.changes@[k]).exists ==> from_file_event(b.changes@[k], events@),
        exists|
            is_cur: Seq<bool>,
            md: Seq<bool>,
            names: Seq<Seq<char>>,
            chains: Seq<Seq<DirAncestor>>,
            flags: Seq<Seq<bool>>,
            states: Seq<Seq<Seq<char>>>,
            adds: Seq<Seq<FolderChangeEntry>>,
            first: Seq<FolderChangeEntry>,
        |
            #![trigger batch_run(events@, current@, current_is_file, root_view(*folder_root), old(registry).entries(), final(registry).entries(), b.current_touched, b.changes@, is_cur, md, names, chains, flags, states, adds, first)]
            batch_run(events@, current@, current_is_file, root_view(*folder_root), old(registry).entries(), final(registry).entries(), b.current_touched, b.changes@, is_cur, md, names, chains, flags, states, adds, first),
        plain_batch(events@, current@, old(registry).view()) && consistent_batch(events@) ==> {
            &&& b.current_touched <==> exists|i: int| 0 <= i < events@.len() && (#[trigger] events@[i]).path@ == current@
            &&& forall|i: int|
                0 <= i < events@.len() && #[trigger] creates(events@, current@, i) ==> final(registry).view().contains(
                    events@[i].path@,
                ) && reported(b.changes@, events@[i].path@, true)
            &&& forall|i: int, q: Seq<char>|
                0 <= i < events@.len() && #[trigger] deletes(events@, current@, i) && #[trigger] old(registry).view().contains(q)
                    && (q == events@[i].path@ || under(q, events@[i].path@)) ==> !final(registry).view().contains(q)
                    && reported(b.changes@, q, false)
            &&& forall|i: int|
                0 <= i < events@.len() && #[trigger] deletes(events@, current@, i) && is_markdown_name(final_name(events@[i].path@))
                    ==> reported(b.changes@, events@[i].path@, false)
            &&& b.current_touched && !current_is_file ==> reported(b.changes@, current@, false)
            &&& forall|k: int|
                0 <= k < b.changes@.len() ==> entry_shape(#[trigger] b.changes@[k], root_view(*folder_root))
            &&& forall|k: int|
                0 <= k < b.changes@.len() && (#[trigger] b.changes@[k]).exists ==> created_path(events@, current@, b.changes@[k].path@)
            &&& forall|k: int|
                0 <= k < b.changes@.len() && !(#[trigger] b.changes@[k]).exists ==> (b.changes@[k].path@ == current@
                    && b.current_touched && !current_is_file) || (old(registry).view().contains(b.changes@[k].path@)
                    && beneath_deleted(events@, current@, b.changes@[k].path@, events@.len() as int))
                    || deleted_markdown(events@, current@, b.changes@[k].path@)
            &&& forall|q: Seq<char>|
                #[trigger] old(registry).view().contains(q) && !final(registry).view().contains(q) ==> (q == current@
                    && b.current_touched && !current_is_file) || beneath_deleted(events@, current@, q, events@.len() as int)
        },
{
    let ghost h = plain_batch(events@, current@, old(registry).view()) && consistent_batch(events@);
    let ghost ev = events@;
    let ghost cur = current@;
    let ghost root = root_view(*folder_root);
    let mut is_current: Vec<bool> = Vec::new();
    let mut touched = false;
    let mut i: usize = 0;
    while i < events.len()
        invariant
            i <= events.len(),
            is_current.len() == i,
            forall|m: int| 0 <= m < i ==> (#[trigger] events@[m]).path@ == current@ ==> is_current@[m],
            forall|m: int| 0 <= m < i ==> #[trigger] is_current@[m] ==> touched,
            h ==> forall|m: int| 0 <= m < i ==> (#[trigger] is_current@[m] <==> events@[m].path@ == current@),
            h ==> (touched ==> exists|m: int| 0 <= m < i && (#[trigger] events@[m]).path@ == current@),
            h == (plain_batch(events@, current@, registry.view()) && consistent_batch(events@)),
            forall|m: int|
                0 <= m < i && plain_path(current@) && plain_path(events@[m].path@) ==> (#[trigger] is_current@[m]
                    <==> events@[m].path@ == current@),
            touched == any_set(is_current@),
        decreases events.len() - i,
    {
        let c = paths_equal(events[i].path.as_str(), current);
        let ghost old_flags = is_current@;
        is_current.push(c);
        touched = touched || c;
        proof {
            assert forall|m: int|
                0 <= m < i + 1 && plain_path(current@) && plain_path(events@[m].path@) implies (#[trigger] is_current@[m]
                <==> events@[m].path@ == current@) by {
                if m < i {
                    assert(is_current@[m] == old_flags[m]);
                }
            }
            if any_set(old_flags) {
                let w = choose|w: int| 0 <= w < old_flags.len() && old_flags[w];
                assert(is_current@[w]);
            }
            if c {
                assert(is_current@[i as int]);
            }
            if any_set(is_current@) {
                let w = choose|w: int| 0 <= w < is_current@.len() && is_current@[w];
                if w < i {
                    assert(old_flags[w]);
                }
            }
            assert forall|m: int| 0 <= m < i + 1 && #[trigger] is_current@[m] implies touched by {
                if m < i {
                    assert(is_current@[m] == old_flags[m]);
                }
            }
            if h {
                assert(plain_path(events@[i as int].path@));
                assert forall|m: int| 0 <= m < i + 1 implies (#[trigger] is_current@[m] <==> events@[m].path@ == current@) by {
                    if m < i {
                        assert(is_current@[m] == old_flags[m]);
                    }
                }
                if c {
                    assert(events@[i as int].path@ == current@);
                }
            }
        }
        i = i + 1;
    }
    proof {
        if exists|m: int| 0 <= m < events@.len() && (#[trigger] events@[m]).path@ == current@ {
            let m = choose|m: int| 0 <= m < events@.len() && (#[trigger] events@[m]).path@ == current@;
            assert(is_current@[m]);
        }
        if h {
            lemma_plain_displayed(current@);
        }
    }
    let ghost old_reg = registry.view();
    let ghost old_entries = registry.entries();
    assert(old_entries == old(registry).entries());
    let mut changes: Vec<FolderChangeEntry> = Vec::new();
    if touched && !current_is_file {
        registry.remove(current);
        changes.push(removal_entry(current));
        proof {
            if h {
                assert(changes@[0].path@ == current@);
            }
        }
    }
    let ghost removed_current = touched && !current_is_file;
    let ghost start = registry.entries();
    let ghost first = changes@;
    proof {
        if removed_current {
            assert(removal_changes(seq![current@], first)) by {
                assert(seq![current@][0] == current@);
            }
        }
    }
    let ghost mut g_md: Seq<bool> = Seq::empty();
    let ghost mut g_names: Seq<Seq<char>> = Seq::empty();
    let ghost mut g_chains: Seq<Seq<DirAncestor>> = Seq::empty();
    let ghost mut g_flags: Seq<Seq<bool>> = Seq::empty();
    let ghost mut g_states: Seq<Seq<Seq<char>>> = seq![start];
    let ghost mut g_adds: Seq<Seq<FolderChangeEntry>> = Seq::empty();
    assert(changes@ =~= first + flatten(g_adds));
    let mut k: usize = 0;
    while k < events.len()
        invariant
            k <= events.len(),
            ev == events@,
            cur == current@,
            root == root_view(*folder_root),
            removed_current == (touched && !current_is_file),
            is_current.len() == events.len(),
            forall|m: int| 0 <= m < events.len() ==> (#[trigger] events@[m]).path@ == current@ ==> is_current@[m],
            h ==> forall|m: int| 0 <= m < events.len() ==> (#[trigger] is_current@[m] <==> events@[m].path@ == current@),
            h == (plain_batch(events@, current@, old_reg) && consistent_batch(events@)),
            touched && !current_is_file ==> !registry.view().contains(current@),
            forall|p: Seq<char>|
                #[trigger] registry.view().contains(p) ==> old_reg.contains(p) || exists|i: int|
                    0 <= i < events@.len() && (#[trigger] events@[i]).is_file && events@[i].path@ == p,
            forall|j: int| 0 <= j < changes@.len() && (#[trigger] changes@[j]).exists ==> from_file_event(changes@[j], events@),
            h ==> forall|q: Seq<char>| #[trigger] registry.view().contains(q) ==> plain_path(q),
            h ==> forall|m: int|
                0 <= m < k && #[trigger] creates(ev, cur, m) ==> registry.view().contains(ev[m].path@) && reported(
                    changes@,
                    ev[m].path@,
                    true,
                ),
            h ==> forall|j: int|
                0 <= j < changes@.len() && !(#[trigger] changes@[j]).exists ==> !created_path(ev, cur, changes@[j].path@),
            h ==> forall|j: int|
                0 <= j < changes@.len() && (#[trigger] changes@[j]).exists ==> created_path(ev, cur, changes@[j].path@),
            h ==> forall|m: int, q: Seq<char>|
                0 <= m < k && #[trigger] deletes(ev, cur, m) && #[trigger] old_reg.contains(q) && (q == ev[m].path@
                    || under(q, ev[m].path@)) ==> !registry.view().contains(q) && reported(changes@, q, false),
            h ==> forall|m: int|
                0 <= m < k && #[trigger] deletes(ev, cur, m) && is_markdown_name(final_name(ev[m].path@)) ==> reported(
                    changes@,
                    ev[m].path@,
                    false,
                ),
            h && removed_current ==> reported(changes@, cur, false),
            h ==> forall|j: int| 0 <= j < changes@.len() ==> entry_shape(#[trigger] changes@[j], root),
            h ==> forall|j: int|
                0 <= j < changes@.len() && !(#[trigger] changes@[j]).exists ==> (changes@[j].path@ == cur
                    && removed_current) || (old_reg.contains(changes@[j].path@) && beneath_deleted(ev, cur, changes@[j].path@, ev.len() as int))
                    || deleted_markdown(
                    ev,
                    cur,
                    changes@[j].path@,
                ),
            h ==> forall|q: Seq<char>|
                #[trigger] old_reg.contains(q) && !registry.view().contains(q) ==> (q == cur && removed_current)
                    || beneath_deleted(ev, cur, q, k as int),
            h ==> (touched ==> exists|m: int| 0 <= m < events@.len() && (#[trigger] events@[m]).path@ == current@),
            forall|m: int|
                0 <= m < events.len() && plain_path(current@) && plain_path(events@[m].path@) ==> (
                #[trigger] is_current@[m] <==> events@[m].path@ == current@),
            touched == any_set(is_current@),
            removed_current ==> removal_changes(seq![cur], first),
            !removed_current ==> first.len() == 0,
            removed_current && old_entries.contains(cur) ==> exists|j: int|
                0 <= j < old_entries.len() && old_entries[j] == cur && start == old_entries.remove(j),
            !(removed_current && old_entries.contains(cur)) ==> start == old_entries,
            g_md.len() == k && g_names.len() == k && g_chains.len() == k && g_flags.len() == k,
            g_adds.len() == k && g_states.len() == k + 1,
            g_states[0] == start,
            g_states[k as int] == registry.entries(),
            changes@ == first + flatten(g_adds),
            forall|m: int|
                0 <= m < k ==> #[trigger] event_answers(ev[m], is_current@[m], g_md[m], g_names[m], g_chains[m], root),
            forall|m: int|
                0 <= m < k ==> #[trigger] event_step(
                    g_states[m],
                    g_states[m + 1],
                    g_adds[m],
                    ev[m],
                    is_current@[m],
                    g_md[m],
                    g_names[m],
                    g_chains[m],
                    g_flags[m],
                ),
        decreases events.len() - k,
    {
        let ghost before = registry.view();
        let ghost old_changes = changes@;
        let ghost kk = k as int;
        let ghost before_entries = registry.entries();
        let ghost mut name_k: Seq<char> = Seq::empty();
        let ghost mut chain_k: Seq<DirAncestor> = Seq::empty();
        let ghost mut flags_k: Seq<bool> = Seq::empty();
        let skip = is_current[k];
        let e = &events[k];
        let md = path_has_markdown_ext(e.path.as_str());
        if !skip && e.is_file && md {
            let chain = match folder_root {
                Some(rt) => {
                    let c = compute_path_chain(rt.as_str(), e.path.as_str());
                    proof {
                        assert(root == Some(rt@));
                    }
                    c
                },
                None => Vec::new(),
            };
            let ghost chain_v = chain@;
            proof {
                assert(match root {
                    Some(r) => plain_path(r) && plain_path(e.path@) ==> chain_names(chain_v) == path_chain_names(r, e.path@) && chain_joined(
                        r,
                        chain_v,
                    ),
                    None => chain_v.len() == 0,
                });
            }
            registry.insert(e.path.clone());
            proof {
                assert forall|p: Seq<char>| #[trigger] registry.view().contains(p) implies old_reg.contains(p) || exists|i: int|
                    0 <= i < events@.len() && (#[trigger] events@[i]).is_file && events@[i].path@ == p by {
                    if p == e.path@ {
                        assert(events@[k as int].is_file && events@[k as int].path@ == p);
                    } else {
                        assert(before.contains(p));
                    }
                }
            }
            let name = match path_file_name(e.path.as_str()) {
                Some(n) => n,
                None => String::new(),
            };
            let c = FolderChangeEntry { path: display_path(e.path.as_str()), name, exists: true, path_chain: chain };
            proof {
                assert(events@[k as int].is_file && c.path@ == display_path_spec(events@[k as int].path@));
            }
            changes.push(c);
            proof {
                name_k = changes@.last().name@;
                chain_k = changes@.last().path_chain@;
                assert(chain_k == chain_v);
                assert(plain_path(e.path@) ==> name_k == final_name(e.path@));
                assert(changes@ =~= old_changes.push(changes@.last()));
                assert forall|j: int| 0 <= j < changes@.len() && (#[trigger] changes@[j]).exists implies from_file_event(changes@[j], events@) by {
                    if j < old_changes.len() {
                        assert(changes@[j] == old_changes[j]);
                    }
                }
                lemma_reported_grows(old_changes, changes@);
                if h {
                    assert(plain_path(ev[kk].path@));
                    lemma_plain_displayed(ev[kk].path@);
                    assert(creates(ev, cur, kk));
                    assert(changes@[old_changes.len() as int] == c);
                    assert(reported(changes@, ev[kk].path@, true));
                    assert(created_path(ev, cur, c.path@));
                    assert(entry_shape(c, root));
                    assert forall|q: Seq<char>| #[trigger] registry.view().contains(q) implies plain_path(q) by {
                        if q != ev[kk].path@ {
                            assert(before.contains(q));
                        }
                    }
                    assert forall|m: int|
                        0 <= m < k + 1 && #[trigger] creates(ev, cur, m) implies registry.view().contains(ev[m].path@)
                            && reported(changes@, ev[m].path@, true) by {
                        if m < k {
                            assert(before.contains(ev[m].path@));
                        }
                    }
                    assert forall|j: int|
                        0 <= j < changes@.len() && !(#[trigger] changes@[j]).exists implies !created_path(
                            ev,
                            cur,
                            changes@[j].path@,
                        ) by {
                        assert(changes@[j] == old_changes[j]);
                    }
                    assert forall|j: int|
                        0 <= j < changes@.len() && (#[trigger] changes@[j]).exists implies created_path(
                            ev,
                            cur,
                            changes@[j].path@,
                        ) by {
                        if j < old_changes.len() {
                            assert(changes@[j] == old_changes[j]);
                        }
                    }
                    assert forall|m: int, q: Seq<char>|
                        0 <= m < k + 1 && #[trigger] deletes(ev, cur, m) && #[trigger] old_reg.contains(q) && (q
                            == ev[m].path@ || under(q, ev[m].path@)) implies !registry.view().contains(q) && reported(
                            changes@,
                            q,
                            false,
                        ) by {
                        if m < k {
                            if q == ev[kk].path@ {
                                lemma_no_clash(ev, cur, kk, m);
                            }
                        } else {
                            assert(ev[kk].exists);
                        }
                    }
                    assert forall|m: int|
                        0 <= m < k + 1 && #[trigger] deletes(ev, cur, m) && is_markdown_name(final_name(ev[m].path@))
                            implies reported(changes@, ev[m].path@, false) by {
                        if m == k {
                            assert(ev[kk].exists);
                        }
                    }
                    assert forall|j: int| 0 <= j < changes@.len() implies entry_shape(#[trigger] changes@[j], root) by {
                        if j < old_changes.len() {
                            assert(changes@[j] == old_changes[j]);
                        }
                    }
                    assert forall|j: int|
                        0 <= j < changes@.len() && !(#[trigger] changes@[j]).exists implies (changes@[j].path@ == cur
                            && removed_current) || (old_reg.contains(changes@[j].path@) && beneath_deleted(ev, cur, changes@[j].path@, ev.len() as int))
                    || deleted_markdown(
                            ev,
                            cur,
                            changes@[j].path@,
                        ) by {
                        assert(changes@[j] == old_changes[j]);
                    }
                    assert forall|q: Seq<char>|
                        #[trigger] old_reg.contains(q) && !registry.view().contains(q) implies (q == cur
                            && removed_current) || beneath_deleted(ev, cur, q, k + 1) by {
                        assert(!before.contains(q));
                        if beneath_deleted(ev, cur, q, k as int) {
                            let w = choose|w: int|
                                0 <= w < k && #[trigger] deletes(ev, cur, w) && (q == ev[w].path@ || under(q, ev[w].path@));
                            assert(0 <= w < k + 1);
                        }
                    }
                }
            }
        } else if !skip && !e.exists {
            let mut removed = removed_folder_change_entries(e.path.as_str(), registry);
            proof {
                let d = e.path@;
                flags_k = choose|flags: Seq<bool>|
                    #![trigger keep_flagged(before_entries, flags)]
                    {
                        let gone = keep_flagged(before_entries, flags);
                        &&& flags.len() == before_entries.len()
                        &&& forall|i: int| 0 <= i < flags.len() && before_entries[i] == d ==> #[trigger] flags[i]
                        &&& forall|i: int|
                            0 <= i < flags.len() && plain_path(d) && plain_path(before_entries[i]) ==> (
                            #[trigger] flags[i] <==> (before_entries[i] == d || under(before_entries[i], d)))
                        &&& registry.entries() == keep_flagged(before_entries, negated(flags))
                        &&& gone.no_duplicates()
                        &&& gone.to_set() == before.difference(registry.view())
                        &&& removed@.len() == gone.len()
                        &&& forall|i: int|
                            0 <= i < gone.len() ==> {
                                &&& (#[trigger] removed@[i]).path@ == display_path_spec(gone[i])
                                &&& !removed@[i].exists
                                &&& removed@[i].path_chain@.len() == 0
                                &&& plain_path(gone[i]) ==> removed@[i].name@ == final_name(gone[i])
                            }
                    };
                let gone = keep_flagged(before_entries, flags_k);
                assert(removal_flags(before_entries, d, flags_k));
                assert(removal_changes(gone, removed@));
            }
            proof {
                assert forall|p: Seq<char>| #[trigger] registry.view().contains(p) implies old_reg.contains(p) || exists|i: int|
                    0 <= i < events@.len() && (#[trigger] events@[i]).is_file && events@[i].path@ == p by {
                    assert(before.contains(p));
                }
            }
            let ghost rm = choose|rm: Seq<Seq<char>>|
                {
                    &&& rm.no_duplicates()
                    &&& rm.to_set() == before.difference(registry.view())
                    &&& removed@.len() == rm.len()
                    &&& forall|i: int|
                        0 <= i < rm.len() ==> {
                            &&& (#[trigger] removed@[i]).path@ == display_path_spec(rm[i])
                            &&& !removed@[i].exists
                            &&& removed@[i].path_chain@.len() == 0
                            &&& plain_path(rm[i]) ==> removed@[i].name@ == final_name(rm[i])
                        }
                };
            let ghost rm_entries = removed@;
            changes.append(&mut removed);
            let ghost mid = changes@;
            proof {
                assert(mid =~= old_changes + rm_entries);
                assert forall|j: int| 0 <= j < changes@.len() && (#[trigger] changes@[j]).exists implies from_file_event(changes@[j], events@) by {
                    if j < old_changes.len() {
                        assert(changes@[j] == old_changes[j]);
                    } else {
                        assert(changes@[j] == rm_entries[j - old_changes.len()]);
                    }
                }
            }
            if md {
                changes.push(removal_entry(e.path.as_str()));
                proof {
                    assert forall|j: int| 0 <= j < changes@.len() && (#[trigger] changes@[j]).exists implies from_file_event(changes@[j], events@) by {
                        if j < mid.len() {
                            assert(changes@[j] == mid[j]);
                        }
                    }
                }
            }
            proof {
                if h {
                    let d = ev[kk].path@;
                    let after = registry.view();
                    let ol = old_changes.len() as int;
                    assert(plain_path(d));
                    lemma_plain_displayed(d);
                    assert(deletes(ev, cur, kk));
                    assert(forall|j: int| 0 <= j < mid.len() ==> changes@[j] == mid[j]);
                    lemma_reported_grows(old_changes, changes@);
                    // what the removal took out lies at or beneath `d`, and was registered before the batch
                    assert forall|q: Seq<char>| #[trigger] before.contains(q) && !after.contains(q) implies plain_path(q)
                        && (q == d || under(q, d)) && old_reg.contains(q) && !created_path(ev, cur, q) by {
                        if old_reg.contains(q) {
                        } else {
                            let w = choose|w: int| 0 <= w < events@.len() && (#[trigger] events@[w]).is_file && events@[w].path@ == q;
                            lemma_no_clash(ev, cur, w, kk);
                        }
                        if created_path(ev, cur, q) {
                            let w = choose|w: int| 0 <= w < ev.len() && #[trigger] creates(ev, cur, w) && ev[w].path@ == q;
                            lemma_no_clash(ev, cur, w, kk);
                        }
                    }
                    assert forall|i: int| 0 <= i < rm.len() implies #[trigger] changes@[ol + i] == rm_entries[i] && before.contains(
                        rm[i],
                    ) && !after.contains(rm[i]) && rm_entries[i].path@ == rm[i] by {
                        assert(mid[ol + i] == rm_entries[i]);
                        assert(rm.to_set().contains(rm[i]));
                    }
                    assert(!created_path(ev, cur, d)) by {
                        if created_path(ev, cur, d) {
                            let w = choose|w: int| 0 <= w < ev.len() && #[trigger] creates(ev, cur, w) && ev[w].path@ == d;
                            lemma_no_clash(ev, cur, w, kk);
                        }
                    }
                    assert forall|q: Seq<char>| #[trigger] registry.view().contains(q) implies plain_path(q) by {
                        assert(before.contains(q));
                    }
                    assert forall|m: int|
                        0 <= m < k + 1 && #[trigger] creates(ev, cur, m) implies registry.view().contains(ev[m].path@)
                            && reported(changes@, ev[m].path@, true) by {
                        lemma_no_clash(ev, cur, m, kk);
                    }
                    assert forall|j: int|
                        0 <= j < changes@.len() && !(#[trigger] changes@[j]).exists implies !created_path(
                            ev,
                            cur,
                            changes@[j].path@,
                        ) by {
                        if j < ol {
                            assert(changes@[j] == old_changes[j]);
                        } else if j < mid.len() {
                            assert(changes@[ol + (j - ol)] == rm_entries[j - ol]);
                        }
                    }
                    assert forall|j: int|
                        0 <= j < changes@.len() && (#[trigger] changes@[j]).exists implies created_path(
                            ev,
                            cur,
                            changes@[j].path@,
                        ) by {
                        if j < ol {
                            assert(changes@[j] == old_changes[j]);
                        } else if j < mid.len() {
                            assert(changes@[ol + (j - ol)] == rm_entries[j - ol]);
                        }
                    }
                    assert forall|m: int, q: Seq<char>|
                        0 <= m < k + 1 && #[trigger] deletes(ev, cur, m) && #[trigger] old_reg.contains(q) && (q
                            == ev[m].path@ || under(q, ev[m].path@)) implies !registry.view().contains(q) && reported(
                            changes@,
                            q,
                            false,
                        ) by {
                        if m == k {
                            if before.contains(q) {
                                assert(!after.contains(q));
                                assert(before.difference(after).contains(q));
                                assert(rm.to_set().contains(q));
                                let i = choose|i: int| 0 <= i < rm.len() && rm[i] == q;
                                assert(changes@[ol + i] == rm_entries[i]);
                            } else if q == cur && removed_current {
                            } else {
                                let w = choose|w: int|
                                    0 <= w < k && #[trigger] deletes(ev, cur, w) && (q == ev[w].path@ || under(q, ev[w].path@));
                                assert(reported(old_changes, q, false));
                            }
                        }
                    }
                    assert forall|m: int|
                        0 <= m < k + 1 && #[trigger] deletes(ev, cur, m) && is_markdown_name(final_name(ev[m].path@))
                            implies reported(changes@, ev[m].path@, false) by {
                        if m == k {
                            assert(changes@[mid.len() as int].path@ == d);
                        }
                    }
                    assert forall|j: int| 0 <= j < changes@.len() implies entry_shape(#[trigger] changes@[j], root) by {
                        if j < ol {
                            assert(changes@[j] == old_changes[j]);
                        } else if j < mid.len() {
                            assert(changes@[ol + (j - ol)] == rm_entries[j - ol]);
                        }
                    }
                    assert forall|j: int|
                        0 <= j < changes@.len() && !(#[trigger] changes@[j]).exists implies (changes@[j].path@ == cur
                            && removed_current) || (old_reg.contains(changes@[j].path@) && beneath_deleted(ev, cur, changes@[j].path@, ev.len() as int))
                    || deleted_markdown(
                            ev,
                            cur,
                            changes@[j].path@,
                        ) by {
                        if j < ol {
                            assert(changes@[j] == old_changes[j]);
                        } else if j < mid.len() {
                            assert(changes@[ol + (j - ol)] == rm_entries[j - ol]);
                            let q = rm[j - ol];
                            assert(deletes(ev, cur, kk) && (q == ev[kk].path@ || under(q, ev[kk].path@)));
                        } else {
                            assert(changes@[j].path@ == d);
                        }
                    }
                    assert forall|q: Seq<char>|
                        #[trigger] old_reg.contains(q) && !registry.view().contains(q) implies (q == cur
                            && removed_current) || beneath_deleted(ev, cur, q, k + 1) by {
                        if before.contains(q) {
                            assert(deletes(ev, cur, kk) && (q == ev[kk].path@ || under(q, ev[kk].path@)));
                        } else if beneath_deleted(ev, cur, q, k as int) {
                            let w = choose|w: int|
                                0 <= w < k && #[trigger] deletes(ev, cur, w) && (q == ev[w].path@ || under(q, ev[w].path@));
                            assert(0 <= w < k + 1);
                        }
                    }
                }
            }
        } else {
            proof {
                if h {
                    assert(!creates(ev, cur, kk) && !deletes(ev, cur, kk)) by {
                        if !skip {
                            assert(plain_path(ev[kk].path@));
                        }
                    }
                    assert forall|m: int|
                        0 <= m < k + 1 && #[trigger] creates(ev, cur, m) implies registry.view().contains(ev[m].path@)
                            && reported(changes@, ev[m].path@, true) by {
                        assert(m != k);
                    }
                    assert forall|m: int, q: Seq<char>|
                        0 <= m < k + 1 && #[trigger] deletes(ev, cur, m) && #[trigger] old_reg.contains(q) && (q
                            == ev[m].path@ || under(q, ev[m].path@)) implies !registry.view().contains(q) && reported(
                            changes@,
                            q,
                            false,
                        ) by {
                        assert(m != k);
                    }
                    assert forall|m: int|
                        0 <= m < k + 1 && #[trigger] deletes(ev, cur, m) && is_markdown_name(final_name(ev[m].path@))
                            implies reported(changes@, ev[m].path@, false) by {
                        assert(m != k);
                    }
                    assert forall|q: Seq<char>|
                        #[trigger] old_reg.contains(q) && !registry.view().contains(q) implies (q == cur
                            && removed_current) || beneath_deleted(ev, cur, q, k + 1) by {
                        if beneath_deleted(ev, cur, q, k as int) {
                            let w = choose|w: int|
                                0 <= w < k && #[trigger] deletes(ev, cur, w) && (q == ev[w].path@ || under(q, ev[w].path@));
                            assert(0 <= w < k + 1);
                        }
                    }
                }
            }
        }
        proof {
            let added = changes@.subrange(old_changes.len() as int, changes@.len() as int);
            assert(changes@ =~= old_changes + added);
            assert(event_step(before_entries, registry.entries(), added, ev[kk], is_current@[kk], md, name_k, chain_k, flags_k));
            assert(event_answers(ev[kk], is_current@[kk], md, name_k, chain_k, root));
            let old_adds = g_adds;
            let old_states = g_states;
            let old_md = g_md;
            let old_names = g_names;
            let old_chains = g_chains;
            let old_fl = g_flags;
            g_md = g_md.push(md);
            g_names = g_names.push(name_k);
            g_chains = g_chains.push(chain_k);
            g_flags = g_flags.push(flags_k);
            g_adds = g_adds.push(added);
            g_states = g_states.push(registry.entries());
            assert(g_adds.drop_last() =~= old_adds);
            assert(changes@ =~= first + flatten(g_adds));
            assert forall|m: int|
                0 <= m < k + 1 implies #[trigger] event_answers(ev[m], is_current@[m], g_md[m], g_names[m], g_chains[m], root) by {
                if m < k {
                    assert(g_md[m] == old_md[m] && g_names[m] == old_names[m] && g_chains[m] == old_chains[m]);
                }
            }
            assert forall|m: int|
                0 <= m < k + 1 implies #[trigger] event_step(
                    g_states[m],
                    g_states[m + 1],
                    g_adds[m],
                    ev[m],
                    is_current@[m],
                    g_md[m],
                    g_names[m],
                    g_chains[m],
                    g_flags[m],
                ) by {
                if m < k {
                    assert(g_md[m] == old_md[m] && g_names[m] == old_names[m] && g_chains[m] == old_chains[m]);
                    assert(g_flags[m] == old_fl[m] && g_adds[m] == old_adds[m]);
                    assert(g_states[m] == old_states[m] && g_states[m + 1] == old_states[m + 1]);
                }
            }
        }
        k = k + 1;
    }
    let ghost all = changes@;
    let deduped = dedupe_by_path(changes);
    proof {
        lemma_dedupe_distinct_paths(all);
        lemma_first_occurrences_bounds(change_paths(all));
        let fo = first_occurrences(change_paths(all));
        assert forall|j: int| 0 <= j < deduped@.len() && (#[trigger] deduped@[j]).exists implies from_file_event(deduped@[j], events@) by {
            assert(deduped@[j] == all[fo[j]]);
        }
        if h {
            let dd = deduped@;
            assert forall|j: int| 0 <= j < dd.len() implies #[trigger] dd[j] == all[fo[j]] && 0 <= fo[j] < all.len() by {}
            assert forall|p: Seq<char>, ex: bool| #[trigger] reported(all, p, ex) implies exists|t: int|
                0 <= t < dd.len() && (#[trigger] dd[t]).path@ == p by {
                let j = choose|j: int| 0 <= j < all.len() && (#[trigger] all[j]).path@ == p && all[j].exists == ex;
                assert(change_paths(all)[j] == p);
                assert(change_paths(all).to_set().contains(p));
                assert(change_paths(dd).to_set().contains(p));
                let t = choose|t: int| 0 <= t < change_paths(dd).len() && change_paths(dd)[t] == p;
                assert(dd[t].path@ == p);
            }
            assert forall|i: int| 0 <= i < ev.len() && #[trigger] creates(ev, cur, i) implies reported(dd, ev[i].path@, true) by {
                let p = ev[i].path@;
                assert(reported(all, p, true));
                let t = choose|t: int| 0 <= t < dd.len() && (#[trigger] dd[t]).path@ == p;
                assert(dd[t] == all[fo[t]]);
                assert(created_path(ev, cur, p));
            }
            assert forall|i: int, q: Seq<char>|
                0 <= i < ev.len() && #[trigger] deletes(ev, cur, i) && #[trigger] old_reg.contains(q) && (q == ev[i].path@
                    || under(q, ev[i].path@)) implies reported(dd, q, false) by {
                assert(reported(all, q, false));
                let t = choose|t: int| 0 <= t < dd.len() && (#[trigger] dd[t]).path@ == q;
                assert(dd[t] == all[fo[t]]);
                if dd[t].exists {
                    assert(created_path(ev, cur, q));
                    let w = choose|w: int| 0 <= w < ev.len() && #[trigger] creates(ev, cur, w) && ev[w].path@ == q;
                    lemma_no_clash(ev, cur, w, i);
                }
            }
            assert forall|i: int|
                0 <= i < ev.len() && #[trigger] deletes(ev, cur, i) && is_markdown_name(final_name(ev[i].path@)) implies reported(
                dd,
                ev[i].path@,
                false,
            ) by {
                let q = ev[i].path@;
                assert(reported(all, q, false));
                let t = choose|t: int| 0 <= t < dd.len() && (#[trigger] dd[t]).path@ == q;
                assert(dd[t] == all[fo[t]]);
                if dd[t].exists {
                    assert(created_path(ev, cur, q));
                    let w = choose|w: int| 0 <= w < ev.len() && #[trigger] creates(ev, cur, w) && ev[w].path@ == q;
                    lemma_no_clash(ev, cur, w, i);
                }
            }
            if touched && !current_is_file {
                assert(reported(all, cur, false));
                let t = choose|t: int| 0 <= t < dd.len() && (#[trigger] dd[t]).path@ == cur;
                assert(dd[t] == all[fo[t]]);
                if dd[t].exists {
                    assert(created_path(ev, cur, cur));
                    let w = choose|w: int| 0 <= w < ev.len() && #[trigger] creates(ev, cur, w) && ev[w].path@ == cur;
                }
            }
        }
    }
    proof {
        assert(batch_run(events@, current@, current_is_file, root, old_entries, registry.entries(), touched, deduped@, is_current@, g_md, g_names, g_chains, g_flags, g_states, g_adds, first));
    }
    let b = FolderBatch { current_touched: touched, changes: deduped };
    assert(batch_run(events@, current@, current_is_file, root_view(*folder_root), old(registry).entries(), registry.entries(), b.current_touched, b.changes@, is_current@, g_md, g_names, g_chains, g_flags, g_states, g_adds, first));
    b
}

} // verus!
