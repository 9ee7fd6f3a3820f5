//! Folder scanning: which entries of a directory listing the navigation tree
//! shows, in which order, and how a scan reports its findings.

use vstd::prelude::*;
use crate::paths::{
    child_path, descend, dir_base, is_sep, join_base, lemma_dir_base_child, plain_rel, joined_with, lemma_join_base_displayed, lemma_join_base_extend, lemma_plain_join_base,
    lemma_segments_plain, lemma_descend_plain, lemma_descend_split, lemma_last_slash_before, lemma_parent_plain, lemma_segments_descend, lemma_under_rest, parent_spec,
    path_components, path_join, path_parent, path_strip_prefix, plain_name, plain_path, segments, under,
};
use crate::registry::PathRegistry;
use crate::text::{lemma_chars_le_total, lemma_chars_le_transitive, chars_le, chars_le_exec, chars_of, display_path, is_markdown_name_exec, to_lowercase, unicode_lowercase, display_path_spec, is_markdown_name};

verus! {

/// What a directory entry is on disk.
pub enum EntryKind {
    /// A directory, with its own listing (empty when it could not be read).
    Directory(Vec<DirItem>),
    /// A regular file.
    File,
    /// Anything else (a broken link, a device, ...).
    Other,
}

/// One entry of a directory listing, as read from disk.
pub struct DirItem {
    /// The entry's file name.
    pub name: String,
    /// The entry's full path.
    pub path: String,
    /// Whether the platform treats the entry as hidden.
    pub hidden: bool,
    pub kind: EntryKind,
}

/// A node of the navigation tree: a markdown file, or a folder with at least
/// one markdown file beneath it.
pub struct FolderEntry {
    pub name: String,
    pub path: String,
    pub is_folder: bool,
    /// Present for folders only.
    pub children: Option<Vec<FolderEntry>>,
}

/// The mathematical value of a `FolderEntry`.
pub struct FolderEntryView {
    pub name: Seq<char>,
    pub path: Seq<char>,
    pub is_folder: bool,
    pub children: Option<Seq<FolderEntryView>>,
}

pub open spec fn entry_view(e: FolderEntry) -> FolderEntryView
    decreases e,
{
    FolderEntryView {
        name: e.name@,
        path: e.path@,
        is_folder: e.is_folder,
        children: match e.children {
            Some(c) => Some(entries_view(c@)),
            None => None,
        },
    }
}

pub open spec fn entries_view(v: Seq<FolderEntry>) -> Seq<FolderEntryView>
    decreases v,
{
    Seq::new(v.len(), |i: int| if 0 <= i < v.len() { entry_view(v[i]) } else { arbitrary() })
}

} // verus!

verus! {

/// The names of a listing's entries.
pub open spec fn item_names(items: Seq<DirItem>) -> Seq<Seq<char>> {
    items.map_values(|it: DirItem| it.name@)
}

/// `order` with index `i` inserted after every index whose key is not greater
/// than key `i`: one step of a stable insertion sort.
pub open spec fn insert_by_key(order: Seq<int>, i: int, keys: Seq<Seq<char>>) -> Seq<int>
    decreases order.len(),
{
    if order.len() == 0 {
        seq![i]
    } else if !chars_le(keys[order.last()], keys[i]) {
        insert_by_key(order.drop_last(), i, keys).push(order.last())
    } else {
        order.push(i)
    }
}

/// The indices `0..n` in the order of a stable sort by key.
pub open spec fn key_order(keys: Seq<Seq<char>>, n: nat) -> Seq<int>
    decreases n,
{
    if n == 0 {
        Seq::empty()
    } else {
        insert_by_key(key_order(keys, (n - 1) as nat), n - 1, keys)
    }
}

/// The order in which a directory's entries are visited: stably sorted by name.
pub open spec fn name_order(items: Seq<DirItem>) -> Seq<int> {
    key_order(item_names(items), items.len())
}

pub open spec fn indices_view(v: Seq<usize>) -> Seq<int> {
    v.map_values(|x: usize| x as int)
}

pub open spec fn keys_view(v: Seq<Vec<char>>) -> Seq<Seq<char>> {
    v.map_values(|k: Vec<char>| k@)
}

proof fn lemma_insert_at(order: Seq<int>, i: int, keys: Seq<Seq<char>>, j: int)
    requires
        0 <= j <= order.len(),
        forall|m: int| j <= m < order.len() ==> !chars_le(keys[order[m]], keys[i]),
        j > 0 ==> chars_le(keys[order[j - 1]], keys[i]),
    ensures
        insert_by_key(order, i, keys) == order.insert(j, i),
    decreases order.len(),
{
    if order.len() == 0 {
        assert(order.insert(j, i) =~= seq![i]);
    } else if j == order.len() {
        assert(order.insert(j, i) =~= order.push(i));
    } else {
        let init = order.drop_last();
        lemma_insert_at(init, i, keys, j);
        assert(init.insert(j, i).push(order.last()) =~= order.insert(j, i));
    }
}

/// Computes `key_order` of the keys: the positions of the keys, stably sorted.
pub fn sorted_indices(keys: &Vec<Vec<char>>) -> (r: Vec<usize>)
    ensures
        indices_view(r@) == key_order(keys_view(keys@), keys.len() as nat),
        r.len() == keys.len(),
        forall|m: int| 0 <= m < r.len() ==> r@[m] < keys.len(),
{
    let ghost kv = keys_view(keys@);
    let mut order: Vec<usize> = Vec::new();
    let mut i: usize = 0;
    while i < keys.len()
        invariant
            i <= keys.len(),
            kv == keys_view(keys@),
            order.len() == i,
            forall|m: int| 0 <= m < order.len() ==> order@[m] < i,
            indices_view(order@) == key_order(kv, i as nat),
        decreases keys.len() - i,
    {
        let mut j: usize = order.len();
        while j > 0 && !chars_le_exec(&keys[order[j - 1]], &keys[i])
            invariant
                i < keys.len(),
                kv == keys_view(keys@),
                j <= order.len(),
                order.len() == i,
                forall|m: int| 0 <= m < order.len() ==> order@[m] < i,
                forall|m: int| j <= m < order.len() ==> !chars_le(kv[order@[m] as int], kv[i as int]),
            decreases j,
        {
            j = j - 1;
        }
        proof {
            let ov = indices_view(order@);
            assert forall|m: int| j <= m < ov.len() implies !chars_le(kv[ov[m]], kv[i as int]) by {}
            lemma_insert_at(ov, i as int, kv, j as int);
        }
        let ghost old_order = order@;
        order.insert(j, i);
        assert(indices_view(order@) =~= indices_view(old_order).insert(j as int, i as int));
        i = i + 1;
    }
    order
}

} // verus!

verus! {

/// The characters of each entry's name.
pub fn item_keys(items: &Vec<DirItem>) -> (r: Vec<Vec<char>>)
    ensures
        keys_view(r@) == item_names(items@),
        r.len() == items.len(),
{
    let mut r: Vec<Vec<char>> = Vec::new();
    let mut i: usize = 0;
    while i < items.len()
        invariant
            i <= items.len(),
            keys_view(r@) == item_names(items@.subrange(0, i as int)),
        decreases items.len() - i,
    {
        let k = chars_of(items[i].name.as_str());
        let ghost old_r = r@;
        r.push(k);
        assert(keys_view(r@) =~= keys_view(old_r).push(items@[i as int].name@));
        assert(item_names(items@.subrange(0, i + 1)) =~= item_names(items@.subrange(0, i as int)).push(
            items@[i as int].name@,
        ));
        i = i + 1;
    }
    assert(items@.subrange(0, items@.len() as int) =~= items@);
    r
}

/// The order in which a listing's entries are visited (see `name_order`).
pub fn sorted_by_name(items: &Vec<DirItem>) -> (r: Vec<usize>)
    ensures
        indices_view(r@) == name_order(items@),
        r.len() == items.len(),
        forall|m: int| 0 <= m < r.len() ==> r@[m] < items.len(),
{
    let keys = item_keys(items);
    sorted_indices(&keys)
}

/// Whether a scan with this setting skips the entry.
pub open spec fn skipped(it: DirItem, show_hidden: bool) -> bool {
    !show_hidden && it.hidden
}

/// The tree node shown for a markdown file.
pub open spec fn file_node(it: DirItem) -> FolderEntryView {
    FolderEntryView { name: it.name@, path: display_path_spec(it.path@), is_folder: false, children: None }
}

/// The tree node shown for a folder with the given (non-empty) contents.
pub open spec fn folder_node(it: DirItem, sub: Seq<FolderEntryView>) -> FolderEntryView {
    FolderEntryView {
        name: it.name@,
        path: display_path_spec(it.path@),
        is_folder: true,
        children: Some(sub),
    }
}

/// The navigation tree of a listing: its visible folders that hold markdown
/// somewhere beneath them, then its visible markdown files, each group in
/// name order.
pub open spec fn scan_entries(items: Seq<DirItem>, show_hidden: bool) -> Seq<FolderEntryView>
    decreases items, 1nat, 0nat,
{
    let order = name_order(items);
    let parts = scan_parts(items, order, order.len(), show_hidden);
    parts.0 + parts.1
}

/// The folder nodes and the file nodes for the first `k` entries of `order`.
pub open spec fn scan_parts(items: Seq<DirItem>, order: Seq<int>, k: nat, show_hidden: bool) -> (
    Seq<FolderEntryView>,
    Seq<FolderEntryView>,
)
    decreases items, 0nat, k,
{
    if k == 0 || k > order.len() {
        (Seq::empty(), Seq::empty())
    } else {
        let prev = scan_parts(items, order, (k - 1) as nat, show_hidden);
        let j = order[k - 1];
        if 0 <= j < items.len() {
            let it = items[j];
            if skipped(it, show_hidden) {
                prev
            } else {
                match it.kind {
                    EntryKind::Directory(children) => {
                        let sub = scan_entries(children@, show_hidden);
                        if sub.len() > 0 {
                            (prev.0.push(folder_node(it, sub)), prev.1)
                        } else {
                            prev
                        }
                    },
                    EntryKind::File => {
                        if is_markdown_name(it.name@) {
                            (prev.0, prev.1.push(file_node(it)))
                        } else {
                            prev
                        }
                    },
                    EntryKind::Other => prev,
                }
            }
        } else {
            prev
        }
    }
}

proof fn lemma_entries_view_push(v: Seq<FolderEntry>, e: FolderEntry)
    ensures
        entries_view(v.push(e)) == entries_view(v).push(entry_view(e)),
{
    assert(entries_view(v.push(e)) =~= entries_view(v).push(entry_view(e)));
}

/// Builds the navigation tree of a listing (see `scan_entries`), showing
/// hidden entries only when `show_hidden_files` is set.
pub fn scan_folder_with_opts(items: &Vec<DirItem>, show_hidden_files: bool) -> (r: Vec<FolderEntry>)
    ensures
        entries_view(r@) == scan_entries(items@, show_hidden_files),
    decreases items@,
{
    let order = sorted_by_name(items);
    let ghost ov = indices_view(order@);
    let mut folders: Vec<FolderEntry> = Vec::new();
    let mut files: Vec<FolderEntry> = Vec::new();
    let mut k: usize = 0;
    while k < order.len()
        invariant
            k <= order.len(),
            ov == indices_view(order@),
            ov == name_order(items@),
            order.len() == items.len(),
            forall|m: int| 0 <= m < order.len() ==> order@[m] < items.len(),
            (entries_view(folders@), entries_view(files@)) == scan_parts(
                items@,
                ov,
                k as nat,
                show_hidden_files,
            ),
        decreases order.len() - k,
    {
        let j = order[k];
        let it = &items[j];
        assert(ov[k as int] == j as int);
        if !show_hidden_files && it.hidden {
        } else {
            match &it.kind {
                EntryKind::Directory(children) => {
                    assert(decreases_to!(items@ => items@[j as int]));
                    let sub = scan_folder_with_opts(children, show_hidden_files);
                    if sub.len() > 0 {
                        let node = FolderEntry {
                            name: it.name.clone(),
                            path: display_path(it.path.as_str()),
                            is_folder: true,
                            children: Some(sub),
                        };
                        proof {
                            lemma_entries_view_push(folders@, node);
                        }
                        folders.push(node);
                    }
                },
                EntryKind::File => {
                    if is_markdown_name_exec(it.name.as_str()) {
                        let node = FolderEntry {
                            name: it.name.clone(),
                            path: display_path(it.path.as_str()),
                            is_folder: false,
                            children: None,
                        };
                        proof {
                            lemma_entries_view_push(files@, node);
                        }
                        files.push(node);
                    }
                },
                EntryKind::Other => {},
            }
        }
        k = k + 1;
    }
    let ghost fv = folders@;
    folders.append(&mut files);
    assert(entries_view(folders@) =~= entries_view(fv) + scan_parts(items@, ov, order.len() as nat, show_hidden_files).1);
    folders
}

/// The navigation tree of a listing, hidden entries left out.
pub fn scan_folder(items: &Vec<DirItem>) -> (r: Vec<FolderEntry>)
    ensures
        entries_view(r@) == scan_entries(items@, false),
{
    scan_folder_with_opts(items, false)
}

} // verus!

verus! {

/// A folder on the way from the scanned root down to a file.
pub struct DirAncestor {
    pub name: String,
    pub path: String,
}

} // verus!

verus! {

/// The ancestors named `names`, the i-th at the directory path `dirs[i]`.
pub fn ancestor_chain(names: &Vec<String>, dirs: &Vec<String>) -> (chain: Vec<DirAncestor>)
    requires
        names.len() == dirs.len(),
    ensures
        chain@.len() == names.len(),
        forall|i: int|
            0 <= i < chain@.len() ==> (#[trigger] chain@[i]).name@ == names@[i]@ && chain@[i].path@
                == display_path_spec(dirs@[i]@),
{
    let mut chain: Vec<DirAncestor> = Vec::new();
    let mut i: usize = 0;
    while i < names.len()
        invariant
            i <= names.len(),
            names.len() == dirs.len(),
            chain@.len() == i,
            forall|m: int|
                0 <= m < i ==> (#[trigger] chain@[m]).name@ == names@[m]@ && chain@[m].path@
                    == display_path_spec(dirs@[m]@),
        decreases names.len() - i,
    {
        chain.push(DirAncestor { name: names[i].clone(), path: display_path(dirs[i].as_str()) });
        i = i + 1;
    }
    chain
}

/// The names of the ancestors in a chain.
pub open spec fn chain_names(chain: Seq<DirAncestor>) -> Seq<Seq<char>> {
    chain.map_values(|a: DirAncestor| a.name@)
}

/// The names of the folders between the plain paths `root` and `file`: the
/// segments of the parent of `file` after `root`, when that parent lies
/// beneath `root`; none otherwise (the file lies directly in `root`, or
/// outside it).
pub open spec fn path_chain_names(root: Seq<char>, file: Seq<char>) -> Seq<Seq<char>> {
    let dir = parent_spec(file);
    if under(dir, root) {
        segments(dir.subrange(root.len() + 1int, dir.len() as int))
    } else {
        Seq::empty()
    }
}

/// Each folder of the chain lies in the one before it (the first in `root`):
/// its path is that folder's path joined with its name by one separator.
pub open spec fn chain_joined(root: Seq<char>, chain: Seq<DirAncestor>) -> bool {
    forall|i: int|
        0 <= i < chain.len() ==> joined_with(
            if i == 0 {
                root
            } else {
                chain[i - 1].path@
            },
            chain[i].name@,
            #[trigger] chain[i].path@,
        )
}

/// The folders from `root` (exclusive) down to the folder holding `file`,
/// each with its name and displayed path; empty when `file` does not lie
/// beneath `root`. The parent, the relative part and its components are
/// taken by `std::path`; on plain paths the names are `path_chain_names`.
/// The path of each folder is `root` joined with the names so far, by
/// `Path::join`, whose separator is the platform's (`chain_joined`).
pub fn compute_path_chain(root: &str, file: &str) -> (chain: Vec<DirAncestor>)
    ensures
        file@.len() == 0 || file@ == seq!['/'] ==> chain@.len() == 0,
        plain_path(root@) && plain_path(file@) ==> chain_names(chain@) == path_chain_names(root@, file@),
        plain_path(root@) && plain_path(file@) ==> chain_joined(root@, chain@),
        forall|rel: Seq<char>, f: Seq<char>|
            dir_base(root@) && plain_rel(rel) && plain_name(f) && file@ == #[trigger] child_path(child_path(root@, rel), f)
                ==> chain_names(chain@) == segments(rel),
        forall|f: Seq<char>| dir_base(root@) && plain_name(f) && file@ == #[trigger] child_path(root@, f) ==> chain@.len() == 0,
{
    proof {
        if plain_path(file@) {
            lemma_parent_plain(file@);
        }
        assert forall|rel: Seq<char>, f: Seq<char>|
            dir_base(root@) && plain_rel(rel) && plain_name(f) && file@ == #[trigger] child_path(child_path(root@, rel), f)
                implies dir_base(child_path(root@, rel)) by {
            lemma_dir_base_child(root@, rel);
        }
    }
    let parent = match path_parent(file) {
        Some(p) => p,
        None => {
            return Vec::new();
        },
    };
    let relative = match path_strip_prefix(parent.as_str(), root) {
        Some(r) => r,
        None => {
            return Vec::new();
        },
    };
    proof {
        if plain_path(root@) && plain_path(file@) {
            let dir = parent_spec(file@);
            if under(dir, root@) {
                lemma_under_rest(dir, root@);
            }
        }
    }
    let names = path_components(relative.as_str());
    proof {
        assert forall|rel: Seq<char>, f: Seq<char>|
            dir_base(root@) && plain_rel(rel) && plain_name(f) && file@ == #[trigger] child_path(child_path(root@, rel), f)
                implies crate::config::strings_view(names@) == segments(rel) by {
            lemma_dir_base_child(root@, rel);
            assert(parent@ == child_path(root@, rel));
            assert(relative@ == rel);
        }
        assert forall|f: Seq<char>| dir_base(root@) && plain_name(f) && file@ == #[trigger] child_path(root@, f) implies names@.len()
            == 0 by {
            assert(parent@ == root@);
            assert(relative@.len() == 0);
        }
    }
    let ghost h = plain_path(root@) && plain_path(file@) && under(parent_spec(file@), root@);
    proof {
        if h {
            let dir = parent_spec(file@);
            lemma_segments_plain(dir.subrange(root@.len() + 1int, dir.len() as int));
            assert forall|m: int| 0 <= m < names@.len() implies plain_name(#[trigger] names@[m]@) by {
                assert(crate::config::strings_view(names@)[m] == names@[m]@);
            }
        }
        if plain_path(root@) {
            lemma_plain_join_base(root@);
        }
    }
    let mut dirs: Vec<String> = Vec::new();
    let mut current = root.to_owned();
    let mut i: usize = 0;
    while i < names.len()
        invariant
            i <= names.len(),
            dirs.len() == i,
            h ==> plain_path(root@) && join_base(root@) && (!is_sep(root@[0]) || root@[0] == '/'),
            h ==> forall|m: int| 0 <= m < names@.len() ==> plain_name(#[trigger] names@[m]@),
            h ==> join_base(current@) && current@[0] == root@[0],
            h ==> (i == 0 ==> current@ == root@) && (i > 0 ==> current@ == dirs@[i - 1]@),
            h ==> forall|m: int|
                0 <= m < i ==> joined_with(
                    if m == 0 {
                        root@
                    } else {
                        dirs@[m - 1]@
                    },
                    names@[m]@,
                    #[trigger] dirs@[m]@,
                ) && dirs@[m]@[0] == root@[0] && dirs@[m]@.len() > 0,
        decreases names.len() - i,
    {
        let ghost before = current@;
        current = path_join(current.as_str(), names[i].as_str());
        proof {
            if h {
                lemma_join_base_extend(before, names@[i as int]@, current@);
            }
        }
        dirs.push(current.clone());
        i = i + 1;
    }
    let chain = ancestor_chain(&names, &dirs);
    assert(chain_names(chain@) =~= crate::config::strings_view(names@));
    proof {
        if plain_path(root@) && plain_path(file@) && !h {
            assert(names@.len() == 0);
        }
        if h {
            assert forall|m: int| 0 <= m < chain@.len() implies chain@[m].path@ == dirs@[m]@ by {
                lemma_join_base_displayed(dirs@[m]@);
            }
            assert forall|m: int|
                0 <= m < chain@.len() implies joined_with(
                if m == 0 {
                    root@
                } else {
                    chain@[m - 1].path@
                },
                chain@[m].name@,
                #[trigger] chain@[m].path@,
            ) by {
                assert(chain@[m].path@ == dirs@[m]@);
                if m > 0 {
                    assert(chain@[m - 1].path@ == dirs@[m - 1]@);
                }
            }
        }
    }
    chain
}

} // verus!

verus! {

/// The (name, path) pairs of a list.
pub open spec fn pairs_view(v: Seq<(String, String)>) -> Seq<(Seq<char>, Seq<char>)> {
    v.map_values(|p: (String, String)| (p.0@, p.1@))
}

/// One directory's subdirectories and markdown files, each as (name, path).
pub struct DirScanResult {
    pub subdirs: Vec<(String, String)>,
    pub markdown_files: Vec<(String, String)>,
}

/// The subdirectories and the markdown files among the first `k` entries of
/// `order`, hidden ones skipped unless shown.
pub open spec fn dir_scan_parts(items: Seq<DirItem>, order: Seq<int>, k: nat, show_hidden: bool) -> (
    Seq<(Seq<char>, Seq<char>)>,
    Seq<(Seq<char>, Seq<char>)>,
)
    decreases k,
{
    if k == 0 || k > order.len() {
        (Seq::empty(), Seq::empty())
    } else {
        let prev = dir_scan_parts(items, order, (k - 1) as nat, show_hidden);
        let j = order[k - 1];
        if 0 <= j < items.len() && !skipped(items[j], show_hidden) {
            let it = items[j];
            match it.kind {
                EntryKind::Directory(_) => (prev.0.push((it.name@, it.path@)), prev.1),
                EntryKind::File => if is_markdown_name(it.name@) {
                    (prev.0, prev.1.push((it.name@, it.path@)))
                } else {
                    prev
                },
                EntryKind::Other => prev,
            }
        } else {
            prev
        }
    }
}

/// Lists one directory, without descending: its subdirectories and its
/// markdown files, each in name order, hidden entries skipped unless shown.
pub fn scan_directory_entries(items: &Vec<DirItem>, show_hidden_files: bool) -> (r: DirScanResult)
    ensures
        (pairs_view(r.subdirs@), pairs_view(r.markdown_files@)) == dir_scan_parts(
            items@,
            name_order(items@),
            items@.len(),
            show_hidden_files,
        ),
{
    let order = sorted_by_name(items);
    let ghost ov = indices_view(order@);
    let mut subdirs: Vec<(String, String)> = Vec::new();
    let mut markdown_files: Vec<(String, String)> = Vec::new();
    let mut k: usize = 0;
    while k < order.len()
        invariant
            k <= order.len(),
            ov == indices_view(order@),
            ov == name_order(items@),
            order.len() == items.len(),
            forall|m: int| 0 <= m < order.len() ==> order@[m] < items.len(),
            (pairs_view(subdirs@), pairs_view(markdown_files@)) == dir_scan_parts(
                items@,
                ov,
                k as nat,
                show_hidden_files,
            ),
        decreases order.len() - k,
    {
        let j = order[k];
        let it = &items[j];
        assert(ov[k as int] == j as int);
        if !show_hidden_files && it.hidden {
        } else {
            match &it.kind {
                EntryKind::Directory(_) => {
                    let ghost old_v = subdirs@;
                    subdirs.push((it.name.clone(), it.path.clone()));
                    assert(pairs_view(subdirs@) =~= pairs_view(old_v).push((it.name@, it.path@)));
                },
                EntryKind::File => {
                    if is_markdown_name_exec(it.name.as_str()) {
                        let ghost old_v = markdown_files@;
                        markdown_files.push((it.name.clone(), it.path.clone()));
                        assert(pairs_view(markdown_files@) =~= pairs_view(old_v).push((it.name@, it.path@)));
                    }
                },
                EntryKind::Other => {},
            }
        }
        k = k + 1;
    }
    DirScanResult { subdirs, markdown_files }
}

/// Whether an entry is a file whose name is `README.md` in any case.
pub open spec fn is_readme(it: DirItem) -> bool {
    it.kind is File && unicode_lowercase(it.name@) == "readme.md"@
}

/// Whether an entry is a markdown file.
pub open spec fn is_markdown_file(it: DirItem) -> bool {
    it.kind is File && is_markdown_name(it.name@)
}

/// The position of the first readme at or after `i`, in listing order.
pub open spec fn first_readme(items: Seq<DirItem>, i: int) -> Option<int>
    decreases items.len() - i,
{
    if i < 0 || i >= items.len() {
        None
    } else if is_readme(items[i]) {
        Some(i)
    } else {
        first_readme(items, i + 1)
    }
}

/// The first markdown file among `order[m..]`.
pub open spec fn first_markdown_in(items: Seq<DirItem>, order: Seq<int>, m: int) -> Option<int>
    decreases order.len() - m,
{
    if m < 0 || m >= order.len() {
        None
    } else if 0 <= order[m] < items.len() && is_markdown_file(items[order[m]]) {
        Some(order[m])
    } else {
        first_markdown_in(items, order, m + 1)
    }
}

/// The file opened when a folder is opened: its first readme in listing order
/// if it has one, else its first markdown file by name, else none.
pub open spec fn default_file_spec(items: Seq<DirItem>) -> Option<Seq<char>> {
    match first_readme(items, 0) {
        Some(i) => Some(items[i].path@),
        None => match first_markdown_in(items, name_order(items), 0) {
            Some(j) => Some(items[j].path@),
            None => None,
        },
    }
}

proof fn lemma_first_readme(items: Seq<DirItem>, s: int)
    requires
        0 <= s,
    ensures
        first_readme(items, s) is Some ==> {
            let k = first_readme(items, s)->0;
            &&& s <= k < items.len()
            &&& items[k].kind is File && unicode_lowercase(items[k].name@) == "readme.md"@
            &&& forall|j: int|
                s <= j < k ==> !((#[trigger] items[j]).kind is File && unicode_lowercase(items[j].name@) == "readme.md"@)
        },
        first_readme(items, s) is None ==> forall|j: int|
            s <= j < items.len() ==> !((#[trigger] items[j]).kind is File && unicode_lowercase(items[j].name@)
                == "readme.md"@),
    decreases items.len() - s,
{
    if s < items.len() && !is_readme(items[s]) {
        lemma_first_readme(items, s + 1);
    }
}

proof fn lemma_first_markdown_in(items: Seq<DirItem>, order: Seq<int>, m: int)
    requires
        0 <= m,
    ensures
        first_markdown_in(items, order, m) is Some ==> exists|m0: int|
            m <= m0 < order.len() && order[m0] == first_markdown_in(items, order, m)->0 && 0 <= order[m0] < items.len()
                && is_markdown_file(items[order[m0]]) && forall|q: int|
                m <= q < m0 ==> !(0 <= #[trigger] order[q] < items.len() && is_markdown_file(items[order[q]])),
        first_markdown_in(items, order, m) is None ==> forall|q: int|
            m <= q < order.len() ==> !(0 <= #[trigger] order[q] < items.len() && is_markdown_file(items[order[q]])),
    decreases order.len() - m,
{
    if m < order.len() && !(0 <= order[m] < items.len() && is_markdown_file(items[order[m]])) {
        lemma_first_markdown_in(items, order, m + 1);
        if first_markdown_in(items, order, m) is Some {
            let m0 = choose|m0: int|
                m + 1 <= m0 < order.len() && order[m0] == first_markdown_in(items, order, m + 1)->0 && 0 <= order[m0]
                    < items.len() && is_markdown_file(items[order[m0]]) && forall|q: int|
                    m + 1 <= q < m0 ==> !(0 <= #[trigger] order[q] < items.len() && is_markdown_file(items[order[q]]));
            assert forall|q: int| m <= q < m0 implies !(0 <= #[trigger] order[q] < items.len() && is_markdown_file(
                items[order[q]],
            )) by {}
        }
    } else if m < order.len() {
        assert forall|q: int| m <= q < m implies !(0 <= #[trigger] order[q] < items.len() && is_markdown_file(
            items[order[q]],
        )) by {}
    }
}

/// The default file of a folder: a regular file named `readme.md` in any
/// case wins, the first such in listing order; only without one is the
/// markdown file with the least name chosen; without markdown files there is
/// none.
pub proof fn lemma_default_file_law(items: Seq<DirItem>)
    ensures
        forall|i: int|
            0 <= i < items.len() && (#[trigger] items[i]).kind is File && unicode_lowercase(items[i].name@) == "readme.md"@
                && (forall|j: int|
                0 <= j < i ==> !((#[trigger] items[j]).kind is File && unicode_lowercase(items[j].name@) == "readme.md"@))
                ==> default_file_spec(items) == Some(items[i].path@),
        (forall|i: int|
            0 <= i < items.len() ==> !((#[trigger] items[i]).kind is File && unicode_lowercase(items[i].name@)
                == "readme.md"@)) ==> {
            &&& (default_file_spec(items) is Some <==> exists|k: int|
                0 <= k < items.len() && (#[trigger] items[k]).kind is File && is_markdown_name(items[k].name@))
            &&& default_file_spec(items) is Some ==> exists|k: int|
                0 <= k < items.len() && (#[trigger] items[k]).kind is File && is_markdown_name(items[k].name@)
                    && default_file_spec(items)->0 == items[k].path@ && forall|q: int|
                    0 <= q < items.len() && (#[trigger] items[q]).kind is File && is_markdown_name(items[q].name@)
                        ==> chars_le(items[k].name@, items[q].name@)
        },
{
    lemma_first_readme(items, 0);
    assert forall|i: int|
        0 <= i < items.len() && (#[trigger] items[i]).kind is File && unicode_lowercase(items[i].name@) == "readme.md"@
            && (forall|j: int|
            0 <= j < i ==> !((#[trigger] items[j]).kind is File && unicode_lowercase(items[j].name@) == "readme.md"@))
            implies default_file_spec(items) == Some(items[i].path@) by {
        if first_readme(items, 0) is None {
            assert(!(items[i].kind is File && unicode_lowercase(items[i].name@) == "readme.md"@));
        } else {
            let k = first_readme(items, 0)->0;
            if k < i {
                assert(!(items[k].kind is File && unicode_lowercase(items[k].name@) == "readme.md"@));
            }
            if i < k {
                assert(!(items[i].kind is File && unicode_lowercase(items[i].name@) == "readme.md"@));
            }
        }
    }
    if forall|i: int|
        0 <= i < items.len() ==> !((#[trigger] items[i]).kind is File && unicode_lowercase(items[i].name@) == "readme.md"@) {
        if first_readme(items, 0) is Some {
            let k = first_readme(items, 0)->0;
            assert(!(items[k].kind is File && unicode_lowercase(items[k].name@) == "readme.md"@));
        }
        let keys = item_names(items);
        let order = name_order(items);
        lemma_key_order(keys, items.len());
        lemma_first_markdown_in(items, order, 0);
        if first_markdown_in(items, order, 0) is Some {
            let m0 = choose|m0: int|
                0 <= m0 < order.len() && order[m0] == first_markdown_in(items, order, 0)->0 && 0 <= order[m0] < items.len()
                    && is_markdown_file(items[order[m0]]) && forall|q: int|
                    0 <= q < m0 ==> !(0 <= #[trigger] order[q] < items.len() && is_markdown_file(items[order[q]]));
            let k = order[m0];
            assert(items[k].kind is File && is_markdown_name(items[k].name@));
            assert forall|q: int|
                0 <= q < items.len() && (#[trigger] items[q]).kind is File && is_markdown_name(items[q].name@) implies chars_le(
                items[k].name@,
                items[q].name@,
            ) by {
                assert(order.contains(q));
                let mq = choose|mq: int| 0 <= mq < order.len() && order[mq] == q;
                if mq < m0 {
                    assert(is_markdown_file(items[order[mq]]));
                } else if mq == m0 {
                    lemma_chars_le_total(items[k].name@, items[k].name@);
                } else {
                    assert(chars_le(keys[order[m0]], keys[order[mq]]));
                }
            }
        } else {
            assert forall|k: int|
                0 <= k < items.len() && (#[trigger] items[k]).kind is File implies !is_markdown_name(items[k].name@) by {
                assert(order.contains(k));
                let mq = choose|mq: int| 0 <= mq < order.len() && order[mq] == k;
                assert(!(0 <= order[mq] < items.len() && is_markdown_file(items[order[mq]])));
            }
        }
    }
}

/// Picks the file to open in a folder (see `default_file_spec`); only the
/// folder's own entries count, not those of its subfolders.
pub fn find_default_file(items: &Vec<DirItem>) -> (r: Option<String>)
    ensures
        r is Some <==> default_file_spec(items@) is Some,
        r is Some ==> r->0@ == default_file_spec(items@)->0,
        forall|i: int|
            0 <= i < items@.len() && (#[trigger] items@[i]).kind is File && unicode_lowercase(items@[i].name@) == "readme.md"@
                && (forall|j: int|
                0 <= j < i ==> !((#[trigger] items@[j]).kind is File && unicode_lowercase(items@[j].name@) == "readme.md"@))
                ==> r is Some && r->0@ == items@[i].path@,
        (forall|i: int|
            0 <= i < items@.len() ==> !((#[trigger] items@[i]).kind is File && unicode_lowercase(items@[i].name@)
                == "readme.md"@)) ==> {
            &&& (r is Some <==> exists|k: int|
                0 <= k < items@.len() && (#[trigger] items@[k]).kind is File && is_markdown_name(items@[k].name@))
            &&& r is Some ==> exists|k: int|
                0 <= k < items@.len() && (#[trigger] items@[k]).kind is File && is_markdown_name(items@[k].name@)
                    && r->0@ == items@[k].path@ && forall|q: int|
                    0 <= q < items@.len() && (#[trigger] items@[q]).kind is File && is_markdown_name(items@[q].name@)
                        ==> chars_le(items@[k].name@, items@[q].name@)
        },
{
    let readme = String::from_str("readme.md");
    let mut i: usize = 0;
    while i < items.len()
        invariant
            i <= items.len(),
            readme@ == "readme.md"@,
            first_readme(items@, 0) == first_readme(items@, i as int),
        decreases items.len() - i,
    {
        let it = &items[i];
        let is_file = match &it.kind {
            EntryKind::File => true,
            _ => false,
        };
        if is_file {
            let lower = to_lowercase(it.name.as_str());
            if lower == readme {
                proof {
                    lemma_default_file_law(items@);
                }
                return Some(it.path.clone());
            }
        }
        i = i + 1;
    }
    let order = sorted_by_name(items);
    let ghost ov = indices_view(order@);
    let mut m: usize = 0;
    while m < order.len()
        invariant
            m <= order.len(),
            ov == indices_view(order@),
            ov == name_order(items@),
            order.len() == items.len(),
            forall|q: int| 0 <= q < order.len() ==> order@[q] < items.len(),
            first_readme(items@, 0) is None,
            first_markdown_in(items@, ov, 0) == first_markdown_in(items@, ov, m as int),
        decreases order.len() - m,
    {
        let j = order[m];
        let it = &items[j];
        assert(ov[m as int] == j as int);
        let is_file = match &it.kind {
            EntryKind::File => true,
            _ => false,
        };
        if is_file && is_markdown_name_exec(it.name.as_str()) {
            proof {
                lemma_default_file_law(items@);
            }
            return Some(it.path.clone());
        }
        m = m + 1;
    }
    proof {
        lemma_default_file_law(items@);
    }
    None
}

/// The paths of all markdown files beneath the first `k` entries.
pub open spec fn markdown_paths_upto(items: Seq<DirItem>, k: nat, show_hidden: bool) -> Set<Seq<char>>
    decreases items, 0nat, k,
{
    if k == 0 || k > items.len() {
        Set::empty()
    } else {
        let prev = markdown_paths_upto(items, (k - 1) as nat, show_hidden);
        let it = items[k - 1];
        if skipped(it, show_hidden) {
            prev
        } else {
            match it.kind {
                EntryKind::Directory(children) => prev.union(markdown_paths(children@, show_hidden)),
                EntryKind::File => if is_markdown_name(it.name@) {
                    prev.insert(it.path@)
                } else {
                    prev
                },
                EntryKind::Other => prev,
            }
        }
    }
}

/// The paths of all markdown files in a listing and, recursively, in its
/// visible subdirectories.
pub open spec fn markdown_paths(items: Seq<DirItem>, show_hidden: bool) -> Set<Seq<char>>
    decreases items, 1nat, 0nat,
{
    markdown_paths_upto(items, items.len(), show_hidden)
}

fn collect_into(items: &Vec<DirItem>, show_hidden_files: bool, registry: &mut PathRegistry)
    ensures
        final(registry).view() == old(registry).view().union(markdown_paths(items@, show_hidden_files)),
    decreases items@,
{
    let ghost start = registry.view();
    let mut k: usize = 0;
    while k < items.len()
        invariant
            k <= items.len(),
            registry.view() == start.union(markdown_paths_upto(items@, k as nat, show_hidden_files)),
        decreases items.len() - k,
    {
        let it = &items[k];
        let ghost before = registry.view();
        if !show_hidden_files && it.hidden {
        } else {
            match &it.kind {
                EntryKind::Directory(children) => {
                    assert(decreases_to!(items@ => items@[k as int]));
                    collect_into(children, show_hidden_files, registry);
                },
                EntryKind::File => {
                    if is_markdown_name_exec(it.name.as_str()) {
                        registry.insert(it.path.clone());
                    }
                },
                EntryKind::Other => {},
            }
        }
        assert(registry.view() =~= start.union(markdown_paths_upto(items@, (k + 1) as nat, show_hidden_files)));
        k = k + 1;
    }
}

/// Collects the paths of every markdown file in a listing and beneath its
/// visible subdirectories.
pub fn collect_markdown_files(items: &Vec<DirItem>, show_hidden_files: bool) -> (r: PathRegistry)
    ensures
        r.view() == markdown_paths(items@, show_hidden_files),
{
    let mut r = PathRegistry::new();
    collect_into(items, show_hidden_files, &mut r);
    assert(r.view() =~= markdown_paths(items@, show_hidden_files));
    r
}

} // verus!

verus! {

/// The (name, path) pairs of a chain of ancestors.
pub open spec fn chain_view(c: Seq<DirAncestor>) -> Seq<(Seq<char>, Seq<char>)> {
    c.map_values(|a: DirAncestor| (a.name@, a.path@))
}

/// A copy of a chain of ancestors.
pub fn clone_chain(c: &Vec<DirAncestor>) -> (r: Vec<DirAncestor>)
    ensures
        chain_view(r@) == chain_view(c@),
{
    let mut r: Vec<DirAncestor> = Vec::new();
    let mut i: usize = 0;
    while i < c.len()
        invariant
            i <= c.len(),
            chain_view(r@) == chain_view(c@.subrange(0, i as int)),
        decreases c.len() - i,
    {
        let ghost old_r = r@;
        let a = DirAncestor { name: c[i].name.clone(), path: c[i].path.clone() };
        assert(a.name@ == c@[i as int].name@ && a.path@ == c@[i as int].path@);
        r.push(a);
        assert(chain_view(r@) =~= chain_view(old_r).push((c@[i as int].name@, c@[i as int].path@)));
        assert(c@.subrange(0, i + 1) =~= c@.subrange(0, i as int).push(c@[i as int]));
        assert(chain_view(r@) =~= chain_view(c@.subrange(0, i + 1)));
        i = i + 1;
    }
    assert(c@.subrange(0, c@.len() as int) =~= c@);
    r
}

/// A folder waiting to be scanned, with the chain of folders leading to it.
pub struct QueuedDir {
    pub path: String,
    pub chain: Vec<DirAncestor>,
}

/// The subdirectories of a scanned folder, queued with the folder's chain
/// extended by each subdirectory.
pub fn queue_subdirs(chain: &Vec<DirAncestor>, subdirs: &Vec<(String, String)>) -> (r: Vec<QueuedDir>)
    ensures
        r@.len() == subdirs@.len(),
        forall|i: int|
            0 <= i < r@.len() ==> {
                &&& (#[trigger] r@[i]).path@ == subdirs@[i].1@
                &&& chain_view(r@[i].chain@) == chain_view(chain@).push(
                    (subdirs@[i].0@, display_path_spec(subdirs@[i].1@)),
                )
            },
{
    let mut r: Vec<QueuedDir> = Vec::new();
    let mut i: usize = 0;
    while i < subdirs.len()
        invariant
            i <= subdirs.len(),
            r@.len() == i,
            forall|m: int|
                0 <= m < i ==> {
                    &&& (#[trigger] r@[m]).path@ == subdirs@[m].1@
                    &&& chain_view(r@[m].chain@) == chain_view(chain@).push(
                        (subdirs@[m].0@, display_path_spec(subdirs@[m].1@)),
                    )
                },
        decreases subdirs.len() - i,
    {
        let mut child = clone_chain(chain);
        let ghost before = child@;
        child.push(DirAncestor { name: subdirs[i].0.clone(), path: display_path(subdirs[i].1.as_str()) });
        assert(chain_view(child@) =~= chain_view(before).push(
            (subdirs@[i as int].0@, display_path_spec(subdirs@[i as int].1@)),
        ));
        r.push(QueuedDir { path: subdirs[i].1.clone(), chain: child });
        i = i + 1;
    }
    r
}

/// The elements of `s` whose flag is set, in order.
pub open spec fn select<T>(s: Seq<T>, keep: Seq<bool>) -> Seq<T>
    decreases s.len(),
{
    if s.len() == 0 || keep.len() != s.len() {
        Seq::empty()
    } else {
        let rest = select(s.drop_last(), keep.drop_last());
        if keep.last() {
            rest.push(s.last())
        } else {
            rest
        }
    }
}

/// The tree nodes of markdown files given as (name, path).
pub open spec fn file_nodes(files: Seq<(Seq<char>, Seq<char>)>) -> Seq<FolderEntryView> {
    files.map_values(
        |f: (Seq<char>, Seq<char>)|
            FolderEntryView { name: f.0, path: display_path_spec(f.1), is_folder: false, children: None },
    )
}

/// The markdown files of one scanned folder that are still on disk: their
/// tree nodes and their paths, in order.
pub fn present_files(files: &Vec<(String, String)>, present: &Vec<bool>) -> (r: (Vec<FolderEntry>, Vec<String>))
    requires
        present.len() == files.len(),
    ensures
        entries_view(r.0@) == file_nodes(select(pairs_view(files@), present@)),
        r.1@.map_values(|s: String| s@) == select(pairs_view(files@), present@).map_values(
            |f: (Seq<char>, Seq<char>)| f.1,
        ),
{
    let mut nodes: Vec<FolderEntry> = Vec::new();
    let mut paths: Vec<String> = Vec::new();
    let mut i: usize = 0;
    while i < files.len()
        invariant
            i <= files.len(),
            present.len() == files.len(),
            entries_view(nodes@) == file_nodes(select(pairs_view(files@.subrange(0, i as int)), present@.subrange(0, i as int))),
            paths@.map_values(|s: String| s@) == select(
                pairs_view(files@.subrange(0, i as int)),
                present@.subrange(0, i as int),
            ).map_values(|f: (Seq<char>, Seq<char>)| f.1),
        decreases files.len() - i,
    {
        proof {
            assert(pairs_view(files@.subrange(0, i + 1)).drop_last() =~= pairs_view(files@.subrange(0, i as int)));
            assert(present@.subrange(0, i + 1).drop_last() =~= present@.subrange(0, i as int));
        }
        if present[i] {
            let node = FolderEntry {
                name: files[i].0.clone(),
                path: display_path(files[i].1.as_str()),
                is_folder: false,
                children: None,
            };
            let ghost old_nodes = nodes@;
            let ghost old_paths = paths@;
            let p = files[i].1.clone();
            proof {
                lemma_entries_view_push(old_nodes, node);
            }
            nodes.push(node);
            paths.push(p);
            proof {
                let sel = select(pairs_view(files@.subrange(0, i + 1)), present@.subrange(0, i + 1));
                let prev = select(pairs_view(files@.subrange(0, i as int)), present@.subrange(0, i as int));
                let x = (files@[i as int].0@, files@[i as int].1@);
                assert(pairs_view(files@.subrange(0, i + 1)).last() == x);
                assert(sel == prev.push(x));
                assert(file_nodes(prev.push(x)) =~= file_nodes(prev).push(
                    FolderEntryView { name: x.0, path: display_path_spec(x.1), is_folder: false, children: None },
                ));
                assert(entries_view(nodes@) =~= file_nodes(sel));
                assert(old_paths.push(p).map_values(|s: String| s@) =~= old_paths.map_values(|s: String| s@).push(p@));
                assert(prev.push(x).map_values(|f: (Seq<char>, Seq<char>)| f.1) =~= prev.map_values(
                    |f: (Seq<char>, Seq<char>)| f.1,
                ).push(x.1));
                assert(paths@.map_values(|s: String| s@) =~= sel.map_values(|f: (Seq<char>, Seq<char>)| f.1));
            }
        } else {
            proof {
                let sel = select(pairs_view(files@.subrange(0, i + 1)), present@.subrange(0, i + 1));
                let prev = select(pairs_view(files@.subrange(0, i as int)), present@.subrange(0, i as int));
                assert(sel == prev);
            }
        }
        i = i + 1;
    }
    assert(files@.subrange(0, files@.len() as int) =~= files@);
    assert(present@.subrange(0, present@.len() as int) =~= present@);
    (nodes, paths)
}

/// One batch of files found by a progressive scan, with the chain of
/// folders above them.
pub struct FolderScanFiles {
    pub path_chain: Vec<DirAncestor>,
    pub files: Vec<FolderEntry>,
}

} // verus!

verus! {

/// A queued directory as a value: its path and its chain.
pub open spec fn queued_view(q: QueuedDir) -> (Seq<char>, Seq<(Seq<char>, Seq<char>)>) {
    (q.path@, chain_view(q.chain@))
}

/// The values of a queue of directories.
pub open spec fn queue_view(q: Seq<QueuedDir>) -> Seq<(Seq<char>, Seq<(Seq<char>, Seq<char>)>)> {
    q.map_values(|d: QueuedDir| queued_view(d))
}

/// The progressive scan's walk: the directories still to be listed, first
/// in, first out.
pub struct ScanWalk {
    pub queue: Vec<QueuedDir>,
}

impl ScanWalk {
    /// A walk that starts at the folder `root`, whose chain is empty.
    pub fn start(root: String) -> (w: Self)
        ensures
            queue_view(w.queue@) == seq![(root@, Seq::<(Seq<char>, Seq<char>)>::empty())],
    {
        let mut queue: Vec<QueuedDir> = Vec::new();
        queue.push(QueuedDir { path: root, chain: Vec::new() });
        assert(queue@[0].chain@.len() == 0);
        assert(chain_view(queue@[0].chain@) =~= Seq::<(Seq<char>, Seq<char>)>::empty());
        assert(queue_view(queue@) =~= seq![(queue@[0].path@, Seq::<(Seq<char>, Seq<char>)>::empty())]);
        ScanWalk { queue }
    }

    /// Takes the next directory to list, if any is left.
    pub fn next_dir(&mut self) -> (d: Option<QueuedDir>)
        ensures
            old(self).queue@.len() == 0 ==> d is None && final(self).queue@ == old(self).queue@,
            old(self).queue@.len() > 0 ==> d is Some && d->0 == old(self).queue@[0] && final(self).queue@
                == old(self).queue@.drop_first(),
    {
        if self.queue.len() == 0 {
            None
        } else {
            let d = self.queue.remove(0);
            assert(self.queue@ =~= old(self).queue@.drop_first());
            Some(d)
        }
    }

    /// Handles the listing of a directory with the given chain: queues its
    /// visible subdirectories (in name order, each with the chain extended by
    /// it) and returns its visible markdown files (in name order), both as
    /// `scan_directory_entries` lists them.
    pub fn visit(&mut self, chain: &Vec<DirAncestor>, listing: &Vec<DirItem>, show_hidden_files: bool) -> (files: Vec<(String, String)>)
        ensures
            pairs_view(files@) == dir_scan_parts(listing@, name_order(listing@), listing@.len(), show_hidden_files).1,
            ({
                let subdirs = dir_scan_parts(listing@, name_order(listing@), listing@.len(), show_hidden_files).0;
                &&& final(self).queue@.len() == old(self).queue@.len() + subdirs.len()
                &&& forall|i: int| 0 <= i < old(self).queue@.len() ==> #[trigger] final(self).queue@[i] == old(self).queue@[i]
                &&& forall|i: int|
                    0 <= i < subdirs.len() ==> queued_view(#[trigger] final(self).queue@[old(self).queue@.len() + i]) == (
                        subdirs[i].1,
                        chain_view(chain@).push((subdirs[i].0, display_path_spec(subdirs[i].1))),
                    )
            }),
    {
        let scanned = scan_directory_entries(listing, show_hidden_files);
        let mut queued = queue_subdirs(chain, &scanned.subdirs);
        let ghost before = self.queue@;
        let ghost added = queued@;
        self.queue.append(&mut queued);
        proof {
            let subdirs = dir_scan_parts(listing@, name_order(listing@), listing@.len(), show_hidden_files).0;
            assert(self.queue@ == before + added);
            assert forall|i: int|
                0 <= i < subdirs.len() implies queued_view(#[trigger] self.queue@[before.len() + i]) == (
                    subdirs[i].1,
                    chain_view(chain@).push((subdirs[i].0, display_path_spec(subdirs[i].1))),
                ) by {
                assert(self.queue@[before.len() + i] == added[i]);
                assert(pairs_view(scanned.subdirs@)[i] == subdirs[i]);
            }
        }
        scanned.markdown_files
    }
}

/// The paths of a list of (name, path) pairs, in order.
pub open spec fn pair_path_seq(v: Seq<(Seq<char>, Seq<char>)>) -> Seq<Seq<char>> {
    v.map_values(|f: (Seq<char>, Seq<char>)| f.1)
}

/// Records the markdown files a step of the scan found in one directory,
/// keeping those still present on disk (`present`, one flag per file): they
/// are registered, and when there are any they make one batch for the
/// navigation tree, with the directory's chain; none otherwise.
pub fn scan_batch(
    chain: Vec<DirAncestor>,
    files: &Vec<(String, String)>,
    present: &Vec<bool>,
    registry: &mut PathRegistry,
) -> (b: Option<FolderScanFiles>)
    requires
        present.len() == files.len(),
    ensures
        ({
            let kept = select(pairs_view(files@), present@);
            &&& final(registry).view() == old(registry).view().union(pair_path_seq(kept).to_set())
            &&& (b is Some <==> kept.len() > 0)
            &&& b is Some ==> entries_view(b->0.files@) == file_nodes(kept) && chain_view(b->0.path_chain@)
                == chain_view(chain@)
        }),
{
    let ghost kept = select(pairs_view(files@), present@);
    let (nodes, paths) = present_files(files, present);
    proof {
        assert(paths@.map_values(|s: String| s@) == pair_path_seq(kept));
        assert(nodes@.len() == kept.len()) by {
            assert(entries_view(nodes@).len() == nodes@.len());
            assert(file_nodes(kept).len() == kept.len());
        }
    }
    let ghost start = registry.view();
    let mut i: usize = 0;
    while i < paths.len()
        invariant
            i <= paths.len(),
            registry.view() == start.union(paths@.subrange(0, i as int).map_values(|s: String| s@).to_set()),
        decreases paths.len() - i,
    {
        let ghost before = registry.view();
        registry.insert(paths[i].clone());
        proof {
            let a = paths@.subrange(0, i as int).map_values(|s: String| s@);
            let b = paths@.subrange(0, i + 1).map_values(|s: String| s@);
            assert(b =~= a.push(paths@[i as int]@));
            assert(b.to_set() =~= a.to_set().insert(paths@[i as int]@)) by {
                assert forall|x: Seq<char>| b.contains(x) <==> a.contains(x) || x == paths@[i as int]@ by {
                    if b.contains(x) {
                        let k = choose|k: int| 0 <= k < b.len() && b[k] == x;
                        if k < a.len() {
                            assert(a[k] == x);
                        }
                    }
                    if a.contains(x) {
                        let k = choose|k: int| 0 <= k < a.len() && a[k] == x;
                        assert(b[k] == x);
                    }
                    if x == paths@[i as int]@ {
                        assert(b[i as int] == x);
                    }
                }
            }
            assert(registry.view() =~= start.union(b.to_set()));
        }
        i = i + 1;
    }
    assert(paths@.subrange(0, paths@.len() as int) =~= paths@);
    if nodes.len() == 0 {
        None
    } else {
        Some(FolderScanFiles { path_chain: chain, files: nodes })
    }
}

} // verus!

verus! {

/// `order` lists valid positions of `keys`, by non-decreasing key.
pub open spec fn sorted_by_key(order: Seq<int>, keys: Seq<Seq<char>>) -> bool {
    &&& forall|m: int| 0 <= m < order.len() ==> 0 <= #[trigger] order[m] < keys.len()
    &&& forall|a: int, b: int| 0 <= a < b < order.len() ==> chars_le(keys[order[a]], keys[order[b]])
}

proof fn lemma_insert_by_key(order: Seq<int>, i: int, keys: Seq<Seq<char>>)
    requires
        sorted_by_key(order, keys),
        0 <= i < keys.len(),
    ensures
        sorted_by_key(insert_by_key(order, i, keys), keys),
        insert_by_key(order, i, keys).len() == order.len() + 1,
        forall|x: int| #[trigger] insert_by_key(order, i, keys).contains(x) <==> (order.contains(x) || x == i),
        order.no_duplicates() && !order.contains(i) ==> insert_by_key(order, i, keys).no_duplicates(),
    decreases order.len(),
{
    let r = insert_by_key(order, i, keys);
    if order.len() == 0 {
        assert forall|x: int| #[trigger] r.contains(x) <==> (order.contains(x) || x == i) by {
            if r.contains(x) {
                assert(r[0] == x);
            }
            if x == i {
                assert(r[0] == i);
            }
        }
    } else {
        let last = order.last();
        let init = order.drop_last();
        assert(sorted_by_key(init, keys)) by {
            assert forall|m: int| 0 <= m < init.len() implies 0 <= #[trigger] init[m] < keys.len() by {
                assert(init[m] == order[m]);
            }
            assert forall|a: int, b: int| 0 <= a < b < init.len() implies chars_le(keys[init[a]], keys[init[b]]) by {
                assert(init[a] == order[a] && init[b] == order[b]);
            }
        }
        assert(0 <= last < keys.len()) by {
            assert(order[order.len() - 1] == last);
        }
        assert forall|x: int| order.contains(x) <==> (init.contains(x) || x == last) by {
            if order.contains(x) {
                let k = choose|k: int| 0 <= k < order.len() && order[k] == x;
                if k < init.len() {
                    assert(init[k] == x);
                }
            }
            if init.contains(x) {
                let k = choose|k: int| 0 <= k < init.len() && init[k] == x;
                assert(order[k] == x);
            }
            if x == last {
                assert(order[order.len() - 1] == x);
            }
        }
        // every earlier key is at most the last one
        assert forall|m: int| 0 <= m < init.len() implies chars_le(keys[#[trigger] init[m]], keys[last]) by {
            assert(init[m] == order[m]);
            assert(order[order.len() - 1] == last);
        }
        if !chars_le(keys[last], keys[i]) {
            lemma_chars_le_total(keys[last], keys[i]);
            lemma_insert_by_key(init, i, keys);
            let sub = insert_by_key(init, i, keys);
            assert(r == sub.push(last));
            assert forall|m: int| 0 <= m < sub.len() implies chars_le(keys[#[trigger] sub[m]], keys[last]) by {
                assert(sub.contains(sub[m]));
                if sub[m] != i {
                    assert(init.contains(sub[m]));
                    let k = choose|k: int| 0 <= k < init.len() && init[k] == sub[m];
                    assert(chars_le(keys[init[k]], keys[last]));
                }
            }
            assert(sorted_by_key(r, keys)) by {
                assert forall|m: int| 0 <= m < r.len() implies 0 <= #[trigger] r[m] < keys.len() by {
                    if m < sub.len() {
                        assert(r[m] == sub[m]);
                    }
                }
                assert forall|a: int, b: int| 0 <= a < b < r.len() implies chars_le(keys[r[a]], keys[r[b]]) by {
                    assert(r[a] == sub[a]);
                    if b < sub.len() {
                        assert(r[b] == sub[b]);
                    }
                }
            }
            assert forall|x: int| #[trigger] r.contains(x) <==> (order.contains(x) || x == i) by {
                if r.contains(x) {
                    let k = choose|k: int| 0 <= k < r.len() && r[k] == x;
                    if k < sub.len() {
                        assert(sub[k] == x);
                        assert(sub.contains(x));
                    }
                }
                if sub.contains(x) {
                    let k = choose|k: int| 0 <= k < sub.len() && sub[k] == x;
                    assert(r[k] == x);
                }
                if x == last {
                    assert(r[r.len() - 1] == x);
                }
            }
            if order.no_duplicates() && !order.contains(i) {
                assert(init.no_duplicates()) by {
                    assert forall|a: int, b: int| 0 <= a < init.len() && 0 <= b < init.len() && a != b implies init[a] != init[b] by {
                        assert(init[a] == order[a] && init[b] == order[b]);
                    }
                }
                assert(!init.contains(i));
                assert(!sub.contains(last)) by {
                    if sub.contains(last) {
                        if last != i {
                            assert(init.contains(last));
                            let k = choose|k: int| 0 <= k < init.len() && init[k] == last;
                            assert(order[k] == order[order.len() - 1]);
                        }
                    }
                }
                assert forall|a: int, b: int| 0 <= a < r.len() && 0 <= b < r.len() && a != b implies r[a] != r[b] by {
                    if a == sub.len() {
                        assert(sub.contains(r[b]));
                    } else if b == sub.len() {
                        assert(sub.contains(r[a]));
                    } else {
                        assert(r[a] == sub[a] && r[b] == sub[b]);
                    }
                }
            }
        } else {
            assert(r == order.push(i));
            assert(sorted_by_key(r, keys)) by {
                assert forall|m: int| 0 <= m < r.len() implies 0 <= #[trigger] r[m] < keys.len() by {
                    if m < order.len() {
                        assert(r[m] == order[m]);
                    }
                }
                assert forall|a: int, b: int| 0 <= a < b < r.len() implies chars_le(keys[r[a]], keys[r[b]]) by {
                    assert(r[a] == order[a]);
                    if b < order.len() {
                        assert(r[b] == order[b]);
                    } else {
                        if a < init.len() {
                            assert(init[a] == order[a]);
                            lemma_chars_le_transitive(keys[order[a]], keys[last], keys[i]);
                        } else {
                            assert(order[a] == last);
                        }
                    }
                }
            }
            assert forall|x: int| #[trigger] r.contains(x) <==> (order.contains(x) || x == i) by {
                if r.contains(x) {
                    let k = choose|k: int| 0 <= k < r.len() && r[k] == x;
                    if k < order.len() {
                        assert(order[k] == x);
                    }
                }
                if order.contains(x) {
                    let k = choose|k: int| 0 <= k < order.len() && order[k] == x;
                    assert(r[k] == x);
                }
                if x == i {
                    assert(r[r.len() - 1] == x);
                }
            }
            if order.no_duplicates() && !order.contains(i) {
                assert forall|a: int, b: int| 0 <= a < r.len() && 0 <= b < r.len() && a != b implies r[a] != r[b] by {
                    if a == order.len() {
                        assert(order.contains(r[b]));
                    } else if b == order.len() {
                        assert(order.contains(r[a]));
                    } else {
                        assert(r[a] == order[a] && r[b] == order[b]);
                    }
                }
            }
        }
    }
}

/// The stable sort by key lists every position `0..n` exactly once, in
/// non-decreasing key order.
pub proof fn lemma_key_order(keys: Seq<Seq<char>>, n: nat)
    requires
        n <= keys.len(),
    ensures
        sorted_by_key(key_order(keys, n), keys),
        key_order(keys, n).len() == n,
        key_order(keys, n).no_duplicates(),
        forall|x: int| #[trigger] key_order(keys, n).contains(x) <==> 0 <= x < n,
    decreases n,
{
    if n > 0 {
        let prev = key_order(keys, (n - 1) as nat);
        lemma_key_order(keys, (n - 1) as nat);
        assert(!prev.contains(n - 1));
        lemma_insert_by_key(prev, n - 1, keys);
    }
}

} // verus!

verus! {

/// A tree node stands for a listing entry that the scan does not skip: it
/// has the entry's name and displayed path.
pub open spec fn node_of_visible_entry(n: FolderEntryView, items: Seq<DirItem>, show_hidden: bool) -> bool {
    exists|j: int|
        0 <= j < items.len() && !skipped(#[trigger] items[j], show_hidden) && n.name == items[j].name@
            && n.path == display_path_spec(items[j].path@)
}

/// A folder node with something beneath it.
pub open spec fn is_folder_node(n: FolderEntryView) -> bool {
    n.is_folder && n.children is Some && n.children->0.len() > 0
}

/// A node for a markdown file.
pub open spec fn is_file_node(n: FolderEntryView) -> bool {
    !n.is_folder && n.children is None && is_markdown_name(n.name)
}

proof fn lemma_scan_parts_shape(items: Seq<DirItem>, order: Seq<int>, k: nat, show_hidden: bool)
    requires
        sorted_by_key(order, item_names(items)),
        k <= order.len(),
        order.len() <= items.len(),
    ensures
        ({
            let parts = scan_parts(items, order, k, show_hidden);
            let keys = item_names(items);
            &&& forall|p: int| 0 <= p < parts.0.len() ==> is_folder_node(#[trigger] parts.0[p])
            &&& forall|p: int| 0 <= p < parts.1.len() ==> is_file_node(#[trigger] parts.1[p])
            &&& forall|p: int, m: int|
                #![trigger parts.0[p], order[m]]
                0 <= p < parts.0.len() && k <= m < order.len() ==> chars_le(parts.0[p].name, keys[order[m]])
            &&& forall|p: int, m: int|
                #![trigger parts.1[p], order[m]]
                0 <= p < parts.1.len() && k <= m < order.len() ==> chars_le(parts.1[p].name, keys[order[m]])
            &&& forall|a: int, b: int| 0 <= a < b < parts.0.len() ==> chars_le(parts.0[a].name, parts.0[b].name)
            &&& forall|a: int, b: int| 0 <= a < b < parts.1.len() ==> chars_le(parts.1[a].name, parts.1[b].name)
            &&& forall|p: int| 0 <= p < parts.0.len() ==> node_of_visible_entry(#[trigger] parts.0[p], items, show_hidden)
            &&& forall|p: int| 0 <= p < parts.1.len() ==> node_of_visible_entry(#[trigger] parts.1[p], items, show_hidden)
        }),
    decreases k,
{
    let keys = item_names(items);
    if k > 0 {
        lemma_scan_parts_shape(items, order, (k - 1) as nat, show_hidden);
        let prev = scan_parts(items, order, (k - 1) as nat, show_hidden);
        let parts = scan_parts(items, order, k, show_hidden);
        let j = order[k - 1];
        assert(0 <= j < keys.len());
        assert(keys.len() == items.len());
        let it = items[j];
        assert(keys[j] == it.name@);
        // the new key is no greater than any later one
        assert forall|m: int| k <= m < order.len() implies chars_le(keys[order[k - 1]], keys[#[trigger] order[m]]) by {}
        if !skipped(it, show_hidden) {
            assert(node_of_visible_entry(folder_node(it, scan_entries(
                match it.kind {
                    EntryKind::Directory(c) => c@,
                    _ => Seq::empty(),
                },
                show_hidden,
            )), items, show_hidden)) by {
                assert(!skipped(items[j], show_hidden));
            }
            assert(node_of_visible_entry(file_node(it), items, show_hidden)) by {
                assert(!skipped(items[j], show_hidden));
            }
        }
        assert forall|p: int| 0 <= p < parts.0.len() implies is_folder_node(#[trigger] parts.0[p])
            && node_of_visible_entry(parts.0[p], items, show_hidden) && (forall|m: int|
            k <= m < order.len() ==> chars_le(parts.0[p].name, keys[order[m]])) by {
            if p < prev.0.len() {
                assert(parts.0[p] == prev.0[p]);
                assert forall|m: int| k <= m < order.len() implies chars_le(parts.0[p].name, keys[order[m]]) by {
                    assert(chars_le(prev.0[p].name, keys[order[m]]));
                }
            }
        }
        assert forall|p: int| 0 <= p < parts.1.len() implies is_file_node(#[trigger] parts.1[p])
            && node_of_visible_entry(parts.1[p], items, show_hidden) && (forall|m: int|
            k <= m < order.len() ==> chars_le(parts.1[p].name, keys[order[m]])) by {
            if p < prev.1.len() {
                assert(parts.1[p] == prev.1[p]);
                assert forall|m: int| k <= m < order.len() implies chars_le(parts.1[p].name, keys[order[m]]) by {
                    assert(chars_le(prev.1[p].name, keys[order[m]]));
                }
            }
        }
        assert forall|a: int, b: int| 0 <= a < b < parts.0.len() implies chars_le(parts.0[a].name, parts.0[b].name) by {
            assert(parts.0[a] == prev.0[a]);
            if b < prev.0.len() {
                assert(parts.0[b] == prev.0[b]);
            } else {
                assert(chars_le(prev.0[a].name, keys[order[k - 1]]));
            }
        }
        assert forall|a: int, b: int| 0 <= a < b < parts.1.len() implies chars_le(parts.1[a].name, parts.1[b].name) by {
            assert(parts.1[a] == prev.1[a]);
            if b < prev.1.len() {
                assert(parts.1[b] == prev.1[b]);
            } else {
                assert(chars_le(prev.1[a].name, keys[order[k - 1]]));
            }
        }
    }
}

/// The navigation tree of a listing lists its folders before its files, each
/// group alphabetically; every folder holds something, every file is a
/// markdown file, and every node stands for an entry that is not skipped
/// (hidden entries appear only when shown).
pub proof fn lemma_scan_tree_shape(items: Seq<DirItem>, show_hidden: bool)
    ensures
        ({
            let r = scan_entries(items, show_hidden);
            &&& forall|a: int, b: int| 0 <= a < b < r.len() && r[b].is_folder ==> r[a].is_folder
            &&& forall|a: int, b: int|
                0 <= a < b < r.len() && r[a].is_folder == r[b].is_folder ==> chars_le(r[a].name, r[b].name)
            &&& forall|p: int| 0 <= p < r.len() ==> (is_folder_node(#[trigger] r[p]) || is_file_node(r[p]))
            &&& forall|p: int| 0 <= p < r.len() ==> node_of_visible_entry(#[trigger] r[p], items, show_hidden)
        }),
{
    let keys = item_names(items);
    let order = name_order(items);
    lemma_key_order(keys, items.len());
    let parts = scan_parts(items, order, order.len(), show_hidden);
    lemma_scan_parts_shape(items, order, order.len(), show_hidden);
    let r = scan_entries(items, show_hidden);
    assert(r == parts.0 + parts.1);
    let f = parts.0.len();
    assert forall|p: int| 0 <= p < r.len() implies (is_folder_node(#[trigger] r[p]) || is_file_node(r[p]))
        && node_of_visible_entry(r[p], items, show_hidden) && (p < f <==> r[p].is_folder) by {
        if p < f {
            assert(r[p] == parts.0[p]);
        } else {
            assert(r[p] == parts.1[p - f]);
        }
    }
    assert forall|a: int, b: int| 0 <= a < b < r.len() && r[a].is_folder == r[b].is_folder implies chars_le(
        r[a].name,
        r[b].name,
    ) by {
        if b < f {
            assert(r[a] == parts.0[a] && r[b] == parts.0[b]);
        } else {
            assert(r[a] == parts.1[a - f] && r[b] == parts.1[b - f]);
        }
    }
}

} // verus!

verus! {

/// The displayed paths of the files at or beneath a tree node.
pub open spec fn node_files(n: FolderEntryView) -> Set<Seq<char>>
    decreases n, 1nat, 0nat,
{
    if n.is_folder {
        match n.children {
            Some(c) => tree_files_upto(c, c.len()),
            None => Set::empty(),
        }
    } else {
        set![n.path]
    }
}

/// The displayed paths of the files at or beneath the first `k` nodes.
pub open spec fn tree_files_upto(s: Seq<FolderEntryView>, k: nat) -> Set<Seq<char>>
    decreases s, 0nat, k,
{
    if k == 0 || k > s.len() {
        Set::empty()
    } else {
        tree_files_upto(s, (k - 1) as nat).union(node_files(s[k - 1]))
    }
}

/// The displayed paths of all files in a tree.
pub open spec fn tree_files(s: Seq<FolderEntryView>) -> Set<Seq<char>> {
    tree_files_upto(s, s.len())
}

proof fn lemma_tree_files_members(s: Seq<FolderEntryView>, k: nat, x: Seq<char>)
    requires
        k <= s.len(),
    ensures
        tree_files_upto(s, k).contains(x) <==> exists|p: int| 0 <= p < k && #[trigger] node_files(s[p]).contains(x),
    decreases k,
{
    if k > 0 {
        lemma_tree_files_members(s, (k - 1) as nat, x);
        if node_files(s[k - 1]).contains(x) {
            assert(node_files(s[(k - 1) as int]).contains(x));
        }
        if exists|p: int| 0 <= p < k && #[trigger] node_files(s[p]).contains(x) {
            let p = choose|p: int| 0 <= p < k && #[trigger] node_files(s[p]).contains(x);
            if p < k - 1 {
                assert(exists|q: int| 0 <= q < k - 1 && #[trigger] node_files(s[q]).contains(x));
            }
        }
    }
}

/// Whether the displayed path `x` is that of a markdown file the scan finds
/// through the entry `it`.
pub open spec fn entry_yields(it: DirItem, x: Seq<char>, show_hidden: bool) -> bool {
    !skipped(it, show_hidden) && match it.kind {
        EntryKind::Directory(c) => exists|p: Seq<char>|
            #[trigger] markdown_paths(c@, show_hidden).contains(p) && display_path_spec(p) == x,
        EntryKind::File => is_markdown_name(it.name@) && display_path_spec(it.path@) == x,
        EntryKind::Other => false,
    }
}

proof fn lemma_markdown_paths_members(items: Seq<DirItem>, k: nat, x: Seq<char>, show_hidden: bool)
    requires
        k <= items.len(),
    ensures
        (exists|p: Seq<char>| #[trigger] markdown_paths_upto(items, k, show_hidden).contains(p) && display_path_spec(p) == x)
            <==> exists|j: int| 0 <= j < k && entry_yields(#[trigger] items[j], x, show_hidden),
    decreases k,
{
    if k > 0 {
        lemma_markdown_paths_members(items, (k - 1) as nat, x, show_hidden);
        let prev = markdown_paths_upto(items, (k - 1) as nat, show_hidden);
        let cur = markdown_paths_upto(items, k, show_hidden);
        let it = items[k - 1];
        if exists|p: Seq<char>| #[trigger] cur.contains(p) && display_path_spec(p) == x {
            let p = choose|p: Seq<char>| #[trigger] cur.contains(p) && display_path_spec(p) == x;
            if prev.contains(p) {
                assert(exists|j: int| 0 <= j < k - 1 && entry_yields(#[trigger] items[j], x, show_hidden));
                let j = choose|j: int| 0 <= j < k - 1 && entry_yields(#[trigger] items[j], x, show_hidden);
                assert(entry_yields(items[j], x, show_hidden));
            } else {
                assert(entry_yields(items[k - 1], x, show_hidden)) by {
                    match it.kind {
                        EntryKind::Directory(c) => {
                            assert(markdown_paths(c@, show_hidden).contains(p));
                        },
                        _ => {},
                    }
                }
            }
        }
        if exists|j: int| 0 <= j < k && entry_yields(#[trigger] items[j], x, show_hidden) {
            let j = choose|j: int| 0 <= j < k && entry_yields(#[trigger] items[j], x, show_hidden);
            if j < k - 1 {
                assert(exists|jj: int| 0 <= jj < k - 1 && entry_yields(#[trigger] items[jj], x, show_hidden));
                let p = choose|p: Seq<char>| #[trigger] prev.contains(p) && display_path_spec(p) == x;
                assert(cur.contains(p));
            } else {
                match it.kind {
                    EntryKind::Directory(c) => {
                        let p = choose|p: Seq<char>|
                            #[trigger] markdown_paths(c@, show_hidden).contains(p) && display_path_spec(p) == x;
                        assert(cur.contains(p));
                    },
                    EntryKind::File => {
                        assert(cur.contains(it.path@));
                    },
                    EntryKind::Other => {},
                }
            }
        }
    }
}

proof fn lemma_parts_files(items: Seq<DirItem>, order: Seq<int>, k: nat, x: Seq<char>, show_hidden: bool)
    requires
        k <= order.len(),
        forall|m: int| 0 <= m < order.len() ==> 0 <= #[trigger] order[m] < items.len(),
    ensures
        ({
            let parts = scan_parts(items, order, k, show_hidden);
            (exists|p: int| 0 <= p < parts.0.len() && #[trigger] node_files(parts.0[p]).contains(x))
                || (exists|p: int| 0 <= p < parts.1.len() && #[trigger] node_files(parts.1[p]).contains(x))
        } <==> exists|m: int| 0 <= m < k && entry_yields(items[#[trigger] order[m]], x, show_hidden)),
    decreases items, 0nat, k,
{
    if k > 0 {
        lemma_parts_files(items, order, (k - 1) as nat, x, show_hidden);
        let prev = scan_parts(items, order, (k - 1) as nat, show_hidden);
        let parts = scan_parts(items, order, k, show_hidden);
        let j = order[k - 1];
        assert(0 <= j < items.len());
        let it = items[j];
        let new_yields = entry_yields(it, x, show_hidden);
        // what the k-th entry adds
        let added = (exists|p: int| 0 <= p < parts.0.len() && #[trigger] node_files(parts.0[p]).contains(x))
            || (exists|p: int| 0 <= p < parts.1.len() && #[trigger] node_files(parts.1[p]).contains(x));
        let before = (exists|p: int| 0 <= p < prev.0.len() && #[trigger] node_files(prev.0[p]).contains(x))
            || (exists|p: int| 0 <= p < prev.1.len() && #[trigger] node_files(prev.1[p]).contains(x));
        if !skipped(it, show_hidden) {
            match it.kind {
                EntryKind::Directory(children) => {
                    assert(decreases_to!(items => items[j]));
                    lemma_tree_files_exact(children@, x, show_hidden);
                    let sub = scan_entries(children@, show_hidden);
                    lemma_tree_files_members(sub, sub.len(), x);
                    if sub.len() > 0 {
                        assert(parts.0 == prev.0.push(folder_node(it, sub)));
                        assert(node_files(folder_node(it, sub)) == tree_files_upto(sub, sub.len()));
                        assert(added == (before || new_yields)) by {
                            if added {
                                if exists|p: int| 0 <= p < parts.0.len() && #[trigger] node_files(parts.0[p]).contains(x) {
                                    let p = choose|p: int| 0 <= p < parts.0.len() && #[trigger] node_files(parts.0[p]).contains(x);
                                    if p < prev.0.len() {
                                        assert(node_files(prev.0[p]).contains(x));
                                    } else {
                                        assert(parts.0[p] == folder_node(it, sub));
                                        assert(tree_files(sub).contains(x));
                                        assert(new_yields);
                                    }
                                }
                                if exists|p: int| 0 <= p < parts.1.len() && #[trigger] node_files(parts.1[p]).contains(x) {
                                    let p = choose|p: int| 0 <= p < parts.1.len() && #[trigger] node_files(parts.1[p]).contains(x);
                                    assert(parts.1 == prev.1);
                                    assert(node_files(prev.1[p]).contains(x));
                                }
                            }
                            if before {
                                if exists|p: int| 0 <= p < prev.0.len() && #[trigger] node_files(prev.0[p]).contains(x) {
                                    let p = choose|p: int| 0 <= p < prev.0.len() && #[trigger] node_files(prev.0[p]).contains(x);
                                    assert(node_files(parts.0[p]).contains(x));
                                }
                            }
                            if before {
                                if exists|p: int| 0 <= p < prev.1.len() && #[trigger] node_files(prev.1[p]).contains(x) {
                                    let p = choose|p: int| 0 <= p < prev.1.len() && #[trigger] node_files(prev.1[p]).contains(x);
                                    assert(parts.1 == prev.1);
                                    assert(node_files(parts.1[p]).contains(x));
                                }
                            }
                            if new_yields {
                                assert(tree_files(sub).contains(x));
                                assert(parts.0[prev.0.len() as int] == folder_node(it, sub));
                                assert(node_files(parts.0[prev.0.len() as int]).contains(x));
                            }
                        }
                    } else {
                        assert(!new_yields) by {
                            if new_yields {
                                let p = choose|p: int| 0 <= p < sub.len() && #[trigger] node_files(sub[p]).contains(x);
                            }
                        }
                    }
                },
                EntryKind::File => {
                    if is_markdown_name(it.name@) {
                        assert(parts.1 == prev.1.push(file_node(it)));
                        assert(node_files(file_node(it)) == set![display_path_spec(it.path@)]);
                        assert(added == (before || new_yields)) by {
                            if added {
                                if exists|p: int| 0 <= p < parts.1.len() && #[trigger] node_files(parts.1[p]).contains(x) {
                                    let p = choose|p: int| 0 <= p < parts.1.len() && #[trigger] node_files(parts.1[p]).contains(x);
                                    if p < prev.1.len() {
                                        assert(node_files(prev.1[p]).contains(x));
                                    }
                                }
                            }
                            if before {
                                if exists|p: int| 0 <= p < prev.1.len() && #[trigger] node_files(prev.1[p]).contains(x) {
                                    let p = choose|p: int| 0 <= p < prev.1.len() && #[trigger] node_files(prev.1[p]).contains(x);
                                    assert(node_files(parts.1[p]).contains(x));
                                }
                            }
                            if new_yields {
                                assert(node_files(parts.1[prev.1.len() as int]).contains(x));
                            }
                        }
                    }
                },
                EntryKind::Other => {},
            }
        }
        assert((exists|m: int| 0 <= m < k && entry_yields(items[#[trigger] order[m]], x, show_hidden)) == ((exists|m: int|
            0 <= m < k - 1 && entry_yields(items[#[trigger] order[m]], x, show_hidden)) || new_yields)) by {
            if exists|m: int| 0 <= m < k && entry_yields(items[#[trigger] order[m]], x, show_hidden) {
                let m = choose|m: int| 0 <= m < k && entry_yields(items[#[trigger] order[m]], x, show_hidden);
                if m < k - 1 {
                    assert(entry_yields(items[order[m]], x, show_hidden));
                }
            }
            if new_yields {
                assert(entry_yields(items[order[k - 1]], x, show_hidden));
            }
            if exists|m: int| 0 <= m < k - 1 && entry_yields(items[#[trigger] order[m]], x, show_hidden) {
                let m = choose|m: int| 0 <= m < k - 1 && entry_yields(items[#[trigger] order[m]], x, show_hidden);
                assert(entry_yields(items[order[m]], x, show_hidden));
            }
        }
    }
}

proof fn lemma_tree_files_exact(items: Seq<DirItem>, x: Seq<char>, show_hidden: bool)
    ensures
        tree_files(scan_entries(items, show_hidden)).contains(x) <==> exists|p: Seq<char>|
            #[trigger] markdown_paths(items, show_hidden).contains(p) && display_path_spec(p) == x,
    decreases items, 1nat, 0nat,
{
    let keys = item_names(items);
    let order = name_order(items);
    lemma_key_order(keys, items.len());
    let n = order.len();
    lemma_parts_files(items, order, n, x, show_hidden);
    let parts = scan_parts(items, order, n, show_hidden);
    let r = scan_entries(items, show_hidden);
    assert(r == parts.0 + parts.1);
    lemma_tree_files_members(r, r.len(), x);
    assert((exists|p: int| 0 <= p < r.len() && #[trigger] node_files(r[p]).contains(x)) == ((exists|p: int|
        0 <= p < parts.0.len() && #[trigger] node_files(parts.0[p]).contains(x)) || (exists|p: int|
        0 <= p < parts.1.len() && #[trigger] node_files(parts.1[p]).contains(x)))) by {
        let f = parts.0.len();
        if exists|p: int| 0 <= p < r.len() && #[trigger] node_files(r[p]).contains(x) {
            let p = choose|p: int| 0 <= p < r.len() && #[trigger] node_files(r[p]).contains(x);
            if p < f {
                assert(r[p] == parts.0[p]);
            } else {
                assert(r[p] == parts.1[p - f]);
            }
        }
        if exists|p: int| 0 <= p < parts.0.len() && #[trigger] node_files(parts.0[p]).contains(x) {
            let p = choose|p: int| 0 <= p < parts.0.len() && #[trigger] node_files(parts.0[p]).contains(x);
            assert(r[p] == parts.0[p]);
        }
        if exists|p: int| 0 <= p < parts.1.len() && #[trigger] node_files(parts.1[p]).contains(x) {
            let p = choose|p: int| 0 <= p < parts.1.len() && #[trigger] node_files(parts.1[p]).contains(x);
            assert(r[f + p] == parts.1[p]);
        }
    }
    lemma_markdown_paths_members(items, items.len(), x, show_hidden);
    assert(markdown_paths(items, show_hidden) == markdown_paths_upto(items, items.len(), show_hidden));
    assert(tree_files(r) == tree_files_upto(r, r.len()));
    // the sort visits every entry exactly once
    assert((exists|m: int| 0 <= m < n && entry_yields(items[#[trigger] order[m]], x, show_hidden)) == (exists|j: int|
        0 <= j < items.len() && entry_yields(#[trigger] items[j], x, show_hidden))) by {
        if exists|m: int| 0 <= m < n && entry_yields(items[#[trigger] order[m]], x, show_hidden) {
            let m = choose|m: int| 0 <= m < n && entry_yields(items[#[trigger] order[m]], x, show_hidden);
            assert(0 <= order[m] < items.len());
            assert(entry_yields(items[order[m]], x, show_hidden));
        }
        if exists|j: int| 0 <= j < items.len() && entry_yields(#[trigger] items[j], x, show_hidden) {
            let j = choose|j: int| 0 <= j < items.len() && entry_yields(#[trigger] items[j], x, show_hidden);
            assert(order.contains(j));
            let m = choose|m: int| 0 <= m < order.len() && order[m] == j;
            assert(entry_yields(items[order[m]], x, show_hidden));
        }
    }
}

/// The navigation tree shows exactly the markdown files that collecting the
/// folder's markdown files finds, each under its displayed path.
pub proof fn lemma_tree_shows_collected_files(items: Seq<DirItem>, show_hidden: bool)
    ensures
        tree_files(scan_entries(items, show_hidden)) == markdown_paths(items, show_hidden).map(
            |p: Seq<char>| display_path_spec(p),
        ),
{
    let t = tree_files(scan_entries(items, show_hidden));
    let m = markdown_paths(items, show_hidden).map(|p: Seq<char>| display_path_spec(p));
    assert forall|x: Seq<char>| t.contains(x) <==> m.contains(x) by {
        lemma_tree_files_exact(items, x, show_hidden);
        if m.contains(x) {
            let p = choose|p: Seq<char>| markdown_paths(items, show_hidden).contains(p) && display_path_spec(p) == x;
            assert(markdown_paths(items, show_hidden).contains(p) && display_path_spec(p) == x);
        }
        if t.contains(x) {
            let p = choose|p: Seq<char>| #[trigger] markdown_paths(items, show_hidden).contains(p) && display_path_spec(p) == x;
            assert(m.contains(display_path_spec(p)));
        }
    }
    assert(t =~= m);
}

proof fn lemma_markdown_paths_upto_hidden(items: Seq<DirItem>, k: nat)
    ensures
        markdown_paths_upto(items, k, false).subset_of(markdown_paths_upto(items, k, true)),
    decreases items, 0nat, k,
{
    if k > 0 && k <= items.len() {
        lemma_markdown_paths_upto_hidden(items, (k - 1) as nat);
        let it = items[k - 1];
        if !it.hidden {
            match it.kind {
                EntryKind::Directory(children) => {
                    assert(decreases_to!(items => items[k - 1]));
                    lemma_markdown_paths_hidden(children@);
                },
                _ => {},
            }
        }
    }
}

/// Showing hidden entries only adds to what a scan finds: every markdown file
/// collected without hidden entries is collected with them too.
pub proof fn lemma_markdown_paths_hidden(items: Seq<DirItem>)
    ensures
        markdown_paths(items, false).subset_of(markdown_paths(items, true)),
    decreases items, 1nat, 0nat,
{
    lemma_markdown_paths_upto_hidden(items, items.len());
}

/// Showing hidden entries only adds to the navigation tree: every file the
/// tree shows without hidden entries, at any depth, it shows with them too.
pub proof fn lemma_tree_hidden_shown(items: Seq<DirItem>)
    ensures
        tree_files(scan_entries(items, false)).subset_of(tree_files(scan_entries(items, true))),
{
    lemma_markdown_paths_hidden(items);
    lemma_tree_shows_collected_files(items, false);
    lemma_tree_shows_collected_files(items, true);
    assert forall|x: Seq<char>| #[trigger] tree_files(scan_entries(items, false)).contains(x) implies tree_files(
        scan_entries(items, true),
    ).contains(x) by {
        let p = choose|p: Seq<char>| markdown_paths(items, false).contains(p) && display_path_spec(p) == x;
        assert(markdown_paths(items, true).contains(p));
    }
}

/// The paths of a list of (name, path) pairs.
pub open spec fn pair_paths(v: Seq<(Seq<char>, Seq<char>)>) -> Set<Seq<char>>
    decreases v.len(),
{
    if v.len() == 0 {
        Set::empty()
    } else {
        pair_paths(v.drop_last()).insert(v.last().1)
    }
}

/// The listings of the visible subdirectories among the first `k` entries of
/// `order`: the contents of the folders `dir_scan_parts` lists, in its order.
pub open spec fn subdir_listings(items: Seq<DirItem>, order: Seq<int>, k: nat, show_hidden: bool) -> Seq<Seq<DirItem>>
    decreases k,
{
    if k == 0 || k > order.len() {
        Seq::empty()
    } else {
        let prev = subdir_listings(items, order, (k - 1) as nat, show_hidden);
        let j = order[k - 1];
        if 0 <= j < items.len() && !skipped(items[j], show_hidden) {
            match items[j].kind {
                EntryKind::Directory(children) => prev.push(children@),
                _ => prev,
            }
        } else {
            prev
        }
    }
}

/// The markdown files beneath a queue of listings still to be walked.
pub open spec fn files_beneath(pending: Seq<Seq<DirItem>>, show_hidden: bool) -> Set<Seq<char>>
    decreases pending.len(),
{
    if pending.len() == 0 {
        Set::empty()
    } else {
        files_beneath(pending.drop_last(), show_hidden).union(markdown_paths(pending.last(), show_hidden))
    }
}

/// What one step of the progressive walk registers from a listing: the paths
/// of the markdown files that `scan_directory_entries` lists.
pub open spec fn step_files(items: Seq<DirItem>, show_hidden: bool) -> Set<Seq<char>> {
    pair_paths(dir_scan_parts(items, name_order(items), items.len(), show_hidden).1)
}

/// What one step of the progressive walk queues from a listing: the listings
/// of the subdirectories that `scan_directory_entries` lists.
pub open spec fn step_subdirs(items: Seq<DirItem>, show_hidden: bool) -> Seq<Seq<DirItem>> {
    subdir_listings(items, name_order(items), items.len(), show_hidden)
}

/// Whether the markdown path `x` is found through the entry `it`.
pub open spec fn entry_holds(it: DirItem, x: Seq<char>, show_hidden: bool) -> bool {
    !skipped(it, show_hidden) && match it.kind {
        EntryKind::Directory(c) => markdown_paths(c@, show_hidden).contains(x),
        EntryKind::File => is_markdown_name(it.name@) && it.path@ == x,
        EntryKind::Other => false,
    }
}

proof fn lemma_holds_members(items: Seq<DirItem>, k: nat, x: Seq<char>, show_hidden: bool)
    requires
        k <= items.len(),
    ensures
        markdown_paths_upto(items, k, show_hidden).contains(x) <==> exists|j: int|
            0 <= j < k && entry_holds(#[trigger] items[j], x, show_hidden),
    decreases k,
{
    if k > 0 {
        lemma_holds_members(items, (k - 1) as nat, x, show_hidden);
        if entry_holds(items[k - 1], x, show_hidden) {
            assert(entry_holds(items[(k - 1) as int], x, show_hidden));
        }
        if exists|j: int| 0 <= j < k && entry_holds(#[trigger] items[j], x, show_hidden) {
            let j = choose|j: int| 0 <= j < k && entry_holds(#[trigger] items[j], x, show_hidden);
            if j < k - 1 {
                assert(exists|jj: int| 0 <= jj < k - 1 && entry_holds(#[trigger] items[jj], x, show_hidden));
            }
        }
    }
}

proof fn lemma_files_beneath_members(pending: Seq<Seq<DirItem>>, x: Seq<char>, show_hidden: bool)
    ensures
        files_beneath(pending, show_hidden).contains(x) <==> exists|i: int|
            0 <= i < pending.len() && #[trigger] markdown_paths(pending[i], show_hidden).contains(x),
    decreases pending.len(),
{
    if pending.len() > 0 {
        let init = pending.drop_last();
        lemma_files_beneath_members(init, x, show_hidden);
        if markdown_paths(pending.last(), show_hidden).contains(x) {
            assert(markdown_paths(pending[pending.len() - 1], show_hidden).contains(x));
        }
        if exists|i: int| 0 <= i < init.len() && #[trigger] markdown_paths(init[i], show_hidden).contains(x) {
            let i = choose|i: int| 0 <= i < init.len() && #[trigger] markdown_paths(init[i], show_hidden).contains(x);
            assert(pending[i] == init[i]);
        }
        if exists|i: int| 0 <= i < pending.len() && #[trigger] markdown_paths(pending[i], show_hidden).contains(x) {
            let i = choose|i: int| 0 <= i < pending.len() && #[trigger] markdown_paths(pending[i], show_hidden).contains(x);
            if i < init.len() {
                assert(init[i] == pending[i]);
            }
        }
    }
}

proof fn lemma_step_parts_members(items: Seq<DirItem>, order: Seq<int>, k: nat, x: Seq<char>, show_hidden: bool)
    requires
        k <= order.len(),
        forall|m: int| 0 <= m < order.len() ==> 0 <= #[trigger] order[m] < items.len(),
    ensures
        pair_paths(dir_scan_parts(items, order, k, show_hidden).1).contains(x) || files_beneath(
            subdir_listings(items, order, k, show_hidden),
            show_hidden,
        ).contains(x) <==> exists|m: int| 0 <= m < k && entry_holds(items[#[trigger] order[m]], x, show_hidden),
    decreases k,
{
    if k > 0 {
        lemma_step_parts_members(items, order, (k - 1) as nat, x, show_hidden);
        let prev = dir_scan_parts(items, order, (k - 1) as nat, show_hidden);
        let cur = dir_scan_parts(items, order, k, show_hidden);
        let sprev = subdir_listings(items, order, (k - 1) as nat, show_hidden);
        let scur = subdir_listings(items, order, k, show_hidden);
        let j = order[k - 1];
        assert(0 <= j < items.len());
        let it = items[j];
        let was = exists|m: int| 0 <= m < k - 1 && entry_holds(items[#[trigger] order[m]], x, show_hidden);
        let now = exists|m: int| 0 <= m < k && entry_holds(items[#[trigger] order[m]], x, show_hidden);
        assert(now == (was || entry_holds(it, x, show_hidden))) by {
            if now {
                let m = choose|m: int| 0 <= m < k && entry_holds(items[#[trigger] order[m]], x, show_hidden);
                if m < k - 1 {
                    assert(was);
                }
            }
            if was {
                let m = choose|m: int| 0 <= m < k - 1 && entry_holds(items[#[trigger] order[m]], x, show_hidden);
                assert(entry_holds(items[order[m]], x, show_hidden));
            }
            if entry_holds(it, x, show_hidden) {
                assert(entry_holds(items[order[k - 1]], x, show_hidden));
            }
        }
        if !skipped(it, show_hidden) {
            match it.kind {
                EntryKind::Directory(children) => {
                    assert(scur == sprev.push(children@));
                    assert(scur.drop_last() =~= sprev);
                    assert(cur.1 == prev.1);
                },
                EntryKind::File => {
                    assert(scur == sprev);
                    if is_markdown_name(it.name@) {
                        assert(cur.1 == prev.1.push((it.name@, it.path@)));
                        assert(cur.1.drop_last() =~= prev.1);
                    }
                },
                EntryKind::Other => {},
            }
        }
    }
}

/// One step of the progressive walk keeps what is left to find: the markdown
/// files a listing holds, at any depth, are exactly those the step registers
/// from it together with those beneath the subdirectories it queues.
pub proof fn lemma_walk_step_covers_listing(items: Seq<DirItem>, show_hidden: bool)
    ensures
        markdown_paths(items, show_hidden) == step_files(items, show_hidden).union(
            files_beneath(step_subdirs(items, show_hidden), show_hidden),
        ),
{
    let order = name_order(items);
    let n = items.len();
    lemma_key_order(item_names(items), n);
    assert forall|x: Seq<char>| #[trigger] markdown_paths(items, show_hidden).contains(x) <==> step_files(
        items,
        show_hidden,
    ).union(files_beneath(step_subdirs(items, show_hidden), show_hidden)).contains(x) by {
        lemma_holds_members(items, n, x, show_hidden);
        lemma_step_parts_members(items, order, n, x, show_hidden);
        if exists|m: int| 0 <= m < n && entry_holds(items[#[trigger] order[m]], x, show_hidden) {
            let m = choose|m: int| 0 <= m < n && entry_holds(items[#[trigger] order[m]], x, show_hidden);
            assert(order.contains(order[m]));
            assert(entry_holds(items[order[m]], x, show_hidden));
        }
        if exists|j: int| 0 <= j < n && entry_holds(#[trigger] items[j], x, show_hidden) {
            let j = choose|j: int| 0 <= j < n && entry_holds(#[trigger] items[j], x, show_hidden);
            assert(order.contains(j));
            let m = choose|m: int| 0 <= m < order.len() && order[m] == j;
            assert(entry_holds(items[order[m]], x, show_hidden));
        }
    }
    assert(markdown_paths(items, show_hidden) =~= step_files(items, show_hidden).union(
        files_beneath(step_subdirs(items, show_hidden), show_hidden),
    ));
}

/// The progressive walk finds what collecting finds. It starts with nothing
/// registered and the root listing queued, so that registered and queued
/// files together are `markdown_paths` of the root (`collect_markdown_files`);
/// each step takes the first queued listing, registers `step_files` of it and
/// queues `step_subdirs` of it at the end, which keeps that total; so when
/// the queue runs dry, the registered files are exactly those collected.
pub proof fn lemma_walk_fills_collected_files(
    root: Seq<DirItem>,
    registered: Set<Seq<char>>,
    pending: Seq<Seq<DirItem>>,
    show_hidden: bool,
)
    ensures
        files_beneath(seq![root], show_hidden) == markdown_paths(root, show_hidden),
        pending.len() > 0 ==> registered.union(step_files(pending[0], show_hidden)).union(
            files_beneath(pending.drop_first() + step_subdirs(pending[0], show_hidden), show_hidden),
        ) == registered.union(files_beneath(pending, show_hidden)),
        files_beneath(Seq::empty(), show_hidden) == Set::<Seq<char>>::empty(),
{
    let one = seq![root];
    assert(one.len() == 1 && one.last() == root);
    assert(one.drop_last() =~= Seq::<Seq<DirItem>>::empty());
    assert(files_beneath(one.drop_last(), show_hidden) == Set::<Seq<char>>::empty());
    assert(files_beneath(one, show_hidden) =~= markdown_paths(root, show_hidden));
    if pending.len() > 0 {
        let first = pending[0];
        let subs = step_subdirs(first, show_hidden);
        let next = pending.drop_first() + subs;
        lemma_walk_step_covers_listing(first, show_hidden);
        let lhs = registered.union(step_files(first, show_hidden)).union(files_beneath(next, show_hidden));
        let rhs = registered.union(files_beneath(pending, show_hidden));
        assert forall|x: Seq<char>| lhs.contains(x) <==> rhs.contains(x) by {
            lemma_files_beneath_members(next, x, show_hidden);
            lemma_files_beneath_members(pending, x, show_hidden);
            lemma_files_beneath_members(subs, x, show_hidden);
            if exists|i: int| 0 <= i < next.len() && #[trigger] markdown_paths(next[i], show_hidden).contains(x) {
                let i = choose|i: int| 0 <= i < next.len() && #[trigger] markdown_paths(next[i], show_hidden).contains(x);
                if i < pending.len() - 1 {
                    assert(next[i] == pending[i + 1]);
                    assert(markdown_paths(pending[i + 1], show_hidden).contains(x));
                } else {
                    assert(next[i] == subs[i - (pending.len() - 1)]);
                    assert(markdown_paths(subs[i - (pending.len() - 1)], show_hidden).contains(x));
                    assert(markdown_paths(first, show_hidden).contains(x));
                    assert(markdown_paths(pending[0], show_hidden).contains(x));
                }
            }
            if step_files(first, show_hidden).contains(x) {
                assert(markdown_paths(pending[0], show_hidden).contains(x));
            }
            if exists|i: int| 0 <= i < pending.len() && #[trigger] markdown_paths(pending[i], show_hidden).contains(x) {
                let i = choose|i: int| 0 <= i < pending.len() && #[trigger] markdown_paths(pending[i], show_hidden).contains(x);
                if i == 0 {
                    if !step_files(first, show_hidden).contains(x) {
                        assert(files_beneath(subs, show_hidden).contains(x));
                        let t = choose|t: int| 0 <= t < subs.len() && #[trigger] markdown_paths(subs[t], show_hidden).contains(x);
                        assert(next[pending.len() - 1 + t] == subs[t]);
                        assert(markdown_paths(next[pending.len() - 1 + t], show_hidden).contains(x));
                    }
                } else {
                    assert(next[i - 1] == pending[i]);
                    assert(markdown_paths(next[i - 1], show_hidden).contains(x));
                }
            }
        }
        assert(lhs =~= rhs);
    }
}

/// The listing held by a directory entry (empty for any other entry).
pub open spec fn listing_of(it: DirItem) -> Seq<DirItem> {
    match it.kind {
        EntryKind::Directory(c) => c@,
        _ => Seq::empty(),
    }
}

/// The listings the walk queues belong, one for one and in order, to the
/// subdirectories `scan_directory_entries` lists: the i-th is the contents of
/// the directory entry with the i-th listed name and path.
pub proof fn lemma_subdir_listings_match(items: Seq<DirItem>, order: Seq<int>, k: nat, show_hidden: bool)
    requires
        k <= order.len(),
    ensures
        subdir_listings(items, order, k, show_hidden).len() == dir_scan_parts(items, order, k, show_hidden).0.len(),
        forall|i: int|
            0 <= i < subdir_listings(items, order, k, show_hidden).len() ==> exists|j: int|
                0 <= j < items.len() && (#[trigger] items[j]).kind is Directory && listing_of(items[j])
                    == #[trigger] subdir_listings(items, order, k, show_hidden)[i] && dir_scan_parts(items, order, k, show_hidden).0[i]
                    == (items[j].name@, items[j].path@),
    decreases k,
{
    if k > 0 {
        lemma_subdir_listings_match(items, order, (k - 1) as nat, show_hidden);
        let sprev = subdir_listings(items, order, (k - 1) as nat, show_hidden);
        let scur = subdir_listings(items, order, k, show_hidden);
        let prev = dir_scan_parts(items, order, (k - 1) as nat, show_hidden);
        let cur = dir_scan_parts(items, order, k, show_hidden);
        let j = order[k - 1];
        assert forall|i: int| 0 <= i < scur.len() implies exists|jj: int|
            0 <= jj < items.len() && (#[trigger] items[jj]).kind is Directory && listing_of(items[jj]) == #[trigger] scur[i]
                && cur.0[i] == (items[jj].name@, items[jj].path@) by {
            if i < sprev.len() {
                let jj = choose|jj: int|
                    0 <= jj < items.len() && (#[trigger] items[jj]).kind is Directory && listing_of(items[jj]) == sprev[i]
                        && prev.0[i] == (items[jj].name@, items[jj].path@);
                assert(scur[i] == sprev[i]);
                assert(cur.0[i] == prev.0[i]);
            } else {
                assert(items[j].kind is Directory);
                assert(listing_of(items[j]) == scur[i]);
            }
        }
    }
}

/// The chain of a file reached from `root` through the folders `names`: a
/// file at `root/n1/.../nk/f`, all of them plain, is a plain path, and the
/// chain's names are `n1, ..., nk` (none for a file directly in `root`).
pub proof fn lemma_chain_names_of_descent(root: Seq<char>, names: Seq<Seq<char>>, f: Seq<char>)
    requires
        plain_path(root),
        forall|i: int| 0 <= i < names.len() ==> plain_name(#[trigger] names[i]),
        plain_name(f),
    ensures
        plain_path(descend(root, names.push(f))),
        path_chain_names(root, descend(root, names.push(f))) == names,
{
    let all = names.push(f);
    assert forall|i: int| 0 <= i < all.len() implies plain_name(#[trigger] all[i]) by {
        if i < names.len() {
            assert(all[i] == names[i]);
        }
    }
    lemma_descend_plain(root, all);
    let dir = descend(root, names);
    assert(all.drop_last() =~= names);
    let file = descend(root, all);
    assert(file == dir + seq!['/'] + f);
    assert forall|i: int| 0 <= i < f.len() implies #[trigger] f[i] != '/' by {}
    lemma_last_slash_before(dir, f);
    lemma_descend_plain(root, names);
    assert(dir.len() > 0);
    assert(parent_spec(file) =~= dir);
    if names.len() == 0 {
        assert(dir == root);
        assert(!under(dir, root));
    } else {
        lemma_descend_split(root, names);
        let j = descend(names[0], names.drop_first());
        assert(dir.subrange(0, root.len() as int) =~= root);
        assert(dir[root.len() as int] == '/');
        assert(dir.subrange(root.len() + 1int, dir.len() as int) =~= j);
        assert(plain_name(names[0]));
        let rest = names.drop_first();
        assert forall|i: int| 0 <= i < rest.len() implies plain_name(#[trigger] rest[i]) by {
            assert(rest[i] == names[i + 1]);
        }
        lemma_segments_descend(names[0], rest);
        assert(seq![names[0]] + rest =~= names);
    }
}

/// When every file a step found is still present, `scan_batch` registers
/// exactly `pair_paths` of them: with `dir_scan_parts` of the listing, which
/// `ScanWalk::visit` returns, that is `step_files` of the listing, the step
/// that `lemma_walk_fills_collected_files` speaks of.
pub proof fn lemma_present_step_registers(v: Seq<(Seq<char>, Seq<char>)>, present: Seq<bool>)
    requires
        present.len() == v.len(),
        forall|i: int| 0 <= i < present.len() ==> #[trigger] present[i],
    ensures
        pair_path_seq(select(v, present)).to_set() == pair_paths(v),
    decreases v.len(),
{
    if v.len() > 0 {
        let pi = present.drop_last();
        assert forall|i: int| 0 <= i < pi.len() implies #[trigger] pi[i] by {
            assert(pi[i] == present[i]);
        }
        lemma_present_step_registers(v.drop_last(), pi);
        assert(present[present.len() - 1]);
        let prev = select(v.drop_last(), pi);
        assert(select(v, present) == prev.push(v.last()));
        let a = pair_path_seq(prev);
        let b = pair_path_seq(prev.push(v.last()));
        assert(b =~= a.push(v.last().1));
        assert forall|x: Seq<char>| b.contains(x) <==> a.contains(x) || x == v.last().1 by {
            if b.contains(x) {
                let k = choose|k: int| 0 <= k < b.len() && b[k] == x;
                if k < a.len() {
                    assert(a[k] == x);
                }
            }
            if a.contains(x) {
                let k = choose|k: int| 0 <= k < a.len() && a[k] == x;
                assert(b[k] == x);
            }
            if x == v.last().1 {
                assert(b[a.len() as int] == x);
            }
        }
        assert(b.to_set() =~= a.to_set().insert(v.last().1));
    }
}

/// The tree node a listing entry gives, if any: a folder node for a visible
/// directory with something beneath it, a file node for a visible markdown
/// file.
pub open spec fn entry_node(it: DirItem, show_hidden: bool) -> Option<FolderEntryView> {
    if skipped(it, show_hidden) {
        None
    } else {
        match it.kind {
            EntryKind::Directory(c) => {
                let sub = scan_entries(c@, show_hidden);
                if sub.len() > 0 {
                    Some(folder_node(it, sub))
                } else {
                    None
                }
            },
            EntryKind::File => if is_markdown_name(it.name@) {
                Some(file_node(it))
            } else {
                None
            },
            EntryKind::Other => None,
        }
    }
}

proof fn lemma_parts_nodes(items: Seq<DirItem>, order: Seq<int>, k: nat, show_hidden: bool, n: FolderEntryView)
    requires
        k <= order.len(),
        forall|m: int| 0 <= m < order.len() ==> 0 <= #[trigger] order[m] < items.len(),
    ensures
        ({
            let parts = scan_parts(items, order, k, show_hidden);
            (parts.0 + parts.1).contains(n)
        } <==> exists|m: int| 0 <= m < k && entry_node(items[#[trigger] order[m]], show_hidden) == Some(n)),
    decreases k,
{
    if k > 0 {
        lemma_parts_nodes(items, order, (k - 1) as nat, show_hidden, n);
        let prev = scan_parts(items, order, (k - 1) as nat, show_hidden);
        let parts = scan_parts(items, order, k, show_hidden);
        let j = order[k - 1];
        assert(0 <= j < items.len());
        let it = items[j];
        let pa = prev.0 + prev.1;
        let ca = parts.0 + parts.1;
        let was = exists|m: int| 0 <= m < k - 1 && entry_node(items[#[trigger] order[m]], show_hidden) == Some(n);
        let now = exists|m: int| 0 <= m < k && entry_node(items[#[trigger] order[m]], show_hidden) == Some(n);
        assert(now == (was || entry_node(it, show_hidden) == Some(n))) by {
            if now {
                let m = choose|m: int| 0 <= m < k && entry_node(items[#[trigger] order[m]], show_hidden) == Some(n);
                if m < k - 1 {
                    assert(was);
                }
            }
            if was {
                let m = choose|m: int| 0 <= m < k - 1 && entry_node(items[#[trigger] order[m]], show_hidden) == Some(n);
                assert(entry_node(items[order[m]], show_hidden) == Some(n));
            }
            if entry_node(it, show_hidden) == Some(n) {
                assert(entry_node(items[order[k - 1]], show_hidden) == Some(n));
            }
        }
        match entry_node(it, show_hidden) {
            Some(x) => {
                if x.is_folder {
                    assert(parts.0 == prev.0.push(x) && parts.1 == prev.1) by {
                        match it.kind {
                            EntryKind::Directory(c) => {},
                            _ => {},
                        }
                    }
                    assert forall|y: FolderEntryView| ca.contains(y) <==> pa.contains(y) || y == x by {
                        let f = prev.0.len() as int;
                        if ca.contains(y) {
                            let p = choose|p: int| 0 <= p < ca.len() && ca[p] == y;
                            if p < f {
                                assert(pa[p] == y);
                            } else if p > f {
                                assert(pa[p - 1] == y);
                            }
                        }
                        if pa.contains(y) {
                            let p = choose|p: int| 0 <= p < pa.len() && pa[p] == y;
                            if p < f {
                                assert(ca[p] == y);
                            } else {
                                assert(ca[p + 1] == y);
                            }
                        }
                        if y == x {
                            assert(ca[f] == y);
                        }
                    }
                } else {
                    assert(parts.1 == prev.1.push(x) && parts.0 == prev.0) by {
                        match it.kind {
                            EntryKind::Directory(c) => {},
                            _ => {},
                        }
                    }
                    assert(ca =~= pa.push(x));
                    if ca.contains(n) {
                        let p = choose|p: int| 0 <= p < ca.len() && ca[p] == n;
                        if p < pa.len() {
                            assert(pa[p] == n);
                        }
                    }
                    if pa.contains(n) {
                        let p = choose|p: int| 0 <= p < pa.len() && pa[p] == n;
                        assert(ca[p] == n);
                    }
                    if n == x {
                        assert(ca[pa.len() as int] == n);
                    }
                }
            },
            None => {
                assert(parts == prev) by {
                    match it.kind {
                        EntryKind::Directory(c) => {},
                        _ => {},
                    }
                }
            },
        }
    }
}

/// The nodes at the top of a listing's tree are exactly the nodes its
/// entries give.
pub proof fn lemma_scan_nodes(items: Seq<DirItem>, show_hidden: bool, n: FolderEntryView)
    ensures
        scan_entries(items, show_hidden).contains(n) <==> exists|j: int|
            0 <= j < items.len() && entry_node(#[trigger] items[j], show_hidden) == Some(n),
{
    let order = name_order(items);
    lemma_key_order(item_names(items), items.len());
    lemma_parts_nodes(items, order, order.len(), show_hidden, n);
    if exists|m: int| 0 <= m < order.len() && entry_node(items[#[trigger] order[m]], show_hidden) == Some(n) {
        let m = choose|m: int| 0 <= m < order.len() && entry_node(items[#[trigger] order[m]], show_hidden) == Some(n);
        assert(order.contains(order[m]));
        assert(entry_node(items[order[m]], show_hidden) == Some(n));
    }
    if exists|j: int| 0 <= j < items.len() && entry_node(#[trigger] items[j], show_hidden) == Some(n) {
        let j = choose|j: int| 0 <= j < items.len() && entry_node(#[trigger] items[j], show_hidden) == Some(n);
        assert(order.contains(j));
        let m = choose|m: int| 0 <= m < order.len() && order[m] == j;
        assert(entry_node(items[order[m]], show_hidden) == Some(n));
    }
}

/// A listing whose tree is not empty without hidden entries has a tree that
/// is not empty with them.
proof fn lemma_scan_nonempty_hidden(items: Seq<DirItem>)
    ensures
        scan_entries(items, false).len() > 0 ==> scan_entries(items, true).len() > 0,
    decreases items,
{
    let a = scan_entries(items, false);
    if a.len() > 0 {
        let n = a[0];
        assert(a.contains(n));
        lemma_scan_nodes(items, false, n);
        let j = choose|j: int| 0 <= j < items.len() && entry_node(#[trigger] items[j], false) == Some(n);
        let it = items[j];
        match it.kind {
            EntryKind::Directory(c) => {
                assert(decreases_to!(items => items[j]));
                lemma_scan_nonempty_hidden(c@);
                let x = folder_node(it, scan_entries(c@, true));
                assert(entry_node(items[j], true) == Some(x));
                lemma_scan_nodes(items, true, x);
            },
            _ => {
                assert(entry_node(items[j], true) == Some(n));
                lemma_scan_nodes(items, true, n);
            },
        }
    }
}

/// Whether the tree `s` has a node with the first (name, path) of `route` at
/// its top, with the next among that node's children, and so on.
pub open spec fn has_route(s: Seq<FolderEntryView>, route: Seq<(Seq<char>, Seq<char>)>) -> bool
    decreases route.len(),
{
    if route.len() == 0 {
        true
    } else {
        exists|n: FolderEntryView|
            #[trigger] s.contains(n) && (n.name, n.path) == route[0] && (route.len() == 1 || (n.children is Some
                && has_route(n.children->0, route.drop_first())))
    }
}

/// Showing hidden entries keeps the tree shown without them: every node of
/// the tree without hidden entries, at any depth, is in the tree with them,
/// under folders of the same names and paths.
pub proof fn lemma_tree_hidden_routes(items: Seq<DirItem>, route: Seq<(Seq<char>, Seq<char>)>)
    ensures
        has_route(scan_entries(items, false), route) ==> has_route(scan_entries(items, true), route),
    decreases route.len(),
{
    let a = scan_entries(items, false);
    let b = scan_entries(items, true);
    if route.len() > 0 && has_route(a, route) {
        let n = choose|n: FolderEntryView|
            #[trigger] a.contains(n) && (n.name, n.path) == route[0] && (route.len() == 1 || (n.children is Some
                && has_route(n.children->0, route.drop_first())));
        lemma_scan_nodes(items, false, n);
        let j = choose|j: int| 0 <= j < items.len() && entry_node(#[trigger] items[j], false) == Some(n);
        let it = items[j];
        match it.kind {
            EntryKind::Directory(c) => {
                lemma_scan_nonempty_hidden(c@);
                let x = folder_node(it, scan_entries(c@, true));
                assert(entry_node(items[j], true) == Some(x));
                lemma_scan_nodes(items, true, x);
                lemma_tree_hidden_routes(c@, route.drop_first());
                assert(b.contains(x) && (x.name, x.path) == route[0]);
            },
            _ => {
                assert(entry_node(items[j], true) == Some(n));
                lemma_scan_nodes(items, true, n);
                assert(b.contains(n));
            },
        }
    }
}

} // verus!
