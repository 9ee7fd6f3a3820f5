//! The set of markdown files known to exist under the open folder, and what a
//! deleted path removes from it.

use vstd::prelude::*;
use crate::config::{keep_flagged, strings_view};
use crate::paths::{child_path, dir_base, final_name, path_file_name, path_starts_with, plain_path, plain_rel, under};
use crate::scan::DirAncestor;
use crate::text::{display_path, display_path_spec};

verus! {

/// A set of paths, each held once.
pub struct PathRegistry {
    paths: Vec<String>,
}

impl PathRegistry {
    #[verifier::type_invariant]
    spec fn inv(self) -> bool {
        strings_view(self.paths@).no_duplicates()
    }

    /// The paths held, as a set.
    pub closed spec fn view(&self) -> Set<Seq<char>> {
        strings_view(self.paths@).to_set()
    }

    /// The paths held, in the order they are stored.
    pub closed spec fn entries(&self) -> Seq<Seq<char>> {
        strings_view(self.paths@)
    }

    /// An empty registry.
    pub fn new() -> (r: Self)
        ensures
            r.view() == Set::<Seq<char>>::empty(),
    {
        let r = PathRegistry { paths: Vec::new() };
        assert(r.view() =~= Set::<Seq<char>>::empty());
        r
    }

    fn index_of(&self, p: &str) -> (r: Option<usize>)
        ensures
            r is Some ==> r->0 < self.paths.len() && self.paths@[r->0 as int]@ == p@,
            r is None ==> !self.view().contains(p@),
    {
        let target = p.to_owned();
        let mut i: usize = 0;
        while i < self.paths.len()
            invariant
                i <= self.paths.len(),
                target@ == p@,
                forall|m: int| 0 <= m < i ==> self.paths@[m]@ != p@,
            decreases self.paths.len() - i,
        {
            if self.paths[i] == target {
                return Some(i);
            }
            i = i + 1;
        }
        proof {
            if self.view().contains(p@) {
                let m = choose|m: int| 0 <= m < strings_view(self.paths@).len() && strings_view(self.paths@)[m] == p@;
                assert(self.paths@[m]@ == p@);
            }
        }
        None
    }

    /// Whether `p` is held.
    pub fn contains(&self, p: &str) -> (r: bool)
        ensures
            r == self.view().contains(p@),
    {
        let i = self.index_of(p);
        proof {
            if i is Some {
                assert(strings_view(self.paths@)[i->0 as int] == p@);
            }
        }
        i.is_some()
    }

    /// How many paths are held.
    pub fn len(&self) -> (r: usize)
        ensures
            r == self.view().len(),
    {
        proof {
            use_type_invariant(self);
            strings_view(self.paths@).unique_seq_to_set();
        }
        self.paths.len()
    }

    /// Adds `p`; returns whether it was not held before.
    pub fn insert(&mut self, p: String) -> (r: bool)
        ensures
            final(self).view() == old(self).view().insert(p@),
            r == !old(self).view().contains(p@),
            final(self).entries() == if old(self).entries().contains(p@) {
                old(self).entries()
            } else {
                old(self).entries().push(p@)
            },
    {
        proof {
            use_type_invariant(&*self);
        }
        let found = self.index_of(p.as_str());
        if found.is_some() {
            proof {
                assert(strings_view(self.paths@)[found->0 as int] == p@);
                assert(self.view().contains(p@));
                assert(self.view().insert(p@) =~= self.view());
                assert(self.entries().contains(p@));
            }
            return false;
        }
        let ghost old_paths = self.paths@;
        let ghost pv = p@;
        proof {
            if strings_view(old_paths).contains(pv) {
                assert(strings_view(old_paths).to_set().contains(pv));
            }
        }
        let mut v: Vec<String> = Vec::new();
        std::mem::swap(&mut v, &mut self.paths);
        v.push(p);
        proof {
            let s = strings_view(v@);
            assert(s =~= strings_view(old_paths).push(pv));
            assert(!strings_view(old_paths).contains(pv));
            assert(s.no_duplicates()) by {
                assert forall|a: int, b: int| 0 <= a < s.len() && 0 <= b < s.len() && a != b implies s[a] != s[b] by {
                    if a == s.len() - 1 {
                        assert(strings_view(old_paths).contains(s[b]));
                    } else if b == s.len() - 1 {
                        assert(strings_view(old_paths).contains(s[a]));
                    }
                }
            }
        }
        self.paths = v;
        proof {
            assert(strings_view(self.paths@) =~= strings_view(old_paths).push(pv));
            assert(self.view() =~= strings_view(old_paths).to_set().insert(pv)) by {
                assert forall|x: Seq<char>| self.view().contains(x) <==> strings_view(old_paths).to_set().insert(pv).contains(x) by {
                    let s = strings_view(self.paths@);
                    if s.contains(x) && x != pv {
                        let k = choose|k: int| 0 <= k < s.len() && s[k] == x;
                        assert(strings_view(old_paths)[k] == x);
                    }
                    if strings_view(old_paths).contains(x) {
                        let k = choose|k: int| 0 <= k < strings_view(old_paths).len() && strings_view(old_paths)[k] == x;
                        assert(s[k] == x);
                    }
                    if x == pv {
                        assert(s[s.len() - 1] == pv);
                    }
                }
            }
        }
        true
    }

    /// Removes `p`; returns whether it was held.
    pub fn remove(&mut self, p: &str) -> (r: bool)
        ensures
            final(self).view() == old(self).view().remove(p@),
            r == old(self).view().contains(p@),
            !old(self).entries().contains(p@) ==> final(self).entries() == old(self).entries(),
            old(self).entries().contains(p@) ==> exists|i: int|
                0 <= i < old(self).entries().len() && old(self).entries()[i] == p@ && final(self).entries()
                    == old(self).entries().remove(i),
    {
        proof {
            use_type_invariant(&*self);
        }
        match self.index_of(p) {
            None => {
                assert(self.view().remove(p@) =~= self.view());
                false
            },
            Some(i) => {
                let ghost old_s = strings_view(self.paths@);
                assert(old_s[i as int] == p@);
                assert(old_s.contains(p@));
                let mut v: Vec<String> = Vec::new();
                std::mem::swap(&mut v, &mut self.paths);
                v.remove(i);
                proof {
                    let s = strings_view(v@);
                    assert(s =~= old_s.remove(i as int));
                    assert(s.no_duplicates()) by {
                        assert forall|a: int, b: int| 0 <= a < s.len() && 0 <= b < s.len() && a != b implies s[a] != s[b] by {
                            let a2 = if a < i { a } else { a + 1 };
                            let b2 = if b < i { b } else { b + 1 };
                            assert(s[a] == old_s[a2] && s[b] == old_s[b2]);
                        }
                    }
                }
                self.paths = v;
                proof {
                    let s = strings_view(self.paths@);
                    assert(s =~= old_s.remove(i as int));
                    assert(old_s == old(self).entries());
                    assert(old(self).entries()[i as int] == p@ && self.entries() == old(self).entries().remove(i as int));
                    assert(self.view() =~= old_s.to_set().remove(p@)) by {
                        assert forall|x: Seq<char>| s.to_set().contains(x) <==> old_s.to_set().remove(p@).contains(x) by {
                            if s.contains(x) {
                                let k = choose|k: int| 0 <= k < s.len() && s[k] == x;
                                let k2 = if k < i { k } else { k + 1 };
                                assert(old_s[k2] == x);
                                assert(k2 != i);
                                assert(old_s[k2] != old_s[i as int]);
                            }
                            if old_s.contains(x) && x != p@ {
                                let k = choose|k: int| 0 <= k < old_s.len() && old_s[k] == x;
                                assert(k != i);
                                let k2 = if k < i { k } else { k - 1 };
                                assert(s[k2] == x);
                            }
                        }
                    }
                }
                true
            },
        }
    }

    /// The paths held, in stored order.
    pub fn paths(&self) -> (r: Vec<String>)
        ensures
            strings_view(r@) == self.entries(),
            r@.len() == self.entries().len(),
    {
        let mut r: Vec<String> = Vec::new();
        let mut i: usize = 0;
        while i < self.paths.len()
            invariant
                i <= self.paths.len(),
                strings_view(r@) == strings_view(self.paths@.subrange(0, i as int)),
            decreases self.paths.len() - i,
        {
            let ghost old_r = r@;
            let c = self.paths[i].clone();
            r.push(c);
            assert(strings_view(r@) =~= strings_view(old_r).push(self.paths@[i as int]@));
            assert(self.paths@.subrange(0, i + 1) =~= self.paths@.subrange(0, i as int).push(self.paths@[i as int]));
            assert(strings_view(r@) =~= strings_view(self.paths@.subrange(0, i + 1)));
            i = i + 1;
        }
        assert(self.paths@.subrange(0, self.paths@.len() as int) =~= self.paths@);
        r
    }

    /// Takes out the paths whose flag is set, by stored order, and returns
    /// them in that order; the others stay in their order.
    pub fn remove_flagged(&mut self, flags: &Vec<bool>) -> (gone: Vec<String>)
        requires
            flags@.len() == old(self).entries().len(),
        ensures
            final(self).entries() == keep_flagged(old(self).entries(), negated(flags@)),
            strings_view(gone@) == keep_flagged(old(self).entries(), flags@),
            strings_view(gone@).no_duplicates(),
            final(self).view().subset_of(old(self).view()),
            strings_view(gone@).to_set() == old(self).view().difference(final(self).view()),
    {
        proof {
            use_type_invariant(&*self);
        }
        let ghost old_s = strings_view(self.paths@);
        let mut v: Vec<String> = Vec::new();
        std::mem::swap(&mut v, &mut self.paths);
        let mut kept: Vec<String> = Vec::new();
        let mut gone: Vec<String> = Vec::new();
        let mut i: usize = 0;
        while i < v.len()
            invariant
                i <= v.len(),
                old_s == strings_view(v@),
                flags@.len() == v@.len(),
                strings_view(kept@) == keep_flagged(strings_view(v@.subrange(0, i as int)), negated(flags@.subrange(0, i as int))),
                strings_view(gone@) == keep_flagged(strings_view(v@.subrange(0, i as int)), flags@.subrange(0, i as int)),
            decreases v.len() - i,
        {
            proof {
                assert(strings_view(v@.subrange(0, i + 1)).drop_last() =~= strings_view(v@.subrange(0, i as int)));
                assert(flags@.subrange(0, i + 1).drop_last() =~= flags@.subrange(0, i as int));
                assert(negated(flags@.subrange(0, i + 1)).drop_last() =~= negated(flags@.subrange(0, i as int)));
            }
            if flags[i] {
                gone.push(v[i].clone());
            } else {
                kept.push(v[i].clone());
            }
            proof {
                assert(strings_view(kept@) =~= keep_flagged(strings_view(v@.subrange(0, i + 1)), negated(flags@.subrange(0, i + 1))));
                assert(strings_view(gone@) =~= keep_flagged(strings_view(v@.subrange(0, i + 1)), flags@.subrange(0, i + 1)));
            }
            i = i + 1;
        }
        proof {
            assert(v@.subrange(0, v@.len() as int) =~= v@);
            assert(flags@.subrange(0, flags@.len() as int) =~= flags@);
            let ks = strings_view(kept@);
            let gs = strings_view(gone@);
            let nf = negated(flags@);
            assert forall|x: Seq<char>| #![auto] ks.contains(x) <==> (exists|m: int| 0 <= m < old_s.len() && old_s[m] == x && nf[m]) by {
                lemma_keep_flagged_members(old_s, nf, x);
            }
            assert forall|x: Seq<char>| #![auto] gs.contains(x) <==> (exists|m: int| 0 <= m < old_s.len() && old_s[m] == x && flags@[m]) by {
                lemma_keep_flagged_members(old_s, flags@, x);
            }
            lemma_keep_flagged_members(old_s, nf, Seq::empty());
            lemma_keep_flagged_members(old_s, flags@, Seq::empty());
            assert(ks.to_set().subset_of(old_s.to_set())) by {
                assert forall|x: Seq<char>| ks.contains(x) implies old_s.contains(x) by {
                    let m = choose|m: int| 0 <= m < old_s.len() && old_s[m] == x && nf[m];
                }
            }
            assert(gs.to_set() =~= old_s.to_set().difference(ks.to_set())) by {
                assert forall|x: Seq<char>| gs.contains(x) <==> (old_s.contains(x) && !ks.contains(x)) by {
                    if gs.contains(x) {
                        let m = choose|m: int| 0 <= m < old_s.len() && old_s[m] == x && flags@[m];
                        if ks.contains(x) {
                            let m2 = choose|m2: int| 0 <= m2 < old_s.len() && old_s[m2] == x && nf[m2];
                            assert(m != m2);
                            assert(old_s[m] != old_s[m2]);
                        }
                    }
                    if old_s.contains(x) && !ks.contains(x) {
                        let m = choose|m: int| 0 <= m < old_s.len() && old_s[m] == x;
                        if !flags@[m] {
                            assert(nf[m]);
                        }
                    }
                }
            }
        }
        self.paths = kept;
        gone
    }

    /// Forgets every path.
    pub fn clear(&mut self)
        ensures
            final(self).view() == Set::<Seq<char>>::empty(),
    {
        self.paths = Vec::new();
        assert(self.view() =~= Set::<Seq<char>>::empty());
    }
}

} // verus!

verus! {

/// The flags negated.
pub open spec fn negated(keep: Seq<bool>) -> Seq<bool> {
    keep.map_values(|b: bool| !b)
}

/// What `keep_flagged` keeps: exactly the entries whose flag is set; without
/// duplicates when the list has none.
pub proof fn lemma_keep_flagged_members(list: Seq<Seq<char>>, keep: Seq<bool>, x: Seq<char>)
    requires
        keep.len() == list.len(),
    ensures
        keep_flagged(list, keep).contains(x) <==> exists|i: int|
            0 <= i < list.len() && list[i] == x && keep[i],
        list.no_duplicates() ==> keep_flagged(list, keep).no_duplicates(),
    decreases list.len(),
{
    if list.len() > 0 {
        let init = list.drop_last();
        let kinit = keep.drop_last();
        lemma_keep_flagged_members(init, kinit, x);
        let rest = keep_flagged(init, kinit);
        let r = keep_flagged(list, keep);
        if r.contains(x) {
            let k = choose|k: int| 0 <= k < r.len() && r[k] == x;
            if k < rest.len() {
                assert(rest[k] == x);
                assert(rest.contains(x));
                let i = choose|i: int| 0 <= i < init.len() && init[i] == x && kinit[i];
                assert(list[i] == x && keep[i]);
            } else {
                assert(list[list.len() - 1] == x && keep[keep.len() - 1]);
            }
        }
        if exists|i: int| 0 <= i < list.len() && list[i] == x && keep[i] {
            let i = choose|i: int| 0 <= i < list.len() && list[i] == x && keep[i];
            if i < list.len() - 1 {
                assert(init[i] == x && kinit[i]);
                let k = choose|k: int| 0 <= k < rest.len() && rest[k] == x;
                assert(r[k] == x);
            } else {
                assert(r[r.len() - 1] == x);
            }
        }
        if list.no_duplicates() {
            assert(init.no_duplicates()) by {
                assert forall|a: int, b: int| 0 <= a < init.len() && 0 <= b < init.len() && a != b implies init[a] != init[b] by {
                    assert(list[a] == init[a] && list[b] == init[b]);
                }
            }
            lemma_keep_flagged_members(init, kinit, list.last());
            if keep.last() {
                assert(!rest.contains(list.last())) by {
                    if rest.contains(list.last()) {
                        let i = choose|i: int| 0 <= i < init.len() && init[i] == list.last() && kinit[i];
                        assert(list[i] == list[list.len() - 1]);
                    }
                }
                assert forall|a: int, b: int| 0 <= a < r.len() && 0 <= b < r.len() && a != b implies r[a] != r[b] by {
                    if a == rest.len() {
                        assert(rest.contains(r[b]));
                    } else if b == rest.len() {
                        assert(rest.contains(r[a]));
                    }
                }
            }
        }
    }
}

/// A change reported to the navigation tree: a markdown file that appeared
/// (`exists`) or went away.
pub struct FolderChangeEntry {
    pub path: String,
    pub name: String,
    pub exists: bool,
    /// The folders between the open folder and the file, for an appearing file.
    pub path_chain: Vec<DirAncestor>,
}

/// The change reporting that the file at `p` went away.
pub fn removal_entry(p: &str) -> (e: FolderChangeEntry)
    ensures
        e.path@ == display_path_spec(p@),
        !e.exists,
        e.path_chain@.len() == 0,
        plain_path(p@) ==> e.name@ == final_name(p@),
{
    let name = match path_file_name(p) {
        Some(n) => n,
        None => String::new(),
    };
    FolderChangeEntry { path: display_path(p), name, exists: false, path_chain: Vec::new() }
}

/// Resolves a path that no longer exists (typically a deleted directory) into
/// one removal change for every registered path at or beneath it, and takes
/// those paths out of the registry. Which registered paths lie beneath it is
/// decided by `Path::starts_with` (the flags below); the path itself always
/// counts, and where both paths are plain, a registered path counts exactly
/// when it is the removed path or lies beneath it (so `a/docs-extra/c.md`
/// does not lie beneath `a/docs`).
pub fn removed_folder_change_entries(removed_path: &str, registry: &mut PathRegistry) -> (entries: Vec<FolderChangeEntry>)
    ensures
        final(registry).view().subset_of(old(registry).view()),
        old(registry).view().contains(removed_path@) ==> !final(registry).view().contains(removed_path@),
        exists|flags: Seq<bool>|
            #![trigger keep_flagged(old(registry).entries(), flags)]
            {
                let gone = keep_flagged(old(registry).entries(), flags);
                &&& flags.len() == old(registry).entries().len()
                &&& forall|i: int|
                    0 <= i < flags.len() && old(registry).entries()[i] == removed_path@ ==> #[trigger] flags[i]
                &&& forall|i: int|
                    0 <= i < flags.len() && plain_path(removed_path@) && plain_path(old(registry).entries()[i])
                        ==> (#[trigger] flags[i] <==> (old(registry).entries()[i] == removed_path@ || under(
                        old(registry).entries()[i],
                        removed_path@,
                    )))
                &&& forall|i: int, rel: Seq<char>|
                    0 <= i < flags.len() && dir_base(removed_path@) && plain_rel(rel) && old(registry).entries()[i]
                        == #[trigger] child_path(removed_path@, rel) ==> #[trigger] flags[i]
                &&& final(registry).entries() == keep_flagged(old(registry).entries(), negated(flags))
                &&& gone.no_duplicates()
                &&& gone.to_set() == old(registry).view().difference(final(registry).view())
                &&& entries@.len() == gone.len()
                &&& forall|i: int|
                    0 <= i < gone.len() ==> {
                        &&& (#[trigger] entries@[i]).path@ == display_path_spec(gone[i])
                        &&& !entries@[i].exists
                        &&& entries@[i].path_chain@.len() == 0
                        &&& plain_path(gone[i]) ==> entries@[i].name@ == final_name(gone[i])
                    }
            },
        forall|q: Seq<char>|
            #[trigger] old(registry).view().contains(q) && plain_path(q) && plain_path(removed_path@) ==> (
            final(registry).view().contains(q) <==> !(q == removed_path@ || under(q, removed_path@))),
        forall|rel: Seq<char>|
            dir_base(removed_path@) && plain_rel(rel) && #[trigger] old(registry).view().contains(
                child_path(removed_path@, rel),
            ) ==> !final(registry).view().contains(child_path(removed_path@, rel)),
        plain_path(removed_path@) && (forall|q: Seq<char>|
            #[trigger] old(registry).view().contains(q) ==> plain_path(q) && !(q == removed_path@ || under(
                q,
                removed_path@,
            ))) ==> final(registry).view() == old(registry).view() && entries@.len() == 0,
{
    let paths = registry.paths();
    let mut flags: Vec<bool> = Vec::new();
    let mut i: usize = 0;
    while i < paths.len()
        invariant
            i <= paths.len(),
            flags.len() == i,
            forall|m: int| 0 <= m < i && paths@[m]@ == removed_path@ ==> #[trigger] flags@[m],
            forall|m: int|
                0 <= m < i && plain_path(removed_path@) && plain_path(paths@[m]@) ==> (#[trigger] flags@[m] <==> (
                paths@[m]@ == removed_path@ || under(paths@[m]@, removed_path@))),
            forall|m: int, rel: Seq<char>|
                0 <= m < i && dir_base(removed_path@) && plain_rel(rel) && paths@[m]@ == #[trigger] child_path(
                    removed_path@,
                    rel,
                ) ==> #[trigger] flags@[m],
        decreases paths.len() - i,
    {
        let f = path_starts_with(paths[i].as_str(), removed_path);
        let ghost before = flags@;
        flags.push(f);
        proof {
            assert forall|m: int| 0 <= m < i + 1 && paths@[m]@ == removed_path@ implies #[trigger] flags@[m] by {
                if m < i {
                    assert(flags@[m] == before[m]);
                }
            }
            assert forall|m: int|
                0 <= m < i + 1 && plain_path(removed_path@) && plain_path(paths@[m]@) implies (#[trigger] flags@[m] <==> (
                paths@[m]@ == removed_path@ || under(paths@[m]@, removed_path@))) by {
                if m < i {
                    assert(flags@[m] == before[m]);
                }
            }
            assert forall|m: int, rel: Seq<char>|
                0 <= m < i + 1 && dir_base(removed_path@) && plain_rel(rel) && paths@[m]@ == #[trigger] child_path(
                    removed_path@,
                    rel,
                ) implies #[trigger] flags@[m] by {
                if m < i {
                    assert(flags@[m] == before[m]);
                }
            }
        }
        i = i + 1;
    }
    proof {
        assert forall|m: int| 0 <= m < flags@.len() && old(registry).entries()[m] == removed_path@ implies #[trigger] flags@[m] by {
            assert(old(registry).entries()[m] == paths@[m]@);
        }
        assert forall|m: int|
            0 <= m < flags@.len() && plain_path(removed_path@) && plain_path(old(registry).entries()[m]) implies (
            #[trigger] flags@[m] <==> (old(registry).entries()[m] == removed_path@ || under(
                old(registry).entries()[m],
                removed_path@,
            ))) by {
            assert(old(registry).entries()[m] == paths@[m]@);
        }
        assert forall|m: int, rel: Seq<char>|
            0 <= m < flags@.len() && dir_base(removed_path@) && plain_rel(rel) && old(registry).entries()[m]
                == #[trigger] child_path(removed_path@, rel) implies #[trigger] flags@[m] by {
            assert(old(registry).entries()[m] == paths@[m]@);
        }
    }
    let gone = registry.remove_flagged(&flags);
    proof {
        let es = old(registry).entries();
        assert forall|rel: Seq<char>|
            dir_base(removed_path@) && plain_rel(rel) && #[trigger] old(registry).view().contains(
                child_path(removed_path@, rel),
            ) implies !registry.view().contains(child_path(removed_path@, rel)) by {
            let q = child_path(removed_path@, rel);
            assert(es.to_set().contains(q));
            let m = choose|m: int| 0 <= m < es.len() && es[m] == q;
            assert(flags@[m]);
            lemma_keep_flagged_members(es, flags@, q);
            assert(strings_view(gone@).contains(q));
            assert(strings_view(gone@).to_set().contains(q));
        }
    }
    proof {
        let es = old(registry).entries();
        assert forall|q: Seq<char>|
            #[trigger] old(registry).view().contains(q) && plain_path(q) && plain_path(removed_path@) implies (
            registry.view().contains(q) <==> !(q == removed_path@ || under(q, removed_path@))) by {
            lemma_keep_flagged_members(es, flags@, q);
            assert(es.to_set().contains(q));
            let m = choose|m: int| 0 <= m < es.len() && es[m] == q;
            if strings_view(gone@).contains(q) {
                assert(strings_view(gone@).to_set().contains(q));
            }
            if !registry.view().contains(q) {
                assert(old(registry).view().difference(registry.view()).contains(q));
                assert(strings_view(gone@).to_set().contains(q));
            }
            assert(flags@[m] <==> (q == removed_path@ || under(q, removed_path@)));
        }
    }
    proof {
        if old(registry).view().contains(removed_path@) {
            let m = choose|m: int| 0 <= m < old(registry).entries().len() && old(registry).entries()[m] == removed_path@;
            assert(flags@[m]);
            lemma_keep_flagged_members(old(registry).entries(), flags@, removed_path@);
            assert(strings_view(gone@).contains(removed_path@));
            assert(strings_view(gone@).to_set().contains(removed_path@));
        }
    }
    let mut entries: Vec<FolderChangeEntry> = Vec::new();
    let mut j: usize = 0;
    while j < gone.len()
        invariant
            j <= gone.len(),
            entries@.len() == j,
            forall|m: int|
                0 <= m < j ==> {
                    &&& (#[trigger] entries@[m]).path@ == display_path_spec(gone@[m]@)
                    &&& !entries@[m].exists
                    &&& entries@[m].path_chain@.len() == 0
                    &&& plain_path(gone@[m]@) ==> entries@[m].name@ == final_name(gone@[m]@)
                },
        decreases gone.len() - j,
    {
        let e = removal_entry(gone[j].as_str());
        entries.push(e);
        j = j + 1;
    }
    proof {
        if plain_path(removed_path@) && (forall|q: Seq<char>|
            #[trigger] old(registry).view().contains(q) ==> plain_path(q) && !(q == removed_path@ || under(
                q,
                removed_path@,
            ))) {
            assert(registry.view() =~= old(registry).view());
            if gone@.len() > 0 {
                assert(strings_view(gone@).to_set().contains(strings_view(gone@)[0]));
            }
        }
    }
    proof {
        let gs = strings_view(gone@);
        assert forall|m: int| 0 <= m < gs.len() implies (#[trigger] entries@[m]).path@ == display_path_spec(gs[m]) by {}
    }
    entries
}

} // verus!
