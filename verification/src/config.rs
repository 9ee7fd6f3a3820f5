//! Persistent settings: the recent-files list and the zoom level.

use vstd::prelude::*;

verus! {

/// How many entries a recent list keeps.
pub const MAX_RECENT: usize = 10;
/// Zoom level, in percent, when nothing is stored or on reset.
pub const DEFAULT_ZOOM: u32 = 100;
/// Smallest zoom level.
pub const MIN_ZOOM: u32 = 50;
/// Largest zoom level.
pub const MAX_ZOOM: u32 = 200;
/// Step of one zoom-in or zoom-out.
pub const ZOOM_STEP: u32 = 10;

/// The character sequences held by a list of strings.
pub open spec fn strings_view(v: Seq<String>) -> Seq<Seq<char>> {
    v.map_values(|p: String| p@)
}

/// `list` with every occurrence of `s` taken out, the rest in order.
pub open spec fn without(list: Seq<Seq<char>>, s: Seq<char>) -> Seq<Seq<char>>
    decreases list.len(),
{
    if list.len() == 0 {
        Seq::empty()
    } else {
        let rest = without(list.drop_last(), s);
        if list.last() == s {
            rest
        } else {
            rest.push(list.last())
        }
    }
}

/// The recent list after opening `s`: `s` first, then the earlier entries
/// other than `s` in their order, cut to `MAX_RECENT` entries.
pub open spec fn add_recent_spec(list: Seq<Seq<char>>, s: Seq<char>) -> Seq<Seq<char>> {
    let r = seq![s] + without(list, s);
    if r.len() > MAX_RECENT {
        r.subrange(0, MAX_RECENT as int)
    } else {
        r
    }
}

/// Moves `path` to the front of a most-recently-used list, dropping any
/// earlier occurrence of it and keeping at most `MAX_RECENT` entries.
pub fn add_to_recent_list(path: &str, list: &mut Vec<String>)
    ensures
        strings_view(final(list)@) == add_recent_spec(strings_view(old(list)@), path@),
{
    let s = path.to_owned();
    let mut kept: Vec<String> = Vec::new();
    let mut i: usize = 0;
    while i < list.len()
        invariant
            i <= list.len(),
            strings_view(kept@) == without(strings_view(list@.subrange(0, i as int)), s@),
        decreases list.len() - i,
    {
        proof {
            assert(strings_view(list@.subrange(0, i + 1)).drop_last() =~= strings_view(
                list@.subrange(0, i as int),
            ));
            assert(strings_view(list@.subrange(0, i + 1)).last() == list@[i as int]@);
        }
        if list[i] != s {
            kept.push(list[i].clone());
            assert(strings_view(kept@) =~= without(strings_view(list@.subrange(0, i as int)), s@).push(list@[i as int]@));
        }
        i = i + 1;
    }
    assert(list@.subrange(0, list@.len() as int) =~= list@);
    kept.insert(0, s);
    assert(strings_view(kept@) =~= seq![path@] + without(strings_view(list@), path@));
    kept.truncate(MAX_RECENT);
    assert(strings_view(kept@) =~= add_recent_spec(strings_view(list@), path@));
    *list = kept;
}

} // verus!

verus! {

proof fn lemma_without_contains(list: Seq<Seq<char>>, s: Seq<char>, x: Seq<char>)
    ensures
        without(list, s).contains(x) <==> (x != s && list.contains(x)),
        without(list, s).len() <= list.len(),
        !list.contains(s) ==> without(list, s) == list,
    decreases list.len(),
{
    if list.len() > 0 {
        let init = list.drop_last();
        lemma_without_contains(init, s, x);
        assert(list =~= init.push(list.last()));
        if list.contains(x) && x != list.last() {
            let k = choose|k: int| 0 <= k < list.len() && list[k] == x;
            assert(init[k] == x);
        }
        if init.contains(x) {
            let k = choose|k: int| 0 <= k < init.len() && init[k] == x;
            assert(list[k] == x);
        }
        if list.last() != s {
            let rest = without(init, s);
            if rest.contains(x) {
                let k = choose|k: int| 0 <= k < rest.len() && rest[k] == x;
                assert(rest.push(list.last())[k] == x);
            }
            if x == list.last() {
                assert(rest.push(list.last())[rest.len() as int] == x);
            }
            if rest.push(list.last()).contains(x) && x != list.last() {
                let k = choose|k: int| 0 <= k < rest.len() + 1 && rest.push(list.last())[k] == x;
                assert(rest[k] == x);
            }
        }
        if !list.contains(s) {
            assert(list[list.len() - 1] == list.last());
            assert(!init.contains(s)) by {
                if init.contains(s) {
                    let k = choose|k: int| 0 <= k < init.len() && init[k] == s;
                    assert(list[k] == s);
                }
            }
        }
    }
}

proof fn lemma_without_no_duplicates(list: Seq<Seq<char>>, s: Seq<char>)
    requires
        list.no_duplicates(),
    ensures
        without(list, s).no_duplicates(),
        list.contains(s) ==> without(list, s).len() + 1 == list.len(),
    decreases list.len(),
{
    if list.len() > 0 {
        let init = list.drop_last();
        assert(init.no_duplicates()) by {
            assert forall|i: int, j: int| 0 <= i < init.len() && 0 <= j < init.len() && i != j
                implies init[i] != init[j] by {
                assert(list[i] == init[i] && list[j] == init[j]);
            }
        }
        lemma_without_no_duplicates(init, s);
        let rest = without(init, s);
        assert(!init.contains(list.last())) by {
            if init.contains(list.last()) {
                let k = choose|k: int| 0 <= k < init.len() && init[k] == list.last();
                assert(list[k] == list[list.len() - 1]);
            }
        }
        lemma_without_contains(init, s, list.last());
        if list.last() != s {
            assert forall|i: int, j: int| 0 <= i < rest.len() + 1 && 0 <= j < rest.len() + 1 && i != j
                implies rest.push(list.last())[i] != rest.push(list.last())[j] by {
                if i == rest.len() {
                    assert(rest.contains(rest[j]));
                } else if j == rest.len() {
                    assert(rest.contains(rest[i]));
                }
            }
            if list.contains(s) {
                let k = choose|k: int| 0 <= k < list.len() && list[k] == s;
                assert(init[k] == s);
            }
        } else {
            lemma_without_contains(init, s, s);
        }
    }
}

/// Opening a file puts it at the front of the recent list.
pub proof fn lemma_add_recent_puts_first(list: Seq<Seq<char>>, s: Seq<char>)
    ensures
        add_recent_spec(list, s).len() >= 1,
        add_recent_spec(list, s)[0] == s,
{
}

/// A recent list never holds more than `MAX_RECENT` entries, and it holds no
/// more entries than before plus the one added.
pub proof fn lemma_add_recent_bounded(list: Seq<Seq<char>>, s: Seq<char>)
    ensures
        add_recent_spec(list, s).len() <= MAX_RECENT,
        add_recent_spec(list, s).len() <= list.len() + 1,
{
    lemma_without_contains(list, s, s);
}

/// Every entry of the new list is the opened path or was in the list before;
/// the opened path occurs exactly once.
pub proof fn lemma_add_recent_members(list: Seq<Seq<char>>, s: Seq<char>, x: Seq<char>)
    ensures
        add_recent_spec(list, s).contains(x) ==> (x == s || list.contains(x)),
        forall|i: int| 0 < i < add_recent_spec(list, s).len() ==> add_recent_spec(list, s)[i] != s,
{
    let w = without(list, s);
    lemma_without_contains(list, s, x);
    let r = seq![s] + w;
    if add_recent_spec(list, s).contains(x) {
        let k = choose|k: int| 0 <= k < add_recent_spec(list, s).len() && add_recent_spec(list, s)[k] == x;
        if k > 0 {
            assert(r[k] == w[k - 1]);
            assert(w.contains(x));
        }
    }
    assert forall|i: int| 0 < i < add_recent_spec(list, s).len() implies add_recent_spec(list, s)[i] != s by {
        assert(r[i] == w[i - 1]);
        lemma_without_contains(list, s, s);
        if w[i - 1] == s {
            assert(w.contains(s));
        }
    }
}

/// A list without duplicates stays without duplicates.
pub proof fn lemma_add_recent_no_duplicates(list: Seq<Seq<char>>, s: Seq<char>)
    requires
        list.no_duplicates(),
    ensures
        add_recent_spec(list, s).no_duplicates(),
{
    let w = without(list, s);
    lemma_without_no_duplicates(list, s);
    lemma_without_contains(list, s, s);
    let r = seq![s] + w;
    assert(r.no_duplicates()) by {
        assert forall|i: int, j: int| 0 <= i < r.len() && 0 <= j < r.len() && i != j implies r[i] != r[j] by {
            if i == 0 {
                assert(r[j] == w[j - 1]);
                assert(w.contains(w[j - 1]));
            } else if j == 0 {
                assert(r[i] == w[i - 1]);
                assert(w.contains(w[i - 1]));
            } else {
                assert(r[i] == w[i - 1] && r[j] == w[j - 1]);
            }
        }
    }
}

/// Re-opening a path that is already listed does not make the list longer.
pub proof fn lemma_add_recent_duplicate_does_not_grow(list: Seq<Seq<char>>, s: Seq<char>)
    requires
        list.no_duplicates(),
        list.contains(s),
        list.len() <= MAX_RECENT,
    ensures
        add_recent_spec(list, s).len() == list.len(),
{
    lemma_without_no_duplicates(list, s);
}

/// Opening the same path twice in a row gives the same list as opening it once.
pub proof fn lemma_add_recent_idempotent(list: Seq<Seq<char>>, s: Seq<char>)
    ensures
        add_recent_spec(add_recent_spec(list, s), s) == add_recent_spec(list, s),
{
    let r = add_recent_spec(list, s);
    lemma_add_recent_members(list, s, s);
    lemma_add_recent_bounded(list, s);
    let tail = r.drop_first();
    assert(!tail.contains(s)) by {
        if tail.contains(s) {
            let k = choose|k: int| 0 <= k < tail.len() && tail[k] == s;
            assert(r[k + 1] == s);
        }
    }
    lemma_without_contains(tail, s, s);
    lemma_without_tail_is_list(r, s);
    assert(seq![s] + without(r, s) =~= r);
}

proof fn lemma_without_tail_is_list(r: Seq<Seq<char>>, s: Seq<char>)
    requires
        r.len() >= 1,
        r[0] == s,
        !r.drop_first().contains(s),
    ensures
        without(r, s) == r.drop_first(),
    decreases r.len(),
{
    if r.len() == 1 {
        assert(r.drop_last().len() == 0);
        assert(without(r.drop_last(), s) =~= Seq::<Seq<char>>::empty());
        assert(r.drop_first() =~= Seq::<Seq<char>>::empty());
    } else {
        let init = r.drop_last();
        assert(!init.drop_first().contains(s)) by {
            if init.drop_first().contains(s) {
                let k = choose|k: int| 0 <= k < init.drop_first().len() && init.drop_first()[k] == s;
                assert(r.drop_first()[k] == s);
            }
        }
        lemma_without_tail_is_list(init, s);
        assert(r.last() != s) by {
            assert(r.drop_first()[r.len() - 2] == r.last());
        }
        assert(init.drop_first().push(r.last()) =~= r.drop_first());
    }
}

} // verus!

verus! {

/// The entries of `list` whose flag is set, in their order.
pub open spec fn keep_flagged(list: Seq<Seq<char>>, keep: Seq<bool>) -> Seq<Seq<char>>
    decreases list.len(),
{
    if list.len() == 0 || keep.len() != list.len() {
        Seq::empty()
    } else {
        let rest = keep_flagged(list.drop_last(), keep.drop_last());
        if keep.last() {
            rest.push(list.last())
        } else {
            rest
        }
    }
}

/// Keeps the entries of `list` whose flag in `keep` is set, in their order.
pub fn retain_flagged(list: Vec<String>, keep: &Vec<bool>) -> (r: Vec<String>)
    requires
        keep.len() == list.len(),
    ensures
        strings_view(r@) == keep_flagged(strings_view(list@), keep@),
{
    let mut r: Vec<String> = Vec::new();
    let mut i: usize = 0;
    while i < list.len()
        invariant
            i <= list.len(),
            keep.len() == list.len(),
            strings_view(r@) == keep_flagged(
                strings_view(list@.subrange(0, i as int)),
                keep@.subrange(0, i as int),
            ),
        decreases list.len() - i,
    {
        proof {
            assert(strings_view(list@.subrange(0, i + 1)).drop_last() =~= strings_view(
                list@.subrange(0, i as int),
            ));
            assert(keep@.subrange(0, i + 1).drop_last() =~= keep@.subrange(0, i as int));
        }
        if keep[i] {
            r.push(list[i].clone());
            assert(strings_view(r@) =~= keep_flagged(
                strings_view(list@.subrange(0, i as int)),
                keep@.subrange(0, i as int),
            ).push(list@[i as int]@));
        }
        i = i + 1;
    }
    assert(list@.subrange(0, list@.len() as int) =~= list@);
    assert(keep@.subrange(0, keep@.len() as int) =~= keep@);
    r
}

/// What `keep_flagged` keeps is a selection of the list: every kept entry was
/// in the list, and nothing is kept from an empty list or when no flag is set.
pub proof fn lemma_keep_flagged_selects(list: Seq<Seq<char>>, keep: Seq<bool>, x: Seq<char>)
    requires
        keep.len() == list.len(),
    ensures
        keep_flagged(list, keep).len() <= list.len(),
        keep_flagged(list, keep).contains(x) ==> list.contains(x),
        (forall|i: int| 0 <= i < keep.len() ==> !keep[i]) ==> keep_flagged(list, keep).len() == 0,
        (forall|i: int| 0 <= i < keep.len() ==> keep[i]) ==> keep_flagged(list, keep) == list,
    decreases list.len(),
{
    if list.len() > 0 {
        let init = list.drop_last();
        let kinit = keep.drop_last();
        lemma_keep_flagged_selects(init, kinit, x);
        let rest = keep_flagged(init, kinit);
        if keep_flagged(list, keep).contains(x) {
            let k = choose|k: int| 0 <= k < keep_flagged(list, keep).len() && keep_flagged(list, keep)[k] == x;
            if k < rest.len() {
                assert(rest[k] == x);
                let j = choose|j: int| 0 <= j < init.len() && init[j] == x;
                assert(list[j] == x);
            } else {
                assert(list[list.len() - 1] == x);
            }
        }
        if forall|i: int| 0 <= i < keep.len() ==> keep[i] {
            assert forall|i: int| 0 <= i < kinit.len() implies kinit[i] by {
                assert(keep[i]);
            }
            assert(keep[keep.len() - 1]);
            assert(init.push(list.last()) =~= list);
        }
        if forall|i: int| 0 <= i < keep.len() ==> !keep[i] {
            assert forall|i: int| 0 <= i < kinit.len() implies !kinit[i] by {
                assert(!keep[i]);
            }
            assert(!keep[keep.len() - 1]);
        }
    }
}

/// The zoom level read from the settings store: the stored value brought into
/// `MIN_ZOOM..=MAX_ZOOM`, or `DEFAULT_ZOOM` when none is stored.
pub fn stored_zoom(stored: Option<u64>) -> (r: u32)
    ensures
        stored is None ==> r == DEFAULT_ZOOM,
        stored is Some ==> r == (if stored->0 < MIN_ZOOM {
            MIN_ZOOM as int
        } else if stored->0 > MAX_ZOOM {
            MAX_ZOOM as int
        } else {
            stored->0 as int
        }),
{
    match stored {
        None => DEFAULT_ZOOM,
        Some(z) => {
            if z < MIN_ZOOM as u64 {
                MIN_ZOOM
            } else if z > MAX_ZOOM as u64 {
                MAX_ZOOM
            } else {
                z as u32
            }
        },
    }
}

/// A zoom menu action.
#[derive(Clone, Copy, PartialEq, Eq, Debug)]
pub enum ZoomAction {
    In,
    Out,
    Reset,
}

/// The zoom level after a zoom action: one step up, capped at `MAX_ZOOM`; one
/// step down, not below `MIN_ZOOM`; or back to `DEFAULT_ZOOM`.
pub open spec fn next_zoom_spec(action: ZoomAction, current: int) -> int {
    match action {
        ZoomAction::In => if current + ZOOM_STEP > MAX_ZOOM {
            MAX_ZOOM as int
        } else {
            current + ZOOM_STEP
        },
        ZoomAction::Out => {
            let down = if current < ZOOM_STEP {
                0
            } else {
                current - ZOOM_STEP
            };
            if down < MIN_ZOOM {
                MIN_ZOOM as int
            } else {
                down
            }
        },
        ZoomAction::Reset => DEFAULT_ZOOM as int,
    }
}

/// Applies a zoom action to the current zoom level.
pub fn next_zoom(action: ZoomAction, current: u32) -> (r: u32)
    requires
        action == ZoomAction::In ==> current + ZOOM_STEP <= u32::MAX,
    ensures
        r == next_zoom_spec(action, current as int),
{
    match action {
        ZoomAction::In => {
            let up = current + ZOOM_STEP;
            if up > MAX_ZOOM {
                MAX_ZOOM
            } else {
                up
            }
        },
        ZoomAction::Out => {
            let down = current.saturating_sub(ZOOM_STEP);
            if down < MIN_ZOOM {
                MIN_ZOOM
            } else {
                down
            }
        },
        ZoomAction::Reset => DEFAULT_ZOOM,
    }
}

/// From any zoom level within bounds, every zoom action stays within bounds.
pub proof fn lemma_zoom_stays_in_bounds(action: ZoomAction, current: int)
    requires
        MIN_ZOOM <= current <= MAX_ZOOM,
    ensures
        MIN_ZOOM <= next_zoom_spec(action, current) <= MAX_ZOOM,
{
}

/// Zooming out undoes zooming in, except where zooming in hit `MAX_ZOOM`; and
/// zooming in undoes zooming out, except where zooming out hit `MIN_ZOOM`.
pub proof fn lemma_zoom_in_out_inverse(current: int)
    ensures
        MIN_ZOOM <= current <= MAX_ZOOM - ZOOM_STEP ==> next_zoom_spec(
            ZoomAction::Out,
            next_zoom_spec(ZoomAction::In, current),
        ) == current,
        MIN_ZOOM + ZOOM_STEP <= current <= MAX_ZOOM ==> next_zoom_spec(
            ZoomAction::In,
            next_zoom_spec(ZoomAction::Out, current),
        ) == current,
{
}

} // verus!
