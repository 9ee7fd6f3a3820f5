//! Calls into `std::path`, and the plain paths on which their results are
//! stated. How a path splits into components depends on the platform (`\`
//! separates components and `C:` starts a prefix on Windows only), so no
//! result is named as a function of its arguments. Each wrapper states what
//! the call returns on plain paths: one or more names, none of them `.` or
//! `..`, without `\` or `:`, joined by single `/`, perhaps after a leading
//! `/`. There every platform splits the path alike.

use vstd::prelude::*;
use crate::config::strings_view;

verus! {

/// A character that no platform reads as a separator or a prefix marker.
pub open spec fn portable_char(c: char) -> bool {
    c != '\\' && c != ':'
}

/// Whether a `.` or `..` segment starts at position `i` of `p`.
pub open spec fn dot_segment_at(p: Seq<char>, i: int) -> bool {
    &&& (i == 0 || p[i - 1] == '/')
    &&& p[i] == '.'
    &&& (i + 1 == p.len() || p[i + 1] == '/' || (p[i + 1] == '.' && (i + 2 == p.len() || p[i + 2] == '/')))
}

/// A relative plain path: non-empty names joined by single `/`, made of
/// portable characters, none of them `.` or `..`.
pub open spec fn plain_rel(p: Seq<char>) -> bool {
    &&& p.len() > 0
    &&& p[0] != '/'
    &&& p.last() != '/'
    &&& forall|i: int| 0 <= i < p.len() ==> portable_char(#[trigger] p[i])
    &&& forall|i: int| 0 <= i < p.len() - 1 && #[trigger] p[i] == '/' ==> p[i + 1] != '/'
    &&& forall|i: int| 0 <= i < p.len() ==> !#[trigger] dot_segment_at(p, i)
}

/// A plain path: a relative plain path, or one after a leading `/`.
pub open spec fn plain_path(p: Seq<char>) -> bool {
    if p.len() > 0 && p[0] == '/' {
        plain_rel(p.drop_first())
    } else {
        plain_rel(p)
    }
}

/// A plain path, the empty path or the root `/`: what `parent` gives back of
/// a plain path.
pub open spec fn plain_or_root(p: Seq<char>) -> bool {
    p.len() == 0 || p == seq!['/'] || plain_path(p)
}

/// Whether `p` lies strictly beneath `base`: `base`, a `/`, then more.
pub open spec fn under(p: Seq<char>, base: Seq<char>) -> bool {
    &&& base.len() < p.len()
    &&& p.subrange(0, base.len() as int) == base
    &&& p[base.len() as int] == '/'
}

/// The position of the last `/` in `p`, or -1 if it has none.
pub open spec fn last_slash(p: Seq<char>) -> int
    decreases p.len(),
{
    if p.len() == 0 {
        -1
    } else if p.last() == '/' {
        p.len() - 1
    } else {
        last_slash(p.drop_last())
    }
}

/// `last_slash` finds the last `/`, if any.
pub proof fn lemma_last_slash(p: Seq<char>)
    ensures
        -1 <= last_slash(p) < p.len(),
        last_slash(p) >= 0 ==> p[last_slash(p)] == '/',
        forall|j: int| last_slash(p) < j < p.len() ==> p[j] != '/',
    decreases p.len(),
{
    if p.len() > 0 && p.last() != '/' {
        lemma_last_slash(p.drop_last());
        assert forall|j: int| last_slash(p) < j < p.len() implies p[j] != '/' by {
            if j < p.len() - 1 {
                assert(p[j] == p.drop_last()[j]);
            }
        }
    }
}

/// The final name of `p`: what follows its last `/`.
pub open spec fn final_name(p: Seq<char>) -> Seq<char> {
    p.subrange(last_slash(p) + 1, p.len() as int)
}

/// `p` without its final name: the empty path where it has no `/`, the root
/// where its only `/` leads, else what precedes its last `/`.
pub open spec fn parent_spec(p: Seq<char>) -> Seq<char> {
    let ls = last_slash(p);
    if ls < 0 {
        Seq::empty()
    } else if ls == 0 {
        seq!['/']
    } else {
        p.subrange(0, ls)
    }
}

/// The `/`-separated segments of `p`, in order.
pub open spec fn segments(p: Seq<char>) -> Seq<Seq<char>>
    decreases p.len(),
{
    if last_slash(p) < 0 {
        seq![p]
    } else {
        proof {
            lemma_last_slash(p);
        }
        segments(p.subrange(0, last_slash(p))).push(final_name(p))
    }
}

/// A plain path shows no verbatim prefix: it is displayed as it is.
pub proof fn lemma_plain_displayed(p: Seq<char>)
    requires
        plain_or_root(p),
    ensures
        crate::text::display_path_spec(p) == p,
{
    if crate::text::has_verbatim_prefix(p) {
        assert(p.subrange(0, 4)[0] == p[0]);
        assert(p.subrange(0, 4)[1] == p[1]);
        if p[0] == '/' {
            assert(p.drop_first()[0] == p[1]);
        } else {
            assert(portable_char(p[0]));
        }
    }
}

/// What precedes a `/` of a relative plain path (other than its first
/// character) is a relative plain path.
pub proof fn lemma_plain_rel_prefix(q: Seq<char>, k: int)
    requires
        plain_rel(q),
        0 < k < q.len(),
        q[k] == '/',
    ensures
        plain_rel(q.subrange(0, k)),
{
    let s = q.subrange(0, k);
    assert(s[0] == q[0]);
    assert(s.last() == q[k - 1]);
    assert(q[k - 1] != '/');
    assert forall|i: int| 0 <= i < s.len() implies portable_char(#[trigger] s[i]) by {
        assert(s[i] == q[i]);
    }
    assert forall|i: int| 0 <= i < s.len() - 1 && #[trigger] s[i] == '/' implies s[i + 1] != '/' by {
        assert(s[i] == q[i]);
        assert(s[i + 1] == q[i + 1]);
    }
    assert forall|i: int| 0 <= i < s.len() implies !#[trigger] dot_segment_at(s, i) by {
        assert(!dot_segment_at(q, i));
        assert(s[i] == q[i]);
        if i > 0 {
            assert(s[i - 1] == q[i - 1]);
        }
        if i + 1 < s.len() {
            assert(s[i + 1] == q[i + 1]);
        }
        if i + 2 < s.len() {
            assert(s[i + 2] == q[i + 2]);
        }
    }
}

/// What follows a `/` of a relative plain path is a relative plain path.
pub proof fn lemma_plain_rel_suffix(q: Seq<char>, k: int)
    requires
        plain_rel(q),
        0 < k < q.len(),
        q[k - 1] == '/',
    ensures
        plain_rel(q.subrange(k, q.len() as int)),
{
    let s = q.subrange(k, q.len() as int);
    assert(s[0] == q[k]);
    assert(s.last() == q.last());
    assert forall|i: int| 0 <= i < s.len() implies portable_char(#[trigger] s[i]) by {
        assert(s[i] == q[i + k]);
    }
    assert forall|i: int| 0 <= i < s.len() - 1 && #[trigger] s[i] == '/' implies s[i + 1] != '/' by {
        assert(s[i] == q[i + k]);
        assert(s[i + 1] == q[i + k + 1]);
    }
    assert forall|i: int| 0 <= i < s.len() implies !#[trigger] dot_segment_at(s, i) by {
        assert(!dot_segment_at(q, i + k));
        assert(s[i] == q[i + k]);
        if i > 0 {
            assert(s[i - 1] == q[i + k - 1]);
        }
        if i + 1 < s.len() {
            assert(s[i + 1] == q[i + k + 1]);
        }
        if i + 2 < s.len() {
            assert(s[i + 2] == q[i + k + 2]);
        }
    }
}

/// The parent of a plain path is a plain path, the empty path or the root.
pub proof fn lemma_parent_plain(p: Seq<char>)
    requires
        plain_path(p),
    ensures
        plain_or_root(parent_spec(p)),
{
    lemma_last_slash(p);
    let ls = last_slash(p);
    if ls > 0 {
        if p[0] == '/' {
            let body = p.drop_first();
            assert(body[0] == p[1]);
            assert(ls != 1);
            assert(body[ls - 1] == p[ls]);
            lemma_plain_rel_prefix(body, ls - 1);
            assert(p.subrange(0, ls).drop_first() =~= body.subrange(0, ls - 1));
        } else {
            lemma_plain_rel_prefix(p, ls);
        }
    }
}

/// What follows `base` and its `/` in a plain path beneath a plain `base` is
/// a relative plain path.
pub proof fn lemma_under_rest(p: Seq<char>, base: Seq<char>)
    requires
        plain_path(p),
        plain_path(base),
        under(p, base),
    ensures
        plain_rel(p.subrange(base.len() + 1int, p.len() as int)),
{
    let k = base.len() as int;
    if p[0] == '/' {
        let body = p.drop_first();
        assert(body[k - 1] == p[k]);
        assert(body.last() == p.last());
        assert(k + 1 < p.len());
        lemma_plain_rel_suffix(body, k);
        assert(p.subrange(k + 1, p.len() as int) =~= body.subrange(k, body.len() as int));
    } else {
        assert(k + 1 < p.len());
        lemma_plain_rel_suffix(p, k + 1);
    }
}

/// A plain name: not empty, not `.` or `..`, of portable characters and
/// without `/`.
pub open spec fn plain_name(n: Seq<char>) -> bool {
    &&& n.len() > 0
    &&& n != seq!['.']
    &&& n != seq!['.', '.']
    &&& forall|i: int| 0 <= i < n.len() ==> #[trigger] n[i] != '/' && portable_char(n[i])
}

/// `base` followed by each of `names`, each after a `/`.
pub open spec fn descend(base: Seq<char>, names: Seq<Seq<char>>) -> Seq<char>
    decreases names.len(),
{
    if names.len() == 0 {
        base
    } else {
        descend(base, names.drop_last()) + seq!['/'] + names.last()
    }
}

/// The last `/` of `p`, a `/` and a name without `/` is the added one.
pub proof fn lemma_last_slash_before(p: Seq<char>, n: Seq<char>)
    requires
        forall|i: int| 0 <= i < n.len() ==> #[trigger] n[i] != '/',
    ensures
        last_slash(p + seq!['/'] + n) == p.len(),
{
    let q = p + seq!['/'] + n;
    lemma_last_slash(q);
    assert(q[p.len() as int] == '/');
    assert forall|j: int| p.len() < j < q.len() implies q[j] != '/' by {
        assert(q[j] == n[j - p.len() - 1]);
    }
}

/// Appending a plain name after a `/` keeps a relative plain path plain.
proof fn lemma_plain_rel_extend(b: Seq<char>, n: Seq<char>)
    requires
        plain_rel(b),
        plain_name(n),
    ensures
        plain_rel(b + seq!['/'] + n),
{
    let q = b + seq!['/'] + n;
    let bl = b.len() as int;
    assert(q[0] == b[0]);
    assert(q.last() == n.last());
    assert forall|i: int| 0 <= i < q.len() implies portable_char(#[trigger] q[i]) by {
        if i < bl {
            assert(q[i] == b[i]);
        } else if i > bl {
            assert(q[i] == n[i - bl - 1]);
        }
    }
    assert forall|i: int| 0 <= i < q.len() - 1 && #[trigger] q[i] == '/' implies q[i + 1] != '/' by {
        if i < bl - 1 {
            assert(q[i] == b[i]);
            assert(q[i + 1] == b[i + 1]);
        } else if i == bl - 1 {
            assert(q[i] == b.last());
        } else if i == bl {
            assert(q[i + 1] == n[0]);
        } else {
            assert(q[i] == n[i - bl - 1]);
        }
    }
    assert forall|i: int| 0 <= i < q.len() implies !#[trigger] dot_segment_at(q, i) by {
        if i < bl {
            assert(!dot_segment_at(b, i));
            assert(q[i] == b[i]);
            if i > 0 {
                assert(q[i - 1] == b[i - 1]);
            }
            if i + 1 < bl {
                assert(q[i + 1] == b[i + 1]);
            }
            if i + 2 < bl {
                assert(q[i + 2] == b[i + 2]);
            }
            if i + 1 == bl {
                assert(q[i + 1] == '/');
            }
            if i + 2 == bl {
                assert(q[i + 2] == '/');
            }
        } else if i > bl {
            let k = i - bl - 1;
            assert(q[i] == n[k]);
            if k > 0 {
                assert(q[i - 1] == n[k - 1]);
            }
            if k + 1 < n.len() {
                assert(q[i + 1] == n[k + 1]);
            }
            if k + 2 < n.len() {
                assert(q[i + 2] == n[k + 2]);
            }
            if dot_segment_at(q, i) {
                assert(k == 0);
                if n.len() == 1 {
                    assert(n =~= seq!['.']);
                } else {
                    assert(n.len() == 2);
                    assert(n =~= seq!['.', '.']);
                }
            }
        }
    }
}

/// A plain path descended by plain names is a plain path.
pub proof fn lemma_descend_plain(base: Seq<char>, names: Seq<Seq<char>>)
    requires
        plain_path(base),
        forall|i: int| 0 <= i < names.len() ==> plain_name(#[trigger] names[i]),
    ensures
        plain_path(descend(base, names)),
    decreases names.len(),
{
    if names.len() > 0 {
        let init = names.drop_last();
        assert forall|i: int| 0 <= i < init.len() implies plain_name(#[trigger] init[i]) by {
            assert(init[i] == names[i]);
        }
        lemma_descend_plain(base, init);
        let d = descend(base, init);
        let n = names.last();
        assert(plain_name(names[names.len() - 1]));
        if d[0] == '/' {
            lemma_plain_rel_extend(d.drop_first(), n);
            assert((d + seq!['/'] + n).drop_first() =~= d.drop_first() + seq!['/'] + n);
        } else {
            lemma_plain_rel_extend(d, n);
        }
    }
}

/// The segments of a name descended by names are those names.
pub proof fn lemma_segments_descend(base: Seq<char>, names: Seq<Seq<char>>)
    requires
        forall|i: int| 0 <= i < base.len() ==> #[trigger] base[i] != '/',
        forall|i: int| 0 <= i < names.len() ==> plain_name(#[trigger] names[i]),
    ensures
        segments(descend(base, names)) == seq![base] + names,
    decreases names.len(),
{
    if names.len() == 0 {
        lemma_last_slash(base);
        assert(seq![base] + names =~= seq![base]);
    } else {
        let init = names.drop_last();
        assert forall|i: int| 0 <= i < init.len() implies plain_name(#[trigger] init[i]) by {
            assert(init[i] == names[i]);
        }
        lemma_segments_descend(base, init);
        let d = descend(base, init);
        let n = names.last();
        assert(plain_name(names[names.len() - 1]));
        lemma_last_slash_before(d, n);
        let q = d + seq!['/'] + n;
        assert(q.subrange(0, d.len() as int) =~= d);
        assert(final_name(q) =~= n);
        assert(seq![base] + names =~= (seq![base] + init).push(n));
    }
}

/// Descending from `root` by one or more names passes through `root` and a
/// `/`, then the first name descended by the others.
pub proof fn lemma_descend_split(root: Seq<char>, names: Seq<Seq<char>>)
    requires
        names.len() > 0,
    ensures
        descend(root, names) == root + seq!['/'] + descend(names[0], names.drop_first()),
    decreases names.len(),
{
    if names.len() == 1 {
        assert(names.drop_last().len() == 0);
        assert(names.drop_first().len() == 0);
        assert(descend(root, names.drop_last()) == root);
        assert(descend(names[0], names.drop_first()) == names[0]);
        assert(names.last() == names[0]);
        assert(descend(root, names) =~= root + seq!['/'] + names[0]);
    } else {
        let init = names.drop_last();
        lemma_descend_split(root, init);
        assert(init.drop_first() =~= names.drop_first().drop_last());
        assert(names.drop_first().last() == names.last());
        assert(init[0] == names[0]);
        assert(descend(root, names) =~= root + seq!['/'] + descend(names[0], names.drop_first()));
    }
}

/// The stem of a file name: the part before its last `.`, unless that `.`
/// leads the name or there is none (then the whole name).
pub open spec fn stem_spec(name: Seq<char>) -> Seq<char> {
    let d = crate::text::last_dot(name);
    if d > 0 {
        name.subrange(0, d)
    } else {
        name
    }
}

/// The position of the last separator (`/` or `\`) in `p`, or -1.
pub open spec fn last_sep(p: Seq<char>) -> int
    decreases p.len(),
{
    if p.len() == 0 {
        -1
    } else if is_sep(p.last()) {
        p.len() - 1
    } else {
        last_sep(p.drop_last())
    }
}

/// What follows the last separator (`/` or `\`) of `p`.
pub open spec fn final_segment(p: Seq<char>) -> Seq<char> {
    p.subrange(last_sep(p) + 1, p.len() as int)
}

/// A path whose last component is the same on every platform up to what
/// precedes it: it does not end in a separator, does not start with two
/// (no UNC, device or verbatim prefix), and what follows its last separator
/// is neither `.` nor `..` and holds no `:` (no drive prefix).
pub open spec fn tail_named(p: Seq<char>) -> bool {
    let f = final_segment(p);
    &&& p.len() > 0
    &&& !is_sep(p.last())
    &&& !(p.len() >= 2 && is_sep(p[0]) && is_sep(p[1]))
    &&& forall|i: int| 0 <= i < f.len() ==> #[trigger] f[i] != ':'
    &&& f != seq!['.']
    &&& f != seq!['.', '.']
}

/// Whether `s` ends with `suffix`.
pub open spec fn ends_with(s: Seq<char>, suffix: Seq<char>) -> bool {
    suffix.len() <= s.len() && s.subrange(s.len() - suffix.len(), s.len() as int) == suffix
}

/// `last_sep` finds the last separator, if any.
pub proof fn lemma_last_sep(p: Seq<char>)
    ensures
        -1 <= last_sep(p) < p.len(),
        last_sep(p) >= 0 ==> is_sep(p[last_sep(p)]),
        forall|j: int| last_sep(p) < j < p.len() ==> !is_sep(#[trigger] p[j]),
    decreases p.len(),
{
    if p.len() > 0 && !is_sep(p.last()) {
        lemma_last_sep(p.drop_last());
        assert forall|j: int| last_sep(p) < j < p.len() implies !is_sep(#[trigger] p[j]) by {
            if j < p.len() - 1 {
                assert(p[j] == p.drop_last()[j]);
            }
        }
    }
}

/// A name that ends with a name holding a `.` after its first character has
/// the same extension.
pub proof fn lemma_extension_of_suffix(r: Seq<char>, f: Seq<char>)
    requires
        ends_with(r, f),
        crate::text::last_dot(f) > 0,
        f != seq!['.', '.'],
    ensures
        crate::text::name_extension(r) == crate::text::name_extension(f),
{
    let k = r.len() - f.len();
    let d = crate::text::last_dot(f);
    lemma_last_dot_bounds(f);
    lemma_last_dot_suffix(r, f);
    assert(r.subrange(k + d + 1, r.len() as int) =~= f.subrange(d + 1, f.len() as int)) by {
        assert forall|i: int| 0 <= i < f.len() - d - 1 implies #[trigger] r.subrange(k + d + 1, r.len() as int)[i] == f.subrange(
            d + 1,
            f.len() as int,
        )[i] by {
            assert(r.subrange(k, r.len() as int)[d + 1 + i] == f[d + 1 + i]);
        }
    }
    if r == seq!['.', '.'] {
        assert(f.len() == 2);
        assert(f =~= r.subrange(0, 2));
        assert(r.subrange(0, 2) =~= r);
    }
}

proof fn lemma_last_dot_bounds(f: Seq<char>)
    ensures
        -1 <= crate::text::last_dot(f) < f.len(),
    decreases f.len(),
{
    if f.len() > 0 && f.last() != '.' {
        lemma_last_dot_bounds(f.drop_last());
    }
}

/// The last `.` of a name ending with a name that holds one lies in that
/// ending, at the same place.
proof fn lemma_last_dot_suffix(r: Seq<char>, f: Seq<char>)
    requires
        ends_with(r, f),
        crate::text::last_dot(f) >= 0,
    ensures
        crate::text::last_dot(r) == r.len() - f.len() + crate::text::last_dot(f),
    decreases f.len(),
{
    let k = r.len() - f.len();
    assert(r.last() == f.last()) by {
        assert(r.subrange(k, r.len() as int)[f.len() - 1] == f[f.len() - 1]);
    }
    if f.last() != '.' {
        let f2 = f.drop_last();
        let r2 = r.drop_last();
        assert(r2.subrange(r2.len() - f2.len(), r2.len() as int) =~= f2) by {
            assert forall|i: int| 0 <= i < f2.len() implies r2.subrange(r2.len() - f2.len(), r2.len() as int)[i] == f2[i] by {
                assert(r.subrange(k, r.len() as int)[i] == f[i]);
            }
        }
        lemma_last_dot_suffix(r2, f2);
    }
}

/// A directory path onto which a `/` and a relative plain path add exactly
/// those names as components on every platform, whatever separators and
/// prefix it has itself (`C:\notes` among them): it is not empty, does not end
/// in a separator, does not start with two (no UNC, device or verbatim
/// prefix), is not a bare drive such as `C:`, and what follows its last
/// separator is not `.`.
pub open spec fn dir_base(d: Seq<char>) -> bool {
    &&& d.len() > 0
    &&& !is_sep(d.last())
    &&& !(d.len() >= 2 && is_sep(d[0]) && is_sep(d[1]))
    &&& !(d.len() == 2 && d[1] == ':')
    &&& final_segment(d) != seq!['.']
}

/// `base`, a `/`, then `rel`.
pub open spec fn child_path(base: Seq<char>, rel: Seq<char>) -> Seq<char> {
    base + seq!['/'] + rel
}

/// A `dir_base` continued by a `/` and a relative plain path is a
/// `dir_base`.
pub proof fn lemma_dir_base_child(d: Seq<char>, rel: Seq<char>)
    requires
        dir_base(d),
        plain_rel(rel),
    ensures
        dir_base(child_path(d, rel)),
{
    let q = child_path(d, rel);
    let k = d.len() + 1;
    assert(q.last() == rel.last());
    assert(portable_char(rel[rel.len() - 1]));
    assert(q[0] == d[0]);
    if d.len() == 1 {
        assert(d.last() == d[0]);
        assert(q[1] == '/');
    } else {
        assert(q[1] == d[1]);
    }
    lemma_last_sep(q);
    lemma_last_slash(rel);
    let ls = last_slash(rel);
    let pos = k + ls;
    assert(is_sep(q[pos])) by {
        if ls >= 0 {
            assert(q[pos] == rel[ls]);
        }
    }
    assert forall|j: int| pos < j < q.len() implies !is_sep(#[trigger] q[j]) by {
        assert(q[j] == rel[j - k]);
        assert(portable_char(rel[j - k]));
    }
    assert(last_sep(q) == pos) by {
        if last_sep(q) < pos {
            assert(!is_sep(q[pos]));
        }
        if last_sep(q) > pos {
            assert(!is_sep(q[last_sep(q)]));
        }
    }
    let f = final_segment(q);
    if f == seq!['.'] {
        assert(f.len() == 1);
        assert(f[0] == q[pos + 1]);
        assert(q[pos + 1] == '.');
        assert(rel.len() == ls + 2);
        assert(rel[ls + 1] == q[pos + 1]);
        assert(dot_segment_at(rel, ls + 1));
    }
}

/// Wraps `Path::starts_with`: whether the components of `base` begin those
/// of `path`. On plain paths: whether `path` is `base` or lies beneath it.
/// A path starts with itself, and with any `dir_base` it continues by a `/`
/// and a relative plain path.
#[verifier::external_body]
pub(crate) fn path_starts_with(path: &str, base: &str) -> (r: bool)
    ensures
        path@ == base@ ==> r,
        plain_path(path@) && plain_path(base@) ==> (r <==> path@ == base@ || under(path@, base@)),
        forall|rel: Seq<char>|
            dir_base(base@) && plain_rel(rel) && path@ == #[trigger] child_path(base@, rel) ==> r,
{
    std::path::Path::new(path).starts_with(base)
}

/// Wraps `PartialEq for Path`: component-wise equality. Equal strings are
/// equal paths; plain paths (or the empty path, or the root) are equal
/// exactly when their strings are.
#[verifier::external_body]
pub(crate) fn paths_equal(a: &str, b: &str) -> (r: bool)
    ensures
        a@ == b@ ==> r,
        plain_or_root(a@) && plain_or_root(b@) ==> (r <==> a@ == b@),
{
    std::path::Path::new(a) == std::path::Path::new(b)
}

/// Wraps `Path::file_name` (lossily converted to a string): the final name of
/// a plain path; none for the empty path and the root. Of a `tail_named` path
/// it ends with what follows the last separator: that is the whole name where
/// `\` separates, and the end of it where only `/` does. Of a `dir_base`
/// followed by a `/` and a plain name, it is that name.
#[verifier::external_body]
pub(crate) fn path_file_name(p: &str) -> (r: Option<String>)
    ensures
        p@.len() == 0 || p@ == seq!['/'] ==> r is None,
        plain_path(p@) ==> r is Some && r->0@ == final_name(p@),
        tail_named(p@) ==> r is Some && ends_with(r->0@, final_segment(p@)),
        forall|d: Seq<char>, n: Seq<char>|
            dir_base(d) && plain_name(n) && p@ == #[trigger] child_path(d, n) ==> r is Some && r->0@ == n,
{
    match std::path::Path::new(p).file_name() {
        Some(n) => Some(n.to_string_lossy().to_string()),
        None => None,
    }
}

/// Wraps `Path::file_stem` (lossily converted to a string): the stem of the
/// final name of a plain path.
#[verifier::external_body]
pub(crate) fn path_file_stem(p: &str) -> (r: Option<String>)
    ensures
        p@.len() == 0 || p@ == seq!['/'] ==> r is None,
        plain_path(p@) ==> r is Some && r->0@ == stem_spec(final_name(p@)),
{
    match std::path::Path::new(p).file_stem() {
        Some(n) => Some(n.to_string_lossy().to_string()),
        None => None,
    }
}

/// Wraps `Path::parent` (lossily converted to a string): none for the empty
/// path and the root; of a plain path, the path without its final name; of a
/// `dir_base` followed by a `/` and a plain name, that `dir_base`.
#[verifier::external_body]
pub(crate) fn path_parent(p: &str) -> (r: Option<String>)
    ensures
        p@.len() == 0 || p@ == seq!['/'] ==> r is None,
        plain_path(p@) ==> r is Some && r->0@ == parent_spec(p@),
        forall|d: Seq<char>, n: Seq<char>|
            dir_base(d) && plain_name(n) && p@ == #[trigger] child_path(d, n) ==> r is Some && r->0@ == d,
{
    match std::path::Path::new(p).parent() {
        Some(q) => Some(q.to_string_lossy().to_string()),
        None => None,
    }
}

/// Wraps `Path::strip_prefix` (lossily converted to a string): the rest of
/// `p` after the components of `base`. For a plain `base` and a plain `p` (or
/// the empty path, or the root): present exactly when `p` is `base`, then
/// empty, or lies beneath it, then what follows `base` and its `/`. Any path
/// stripped of itself leaves the empty path, and a `dir_base` stripped from
/// itself continued by a `/` and a relative plain path leaves that path.
#[verifier::external_body]
pub(crate) fn path_strip_prefix(p: &str, base: &str) -> (r: Option<String>)
    ensures
        plain_path(base@) && plain_or_root(p@) ==> {
            &&& r is Some <==> (p@ == base@ || under(p@, base@))
            &&& p@ == base@ ==> r->0@.len() == 0
            &&& under(p@, base@) ==> r->0@ == p@.subrange(base@.len() + 1int, p@.len() as int)
        },
        p@ == base@ ==> r is Some && r->0@.len() == 0,
        forall|rel: Seq<char>|
            dir_base(base@) && plain_rel(rel) && p@ == #[trigger] child_path(base@, rel) ==> r is Some && r->0@ == rel,
{
    match std::path::Path::new(p).strip_prefix(base) {
        Ok(q) => Some(q.to_string_lossy().to_string()),
        Err(_) => None,
    }
}

/// Wraps `Path::components`: the components of `p`, each as a string. The
/// empty path has none; a relative plain path has its `/`-separated names.
#[verifier::external_body]
pub(crate) fn path_components(p: &str) -> (r: Vec<String>)
    ensures
        p@.len() == 0 ==> r@.len() == 0,
        plain_rel(p@) ==> strings_view(r@) == segments(p@),
{
    let mut r = Vec::new();
    for c in std::path::Path::new(p).components() {
        r.push(c.as_os_str().to_string_lossy().to_string());
    }
    r
}

/// A character some platform reads as a separator.
pub open spec fn is_sep(c: char) -> bool {
    c == '/' || c == '\\'
}

/// A path onto which every platform joins a plain name by adding one
/// separator and the name: not empty, not ending in a separator, without `:`
/// (no drive prefix), and not starting with two separators (no UNC or
/// verbatim prefix).
pub open spec fn join_base(b: Seq<char>) -> bool {
    &&& b.len() > 0
    &&& !is_sep(b.last())
    &&& forall|i: int| 0 <= i < b.len() ==> #[trigger] b[i] != ':'
    &&& !(b.len() >= 2 && is_sep(b[0]) && is_sep(b[1]))
}

/// `r` is `base` joined with `name` by one separator, `/` or `\`.
pub open spec fn joined_with(base: Seq<char>, name: Seq<char>, r: Seq<char>) -> bool {
    r == base + seq!['/'] + name || r == base + seq!['\\'] + name
}

/// A plain path is a base for joining.
pub proof fn lemma_plain_join_base(p: Seq<char>)
    requires
        plain_path(p),
    ensures
        join_base(p),
        !is_sep(p[0]) || p[0] == '/',
{
    if p[0] == '/' {
        let b = p.drop_first();
        assert(b[0] == p[1]);
        assert(portable_char(b[0]));
        assert(b.last() == p.last());
        assert(portable_char(b[b.len() - 1]));
        assert forall|i: int| 0 <= i < p.len() implies #[trigger] p[i] != ':' by {
            if i > 0 {
                assert(p[i] == b[i - 1]);
                assert(portable_char(b[i - 1]));
            }
        }
    } else {
        assert(portable_char(p[0]));
        assert(portable_char(p[p.len() - 1]));
        assert forall|i: int| 0 <= i < p.len() implies #[trigger] p[i] != ':' by {
            assert(portable_char(p[i]));
        }
    }
}

/// Joining a plain name onto a base for joining gives a base for joining
/// with the same first character.
pub proof fn lemma_join_base_extend(b: Seq<char>, n: Seq<char>, r: Seq<char>)
    requires
        join_base(b),
        plain_name(n),
        joined_with(b, n, r),
    ensures
        join_base(r),
        r[0] == b[0],
{
    let bl = b.len() as int;
    assert(r[0] == b[0]);
    assert(r.last() == n.last());
    assert(plain_name(n) ==> n[n.len() - 1] != '/' && portable_char(n[n.len() - 1]));
    assert forall|i: int| 0 <= i < r.len() implies #[trigger] r[i] != ':' by {
        if i < bl {
            assert(r[i] == b[i]);
        } else if i > bl {
            assert(r[i] == n[i - bl - 1]);
            assert(portable_char(n[i - bl - 1]));
        }
    }
    if r.len() >= 2 && is_sep(r[0]) && is_sep(r[1]) {
        if bl >= 2 {
            assert(r[1] == b[1]);
        } else {
            assert(b.last() == b[0]);
        }
    }
}

/// A base for joining whose first character is not `\` shows no verbatim
/// prefix.
pub proof fn lemma_join_base_displayed(b: Seq<char>)
    requires
        b.len() > 0,
        b[0] != '\\',
    ensures
        crate::text::display_path_spec(b) == b,
{
    if crate::text::has_verbatim_prefix(b) {
        assert(b.subrange(0, 4)[0] == b[0]);
    }
}

/// A relative plain path without `/` is a plain name.
proof fn lemma_plain_rel_name(q: Seq<char>)
    requires
        plain_rel(q),
        forall|i: int| 0 <= i < q.len() ==> #[trigger] q[i] != '/',
    ensures
        plain_name(q),
{
    assert(!dot_segment_at(q, 0));
    if q =~= seq!['.'] {
        assert(dot_segment_at(q, 0));
    }
    if q =~= seq!['.', '.'] {
        assert(dot_segment_at(q, 0));
    }
    assert forall|i: int| 0 <= i < q.len() implies #[trigger] q[i] != '/' && portable_char(q[i]) by {
        assert(portable_char(q[i]));
    }
}

/// The segments of a relative plain path are plain names.
pub proof fn lemma_segments_plain(p: Seq<char>)
    requires
        plain_rel(p),
    ensures
        forall|i: int| 0 <= i < segments(p).len() ==> plain_name(#[trigger] segments(p)[i]),
    decreases p.len(),
{
    lemma_last_slash(p);
    let ls = last_slash(p);
    if ls < 0 {
        lemma_plain_rel_name(p);
        assert(segments(p) == seq![p]);
    } else {
        assert(ls > 0);
        lemma_plain_rel_prefix(p, ls);
        let init = p.subrange(0, ls);
        lemma_segments_plain(init);
        lemma_plain_rel_suffix(p, ls + 1);
        let f = final_name(p);
        assert forall|i: int| 0 <= i < f.len() implies #[trigger] f[i] != '/' by {
            assert(f[i] == p[ls + 1 + i]);
        }
        lemma_plain_rel_name(f);
        let sg = segments(p);
        assert(sg == segments(init).push(f));
        assert forall|i: int| 0 <= i < sg.len() implies plain_name(#[trigger] sg[i]) by {
            if i < sg.len() - 1 {
                assert(sg[i] == segments(init)[i]);
            }
        }
    }
}

/// Wraps `Path::join`: `name` appended to `base` as a new component. Onto a
/// base for joining, a plain name is added after one separator: `/` on Unix,
/// `\` on Windows, so either is stated.
#[verifier::external_body]
pub(crate) fn path_join(base: &str, name: &str) -> (r: String)
    ensures
        join_base(base@) && plain_name(name@) ==> joined_with(base@, name@, r@),
{
    std::path::Path::new(base).join(name).to_string_lossy().to_string()
}

} // verus!
