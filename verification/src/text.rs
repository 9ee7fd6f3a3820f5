//! Character-level helpers on paths and names.

use vstd::prelude::*;

verus! {

/// The prefix Windows puts in front of verbatim (extended-length) paths: `\\?\`.
pub open spec fn verbatim_prefix() -> Seq<char> {
    seq!['\\', '\\', '?', '\\']
}

pub open spec fn has_verbatim_prefix(s: Seq<char>) -> bool {
    s.len() >= 4 && s.subrange(0, 4) == verbatim_prefix()
}

/// A path as it is shown to the user: without the verbatim prefix, if it has one.
pub open spec fn display_path_spec(s: Seq<char>) -> Seq<char> {
    if has_verbatim_prefix(s) {
        s.subrange(4, s.len() as int)
    } else {
        s
    }
}

/// Strips the `\\?\` prefix that canonicalized Windows paths carry; every other
/// path is returned unchanged.
pub fn display_path(p: &str) -> (r: String)
    ensures
        r@ == display_path_spec(p@),
{
    let n = p.unicode_len();
    if n >= 4 && p.get_char(0) == '\\' && p.get_char(1) == '\\' && p.get_char(2) == '?'
        && p.get_char(3) == '\\' {
        assert(p@.subrange(0, 4) =~= verbatim_prefix());
        p.substring_char(4, n).to_owned()
    } else {
        proof {
            if has_verbatim_prefix(p@) {
                assert(p@.subrange(0, 4)[0] == p@[0]);
                assert(p@.subrange(0, 4)[1] == p@[1]);
                assert(p@.subrange(0, 4)[2] == p@[2]);
                assert(p@.subrange(0, 4)[3] == p@[3]);
            }
        }
        p.to_owned()
    }
}

} // verus!

verus! {

/// Lexicographic order on character sequences, by code point: the order in
/// which directory entries are listed.
pub open spec fn chars_le(a: Seq<char>, b: Seq<char>) -> bool
    decreases a.len(),
{
    if a.len() == 0 {
        true
    } else if b.len() == 0 {
        false
    } else if a[0] != b[0] {
        (a[0] as int) < (b[0] as int)
    } else {
        chars_le(a.drop_first(), b.drop_first())
    }
}

/// The characters of `s`, one by one.
pub fn chars_of(s: &str) -> (v: Vec<char>)
    ensures
        v@ == s@,
{
    let n = s.unicode_len();
    let mut v: Vec<char> = Vec::new();
    let mut i: usize = 0;
    while i < n
        invariant
            n == s@.len(),
            i <= n,
            v@ == s@.subrange(0, i as int),
        decreases n - i,
    {
        let c = s.get_char(i);
        v.push(c);
        i = i + 1;
        assert(v@ =~= s@.subrange(0, i as int));
    }
    assert(v@ =~= s@);
    v
}

/// Compares two character sequences in the order of `chars_le`.
pub fn chars_le_exec(a: &Vec<char>, b: &Vec<char>) -> (r: bool)
    ensures
        r == chars_le(a@, b@),
{
    let mut i: usize = 0;
    assert(a@.subrange(0, a@.len() as int) =~= a@);
    assert(b@.subrange(0, b@.len() as int) =~= b@);
    while i < a.len()
        invariant
            i <= a.len(),
            i <= b.len(),
            a@.subrange(0, i as int) == b@.subrange(0, i as int),
            chars_le(a@, b@) == chars_le(a@.subrange(i as int, a.len() as int), b@.subrange(i as int, b.len() as int)),
        decreases a.len() - i,
    {
        let ghost sa = a@.subrange(i as int, a.len() as int);
        let ghost sb = b@.subrange(i as int, b.len() as int);
        if i >= b.len() {
            return false;
        }
        if a[i] != b[i] {
            return a[i] < b[i];
        }
        assert(sa.drop_first() =~= a@.subrange(i + 1, a.len() as int));
        assert(sb.drop_first() =~= b@.subrange(i + 1, b.len() as int));
        assert(a@.subrange(0, i + 1) =~= a@.subrange(0, i as int).push(a[i as int]));
        assert(b@.subrange(0, i + 1) =~= b@.subrange(0, i as int).push(b[i as int]));
        i = i + 1;
    }
    true
}

} // verus!

verus! {

/// Index of the last `.` in `s`, or -1 when there is none.
pub open spec fn last_dot(s: Seq<char>) -> int
    decreases s.len(),
{
    if s.len() == 0 {
        -1
    } else if s.last() == '.' {
        s.len() - 1
    } else {
        last_dot(s.drop_last())
    }
}

/// The extension of a file name, as `Path::extension` defines it: the part
/// after the final `.`; none when there is no `.`, when the only `.` is the
/// first character, or for the name `..`.
pub open spec fn name_extension(name: Seq<char>) -> Option<Seq<char>> {
    let k = last_dot(name);
    if name == seq!['.', '.'] || k <= 0 {
        None
    } else {
        Some(name.subrange(k + 1, name.len() as int))
    }
}

/// The extension of a file name (see `name_extension`).
pub fn file_extension(name: &str) -> (r: Option<String>)
    ensures
        r is Some <==> name_extension(name@) is Some,
        r is Some ==> r->0@ == name_extension(name@)->0,
{
    let n = name.unicode_len();
    let mut i: usize = n;
    assert(name@.subrange(0, n as int) =~= name@);
    while i > 0 && name.get_char(i - 1) != '.'
        invariant
            n == name@.len(),
            i <= n,
            forall|j: int| i <= j < n ==> name@[j] != '.',
            last_dot(name@) == last_dot(name@.subrange(0, i as int)),
        decreases i,
    {
        assert(name@.subrange(0, i as int).drop_last() =~= name@.subrange(0, i - 1));
        i = i - 1;
    }
    proof {
        if i > 0 {
            assert(name@.subrange(0, i as int).last() == '.');
        }
    }
    if i <= 1 {
        return None;
    }
    if n == 2 && name.get_char(0) == '.' && name.get_char(1) == '.' {
        assert(name@ =~= seq!['.', '.']);
        return None;
    }
    proof {
        if name@ == seq!['.', '.'] {
            assert(name@[0] == '.' && name@[1] == '.');
        }
    }
    Some(name.substring_char(i, n).to_owned())
}

/// What `str::to_lowercase` returns: Unicode lower-casing, a function of the
/// characters alone.
pub uninterp spec fn unicode_lowercase(s: Seq<char>) -> Seq<char>;

/// Wraps `str::to_lowercase`; its result is named `unicode_lowercase`.
#[verifier::external_body]
pub(crate) fn to_lowercase(s: &str) -> (r: String)
    ensures
        r@ == unicode_lowercase(s@),
{
    s.to_lowercase()
}

/// Whether an extension names a markdown file: `md`, `markdown` or `mdx`,
/// in any case.
pub open spec fn is_markdown_ext_spec(ext: Seq<char>) -> bool {
    let l = unicode_lowercase(ext);
    l == "md"@ || l == "markdown"@ || l == "mdx"@
}

/// Whether a file with this extension is shown as a markdown document.
pub fn is_markdown_ext(ext: &str) -> (r: bool)
    ensures
        r == is_markdown_ext_spec(ext@),
{
    let l = to_lowercase(ext);
    let md = String::from_str("md");
    let markdown = String::from_str("markdown");
    let mdx = String::from_str("mdx");
    l == md || l == markdown || l == mdx
}

/// Whether a file name carries a markdown extension.
pub open spec fn is_markdown_name(name: Seq<char>) -> bool {
    name_extension(name) is Some && is_markdown_ext_spec(name_extension(name)->0)
}

/// Whether a file name carries a markdown extension.
pub fn is_markdown_name_exec(name: &str) -> (r: bool)
    ensures
        r == is_markdown_name(name@),
{
    match file_extension(name) {
        Some(ext) => is_markdown_ext(ext.as_str()),
        None => false,
    }
}

} // verus!

verus! {

/// Whether `s` begins with `prefix`.
pub open spec fn has_prefix(s: Seq<char>, prefix: Seq<char>) -> bool {
    prefix.len() <= s.len() && s.subrange(0, prefix.len() as int) == prefix
}

/// `s` without `prefix`, when it begins with it.
pub fn strip_prefix(s: &str, prefix: &str) -> (r: Option<String>)
    ensures
        r is Some <==> has_prefix(s@, prefix@),
        r is Some ==> r->0@ == s@.subrange(prefix@.len() as int, s@.len() as int),
{
    let n = s.unicode_len();
    let m = prefix.unicode_len();
    if m > n {
        return None;
    }
    let mut i: usize = 0;
    while i < m
        invariant
            n == s@.len(),
            m == prefix@.len(),
            m <= n,
            i <= m,
            s@.subrange(0, i as int) == prefix@.subrange(0, i as int),
        decreases m - i,
    {
        if s.get_char(i) != prefix.get_char(i) {
            proof {
                if has_prefix(s@, prefix@) {
                    assert(s@.subrange(0, m as int)[i as int] == s@[i as int]);
                }
            }
            return None;
        }
        assert(s@.subrange(0, i + 1) =~= s@.subrange(0, i as int).push(s@[i as int]));
        assert(prefix@.subrange(0, i + 1) =~= prefix@.subrange(0, i as int).push(prefix@[i as int]));
        i = i + 1;
    }
    assert(prefix@.subrange(0, m as int) =~= prefix@);
    Some(s.substring_char(m, n).to_owned())
}

/// Whether `s` holds exactly the characters of `lit`.
pub fn same_text(s: &str, lit: &str) -> (r: bool)
    ensures
        r == (s@ == lit@),
{
    let a = s.to_owned();
    let b = lit.to_owned();
    a == b
}

} // verus!

verus! {

/// Any two names are ordered one way or the other.
pub proof fn lemma_chars_le_total(a: Seq<char>, b: Seq<char>)
    ensures
        chars_le(a, b) || chars_le(b, a),
    decreases a.len(),
{
    if a.len() > 0 && b.len() > 0 && a[0] == b[0] {
        lemma_chars_le_total(a.drop_first(), b.drop_first());
    } else if a.len() > 0 && b.len() > 0 {
        assert((a[0] as int) != (b[0] as int));
    }
}

/// The order of names is transitive.
pub proof fn lemma_chars_le_transitive(a: Seq<char>, b: Seq<char>, c: Seq<char>)
    requires
        chars_le(a, b),
        chars_le(b, c),
    ensures
        chars_le(a, c),
    decreases a.len(),
{
    if a.len() > 0 && b.len() > 0 && c.len() > 0 && a[0] == b[0] && b[0] == c[0] {
        lemma_chars_le_transitive(a.drop_first(), b.drop_first(), c.drop_first());
    }
}

} // verus!
