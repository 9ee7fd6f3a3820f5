//! What a menu item does, from its identifier, and the labels of menu items.

use vstd::prelude::*;
use crate::config::ZoomAction;
use crate::paths::{
    child_path, dir_base, ends_with, final_name, final_segment, lemma_parent_plain, parent_spec, path_file_name, path_parent,
    plain_name, plain_path, tail_named,
};
use crate::text::{has_prefix, same_text, strip_prefix};

verus! {

/// Whether every character is an ASCII digit.
pub open spec fn all_digits(s: Seq<char>) -> bool {
    forall|i: int| 0 <= i < s.len() ==> '0' <= #[trigger] s[i] <= '9'
}

/// The number that a string of decimal digits denotes.
pub open spec fn digits_value(s: Seq<char>) -> int
    decreases s.len(),
{
    if s.len() == 0 {
        0
    } else {
        digits_value(s.drop_last()) * 10 + (s.last() as int - '0' as int)
    }
}

/// What `str::parse::<usize>` accepts: an optional `+`, then one or more
/// decimal digits denoting a value that fits in `usize`.
pub open spec fn parse_usize_spec(s: Seq<char>) -> Option<int> {
    let d = if s.len() > 0 && s[0] == '+' {
        s.drop_first()
    } else {
        s
    };
    if d.len() > 0 && all_digits(d) && digits_value(d) <= usize::MAX {
        Some(digits_value(d))
    } else {
        None
    }
}

proof fn lemma_digits_value_nonneg(s: Seq<char>)
    requires
        all_digits(s),
    ensures
        digits_value(s) >= 0,
    decreases s.len(),
{
    if s.len() > 0 {
        assert(all_digits(s.drop_last())) by {
            assert forall|i: int| 0 <= i < s.drop_last().len() implies '0' <= #[trigger] s.drop_last()[i] <= '9' by {
                assert(s.drop_last()[i] == s[i]);
            }
        }
        lemma_digits_value_nonneg(s.drop_last());
        assert('0' <= s[s.len() - 1] <= '9');
    }
}

proof fn lemma_digits_value_grows(s: Seq<char>)
    requires
        all_digits(s),
        s.len() > 0,
    ensures
        digits_value(s) >= digits_value(s.drop_last()),
{
    assert(all_digits(s.drop_last())) by {
        assert forall|i: int| 0 <= i < s.drop_last().len() implies '0' <= #[trigger] s.drop_last()[i] <= '9' by {
            assert(s.drop_last()[i] == s[i]);
        }
    }
    lemma_digits_value_nonneg(s.drop_last());
    assert('0' <= s[s.len() - 1] <= '9');
    assert(digits_value(s.drop_last()) * 10 >= digits_value(s.drop_last())) by (nonlinear_arith)
        requires
            digits_value(s.drop_last()) >= 0,
    ;
}

/// Reads a menu index the way `str::parse::<usize>` does.
pub fn parse_index(s: &str) -> (r: Option<usize>)
    ensures
        r is Some <==> parse_usize_spec(s@) is Some,
        r is Some ==> r->0 as int == parse_usize_spec(s@)->0,
{
    let n = s.unicode_len();
    let mut start: usize = 0;
    if n > 0 && s.get_char(0) == '+' {
        start = 1;
    }
    let ghost d = if s@.len() > 0 && s@[0] == '+' {
        s@.drop_first()
    } else {
        s@
    };
    assert(d =~= s@.subrange(start as int, n as int));
    if start >= n {
        return None;
    }
    let mut value: usize = 0;
    let mut i: usize = start;
    while i < n
        invariant
            n == s@.len(),
            start <= i <= n,
            d == s@.subrange(start as int, n as int),
            d == (if s@.len() > 0 && s@[0] == '+' {
                s@.drop_first()
            } else {
                s@
            }),
            all_digits(s@.subrange(start as int, i as int)),
            value as int == digits_value(s@.subrange(start as int, i as int)),
        decreases n - i,
    {
        let c = s.get_char(i);
        let ghost pre = s@.subrange(start as int, i as int);
        let ghost next = s@.subrange(start as int, i + 1);
        assert(next.drop_last() =~= pre);
        assert(d[i - start] == c);
        assert(next.last() == c);
        assert(d.subrange(0, (i - start + 1) as int) =~= next);
        if c < '0' || c > '9' {
            proof {
                assert(!('0' <= d[i - start] <= '9'));
                assert(!all_digits(d));
            }
            return None;
        }
        assert(all_digits(next)) by {
            assert forall|k: int| 0 <= k < next.len() implies '0' <= #[trigger] next[k] <= '9' by {
                if k < pre.len() {
                    assert(next[k] == pre[k]);
                }
            }
        }
        let digit = (c as u32 - '0' as u32) as usize;
        assert(digit as int == c as int - '0' as int);
        assert(digits_value(next) == value as int * 10 + digit as int);
        match value.checked_mul(10) {
            None => {
                proof {
                    lemma_no_fit(d, (i - start + 1) as int);
                }
                return None;
            },
            Some(t) => match t.checked_add(digit) {
                None => {
                    proof {
                        lemma_no_fit(d, (i - start + 1) as int);
                    }
                    return None;
                },
                Some(v) => {
                    value = v;
                },
            },
        }
        i = i + 1;
    }
    assert(s@.subrange(start as int, n as int) =~= d);
    Some(value)
}

/// Once a prefix of a digit string is too large for `usize`, so is the
/// whole string.
proof fn lemma_no_fit(d: Seq<char>, k: int)
    requires
        0 < k <= d.len(),
        all_digits(d.subrange(0, k)),
        digits_value(d.subrange(0, k)) > usize::MAX,
    ensures
        !(all_digits(d) && digits_value(d) <= usize::MAX),
    decreases d.len() - k,
{
    if all_digits(d) {
        if k == d.len() {
            assert(d.subrange(0, k) =~= d);
        } else {
            let next = d.subrange(0, k + 1);
            assert(next.drop_last() =~= d.subrange(0, k));
            assert(all_digits(next)) by {
                assert forall|i: int| 0 <= i < next.len() implies '0' <= #[trigger] next[i] <= '9' by {
                    assert(next[i] == d[i]);
                }
            }
            lemma_digits_value_grows(next);
            lemma_no_fit(d, k + 1);
        }
    }
}

} // verus!

verus! {

/// What choosing a menu item asks for.
pub enum MenuCommand {
    OpenFile,
    OpenFolder,
    ClearRecent,
    /// Open the recent file at this position of the recent list.
    OpenRecent(usize),
    Zoom(ZoomAction),
    NavigateBack,
    NavigateForward,
    Print,
    ExportPdf,
    Find,
    ToggleOutline,
    TogglePrintHeader,
    ToggleShowHiddenFiles,
    /// Switch to the theme with this identifier.
    SetTheme(String),
    /// An identifier that asks for nothing.
    Ignore,
}

/// The mathematical value of a `MenuCommand`.
pub enum MenuCommandView {
    OpenFile,
    OpenFolder,
    ClearRecent,
    OpenRecent(int),
    Zoom(ZoomAction),
    NavigateBack,
    NavigateForward,
    Print,
    ExportPdf,
    Find,
    ToggleOutline,
    TogglePrintHeader,
    ToggleShowHiddenFiles,
    SetTheme(Seq<char>),
    Ignore,
}

impl View for MenuCommand {
    type V = MenuCommandView;

    open spec fn view(&self) -> MenuCommandView {
        match self {
            MenuCommand::OpenFile => MenuCommandView::OpenFile,
            MenuCommand::OpenFolder => MenuCommandView::OpenFolder,
            MenuCommand::ClearRecent => MenuCommandView::ClearRecent,
            MenuCommand::OpenRecent(i) => MenuCommandView::OpenRecent(*i as int),
            MenuCommand::Zoom(a) => MenuCommandView::Zoom(*a),
            MenuCommand::NavigateBack => MenuCommandView::NavigateBack,
            MenuCommand::NavigateForward => MenuCommandView::NavigateForward,
            MenuCommand::Print => MenuCommandView::Print,
            MenuCommand::ExportPdf => MenuCommandView::ExportPdf,
            MenuCommand::Find => MenuCommandView::Find,
            MenuCommand::ToggleOutline => MenuCommandView::ToggleOutline,
            MenuCommand::TogglePrintHeader => MenuCommandView::TogglePrintHeader,
            MenuCommand::ToggleShowHiddenFiles => MenuCommandView::ToggleShowHiddenFiles,
            MenuCommand::SetTheme(t) => MenuCommandView::SetTheme(t@),
            MenuCommand::Ignore => MenuCommandView::Ignore,
        }
    }
}

/// The command of a menu item identifier: the fixed identifiers, `recent-N`
/// for the N-th recent file (nothing if N is not a number), and `theme-ID`.
pub open spec fn menu_command_spec(id: Seq<char>) -> MenuCommandView {
    if id == "open-file"@ {
        MenuCommandView::OpenFile
    } else if id == "open-folder"@ {
        MenuCommandView::OpenFolder
    } else if id == "clear-recent"@ {
        MenuCommandView::ClearRecent
    } else if has_prefix(id, "recent-"@) {
        match parse_usize_spec(id.subrange("recent-"@.len() as int, id.len() as int)) {
            Some(n) => MenuCommandView::OpenRecent(n),
            None => MenuCommandView::Ignore,
        }
    } else if id == "zoom-in"@ {
        MenuCommandView::Zoom(ZoomAction::In)
    } else if id == "zoom-out"@ {
        MenuCommandView::Zoom(ZoomAction::Out)
    } else if id == "zoom-reset"@ {
        MenuCommandView::Zoom(ZoomAction::Reset)
    } else if id == "navigate-back"@ {
        MenuCommandView::NavigateBack
    } else if id == "navigate-forward"@ {
        MenuCommandView::NavigateForward
    } else if id == "print"@ {
        MenuCommandView::Print
    } else if id == "export-pdf"@ {
        MenuCommandView::ExportPdf
    } else if id == "find"@ {
        MenuCommandView::Find
    } else if id == "toggle-outline"@ {
        MenuCommandView::ToggleOutline
    } else if id == "toggle-print-header"@ {
        MenuCommandView::TogglePrintHeader
    } else if id == "toggle-show-hidden-files"@ {
        MenuCommandView::ToggleShowHiddenFiles
    } else if has_prefix(id, "theme-"@) {
        MenuCommandView::SetTheme(id.subrange("theme-"@.len() as int, id.len() as int))
    } else {
        MenuCommandView::Ignore
    }
}

/// Decodes a menu item identifier (see `menu_command_spec`).
pub fn menu_command(id: &str) -> (c: MenuCommand)
    ensures
        c@ == menu_command_spec(id@),
{
    if same_text(id, "open-file") {
        MenuCommand::OpenFile
    } else if same_text(id, "open-folder") {
        MenuCommand::OpenFolder
    } else if same_text(id, "clear-recent") {
        MenuCommand::ClearRecent
    } else if let Some(idx) = strip_prefix(id, "recent-") {
        match parse_index(idx.as_str()) {
            Some(n) => MenuCommand::OpenRecent(n),
            None => MenuCommand::Ignore,
        }
    } else if same_text(id, "zoom-in") {
        MenuCommand::Zoom(ZoomAction::In)
    } else if same_text(id, "zoom-out") {
        MenuCommand::Zoom(ZoomAction::Out)
    } else if same_text(id, "zoom-reset") {
        MenuCommand::Zoom(ZoomAction::Reset)
    } else if same_text(id, "navigate-back") {
        MenuCommand::NavigateBack
    } else if same_text(id, "navigate-forward") {
        MenuCommand::NavigateForward
    } else if same_text(id, "print") {
        MenuCommand::Print
    } else if same_text(id, "export-pdf") {
        MenuCommand::ExportPdf
    } else if same_text(id, "find") {
        MenuCommand::Find
    } else if same_text(id, "toggle-outline") {
        MenuCommand::ToggleOutline
    } else if same_text(id, "toggle-print-header") {
        MenuCommand::TogglePrintHeader
    } else if same_text(id, "toggle-show-hidden-files") {
        MenuCommand::ToggleShowHiddenFiles
    } else if let Some(theme) = strip_prefix(id, "theme-") {
        MenuCommand::SetTheme(theme)
    } else {
        MenuCommand::Ignore
    }
}

/// The label of a recent file: its name, then ` — ` and the name of the
/// folder holding it when there is one.
pub open spec fn label_text_spec(name: Seq<char>, dir: Option<Seq<char>>) -> Seq<char> {
    match dir {
        Some(d) => name + " — "@ + d,
        None => name,
    }
}

/// Builds a recent-file label from the file's name and its folder's name.
pub fn label_text(name: &str, dir: Option<String>) -> (r: String)
    ensures
        r@ == label_text_spec(name@, match dir {
            Some(d) => Some(d@),
            None => None,
        }),
{
    match dir {
        Some(d) => name.to_owned().concat(" — ").concat(d.as_str()),
        None => name.to_owned(),
    }
}

/// The label of a recent file at the plain path `p`: its final name, then the
/// final name of its parent where that is a plain path (not the empty path or
/// the root).
pub open spec fn recent_label_spec(p: Seq<char>) -> Seq<char> {
    let dir = parent_spec(p);
    label_text_spec(final_name(p), if plain_path(dir) { Some(final_name(dir)) } else { None })
}

/// The label of a recent file in the menu, the jump list and the dock menu
/// (see `label_text`); the names are taken by `Path::file_name` of the path
/// and of its parent (`recent_label_spec` on plain paths).
pub fn recent_label(path: &str) -> (r: String)
    ensures
        exists|name: Seq<char>, dir: Option<Seq<char>>| r@ == label_text_spec(name, dir),
        plain_path(path@) ==> r@ == recent_label_spec(path@),
        forall|d: Seq<char>, n: Seq<char>|
            dir_base(d) && plain_name(n) && path@ == #[trigger] child_path(d, n) ==> exists|dir: Option<Seq<char>>|
                r@ == label_text_spec(n, dir),
        forall|d: Seq<char>, n: Seq<char>|
            dir_base(d) && plain_name(n) && tail_named(d) && path@ == #[trigger] child_path(d, n) ==> exists|
                x: Seq<char>,
            | ends_with(x, final_segment(d)) && r@ == label_text_spec(n, Some(x)),
{
    let name = match path_file_name(path) {
        Some(n) => n,
        None => String::new(),
    };
    let dir = match path_parent(path) {
        Some(p) => {
            proof {
                if plain_path(path@) {
                    lemma_parent_plain(path@);
                }
            }
            path_file_name(p.as_str())
        },
        None => None,
    };
    let r = label_text(name.as_str(), dir);
    proof {
        assert forall|d: Seq<char>, n: Seq<char>|
            dir_base(d) && plain_name(n) && path@ == #[trigger] child_path(d, n) implies exists|dir: Option<Seq<char>>|
                r@ == label_text_spec(n, dir) by {
            assert(name@ == n);
            let dv = match dir {
                Some(x) => Some(x@),
                None => None,
            };
            assert(r@ == label_text_spec(n, dv));
        }
        assert forall|d: Seq<char>, n: Seq<char>|
            dir_base(d) && plain_name(n) && tail_named(d) && path@ == #[trigger] child_path(d, n) implies exists|
                x: Seq<char>,
            | ends_with(x, final_segment(d)) && r@ == label_text_spec(n, Some(x)) by {
            assert(name@ == n);
            assert(dir is Some);
            let x = dir->0@;
            assert(ends_with(x, final_segment(d)) && r@ == label_text_spec(n, Some(x)));
        }
    }
    r
}

/// A folder's name if it has one, else its whole path.
pub open spec fn label_or_path(name: Option<Seq<char>>, path: Seq<char>) -> Seq<char> {
    match name {
        Some(n) => n,
        None => path,
    }
}

/// The label of a recent folder in the jump list and the dock menu: its name
/// (by `Path::file_name`), or the whole path when it has none, as the empty
/// path and the root `/` have. The name of a plain path is its final name.
pub fn folder_label(path: &str) -> (r: String)
    ensures
        exists|name: Option<Seq<char>>|
            #![trigger label_or_path(name, path@)]
            r@ == label_or_path(name, path@),
        path@.len() == 0 || path@ == seq!['/'] ==> r@ == path@,
        plain_path(path@) ==> r@ == final_name(path@),
        forall|d: Seq<char>, n: Seq<char>|
            dir_base(d) && plain_name(n) && path@ == #[trigger] child_path(d, n) ==> r@ == n,
{
    match path_file_name(path) {
        Some(n) => {
            assert(n@ == label_or_path(Some(n@), path@));
            n
        },
        None => {
            let r = path.to_owned();
            assert(r@ == label_or_path(None, path@));
            r
        },
    }
}

/// The one-character decimal numeral of a digit.
fn digit_str(d: usize) -> (r: &'static str)
    requires
        d < 10,
    ensures
        r@.len() == 1,
        '0' <= r@[0] <= '9',
        r@[0] as int - '0' as int == d,
{
    if d == 0 {
        proof {
            reveal_strlit("0");
        }
        "0"
    } else if d == 1 {
        proof {
            reveal_strlit("1");
        }
        "1"
    } else if d == 2 {
        proof {
            reveal_strlit("2");
        }
        "2"
    } else if d == 3 {
        proof {
            reveal_strlit("3");
        }
        "3"
    } else if d == 4 {
        proof {
            reveal_strlit("4");
        }
        "4"
    } else if d == 5 {
        proof {
            reveal_strlit("5");
        }
        "5"
    } else if d == 6 {
        proof {
            reveal_strlit("6");
        }
        "6"
    } else if d == 7 {
        proof {
            reveal_strlit("7");
        }
        "7"
    } else if d == 8 {
        proof {
            reveal_strlit("8");
        }
        "8"
    } else {
        proof {
            reveal_strlit("9");
        }
        "9"
    }
}

/// The decimal numeral of `n`, without sign or leading zeros.
pub fn decimal_string(n: usize) -> (r: String)
    ensures
        r@.len() > 0,
        all_digits(r@),
        digits_value(r@) == n,
        r@.len() > 1 ==> r@[0] != '0',
    decreases n,
{
    if n < 10 {
        let r = String::from_str(digit_str(n));
        assert(r@.drop_last() =~= Seq::<char>::empty());
        assert(digits_value(Seq::<char>::empty()) == 0);
        assert(r@.last() == r@[0]);
        assert(digits_value(r@) == n);
        r
    } else {
        let mut s = decimal_string(n / 10);
        let ghost prev = s@;
        let d = digit_str(n % 10);
        s.append(d);
        proof {
            assert(s@ =~= prev.push(d@[0]));
            assert(s@.drop_last() =~= prev);
            assert(all_digits(s@)) by {
                assert forall|i: int| 0 <= i < s@.len() implies '0' <= #[trigger] s@[i] <= '9' by {
                    if i < prev.len() {
                        assert(s@[i] == prev[i]);
                    }
                }
            }
            assert((n / 10) as int * 10 + (n % 10) as int == n as int) by (nonlinear_arith);
            assert(s@.last() == d@[0]);
            assert(digits_value(s@) == digits_value(prev) * 10 + (d@[0] as int - '0' as int));
            assert(digits_value(s@) == n);
            assert(s@[0] == prev[0]);
            if prev.len() == 1 {
                assert(prev.drop_last() =~= Seq::<char>::empty());
                assert(digits_value(Seq::<char>::empty()) == 0);
                assert(prev.last() == prev[0]);
                assert(n / 10 >= 1);
                assert(prev[0] != '0');
            }
        }
        s
    }
}

/// The identifier of the menu item for the recent file at position `i`;
/// `menu_command` decodes it back.
pub fn recent_item_id(i: usize) -> (r: String)
    ensures
        menu_command_spec(r@) == MenuCommandView::OpenRecent(i as int),
{
    let num = decimal_string(i);
    let r = String::from_str("recent-").concat(num.as_str());
    proof {
        reveal_strlit("recent-");
        reveal_strlit("open-file");
        reveal_strlit("open-folder");
        reveal_strlit("clear-recent");
        assert(r@[0] == 'r');
        assert(r@ != "open-file"@ && r@ != "open-folder"@ && r@ != "clear-recent"@) by {
            assert("open-file"@[0] == 'o' && "open-folder"@[0] == 'o' && "clear-recent"@[0] == 'c');
        }
        assert(r@.subrange(0, 7) =~= "recent-"@);
        let d = r@.subrange(7, r@.len() as int);
        assert(d =~= num@);
        assert(d[0] != '+');
    }
    r
}

/// The identifier of the menu item for the theme `theme`; `menu_command`
/// decodes it back.
pub fn theme_item_id(theme: &str) -> (r: String)
    ensures
        menu_command_spec(r@) == MenuCommandView::SetTheme(theme@),
{
    let r = String::from_str("theme-").concat(theme);
    proof {
        reveal_strlit("open-file");
        reveal_strlit("open-folder");
        reveal_strlit("clear-recent");
        reveal_strlit("recent-");
        reveal_strlit("zoom-in");
        reveal_strlit("zoom-out");
        reveal_strlit("zoom-reset");
        reveal_strlit("navigate-back");
        reveal_strlit("navigate-forward");
        reveal_strlit("print");
        reveal_strlit("export-pdf");
        reveal_strlit("find");
        reveal_strlit("toggle-outline");
        reveal_strlit("toggle-print-header");
        reveal_strlit("toggle-show-hidden-files");
        reveal_strlit("theme-");
        assert(r@[0] == 't' && r@[1] == 'h');
        assert(r@ != "open-file"@ && r@ != "open-folder"@ && r@ != "clear-recent"@ && r@ != "zoom-in"@ && r@ != "zoom-out"@ && r@ != "zoom-reset"@ && r@ != "navigate-back"@ && r@ != "navigate-forward"@ && r@ != "print"@ && r@ != "export-pdf"@ && r@ != "find"@ && r@ != "toggle-outline"@ && r@ != "toggle-print-header"@ && r@ != "toggle-show-hidden-files"@) by {
            assert(r@[0] != "open-file"@[0] && r@[0] != "open-folder"@[0] && r@[0] != "clear-recent"@[0]);
            assert(r@[0] != "zoom-in"@[0] && r@[0] != "zoom-out"@[0] && r@[0] != "zoom-reset"@[0]);
            assert(r@[0] != "navigate-back"@[0] && r@[0] != "navigate-forward"@[0] && r@[0] != "print"@[0]);
            assert(r@[0] != "export-pdf"@[0] && r@[0] != "find"@[0]);
            assert(r@[1] != "toggle-outline"@[1] && r@[1] != "toggle-print-header"@[1]);
            assert(r@[1] != "toggle-show-hidden-files"@[1]);
        }
        assert(!has_prefix(r@, "recent-"@)) by {
            if has_prefix(r@, "recent-"@) {
                assert(r@.subrange(0, 7)[0] == r@[0]);
            }
        }
        assert(r@.subrange(0, 6) =~= "theme-"@);
        assert(r@.subrange(6, r@.len() as int) =~= theme@);
    }
    r
}

} // verus!
