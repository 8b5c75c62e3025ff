//! The file browser: the order of a directory's entries, their rows, the label
//! of its root, and file paths quoted for a shell.

use crate::order::{sort, text_at_most, Rank, Ranked};
use crate::paths::strip_base;
use crate::text::{chars_of, lowercase, push_text, replace_char, text_of};
use vstd::prelude::*;

verus! {

/// An entry of a directory.
#[derive(Debug)]
pub struct DirEntry {
    pub name: String,
    pub path: String,
    pub is_dir: bool,
}


/// Directories come first, then names without regard to case.
impl Rank for DirEntry {
    open spec fn ranks(self, other: DirEntry) -> bool {
        (self.is_dir && !other.is_dir) || (self.is_dir == other.is_dir && crate::order::text_ranks(
            crate::text::lowercased(self.name@),
            crate::text::lowercased(other.name@),
        ))
    }

    proof fn ranks_totally(a: DirEntry, b: DirEntry) {
        crate::order::text_ranks_totally(
            crate::text::lowercased(a.name@),
            crate::text::lowercased(b.name@),
        );
    }

    proof fn ranks_transitively(a: DirEntry, b: DirEntry, c: DirEntry) {
        if a.is_dir == b.is_dir && b.is_dir == c.is_dir {
            crate::order::text_ranks_transitively(
                crate::text::lowercased(a.name@),
                crate::text::lowercased(b.name@),
                crate::text::lowercased(c.name@),
            );
        }
    }
}

impl Ranked for DirEntry {
    fn at_most(&self, other: &DirEntry) -> (res: bool) {
        if self.is_dir && !other.is_dir {
            true
        } else if self.is_dir == other.is_dir {
            let a = chars_of(lowercase(self.name.as_str()).as_str());
            let b = chars_of(lowercase(other.name.as_str()).as_str());
            text_at_most(a.as_slice(), b.as_slice())
        } else {
            false
        }
    }
}

/// Puts a directory's entries in their order: directories first, then files,
/// each without regard to case.
pub fn sort_entries(entries: Vec<DirEntry>) -> (res: Vec<DirEntry>)
    ensures
        res@ == crate::order::in_order(entries@),
{
    sort(entries)
}

/// In the order of entries no file comes before a directory.
pub proof fn directories_come_first(entries: Seq<DirEntry>, i: int, j: int)
    requires
        0 <= i < j < entries.len(),
        crate::order::in_order(entries)[j].is_dir,
    ensures
        crate::order::in_order(entries)[i].is_dir,
{
    crate::order::sorting_orders(entries);
    crate::order::sorting_permutes(entries);
    let s = crate::order::in_order(entries);
    assert(s[i].ranks(s[j]));
}

/// The icon of an entry.
pub open spec fn icon_of(is_dir: bool) -> Seq<char> {
    if is_dir {
        "folder-symbolic"@
    } else {
        "text-x-generic-symbolic"@
    }
}

/// The icon of an entry.
pub fn icon(is_dir: bool) -> (res: &'static str)
    ensures
        res@ == icon_of(is_dir),
{
    if is_dir {
        "folder-symbolic"
    } else {
        "text-x-generic-symbolic"
    }
}

/// What to do when a row is expanded.
#[derive(Clone, Copy, PartialEq, Eq, Debug, Structural)]
pub enum Expansion {
    /// The row has its children already, or none.
    Keep,
    /// The row's only child is a placeholder, which goes.
    DropPlaceholder,
    /// The placeholder goes, and the directory's entries come in.
    Load,
}

/// What to do when a row is expanded, given its path and that of its first
/// child, if it has one. A placeholder's path is empty.
pub fn on_expand(first_child: Option<&str>, path: &str) -> (res: Expansion)
    ensures
        res == match first_child {
            Some(child) if child@.len() == 0 => if path@.len() == 0 {
                Expansion::DropPlaceholder
            } else {
                Expansion::Load
            },
            _ => Expansion::Keep,
        },
{
    match first_child {
        Some(child) => {
            if chars_of(child).len() > 0 {
                Expansion::Keep
            } else if chars_of(path).len() == 0 {
                Expansion::DropPlaceholder
            } else {
                Expansion::Load
            }
        },
        None => Expansion::Keep,
    }
}

/// A path with its home directory written `~`.
pub open spec fn abbreviated(path: Seq<char>, home: Option<Seq<char>>) -> Seq<char> {
    match home {
        Some(h) => match crate::paths::behind(h, path) {
            Some(rest) if rest.len() == 0 => "~"@,
            Some(rest) => "~/"@ + rest,
            None => path,
        },
        None => path,
    }
}

/// Abbreviates the home directory to `~` for the header label.
pub fn display_path(path: &str, home: Option<&str>) -> (res: String)
    ensures
        res@ == abbreviated(path@, crate::text::optional_text(home)),
{
    if let Some(home) = home {
        if let Some(rest) = strip_base(path, home) {
            if chars_of(rest.as_str()).len() == 0 {
                return "~".to_string();
            }
            let mut out: Vec<char> = chars_of("~/");
            push_text(&mut out, rest.as_str());
            return text_of(out.as_slice());
        }
    }
    path.to_string()
}

/// Where the browser starts: in the active pane's directory, else at home, else
/// at the root.
pub open spec fn first_root(cwd: Option<Seq<char>>, home: Option<Seq<char>>) -> Seq<char> {
    match (cwd, home) {
        (Some(d), _) => d,
        (None, Some(h)) => h,
        (None, None) => "/"@,
    }
}

/// Where the browser starts.
pub fn starting_root(cwd: Option<&str>, home: Option<&str>) -> (res: String)
    ensures
        res@ == first_root(crate::text::optional_text(cwd), crate::text::optional_text(home)),
{
    match (cwd, home) {
        (Some(d), _) => d.to_string(),
        (None, Some(h)) => h.to_string(),
        (None, None) => "/".to_string(),
    }
}

/// Two paths have the same components.
pub open spec fn same_path(a: Seq<char>, b: Seq<char>) -> bool {
    crate::paths::behind(b, a) matches Some(rest) && rest.len() == 0
}

/// The root that the browser goes to when it follows the active pane: the
/// pane's directory, where that is another one, or the home directory, where
/// neither is known.
pub open spec fn next_root(
    cwd: Option<Seq<char>>,
    root: Seq<char>,
    home: Option<Seq<char>>,
) -> Option<Seq<char>> {
    match cwd {
        Some(d) => if same_path(root, d) {
            None
        } else {
            Some(d)
        },
        None => if root.len() == 0 {
            home
        } else {
            None
        },
    }
}

/// The root that the browser goes to when it follows the active pane, if it is
/// another one.
pub fn followed_root(cwd: Option<&str>, root: &str, home: Option<&str>) -> (res: Option<String>)
    ensures
        crate::text::optional_string(res) == next_root(
            crate::text::optional_text(cwd),
            root@,
            crate::text::optional_text(home),
        ),
{
    match cwd {
        Some(d) => {
            if let Some(rest) = strip_base(root, d) {
                if chars_of(rest.as_str()).len() == 0 {
                    return None;
                }
            }
            Some(d.to_string())
        },
        None => {
            if chars_of(root).len() > 0 {
                return None;
            }
            match home {
                Some(h) => Some(h.to_string()),
                None => None,
            }
        },
    }
}

/// A text in single quotes, each quote in it written as an end of the quotes,
/// a quote behind a backslash, and a new start.
pub open spec fn quoted(s: Seq<char>) -> Seq<char> {
    seq!['\''] + crate::text::replaced(s, '\'', "'\\''"@) + seq!['\'']
}

/// Quotes a path for safe insertion into a shell's line.
pub fn shell_quote(s: &str) -> (res: String)
    ensures
        res@ == quoted(s@),
{
    let chars = chars_of(s);
    let body = replace_char(chars.as_slice(), '\'', "'\\''");
    let mut out: Vec<char> = Vec::new();
    out.push('\'');
    crate::text::push_chars(&mut out, body.as_slice());
    out.push('\'');
    proof {
        assert(out@ =~= quoted(s@));
    }
    text_of(out.as_slice())
}

/// What a shell makes of one word: inside single quotes every character stands
/// for itself, outside a backslash makes the next one stand for itself. Nothing
/// where the word holds anything else outside quotes, or the quotes do not end.
pub open spec fn shell_word(s: Seq<char>, inside: bool) -> Option<Seq<char>>
    decreases s.len(),
{
    if s.len() == 0 {
        if inside {
            None
        } else {
            Some(seq![])
        }
    } else if s[0] == '\'' {
        shell_word(s.skip(1), !inside)
    } else if inside {
        match shell_word(s.skip(1), true) {
            Some(rest) => Some(seq![s[0]] + rest),
            None => None,
        }
    } else if s[0] == '\\' && s.len() >= 2 {
        match shell_word(s.skip(2), false) {
            Some(rest) => Some(seq![s[1]] + rest),
            None => None,
        }
    } else {
        None
    }
}

proof fn lemma_replaced_front(s: Seq<char>, c: char, by: Seq<char>)
    requires
        s.len() > 0,
    ensures
        crate::text::replaced(s, c, by) == (if s[0] == c {
            by
        } else {
            seq![s[0]]
        }) + crate::text::replaced(s.skip(1), c, by),
    decreases s.len(),
{
    if s.len() == 1 {
        assert(s.skip(1) =~= seq![]);
        assert(s.drop_last() =~= seq![]);
        reveal_with_fuel(crate::text::replaced, 2);
    } else {
        lemma_replaced_front(s.drop_last(), c, by);
        assert(s.drop_last().skip(1) =~= s.skip(1).drop_last());
        assert(s.skip(1).last() == s.last());
    }
    assert(crate::text::replaced(s, c, by) =~= (if s[0] == c {
        by
    } else {
        seq![s[0]]
    }) + crate::text::replaced(s.skip(1), c, by));
}

proof fn lemma_quoted_body(s: Seq<char>)
    ensures
        shell_word(crate::text::replaced(s, '\'', "'\\''"@) + seq!['\''], true) == Some(s),
    decreases s.len(),
{
    let by = "'\\''"@;
    let end = seq!['\''];
    reveal_strlit("'\\''");
    if s.len() == 0 {
        assert(crate::text::replaced(s, '\'', by) + end =~= end);
        assert(end.skip(1) =~= seq![]);
        assert(shell_word(end, true) == shell_word(end.skip(1), false));
        assert(s =~= seq![]);
    } else {
        lemma_replaced_front(s, '\'', by);
        lemma_quoted_body(s.skip(1));
        let rest = crate::text::replaced(s.skip(1), '\'', by) + end;
        let all = crate::text::replaced(s, '\'', by) + end;
        assert(shell_word(rest, true) == Some(s.skip(1)));
        assert(seq![s[0]] + s.skip(1) =~= s);
        if s[0] == '\'' {
            assert(all =~= seq!['\'', '\\', '\'', '\''] + rest);
            let a = all.skip(1);
            assert(a =~= seq!['\\', '\'', '\''] + rest);
            let b = a.skip(2);
            assert(b =~= seq!['\''] + rest);
            assert(b.skip(1) =~= rest);
            assert(shell_word(all, true) == shell_word(a, false));
            assert(shell_word(b, false) == shell_word(rest, true));
        } else {
            assert(all =~= seq![s[0]] + rest);
            assert(all.skip(1) =~= rest);
        }
    }
}

/// A shell reads back of a quoted text exactly that text, as one word.
pub proof fn quoting_is_read_back(s: Seq<char>)
    ensures
        shell_word(quoted(s), false) == Some(s),
{
    lemma_quoted_body(s);
    assert(quoted(s).skip(1) =~= crate::text::replaced(s, '\'', "'\\''"@) + seq!['\'']);
}

} // verus!
