use std::path::Path;
use vstd::prelude::*;

use crate::text::{push_char, spec_trim, spec_utf8_lossy, str_eq, string_from_chars, trim_chars, chars_of, utf8_lossy};

verus! {

/// Whether a walk of the workspace leaves out an entry with this name: the
/// version-control, index, build and dependency directories.
pub fn should_skip(name: &str) -> (r: bool)
    ensures
        r == (name@ == ".git"@ || name@ == ".fastregex"@ || name@ == "target"@ || name@ == "node_modules"@),
{
    str_eq(name, ".git") || str_eq(name, ".fastregex") || str_eq(name, "target") || str_eq(name, "node_modules")
}

/// What `Path::strip_prefix` leaves of `path` after the leading components
/// of `base`, as text, or `None` where `base` is no prefix of `path`.
pub uninterp spec fn path_strip(path: Seq<char>, base: Seq<char>) -> Option<Seq<char>>;

/// Trusted: calls `std::path::Path::strip_prefix` on the two paths and
/// converts the rest back to text; the result is named by `path_strip`.
#[verifier::external_body]
fn strip_path_prefix(path: &str, base: &str) -> (r: Option<String>)
    ensures
        match r {
            Some(s) => path_strip(path@, base@) == Some(s@),
            None => path_strip(path@, base@) is None,
        },
{
    Path::new(path).strip_prefix(base).ok().map(|rest| rest.to_string_lossy().into_owned())
}

/// `s` with every backslash turned into a slash.
pub open spec fn forward_slashes(s: Seq<char>) -> Seq<char> {
    s.map_values(|c: char| if c == '\\' { '/' } else { c })
}

/// `s` with every backslash turned into a slash.
pub fn replace_backslashes(s: &str) -> (out: String)
    ensures
        out@ == forward_slashes(s@),
{
    let mut out = String::new();
    for c in it: s.chars()
        invariant
            out@ == forward_slashes(it.seq().take(it.index() as int)),
            it.seq() == s@,
    {
        let d = if c == '\\' { '/' } else { c };
        push_char(&mut out, d);
        proof {
            assert(forward_slashes(it.seq().take(it.index() + 1)) =~= forward_slashes(it.seq().take(it.index() as int)).push(d));
        }
    }
    proof {
        assert(s@.take(s@.len() as int) =~= s@);
    }
    out
}

/// The path of a file relative to the workspace, with forward slashes; the
/// path itself where it lies outside the workspace.
pub fn to_relative_path(workspace: &str, path: &str) -> (rel: String)
    ensures
        rel@ == match path_strip(path@, workspace@) {
            Some(rest) => forward_slashes(rest),
            None => forward_slashes(path@),
        },
{
    match strip_path_prefix(path, workspace) {
        Some(rest) => replace_backslashes(rest.as_str()),
        None => replace_backslashes(path),
    }
}


/// The commit that `git rev-parse HEAD` printed: its output decoded
/// (invalid UTF-8 replaced) and trimmed; `NO_GIT` when the command failed or
/// printed nothing.
pub fn head_commit(succeeded: bool, stdout: &[u8]) -> (c: String)
    ensures
        c@ == if !succeeded || spec_trim(spec_utf8_lossy(stdout@)).len() == 0 {
            "NO_GIT"@
        } else {
            spec_trim(spec_utf8_lossy(stdout@))
        },
{
    if !succeeded {
        return "NO_GIT".to_string();
    }
    let text = utf8_lossy(stdout);
    let chars = chars_of(text.as_str());
    let trimmed = trim_chars(chars.as_slice());
    if trimmed.len() == 0 {
        return "NO_GIT".to_string();
    }
    string_from_chars(trimmed.as_slice())
}

/// The lines of `s` (split at line feeds, a carriage return before a line
/// feed dropped) that are not empty, in order; `cur` is the line read so far.
pub open spec fn nonempty_lines_from(s: Seq<char>, cur: Seq<char>) -> Seq<Seq<char>>
    decreases s.len(),
{
    if s.len() == 0 {
        if cur.len() == 0 { Seq::empty() } else { seq![cur] }
    } else if s[0] == '\n' {
        let line = if cur.len() > 0 && cur.last() == '\r' { cur.drop_last() } else { cur };
        let rest = nonempty_lines_from(s.drop_first(), Seq::empty());
        if line.len() == 0 { rest } else { seq![line] + rest }
    } else {
        nonempty_lines_from(s.drop_first(), cur.push(s[0]))
    }
}

/// The paths that `git ls-tree --name-only` printed: the nonempty lines of
/// its output, decoded with invalid UTF-8 replaced.
pub fn listed_files(stdout: &[u8]) -> (paths: Vec<String>)
    ensures
        paths@.map_values(|p: String| p@) == nonempty_lines_from(spec_utf8_lossy(stdout@), Seq::empty()),
{
    let text = utf8_lossy(stdout);
    let chars = chars_of(text.as_str());
    let ghost all = chars@;
    let mut paths: Vec<String> = Vec::new();
    let mut cur: Vec<char> = Vec::new();
    let mut i: usize = 0;
    assert(all.skip(0) =~= all);
    while i < chars.len()
        invariant
            i <= chars@.len(),
            all == chars@,
            paths@.map_values(|p: String| p@) + nonempty_lines_from(all.skip(i as int), cur@) == nonempty_lines_from(all, Seq::empty()),
        decreases chars.len() - i,
    {
        let ghost rest = all.skip(i as int);
        assert(rest.drop_first() =~= all.skip(i + 1));
        assert(rest[0] == chars@[i as int]);
        if chars[i] == '\n' {
            let mut line_len = cur.len();
            if line_len > 0 && cur[line_len - 1] == '\r' {
                line_len = line_len - 1;
            }
            let ghost line = if cur@.len() > 0 && cur@.last() == '\r' { cur@.drop_last() } else { cur@ };
            assert(cur@.take(line_len as int) =~= line);
            if line_len > 0 {
                let piece = string_from_chars(&cur.as_slice()[0..line_len]);
                let ghost before = paths@.map_values(|p: String| p@);
                paths.push(piece);
                assert(paths@.map_values(|p: String| p@) =~= before.push(line));
                assert(before.push(line) + nonempty_lines_from(all.skip(i + 1), Seq::empty()) =~= before + (seq![line]
                    + nonempty_lines_from(all.skip(i + 1), Seq::empty())));
            }
            cur = Vec::new();
        } else {
            cur.push(chars[i]);
        }
        i = i + 1;
    }
    assert(all.skip(chars@.len() as int) =~= Seq::<char>::empty());
    if cur.len() > 0 {
        let piece = string_from_chars(cur.as_slice());
        let ghost before = paths@.map_values(|p: String| p@);
        paths.push(piece);
        assert(paths@.map_values(|p: String| p@) =~= before + seq![cur@]);
    } else {
        assert(paths@.map_values(|p: String| p@) =~= paths@.map_values(|p: String| p@) + Seq::<Seq<char>>::empty());
    }
    paths
}

} // verus!
