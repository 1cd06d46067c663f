use std::collections::{HashMap, HashSet};
use vstd::prelude::*;
use vstd::utf8::encode_utf8;

use crate::hashing::{hash_gram, spec_xxh3_64};
use crate::sparse::{build_covering_sparse_ngrams, is_window, lemma_covering_windows, spec_covering, SparseConfig};
use crate::text::{chars_of, parse_usize, push_char, spec_parse_usize, spec_trim, string_from_chars, trim_chars};

verus! {

/// What a parsed regex atom stands for when collecting required literals.
#[derive(Debug, Clone, Copy)]
pub enum AtomKind {
    Literal(char),
    Wildcard,
    ZeroWidth,
}

/// One parsed atom: its kind, the position after it, and whether it was well formed.
#[derive(Debug, Clone, Copy)]
pub struct AtomParse {
    pub kind: AtomKind,
    pub next: usize,
    pub parse_ok: bool,
}

/// A regex metacharacter that a backslash turns into a literal.
pub open spec fn is_escapable_meta(c: char) -> bool {
    c == '.' || c == '^' || c == '$' || c == '*' || c == '+' || c == '?' || c == '(' || c == ')'
        || c == '[' || c == ']' || c == '{' || c == '}' || c == '|' || c == '\\'
}

/// Whether `c` is a decimal digit.
pub open spec fn is_digit(c: char) -> bool {
    '0' <= c && c <= '9'
}

/// Whether the escape at `start` (its letter at `start + 1`) takes an
/// argument or quotes what follows, so that what follows would be misread:
/// a hex, octal, property, control, named or relative reference escape
/// (`\x41`, `\o{101}`, `\0`, `\p{L}`, `\cA`, `\N{U+41}`, `\g{1}`,
/// `\k<n>`), a back reference or octal escape of two or more digits
/// (`\12`), or a quoted stretch (`\Q...`). The planner gives up on such a
/// branch.
pub open spec fn escape_takes_more(chars: Seq<char>, start: int) -> bool {
    let e = chars[start + 1];
    let next_is = |c: char| start + 2 < chars.len() && chars[start + 2] == c;
    ||| e == 'x' || e == 'o' || e == 'p' || e == 'P' || e == 'c' || e == 'g' || e == 'k' || e == 'Q' || e == '0'
    ||| e == 'N' && next_is('{')
    ||| ('1' <= e && e <= '9') && start + 2 < chars.len() && is_digit(chars[start + 2])
}

/// An option letter of an option-setting group.
pub open spec fn is_option_char(c: char) -> bool {
    ('a' <= c && c <= 'z') || c == 'J' || c == 'U' || c == '^'
}

/// Whether the option letters from `k` on turn on caseless (`i`) or
/// extended (`x`) matching; `off` says a `-` was passed, after which the
/// letters turn options off.
pub open spec fn turns_on_case_or_space(chars: Seq<char>, k: int, off: bool) -> bool
    decreases chars.len() - k,
{
    if k < 0 || k >= chars.len() {
        false
    } else {
        let c = chars[k];
        if (c == 'i' || c == 'x') && !off {
            true
        } else if c == '-' {
            turns_on_case_or_space(chars, k + 1, true)
        } else if is_option_char(c) {
            turns_on_case_or_space(chars, k + 1, off)
        } else {
            false
        }
    }
}

/// Whether the `(` at `i` opens a group that turns on caseless or extended
/// matching (`(?i)`, `(?x:...)`, `(?^i)`, `(?m-s:i)` does not), which changes
/// what the literals of the rest of the pattern match.
pub open spec fn sets_options(chars: Seq<char>, i: int) -> bool {
    &&& i + 1 < chars.len()
    &&& chars[i + 1] == '?'
    &&& turns_on_case_or_space(chars, i + 2, false)
}

/// The atom that starts with the backslash at `start`.
pub open spec fn spec_parse_escape(chars: Seq<char>, start: int) -> AtomParse {
    if start + 1 >= chars.len() {
        AtomParse { kind: AtomKind::Wildcard, next: chars.len() as usize, parse_ok: false }
    } else if escape_takes_more(chars, start) {
        AtomParse { kind: AtomKind::Wildcard, next: (start + 2) as usize, parse_ok: false }
    } else {
        let e = chars[start + 1];
        let kind = if is_escapable_meta(e) {
            AtomKind::Literal(e)
        } else if e == 'n' {
            AtomKind::Literal('\n')
        } else if e == 'r' {
            AtomKind::Literal('\r')
        } else if e == 't' {
            AtomKind::Literal('\t')
        } else if e == 'b' || e == 'B' || e == 'A' || e == 'z' || e == 'Z' || e == 'G' {
            AtomKind::ZeroWidth
        } else {
            AtomKind::Wildcard
        };
        AtomParse { kind, next: (start + 2) as usize, parse_ok: true }
    }
}

/// Scans a character class from `i` for its closing `]`.
pub open spec fn spec_class_scan(chars: Seq<char>, i: int, escaped: bool) -> AtomParse
    decreases chars.len() - i,
{
    if i >= chars.len() {
        AtomParse { kind: AtomKind::Wildcard, next: chars.len() as usize, parse_ok: false }
    } else if escaped {
        spec_class_scan(chars, i + 1, false)
    } else if chars[i] == '\\' {
        spec_class_scan(chars, i + 1, true)
    } else if chars[i] == ']' {
        AtomParse { kind: AtomKind::Wildcard, next: (i + 1) as usize, parse_ok: true }
    } else {
        spec_class_scan(chars, i + 1, false)
    }
}

/// Scans a group from `i` for the `)` that closes it.
pub open spec fn spec_group_scan(chars: Seq<char>, i: int, depth: int, escaped: bool, class_depth: int) -> AtomParse
    decreases chars.len() - i,
{
    if i >= chars.len() {
        AtomParse { kind: AtomKind::Wildcard, next: chars.len() as usize, parse_ok: false }
    } else if escaped {
        spec_group_scan(chars, i + 1, depth, false, class_depth)
    } else if chars[i] == '\\' {
        spec_group_scan(chars, i + 1, depth, true, class_depth)
    } else if chars[i] == '[' {
        spec_group_scan(chars, i + 1, depth, false, class_depth + 1)
    } else if chars[i] == ']' {
        spec_group_scan(chars, i + 1, depth, false, if class_depth > 0 { class_depth - 1 } else { 0 })
    } else if chars[i] == '(' && class_depth == 0 {
        spec_group_scan(chars, i + 1, depth + 1, false, class_depth)
    } else if chars[i] == ')' && class_depth == 0 {
        let d = if depth > 0 { depth - 1 } else { 0 };
        if d == 0 {
            AtomParse { kind: AtomKind::Wildcard, next: (i + 1) as usize, parse_ok: true }
        } else {
            spec_group_scan(chars, i + 1, d, false, class_depth)
        }
    } else {
        spec_group_scan(chars, i + 1, depth, false, class_depth)
    }
}

/// The position of the first `}` at or after `i`, or the length where there is none.
pub open spec fn spec_find_close_brace(chars: Seq<char>, i: int) -> int
    decreases chars.len() - i,
{
    if i >= chars.len() {
        chars.len() as int
    } else if chars[i] == '}' {
        i
    } else {
        spec_find_close_brace(chars, i + 1)
    }
}

/// The position of the first `,` in `s`, if any.
pub open spec fn spec_find_comma(s: Seq<char>, i: int) -> Option<int>
    decreases s.len() - i,
{
    if i >= s.len() {
        None
    } else if s[i] == ',' {
        Some(i)
    } else {
        spec_find_comma(s, i + 1)
    }
}

/// The `{m}`, `{m,}` or `{m,n}` quantifier at `start`: `(m, next, ok)`; `(1, start, false)`
/// where it is malformed.
pub open spec fn spec_parse_brace(chars: Seq<char>, start: int) -> (int, int, bool) {
    let close = spec_find_close_brace(chars, start + 1);
    if close >= chars.len() {
        (1, start, false)
    } else {
        let trimmed = spec_trim(chars.subrange(start + 1, close));
        if trimmed.len() == 0 {
            (1, start, false)
        } else {
            let part = match spec_find_comma(trimmed, 0) {
                Some(c) => spec_trim(trimmed.subrange(0, c)),
                None => trimmed,
            };
            match spec_parse_usize(part) {
                Some(v) => (v as int, close + 1, true),
                None => (1, start, false),
            }
        }
    }
}

/// Whether a `,` comes before the first `}` from `i` on (an open or ranged
/// brace quantifier).
pub open spec fn comma_before_close(chars: Seq<char>, i: int) -> bool
    decreases chars.len() - i,
{
    if i < 0 || i >= chars.len() {
        false
    } else if chars[i] == '}' {
        false
    } else if chars[i] == ',' {
        true
    } else {
        comma_before_close(chars, i + 1)
    }
}

/// Whether the quantifier at `start` repeats exactly its minimum: there is
/// none, or it is `{m}`; `?`, `*`, `+`, `{m,}` and `{m,n}` may repeat more.
pub open spec fn spec_quantifier_exact(chars: Seq<char>, start: int) -> bool {
    if start < 0 || start >= chars.len() {
        true
    } else if chars[start] == '?' || chars[start] == '*' || chars[start] == '+' {
        false
    } else if chars[start] == '{' {
        !comma_before_close(chars, start + 1)
    } else {
        true
    }
}

/// The quantifier at `start`: `(minimum repeat, next, ok)`.
pub open spec fn spec_parse_quantifier(chars: Seq<char>, start: int) -> (int, int, bool) {
    if start >= chars.len() {
        (1, start, true)
    } else if chars[start] == '?' || chars[start] == '*' {
        (0, start + 1, true)
    } else if chars[start] == '+' {
        (1, start + 1, true)
    } else if chars[start] == '{' {
        spec_parse_brace(chars, start)
    } else {
        (1, start, true)
    }
}

/// The atom at `i` (which is below the length).
pub open spec fn spec_parse_atom(chars: Seq<char>, i: int) -> AtomParse {
    let ch = chars[i];
    if ch == '\\' {
        spec_parse_escape(chars, i)
    } else if ch == '[' {
        spec_class_scan(chars, i + 1, false)
    } else if ch == '(' {
        let g = spec_group_scan(chars, i + 1, 1, false, 0);
        if sets_options(chars, i) {
            AtomParse { kind: g.kind, next: g.next, parse_ok: false }
        } else {
            g
        }
    } else if ch == ')' || ch == '|' || ch == '.' || ch == '?' || ch == '*' || ch == '+' || ch == '{' {
        AtomParse { kind: AtomKind::Wildcard, next: (i + 1) as usize, parse_ok: true }
    } else if ch == '^' || ch == '$' {
        AtomParse { kind: AtomKind::ZeroWidth, next: (i + 1) as usize, parse_ok: true }
    } else {
        AtomParse { kind: AtomKind::Literal(ch), next: (i + 1) as usize, parse_ok: true }
    }
}

fn parse_escape_atom(chars: &[char], start: usize) -> (a: AtomParse)
    requires
        start < chars.len(),
    ensures
        a == spec_parse_escape(chars@, start as int),
        start < a.next <= chars@.len(),
{
    if start + 1 >= chars.len() {
        return AtomParse { kind: AtomKind::Wildcard, next: chars.len(), parse_ok: false };
    }
    let escaped = chars[start + 1];
    let has_next = chars.len() - start > 2;
    let takes_more = escaped == 'x' || escaped == 'o' || escaped == 'p' || escaped == 'P' || escaped == 'c'
        || escaped == 'g' || escaped == 'k' || escaped == 'Q' || escaped == '0'
        || (escaped == 'N' && has_next && chars[start + 2] == '{')
        || ('1' <= escaped && escaped <= '9' && has_next && '0' <= chars[start + 2] && chars[start + 2] <= '9');
    if takes_more {
        return AtomParse { kind: AtomKind::Wildcard, next: start + 2, parse_ok: false };
    }
    let kind = if escaped == '.' || escaped == '^' || escaped == '$' || escaped == '*' || escaped == '+'
        || escaped == '?' || escaped == '(' || escaped == ')' || escaped == '[' || escaped == ']'
        || escaped == '{' || escaped == '}' || escaped == '|' || escaped == '\\' {
        AtomKind::Literal(escaped)
    } else if escaped == 'n' {
        AtomKind::Literal('\n')
    } else if escaped == 'r' {
        AtomKind::Literal('\r')
    } else if escaped == 't' {
        AtomKind::Literal('\t')
    } else if escaped == 'b' || escaped == 'B' || escaped == 'A' || escaped == 'z' || escaped == 'Z'
        || escaped == 'G' {
        AtomKind::ZeroWidth
    } else {
        AtomKind::Wildcard
    };
    AtomParse { kind, next: start + 2, parse_ok: true }
}

fn parse_character_class_atom(chars: &[char], start: usize) -> (a: AtomParse)
    requires
        start < chars.len(),
    ensures
        a == spec_class_scan(chars@, start + 1, false),
        start < a.next <= chars@.len(),
{
    let mut i = start + 1;
    let mut escaped = false;
    while i < chars.len()
        invariant
            start < i <= chars@.len(),
            spec_class_scan(chars@, i as int, escaped) == spec_class_scan(chars@, start + 1, false),
        decreases chars@.len() - i,
    {
        let ch = chars[i];
        if escaped {
            escaped = false;
            i = i + 1;
        } else if ch == '\\' {
            escaped = true;
            i = i + 1;
        } else if ch == ']' {
            return AtomParse { kind: AtomKind::Wildcard, next: i + 1, parse_ok: true };
        } else {
            i = i + 1;
        }
    }
    AtomParse { kind: AtomKind::Wildcard, next: chars.len(), parse_ok: false }
}

fn parse_group_atom(chars: &[char], start: usize) -> (a: AtomParse)
    requires
        start < chars.len(),
    ensures
        a == spec_group_scan(chars@, start + 1, 1, false, 0),
        start < a.next <= chars@.len(),
{
    let mut i = start + 1;
    let mut depth: usize = 1;
    let mut escaped = false;
    let mut class_depth: usize = 0;
    while i < chars.len()
        invariant
            start < i <= chars@.len(),
            depth <= i,
            class_depth <= i,
            depth >= 1,
            spec_group_scan(chars@, i as int, depth as int, escaped, class_depth as int)
                == spec_group_scan(chars@, start + 1, 1, false, 0),
        decreases chars@.len() - i,
    {
        let ch = chars[i];
        if escaped {
            escaped = false;
            i = i + 1;
        } else if ch == '\\' {
            escaped = true;
            i = i + 1;
        } else if ch == '[' {
            class_depth = class_depth + 1;
            i = i + 1;
        } else if ch == ']' {
            class_depth = class_depth.saturating_sub(1);
            i = i + 1;
        } else if ch == '(' && class_depth == 0 {
            depth = depth + 1;
            i = i + 1;
        } else if ch == ')' && class_depth == 0 {
            depth = depth.saturating_sub(1);
            i = i + 1;
            if depth == 0 {
                return AtomParse { kind: AtomKind::Wildcard, next: i, parse_ok: true };
            }
        } else {
            i = i + 1;
        }
    }
    AtomParse { kind: AtomKind::Wildcard, next: chars.len(), parse_ok: false }
}

fn parse_brace_quantifier(chars: &[char], start: usize) -> (q: (usize, usize, bool))
    requires
        start < chars.len(),
    ensures
        (q.0 as int, q.1 as int, q.2) == spec_parse_brace(chars@, start as int),
        start <= q.1 <= chars@.len(),
{
    let mut i = start + 1;
    let mut body: Vec<char> = Vec::new();
    while i < chars.len()
        invariant
            start < i <= chars@.len(),
            body@ == chars@.subrange(start + 1, i as int),
            spec_find_close_brace(chars@, i as int) == spec_find_close_brace(chars@, start + 1),
        ensures
            i < chars@.len() ==> chars@[i as int] == '}',
        decreases chars@.len() - i,
    {
        if chars[i] == '}' {
            break;
        }
        body.push(chars[i]);
        assert(chars@.subrange(start + 1, i + 1) =~= chars@.subrange(start + 1, i as int).push(chars@[i as int]));
        i = i + 1;
    }
    if i >= chars.len() || chars[i] != '}' {
        return (1, start, false);
    }
    let next = i + 1;
    let trimmed = trim_chars(body.as_slice());
    if trimmed.len() == 0 {
        return (1, start, false);
    }
    let mut c: usize = 0;
    while c < trimmed.len() && trimmed[c] != ','
        invariant
            c <= trimmed@.len(),
            spec_find_comma(trimmed@, c as int) == spec_find_comma(trimmed@, 0),
        decreases trimmed@.len() - c,
    {
        c = c + 1;
    }
    let min = if c < trimmed.len() {
        let mut left: Vec<char> = Vec::new();
        let mut k: usize = 0;
        while k < c
            invariant
                c < trimmed@.len(),
                k <= c,
                left@ == trimmed@.subrange(0, k as int),
            decreases c - k,
        {
            left.push(trimmed[k]);
            assert(trimmed@.subrange(0, k + 1) =~= trimmed@.subrange(0, k as int).push(trimmed@[k as int]));
            k = k + 1;
        }
        let lt = trim_chars(left.as_slice());
        parse_usize(lt.as_slice())
    } else {
        parse_usize(trimmed.as_slice())
    };
    match min {
        Some(value) => (value, next, true),
        None => (1, start, false),
    }
}

/// Whether the quantifier at `start` repeats exactly its minimum (see
/// `spec_quantifier_exact`).
fn quantifier_exact(chars: &[char], start: usize) -> (r: bool)
    ensures
        r == spec_quantifier_exact(chars@, start as int),
{
    if start >= chars.len() {
        return true;
    }
    let c = chars[start];
    if c == '?' || c == '*' || c == '+' {
        return false;
    }
    if c != '{' {
        return true;
    }
    let mut j = start + 1;
    while j < chars.len()
        invariant
            start < j <= chars@.len(),
            chars@[start as int] == '{',
            comma_before_close(chars@, j as int) == comma_before_close(chars@, start + 1),
        decreases chars@.len() - j,
    {
        if chars[j] == '}' {
            assert(!comma_before_close(chars@, j as int));
            return true;
        }
        if chars[j] == ',' {
            assert(comma_before_close(chars@, j as int));
            return false;
        }
        j = j + 1;
    }
    true
}

fn parse_quantifier(chars: &[char], start: usize) -> (q: (usize, usize, bool))
    requires
        start <= chars.len(),
    ensures
        (q.0 as int, q.1 as int, q.2) == spec_parse_quantifier(chars@, start as int),
        start <= q.1 <= chars@.len(),
{
    if start >= chars.len() {
        return (1, start, true);
    }
    let c = chars[start];
    if c == '?' || c == '*' {
        (0, start + 1, true)
    } else if c == '+' {
        (1, start + 1, true)
    } else if c == '{' {
        parse_brace_quantifier(chars, start)
    } else {
        (1, start, true)
    }
}

/// Whether the option letters from `k` on turn on caseless or extended
/// matching (see `turns_on_case_or_space`).
fn option_group_turns_on(chars: &[char], k: usize) -> (r: bool)
    ensures
        r == turns_on_case_or_space(chars@, k as int, false),
{
    let mut j = k;
    let mut off = false;
    while j < chars.len()
        invariant
            turns_on_case_or_space(chars@, j as int, off) == turns_on_case_or_space(chars@, k as int, false),
        decreases chars.len() - j,
    {
        let c = chars[j];
        if (c == 'i' || c == 'x') && !off {
            return true;
        } else if c == '-' {
            off = true;
        } else if ('a' <= c && c <= 'z') || c == 'J' || c == 'U' || c == '^' {
        } else {
            return false;
        }
        j = j + 1;
    }
    false
}

fn parse_atom(chars: &[char], i: usize) -> (a: AtomParse)
    requires
        i < chars.len(),
    ensures
        a == spec_parse_atom(chars@, i as int),
        i < a.next <= chars@.len(),
{
    let ch = chars[i];
    if ch == '\\' {
        parse_escape_atom(chars, i)
    } else if ch == '[' {
        parse_character_class_atom(chars, i)
    } else if ch == '(' {
        let g = parse_group_atom(chars, i);
        if chars.len() - i > 1 && chars[i + 1] == '?' && option_group_turns_on(chars, i + 2) {
            AtomParse { kind: g.kind, next: g.next, parse_ok: false }
        } else {
            g
        }
    } else if ch == ')' || ch == '|' || ch == '.' || ch == '?' || ch == '*' || ch == '+' || ch == '{' {
        AtomParse { kind: AtomKind::Wildcard, next: i + 1, parse_ok: true }
    } else if ch == '^' || ch == '$' {
        AtomParse { kind: AtomKind::ZeroWidth, next: i + 1, parse_ok: true }
    } else {
        AtomParse { kind: AtomKind::Literal(ch), next: i + 1, parse_ok: true }
    }
}


/// The characters of each string.
pub open spec fn strings_view(v: Seq<String>) -> Seq<Seq<char>> {
    v.map_values(|s: String| s@)
}

/// `d + 1`, or `d` where that overflows `usize`.
pub open spec fn sat_inc_usize(d: int) -> int {
    if d < usize::MAX { d + 1 } else { d }
}

/// `d - 1`, or 0.
pub open spec fn sat_dec(d: int) -> int {
    if d > 0 { d - 1 } else { 0 }
}

/// The state of the top-level alternation split after one more character:
/// `(finished branches, current branch, escaped, class depth, group depth)`.
pub open spec fn spec_split_step(
    st: (Seq<Seq<char>>, Seq<char>, bool, int, int),
    ch: char,
) -> (Seq<Seq<char>>, Seq<char>, bool, int, int) {
    let (bs, cur, esc, cd, pd) = st;
    if esc {
        (bs, cur.push(ch), false, cd, pd)
    } else if ch == '\\' {
        (bs, cur.push(ch), true, cd, pd)
    } else if ch == '[' {
        (bs, cur.push(ch), false, sat_inc_usize(cd), pd)
    } else if ch == ']' {
        (bs, cur.push(ch), false, sat_dec(cd), pd)
    } else if ch == '(' && cd == 0 {
        (bs, cur.push(ch), false, cd, sat_inc_usize(pd))
    } else if ch == ')' && cd == 0 {
        (bs, cur.push(ch), false, cd, sat_dec(pd))
    } else if ch == '|' && cd == 0 && pd == 0 {
        (bs.push(cur), Seq::empty(), false, cd, pd)
    } else {
        (bs, cur.push(ch), false, cd, pd)
    }
}

/// The split state after the first `n` characters of `p`.
pub open spec fn spec_split_prefix(p: Seq<char>, n: int) -> (Seq<Seq<char>>, Seq<char>, bool, int, int)
    decreases n,
{
    if n <= 0 {
        (Seq::empty(), Seq::empty(), false, 0, 0)
    } else {
        spec_split_step(spec_split_prefix(p, n - 1), p[n - 1])
    }
}

/// The branches of `p` at its top-level `|` (outside groups, classes and escapes).
pub open spec fn spec_split(p: Seq<char>) -> Seq<Seq<char>> {
    let st = spec_split_prefix(p, p.len() as int);
    st.0.push(st.1)
}

/// The branches joined back together with `|` between them.
pub open spec fn join_bars(bs: Seq<Seq<char>>) -> Seq<char>
    decreases bs.len(),
{
    if bs.len() == 0 {
        Seq::empty()
    } else if bs.len() == 1 {
        bs[0]
    } else {
        join_bars(bs.drop_last()) + seq!['|'] + bs.last()
    }
}

/// Whether the character at `i` is a `|` that splits `p` at the top level:
/// unescaped, outside every character class and group.
pub open spec fn splits_at(p: Seq<char>, i: int) -> bool {
    let st = spec_split_prefix(p, i);
    &&& !st.2
    &&& st.3 == 0
    &&& st.4 == 0
    &&& p[i] == '|'
}

/// How many of the first `n` characters of `p` split it at the top level.
pub open spec fn count_splits(p: Seq<char>, n: int) -> nat
    decreases n,
{
    if n <= 0 {
        0
    } else {
        count_splits(p, n - 1) + if splits_at(p, n - 1) { 1nat } else { 0nat }
    }
}

proof fn lemma_split_prefix_joins(p: Seq<char>, n: int)
    requires
        0 <= n <= p.len(),
    ensures
        ({
            let st = spec_split_prefix(p, n);
            &&& join_bars(st.0.push(st.1)) == p.take(n)
            &&& st.0.len() == count_splits(p, n)
        }),
    decreases n,
{
    if n > 0 {
        lemma_split_prefix_joins(p, n - 1);
        let pre = spec_split_prefix(p, n - 1);
        let st = spec_split_prefix(p, n);
        let ch = p[n - 1];
        assert(p.take(n) =~= p.take(n - 1).push(ch));
        let old_all = pre.0.push(pre.1);
        if !pre.2 && ch == '|' && pre.3 == 0 && pre.4 == 0 {
            let all = st.0.push(st.1);
            assert(st.0 == old_all);
            assert(all.drop_last() =~= old_all);
            assert(join_bars(all) =~= join_bars(old_all) + seq!['|'] + Seq::<char>::empty());
        } else {
            assert(st.0 == pre.0);
            assert(st.1 == pre.1.push(ch));
            let all = st.0.push(st.1);
            if pre.0.len() == 0 {
                assert(join_bars(all) == st.1);
                assert(join_bars(old_all) == pre.1);
            } else {
                assert(all.drop_last() =~= pre.0);
                assert(old_all.drop_last() =~= pre.0);
                assert(join_bars(all) =~= join_bars(pre.0) + seq!['|'] + pre.1.push(ch));
                assert(join_bars(old_all) =~= join_bars(pre.0) + seq!['|'] + pre.1);
            }
            assert(join_bars(all) =~= join_bars(old_all).push(ch));
        }
    }
}

/// Splitting a pattern at its top-level `|` loses nothing: the branches
/// joined with `|` give the pattern back, and there is one branch more than
/// there are top-level `|` (unescaped, outside classes and groups).
pub proof fn lemma_split_joins(p: Seq<char>)
    ensures
        join_bars(spec_split(p)) == p,
        spec_split(p).len() == count_splits(p, p.len() as int) + 1,
{
    lemma_split_prefix_joins(p, p.len() as int);
    assert(p.take(p.len() as int) =~= p);
}

/// The branches of `pattern` at its top-level `|` (outside groups, classes
/// and escapes), in order.
pub fn split_top_level_alternation(pattern: &str) -> (branches: Vec<String>)
    ensures
        strings_view(branches@) == spec_split(pattern@),
{
    let chars = chars_of(pattern);
    let mut branches: Vec<String> = Vec::new();
    let mut current = String::new();
    let mut escaped = false;
    let mut class_depth: usize = 0;
    let mut paren_depth: usize = 0;
    for i in 0..chars.len()
        invariant
            chars@ == pattern@,
            (strings_view(branches@), current@, escaped, class_depth as int, paren_depth as int)
                == spec_split_prefix(chars@, i as int),
    {
        let ch = chars[i];
        let ghost bs0 = branches@;
        if escaped {
            push_char(&mut current, ch);
            escaped = false;
        } else if ch == '\\' {
            push_char(&mut current, ch);
            escaped = true;
        } else if ch == '[' {
            class_depth = class_depth.saturating_add(1);
            push_char(&mut current, ch);
        } else if ch == ']' {
            class_depth = class_depth.saturating_sub(1);
            push_char(&mut current, ch);
        } else if ch == '(' && class_depth == 0 {
            paren_depth = paren_depth.saturating_add(1);
            push_char(&mut current, ch);
        } else if ch == ')' && class_depth == 0 {
            paren_depth = paren_depth.saturating_sub(1);
            push_char(&mut current, ch);
        } else if ch == '|' && class_depth == 0 && paren_depth == 0 {
            branches.push(current);
            current = String::new();
            assert(strings_view(branches@) =~= strings_view(bs0).push(strings_view(branches@).last()));
        } else {
            push_char(&mut current, ch);
        }
    }
    let ghost bs1 = branches@;
    branches.push(current);
    assert(strings_view(branches@) =~= strings_view(bs1).push(strings_view(branches@).last()));
    branches
}

/// `lits` with `current` appended, unless `current` is empty.
pub open spec fn spec_flush(current: Seq<char>, lits: Seq<Seq<char>>) -> Seq<Seq<char>> {
    if current.len() == 0 { lits } else { lits.push(current) }
}

/// `n` copies of `c`.
pub open spec fn repeat_char(c: char, n: nat) -> Seq<char> {
    Seq::new(n, |k: int| c)
}

/// The literals required from position `i` on, given the literal being built and
/// those already finished: `(literals, parse_ok)`.
pub open spec fn spec_analyze_from(
    chars: Seq<char>,
    i: int,
    current: Seq<char>,
    lits: Seq<Seq<char>>,
    ok: bool,
) -> (Seq<Seq<char>>, bool)
    decreases chars.len() - i,
{
    if i >= chars.len() || i < 0 {
        (spec_flush(current, lits), ok)
    } else {
        let a = spec_parse_atom(chars, i);
        let q = spec_parse_quantifier(chars, a.next as int);
        let ok2 = ok && a.parse_ok && q.2;
        if q.1 <= i || q.1 > chars.len() {
            (spec_flush(current, lits), ok2)
        } else {
            match a.kind {
                AtomKind::Literal(c) => if q.0 == 0 {
                    spec_analyze_from(chars, q.1, Seq::empty(), spec_flush(current, lits), ok2)
                } else {
                    let n = if q.0 <= 8 { q.0 } else { 8 };
                    let grown = current + repeat_char(c, n as nat);
                    if spec_quantifier_exact(chars, a.next as int) && q.0 <= 8 {
                        spec_analyze_from(chars, q.1, grown, lits, ok2)
                    } else {
                        spec_analyze_from(chars, q.1, Seq::empty(), spec_flush(grown, lits), ok2)
                    }
                },
                _ => spec_analyze_from(chars, q.1, Seq::empty(), spec_flush(current, lits), ok2),
            }
        }
    }
}

/// The literals every match of the branch must contain, and whether the branch parsed.
pub open spec fn spec_analyze(branch: Seq<char>) -> (Seq<Seq<char>>, bool) {
    spec_analyze_from(branch, 0, Seq::empty(), Seq::empty(), true)
}

/// A character that stands for itself in a pattern: no escape, class,
/// group, alternation, wildcard, anchor or quantifier character.
pub open spec fn plain_char(c: char) -> bool {
    !(c == '\\' || c == '[' || c == '(' || c == ')' || c == '|' || c == '.' || c == '?' || c == '*' || c == '+'
        || c == '{' || c == '^' || c == '$')
}

/// Every character of `s` stands for itself.
pub open spec fn plain(s: Seq<char>) -> bool {
    forall|i: int| 0 <= i < s.len() ==> plain_char(#[trigger] s[i])
}

proof fn lemma_plain_run(chars: Seq<char>, i: int, j: int, cur: Seq<char>, lits: Seq<Seq<char>>, ok: bool)
    requires
        0 <= i <= j <= chars.len(),
        chars.len() < usize::MAX,
        forall|t: int| i <= t < j ==> plain_char(#[trigger] chars[t]),
        j < chars.len() ==> plain_char(chars[j]),
    ensures
        spec_analyze_from(chars, i, cur, lits, ok) == spec_analyze_from(chars, j, cur + chars.subrange(i, j), lits, ok),
    decreases j - i,
{
    if i < j {
        let ch = chars[i];
        assert(plain_char(ch));
        let a = spec_parse_atom(chars, i);
        assert(a == AtomParse { kind: AtomKind::Literal(ch), next: (i + 1) as usize, parse_ok: true });
        let q = spec_parse_quantifier(chars, i + 1);
        if i + 1 < chars.len() {
            assert(plain_char(chars[i + 1]));
        }
        assert(q == (1int, i + 1, true));
        assert(repeat_char(ch, 1) =~= seq![ch]);
        assert(spec_analyze_from(chars, i, cur, lits, ok) == spec_analyze_from(
            chars,
            i + 1,
            cur + repeat_char(ch, 1),
            lits,
            ok,
        ));
        lemma_plain_run(chars, i + 1, j, cur.push(ch), lits, ok);
        assert(cur.push(ch) + chars.subrange(i + 1, j) =~= cur + chars.subrange(i, j));
        assert(cur + repeat_char(ch, 1) =~= cur.push(ch));
    } else {
        assert(cur + chars.subrange(i, j) =~= cur);
    }
}

/// An optional character ends the literal being built and belongs to no
/// required literal: for text `a` and `b` and a character `c` that all stand
/// for themselves, the literals that `a c? b` (or `a c* b`) requires are `a`
/// and `b` (each where it is not empty), and the branch parses.
pub proof fn lemma_optional_char_ends_literal(a: Seq<char>, c: char, q: char, b: Seq<char>)
    requires
        plain(a),
        plain(b),
        plain_char(c),
        q == '?' || q == '*',
        a.len() + b.len() + 2 < usize::MAX,
    ensures
        spec_analyze(a + seq![c, q] + b) == (spec_flush(b, spec_flush(a, Seq::empty())), true),
{
    let chars = a + seq![c, q] + b;
    let n = a.len() as int;
    assert forall|t: int| 0 <= t < n implies plain_char(#[trigger] chars[t]) by {
        assert(chars[t] == a[t]);
    }
    assert(chars[n] == c);
    assert(chars[n + 1] == q);
    lemma_plain_run(chars, 0, n, Seq::empty(), Seq::empty(), true);
    assert(Seq::<char>::empty() + chars.subrange(0, n) =~= a);
    let at = spec_parse_atom(chars, n);
    assert(at == AtomParse { kind: AtomKind::Literal(c), next: (n + 1) as usize, parse_ok: true });
    assert(spec_parse_quantifier(chars, n + 1) == (0int, n + 2, true));
    assert forall|t: int| n + 2 <= t < chars.len() implies plain_char(#[trigger] chars[t]) by {
        assert(chars[t] == b[t - n - 2]);
    }
    lemma_plain_run(chars, n + 2, chars.len() as int, Seq::empty(), spec_flush(a, Seq::empty()), true);
    assert(Seq::<char>::empty() + chars.subrange(n + 2, chars.len() as int) =~= b);
}

/// A character that may repeat ends the literal after its one required
/// copy: for text `a` and `b` and a character `c` that all stand for
/// themselves, the literals that `a c+ b` requires are `a c` and `b` (where
/// `b` is not empty), so a match that repeats `c` still holds every one.
pub proof fn lemma_repeating_char_ends_literal(a: Seq<char>, c: char, b: Seq<char>)
    requires
        plain(a),
        plain(b),
        plain_char(c),
        a.len() + b.len() + 2 < usize::MAX,
    ensures
        spec_analyze(a + seq![c, '+'] + b) == (spec_flush(b, seq![a.push(c)]), true),
{
    let chars = a + seq![c, '+'] + b;
    let n = a.len() as int;
    assert forall|t: int| 0 <= t < n implies plain_char(#[trigger] chars[t]) by {
        assert(chars[t] == a[t]);
    }
    assert(chars[n] == c);
    assert(chars[n + 1] == '+');
    lemma_plain_run(chars, 0, n, Seq::empty(), Seq::empty(), true);
    assert(Seq::<char>::empty() + chars.subrange(0, n) =~= a);
    let at = spec_parse_atom(chars, n);
    assert(at == AtomParse { kind: AtomKind::Literal(c), next: (n + 1) as usize, parse_ok: true });
    assert(spec_parse_quantifier(chars, n + 1) == (1int, n + 2, true));
    assert(!spec_quantifier_exact(chars, n + 1));
    assert(a + repeat_char(c, 1) =~= a.push(c));
    assert(spec_flush(a.push(c), Seq::empty()) =~= seq![a.push(c)]);
    assert forall|t: int| n + 2 <= t < chars.len() implies plain_char(#[trigger] chars[t]) by {
        assert(chars[t] == b[t - n - 2]);
    }
    lemma_plain_run(chars, n + 2, chars.len() as int, Seq::empty(), seq![a.push(c)], true);
    assert(Seq::<char>::empty() + chars.subrange(n + 2, chars.len() as int) =~= b);
}

/// The literals that a branch requires, and whether it parsed.
#[derive(Debug, Clone)]
pub struct BranchLiteralAnalysis {
    pub required_literals: Vec<String>,
    pub parse_ok: bool,
}

fn flush_literal(current: &mut String, out: &mut Vec<String>)
    ensures
        final(current)@.len() == 0,
        strings_view(final(out)@) == spec_flush(old(current)@, strings_view(old(out)@)),
{
    if current.as_str().is_empty() {
        return;
    }
    let ghost o = out@;
    out.push(current.clone());
    *current = String::new();
    assert(strings_view(out@) =~= strings_view(o).push(old(current)@));
}

fn analyze_branch_required_literals(branch: &str) -> (a: BranchLiteralAnalysis)
    ensures
        (strings_view(a.required_literals@), a.parse_ok) == spec_analyze(branch@),
{
    let chars = chars_of(branch);
    if chars.len() == 0 {
        let a = BranchLiteralAnalysis { required_literals: Vec::new(), parse_ok: true };
        assert(strings_view(a.required_literals@) =~= Seq::<Seq<char>>::empty());
        return a;
    }
    let mut i: usize = 0;
    let mut current = String::new();
    let mut literals: Vec<String> = Vec::new();
    let mut parse_ok = true;
    assert(strings_view(literals@) =~= Seq::<Seq<char>>::empty());
    while i < chars.len()
        invariant
            chars@ == branch@,
            i <= chars@.len(),
            spec_analyze_from(chars@, i as int, current@, strings_view(literals@), parse_ok)
                == spec_analyze(branch@),
        decreases chars@.len() - i,
    {
        let atom = parse_atom(chars.as_slice(), i);
        let q = parse_quantifier(chars.as_slice(), atom.next);
        let exact = quantifier_exact(chars.as_slice(), atom.next);
        let ghost i0 = i as int;
        let ghost cur0 = current@;
        let ghost lits0 = strings_view(literals@);
        let ghost ok0 = parse_ok;
        parse_ok = parse_ok && atom.parse_ok;
        parse_ok = parse_ok && q.2;
        i = q.1;
        match atom.kind {
            AtomKind::Literal(c) => {
                if q.0 == 0 {
                    flush_literal(&mut current, &mut literals);
                    assert(current@ =~= Seq::<char>::empty());
                } else {
                    let repeat = if q.0 <= 8 { q.0 } else { 8 };
                    let mut k: usize = 0;
                    while k < repeat
                        invariant
                            k <= repeat,
                            current@ == cur0 + repeat_char(c, k as nat),
                        decreases repeat - k,
                    {
                        push_char(&mut current, c);
                        assert(cur0 + repeat_char(c, (k + 1) as nat) =~= (cur0 + repeat_char(c, k as nat)).push(c));
                        k = k + 1;
                    }
                    let ghost grown = current@;
                    assert(grown =~= cur0 + repeat_char(c, (if q.0 <= 8 { q.0 } else { 8 }) as nat));
                    if !(exact && q.0 <= 8) {
                        flush_literal(&mut current, &mut literals);
                        assert(current@ =~= Seq::<char>::empty());
                    }
                }
            },
            _ => {
                flush_literal(&mut current, &mut literals);
                assert(current@ =~= Seq::<char>::empty());
            },
        }
    }
    flush_literal(&mut current, &mut literals);
    BranchLiteralAnalysis { required_literals: literals, parse_ok }
}


/// The fewest query grams a literal should contribute before trigrams are added.
pub const MIN_QUERY_GRAMS: usize = 3;

/// The most trigrams added for one long literal (half for a short one).
pub const MAX_TRIGRAM_ADDS: usize = 16;

/// The hashes of the three-byte grams among `grams`.
pub open spec fn spec_trigram_hashes_of(grams: Seq<Seq<u8>>) -> Set<u64> {
    Set::new(|h: u64| exists|i: int| 0 <= i < grams.len() && #[trigger] grams[i].len() == 3 && spec_xxh3_64(grams[i]) == h)
}

/// Adding the trigram hashes of the first `n` windows of `lit` to `set`, stopping once
/// `limit` new hashes were added: `(set, added, stopped)`.
pub open spec fn spec_trigram_fold(set: Set<u64>, lit: Seq<u8>, limit: int, n: int) -> (Set<u64>, int, bool)
    decreases n,
{
    if n <= 0 {
        (set, 0, false)
    } else {
        let prev = spec_trigram_fold(set, lit, limit, n - 1);
        if prev.2 {
            prev
        } else {
            let h = spec_xxh3_64(lit.subrange(n - 1, n + 2));
            if prev.0.contains(h) {
                prev
            } else {
                (prev.0.insert(h), prev.1 + 1, prev.1 + 1 >= limit)
            }
        }
    }
}

/// `set` with the hashes of the first trigrams of `lit` that are new, at most `limit` of them.
pub open spec fn spec_add_trigrams(set: Set<u64>, lit: Seq<u8>, limit: int) -> Set<u64> {
    if lit.len() < 3 || limit == 0 {
        set
    } else {
        spec_trigram_fold(set, lit, limit, lit.len() - 2).0
    }
}

/// `set` after taking in one literal: the hashes of its three-byte covering grams, and
/// then, while fewer than `MIN_QUERY_GRAMS` hashes are known, some of its trigrams.
pub open spec fn spec_literal_hashes(set: Set<u64>, lit: Seq<u8>, freq: Map<u16, u32>, cfg: SparseConfig) -> Set<u64> {
    let s1 = set.union(spec_trigram_hashes_of(spec_covering(lit, freq, cfg)));
    if s1.len() < MIN_QUERY_GRAMS {
        spec_add_trigrams(s1, lit, if lit.len() >= 12 { MAX_TRIGRAM_ADDS as int } else { (MAX_TRIGRAM_ADDS / 2) as int })
    } else {
        s1
    }
}

/// The hashes and the kept literals of a branch after its first `n` literals
/// (literals shorter than three bytes are skipped).
pub open spec fn spec_branch_fold(lits: Seq<Seq<char>>, freq: Map<u16, u32>, cfg: SparseConfig, n: int) -> (Set<u64>, Seq<Seq<char>>)
    decreases n,
{
    if n <= 0 {
        (Set::empty(), Seq::empty())
    } else {
        let prev = spec_branch_fold(lits, freq, cfg, n - 1);
        let b = encode_utf8(lits[n - 1]);
        if b.len() < 3 {
            prev
        } else {
            (spec_literal_hashes(prev.0, b, freq, cfg), prev.1.push(lits[n - 1]))
        }
    }
}

/// The plan of one branch: its required hashes and literals, or `None` where the
/// branch does not parse or yields no hash.
pub open spec fn spec_branch_plan(branch: Seq<char>, freq: Map<u16, u32>, cfg: SparseConfig) -> Option<(Set<u64>, Seq<Seq<char>>)> {
    let a = spec_analyze(branch);
    if !a.1 {
        None
    } else {
        let r = spec_branch_fold(a.0, freq, cfg, a.0.len() as int);
        if r.0.len() == 0 { None } else { Some(r) }
    }
}

/// The plans of the first `n` branches, or `None` as soon as one branch has none.
pub open spec fn spec_plan_fold(bs: Seq<Seq<char>>, freq: Map<u16, u32>, cfg: SparseConfig, n: int) -> Option<Seq<(Set<u64>, Seq<Seq<char>>)>>
    decreases n,
{
    if n <= 0 {
        Some(Seq::empty())
    } else {
        match spec_plan_fold(bs, freq, cfg, n - 1) {
            None => None,
            Some(acc) => match spec_branch_plan(bs[n - 1], freq, cfg) {
                None => None,
                Some(b) => Some(acc.push(b)),
            },
        }
    }
}

/// The per-branch plans of a pattern, or `None` where the planner falls back to all documents.
pub open spec fn spec_plan_branches(pattern: Seq<char>, freq: Map<u16, u32>, cfg: SparseConfig) -> Option<Seq<(Set<u64>, Seq<Seq<char>>)>> {
    if pattern.len() == 0 {
        None
    } else {
        let bs = spec_split(pattern);
        if bs.len() == 0 { None } else { spec_plan_fold(bs, freq, cfg, bs.len() as int) }
    }
}

/// `v` lists the elements of `s` in strictly increasing order.
pub open spec fn sorted_elements(v: Seq<u64>, s: Set<u64>) -> bool {
    &&& forall|i: int, j: int| 0 <= i < j < v.len() ==> v[i] < v[j]
    &&& v.to_set() == s
}

/// How candidate documents are found: all of them, those holding every hash, or
/// those holding every hash of some branch.
#[derive(Debug, Clone)]
pub enum PlanExpr {
    AllDocs,
    And(Vec<u64>),
    Or(Vec<Vec<u64>>),
}

/// The plan for one pattern.
#[derive(Debug, Clone)]
pub struct QueryPlan {
    pub expr: PlanExpr,
    pub extracted_literals: Vec<String>,
    pub used_fallback: bool,
}

/// `plan` is the plan that `spec` describes.
pub open spec fn plan_models(plan: QueryPlan, spec: Option<Seq<(Set<u64>, Seq<Seq<char>>)>>) -> bool {
    match spec {
        None => {
            &&& plan.expr is AllDocs
            &&& plan.extracted_literals@.len() == 0
            &&& plan.used_fallback
        },
        Some(bs) => {
            &&& !plan.used_fallback
            &&& strings_view(plan.extracted_literals@) == bs.map_values(|b: (Set<u64>, Seq<Seq<char>>)| b.1).flatten()
            &&& if bs.len() == 1 {
                plan.expr matches PlanExpr::And(h) && sorted_elements(h@, bs[0].0)
            } else {
                plan.expr matches PlanExpr::Or(v) && v@.len() == bs.len() && forall|i: int|
                    0 <= i < bs.len() ==> sorted_elements(#[trigger] v@[i]@, bs[i].0)
            }
        },
    }
}

/// Every hash of `req` is in `hashes`.
pub open spec fn all_in(req: Seq<u64>, hashes: Set<u64>) -> bool {
    forall|i: int| 0 <= i < req.len() ==> hashes.contains(#[trigger] req[i])
}

/// Every hash that the plan asks for is in `hashes` (for some branch, under `Or`).
pub open spec fn spec_matches_hashes(expr: PlanExpr, hashes: Set<u64>) -> bool {
    match expr {
        PlanExpr::AllDocs => true,
        PlanExpr::And(req) => all_in(req@, hashes),
        PlanExpr::Or(bs) => exists|b: int| 0 <= b < bs@.len() && #[trigger] all_in(bs@[b]@, hashes),
    }
}

fn all_present(req: &Vec<u64>, hashes: &HashSet<u64>) -> (r: bool)
    ensures
        r == all_in(req@, hashes@),
{
    for i in 0..req.len()
        invariant
            forall|k: int| 0 <= k < i ==> hashes@.contains(#[trigger] req@[k]),
    {
        if !hashes.contains(&req[i]) {
            return false;
        }
    }
    true
}

impl QueryPlan {
    /// The plan that keeps every document.
    pub fn all_docs() -> (plan: Self)
        ensures
            plan.expr is AllDocs,
            plan.extracted_literals@.len() == 0,
            plan.used_fallback,
    {
        QueryPlan { expr: PlanExpr::AllDocs, extracted_literals: Vec::new(), used_fallback: true }
    }

    /// Whether a document with gram hashes `hashes` can match the plan.
    pub fn matches_hashes(&self, hashes: &HashSet<u64>) -> (r: bool)
        ensures
            r == spec_matches_hashes(self.expr, hashes@),
    {
        self.expr.admits(hashes)
    }
}

impl PlanExpr {
    /// Whether a document with gram hashes `hashes` can match the plan.
    pub fn admits(&self, hashes: &HashSet<u64>) -> (r: bool)
        ensures
            r == spec_matches_hashes(*self, hashes@),
    {
        match self {
            PlanExpr::AllDocs => true,
            PlanExpr::And(required) => all_present(required, hashes),
            PlanExpr::Or(branches) => {
                for b in 0..branches.len()
                    invariant
                        *self == PlanExpr::Or(*branches),
                        forall|k: int| 0 <= k < b ==> !#[trigger] all_in(branches@[k]@, hashes@),
                {
                    if all_present(&branches[b], hashes) {
                        assert(all_in(branches@[b as int]@, hashes@));
                        assert(*self matches PlanExpr::Or(bs) && bs == *branches);
                        assert(0 <= b < branches@.len());
                        assert(spec_matches_hashes(PlanExpr::Or(*branches), hashes@));
                        assert(spec_matches_hashes(*self, hashes@));
                        return true;
                    }
                }
                false
            },
        }
    }
}

fn add_literal_trigrams(literal: &[u8], dedup: &mut HashSet<u64>, order: &mut Vec<u64>, limit: usize)
    requires
        old(order)@.no_duplicates(),
        old(order)@.to_set() == old(dedup)@,
    ensures
        final(dedup)@ == spec_add_trigrams(old(dedup)@, literal@, limit as int),
        final(order)@.no_duplicates(),
        final(order)@.to_set() == final(dedup)@,
{
    if literal.len() < 3 || limit == 0 {
        return;
    }
    let n = literal.len() - 2;
    let mut added: usize = 0;
    let mut stopped = false;
    let mut j: usize = 0;
    while j < n && !stopped
        invariant
            n == literal@.len() - 2,
            n == literal.len() - 2,
            limit > 0,
            j <= n,
            order@.no_duplicates(),
            order@.to_set() == dedup@,
            (dedup@, added as int, stopped) == spec_trigram_fold(old(dedup)@, literal@, limit as int, j as int),
            added <= limit,
            !stopped ==> added < limit,
        decreases n - j,
    {
        let h = hash_gram(&literal[j..j + 3]);
        let ghost o = order@;
        if dedup.insert(h) {
            order.push(h);
            proof {
                assert(!o.contains(h));
                o.lemma_push_to_set_commute(h);
                assert(order@.to_set() =~= o.to_set().insert(h));
            }
            added = added + 1;
            if added >= limit {
                stopped = true;
            }
        }
        j = j + 1;
    }
    if stopped {
        proof {
            lemma_trigram_fold_done(old(dedup)@, literal@, limit as int, j as int, n as int);
        }
    }
}

proof fn lemma_trigram_fold_done(set: Set<u64>, lit: Seq<u8>, limit: int, k: int, k2: int)
    requires
        0 <= k <= k2,
        spec_trigram_fold(set, lit, limit, k).2,
    ensures
        spec_trigram_fold(set, lit, limit, k2) == spec_trigram_fold(set, lit, limit, k),
    decreases k2 - k,
{
    if k2 > k {
        lemma_trigram_fold_done(set, lit, limit, k, k2 - 1);
    }
}

/// Takes one literal into the branch's hash set (see `spec_literal_hashes`).
fn add_literal_hashes(
    literal: &[u8],
    dedup: &mut HashSet<u64>,
    order: &mut Vec<u64>,
    freq: &HashMap<u16, u32>,
    cfg: SparseConfig,
)
    requires
        old(order)@.no_duplicates(),
        old(order)@.to_set() == old(dedup)@,
    ensures
        final(dedup)@ == spec_literal_hashes(old(dedup)@, literal@, freq@, cfg),
        final(order)@.no_duplicates(),
        final(order)@.to_set() == final(dedup)@,
{
    let grams = build_covering_sparse_ngrams(literal, freq, cfg);
    let ghost gv = grams@.map_values(|v: Vec<u8>| v@);
    for k in 0..grams.len()
        invariant
            gv == grams@.map_values(|v: Vec<u8>| v@),
            order@.no_duplicates(),
            order@.to_set() == dedup@,
            dedup@ == old(dedup)@.union(spec_trigram_hashes_of(gv.take(k as int))),
    {
        let ghost before = dedup@;
        if grams[k].len() == 3 {
            let h = hash_gram(grams[k].as_slice());
            let ghost o = order@;
            if dedup.insert(h) {
                order.push(h);
                proof {
                    assert(!o.contains(h));
                    o.lemma_push_to_set_commute(h);
                    assert(order@.to_set() =~= o.to_set().insert(h));
                }
            }
        }
        proof {
            let a = gv.take(k as int);
            let b = gv.take(k + 1);
            assert(b =~= a.push(gv[k as int]));
            assert forall|x: u64| spec_trigram_hashes_of(b).contains(x) <==> spec_trigram_hashes_of(a).contains(x)
                || (gv[k as int].len() == 3 && spec_xxh3_64(gv[k as int]) == x) by {
                if spec_trigram_hashes_of(b).contains(x) {
                    let i = choose|i: int| 0 <= i < b.len() && #[trigger] b[i].len() == 3 && spec_xxh3_64(b[i]) == x;
                    if i < k {
                        assert(a[i] == b[i]);
                    }
                }
                if spec_trigram_hashes_of(a).contains(x) {
                    let i = choose|i: int| 0 <= i < a.len() && #[trigger] a[i].len() == 3 && spec_xxh3_64(a[i]) == x;
                    assert(b[i] == a[i]);
                }
                if gv[k as int].len() == 3 && spec_xxh3_64(gv[k as int]) == x {
                    assert(b[k as int] == gv[k as int]);
                }
            }
            assert(dedup@ =~= old(dedup)@.union(spec_trigram_hashes_of(b)));
        }
    }
    proof {
        assert(gv.take(grams@.len() as int) =~= gv);
        order@.unique_seq_to_set();
    }
    if dedup.len() < MIN_QUERY_GRAMS {
        let limit = if literal.len() >= 12 { MAX_TRIGRAM_ADDS } else { MAX_TRIGRAM_ADDS / 2 };
        add_literal_trigrams(literal, dedup, order, limit);
    }
}


/// The distinct hashes of `v` in increasing order (an insertion sort).
fn sort_distinct(v: &Vec<u64>) -> (out: Vec<u64>)
    requires
        v@.no_duplicates(),
    ensures
        sorted_elements(out@, v@.to_set()),
{
    let mut out: Vec<u64> = Vec::new();
    proof {
        assert(out@.to_set() =~= v@.take(0).to_set());
    }
    for i in 0..v.len()
        invariant
            v@.no_duplicates(),
            forall|a: int, b: int| 0 <= a < b < out@.len() ==> out@[a] < out@[b],
            out@.to_set() == v@.take(i as int).to_set(),
    {
        let x = v[i];
        let mut j: usize = 0;
        while j < out.len() && out[j] < x
            invariant
                j <= out@.len(),
                forall|k: int| 0 <= k < j ==> out@[k] < x,
            decreases out@.len() - j,
        {
            j = j + 1;
        }
        let ghost o = out@;
        proof {
            assert(!v@.take(i as int).contains(x)) by {
                if v@.take(i as int).contains(x) {
                    let k = choose|k: int| 0 <= k < i && v@.take(i as int)[k] == x;
                    assert(v@[k] == v@[i as int]);
                }
            }
            assert(!o.to_set().contains(x));
            if j < o.len() {
                assert(o.contains(o[j as int]));
                assert(o[j as int] != x);
            }
        }
        out.insert(j, x);
        proof {
            assert forall|a: int, b: int| 0 <= a < b < out@.len() implies out@[a] < out@[b] by {
                if b < j {
                    assert(out@[a] == o[a] && out@[b] == o[b]);
                } else if b == j {
                    assert(out@[a] == o[a]);
                } else if a == j {
                    assert(out@[b] == o[b - 1]);
                    if b - 1 > j {
                        assert(o[j as int] < o[b - 1]);
                    }
                } else if a < j {
                    assert(out@[a] == o[a] && out@[b] == o[b - 1]);
                } else {
                    assert(out@[a] == o[a - 1] && out@[b] == o[b - 1]);
                }
            }
            assert(v@.take(i + 1) =~= v@.take(i as int).push(x));
            v@.take(i as int).lemma_push_to_set_commute(x);
            assert forall|y: u64| out@.to_set().contains(y) <==> o.to_set().insert(x).contains(y) by {
                if out@.to_set().contains(y) {
                    let k = choose|k: int| 0 <= k < out@.len() && out@[k] == y;
                    if k < j {
                        assert(o[k] == y);
                    } else if k > j {
                        assert(o[k - 1] == y);
                    }
                }
                if o.to_set().contains(y) {
                    let k = choose|k: int| 0 <= k < o.len() && o[k] == y;
                    if k < j {
                        assert(out@[k] == y);
                    } else {
                        assert(out@[k + 1] == y);
                    }
                }
                if y == x {
                    assert(out@[j as int] == x);
                }
            }
            assert(out@.to_set() =~= v@.take(i + 1).to_set());
        }
    }
    assert(v@.take(v@.len() as int) =~= v@);
    out
}

/// Every literal's bytes fit in memory (their count is a `usize`).
pub open spec fn literals_fit(v: Seq<String>) -> bool {
    forall|j: int| 0 <= j < v.len() ==> encode_utf8(#[trigger] v[j]@).len() <= usize::MAX
}

/// The plan of one branch: its sorted required hashes and its kept literals.
fn plan_branch(branch: &String, freq: &HashMap<u16, u32>, cfg: SparseConfig) -> (r: Option<(Vec<u64>, Vec<String>)>)
    ensures
        match spec_branch_plan(branch@, freq@, cfg) {
            None => r is None,
            Some(b) => r matches Some(p) && sorted_elements(p.0@, b.0) && strings_view(p.1@) == b.1,
        },
        r matches Some(p) ==> literals_fit(p.1@),
{
    let analysis = analyze_branch_required_literals(branch.as_str());
    if !analysis.parse_ok {
        return None;
    }
    let ghost lits = strings_view(analysis.required_literals@);
    let mut dedup: HashSet<u64> = HashSet::new();
    let mut order: Vec<u64> = Vec::new();
    let mut branch_literals: Vec<String> = Vec::new();
    proof {
        assert(order@.to_set() =~= dedup@);
        assert(strings_view(branch_literals@) =~= Seq::<Seq<char>>::empty());
    }
    for li in 0..analysis.required_literals.len()
        invariant
            lits == strings_view(analysis.required_literals@),
            order@.no_duplicates(),
            order@.to_set() == dedup@,
            (dedup@, strings_view(branch_literals@)) == spec_branch_fold(lits, freq@, cfg, li as int),
            literals_fit(branch_literals@),
    {
        let literal = &analysis.required_literals[li];
        let bytes = literal.as_str().as_bytes();
        assert(lits[li as int] == literal@);
        if bytes.len() >= 3 {
            add_literal_hashes(bytes, &mut dedup, &mut order, freq, cfg);
            let ghost bl = branch_literals@;
            branch_literals.push(literal.clone());
            assert(strings_view(branch_literals@) =~= strings_view(bl).push(literal@));
            assert(branch_literals@.last()@ == literal@);
            assert(encode_utf8(literal@).len() <= usize::MAX);
            assert forall|j: int| 0 <= j < branch_literals@.len() implies encode_utf8(
                #[trigger] branch_literals@[j]@,
            ).len() <= usize::MAX by {
                if j < bl.len() {
                    assert(branch_literals@[j] == bl[j]);
                }
            }
        }
    }
    proof {
        order@.unique_seq_to_set();
    }
    if dedup.len() == 0 {
        return None;
    }
    let hashes = sort_distinct(&order);
    Some((hashes, branch_literals))
}

proof fn lemma_plan_fold_none(bs: Seq<Seq<char>>, freq: Map<u16, u32>, cfg: SparseConfig, k: int, k2: int)
    requires
        0 <= k <= k2,
        spec_plan_fold(bs, freq, cfg, k) is None,
    ensures
        spec_plan_fold(bs, freq, cfg, k2) is None,
    decreases k2 - k,
{
    if k2 > k {
        lemma_plan_fold_none(bs, freq, cfg, k, k2 - 1);
    }
}

/// The candidate-selection plan for `pattern`: for each top-level branch, the hashes of
/// grams that any match must contain; the all-documents fallback where some branch does
/// not parse or yields no gram.
pub fn build_query_plan(pattern: &str, bigram_frequency: &HashMap<u16, u32>, sparse_cfg: SparseConfig) -> (plan: QueryPlan)
    ensures
        plan_models(plan, spec_plan_branches(pattern@, bigram_frequency@, sparse_cfg)),
        literals_fit(plan.extracted_literals@),
{
    if pattern.is_empty() {
        return QueryPlan::all_docs();
    }
    let branches = split_top_level_alternation(pattern);
    if branches.len() == 0 {
        return QueryPlan::all_docs();
    }
    let ghost bs = spec_split(pattern@);
    let mut literal_branches: Vec<String> = Vec::new();
    let mut hashed_branches: Vec<Vec<u64>> = Vec::new();
    proof {
        assert(strings_view(literal_branches@) =~= Seq::<(Set<u64>, Seq<Seq<char>>)>::empty().map_values(
            |b: (Set<u64>, Seq<Seq<char>>)| b.1).flatten());
    }
    for bi in 0..branches.len()
        invariant
            bs == spec_split(pattern@),
            bs == strings_view(branches@),
            spec_plan_fold(bs, bigram_frequency@, sparse_cfg, bi as int) matches Some(acc) && {
                &&& acc.len() == hashed_branches@.len()
                &&& forall|i: int| 0 <= i < acc.len() ==> sorted_elements(#[trigger] hashed_branches@[i]@, acc[i].0)
                &&& strings_view(literal_branches@) == acc.map_values(|b: (Set<u64>, Seq<Seq<char>>)| b.1).flatten()
            },
            literals_fit(literal_branches@),
    {
        let ghost acc = spec_plan_fold(bs, bigram_frequency@, sparse_cfg, bi as int)->Some_0;
        assert(bs[bi as int] == branches@[bi as int]@);
        match plan_branch(&branches[bi], bigram_frequency, sparse_cfg) {
            None => {
                proof {
                    lemma_plan_fold_none(bs, bigram_frequency@, sparse_cfg, bi + 1, bs.len() as int);
                }
                return QueryPlan::all_docs();
            },
            Some(p) => {
                let (hashes, mut lits) = p;
                let ghost b = spec_branch_plan(bs[bi as int], bigram_frequency@, sparse_cfg)->Some_0;
                let ghost lb = literal_branches@;
                let ghost lv = strings_view(lits@);
                let ghost lits0 = lits@;
                hashed_branches.push(hashes);
                literal_branches.append(&mut lits);
                proof {
                    assert forall|j: int| 0 <= j < literal_branches@.len() implies encode_utf8(
                        #[trigger] literal_branches@[j]@,
                    ).len() <= usize::MAX by {
                        if j < lb.len() {
                            assert(literal_branches@[j] == lb[j]);
                        } else {
                            assert(literal_branches@[j] == lits0[j - lb.len()]);
                        }
                    }
                    let acc2 = acc.push(b);
                    assert(spec_plan_fold(bs, bigram_frequency@, sparse_cfg, bi + 1) == Some(acc2));
                    let f = |b: (Set<u64>, Seq<Seq<char>>)| b.1;
                    assert(acc2.map_values(f) =~= acc.map_values(f).push(b.1));
                    acc.map_values(f).lemma_flatten_push(b.1);
                    assert(strings_view(literal_branches@) =~= strings_view(lb) + lv);
                    assert forall|i: int| 0 <= i < acc2.len() implies sorted_elements(#[trigger] hashed_branches@[i]@, acc2[i].0) by {
                        if i < acc.len() {
                            assert(acc2[i] == acc[i]);
                        }
                    }
                }
            },
        }
    }
    let ghost acc = spec_plan_fold(bs, bigram_frequency@, sparse_cfg, bs.len() as int)->Some_0;
    let expr = if hashed_branches.len() == 1 {
        PlanExpr::And(hashed_branches.remove(0))
    } else {
        PlanExpr::Or(hashed_branches)
    };
    QueryPlan { expr, extracted_literals: literal_branches, used_fallback: false }
}


/// The plan of a literal searched for as it stands (not read as a regex):
/// one branch with the hashes of the literal's own bytes, or none where it
/// yields no hash (shorter than three bytes).
pub open spec fn spec_literal_branches(lit: Seq<char>, freq: Map<u16, u32>, cfg: SparseConfig) -> Option<Seq<(Set<u64>, Seq<Seq<char>>)>> {
    let r = spec_branch_fold(seq![lit], freq, cfg, 1);
    if r.0.len() == 0 { None } else { Some(seq![r]) }
}

/// The candidate-selection plan for a literal: the hashes of the grams of its
/// own bytes, all of which a text holding the literal holds; the
/// all-documents fallback for a literal shorter than three bytes.
pub fn build_literal_plan(literal: &str, bigram_frequency: &HashMap<u16, u32>, sparse_cfg: SparseConfig) -> (plan: QueryPlan)
    ensures
        plan_models(plan, spec_literal_branches(literal@, bigram_frequency@, sparse_cfg)),
        literals_fit(plan.extracted_literals@),
{
    let ghost lits = seq![literal@];
    let bytes = literal.as_bytes();
    proof {
        assert(spec_branch_fold(lits, bigram_frequency@, sparse_cfg, 0) == (Set::<u64>::empty(), Seq::<Seq<char>>::empty()));
        assert(lits[0] == literal@);
    }
    if bytes.len() < 3 {
        proof {
            assert(Set::<u64>::empty().len() == 0);
        }
        return QueryPlan::all_docs();
    }
    let mut dedup: HashSet<u64> = HashSet::new();
    let mut order: Vec<u64> = Vec::new();
    proof {
        assert(order@.to_set() =~= dedup@);
    }
    add_literal_hashes(bytes, &mut dedup, &mut order, bigram_frequency, sparse_cfg);
    proof {
        order@.unique_seq_to_set();
    }
    if dedup.len() == 0 {
        return QueryPlan::all_docs();
    }
    let hashes = sort_distinct(&order);
    let mut extracted: Vec<String> = Vec::new();
    extracted.push(literal.to_string());
    proof {
        let r = spec_branch_fold(lits, bigram_frequency@, sparse_cfg, 1);
        let bs = seq![r];
        let f = |b: (Set<u64>, Seq<Seq<char>>)| b.1;
        assert(r.1 =~= seq![literal@]);
        assert(bs.map_values(f) =~= seq![seq![literal@]]);
        seq![seq![literal@]].lemma_flatten_one_element();
        assert(strings_view(extracted@) =~= seq![literal@]);
        assert(extracted@[0]@ == literal@);
    }
    QueryPlan { expr: PlanExpr::And(hashes), extracted_literals: extracted, used_fallback: false }
}


// ---------------------------------------------------------------------------
// A plan asks only for trigrams of its literals
/// The hashes of the three-byte windows of `lit`.
pub open spec fn window_hashes(lit: Seq<u8>) -> Set<u64> {
    Set::new(|h: u64| exists|s: int| 0 <= s && s + 3 <= lit.len() && #[trigger] spec_xxh3_64(lit.subrange(s, s + 3)) == h)
}

/// The hashes of the three-byte windows of any of `lits`.
pub open spec fn literals_windows(lits: Seq<Seq<char>>) -> Set<u64> {
    Set::new(|h: u64| exists|j: int| 0 <= j < lits.len() && #[trigger] window_hashes(encode_utf8(lits[j])).contains(h))
}

proof fn lemma_trigram_fold_windows(set: Set<u64>, lit: Seq<u8>, limit: int, n: int)
    requires
        n <= lit.len() - 2,
    ensures
        forall|h: u64| #[trigger] spec_trigram_fold(set, lit, limit, n).0.contains(h) ==> set.contains(h) || window_hashes(lit).contains(h),
    decreases n,
{
    if n > 0 {
        lemma_trigram_fold_windows(set, lit, limit, n - 1);
        let s0 = n - 1;
        let h = spec_xxh3_64(lit.subrange(s0, s0 + 3));
        assert(lit.subrange(s0, s0 + 3) =~= lit.subrange(n - 1, n + 2));
        assert(window_hashes(lit).contains(h));
        let prev = spec_trigram_fold(set, lit, limit, n - 1);
        let cur = spec_trigram_fold(set, lit, limit, n);
        assert forall|x: u64| #[trigger] cur.0.contains(x) implies set.contains(x) || window_hashes(lit).contains(x) by {
            if x != h {
                assert(prev.0.contains(x));
            }
        }
    }
}

proof fn lemma_literal_hashes_windows(set: Set<u64>, lit: Seq<u8>, freq: Map<u16, u32>, cfg: SparseConfig)
    requires
        lit.len() <= usize::MAX,
    ensures
        forall|h: u64| #[trigger] spec_literal_hashes(set, lit, freq, cfg).contains(h) ==> set.contains(h) || window_hashes(lit).contains(h),
{
    let cov = spec_covering(lit, freq, cfg);
    lemma_covering_windows(lit, freq, cfg);
    let s1 = set.union(spec_trigram_hashes_of(cov));
    assert forall|h: u64| #[trigger] s1.contains(h) implies set.contains(h) || window_hashes(lit).contains(h) by {
        if !set.contains(h) {
            let i = choose|i: int| 0 <= i < cov.len() && #[trigger] cov[i].len() == 3 && spec_xxh3_64(cov[i]) == h;
            assert(is_window(lit, cov[i]));
            let st = choose|st: int| 0 <= st && st + 3 <= lit.len() && #[trigger] lit.subrange(st, st + 3) == cov[i];
            assert(spec_xxh3_64(lit.subrange(st, st + 3)) == h);
        }
    }
    if s1.len() < MIN_QUERY_GRAMS && lit.len() >= 3 {
        let limit = if lit.len() >= 12 { MAX_TRIGRAM_ADDS as int } else { (MAX_TRIGRAM_ADDS / 2) as int };
        lemma_trigram_fold_windows(s1, lit, limit, lit.len() - 2);
    }
}

proof fn lemma_branch_fold_windows(lits: Seq<Seq<char>>, freq: Map<u16, u32>, cfg: SparseConfig, n: int)
    requires
        0 <= n <= lits.len(),
        forall|j: int|
            0 <= j < spec_branch_fold(lits, freq, cfg, n).1.len() ==> encode_utf8(
                #[trigger] spec_branch_fold(lits, freq, cfg, n).1[j],
            ).len() <= usize::MAX,
    ensures
        forall|h: u64|
            #[trigger] spec_branch_fold(lits, freq, cfg, n).0.contains(h) ==> literals_windows(
                spec_branch_fold(lits, freq, cfg, n).1,
            ).contains(h),
    decreases n,
{
    if n > 0 {
        let prev = spec_branch_fold(lits, freq, cfg, n - 1);
        let cur = spec_branch_fold(lits, freq, cfg, n);
        let b = encode_utf8(lits[n - 1]);
        if b.len() >= 3 {
            assert forall|j: int| 0 <= j < prev.1.len() implies encode_utf8(#[trigger] prev.1[j]).len() <= usize::MAX by {
                assert(cur.1[j] == prev.1[j]);
            }
            lemma_branch_fold_windows(lits, freq, cfg, n - 1);
            assert(cur.1[prev.1.len() as int] == lits[n - 1]);
            lemma_literal_hashes_windows(prev.0, b, freq, cfg);
            assert forall|h: u64| #[trigger] cur.0.contains(h) implies literals_windows(cur.1).contains(h) by {
                if prev.0.contains(h) {
                    let j = choose|j: int| 0 <= j < prev.1.len() && #[trigger] window_hashes(encode_utf8(prev.1[j])).contains(h);
                    assert(cur.1[j] == prev.1[j]);
                } else {
                    assert(window_hashes(encode_utf8(cur.1[prev.1.len() as int])).contains(h));
                }
            }
        } else {
            lemma_branch_fold_windows(lits, freq, cfg, n - 1);
        }
    }
}

/// A branch's plan asks only for hashes of three-byte windows of the
/// literals it keeps.
pub proof fn lemma_branch_plan_windows(branch: Seq<char>, freq: Map<u16, u32>, cfg: SparseConfig, p: (Set<u64>, Seq<Seq<char>>))
    requires
        spec_branch_plan(branch, freq, cfg) == Some(p),
        forall|j: int| 0 <= j < p.1.len() ==> encode_utf8(#[trigger] p.1[j]).len() <= usize::MAX,
    ensures
        forall|h: u64| #[trigger] p.0.contains(h) ==> literals_windows(p.1).contains(h),
{
    let a = spec_analyze(branch);
    lemma_branch_fold_windows(a.0, freq, cfg, a.0.len() as int);
}

/// The plans of the branches, one by one.
pub proof fn lemma_plan_fold_items(bs: Seq<Seq<char>>, freq: Map<u16, u32>, cfg: SparseConfig, n: int)
    requires
        0 <= n <= bs.len(),
        spec_plan_fold(bs, freq, cfg, n) is Some,
    ensures
        spec_plan_fold(bs, freq, cfg, n) matches Some(acc) && acc.len() == n && forall|i: int|
            0 <= i < n ==> spec_branch_plan(bs[i], freq, cfg) == Some(#[trigger] acc[i]),
    decreases n,
{
    if n > 0 {
        assert(spec_plan_fold(bs, freq, cfg, n - 1) is Some);
        lemma_plan_fold_items(bs, freq, cfg, n - 1);
    }
}

/// A literal's plan asks only for hashes of three-byte windows of the
/// literal's own bytes.
pub proof fn lemma_literal_plan_windows(lit: Seq<char>, freq: Map<u16, u32>, cfg: SparseConfig)
    requires
        encode_utf8(lit).len() <= usize::MAX,
    ensures
        forall|h: u64| #[trigger] spec_branch_fold(seq![lit], freq, cfg, 1).0.contains(h) ==> window_hashes(encode_utf8(lit)).contains(h),
{
    let lits = seq![lit];
    let r = spec_branch_fold(lits, freq, cfg, 1);
    assert(lits[0] == lit);
    assert(spec_branch_fold(lits, freq, cfg, 0) == (Set::<u64>::empty(), Seq::<Seq<char>>::empty()));
    if encode_utf8(lit).len() >= 3 {
        assert(r.1 =~= seq![lit]);
    } else {
        assert(r.1.len() == 0);
    }
    assert forall|j: int| 0 <= j < r.1.len() implies encode_utf8(#[trigger] r.1[j]).len() <= usize::MAX by {
        assert(r.1[j] == lit);
    }
    lemma_branch_fold_windows(lits, freq, cfg, 1);
    assert forall|h: u64| #[trigger] r.0.contains(h) implies window_hashes(encode_utf8(lit)).contains(h) by {
        assert(literals_windows(r.1).contains(h));
        let j = choose|j: int| 0 <= j < r.1.len() && #[trigger] window_hashes(encode_utf8(r.1[j])).contains(h);
        assert(r.1[j] == lit);
    }
}

proof fn lemma_flatten_member<A>(ss: Seq<Seq<A>>, b: int, j: int)
    requires
        0 <= b < ss.len(),
        0 <= j < ss[b].len(),
    ensures
        exists|k: int| 0 <= k < ss.flatten().len() && ss.flatten()[k] == ss[b][j],
    decreases ss.len(),
{
    let f = ss.flatten();
    assert(f == ss.first() + ss.drop_first().flatten());
    if b == 0 {
        assert(f[j] == ss[0][j]);
    } else {
        lemma_flatten_member(ss.drop_first(), b - 1, j);
        let rest = ss.drop_first().flatten();
        let k = choose|k: int| 0 <= k < rest.len() && rest[k] == ss.drop_first()[b - 1][j];
        assert(f[ss.first().len() + k] == rest[k]);
    }
}

proof fn lemma_flatten_source<A>(ss: Seq<Seq<A>>, k: int)
    requires
        0 <= k < ss.flatten().len(),
    ensures
        exists|b: int, j: int| 0 <= b < ss.len() && 0 <= j < ss[b].len() && ss.flatten()[k] == ss[b][j],
    decreases ss.len(),
{
    let f = ss.flatten();
    assert(f == ss.first() + ss.drop_first().flatten());
    if k < ss.first().len() {
        assert(f[k] == ss[0][k]);
    } else {
        lemma_flatten_source(ss.drop_first(), k - ss.first().len());
        let (b, j) = choose|b: int, j: int|
            0 <= b < ss.drop_first().len() && 0 <= j < ss.drop_first()[b].len() && ss.drop_first().flatten()[k
                - ss.first().len()] == ss.drop_first()[b][j];
        assert(ss[b + 1] == ss.drop_first()[b]);
    }
}

proof fn lemma_branch_fold_long(lits: Seq<Seq<char>>, freq: Map<u16, u32>, cfg: SparseConfig, n: int)
    requires
        0 <= n <= lits.len(),
    ensures
        forall|j: int|
            0 <= j < spec_branch_fold(lits, freq, cfg, n).1.len() ==> encode_utf8(
                #[trigger] spec_branch_fold(lits, freq, cfg, n).1[j],
            ).len() >= 3,
    decreases n,
{
    if n > 0 {
        lemma_branch_fold_long(lits, freq, cfg, n - 1);
        let prev = spec_branch_fold(lits, freq, cfg, n - 1);
        let cur = spec_branch_fold(lits, freq, cfg, n);
        if encode_utf8(lits[n - 1]).len() >= 3 {
            assert forall|j: int| 0 <= j < cur.1.len() implies encode_utf8(#[trigger] cur.1[j]).len() >= 3 by {
                if j < prev.1.len() {
                    assert(cur.1[j] == prev.1[j]);
                }
            }
        }
    }
}

/// What every plan that `build_query_plan` makes looks like: it falls back
/// (keeping every document, with no literals) exactly when its expression is
/// `AllDocs`; otherwise it is `And` of one list, or `Or` of one list for
/// each of two or more top-level branches, each list non-empty and strictly
/// increasing; every literal it keeps has at least three bytes, and every
/// hash it asks for is the hash of a three-byte window of one of them.
/// (`build_query_plan` ensures both of this law's conditions.)
pub proof fn lemma_query_plan_shape(pattern: Seq<char>, freq: Map<u16, u32>, cfg: SparseConfig, plan: QueryPlan)
    requires
        plan_models(plan, spec_plan_branches(pattern, freq, cfg)),
        literals_fit(plan.extracted_literals@),
    ensures
        plan.used_fallback <==> plan.expr is AllDocs,
        plan.used_fallback ==> plan.extracted_literals@.len() == 0,
        forall|j: int|
            0 <= j < plan.extracted_literals@.len() ==> encode_utf8(#[trigger] plan.extracted_literals@[j]@).len() >= 3,
        plan.expr matches PlanExpr::And(v) ==> v@.len() > 0 && (forall|i: int, k: int| 0 <= i < k < v@.len() ==> v@[i]
            < v@[k]) && forall|i: int|
            0 <= i < v@.len() ==> literals_windows(strings_view(plan.extracted_literals@)).contains(#[trigger] v@[i]),
        plan.expr matches PlanExpr::Or(bs) ==> bs@.len() >= 2 && forall|b: int|
            0 <= b < bs@.len() ==> {
                &&& (#[trigger] bs@[b])@.len() > 0
                &&& forall|i: int, k: int| 0 <= i < k < bs@[b]@.len() ==> bs@[b]@[i] < bs@[b]@[k]
                &&& forall|i: int|
                    0 <= i < bs@[b]@.len() ==> literals_windows(strings_view(plan.extracted_literals@)).contains(
                        #[trigger] bs@[b]@[i],
                    )
            },
{
    let lits = strings_view(plan.extracted_literals@);
    assert forall|j: int| 0 <= j < lits.len() implies encode_utf8(#[trigger] lits[j]).len() <= usize::MAX by {
        assert(lits[j] == plan.extracted_literals@[j]@);
    }
    if let Some(bs) = spec_plan_branches(pattern, freq, cfg) {
        let splits = spec_split(pattern);
        lemma_plan_fold_items(splits, freq, cfg, splits.len() as int);
        let f = |b: (Set<u64>, Seq<Seq<char>>)| b.1;
        let ss = bs.map_values(f);
        assert(lits == ss.flatten());
        // Each branch: its literals are long, fit, and its hashes are windows of them.
        assert forall|b: int| 0 <= b < bs.len() implies {
            &&& (#[trigger] bs[b]).0.len() > 0
            &&& forall|h: u64| bs[b].0.contains(h) ==> literals_windows(lits).contains(h)
        } by {
            assert(spec_branch_plan(splits[b], freq, cfg) == Some(bs[b]));
            let a = spec_analyze(splits[b]);
            assert(bs[b] == spec_branch_fold(a.0, freq, cfg, a.0.len() as int));
            assert(ss[b] == bs[b].1);
            assert forall|j: int| 0 <= j < bs[b].1.len() implies encode_utf8(#[trigger] bs[b].1[j]).len() <= usize::MAX by {
                lemma_flatten_member(ss, b, j);
            }
            lemma_branch_plan_windows(splits[b], freq, cfg, bs[b]);
            assert forall|h: u64| bs[b].0.contains(h) implies literals_windows(lits).contains(h) by {
                assert(literals_windows(bs[b].1).contains(h));
                let j = choose|j: int| 0 <= j < bs[b].1.len() && #[trigger] window_hashes(encode_utf8(bs[b].1[j])).contains(h);
                lemma_flatten_member(ss, b, j);
                let k = choose|k: int| 0 <= k < ss.flatten().len() && ss.flatten()[k] == ss[b][j];
                assert(window_hashes(encode_utf8(lits[k])).contains(h));
            }
        }
        assert forall|j: int| 0 <= j < plan.extracted_literals@.len() implies encode_utf8(
            #[trigger] plan.extracted_literals@[j]@,
        ).len() >= 3 by {
            assert(lits[j] == plan.extracted_literals@[j]@);
            lemma_flatten_source(ss, j);
            let (b, i) = choose|b: int, i: int| 0 <= b < ss.len() && 0 <= i < ss[b].len() && ss.flatten()[j] == ss[b][i];
            assert(spec_branch_plan(splits[b], freq, cfg) == Some(bs[b]));
            let a = spec_analyze(splits[b]);
            lemma_branch_fold_long(a.0, freq, cfg, a.0.len() as int);
            assert(ss[b] == bs[b].1);
        }
        match plan.expr {
            PlanExpr::And(v) => {
                assert(bs.len() == 1);
                assert(sorted_elements(v@, bs[0].0));
                if v@.len() == 0 {
                    assert(v@.to_set() =~= Set::<u64>::empty());
                }
                assert forall|i: int| 0 <= i < v@.len() implies literals_windows(lits).contains(#[trigger] v@[i]) by {
                    assert(v@.to_set().contains(v@[i]));
                    assert(bs[0].0.contains(v@[i]));
                }
            },
            PlanExpr::Or(vs) => {
                assert(splits.len() > 0);
                assert(bs.len() != 1);
                assert forall|b: int| 0 <= b < vs@.len() implies {
                    &&& (#[trigger] vs@[b])@.len() > 0
                    &&& forall|i: int, k: int| 0 <= i < k < vs@[b]@.len() ==> vs@[b]@[i] < vs@[b]@[k]
                    &&& forall|i: int| 0 <= i < vs@[b]@.len() ==> literals_windows(lits).contains(#[trigger] vs@[b]@[i])
                } by {
                    assert(sorted_elements(vs@[b]@, bs[b].0));
                    assert(bs[b].0.len() > 0);
                    if vs@[b]@.len() == 0 {
                        assert(vs@[b]@.to_set() =~= Set::<u64>::empty());
                    }
                    assert forall|i: int| 0 <= i < vs@[b]@.len() implies literals_windows(lits).contains(#[trigger] vs@[b]@[i]) by {
                        assert(vs@[b]@.to_set().contains(vs@[b]@[i]));
                        assert(bs[b].0.contains(vs@[b]@[i]));
                    }
                }
            },
            PlanExpr::AllDocs => {},
        }
    }
}

} // verus!
