//! The synthetic corpus that the benchmark searches: the relative path and
//! the text of each file, as functions of the file's number.
use vstd::prelude::*;
use vstd::string::StringExecFns;
use serde_json::Value;

use crate::text::{lines_from, push_char, spec_utf8_lossy, str_eq, text_lines, utf8_lossy};

verus! {

/// The character of a digit below sixteen (lower-case hex letters).
pub open spec fn digit_char(d: nat) -> char {
    if d < 10 {
        (48 + d) as char
    } else {
        (87 + d) as char
    }
}

/// The digits of `n` in base `base` (ten or sixteen), most significant
/// first, without leading zeros ("0" for zero).
pub open spec fn base_digits(n: nat, base: nat) -> Seq<char>
    decreases n,
{
    if base < 2 {
        Seq::empty()
    } else if n < base {
        seq![digit_char(n)]
    } else {
        proof {
            assert(n / base < n) by (nonlinear_arith)
                requires
                    n >= base,
                    base >= 2,
            ;
        }
        base_digits(n / base, base).push(digit_char(n % base))
    }
}

/// The decimal digits of `n`.
pub open spec fn dec(n: nat) -> Seq<char> {
    base_digits(n, 10)
}

/// `d` with zeros in front up to `width` characters.
pub open spec fn padded(d: Seq<char>, width: nat) -> Seq<char> {
    if d.len() >= width {
        d
    } else {
        Seq::new((width - d.len()) as nat, |i: int| '0') + d
    }
}

/// The word at `i` of the corpus's word table (of 32 words), taken round.
pub open spec fn dictionary_word(i: nat) -> Seq<char> {
    let k = i % 32;
    if k == 0 { "engine"@ }
    else if k == 1 { "planner"@ }
    else if k == 2 { "posting"@ }
    else if k == 3 { "lookup"@ }
    else if k == 4 { "overlay"@ }
    else if k == 5 { "commit"@ }
    else if k == 6 { "workspace"@ }
    else if k == 7 { "search"@ }
    else if k == 8 { "literal"@ }
    else if k == 9 { "sparse"@ }
    else if k == 10 { "trigram"@ }
    else if k == 11 { "candidate"@ }
    else if k == 12 { "regex"@ }
    else if k == 13 { "parser"@ }
    else if k == 14 { "builder"@ }
    else if k == 15 { "reader"@ }
    else if k == 16 { "writer"@ }
    else if k == 17 { "offset"@ }
    else if k == 18 { "binary"@ }
    else if k == 19 { "mmap"@ }
    else if k == 20 { "latency"@ }
    else if k == 21 { "throughput"@ }
    else if k == 22 { "result"@ }
    else if k == 23 { "snippet"@ }
    else if k == 24 { "timeout"@ }
    else if k == 25 { "request"@ }
    else if k == 26 { "response"@ }
    else if k == 27 { "module"@ }
    else if k == 28 { "package"@ }
    else if k == 29 { "service"@ }
    else if k == 30 { "storage"@ }
    else { "queue"@ }
}

/// The extension of file `idx`: `ts`, `rs` and `md` in turn.
pub open spec fn spec_extension(idx: nat) -> Seq<char> {
    if idx % 3 == 0 {
        "ts"@
    } else if idx % 3 == 1 {
        "rs"@
    } else {
        "md"@
    }
}

/// The path of file `idx` below the corpus root: thirty modules to a package.
pub open spec fn spec_synthetic_path(idx: nat) -> Seq<char> {
    "packages/pkg_"@ + padded(dec(idx / 30), 4) + "/src/module_"@ + padded(dec(idx % 30), 2) + "."@
        + spec_extension(idx)
}

/// Line `line` of the entry table of file `idx`: three words of the table
/// and two numbers.
pub open spec fn entry_line(idx: nat, line: nat) -> Seq<char> {
    "const entry_"@ + padded(dec(line), 3) + " = \""@ + dictionary_word(idx * 13 + line * 3) + "_"@
        + dictionary_word(idx * 7 + line * 11) + "_"@ + dictionary_word(idx * 17 + line * 5) + "_"@ + dec(
        idx % 1000,
    ) + "_"@ + dec(line) + "\";\n"@
}

/// The first `n` entry lines of file `idx`.
pub open spec fn entry_lines(idx: nat, n: nat) -> Seq<char>
    decreases n,
{
    if n == 0 {
        Seq::empty()
    } else {
        entry_lines(idx, (n - 1) as nat) + entry_line(idx, (n - 1) as nat)
    }
}

/// The upper-case letter `n` places after `A`, taken round.
pub open spec fn letter(n: nat) -> char {
    (65 + n % 26) as char
}

/// The feature-flag line, in every seventh file.
pub open spec fn feature_line(idx: nat) -> Seq<char> {
    if idx % 7 == 0 { "const FEATURE_FLAG = \"needle_alpha_beta\";\n"@ } else { Seq::empty() }
}

/// The API-name line, in every eleventh file.
pub open spec fn api_line(idx: nat) -> Seq<char> {
    if idx % 11 == 0 { "const API_NAME = \"alpha_service_endpoint\";\n"@ } else { Seq::empty() }
}

/// The alternative API-name line, in every thirteenth file.
pub open spec fn alt_line(idx: nat) -> Seq<char> {
    if idx % 13 == 0 { "const API_ALT = \"gamma_worker_token\";\n"@ } else { Seq::empty() }
}

/// The digest line, in every seventeenth file: forty hex digits.
pub open spec fn digest_line(idx: nat) -> Seq<char> {
    if idx % 17 == 0 {
        "// digest: "@ + padded(base_digits(idx * 97531, 16), 40) + "\n"@
    } else {
        Seq::empty()
    }
}

/// The event line, in every twenty-third file: a user number and a code of
/// three letters.
pub open spec fn event_line(idx: nat) -> Seq<char> {
    if idx % 23 == 0 {
        "let event = \"user_"@ + padded(dec(idx % 10000), 4) + "_event_"@ + seq![
            letter(idx / 23),
            letter(idx / 13),
            letter(idx / 7),
        ] + "\";\n"@
    } else {
        Seq::empty()
    }
}

/// The lines that some files carry besides their entries: the literals the
/// benchmark looks for, a hex digest, and an event code.
pub open spec fn extra_lines(idx: nat) -> Seq<char> {
    feature_line(idx) + api_line(idx) + alt_line(idx) + digest_line(idx) + event_line(idx)
}

/// The text of file `idx`: a header, eighty entry lines, and its extra lines.
pub open spec fn spec_synthetic_text(idx: nat) -> Seq<char> {
    "// fastregex synthetic benchmark corpus\n"@ + "// file_index="@ + dec(idx) + "\n\n"@ + entry_lines(idx, 80)
        + extra_lines(idx)
}

/// The character of digit `d`.
fn digit(d: u8) -> (c: char)
    requires
        d < 16,
    ensures
        c == digit_char(d as nat),
{
    if d < 10 {
        (48 + d) as char
    } else {
        (87 + d) as char
    }
}

/// How many digits `n` has in `base`.
fn count_digits(n: u128, base: u128) -> (r: u128)
    requires
        base == 10 || base == 16,
    ensures
        r == base_digits(n as nat, base as nat).len(),
    decreases n,
{
    if n < base {
        1
    } else {
        assert(n / base < n) by (nonlinear_arith)
            requires
                n >= base,
                base >= 2,
        ;
        let r = count_digits(n / base, base);
        proof {
            lemma_digits_len((n / base) as nat, base as nat);
            assert(n / base + 1 <= n) by (nonlinear_arith)
                requires
                    n >= base,
                    base >= 2,
            ;
        }
        r + 1
    }
}

/// A number has no more digits than its value (one for zero).
proof fn lemma_digits_len(n: nat, base: nat)
    requires
        base >= 2,
    ensures
        base_digits(n, base).len() <= if n == 0 { 1 } else { n },
    decreases n,
{
    if n >= base {
        assert(n / base < n && n / base >= 1 && n / base + 1 <= n) by (nonlinear_arith)
            requires
                n >= base,
                base >= 2,
        ;
        lemma_digits_len(n / base, base);
    }
}

/// Appends the digits of `n` in `base`.
fn push_digits(s: &mut String, n: u128, base: u128)
    requires
        base == 10 || base == 16,
    ensures
        final(s)@ == old(s)@ + base_digits(n as nat, base as nat),
    decreases n,
{
    if n >= base {
        assert(n / base < n) by (nonlinear_arith)
            requires
                n >= base,
                base >= 2,
        ;
        push_digits(s, n / base, base);
    }
    let d = (n % base) as u8;
    push_char(s, digit(d));
    proof {
        if n >= base {
            assert(base_digits(n as nat, base as nat) == base_digits((n / base) as nat, base as nat).push(
                digit_char((n % base) as nat),
            ));
        }
    }
}

/// Appends the digits of `n` in `base`, with zeros in front up to `width`.
fn push_number(s: &mut String, n: u128, base: u128, width: usize)
    requires
        base == 10 || base == 16,
    ensures
        final(s)@ == old(s)@ + padded(base_digits(n as nat, base as nat), width as nat),
{
    let len = count_digits(n, base);
    let ghost d = base_digits(n as nat, base as nat);
    let ghost start = s@;
    if len < width as u128 {
        let mut i: u128 = len;
        while i < width as u128
            invariant
                len <= i <= width,
                s@ == start + Seq::new((i - len) as nat, |j: int| '0'),
            decreases width as u128 - i,
        {
            push_char(s, '0');
            i = i + 1;
            assert(s@ =~= start + Seq::new((i - len) as nat, |j: int| '0'));
        }
    }
    let ghost zeros = s@;
    push_digits(s, n, base);
    proof {
        if len < width as u128 {
            assert(s@ =~= start + (Seq::new((width - d.len()) as nat, |j: int| '0') + d));
        } else {
            assert(zeros == start);
        }
    }
}

/// The word at `i` of the corpus's word table, taken round.
pub fn dictionary(i: usize) -> (w: &'static str)
    ensures
        w@ == dictionary_word(i as nat),
{
    let k = i % 32;
    if k == 0 { "engine" }
    else if k == 1 { "planner" }
    else if k == 2 { "posting" }
    else if k == 3 { "lookup" }
    else if k == 4 { "overlay" }
    else if k == 5 { "commit" }
    else if k == 6 { "workspace" }
    else if k == 7 { "search" }
    else if k == 8 { "literal" }
    else if k == 9 { "sparse" }
    else if k == 10 { "trigram" }
    else if k == 11 { "candidate" }
    else if k == 12 { "regex" }
    else if k == 13 { "parser" }
    else if k == 14 { "builder" }
    else if k == 15 { "reader" }
    else if k == 16 { "writer" }
    else if k == 17 { "offset" }
    else if k == 18 { "binary" }
    else if k == 19 { "mmap" }
    else if k == 20 { "latency" }
    else if k == 21 { "throughput" }
    else if k == 22 { "result" }
    else if k == 23 { "snippet" }
    else if k == 24 { "timeout" }
    else if k == 25 { "request" }
    else if k == 26 { "response" }
    else if k == 27 { "module" }
    else if k == 28 { "package" }
    else if k == 29 { "service" }
    else if k == 30 { "storage" }
    else { "queue" }
}

/// The path of file `idx` below the corpus root, with `/` between parts.
pub fn synthetic_path(idx: usize) -> (p: String)
    ensures
        p@ == spec_synthetic_path(idx as nat),
{
    let mut p = String::new();
    p.append("packages/pkg_");
    push_number(&mut p, (idx / 30) as u128, 10, 4);
    p.append("/src/module_");
    push_number(&mut p, (idx % 30) as u128, 10, 2);
    p.append(".");
    let ext = if idx % 3 == 0 {
        "ts"
    } else if idx % 3 == 1 {
        "rs"
    } else {
        "md"
    };
    p.append(ext);
    p
}

/// Appends entry line `line` of file `idx`.
fn push_entry_line(out: &mut String, idx: usize, line: usize)
    requires
        idx * 13 + line * 3 <= usize::MAX,
        idx * 7 + line * 11 <= usize::MAX,
        idx * 17 + line * 5 <= usize::MAX,
    ensures
        final(out)@ == old(out)@ + entry_line(idx as nat, line as nat),
{
    let ghost start = out@;
    out.append("const entry_");
    push_number(out, line as u128, 10, 3);
    out.append(" = \"");
    out.append(dictionary(idx * 13 + line * 3));
    out.append("_");
    out.append(dictionary(idx * 7 + line * 11));
    out.append("_");
    out.append(dictionary(idx * 17 + line * 5));
    out.append("_");
    push_number(out, (idx % 1000) as u128, 10, 0);
    out.append("_");
    push_number(out, line as u128, 10, 0);
    out.append("\";\n");
    proof {
        assert(padded(dec((idx % 1000) as nat), 0) == dec((idx % 1000) as nat));
        assert(padded(dec(line as nat), 0) == dec(line as nat));
        assert(out@ =~= start + entry_line(idx as nat, line as nat));
    }
}

/// Appends the digest line of file `idx`, if it has one.
fn push_digest_line(out: &mut String, idx: usize)
    ensures
        final(out)@ == old(out)@ + digest_line(idx as nat),
{
    let ghost start = out@;
    if idx % 17 == 0 {
        out.append("// digest: ");
        push_number(out, (idx as u128) * 97531, 16, 40);
        out.append("\n");
        assert(out@ =~= start + digest_line(idx as nat));
    } else {
        assert(out@ =~= start + digest_line(idx as nat));
    }
}

/// Appends the event line of file `idx`, if it has one.
fn push_event_line(out: &mut String, idx: usize)
    ensures
        final(out)@ == old(out)@ + event_line(idx as nat),
{
    let ghost start = out@;
    if idx % 23 == 0 {
        out.append("let event = \"user_");
        push_number(out, (idx % 10000) as u128, 10, 4);
        out.append("_event_");
        push_char(out, ((65 + (idx / 23) % 26) as u8) as char);
        push_char(out, ((65 + (idx / 13) % 26) as u8) as char);
        push_char(out, ((65 + (idx / 7) % 26) as u8) as char);
        out.append("\";\n");
        assert(out@ =~= start + event_line(idx as nat));
    } else {
        assert(out@ =~= start + event_line(idx as nat));
    }
}

/// Appends the extra lines of file `idx`.
fn push_extra_lines(out: &mut String, idx: usize)
    ensures
        final(out)@ == old(out)@ + extra_lines(idx as nat),
{
    let ghost start = out@;
    if idx % 7 == 0 {
        out.append("const FEATURE_FLAG = \"needle_alpha_beta\";\n");
    }
    assert(out@ =~= start + feature_line(idx as nat));
    let ghost e1 = out@;
    if idx % 11 == 0 {
        out.append("const API_NAME = \"alpha_service_endpoint\";\n");
    }
    assert(out@ =~= e1 + api_line(idx as nat));
    let ghost e2 = out@;
    if idx % 13 == 0 {
        out.append("const API_ALT = \"gamma_worker_token\";\n");
    }
    assert(out@ =~= e2 + alt_line(idx as nat));
    push_digest_line(out, idx);
    push_event_line(out, idx);
    assert(out@ =~= start + extra_lines(idx as nat));
}

/// The text of file `idx` of the corpus.
pub fn synthetic_text(idx: usize) -> (t: String)
    requires
        idx * 17 + 79 * 5 <= usize::MAX,
        idx * 7 + 79 * 11 <= usize::MAX,
    ensures
        t@ == spec_synthetic_text(idx as nat),
{
    let mut out = String::new();
    out.append("// fastregex synthetic benchmark corpus\n");
    out.append("// file_index=");
    push_number(&mut out, idx as u128, 10, 0);
    out.append("\n\n");
    let ghost head = out@;
    proof {
        assert(padded(dec(idx as nat), 0) == dec(idx as nat));
        assert(head =~= "// fastregex synthetic benchmark corpus\n"@ + "// file_index="@ + dec(idx as nat) + "\n\n"@);
        assert(head + entry_lines(idx as nat, 0) =~= head);
    }
    for line in 0..80usize
        invariant
            idx * 17 + 79 * 5 <= usize::MAX,
            idx * 7 + 79 * 11 <= usize::MAX,
            out@ == head + entry_lines(idx as nat, line as nat),
    {
        push_entry_line(&mut out, idx, line);
        assert(out@ =~= head + entry_lines(idx as nat, (line + 1) as nat));
    }
    push_extra_lines(&mut out, idx);
    proof {
        assert(out@ =~= head + entry_lines(idx as nat, 80) + extra_lines(idx as nat));
    }
    out
}

/// Whether the corpus on disk, whose marker records `existing` files, is
/// the one asked for (`files` files); otherwise it is made anew.
pub fn dataset_is_current(existing: u64, files: usize) -> (r: bool)
    ensures
        r == ((existing as usize) == files),
{
    (existing as usize) == files
}


/// What the marker text of a corpus on disk records as its number of files:
/// `None` where the text is not JSON; otherwise its `files` field where that
/// is an unsigned integer, and `None` inside where it is missing or not one.
pub uninterp spec fn spec_marker_files(raw: Seq<char>) -> Option<Option<u64>>;

/// The `files` field of the corpus marker, or the parse error's message.
///
/// Trusted: calls `serde_json::from_str::<Value>`, then `Value::get("files")`
/// and `Value::as_u64`; the result is a function of the text alone (named by
/// `spec_marker_files`), and a parse error is `Err`. The message is not
/// stated.
#[verifier::external_body]
fn marker_files(raw: &str) -> (r: Result<Option<u64>, String>)
    ensures
        match r {
            Ok(f) => spec_marker_files(raw@) == Some(f),
            Err(_) => spec_marker_files(raw@) is None,
        },
{
    match serde_json::from_str::<Value>(raw) {
        Ok(v) => Ok(v.get("files").and_then(Value::as_u64)),
        Err(e) => Err(e.to_string()),
    }
}

/// Whether the corpus whose marker reads `raw` is the one asked for
/// (`files` files; a marker without a number of files counts as zero), or
/// the parse error's message where the marker is not JSON.
pub fn marker_is_current(raw: &str, files: usize) -> (r: Result<bool, String>)
    ensures
        match spec_marker_files(raw@) {
            None => r is Err,
            Some(f) => r == Ok::<bool, String>(
                ((match f {
                    Some(n) => n,
                    None => 0u64,
                }) as usize) == files,
            ),
        },
{
    match marker_files(raw) {
        Ok(f) => {
            let existing = match f {
                Some(n) => n,
                None => 0u64,
            };
            Ok(dataset_is_current(existing, files))
        },
        Err(msg) => Err(msg),
    }
}

/// What one line of `rg --json` output says: its `type` field where that is
/// a string, and the length of its `data.submatches` array where there is
/// one; `None` where the line is not JSON.
pub uninterp spec fn spec_rg_event(line: Seq<char>) -> Option<(Option<Seq<char>>, Option<usize>)>;

/// The `type` and the number of submatches of one line of `rg --json`
/// output, or the parse error's message.
///
/// Trusted: calls `serde_json::from_str::<Value>`, then `Value::get("type")`
/// with `Value::as_str`, and `Value::pointer("/data/submatches")` with
/// `Value::as_array` and its length; the result is a function of the line
/// alone (named by `spec_rg_event`), and a parse error is `Err`. The message
/// is not stated.
#[verifier::external_body]
fn rg_event(line: &str) -> (r: Result<(Option<String>, Option<usize>), String>)
    ensures
        match r {
            Ok(ev) => spec_rg_event(line@) == Some(
                (
                    match ev.0 {
                        Some(t) => Some(t@),
                        None => None,
                    },
                    ev.1,
                ),
            ),
            Err(_) => spec_rg_event(line@) is None,
        },
{
    match serde_json::from_str::<Value>(line) {
        Ok(v) => Ok((
            v.get("type").and_then(Value::as_str).map(str::to_string),
            v.pointer("/data/submatches").and_then(Value::as_array).map(Vec::len),
        )),
        Err(e) => Err(e.to_string()),
    }
}

/// The matches a line of `rg --json` output reports: the number of
/// submatches of a `match` line, none for any other line.
pub open spec fn rg_line_matches(ev: (Option<Seq<char>>, Option<usize>)) -> nat {
    if ev.0 == Some("match"@) {
        match ev.1 {
            Some(n) => n as nat,
            None => 0,
        }
    } else {
        0
    }
}

/// The matches the first `n` lines report in all, or `None` where one of
/// them is not JSON.
pub open spec fn rg_total(lines: Seq<Seq<char>>, n: int) -> Option<nat>
    decreases n,
{
    if n <= 0 {
        Some(0)
    } else {
        match rg_total(lines, n - 1) {
            None => None,
            Some(t) => match spec_rg_event(lines[n - 1]) {
                None => None,
                Some(ev) => Some(t + rg_line_matches(ev)),
            },
        }
    }
}

proof fn lemma_rg_total_grows(lines: Seq<Seq<char>>, n: int, m: int)
    requires
        0 <= n <= m,
        rg_total(lines, n) is Some,
    ensures
        match rg_total(lines, m) {
            None => true,
            Some(t) => t >= rg_total(lines, n)->Some_0,
        },
    decreases m - n,
{
    if m > n {
        lemma_rg_total_grows(lines, n, m - 1);
    }
}

proof fn lemma_rg_total_none(lines: Seq<Seq<char>>, n: int, m: int)
    requires
        0 <= n <= m,
        rg_total(lines, n) is None,
    ensures
        rg_total(lines, m) is None,
    decreases m - n,
{
    if m > n {
        lemma_rg_total_none(lines, n, m - 1);
    }
}

/// How many matches `rg --json` reported on `stdout` (its output, decoded
/// with invalid UTF-8 replaced, line by line), or an error where a line is
/// not JSON or the count does not fit a `usize`.
pub fn ripgrep_match_count(stdout: &[u8]) -> (r: Result<usize, String>)
    ensures
        ({
            let lines = lines_from(spec_utf8_lossy(stdout@), Seq::empty());
            match rg_total(lines, lines.len() as int) {
                None => r is Err,
                Some(t) => if t <= usize::MAX { r == Ok::<usize, String>(t as usize) } else { r is Err },
            }
        }),
{
    let text = utf8_lossy(stdout);
    let lines = text_lines(text.as_str());
    let ghost ls = lines@.map_values(|p: String| p@);
    let mut total: usize = 0;
    for i in 0..lines.len()
        invariant
            ls == lines@.map_values(|p: String| p@),
            ls == lines_from(spec_utf8_lossy(stdout@), Seq::empty()),
            rg_total(ls, i as int) == Some(total as nat),
    {
        assert(ls[i as int] == lines@[i as int]@);
        let ev = match rg_event(lines[i].as_str()) {
            Ok(ev) => ev,
            Err(msg) => {
                proof {
                    lemma_rg_total_none(ls, i + 1, ls.len() as int);
                }
                return Err(msg);
            },
        };
        let add: usize = match &ev.0 {
            Some(t) => if str_eq(t.as_str(), "match") {
                match ev.1 {
                    Some(n) => n,
                    None => 0,
                }
            } else {
                0
            },
            None => 0,
        };
        proof {
            assert(add == rg_line_matches(spec_rg_event(ls[i as int])->Some_0));
        }
        match total.checked_add(add) {
            Some(t) => {
                total = t;
            },
            None => {
                proof {
                    lemma_rg_total_grows(ls, i + 1, ls.len() as int);
                }
                return Err("match count does not fit".to_string());
            },
        }
    }
    Ok(total)
}

/// Every letter of an event code is an upper-case letter from `A` to `Z`;
/// two numbers give the same letter exactly when they agree modulo 26, so
/// the code runs through the whole alphabet. In a file that carries an event
/// line, the three characters of its code (before the closing `";` and the
/// line feed) are such letters.
pub proof fn lemma_event_code_letters(n: nat, m: nat, idx: nat)
    ensures
        'A' <= letter(n) <= 'Z',
        letter(n) == letter(m) <==> n % 26 == m % 26,
        idx % 23 == 0 ==> {
            let e = event_line(idx);
            &&& e.len() >= 6
            &&& e[e.len() - 6] == letter(idx / 23)
            &&& e[e.len() - 5] == letter(idx / 13)
            &&& e[e.len() - 4] == letter(idx / 7)
            &&& forall|t: int| e.len() - 6 <= t < e.len() - 3 ==> 'A' <= #[trigger] e[t] <= 'Z'
        },
{
    assert((65 + n % 26) as char as int == 65 + n % 26);
    assert((65 + m % 26) as char as int == 65 + m % 26);
    if idx % 23 == 0 {
        let code = seq![letter(idx / 23), letter(idx / 13), letter(idx / 7)];
        let head = "let event = \"user_"@ + padded(dec(idx % 10000), 4) + "_event_"@;
        let tail = "\";\n"@;
        reveal_strlit("\";\n");
        assert(tail.len() == 3);
        let e = event_line(idx);
        assert(e == head + code + tail);
        assert(e[e.len() - 6] == code[0]);
        assert(e[e.len() - 5] == code[1]);
        assert(e[e.len() - 4] == code[2]);
        assert((65 + (idx / 23) % 26) as char as int == 65 + (idx / 23) % 26);
        assert((65 + (idx / 13) % 26) as char as int == 65 + (idx / 13) % 26);
        assert((65 + (idx / 7) % 26) as char as int == 65 + (idx / 7) % 26);
    }
}

} // verus!
