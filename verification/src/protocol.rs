use vstd::prelude::*;

use crate::text::{
    all_digits, chars_of, decimal_value, leading_ws, parse_usize, spec_is_whitespace, spec_parse_usize, spec_trim,
    trailing_ws, trim_chars,
};

verus! {

// ---------------------------------------------------------------------------
// Message framing: a `Content-Length` header, a blank line, then the body.
/// `s` without its trailing carriage returns and line feeds.
pub open spec fn trim_line_end(s: Seq<char>) -> Seq<char>
    decreases s.len(),
{
    if s.len() > 0 && (s.last() == '\r' || s.last() == '\n') {
        trim_line_end(s.drop_last())
    } else {
        s
    }
}

/// The position of the first `:` of `s`, if any.
pub open spec fn first_colon(s: Seq<char>) -> Option<int> {
    if exists|i: int| 0 <= i < s.len() && s[i] == ':' {
        Some(choose|i: int| 0 <= i < s.len() && s[i] == ':' && forall|j: int| 0 <= j < i ==> s[j] != ':')
    } else {
        None
    }
}

/// `c` with ASCII capitals turned into small letters.
pub open spec fn ascii_lower(c: char) -> char {
    if 'A' <= c <= 'Z' {
        ((c as int) + 32) as char
    } else {
        c
    }
}

/// Whether `a` and `b` are equal up to ASCII case.
pub open spec fn equal_ignoring_ascii_case(a: Seq<char>, b: Seq<char>) -> bool {
    a.len() == b.len() && forall|i: int| 0 <= i < a.len() ==> ascii_lower(#[trigger] a[i]) == ascii_lower(b[i])
}

/// The name of the length header.
pub open spec fn content_length_name() -> Seq<char> {
    seq!['C', 'o', 'n', 't', 'e', 'n', 't', '-', 'L', 'e', 'n', 'g', 't', 'h']
}

/// One header line of a message, as read.
pub enum HeaderLine {
    /// The blank line that ends the headers.
    End,
    /// A `Content-Length` header with its value.
    ContentLength(usize),
    /// A `Content-Length` header whose value is no `usize`.
    InvalidLength,
    /// Any other line.
    Other,
}

/// What a header line says: a blank line (once its line ending is
/// dropped) ends the headers; `name: value` with the name
/// `Content-Length` in any ASCII case gives the trimmed value as a length.
pub open spec fn spec_header_line(line: Seq<char>) -> HeaderLine {
    let t = trim_line_end(line);
    if t.len() == 0 {
        HeaderLine::End
    } else {
        match first_colon(t) {
            Some(i) => if equal_ignoring_ascii_case(t.take(i), content_length_name()) {
                match spec_parse_usize(spec_trim(t.skip(i + 1))) {
                    Some(n) => HeaderLine::ContentLength(n as usize),
                    None => HeaderLine::InvalidLength,
                }
            } else {
                HeaderLine::Other
            },
            None => HeaderLine::Other,
        }
    }
}

fn lower(c: char) -> (r: char)
    ensures
        r == ascii_lower(c),
{
    if 'A' <= c && c <= 'Z' {
        let code = c as u32 + 32;
        proof {
            assert(((c as int) + 32) as char == code as char);
        }
        char_from_ascii(code)
    } else {
        c
    }
}

/// The character of an ASCII code.
fn char_from_ascii(code: u32) -> (c: char)
    requires
        0x61 <= code <= 0x7a,
    ensures
        c == code as char,
{
    let b = code as u8;
    b as char
}

/// Reads one header line.
pub fn parse_header_line(line: &str) -> (h: HeaderLine)
    ensures
        h == spec_header_line(line@),
{
    let chars = chars_of(line);
    let mut end: usize = chars.len();
    assert(chars@.take(end as int) =~= chars@);
    while end > 0 && (chars[end - 1] == '\r' || chars[end - 1] == '\n')
        invariant
            end <= chars@.len(),
            trim_line_end(chars@) == trim_line_end(chars@.take(end as int)),
        decreases end,
    {
        assert(chars@.take(end as int).drop_last() =~= chars@.take(end - 1));
        end = end - 1;
    }
    let ghost t = chars@.take(end as int);
    assert(trim_line_end(chars@) == t);
    if end == 0 {
        return HeaderLine::End;
    }
    let mut colon: usize = 0;
    while colon < end && chars[colon] != ':'
        invariant
            colon <= end,
            end <= chars@.len(),
            forall|j: int| 0 <= j < colon ==> chars@[j] != ':',
        decreases end - colon,
    {
        colon = colon + 1;
    }
    if colon == end {
        assert(first_colon(t) is None);
        return HeaderLine::Other;
    }
    proof {
        assert(t[colon as int] == ':');
        let c = choose|i: int| 0 <= i < t.len() && t[i] == ':' && forall|j: int| 0 <= j < i ==> t[j] != ':';
        assert(c == colon);
        assert(first_colon(t) == Some(colon as int));
    }
    let name = "Content-Length";
    let name_chars = chars_of(name);
    proof {
        reveal_strlit("Content-Length");
        assert(name_chars@ =~= content_length_name());
    }
    if colon != name_chars.len() {
        return HeaderLine::Other;
    }
    let mut k: usize = 0;
    while k < colon
        invariant
            k <= colon,
            colon == name_chars@.len(),
            colon < end,
            end <= chars@.len(),
            t == chars@.take(end as int),
            name_chars@ == content_length_name(),
            trim_line_end(line@) == t,
            t.len() > 0,
            first_colon(t) == Some(colon as int),
            chars@ == line@,
            forall|j: int| 0 <= j < k ==> ascii_lower(#[trigger] chars@[j]) == ascii_lower(name_chars@[j]),
        decreases colon - k,
    {
        if lower(chars[k]) != lower(name_chars[k]) {
            assert(!equal_ignoring_ascii_case(t.take(colon as int), content_length_name())) by {
                assert(t.take(colon as int)[k as int] == chars@[k as int]);
            }
            return HeaderLine::Other;
        }
        k = k + 1;
    }
    assert(equal_ignoring_ascii_case(t.take(colon as int), content_length_name())) by {
        assert forall|i: int| 0 <= i < colon implies ascii_lower(#[trigger] t.take(colon as int)[i]) == ascii_lower(
            content_length_name()[i],
        ) by {
            assert(t.take(colon as int)[i] == chars@[i]);
        }
    }
    let mut value: Vec<char> = Vec::new();
    let mut v = colon + 1;
    while v < end
        invariant
            colon < end,
            end <= chars@.len(),
            colon + 1 <= v <= end,
            value@ == chars@.subrange(colon + 1, v as int),
        decreases end - v,
    {
        value.push(chars[v]);
        assert(chars@.subrange(colon + 1, v + 1) =~= chars@.subrange(colon + 1, v as int).push(chars@[v as int]));
        v = v + 1;
    }
    assert(value@ =~= t.skip(colon + 1));
    let trimmed = trim_chars(value.as_slice());
    match parse_usize(trimmed.as_slice()) {
        Some(n) => HeaderLine::ContentLength(n),
        None => HeaderLine::InvalidLength,
    }
}

/// The decimal digits of `n`, most significant first.
pub open spec fn decimal_digits(n: nat) -> Seq<u8>
    decreases n,
{
    if n < 10 {
        seq![(48 + n) as u8]
    } else {
        decimal_digits(n / 10).push((48 + n % 10) as u8)
    }
}

/// The bytes of the header that announce a body of `len` bytes:
/// `Content-Length: <len>` followed by a blank line.
pub open spec fn header_bytes(len: nat) -> Seq<u8> {
    seq![67u8, 111, 110, 116, 101, 110, 116, 45, 76, 101, 110, 103, 116, 104, 58, 32] + decimal_digits(len) + seq![
        13u8,
        10,
        13,
        10,
    ]
}

/// The decimal digits of `n`.
fn digits_of(n: usize) -> (d: Vec<u8>)
    ensures
        d@ == decimal_digits(n as nat),
{
    let mut rest = n;
    let mut acc: Vec<u8> = Vec::new();
    while rest >= 10
        invariant
            decimal_digits(n as nat) == decimal_digits(rest as nat) + acc@,
        decreases rest,
    {
        let digit = (48 + rest % 10) as u8;
        proof {
            assert(decimal_digits(rest as nat) == decimal_digits((rest / 10) as nat).push(digit));
            assert(decimal_digits((rest / 10) as nat).push(digit) + acc@ =~= decimal_digits((rest / 10) as nat) + seq![digit]
                + acc@);
        }
        acc.insert(0, digit);
        assert(seq![digit] + acc@.drop_first() =~= acc@);
        rest = rest / 10;
    }
    let first = (48 + rest) as u8;
    acc.insert(0, first);
    assert(decimal_digits(rest as nat) =~= seq![first]);
    assert(acc@ =~= seq![first] + acc@.drop_first());
    acc
}

/// A message as written: the length header, a blank line, then the body.
pub fn frame_message(body: &[u8]) -> (out: Vec<u8>)
    ensures
        out@ == header_bytes(body@.len()) + body@,
{
    let mut out: Vec<u8> = Vec::new();
    let prefix: [u8; 16] = [67, 111, 110, 116, 101, 110, 116, 45, 76, 101, 110, 103, 116, 104, 58, 32];
    for i in 0..16
        invariant
            out@ == prefix@.take(i as int),
    {
        out.push(prefix[i]);
        assert(prefix@.take(i + 1) =~= prefix@.take(i as int).push(prefix@[i as int]));
    }
    let digits = digits_of(body.len());
    for i in 0..digits.len()
        invariant
            out@ == prefix@ + digits@.take(i as int),
    {
        out.push(digits[i]);
        assert(digits@.take(i + 1) =~= digits@.take(i as int).push(digits@[i as int]));
    }
    assert(digits@.take(digits@.len() as int) =~= digits@);
    out.push(13);
    out.push(10);
    out.push(13);
    out.push(10);
    for i in 0..body.len()
        invariant
            body@.len() == body.len(),
            out@ == prefix@ + digits@ + seq![13u8, 10, 13, 10] + body@.take(i as int),
    {
        out.push(body[i]);
        assert(body@.take(i + 1) =~= body@.take(i as int).push(body@[i as int]));
    }
    proof {
        assert(body@.take(body@.len() as int) =~= body@);
        assert(prefix@ =~= seq![67u8, 111, 110, 116, 101, 110, 116, 45, 76, 101, 110, 103, 116, 104, 58, 32]);
    }
    out
}


/// Bytes read as text, one character per byte (right for ASCII).
pub open spec fn ascii_text(b: Seq<u8>) -> Seq<char> {
    b.map_values(|x: u8| x as char)
}

/// The first line of the header of a body of `len` bytes, with its line
/// ending.
pub open spec fn length_line(len: nat) -> Seq<u8> {
    seq![67u8, 111, 110, 116, 101, 110, 116, 45, 76, 101, 110, 103, 116, 104, 58, 32] + decimal_digits(len) + seq![13u8, 10]
}

proof fn lemma_digit_char(x: nat)
    requires
        x < 10,
    ensures
        ((48 + x) as u8) as char as nat == 48 + x,
        '0' <= ((48 + x) as u8) as char <= '9',
{
    let c = ((48 + x) as u8) as char;
    assert(c as nat == 48 + x);
}

proof fn lemma_digits_value(n: nat)
    ensures
        ascii_text(decimal_digits(n)).len() >= 1,
        all_digits(ascii_text(decimal_digits(n))),
        decimal_value(ascii_text(decimal_digits(n))) == n,
    decreases n,
{
    let d = ascii_text(decimal_digits(n));
    if n < 10 {
        lemma_digit_char(n);
        assert(d.len() == 1);
        assert(d[0] == ((48 + n) as u8) as char);
        assert(d.drop_last() =~= Seq::<char>::empty());
        assert(decimal_value(d) == decimal_value(d.drop_last()) * 10 + ((d.last() as nat) - ('0' as nat)) as nat);
    } else {
        lemma_digits_value(n / 10);
        lemma_digit_char(n % 10);
        let pre = ascii_text(decimal_digits(n / 10));
        assert(d.drop_last() =~= pre);
        assert(d.last() == ((48 + n % 10) as u8) as char);
        assert forall|i: int| 0 <= i < d.len() implies '0' <= #[trigger] d[i] <= '9' by {
            if i < d.len() - 1 {
                assert(d[i] == pre[i]);
            }
        }
        assert(decimal_value(d) == decimal_value(pre) * 10 + ((d.last() as nat) - ('0' as nat)) as nat);
        assert((n / 10) * 10 + n % 10 == n);
    }
}

proof fn lemma_no_ws_ends(d: Seq<char>)
    requires
        d.len() >= 1,
        all_digits(d),
    ensures
        leading_ws(d) == 0,
        trailing_ws(d) == 0,
        d.last() != '\r' && d.last() != '\n' && d.last() != ':',
        d[0] != '+',
{
    assert('0' <= d[0] <= '9');
    assert('0' <= d[d.len() - 1] <= '9');
    assert(!spec_is_whitespace(d[0]));
    assert(!spec_is_whitespace(d.last()));
}

proof fn lemma_line_end(body: Seq<char>)
    requires
        body.len() > 0,
        body.last() != '\r' && body.last() != '\n',
    ensures
        trim_line_end(body + seq!['\r', '\n']) == body,
{
    let line = body + seq!['\r', '\n'];
    assert(line.drop_last() =~= body + seq!['\r']);
    assert((body + seq!['\r']).drop_last() =~= body);
    assert(trim_line_end(body + seq!['\r']) == trim_line_end(body));
}

proof fn lemma_value_trims(digits: Seq<char>)
    requires
        digits.len() >= 1,
        all_digits(digits),
    ensures
        spec_trim(seq![' '] + digits) == digits,
{
    let value = seq![' '] + digits;
    lemma_no_ws_ends(digits);
    assert(value.drop_first() =~= digits);
    assert(spec_is_whitespace(' '));
    assert(leading_ws(value) == 1);
    assert(value.last() == digits.last());
    assert(trailing_ws(value) == 0);
    assert(spec_trim(value) =~= digits);
}

/// What the writer announces, the reader finds: the first header line of a
/// framed message reads as the length of its body, and the blank line after
/// it ends the headers.
pub proof fn lemma_length_line_reads_back(len: usize)
    ensures
        header_bytes(len as nat) == length_line(len as nat) + seq![13u8, 10],
        spec_header_line(ascii_text(length_line(len as nat))) == HeaderLine::ContentLength(len),
        spec_header_line(seq!['\r', '\n']) == HeaderLine::End,
{
    let n = len as nat;
    let digits = ascii_text(decimal_digits(n));
    let name = content_length_name();
    lemma_digits_value(n);
    lemma_no_ws_ends(digits);
    let body = name + seq![':', ' '] + digits;
    assert(ascii_text(length_line(n)) =~= body + seq!['\r', '\n']);
    assert(header_bytes(n) =~= length_line(n) + seq![13u8, 10]);
    assert(body.last() == digits.last());
    lemma_line_end(body);
    assert(body[14] == ':');
    assert forall|j: int| 0 <= j < 14 implies body[j] != ':' by {
        assert(body[j] == name[j]);
    }
    assert(first_colon(body) == Some(14int));
    assert(body.take(14) =~= name);
    assert(body.skip(15) =~= seq![' '] + digits);
    lemma_value_trims(digits);
    let crlf = seq!['\r', '\n'];
    assert(crlf.drop_last() =~= seq!['\r']);
    assert(seq!['\r'].drop_last() =~= Seq::<char>::empty());
    assert(crlf.last() == '\n');
    assert(trim_line_end(crlf) == trim_line_end(seq!['\r']));
    assert(seq!['\r'].last() == '\r');
    assert(trim_line_end(seq!['\r']) == trim_line_end(Seq::<char>::empty()));
    assert(trim_line_end(crlf) =~= Seq::<char>::empty());
}

} // verus!
