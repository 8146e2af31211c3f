use vstd::prelude::*;
use vstd::string::*;

use crate::map::{row_text, MapModel, TileMap};

verus! {

/// Relies on `std::io::Error` only as an opaque value: a failure to read the
/// map's text, carried unchanged in [`ParseError::FileError`].
#[verifier::external_type_specification]
#[verifier::external_body]
pub struct ExIoError(std::io::Error);

/// Where a map's text breaks the format, and how.
#[derive(Debug)]
pub struct ParseErrorDetails {
    /// The 1-based number of the offending line.
    pub line: u32,
    pub message: String,
}

#[derive(Debug)]
pub enum ParseError {
    FileError(std::io::Error),
    InvalidFormat(ParseErrorDetails),
}

/// Relies on `std::io::Error`'s `Display` for a description of a read failure;
/// its wording comes from the system and is not stated.
#[verifier::external_body]
fn io_error_text(e: &std::io::Error) -> String {
    e.to_string()
}

impl ParseError {
    /// A description of the error; a format error names its message and line.
    pub fn describe(&self) -> (r: String)
        ensures
            self matches ParseError::InvalidFormat(d) ==> r@ == "Invalid format: "@ + d.message@
                + "\n at line "@ + decimal(d.line as nat),
            self matches ParseError::FileError(_) ==> exists|t: Seq<char>| r@ == "File error: "@ + t,
    {
        match self {
            ParseError::FileError(e) => {
                let mut s = String::from_str("File error: ");
                let t = io_error_text(e);
                s.append(t.as_str());
                assert(s@ == "File error: "@ + t@);
                s
            },
            ParseError::InvalidFormat(d) => {
                let mut s = String::from_str("Invalid format: ");
                s.append(d.message.as_str());
                s.append("\n at line ");
                let l = decimal_string(d.line as usize);
                s.append(l.as_str());
                s
            },
        }
    }
}

/// `r` is a format error at `line` with the given message.
pub open spec fn format_error(r: ParseError, line: int, message: Seq<char>) -> bool {
    r matches ParseError::InvalidFormat(d) && d.line == line && d.message@ == message
}

fn invalid_format(line: u32, message: &str) -> (r: ParseError)
    ensures
        format_error(r, line as int, message@),
{
    ParseError::InvalidFormat(ParseErrorDetails { line, message: message.to_owned() })
}

/// Unicode white space, as `char::is_whitespace` documents it.
pub open spec fn is_space(c: char) -> bool {
    let v = c as u32;
    ||| 0x9 <= v <= 0xd
    ||| v == 0x20
    ||| v == 0x85
    ||| v == 0xa0
    ||| v == 0x1680
    ||| 0x2000 <= v <= 0x200a
    ||| v == 0x2028
    ||| v == 0x2029
    ||| v == 0x202f
    ||| v == 0x205f
    ||| v == 0x3000
}

pub fn is_space_char(c: char) -> (r: bool)
    ensures
        r == is_space(c),
{
    let v = c as u32;
    (0x9 <= v && v <= 0xd) || v == 0x20 || v == 0x85 || v == 0xa0 || v == 0x1680 || (0x2000 <= v
        && v <= 0x200a) || v == 0x2028 || v == 0x2029 || v == 0x202f || v == 0x205f || v == 0x3000
}

/// The index of the first character of `s` at or after `i` that is not white space.
pub open spec fn start_of(s: Seq<char>, i: int) -> int
    decreases s.len() - i,
{
    if 0 <= i < s.len() && is_space(s[i]) {
        start_of(s, i + 1)
    } else {
        i
    }
}

/// The end of `s.subrange(0, j)` with its trailing white space left out.
pub open spec fn end_of(s: Seq<char>, j: int) -> int
    decreases j,
{
    if 0 < j <= s.len() && is_space(s[j - 1]) {
        end_of(s, j - 1)
    } else {
        j
    }
}

/// `s` without leading and trailing white space.
pub open spec fn trim(s: Seq<char>) -> Seq<char> {
    let lo = start_of(s, 0);
    let hi = end_of(s, s.len() as int);
    if lo < hi {
        s.subrange(lo, hi)
    } else {
        seq![]
    }
}

/// The index of the first `c` in `s` at or after `i`, or `s.len()` if there is none.
pub open spec fn find(s: Seq<char>, c: char, i: int) -> int
    decreases s.len() - i,
{
    if i < 0 || i >= s.len() {
        s.len() as int
    } else if s[i] == c {
        i
    } else {
        find(s, c, i + 1)
    }
}

/// The key and value of a header line `key = value`: split at the first `=`,
/// both sides trimmed and not empty.
pub open spec fn field_of(s: Seq<char>) -> Option<(Seq<char>, Seq<char>)> {
    let e = find(s, '=', 0);
    if e >= s.len() {
        None
    } else {
        let k = trim(s.subrange(0, e));
        let v = trim(s.subrange(e + 1, s.len() as int));
        if k.len() == 0 || v.len() == 0 {
            None
        } else {
            Some((k, v))
        }
    }
}

proof fn lemma_find_after(s: Seq<char>, c: char, i: int, e: int)
    requires
        0 <= i <= e < s.len(),
        s[e] == c,
        forall|j: int| i <= j < e ==> s[j] != c,
    ensures
        find(s, c, i) == e,
    decreases e - i,
{
    if i < e {
        lemma_find_after(s, c, i + 1, e);
    }
}

/// A header line written `key = value`, from a key without `=` and a value,
/// neither empty nor starting or ending with white space, splits back into
/// that key and value.
pub proof fn lemma_field_round_trip(k: Seq<char>, v: Seq<char>)
    requires
        k.len() > 0,
        v.len() > 0,
        forall|i: int| 0 <= i < k.len() ==> k[i] != '=',
        !is_space(k[0]) && !is_space(k.last()),
        !is_space(v[0]) && !is_space(v.last()),
    ensures
        field_of(k + " = "@ + v) == Some((k, v)),
{
    reveal_strlit(" = ");
    let s = k + " = "@ + v;
    let e = k.len() as int + 1;
    assert(s[e] == '=');
    assert forall|j: int| 0 <= j < e implies s[j] != '=' by {
        if j < k.len() {
            assert(s[j] == k[j]);
        }
    }
    lemma_find_after(s, '=', 0, e);
    let key = s.subrange(0, e);
    assert(key[0] == k[0]);
    assert(start_of(key, 0) == 0);
    assert(key[e - 1] == ' ');
    assert(key[e - 2] == k.last());
    assert(end_of(key, e - 1) == e - 1);
    assert(end_of(key, e) == e - 1);
    assert(key.subrange(0, e - 1) =~= k);
    let value = s.subrange(e + 1, s.len() as int);
    assert(value[0] == ' ');
    assert(value[1] == v[0]);
    assert(start_of(value, 1) == 1);
    assert(start_of(value, 0) == 1);
    assert(value.last() == v.last());
    assert(end_of(value, value.len() as int) == value.len());
    assert(value.subrange(1, value.len() as int) =~= v);
}

/// The characters of `s` from `from` to `to`, trimmed.
fn trim_part(s: &str, from: usize, to: usize) -> (r: String)
    requires
        from <= to <= s@.len(),
    ensures
        r@ == trim(s@.subrange(from as int, to as int)),
{
    let ghost t = s@.subrange(from as int, to as int);
    let mut lo = from;
    while lo < to && is_space_char(s.get_char(lo))
        invariant
            from <= lo <= to <= s@.len(),
            t == s@.subrange(from as int, to as int),
            start_of(t, 0) == start_of(t, lo - from),
        decreases to - lo,
    {
        lo = lo + 1;
    }
    assert(start_of(t, lo - from) == lo - from);
    let mut hi = to;
    while hi > from && is_space_char(s.get_char(hi - 1))
        invariant
            from <= hi <= to <= s@.len(),
            t == s@.subrange(from as int, to as int),
            end_of(t, t.len() as int) == end_of(t, hi - from),
        decreases hi,
    {
        hi = hi - 1;
    }
    assert(end_of(t, hi - from) == hi - from);
    if lo < hi {
        let part = s.substring_char(lo, hi);
        assert(part@ == t.subrange(lo - from, hi - from));
        part.to_owned()
    } else {
        String::new()
    }
}

/// Splits a header line into its trimmed key and value.
pub fn parse_field(field: String, line_number: &u32) -> (r: Result<(String, String), ParseError>)
    ensures
        match field_of(field@) {
            Some(kv) => r matches Ok(p) && p.0@ == kv.0 && p.1@ == kv.1,
            None => r matches Err(e) && format_error(e, *line_number as int, "Invalid field format"@),
        },
{
    let s = field.as_str();
    let n = s.unicode_len();
    let mut i: usize = 0;
    while i < n && s.get_char(i) != '='
        invariant
            i <= n == s@.len(),
            s@ == field@,
            find(s@, '=', 0) == find(s@, '=', i as int),
        decreases n - i,
    {
        i = i + 1;
    }
    if i >= n {
        return Err(invalid_format(*line_number, "Invalid field format"));
    }
    let key = trim_part(s, 0, i);
    let value = trim_part(s, i + 1, n);
    if key.as_str().unicode_len() == 0 || value.as_str().unicode_len() == 0 {
        return Err(invalid_format(*line_number, "Invalid field format"));
    }
    Ok((key, value))
}

pub open spec fn is_digit(c: char) -> bool {
    0x30 <= c as u32 <= 0x39
}

/// The value of a string of decimal digits.
pub open spec fn number(s: Seq<char>) -> nat
    decreases s.len(),
{
    if s.len() == 0 {
        0
    } else {
        number(s.drop_last()) * 10 + (s.last() as u32 - 0x30) as nat
    }
}

/// The value of `s` when it is one or more decimal digits worth at most `limit`.
pub open spec fn number_of(s: Seq<char>, limit: nat) -> Option<nat> {
    if s.len() > 0 && (forall|i: int| 0 <= i < s.len() ==> is_digit(#[trigger] s[i])) && number(s)
        <= limit {
        Some(number(s))
    } else {
        None
    }
}

/// Reads the decimal number held by the characters of `s` from `from` to `to`.
fn read_number(s: &str, from: usize, to: usize, limit: usize) -> (r: Option<usize>)
    requires
        from <= to <= s@.len(),
    ensures
        match number_of(s@.subrange(from as int, to as int), limit as nat) {
            Some(v) => r == Some(v as usize),
            None => r.is_none(),
        },
{
    if from == to {
        return None;
    }
    let ghost t = s@.subrange(from as int, to as int);
    let mut acc: usize = 0;
    let mut over = false;
    let mut i = from;
    while i < to
        invariant
            from <= i <= to <= s@.len(),
            t == s@.subrange(from as int, to as int),
            forall|j: int| 0 <= j < i - from ==> is_digit(#[trigger] t[j]),
            !over ==> acc == number(t.subrange(0, i - from)) && acc <= limit,
            over ==> number(t.subrange(0, i - from)) > limit,
        decreases to - i,
    {
        let c = s.get_char(i);
        assert(c == t[i - from]);
        if !(0x30 <= c as u32 && c as u32 <= 0x39) {
            return None;
        }
        let d = (c as u32 - 0x30) as usize;
        let ghost p = t.subrange(0, i - from);
        let ghost q = t.subrange(0, i + 1 - from);
        assert(q.drop_last() =~= p);
        assert(number(q) == number(p) * 10 + d);
        if !over {
            if d > limit || acc > (limit - d) / 10 {
                over = true;
                assert(number(q) > limit) by (nonlinear_arith)
                    requires
                        number(q) == acc * 10 + d,
                        d > limit || acc > (limit - d) / 10,
                        acc >= 0,
                        d <= 9,
                ;
            } else {
                assert(acc * 10 + d <= limit) by (nonlinear_arith)
                    requires
                        d <= limit,
                        acc <= (limit - d) / 10,
                ;
                acc = acc * 10 + d;
            }
        }
        i = i + 1;
    }
    assert(t.subrange(0, to - from) =~= t);
    if over {
        None
    } else {
        Some(acc)
    }
}

/// The width and height written `<digits>x<digits>`: two positive numbers whose
/// product, the number of tiles, fits in a `usize`.
pub open spec fn size_of(s: Seq<char>) -> Option<(nat, nat)> {
    let p = find(s, 'x', 0);
    if p >= s.len() {
        None
    } else {
        match (
            number_of(s.subrange(0, p), usize::MAX as nat),
            number_of(s.subrange(p + 1, s.len() as int), usize::MAX as nat),
        ) {
            (Some(w), Some(h)) => if w > 0 && h > 0 && w * h <= usize::MAX {
                Some((w, h))
            } else {
                None
            },
            _ => None,
        }
    }
}

/// Reads the `size` header value.
pub fn parse_size(size: &str, line: &u32) -> (r: Result<(usize, usize), ParseError>)
    ensures
        match size_of(size@) {
            Some(wh) => r matches Ok(p) && p.0 == wh.0 && p.1 == wh.1,
            None => r matches Err(e) && format_error(e, *line as int, "Invalid size format"@),
        },
{
    let n = size.unicode_len();
    let mut i: usize = 0;
    while i < n && size.get_char(i) != 'x'
        invariant
            i <= n == size@.len(),
            find(size@, 'x', 0) == find(size@, 'x', i as int),
        decreases n - i,
    {
        i = i + 1;
    }
    if i >= n {
        return Err(invalid_format(*line, "Invalid size format"));
    }
    let width = read_number(size, 0, i, usize::MAX);
    let height = read_number(size, i + 1, n, usize::MAX);
    match (width, height) {
        (Some(w), Some(h)) => {
            if w > 0 && h > 0 && w.checked_mul(h).is_some() {
                Ok((w, h))
            } else {
                Err(invalid_format(*line, "Invalid size format"))
            }
        },
        _ => Err(invalid_format(*line, "Invalid size format")),
    }
}

/// The value of a tile token: an optional `+`, then decimal digits worth at most 255.
pub open spec fn tile_of(t: Seq<char>) -> Option<nat> {
    if t.len() > 0 && t[0] == '+' {
        number_of(t.drop_first(), 255)
    } else {
        number_of(t, 255)
    }
}

/// Reads the tile token held by the characters of `s` from `from` to `to`.
fn read_tile(s: &str, from: usize, to: usize) -> (r: Option<u8>)
    requires
        from <= to <= s@.len(),
    ensures
        match tile_of(s@.subrange(from as int, to as int)) {
            Some(v) => r == Some(v as u8),
            None => r.is_none(),
        },
{
    let ghost t = s@.subrange(from as int, to as int);
    if from < to && s.get_char(from) == '+' {
        assert(t.drop_first() =~= s@.subrange(from + 1, to as int));
        match read_number(s, from + 1, to, 255) {
            Some(v) => Some(v as u8),
            None => None,
        }
    } else {
        match read_number(s, from, to, 255) {
            Some(v) => Some(v as u8),
            None => None,
        }
    }
}

/// What reading tiles gives so far: the tiles read, or the first error as a
/// line number and a message.
pub type TileRead = Result<Seq<u8>, (int, Seq<char>)>;

/// The text of each line.
pub open spec fn texts(lines: Seq<String>) -> Seq<Seq<char>> {
    lines.map_values(|l: String| l@)
}

/// Takes the token `t` of line `line` into the tiles read, of which at most
/// `expected` are allowed.
pub open spec fn read_token(st: TileRead, t: Seq<char>, line: int, expected: nat) -> TileRead {
    match st {
        Err(e) => Err(e),
        Ok(ts) => match tile_of(t) {
            None => Err((line, "Invalid tile format"@)),
            Some(v) => if ts.len() >= expected {
                Err((line, "Too many tiles"@))
            } else {
                Ok(ts.push(v as u8))
            },
        },
    }
}

/// Reads the first `n` characters of line `s` (numbered `line`) from state `st`:
/// each white-space-separated token that ends before `n` is taken in order. The
/// second component is where the token still open at `n` starts (`n` when none is).
pub open spec fn scan_line(st: TileRead, s: Seq<char>, n: nat, line: int, expected: nat) -> (TileRead, int)
    decreases n,
{
    if n == 0 {
        (st, 0)
    } else {
        let p = scan_line(st, s, (n - 1) as nat, line, expected);
        if is_space(s[n - 1]) {
            (
                if p.1 < n - 1 {
                    read_token(p.0, s.subrange(p.1, n - 1), line, expected)
                } else {
                    p.0
                },
                n as int,
            )
        } else {
            p
        }
    }
}

/// Reads all the tokens of line `s`.
pub open spec fn read_line(st: TileRead, s: Seq<char>, line: int, expected: nat) -> TileRead {
    let p = scan_line(st, s, s.len(), line, expected);
    if p.1 < s.len() {
        read_token(p.0, s.subrange(p.1, s.len() as int), line, expected)
    } else {
        p.0
    }
}

/// Reads the tokens of the lines from index `start` up to index `i`.
pub open spec fn read_body(lines: Seq<Seq<char>>, start: int, i: int, expected: nat) -> TileRead
    decreases i - start,
{
    if i <= start {
        Ok(seq![])
    } else {
        read_line(read_body(lines, start, i - 1, expected), lines[i - 1], i, expected)
    }
}

pub open spec fn digit_char(d: nat) -> char {
    if d == 0 {
        '0'
    } else if d == 1 {
        '1'
    } else if d == 2 {
        '2'
    } else if d == 3 {
        '3'
    } else if d == 4 {
        '4'
    } else if d == 5 {
        '5'
    } else if d == 6 {
        '6'
    } else if d == 7 {
        '7'
    } else if d == 8 {
        '8'
    } else {
        '9'
    }
}

/// `n` written in decimal.
pub open spec fn decimal(n: nat) -> Seq<char>
    decreases n,
{
    if n < 10 {
        seq![digit_char(n)]
    } else {
        decimal(n / 10).push(digit_char(n % 10))
    }
}

pub open spec fn not_enough_message(expected: nat, got: nat) -> Seq<char> {
    "Not enough tiles, expected "@ + decimal(expected) + " but got "@ + decimal(got)
}

/// The tiles of the body that starts at line index `start`: exactly `expected`
/// of them, else the first error.
pub open spec fn tiles_of(lines: Seq<Seq<char>>, start: int, expected: nat) -> TileRead {
    match read_body(lines, start, lines.len() as int, expected) {
        Err(e) => Err(e),
        Ok(ts) => if ts.len() < expected {
            Err((lines.len() as int, not_enough_message(expected, ts.len())))
        } else {
            Ok(ts)
        },
    }
}

fn digit_text(d: usize) -> (r: &'static str)
    requires
        d < 10,
    ensures
        r@ == seq![digit_char(d as nat)],
{
    proof {
        reveal_strlit("0");
        reveal_strlit("1");
        reveal_strlit("2");
        reveal_strlit("3");
        reveal_strlit("4");
        reveal_strlit("5");
        reveal_strlit("6");
        reveal_strlit("7");
        reveal_strlit("8");
        reveal_strlit("9");
    }
    let r = if d == 0 {
        "0"
    } else if d == 1 {
        "1"
    } else if d == 2 {
        "2"
    } else if d == 3 {
        "3"
    } else if d == 4 {
        "4"
    } else if d == 5 {
        "5"
    } else if d == 6 {
        "6"
    } else if d == 7 {
        "7"
    } else if d == 8 {
        "8"
    } else {
        "9"
    };
    assert(r@ =~= seq![digit_char(d as nat)]);
    r
}

/// `n` written in decimal.
pub fn decimal_string(n: usize) -> (r: String)
    ensures
        r@ == decimal(n as nat),
    decreases n,
{
    if n < 10 {
        String::from_str(digit_text(n))
    } else {
        let mut s = decimal_string(n / 10);
        s.append(digit_text(n % 10));
        s
    }
}

proof fn lemma_scan_keeps_error(e: (int, Seq<char>), s: Seq<char>, n: nat, line: int, expected: nat)
    ensures
        scan_line(Err(e), s, n, line, expected).0 == Err::<Seq<u8>, (int, Seq<char>)>(e),
    decreases n,
{
    if n > 0 {
        lemma_scan_keeps_error(e, s, (n - 1) as nat, line, expected);
    }
}

proof fn lemma_scan_stays_failed(st: TileRead, s: Seq<char>, n: nat, m: nat, line: int, expected: nat)
    requires
        n <= m,
        scan_line(st, s, n, line, expected).0 is Err,
    ensures
        scan_line(st, s, m, line, expected).0 == scan_line(st, s, n, line, expected).0,
    decreases m - n,
{
    if m > n {
        lemma_scan_stays_failed(st, s, n, (m - 1) as nat, line, expected);
    }
}

proof fn lemma_body_stays_failed(lines: Seq<Seq<char>>, start: int, i: int, j: int, expected: nat)
    requires
        start <= i <= j,
        read_body(lines, start, i, expected) is Err,
    ensures
        read_body(lines, start, j, expected) == read_body(lines, start, i, expected),
    decreases j - i,
{
    if j > i {
        lemma_body_stays_failed(lines, start, i, j - 1, expected);
        let e = read_body(lines, start, i, expected)->Err_0;
        let s = lines[j - 1];
        lemma_scan_keeps_error(e, s, s.len(), j, expected);
    }
}

/// Takes the token held by the characters of `s` from `from` to `to` into `tiles`.
fn take_tile(s: &str, from: usize, to: usize, tiles: &mut Vec<u8>, expected: usize, line: u32) -> (r: Option<ParseError>)
    requires
        from <= to <= s@.len(),
    ensures
        match read_token(Ok(old(tiles)@), s@.subrange(from as int, to as int), line as int, expected as nat) {
            Ok(ts) => r.is_none() && final(tiles)@ == ts,
            Err(e) => r matches Some(err) && format_error(err, e.0, e.1),
        },
{
    match read_tile(s, from, to) {
        None => Some(invalid_format(line, "Invalid tile format")),
        Some(v) => {
            if tiles.len() >= expected {
                Some(invalid_format(line, "Too many tiles"))
            } else {
                tiles.push(v);
                None
            }
        },
    }
}

/// Reads the tiles of the lines from index `*line_number` on, leaving in
/// `*line_number` the number of the last line read.
fn parse_tiles(lines: &Vec<String>, line_number: &mut u32, width: &usize, height: &usize) -> (r: Result<Vec<u8>, ParseError>)
    requires
        *width * *height <= usize::MAX,
        *old(line_number) <= lines@.len() < u32::MAX,
    ensures
        match tiles_of(texts(lines@), *old(line_number) as int, (*width * *height) as nat) {
            Ok(ts) => r matches Ok(v) && v@ == ts && *final(line_number) == lines@.len(),
            Err(e) => r matches Err(err) && format_error(err, e.0, e.1) && *final(line_number) == e.0,
        },
        r matches Ok(v) ==> v@.len() == *width * *height,
{
    let expected = *width * *height;
    let mut tiles: Vec<u8> = Vec::new();
    let ghost lv = texts(lines@);
    let ghost start = *line_number as int;
    while (*line_number as usize) < lines.len()
        invariant
            start <= *line_number <= lines@.len() < u32::MAX,
            start == *old(line_number),
            tiles@.len() <= expected,
            lv == texts(lines@),
            expected == *width * *height,
            read_body(lv, start, *line_number as int, expected as nat) == Ok::<Seq<u8>, (int, Seq<char>)>(tiles@),
        decreases lines@.len() - *line_number,
    {
        let li = *line_number as usize;
        *line_number = *line_number + 1;
        let s = lines[li].as_str();
        let ghost before = tiles@;
        let ghost line = *line_number as int;
        let n = s.unicode_len();
        assert(s@ == lv[li as int]);
        let mut i: usize = 0;
        let mut tok: usize = 0;
        while i < n
            invariant
                i <= n == s@.len(),
                tok <= i,
                line == *line_number,
                start < line <= lv.len(),
                start == *old(line_number),
                tiles@.len() <= expected,
                lv == texts(lines@),
                s@ == lv[line - 1],
                expected == *width * *height,
                read_body(lv, start, line - 1, expected as nat) == Ok::<Seq<u8>, (int, Seq<char>)>(before),
                scan_line(Ok(before), s@, i as nat, line, expected as nat) == (Ok::<Seq<u8>, (int, Seq<char>)>(tiles@), tok as int),
            decreases n - i,
        {
            let c = s.get_char(i);
            if is_space_char(c) {
                if tok < i {
                    let ghost t0 = tiles@;
                    let failed = take_tile(s, tok, i, &mut tiles, expected, *line_number);
                    if let Some(e) = failed {
                        proof {
                            let e0 = read_token(Ok(t0), s@.subrange(tok as int, i as int), line, expected as nat);
                            assert(scan_line(Ok(before), s@, (i + 1) as nat, line, expected as nat).0 == e0);
                            lemma_scan_stays_failed(Ok(before), s@, (i + 1) as nat, n as nat, line, expected as nat);
                            assert(read_body(lv, start, line, expected as nat) == e0);
                            lemma_body_stays_failed(lv, start, line, lv.len() as int, expected as nat);
                            assert(tiles_of(lv, start, expected as nat) == e0);
                        }
                        return Err(e);
                    }
                }
                tok = i + 1;
            }
            i = i + 1;
        }
        if tok < n {
            let ghost t0 = tiles@;
            let failed = take_tile(s, tok, n, &mut tiles, expected, *line_number);
            if let Some(e) = failed {
                proof {
                    let e0 = read_token(Ok(t0), s@.subrange(tok as int, n as int), line, expected as nat);
                    assert(read_body(lv, start, line, expected as nat) == e0);
                    lemma_body_stays_failed(lv, start, line, lv.len() as int, expected as nat);
                    assert(tiles_of(lv, start, expected as nat) == e0);
                }
                return Err(e);
            }
        }
    }
    if tiles.len() < expected {
        let mut message = String::from_str("Not enough tiles, expected ");
        let e = decimal_string(expected);
        message.append(e.as_str());
        message.append(" but got ");
        let g = decimal_string(tiles.len());
        message.append(g.as_str());
        return Err(ParseError::InvalidFormat(ParseErrorDetails { line: *line_number, message }));
    }
    Ok(tiles)
}

/// Where the header of `lines` ends, looking from index `i`: the index of the
/// first line that is the separator `---` or no header field, or the number of lines.
pub open spec fn header_end(lines: Seq<Seq<char>>, i: int) -> int
    decreases lines.len() - i,
{
    if i < 0 || i >= lines.len() {
        lines.len() as int
    } else if lines[i] == "---"@ || field_of(lines[i]) is None {
        i
    } else {
        header_end(lines, i + 1)
    }
}

/// The fields of the first `n` lines, in order.
pub open spec fn header_fields(lines: Seq<Seq<char>>, n: int) -> Seq<(Seq<char>, Seq<char>)>
    decreases n,
{
    if n <= 0 {
        seq![]
    } else {
        header_fields(lines, n - 1).push(field_of(lines[n - 1])->Some_0)
    }
}

/// The value of the last field named `key`.
pub open spec fn lookup(fields: Seq<(Seq<char>, Seq<char>)>, key: Seq<char>) -> Option<Seq<char>>
    decreases fields.len(),
{
    if fields.len() == 0 {
        None
    } else if fields.last().0 == key {
        Some(fields.last().1)
    } else {
        lookup(fields.drop_last(), key)
    }
}

/// The header fields of `lines`, or the first error.
pub open spec fn header_of(lines: Seq<Seq<char>>) -> Result<Seq<(Seq<char>, Seq<char>)>, (int, Seq<char>)> {
    let h = header_end(lines, 0);
    if h >= lines.len() {
        Err((lines.len() as int, "Map separator not found"@))
    } else if lines[h] != "---"@ {
        Err((h + 1, "Invalid field format"@))
    } else {
        Ok(header_fields(lines, h))
    }
}

pub open spec fn field_texts(fields: Seq<(String, String)>) -> Seq<(Seq<char>, Seq<char>)> {
    fields.map_values(|f: (String, String)| (f.0@, f.1@))
}

/// Reads the header fields up to the separator line, leaving in `*line_number`
/// the number of the last line read.
fn load_fields(lines: &Vec<String>, line_number: &mut u32) -> (r: Result<Vec<(String, String)>, ParseError>)
    requires
        *old(line_number) == 0,
        lines@.len() < u32::MAX,
    ensures
        match header_of(texts(lines@)) {
            Ok(fs) => r matches Ok(v) && field_texts(v@) == fs && *final(line_number) == header_end(
                texts(lines@),
                0,
            ) + 1,
            Err(e) => r matches Err(err) && format_error(err, e.0, e.1),
        },
{
    let ghost lv = texts(lines@);
    let separator = String::from_str("---");
    let mut fields: Vec<(String, String)> = Vec::new();
    while (*line_number as usize) < lines.len()
        invariant
            *line_number <= lines@.len() < u32::MAX,
            lv == texts(lines@),
            separator@ == "---"@,
            header_end(lv, 0) == header_end(lv, *line_number as int),
            field_texts(fields@) == header_fields(lv, *line_number as int),
        decreases lines@.len() - *line_number,
    {
        let li = *line_number as usize;
        *line_number = *line_number + 1;
        let line = &lines[li];
        assert(line@ == lv[li as int]);
        if *line == separator {
            return Ok(fields);
        }
        match parse_field(line.clone(), line_number) {
            Ok(field) => {
                let ghost before = fields@;
                fields.push(field);
                assert(field_texts(fields@) =~= field_texts(before).push((field.0@, field.1@)));
            },
            Err(e) => {
                return Err(e);
            },
        }
    }
    Err(invalid_format(*line_number, "Map separator not found"))
}

/// The value of the last field named `key`.
fn find_field<'a>(fields: &'a Vec<(String, String)>, key: &String) -> (r: Option<&'a String>)
    ensures
        match lookup(field_texts(fields@), key@) {
            Some(v) => r matches Some(s) && s@ == v,
            None => r is None,
        },
{
    let ghost fv = field_texts(fields@);
    let mut i = fields.len();
    assert(fv.subrange(0, i as int) =~= fv);
    while i > 0
        invariant
            i <= fields@.len(),
            fv == field_texts(fields@),
            lookup(fv, key@) == lookup(fv.subrange(0, i as int), key@),
        decreases i,
    {
        let ghost prefix = fv.subrange(0, i as int);
        assert(prefix.drop_last() =~= fv.subrange(0, i - 1));
        i = i - 1;
        if fields[i].0 == *key {
            return Some(&fields[i].1);
        }
    }
    None
}

/// What a map's text gives: its name, width, height and tiles, or the first
/// error as a line number and a message.
pub open spec fn parse_spec(lines: Seq<Seq<char>>) -> Result<(Seq<char>, nat, nat, Seq<u8>), (int, Seq<char>)> {
    match header_of(lines) {
        Err(e) => Err(e),
        Ok(fs) => {
            let end = header_end(lines, 0) + 1;
            match (lookup(fs, "name"@), lookup(fs, "size"@)) {
                (None, _) => Err((end, "Missing name field"@)),
                (Some(_), None) => Err((end, "Missing size field"@)),
                (Some(name), Some(size)) => match size_of(size) {
                    None => Err((end, "Invalid size format"@)),
                    Some(wh) => match tiles_of(lines, end, wh.0 * wh.1) {
                        Err(e) => Err(e),
                        Ok(ts) => Ok((name, wh.0, wh.1, ts)),
                    },
                },
            }
        },
    }
}

/// The header of `lines` names the map and gives a valid size; the result is
/// the size and the index of the first body line.
pub open spec fn valid_header(lines: Seq<Seq<char>>) -> Option<((nat, nat), int)> {
    match header_of(lines) {
        Ok(fs) => match (lookup(fs, "name"@), lookup(fs, "size"@)) {
            (Some(_), Some(size)) => match size_of(size) {
                Some(wh) => Some((wh, header_end(lines, 0) + 1)),
                None => None,
            },
            _ => None,
        },
        Err(_) => None,
    }
}

/// A text with a valid header whose body reads as exactly `width * height`
/// tiles parses; the map's tile in column `x` and row `y` is the tile read at
/// row-major position `y * width + x`.
pub proof fn lemma_round_trip(lines: Seq<Seq<char>>, ts: Seq<u8>, tile_size: nat)
    requires
        valid_header(lines) matches Some(h) && read_body(lines, h.1, lines.len() as int, h.0.0 * h.0.1)
            == Ok::<Seq<u8>, (int, Seq<char>)>(ts) && ts.len() == h.0.0 * h.0.1,
    ensures
        parse_spec(lines) matches Ok(p) && p.3 == ts && ({
            let m = MapModel { name: p.0, width: p.1, height: p.2, tiles: p.3, x: 0, y: 0, tile_size };
            forall|x: int, y: int| #![auto] m.inside(x, y) ==> m.tile(x, y) == ts[y * p.1 + x]
        }),
{
}

/// A text with a valid header whose body reads as fewer than `width * height`
/// tiles fails at its last line, citing how many tiles were expected and found.
pub proof fn lemma_short_body(lines: Seq<Seq<char>>, ts: Seq<u8>)
    requires
        valid_header(lines) matches Some(h) && read_body(lines, h.1, lines.len() as int, h.0.0 * h.0.1)
            == Ok::<Seq<u8>, (int, Seq<char>)>(ts) && ts.len() < h.0.0 * h.0.1,
    ensures
        valid_header(lines) matches Some(h) && parse_spec(lines) == Err::<(Seq<char>, nat, nat, Seq<u8>), (int, Seq<char>)>(
            (lines.len() as int, not_enough_message(h.0.0 * h.0.1, ts.len())),
        ),
{
}

/// An error met while reading the body up to some line, such as a token beyond
/// the `width * height` allowed (`Too many tiles` at that token's line), is the
/// error the whole text gives: the lines after it do not change it.
pub proof fn lemma_first_error_reported(lines: Seq<Seq<char>>, i: int, e: (int, Seq<char>))
    requires
        valid_header(lines) matches Some(h) && h.1 <= i <= lines.len() && read_body(lines, h.1, i, h.0.0 * h.0.1)
            == Err::<Seq<u8>, (int, Seq<char>)>(e),
    ensures
        parse_spec(lines) == Err::<(Seq<char>, nat, nat, Seq<u8>), (int, Seq<char>)>(e),
{
    let h = valid_header(lines)->Some_0;
    lemma_body_stays_failed(lines, h.1, i, lines.len() as int, h.0.0 * h.0.1);
}

proof fn lemma_digit_char(k: nat)
    requires
        k < 10,
    ensures
        digit_char(k) as u32 == 0x30 + k,
{
}

proof fn lemma_decimal_digits(v: nat)
    ensures
        decimal(v).len() > 0,
        forall|i: int| 0 <= i < decimal(v).len() ==> is_digit(#[trigger] decimal(v)[i]),
        number(decimal(v)) == v,
    decreases v,
{
    lemma_digit_char(v % 10);
    let d = decimal(v);
    assert(number(d) == number(d.drop_last()) * 10 + (d.last() as u32 - 0x30) as nat);
    assert(d.last() == digit_char(v % 10));
    if v < 10 {
        assert(d.drop_last() =~= seq![]);
        assert(number(d.drop_last()) == 0);
    } else {
        lemma_decimal_digits(v / 10);
        assert(d.drop_last() =~= decimal(v / 10));
        assert forall|i: int| 0 <= i < d.len() implies is_digit(#[trigger] d[i]) by {
            if i < d.len() - 1 {
                assert(d[i] == decimal(v / 10)[i]);
            }
        }
    }
}

/// Reading a prefix of a line looks at that prefix only.
proof fn lemma_scan_prefix(st: TileRead, s: Seq<char>, t: Seq<char>, n: nat, line: int, expected: nat)
    requires
        n <= s.len(),
        n <= t.len(),
        s.subrange(0, n as int) == t.subrange(0, n as int),
    ensures
        scan_line(st, s, n, line, expected) == scan_line(st, t, n, line, expected),
        0 <= scan_line(st, s, n, line, expected).1 <= n,
    decreases n,
{
    if n > 0 {
        assert(s[n - 1] == s.subrange(0, n as int)[n - 1]);
        assert(t[n - 1] == t.subrange(0, n as int)[n - 1]);
        assert(s.subrange(0, n - 1) =~= s.subrange(0, n as int).subrange(0, n - 1));
        assert(t.subrange(0, n - 1) =~= t.subrange(0, n as int).subrange(0, n - 1));
        lemma_scan_prefix(st, s, t, (n - 1) as nat, line, expected);
        let p = scan_line(st, s, (n - 1) as nat, line, expected);
        if p.1 < n - 1 {
            assert(s.subrange(p.1, n - 1) =~= s.subrange(0, n as int).subrange(p.1, n - 1));
            assert(t.subrange(p.1, n - 1) =~= t.subrange(0, n as int).subrange(p.1, n - 1));
        }
    }
}

/// Reading characters that are not white space only extends the open token.
proof fn lemma_scan_in_token(st: TileRead, s: Seq<char>, a: nat, j: nat, line: int, expected: nat)
    requires
        a + j <= s.len(),
        scan_line(st, s, a, line, expected).1 == a,
        forall|i: int| a <= i < a + j ==> !is_space(#[trigger] s[i]),
    ensures
        scan_line(st, s, a + j, line, expected) == scan_line(st, s, a, line, expected),
    decreases j,
{
    if j > 0 {
        lemma_scan_in_token(st, s, a, (j - 1) as nat, line, expected);
        assert(!is_space(s[a + j - 1]));
    }
}

/// The first `n` tiles of row `y`, written as `row_text` writes them, read back
/// as those tiles after the tiles `pre` already read.
#[verifier::rlimit(50)]
proof fn lemma_read_row_prefix(m: MapModel, y: int, n: int, pre: Seq<u8>, line: int, expected: nat)
    requires
        0 <= y < m.height,
        0 <= n <= m.width,
        m.tiles.len() == m.width * m.height,
        pre.len() + n <= expected,
    ensures
        ({
            let r = row_text(m, y, n);
            scan_line(Ok(pre), r, r.len(), line, expected) == (
                Ok::<Seq<u8>, (int, Seq<char>)>(pre + m.tiles.subrange(y * m.width, y * m.width + n)),
                r.len() as int,
            )
        }),
    decreases n,
{
    assert(0 <= y * m.width <= m.width * m.height - m.width) by (nonlinear_arith)
        requires
            0 <= y < m.height,
    ;
    if n == 0 {
        assert(pre + m.tiles.subrange(y * m.width, y * m.width) =~= pre);
    } else {
        crate::map::lemma_index_in_grid(m.width, m.height, n - 1, y);
        lemma_read_row_prefix(m, y, n - 1, pre, line, expected);
        let prev = row_text(m, y, n - 1);
        let v = m.tile(n - 1, y);
        let d = decimal(v as nat);
        let r = row_text(m, y, n);
        assert(r == prev + d + " "@);
        lemma_decimal_digits(v as nat);
        let a = prev.len();
        let got = pre + m.tiles.subrange(y * m.width, y * m.width + n - 1);
        assert(r.subrange(0, a as int) =~= prev.subrange(0, a as int));
        lemma_scan_prefix(Ok(pre), r, prev, a, line, expected);
        assert(prev.subrange(0, a as int) =~= prev);
        assert forall|i: int| a <= i < a + d.len() implies !is_space(#[trigger] r[i]) by {
            assert(r[i] == d[i - a]);
            assert(is_digit(d[i - a]));
        }
        lemma_scan_in_token(Ok(pre), r, a, d.len(), line, expected);
        reveal_strlit(" ");
        assert(r.len() == a + d.len() + 1);
        assert(r[r.len() - 1] == ' ');
        assert(r.subrange(a as int, (a + d.len()) as int) =~= d);
        assert(tile_of(d) == Some(v as nat));
        assert(got.len() < expected);
        assert(got.push(v) =~= pre + m.tiles.subrange(y * m.width, y * m.width + n));
    }
}

/// Rows written as `row_text` writes them read back as the grid's tiles: the
/// lines from index `start` on, one per row, give all `width * height` tiles in
/// row-major order.
proof fn lemma_read_rows(lines: Seq<Seq<char>>, start: int, m: MapModel, y: int)
    requires
        0 <= start,
        0 <= y <= m.height,
        start + m.height <= lines.len(),
        m.tiles.len() == m.width * m.height,
        forall|r: int| 0 <= r < m.height ==> #[trigger] lines[start + r] == row_text(m, r, m.width as int),
    ensures
        read_body(lines, start, start + y, m.width * m.height) == Ok::<Seq<u8>, (int, Seq<char>)>(
            m.tiles.subrange(0, y * m.width),
        ),
    decreases y,
{
    let w = m.width as int;
    if y == 0 {
        assert(m.tiles.subrange(0, 0) =~= seq![]);
    } else {
        lemma_read_rows(lines, start, m, y - 1);
        assert((y - 1) * w + w == y * w) by (nonlinear_arith);
        assert(0 <= (y - 1) * w && y * w <= w * m.height) by (nonlinear_arith)
            requires
                1 <= y <= m.height,
                w >= 0,
        ;
        let pre = m.tiles.subrange(0, (y - 1) * w);
        let expected = m.width * m.height;
        lemma_read_row_prefix(m, y - 1, w, pre, start + y, expected);
        let row = row_text(m, y - 1, w);
        assert(lines[start + (y - 1)] == row);
        let full = pre + m.tiles.subrange((y - 1) * w, (y - 1) * w + w);
        assert(scan_line(Ok(pre), row, row.len(), start + y, expected) == (
            Ok::<Seq<u8>, (int, Seq<char>)>(full),
            row.len() as int,
        ));
        assert(read_line(Ok(pre), row, start + y, expected) == Ok::<Seq<u8>, (int, Seq<char>)>(full));
        assert(read_body(lines, start, start + y, expected) == read_line(
            read_body(lines, start, start + y - 1, expected),
            lines[start + y - 1],
            start + y,
            expected,
        ));
        assert(full =~= m.tiles.subrange(0, y * w));
    }
}

/// A text with a valid header whose body is the grid of a map written row by
/// row as `row_text` writes it parses to that map's size and tiles.
pub proof fn lemma_rows_round_trip(lines: Seq<Seq<char>>, m: MapModel)
    requires
        valid_header(lines) matches Some(hd) && hd.0 == (m.width, m.height) && lines.len() == hd.1
            + m.height,
        m.tiles.len() == m.width * m.height,
        forall|r: int|
            0 <= r < m.height ==> #[trigger] lines[lines.len() - m.height + r] == row_text(
                m,
                r,
                m.width as int,
            ),
    ensures
        parse_spec(lines) matches Ok(p) && p.1 == m.width && p.2 == m.height && p.3 == m.tiles,
{
    let start = lines.len() - m.height;
    assert forall|r: int| 0 <= r < m.height implies #[trigger] lines[start + r] == row_text(
        m,
        r,
        m.width as int,
    ) by {
        assert(lines[lines.len() - m.height + r] == row_text(m, r, m.width as int));
    }
    lemma_read_rows(lines, start, m, m.height as int);
    assert(m.tiles.subrange(0, (m.height * m.width) as int) =~= m.tiles) by {
        assert(m.height * m.width == m.width * m.height) by (nonlinear_arith);
    }
}

impl TileMap {
    /// Reads a map from the lines of its text: header fields up to a `---`
    /// line, `name` and `size` among them, then the tiles.
    pub fn parse(lines: &Vec<String>, tile_size: u32) -> (r: Result<TileMap, ParseError>)
        requires
            lines@.len() < u32::MAX,
        ensures
            match parse_spec(texts(lines@)) {
                Ok(p) => r matches Ok(m) && m.wf() && m@ == (MapModel {
                    name: p.0,
                    width: p.1,
                    height: p.2,
                    tiles: p.3,
                    x: 0,
                    y: 0,
                    tile_size: tile_size as nat,
                }),
                Err(e) => r matches Err(err) && format_error(err, e.0, e.1),
            },
    {
        let mut line: u32 = 0;
        let fields = match load_fields(lines, &mut line) {
            Ok(f) => f,
            Err(e) => return Err(e),
        };
        let name_key = String::from_str("name");
        let size_key = String::from_str("size");
        let name = match find_field(&fields, &name_key) {
            Some(n) => n.clone(),
            None => return Err(invalid_format(line, "Missing name field")),
        };
        let size = match find_field(&fields, &size_key) {
            Some(s) => s,
            None => return Err(invalid_format(line, "Missing size field")),
        };
        let (width, height) = match parse_size(size.as_str(), &line) {
            Ok(wh) => wh,
            Err(e) => return Err(e),
        };
        let tiles = match parse_tiles(lines, &mut line, &width, &height) {
            Ok(t) => t,
            Err(e) => return Err(e),
        };
        Ok(TileMap::new(name, width, height, tile_size, tiles))
    }
}

} // verus!
