//! The record file format: one JSON object per line, one line per
//! interval, with the fields `window_name`, `process_name`, `start`
//! (seconds since the epoch), `duration` (seconds) and `afk` (absent in
//! old files, in which case it defaults to `false`).
//!
//! Both directions are defined here over plain character sequences: a
//! writer that produces exactly [`record_line`], and a reader that accepts
//! what the writer produces (fields in that order, strings with the JSON
//! escapes the writer may emit) and treats anything else as a corrupt
//! line.  Corrupt lines are skipped, never fatal: a torn trailing write
//! must not lose the well-formed prefix of a day's history.

use vstd::prelude::*;

use crate::interval::{Interval, IntervalModel, MAX_INSTANT};

verus! {

/// Hexadecimal digit for a value below 16, lower case.
pub open spec fn hex_digit(n: int) -> char {
    if n == 0 { '0' } else if n == 1 { '1' } else if n == 2 { '2' } else if n == 3 { '3' }
    else if n == 4 { '4' } else if n == 5 { '5' } else if n == 6 { '6' } else if n == 7 { '7' }
    else if n == 8 { '8' } else if n == 9 { '9' } else if n == 10 { 'a' } else if n == 11 { 'b' }
    else if n == 12 { 'c' } else if n == 13 { 'd' } else if n == 14 { 'e' } else { 'f' }
}

/// How one character appears inside a JSON string: quotes and backslashes
/// are escaped, control characters with a short escape use it, the other
/// control characters use a `\u00XX` escape, everything else stands as is.
pub open spec fn escape_char(c: char) -> Seq<char> {
    if c == '"' {
        seq!['\\', '"']
    } else if c == '\\' {
        seq!['\\', '\\']
    } else if c == '\u{8}' {
        seq!['\\', 'b']
    } else if c == '\t' {
        seq!['\\', 't']
    } else if c == '\n' {
        seq!['\\', 'n']
    } else if c == '\u{c}' {
        seq!['\\', 'f']
    } else if c == '\r' {
        seq!['\\', 'r']
    } else if '\u{0}' <= c && '\u{20}' > c {
        seq!['\\', 'u', '0', '0', hex_digit((c as int) / 16), hex_digit((c as int) % 16)]
    } else {
        seq![c]
    }
}

/// A whole string escaped character by character.
pub open spec fn escape_string(s: Seq<char>) -> Seq<char>
    decreases s.len(),
{
    if s.len() == 0 {
        Seq::empty()
    } else {
        escape_char(s[0]) + escape_string(s.drop_first())
    }
}

/// Decimal digits of a non-negative number, most significant first.
pub open spec fn dec_digits(n: int) -> Seq<char>
    decreases n,
{
    if n < 10 {
        seq![hex_digit(if n >= 0 { n } else { 0 })]
    } else {
        dec_digits(n / 10).push(hex_digit(n % 10))
    }
}

/// Decimal literal of a number, with a sign when negative.
pub open spec fn int_literal(n: int) -> Seq<char> {
    if n < 0 {
        seq!['-'] + dec_digits(-n)
    } else {
        dec_digits(n)
    }
}

/// The exact line the writer produces for one interval.
pub open spec fn record_line(m: IntervalModel) -> Seq<char> {
    "{\"window_name\":\""@ + escape_string(m.window_name) + "\",\"process_name\":\""@
        + escape_string(m.process_name) + "\",\"start\":"@ + int_literal(m.start)
        + ",\"duration\":"@ + int_literal(m.duration) + ",\"afk\":"@ + (if m.afk {
        "true"@
    } else {
        "false"@
    }) + "}"@
}

/// The characters of a string slice as a vector.
pub(crate) fn chars_vec(s: &str) -> (r: Vec<char>)
    ensures
        r@ == s@,
{
    let n = s.unicode_len();
    let mut r: Vec<char> = Vec::new();
    let mut i: usize = 0;
    while i < n
        invariant
            n == s@.len(),
            0 <= i <= n,
            r@ == s@.take(i as int),
        decreases n - i,
    {
        r.push(s.get_char(i));
        proof {
            assert(s@.take(i + 1) =~= s@.take(i as int).push(s@[i as int]));
        }
        i = i + 1;
    }
    proof {
        assert(s@.take(n as int) =~= s@);
    }
    r
}

/// Appends every character of `s` to `out`.
fn push_chars_of(out: &mut Vec<char>, s: &str)
    ensures
        final(out)@ == old(out)@ + s@,
{
    let ghost start = out@;
    let cs = chars_vec(s);
    let n = cs.len();
    let mut i: usize = 0;
    while i < n
        invariant
            n == cs@.len(),
            cs@ == s@,
            0 <= i <= n,
            out@ == start + s@.take(i as int),
        decreases n - i,
    {
        out.push(cs[i]);
        proof {
            assert(start + s@.take(i + 1) =~= (start + s@.take(i as int)).push(s@[i as int]));
        }
        i = i + 1;
    }
    proof {
        assert(s@.take(n as int) =~= s@);
    }
}

/// [`escape_string`] distributes over concatenation.
proof fn lemma_escape_string_concat(a: Seq<char>, b: Seq<char>)
    ensures
        escape_string(a + b) == escape_string(a) + escape_string(b),
    decreases a.len(),
{
    if a.len() == 0 {
        assert(a + b =~= b);
        assert(escape_string(a) =~= Seq::<char>::empty());
        assert(escape_string(a) + escape_string(b) =~= escape_string(b));
    } else {
        assert((a + b).drop_first() =~= a.drop_first() + b);
        lemma_escape_string_concat(a.drop_first(), b);
        assert((a + b)[0] == a[0]);
        assert(escape_char(a[0]) + (escape_string(a.drop_first()) + escape_string(b))
            =~= (escape_char(a[0]) + escape_string(a.drop_first())) + escape_string(b));
    }
}

/// Lower-case hexadecimal digit character of a value below 16.
fn hex_digit_char(n: u32) -> (r: char)
    requires
        n < 16,
    ensures
        r == hex_digit(n as int),
{
    match n {
        0 => '0',
        1 => '1',
        2 => '2',
        3 => '3',
        4 => '4',
        5 => '5',
        6 => '6',
        7 => '7',
        8 => '8',
        9 => '9',
        10 => 'a',
        11 => 'b',
        12 => 'c',
        13 => 'd',
        14 => 'e',
        _ => 'f',
    }
}

/// The code of a control character.
fn code_of_control(c: char) -> (r: u32)
    requires
        '\u{0}' <= c,
        '\u{20}' > c,
    ensures
        r as int == c as int,
        r < 0x20,
{
    match c {
        '\u{0}' => 0,
        '\u{1}' => 1,
        '\u{2}' => 2,
        '\u{3}' => 3,
        '\u{4}' => 4,
        '\u{5}' => 5,
        '\u{6}' => 6,
        '\u{7}' => 7,
        '\u{8}' => 8,
        '\u{9}' => 9,
        '\u{a}' => 10,
        '\u{b}' => 11,
        '\u{c}' => 12,
        '\u{d}' => 13,
        '\u{e}' => 14,
        '\u{f}' => 15,
        '\u{10}' => 16,
        '\u{11}' => 17,
        '\u{12}' => 18,
        '\u{13}' => 19,
        '\u{14}' => 20,
        '\u{15}' => 21,
        '\u{16}' => 22,
        '\u{17}' => 23,
        '\u{18}' => 24,
        '\u{19}' => 25,
        '\u{1a}' => 26,
        '\u{1b}' => 27,
        '\u{1c}' => 28,
        '\u{1d}' => 29,
        '\u{1e}' => 30,
        _ => 31,
    }
}

/// Appends the escaped form of every character of `s` to `out`.
fn push_escaped(out: &mut Vec<char>, s: &str)
    ensures
        final(out)@ == old(out)@ + escape_string(s@),
{
    let ghost start = out@;
    let cs = chars_vec(s);
    let n = cs.len();
    let mut i: usize = 0;
    while i < n
        invariant
            n == cs@.len(),
            cs@ == s@,
            0 <= i <= n,
            out@ == start + escape_string(s@.take(i as int)),
        decreases n - i,
    {
        let c = cs[i];
        proof {
            assert(s@.take(i + 1) =~= s@.take(i as int) + seq![s@[i as int]]);
            lemma_escape_string_concat(s@.take(i as int), seq![s@[i as int]]);
            assert(seq![s@[i as int]].len() == 1 && seq![s@[i as int]][0] == s@[i as int]);
            assert(escape_string(seq![s@[i as int]]) == escape_char(s@[i as int]) + escape_string(
                seq![s@[i as int]].drop_first(),
            ));
            assert(seq![s@[i as int]].drop_first() =~= Seq::<char>::empty());
            assert(escape_string(seq![s@[i as int]]) =~= escape_char(c));
        }
        {
            if c == '"' {
                    out.push('\\');
                    out.push('"');
                } else if c == '\\' {
                    out.push('\\');
                    out.push('\\');
                } else if c == '\u{8}' {
                    out.push('\\');
                    out.push('b');
                } else if c == '\t' {
                    out.push('\\');
                    out.push('t');
                } else if c == '\n' {
                    out.push('\\');
                    out.push('n');
                } else if c == '\u{c}' {
                    out.push('\\');
                    out.push('f');
                } else if c == '\r' {
                    out.push('\\');
                    out.push('r');
                } else if '\u{0}' <= c && '\u{20}' > c {
                    let code = code_of_control(c);
                    out.push('\\');
                    out.push('u');
                    out.push('0');
                    out.push('0');
                    out.push(hex_digit_char(code / 16));
                    out.push(hex_digit_char(code % 16));
                } else {
                    out.push(c);
                }
        }
        proof {
            assert(out@ =~= start + escape_string(s@.take(i + 1)));
        }
        i = i + 1;
    }
    proof {
        assert(s@.take(n as int) =~= s@);
    }
}

/// Appends the decimal digits of `n` to `out`, most significant first.
fn push_u64_digits(out: &mut Vec<char>, n: u64)
    ensures
        final(out)@ == old(out)@ + dec_digits(n as int),
    decreases n,
{
    if n < 10 {
        out.push(hex_digit_char(n as u32));
    } else {
        push_u64_digits(out, n / 10);
        out.push(hex_digit_char((n % 10) as u32));
    }
}

/// Appends the decimal literal of `n` to `out`, with a sign when negative.
fn push_i64(out: &mut Vec<char>, n: i64)
    requires
        n != i64::MIN,
    ensures
        final(out)@ == old(out)@ + int_literal(n as int),
{
    if n < 0 {
        out.push('-');
        push_u64_digits(out, (-n) as u64);
    } else {
        push_u64_digits(out, n as u64);
    }
}

/// Serializes one interval as the record file line the format defines,
/// without a line terminator.
pub fn serialize_record(i: &Interval) -> (r: Vec<char>)
    requires
        i@.wf(),
    ensures
        r@ == record_line(i@),
{
    let mut out: Vec<char> = Vec::new();
    push_chars_of(&mut out, "{\"window_name\":\"");
    push_escaped(&mut out, self_str(&i.window_name));
    push_chars_of(&mut out, "\",\"process_name\":\"");
    push_escaped(&mut out, self_str(&i.process_name));
    push_chars_of(&mut out, "\",\"start\":");
    push_i64(&mut out, i.start);
    push_chars_of(&mut out, ",\"duration\":");
    push_i64(&mut out, i.duration);
    push_chars_of(&mut out, ",\"afk\":");
    if i.afk {
        push_chars_of(&mut out, "true");
    } else {
        push_chars_of(&mut out, "false");
    }
    push_chars_of(&mut out, "}");
    proof {
        assert(out@ =~= record_line(i@));
    }
    out
}

/// View of a `String` as a string slice.
fn self_str(s: &String) -> (r: &str)
    ensures
        r@ == s@,
{
    s.as_str()
}

/// Relies on `String::from_iter` over `char`s: the returned string holds
/// exactly the characters of `v`, in order.
#[verifier::external_body]
pub(crate) fn string_of_chars(v: Vec<char>) -> (r: String)
    ensures
        r@ == v@,
{
    v.into_iter().collect()
}

/// A decimal digit character.
pub open spec fn is_digit(c: char) -> bool {
    '0' <= c && c <= '9'
}

/// Numeric value of a decimal digit character.
pub open spec fn digit_of(c: char) -> int {
    c as int - '0' as int
}

/// Value of a hexadecimal digit character, if it is one.
pub open spec fn hex_val(c: char) -> Option<int> {
    if '0' <= c && c <= '9' {
        Some(c as int - '0' as int)
    } else if 'a' <= c && c <= 'f' {
        Some(c as int - 'a' as int + 10)
    } else if 'A' <= c && c <= 'F' {
        Some(c as int - 'A' as int + 10)
    } else {
        None
    }
}

/// The control character with the given code.
pub open spec fn control_char_of(code: int) -> char {
    if code == 0 {
        '\u{0}'
    } else if code == 1 {
        '\u{1}'
    } else if code == 2 {
        '\u{2}'
    } else if code == 3 {
        '\u{3}'
    } else if code == 4 {
        '\u{4}'
    } else if code == 5 {
        '\u{5}'
    } else if code == 6 {
        '\u{6}'
    } else if code == 7 {
        '\u{7}'
    } else if code == 8 {
        '\u{8}'
    } else if code == 9 {
        '\u{9}'
    } else if code == 10 {
        '\u{a}'
    } else if code == 11 {
        '\u{b}'
    } else if code == 12 {
        '\u{c}'
    } else if code == 13 {
        '\u{d}'
    } else if code == 14 {
        '\u{e}'
    } else if code == 15 {
        '\u{f}'
    } else if code == 16 {
        '\u{10}'
    } else if code == 17 {
        '\u{11}'
    } else if code == 18 {
        '\u{12}'
    } else if code == 19 {
        '\u{13}'
    } else if code == 20 {
        '\u{14}'
    } else if code == 21 {
        '\u{15}'
    } else if code == 22 {
        '\u{16}'
    } else if code == 23 {
        '\u{17}'
    } else if code == 24 {
        '\u{18}'
    } else if code == 25 {
        '\u{19}'
    } else if code == 26 {
        '\u{1a}'
    } else if code == 27 {
        '\u{1b}'
    } else if code == 28 {
        '\u{1c}'
    } else if code == 29 {
        '\u{1d}'
    } else if code == 30 {
        '\u{1e}'
    } else {
        '\u{1f}'
    }
}

/// The character a short JSON escape `\e` stands for, if `e` is one.
pub open spec fn unescape_short(e: char) -> Option<char> {
    if e == '"' {
        Some('"')
    } else if e == '\\' {
        Some('\\')
    } else if e == '/' {
        Some('/')
    } else if e == 'b' {
        Some('\u{8}')
    } else if e == 'f' {
        Some('\u{c}')
    } else if e == 'n' {
        Some('\n')
    } else if e == 'r' {
        Some('\r')
    } else if e == 't' {
        Some('\t')
    } else {
        None
    }
}

/// Matching `pat` at `pos`: the position after it, or none when it is not
/// there.
pub open spec fn spec_expect(s: Seq<char>, pos: int, pat: Seq<char>) -> Option<int> {
    if 0 <= pos && pos + pat.len() <= s.len() && s.subrange(pos, pos + pat.len()) == pat {
        Some(pos + pat.len())
    } else {
        None
    }
}

/// Prefixes every parsed string content with `prefix`.
pub open spec fn prepend_parsed(prefix: Seq<char>, r: Option<(Seq<char>, int)>) -> Option<
    (Seq<char>, int),
> {
    match r {
        None => None,
        Some((content, p)) => Some((prefix + content, p)),
    }
}

/// Parses the body of a JSON string starting at `pos` (after the opening
/// quote), up to and including the closing quote: the unescaped content
/// and the position after the quote.  Escapes are those the writer can
/// emit: the short ones plus `\u00XX` for control characters; any other
/// escape makes the line unreadable.
pub open spec fn spec_parse_string_body(s: Seq<char>, pos: int) -> Option<(Seq<char>, int)>
    decreases s.len() - pos,
{
    if pos < 0 || pos >= s.len() {
        None
    } else if s[pos] == '"' {
        Some((Seq::empty(), pos + 1))
    } else if s[pos] == '\\' {
        if pos + 1 >= s.len() {
            None
        } else if s[pos + 1] == 'u' {
            if pos + 6 > s.len() {
                None
            } else if hex_val(s[pos + 2]) is Some && hex_val(s[pos + 3]) is Some && hex_val(
                s[pos + 4],
            ) is Some && hex_val(s[pos + 5]) is Some {
                let code = hex_val(s[pos + 2]).unwrap() * 4096 + hex_val(s[pos + 3]).unwrap() * 256
                    + hex_val(s[pos + 4]).unwrap() * 16 + hex_val(s[pos + 5]).unwrap();
                if code < 0x20 {
                    prepend_parsed(seq![control_char_of(code)], spec_parse_string_body(s, pos + 6))
                } else {
                    None
                }
            } else {
                None
            }
        } else {
            match unescape_short(s[pos + 1]) {
                None => None,
                Some(c) => prepend_parsed(seq![c], spec_parse_string_body(s, pos + 2)),
            }
        }
    } else {
        prepend_parsed(seq![s[pos]], spec_parse_string_body(s, pos + 1))
    }
}

/// Number of consecutive decimal digits starting at `pos`.
pub open spec fn digit_run_len(s: Seq<char>, pos: int) -> int
    decreases s.len() - pos,
{
    if pos < 0 || pos >= s.len() || !is_digit(s[pos]) {
        0
    } else {
        1 + digit_run_len(s, pos + 1)
    }
}

/// Value of a sequence of decimal digit characters.
pub open spec fn digits_val(s: Seq<char>) -> int
    decreases s.len(),
{
    if s.len() == 0 {
        0
    } else {
        digits_val(s.drop_last()) * 10 + digit_of(s.last())
    }
}

/// Powers of ten.
pub open spec fn pow10(k: nat) -> int
    decreases k,
{
    if k == 0 {
        1
    } else {
        10 * pow10((k - 1) as nat)
    }
}

/// Parses the magnitude of an integer at `p`: a run of one to nineteen
/// digits whose value fits an `i64`.  Anything longer or larger makes the
/// line unreadable.
pub open spec fn spec_parse_mag(s: Seq<char>, p: int, neg: bool) -> Option<(int, int)> {
    let k = digit_run_len(s, p);
    if k == 0 || k > 19 {
        None
    } else {
        let mag = digits_val(s.subrange(p, p + k));
        if mag > i64::MAX {
            None
        } else {
            Some(((if neg { -mag } else { mag }), p + k))
        }
    }
}

/// Parses a decimal integer at `pos`, with an optional leading sign.
pub open spec fn spec_parse_int(s: Seq<char>, pos: int) -> Option<(int, int)> {
    if 0 <= pos < s.len() && s[pos] == '-' {
        spec_parse_mag(s, pos + 1, true)
    } else {
        spec_parse_mag(s, pos, false)
    }
}

/// Parses a JSON boolean at `pos`.
pub open spec fn spec_parse_bool(s: Seq<char>, pos: int) -> Option<(bool, int)> {
    if spec_expect(s, pos, "true"@) is Some {
        Some((true, pos + 4))
    } else if spec_expect(s, pos, "false"@) is Some {
        Some((false, pos + 5))
    } else {
        None
    }
}

/// Parses what may follow the `duration` field: either the closing brace
/// directly (old files without the `afk` field, which defaults to false)
/// or an `afk` field and then the closing brace, either way ending the
/// line.
pub open spec fn spec_parse_afk_tail(s: Seq<char>, pos: int) -> Option<bool> {
    if pos + 1 == s.len() && spec_expect(s, pos, "}"@) is Some {
        Some(false)
    } else {
        match spec_expect(s, pos, ",\"afk\":"@) {
            None => None,
            Some(p) => match spec_parse_bool(s, p) {
                None => None,
                Some((b, q)) => {
                    if q + 1 == s.len() && spec_expect(s, q, "}"@) is Some {
                        Some(b)
                    } else {
                        None
                    }
                },
            },
        }
    }
}

/// Matches `pat` at `pos` in `s`, returning the position after it.
fn expect_lit(s: &Vec<char>, pos: usize, pat: &str) -> (r: Option<usize>)
    requires
        pos <= s@.len(),
    ensures
        match r {
            Some(q) => spec_expect(s@, pos as int, pat@) == Some(q as int) && pos <= q <= s@.len(),
            None => spec_expect(s@, pos as int, pat@) is None,
        },
{
    let pv = chars_vec(pat);
    let k = pv.len();
    if k > s.len() - pos {
        return None;
    }
    let mut i: usize = 0;
    while i < k
        invariant
            k == pv@.len(),
            pv@ == pat@,
            pos + k <= s@.len(),
            s@.len() <= usize::MAX,
            0 <= i <= k,
            forall|j: int| 0 <= j < i ==> s@[pos + j] == pat@[j],
        decreases k - i,
    {
        if s[pos + i] != pv[i] {
            proof {
                assert(s@.subrange(pos as int, pos + k)[i as int] == s@[pos + i]);
            }
            return None;
        }
        i = i + 1;
    }
    proof {
        assert(s@.subrange(pos as int, pos + k) =~= pat@);
    }
    Some(pos + k)
}

/// Value of a decimal digit character, if it is one.
fn digit_val_char(c: char) -> (r: Option<u64>)
    ensures
        is_digit(c) <==> r is Some,
        r matches Some(v) ==> v as int == digit_of(c) && v < 10,
{
    if '0' <= c && c <= '9' {
        Some((c as u32 as u64) - ('0' as u32 as u64))
    } else {
        None
    }
}

/// Value of a hexadecimal digit character, if it is one.
fn hex_val_char(c: char) -> (r: Option<u32>)
    ensures
        r is Some <==> hex_val(c) is Some,
        r matches Some(v) ==> v as int == hex_val(c).unwrap() && v < 16,
{
    if '0' <= c && c <= '9' {
        Some((c as u32) - ('0' as u32))
    } else if 'a' <= c && c <= 'f' {
        Some((c as u32) - ('a' as u32) + 10)
    } else if 'A' <= c && c <= 'F' {
        Some((c as u32) - ('A' as u32) + 10)
    } else {
        None
    }
}

/// The control character with the given code, the executable counterpart
/// of [`control_char_of`].
fn control_char(code: u32) -> (r: char)
    requires
        code < 0x20,
    ensures
        r == control_char_of(code as int),
{
    match code {
        0 => '\u{0}',
        1 => '\u{1}',
        2 => '\u{2}',
        3 => '\u{3}',
        4 => '\u{4}',
        5 => '\u{5}',
        6 => '\u{6}',
        7 => '\u{7}',
        8 => '\u{8}',
        9 => '\u{9}',
        10 => '\u{a}',
        11 => '\u{b}',
        12 => '\u{c}',
        13 => '\u{d}',
        14 => '\u{e}',
        15 => '\u{f}',
        16 => '\u{10}',
        17 => '\u{11}',
        18 => '\u{12}',
        19 => '\u{13}',
        20 => '\u{14}',
        21 => '\u{15}',
        22 => '\u{16}',
        23 => '\u{17}',
        24 => '\u{18}',
        25 => '\u{19}',
        26 => '\u{1a}',
        27 => '\u{1b}',
        28 => '\u{1c}',
        29 => '\u{1d}',
        30 => '\u{1e}',
        _ => '\u{1f}',
    }
}

/// Parses the body of a JSON string starting at `pos`, the executable
/// counterpart of [`spec_parse_string_body`].
fn parse_string_body(s: &Vec<char>, pos0: usize) -> (r: Option<(Vec<char>, usize)>)
    requires
        pos0 <= s@.len(),
    ensures
        match r {
            Some((content, q)) => spec_parse_string_body(s@, pos0 as int) == Some(
                (content@, q as int),
            ) && pos0 <= q <= s@.len(),
            None => spec_parse_string_body(s@, pos0 as int) is None,
        },
{
    let n = s.len();
    let mut acc: Vec<char> = Vec::new();
    let mut pos: usize = pos0;
    loop
        invariant
            n == s@.len(),
            pos0 <= pos <= n,
            spec_parse_string_body(s@, pos0 as int) == prepend_parsed(
                acc@,
                spec_parse_string_body(s@, pos as int),
            ),
        decreases n - pos,
    {
        if pos >= n {
            return None;
        }
        let c = s[pos];
        if c == '"' {
            proof {
                assert(acc@ + Seq::<char>::empty() =~= acc@);
            }
            return Some((acc, pos + 1));
        }
        let ghost acc0 = acc@;
        if c == '\\' {
            if pos + 1 >= n {
                return None;
            }
            let e = s[pos + 1];
            if e == 'u' {
                if n - pos < 6 {
                    return None;
                }
                let h1 = hex_val_char(s[pos + 2]);
                let h2 = hex_val_char(s[pos + 3]);
                let h3 = hex_val_char(s[pos + 4]);
                let h4 = hex_val_char(s[pos + 5]);
                match (h1, h2, h3, h4) {
                    (Some(v1), Some(v2), Some(v3), Some(v4)) => {
                        let code = v1 * 4096 + v2 * 256 + v3 * 16 + v4;
                        if code >= 0x20 {
                            return None;
                        }
                        acc.push(control_char(code));
                        proof {
                            assert(acc@ =~= acc0 + seq![control_char_of(code as int)]);
                        }
                        pos = pos + 6;
                    },
                    _ => {
                        return None;
                    },
                }
            } else {
                match unescape_short_char(e) {
                    Some(u) => {
                        acc.push(u);
                        proof {
                            assert(acc@ =~= acc0 + seq![u]);
                        }
                        pos = pos + 2;
                    },
                    None => {
                        return None;
                    },
                }
            }
        } else {
            acc.push(c);
            proof {
                assert(acc@ =~= acc0 + seq![c]);
            }
            pos = pos + 1;
        }
        proof {
            lemma_prepend_parsed_assoc(acc0, s@, pos as int);
        }
    }
}

/// Associativity of prefixing onto a parse result.
proof fn lemma_prepend_parsed_assoc(prefix: Seq<char>, s: Seq<char>, pos: int)
    ensures
        forall|c: char|
            prepend_parsed(prefix, #[trigger] prepend_parsed(seq![c], spec_parse_string_body(s, pos)))
                == prepend_parsed(prefix + seq![c], spec_parse_string_body(s, pos)),
{
    assert forall|c: char|
        prepend_parsed(prefix, #[trigger] prepend_parsed(seq![c], spec_parse_string_body(s, pos)))
            == prepend_parsed(prefix + seq![c], spec_parse_string_body(s, pos)) by {
        match spec_parse_string_body(s, pos) {
            None => {},
            Some((content, p)) => {
                assert(prefix + (seq![c] + content) =~= (prefix + seq![c]) + content);
            },
        }
    }
}

/// The character a short JSON escape stands for, the executable
/// counterpart of [`unescape_short`].
fn unescape_short_char(e: char) -> (r: Option<char>)
    ensures
        r == unescape_short(e),
{
    if e == '"' {
        Some('"')
    } else if e == '\\' {
        Some('\\')
    } else if e == '/' {
        Some('/')
    } else if e == 'b' {
        Some('\u{8}')
    } else if e == 'f' {
        Some('\u{c}')
    } else if e == 'n' {
        Some('\n')
    } else if e == 'r' {
        Some('\r')
    } else if e == 't' {
        Some('\t')
    } else {
        None
    }
}

/// A digit run of `k` characters starting at `pos` determines
/// [`digit_run_len`].
proof fn lemma_digit_run_len_is(s: Seq<char>, pos: int, k: int)
    requires
        0 <= pos,
        pos + k <= s.len(),
        0 <= k,
        forall|j: int| pos <= j < pos + k ==> is_digit(#[trigger] s[j]),
        pos + k == s.len() || !is_digit(s[pos + k]),
    ensures
        digit_run_len(s, pos) == k,
    decreases k,
{
    if k == 0 {
    } else {
        lemma_digit_run_len_is(s, pos + 1, k - 1);
    }
}

/// The value of a digit sequence is bounded by the power of ten of its
/// length.
proof fn lemma_digits_val_bound(s: Seq<char>)
    requires
        forall|j: int| 0 <= j < s.len() ==> is_digit(#[trigger] s[j]),
    ensures
        0 <= digits_val(s) < pow10(s.len()),
    decreases s.len(),
{
    if s.len() == 0 {
    } else {
        assert(forall|j: int| 0 <= j < s.drop_last().len() ==> s.drop_last()[j] == s[j]);
        lemma_digits_val_bound(s.drop_last());
        assert(pow10(s.len()) == 10 * pow10((s.len() - 1) as nat));
    }
}

/// Parses a decimal integer at `pos`, the executable counterpart of
/// [`spec_parse_int`].
fn parse_int(s: &Vec<char>, pos: usize) -> (r: Option<(i64, usize)>)
    requires
        pos <= s@.len(),
    ensures
        match r {
            Some((v, q)) => spec_parse_int(s@, pos as int) == Some((v as int, q as int)) && pos <= q
                <= s@.len(),
            None => spec_parse_int(s@, pos as int) is None,
        },
{
    let n = s.len();
    let neg = pos < n && s[pos] == '-';
    let p = if neg {
        pos + 1
    } else {
        pos
    };
    let mut k: usize = 0;
    while p + k < n && matches!(digit_val_char(s[p + k]), Some(_))
        invariant
            n == s@.len(),
            p + k <= n,
            forall|j: int| p <= j < p + k ==> is_digit(#[trigger] s@[j]),
        decreases n - p - k,
    {
        k = k + 1;
    }
    proof {
        lemma_digit_run_len_is(s@, p as int, k as int);
    }
    if k == 0 || k > 19 {
        return None;
    }
    let ghost run = s@.subrange(p as int, p + k);
    let mut mag: u64 = 0;
    let mut i: usize = 0;
    while i < k
        invariant
            n == s@.len(),
            p + k <= n,
            0 <= i <= k <= 19,
            forall|j: int| p <= j < p + k ==> is_digit(#[trigger] s@[j]),
            run == s@.subrange(p as int, p + k),
            mag as int == digits_val(s@.subrange(p as int, p + i)),
            (mag as int) < pow10(i as nat),
        decreases k - i,
    {
        let d = match digit_val_char(s[p + i]) {
            Some(d) => d,
            None => {
                proof {
                    assert(is_digit(s@[p + i]));
                }
                return None;
            },
        };
        proof {
            assert(pow10((i + 1) as nat) == 10 * pow10(i as nat));
            assert(pow10(18) == 1_000_000_000_000_000_000) by {
                reveal_with_fuel(pow10, 20);
            }
            lemma_pow10_increases(i as nat, 18);
            assert(s@.subrange(p as int, p + i + 1).drop_last() =~= s@.subrange(p as int, p + i));
            assert(s@.subrange(p as int, p + i + 1).last() == s@[p + i]);
        }
        mag = mag * 10 + d;
        i = i + 1;
    }
    if mag > i64::MAX as u64 {
        return None;
    }
    let v: i64 = if neg {
        -(mag as i64)
    } else {
        mag as i64
    };
    Some((v, p + k))
}

/// Powers of ten are monotone in the exponent.
proof fn lemma_pow10_increases(a: nat, b: nat)
    requires
        a <= b,
    ensures
        pow10(a) <= pow10(b),
    decreases b,
{
    if a < b {
        lemma_pow10_increases(a, (b - 1) as nat);
        assert(pow10(b) == 10 * pow10((b - 1) as nat));
        assert(pow10((b - 1) as nat) >= 1) by {
            lemma_pow10_positive((b - 1) as nat);
        }
    }
}

/// Powers of ten are positive.
proof fn lemma_pow10_positive(k: nat)
    ensures
        pow10(k) >= 1,
    decreases k,
{
    if k > 0 {
        lemma_pow10_positive((k - 1) as nat);
    }
}

/// Parses a JSON boolean at `pos`, the executable counterpart of
/// [`spec_parse_bool`].
fn parse_bool(s: &Vec<char>, pos: usize) -> (r: Option<(bool, usize)>)
    requires
        pos <= s@.len(),
    ensures
        match r {
            Some((b, q)) => spec_parse_bool(s@, pos as int) == Some((b, q as int)) && pos <= q
                <= s@.len(),
            None => spec_parse_bool(s@, pos as int) is None,
        },
{
    proof {
        reveal_strlit("true");
        reveal_strlit("false");
    }
    if let Some(q) = expect_lit(s, pos, "true") {
        Some((true, q))
    } else if let Some(q) = expect_lit(s, pos, "false") {
        Some((false, q))
    } else {
        None
    }
}

/// Reads one record line: the interval it denotes, or none when the line
/// is not a well-formed record (so a torn or corrupted line is skipped,
/// never fatal).
pub open spec fn spec_parse_record(s: Seq<char>) -> Option<IntervalModel> {
    match spec_expect(s, 0, "{\"window_name\":\""@) {
        None => None,
        Some(p1) => match spec_parse_string_body(s, p1) {
            None => None,
            Some((window_name, p2)) => match spec_expect(s, p2, ",\"process_name\":\""@) {
                None => None,
                Some(p3) => match spec_parse_string_body(s, p3) {
                    None => None,
                    Some((process_name, p4)) => match spec_expect(s, p4, ",\"start\":"@) {
                        None => None,
                        Some(p5) => match spec_parse_int(s, p5) {
                            None => None,
                            Some((start, p6)) => match spec_expect(s, p6, ",\"duration\":"@) {
                                None => None,
                                Some(p7) => match spec_parse_int(s, p7) {
                                    None => None,
                                    Some((duration, p8)) => match spec_parse_afk_tail(s, p8) {
                                        None => None,
                                        Some(afk) => {
                                            let m = IntervalModel {
                                                window_name,
                                                process_name,
                                                start,
                                                duration,
                                                afk,
                                            };
                                            if m.wf() {
                                                Some(m)
                                            } else {
                                                None
                                            }
                                        },
                                    },
                                },
                            },
                        },
                    },
                },
            },
        },
    }
}

/// Parses the tail after the `duration` field, the executable counterpart
/// of [`spec_parse_afk_tail`].
fn parse_afk_tail(s: &Vec<char>, pos: usize) -> (r: Option<bool>)
    requires
        pos <= s@.len(),
    ensures
        r == spec_parse_afk_tail(s@, pos as int),
{
    proof {
        reveal_strlit("}");
    }
    if let Some(q) = expect_lit(s, pos, "}") {
        if q == s.len() {
            return Some(false);
        }
    }
    let p = match expect_lit(s, pos, ",\"afk\":") {
        Some(p) => p,
        None => {
            return None;
        },
    };
    let (b, q) = match parse_bool(s, p) {
        Some(x) => x,
        None => {
            return None;
        },
    };
    match expect_lit(s, q, "}") {
        Some(e) => {
            if e == s.len() {
                Some(b)
            } else {
                None
            }
        },
        None => None,
    }
}

/// Parses one record line, the executable counterpart of
/// [`spec_parse_record`]: the interval it denotes, or `None` for a corrupt
/// or torn line.
pub fn parse_record(line: &Vec<char>) -> (r: Option<Interval>)
    ensures
        r.deep_view() == spec_parse_record(line@),
        r matches Some(i) ==> i@.wf(),
{
    let p1 = match expect_lit(line, 0, "{\"window_name\":\"") {
        Some(p) => p,
        None => {
            return None;
        },
    };
    let (wchars, p2) = match parse_string_body(line, p1) {
        Some(x) => x,
        None => {
            return None;
        },
    };
    let p3 = match expect_lit(line, p2, ",\"process_name\":\"") {
        Some(p) => p,
        None => {
            return None;
        },
    };
    let (pchars, p4) = match parse_string_body(line, p3) {
        Some(x) => x,
        None => {
            return None;
        },
    };
    let p5 = match expect_lit(line, p4, ",\"start\":") {
        Some(p) => p,
        None => {
            return None;
        },
    };
    let (start, p6) = match parse_int(line, p5) {
        Some(x) => x,
        None => {
            return None;
        },
    };
    let p7 = match expect_lit(line, p6, ",\"duration\":") {
        Some(p) => p,
        None => {
            return None;
        },
    };
    let (duration, p8) = match parse_int(line, p7) {
        Some(x) => x,
        None => {
            return None;
        },
    };
    let afk = match parse_afk_tail(line, p8) {
        Some(b) => b,
        None => {
            return None;
        },
    };
    if duration < 0 || start < -MAX_INSTANT || start > MAX_INSTANT - duration {
        return None;
    }
    Some(
        Interval {
            window_name: string_of_chars(wchars),
            process_name: string_of_chars(pchars),
            start,
            duration,
            afk,
        },
    )
}

/// Index of the first line feed, or the length when there is none.
pub open spec fn first_newline(s: Seq<char>) -> nat
    decreases s.len(),
{
    if s.len() == 0 {
        0
    } else if s[0] == '\n' {
        0
    } else {
        1 + first_newline(s.drop_first())
    }
}

/// A line with a trailing carriage return loses it (so files with either
/// line ending read the same).
pub open spec fn strip_cr(l: Seq<char>) -> Seq<char> {
    if l.len() > 0 && l.last() == '\r' {
        l.drop_last()
    } else {
        l
    }
}

/// The lines of a text, split on line feeds; a final line without a
/// terminator still counts, a trailing terminator adds none.
pub open spec fn split_lines(s: Seq<char>) -> Seq<Seq<char>>
    decreases s.len(),
{
    if s.len() == 0 {
        Seq::empty()
    } else {
        let i = first_newline(s);
        if i >= s.len() {
            seq![strip_cr(s)]
        } else {
            seq![strip_cr(s.take(i as int))] + split_lines(s.skip(i + 1 as int))
        }
    }
}

/// The intervals denoted by a sequence of lines, in order; lines that are
/// not well-formed records contribute nothing.
pub open spec fn parse_lines(lines: Seq<Seq<char>>) -> Seq<IntervalModel>
    decreases lines.len(),
{
    if lines.len() == 0 {
        Seq::empty()
    } else {
        match spec_parse_record(lines[0]) {
            Some(m) => seq![m] + parse_lines(lines.drop_first()),
            None => parse_lines(lines.drop_first()),
        }
    }
}

/// A corrupt trailing line never costs the well-formed records before it:
/// reading skips it and returns exactly what the other lines denote.
pub proof fn lemma_corrupt_trailing_line(lines: Seq<Seq<char>>, bad: Seq<char>)
    requires
        spec_parse_record(bad) is None,
    ensures
        parse_lines(lines.push(bad)) == parse_lines(lines),
    decreases lines.len(),
{
    let whole = lines.push(bad);
    if lines.len() == 0 {
        assert(whole[0] == bad);
        assert(whole.drop_first() =~= lines);
        assert(parse_lines(whole) == parse_lines(whole.drop_first()));
    } else {
        assert(whole[0] == lines[0]);
        assert(whole.drop_first() =~= lines.drop_first().push(bad));
        lemma_corrupt_trailing_line(lines.drop_first(), bad);
    }
}

/// A prefix of non-newline characters followed by a newline or the end
/// determines [`first_newline`].
proof fn lemma_first_newline_is(s: Seq<char>, i: nat)
    requires
        i <= s.len(),
        forall|j: int| 0 <= j < i ==> s[j] != '\n',
        i == s.len() || s[i as int] == '\n',
    ensures
        first_newline(s) == i,
    decreases i,
{
    if s.len() == 0 {
    } else if i == 0 {
    } else {
        assert(s[0] != '\n');
        let rest = s.drop_first();
        assert(forall|j: int| 0 <= j < i - 1 ==> rest[j] == s[j + 1]);
        lemma_first_newline_is(rest, (i - 1) as nat);
    }
}

/// Reads a whole record file: the well-formed records of every line, in
/// order.  Unreadable lines — say a torn trailing write from an unclean
/// shutdown — are skipped, never an error, so the well-formed prefix of a
/// day's history is always returned.
#[verifier::rlimit(100)]
#[verifier::spinoff_prover]
pub fn parse_record_file(text: &Vec<char>) -> (r: Vec<Interval>)
    ensures
        r.deep_view() == parse_lines(split_lines(text@)),
        forall|i: int| 0 <= i < r@.len() ==> (#[trigger] r.deep_view()[i]).wf(),
{
    let n = text.len();
    let mut out: Vec<Interval> = Vec::new();
    let mut pos: usize = 0;
    proof {
        assert(text@.skip(0) =~= text@);
        assert(out.deep_view() =~= Seq::<IntervalModel>::empty());
        assert(out.deep_view() + parse_lines(split_lines(text@)) =~= parse_lines(
            split_lines(text@),
        ));
    }
    while pos < n
        invariant
            n == text@.len(),
            0 <= pos <= n,
            out.deep_view() + parse_lines(split_lines(text@.skip(pos as int))) == parse_lines(
                split_lines(text@),
            ),
            forall|i: int| 0 <= i < out@.len() ==> (#[trigger] out.deep_view()[i]).wf(),
        decreases n - pos,
    {
        let ghost rest = text@.skip(pos as int);
        let start = pos;
        let mut line: Vec<char> = Vec::new();
        while pos < n && text[pos] != '\n'
            invariant
                n == text@.len(),
                start <= pos <= n,
                line@ == text@.subrange(start as int, pos as int),
                forall|j: int| start <= j < pos ==> text@[j] != '\n',
            decreases n - pos,
        {
            let c = text[pos];
            line.push(c);
            proof {
                assert(text@.subrange(start as int, pos + 1) =~= text@.subrange(
                    start as int,
                    pos as int,
                ).push(text@[pos as int]));
            }
            pos = pos + 1;
        }
        let ghost scanned = (pos - start) as nat;
        proof {
            assert(forall|j: int| 0 <= j < scanned ==> rest[j] == text@[start + j]);
            assert(scanned == rest.len() || rest[scanned as int] == '\n');
            lemma_first_newline_is(rest, scanned);
            assert(rest.take(scanned as int) =~= text@.subrange(start as int, pos as int));
        }
        let ghost lineseq = line@;
        if line.len() > 0 && line[line.len() - 1] == '\r' {
            line.pop();
            proof {
                assert(line@ =~= strip_cr(lineseq));
            }
        }
        proof {
            assert(line@ == strip_cr(lineseq));
        }
        let ghost out0 = out.deep_view();
        let parsed = parse_record(&line);
        match parsed {
            Some(rec) => {
                out.push(rec);
                proof {
                    assert(out.deep_view() =~= out0.push(rec@));
                }
            },
            None => {},
        }
        if pos < n {
            pos = pos + 1;
            proof {
                assert(first_newline(rest) < rest.len());
                assert(split_lines(rest) == seq![strip_cr(rest.take(scanned as int))]
                    + split_lines(rest.skip(scanned + 1 as int)));
                assert(rest.skip(scanned + 1 as int) =~= text@.skip(pos as int));
                let tail_lines = split_lines(text@.skip(pos as int));
                assert(split_lines(rest)[0] == line@);
                assert(split_lines(rest).drop_first() =~= tail_lines);
                assert(parse_lines(split_lines(rest)) == match spec_parse_record(line@) {
                    Some(m) => seq![m] + parse_lines(tail_lines),
                    None => parse_lines(tail_lines),
                });
                match spec_parse_record(line@) {
                    Some(m) => {
                        assert(out.deep_view() + parse_lines(tail_lines) =~= out0 + (seq![m]
                            + parse_lines(tail_lines)));
                    },
                    None => {},
                }
            }
        } else {
            proof {
                assert(first_newline(rest) >= rest.len());
                assert(rest.len() > 0);
                assert(strip_cr(rest) == line@) by {
                    assert(rest.take(scanned as int) =~= rest);
                }
                assert(split_lines(rest) =~= seq![line@]);
                assert(split_lines(rest).drop_first() =~= Seq::<Seq<char>>::empty());
                assert(text@.skip(pos as int).len() == 0);
                assert(split_lines(text@.skip(pos as int)) =~= Seq::<Seq<char>>::empty());
                assert(split_lines(rest)[0] == line@);
                match spec_parse_record(line@) {
                    Some(m) => {
                        assert(parse_lines(split_lines(rest)) == seq![m] + parse_lines(
                            split_lines(rest).drop_first(),
                        ));
                        assert(parse_lines(split_lines(rest).drop_first())
                            == Seq::<IntervalModel>::empty());
                        assert(seq![m] + Seq::<IntervalModel>::empty() =~= seq![m]);
                        assert(out.deep_view() =~= out0 + seq![m]);
                    },
                    None => {
                        assert(parse_lines(split_lines(rest)) == parse_lines(
                            split_lines(rest).drop_first(),
                        ));
                    },
                }
            }
        }
    }
    proof {
        assert(text@.skip(pos as int).len() == 0);
        assert(split_lines(text@.skip(pos as int)) =~= Seq::<Seq<char>>::empty());
        assert(out.deep_view() + Seq::<IntervalModel>::empty() =~= out.deep_view());
    }
    out
}

/// Hexadecimal digits evaluate back to their value.
proof fn lemma_hex_val_digit(n: int)
    requires
        0 <= n < 16,
    ensures
        hex_val(hex_digit(n)) == Some(n),
{
}

/// A string's escaped form followed by a closing quote parses back to the
/// string, ending after the quote.
proof fn lemma_parse_escaped_string(s: Seq<char>, pos: int, w: Seq<char>)
    requires
        0 <= pos,
        pos + escape_string(w).len() + 1 <= s.len(),
        s.subrange(pos, pos + escape_string(w).len()) == escape_string(w),
        s[pos + escape_string(w).len()] == '"',
    ensures
        spec_parse_string_body(s, pos) == Some((w, pos + escape_string(w).len() + 1)),
    decreases w.len(),
{
    let esc = escape_string(w);
    if w.len() == 0 {
        assert(esc =~= Seq::<char>::empty());
        assert(spec_parse_string_body(s, pos) == Some((Seq::<char>::empty(), pos + 1)));
    } else {
        let c = w[0];
        let wrest = w.drop_first();
        let ec = escape_char(c);
        let erest = escape_string(wrest);
        assert(esc == ec + erest);
        assert forall|j: int| 0 <= j < esc.len() implies s[pos + j] == #[trigger] esc[j] by {
            assert(s.subrange(pos, pos + esc.len())[j] == s[pos + j]);
        }
        assert forall|j: int| 0 <= j < ec.len() implies s[pos + j] == #[trigger] ec[j] by {
            assert(esc[j] == ec[j]);
            assert(s[pos + j] == esc[j]);
        }
        let k = ec.len() as int;
        assert(s.subrange(pos + k, pos + k + erest.len()) =~= erest) by {
            assert(forall|j: int|
                0 <= j < erest.len() ==> #[trigger] erest[j] == esc[k + j]);
        }
        lemma_parse_escaped_string(s, pos + k, wrest);
        assert(seq![c] + wrest =~= w);
        if c == '"' || c == '\\' {
            assert(ec[0] == '\\' && ec[1] == c);
            assert(s[pos] == '\\' && s[pos + 1] == c);
            assert(unescape_short(c) == Some(c));
        } else if c == '\u{8}' {
            assert(ec[0] == '\\' && ec[1] == 'b');
            assert(s[pos] == '\\' && s[pos + 1] == 'b');
        } else if c == '\t' {
            assert(ec[0] == '\\' && ec[1] == 't');
            assert(s[pos] == '\\' && s[pos + 1] == 't');
        } else if c == '\n' {
            assert(ec[0] == '\\' && ec[1] == 'n');
            assert(s[pos] == '\\' && s[pos + 1] == 'n');
        } else if c == '\r' {
            assert(ec[0] == '\\' && ec[1] == 'r');
            assert(s[pos] == '\\' && s[pos + 1] == 'r');
        } else if c == '\u{c}' {
            assert(ec[0] == '\\' && ec[1] == 'f');
            assert(s[pos] == '\\' && s[pos + 1] == 'f');
        } else if '\u{0}' <= c && '\u{20}' > c {
            let code = c as int;
            assert(0 <= code < 0x20);
            let hi = code / 16;
            let lo = code % 16;
            vstd::arithmetic::div_mod::lemma_fundamental_div_mod(code, 16);
            vstd::arithmetic::div_mod::lemma_mod_division_less_than_divisor(code, 16);
            vstd::arithmetic::div_mod::lemma_div_pos_is_pos(code, 16);
            assert(hi < 2);
            assert(ec[0] == '\\' && ec[1] == 'u' && ec[2] == '0' && ec[3] == '0' && ec[4]
                == hex_digit(hi) && ec[5] == hex_digit(lo));
            assert(s[pos] == '\\' && s[pos + 1] == 'u' && s[pos + 2] == '0' && s[pos + 3] == '0');
            assert(s[pos + 4] == hex_digit(hi) && s[pos + 5] == hex_digit(lo));
            lemma_hex_val_digit(hi);
            lemma_hex_val_digit(lo);
            assert(hex_val(s[pos + 2]) == Some(0int) && hex_val(s[pos + 3]) == Some(0int));
            assert(0 * 4096 + 0 * 256 + hi * 16 + lo == code);
            assert(control_char_of(code) == c);
        } else {
            assert(ec =~= seq![c]);
            assert(ec[0] == c);
            assert(s[pos] == c);
            assert(c != '"' && c != '\\');
        }
    }
}

/// Every character of a decimal rendering is a digit.
proof fn lemma_dec_digits_are_digits(n: int)
    requires
        0 <= n,
    ensures
        forall|j: int| 0 <= j < dec_digits(n).len() ==> is_digit(#[trigger] dec_digits(n)[j]),
        dec_digits(n).len() >= 1,
    decreases n,
{
    if n >= 10 {
        lemma_dec_digits_are_digits(n / 10);
        vstd::arithmetic::div_mod::lemma_mod_division_less_than_divisor(n, 10);
        vstd::arithmetic::div_mod::lemma_fundamental_div_mod(n, 10);
        assert(forall|j: int|
            0 <= j < dec_digits(n / 10).len() ==> dec_digits(n)[j] == #[trigger] dec_digits(
                n / 10,
            )[j]);
        assert(is_digit(dec_digits(n).last()));
    }
}

/// The decimal rendering evaluates back to the number.
proof fn lemma_digits_val_of_dec_digits(n: int)
    requires
        0 <= n,
    ensures
        digits_val(dec_digits(n)) == n,
    decreases n,
{
    if n < 10 {
        let d = dec_digits(n);
        assert(d.len() == 1 && d.last() == hex_digit(n));
        assert(d.drop_last() =~= Seq::<char>::empty());
        assert(digits_val(d.drop_last()) == 0);
        assert(digits_val(d) == digit_of(hex_digit(n)));
        assert(digit_of(hex_digit(n)) == n);
    } else {
        lemma_digits_val_of_dec_digits(n / 10);
        let d = dec_digits(n);
        assert(d.drop_last() =~= dec_digits(n / 10));
        assert(d.last() == hex_digit(n % 10));
        vstd::arithmetic::div_mod::lemma_mod_division_less_than_divisor(n, 10);
        vstd::arithmetic::div_mod::lemma_fundamental_div_mod(n, 10);
        assert(digit_of(hex_digit(n % 10)) == n % 10);
    }
}

/// A number below the `k`-th power of ten renders in at most `k` digits.
proof fn lemma_dec_digits_len(n: int, k: nat)
    requires
        0 <= n < pow10(k),
        1 <= k,
    ensures
        dec_digits(n).len() <= k,
    decreases k,
{
    if n >= 10 {
        assert(pow10(k) == 10 * pow10((k - 1) as nat));
        vstd::arithmetic::div_mod::lemma_fundamental_div_mod(n, 10);
        assert(n / 10 < pow10((k - 1) as nat)) by {
            if n / 10 >= pow10((k - 1) as nat) {
                assert(10 * (n / 10) >= 10 * pow10((k - 1) as nat)) by (nonlinear_arith)
                    requires
                        n / 10 >= pow10((k - 1) as nat),
                ;
            }
        }
        assert(k >= 2) by {
            if k == 1 {
                assert(pow10(1) == 10 * pow10(0));
            }
        }
        lemma_dec_digits_len(n / 10, (k - 1) as nat);
    }
}

/// A decimal literal followed by a non-digit parses back to the number,
/// ending at the non-digit.
proof fn lemma_parse_int_literal(s: Seq<char>, pos: int, n: int)
    requires
        -16_000_000_000_000 <= n <= 16_000_000_000_000,
        0 <= pos,
        pos + int_literal(n).len() < s.len(),
        s.subrange(pos, pos + int_literal(n).len()) == int_literal(n),
        !is_digit(s[pos + int_literal(n).len()]),
    ensures
        spec_parse_int(s, pos) == Some((n, pos + int_literal(n).len())),
{
    let lit = int_literal(n);
    assert forall|j: int| 0 <= j < lit.len() implies s[pos + j] == #[trigger] lit[j] by {
        assert(s.subrange(pos, pos + lit.len())[j] == s[pos + j]);
    }
    let mag = if n < 0 {
        -n
    } else {
        n
    };
    let digits = dec_digits(mag);
    let p = if n < 0 {
        pos + 1
    } else {
        pos
    };
    lemma_dec_digits_are_digits(mag);
    lemma_digits_val_of_dec_digits(mag);
    assert(pow10(14) == 100_000_000_000_000) by {
        reveal_with_fuel(pow10, 16);
    }
    lemma_dec_digits_len(mag, 14);
    if n < 0 {
        assert(lit == seq!['-'] + digits);
        assert(lit[0] == '-');
        assert(s[pos] == '-');
        assert(forall|j: int| 0 <= j < digits.len() ==> #[trigger] lit[j + 1] == digits[j]);
    } else {
        assert(lit == digits);
        assert(s[pos] == digits[0]);
        assert(is_digit(digits[0]));
        assert(s[pos] != '-');
    }
    assert forall|j: int| p <= j < p + digits.len() implies is_digit(#[trigger] s[j]) by {
        if n < 0 {
            assert(lit[j - pos] == digits[j - pos - 1]);
            assert(s[j] == lit[j - pos]);
            assert(is_digit(digits[j - pos - 1]));
        } else {
            assert(s[j] == lit[j - pos]);
            assert(is_digit(digits[j - pos]));
        }
    }
    lemma_digit_run_len_is(s, p, digits.len() as int);
    assert forall|j: int| 0 <= j < digits.len() implies s[p + j] == #[trigger] digits[j] by {
        if n < 0 {
            assert(lit[j + 1] == digits[j]);
            assert(s[p + j] == lit[j + 1]);
        } else {
            assert(s[p + j] == lit[j]);
        }
    }
    assert(s.subrange(p, p + digits.len()) =~= digits);
    assert(digits_val(s.subrange(p, p + digits.len())) == mag);
    assert(mag <= i64::MAX);
}

/// The writer's line for a well-formed interval reads back as exactly
/// that interval: the parser inverts the writer.
#[verifier::rlimit(100)]
#[verifier::spinoff_prover]
pub proof fn lemma_parse_record_roundtrip(m: IntervalModel)
    requires
        m.wf(),
    ensures
        spec_parse_record(record_line(m)) == Some(m),
{
    let s = record_line(m);
    let a = "{\"window_name\":\""@;
    let ew = escape_string(m.window_name);
    let b = "\",\"process_name\":\""@;
    let ep = escape_string(m.process_name);
    let c = "\",\"start\":"@;
    let ls = int_literal(m.start);
    let d = ",\"duration\":"@;
    let ld = int_literal(m.duration);
    let e = ",\"afk\":"@;
    let bl = if m.afk {
        "true"@
    } else {
        "false"@
    };
    let f = "}"@;
    reveal_strlit("{\"window_name\":\"");
    reveal_strlit("\",\"process_name\":\"");
    reveal_strlit(",\"process_name\":\"");
    reveal_strlit("\",\"start\":");
    reveal_strlit(",\"start\":");
    reveal_strlit(",\"duration\":");
    reveal_strlit(",\"afk\":");
    reveal_strlit("true");
    reveal_strlit("false");
    reveal_strlit("}");

    let p1 = a.len() as int;
    let p2 = p1 + ew.len() + 1;
    let p3 = p2 + ",\"process_name\":\""@.len();
    let p4 = p3 + ep.len() + 1;
    let p5 = p4 + ",\"start\":"@.len();
    let p6 = p5 + ls.len();
    let p7 = p6 + d.len();
    let p8 = p7 + ld.len();
    let p9 = p8 + e.len();
    let p10 = p9 + bl.len();
    assert(s.len() == p10 + 1);

    // the opening literal
    assert(s.subrange(0, p1) =~= a);
    assert(spec_expect(s, 0, a) == Some(p1));

    // the window name and its closing quote
    assert(s.subrange(p1, p1 + ew.len()) =~= ew);
    assert(s[p1 + ew.len()] == b[0]);
    assert(b[0] == '"');
    lemma_parse_escaped_string(s, p1, m.window_name);
    assert(spec_parse_string_body(s, p1) == Some((m.window_name, p2)));

    // the separator up to the process name's opening quote
    assert(s.subrange(p2, p3) =~= ",\"process_name\":\""@) by {
        assert(forall|j: int|
            1 <= j < b.len() ==> #[trigger] b[j] == ",\"process_name\":\""@[j - 1]);
    }
    assert(spec_expect(s, p2, ",\"process_name\":\""@) == Some(p3));

    // the process name and its closing quote
    assert(s.subrange(p3, p3 + ep.len()) =~= ep);
    assert(s[p3 + ep.len()] == c[0]);
    assert(c[0] == '"');
    lemma_parse_escaped_string(s, p3, m.process_name);
    assert(spec_parse_string_body(s, p3) == Some((m.process_name, p4)));

    // the start field
    assert(s.subrange(p4, p5) =~= ",\"start\":"@) by {
        assert(forall|j: int| 1 <= j < c.len() ==> #[trigger] c[j] == ",\"start\":"@[j - 1]);
    }
    assert(spec_expect(s, p4, ",\"start\":"@) == Some(p5));
    assert(s.subrange(p5, p6) =~= ls);
    assert(s[p6] == d[0] && d[0] == ',');
    assert(!is_digit(','));
    lemma_parse_int_literal(s, p5, m.start);
    assert(spec_parse_int(s, p5) == Some((m.start, p6)));

    // the duration field
    assert(s.subrange(p6, p7) =~= d);
    assert(spec_expect(s, p6, d) == Some(p7));
    assert(s.subrange(p7, p8) =~= ld);
    assert(s[p8] == e[0] && e[0] == ',');
    lemma_parse_int_literal(s, p7, m.duration);
    assert(spec_parse_int(s, p7) == Some((m.duration, p8)));

    // the afk field and the closing brace
    assert(s[p8] == ',');
    assert(spec_expect(s, p8, f) is None) by {
        if spec_expect(s, p8, f) is Some {
            assert(s.subrange(p8, p8 + 1)[0] == s[p8]);
        }
    }
    assert(s.subrange(p8, p9) =~= e);
    assert(spec_expect(s, p8, e) == Some(p9));
    if m.afk {
        assert(s.subrange(p9, p10) =~= "true"@);
        assert(spec_expect(s, p9, "true"@) == Some(p10));
        assert(spec_parse_bool(s, p9) == Some((true, p10)));
    } else {
        assert(s.subrange(p9, p10) =~= "false"@);
        assert(spec_expect(s, p9, "false"@) == Some(p10));
        assert(spec_expect(s, p9, "true"@) is None) by {
            if spec_expect(s, p9, "true"@) is Some {
                assert(s.subrange(p9, p9 + 4)[0] == s[p9]);
                assert(s[p9] == 'f');
            }
        }
        assert(spec_parse_bool(s, p9) == Some((false, p10)));
    }
    assert(s.subrange(p10, p10 + 1) =~= f);
    assert(spec_expect(s, p10, f) == Some(p10 + 1));
    assert(p10 + 1 == s.len());
    assert(spec_parse_afk_tail(s, p8) == Some(m.afk));

    assert(spec_parse_record(s) == Some(
        IntervalModel {
            window_name: m.window_name,
            process_name: m.process_name,
            start: m.start,
            duration: m.duration,
            afk: m.afk,
        },
    ));
    assert(IntervalModel {
        window_name: m.window_name,
        process_name: m.process_name,
        start: m.start,
        duration: m.duration,
        afk: m.afk,
    } == m);
}

/// The full text of a record file holding these intervals: one line per
/// record, each terminated by a line feed.
pub open spec fn render_records(ms: Seq<IntervalModel>) -> Seq<char>
    decreases ms.len(),
{
    if ms.len() == 0 {
        Seq::empty()
    } else {
        record_line(ms[0]) + seq!['\n'] + render_records(ms.drop_first())
    }
}

/// Rendering one more record appends one more line.
pub proof fn lemma_render_records_push(ms: Seq<IntervalModel>, m: IntervalModel)
    ensures
        render_records(ms.push(m)) == render_records(ms) + record_line(m) + seq!['\n'],
    decreases ms.len(),
{
    let whole = ms.push(m);
    if ms.len() == 0 {
        assert(whole[0] == m);
        assert(whole.drop_first() =~= Seq::<IntervalModel>::empty());
        assert(render_records(whole) == record_line(whole[0]) + seq!['\n'] + render_records(
            whole.drop_first(),
        ));
        assert(render_records(whole.drop_first()) == Seq::<char>::empty());
        assert(render_records(whole) =~= record_line(m) + seq!['\n']);
        assert(render_records(ms) + record_line(m) + seq!['\n'] =~= record_line(m) + seq!['\n']);
    } else {
        assert(whole[0] == ms[0]);
        assert(whole.drop_first() =~= ms.drop_first().push(m));
        lemma_render_records_push(ms.drop_first(), m);
        assert(record_line(whole[0]) + seq!['\n'] + (render_records(ms.drop_first())
            + record_line(m) + seq!['\n']) =~= (record_line(ms[0]) + seq!['\n'] + render_records(
            ms.drop_first(),
        )) + record_line(m) + seq!['\n']);
    }
}

/// Escaping never emits a raw line feed, so one record stays one line.
proof fn lemma_escape_string_no_newline(w: Seq<char>)
    ensures
        forall|j: int| 0 <= j < escape_string(w).len() ==> #[trigger] escape_string(w)[j] != '\n',
    decreases w.len(),
{
    if w.len() > 0 {
        let c = w[0];
        let ec = escape_char(c);
        let erest = escape_string(w.drop_first());
        lemma_escape_string_no_newline(w.drop_first());
        assert forall|j: int| 0 <= j < escape_string(w).len() implies #[trigger] escape_string(
            w,
        )[j] != '\n' by {
            if j < ec.len() {
                assert(escape_string(w)[j] == ec[j]);
                if c == '"' || c == '\\' || c == '\u{8}' || c == '\t' || c == '\n' || c == '\u{c}'
                    || c == '\r' || ('\u{0}' <= c && '\u{20}' > c) {
                    assert(ec[j] != '\n');
                } else {
                    assert(ec =~= seq![c]);
                    assert(ec[0] == c && c != '\n');
                }
            } else {
                assert(escape_string(w)[j] == erest[j - ec.len()]);
            }
        }
    }
}

/// Digits are not line feeds.
proof fn lemma_int_literal_no_newline(n: int)
    ensures
        forall|j: int| 0 <= j < int_literal(n).len() ==> #[trigger] int_literal(n)[j] != '\n',
{
    let mag = if n < 0 {
        -n
    } else {
        n
    };
    lemma_dec_digits_no_newline(mag);
    if n < 0 {
        assert forall|j: int| 0 <= j < int_literal(n).len() implies #[trigger] int_literal(
            n,
        )[j] != '\n' by {
            if j == 0 {
                assert(int_literal(n)[0] == '-');
            } else {
                assert(int_literal(n)[j] == dec_digits(mag)[j - 1]);
            }
        }
    }
}

/// Decimal digits are not line feeds.
proof fn lemma_dec_digits_no_newline(n: int)
    ensures
        forall|j: int| 0 <= j < dec_digits(n).len() ==> #[trigger] dec_digits(n)[j] != '\n',
    decreases n,
{
    if n >= 10 {
        lemma_dec_digits_no_newline(n / 10);
        assert forall|j: int| 0 <= j < dec_digits(n).len() implies #[trigger] dec_digits(
            n,
        )[j] != '\n' by {
            if j < dec_digits(n / 10).len() {
                assert(dec_digits(n)[j] == dec_digits(n / 10)[j]);
            } else {
                assert(dec_digits(n)[j] == hex_digit(n % 10));
            }
        }
    }
}

/// A record line never holds a line feed: the newline-delimited framing
/// is safe whatever the window and process names hold.
pub proof fn lemma_record_line_no_newline(m: IntervalModel)
    ensures
        forall|j: int| 0 <= j < record_line(m).len() ==> #[trigger] record_line(m)[j] != '\n',
{
    let s = record_line(m);
    reveal_strlit("{\"window_name\":\"");
    reveal_strlit("\",\"process_name\":\"");
    reveal_strlit("\",\"start\":");
    reveal_strlit(",\"duration\":");
    reveal_strlit(",\"afk\":");
    reveal_strlit("true");
    reveal_strlit("false");
    reveal_strlit("}");
    lemma_escape_string_no_newline(m.window_name);
    lemma_escape_string_no_newline(m.process_name);
    lemma_int_literal_no_newline(m.start);
    lemma_int_literal_no_newline(m.duration);
    let a = "{\"window_name\":\""@;
    let ew = escape_string(m.window_name);
    let b = "\",\"process_name\":\""@;
    let ep = escape_string(m.process_name);
    let c = "\",\"start\":"@;
    let ls = int_literal(m.start);
    let d = ",\"duration\":"@;
    let ld = int_literal(m.duration);
    let e = ",\"afk\":"@;
    let bl = if m.afk {
        "true"@
    } else {
        "false"@
    };
    assert forall|j: int| 0 <= j < s.len() implies #[trigger] s[j] != '\n' by {
        let q1 = a.len() as int;
        let q2 = q1 + ew.len();
        let q3 = q2 + b.len();
        let q4 = q3 + ep.len();
        let q5 = q4 + c.len();
        let q6 = q5 + ls.len();
        let q7 = q6 + d.len();
        let q8 = q7 + ld.len();
        let q9 = q8 + e.len();
        let q10 = q9 + bl.len();
        if j < q1 {
            assert(s[j] == a[j]);
        } else if j < q2 {
            assert(s[j] == ew[j - q1]);
        } else if j < q3 {
            assert(s[j] == b[j - q2]);
        } else if j < q4 {
            assert(s[j] == ep[j - q3]);
        } else if j < q5 {
            assert(s[j] == c[j - q4]);
        } else if j < q6 {
            assert(s[j] == ls[j - q5]);
        } else if j < q7 {
            assert(s[j] == d[j - q6]);
        } else if j < q8 {
            assert(s[j] == ld[j - q7]);
        } else if j < q9 {
            assert(s[j] == e[j - q8]);
        } else if j < q10 {
            assert(s[j] == bl[j - q9]);
        } else {
            assert(s[j] == "}"@[j - q10]);
        }
    }
}

/// Reading back a rendered record file yields exactly the intervals that
/// were written: the read path inverts the write path, record by record.
pub proof fn lemma_file_roundtrip(ms: Seq<IntervalModel>)
    requires
        forall|i: int| 0 <= i < ms.len() ==> (#[trigger] ms[i]).wf(),
    ensures
        parse_lines(split_lines(render_records(ms))) == ms,
    decreases ms.len(),
{
    let text = render_records(ms);
    if ms.len() == 0 {
        assert(split_lines(text) =~= Seq::<Seq<char>>::empty());
        assert(parse_lines(Seq::<Seq<char>>::empty()) =~= Seq::<IntervalModel>::empty());
    } else {
        let m = ms[0];
        let line = record_line(m);
        let rest = render_records(ms.drop_first());
        assert(text == line + seq!['\n'] + rest);
        lemma_record_line_no_newline(m);
        assert forall|j: int| 0 <= j < line.len() implies text[j] != '\n' by {
            assert(text[j] == line[j]);
        }
        assert(text[line.len() as int] == '\n');
        lemma_first_newline_is(text, line.len() as nat);
        assert(text.len() > 0);
        assert(first_newline(text) < text.len());
        assert(text.take(line.len() as int) =~= line);
        assert(line.len() == 0 || line.last() != '\r') by {
            reveal_strlit("}");
            if line.len() > 0 {
                assert(line.last() == "}"@[0]);
            }
        }
        assert(strip_cr(line) == line);
        assert(text.skip(line.len() + 1 as int) =~= rest);
        assert(split_lines(text) == seq![line] + split_lines(rest));
        assert(forall|i: int| 0 <= i < ms.drop_first().len() ==> ms.drop_first()[i] == ms[i + 1]);
        lemma_file_roundtrip(ms.drop_first());
        lemma_parse_record_roundtrip(m);
        assert(split_lines(text)[0] == line);
        assert(split_lines(text).drop_first() =~= split_lines(rest));
        assert(parse_lines(split_lines(text)) == seq![m] + parse_lines(split_lines(rest)));
        assert(seq![m] + ms.drop_first() =~= ms);
    }
}

/// Serializes a sequence of intervals as the full text of a record file.
pub fn serialize_records(intervals: &Vec<Interval>) -> (r: Vec<char>)
    requires
        forall|i: int| 0 <= i < intervals@.len() ==> (#[trigger] intervals.deep_view()[i]).wf(),
    ensures
        r@ == render_records(intervals.deep_view()),
{
    let n = intervals.len();
    let mut out: Vec<char> = Vec::new();
    let mut i: usize = 0;
    while i < n
        invariant
            n == intervals@.len(),
            0 <= i <= n,
            forall|k: int| 0 <= k < n ==> (#[trigger] intervals.deep_view()[k]).wf(),
            out@ == render_records(intervals.deep_view().take(i as int)),
        decreases n - i,
    {
        proof {
            assert(intervals.deep_view()[i as int].wf());
            assert(intervals.deep_view()[i as int] == intervals@[i as int]@);
        }
        let mut lv = serialize_record(&intervals[i]);
        out.append(&mut lv);
        out.push('\n');
        proof {
            let ghost models = intervals.deep_view();
            assert(models.take(i + 1) =~= models.take(i as int).push(models[i as int]));
            lemma_render_records_push(models.take(i as int), models[i as int]);
        }
        i = i + 1;
    }
    proof {
        assert(intervals.deep_view().take(n as int) =~= intervals.deep_view());
    }
    out
}

} // verus!
