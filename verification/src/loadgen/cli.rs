//! Values given on the command line.

use crate::chars;
use crate::chars::{
    chars_of, is_unprintable, lowercase, parse_unsigned, position_of, quoted, same,
    string_of, trimmed,
};
use vstd::prelude::*;
use vstd::string::StringExecFns;

verus! {

/// Largest request slip p99 that `selfcheck` accepts by default,
/// microseconds.
pub const DEFAULT_SELFCHECK_SLIP_US: u64 = 200;

/// A list of CPUs.
#[derive(Debug, PartialEq, Eq)]
pub struct CpuSet(pub Vec<usize>);

/// An extra request header.
#[derive(Debug, PartialEq, Eq)]
pub struct Header {
    /// Name.
    pub name: String,
    /// Value.
    pub value: String,
}

/// A request body size.
#[derive(Debug, PartialEq, Eq)]
pub struct BodySize {
    /// The size as given, in lower case.
    pub label: String,
    /// The size in bytes.
    pub bytes: usize,
}

/// The id has no whitespace or control characters, and is not empty.
pub open spec fn is_pair_id(s: Seq<char>) -> bool {
    s.len() > 0 && forall|i: int|
        0 <= i < s.len() ==> !chars::is_whitespace(#[trigger] s[i]) && !chars::is_control(s[i])
}

/// Accepts a pairing id without whitespace or control characters, so it
/// reads unambiguously in logs and file names.
pub fn parse_pair_id(s: &str) -> (r: Result<String, String>)
    ensures
        match r {
            Ok(id) => is_pair_id(s@) && id@ == s@,
            Err(why) => !is_pair_id(s@) && why@ == chars::debug_format(s@)
                + " is not a pairing id (non-empty, no whitespace)"@,
        },
{
    let text = chars_of(s);
    let mut fine = text.len() > 0;
    let mut i: usize = 0;
    while i < text.len()
        invariant
            i <= text@.len(),
            text@ == s@,
            fine == (text@.len() > 0 && forall|k: int|
                0 <= k < i ==> !chars::is_whitespace(#[trigger] text@[k]) && !chars::is_control(
                    text@[k],
                )),
        decreases text@.len() - i,
    {
        if is_unprintable(text[i]) {
            fine = false;
            assert(chars::is_whitespace(text@[i as int]) || chars::is_control(text@[i as int]));
        }
        i += 1;
    }
    if fine {
        Ok(string_of(&text))
    } else {
        let mut why = quoted(s);
        why.append(" is not a pairing id (non-empty, no whitespace)");
        Err(why)
    }
}

/// The character may be part of a header name.
pub open spec fn is_token(c: char) -> bool {
    ||| 'a' <= c <= 'z'
    ||| 'A' <= c <= 'Z'
    ||| '0' <= c <= '9'
    ||| c == '!' || c == '#' || c == '$' || c == '%' || c == '&' || c == '\'' || c == '*' || c
        == '+' || c == '-' || c == '.' || c == '^' || c == '_' || c == '`' || c == '|' || c == '~'
}

fn token(c: char) -> (r: bool)
    ensures
        r == is_token(c),
{
    ('a' <= c && c <= 'z') || ('A' <= c && c <= 'Z') || ('0' <= c && c <= '9') || c == '!' || c
        == '#' || c == '$' || c == '%' || c == '&' || c == '\'' || c == '*' || c == '+' || c == '-'
        || c == '.' || c == '^' || c == '_' || c == '`' || c == '|' || c == '~'
}

/// The name can be that of a header.
pub open spec fn is_header_name(name: Seq<char>) -> bool {
    name.len() > 0 && forall|i: int| 0 <= i < name.len() ==> is_token(#[trigger] name[i])
}

/// Both are equal up to the case of ASCII letters.
pub open spec fn same_name(a: Seq<char>, b: Seq<char>) -> bool {
    chars::lowered(a) == chars::lowered(b)
}

/// The load generator sets the header itself.
pub open spec fn is_reserved(name: Seq<char>) -> bool {
    ||| same_name(name, "host"@)
    ||| same_name(name, "content-length"@)
    ||| same_name(name, "transfer-encoding"@)
    ||| same_name(name, "connection"@)
    ||| same_name(name, "content-type"@)
}

fn names(name: &[char], other: &str) -> (r: bool)
    ensures
        r == same_name(name@, other@),
{
    same(&lowercase(name), &lowercase(&chars_of(other)))
}

/// The value spans more than one line.
pub open spec fn has_line_break(value: Seq<char>) -> bool {
    exists|i: int| 0 <= i < value.len() && (#[trigger] value[i] == '\r' || value[i] == '\n')
}

/// What a header given on the command line means: its name and value, or
/// what is wrong with it.
pub open spec fn header_of(s: Seq<char>) -> Result<(Seq<char>, Seq<char>), Seq<char>> {
    match chars::index_of(s, ':') {
        None => Err(chars::debug_format(s) + " is not of the form `Name: value`"@),
        Some(at) => {
            let name = chars::trim(s.take(at));
            let value = chars::trim(s.skip(at + 1));
            if !is_header_name(name) {
                Err(chars::debug_format(name) + " is not a valid header name"@)
            } else if is_reserved(name) {
                Err(
                    "header "@ + chars::debug_format(name)
                        + " is set by the load generator"@,
                )
            } else if has_line_break(value) {
                Err("value of "@ + chars::debug_format(name) + " contains a line break"@)
            } else {
                Ok((name, value))
            }
        },
    }
}

/// Parses `Name: value`.
pub fn parse_header(s: &str) -> (r: Result<Header, String>)
    ensures
        match header_of(s@) {
            Ok((name, value)) => r matches Ok(header) && header.name@ == name && header.value@
                == value,
            Err(text) => r matches Err(why) && why@ == text,
        },
{
    let text = chars_of(s);
    let at: usize = match position_of(&text, ':') {
        None => {
            let mut why = quoted(s);
            why.append(" is not of the form `Name: value`");
            return Err(why);
        },
        Some(at) => at,
    };
    let before = &text[0..at];
    let after = &text[at + 1..text.len()];
    assert(before@ =~= s@.take(at as int));
    assert(after@ =~= s@.skip(at + 1));
    let name = trimmed(before);
    let value = trimmed(after);
    let name_text = string_of(name);
    let mut valid = name.len() > 0;
    let mut i: usize = 0;
    while i < name.len()
        invariant
            i <= name@.len(),
            valid == (name@.len() > 0 && forall|k: int|
                0 <= k < i ==> is_token(#[trigger] name@[k])),
        decreases name@.len() - i,
    {
        if !token(name[i]) {
            valid = false;
            assert(!is_token(name@[i as int]));
        }
        i += 1;
    }
    if !valid {
        let mut why = quoted(name_text.as_str());
        why.append(" is not a valid header name");
        return Err(why);
    }
    if names(name, "host") || names(name, "content-length") || names(name, "transfer-encoding")
        || names(name, "connection") || names(name, "content-type") {
        let mut why = String::from_str("header ");
        why.append(quoted(name_text.as_str()).as_str());
        why.append(" is set by the load generator");
        return Err(why);
    }
    let mut k: usize = 0;
    while k < value.len()
        invariant
            k <= value@.len(),
            forall|j: int| 0 <= j < k ==> #[trigger] value@[j] != '\r' && value@[j] != '\n',
            name_text@ == name@,
            header_of(s@) == if has_line_break(value@) {
                Err::<(Seq<char>, Seq<char>), Seq<char>>(
                    "value of "@ + chars::debug_format(name@) + " contains a line break"@,
                )
            } else {
                Ok::<(Seq<char>, Seq<char>), Seq<char>>((name@, value@))
            },
        decreases value@.len() - k,
    {
        if value[k] == '\r' || value[k] == '\n' {
            assert(value@[k as int] == '\r' || value@[k as int] == '\n');
            let mut why = String::from_str("value of ");
            why.append(quoted(name_text.as_str()).as_str());
            why.append(" contains a line break");
            return Err(why);
        }
        k += 1;
    }
    Ok(Header { name: name_text, value: string_of(value) })
}

/// What follows the digits of a size, as a factor, and the digits.
pub open spec fn size_parts(label: Seq<char>) -> (Seq<char>, nat) {
    if label.len() > 0 && label.last() == 'k' {
        (label.drop_last(), 1_024)
    } else if label.len() > 0 && label.last() == 'm' {
        (label.drop_last(), 1_048_576)
    } else {
        (label, 1)
    }
}

/// What a size given on the command line means: its label and the bytes, or
/// what is wrong with it.
pub open spec fn size_of(s: Seq<char>) -> Result<(Seq<char>, nat), Seq<char>> {
    let label = chars::lowered(chars::trim(s));
    let (digits, unit) = size_parts(label);
    match chars::unsigned_of(digits, usize::MAX as nat) {
        None => Err(chars::debug_format(s) + " is not a size like 100k or 10m"@),
        Some(n) => if n * unit == 0 || n * unit > usize::MAX {
            Err(chars::debug_format(s) + " is not a positive size"@)
        } else {
            Ok((label, n * unit))
        },
    }
}

/// Parses a size such as `100k` (KiB), `10m` (MiB) or a plain byte count.
pub fn parse_body_size(s: &str) -> (r: Result<BodySize, String>)
    ensures
        match size_of(s@) {
            Ok((label, bytes)) => r matches Ok(size) && size.label@ == label && size.bytes
                == bytes,
            Err(text) => r matches Err(why) && why@ == text,
        },
{
    let text = chars_of(s);
    let label = lowercase(trimmed(&text));
    let mut end: usize = label.len();
    let mut unit: usize = 1;
    if label.len() > 0 {
        let last: char = label[label.len() - 1];
        if last == 'k' {
            unit = 1_024;
            end = label.len() - 1;
        } else if last == 'm' {
            unit = 1_048_576;
            end = label.len() - 1;
        }
    }
    let digits = &label[0..end];
    assert(digits@ =~= size_parts(label@).0);
    let n: usize = match parse_unsigned(digits, usize::MAX as u64) {
        None => {
            let mut why = quoted(s);
            why.append(" is not a size like 100k or 10m");
            return Err(why);
        },
        Some(n) => n as usize,
    };
    match n.checked_mul(unit) {
        Some(bytes) => if bytes > 0 {
            return Ok(BodySize { label: string_of(&label), bytes });
        },
        None => {},
    }
    let mut why = quoted(s);
    why.append(" is not a positive size");
    Err(why)
}

/// The integer part of a percentile with at least two digits.
pub open spec fn two_digits(whole: Seq<char>) -> Seq<char> {
    if whole.len() == 0 {
        seq!['0', '0']
    } else if whole.len() == 1 {
        seq!['0'] + whole
    } else {
        whole
    }
}

/// A percentile with its decimal point moved two places to the left.
pub open spec fn fraction_of(s: Seq<char>) -> Option<Seq<char>> {
    let text = chars::trim(s);
    let (whole, frac) = match chars::index_of(text, '.') {
        Some(at) => (text.take(at), text.skip(at + 1)),
        None => (text, Seq::<char>::empty()),
    };
    if (whole.len() == 0 && frac.len() == 0) || !chars::all_digits(whole) || !chars::all_digits(frac) {
        None
    } else {
        let padded = two_digits(whole);
        let cut = padded.len() - 2;
        Some(padded.take(cut) + seq!['.'] + padded.skip(cut) + frac)
    }
}

fn digits_only(s: &[char]) -> (r: bool)
    ensures
        r == chars::all_digits(s@),
{
    let mut i: usize = 0;
    while i < s.len()
        invariant
            i <= s@.len(),
            forall|k: int| 0 <= k < i ==> '0' <= #[trigger] s@[k] <= '9',
        decreases s@.len() - i,
    {
        if s[i] < '0' || s[i] > '9' {
            assert(!('0' <= s@[i as int] <= '9'));
            return false;
        }
        i += 1;
    }
    true
}

fn append_chars(out: &mut Vec<char>, s: &[char])
    ensures
        final(out)@ == old(out)@ + s@,
{
    let mut i: usize = 0;
    let ghost before = out@;
    assert(before + s@.take(0) =~= before);
    while i < s.len()
        invariant
            i <= s@.len(),
            out@ == before + s@.take(i as int),
        decreases s@.len() - i,
    {
        out.push(s[i]);
        i += 1;
        assert(out@ =~= before + s@.take(i as int));
    }
    assert(s@.take(i as int) =~= s@);
}

/// Moves the decimal point of a percentile such as `99.9` two places to the
/// left, giving `.999`, whose value is the fraction.
///
/// The decimal point is moved in the text rather than dividing by 100:
/// dividing rounds, and the quantile rank would be one sample too high
/// whenever the exact rank is whole.
pub fn percent_as_fraction(s: &str) -> (r: Result<String, String>)
    ensures
        match fraction_of(s@) {
            Some(text) => r matches Ok(fraction) && fraction@ == text,
            None => r matches Err(why) && why@ == chars::debug_format(s@)
                + " is not a decimal number"@,
        },
{
    let chars = chars_of(s);
    let text = trimmed(&chars);
    let n: usize = text.len();
    let at: Option<usize> = position_of(text, '.');
    let (whole, frac) = match at {
        Some(at) => (&text[0..at], &text[at + 1..n]),
        None => (text, &text[n..n]),
    };
    proof {
        match at {
            Some(at) => {
                assert(whole@ =~= text@.take(at as int));
                assert(frac@ =~= text@.skip(at + 1));
            },
            None => {
                assert(frac@ =~= Seq::<char>::empty());
            },
        }
    }
    if (whole.len() == 0 && frac.len() == 0) || !digits_only(whole) || !digits_only(frac) {
        let mut why = quoted(s);
        why.append(" is not a decimal number");
        return Err(why);
    }
    let mut padded: Vec<char> = Vec::new();
    if whole.len() == 0 {
        padded.push('0');
        padded.push('0');
    } else if whole.len() == 1 {
        padded.push('0');
    }
    append_chars(&mut padded, whole);
    assert(padded@ =~= two_digits(whole@));
    let cut: usize = padded.len() - 2;
    let units = &padded[0..cut];
    let hundredths = &padded[cut..padded.len()];
    let mut out: Vec<char> = Vec::new();
    append_chars(&mut out, units);
    out.push('.');
    append_chars(&mut out, hundredths);
    append_chars(&mut out, frac);
    proof {
        let p = two_digits(whole@);
        assert(units@ =~= p.take(cut as int));
        assert(hundredths@ =~= p.skip(cut as int));
        assert(out@ =~= p.take(cut as int) + seq!['.'] + p.skip(cut as int) + frac@);
    }
    Ok(string_of(&out))
}

/// A header is its name, a colon and its value, with any whitespace around
/// both: a name of the characters that one may have, not one that the load
/// generator sets itself in whatever case, and a value of one line.
pub proof fn law_a_header_is_a_name_and_a_value(
    name: Seq<char>,
    value: Seq<char>,
    space: (Seq<char>, Seq<char>),
)
    requires
        is_header_name(name),
        value.len() > 0,
        !chars::is_whitespace(value[0]),
        !chars::is_whitespace(value.last()),
        forall|i: int| 0 <= i < space.0.len() ==> chars::is_whitespace(#[trigger] space.0[i])
            && space.0[i] != ':',
        forall|i: int| 0 <= i < space.1.len() ==> chars::is_whitespace(#[trigger] space.1[i]),
    ensures
        ({
            let s = name + space.0 + seq![':'] + space.1 + value;
            let refused = is_reserved(name) || exists|i: int|
                0 <= i < value.len() && (#[trigger] value[i] == '\r' || value[i] == '\n');
            &&& header_of(s) is Ok <==> !refused
            &&& header_of(s) matches Ok(header) ==> header.0 == name && header.1 == value
        }),
{
    let s = name + space.0 + seq![':'] + space.1 + value;
    let at = (name.len() + space.0.len()) as int;
    assert(s[at] == ':');
    assert forall|j: int| 0 <= j < at implies #[trigger] s[j] != ':' by {
        if j < name.len() {
            assert(is_token(name[j]));
            assert(s[j] == name[j]);
        } else {
            assert(s[j] == space.0[j - name.len()]);
        }
    }
    chars::law_the_first_position_has_none_before_it(s, ':');
    assert(chars::index_of(s, ':') == Some(at));
    assert(is_token(name[0]) && is_token(name[name.len() - 1]));
    assert(s.take(at) =~= Seq::<char>::empty() + name + space.0);
    chars::law_trimming_removes_the_surrounding_whitespace(Seq::empty(), name, space.0);
    assert(s.skip(at + 1) =~= space.1 + value + Seq::<char>::empty());
    chars::law_trimming_removes_the_surrounding_whitespace(space.1, value, Seq::empty());
}

/// The headers that the load generator sets itself are the host, the length,
/// framing and type of the body and the connection, in whatever case their
/// names are given.
pub proof fn law_the_headers_of_every_request_are_reserved(name: Seq<char>)
    ensures
        chars::lowered(name) == "host"@ ==> is_reserved(name),
        chars::lowered(name) == "content-length"@ ==> is_reserved(name),
        chars::lowered(name) == "transfer-encoding"@ ==> is_reserved(name),
        chars::lowered(name) == "connection"@ ==> is_reserved(name),
        chars::lowered(name) == "content-type"@ ==> is_reserved(name),
        is_reserved(name) ==> chars::lowered(name) == "host"@ || chars::lowered(name)
            == "content-length"@ || chars::lowered(name) == "transfer-encoding"@
            || chars::lowered(name) == "connection"@ || chars::lowered(name) == "content-type"@,
{
    reveal_strlit("host");
    reveal_strlit("content-length");
    reveal_strlit("transfer-encoding");
    reveal_strlit("connection");
    reveal_strlit("content-type");
    assert(chars::lowered("host"@) =~= "host"@);
    assert(chars::lowered("content-length"@) =~= "content-length"@);
    assert(chars::lowered("transfer-encoding"@) =~= "transfer-encoding"@);
    assert(chars::lowered("connection"@) =~= "connection"@);
    assert(chars::lowered("content-type"@) =~= "content-type"@);
}

/// A size is a number of bytes, of 1024 bytes with a `k` behind it or of
/// 1048576 with an `m`; zero and what is beyond the largest size are none.
pub proof fn law_a_size_is_a_number_of_bytes(digits: Seq<char>)
    requires
        digits.len() > 0,
        chars::all_digits(digits),
        chars::value_of(digits) <= usize::MAX,
    ensures
        ({
            let n = chars::value_of(digits);
            &&& size_of(digits) is Ok <==> n > 0
            &&& size_of(digits) matches Ok(size) ==> size == (digits, n)
            &&& size_of(digits.push('k')) is Ok <==> 0 < n * 1_024 <= usize::MAX
            &&& size_of(digits.push('k')) matches Ok(size) ==> size.1 == n * 1_024
            &&& size_of(digits.push('m')) is Ok <==> 0 < n * 1_048_576 <= usize::MAX
            &&& size_of(digits.push('m')) matches Ok(size) ==> size.1 == n * 1_048_576
            &&& size_of(digits.push('K')) is Ok <==> 0 < n * 1_024 <= usize::MAX
            &&& size_of(digits.push('K')) matches Ok(size) ==> size.1 == n * 1_024
        }),
{
    assert('0' <= digits[0] <= '9');
    assert('0' <= digits[digits.len() - 1] <= '9');
    lemma_size(digits);
    lemma_size(digits.push('k'));
    lemma_size(digits.push('m'));
    lemma_size(digits.push('K'));
    assert(chars::lowered(digits) =~= digits);
    assert(chars::lowered(digits.push('k')) =~= digits.push('k'));
    assert(chars::lowered(digits.push('m')) =~= digits.push('m'));
    assert(chars::lowered(digits.push('K')) =~= digits.push('k'));
    assert(digits.push('k').drop_last() =~= digits);
    assert(digits.push('m').drop_last() =~= digits);
    assert(chars::digits_of(digits) == digits);
    let n = chars::value_of(digits);
    assert(n * 1 == n) by (nonlinear_arith);
    assert(digits.last() != 'k' && digits.last() != 'm');
    assert(size_parts(digits) == (digits, 1nat));
    assert(size_parts(digits.push('k')) == (digits, 1_024nat));
    assert(size_parts(digits.push('m')) == (digits, 1_048_576nat));
    assert(chars::unsigned_of(digits, usize::MAX as nat) == Some(n));
}

/// There is no whitespace around a size.
proof fn lemma_size(s: Seq<char>)
    requires
        s.len() > 0,
        !chars::is_whitespace(s[0]),
        !chars::is_whitespace(s.last()),
    ensures
        chars::trim(s) == s,
{
    assert(Seq::<char>::empty() + s + Seq::<char>::empty() =~= s);
    chars::law_trimming_removes_the_surrounding_whitespace(Seq::empty(), s, Seq::empty());
}

/// Moving the decimal point of a percentile two places to the left keeps its
/// digits: two of the whole number, with zeros in front where it has fewer,
/// stand behind the point, and the fraction after them.
pub proof fn law_a_percentile_is_a_hundredth(
    front: Seq<char>,
    tens: char,
    ones: char,
    frac: Seq<char>,
)
    requires
        chars::all_digits(front),
        '0' <= tens <= '9',
        '0' <= ones <= '9',
        chars::all_digits(frac),
    ensures
        fraction_of(front + seq![tens, ones] + seq!['.'] + frac) == Some(
            front + seq!['.', tens, ones] + frac,
        ),
        fraction_of(front + seq![tens, ones]) == Some(front + seq!['.', tens, ones]),
        fraction_of(seq![ones] + seq!['.'] + frac) == Some(seq!['.', '0', ones] + frac),
        frac.len() > 0 ==> fraction_of(seq!['.'] + frac) == Some(seq!['.', '0', '0'] + frac),
{
    let whole = front + seq![tens, ones];
    assert forall|i: int| 0 <= i < whole.len() implies '0' <= #[trigger] whole[i] <= '9' by {
        if i < front.len() {
            assert(whole[i] == front[i]);
        }
    }
    lemma_percentile(whole, frac);
    lemma_percentile(seq![ones], frac);
    if frac.len() > 0 {
        lemma_percentile(Seq::empty(), frac);
        assert(Seq::<char>::empty() + seq!['.'] + frac =~= seq!['.'] + frac);
        let padded = two_digits(Seq::empty());
        assert(padded.take(0) + seq!['.'] + padded.skip(0) + frac =~= seq!['.', '0', '0'] + frac);
    }
    let cut = front.len() as int;
    assert(whole.take(cut) =~= front);
    assert(whole.skip(cut) =~= seq![tens, ones]);
    assert(front + seq!['.'] + seq![tens, ones] + frac =~= front + seq!['.', tens, ones] + frac);
    let one = two_digits(seq![ones]);
    assert(one.take(0) + seq!['.'] + one.skip(0) + frac =~= seq!['.', '0', ones] + frac);
    lemma_size(whole);
    chars::law_the_first_position_has_none_before_it(whole, '.');
    if chars::index_of(whole, '.') is Some {
        assert(whole[chars::index_of(whole, '.')->Some_0] == '.');
    }
    assert(front + seq!['.'] + seq![tens, ones] + Seq::<char>::empty() =~= front + seq![
        '.',
        tens,
        ones,
    ]);
}

/// A number with a decimal point is split there.
proof fn lemma_percentile(whole: Seq<char>, frac: Seq<char>)
    requires
        chars::all_digits(whole),
        chars::all_digits(frac),
        whole.len() + frac.len() > 0,
    ensures
        ({
            let padded = two_digits(whole);
            let cut = padded.len() - 2;
            fraction_of(whole + seq!['.'] + frac) == Some(
                padded.take(cut) + seq!['.'] + padded.skip(cut) + frac,
            )
        }),
{
    let s = whole + seq!['.'] + frac;
    let at = whole.len() as int;
    assert(s[at] == '.');
    assert forall|j: int| 0 <= j < at implies #[trigger] s[j] != '.' by {
        assert(s[j] == whole[j]);
    }
    if frac.len() > 0 {
        assert(s.last() == frac[frac.len() - 1]);
    } else {
        assert(s.last() == '.');
    }
    if at > 0 {
        assert(s[0] == whole[0]);
    }
    lemma_size(s);
    chars::law_the_first_position_has_none_before_it(s, '.');
    assert(chars::index_of(s, '.') == Some(at));
    assert(s.take(at) =~= whole);
    assert(s.skip(at + 1) =~= frac);
}

/// A pairing id is any text without a space, a line break or another
/// whitespace or control character, but not none at all.
pub proof fn law_a_pairing_id_has_no_whitespace(s: Seq<char>, c: char)
    ensures
        !is_pair_id(Seq::empty()),
        s.len() > 0 ==> (is_pair_id(s.push(c)) <==> is_pair_id(s) && !chars::is_whitespace(c)
            && !chars::is_control(c)),
        is_pair_id(seq![c]) <==> !chars::is_whitespace(c) && !chars::is_control(c),
{
    let more = s.push(c);
    assert(more[s.len() as int] == c);
    assert(forall|i: int| 0 <= i < s.len() ==> #[trigger] more[i] == s[i]);
    if s.len() > 0 && is_pair_id(more) {
        assert forall|i: int| 0 <= i < s.len() implies !chars::is_whitespace(#[trigger] s[i])
            && !chars::is_control(s[i]) by {
            assert(more[i] == s[i]);
        }
    }
    assert(seq![c][0] == c);
}

} // verus!
