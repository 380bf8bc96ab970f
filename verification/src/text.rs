//! Byte-level text helpers shared by the mock and the load generator.

use memchr::memmem;
use vstd::prelude::*;

verus! {

/// The bytes of a sequence of ASCII characters.
pub open spec fn ascii(s: Seq<char>) -> Seq<u8> {
    Seq::new(s.len(), |i: int| s[i] as u8)
}

/// ASCII whitespace: space, tab, line feed, form feed, carriage return.
pub open spec fn is_space(b: u8) -> bool {
    b == 32 || b == 9 || b == 10 || b == 12 || b == 13
}

/// The lower-case form of an ASCII letter; every other byte as it is.
pub open spec fn lower(b: u8) -> u8 {
    if 65 <= b <= 90 {
        (b + 32) as u8
    } else {
        b
    }
}

/// Equality up to the case of ASCII letters.
pub open spec fn same_ignoring_case(a: Seq<u8>, b: Seq<u8>) -> bool {
    &&& a.len() == b.len()
    &&& forall|i: int| 0 <= i < a.len() ==> lower(#[trigger] a[i]) == lower(b[i])
}

/// `s` without its leading ASCII whitespace.
pub open spec fn trim_start(s: Seq<u8>) -> Seq<u8>
    decreases s.len(),
{
    if s.len() > 0 && is_space(s[0]) {
        trim_start(s.subrange(1, s.len() as int))
    } else {
        s
    }
}

/// `s` without its trailing ASCII whitespace.
pub open spec fn trim_end(s: Seq<u8>) -> Seq<u8>
    decreases s.len(),
{
    if s.len() > 0 && is_space(s.last()) {
        trim_end(s.drop_last())
    } else {
        s
    }
}

/// `s` without its leading and trailing ASCII whitespace.
pub open spec fn trim(s: Seq<u8>) -> Seq<u8> {
    trim_end(trim_start(s))
}

/// `needle` stands at position `at` of `haystack`.
pub open spec fn occurs_at(haystack: Seq<u8>, needle: Seq<u8>, at: int) -> bool {
    &&& 0 <= at
    &&& at + needle.len() <= haystack.len()
    &&& haystack.subrange(at, at + needle.len()) == needle
}

/// `at` is the position of the first `needle` in `haystack`, or `None` when
/// there is none.
pub open spec fn is_first(haystack: Seq<u8>, needle: Seq<u8>, at: Option<usize>) -> bool {
    match at {
        Some(i) => occurs_at(haystack, needle, i as int) && forall|j: int|
            0 <= j < i ==> !#[trigger] occurs_at(haystack, needle, j),
        None => forall|j: int| !#[trigger] occurs_at(haystack, needle, j),
    }
}

/// `s` ends with `suffix`.
pub open spec fn has_suffix(s: Seq<u8>, suffix: Seq<u8>) -> bool {
    suffix.len() <= s.len() && s.subrange(s.len() - suffix.len(), s.len() as int) == suffix
}

/// The decimal digits of `v`, without leading zeros.
pub open spec fn decimal(v: nat) -> Seq<u8>
    decreases v,
{
    if v < 10 {
        seq![(48 + v) as u8]
    } else {
        decimal(v / 10).push((48 + v % 10) as u8)
    }
}

/// The digit of the hexadecimal system for `v < 16`.
pub open spec fn hex_digit(v: nat) -> u8 {
    if v < 10 {
        (48 + v) as u8
    } else {
        (87 + v) as u8
    }
}

/// The lower-case hexadecimal digits of `v`, without leading zeros.
pub open spec fn hexadecimal(v: nat) -> Seq<u8>
    decreases v,
{
    if v < 16 {
        seq![hex_digit(v)]
    } else {
        hexadecimal(v / 16).push(hex_digit(v % 16))
    }
}

/// The decimal digits of `v` as characters.
pub open spec fn decimal_chars(v: nat) -> Seq<char>
    decreases v,
{
    if v < 10 {
        seq![(48 + v) as char]
    } else {
        decimal_chars(v / 10).push((48 + v % 10) as char)
    }
}

/// `String::push`: appends one character.
pub assume_specification[ String::push ](s: &mut String, ch: char)
    ensures
        final(s)@ == old(s)@.push(ch),
;

/// Appends the decimal digits of `v`.
pub fn push_decimal(out: &mut String, v: u64)
    ensures
        final(out)@ == old(out)@ + decimal_chars(v as nat),
    decreases v,
{
    if v >= 10 {
        push_decimal(out, v / 10);
    }
    let digit: u8 = 48 + (v % 10) as u8;
    out.push(digit as char);
    assert(out@ =~= old(out)@ + decimal_chars(v as nat));
}

/// The bytes of an ASCII literal.
pub fn literal(s: &'static str) -> (r: &'static [u8])
    requires
        vstd::string::is_ascii(s),
    ensures
        r@ == ascii(s@),
{
    broadcast use vstd::string::is_ascii_spec_bytes;

    s.as_bytes()
}

/// Appends `bytes` to `out`.
pub fn append(out: &mut Vec<u8>, bytes: &[u8])
    ensures
        final(out)@ == old(out)@ + bytes@,
{
    out.extend_from_slice(bytes);
    assert(out@ =~= old(out)@ + bytes@);
}

/// Appends the decimal digits of `v`.
pub fn append_decimal(out: &mut Vec<u8>, v: u64)
    ensures
        final(out)@ == old(out)@ + decimal(v as nat),
    decreases v,
{
    if v >= 10 {
        append_decimal(out, v / 10);
    }
    out.push(48 + (v % 10) as u8);
    assert(out@ =~= old(out)@ + decimal(v as nat));
}

/// Appends the lower-case hexadecimal digits of `v`.
pub fn append_hex(out: &mut Vec<u8>, v: usize)
    ensures
        final(out)@ == old(out)@ + hexadecimal(v as nat),
    decreases v,
{
    if v >= 16 {
        append_hex(out, v / 16);
    }
    let digit: u8 = (v % 16) as u8;
    if digit < 10 {
        out.push(48 + digit);
    } else {
        out.push(87 + digit);
    }
    assert(out@ =~= old(out)@ + hexadecimal(v as nat));
}

/// `u8::is_ascii_whitespace`.
pub fn is_space_byte(b: u8) -> (r: bool)
    ensures
        r == is_space(b),
{
    b == 32 || b == 9 || b == 10 || b == 12 || b == 13
}

/// The lower-case form of an ASCII letter.
pub fn lower_byte(b: u8) -> (r: u8)
    ensures
        r == lower(b),
{
    if 65 <= b && b <= 90 {
        b + 32
    } else {
        b
    }
}

/// Whether two byte strings are equal.
pub fn same(a: &[u8], b: &[u8]) -> (r: bool)
    ensures
        r == (a@ == b@),
{
    if a.len() != b.len() {
        return false;
    }
    let mut i: usize = 0;
    while i < a.len()
        invariant
            i <= a.len(),
            a.len() == b.len(),
            forall|j: int| 0 <= j < i ==> a@[j] == b@[j],
        decreases a.len() - i,
    {
        if a[i] != b[i] {
            assert(a@[i as int] != b@[i as int]);
            return false;
        }
        i += 1;
    }
    assert(a@ =~= b@);
    true
}

/// Whether two byte strings are equal up to the case of ASCII letters.
pub fn equals_ignoring_case(a: &[u8], b: &[u8]) -> (r: bool)
    ensures
        r == same_ignoring_case(a@, b@),
{
    if a.len() != b.len() {
        return false;
    }
    let mut i: usize = 0;
    while i < a.len()
        invariant
            i <= a.len(),
            a.len() == b.len(),
            forall|j: int| 0 <= j < i ==> lower(#[trigger] a@[j]) == lower(b@[j]),
        decreases a.len() - i,
    {
        if lower_byte(a[i]) != lower_byte(b[i]) {
            assert(lower(a@[i as int]) != lower(b@[i as int]));
            return false;
        }
        i += 1;
    }
    true
}

/// The slice without its leading ASCII whitespace.
pub fn trimmed_start(s: &[u8]) -> (r: &[u8])
    ensures
        r@ == trim_start(s@),
{
    let mut i: usize = 0;
    assert(s@.subrange(0, s@.len() as int) =~= s@);
    while i < s.len() && is_space_byte(s[i])
        invariant
            i <= s.len(),
            trim_start(s@) == trim_start(s@.subrange(i as int, s@.len() as int)),
        decreases s.len() - i,
    {
        proof {
            let rest = s@.subrange(i as int, s@.len() as int);
            assert(rest.subrange(1, rest.len() as int) =~= s@.subrange(i + 1, s@.len() as int));
        }
        i += 1;
    }
    &s[i..s.len()]
}

/// The slice without its trailing ASCII whitespace.
pub fn trimmed_end(s: &[u8]) -> (r: &[u8])
    ensures
        r@ == trim_end(s@),
{
    let mut n: usize = s.len();
    assert(s@.subrange(0, n as int) =~= s@);
    while n > 0 && is_space_byte(s[n - 1])
        invariant
            n <= s.len(),
            trim_end(s@) == trim_end(s@.subrange(0, n as int)),
        decreases n,
    {
        proof {
            let rest = s@.subrange(0, n as int);
            assert(rest.drop_last() =~= s@.subrange(0, n - 1));
        }
        n -= 1;
    }
    &s[0..n]
}

/// The slice without its leading and trailing ASCII whitespace.
pub fn trimmed(s: &[u8]) -> (r: &[u8])
    ensures
        r@ == trim(s@),
{
    trimmed_end(trimmed_start(s))
}

/// Whether `s` starts with `prefix`.
pub fn starts_with(s: &[u8], prefix: &[u8]) -> (r: bool)
    ensures
        r == occurs_at(s@, prefix@, 0),
{
    s.len() >= prefix.len() && same(&s[0..prefix.len()], prefix)
}

/// Whether `s` ends with `suffix`.
pub fn ends_with(s: &[u8], suffix: &[u8]) -> (r: bool)
    ensures
        r == has_suffix(s@, suffix@),
{
    s.len() >= suffix.len() && same(&s[s.len() - suffix.len()..s.len()], suffix)
}

/// `memchr::memmem::find`: the position of the first `needle` in `haystack`.
#[verifier::external_body]
pub(crate) fn find(haystack: &[u8], needle: &[u8]) -> (r: Option<usize>)
    ensures
        is_first(haystack@, needle@, r),
{
    memmem::find(haystack, needle)
}

/// What is left without the whitespace around it is the text between its
/// first and last other byte. Whitespace is a space, tab, line feed, form
/// feed or carriage return.
pub proof fn law_trimming_removes_the_surrounding_whitespace(
    front: Seq<u8>,
    core: Seq<u8>,
    back: Seq<u8>,
)
    requires
        forall|i: int|
            0 <= i < front.len() ==> #[trigger] front[i] == 32 || front[i] == 9 || front[i] == 10
                || front[i] == 12 || front[i] == 13,
        forall|i: int|
            0 <= i < back.len() ==> #[trigger] back[i] == 32 || back[i] == 9 || back[i] == 10
                || back[i] == 12 || back[i] == 13,
        core.len() > 0,
        !(core[0] == 32 || core[0] == 9 || core[0] == 10 || core[0] == 12 || core[0] == 13),
        !(core.last() == 32 || core.last() == 9 || core.last() == 10 || core.last() == 12
            || core.last() == 13),
    ensures
        trim(front + core + back) == core,
        trim_start(front + core + back) == core + back,
        trim_end(front + core + back) == front + core,
{
    lemma_leading(front, core + back);
    assert(front + core + back =~= front + (core + back));
    lemma_trailing(core, back);
    lemma_trailing(front + core, back);
}

/// Leading whitespace is removed, up to another byte.
proof fn lemma_leading(space: Seq<u8>, s: Seq<u8>)
    requires
        forall|i: int| 0 <= i < space.len() ==> is_space(#[trigger] space[i]),
        s.len() > 0,
        !is_space(s[0]),
    ensures
        trim_start(space + s) == s,
    decreases space.len(),
{
    if space.len() == 0 {
        assert(space + s =~= s);
    } else {
        let all = space + s;
        let rest = space.subrange(1, space.len() as int);
        assert(all[0] == space[0]);
        assert(all.subrange(1, all.len() as int) =~= rest + s);
        assert forall|i: int| 0 <= i < rest.len() implies is_space(#[trigger] rest[i]) by {
            assert(rest[i] == space[i + 1]);
        }
        lemma_leading(rest, s);
    }
}

/// Trailing whitespace is removed, back to another byte.
proof fn lemma_trailing(s: Seq<u8>, space: Seq<u8>)
    requires
        forall|i: int| 0 <= i < space.len() ==> is_space(#[trigger] space[i]),
        s.len() > 0,
        !is_space(s.last()),
    ensures
        trim_end(s + space) == s,
    decreases space.len(),
{
    if space.len() == 0 {
        assert(s + space =~= s);
    } else {
        let all = s + space;
        let rest = space.drop_last();
        assert(all.last() == space[space.len() - 1]);
        assert(all.drop_last() =~= s + rest);
        assert forall|i: int| 0 <= i < rest.len() implies is_space(#[trigger] rest[i]) by {
            assert(rest[i] == space[i]);
        }
        lemma_trailing(s, rest);
    }
}

/// Two texts are the same up to case when they are as long and differ, byte
/// by byte, at most in the case of an ASCII letter.
pub proof fn law_case_makes_no_difference_to_letters_alone(a: Seq<u8>, b: Seq<u8>)
    ensures
        same_ignoring_case(a, b) <==> a.len() == b.len() && forall|i: int|
            0 <= i < a.len() ==> #[trigger] a[i] == b[i] || (65 <= a[i] <= 90 && b[i] == a[i] + 32)
                || (65 <= b[i] <= 90 && a[i] == b[i] + 32),
{
    if a.len() == b.len() {
        if same_ignoring_case(a, b) {
            assert forall|i: int| 0 <= i < a.len() implies #[trigger] a[i] == b[i] || (65 <= a[i]
                <= 90 && b[i] == a[i] + 32) || (65 <= b[i] <= 90 && a[i] == b[i] + 32) by {
                assert(lower(a[i]) == lower(b[i]));
            }
        }
    }
}

/// The number that decimal digits stand for.
pub open spec fn read_decimal(digits: Seq<u8>) -> int
    decreases digits.len(),
{
    if digits.len() == 0 {
        0
    } else {
        read_decimal(digits.drop_last()) * 10 + (digits.last() - 48)
    }
}

/// The decimal digits of a number are digits, read back as that number and
/// have no leading zero, except for zero itself.
pub proof fn law_decimal_digits_read_back(v: nat)
    ensures
        read_decimal(decimal(v)) == v,
        decimal(v).len() > 0,
        forall|i: int| 0 <= i < decimal(v).len() ==> 48 <= #[trigger] decimal(v)[i] <= 57,
        decimal(v)[0] == 48 ==> v == 0 && decimal(v).len() == 1,
        decimal_chars(v).len() == decimal(v).len(),
        forall|i: int|
            0 <= i < decimal(v).len() ==> #[trigger] decimal_chars(v)[i] as u8 == decimal(v)[i],
    decreases v,
{
    if v < 10 {
        assert(decimal(v).drop_last() =~= Seq::<u8>::empty());
        reveal_with_fuel(read_decimal, 2);
    } else {
        law_decimal_digits_read_back(v / 10);
        let all = decimal(v);
        assert(all.drop_last() =~= decimal(v / 10));
        assert(all[0] == decimal(v / 10)[0]);
        if all[0] == 48 {
            assert(v / 10 == 0);
        }
        assert forall|i: int| 0 <= i < all.len() implies #[trigger] decimal_chars(v)[i] as u8
            == all[i] by {
            if i < all.len() - 1 {
                assert(decimal_chars(v)[i] == decimal_chars(v / 10)[i]);
            }
        }
    }
}

} // verus!
