//! Character-level text helpers.

use vstd::prelude::*;

verus! {

/// A character with the Unicode property `White_Space`.
pub open spec fn is_whitespace(c: char) -> bool {
    let n = c as u32;
    ||| 9 <= n <= 13
    ||| n == 32
    ||| n == 0x85
    ||| n == 0xa0
    ||| n == 0x1680
    ||| 0x2000 <= n <= 0x200a
    ||| n == 0x2028
    ||| n == 0x2029
    ||| n == 0x202f
    ||| n == 0x205f
    ||| n == 0x3000
}

/// A character of the Unicode category `Cc`: the control codes.
pub open spec fn is_control(c: char) -> bool {
    c as u32 <= 31 || 127 <= c as u32 <= 159
}

/// What the `Debug` format of a string slice writes: the quoted string with
/// special characters escaped.
pub uninterp spec fn debug_format(s: Seq<char>) -> Seq<char>;

/// `char::is_whitespace`: whether the character has the Unicode property
/// `White_Space`.
#[verifier::external_body]
fn whitespace(c: char) -> (r: bool)
    ensures
        r == is_whitespace(c),
{
    c.is_whitespace()
}

/// `char::is_control`: whether the character is of the Unicode category
/// `Cc`.
#[verifier::external_body]
fn control(c: char) -> (r: bool)
    ensures
        r == is_control(c),
{
    c.is_control()
}

/// `format!` with the `Debug` format of a string slice.
#[verifier::external_body]
pub(crate) fn quoted(s: &str) -> (r: String)
    ensures
        r@ == debug_format(s@),
{
    format!("{s:?}")
}

/// `s` without its leading whitespace.
pub open spec fn trim_start(s: Seq<char>) -> Seq<char>
    decreases s.len(),
{
    if s.len() > 0 && is_whitespace(s[0]) {
        trim_start(s.subrange(1, s.len() as int))
    } else {
        s
    }
}

/// `s` without its trailing whitespace.
pub open spec fn trim_end(s: Seq<char>) -> Seq<char>
    decreases s.len(),
{
    if s.len() > 0 && is_whitespace(s.last()) {
        trim_end(s.drop_last())
    } else {
        s
    }
}

/// `s` without its leading and trailing whitespace.
pub open spec fn trim(s: Seq<char>) -> Seq<char> {
    trim_end(trim_start(s))
}

/// The lower-case form of an ASCII letter; every other character as it is.
pub open spec fn lower(c: char) -> char {
    if 'A' <= c <= 'Z' {
        (c as u32 + 32) as char
    } else {
        c
    }
}

/// `s` with its ASCII letters in lower case.
pub open spec fn lowered(s: Seq<char>) -> Seq<char> {
    Seq::new(s.len(), |i: int| lower(s[i]))
}

/// The position of the first `c` in `s`.
pub open spec fn index_of(s: Seq<char>, c: char) -> Option<int>
    decreases s.len(),
{
    if s.len() == 0 {
        None
    } else {
        match index_of(s.drop_last(), c) {
            Some(i) => Some(i),
            None => if s.last() == c {
                Some(s.len() - 1)
            } else {
                None
            },
        }
    }
}

/// The position of the last `c` in `s`.
pub open spec fn last_index_of(s: Seq<char>, c: char) -> Option<int>
    decreases s.len(),
{
    if s.len() == 0 {
        None
    } else if s.last() == c {
        Some(s.len() - 1)
    } else {
        last_index_of(s.drop_last(), c)
    }
}

/// `s` starts with `prefix`.
pub open spec fn has_prefix(s: Seq<char>, prefix: Seq<char>) -> bool {
    prefix.len() <= s.len() && s.take(prefix.len() as int) == prefix
}

/// The digits of an unsigned decimal number, after an optional plus sign.
pub open spec fn digits_of(s: Seq<char>) -> Seq<char> {
    if s.len() > 0 && s[0] == '+' {
        s.subrange(1, s.len() as int)
    } else {
        s
    }
}

/// Every character is a decimal digit.
pub open spec fn all_digits(s: Seq<char>) -> bool {
    forall|i: int| 0 <= i < s.len() ==> '0' <= #[trigger] s[i] <= '9'
}

/// The number that a string of decimal digits denotes.
pub open spec fn value_of(digits: Seq<char>) -> nat
    decreases digits.len(),
{
    if digits.len() == 0 {
        0
    } else {
        value_of(digits.drop_last()) * 10 + (digits.last() as u32 - 48) as nat
    }
}

/// The unsigned number no larger than `max` that `s` denotes: an optional
/// plus sign and at least one decimal digit.
pub open spec fn unsigned_of(s: Seq<char>, max: nat) -> Option<nat> {
    let digits = digits_of(s);
    if digits.len() > 0 && all_digits(digits) && value_of(digits) <= max {
        Some(value_of(digits))
    } else {
        None
    }
}

/// The characters of a string.
pub fn chars_of(s: &str) -> (r: Vec<char>)
    ensures
        r@ == s@,
{
    let mut out: Vec<char> = Vec::new();
    for c in it: s.chars()
        invariant
            out@.len() == it.index(),
            it.seq() == s@,
            forall|i: int| 0 <= i < out@.len() ==> out@[i] == it.seq()[i],
    {
        out.push(c);
    }
    assert(out@ =~= s@);
    out
}

/// The string of these characters.
pub fn string_of(chars: &[char]) -> (r: String)
    ensures
        r@ == chars@,
{
    let mut out = String::new();
    let mut i: usize = 0;
    while i < chars.len()
        invariant
            i <= chars.len(),
            out@ == chars@.subrange(0, i as int),
        decreases chars.len() - i,
    {
        out.push(chars[i]);
        i += 1;
        assert(out@ =~= chars@.subrange(0, i as int));
    }
    assert(out@ =~= chars@);
    out
}

/// Whether `c` is white space or a control character.
pub fn is_unprintable(c: char) -> (r: bool)
    ensures
        r == (is_whitespace(c) || is_control(c)),
{
    whitespace(c) || control(c)
}

/// The slice without its leading and trailing whitespace.
pub fn trimmed(s: &[char]) -> (r: &[char])
    ensures
        r@ == trim(s@),
{
    let mut i: usize = 0;
    assert(s@.subrange(0, s@.len() as int) =~= s@);
    while i < s.len() && whitespace(s[i])
        invariant
            i <= s.len(),
            trim_start(s@) == trim_start(s@.subrange(i as int, s@.len() as int)),
        decreases s.len() - i,
    {
        proof {
            let rest = s@.subrange(i as int, s@.len() as int);
            assert(rest.subrange(1, rest.len() as int) =~= s@.subrange(i + 1, s@.len() as int));
        }
        i += 1;
    }
    let ghost started = s@.subrange(i as int, s@.len() as int);
    let mut n: usize = s.len();
    assert(s@.subrange(i as int, n as int) =~= started);
    while n > i && whitespace(s[n - 1])
        invariant
            i <= n <= s.len(),
            started == s@.subrange(i as int, s@.len() as int),
            trim_end(started) == trim_end(s@.subrange(i as int, n as int)),
        decreases n,
    {
        proof {
            let rest = s@.subrange(i as int, n as int);
            assert(rest.drop_last() =~= s@.subrange(i as int, n - 1));
        }
        n -= 1;
    }
    &s[i..n]
}

/// Whether two character strings are equal.
pub fn same(a: &[char], b: &[char]) -> (r: bool)
    ensures
        r == (a@ == b@),
{
    if a.len() != b.len() {
        return false;
    }
    let mut i: usize = 0;
    while i < a.len()
        invariant
            i <= a.len(),
            a.len() == b.len(),
            forall|j: int| 0 <= j < i ==> a@[j] == b@[j],
        decreases a.len() - i,
    {
        if a[i] != b[i] {
            assert(a@[i as int] != b@[i as int]);
            return false;
        }
        i += 1;
    }
    assert(a@ =~= b@);
    true
}

/// The lower-case form of an ASCII letter.
pub fn lower_char(c: char) -> (r: char)
    ensures
        r == lower(c),
{
    if 'A' <= c && c <= 'Z' {
        let n: u8 = c as u8;
        (n + 32) as char
    } else {
        c
    }
}

/// The characters with ASCII letters in lower case.
pub fn lowercase(s: &[char]) -> (r: Vec<char>)
    ensures
        r@ == lowered(s@),
{
    let mut out: Vec<char> = Vec::new();
    let mut i: usize = 0;
    while i < s.len()
        invariant
            i <= s.len(),
            out@ == lowered(s@).subrange(0, i as int),
        decreases s.len() - i,
    {
        out.push(lower_char(s[i]));
        i += 1;
        assert(out@ =~= lowered(s@).subrange(0, i as int));
    }
    assert(out@ =~= lowered(s@));
    out
}

/// The position of the first `c` in `s`.
pub fn position_of(s: &[char], c: char) -> (r: Option<usize>)
    ensures
        match r {
            Some(i) => index_of(s@, c) == Some(i as int) && i < s@.len() && s@[i as int] == c
                && forall|j: int| 0 <= j < i ==> #[trigger] s@[j] != c,
            None => index_of(s@, c) is None && forall|j: int|
                0 <= j < s@.len() ==> #[trigger] s@[j] != c,
        },
{
    let mut i: usize = 0;
    while i < s.len()
        invariant
            i <= s.len(),
            forall|j: int| 0 <= j < i ==> #[trigger] s@[j] != c,
        decreases s.len() - i,
    {
        if s[i] == c {
            proof {
                lemma_index_of(s@, c, i as int);
            }
            return Some(i);
        }
        i += 1;
    }
    proof {
        lemma_index_of_none(s@, c);
    }
    None
}

/// The position of the last `c` in `s`.
pub fn last_position_of(s: &[char], c: char) -> (r: Option<usize>)
    ensures
        match r {
            Some(i) => last_index_of(s@, c) == Some(i as int) && i < s@.len() && s@[i as int] == c,
            None => last_index_of(s@, c) is None,
        },
{
    let mut n: usize = s.len();
    assert(s@.take(n as int) =~= s@);
    while n > 0
        invariant
            n <= s.len(),
            last_index_of(s@, c) == last_index_of(s@.take(n as int), c),
        decreases n,
    {
        if s[n - 1] == c {
            return Some(n - 1);
        }
        assert(s@.take(n as int).drop_last() =~= s@.take(n - 1));
        n -= 1;
    }
    None
}

/// Whether `s` starts with `prefix`.
pub fn starts_with(s: &[char], prefix: &[char]) -> (r: bool)
    ensures
        r == has_prefix(s@, prefix@),
{
    if s.len() < prefix.len() {
        return false;
    }
    let start = &s[0..prefix.len()];
    assert(start@ =~= s@.take(prefix@.len() as int));
    same(start, prefix)
}

proof fn lemma_index_of(s: Seq<char>, c: char, at: int)
    requires
        0 <= at < s.len(),
        s[at] == c,
        forall|j: int| 0 <= j < at ==> #[trigger] s[j] != c,
    ensures
        index_of(s, c) == Some(at),
    decreases s.len(),
{
    if at < s.len() - 1 {
        lemma_index_of(s.drop_last(), c, at);
    } else {
        lemma_index_of_none(s.drop_last(), c);
    }
}

/// The position of the first `c` is one at which `c` stands.
pub proof fn lemma_index_in_range(s: Seq<char>, c: char)
    ensures
        index_of(s, c) matches Some(i) ==> 0 <= i < s.len() && s[i] == c,
    decreases s.len(),
{
    if s.len() > 0 {
        lemma_index_in_range(s.drop_last(), c);
    }
}

proof fn lemma_index_of_none(s: Seq<char>, c: char)
    requires
        forall|j: int| 0 <= j < s.len() ==> #[trigger] s[j] != c,
    ensures
        index_of(s, c) is None,
    decreases s.len(),
{
    if s.len() > 0 {
        lemma_index_of_none(s.drop_last(), c);
    }
}

/// The unsigned number no larger than `max` that `s` denotes.
pub fn parse_unsigned(s: &[char], max: u64) -> (r: Option<u64>)
    ensures
        match r {
            Some(v) => unsigned_of(s@, max as nat) == Some(v as nat),
            None => unsigned_of(s@, max as nat) is None,
        },
{
    let start: usize = if s.len() > 0 && s[0] == '+' {
        1
    } else {
        0
    };
    let digits = &s[start..s.len()];
    assert(digits@ =~= digits_of(s@));
    if digits.len() == 0 {
        return None;
    }
    let mut i: usize = 0;
    let mut value: u64 = 0;
    let mut overflow = false;
    while i < digits.len()
        invariant
            i <= digits.len(),
            forall|j: int| 0 <= j < i ==> '0' <= #[trigger] digits@[j] <= '9',
            !overflow ==> value == value_of(digits@.take(i as int)) && value <= max,
            overflow ==> value_of(digits@.take(i as int)) > max,
            digits@ == digits_of(s@),
        decreases digits.len() - i,
    {
        let c = digits[i];
        if c < '0' || c > '9' {
            assert(!all_digits(digits@)) by {
                assert(!('0' <= digits@[i as int] <= '9'));
            }
            return None;
        }
        let digit: u64 = (c as u8 - 48) as u64;
        proof {
            let t = digits@.take(i + 1);
            assert(t.drop_last() =~= digits@.take(i as int));
            assert(value_of(t) == value_of(digits@.take(i as int)) * 10 + digit);
        }
        if !overflow {
            match value.checked_mul(10) {
                Some(tenfold) => match tenfold.checked_add(digit) {
                    Some(v) => if v <= max {
                        value = v;
                    } else {
                        overflow = true;
                    },
                    None => {
                        overflow = true;
                    },
                },
                None => {
                    overflow = true;
                },
            }
        }
        i += 1;
    }
    assert(digits@.take(i as int) =~= digits@);
    if overflow {
        None
    } else {
        Some(value)
    }
}

/// The first position of a character is one at which it stands, with none
/// before it; there is none only where the character does not occur.
pub proof fn law_the_first_position_has_none_before_it(s: Seq<char>, c: char)
    ensures
        match index_of(s, c) {
            Some(i) => 0 <= i < s.len() && s[i] == c && forall|j: int|
                0 <= j < i ==> #[trigger] s[j] != c,
            None => forall|j: int| 0 <= j < s.len() ==> #[trigger] s[j] != c,
        },
    decreases s.len(),
{
    if s.len() > 0 {
        let front = s.drop_last();
        law_the_first_position_has_none_before_it(front, c);
        assert(forall|j: int| 0 <= j < front.len() ==> #[trigger] s[j] == front[j]);
    }
}

/// The last position of a character is one at which it stands, with none
/// behind it; there is none only where the character does not occur.
pub proof fn law_the_last_position_has_none_behind_it(s: Seq<char>, c: char)
    ensures
        match last_index_of(s, c) {
            Some(i) => 0 <= i < s.len() && s[i] == c && forall|j: int|
                i < j < s.len() ==> #[trigger] s[j] != c,
            None => forall|j: int| 0 <= j < s.len() ==> #[trigger] s[j] != c,
        },
    decreases s.len(),
{
    if s.len() > 0 {
        let front = s.drop_last();
        law_the_last_position_has_none_behind_it(front, c);
        assert(forall|j: int| 0 <= j < front.len() ==> #[trigger] s[j] == front[j]);
    }
}

/// Leading whitespace is removed, up to another character.
proof fn lemma_leading(space: Seq<char>, s: Seq<char>)
    requires
        forall|i: int| 0 <= i < space.len() ==> is_whitespace(#[trigger] space[i]),
        s.len() > 0,
        !is_whitespace(s[0]),
    ensures
        trim_start(space + s) == s,
    decreases space.len(),
{
    if space.len() == 0 {
        assert(space + s =~= s);
    } else {
        let all = space + s;
        let rest = space.subrange(1, space.len() as int);
        assert(all[0] == space[0]);
        assert(all.subrange(1, all.len() as int) =~= rest + s);
        assert forall|i: int| 0 <= i < rest.len() implies is_whitespace(#[trigger] rest[i]) by {
            assert(rest[i] == space[i + 1]);
        }
        lemma_leading(rest, s);
    }
}

/// Trailing whitespace is removed, back to another character.
proof fn lemma_trailing(s: Seq<char>, space: Seq<char>)
    requires
        forall|i: int| 0 <= i < space.len() ==> is_whitespace(#[trigger] space[i]),
        s.len() > 0,
        !is_whitespace(s.last()),
    ensures
        trim_end(s + space) == s,
    decreases space.len(),
{
    if space.len() == 0 {
        assert(s + space =~= s);
    } else {
        let all = s + space;
        let rest = space.drop_last();
        assert(all.last() == space[space.len() - 1]);
        assert(all.drop_last() =~= s + rest);
        assert forall|i: int| 0 <= i < rest.len() implies is_whitespace(#[trigger] rest[i]) by {
            assert(rest[i] == space[i]);
        }
        lemma_trailing(s, rest);
    }
}

/// What is left without the whitespace around it is the text between its
/// first and last other character.
pub proof fn law_trimming_removes_the_surrounding_whitespace(
    front: Seq<char>,
    core: Seq<char>,
    back: Seq<char>,
)
    requires
        forall|i: int| 0 <= i < front.len() ==> is_whitespace(#[trigger] front[i]),
        forall|i: int| 0 <= i < back.len() ==> is_whitespace(#[trigger] back[i]),
        core.len() > 0,
        !is_whitespace(core[0]),
        !is_whitespace(core.last()),
    ensures
        trim(front + core + back) == core,
{
    lemma_leading(front, core + back);
    assert(front + core + back =~= front + (core + back));
    lemma_trailing(core, back);
}

/// A number is made of its digits: one more digit is ten times the number
/// and that digit more, a plus sign in front makes no difference, and neither
/// an empty text, another character nor a number above the limit is one.
pub proof fn law_a_number_is_made_of_its_digits(s: Seq<char>, c: char, max: nat)
    requires
        s.len() > 0,
        forall|i: int| 0 <= i < s.len() ==> '0' <= #[trigger] s[i] <= '9',
    ensures
        ({
            let more = s.push(c);
            let n = value_of(s);
            &&& value_of(Seq::empty()) == 0
            &&& unsigned_of(Seq::empty(), max) is None
            &&& unsigned_of(s, max) == if n <= max {
                Some(n)
            } else {
                None
            }
            &&& '0' <= c <= '9' ==> value_of(more) == n * 10 + (c as u32 - 48)
            &&& !('0' <= c <= '9') ==> unsigned_of(more, max) is None
            &&& unsigned_of(seq!['+'] + s, max) == unsigned_of(s, max)
        }),
{
    let more = s.push(c);
    assert(more.drop_last() =~= s);
    assert(more[s.len() as int] == c);
    assert(s[0] != '+');
    assert(more[0] == s[0]);
    assert(digits_of(more) == more);
    let signed = seq!['+'] + s;
    assert(signed[0] == '+');
    assert(signed.subrange(1, signed.len() as int) =~= s);
}

} // verus!
