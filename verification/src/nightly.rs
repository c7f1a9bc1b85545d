//! The names of nightly releases: the tag of a day, and the version that
//! carries the tag as its build metadata.
use vstd::prelude::*;
use vstd::string::StringExecFns;

verus! {

/// The command-line arguments of the nightly-version tool.
#[derive(Clone, Copy, Debug)]
pub struct Args {
    /// Ask for the tag alone, not for the whole version.
    pub tag: bool,
}

/// A semantic version, with its pre-release and build metadata as written.
#[derive(Debug)]
pub struct Version {
    pub major: u64,
    pub minor: u64,
    pub patch: u64,
    pub pre: String,
    pub build: String,
}

/// The character of a decimal digit.
pub open spec fn digit_char(d: int) -> char {
    if d == 0 {
        '0'
    } else if d == 1 {
        '1'
    } else if d == 2 {
        '2'
    } else if d == 3 {
        '3'
    } else if d == 4 {
        '4'
    } else if d == 5 {
        '5'
    } else if d == 6 {
        '6'
    } else if d == 7 {
        '7'
    } else if d == 8 {
        '8'
    } else {
        '9'
    }
}

/// The decimal digits of `n`, without leading zeros.
pub open spec fn decimal(n: nat) -> Seq<char>
    decreases n,
{
    if n < 10 {
        seq![digit_char(n as int)]
    } else {
        decimal(n / 10).push(digit_char((n % 10) as int))
    }
}

/// The decimal text of a number, with a minus sign where it is negative.
pub open spec fn signed_decimal(v: int) -> Seq<char> {
    if v < 0 {
        seq!['-'] + decimal((-v) as nat)
    } else {
        decimal(v as nat)
    }
}

/// The decimal text of a number, filled with a zero on the left to two
/// characters.
pub open spec fn two_digits(v: nat) -> Seq<char> {
    if v < 10 {
        seq!['0'] + decimal(v)
    } else {
        decimal(v)
    }
}

/// The tag of the nightly release of a day: `nightly-`, the year, and the
/// month and the day with two digits each, joined by hyphens.
pub open spec fn tag_text(year: int, month: nat, day: nat) -> Seq<char> {
    "nightly-"@ + signed_decimal(year) + seq!['-'] + two_digits(month) + seq!['-'] + two_digits(
        day,
    )
}

/// `text` is the tag of some day of a calendar.
pub open spec fn is_nightly_tag(text: Seq<char>) -> bool {
    exists|year: int, month: nat, day: nat|
        1 <= month <= 12 && 1 <= day <= 31 && text == #[trigger] tag_text(year, month, day)
}

/// A character that an identifier of build metadata may hold.
pub open spec fn is_identifier_char(c: char) -> bool {
    ('0' <= c && c <= '9') || ('a' <= c && c <= 'z') || ('A' <= c && c <= 'Z') || c == '-'
}

/// `text` is build metadata of a semantic version: empty, or identifiers
/// of ASCII letters, digits and hyphens, none of them empty, with a dot
/// between each two.
pub open spec fn is_build_metadata(text: Seq<char>) -> bool {
    &&& forall|i: int| 0 <= i < text.len() ==> is_identifier_char(text[i]) || text[i] == '.'
    &&& text.len() > 0 ==> text[0] != '.' && text[text.len() - 1] != '.'
    &&& forall|i: int|
        0 <= i < text.len() - 1 ==> !((#[trigger] text[i]) == '.' && text[i + 1] == '.')
}

/// The text of one decimal digit.
fn digit_text(d: u32) -> (r: &'static str)
    requires
        d < 10,
    ensures
        r@ == seq![digit_char(d as int)],
{
    proof {
        reveal_strlit("0");
        reveal_strlit("1");
        reveal_strlit("2");
        reveal_strlit("3");
        reveal_strlit("4");
        reveal_strlit("5");
        reveal_strlit("6");
        reveal_strlit("7");
        reveal_strlit("8");
        reveal_strlit("9");
    }
    let r = if d == 0 {
        "0"
    } else if d == 1 {
        "1"
    } else if d == 2 {
        "2"
    } else if d == 3 {
        "3"
    } else if d == 4 {
        "4"
    } else if d == 5 {
        "5"
    } else if d == 6 {
        "6"
    } else if d == 7 {
        "7"
    } else if d == 8 {
        "8"
    } else {
        "9"
    };
    assert(r@ =~= seq![digit_char(d as int)]);
    r
}

/// Writes the decimal digits of `n` behind `out`.
fn push_decimal(out: &mut String, n: u32)
    ensures
        final(out)@ == old(out)@ + decimal(n as nat),
    decreases n,
{
    if n >= 10 {
        push_decimal(out, n / 10);
    }
    out.append(digit_text(n % 10));
    assert(out@ =~= old(out)@ + decimal(n as nat));
}

/// The tag of the nightly release of the given day.
pub fn nightly_tag_on(year: i32, month: u8, day: u8) -> (tag: String)
    ensures
        tag@ == tag_text(year as int, month as nat, day as nat),
{
    proof {
        reveal_strlit("-");
        reveal_strlit("0");
    }
    let mut out = String::from_str("nightly-");
    if year < 0 {
        out.append("-");
        push_decimal(&mut out, (-(year as i64)) as u32);
    } else {
        push_decimal(&mut out, year as u32);
    }
    out.append("-");
    if month < 10 {
        out.append("0");
    }
    push_decimal(&mut out, month as u32);
    out.append("-");
    if day < 10 {
        out.append("0");
    }
    push_decimal(&mut out, day as u32);
    assert(out@ =~= tag_text(year as int, month as nat, day as nat));
    out
}

/// Every character of `text` may stand in an identifier of build metadata.
pub open spec fn all_identifier_chars(text: Seq<char>) -> bool {
    forall|i: int| 0 <= i < text.len() ==> is_identifier_char(#[trigger] text[i])
}

proof fn lemma_decimal_chars(n: nat)
    ensures
        all_identifier_chars(decimal(n)),
        decimal(n).len() >= 1,
    decreases n,
{
    if n >= 10 {
        lemma_decimal_chars(n / 10);
    }
}

/// Ten to the power of `k`.
pub open spec fn power_of_ten(k: nat) -> nat
    decreases k,
{
    if k == 0 {
        1
    } else {
        10 * power_of_ten((k - 1) as nat)
    }
}

/// A number below the `k`-th power of ten has at most `k` digits.
proof fn lemma_decimal_length(n: nat, k: nat)
    requires
        k >= 1,
        n < power_of_ten(k),
    ensures
        decimal(n).len() <= k,
    decreases k,
{
    if n >= 10 {
        if k == 1 {
            assert(power_of_ten(1) == 10) by {
                reveal_with_fuel(power_of_ten, 2);
            }
        } else {
            lemma_decimal_length(n / 10, (k - 1) as nat);
        }
    }
}

/// The longest text that is handed to the check of build metadata.
pub const MAX_METADATA_LENGTH: usize = 0x1000_0000;

/// The tag of a day of which the numbers fit their machine types is short.
proof fn lemma_tag_is_short(year: i32, month: u8, day: u8)
    ensures
        tag_text(year as int, month as nat, day as nat).len() <= 64,
{
    reveal_strlit("nightly-");
    assert(power_of_ten(10) == 10_000_000_000) by {
        reveal_with_fuel(power_of_ten, 11);
    }
    if year < 0 {
        lemma_decimal_length((-(year as int)) as nat, 10);
    } else {
        lemma_decimal_length(year as nat, 10);
    }
    lemma_decimal_length(month as nat, 10);
    lemma_decimal_length(day as nat, 10);
}

/// The tag of every day is build metadata of a semantic version.
pub proof fn lemma_tag_is_build_metadata(year: int, month: nat, day: nat)
    ensures
        is_build_metadata(tag_text(year, month, day)),
{
    reveal_strlit("nightly-");
    if year < 0 {
        lemma_decimal_chars((-year) as nat);
    } else {
        lemma_decimal_chars(year as nat);
    }
    lemma_decimal_chars(month);
    lemma_decimal_chars(day);
    let tag = tag_text(year, month, day);
    assert(all_identifier_chars("nightly-"@));
    assert(all_identifier_chars(signed_decimal(year)));
    assert(all_identifier_chars(two_digits(month)));
    assert(all_identifier_chars(two_digits(day)));
    assert(all_identifier_chars(tag));
    assert(tag.len() > 0);
    assert forall|i: int| 0 <= i < tag.len() implies tag[i] != '.' by {
        assert(is_identifier_char(tag[i]));
    }
}

/// The current date in UTC as year, month and day, read from
/// `time::OffsetDateTime::now_utc` with its `year`, `month` and `day`.
/// The date depends on the clock; the contract claims only the ranges
/// that the calendar gives the month and the day.
#[verifier::external_body]
fn today_utc() -> (date: (i32, u8, u8))
    ensures
        1 <= date.1 <= 12,
        1 <= date.2 <= 31,
{
    let now = time::OffsetDateTime::now_utc();
    (now.year(), u8::from(now.month()), now.day())
}

/// Checks a text as build metadata with `semver::BuildMetadata::new` and
/// returns the text that the checked value holds. The contract claims
/// that the text is taken exactly when it is empty or made of dot-separated
/// identifiers of ASCII letters, digits and hyphens, none of them empty,
/// and that the checked value holds the text unchanged. Texts too long
/// for the checked value to store on a small machine are left out.
#[verifier::external_body]
fn build_metadata(text: &str) -> (r: Option<String>)
    requires
        text@.len() <= MAX_METADATA_LENGTH,
    ensures
        r is Some <==> is_build_metadata(text@),
        r is Some ==> r->Some_0@ == text@,
{
    match semver::BuildMetadata::new(text) {
        Ok(build) => Some(build.as_str().to_owned()),
        Err(_) => None,
    }
}

/// The version with the numbers of `expected`, no pre-release, and `tag`
/// as its build metadata.
fn stamped(expected: Version, tag: String) -> (v: Version)
    requires
        is_build_metadata(tag@),
        tag@.len() <= MAX_METADATA_LENGTH,
    ensures
        v.major == expected.major,
        v.minor == expected.minor,
        v.patch == expected.patch,
        v.pre@ == Seq::<char>::empty(),
        v.build@ == tag@,
{
    let build = match build_metadata(tag.as_str()) {
        Some(build) => build,
        // cannot happen: the tag is build metadata
        None => tag,
    };
    Version {
        major: expected.major,
        minor: expected.minor,
        patch: expected.patch,
        pre: String::new(),
        build,
    }
}

/// The tag of today's nightly release, by the clock in UTC.
pub fn nightly_tag() -> (tag: String)
    ensures
        is_nightly_tag(tag@),
{
    let date = today_utc();
    let tag = nightly_tag_on(date.0, date.1, date.2);
    assert(tag@ == tag_text(date.0 as int, date.1 as nat, date.2 as nat));
    tag
}

/// The version of the nightly release of the given day: the numbers of
/// `expected`, no pre-release, and the day's tag as build metadata.
pub fn nightly_version_on(expected: Version, year: i32, month: u8, day: u8) -> (v: Version)
    ensures
        v.major == expected.major,
        v.minor == expected.minor,
        v.patch == expected.patch,
        v.pre@ == Seq::<char>::empty(),
        v.build@ == tag_text(year as int, month as nat, day as nat),
{
    proof {
        lemma_tag_is_build_metadata(year as int, month as nat, day as nat);
        lemma_tag_is_short(year, month, day);
    }
    stamped(expected, nightly_tag_on(year, month, day))
}

/// The version of today's nightly release, by the clock in UTC: the
/// numbers of `expected`, no pre-release, and today's tag as build
/// metadata.
pub fn nightly_version(expected: Version) -> (v: Version)
    ensures
        v.major == expected.major,
        v.minor == expected.minor,
        v.patch == expected.patch,
        v.pre@ == Seq::<char>::empty(),
        is_nightly_tag(v.build@),
{
    let date = today_utc();
    let v = nightly_version_on(expected, date.0, date.1, date.2);
    assert(v.build@ == tag_text(date.0 as int, date.1 as nat, date.2 as nat));
    v
}

} // verus!
