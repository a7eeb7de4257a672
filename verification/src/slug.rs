//! Slug derivation for heading anchors, and decimal rendering for the
//! integer suffixes used to disambiguate colliding anchors.
//!
//! A slug is obtained from a title by replacing every maximal run of
//! characters that is not an ASCII letter or digit with a single hyphen,
//! trimming leading and trailing hyphens, and lower-casing ASCII letters.

use vstd::prelude::*;

verus! {

// ---------------------------------------------------------------------------
// Character classes
// ---------------------------------------------------------------------------

/// A character that survives slug derivation: an ASCII letter or digit.
pub open spec fn is_slug_alnum(c: char) -> bool {
    ('a' as u32 <= c as u32 && c as u32 <= 'z' as u32) || ('A' as u32 <= c as u32 && c as u32
        <= 'Z' as u32) || ('0' as u32 <= c as u32 && c as u32 <= '9' as u32)
}

/// ASCII lower-casing of a single character; everything but 'A'..'Z' is kept.
pub open spec fn lower_char(c: char) -> char {
    if 'A' as u32 <= c as u32 && c as u32 <= 'Z' as u32 {
        ((c as u32 + 32) as u8) as char
    } else {
        c
    }
}

fn char_is_slug_alnum(c: char) -> (b: bool)
    ensures
        b == is_slug_alnum(c),
{
    let u = c as u32;
    (97 <= u && u <= 122) || (65 <= u && u <= 90) || (48 <= u && u <= 57)
}

fn char_lower(c: char) -> (r: char)
    ensures
        r == lower_char(c),
{
    let u = c as u32;
    if 65 <= u && u <= 90 {
        ((u as u8) + 32) as char
    } else {
        c
    }
}

// ---------------------------------------------------------------------------
// The slug of a title, as a mathematical function
// ---------------------------------------------------------------------------

/// Every character that is not an ASCII letter or digit becomes a hyphen.
pub open spec fn dashify(s: Seq<char>) -> Seq<char> {
    s.map_values(
        |c: char|
            if is_slug_alnum(c) {
                c
            } else {
                '-'
            },
    )
}

/// Adjacent hyphens merge into one.
pub open spec fn collapse_dashes(s: Seq<char>) -> Seq<char>
    decreases s.len(),
{
    if s.len() == 0 {
        s
    } else if s.len() >= 2 && s[0] == '-' && s[1] == '-' {
        collapse_dashes(s.drop_first())
    } else {
        seq![s[0]] + collapse_dashes(s.drop_first())
    }
}

/// Leading and trailing hyphens are removed.
pub open spec fn trim_dashes(s: Seq<char>) -> Seq<char>
    decreases s.len(),
{
    if s.len() > 0 && s[0] == '-' {
        trim_dashes(s.drop_first())
    } else if s.len() > 0 && s.last() == '-' {
        trim_dashes(s.drop_last())
    } else {
        s
    }
}

/// ASCII lower-casing of a whole sequence.
pub open spec fn lower_all(s: Seq<char>) -> Seq<char> {
    s.map_values(|c: char| lower_char(c))
}

/// The slug of a title: separator runs become single hyphens, the ends are
/// trimmed, ASCII letters are lower-cased.
pub open spec fn slug_of(title: Seq<char>) -> Seq<char> {
    lower_all(trim_dashes(collapse_dashes(dashify(title))))
}

// ---------------------------------------------------------------------------
// The URL-fragment-safe shape of slugs
// ---------------------------------------------------------------------------

/// A character an anchor may hold: an ASCII lowercase letter, a digit, or
/// a hyphen.
pub open spec fn is_anchor_char(c: char) -> bool {
    ('a' as u32 <= c as u32 && c as u32 <= 'z' as u32) || ('0' as u32 <= c as u32 && c as u32
        <= '9' as u32) || c == '-'
}

/// Every character of the sequence is URL-fragment safe.
pub open spec fn anchor_shaped(s: Seq<char>) -> bool {
    forall|i: int| 0 <= i < s.len() ==> is_anchor_char(#[trigger] s[i])
}

/// What slug derivation works on before lower-casing: ASCII letters,
/// digits and hyphens.
spec fn alnum_or_dash(c: char) -> bool {
    is_slug_alnum(c) || c == '-'
}

proof fn lemma_collapse_chars(s: Seq<char>)
    requires
        forall|i: int| 0 <= i < s.len() ==> alnum_or_dash(#[trigger] s[i]),
    ensures
        forall|i: int|
            0 <= i < collapse_dashes(s).len() ==> alnum_or_dash(#[trigger] collapse_dashes(s)[i]),
    decreases s.len(),
{
    if s.len() == 0 {
    } else {
        let t = s.drop_first();
        assert(forall|i: int| 0 <= i < t.len() ==> alnum_or_dash(#[trigger] t[i]));
        lemma_collapse_chars(t);
        if s.len() >= 2 && s[0] == '-' && s[1] == '-' {
            assert(collapse_dashes(s) == collapse_dashes(t));
            assert forall|i: int| 0 <= i < collapse_dashes(s).len() implies alnum_or_dash(
                #[trigger] collapse_dashes(s)[i],
            ) by {
                assert(collapse_dashes(s)[i] == collapse_dashes(t)[i]);
            }
        } else {
            assert forall|i: int| 0 <= i < collapse_dashes(s).len() implies alnum_or_dash(
                #[trigger] collapse_dashes(s)[i],
            ) by {
                if i == 0 {
                    assert(collapse_dashes(s)[0] == s[0]);
                } else {
                    assert(collapse_dashes(s)[i] == collapse_dashes(t)[i - 1]);
                }
            }
        }
    }
}

proof fn lemma_trim_chars(s: Seq<char>)
    requires
        forall|i: int| 0 <= i < s.len() ==> alnum_or_dash(#[trigger] s[i]),
    ensures
        forall|i: int| 0 <= i < trim_dashes(s).len() ==> alnum_or_dash(#[trigger] trim_dashes(s)[i]),
    decreases s.len(),
{
    if s.len() > 0 && s[0] == '-' {
        let t = s.drop_first();
        assert(forall|i: int| 0 <= i < t.len() ==> alnum_or_dash(#[trigger] t[i]));
        lemma_trim_chars(t);
        assert(trim_dashes(s) == trim_dashes(t));
        assert forall|i: int| 0 <= i < trim_dashes(s).len() implies alnum_or_dash(
            #[trigger] trim_dashes(s)[i],
        ) by {
            assert(trim_dashes(s)[i] == trim_dashes(t)[i]);
        }
    } else if s.len() > 0 && s.last() == '-' {
        let t = s.drop_last();
        assert(forall|i: int| 0 <= i < t.len() ==> alnum_or_dash(#[trigger] t[i]));
        lemma_trim_chars(t);
        assert(trim_dashes(s) == trim_dashes(t));
        assert forall|i: int| 0 <= i < trim_dashes(s).len() implies alnum_or_dash(
            #[trigger] trim_dashes(s)[i],
        ) by {
            assert(trim_dashes(s)[i] == trim_dashes(t)[i]);
        }
    }
}

/// Slugs are URL-fragment safe: every character of the slug of any title
/// is an ASCII lowercase letter, a digit or a hyphen.
pub proof fn lemma_slug_anchor_shaped(title: Seq<char>)
    ensures
        anchor_shaped(slug_of(title)),
{
    let dashed = dashify(title);
    assert forall|i: int| 0 <= i < dashed.len() implies alnum_or_dash(#[trigger] dashed[i]) by {
        assert(dashed[i] == if is_slug_alnum(title[i]) {
            title[i]
        } else {
            '-'
        });
    }
    lemma_collapse_chars(dashed);
    let collapsed = collapse_dashes(dashed);
    lemma_trim_chars(collapsed);
    let trimmed = trim_dashes(collapsed);
    assert forall|i: int| 0 <= i < slug_of(title).len() implies is_anchor_char(
        #[trigger] slug_of(title)[i],
    ) by {
        let c = trimmed[i];
        assert(alnum_or_dash(c));
        assert(slug_of(title)[i] == lower_char(c));
    }
}

/// The decimal rendering of any number holds digits only, so it too is
/// URL-fragment safe.
pub proof fn lemma_dec_str_chars(n: nat)
    ensures
        anchor_shaped(dec_str(n)),
    decreases n,
{
    assert(digit_char((n % 10) as int) as u32 == 48 + n % 10);
    if n < 10 {
        assert(dec_str(n)[0] == digit_char(n as int));
    } else {
        lemma_dec_str_chars(n / 10);
        assert forall|i: int| 0 <= i < dec_str(n).len() implies is_anchor_char(
            #[trigger] dec_str(n)[i],
        ) by {
            if i < dec_str(n / 10).len() {
                assert(dec_str(n)[i] == dec_str(n / 10)[i]);
            } else {
                assert(dec_str(n)[i] == digit_char((n % 10) as int));
            }
        }
    }
}

// ---------------------------------------------------------------------------
// Executable slug derivation
// ---------------------------------------------------------------------------

/// Turns a `Vec` of characters into a `String` holding exactly those
/// characters. Relies on std's `FromIterator<char> for String` (`collect`),
/// which builds the string from the iterated characters in order.
#[verifier::external_body]
pub(crate) fn string_from_chars(v: &Vec<char>) -> (r: String)
    ensures
        r@ == v@,
{
    v.iter().collect()
}

proof fn lemma_trim_range(s: Seq<char>, a: int, b: int)
    requires
        0 <= a <= b <= s.len(),
        forall|j: int| 0 <= j < a ==> s[j] == '-',
        forall|j: int| b <= j < s.len() ==> s[j] == '-',
        a < b ==> s[a] != '-' && s[b - 1] != '-',
        a == b ==> b == s.len(),
    ensures
        trim_dashes(s) == s.subrange(a, b),
    decreases s.len(),
{
    if s.len() == 0 {
        assert(trim_dashes(s) =~= s.subrange(a, b));
    } else if a > 0 {
        let t = s.drop_first();
        assert(forall|j: int| 0 <= j < a - 1 ==> t[j] == '-');
        assert(forall|j: int| b - 1 <= j < t.len() ==> t[j] == '-');
        lemma_trim_range(t, a - 1, b - 1);
        assert(t.subrange(a - 1, b - 1) =~= s.subrange(a, b));
    } else if b < s.len() {
        // a == 0 and the last character is a trailing hyphen, so a < b
        assert(s.last() == '-');
        assert(s[0] != '-');
        let t = s.drop_last();
        assert(forall|j: int| b <= j < t.len() ==> t[j] == '-');
        lemma_trim_range(t, a, b);
        assert(t.subrange(a, b) =~= s.subrange(a, b));
    } else {
        // a == 0 and b == s.len(), so nothing is trimmed
        assert(s[0] != '-');
        assert(s[b - 1] == s.last());
        assert(trim_dashes(s) == s);
        assert(s.subrange(a, b) =~= s);
    }
}

/// Derives the URL-fragment-safe slug of a heading title.
pub fn slugify(title: &str) -> (r: String)
    ensures
        r@ == slug_of(title@),
{
    let n = title.unicode_len();

    // Replace every character that is not an ASCII letter or digit by '-'.
    let mut dashed: Vec<char> = Vec::new();
    let mut i: usize = 0;
    while i < n
        invariant
            n == title@.len(),
            0 <= i <= n,
            dashed@ == dashify(title@).take(i as int),
        decreases n - i,
    {
        let c = title.get_char(i);
        if char_is_slug_alnum(c) {
            dashed.push(c);
        } else {
            dashed.push('-');
        }
        proof {
            assert(dashed@ =~= dashify(title@).take(i + 1));
        }
        i = i + 1;
    }
    proof {
        assert(dashed@ =~= dashify(title@));
    }

    // Merge runs of hyphens.
    let mut collapsed: Vec<char> = Vec::new();
    let mut i: usize = 0;
    while i < dashed.len()
        invariant
            0 <= i <= dashed@.len(),
            collapsed@ + collapse_dashes(dashed@.skip(i as int)) == collapse_dashes(dashed@),
        decreases dashed@.len() - i,
    {
        let ghost rest = dashed@.skip(i as int);
        let c = dashed[i];
        let run = c == '-' && i + 1 < dashed.len() && dashed[i + 1] == '-';
        if !run {
            collapsed.push(c);
        }
        proof {
            assert(rest.len() == dashed@.len() - i);
            assert(rest[0] == dashed@[i as int]);
            assert(rest.drop_first() =~= dashed@.skip(i + 1));
            if run {
                assert(rest.len() >= 2 && rest[0] == '-' && rest[1] == '-');
                assert(collapse_dashes(rest) == collapse_dashes(rest.drop_first()));
            } else {
                assert(collapse_dashes(rest) == seq![rest[0]] + collapse_dashes(rest.drop_first()));
            }
            assert(collapsed@ + collapse_dashes(dashed@.skip(i + 1)) =~= collapse_dashes(dashed@));
        }
        i = i + 1;
    }
    proof {
        assert(dashed@.skip(dashed@.len() as int) =~= Seq::<char>::empty());
        assert(collapse_dashes(Seq::<char>::empty()).len() == 0);
        assert(collapsed@ =~= collapse_dashes(dashed@));
    }

    // Trim leading and trailing hyphens.
    let mut a: usize = 0;
    while a < collapsed.len() && collapsed[a] == '-'
        invariant
            0 <= a <= collapsed@.len(),
            forall|j: int| 0 <= j < a ==> collapsed@[j] == '-',
        decreases collapsed@.len() - a,
    {
        a = a + 1;
    }
    let mut b: usize = collapsed.len();
    while b > a && collapsed[b - 1] == '-'
        invariant
            a <= b <= collapsed@.len(),
            forall|j: int| b <= j < collapsed@.len() ==> collapsed@[j] == '-',
            a < collapsed@.len() ==> collapsed@[a as int] != '-',
            a < collapsed@.len() ==> b > a,
        decreases b,
    {
        b = b - 1;
    }

    // Lower-case the characters of the trimmed middle part.
    let mut out: Vec<char> = Vec::new();
    let mut j: usize = a;
    while j < b
        invariant
            a <= j <= b <= collapsed@.len(),
            out@ == lower_all(collapsed@.subrange(a as int, b as int)).take(j - a),
        decreases b - j,
    {
        let c = char_lower(collapsed[j]);
        out.push(c);
        proof {
            assert(collapsed@.subrange(a as int, b as int)[j - a] == collapsed@[j as int]);
            assert(out@ =~= lower_all(collapsed@.subrange(a as int, b as int)).take(j + 1 - a));
        }
        j = j + 1;
    }

    proof {
        lemma_trim_range(collapsed@, a as int, b as int);
        assert(out@ =~= lower_all(trim_dashes(collapsed@)));
        assert(out@ =~= slug_of(title@));
    }
    string_from_chars(&out)
}

// ---------------------------------------------------------------------------
// Decimal rendering
// ---------------------------------------------------------------------------

/// The character for one decimal digit.
pub open spec fn digit_char(d: int) -> char {
    if d == 0 {
        '0'
    } else if d == 1 {
        '1'
    } else if d == 2 {
        '2'
    } else if d == 3 {
        '3'
    } else if d == 4 {
        '4'
    } else if d == 5 {
        '5'
    } else if d == 6 {
        '6'
    } else if d == 7 {
        '7'
    } else if d == 8 {
        '8'
    } else {
        '9'
    }
}

/// The usual decimal rendering of a natural number, most significant digit
/// first, without leading zeros (except for 0 itself).
pub open spec fn dec_str(n: nat) -> Seq<char>
    decreases n,
{
    if n < 10 {
        seq![digit_char(n as int)]
    } else {
        dec_str(n / 10) + seq![digit_char((n % 10) as int)]
    }
}

pub proof fn lemma_dec_str_len(n: nat)
    ensures
        dec_str(n).len() >= 1,
    decreases n,
{
    if n >= 10 {
        lemma_dec_str_len(n / 10);
    }
}

proof fn lemma_digit_char_injective(x: int, y: int)
    requires
        0 <= x < 10,
        0 <= y < 10,
        digit_char(x) == digit_char(y),
    ensures
        x == y,
{
    assert(digit_char(x) as u32 == 48 + x);
    assert(digit_char(y) as u32 == 48 + y);
}

/// Distinct numbers render as distinct decimal strings.
pub proof fn lemma_dec_str_injective(a: nat, b: nat)
    requires
        dec_str(a) == dec_str(b),
    ensures
        a == b,
    decreases a + b,
{
    if a < 10 && b < 10 {
        assert(dec_str(a)[0] == digit_char(a as int));
        assert(dec_str(b)[0] == digit_char(b as int));
        lemma_digit_char_injective(a as int, b as int);
    } else if a < 10 && b >= 10 {
        lemma_dec_str_len(b / 10);
        assert(dec_str(b).len() >= 2);
    } else if a >= 10 && b < 10 {
        lemma_dec_str_len(a / 10);
        assert(dec_str(a).len() >= 2);
    } else {
        lemma_dec_str_len(a / 10);
        lemma_dec_str_len(b / 10);
        assert(dec_str(a).last() == digit_char((a % 10) as int));
        assert(dec_str(b).last() == digit_char((b % 10) as int));
        lemma_digit_char_injective((a % 10) as int, (b % 10) as int);
        assert(a % 10 == b % 10);
        assert(dec_str(a).drop_last() =~= dec_str(a / 10));
        assert(dec_str(b).drop_last() =~= dec_str(b / 10));
        lemma_dec_str_injective(a / 10, b / 10);
        vstd::arithmetic::div_mod::lemma_fundamental_div_mod(a as int, 10);
        vstd::arithmetic::div_mod::lemma_fundamental_div_mod(b as int, 10);
    }
}

fn digit_of(d: u8) -> (c: char)
    requires
        d < 10,
    ensures
        c == digit_char(d as int),
{
    match d {
        0 => '0',
        1 => '1',
        2 => '2',
        3 => '3',
        4 => '4',
        5 => '5',
        6 => '6',
        7 => '7',
        8 => '8',
        _ => '9',
    }
}

fn push_dec(digits: &mut Vec<char>, n: u128)
    ensures
        final(digits)@ == old(digits)@ + dec_str(n as nat),
    decreases n,
{
    if n < 10 {
        let c = digit_of(n as u8);
        digits.push(c);
        proof {
            assert(digits@ =~= old(digits)@ + dec_str(n as nat));
        }
    } else {
        push_dec(digits, n / 10);
        let c = digit_of((n % 10) as u8);
        digits.push(c);
        proof {
            assert((n / 10) as nat == n as nat / 10);
            assert((n % 10) as nat == n as nat % 10);
            assert(digits@ =~= old(digits)@ + dec_str(n as nat));
        }
    }
}

/// Renders a number in decimal, as used for anchor collision suffixes.
pub fn to_decimal(n: u128) -> (s: String)
    ensures
        s@ == dec_str(n as nat),
{
    let mut digits: Vec<char> = Vec::new();
    push_dec(&mut digits, n);
    string_from_chars(&digits)
}

} // verus!
