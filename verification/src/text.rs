//! Verified text helpers: character-level string comparison, suffix tests,
//! ASCII case mapping, extension extraction and decimal rendering. They back
//! the ignore rules, the format classifier and the manifest serializer.

use vstd::prelude::*;

verus! {

/// Lower-cases one ASCII letter; any other character is unchanged.
pub open spec fn spec_lower_char(c: char) -> char {
    if 'A' <= c && c <= 'Z' {
        ((c as u8) + 32) as char
    } else {
        c
    }
}

/// Upper-cases one ASCII letter; any other character is unchanged.
pub open spec fn spec_upper_char(c: char) -> char {
    if 'a' <= c && c <= 'z' {
        ((c as u8) - 32) as char
    } else {
        c
    }
}

/// ASCII lower-casing of a whole string, character by character.
pub open spec fn spec_lower_chars(s: Seq<char>) -> Seq<char> {
    s.map_values(|c: char| spec_lower_char(c))
}

/// ASCII upper-casing of a whole string, character by character.
pub open spec fn spec_upper_chars(s: Seq<char>) -> Seq<char> {
    s.map_values(|c: char| spec_upper_char(c))
}

/// `s` ends with the suffix `t`.
pub open spec fn spec_ends_with(s: Seq<char>, t: Seq<char>) -> bool {
    t.len() <= s.len() && s.subrange(s.len() - t.len(), s.len() as int) == t
}

/// Relies on `String::push`: appends the character to the end of the string.
#[verifier::external_body]
pub(crate) fn string_push(s: &mut String, c: char)
    ensures
        final(s)@ == old(s)@ + seq![c],
{
    s.push(c);
}

/// Relies on `str::chars`: yields exactly the string's characters, in order;
/// collecting them converts the result.
#[verifier::external_body]
pub(crate) fn str_chars(s: &str) -> (r: Vec<char>)
    ensures
        r@ == s@,
{
    s.chars().collect()
}

fn lower_char(c: char) -> (r: char)
    ensures
        r == spec_lower_char(c),
{
    if 'A' <= c && c <= 'Z' {
        ((c as u8) + 32) as char
    } else {
        c
    }
}

fn upper_char(c: char) -> (r: char)
    ensures
        r == spec_upper_char(c),
{
    if 'a' <= c && c <= 'z' {
        ((c as u8) - 32) as char
    } else {
        c
    }
}

/// Character-wise string equality.
pub fn str_eq(a: &str, b: &str) -> (r: bool)
    ensures
        r == (a@ == b@),
{
    let la = a.unicode_len();
    let lb = b.unicode_len();
    if la != lb {
        return false;
    }
    let mut i: usize = 0;
    while i < la
        invariant
            la == a@.len(),
            la == b@.len(),
            i <= la,
            forall|j: int| 0 <= j < i ==> a@[j] == b@[j],
        decreases la - i,
    {
        if a.get_char(i) != b.get_char(i) {
            return false;
        }
        i = i + 1;
    }
    proof {
        assert(a@ =~= b@);
    }
    true
}

/// Character-wise suffix test.
pub fn str_ends_with(s: &str, suffix: &str) -> (r: bool)
    ensures
        r == spec_ends_with(s@, suffix@),
{
    let ls = s.unicode_len();
    let lt = suffix.unicode_len();
    if lt > ls {
        return false;
    }
    let start = ls - lt;
    let mut j: usize = 0;
    while j < lt
        invariant
            ls == s@.len(),
            lt == suffix@.len(),
            lt <= ls,
            start == ls - lt,
            j <= lt,
            forall|k: int| 0 <= k < j ==> s@[start + k] == suffix@[k],
        decreases lt - j,
    {
        if s.get_char(start + j) != suffix.get_char(j) {
            proof {
                assert(s@.subrange(start as int, ls as int)[j as int] != suffix@[j as int]);
            }
            return false;
        }
        j = j + 1;
    }
    proof {
        assert(s@.subrange(start as int, ls as int) =~= suffix@);
    }
    true
}

fn map_chars_upper_or_lower(s: &str, to_upper: bool) -> (r: String)
    ensures
        to_upper ==> r@ == spec_upper_chars(s@),
        !to_upper ==> r@ == spec_lower_chars(s@),
{
    let len = s.unicode_len();
    let mut out = String::new();
    let mut i: usize = 0;
    while i < len
        invariant
            len == s@.len(),
            i <= len,
            to_upper ==> out@ =~= spec_upper_chars(s@).subrange(0, i as int),
            !to_upper ==> out@ =~= spec_lower_chars(s@).subrange(0, i as int),
        decreases len - i,
    {
        let c = s.get_char(i);
        let m = if to_upper {
            upper_char(c)
        } else {
            lower_char(c)
        };
        string_push(&mut out, m);
        i = i + 1;
    }
    proof {
        if to_upper {
            assert(out@ =~= spec_upper_chars(s@));
        } else {
            assert(out@ =~= spec_lower_chars(s@));
        }
    }
    out
}

/// ASCII upper-casing of a string.
pub fn to_upper_string(s: &str) -> (r: String)
    ensures
        r@ == spec_upper_chars(s@),
{
    map_chars_upper_or_lower(s, true)
}

/// ASCII lower-casing of a string.
pub fn to_lower_string(s: &str) -> (r: String)
    ensures
        r@ == spec_lower_chars(s@),
{
    map_chars_upper_or_lower(s, false)
}

/// Every space replaced by an underscore; all other characters unchanged.
pub open spec fn spec_underscored(s: Seq<char>) -> Seq<char> {
    s.map_values(|c: char| if c == ' ' { '_' } else { c })
}

/// Replaces each space with an underscore.
pub fn underscored(s: &str) -> (r: String)
    ensures
        r@ == spec_underscored(s@),
{
    let len = s.unicode_len();
    let mut out = String::new();
    let mut i: usize = 0;
    while i < len
        invariant
            len == s@.len(),
            i <= len,
            out@ =~= spec_underscored(s@).subrange(0, i as int),
        decreases len - i,
    {
        let c = s.get_char(i);
        let m = if c == ' ' {
            '_'
        } else {
            c
        };
        string_push(&mut out, m);
        i = i + 1;
    }
    proof {
        assert(out@ =~= spec_underscored(s@));
    }
    out
}

/// The decimal digit character for `d`.
pub open spec fn spec_digit_char(d: nat) -> char {
    ((48 + d) as u8) as char
}

/// The decimal rendering of an unsigned number, most significant digit first.
pub open spec fn spec_dec_nat(n: nat) -> Seq<char>
    decreases n,
{
    if n < 10 {
        seq![spec_digit_char(n)]
    } else {
        spec_dec_nat(n / 10).push(spec_digit_char(n % 10))
    }
}

/// The decimal rendering of a signed number: a minus sign, if negative, then
/// the digits of the magnitude.
pub open spec fn spec_dec_int(n: int) -> Seq<char> {
    if n < 0 {
        seq!['-'] + spec_dec_nat((-n) as nat)
    } else {
        spec_dec_nat(n as nat)
    }
}

fn digit_char(d: u64) -> (r: char)
    requires
        d < 10,
    ensures
        r == spec_digit_char(d as nat),
{
    (48 + (d as u8)) as char
}

/// Appends the decimal rendering of `n`.
pub fn push_dec_u64(out: &mut String, n: u64)
    ensures
        final(out)@ == old(out)@ + spec_dec_nat(n as nat),
    decreases n,
{
    if n < 10 {
        string_push(out, digit_char(n));
    } else {
        push_dec_u64(out, n / 10);
        string_push(out, digit_char(n % 10));
    }
}

/// Appends the decimal rendering of `n`, sign included.
pub fn push_dec_i32(out: &mut String, n: i32)
    ensures
        final(out)@ == old(out)@ + spec_dec_int(n as int),
{
    if n < 0 {
        string_push(out, '-');
        let magnitude: u64 = (-(n as i64)) as u64;
        assert(magnitude == -(n as int));
        push_dec_u64(out, magnitude);
    } else {
        push_dec_u64(out, n as u64);
    }
}

/// The extension of a file name: the characters after the last dot, where
/// that dot is not the leading character (so dot-files such as `.gitignore`
/// have none), or `None` when no such dot exists.
pub open spec fn spec_extension(s: Seq<char>) -> Option<Seq<char>>
    decreases s.len(),
{
    if s.len() <= 1 {
        None
    } else if s[s.len() - 1] == '.' {
        Some(Seq::empty())
    } else {
        match spec_extension(s.drop_last()) {
            Some(e) => Some(e.push(s[s.len() - 1])),
            None => None,
        }
    }
}

proof fn lemma_extension_with_last_dot(s: Seq<char>, d: int)
    requires
        1 <= d < s.len(),
        s[d] == '.',
        forall|j: int| d < j < s.len() ==> s[j] != '.',
    ensures
        spec_extension(s) == Some(s.subrange(d + 1, s.len() as int)),
    decreases s.len(),
{
    if d == s.len() - 1 {
        assert(s.subrange(d + 1, s.len() as int) =~= Seq::<char>::empty());
    } else {
        lemma_extension_with_last_dot(s.drop_last(), d);
        assert(s.drop_last().subrange(d + 1, s.len() - 1).push(s[s.len() - 1]) =~= s.subrange(
            d + 1,
            s.len() as int,
        ));
    }
}

proof fn lemma_extension_without_dot(s: Seq<char>)
    requires
        forall|j: int| 1 <= j < s.len() ==> s[j] != '.',
    ensures
        spec_extension(s) is None,
    decreases s.len(),
{
    if s.len() > 1 {
        lemma_extension_without_dot(s.drop_last());
    }
}

/// The extension of a file name, or `None` when it has none.
pub fn extension_of(name: &str) -> (r: Option<String>)
    ensures
        match r {
            Some(e) => spec_extension(name@) == Some(e@),
            None => spec_extension(name@) is None,
        },
{
    let len = name.unicode_len();
    let mut i: usize = len;
    while i > 1
        invariant
            len == name@.len(),
            i <= len,
            forall|j: int| i <= j < len ==> name@[j] != '.',
        decreases i,
    {
        let c = name.get_char(i - 1);
        if c == '.' {
            let ext = name.substring_char(i, len);
            proof {
                lemma_extension_with_last_dot(name@, i - 1);
            }
            return Some(ext.to_owned());
        }
        i = i - 1;
    }
    proof {
        lemma_extension_without_dot(name@);
    }
    None
}

} // verus!
