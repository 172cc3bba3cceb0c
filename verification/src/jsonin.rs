//! The parser for the manifest's serialized form.
//!
//! It reads exactly the canonical text the serializer writes, in both
//! directions: an accepted input is proved to be the canonical rendering of
//! the manifest returned, so whatever this parser yields round-trips to the
//! bytes it was given; and a refused input is proved to be no manifest's
//! canonical rendering at all, so everything the serializer writes parses
//! back. Text in any other shape — foreign field order, other whitespace,
//! non-canonical escapes or numerals — is refused, never misread.

use vstd::prelude::*;

use crate::jsonout::{
    header_a_json,
    header_b_json,
    header_c_json,
    header_d_json,
    spec_certificate_json,
    spec_escaped,
    spec_escaped_char,
    spec_file_items,
    spec_file_object,
    spec_files_array,
    spec_files_tail_json,
    spec_header_json,
    spec_hex_char,
    spec_manifest_json,
    spec_quoted,
    spec_string_array,
    spec_string_items,
};
use crate::manifest::{artwork_views, ArtworkFile, ArtworkFileAbs, Metadata};
use crate::text::{spec_dec_int, spec_dec_nat, spec_digit_char, str_chars, string_push};

verus! {

/// `p` stands at the front of `t`.
pub open spec fn spec_starts_with(t: Seq<char>, p: Seq<char>) -> bool {
    p.len() <= t.len() && t.subrange(0, p.len() as int) == p
}

/// What is left of `s` from position `i` on.
pub open spec fn suffix_from(s: Seq<char>, i: int) -> Seq<char> {
    s.subrange(i, s.len() as int)
}

/// Consumes the literal `lit` at `*i` exactly when the text there starts
/// with it; otherwise consumes nothing.
#[verifier::loop_isolation(false)]
fn eat_lit(s: &Vec<char>, i: &mut usize, lit: &str) -> (ok: bool)
    requires
        *old(i) <= s@.len(),
    ensures
        *old(i) <= *final(i) <= s@.len(),
        ok <==> spec_starts_with(suffix_from(s@, *old(i) as int), lit@),
        ok ==> *final(i) == *old(i) + lit@.len() && s@.subrange(
            *old(i) as int,
            *final(i) as int,
        ) == lit@,
        !ok ==> *final(i) == *old(i),
{
    let start = *i;
    let ghost tail = suffix_from(s@, start as int);
    let n = lit.unicode_len();
    if s.len() - start < n {
        return false;
    }
    let mut k: usize = 0;
    while k < n
        invariant
            start + n <= s@.len(),
            n == lit@.len(),
            k <= n,
            forall|m: int| 0 <= m < k ==> s@[start + m] == lit@[m],
        decreases n - k,
    {
        if s[start + k] != lit.get_char(k) {
            proof {
                if spec_starts_with(tail, lit@) {
                    assert(tail.subrange(0, n as int)[k as int] == lit@[k as int]);
                    assert(tail[k as int] == s@[start + k]);
                }
            }
            return false;
        }
        k = k + 1;
    }
    *i = start + n;
    proof {
        assert(s@.subrange(start as int, (start + n) as int) =~= lit@);
        assert(tail.subrange(0, n as int) =~= s@.subrange(start as int, (start + n) as int));
    }
    true
}

fn hex_val(c: char) -> (r: Option<u32>)
    ensures
        match r {
            Some(v) => v < 16 && spec_hex_char(v as nat) == c,
            None => forall|d: nat| d < 16 ==> spec_hex_char(d) != c,
        },
{
    if '0' <= c && c <= '9' {
        Some((c as u32) - 48)
    } else if 'a' <= c && c <= 'f' {
        Some((c as u32) - 87)
    } else {
        proof {
            assert forall|d: nat| d < 16 implies spec_hex_char(d) != c by {
                if d < 10 {
                    assert(spec_hex_char(d) as int == 48 + d);
                } else {
                    assert(spec_hex_char(d) as int == 87 + d);
                }
            }
        }
        None
    }
}

/// The unicode scalar value determines the character.
proof fn lemma_char_code_injective(a: char, b: char)
    requires
        a as u32 == b as u32,
    ensures
        a == b,
{
}

proof fn lemma_hex_char_injective(x: nat, y: nat)
    requires
        x < 16,
        y < 16,
        spec_hex_char(x) == spec_hex_char(y),
    ensures
        x == y,
{
    if x < 10 {
        assert(spec_hex_char(x) as int == 48 + x);
    } else {
        assert(spec_hex_char(x) as int == 87 + x);
    }
    if y < 10 {
        assert(spec_hex_char(y) as int == 48 + y);
    } else {
        assert(spec_hex_char(y) as int == 87 + y);
    }
}

/// The escape of one character is one, two or six characters long, never
/// begins with a quote, and its shape pins the character down.
proof fn lemma_escaped_char_shape(c: char)
    ensures
        spec_escaped_char(c).len() == 1 || spec_escaped_char(c).len() == 2
            || spec_escaped_char(c).len() == 6,
        spec_escaped_char(c)[0] != '"',
        spec_escaped_char(c).len() == 1 ==> spec_escaped_char(c) == seq![c] && c != '"' && c
            != '\\' && (c as u32) >= 32,
        spec_escaped_char(c).len() >= 2 ==> spec_escaped_char(c)[0] == '\\',
        spec_escaped_char(c).len() == 2 ==> (spec_escaped_char(c)[1] == '"' || spec_escaped_char(
            c,
        )[1] == '\\' || spec_escaped_char(c)[1] == 'b' || spec_escaped_char(c)[1] == 't'
            || spec_escaped_char(c)[1] == 'n' || spec_escaped_char(c)[1] == 'f'
            || spec_escaped_char(c)[1] == 'r') && spec_escaped_char(c)[1] != 'u',
        spec_escaped_char(c).len() == 6 ==> (c as u32) < 32 && spec_escaped_char(c) == seq![
            '\\',
            'u',
            '0',
            '0',
            spec_hex_char(((c as u32) as nat) / 16),
            spec_hex_char(((c as u32) as nat) % 16),
        ] && c != '\u{8}' && c != '\t' && c != '\n' && c != '\u{c}' && c != '\r',
{
}

proof fn lemma_escaped_char_injective(a: char, b: char)
    requires
        spec_escaped_char(a) == spec_escaped_char(b),
    ensures
        a == b,
{
    lemma_escaped_char_shape(a);
    lemma_escaped_char_shape(b);
    if spec_escaped_char(a).len() == 6 {
        lemma_hex_char_injective(((a as u32) as nat) / 16, ((b as u32) as nat) / 16);
        lemma_hex_char_injective(((a as u32) as nat) % 16, ((b as u32) as nat) % 16);
        assert((a as u32) == (b as u32));
    }
}

proof fn lemma_escaped_concat(a: Seq<char>, b: Seq<char>)
    ensures
        spec_escaped(a + b) == spec_escaped(a) + spec_escaped(b),
    decreases b.len(),
{
    if b.len() == 0 {
        assert(a + b =~= a);
        assert(spec_escaped(a) + spec_escaped(b) =~= spec_escaped(a));
    } else {
        lemma_escaped_concat(a, b.drop_last());
        assert((a + b).drop_last() =~= a + b.drop_last());
        assert((a + b).last() == b.last());
        assert(spec_escaped(a) + spec_escaped(b.drop_last()) + spec_escaped_char(b.last()) =~= 
        spec_escaped(a) + spec_escaped(b));
    }
}

proof fn lemma_escaped_first(u: Seq<char>)
    requires
        u.len() >= 1,
    ensures
        spec_escaped(u) == spec_escaped_char(u[0]) + spec_escaped(u.drop_first()),
{
    lemma_escaped_concat(seq![u[0]], u.drop_first());
    assert(seq![u[0]] + u.drop_first() =~= u);
    assert(spec_escaped(Seq::<char>::empty()) == Seq::<char>::empty());
    assert(seq![u[0]].drop_last() =~= Seq::<char>::empty());
    assert(spec_escaped(seq![u[0]]) =~= spec_escaped_char(u[0]));
}

/// `tail` begins with a whole quoted string.
spec fn quoted_prefix(tail: Seq<char>, u: Seq<char>) -> bool {
    spec_starts_with(tail, spec_quoted(u))
}

/// Where a quoted string of `u` stands at the front of `tail` and the first
/// `k` characters of `u` are already consumed, the text at `pos` holds the
/// escape of `u[k]` — or the closing quote when everything is consumed.
proof fn lemma_quoted_unit(tail: Seq<char>, u: Seq<char>, k: int, pos: int)
    requires
        quoted_prefix(tail, u),
        0 <= k <= u.len(),
        pos == 1 + spec_escaped(u.subrange(0, k)).len(),
    ensures
        k < u.len() ==> pos + spec_escaped_char(u[k]).len() + 1 <= tail.len() && tail.subrange(
            pos,
            pos + spec_escaped_char(u[k]).len() as int,
        ) == spec_escaped_char(u[k]),
        k == u.len() ==> pos < tail.len() && tail[pos] == '"',
{
    let a = u.subrange(0, k);
    let b = u.subrange(k, u.len() as int);
    lemma_escaped_concat(a, b);
    assert(a + b =~= u);
    let q = spec_quoted(u);
    assert(tail.subrange(0, q.len() as int) == q);
    if k < u.len() {
        lemma_escaped_first(b);
        assert(b[0] == u[k]);
        assert(b.drop_first() =~= u.subrange(k + 1, u.len() as int));
        let unit = spec_escaped_char(u[k]);
        assert(q.len() == 2 + spec_escaped(a).len() + unit.len() + spec_escaped(
            b.drop_first(),
        ).len());
        assert forall|y: int| 0 <= y < unit.len() implies tail.subrange(
            pos,
            pos + unit.len() as int,
        )[y] == unit[y] by {
            assert(tail[pos + y] == tail.subrange(0, q.len() as int)[pos + y]);
            assert(q[pos + y] == (spec_escaped(a) + (unit + spec_escaped(b.drop_first())))[pos - 1
                + y]);
        }
        assert(tail.subrange(pos, pos + unit.len() as int) =~= unit);
    } else {
        assert(b =~= Seq::<char>::empty());
        assert(spec_escaped(Seq::<char>::empty()) == Seq::<char>::empty());
        assert(q[pos] == '"');
        assert(tail[pos] == tail.subrange(0, q.len() as int)[pos]);
    }
}

/// The state the string loop maintains: everything consumed so far is the
/// opening quote plus the escape of `acc`, and `acc` is a prefix of every
/// string whose quoted form stands at the front of `tail`.
spec fn string_scan_inv(tail: Seq<char>, acc: Seq<char>, pos: int) -> bool {
    &&& pos == 1 + spec_escaped(acc).len()
    &&& forall|u: Seq<char>| #[trigger] quoted_prefix(tail, u) ==> acc.len() <= u.len() && acc
        == u.subrange(0, acc.len() as int)
}

proof fn lemma_string_dichotomy(tail: Seq<char>, acc: Seq<char>, pos: int, u: Seq<char>)
    requires
        string_scan_inv(tail, acc, pos),
        quoted_prefix(tail, u),
    ensures
        pos < tail.len(),
        acc.len() == u.len() ==> tail[pos] == '"' && acc == u,
        acc.len() < u.len() ==> {
            let unit = spec_escaped_char(u[acc.len() as int]);
            &&& pos + unit.len() + 1 <= tail.len()
            &&& tail.subrange(pos, pos + unit.len() as int) == unit
            &&& unit[0] == tail[pos]
        },
{
    let k = acc.len() as int;
    assert(spec_escaped(u.subrange(0, k)) == spec_escaped(acc));
    lemma_quoted_unit(tail, u, k, pos);
    if k == u.len() {
        assert(u.subrange(0, u.len() as int) =~= u);
    } else {
        let unit = spec_escaped_char(u[k]);
        assert(tail.subrange(pos, pos + unit.len() as int)[0] == unit[0]);
        lemma_escaped_char_shape(u[k]);
    }
}

proof fn lemma_string_close(tail: Seq<char>, acc: Seq<char>, pos: int)
    requires
        string_scan_inv(tail, acc, pos),
        pos < tail.len(),
        tail[pos] == '"',
    ensures
        forall|u: Seq<char>| quoted_prefix(tail, u) ==> u == acc,
{
    assert forall|u: Seq<char>| quoted_prefix(tail, u) implies u == acc by {
        lemma_string_dichotomy(tail, acc, pos, u);
        if acc.len() < u.len() {
            lemma_escaped_char_shape(u[acc.len() as int]);
        }
    }
}

proof fn lemma_string_exhausted(tail: Seq<char>, acc: Seq<char>, pos: int)
    requires
        string_scan_inv(tail, acc, pos),
        pos >= tail.len(),
    ensures
        forall|u: Seq<char>| !quoted_prefix(tail, u),
{
    assert forall|u: Seq<char>| !quoted_prefix(tail, u) by {
        if quoted_prefix(tail, u) {
            lemma_string_dichotomy(tail, acc, pos, u);
        }
    }
}

proof fn lemma_string_bare_control(tail: Seq<char>, acc: Seq<char>, pos: int)
    requires
        string_scan_inv(tail, acc, pos),
        pos < tail.len(),
        tail[pos] != '"',
        tail[pos] != '\\',
        (tail[pos] as u32) < 32,
    ensures
        forall|u: Seq<char>| !quoted_prefix(tail, u),
{
    assert forall|u: Seq<char>| !quoted_prefix(tail, u) by {
        if quoted_prefix(tail, u) {
            lemma_string_dichotomy(tail, acc, pos, u);
            lemma_escaped_char_shape(u[acc.len() as int]);
        }
    }
}

proof fn lemma_string_step_plain(tail: Seq<char>, acc: Seq<char>, pos: int, c: char)
    requires
        string_scan_inv(tail, acc, pos),
        pos < tail.len(),
        tail[pos] == c,
        c != '"',
        c != '\\',
        (c as u32) >= 32,
    ensures
        string_scan_inv(tail, acc.push(c), pos + 1),
{
    assert(spec_escaped_char(c) =~= seq![c]);
    assert(acc.push(c).drop_last() =~= acc);
    assert(spec_escaped(acc.push(c)) == spec_escaped(acc) + spec_escaped_char(c));
    assert forall|u: Seq<char>| #[trigger] quoted_prefix(tail, u) implies acc.push(c).len()
        <= u.len() && acc.push(c) == u.subrange(0, acc.push(c).len() as int) by {
        lemma_string_dichotomy(tail, acc, pos, u);
        let k = acc.len() as int;
        lemma_escaped_char_shape(u[k]);
        assert(u[k] == c);
        assert(u.subrange(0, k + 1) =~= u.subrange(0, k).push(u[k]));
    }
}

/// The escape of one character stands at `pos`: every quoted string at the
/// front of `tail` continues with exactly that character.
proof fn lemma_string_step_escape(tail: Seq<char>, acc: Seq<char>, pos: int, decoded: char)
    requires
        string_scan_inv(tail, acc, pos),
        spec_escaped_char(decoded).len() >= 2,
        pos + spec_escaped_char(decoded).len() <= tail.len(),
        tail.subrange(pos, pos + spec_escaped_char(decoded).len() as int) == spec_escaped_char(
            decoded,
        ),
    ensures
        string_scan_inv(tail, acc.push(decoded), pos + spec_escaped_char(decoded).len()),
{
    assert(acc.push(decoded).drop_last() =~= acc);
    assert(spec_escaped(acc.push(decoded)) == spec_escaped(acc) + spec_escaped_char(decoded));
    lemma_escaped_char_shape(decoded);
    let d_unit = spec_escaped_char(decoded);
    assert(tail[pos] == tail.subrange(pos, pos + d_unit.len() as int)[0]);
    assert(tail[pos + 1] == tail.subrange(pos, pos + d_unit.len() as int)[1]);
    assert forall|u: Seq<char>| #[trigger] quoted_prefix(tail, u) implies acc.push(decoded).len()
        <= u.len() && acc.push(decoded) == u.subrange(0, acc.push(decoded).len() as int) by {
        lemma_string_dichotomy(tail, acc, pos, u);
        let k = acc.len() as int;
        let unit = spec_escaped_char(u[k]);
        lemma_escaped_char_shape(u[k]);
        assert(unit.len() >= 2) by {
            if unit.len() == 1 {
                assert(unit[0] == u[k]);
            }
        }
        assert(unit[1] == tail[pos + 1]) by {
            assert(tail.subrange(pos, pos + unit.len() as int)[1] == unit[1]);
        }
        assert(unit.len() == d_unit.len()) by {
            assert(d_unit[1] == tail[pos + 1]);
        }
        assert(unit =~= d_unit) by {
            assert(forall|y: int|
                0 <= y < unit.len() ==> tail.subrange(pos, pos + unit.len() as int)[y] == #[
                trigger] unit[y]);
            assert(forall|y: int|
                0 <= y < d_unit.len() ==> tail.subrange(pos, pos + d_unit.len() as int)[y] == #[
                trigger] d_unit[y]);
        }
        lemma_escaped_char_injective(u[k], decoded);
        assert(u.subrange(0, k + 1) =~= u.subrange(0, k).push(u[k]));
    }
}

proof fn lemma_string_truncated_escape(tail: Seq<char>, acc: Seq<char>, pos: int)
    requires
        string_scan_inv(tail, acc, pos),
        pos < tail.len(),
        tail[pos] == '\\',
        pos + 1 >= tail.len(),
    ensures
        forall|u: Seq<char>| !quoted_prefix(tail, u),
{
    assert forall|u: Seq<char>| !quoted_prefix(tail, u) by {
        if quoted_prefix(tail, u) {
            lemma_string_dichotomy(tail, acc, pos, u);
            lemma_escaped_char_shape(u[acc.len() as int]);
        }
    }
}

proof fn lemma_string_bad_escape(tail: Seq<char>, acc: Seq<char>, pos: int, e: char)
    requires
        string_scan_inv(tail, acc, pos),
        pos + 1 < tail.len(),
        tail[pos] == '\\',
        tail[pos + 1] == e,
        e != '"' && e != '\\' && e != 'b' && e != 't' && e != 'n' && e != 'f' && e != 'r' && e
            != 'u',
    ensures
        forall|u: Seq<char>| !quoted_prefix(tail, u),
{
    assert forall|u: Seq<char>| !quoted_prefix(tail, u) by {
        if quoted_prefix(tail, u) {
            lemma_string_dichotomy(tail, acc, pos, u);
            let k = acc.len() as int;
            let unit = spec_escaped_char(u[k]);
            lemma_escaped_char_shape(u[k]);
            if acc.len() < u.len() {
                assert(unit.len() >= 2) by {
                    if unit.len() == 1 {
                        assert(unit[0] == u[k]);
                    }
                }
                assert(unit[1] == tail[pos + 1]) by {
                    assert(tail.subrange(pos, pos + unit.len() as int)[1] == unit[1]);
                }
            }
        }
    }
}

/// The common facts at a `\u` escape: the unit there is six characters.
proof fn lemma_string_unicode_unit(tail: Seq<char>, acc: Seq<char>, pos: int, u: Seq<char>)
    requires
        string_scan_inv(tail, acc, pos),
        quoted_prefix(tail, u),
        pos + 1 < tail.len(),
        tail[pos] == '\\',
        tail[pos + 1] == 'u',
    ensures
        acc.len() < u.len(),
        spec_escaped_char(u[acc.len() as int]).len() == 6,
        pos + 7 <= tail.len(),
        tail.subrange(pos, pos + 6) == spec_escaped_char(u[acc.len() as int]),
{
    lemma_string_dichotomy(tail, acc, pos, u);
    let k = acc.len() as int;
    let unit = spec_escaped_char(u[k]);
    lemma_escaped_char_shape(u[k]);
    assert(unit.len() >= 2) by {
        if unit.len() == 1 {
            assert(unit[0] == u[k]);
        }
    }
    assert(unit[1] == tail[pos + 1]) by {
        assert(tail.subrange(pos, pos + unit.len() as int)[1] == unit[1]);
    }
}

proof fn lemma_string_bad_unicode(tail: Seq<char>, acc: Seq<char>, pos: int)
    requires
        string_scan_inv(tail, acc, pos),
        pos + 1 < tail.len(),
        tail[pos] == '\\',
        tail[pos + 1] == 'u',
        tail.len() < pos + 7 || tail[pos + 2] != '0' || tail[pos + 3] != '0',
    ensures
        forall|u: Seq<char>| !quoted_prefix(tail, u),
{
    assert forall|u: Seq<char>| !quoted_prefix(tail, u) by {
        if quoted_prefix(tail, u) {
            lemma_string_unicode_unit(tail, acc, pos, u);
            let k = acc.len() as int;
            let unit = spec_escaped_char(u[k]);
            lemma_escaped_char_shape(u[k]);
            assert(tail[pos + 2] == unit[2] && tail[pos + 3] == unit[3]) by {
                assert(tail.subrange(pos, pos + 6)[2] == unit[2]);
                assert(tail.subrange(pos, pos + 6)[3] == unit[3]);
            }
        }
    }
}

proof fn lemma_string_bad_hex(tail: Seq<char>, acc: Seq<char>, pos: int, off: int)
    requires
        string_scan_inv(tail, acc, pos),
        pos + 1 < tail.len(),
        tail[pos] == '\\',
        tail[pos + 1] == 'u',
        pos + 6 <= tail.len(),
        off == 4 || off == 5,
        forall|d: nat| d < 16 ==> spec_hex_char(d) != tail[pos + off],
    ensures
        forall|u: Seq<char>| !quoted_prefix(tail, u),
{
    assert forall|u: Seq<char>| !quoted_prefix(tail, u) by {
        if quoted_prefix(tail, u) {
            lemma_string_unicode_unit(tail, acc, pos, u);
            let k = acc.len() as int;
            let unit = spec_escaped_char(u[k]);
            lemma_escaped_char_shape(u[k]);
            let code = (u[k] as u32) as nat;
            assert(code < 32 && code / 16 < 16 && code % 16 < 16);
            assert(unit[4] == spec_hex_char(code / 16) && unit[5] == spec_hex_char(code % 16));
            assert(tail[pos + off] == unit[off]) by {
                assert(tail.subrange(pos, pos + 6)[off] == unit[off]);
            }
            if off == 4 {
                assert(spec_hex_char(code / 16) == tail[pos + off]);
            } else {
                assert(spec_hex_char(code % 16) == tail[pos + off]);
            }
        }
    }
}

proof fn lemma_string_bad_code(tail: Seq<char>, acc: Seq<char>, pos: int, h1: nat, h2: nat)
    requires
        string_scan_inv(tail, acc, pos),
        pos + 1 < tail.len(),
        tail[pos] == '\\',
        tail[pos + 1] == 'u',
        pos + 6 <= tail.len(),
        h1 < 16,
        h2 < 16,
        spec_hex_char(h1) == tail[pos + 4],
        spec_hex_char(h2) == tail[pos + 5],
        ({
            let v = h1 * 16 + h2;
            !(v < 32 && v != 8 && v != 9 && v != 10 && v != 12 && v != 13)
        }),
    ensures
        forall|u: Seq<char>| !quoted_prefix(tail, u),
{
    assert forall|u: Seq<char>| !quoted_prefix(tail, u) by {
        if quoted_prefix(tail, u) {
            lemma_string_unicode_unit(tail, acc, pos, u);
            let k = acc.len() as int;
            let unit = spec_escaped_char(u[k]);
            lemma_escaped_char_shape(u[k]);
            let code = (u[k] as u32) as nat;
            assert(code < 32 && code / 16 < 16 && code % 16 < 16);
            assert(unit[4] == spec_hex_char(code / 16) && unit[5] == spec_hex_char(code % 16));
            assert(tail[pos + 4] == unit[4] && tail[pos + 5] == unit[5]) by {
                assert(tail.subrange(pos, pos + 6)[4] == unit[4]);
                assert(tail.subrange(pos, pos + 6)[5] == unit[5]);
            }
            lemma_hex_char_injective(h1, code / 16);
            lemma_hex_char_injective(h2, code % 16);
            assert(code / 16 * 16 + code % 16 == code);
            assert(h1 * 16 + h2 == code);
            assert('\u{8}' as u32 == 8 && '\t' as u32 == 9 && '\n' as u32 == 10 && '\u{c}' as u32
                == 12 && '\r' as u32 == 13);
            if code == 8 {
                lemma_char_code_injective(u[k], '\u{8}');
            }
            if code == 9 {
                lemma_char_code_injective(u[k], '\t');
            }
            if code == 10 {
                lemma_char_code_injective(u[k], '\n');
            }
            if code == 12 {
                lemma_char_code_injective(u[k], '\u{c}');
            }
            if code == 13 {
                lemma_char_code_injective(u[k], '\r');
            }
            assert(code != 8 && code != 9 && code != 10 && code != 12 && code != 13);
        }
    }
}

proof fn lemma_string_no_open(tail: Seq<char>)
    requires
        tail.len() == 0 || tail[0] != '"',
    ensures
        forall|u: Seq<char>| !quoted_prefix(tail, u),
{
    assert forall|u: Seq<char>| !quoted_prefix(tail, u) by {
        if quoted_prefix(tail, u) {
            assert(tail.subrange(0, spec_quoted(u).len() as int)[0] == spec_quoted(u)[0]);
        }
    }
}

/// Consumes one canonically escaped JSON string at `*i`, quotes included, or
/// consumes nothing. An accepted span is exactly the serializer's rendering
/// of the returned value; where a quoted string stands, exactly that string
/// is read, and where none stands, nothing is.
#[verifier::loop_isolation(false)]
#[verifier::rlimit(100)]
fn parse_string(s: &Vec<char>, i: &mut usize) -> (r: Option<String>)
    requires
        *old(i) <= s@.len(),
    ensures
        *old(i) <= *final(i) <= s@.len(),
        match r {
            Some(v) => s@.subrange(*old(i) as int, *final(i) as int) == spec_quoted(v@) && (forall|
                u: Seq<char>,
            | quoted_prefix(suffix_from(s@, *old(i) as int), u) ==> v@ == u),
            None => *final(i) == *old(i) && (forall|u: Seq<char>|
                !quoted_prefix(suffix_from(s@, *old(i) as int), u)),
        },
{
    let start = *i;
    let len = s.len();
    let ghost tail = suffix_from(s@, start as int);
    if start >= len || s[start] != '"' {
        proof {
            if start < len {
                assert(tail[0] == s@[start as int]);
            }
            lemma_string_no_open(tail);
        }
        return None;
    }
    let mut idx = start + 1;
    let mut acc = String::new();
    proof {
        assert(spec_escaped(Seq::<char>::empty()) == Seq::<char>::empty());
        assert(s@.subrange(start as int, (start + 1) as int) =~= seq!['"'] + spec_escaped(acc@));
        assert forall|u: Seq<char>| #[trigger] quoted_prefix(tail, u) implies acc@.len() <= u.len()
            && acc@ == u.subrange(0, acc@.len() as int) by {
            assert(u.subrange(0, 0) =~= Seq::<char>::empty());
        }
    }
    while idx < len
        invariant
            len == s@.len(),
            start + 1 <= idx <= len,
            s@[start as int] == '"',
            s@.subrange(start as int, idx as int) == seq!['"'] + spec_escaped(acc@),
            string_scan_inv(tail, acc@, idx - start),
        decreases len - idx,
    {
        let c = s[idx];
        proof {
            assert(tail[idx - start] == c);
        }
        if c == '"' {
            *i = idx + 1;
            proof {
                assert(s@.subrange(start as int, (idx + 1) as int) =~= (seq!['"'] + spec_escaped(
                    acc@,
                )).push('"'));
                assert((seq!['"'] + spec_escaped(acc@)).push('"') =~= spec_quoted(acc@));
                lemma_string_close(tail, acc@, idx - start);
            }
            return Some(acc);
        } else if c == '\\' {
            if idx + 1 >= len {
                proof {
                    lemma_string_truncated_escape(tail, acc@, idx - start);
                }
                *i = start;
                return None;
            }
            let e = s[idx + 1];
            proof {
                assert(tail[idx + 1 - start] == e);
            }
            let decoded: char;
            let consumed: usize;
            if e == '"' {
                decoded = '"';
                consumed = 2;
            } else if e == '\\' {
                decoded = '\\';
                consumed = 2;
            } else if e == 'b' {
                decoded = '\u{8}';
                consumed = 2;
            } else if e == 't' {
                decoded = '\t';
                consumed = 2;
            } else if e == 'n' {
                decoded = '\n';
                consumed = 2;
            } else if e == 'f' {
                decoded = '\u{c}';
                consumed = 2;
            } else if e == 'r' {
                decoded = '\r';
                consumed = 2;
            } else if e == 'u' {
                if len - idx < 6 || s[idx + 2] != '0' || s[idx + 3] != '0' {
                    proof {
                        if len - idx >= 6 {
                            assert(tail[idx + 2 - start] == s@[idx + 2]);
                            assert(tail[idx + 3 - start] == s@[idx + 3]);
                        }
                        lemma_string_bad_unicode(tail, acc@, idx - start);
                    }
                    *i = start;
                    return None;
                }
                proof {
                    assert(tail[idx + 2 - start] == s@[idx + 2]);
                    assert(tail[idx + 3 - start] == s@[idx + 3]);
                    assert(tail[idx + 4 - start] == s@[idx + 4]);
                    assert(tail[idx + 5 - start] == s@[idx + 5]);
                }
                let h1 = match hex_val(s[idx + 4]) {
                    Some(v) => v,
                    None => {
                        proof {
                            lemma_string_bad_hex(tail, acc@, idx - start, 4);
                        }
                        *i = start;
                        return None;
                    },
                };
                let h2 = match hex_val(s[idx + 5]) {
                    Some(v) => v,
                    None => {
                        proof {
                            lemma_string_bad_hex(tail, acc@, idx - start, 5);
                        }
                        *i = start;
                        return None;
                    },
                };
                let v = h1 * 16 + h2;
                // only the control characters without a named escape are
                // canonically written as \u00XX
                if !(v < 32 && v != 8 && v != 9 && v != 10 && v != 12 && v != 13) {
                    proof {
                        lemma_string_bad_code(tail, acc@, idx - start, h1 as nat, h2 as nat);
                    }
                    *i = start;
                    return None;
                }
                decoded = (v as u8) as char;
                consumed = 6;
                proof {
                    assert((decoded as u32) == v);
                    assert(spec_escaped_char(decoded) =~= s@.subrange(
                        idx as int,
                        (idx + 6) as int,
                    ));
                }
            } else {
                proof {
                    lemma_string_bad_escape(tail, acc@, idx - start, e);
                }
                *i = start;
                return None;
            }
            let ghost acc0 = acc@;
            proof {
                if consumed == 2 {
                    assert(spec_escaped_char(decoded) =~= s@.subrange(
                        idx as int,
                        (idx + 2) as int,
                    ));
                }
                assert(s@.subrange(start as int, (idx + consumed) as int) =~= s@.subrange(
                    start as int,
                    idx as int,
                ) + s@.subrange(idx as int, (idx + consumed) as int));
                assert(tail.subrange(idx - start, idx - start + consumed) =~= s@.subrange(
                    idx as int,
                    (idx + consumed) as int,
                ));
                assert(acc0.push(decoded).drop_last() =~= acc0);
                assert(spec_escaped(acc0.push(decoded)) == spec_escaped(acc0) + spec_escaped_char(
                    decoded,
                ));
                lemma_escaped_char_shape(decoded);
                lemma_string_step_escape(tail, acc0, idx - start, decoded);
            }
            string_push(&mut acc, decoded);
            proof {
                assert(acc@ =~= acc0.push(decoded));
            }
            idx = idx + consumed;
        } else if (c as u32) < 32 {
            proof {
                lemma_string_bare_control(tail, acc@, idx - start);
            }
            *i = start;
            return None;
        } else {
            let ghost acc0 = acc@;
            proof {
                lemma_string_step_plain(tail, acc0, idx - start, c);
                assert(spec_escaped_char(c) =~= seq![c]);
                assert(acc0.push(c).drop_last() =~= acc0);
                assert(spec_escaped(acc0.push(c)) == spec_escaped(acc0) + spec_escaped_char(c));
                assert(s@.subrange(start as int, (idx + 1) as int) =~= s@.subrange(
                    start as int,
                    idx as int,
                ) + seq![c]);
            }
            string_push(&mut acc, c);
            proof {
                assert(acc@ =~= acc0.push(c));
            }
            idx = idx + 1;
        }
    }
    proof {
        lemma_string_exhausted(tail, acc@, idx - start);
    }
    *i = start;
    None
}

proof fn lemma_dec_append(v: nat, d: nat)
    requires
        1 <= v,
        d < 10,
    ensures
        spec_dec_nat(v * 10 + d) == spec_dec_nat(v).push(spec_digit_char(d)),
{
    assert((v * 10 + d) / 10 == v && (v * 10 + d) % 10 == d) by (nonlinear_arith)
        requires
            1 <= v && d < 10,
    ;
}

/// A decimal digit character.
spec fn is_digit(c: char) -> bool {
    '0' <= c && c <= '9'
}

spec fn digit_of(c: char) -> int {
    (c as int) - 48
}

/// The number a digit string stands for.
spec fn digits_val(ds: Seq<char>) -> int
    decreases ds.len(),
{
    if ds.len() == 0 {
        0
    } else {
        digits_val(ds.drop_last()) * 10 + digit_of(ds.last())
    }
}

proof fn lemma_dec_digits(n: nat)
    ensures
        spec_dec_nat(n).len() >= 1,
        forall|j: int| 0 <= j < spec_dec_nat(n).len() ==> is_digit(#[trigger] spec_dec_nat(n)[j]),
    decreases n,
{
    if n >= 10 {
        lemma_dec_digits(n / 10);
    }
}

proof fn lemma_dec_first(n: nat)
    ensures
        n >= 1 ==> spec_dec_nat(n)[0] != '0',
    decreases n,
{
    if n >= 10 {
        lemma_dec_first(n / 10);
    }
}

proof fn lemma_dec_val(n: nat)
    ensures
        digits_val(spec_dec_nat(n)) == n,
    decreases n,
{
    if n < 10 {
        assert(spec_digit_char(n) as int == 48 + n);
        assert(spec_dec_nat(n) =~= seq![spec_digit_char(n)]);
        assert(spec_dec_nat(n).drop_last() =~= Seq::<char>::empty());
        assert(spec_dec_nat(n).last() == spec_digit_char(n));
        assert(digits_val(spec_dec_nat(n)) == digits_val(Seq::<char>::empty()) * 10 + digit_of(
            spec_digit_char(n),
        ));
        assert(digits_val(Seq::<char>::empty()) == 0);
    } else {
        lemma_dec_val(n / 10);
        assert(spec_digit_char(n % 10) as int == 48 + n % 10);
        assert(spec_dec_nat(n).drop_last() =~= spec_dec_nat(n / 10));
        assert(spec_dec_nat(n).last() == spec_digit_char(n % 10));
        assert(digits_val(spec_dec_nat(n)) == digits_val(spec_dec_nat(n / 10)) * 10 + digit_of(
            spec_digit_char(n % 10),
        ));
        assert(digits_val(spec_dec_nat(n)) == (n / 10) * 10 + n % 10);
        assert((n / 10) * 10 + n % 10 == n);
    }
}

proof fn lemma_digits_val_nonneg(ds: Seq<char>)
    requires
        forall|j: int| 0 <= j < ds.len() ==> is_digit(#[trigger] ds[j]),
    ensures
        digits_val(ds) >= 0,
    decreases ds.len(),
{
    if ds.len() > 0 {
        lemma_digits_val_nonneg(ds.drop_last());
        assert(digits_val(ds.drop_last()) * 10 >= 0) by (nonlinear_arith)
            requires
                digits_val(ds.drop_last()) >= 0,
        ;
    }
}

proof fn lemma_digits_val_prefix(ds: Seq<char>, k: int)
    requires
        0 <= k <= ds.len(),
        forall|j: int| 0 <= j < ds.len() ==> is_digit(#[trigger] ds[j]),
    ensures
        digits_val(ds.subrange(0, k)) <= digits_val(ds),
    decreases ds.len() - k,
{
    if k == ds.len() {
        assert(ds.subrange(0, k) =~= ds);
    } else {
        lemma_digits_val_prefix(ds.drop_last(), k);
        assert(ds.drop_last().subrange(0, k) =~= ds.subrange(0, k));
        lemma_digits_val_nonneg(ds.drop_last());
        assert(digits_val(ds.drop_last()) * 10 >= digits_val(ds.drop_last())) by (nonlinear_arith)
            requires
                digits_val(ds.drop_last()) >= 0,
        ;
    }
}

/// The text `tail` begins with the canonical numeral of `n`, followed by
/// nothing or by a non-digit: the shape a canonical rendering leaves at a
/// numeral's position.
spec fn dec_prefix(tail: Seq<char>, n: nat) -> bool {
    &&& n <= u64::MAX
    &&& spec_starts_with(tail, spec_dec_nat(n))
    &&& (tail.len() == spec_dec_nat(n).len() || !is_digit(tail[spec_dec_nat(n).len() as int]))
}

/// Consumes one canonical decimal numeral at `*i` — digits without sign,
/// leading zeros or anything else — or consumes nothing. Complete and
/// deterministic on canonical text: where a canonical numeral stands,
/// exactly that numeral is read.
#[verifier::loop_isolation(false)]
#[verifier::rlimit(50)]
fn parse_u64(s: &Vec<char>, i: &mut usize) -> (r: Option<u64>)
    requires
        *old(i) <= s@.len(),
    ensures
        *old(i) <= *final(i) <= s@.len(),
        match r {
            Some(v) => s@.subrange(*old(i) as int, *final(i) as int) == spec_dec_nat(v as nat)
                && (forall|n: nat| dec_prefix(suffix_from(s@, *old(i) as int), n) ==> v == n),
            None => *final(i) == *old(i) && (forall|n: nat|
                !dec_prefix(suffix_from(s@, *old(i) as int), n)),
        },
{
    let start = *i;
    let len = s.len();
    let ghost tail = suffix_from(s@, start as int);
    if start >= len {
        proof {
            assert forall|n: nat| !dec_prefix(tail, n) by {
                lemma_dec_digits(n);
            }
        }
        return None;
    }
    let c0 = s[start];
    proof {
        assert(tail[0] == c0);
    }
    if !('0' <= c0 && c0 <= '9') {
        proof {
            assert forall|n: nat| !dec_prefix(tail, n) by {
                lemma_dec_digits(n);
                if spec_starts_with(tail, spec_dec_nat(n)) {
                    assert(tail.subrange(0, spec_dec_nat(n).len() as int)[0] == spec_dec_nat(n)[0]);
                }
            }
        }
        return None;
    }
    if c0 == '0' {
        if start + 1 < len {
            let c1 = s[start + 1];
            if '0' <= c1 && c1 <= '9' {
                proof {
                    assert(tail[1] == c1);
                    assert forall|n: nat| !dec_prefix(tail, n) by {
                        lemma_dec_first(n);
                        if spec_starts_with(tail, spec_dec_nat(n)) {
                            assert(tail.subrange(0, spec_dec_nat(n).len() as int)[0]
                                == spec_dec_nat(n)[0]);
                            if n >= 1 {
                            } else {
                                assert(spec_dec_nat(0) =~= seq![spec_digit_char(0)]);
                            }
                        }
                    }
                }
                return None;
            }
        }
        *i = start + 1;
        proof {
            assert(spec_digit_char(0) == '0');
            assert(s@.subrange(start as int, (start + 1) as int) =~= spec_dec_nat(0));
            assert forall|n: nat| dec_prefix(tail, n) implies 0 == n by {
                lemma_dec_first(n);
                if n >= 1 {
                    assert(tail.subrange(0, spec_dec_nat(n).len() as int)[0] == spec_dec_nat(n)[0]);
                }
            }
        }
        return Some(0);
    }
    let mut value: u64 = ((c0 as u32) - 48) as u64;
    let mut idx = start + 1;
    proof {
        assert(spec_digit_char(value as nat) == c0);
        assert(s@.subrange(start as int, idx as int) =~= spec_dec_nat(value as nat));
        assert forall|n: nat| dec_prefix(tail, n) implies spec_dec_nat(value as nat)
            == spec_dec_nat(n).subrange(0, 1) && 1 <= spec_dec_nat(n).len() by {
            lemma_dec_digits(n);
            assert(tail.subrange(0, spec_dec_nat(n).len() as int)[0] == spec_dec_nat(n)[0]);
            assert(spec_dec_nat(n).subrange(0, 1) =~= seq![c0]);
            assert(spec_dec_nat(value as nat) =~= seq![c0]);
        }
    }
    while idx < len && '0' <= s[idx] && s[idx] <= '9'
        invariant
            start + 1 <= idx <= len,
            1 <= value,
            s@.subrange(start as int, idx as int) == spec_dec_nat(value as nat),
            forall|n: nat| #[trigger] dec_prefix(tail, n) ==> idx - start <= spec_dec_nat(n).len()
                && spec_dec_nat(value as nat) == spec_dec_nat(n).subrange(0, idx - start),
        decreases len - idx,
    {
        let c = s[idx];
        let d: u64 = ((c as u32) - 48) as u64;
        proof {
            assert(tail[idx - start] == c);
            lemma_dec_append(value as nat, d as nat);
            assert(spec_digit_char(d as nat) == c);
            assert forall|n: nat| #[trigger] dec_prefix(tail, n) implies idx + 1 - start
                <= spec_dec_nat(n).len() && spec_dec_nat((value * 10 + d) as nat)
                == spec_dec_nat(n).subrange(0, idx + 1 - start) by {
                lemma_dec_digits(n);
                if idx - start == spec_dec_nat(n).len() {
                    assert(!is_digit(tail[spec_dec_nat(n).len() as int]));
                }
                assert(tail.subrange(0, spec_dec_nat(n).len() as int)[idx - start]
                    == spec_dec_nat(n)[idx - start]);
                assert(spec_dec_nat(n).subrange(0, idx + 1 - start) =~= spec_dec_nat(
                    n,
                ).subrange(0, idx - start).push(c));
            }
        }
        if value > (u64::MAX - d) / 10 {
            proof {
                let q = (u64::MAX - d) / 10;
                assert(q * 10 + (u64::MAX - d) % 10 == u64::MAX - d);
                assert forall|n: nat| !dec_prefix(tail, n) by {
                    if dec_prefix(tail, n) {
                        lemma_dec_digits(n);
                        lemma_dec_val(n);
                        lemma_dec_val(value as nat);
                        lemma_dec_val((value * 10 + d) as nat);
                        lemma_digits_val_prefix(spec_dec_nat(n), idx + 1 - start);
                        assert(digits_val(spec_dec_nat(n).subrange(0, idx + 1 - start))
                            <= digits_val(spec_dec_nat(n)));
                        assert(value * 10 + d <= n);
                    }
                }
            }
            *i = start;
            return None;
        }
        value = value * 10 + d;
        idx = idx + 1;
    }
    *i = idx;
    proof {
        assert forall|n: nat| dec_prefix(tail, n) implies value == n by {
            lemma_dec_digits(n);
            if idx - start < spec_dec_nat(n).len() {
                assert(spec_dec_nat(n).len() <= tail.len());
                assert(idx < len);
                assert(tail.subrange(0, spec_dec_nat(n).len() as int)[idx - start]
                    == spec_dec_nat(n)[idx - start]);
                assert(tail[idx - start] == s@[idx as int]);
                assert(is_digit(s@[idx as int]));
            }
            assert(idx - start == spec_dec_nat(n).len());
            assert(spec_dec_nat(n).subrange(0, idx - start) =~= spec_dec_nat(n));
            lemma_dec_val(n);
            lemma_dec_val(value as nat);
        }
    }
    Some(value)
}

/// The text `tail` begins with the canonical signed numeral of `n`,
/// followed by nothing or by a non-digit.
spec fn dec_int_prefix(tail: Seq<char>, n: int) -> bool {
    &&& -2147483648 <= n <= 2147483647
    &&& spec_starts_with(tail, spec_dec_int(n))
    &&& (tail.len() == spec_dec_int(n).len() || !is_digit(tail[spec_dec_int(n).len() as int]))
}

/// Consumes one canonical signed decimal numeral at `*i`, or consumes
/// nothing; the minus sign only ever precedes a nonzero magnitude. Complete
/// and deterministic on canonical text.
#[verifier::loop_isolation(false)]
fn parse_i32(s: &Vec<char>, i: &mut usize) -> (r: Option<i32>)
    requires
        *old(i) <= s@.len(),
    ensures
        *old(i) <= *final(i) <= s@.len(),
        match r {
            Some(v) => s@.subrange(*old(i) as int, *final(i) as int) == spec_dec_int(v as int)
                && (forall|n: int| dec_int_prefix(suffix_from(s@, *old(i) as int), n) ==> v == n),
            None => *final(i) == *old(i) && (forall|n: int|
                !dec_int_prefix(suffix_from(s@, *old(i) as int), n)),
        },
{
    let start = *i;
    let len = s.len();
    let ghost tail = suffix_from(s@, start as int);
    if start < len && s[start] == '-' {
        proof {
            assert(tail[0] == '-');
            assert forall|n: int| dec_int_prefix(tail, n) implies n < 0 by {
                if n >= 0 {
                    lemma_dec_digits(n as nat);
                    assert(tail.subrange(0, spec_dec_int(n).len() as int)[0] == spec_dec_int(n)[0]);
                }
            }
        }
        *i = start + 1;
        let ghost tail1 = suffix_from(s@, (start + 1) as int);
        proof {
            assert(tail1 =~= tail.subrange(1, tail.len() as int));
            assert forall|n: int| dec_int_prefix(tail, n) && n < 0 implies dec_prefix(
                tail1,
                (-n) as nat,
            ) by {
                let mag = spec_dec_nat((-n) as nat);
                assert(spec_dec_int(n) == seq!['-'] + mag);
                assert(tail1.subrange(0, mag.len() as int) =~= tail.subrange(
                    0,
                    spec_dec_int(n).len() as int,
                ).subrange(1, spec_dec_int(n).len() as int));
                assert((seq!['-'] + mag).subrange(1, (1 + mag.len()) as int) =~= mag);
            }
        }
        match parse_u64(s, i) {
            Some(v) => {
                if 1 <= v && v <= 2147483648 {
                    let r: i32 = (-(v as i64)) as i32;
                    proof {
                        assert(r as int == -(v as int));
                        assert(s@.subrange(start as int, *i as int) =~= seq!['-'] + s@.subrange(
                            (start + 1) as int,
                            *i as int,
                        ));
                    }
                    Some(r)
                } else {
                    proof {
                        assert forall|n: int| !dec_int_prefix(tail, n) by {
                            if dec_int_prefix(tail, n) {
                                assert(v == (-n) as nat);
                            }
                        }
                    }
                    *i = start;
                    None
                }
            },
            None => {
                proof {
                    assert forall|n: int| !dec_int_prefix(tail, n) by {
                        if dec_int_prefix(tail, n) {
                            assert(dec_prefix(tail1, (-n) as nat));
                        }
                    }
                }
                *i = start;
                None
            },
        }
    } else {
        proof {
            assert forall|n: int| dec_int_prefix(tail, n) implies n >= 0 && dec_prefix(
                tail,
                n as nat,
            ) by {
                if n < 0 {
                    assert(spec_dec_int(n)[0] == '-');
                    assert(tail.subrange(0, spec_dec_int(n).len() as int)[0] == spec_dec_int(n)[0]);
                    assert(tail[0] == '-');
                }
            }
        }
        match parse_u64(s, i) {
            Some(v) => {
                if v <= 2147483647 {
                    Some(v as i32)
                } else {
                    proof {
                        assert forall|n: int| !dec_int_prefix(tail, n) by {
                            if dec_int_prefix(tail, n) {
                                assert(v == n as nat);
                            }
                        }
                    }
                    *i = start;
                    None
                }
            },
            None => None,
        }
    }
}

proof fn lemma_split_prefix(t: Seq<char>, a: Seq<char>, b: Seq<char>)
    requires
        spec_starts_with(t, a + b),
    ensures
        spec_starts_with(t, a),
        spec_starts_with(suffix_from(t, a.len() as int), b),
{
    assert(t.subrange(0, (a + b).len() as int) == a + b);
    assert(t.subrange(0, a.len() as int) =~= a) by {
        assert(forall|y: int|
            0 <= y < a.len() ==> t[y] == #[trigger] t.subrange(0, (a + b).len() as int)[y]);
    }
    let t2 = suffix_from(t, a.len() as int);
    assert forall|y: int| 0 <= y < b.len() implies t2.subrange(0, b.len() as int)[y] == b[y] by {
        assert(t2[y] == t[a.len() + y]);
        assert(t.subrange(0, (a + b).len() as int)[a.len() + y] == (a + b)[a.len() + y]);
        assert(t[a.len() + y] == t.subrange(0, (a + b).len() as int)[a.len() + y]);
    }
    assert(t2.subrange(0, b.len() as int) =~= b);
}

proof fn lemma_suffix_compose(t: Seq<char>, x: int, y: int)
    requires
        0 <= x,
        0 <= y,
        x + y <= t.len(),
    ensures
        suffix_from(suffix_from(t, x), y) == suffix_from(t, x + y),
{
    assert(suffix_from(suffix_from(t, x), y) =~= suffix_from(t, x + y));
}

/// A label followed by a quoted string stands at the front of `tail`.
spec fn labeled_string_prefix(tail: Seq<char>, lit: Seq<char>, v: Seq<char>) -> bool {
    spec_starts_with(tail, lit + spec_quoted(v))
}

/// Consumes a field label and the quoted string after it, or consumes
/// nothing; where such a field stands, exactly its value is read.
fn parse_labeled_string(s: &Vec<char>, i: &mut usize, lit: &str) -> (r: Option<String>)
    requires
        *old(i) <= s@.len(),
    ensures
        *old(i) <= *final(i) <= s@.len(),
        match r {
            Some(v) => s@.subrange(*old(i) as int, *final(i) as int) == lit@ + spec_quoted(v@) && (
            forall|x: Seq<char>| labeled_string_prefix(suffix_from(s@, *old(i) as int), lit@, x)
                ==> v@ == x),
            None => *final(i) == *old(i) && (forall|x: Seq<char>|
                !labeled_string_prefix(suffix_from(s@, *old(i) as int), lit@, x)),
        },
{
    let start = *i;
    let ghost tail = suffix_from(s@, start as int);
    if !eat_lit(s, i, lit) {
        proof {
            assert forall|x: Seq<char>| !labeled_string_prefix(tail, lit@, x) by {
                if labeled_string_prefix(tail, lit@, x) {
                    lemma_split_prefix(tail, lit@, spec_quoted(x));
                }
            }
        }
        return None;
    }
    let ghost p1: int = *i as int;
    proof {
        assert(suffix_from(s@, p1) =~= suffix_from(tail, lit@.len() as int));
    }
    match parse_string(s, i) {
        Some(v) => {
            proof {
                assert(s@.subrange(start as int, *i as int) =~= s@.subrange(start as int, p1)
                    + s@.subrange(p1, *i as int));
                assert forall|x: Seq<char>| labeled_string_prefix(tail, lit@, x) implies v@ == x by {
                    lemma_split_prefix(tail, lit@, spec_quoted(x));
                    assert(quoted_prefix(suffix_from(s@, p1), x));
                }
            }
            Some(v)
        },
        None => {
            proof {
                assert forall|x: Seq<char>| !labeled_string_prefix(tail, lit@, x) by {
                    if labeled_string_prefix(tail, lit@, x) {
                        lemma_split_prefix(tail, lit@, spec_quoted(x));
                        assert(quoted_prefix(suffix_from(s@, p1), x));
                    }
                }
            }
            *i = start;
            None
        },
    }
}

/// A label followed by a canonical numeral, then anything but a digit,
/// stands at the front of `tail`.
spec fn labeled_dec_prefix(tail: Seq<char>, lit: Seq<char>, n: nat) -> bool {
    spec_starts_with(tail, lit + spec_dec_nat(n)) && dec_prefix(
        suffix_from(tail, lit.len() as int),
        n,
    )
}

/// Consumes a field label and the canonical numeral after it, or consumes
/// nothing; where such a field stands, exactly its value is read.
fn parse_labeled_u64(s: &Vec<char>, i: &mut usize, lit: &str) -> (r: Option<u64>)
    requires
        *old(i) <= s@.len(),
    ensures
        *old(i) <= *final(i) <= s@.len(),
        match r {
            Some(v) => s@.subrange(*old(i) as int, *final(i) as int) == lit@ + spec_dec_nat(
                v as nat,
            ) && (forall|n: nat| labeled_dec_prefix(suffix_from(s@, *old(i) as int), lit@, n) ==> v
                == n),
            None => *final(i) == *old(i) && (forall|n: nat|
                !labeled_dec_prefix(suffix_from(s@, *old(i) as int), lit@, n)),
        },
{
    let start = *i;
    let ghost tail = suffix_from(s@, start as int);
    if !eat_lit(s, i, lit) {
        proof {
            assert forall|n: nat| !labeled_dec_prefix(tail, lit@, n) by {
                if labeled_dec_prefix(tail, lit@, n) {
                    lemma_split_prefix(tail, lit@, spec_dec_nat(n));
                }
            }
        }
        return None;
    }
    let ghost p1: int = *i as int;
    proof {
        assert(suffix_from(s@, p1) =~= suffix_from(tail, lit@.len() as int));
    }
    match parse_u64(s, i) {
        Some(v) => {
            proof {
                assert(s@.subrange(start as int, *i as int) =~= s@.subrange(start as int, p1)
                    + s@.subrange(p1, *i as int));
            }
            Some(v)
        },
        None => {
            *i = start;
            None
        },
    }
}

/// The items of a string array from position `j` on, as rendered.
spec fn string_items_from(ws: Seq<Seq<char>>, j: int) -> Seq<char>
    decreases ws.len() - j,
{
    if j < 0 || j >= ws.len() {
        Seq::empty()
    } else {
        ",\n    "@ + spec_quoted(ws[j]) + string_items_from(ws, j + 1)
    }
}

proof fn lemma_string_items_split(ws: Seq<Seq<char>>, j: int)
    requires
        1 <= j <= ws.len(),
    ensures
        spec_string_items(ws) == spec_string_items(ws.subrange(0, j)) + string_items_from(ws, j),
    decreases ws.len() - j,
{
    if j == ws.len() {
        assert(ws.subrange(0, j) =~= ws);
        assert(spec_string_items(ws) + string_items_from(ws, j) =~= spec_string_items(ws));
    } else {
        lemma_string_items_split(ws, j + 1);
        assert(ws.subrange(0, j + 1).drop_last() =~= ws.subrange(0, j));
        assert(ws.subrange(0, j + 1).last() == ws[j]);
        assert(spec_string_items(ws.subrange(0, j + 1)) == spec_string_items(ws.subrange(0, j))
            + ",\n    "@ + spec_quoted(ws[j]));
        assert(spec_string_items(ws.subrange(0, j)) + ",\n    "@ + spec_quoted(ws[j])
            + string_items_from(ws, j + 1) =~= spec_string_items(ws.subrange(0, j))
            + string_items_from(ws, j));
    }
}

/// A whole string array stands at the front of `tail`.
spec fn string_array_prefix(tail: Seq<char>, ws: Seq<Seq<char>>) -> bool {
    spec_starts_with(tail, spec_string_array(ws))
}

/// Where a string array stands at the front of `tail` and `j` of its items
/// are consumed, the text continues with a separator and the next item, or
/// with the closing bracket.
proof fn lemma_string_array_pieces(tail: Seq<char>, ws: Seq<Seq<char>>, j: int)
    requires
        string_array_prefix(tail, ws),
        ws.len() >= 1,
        1 <= j <= ws.len(),
    ensures
        ({
            let oj = "[\n    "@.len() + spec_string_items(ws.subrange(0, j)).len();
            &&& (j < ws.len() ==> spec_starts_with(suffix_from(tail, oj as int), ",\n    "@)
                && quoted_prefix(suffix_from(tail, (oj + ",\n    "@.len()) as int), ws[j]))
            &&& (j == ws.len() ==> spec_starts_with(suffix_from(tail, oj as int), "\n  ]"@))
        }),
{
    lemma_string_items_split(ws, j);
    let h = "[\n    "@;
    let mid = spec_string_items(ws.subrange(0, j));
    let oj = h.len() + mid.len();
    if j == ws.len() {
        assert(spec_string_array(ws) =~= (h + mid) + "\n  ]"@);
        lemma_split_prefix(tail, h + mid, "\n  ]"@);
    } else {
        let rest = string_items_from(ws, j + 1);
        assert(spec_string_array(ws) =~= (h + mid) + ",\n    "@ + spec_quoted(ws[j]) + (rest
            + "\n  ]"@));
        lemma_split_prefix(tail, (h + mid) + ",\n    "@ + spec_quoted(ws[j]), rest + "\n  ]"@);
        lemma_split_prefix(tail, (h + mid) + ",\n    "@, spec_quoted(ws[j]));
        lemma_split_prefix(tail, h + mid, ",\n    "@);
    }
}

proof fn lemma_string_array_head(tail: Seq<char>, ws: Seq<Seq<char>>)
    requires
        string_array_prefix(tail, ws),
    ensures
        ws.len() == 0 ==> spec_starts_with(tail, "[]"@),
        ws.len() >= 1 ==> spec_starts_with(tail, "[\n    "@) && quoted_prefix(
            suffix_from(tail, "[\n    "@.len() as int),
            ws[0],
        ),
{
    if ws.len() >= 1 {
        lemma_string_items_split(ws, 1);
        assert(ws.subrange(0, 1).len() == 1);
        assert(ws.subrange(0, 1)[0] == ws[0]);
        assert(spec_string_items(ws.subrange(0, 1)) == spec_quoted(ws[0]));
        assert(spec_string_array(ws) =~= "[\n    "@ + spec_quoted(ws[0]) + (string_items_from(
            ws,
            1,
        ) + "\n  ]"@));
        lemma_split_prefix(tail, "[\n    "@ + spec_quoted(ws[0]), string_items_from(ws, 1)
            + "\n  ]"@);
        lemma_split_prefix(tail, "[\n    "@, spec_quoted(ws[0]));
    }
}

/// Consumes one canonically rendered array of strings at `*i`, at the
/// manifest's depth, or consumes nothing; where such an array stands,
/// exactly its items are read.
#[verifier::loop_isolation(false)]
#[verifier::rlimit(100)]
fn parse_string_array(s: &Vec<char>, i: &mut usize) -> (r: Option<Vec<String>>)
    requires
        *old(i) <= s@.len(),
    ensures
        *old(i) <= *final(i) <= s@.len(),
        match r {
            Some(items) => s@.subrange(*old(i) as int, *final(i) as int) == spec_string_array(
                items@.map_values(|x: String| x@),
            ) && (forall|ws: Seq<Seq<char>>|
                string_array_prefix(suffix_from(s@, *old(i) as int), ws) ==> items@.map_values(
                    |x: String| x@,
                ) == ws),
            None => *final(i) == *old(i) && (forall|ws: Seq<Seq<char>>|
                !string_array_prefix(suffix_from(s@, *old(i) as int), ws)),
        },
{
    let start = *i;
    let ghost tail = suffix_from(s@, start as int);
    if eat_lit(s, i, "[]") {
        let items: Vec<String> = Vec::new();
        proof {
            assert(items@.map_values(|x: String| x@) =~= Seq::<Seq<char>>::empty());
            reveal_strlit("[]");
            reveal_strlit("[\n    ");
            assert forall|ws: Seq<Seq<char>>| string_array_prefix(tail, ws) implies items@
                .map_values(|x: String| x@) == ws by {
                lemma_string_array_head(tail, ws);
                if ws.len() >= 1 {
                    assert(tail.subrange(0, 2)[1] == "[]"@[1]);
                    assert(tail.subrange(0, "[\n    "@.len() as int)[1] == "[\n    "@[1]);
                }
                assert(ws =~= Seq::<Seq<char>>::empty());
            }
        }
        return Some(items);
    }
    if !eat_lit(s, i, "[\n    ") {
        proof {
            assert forall|ws: Seq<Seq<char>>| !string_array_prefix(tail, ws) by {
                if string_array_prefix(tail, ws) {
                    lemma_string_array_head(tail, ws);
                }
            }
        }
        return None;
    }
    let ghost opened = *i as int;
    proof {
        assert(suffix_from(s@, opened) =~= suffix_from(tail, "[\n    "@.len() as int));
    }
    let mut items: Vec<String> = Vec::new();
    match parse_string(s, i) {
        Some(v) => {
            items.push(v);
        },
        None => {
            proof {
                assert forall|ws: Seq<Seq<char>>| !string_array_prefix(tail, ws) by {
                    if string_array_prefix(tail, ws) {
                        lemma_string_array_head(tail, ws);
                        if ws.len() >= 1 {
                            assert(quoted_prefix(suffix_from(s@, opened), ws[0]));
                        } else {
                            reveal_strlit("[]");
                            reveal_strlit("[\n    ");
                            assert(tail.subrange(0, 2)[1] == "[]"@[1]);
                            assert(tail.subrange(0, "[\n    "@.len() as int)[1] == "[\n    "@[1]);
                        }
                    }
                }
            }
            *i = start;
            return None;
        },
    }
    proof {
        let w = items@.map_values(|x: String| x@);
        assert(w =~= seq![items@[0]@]);
        assert(s@.subrange(start as int, *i as int) =~= s@.subrange(start as int, opened)
            + s@.subrange(opened, *i as int));
        assert(s@.subrange(start as int, *i as int) == "[\n    "@ + spec_string_items(w));
        assert forall|ws: Seq<Seq<char>>| #[trigger] string_array_prefix(tail, ws) implies ws.len()
            >= 1 && w == ws.subrange(0, 1) by {
            lemma_string_array_head(tail, ws);
            if ws.len() == 0 {
                reveal_strlit("[]");
                reveal_strlit("[\n    ");
                assert(tail.subrange(0, 2)[1] == "[]"@[1]);
                assert(tail.subrange(0, "[\n    "@.len() as int)[1] == "[\n    "@[1]);
            }
            assert(quoted_prefix(suffix_from(s@, opened), ws[0]));
            assert(ws.subrange(0, 1) =~= seq![ws[0]]);
        }
    }
    let mut done = false;
    while !done
        invariant
            start <= *i <= s@.len(),
            items@.len() >= 1,
            s@.subrange(start as int, *i as int) == "[\n    "@ + spec_string_items(
                items@.map_values(|x: String| x@),
            ),
            forall|ws: Seq<Seq<char>>| #[trigger] string_array_prefix(tail, ws) ==> ws.len() >= 1
                && items@.len() <= ws.len() && items@.map_values(|x: String| x@) == ws.subrange(
                0,
                items@.len() as int,
            ),
            done ==> forall|ws: Seq<Seq<char>>| #[trigger] string_array_prefix(tail, ws)
                ==> ws.len() == items@.len(),
        decreases s@.len() - *i + (if done {
            0int
        } else {
            1int
        }),
    {
        let ghost before = *i as int;
        let ghost w0 = items@.map_values(|x: String| x@);
        proof {
            assert(suffix_from(s@, before) =~= suffix_from(tail, before - start));
            assert forall|ws: Seq<Seq<char>>| #[trigger] string_array_prefix(tail, ws) implies
                before - start == "[\n    "@.len() + spec_string_items(
                ws.subrange(0, w0.len() as int),
            ).len() by {
                assert(spec_string_items(ws.subrange(0, w0.len() as int)) == spec_string_items(
                    w0,
                ));
            }
        }
        if eat_lit(s, i, ",\n    ") {
            let ghost sep_end = *i as int;
            proof {
                assert(suffix_from(s@, sep_end) =~= suffix_from(tail, sep_end - start));
                reveal_strlit(",\n    ");
                reveal_strlit("\n  ]");
                assert forall|ws: Seq<Seq<char>>| #[trigger] string_array_prefix(tail, ws) implies
                    w0.len() < ws.len() && quoted_prefix(suffix_from(s@, sep_end), ws[w0.len() as int])
                    by {
                    lemma_string_array_pieces(tail, ws, w0.len() as int);
                    if w0.len() == ws.len() {
                        let tj = suffix_from(tail, before - start);
                        assert(tj.subrange(0, ",\n    "@.len() as int)[0] == ",\n    "@[0]);
                        assert(tj.subrange(0, "\n  ]"@.len() as int)[0] == "\n  ]"@[0]);
                    }
                    lemma_suffix_compose(tail, before - start, ",\n    "@.len() as int);
                }
            }
            match parse_string(s, i) {
                Some(v) => {
                    proof {
                        let w1 = items@.push(v).map_values(|x: String| x@);
                        assert(w1.drop_last() =~= w0);
                        assert(w1.last() == v@);
                        assert(s@.subrange(start as int, *i as int) =~= s@.subrange(
                            start as int,
                            before,
                        ) + s@.subrange(before, sep_end) + s@.subrange(sep_end, *i as int));
                        assert(spec_string_items(w1) == spec_string_items(w0) + ",\n    "@
                            + spec_quoted(v@));
                        assert forall|ws: Seq<Seq<char>>| #[trigger] string_array_prefix(tail, ws)
                            implies w1.len() <= ws.len() && w1 == ws.subrange(0, w1.len() as int) by {
                            assert(v@ == ws[w0.len() as int]);
                            assert(ws.subrange(0, (w0.len() + 1) as int) =~= ws.subrange(
                                0,
                                w0.len() as int,
                            ).push(ws[w0.len() as int]));
                        }
                    }
                    items.push(v);
                },
                None => {
                    proof {
                        assert forall|ws: Seq<Seq<char>>| !string_array_prefix(tail, ws) by {
                            if string_array_prefix(tail, ws) {
                                assert(quoted_prefix(suffix_from(s@, sep_end), ws[w0.len() as int]));
                            }
                        }
                    }
                    *i = start;
                    return None;
                },
            }
        } else {
            proof {
                reveal_strlit(",\n    ");
                assert forall|ws: Seq<Seq<char>>| #[trigger] string_array_prefix(tail, ws) implies
                    ws.len() == items@.len() by {
                    lemma_string_array_pieces(tail, ws, w0.len() as int);
                    if w0.len() < ws.len() {
                        assert(spec_starts_with(suffix_from(s@, before), ",\n    "@));
                    }
                }
            }
            done = true;
        }
    }
    let ghost body_end = *i as int;
    proof {
        assert(suffix_from(s@, body_end) =~= suffix_from(tail, body_end - start));
        assert forall|ws: Seq<Seq<char>>| #[trigger] string_array_prefix(tail, ws) implies
            spec_starts_with(suffix_from(s@, body_end), "\n  ]"@) && items@.map_values(
            |x: String| x@,
        ) == ws by {
            let w0 = items@.map_values(|x: String| x@);
            assert(spec_string_items(ws.subrange(0, w0.len() as int)) == spec_string_items(w0));
            lemma_string_array_pieces(tail, ws, w0.len() as int);
            assert(ws.subrange(0, ws.len() as int) =~= ws);
        }
    }
    if !eat_lit(s, i, "\n  ]") {
        proof {
            assert forall|ws: Seq<Seq<char>>| !string_array_prefix(tail, ws) by {}
        }
        *i = start;
        return None;
    }
    proof {
        assert(s@.subrange(start as int, *i as int) =~= s@.subrange(start as int, body_end)
            + s@.subrange(body_end, *i as int));
    }
    Some(items)
}

/// A whole file record stands at the front of `tail`.
spec fn file_object_prefix(tail: Seq<char>, af: ArtworkFileAbs) -> bool {
    spec_starts_with(tail, spec_file_object(af))
}

/// Where a file record stands at the front of `tail`, each labeled field
/// stands at its own offset.
proof fn lemma_file_object_pieces(tail: Seq<char>, af: ArtworkFileAbs)
    requires
        file_object_prefix(tail, af),
    ensures
        ({
            let b1 = "{\n      \"path\": "@.len() + spec_quoted(af.path).len();
            let b2 = b1 + ",\n      \"file_name\": "@.len() + spec_quoted(af.file_name).len();
            let b3 = b2 + ",\n      \"file_hash\": "@.len() + spec_quoted(af.file_hash).len();
            let b4 = b3 + ",\n      \"file_size\": "@.len() + spec_dec_nat(
                af.file_size as nat,
            ).len();
            let b5 = b4 + ",\n      \"format\": "@.len() + spec_quoted(af.format).len();
            &&& labeled_string_prefix(tail, "{\n      \"path\": "@, af.path)
            &&& labeled_string_prefix(
                suffix_from(tail, b1 as int),
                ",\n      \"file_name\": "@,
                af.file_name,
            )
            &&& labeled_string_prefix(
                suffix_from(tail, b2 as int),
                ",\n      \"file_hash\": "@,
                af.file_hash,
            )
            &&& labeled_dec_prefix(
                suffix_from(tail, b3 as int),
                ",\n      \"file_size\": "@,
                af.file_size as nat,
            )
            &&& labeled_string_prefix(
                suffix_from(tail, b4 as int),
                ",\n      \"format\": "@,
                af.format,
            )
            &&& spec_starts_with(suffix_from(tail, b5 as int), "\n    }"@)
        }),
{
    let g1 = "{\n      \"path\": "@ + spec_quoted(af.path);
    let g2 = ",\n      \"file_name\": "@ + spec_quoted(af.file_name);
    let g3 = ",\n      \"file_hash\": "@ + spec_quoted(af.file_hash);
    let g4 = ",\n      \"file_size\": "@ + spec_dec_nat(af.file_size as nat);
    let g5 = ",\n      \"format\": "@ + spec_quoted(af.format);
    let g6 = "\n    }"@;
    assert(spec_file_object(af) =~= g1 + g2 + g3 + g4 + g5 + g6);
    lemma_split_prefix(tail, g1 + g2 + g3 + g4 + g5, g6);
    lemma_split_prefix(tail, g1 + g2 + g3 + g4, g5);
    lemma_split_prefix(tail, g1 + g2 + g3, g4);
    lemma_split_prefix(tail, g1 + g2, g3);
    lemma_split_prefix(tail, g1, g2);
    let b3 = g1.len() + g2.len() + g3.len();
    let b4 = b3 + g4.len();
    lemma_suffix_compose(tail, b3 as int, ",\n      \"file_size\": "@.len() as int);
    assert(dec_prefix(
        suffix_from(suffix_from(tail, b3 as int), ",\n      \"file_size\": "@.len() as int),
        af.file_size as nat,
    )) by {
        reveal_strlit(",\n      \"format\": ");
        let d = spec_dec_nat(af.file_size as nat);
        let t4 = suffix_from(tail, (b3 + ",\n      \"file_size\": "@.len()) as int);
        lemma_split_prefix(suffix_from(tail, b3 as int), ",\n      \"file_size\": "@, d);
        lemma_suffix_compose(
            tail,
            b3 as int,
            (",\n      \"file_size\": "@.len() + d.len()) as int,
        );
        assert(g5[0] == ',');
        assert(suffix_from(tail, b4 as int).subrange(0, g5.len() as int)[0] == ',');
        assert(t4[d.len() as int] == suffix_from(tail, b4 as int)[0]);
    }
}

/// Consumes one canonically rendered file record at `*i`, or consumes
/// nothing; where a record stands, exactly that record is read.
#[verifier::spinoff_prover]
#[verifier::rlimit(100)]
fn parse_file_object(s: &Vec<char>, i: &mut usize) -> (r: Option<ArtworkFile>)
    requires
        *old(i) <= s@.len(),
    ensures
        *old(i) <= *final(i) <= s@.len(),
        match r {
            Some(af) => s@.subrange(*old(i) as int, *final(i) as int) == spec_file_object(af@) && (
            forall|x: ArtworkFileAbs| file_object_prefix(suffix_from(s@, *old(i) as int), x) ==> af@
                == x),
            None => *final(i) == *old(i) && (forall|x: ArtworkFileAbs|
                !file_object_prefix(suffix_from(s@, *old(i) as int), x)),
        },
{
    let start = *i;
    let ghost tail = suffix_from(s@, start as int);
    let path = match parse_labeled_string(s, i, "{\n      \"path\": ") {
        Some(v) => v,
        None => {
            proof {
                assert forall|x: ArtworkFileAbs| !file_object_prefix(tail, x) by {
                    if file_object_prefix(tail, x) {
                        lemma_file_object_pieces(tail, x);
                    }
                }
            }
            return None;
        },
    };
    let ghost p1: int = *i as int;
    proof {
        assert forall|x: ArtworkFileAbs| file_object_prefix(tail, x) implies x.path == path@ && p1
            - start == "{\n      \"path\": "@.len() + spec_quoted(x.path).len() by {
            lemma_file_object_pieces(tail, x);
        }
        assert(suffix_from(s@, p1) =~= suffix_from(tail, p1 - start));
    }
    let file_name = match parse_labeled_string(s, i, ",\n      \"file_name\": ") {
        Some(v) => v,
        None => {
            proof {
                assert forall|x: ArtworkFileAbs| !file_object_prefix(tail, x) by {
                    if file_object_prefix(tail, x) {
                        lemma_file_object_pieces(tail, x);
                    }
                }
            }
            *i = start;
            return None;
        },
    };
    let ghost p2: int = *i as int;
    proof {
        assert forall|x: ArtworkFileAbs| file_object_prefix(tail, x) implies x.file_name
            == file_name@ && p2 - start == "{\n      \"path\": "@.len() + spec_quoted(
            x.path,
        ).len() + ",\n      \"file_name\": "@.len() + spec_quoted(x.file_name).len() by {
            lemma_file_object_pieces(tail, x);
        }
        assert(suffix_from(s@, p2) =~= suffix_from(tail, p2 - start));
    }
    let file_hash = match parse_labeled_string(s, i, ",\n      \"file_hash\": ") {
        Some(v) => v,
        None => {
            proof {
                assert forall|x: ArtworkFileAbs| !file_object_prefix(tail, x) by {
                    if file_object_prefix(tail, x) {
                        lemma_file_object_pieces(tail, x);
                    }
                }
            }
            *i = start;
            return None;
        },
    };
    let ghost p3: int = *i as int;
    proof {
        assert forall|x: ArtworkFileAbs| file_object_prefix(tail, x) implies x.file_hash
            == file_hash@ && p3 - start == "{\n      \"path\": "@.len() + spec_quoted(
            x.path,
        ).len() + ",\n      \"file_name\": "@.len() + spec_quoted(x.file_name).len()
            + ",\n      \"file_hash\": "@.len() + spec_quoted(x.file_hash).len() by {
            lemma_file_object_pieces(tail, x);
        }
        assert(suffix_from(s@, p3) =~= suffix_from(tail, p3 - start));
    }
    let file_size = match parse_labeled_u64(s, i, ",\n      \"file_size\": ") {
        Some(v) => v,
        None => {
            proof {
                assert forall|x: ArtworkFileAbs| !file_object_prefix(tail, x) by {
                    if file_object_prefix(tail, x) {
                        lemma_file_object_pieces(tail, x);
                    }
                }
            }
            *i = start;
            return None;
        },
    };
    let ghost p4: int = *i as int;
    proof {
        assert forall|x: ArtworkFileAbs| file_object_prefix(tail, x) implies x.file_size
            == file_size && p4 - start == "{\n      \"path\": "@.len() + spec_quoted(
            x.path,
        ).len() + ",\n      \"file_name\": "@.len() + spec_quoted(x.file_name).len()
            + ",\n      \"file_hash\": "@.len() + spec_quoted(x.file_hash).len()
            + ",\n      \"file_size\": "@.len() + spec_dec_nat(x.file_size as nat).len() by {
            lemma_file_object_pieces(tail, x);
            assert(file_size == x.file_size as nat);
        }
        assert(suffix_from(s@, p4) =~= suffix_from(tail, p4 - start));
    }
    let format = match parse_labeled_string(s, i, ",\n      \"format\": ") {
        Some(v) => v,
        None => {
            proof {
                assert forall|x: ArtworkFileAbs| !file_object_prefix(tail, x) by {
                    if file_object_prefix(tail, x) {
                        lemma_file_object_pieces(tail, x);
                    }
                }
            }
            *i = start;
            return None;
        },
    };
    let ghost p5: int = *i as int;
    proof {
        assert forall|x: ArtworkFileAbs| file_object_prefix(tail, x) implies x.format == format@ by {
            lemma_file_object_pieces(tail, x);
        }
        assert(suffix_from(s@, p5) =~= suffix_from(tail, p5 - start));
    }
    if !eat_lit(s, i, "\n    }") {
        proof {
            assert forall|x: ArtworkFileAbs| !file_object_prefix(tail, x) by {
                if file_object_prefix(tail, x) {
                    lemma_file_object_pieces(tail, x);
                }
            }
        }
        *i = start;
        return None;
    }
    let af = ArtworkFile { path, file_name, file_hash, file_size, format };
    proof {
        assert(s@.subrange(start as int, *i as int) =~= s@.subrange(start as int, p1)
            + s@.subrange(p1, p2) + s@.subrange(p2, p3) + s@.subrange(p3, p4) + s@.subrange(
            p4,
            p5,
        ) + s@.subrange(p5, *i as int));
    }
    Some(af)
}

/// The records of a file array from position `j` on, as rendered.
spec fn file_items_from(fs: Seq<ArtworkFileAbs>, j: int) -> Seq<char>
    decreases fs.len() - j,
{
    if j < 0 || j >= fs.len() {
        Seq::empty()
    } else {
        ",\n    "@ + spec_file_object(fs[j]) + file_items_from(fs, j + 1)
    }
}

proof fn lemma_file_items_split(fs: Seq<ArtworkFileAbs>, j: int)
    requires
        1 <= j <= fs.len(),
    ensures
        spec_file_items(fs) == spec_file_items(fs.subrange(0, j)) + file_items_from(fs, j),
    decreases fs.len() - j,
{
    if j == fs.len() {
        assert(fs.subrange(0, j) =~= fs);
        assert(spec_file_items(fs) + file_items_from(fs, j) =~= spec_file_items(fs));
    } else {
        lemma_file_items_split(fs, j + 1);
        assert(fs.subrange(0, j + 1).drop_last() =~= fs.subrange(0, j));
        assert(fs.subrange(0, j + 1).last() == fs[j]);
        assert(spec_file_items(fs.subrange(0, j + 1)) == spec_file_items(fs.subrange(0, j))
            + ",\n    "@ + spec_file_object(fs[j]));
        assert(spec_file_items(fs.subrange(0, j)) + ",\n    "@ + spec_file_object(fs[j])
            + file_items_from(fs, j + 1) =~= spec_file_items(fs.subrange(0, j)) + file_items_from(
            fs,
            j,
        ));
    }
}

/// A whole file array stands at the front of `tail`.
spec fn files_array_prefix(tail: Seq<char>, fs: Seq<ArtworkFileAbs>) -> bool {
    spec_starts_with(tail, spec_files_array(fs))
}

#[verifier::spinoff_prover]
#[verifier::rlimit(100)]
proof fn lemma_files_array_pieces(tail: Seq<char>, fs: Seq<ArtworkFileAbs>, j: int)
    requires
        files_array_prefix(tail, fs),
        fs.len() >= 1,
        1 <= j <= fs.len(),
    ensures
        ({
            let oj = "[\n    "@.len() + spec_file_items(fs.subrange(0, j)).len();
            &&& (j < fs.len() ==> spec_starts_with(suffix_from(tail, oj as int), ",\n    "@)
                && file_object_prefix(suffix_from(tail, (oj + ",\n    "@.len()) as int), fs[j]))
            &&& (j == fs.len() ==> spec_starts_with(suffix_from(tail, oj as int), "\n  ]"@))
        }),
{
    lemma_file_items_split(fs, j);
    let h = "[\n    "@;
    let mid = spec_file_items(fs.subrange(0, j));
    if j == fs.len() {
        assert(spec_files_array(fs) =~= (h + mid) + "\n  ]"@);
        lemma_split_prefix(tail, h + mid, "\n  ]"@);
    } else {
        let rest = file_items_from(fs, j + 1);
        assert(spec_files_array(fs) =~= (h + mid) + ",\n    "@ + spec_file_object(fs[j]) + (rest
            + "\n  ]"@));
        lemma_split_prefix(tail, (h + mid) + ",\n    "@ + spec_file_object(fs[j]), rest
            + "\n  ]"@);
        lemma_split_prefix(tail, (h + mid) + ",\n    "@, spec_file_object(fs[j]));
        lemma_split_prefix(tail, h + mid, ",\n    "@);
    }
}

proof fn lemma_files_array_head(tail: Seq<char>, fs: Seq<ArtworkFileAbs>)
    requires
        files_array_prefix(tail, fs),
    ensures
        fs.len() == 0 ==> spec_starts_with(tail, "[]"@),
        fs.len() >= 1 ==> spec_starts_with(tail, "[\n    "@) && file_object_prefix(
            suffix_from(tail, "[\n    "@.len() as int),
            fs[0],
        ),
{
    if fs.len() >= 1 {
        lemma_file_items_split(fs, 1);
        assert(fs.subrange(0, 1).len() == 1);
        assert(fs.subrange(0, 1)[0] == fs[0]);
        assert(spec_file_items(fs.subrange(0, 1)) == spec_file_object(fs[0]));
        assert(spec_files_array(fs) =~= "[\n    "@ + spec_file_object(fs[0]) + (file_items_from(
            fs,
            1,
        ) + "\n  ]"@));
        lemma_split_prefix(tail, "[\n    "@ + spec_file_object(fs[0]), file_items_from(fs, 1)
            + "\n  ]"@);
        lemma_split_prefix(tail, "[\n    "@, spec_file_object(fs[0]));
    }
}

/// Consumes one canonically rendered `artwork_files` array at `*i`, or
/// consumes nothing; where such an array stands, exactly its records are
/// read.
#[verifier::loop_isolation(false)]
#[verifier::spinoff_prover]
#[verifier::rlimit(100)]
fn parse_files_array(s: &Vec<char>, i: &mut usize) -> (r: Option<Vec<ArtworkFile>>)
    requires
        *old(i) <= s@.len(),
    ensures
        *old(i) <= *final(i) <= s@.len(),
        match r {
            Some(files) => s@.subrange(*old(i) as int, *final(i) as int) == spec_files_array(
                artwork_views(files@),
            ) && (forall|fs: Seq<ArtworkFileAbs>|
                files_array_prefix(suffix_from(s@, *old(i) as int), fs) ==> artwork_views(files@)
                    == fs),
            None => *final(i) == *old(i) && (forall|fs: Seq<ArtworkFileAbs>|
                !files_array_prefix(suffix_from(s@, *old(i) as int), fs)),
        },
{
    let start = *i;
    let ghost tail = suffix_from(s@, start as int);
    if eat_lit(s, i, "[]") {
        let files: Vec<ArtworkFile> = Vec::new();
        proof {
            assert(artwork_views(files@) =~= Seq::<ArtworkFileAbs>::empty());
            reveal_strlit("[]");
            reveal_strlit("[\n    ");
            assert forall|fs: Seq<ArtworkFileAbs>| files_array_prefix(tail, fs) implies
                artwork_views(files@) == fs by {
                lemma_files_array_head(tail, fs);
                if fs.len() >= 1 {
                    assert(tail.subrange(0, 2)[1] == "[]"@[1]);
                    assert(tail.subrange(0, "[\n    "@.len() as int)[1] == "[\n    "@[1]);
                }
                assert(fs =~= Seq::<ArtworkFileAbs>::empty());
            }
        }
        return Some(files);
    }
    if !eat_lit(s, i, "[\n    ") {
        proof {
            assert forall|fs: Seq<ArtworkFileAbs>| !files_array_prefix(tail, fs) by {
                if files_array_prefix(tail, fs) {
                    lemma_files_array_head(tail, fs);
                }
            }
        }
        return None;
    }
    let ghost opened = *i as int;
    proof {
        assert(suffix_from(s@, opened) =~= suffix_from(tail, "[\n    "@.len() as int));
    }
    let mut files: Vec<ArtworkFile> = Vec::new();
    match parse_file_object(s, i) {
        Some(af) => {
            files.push(af);
        },
        None => {
            proof {
                assert forall|fs: Seq<ArtworkFileAbs>| !files_array_prefix(tail, fs) by {
                    if files_array_prefix(tail, fs) {
                        lemma_files_array_head(tail, fs);
                        if fs.len() >= 1 {
                            assert(file_object_prefix(suffix_from(s@, opened), fs[0]));
                        } else {
                            reveal_strlit("[]");
                            reveal_strlit("[\n    ");
                            assert(tail.subrange(0, 2)[1] == "[]"@[1]);
                            assert(tail.subrange(0, "[\n    "@.len() as int)[1] == "[\n    "@[1]);
                        }
                    }
                }
            }
            *i = start;
            return None;
        },
    }
    proof {
        let w = artwork_views(files@);
        assert(w =~= seq![files@[0]@]);
        assert(s@.subrange(start as int, *i as int) =~= s@.subrange(start as int, opened)
            + s@.subrange(opened, *i as int));
        assert(s@.subrange(start as int, *i as int) == "[\n    "@ + spec_file_items(w));
        assert forall|fs: Seq<ArtworkFileAbs>| #[trigger] files_array_prefix(tail, fs) implies
            fs.len() >= 1 && w == fs.subrange(0, 1) by {
            lemma_files_array_head(tail, fs);
            if fs.len() == 0 {
                reveal_strlit("[]");
                reveal_strlit("[\n    ");
                assert(tail.subrange(0, 2)[1] == "[]"@[1]);
                assert(tail.subrange(0, "[\n    "@.len() as int)[1] == "[\n    "@[1]);
            }
            assert(file_object_prefix(suffix_from(s@, opened), fs[0]));
            assert(fs.subrange(0, 1) =~= seq![fs[0]]);
        }
    }
    let mut done = false;
    while !done
        invariant
            start <= *i <= s@.len(),
            files@.len() >= 1,
            s@.subrange(start as int, *i as int) == "[\n    "@ + spec_file_items(
                artwork_views(files@),
            ),
            forall|fs: Seq<ArtworkFileAbs>| #[trigger] files_array_prefix(tail, fs) ==> fs.len()
                >= 1 && files@.len() <= fs.len() && artwork_views(files@) == fs.subrange(
                0,
                files@.len() as int,
            ),
            done ==> forall|fs: Seq<ArtworkFileAbs>| #[trigger] files_array_prefix(tail, fs)
                ==> fs.len() == files@.len(),
        decreases s@.len() - *i + (if done {
            0int
        } else {
            1int
        }),
    {
        let ghost before = *i as int;
        let ghost w0 = artwork_views(files@);
        proof {
            assert(suffix_from(s@, before) =~= suffix_from(tail, before - start));
            assert forall|fs: Seq<ArtworkFileAbs>| #[trigger] files_array_prefix(tail, fs) implies
                before - start == "[\n    "@.len() + spec_file_items(
                fs.subrange(0, w0.len() as int),
            ).len() by {
                assert(spec_file_items(fs.subrange(0, w0.len() as int)) == spec_file_items(w0));
            }
        }
        if eat_lit(s, i, ",\n    ") {
            let ghost sep_end = *i as int;
            proof {
                assert(suffix_from(s@, sep_end) =~= suffix_from(tail, sep_end - start));
                reveal_strlit(",\n    ");
                reveal_strlit("\n  ]");
                assert forall|fs: Seq<ArtworkFileAbs>| #[trigger] files_array_prefix(tail, fs)
                    implies w0.len() < fs.len() && file_object_prefix(
                    suffix_from(s@, sep_end),
                    fs[w0.len() as int],
                ) by {
                    lemma_files_array_pieces(tail, fs, w0.len() as int);
                    if w0.len() == fs.len() {
                        let tj = suffix_from(tail, before - start);
                        assert(tj.subrange(0, ",\n    "@.len() as int)[0] == ",\n    "@[0]);
                        assert(tj.subrange(0, "\n  ]"@.len() as int)[0] == "\n  ]"@[0]);
                    }
                    lemma_suffix_compose(tail, before - start, ",\n    "@.len() as int);
                }
            }
            match parse_file_object(s, i) {
                Some(af) => {
                    proof {
                        let w1 = artwork_views(files@.push(af));
                        assert(w1.drop_last() =~= w0);
                        assert(w1.last() == af@);
                        assert(s@.subrange(start as int, *i as int) =~= s@.subrange(
                            start as int,
                            before,
                        ) + s@.subrange(before, sep_end) + s@.subrange(sep_end, *i as int));
                        assert(spec_file_items(w1) == spec_file_items(w0) + ",\n    "@
                            + spec_file_object(af@));
                        assert forall|fs: Seq<ArtworkFileAbs>| #[trigger] files_array_prefix(
                            tail,
                            fs,
                        ) implies w1.len() <= fs.len() && w1 == fs.subrange(0, w1.len() as int) by {
                            assert(af@ == fs[w0.len() as int]);
                            assert(fs.subrange(0, (w0.len() + 1) as int) =~= fs.subrange(
                                0,
                                w0.len() as int,
                            ).push(fs[w0.len() as int]));
                        }
                    }
                    files.push(af);
                },
                None => {
                    proof {
                        assert forall|fs: Seq<ArtworkFileAbs>| !files_array_prefix(tail, fs) by {
                            if files_array_prefix(tail, fs) {
                                assert(file_object_prefix(
                                    suffix_from(s@, sep_end),
                                    fs[w0.len() as int],
                                ));
                            }
                        }
                    }
                    *i = start;
                    return None;
                },
            }
        } else {
            proof {
                reveal_strlit(",\n    ");
                assert forall|fs: Seq<ArtworkFileAbs>| #[trigger] files_array_prefix(tail, fs)
                    implies fs.len() == files@.len() by {
                    lemma_files_array_pieces(tail, fs, w0.len() as int);
                    if w0.len() < fs.len() {
                        assert(spec_starts_with(suffix_from(s@, before), ",\n    "@));
                    }
                }
            }
            done = true;
        }
    }
    let ghost body_end = *i as int;
    proof {
        assert(suffix_from(s@, body_end) =~= suffix_from(tail, body_end - start));
        assert forall|fs: Seq<ArtworkFileAbs>| #[trigger] files_array_prefix(tail, fs) implies
            spec_starts_with(suffix_from(s@, body_end), "\n  ]"@) && artwork_views(files@) == fs by {
            let w0 = artwork_views(files@);
            assert(spec_file_items(fs.subrange(0, w0.len() as int)) == spec_file_items(w0));
            lemma_files_array_pieces(tail, fs, w0.len() as int);
            assert(fs.subrange(0, fs.len() as int) =~= fs);
        }
    }
    if !eat_lit(s, i, "\n  ]") {
        proof {
            assert forall|fs: Seq<ArtworkFileAbs>| !files_array_prefix(tail, fs) by {}
        }
        *i = start;
        return None;
    }
    proof {
        assert(s@.subrange(start as int, *i as int) =~= s@.subrange(start as int, body_end)
            + s@.subrange(body_end, *i as int));
    }
    Some(files)
}

/// A label followed by a canonical signed numeral, then anything but a
/// digit, stands at the front of `tail`.
spec fn labeled_dec_int_prefix(tail: Seq<char>, lit: Seq<char>, n: int) -> bool {
    spec_starts_with(tail, lit + spec_dec_int(n)) && dec_int_prefix(
        suffix_from(tail, lit.len() as int),
        n,
    )
}

/// Consumes a field label and the canonical signed numeral after it, or
/// consumes nothing; where such a field stands, exactly its value is read.
fn parse_labeled_i32(s: &Vec<char>, i: &mut usize, lit: &str) -> (r: Option<i32>)
    requires
        *old(i) <= s@.len(),
    ensures
        *old(i) <= *final(i) <= s@.len(),
        match r {
            Some(v) => s@.subrange(*old(i) as int, *final(i) as int) == lit@ + spec_dec_int(
                v as int,
            ) && (forall|n: int| labeled_dec_int_prefix(suffix_from(s@, *old(i) as int), lit@, n)
                ==> v == n),
            None => *final(i) == *old(i) && (forall|n: int|
                !labeled_dec_int_prefix(suffix_from(s@, *old(i) as int), lit@, n)),
        },
{
    let start = *i;
    let ghost tail = suffix_from(s@, start as int);
    if !eat_lit(s, i, lit) {
        proof {
            assert forall|n: int| !labeled_dec_int_prefix(tail, lit@, n) by {
                if labeled_dec_int_prefix(tail, lit@, n) {
                    lemma_split_prefix(tail, lit@, spec_dec_int(n));
                }
            }
        }
        return None;
    }
    let ghost p1: int = *i as int;
    proof {
        assert(suffix_from(s@, p1) =~= suffix_from(tail, lit@.len() as int));
    }
    match parse_i32(s, i) {
        Some(v) => {
            proof {
                assert(s@.subrange(start as int, *i as int) =~= s@.subrange(start as int, p1)
                    + s@.subrange(p1, *i as int));
            }
            Some(v)
        },
        None => {
            *i = start;
            None
        },
    }
}

/// A label followed by a string array stands at the front of `tail`.
spec fn labeled_sarr_prefix(tail: Seq<char>, lit: Seq<char>, ws: Seq<Seq<char>>) -> bool {
    spec_starts_with(tail, lit + spec_string_array(ws))
}

/// Consumes a field label and the string array after it, or consumes
/// nothing; where such a field stands, exactly its items are read.
fn parse_labeled_string_array(s: &Vec<char>, i: &mut usize, lit: &str) -> (r: Option<Vec<String>>)
    requires
        *old(i) <= s@.len(),
    ensures
        *old(i) <= *final(i) <= s@.len(),
        match r {
            Some(items) => s@.subrange(*old(i) as int, *final(i) as int) == lit@
                + spec_string_array(items@.map_values(|x: String| x@)) && (forall|
                ws: Seq<Seq<char>>,
            | labeled_sarr_prefix(suffix_from(s@, *old(i) as int), lit@, ws) ==> items@.map_values(
                |x: String| x@,
            ) == ws),
            None => *final(i) == *old(i) && (forall|ws: Seq<Seq<char>>|
                !labeled_sarr_prefix(suffix_from(s@, *old(i) as int), lit@, ws)),
        },
{
    let start = *i;
    let ghost tail = suffix_from(s@, start as int);
    if !eat_lit(s, i, lit) {
        proof {
            assert forall|ws: Seq<Seq<char>>| !labeled_sarr_prefix(tail, lit@, ws) by {
                if labeled_sarr_prefix(tail, lit@, ws) {
                    lemma_split_prefix(tail, lit@, spec_string_array(ws));
                }
            }
        }
        return None;
    }
    let ghost p1: int = *i as int;
    proof {
        assert(suffix_from(s@, p1) =~= suffix_from(tail, lit@.len() as int));
    }
    match parse_string_array(s, i) {
        Some(items) => {
            proof {
                assert(s@.subrange(start as int, *i as int) =~= s@.subrange(start as int, p1)
                    + s@.subrange(p1, *i as int));
                assert forall|ws: Seq<Seq<char>>| labeled_sarr_prefix(tail, lit@, ws) implies
                    items@.map_values(|x: String| x@) == ws by {
                    lemma_split_prefix(tail, lit@, spec_string_array(ws));
                    assert(string_array_prefix(suffix_from(s@, p1), ws));
                }
            }
            Some(items)
        },
        None => {
            proof {
                assert forall|ws: Seq<Seq<char>>| !labeled_sarr_prefix(tail, lit@, ws) by {
                    if labeled_sarr_prefix(tail, lit@, ws) {
                        lemma_split_prefix(tail, lit@, spec_string_array(ws));
                        assert(string_array_prefix(suffix_from(s@, p1), ws));
                    }
                }
            }
            *i = start;
            None
        },
    }
}

struct ManifestHeader {
    artwork_id: String,
    artwork_title: String,
    artwork_short_title: String,
    artwork_creator: String,
    year_of_creation: i32,
    short_description: String,
    long_description: String,
    edition_number: i32,
    total_editions: i32,
    issue_date: String,
    gallery: String,
    keywords: Vec<String>,
    medium: Vec<String>,
}

/// The descriptive fields alone, viewed as a manifest with nothing else in
/// it: what the header of the serialized form renders.
spec fn header_abs(h: ManifestHeader) -> crate::manifest::MetadataAbs {
    crate::manifest::MetadataAbs {
        artwork_id: h.artwork_id@,
        artwork_title: h.artwork_title@,
        artwork_short_title: h.artwork_short_title@,
        artwork_creator: h.artwork_creator@,
        year_of_creation: h.year_of_creation,
        short_description: h.short_description@,
        long_description: h.long_description@,
        edition_number: h.edition_number,
        total_editions: h.total_editions,
        issue_date: h.issue_date@,
        gallery: h.gallery@,
        keywords: h.keywords@.map_values(|x: String| x@),
        medium: h.medium@.map_values(|x: String| x@),
        certificate_of_authenticity: None,
        certificate_hash: None,
        artwork_files: Seq::empty(),
    }
}


proof fn lemma_header_a_pieces(tail: Seq<char>, a: Seq<char>, b: Seq<char>, c: Seq<char>, d: Seq<
    char,
>)
    requires
        spec_starts_with(tail, header_a_json(a, b, c, d)),
    ensures
        ({
            let b1 = "{\n  \"artwork_id\": "@.len() + spec_quoted(a).len();
            let b2 = b1 + ",\n  \"artwork_title\": "@.len() + spec_quoted(b).len();
            let b3 = b2 + ",\n  \"artwork_short_title\": "@.len() + spec_quoted(c).len();
            &&& labeled_string_prefix(tail, "{\n  \"artwork_id\": "@, a)
            &&& labeled_string_prefix(
                suffix_from(tail, b1 as int),
                ",\n  \"artwork_title\": "@,
                b,
            )
            &&& labeled_string_prefix(
                suffix_from(tail, b2 as int),
                ",\n  \"artwork_short_title\": "@,
                c,
            )
            &&& labeled_string_prefix(
                suffix_from(tail, b3 as int),
                ",\n  \"artwork_creator\": "@,
                d,
            )
        }),
{
    let g1 = "{\n  \"artwork_id\": "@ + spec_quoted(a);
    let g2 = ",\n  \"artwork_title\": "@ + spec_quoted(b);
    let g3 = ",\n  \"artwork_short_title\": "@ + spec_quoted(c);
    let g4 = ",\n  \"artwork_creator\": "@ + spec_quoted(d);
    assert(header_a_json(a, b, c, d) =~= g1 + g2 + g3 + g4);
    lemma_split_prefix(tail, g1 + g2 + g3, g4);
    lemma_split_prefix(tail, g1 + g2, g3);
    lemma_split_prefix(tail, g1, g2);
}


proof fn lemma_header_b_pieces(tail: Seq<char>, n: int, sd: Seq<char>, ld: Seq<char>)
    requires
        spec_starts_with(tail, header_b_json(n, sd, ld)),
        -2147483648 <= n <= 2147483647,
    ensures
        ({
            let b1 = ",\n  \"year_of_creation\": "@.len() + spec_dec_int(n).len();
            let b2 = b1 + ",\n  \"short_description\": "@.len() + spec_quoted(sd).len();
            &&& labeled_dec_int_prefix(tail, ",\n  \"year_of_creation\": "@, n)
            &&& labeled_string_prefix(
                suffix_from(tail, b1 as int),
                ",\n  \"short_description\": "@,
                sd,
            )
            &&& labeled_string_prefix(
                suffix_from(tail, b2 as int),
                ",\n  \"long_description\": "@,
                ld,
            )
        }),
{
    let g1 = ",\n  \"year_of_creation\": "@ + spec_dec_int(n);
    let g2 = ",\n  \"short_description\": "@ + spec_quoted(sd);
    let g3 = ",\n  \"long_description\": "@ + spec_quoted(ld);
    assert(header_b_json(n, sd, ld) =~= g1 + g2 + g3);
    lemma_split_prefix(tail, g1 + g2, g3);
    lemma_split_prefix(tail, g1, g2);
    let lit = ",\n  \"year_of_creation\": "@;
    lemma_split_prefix(tail, lit, spec_dec_int(n));
    assert(dec_int_prefix(suffix_from(tail, lit.len() as int), n)) by {
        reveal_strlit(",\n  \"short_description\": ");
        let d = spec_dec_int(n);
        let t1 = suffix_from(tail, lit.len() as int);
        lemma_suffix_compose(tail, lit.len() as int, d.len() as int);
        assert(g2[0] == ',');
        assert(suffix_from(tail, g1.len() as int).subrange(0, g2.len() as int)[0] == ',');
        assert(t1[d.len() as int] == suffix_from(tail, g1.len() as int)[0]);
        assert(!is_digit(t1[d.len() as int]));
    }
}


proof fn lemma_header_c_pieces(tail: Seq<char>, e: int, tt: int, isd: Seq<char>, gal: Seq<char>)
    requires
        spec_starts_with(tail, header_c_json(e, tt, isd, gal)),
        -2147483648 <= e <= 2147483647,
        -2147483648 <= tt <= 2147483647,
    ensures
        ({
            let b1 = ",\n  \"edition_number\": "@.len() + spec_dec_int(e).len();
            let b2 = b1 + ",\n  \"total_editions\": "@.len() + spec_dec_int(tt).len();
            let b3 = b2 + ",\n  \"issue_date\": "@.len() + spec_quoted(isd).len();
            &&& labeled_dec_int_prefix(tail, ",\n  \"edition_number\": "@, e)
            &&& labeled_dec_int_prefix(
                suffix_from(tail, b1 as int),
                ",\n  \"total_editions\": "@,
                tt,
            )
            &&& labeled_string_prefix(suffix_from(tail, b2 as int), ",\n  \"issue_date\": "@, isd)
            &&& labeled_string_prefix(suffix_from(tail, b3 as int), ",\n  \"gallery\": "@, gal)
        }),
{
    let g1 = ",\n  \"edition_number\": "@ + spec_dec_int(e);
    let g2 = ",\n  \"total_editions\": "@ + spec_dec_int(tt);
    let g3 = ",\n  \"issue_date\": "@ + spec_quoted(isd);
    let g4 = ",\n  \"gallery\": "@ + spec_quoted(gal);
    assert(header_c_json(e, tt, isd, gal) =~= g1 + g2 + g3 + g4);
    lemma_split_prefix(tail, g1 + g2 + g3, g4);
    lemma_split_prefix(tail, g1 + g2, g3);
    lemma_split_prefix(tail, g1, g2);
    let l1 = ",\n  \"edition_number\": "@;
    let l2 = ",\n  \"total_editions\": "@;
    lemma_split_prefix(tail, l1, spec_dec_int(e));
    assert(dec_int_prefix(suffix_from(tail, l1.len() as int), e)) by {
        reveal_strlit(",\n  \"total_editions\": ");
        let d = spec_dec_int(e);
        let t1 = suffix_from(tail, l1.len() as int);
        lemma_suffix_compose(tail, l1.len() as int, d.len() as int);
        assert(g2[0] == ',');
        assert(suffix_from(tail, g1.len() as int).subrange(0, g2.len() as int)[0] == ',');
        assert(t1[d.len() as int] == suffix_from(tail, g1.len() as int)[0]);
        assert(!is_digit(t1[d.len() as int]));
    }
    let tb = suffix_from(tail, g1.len() as int);
    lemma_split_prefix(tb, l2, spec_dec_int(tt));
    assert(dec_int_prefix(suffix_from(tb, l2.len() as int), tt)) by {
        reveal_strlit(",\n  \"issue_date\": ");
        let d = spec_dec_int(tt);
        let t1 = suffix_from(tb, l2.len() as int);
        lemma_suffix_compose(tb, l2.len() as int, d.len() as int);
        lemma_suffix_compose(tail, g1.len() as int, g2.len() as int);
        assert(g3[0] == ',');
        assert(suffix_from(tail, (g1.len() + g2.len()) as int).subrange(0, g3.len() as int)[0]
            == ',');
        assert(t1[d.len() as int] == suffix_from(tb, g2.len() as int)[0]);
        assert(suffix_from(tb, g2.len() as int) =~= suffix_from(
            tail,
            (g1.len() + g2.len()) as int,
        ));
        assert(!is_digit(t1[d.len() as int]));
    }
}

#[verifier::spinoff_prover]
#[verifier::rlimit(100)]
fn parse_header_a(s: &Vec<char>, i: &mut usize) -> (r: Option<(String, String, String, String)>)
    requires
        *old(i) <= s@.len(),
    ensures
        *old(i) <= *final(i) <= s@.len(),
        match r {
            Some(t) => s@.subrange(*old(i) as int, *final(i) as int) == header_a_json(
                t.0@,
                t.1@,
                t.2@,
                t.3@,
            ) && (forall|a: Seq<char>, b: Seq<char>, c: Seq<char>, d: Seq<char>|
                spec_starts_with(suffix_from(s@, *old(i) as int), header_a_json(a, b, c, d))
                    ==> t.0@ == a && t.1@ == b && t.2@ == c && t.3@ == d),
            None => *final(i) == *old(i) && (forall|a: Seq<char>, b: Seq<char>, c: Seq<char>, d: Seq<char>|
                !spec_starts_with(suffix_from(s@, *old(i) as int), header_a_json(a, b, c, d))),
        },
{
    let start = *i;
    let ghost tail = suffix_from(s@, start as int);
    let v0 = match parse_labeled_string(s, i, "{\n  \"artwork_id\": ") {
        Some(v) => v,
        None => {
            proof {
                assert forall|a: Seq<char>, b: Seq<char>, c: Seq<char>, d: Seq<char>|
                    !spec_starts_with(tail, header_a_json(a, b, c, d)) by {
                    if spec_starts_with(tail, header_a_json(a, b, c, d)) {
                        lemma_header_a_pieces(tail, a, b, c, d);
                    }
                }
            }
            return None;
        },
    };
    let ghost p1: int = *i as int;
    proof {
        assert(suffix_from(s@, p1) =~= suffix_from(tail, p1 - start));
        assert forall|a: Seq<char>, b: Seq<char>, c: Seq<char>, d: Seq<char>|
            spec_starts_with(tail, header_a_json(a, b, c, d)) implies a == v0@ && p1 - start
            == "{\n  \"artwork_id\": "@.len() + spec_quoted(a).len() by {
            lemma_header_a_pieces(tail, a, b, c, d);
        }
    }
    let v1 = match parse_labeled_string(s, i, ",\n  \"artwork_title\": ") {
        Some(v) => v,
        None => {
            proof {
                assert forall|a: Seq<char>, b: Seq<char>, c: Seq<char>, d: Seq<char>|
                    !spec_starts_with(tail, header_a_json(a, b, c, d)) by {
                    if spec_starts_with(tail, header_a_json(a, b, c, d)) {
                        lemma_header_a_pieces(tail, a, b, c, d);
                    }
                }
            }
            *i = start;
            return None;
        },
    };
    let ghost p2: int = *i as int;
    proof {
        assert(suffix_from(s@, p2) =~= suffix_from(tail, p2 - start));
        assert forall|a: Seq<char>, b: Seq<char>, c: Seq<char>, d: Seq<char>|
            spec_starts_with(tail, header_a_json(a, b, c, d)) implies b == v1@ && p2 - start
            == "{\n  \"artwork_id\": "@.len() + spec_quoted(a).len()
            + ",\n  \"artwork_title\": "@.len() + spec_quoted(b).len() by {
            lemma_header_a_pieces(tail, a, b, c, d);
        }
    }
    let v2 = match parse_labeled_string(s, i, ",\n  \"artwork_short_title\": ") {
        Some(v) => v,
        None => {
            proof {
                assert forall|a: Seq<char>, b: Seq<char>, c: Seq<char>, d: Seq<char>|
                    !spec_starts_with(tail, header_a_json(a, b, c, d)) by {
                    if spec_starts_with(tail, header_a_json(a, b, c, d)) {
                        lemma_header_a_pieces(tail, a, b, c, d);
                    }
                }
            }
            *i = start;
            return None;
        },
    };
    let ghost p3: int = *i as int;
    proof {
        assert(suffix_from(s@, p3) =~= suffix_from(tail, p3 - start));
        assert forall|a: Seq<char>, b: Seq<char>, c: Seq<char>, d: Seq<char>|
            spec_starts_with(tail, header_a_json(a, b, c, d)) implies c == v2@ && p3 - start
            == "{\n  \"artwork_id\": "@.len() + spec_quoted(a).len()
            + ",\n  \"artwork_title\": "@.len() + spec_quoted(b).len()
            + ",\n  \"artwork_short_title\": "@.len() + spec_quoted(c).len() by {
            lemma_header_a_pieces(tail, a, b, c, d);
        }
    }
    let v3 = match parse_labeled_string(s, i, ",\n  \"artwork_creator\": ") {
        Some(v) => v,
        None => {
            proof {
                assert forall|a: Seq<char>, b: Seq<char>, c: Seq<char>, d: Seq<char>|
                    !spec_starts_with(tail, header_a_json(a, b, c, d)) by {
                    if spec_starts_with(tail, header_a_json(a, b, c, d)) {
                        lemma_header_a_pieces(tail, a, b, c, d);
                    }
                }
            }
            *i = start;
            return None;
        },
    };
    proof {
        assert forall|a: Seq<char>, b: Seq<char>, c: Seq<char>, d: Seq<char>|
            spec_starts_with(tail, header_a_json(a, b, c, d)) implies d == v3@ by {
            lemma_header_a_pieces(tail, a, b, c, d);
        }
        assert(s@.subrange(start as int, *i as int) =~= s@.subrange(start as int, p1)
            + s@.subrange(p1, p2) + s@.subrange(p2, p3) + s@.subrange(p3, *i as int));
    }
    Some((v0, v1, v2, v3))
}

#[verifier::spinoff_prover]
#[verifier::rlimit(100)]
fn parse_header_b(s: &Vec<char>, i: &mut usize) -> (r: Option<(i32, String, String)>)
    requires
        *old(i) <= s@.len(),
    ensures
        *old(i) <= *final(i) <= s@.len(),
        match r {
            Some(t) => s@.subrange(*old(i) as int, *final(i) as int) == header_b_json(
                t.0 as int,
                t.1@,
                t.2@,
            ) && (forall|n: int, sd: Seq<char>, ld: Seq<char>|
                spec_starts_with(suffix_from(s@, *old(i) as int), header_b_json(n, sd, ld)) && -2147483648
                    <= n <= 2147483647 ==> t.0 == n && t.1@ == sd && t.2@ == ld),
            None => *final(i) == *old(i) && (forall|n: int, sd: Seq<char>, ld: Seq<char>|
                !(spec_starts_with(suffix_from(s@, *old(i) as int), header_b_json(n, sd, ld))
                    && -2147483648 <= n <= 2147483647)),
        },
{
    let start = *i;
    let ghost tail = suffix_from(s@, start as int);
    let year = match parse_labeled_i32(s, i, ",\n  \"year_of_creation\": ") {
        Some(v) => v,
        None => {
            proof {
                assert forall|n: int, sd: Seq<char>, ld: Seq<char>|
                    !(spec_starts_with(tail, header_b_json(n, sd, ld)) && -2147483648 <= n
                        <= 2147483647) by {
                    if spec_starts_with(tail, header_b_json(n, sd, ld)) && -2147483648 <= n
                        <= 2147483647 {
                        lemma_header_b_pieces(tail, n, sd, ld);
                    }
                }
            }
            return None;
        },
    };
    let ghost p1: int = *i as int;
    proof {
        assert(suffix_from(s@, p1) =~= suffix_from(tail, p1 - start));
        assert forall|n: int, sd: Seq<char>, ld: Seq<char>|
            spec_starts_with(tail, header_b_json(n, sd, ld)) && -2147483648 <= n <= 2147483647
            implies year == n && p1 - start == ",\n  \"year_of_creation\": "@.len()
            + spec_dec_int(n).len() by {
            lemma_header_b_pieces(tail, n, sd, ld);
        }
    }
    let short_description = match parse_labeled_string(s, i, ",\n  \"short_description\": ") {
        Some(v) => v,
        None => {
            proof {
                assert forall|n: int, sd: Seq<char>, ld: Seq<char>|
                    !(spec_starts_with(tail, header_b_json(n, sd, ld)) && -2147483648 <= n
                        <= 2147483647) by {
                    if spec_starts_with(tail, header_b_json(n, sd, ld)) && -2147483648 <= n
                        <= 2147483647 {
                        lemma_header_b_pieces(tail, n, sd, ld);
                    }
                }
            }
            *i = start;
            return None;
        },
    };
    let ghost p2: int = *i as int;
    proof {
        assert(suffix_from(s@, p2) =~= suffix_from(tail, p2 - start));
        assert forall|n: int, sd: Seq<char>, ld: Seq<char>|
            spec_starts_with(tail, header_b_json(n, sd, ld)) && -2147483648 <= n <= 2147483647
            implies sd == short_description@ && p2 - start == ",\n  \"year_of_creation\": "@.len()
            + spec_dec_int(n).len() + ",\n  \"short_description\": "@.len() + spec_quoted(
            sd,
        ).len() by {
            lemma_header_b_pieces(tail, n, sd, ld);
        }
    }
    let long_description = match parse_labeled_string(s, i, ",\n  \"long_description\": ") {
        Some(v) => v,
        None => {
            proof {
                assert forall|n: int, sd: Seq<char>, ld: Seq<char>|
                    !(spec_starts_with(tail, header_b_json(n, sd, ld)) && -2147483648 <= n
                        <= 2147483647) by {
                    if spec_starts_with(tail, header_b_json(n, sd, ld)) && -2147483648 <= n
                        <= 2147483647 {
                        lemma_header_b_pieces(tail, n, sd, ld);
                    }
                }
            }
            *i = start;
            return None;
        },
    };
    proof {
        assert forall|n: int, sd: Seq<char>, ld: Seq<char>|
            spec_starts_with(tail, header_b_json(n, sd, ld)) && -2147483648 <= n <= 2147483647
            implies ld == long_description@ by {
            lemma_header_b_pieces(tail, n, sd, ld);
        }
        assert(s@.subrange(start as int, *i as int) =~= s@.subrange(start as int, p1)
            + s@.subrange(p1, p2) + s@.subrange(p2, *i as int));
    }
    Some((year, short_description, long_description))
}

#[verifier::spinoff_prover]
#[verifier::rlimit(100)]
fn parse_header_c(s: &Vec<char>, i: &mut usize) -> (r: Option<(i32, i32, String, String)>)
    requires
        *old(i) <= s@.len(),
    ensures
        *old(i) <= *final(i) <= s@.len(),
        match r {
            Some(t) => s@.subrange(*old(i) as int, *final(i) as int) == header_c_json(
                t.0 as int,
                t.1 as int,
                t.2@,
                t.3@,
            ) && (forall|e: int, tt: int, isd: Seq<char>, gal: Seq<char>|
                spec_starts_with(suffix_from(s@, *old(i) as int), header_c_json(e, tt, isd, gal))
                    && -2147483648 <= e <= 2147483647 && -2147483648 <= tt <= 2147483647 ==> t.0
                    == e && t.1 == tt && t.2@ == isd && t.3@ == gal),
            None => *final(i) == *old(i) && (forall|e: int, tt: int, isd: Seq<char>, gal: Seq<char>|
                !(spec_starts_with(suffix_from(s@, *old(i) as int), header_c_json(e, tt, isd, gal))
                    && -2147483648 <= e <= 2147483647 && -2147483648 <= tt <= 2147483647)),
        },
{
    let start = *i;
    let ghost tail = suffix_from(s@, start as int);
    let edition_number = match parse_labeled_i32(s, i, ",\n  \"edition_number\": ") {
        Some(v) => v,
        None => {
            proof {
                assert forall|e: int, tt: int, isd: Seq<char>, gal: Seq<char>|
                    !(spec_starts_with(tail, header_c_json(e, tt, isd, gal)) && -2147483648 <= e
                        <= 2147483647 && -2147483648 <= tt <= 2147483647) by {
                    if spec_starts_with(tail, header_c_json(e, tt, isd, gal)) && -2147483648 <= e
                        <= 2147483647 && -2147483648 <= tt <= 2147483647 {
                        lemma_header_c_pieces(tail, e, tt, isd, gal);
                    }
                }
            }
            return None;
        },
    };
    let ghost p1: int = *i as int;
    proof {
        assert(suffix_from(s@, p1) =~= suffix_from(tail, p1 - start));
        assert forall|e: int, tt: int, isd: Seq<char>, gal: Seq<char>|
            spec_starts_with(tail, header_c_json(e, tt, isd, gal)) && -2147483648 <= e
            <= 2147483647 && -2147483648 <= tt <= 2147483647 implies edition_number == e && p1
            - start == ",\n  \"edition_number\": "@.len() + spec_dec_int(e).len() by {
            lemma_header_c_pieces(tail, e, tt, isd, gal);
        }
    }
    let total_editions = match parse_labeled_i32(s, i, ",\n  \"total_editions\": ") {
        Some(v) => v,
        None => {
            proof {
                assert forall|e: int, tt: int, isd: Seq<char>, gal: Seq<char>|
                    !(spec_starts_with(tail, header_c_json(e, tt, isd, gal)) && -2147483648 <= e
                        <= 2147483647 && -2147483648 <= tt <= 2147483647) by {
                    if spec_starts_with(tail, header_c_json(e, tt, isd, gal)) && -2147483648 <= e
                        <= 2147483647 && -2147483648 <= tt <= 2147483647 {
                        lemma_header_c_pieces(tail, e, tt, isd, gal);
                    }
                }
            }
            *i = start;
            return None;
        },
    };
    let ghost p2: int = *i as int;
    proof {
        assert(suffix_from(s@, p2) =~= suffix_from(tail, p2 - start));
        assert forall|e: int, tt: int, isd: Seq<char>, gal: Seq<char>|
            spec_starts_with(tail, header_c_json(e, tt, isd, gal)) && -2147483648 <= e
            <= 2147483647 && -2147483648 <= tt <= 2147483647 implies total_editions == tt && p2
            - start == ",\n  \"edition_number\": "@.len() + spec_dec_int(e).len()
            + ",\n  \"total_editions\": "@.len() + spec_dec_int(tt).len() by {
            lemma_header_c_pieces(tail, e, tt, isd, gal);
        }
    }
    let issue_date = match parse_labeled_string(s, i, ",\n  \"issue_date\": ") {
        Some(v) => v,
        None => {
            proof {
                assert forall|e: int, tt: int, isd: Seq<char>, gal: Seq<char>|
                    !(spec_starts_with(tail, header_c_json(e, tt, isd, gal)) && -2147483648 <= e
                        <= 2147483647 && -2147483648 <= tt <= 2147483647) by {
                    if spec_starts_with(tail, header_c_json(e, tt, isd, gal)) && -2147483648 <= e
                        <= 2147483647 && -2147483648 <= tt <= 2147483647 {
                        lemma_header_c_pieces(tail, e, tt, isd, gal);
                    }
                }
            }
            *i = start;
            return None;
        },
    };
    let ghost p3: int = *i as int;
    proof {
        assert(suffix_from(s@, p3) =~= suffix_from(tail, p3 - start));
        assert forall|e: int, tt: int, isd: Seq<char>, gal: Seq<char>|
            spec_starts_with(tail, header_c_json(e, tt, isd, gal)) && -2147483648 <= e
            <= 2147483647 && -2147483648 <= tt <= 2147483647 implies issue_date@ == isd && p3
            - start == ",\n  \"edition_number\": "@.len() + spec_dec_int(e).len()
            + ",\n  \"total_editions\": "@.len() + spec_dec_int(tt).len()
            + ",\n  \"issue_date\": "@.len() + spec_quoted(isd).len() by {
            lemma_header_c_pieces(tail, e, tt, isd, gal);
        }
    }
    let gallery = match parse_labeled_string(s, i, ",\n  \"gallery\": ") {
        Some(v) => v,
        None => {
            proof {
                assert forall|e: int, tt: int, isd: Seq<char>, gal: Seq<char>|
                    !(spec_starts_with(tail, header_c_json(e, tt, isd, gal)) && -2147483648 <= e
                        <= 2147483647 && -2147483648 <= tt <= 2147483647) by {
                    if spec_starts_with(tail, header_c_json(e, tt, isd, gal)) && -2147483648 <= e
                        <= 2147483647 && -2147483648 <= tt <= 2147483647 {
                        lemma_header_c_pieces(tail, e, tt, isd, gal);
                    }
                }
            }
            *i = start;
            return None;
        },
    };
    proof {
        assert forall|e: int, tt: int, isd: Seq<char>, gal: Seq<char>|
            spec_starts_with(tail, header_c_json(e, tt, isd, gal)) && -2147483648 <= e
            <= 2147483647 && -2147483648 <= tt <= 2147483647 implies gallery@ == gal by {
            lemma_header_c_pieces(tail, e, tt, isd, gal);
        }
        assert(s@.subrange(start as int, *i as int) =~= s@.subrange(start as int, p1)
            + s@.subrange(p1, p2) + s@.subrange(p2, p3) + s@.subrange(p3, *i as int));
    }
    Some((edition_number, total_editions, issue_date, gallery))
}


proof fn lemma_header_d_pieces(tail: Seq<char>, kw: Seq<Seq<char>>, med: Seq<Seq<char>>)
    requires
        spec_starts_with(tail, header_d_json(kw, med)),
    ensures
        ({
            let b1 = ",\n  \"keywords\": "@.len() + spec_string_array(kw).len();
            &&& labeled_sarr_prefix(tail, ",\n  \"keywords\": "@, kw)
            &&& labeled_sarr_prefix(suffix_from(tail, b1 as int), ",\n  \"medium\": "@, med)
        }),
{
    let g1 = ",\n  \"keywords\": "@ + spec_string_array(kw);
    let g2 = ",\n  \"medium\": "@ + spec_string_array(med);
    assert(header_d_json(kw, med) =~= g1 + g2);
    lemma_split_prefix(tail, g1, g2);
}

#[verifier::spinoff_prover]
#[verifier::rlimit(100)]
fn parse_header_d(s: &Vec<char>, i: &mut usize) -> (r: Option<(Vec<String>, Vec<String>)>)
    requires
        *old(i) <= s@.len(),
    ensures
        *old(i) <= *final(i) <= s@.len(),
        match r {
            Some(t) => s@.subrange(*old(i) as int, *final(i) as int) == header_d_json(
                t.0@.map_values(|x: String| x@),
                t.1@.map_values(|x: String| x@),
            ) && (forall|kw: Seq<Seq<char>>, med: Seq<Seq<char>>|
                spec_starts_with(suffix_from(s@, *old(i) as int), header_d_json(kw, med)) ==> t.0@
                    .map_values(|x: String| x@) == kw && t.1@.map_values(|x: String| x@) == med),
            None => *final(i) == *old(i) && (forall|kw: Seq<Seq<char>>, med: Seq<Seq<char>>|
                !spec_starts_with(suffix_from(s@, *old(i) as int), header_d_json(kw, med))),
        },
{
    let start = *i;
    let ghost tail = suffix_from(s@, start as int);
    let keywords = match parse_labeled_string_array(s, i, ",\n  \"keywords\": ") {
        Some(v) => v,
        None => {
            proof {
                assert forall|kw: Seq<Seq<char>>, med: Seq<Seq<char>>|
                    !spec_starts_with(tail, header_d_json(kw, med)) by {
                    if spec_starts_with(tail, header_d_json(kw, med)) {
                        lemma_header_d_pieces(tail, kw, med);
                    }
                }
            }
            return None;
        },
    };
    let ghost p1: int = *i as int;
    proof {
        assert(suffix_from(s@, p1) =~= suffix_from(tail, p1 - start));
        assert forall|kw: Seq<Seq<char>>, med: Seq<Seq<char>>|
            spec_starts_with(tail, header_d_json(kw, med)) implies kw == keywords@.map_values(
            |x: String| x@,
        ) && p1 - start == ",\n  \"keywords\": "@.len() + spec_string_array(kw).len() by {
            lemma_header_d_pieces(tail, kw, med);
        }
    }
    let medium = match parse_labeled_string_array(s, i, ",\n  \"medium\": ") {
        Some(v) => v,
        None => {
            proof {
                assert forall|kw: Seq<Seq<char>>, med: Seq<Seq<char>>|
                    !spec_starts_with(tail, header_d_json(kw, med)) by {
                    if spec_starts_with(tail, header_d_json(kw, med)) {
                        lemma_header_d_pieces(tail, kw, med);
                    }
                }
            }
            *i = start;
            return None;
        },
    };
    proof {
        assert forall|kw: Seq<Seq<char>>, med: Seq<Seq<char>>|
            spec_starts_with(tail, header_d_json(kw, med)) implies med == medium@.map_values(
            |x: String| x@,
        ) by {
            lemma_header_d_pieces(tail, kw, med);
        }
        assert(s@.subrange(start as int, *i as int) =~= s@.subrange(start as int, p1)
            + s@.subrange(p1, *i as int));
    }
    Some((keywords, medium))
}

/// The header chunks of one manifest, by name.
spec fn ha_of(hm: crate::manifest::MetadataAbs) -> Seq<char> {
    header_a_json(hm.artwork_id, hm.artwork_title, hm.artwork_short_title, hm.artwork_creator)
}

spec fn hb_of(hm: crate::manifest::MetadataAbs) -> Seq<char> {
    header_b_json(hm.year_of_creation as int, hm.short_description, hm.long_description)
}

spec fn hc_of(hm: crate::manifest::MetadataAbs) -> Seq<char> {
    header_c_json(
        hm.edition_number as int,
        hm.total_editions as int,
        hm.issue_date,
        hm.gallery,
    )
}

spec fn hd_of(hm: crate::manifest::MetadataAbs) -> Seq<char> {
    header_d_json(hm.keywords, hm.medium)
}

/// A whole descriptive header stands at the front of `tail`.
spec fn header_prefix(tail: Seq<char>, hm: crate::manifest::MetadataAbs) -> bool {
    spec_starts_with(tail, spec_header_json(hm))
}

/// The header's rendering, grouped into the chunks the parser reads.
proof fn lemma_header_grouping(tail: Seq<char>, hm: crate::manifest::MetadataAbs)
    requires
        header_prefix(tail, hm),
    ensures
        spec_header_json(hm) == ha_of(hm) + hb_of(hm) + hc_of(hm) + hd_of(hm),
        spec_starts_with(tail, ha_of(hm)),
        spec_starts_with(suffix_from(tail, ha_of(hm).len() as int), hb_of(hm)),
        spec_starts_with(
            suffix_from(tail, (ha_of(hm).len() + hb_of(hm).len()) as int),
            hc_of(hm),
        ),
        spec_starts_with(
            suffix_from(tail, (ha_of(hm).len() + hb_of(hm).len() + hc_of(hm).len()) as int),
            hd_of(hm),
        ),
{
    assert(spec_header_json(hm) =~= ha_of(hm) + hb_of(hm) + hc_of(hm) + hd_of(hm));
    lemma_split_prefix(tail, ha_of(hm) + hb_of(hm) + hc_of(hm), hd_of(hm));
    lemma_split_prefix(tail, ha_of(hm) + hb_of(hm), hc_of(hm));
    lemma_split_prefix(tail, ha_of(hm), hb_of(hm));
}

/// Consumes the descriptive half of a canonical manifest rendering at `*i`,
/// or consumes nothing; where such a header stands, exactly its fields are
/// read.
#[verifier::spinoff_prover]
#[verifier::rlimit(100)]
fn parse_header(s: &Vec<char>, i: &mut usize) -> (r: Option<ManifestHeader>)
    requires
        *old(i) <= s@.len(),
    ensures
        *old(i) <= *final(i) <= s@.len(),
        match r {
            Some(h) => s@.subrange(*old(i) as int, *final(i) as int) == spec_header_json(
                header_abs(h),
            ) && (forall|hm: crate::manifest::MetadataAbs|
                header_prefix(suffix_from(s@, *old(i) as int), hm) ==> spec_header_json(
                    header_abs(h),
                ) == spec_header_json(hm)),
            None => *final(i) == *old(i) && (forall|hm: crate::manifest::MetadataAbs|
                !header_prefix(suffix_from(s@, *old(i) as int), hm)),
        },
{
    let start = *i;
    let ghost tail = suffix_from(s@, start as int);
    let (artwork_id, artwork_title, artwork_short_title, artwork_creator) = match parse_header_a(
        s,
        i,
    ) {
        Some(t) => t,
        None => {
            proof {
                assert forall|hm: crate::manifest::MetadataAbs| !header_prefix(tail, hm) by {
                    if header_prefix(tail, hm) {
                        lemma_header_grouping(tail, hm);
                    }
                }
            }
            return None;
        },
    };
    let ghost p1: int = *i as int;
    proof {
        assert(suffix_from(s@, p1) =~= suffix_from(tail, p1 - start));
        assert forall|hm: crate::manifest::MetadataAbs| header_prefix(tail, hm) implies
            hm.artwork_id == artwork_id@ && hm.artwork_title == artwork_title@
            && hm.artwork_short_title == artwork_short_title@ && hm.artwork_creator
            == artwork_creator@ && p1 - start == ha_of(hm).len() by {
            lemma_header_grouping(tail, hm);
        }
    }
    let (year_of_creation, short_description, long_description) = match parse_header_b(s, i) {
        Some(t) => t,
        None => {
            proof {
                assert forall|hm: crate::manifest::MetadataAbs| !header_prefix(tail, hm) by {
                    if header_prefix(tail, hm) {
                        lemma_header_grouping(tail, hm);
                    }
                }
            }
            *i = start;
            return None;
        },
    };
    let ghost p2: int = *i as int;
    proof {
        assert(suffix_from(s@, p2) =~= suffix_from(tail, p2 - start));
        assert forall|hm: crate::manifest::MetadataAbs| header_prefix(tail, hm) implies
            hm.year_of_creation == year_of_creation && hm.short_description == short_description@
            && hm.long_description == long_description@ && p2 - start == ha_of(hm).len() + hb_of(
            hm,
        ).len() by {
            lemma_header_grouping(tail, hm);
        }
    }
    let (edition_number, total_editions, issue_date, gallery) = match parse_header_c(s, i) {
        Some(t) => t,
        None => {
            proof {
                assert forall|hm: crate::manifest::MetadataAbs| !header_prefix(tail, hm) by {
                    if header_prefix(tail, hm) {
                        lemma_header_grouping(tail, hm);
                    }
                }
            }
            *i = start;
            return None;
        },
    };
    let ghost p3: int = *i as int;
    proof {
        assert(suffix_from(s@, p3) =~= suffix_from(tail, p3 - start));
        assert forall|hm: crate::manifest::MetadataAbs| header_prefix(tail, hm) implies
            hm.edition_number == edition_number && hm.total_editions == total_editions
            && hm.issue_date == issue_date@ && hm.gallery == gallery@ && p3 - start == ha_of(
            hm,
        ).len() + hb_of(hm).len() + hc_of(hm).len() by {
            lemma_header_grouping(tail, hm);
        }
    }
    let (keywords, medium) = match parse_header_d(s, i) {
        Some(t) => t,
        None => {
            proof {
                assert forall|hm: crate::manifest::MetadataAbs| !header_prefix(tail, hm) by {
                    if header_prefix(tail, hm) {
                        lemma_header_grouping(tail, hm);
                    }
                }
            }
            *i = start;
            return None;
        },
    };
    let h = ManifestHeader {
        artwork_id,
        artwork_title,
        artwork_short_title,
        artwork_creator,
        year_of_creation,
        short_description,
        long_description,
        edition_number,
        total_editions,
        issue_date,
        gallery,
        keywords,
        medium,
    };
    proof {
        assert forall|hm: crate::manifest::MetadataAbs| header_prefix(tail, hm) implies
            spec_header_json(header_abs(h)) == spec_header_json(hm) by {
            lemma_header_grouping(tail, hm);
            assert(hm.keywords == h.keywords@.map_values(|x: String| x@) && hm.medium
                == h.medium@.map_values(|x: String| x@));
        }
        assert(s@.subrange(start as int, *i as int) =~= s@.subrange(start as int, p1)
            + s@.subrange(p1, p2) + s@.subrange(p2, p3) + s@.subrange(p3, *i as int));
    }
    Some(h)
}

/// The two optional certificate fields, rendered.
spec fn certs_json(co: Option<Seq<char>>, ch: Option<Seq<char>>) -> Seq<char> {
    (match co {
        Some(p) => ",\n  \"certificate_of_authenticity\": "@ + spec_quoted(p),
        None => Seq::empty(),
    }) + (match ch {
        Some(h) => ",\n  \"certificate_hash\": "@ + spec_quoted(h),
        None => Seq::empty(),
    })
}

/// The three labels that may follow the medium array differ within their
/// first eighteen characters.
proof fn lemma_cert_labels_differ()
    ensures
        ",\n  \"certificate_of_authenticity\": "@.len() == 35,
        ",\n  \"certificate_hash\": "@.len() == 24,
        ",\n  \"artwork_files\": "@.len() == 21,
        ",\n  \"certificate_of_authenticity\": "@[5] == 'c',
        ",\n  \"certificate_hash\": "@[5] == 'c',
        ",\n  \"artwork_files\": "@[5] == 'a',
        ",\n  \"certificate_of_authenticity\": "@[17] == 'o',
        ",\n  \"certificate_hash\": "@[17] == 'h',
{
    reveal_strlit(",\n  \"certificate_of_authenticity\": ");
    reveal_strlit(",\n  \"certificate_hash\": ");
    reveal_strlit(",\n  \"artwork_files\": ");
}

/// The certificate fields followed by the files label stand at the front of
/// `tail`: the shape a canonical rendering leaves after the medium array.
spec fn certs_prefix(tail: Seq<char>, co: Option<Seq<char>>, ch: Option<Seq<char>>) -> bool {
    spec_starts_with(tail, certs_json(co, ch) + ",\n  \"artwork_files\": "@)
}

proof fn lemma_certs_shape(tail: Seq<char>, co: Option<Seq<char>>, ch: Option<Seq<char>>)
    requires
        certs_prefix(tail, co, ch),
    ensures
        co is Some ==> labeled_string_prefix(
            tail,
            ",\n  \"certificate_of_authenticity\": "@,
            co.unwrap(),
        ),
        co is None && ch is Some ==> spec_starts_with(tail, ",\n  \"certificate_hash\": "@),
        co is None && ch is None ==> spec_starts_with(tail, ",\n  \"artwork_files\": "@),
        ({
            let after = suffix_from(tail, certs_json(co, Option::<Seq<char>>::None).len() as int);
            &&& (ch is Some ==> labeled_string_prefix(
                after,
                ",\n  \"certificate_hash\": "@,
                ch.unwrap(),
            ))
            &&& (ch is None ==> spec_starts_with(after, ",\n  \"artwork_files\": "@))
        }),
{
    let f = ",\n  \"artwork_files\": "@;
    let g1 = certs_json(co, Option::<Seq<char>>::None);
    let g2 = match ch {
        Some(h) => ",\n  \"certificate_hash\": "@ + spec_quoted(h),
        None => Seq::empty(),
    };
    assert(certs_json(co, ch) + f =~= g1 + (g2 + f));
    lemma_split_prefix(tail, g1, g2 + f);
    if co is Some {
        assert(g1 == ",\n  \"certificate_of_authenticity\": "@ + spec_quoted(co.unwrap()));
        lemma_split_prefix(tail, g1, g2 + f);
        assert(spec_starts_with(tail, g1));
    } else {
        assert(g1 =~= Seq::<char>::empty());
        assert(suffix_from(tail, 0) =~= tail);
    }
    let after = suffix_from(tail, g1.len() as int);
    if ch is Some {
        lemma_split_prefix(after, g2, f);
        assert(spec_starts_with(after, g2));
        lemma_split_prefix(after, ",\n  \"certificate_hash\": "@, spec_quoted(ch.unwrap()));
        if co is None {
            assert(after =~= tail);
        }
    } else {
        assert(g2 =~= Seq::<char>::empty());
        assert(g2 + f =~= f);
        if co is None {
            assert(after =~= tail);
        }
    }
}

/// Consumes the two optional certificate fields of a canonical manifest
/// rendering at `*i`; either may be absent, and an absent field consumes
/// nothing. Where certificate fields stand, exactly they are read.
#[verifier::spinoff_prover]
#[verifier::rlimit(100)]
fn parse_certificate_fields(s: &Vec<char>, i: &mut usize) -> (r: Option<
    (Option<String>, Option<String>),
>)
    requires
        *old(i) <= s@.len(),
    ensures
        *old(i) <= *final(i) <= s@.len(),
        match r {
            Some(pair) => s@.subrange(*old(i) as int, *final(i) as int) == certs_json(
                match pair.0 {
                    Some(p) => Some(p@),
                    None => None,
                },
                match pair.1 {
                    Some(h) => Some(h@),
                    None => None,
                },
            ) && (forall|co: Option<Seq<char>>, ch: Option<Seq<char>>|
                certs_prefix(suffix_from(s@, *old(i) as int), co, ch) ==> co == (match pair.0 {
                    Some(p) => Some(p@),
                    None => None,
                }) && ch == (match pair.1 {
                    Some(h) => Some(h@),
                    None => None,
                })),
            None => *final(i) == *old(i) && (forall|co: Option<Seq<char>>, ch: Option<Seq<char>>|
                !certs_prefix(suffix_from(s@, *old(i) as int), co, ch)),
        },
{
    let start = *i;
    let ghost tail = suffix_from(s@, start as int);
    let certificate_of_authenticity: Option<String> = match parse_labeled_string(
        s,
        i,
        ",\n  \"certificate_of_authenticity\": ",
    ) {
        Some(v) => Some(v),
        None => None,
    };
    let ghost p1: int = *i as int;
    let ghost co_view: Option<Seq<char>> = match certificate_of_authenticity {
        Some(ref p) => Some(p@),
        None => None,
    };
    proof {
        assert(suffix_from(s@, p1) =~= suffix_from(tail, p1 - start));
        lemma_cert_labels_differ();
        let lc = ",\n  \"certificate_of_authenticity\": "@;
        if co_view is Some {
            assert(tail.subrange(0, p1 - start) =~= s@.subrange(start as int, p1));
            assert(spec_starts_with(tail, lc + spec_quoted(co_view.unwrap())));
            lemma_split_prefix(tail, lc, spec_quoted(co_view.unwrap()));
        }
        assert forall|co: Option<Seq<char>>, ch: Option<Seq<char>>| certs_prefix(tail, co, ch)
            implies co == co_view && p1 - start == certs_json(
            co,
            Option::<Seq<char>>::None,
        ).len() by {
            lemma_certs_shape(tail, co, ch);
            if co is Some && co_view is None {
                assert(labeled_string_prefix(tail, lc, co.unwrap()));
            }
            if co is None && co_view is Some {
                assert(tail[17] == lc[17]) by {
                    assert(tail.subrange(0, lc.len() as int)[17] == lc[17]);
                }
                assert(tail[5] == lc[5]) by {
                    assert(tail.subrange(0, lc.len() as int)[5] == lc[5]);
                }
                if ch is Some {
                    let lh = ",\n  \"certificate_hash\": "@;
                    assert(tail[17] == lh[17]) by {
                        assert(tail.subrange(0, lh.len() as int)[17] == lh[17]);
                    }
                } else {
                    let lf = ",\n  \"artwork_files\": "@;
                    assert(tail[5] == lf[5]) by {
                        assert(tail.subrange(0, lf.len() as int)[5] == lf[5]);
                    }
                }
            }
            if co is Some && co_view is Some {
                assert(labeled_string_prefix(tail, lc, co.unwrap()));
            }
        }
    }
    let certificate_hash: Option<String> = match parse_labeled_string(
        s,
        i,
        ",\n  \"certificate_hash\": ",
    ) {
        Some(v) => Some(v),
        None => None,
    };
    let ghost ch_view: Option<Seq<char>> = match certificate_hash {
        Some(ref h) => Some(h@),
        None => None,
    };
    proof {
        lemma_cert_labels_differ();
        let lh = ",\n  \"certificate_hash\": "@;
        let ghost after2 = suffix_from(s@, p1);
        if ch_view is Some {
            assert(after2.subrange(0, *i - p1) =~= s@.subrange(p1, *i as int));
            assert(spec_starts_with(after2, lh + spec_quoted(ch_view.unwrap())));
            lemma_split_prefix(after2, lh, spec_quoted(ch_view.unwrap()));
        }
        assert forall|co: Option<Seq<char>>, ch: Option<Seq<char>>| certs_prefix(tail, co, ch)
            implies ch == ch_view by {
            lemma_certs_shape(tail, co, ch);
            let after = suffix_from(tail, certs_json(co, Option::<Seq<char>>::None).len() as int);
            assert(after =~= after2);
            if ch is Some && ch_view is None {
                assert(labeled_string_prefix(after2, lh, ch.unwrap()));
            }
            if ch is None && ch_view is Some {
                assert(spec_starts_with(after, lh));
                let lf = ",\n  \"artwork_files\": "@;
                assert(after[5] == lh[5]) by {
                    assert(after.subrange(0, lh.len() as int)[5] == lh[5]);
                }
                assert(after[5] == lf[5]) by {
                    assert(after.subrange(0, lf.len() as int)[5] == lf[5]);
                }
            }
            if ch is Some && ch_view is Some {
                assert(labeled_string_prefix(after2, lh, ch.unwrap()));
            }
        }
        assert(s@.subrange(start as int, *i as int) =~= s@.subrange(start as int, p1)
            + s@.subrange(p1, *i as int));
    }
    Some((certificate_of_authenticity, certificate_hash))
}

/// The tail of a canonical manifest rendering stands at the front of
/// `tail`.
spec fn files_tail_prefix(tail: Seq<char>, fs: Seq<ArtworkFileAbs>) -> bool {
    spec_starts_with(tail, spec_files_tail_json(fs))
}

proof fn lemma_files_tail_pieces(tail: Seq<char>, fs: Seq<ArtworkFileAbs>)
    requires
        files_tail_prefix(tail, fs),
    ensures
        spec_starts_with(tail, ",\n  \"artwork_files\": "@),
        files_array_prefix(
            suffix_from(tail, ",\n  \"artwork_files\": "@.len() as int),
            fs,
        ),
        spec_starts_with(
            suffix_from(
                tail,
                (",\n  \"artwork_files\": "@.len() + spec_files_array(fs).len()) as int,
            ),
            "\n}"@,
        ),
{
    let l = ",\n  \"artwork_files\": "@;
    let a = spec_files_array(fs);
    assert(spec_files_tail_json(fs) =~= (l + a) + "\n}"@);
    lemma_split_prefix(tail, l + a, "\n}"@);
    lemma_split_prefix(tail, l, a);
}

/// Consumes the tail of a canonical manifest rendering at `*i` — the file
/// records and the closing brace — or consumes nothing; where such a tail
/// stands, exactly its records are read.
#[verifier::spinoff_prover]
#[verifier::rlimit(100)]
fn parse_files_tail(s: &Vec<char>, i: &mut usize) -> (r: Option<Vec<ArtworkFile>>)
    requires
        *old(i) <= s@.len(),
    ensures
        *old(i) <= *final(i) <= s@.len(),
        match r {
            Some(files) => s@.subrange(*old(i) as int, *final(i) as int) == spec_files_tail_json(
                artwork_views(files@),
            ) && (forall|fs: Seq<ArtworkFileAbs>|
                files_tail_prefix(suffix_from(s@, *old(i) as int), fs) ==> artwork_views(files@)
                    == fs),
            None => *final(i) == *old(i) && (forall|fs: Seq<ArtworkFileAbs>|
                !files_tail_prefix(suffix_from(s@, *old(i) as int), fs)),
        },
{
    let start = *i;
    let ghost tail = suffix_from(s@, start as int);
    if !eat_lit(s, i, ",\n  \"artwork_files\": ") {
        proof {
            assert forall|fs: Seq<ArtworkFileAbs>| !files_tail_prefix(tail, fs) by {
                if files_tail_prefix(tail, fs) {
                    lemma_files_tail_pieces(tail, fs);
                }
            }
        }
        return None;
    }
    let ghost p1: int = *i as int;
    proof {
        assert(suffix_from(s@, p1) =~= suffix_from(tail, p1 - start));
    }
    let files = match parse_files_array(s, i) {
        Some(v) => v,
        None => {
            proof {
                assert forall|fs: Seq<ArtworkFileAbs>| !files_tail_prefix(tail, fs) by {
                    if files_tail_prefix(tail, fs) {
                        lemma_files_tail_pieces(tail, fs);
                    }
                }
            }
            *i = start;
            return None;
        },
    };
    let ghost p2: int = *i as int;
    proof {
        assert(suffix_from(s@, p2) =~= suffix_from(tail, p2 - start));
        assert forall|fs: Seq<ArtworkFileAbs>| files_tail_prefix(tail, fs) implies artwork_views(
            files@,
        ) == fs && p2 - start == ",\n  \"artwork_files\": "@.len() + spec_files_array(fs).len() by {
            lemma_files_tail_pieces(tail, fs);
        }
    }
    if !eat_lit(s, i, "\n}") {
        proof {
            assert forall|fs: Seq<ArtworkFileAbs>| !files_tail_prefix(tail, fs) by {
                if files_tail_prefix(tail, fs) {
                    lemma_files_tail_pieces(tail, fs);
                }
            }
        }
        *i = start;
        return None;
    }
    proof {
        assert(s@.subrange(start as int, *i as int) =~= s@.subrange(start as int, p1)
            + s@.subrange(p1, p2) + s@.subrange(p2, *i as int));
    }
    Some(files)
}

/// Where a whole canonical rendering is the text, its three parts stand at
/// their offsets.
#[verifier::spinoff_prover]
#[verifier::rlimit(100)]
proof fn lemma_manifest_grouping(w: Seq<char>, m: crate::manifest::MetadataAbs)
    requires
        w == spec_manifest_json(m),
    ensures
        header_prefix(w, m),
        certs_prefix(
            suffix_from(w, spec_header_json(m).len() as int),
            m.certificate_of_authenticity,
            m.certificate_hash,
        ),
        files_tail_prefix(
            suffix_from(
                w,
                (spec_header_json(m).len() + certs_json(
                    m.certificate_of_authenticity,
                    m.certificate_hash,
                ).len()) as int,
            ),
            m.artwork_files,
        ),
        w.len() == spec_header_json(m).len() + certs_json(
            m.certificate_of_authenticity,
            m.certificate_hash,
        ).len() + spec_files_tail_json(m.artwork_files).len(),
{
    let h = spec_header_json(m);
    let c = certs_json(m.certificate_of_authenticity, m.certificate_hash);
    let f = ",\n  \"artwork_files\": "@;
    let rest2 = spec_files_array(m.artwork_files) + "\n}"@;
    assert(spec_certificate_json(m) == c);
    assert(spec_files_tail_json(m.artwork_files) =~= f + rest2);
    assert(w =~= h + ((c + f) + rest2));
    assert(spec_starts_with(w, h + ((c + f) + rest2))) by {
        assert(w.subrange(0, w.len() as int) =~= w);
    }
    lemma_split_prefix(w, h, (c + f) + rest2);
    lemma_split_prefix(suffix_from(w, h.len() as int), c + f, rest2);
    assert((c + f) + rest2 =~= c + (f + rest2));
    lemma_split_prefix(suffix_from(w, h.len() as int), c, f + rest2);
    lemma_suffix_compose(w, h.len() as int, c.len() as int);
}

/// Parses the canonical serialized form of a manifest, whole: the returned
/// manifest, if any, is exactly the one whose rendering the input is, so the
/// input is provably bit-identical to serializing the result again; and
/// every canonical rendering is accepted, so text yielding nothing is in no
/// manifest's canonical form.
#[verifier::spinoff_prover]
#[verifier::rlimit(100)]
pub fn parse_manifest(s: &str) -> (r: Option<Metadata>)
    ensures
        match r {
            Some(m) => s@ == spec_manifest_json(m@),
            None => forall|m: crate::manifest::MetadataAbs| s@ != spec_manifest_json(m),
        },
{
    let cs = str_chars(s);
    let mut idx: usize = 0;
    proof {
        assert(suffix_from(cs@, 0) =~= cs@);
    }
    let h = match parse_header(&cs, &mut idx) {
        Some(v) => v,
        None => {
            proof {
                assert forall|m: crate::manifest::MetadataAbs| s@ != spec_manifest_json(m) by {
                    if s@ == spec_manifest_json(m) {
                        lemma_manifest_grouping(cs@, m);
                        assert(header_prefix(suffix_from(cs@, 0), m));
                    }
                }
            }
            return None;
        },
    };
    let ghost habs = header_abs(h);
    let ghost q1: int = idx as int;
    proof {
        assert forall|m: crate::manifest::MetadataAbs| s@ == spec_manifest_json(m) implies q1
            == spec_header_json(m).len() && certs_prefix(
            suffix_from(cs@, q1),
            m.certificate_of_authenticity,
            m.certificate_hash,
        ) by {
            lemma_manifest_grouping(cs@, m);
            assert(header_prefix(suffix_from(cs@, 0), m));
            assert(spec_header_json(habs) == spec_header_json(m));
        }
    }
    let certs = match parse_certificate_fields(&cs, &mut idx) {
        Some(v) => v,
        None => {
            proof {
                assert forall|m: crate::manifest::MetadataAbs| s@ != spec_manifest_json(m) by {
                    if s@ == spec_manifest_json(m) {
                        assert(certs_prefix(
                            suffix_from(cs@, q1),
                            m.certificate_of_authenticity,
                            m.certificate_hash,
                        ));
                    }
                }
            }
            return None;
        },
    };
    let ghost q2: int = idx as int;
    let ghost co_view: Option<Seq<char>> = match certs.0 {
        Some(ref p) => Some(p@),
        None => None,
    };
    let ghost ch_view: Option<Seq<char>> = match certs.1 {
        Some(ref h2) => Some(h2@),
        None => None,
    };
    proof {
        assert forall|m: crate::manifest::MetadataAbs| s@ == spec_manifest_json(m) implies
            m.certificate_of_authenticity == co_view && m.certificate_hash == ch_view && q2 - q1
            == certs_json(m.certificate_of_authenticity, m.certificate_hash).len()
            && files_tail_prefix(suffix_from(cs@, q2), m.artwork_files) by {
            lemma_manifest_grouping(cs@, m);
            assert(certs_prefix(
                suffix_from(cs@, q1),
                m.certificate_of_authenticity,
                m.certificate_hash,
            ));
        }
    }
    let files = match parse_files_tail(&cs, &mut idx) {
        Some(v) => v,
        None => {
            proof {
                assert forall|m: crate::manifest::MetadataAbs| s@ != spec_manifest_json(m) by {
                    if s@ == spec_manifest_json(m) {
                        assert(files_tail_prefix(suffix_from(cs@, q2), m.artwork_files));
                    }
                }
            }
            return None;
        },
    };
    let ghost q3: int = idx as int;
    if idx != cs.len() {
        proof {
            assert forall|m: crate::manifest::MetadataAbs| s@ != spec_manifest_json(m) by {
                if s@ == spec_manifest_json(m) {
                    lemma_manifest_grouping(cs@, m);
                    assert(files_tail_prefix(suffix_from(cs@, q2), m.artwork_files));
                    assert(artwork_views(files@) == m.artwork_files);
                    assert(q3 == cs@.len());
                }
            }
        }
        return None;
    }
    let (certificate_of_authenticity, certificate_hash) = certs;
    let m = Metadata {
        artwork_id: h.artwork_id,
        artwork_title: h.artwork_title,
        artwork_short_title: h.artwork_short_title,
        artwork_creator: h.artwork_creator,
        year_of_creation: h.year_of_creation,
        short_description: h.short_description,
        long_description: h.long_description,
        edition_number: h.edition_number,
        total_editions: h.total_editions,
        issue_date: h.issue_date,
        gallery: h.gallery,
        keywords: h.keywords,
        medium: h.medium,
        certificate_of_authenticity,
        certificate_hash,
        artwork_files: files,
    };
    proof {
        let w = cs@;
        assert(w =~= w.subrange(0, q1) + w.subrange(q1, q2) + w.subrange(q2, idx as int));
        assert(spec_header_json(habs) == spec_header_json(m@));
        assert(w.subrange(q1, q2) == spec_certificate_json(m@));
        assert(s@ == spec_manifest_json(m@));
    }
    Some(m)
}


} // verus!

