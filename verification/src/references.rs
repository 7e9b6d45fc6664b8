use vstd::prelude::*;
use vstd::string::*;
use crate::text;
use crate::text::chars_of;

verus! {

broadcast use vstd::string::group_string_axioms;

/// A character that may stand between `&` and `;` in a character reference
/// such as `&quot;` or `&#x22;`: an ASCII letter or digit, `#`, `_`, `-` or `.`.
pub open spec fn is_reference_char(c: char) -> bool {
    ||| ('a' <= c && c <= 'z')
    ||| ('A' <= c && c <= 'Z')
    ||| ('0' <= c && c <= '9')
    ||| c == '#' || c == '_' || c == '-' || c == '.'
}

fn is_reference_char_exec(c: char) -> (r: bool)
    ensures
        r == is_reference_char(c),
{
    ('a' <= c && c <= 'z') || ('A' <= c && c <= 'Z') || ('0' <= c && c <= '9') || c == '#' || c == '_' || c
        == '-' || c == '.'
}

/// Where the run of reference characters (see `is_reference_char`) that
/// starts at position `p` of `s` ends.
pub open spec fn reference_end(s: Seq<char>, p: int) -> int
    decreases s.len() - p,
{
    if 0 <= p < s.len() && is_reference_char(s[p]) {
        reference_end(s, p + 1)
    } else {
        p
    }
}

/// `c` is a digit of a number written in hexadecimal (`hex`) or decimal.
pub open spec fn is_number_digit(c: char, hex: bool) -> bool {
    ||| ('0' <= c && c <= '9')
    ||| hex && (('a' <= c && c <= 'f') || ('A' <= c && c <= 'F'))
}

/// The value of the digit `c`.
pub open spec fn digit_value(c: char) -> nat {
    if '0' <= c && c <= '9' {
        (c as u32 - 48) as nat
    } else if 'a' <= c && c <= 'f' {
        (c as u32 - 87) as nat
    } else {
        (c as u32 - 55) as nat
    }
}

/// The number written by the digits `ds`, in hexadecimal (`hex`) or decimal.
pub open spec fn number_value(ds: Seq<char>, hex: bool) -> nat
    decreases ds.len(),
{
    if ds.len() == 0 {
        0
    } else if hex {
        number_value(ds.drop_last(), hex) * 16 + digit_value(ds.last())
    } else {
        number_value(ds.drop_last(), hex) * 10 + digit_value(ds.last())
    }
}

/// The character with the code point `n`, where there is one: not a
/// surrogate and at most `0x10FFFF`.
pub open spec fn code_point_char(n: nat) -> Option<char> {
    if n <= 0xD7FF || (0xE000 <= n && n <= 0x10FFFF) {
        Some(n as char)
    } else {
        None
    }
}

/// The character written by the digits `ds` of a numeric reference, where
/// they are one or more digits of a code point.
pub open spec fn number_char(ds: Seq<char>, hex: bool) -> Option<char> {
    if ds.len() > 0 && forall|k: int| 0 <= k < ds.len() ==> is_number_digit(#[trigger] ds[k], hex) {
        code_point_char(number_value(ds, hex))
    } else {
        None
    }
}

/// The character that a reference with the name `name` (what stands
/// between `&` and `;`) stands for: one of XML's five predefined entities,
/// or a decimal (`#65`) or hexadecimal (`#x41`) code point; `None` for any
/// other name.
pub open spec fn referenced_char(name: Seq<char>) -> Option<char> {
    if name == "lt"@ {
        Some('<')
    } else if name == "gt"@ {
        Some('>')
    } else if name == "amp"@ {
        Some('&')
    } else if name == "apos"@ {
        Some('\'')
    } else if name == "quot"@ {
        Some('"')
    } else if name.len() > 1 && name[0] == '#' && name[1] == 'x' {
        number_char(name.skip(2), true)
    } else if name.len() > 0 && name[0] == '#' {
        number_char(name.skip(1), false)
    } else {
        None
    }
}

/// The character that the reference starting at position `i` of `s` stands
/// for, where a known reference (`&`, its name, `;`) starts there.
pub open spec fn reference_at(s: Seq<char>, i: int) -> Option<char> {
    let j = reference_end(s, i + 1);
    if 0 <= i < s.len() && s[i] == '&' && i + 1 < j < s.len() && s[j] == ';' {
        referenced_char(s.subrange(i + 1, j))
    } else {
        None
    }
}

/// `s` from position `i` on, with each known reference replaced by the
/// character it stands for.
pub open spec fn decoded_from(s: Seq<char>, i: int) -> Seq<char>
    decreases s.len() - i,
{
    if i < 0 || i >= s.len() {
        Seq::<char>::empty()
    } else if reference_at(s, i) is Some {
        seq![reference_at(s, i)->0] + decoded_from(s, reference_end(s, i + 1) + 1)
    } else {
        seq![s[i]] + decoded_from(s, i + 1)
    }
}

/// The value of the attribute text `s`: each character reference that XML
/// defines without a DTD (`&lt;`, `&gt;`, `&amp;`, `&apos;`, `&quot;`,
/// `&#N;`, `&#xN;`) replaced by its character; any other text as it is.
pub open spec fn decoded(s: Seq<char>) -> Seq<char> {
    decoded_from(s, 0)
}

/// `char::from_u32`: the character with the code point `n`, or `None` where
/// `n` is a surrogate or above `0x10FFFF`, as its documentation says.
#[verifier::external_body]
fn char_from_code(n: u32) -> (r: Option<char>)
    ensures
        r == code_point_char(n as nat),
{
    char::from_u32(n)
}

proof fn lemma_value_prefix(ds: Seq<char>, m: int, hex: bool)
    requires
        0 <= m <= ds.len(),
    ensures
        number_value(ds.take(m), hex) <= number_value(ds, hex),
    decreases ds.len(),
{
    if m < ds.len() {
        lemma_value_prefix(ds.drop_last(), m, hex);
        assert(ds.drop_last().take(m) =~= ds.take(m));
    } else {
        assert(ds.take(m) =~= ds);
    }
}

fn number_char_exec(v: &[char], a: usize, b: usize, hex: bool) -> (r: Option<char>)
    requires
        a <= b <= v@.len(),
    ensures
        r == number_char(v@.subrange(a as int, b as int), hex),
{
    let ghost ds = v@.subrange(a as int, b as int);
    if a == b {
        return None;
    }
    let mut acc: u32 = 0;
    let mut k = a;
    assert(ds.take(0) =~= Seq::<char>::empty());
    while k < b
        invariant
            a <= k <= b <= v@.len(),
            ds == v@.subrange(a as int, b as int),
            acc as nat == number_value(ds.take(k - a), hex),
            acc <= 0x10FFFF,
            forall|m: int| 0 <= m < k - a ==> is_number_digit(#[trigger] ds[m], hex),
        decreases b - k,
    {
        let c = v[k];
        assert(ds[k - a] == c);
        let is_digit = ('0' <= c && c <= '9') || (hex && (('a' <= c && c <= 'f') || ('A' <= c && c <= 'F')));
        if !is_digit {
            return None;
        }
        let d: u32 = if '0' <= c && c <= '9' {
            (c as u32) - 48
        } else if 'a' <= c && c <= 'f' {
            (c as u32) - 87
        } else {
            (c as u32) - 55
        };
        proof {
            assert(ds.take(k - a + 1).drop_last() =~= ds.take(k - a));
            assert(ds.take(k - a + 1).last() == c);
        }
        let next: u64 = if hex { acc as u64 * 16 + d as u64 } else { acc as u64 * 10 + d as u64 };
        assert(next == number_value(ds.take(k - a + 1), hex));
        if next > 0x10FFFF {
            proof {
                lemma_value_prefix(ds, k - a + 1, hex);
            }
            return None;
        }
        acc = next as u32;
        k = k + 1;
    }
    assert(ds.take(b - a) =~= ds);
    char_from_code(acc)
}

/// `v[a..b]` is the text `w`.
fn range_is(v: &[char], a: usize, b: usize, w: &str) -> (r: bool)
    requires
        a <= b <= v@.len(),
    ensures
        r == (v@.subrange(a as int, b as int) == w@),
{
    let wv = chars_of(w);
    if b - a != wv.len() {
        assert(v@.subrange(a as int, b as int).len() != w@.len());
        return false;
    }
    let mut k: usize = 0;
    while k < wv.len()
        invariant
            a <= b <= v@.len(),
            b - a == wv@.len(),
            wv@ == w@,
            0 <= k <= wv@.len(),
            forall|m: int| 0 <= m < k ==> v@[a + m] == wv@[m],
        decreases wv@.len() - k,
    {
        if v[a + k] != wv[k] {
            assert(v@.subrange(a as int, b as int)[k as int] != wv@[k as int]);
            return false;
        }
        k = k + 1;
    }
    assert(v@.subrange(a as int, b as int) =~= wv@);
    true
}

/// The character that the reference starting at `i` stands for, and where
/// its `;` is.
fn reference_at_exec(v: &[char], i: usize) -> (r: Option<(char, usize)>)
    requires
        i < v@.len(),
    ensures
        match r {
            Some((c, j)) => reference_at(v@, i as int) == Some(c) && j == reference_end(v@, i + 1) && i + 1 < j < v@.len(),
            None => reference_at(v@, i as int) is None,
        },
{
    if v[i] != '&' {
        return None;
    }
    let n = v.len();
    let mut j = i + 1;
    while j < n && is_reference_char_exec(v[j])
        invariant
            n == v@.len(),
            i + 1 <= j <= n,
            reference_end(v@, i + 1) == reference_end(v@, j as int),
        decreases n - j,
    {
        j = j + 1;
    }
    if !(j > i + 1 && j < n && v[j] == ';') {
        return None;
    }
    let a = i + 1;
    let ghost name = v@.subrange(a as int, j as int);
    proof {
        reveal_strlit("lt");
        reveal_strlit("gt");
        reveal_strlit("amp");
        reveal_strlit("apos");
        reveal_strlit("quot");
    }
    let c = if range_is(v, a, j, "lt") {
        Some('<')
    } else if range_is(v, a, j, "gt") {
        Some('>')
    } else if range_is(v, a, j, "amp") {
        Some('&')
    } else if range_is(v, a, j, "apos") {
        Some('\'')
    } else if range_is(v, a, j, "quot") {
        Some('"')
    } else if j - a > 1 && v[a] == '#' && v[a + 1] == 'x' {
        assert(name.skip(2) =~= v@.subrange(a + 2, j as int));
        number_char_exec(v, a + 2, j, true)
    } else if v[a] == '#' {
        assert(name.skip(1) =~= v@.subrange(a + 1, j as int));
        number_char_exec(v, a + 1, j, false)
    } else {
        None
    };
    match c {
        Some(c) => Some((c, j)),
        None => None,
    }
}

/// The value of the attribute text `s` (see `decoded`): its character
/// references replaced by the characters they stand for.
pub fn decode_references(s: &str) -> (r: String)
    ensures
        r@ == decoded(s@),
{
    let v = chars_of(s);
    let n = v.len();
    let mut out = String::new();
    let mut i: usize = 0;
    while i < n
        invariant
            n == v@.len(),
            0 <= i <= n,
            v@ == s@,
            out@ + decoded_from(v@, i as int) == decoded(v@),
        decreases n - i,
    {
        let ghost before = out@;
        match reference_at_exec(v.as_slice(), i) {
            Some((c, j)) => {
                text::push_char(&mut out, c);
                proof {
                    assert(decoded_from(v@, i as int) == seq![c] + decoded_from(v@, j + 1));
                    assert(out@ + decoded_from(v@, j + 1) =~= before + decoded_from(v@, i as int));
                }
                i = j + 1;
            },
            None => {
                let c = v[i];
                text::push_char(&mut out, c);
                proof {
                    assert(decoded_from(v@, i as int) == seq![c] + decoded_from(v@, i + 1));
                    assert(out@ + decoded_from(v@, i + 1) =~= before + decoded_from(v@, i as int));
                }
                i = i + 1;
            },
        }
    }
    assert(out@ + Seq::<char>::empty() =~= out@);
    out
}

} // verus!
