use vstd::prelude::*;
use vstd::string::*;
use crate::text;
use crate::style;
use crate::references;
use crate::text::{chars_of, find_char, is_whitespace_char, push_char, push_range, string_from_range};

verus! {

broadcast use vstd::string::group_string_axioms;

/// `c` as ASCII upper case (other characters unchanged).
pub open spec fn ascii_upper(c: char) -> char {
    if 'a' <= c <= 'z' {
        ((c as u32) - 32) as char
    } else {
        c
    }
}

/// `c` matches the lower-case ASCII letter `lower` case-insensitively, with
/// the simple Unicode case folding that the patterns use: upper case, and
/// `ſ` (long s) for `s`.
pub open spec fn folds_to(c: char, lower: char) -> bool {
    ||| c == lower
    ||| c == ascii_upper(lower)
    ||| lower == 's' && c == '\u{17f}'
}

/// The word `w` (lower-case letters) stands at `i` in `s`, in any case.
#[verifier::opaque]
pub open spec fn word_at(s: Seq<char>, i: int, w: Seq<char>) -> bool {
    &&& 0 <= i
    &&& i + w.len() <= s.len()
    &&& forall|k: int| 0 <= k < w.len() ==> folds_to(#[trigger] s[i + k], w[k])
}

/// The first position at or after `i` that holds no white space.
pub open spec fn skip_ws(s: Seq<char>, i: int) -> int
    decreases s.len() - i,
{
    if 0 <= i < s.len() && text::is_white_space(s[i]) {
        skip_ws(s, i + 1)
    } else {
        i
    }
}

/// `c` is a quote mark, `"` or `'`.
pub open spec fn is_quote(c: char) -> bool {
    c == '"' || c == '\''
}

/// Where a match of `\s display \s* = \s* ["'] none ["']` (any case) that
/// starts at `i` ends.
#[verifier::opaque]
pub open spec fn display_none_end(s: Seq<char>, i: int) -> Option<int> {
    if 0 <= i < s.len() && text::is_white_space(s[i]) && word_at(s, i + 1, "display"@) {
        let j = skip_ws(s, i + 8);
        if 0 <= j < s.len() && s[j] == '=' {
            let k = skip_ws(s, j + 1);
            if 0 <= k && k + 5 < s.len() && is_quote(s[k]) && word_at(s, k + 1, "none"@) && is_quote(s[k + 5]) {
                Some(k + 6)
            } else {
                None
            }
        } else {
            None
        }
    } else {
        None
    }
}

/// `s[i..]` with every `display="none"` attribute (in the sense of
/// `display_none_end`) taken out, matches found from left to right.
pub open spec fn without_display_none(s: Seq<char>, i: int) -> Seq<char>
    decreases s.len() - i,
{
    if i < 0 || i >= s.len() {
        Seq::<char>::empty()
    } else if display_none_end(s, i) is Some && i < display_none_end(s, i)->0 <= s.len() {
        without_display_none(s, display_none_end(s, i)->0)
    } else {
        seq![s[i]] + without_display_none(s, i + 1)
    }
}

/// Where the prefix `\s style \s* = \s*` (any case) that starts at `i` ends.
#[verifier::opaque]
pub open spec fn style_prefix_end(s: Seq<char>, i: int) -> Option<int> {
    if 0 <= i < s.len() && text::is_white_space(s[i]) && word_at(s, i + 1, "style"@) {
        let j = skip_ws(s, i + 6);
        if 0 <= j < s.len() && s[j] == '=' {
            Some(skip_ws(s, j + 1))
        } else {
            None
        }
    } else {
        None
    }
}

/// A style attribute quoted with `q` starting at `i`: the positions of its
/// opening and closing quotes.
#[verifier::opaque]
pub open spec fn quoted_style_at(s: Seq<char>, i: int, q: char) -> Option<(int, int)> {
    match style_prefix_end(s, i) {
        None => None,
        Some(g) => if 0 <= g < s.len() && s[g] == q {
            match text::first_index_of(s.skip(g + 1), q) {
                Some(m) => Some((g, g + 1 + m)),
                None => None,
            }
        } else {
            None
        },
    }
}

/// The leftmost position where a style attribute quoted with `q` starts.
pub open spec fn first_quoted_style(s: Seq<char>, q: char) -> Option<int> {
    if exists|i: int| 0 <= i < s.len() && quoted_style_at(s, i, q) is Some {
        Some(choose|i: int| 0 <= i < s.len() && quoted_style_at(s, i, q) is Some && forall|j: int| 0 <= j < i ==> quoted_style_at(s, j, q) is None)
    } else {
        None
    }
}

/// The last position of `c` in `s`, if any.
pub open spec fn last_index_of(s: Seq<char>, c: char) -> Option<int> {
    if exists|k: int| 0 <= k < s.len() && s[k] == c {
        Some(choose|k: int| 0 <= k < s.len() && s[k] == c && forall|j: int| k < j < s.len() ==> s[j] != c)
    } else {
        None
    }
}

/// The style attribute put into a tag that has none.
pub open spec fn injected_style() -> Seq<char> {
    " style=\"display:inline; visibility:visible; opacity:1\""@
}

/// The opening tag of a layer's root group made visible: every
/// `display="none"` attribute removed; then the first double-quoted style
/// attribute gets the merged style of its value (its character references
/// decoded, the merged style escaped again), keeping its spelling up to the
/// quote; or else the first single-quoted one is rewritten in the same way
/// as a double-quoted `style` attribute; or else a visible style is put
/// before the last `>`.
pub open spec fn patched_open_tag(tag: Seq<char>, zero: spec_fn(Seq<char>) -> bool) -> Seq<char> {
    let s = without_display_none(tag, 0);
    match first_quoted_style(s, '"') {
        Some(i) => {
            let (g, c) = quoted_style_at(s, i, '"')->0;
            s.take(g) + seq!['"'] + style::xml_escaped(style::merged_style(references::decoded(s.subrange(g + 1, c)), zero))
                + seq!['"'] + s.skip(c + 1)
        },
        None => match first_quoted_style(s, '\'') {
            Some(i) => {
                let (g, c) = quoted_style_at(s, i, '\'')->0;
                s.take(i) + " style=\""@ + style::xml_escaped(style::merged_style(references::decoded(s.subrange(g + 1, c)), zero))
                    + "\""@ + s.skip(c + 1)
            },
            None => match last_index_of(s, '>') {
                Some(p) => s.take(p) + injected_style() + s.skip(p),
                None => s,
            },
        },
    }
}

proof fn lemma_skip_ws_bounds(s: Seq<char>, i: int)
    ensures
        skip_ws(s, i) >= i,
        i <= s.len() ==> skip_ws(s, i) <= s.len(),
    decreases s.len() - i,
{
    if 0 <= i < s.len() && text::is_white_space(s[i]) {
        lemma_skip_ws_bounds(s, i + 1);
    }
}

/// `display_none_end` always moves forward.
proof fn lemma_display_none_end_forward(s: Seq<char>, i: int)
    ensures
        display_none_end(s, i) matches Some(e) ==> i < e <= s.len(),
{
    reveal(display_none_end);
    reveal(word_at);
    reveal_strlit("display");
    if 0 <= i < s.len() && text::is_white_space(s[i]) && word_at(s, i + 1, "display"@) {
        lemma_skip_ws_bounds(s, i + 8);
        let j = skip_ws(s, i + 8);
        lemma_skip_ws_bounds(s, j + 1);
    }
}

fn skip_ws_from(v: &[char], i: usize) -> (r: usize)
    requires
        i <= v@.len(),
    ensures
        r as int == skip_ws(v@, i as int),
        i <= r <= v@.len(),
{
    let mut j = i;
    while j < v.len() && is_whitespace_char(v[j])
        invariant
            i <= j <= v@.len(),
            skip_ws(v@, i as int) == skip_ws(v@, j as int),
        decreases v@.len() - j,
    {
        j = j + 1;
    }
    j
}

fn ascii_upper_of(c: char) -> (r: char)
    ensures
        r == ascii_upper(c),
{
    if 'a' <= c && c <= 'z' {
        ((c as u32 - 32) as u8) as char
    } else {
        c
    }
}

fn word_at_exec(v: &[char], i: usize, w: &[char]) -> (r: bool)
    ensures
        r == word_at(v@, i as int, w@),
{
    reveal(word_at);
    if i > v.len() || w.len() > v.len() - i {
        return false;
    }
    let n = w.len();
    let vlen = v.len();
    let mut k: usize = 0;
    while k < n
        invariant
            n == w@.len(),
            vlen == v@.len(),
            i + n <= vlen,
            0 <= k <= n,
            forall|m: int| 0 <= m < k ==> folds_to(#[trigger] v@[i + m], w@[m]),
        decreases n - k,
    {
        let c = v[i + k];
        let l = w[k];
        if !(c == l || c == ascii_upper_of(l) || (l == 's' && c == '\u{17f}')) {
            assert(!folds_to(v@[i + k], w@[k as int]));
            proof {
                reveal(word_at);
            }
            return false;
        }
        k = k + 1;
    }
    true
}

/// The literal words of the patterns, as characters.
struct Words {
    display: Vec<char>,
    none: Vec<char>,
    style: Vec<char>,
}

impl Words {
    spec fn valid(&self) -> bool {
        &&& self.display@ == "display"@
        &&& self.none@ == "none"@
        &&& self.style@ == "style"@
    }

    fn new() -> (r: Words)
        ensures
            r.valid(),
    {
        Words { display: chars_of("display"), none: chars_of("none"), style: chars_of("style") }
    }
}

fn display_none_end_at(v: &[char], i: usize, words: &Words) -> (r: Option<usize>)
    requires
        words.valid(),
    ensures
        match r {
            Some(e) => display_none_end(v@, i as int) == Some(e as int),
            None => display_none_end(v@, i as int) is None,
        },
{
    reveal(display_none_end);
    reveal(word_at);
    proof {
        reveal_strlit("display");
        reveal_strlit("none");
    }
    let n = v.len();
    if i >= n || !is_whitespace_char(v[i]) || !word_at_exec(v, i + 1, words.display.as_slice()) {
        return None;
    }
    let j = skip_ws_from(v, i + 8);
    if j >= n || v[j] != '=' {
        return None;
    }
    let k = skip_ws_from(v, j + 1);
    if k >= n || n - k <= 5 {
        return None;
    }
    if (v[k] == '"' || v[k] == '\'') && word_at_exec(v, k + 1, words.none.as_slice()) && (v[k + 5] == '"' || v[k + 5] == '\'') {
        Some(k + 6)
    } else {
        None
    }
}

fn remove_display_none(v: &[char], words: &Words) -> (r: Vec<char>)
    requires
        words.valid(),
    ensures
        r@ == without_display_none(v@, 0),
{
    let n = v.len();
    let mut out: Vec<char> = Vec::new();
    let mut i: usize = 0;
    while i < n
        invariant
            n == v@.len(),
            words.valid(),
            0 <= i <= n,
            without_display_none(v@, 0) == out@ + without_display_none(v@, i as int),
        decreases n - i,
    {
        match display_none_end_at(v, i, words) {
            Some(e) => {
                if e > i && e <= n {
                    i = e;
                    continue;
                }
                assert(false) by {
                    lemma_display_none_end_forward(v@, i as int);
                }
            },
            None => {},
        }
        proof {
            assert(without_display_none(v@, i as int) == seq![v@[i as int]] + without_display_none(v@, i + 1));
            assert(out@.push(v@[i as int]) + without_display_none(v@, i + 1) =~= out@ + (seq![v@[i as int]] + without_display_none(v@, i + 1)));
        }
        out.push(v[i]);
        i = i + 1;
    }
    assert(out@ + Seq::<char>::empty() =~= out@);
    out
}


fn style_prefix_end_at(v: &[char], i: usize, words: &Words) -> (r: Option<usize>)
    requires
        words.valid(),
    ensures
        match r {
            Some(g) => style_prefix_end(v@, i as int) == Some(g as int) && g <= v@.len(),
            None => style_prefix_end(v@, i as int) is None,
        },
{
    reveal(style_prefix_end);
    reveal(word_at);
    proof {
        reveal_strlit("style");
    }
    let n = v.len();
    if i >= n || !is_whitespace_char(v[i]) || !word_at_exec(v, i + 1, words.style.as_slice()) {
        return None;
    }
    let j = skip_ws_from(v, i + 6);
    if j >= n || v[j] != '=' {
        return None;
    }
    Some(skip_ws_from(v, j + 1))
}

proof fn lemma_quoted_style_found(s: Seq<char>, i: int, q: char, g: int, m: int)
    requires
        style_prefix_end(s, i) == Some(g),
        0 <= g < s.len(),
        s[g] == q,
        text::first_index_of(s.skip(g + 1), q) == Some(m),
    ensures
        quoted_style_at(s, i, q) == Some((g, g + 1 + m)),
{
    reveal(quoted_style_at);
}

proof fn lemma_quoted_style_unclosed(s: Seq<char>, i: int, q: char, g: int)
    requires
        style_prefix_end(s, i) == Some(g),
        0 <= g < s.len(),
        s[g] == q,
        text::first_index_of(s.skip(g + 1), q) is None,
    ensures
        quoted_style_at(s, i, q) is None,
{
    reveal(quoted_style_at);
}

fn quoted_style_at_exec(v: &[char], i: usize, q: char, words: &Words) -> (r: Option<(usize, usize)>)
    requires
        words.valid(),
    ensures
        match r {
            Some((g, c)) => quoted_style_at(v@, i as int, q) == Some((g as int, c as int)) && g < c < v@.len(),
            None => quoted_style_at(v@, i as int, q) is None,
        },
{
    let n = v.len();
    match style_prefix_end_at(v, i, words) {
        None => {
            proof {
                reveal(quoted_style_at);
            }
            None
        },
        Some(g) => {
            if g >= n || v[g] != q {
                proof {
                    reveal(quoted_style_at);
                }
                return None;
            }
            let ghost rest = v@.skip(g + 1);
            assert(rest =~= v@.subrange(g + 1, n as int));
            match find_char(v, q, g + 1, n) {
                Some(c) => {
                    proof {
                        lemma_quoted_style_found(v@, i as int, q, g as int, c - (g + 1));
                    }
                    Some((g, c))
                },
                None => {
                    proof {
                        lemma_quoted_style_unclosed(v@, i as int, q, g as int);
                    }
                    None
                },
            }
        },
    }
}

fn first_quoted_style_exec(v: &[char], q: char, words: &Words) -> (r: Option<(usize, usize, usize)>)
    requires
        words.valid(),
    ensures
        match r {
            Some((i, g, c)) => {
                &&& first_quoted_style(v@, q) == Some(i as int)
                &&& i < v@.len()
                &&& quoted_style_at(v@, i as int, q) == Some((g as int, c as int))
                &&& g < c < v@.len()
            },
            None => first_quoted_style(v@, q) is None,
        },
{
    let n = v.len();
    let mut i: usize = 0;
    while i < n
        invariant
            n == v@.len(),
            words.valid(),
            0 <= i <= n,
            forall|j: int| 0 <= j < i ==> quoted_style_at(v@, j, q) is None,
        decreases n - i,
    {
        match quoted_style_at_exec(v, i, q, words) {
            Some((g, c)) => {
                proof {
                    let k = choose|k: int| 0 <= k < v@.len() && quoted_style_at(v@, k, q) is Some && forall|j: int| 0 <= j < k ==> quoted_style_at(v@, j, q) is None;
                    assert(0 <= k < v@.len() && quoted_style_at(v@, k, q) is Some && forall|j: int| 0 <= j < k ==> quoted_style_at(v@, j, q) is None);
                    if k < i {
                    } else if k > i {
                        assert(quoted_style_at(v@, i as int, q) is None);
                    }
                }
                return Some((i, g, c));
            },
            None => {},
        }
        i = i + 1;
    }
    None
}

fn last_index_of_exec(v: &[char], c: char) -> (r: Option<usize>)
    ensures
        match r {
            Some(p) => last_index_of(v@, c) == Some(p as int) && p < v@.len(),
            None => last_index_of(v@, c) is None,
        },
{
    let mut i = v.len();
    while i > 0
        invariant
            i <= v@.len(),
            forall|j: int| i <= j < v@.len() ==> v@[j] != c,
        decreases i,
    {
        if v[i - 1] == c {
            proof {
                let p = (i - 1) as int;
                let k = choose|k: int| 0 <= k < v@.len() && v@[k] == c && forall|j: int| k < j < v@.len() ==> v@[j] != c;
                assert(0 <= k < v@.len() && v@[k] == c && forall|j: int| k < j < v@.len() ==> v@[j] != c);
                if k < p {
                    assert(v@[p] != c);
                } else if k > p {
                }
            }
            return Some(i - 1);
        }
        i = i - 1;
    }
    None
}

/// Makes the opening tag of a layer's root group visible (see
/// `patched_open_tag`); the source document itself is not changed, only this
/// copy of the tag. `opacity_is_zero` decides whether an opacity value
/// parses as the number zero.
#[verifier::rlimit(40)]
pub fn patch_layer_root_g_open_tag_for_visibility<F: Fn(String) -> bool>(open_tag: &str, opacity_is_zero: &F) -> (r: String)
    requires
        style::is_value_test(opacity_is_zero),
    ensures
        r@ == patched_open_tag(open_tag@, style::zero_by(opacity_is_zero)),
{
    let words = Words::new();
    let v = chars_of(open_tag);
    let s = remove_display_none(v.as_slice(), &words);
    let n = s.len();
    match first_quoted_style_exec(s.as_slice(), '"', &words) {
        Some((_i, g, c)) => {
            let inner = string_from_range(s.as_slice(), g + 1, c);
            let value = references::decode_references(inner.as_str());
            let merged = style::merge_style_for_visible_layer(value.as_str(), opacity_is_zero);
            let escaped = style::xml_escape_double_quoted_attr_value(merged.as_str());
            let mut out = string_from_range(s.as_slice(), 0, g);
            push_char(&mut out, '"');
            out.append(escaped.as_str());
            push_char(&mut out, '"');
            push_range(&mut out, s.as_slice(), c + 1, n);
            proof {
                assert(s@.subrange(0, g as int) =~= s@.take(g as int));
                assert(s@.subrange(c + 1, n as int) =~= s@.skip(c + 1));
                assert(out@ =~= s@.take(g as int) + seq!['"'] + escaped@ + seq!['"'] + s@.skip(c + 1));
            }
            out
        },
        None => match first_quoted_style_exec(s.as_slice(), '\'', &words) {
            Some((i, g, c)) => {
                let inner = string_from_range(s.as_slice(), g + 1, c);
                let value = references::decode_references(inner.as_str());
            let merged = style::merge_style_for_visible_layer(value.as_str(), opacity_is_zero);
                let escaped = style::xml_escape_double_quoted_attr_value(merged.as_str());
                let mut out = string_from_range(s.as_slice(), 0, i);
                out.append(" style=\"");
                out.append(escaped.as_str());
                out.append("\"");
                push_range(&mut out, s.as_slice(), c + 1, n);
                proof {
                    assert(s@.subrange(0, i as int) =~= s@.take(i as int));
                    assert(s@.subrange(c + 1, n as int) =~= s@.skip(c + 1));
                }
                out
            },
            None => match last_index_of_exec(s.as_slice(), '>') {
                Some(p) => {
                    let mut out = string_from_range(s.as_slice(), 0, p);
                    out.append(" style=\"display:inline; visibility:visible; opacity:1\"");
                    push_range(&mut out, s.as_slice(), p, n);
                    proof {
                        assert(s@.subrange(0, p as int) =~= s@.take(p as int));
                        assert(s@.subrange(p as int, n as int) =~= s@.skip(p as int));
                    }
                    out
                },
                None => {
                    let out = string_from_range(s.as_slice(), 0, n);
                    assert(s@.subrange(0, n as int) =~= s@);
                    out
                },
            },
        },
    }
}

} // verus!
