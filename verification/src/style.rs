use vstd::prelude::*;
use vstd::string::*;
use crate::text;
use crate::text::{chars_of, find_char, trim_range, range_eq_ignore_ascii_case};

verus! {

broadcast use vstd::string::group_string_axioms;

/// `test` decides of an opacity value whether it is zero, may be asked of any
/// value, and gives the same answer for any two values with the same characters.
pub open spec fn is_value_test<F: Fn(String) -> bool>(test: &F) -> bool {
    &&& forall|v: String| test.requires((v,))
    &&& forall|v1: String, v2: String, b1: bool, b2: bool|
        v1@ == v2@ && #[trigger] test.ensures((v1,), b1) && #[trigger] test.ensures((v2,), b2)
            ==> b1 == b2
}

/// `test` answers "zero" for the value `v`.
pub open spec fn says_zero<F: Fn(String) -> bool>(test: &F, v: Seq<char>) -> bool {
    exists|s: String| s@ == v && #[trigger] test.ensures((s,), true)
}

/// The judgement of `test` as a predicate on values.
pub open spec fn zero_by<F: Fn(String) -> bool>(test: &F) -> spec_fn(Seq<char>) -> bool {
    |s: Seq<char>| says_zero(test, s)
}

/// `name` is the property name `word` in any ASCII case.
pub open spec fn is_property(name: Seq<char>, word: Seq<char>) -> bool {
    text::eq_ignore_ascii_case(name, word)
}

/// A style declaration `name: value` that a visible layer group must not
/// keep: one that sets `display` or `visibility`, or sets `opacity` to a
/// value that `zero` holds to be zero. A fragment without `:` is kept.
#[verifier::opaque]
pub open spec fn fragment_dropped(frag: Seq<char>, zero: spec_fn(Seq<char>) -> bool) -> bool {
    let t = text::trimmed(frag);
    match text::first_index_of(t, ':') {
        None => false,
        Some(k) => {
            let name = text::trimmed(t.take(k));
            let value = text::trimmed(t.skip(k + 1));
            ||| is_property(name, "display"@)
            ||| is_property(name, "visibility"@)
            ||| is_property(name, "opacity"@) && zero(value)
        },
    }
}

proof fn lemma_test_callable<F: Fn(String) -> bool>(test: &F, v: String)
    requires
        is_value_test(test),
    ensures
        test.requires((v,)),
{
    reveal(is_value_test);
}

proof fn lemma_test_answer<F: Fn(String) -> bool>(test: &F, v: String, b: bool)
    requires
        is_value_test(test),
        test.ensures((v,), b),
    ensures
        b == says_zero(test, v@),
{
    reveal(is_value_test);
    if !b && says_zero(test, v@) {
        let s = choose|s: String| s@ == v@ && #[trigger] test.ensures((s,), true);
        assert(test.ensures((s,), true));
    }
}

proof fn lemma_fragment_parts(frag: Seq<char>, kk: int, zero: spec_fn(Seq<char>) -> bool)
    requires
        text::first_index_of(text::trimmed(frag), ':') == Some(kk),
    ensures
        fragment_dropped(frag, zero) == ({
            let t = text::trimmed(frag);
            let name = text::trimmed(t.take(kk));
            let value = text::trimmed(t.skip(kk + 1));
            ||| is_property(name, "display"@)
            ||| is_property(name, "visibility"@)
            ||| is_property(name, "opacity"@) && zero(value)
        }),
{
    reveal(fragment_dropped);
}

proof fn lemma_fragment_without_colon(frag: Seq<char>, zero: spec_fn(Seq<char>) -> bool)
    requires
        text::first_index_of(text::trimmed(frag), ':') is None,
    ensures
        !fragment_dropped(frag, zero),
{
    reveal(fragment_dropped);
}

/// `fragment_dropped` on the characters `v[from..to]`.
fn fragment_dropped_chars<F: Fn(String) -> bool>(v: &[char], from: usize, to: usize, opacity_is_zero: &F) -> (r: bool)
    requires
        from <= to <= v@.len(),
        is_value_test(opacity_is_zero),
    ensures
        r == fragment_dropped(v@.subrange(from as int, to as int), zero_by(opacity_is_zero)),
{
    let ghost frag = v@.subrange(from as int, to as int);
    let ghost zero = zero_by(opacity_is_zero);
    let (i, j) = trim_range(v, from, to);
    let ghost t = text::trimmed(frag);
    match find_char(v, ':', i, j) {
        None => {
            proof {
                lemma_fragment_without_colon(frag, zero);
            }
            false
        },
        Some(k) => {
            let ghost kk = k - i;
            proof {
                lemma_fragment_parts(frag, kk, zero);
                assert(t.take(kk) =~= v@.subrange(i as int, k as int));
                assert(t.skip(kk + 1) =~= v@.subrange(k + 1, j as int));
            }
            let (a, b) = trim_range(v, i, k);
            let display = chars_of("display");
            let visibility = chars_of("visibility");
            let opacity = chars_of("opacity");
            if range_eq_ignore_ascii_case(v, a, b, display.as_slice())
                || range_eq_ignore_ascii_case(v, a, b, visibility.as_slice()) {
                return true;
            }
            if !range_eq_ignore_ascii_case(v, a, b, opacity.as_slice()) {
                return false;
            }
            let (c, d) = trim_range(v, k + 1, j);
            let value = text::string_from_range(v, c, d);
            proof {
                lemma_test_callable(opacity_is_zero, value);
            }
            let zero_value = opacity_is_zero(value);
            proof {
                lemma_test_answer(opacity_is_zero, value, zero_value);
                assert(zero(value@) == zero_value);
            }
            zero_value
        },
    }
}

/// Whether the style declaration `frag` is dropped from the root group of a
/// layer that is made visible (see `fragment_dropped`). `opacity_is_zero`
/// decides whether an opacity value parses as the number zero.
pub fn style_fragment_drop_for_layer_visibility<F: Fn(String) -> bool>(frag: &str, opacity_is_zero: &F) -> (r: bool)
    requires
        is_value_test(opacity_is_zero),
    ensures
        r == fragment_dropped(frag@, zero_by(opacity_is_zero)),
{
    let v = chars_of(frag);
    assert(v@.subrange(0, v@.len() as int) =~= v@);
    fragment_dropped_chars(v.as_slice(), 0, v.len(), opacity_is_zero)
}


/// `s` cut at every `sep`, as `str::split` gives it: the pieces between
/// separators, empty ones included, and always at least one piece.
pub open spec fn split_on(s: Seq<char>, sep: char) -> Seq<Seq<char>>
    decreases s.len(),
{
    if s.len() == 0 {
        seq![Seq::<char>::empty()]
    } else {
        let init = split_on(s.drop_last(), sep);
        if s.last() == sep {
            init.push(Seq::<char>::empty())
        } else {
            init.update(init.len() - 1, init.last().push(s.last()))
        }
    }
}

proof fn lemma_split_nonempty(s: Seq<char>, sep: char)
    ensures
        split_on(s, sep).len() >= 1,
    decreases s.len(),
{
    if s.len() > 0 {
        lemma_split_nonempty(s.drop_last(), sep);
    }
}

/// The declarations that survive, trimmed: the pieces that are neither blank
/// nor dropped by `fragment_dropped`.
pub open spec fn kept_declarations(pieces: Seq<Seq<char>>, zero: spec_fn(Seq<char>) -> bool) -> Seq<Seq<char>>
    decreases pieces.len(),
{
    if pieces.len() == 0 {
        Seq::<Seq<char>>::empty()
    } else {
        let init = kept_declarations(pieces.drop_last(), zero);
        let p = pieces.last();
        if text::trimmed(p).len() == 0 || fragment_dropped(p, zero) {
            init
        } else {
            init.push(text::trimmed(p))
        }
    }
}

/// The items of `list` joined with `sep` between them (`[T]::join`).
pub open spec fn joined(list: Seq<Seq<char>>, sep: Seq<char>) -> Seq<char>
    decreases list.len(),
{
    if list.len() == 0 {
        Seq::<char>::empty()
    } else if list.len() == 1 {
        list[0]
    } else {
        joined(list.drop_last(), sep) + sep + list.last()
    }
}

/// The declarations that make a layer's root group visible.
pub open spec fn visible_declarations() -> Seq<char> {
    "display:inline; visibility:visible; opacity:1"@
}

/// The style of a layer's root group made visible: the kept declarations of
/// `style` joined by `; `, then `; ` if any were kept, then the declarations
/// that make the group visible.
pub open spec fn merged_style(style: Seq<char>, zero: spec_fn(Seq<char>) -> bool) -> Seq<char> {
    let kept = joined(kept_declarations(split_on(style, ';'), zero), "; "@);
    if kept.len() > 0 {
        kept + "; "@ + visible_declarations()
    } else {
        visible_declarations()
    }
}

/// `b` holds no `;`.
pub open spec fn has_no_semicolon(b: Seq<char>) -> bool {
    forall|k: int| 0 <= k < b.len() ==> b[k] != ';'
}

proof fn lemma_split_plain(b: Seq<char>)
    requires
        has_no_semicolon(b),
    ensures
        split_on(b, ';') == seq![b],
    decreases b.len(),
{
    if b.len() > 0 {
        lemma_split_plain(b.drop_last());
        assert(b[b.len() - 1] != ';');
        assert(b.drop_last().push(b.last()) =~= b);
        assert(seq![b.drop_last()].update(0, b.drop_last().push(b.last())) =~= seq![b]);
    } else {
        assert(b =~= Seq::<char>::empty());
    }
}

proof fn lemma_split_after_semicolon(a: Seq<char>, b: Seq<char>)
    requires
        has_no_semicolon(b),
    ensures
        split_on(a + seq![';'] + b, ';') == split_on(a, ';').push(b),
    decreases b.len(),
{
    let x = a + seq![';'] + b;
    if b.len() == 0 {
        assert(x.drop_last() =~= a);
        assert(x =~= a + seq![';']);
        assert(b =~= Seq::<char>::empty());
    } else {
        lemma_split_after_semicolon(a, b.drop_last());
        assert(x.drop_last() =~= a + seq![';'] + b.drop_last());
        assert(b[b.len() - 1] != ';');
        assert(x.last() == b.last());
        assert(b.drop_last().push(b.last()) =~= b);
        let init = split_on(a, ';').push(b.drop_last());
        assert(init.update(init.len() - 1, init.last().push(b.last())) =~= split_on(a, ';').push(b));
    }
}

proof fn lemma_split_joined(ds: Seq<Seq<char>>)
    requires
        ds.len() > 0,
        forall|i: int| 0 <= i < ds.len() ==> has_no_semicolon(#[trigger] ds[i]),
    ensures
        split_on(joined(ds, ";"@), ';') == ds,
    decreases ds.len(),
{
    reveal_strlit(";");
    if ds.len() == 1 {
        lemma_split_plain(ds[0]);
        assert(seq![ds[0]] =~= ds);
    } else {
        let init = ds.drop_last();
        assert(forall|i: int| 0 <= i < init.len() ==> init[i] == ds[i]);
        lemma_split_joined(init);
        assert(has_no_semicolon(ds[ds.len() - 1]));
        lemma_split_after_semicolon(joined(init, ";"@), ds.last());
        assert(";"@ =~= seq![';']);
        assert(init.push(ds.last()) =~= ds);
    }
}

proof fn lemma_kept_is_filter(ds: Seq<Seq<char>>, zero: spec_fn(Seq<char>) -> bool)
    requires
        forall|i: int| 0 <= i < ds.len() ==> (#[trigger] ds[i]).len() > 0 && text::trimmed(ds[i]) == ds[i],
    ensures
        kept_declarations(ds, zero) == ds.filter(|d: Seq<char>| !fragment_dropped(d, zero)),
    decreases ds.len(),
{
    reveal(Seq::filter);
    if ds.len() > 0 {
        let init = ds.drop_last();
        assert(forall|i: int| 0 <= i < init.len() ==> init[i] == ds[i]);
        lemma_kept_is_filter(init, zero);
        assert(ds[ds.len() - 1].len() > 0);
    }
}

proof fn lemma_kept_items_nonempty(pieces: Seq<Seq<char>>, zero: spec_fn(Seq<char>) -> bool)
    ensures
        forall|i: int| 0 <= i < kept_declarations(pieces, zero).len() ==> (#[trigger] kept_declarations(pieces, zero)[i]).len() > 0,
    decreases pieces.len(),
{
    if pieces.len() > 0 {
        lemma_kept_items_nonempty(pieces.drop_last(), zero);
        let init = kept_declarations(pieces.drop_last(), zero);
        let k = kept_declarations(pieces, zero);
        assert forall|i: int| 0 <= i < k.len() implies (#[trigger] k[i]).len() > 0 by {
            if i < init.len() {
                assert(k[i] == init[i]);
            }
        }
    }
}

proof fn lemma_joined_nonempty(list: Seq<Seq<char>>, sep: Seq<char>)
    requires
        list.len() > 0,
        forall|i: int| 0 <= i < list.len() ==> (#[trigger] list[i]).len() > 0,
    ensures
        joined(list, sep).len() > 0,
    decreases list.len(),
{
    if list.len() > 1 {
        assert(list[list.len() - 1].len() > 0);
    } else {
        assert(list[0].len() > 0);
    }
}

/// Merging keeps every other declaration, trimmed and in order, and adds
/// the visible declarations at the end: for a style written as the
/// declarations `ds` separated by `;` (each non-empty, without white space
/// at its ends and without `;`), the merged style is exactly the
/// declarations that are not dropped (`display`, `visibility`, an opacity
/// that is zero), however many, joined by `; `, followed by `; ` and the
/// visible declarations; only the visible declarations where all are dropped.
pub proof fn merging_keeps_the_other_declarations(ds: Seq<Seq<char>>, zero: spec_fn(Seq<char>) -> bool)
    requires
        ds.len() > 0,
        forall|i: int| 0 <= i < ds.len() ==> (#[trigger] ds[i]).len() > 0 && text::trimmed(ds[i]) == ds[i] && has_no_semicolon(ds[i]),
    ensures
        ({
            let kept = ds.filter(|d: Seq<char>| !fragment_dropped(d, zero));
            merged_style(joined(ds, ";"@), zero) == if kept.len() > 0 {
                joined(kept, "; "@) + "; "@ + visible_declarations()
            } else {
                visible_declarations()
            }
        }),
{
    assert forall|i: int| 0 <= i < ds.len() implies has_no_semicolon(#[trigger] ds[i]) by {}
    lemma_split_joined(ds);
    lemma_kept_is_filter(ds, zero);
    let kept = kept_declarations(ds, zero);
    lemma_kept_items_nonempty(ds, zero);
    if kept.len() > 0 {
        lemma_joined_nonempty(kept, "; "@);
    }
}

/// The pieces `v[r.0..r.1]` named by `ranges`.
pub open spec fn range_views(v: Seq<char>, ranges: Seq<(usize, usize)>) -> Seq<Seq<char>> {
    ranges.map_values(|r: (usize, usize)| v.subrange(r.0 as int, r.1 as int))
}

/// The bounds of the pieces of `v` cut at `;`.
fn split_ranges(v: &[char]) -> (r: Vec<(usize, usize)>)
    ensures
        range_views(v@, r@) == split_on(v@, ';'),
        forall|k: int| 0 <= k < r@.len() ==> #[trigger] r@[k].0 <= r@[k].1 <= v@.len(),
{
    let n = v.len();
    let mut done: Vec<(usize, usize)> = Vec::new();
    let mut start: usize = 0;
    let mut i: usize = 0;
    assert(v@.take(0) =~= Seq::<char>::empty());
    assert(range_views(v@, done@) =~= Seq::<Seq<char>>::empty());
    while i < n
        invariant
            n == v@.len(),
            0 <= start <= i <= n,
            forall|k: int| 0 <= k < done@.len() ==> #[trigger] done@[k].0 <= done@[k].1 <= i,
            split_on(v@.take(i as int), ';') == range_views(v@, done@).push(v@.subrange(start as int, i as int)),
        decreases n - i,
    {
        let ghost before = range_views(v@, done@);
        proof {
            assert(v@.take(i + 1).drop_last() =~= v@.take(i as int));
            assert(v@.take(i + 1).last() == v@[i as int]);
        }
        if v[i] == ';' {
            done.push((start, i));
            proof {
                assert forall|k: int| 0 <= k < done@.len() implies #[trigger] done@[k].0 <= done@[k].1 <= i + 1 by {
                }
                assert(range_views(v@, done@) =~= before.push(v@.subrange(start as int, i as int)));
                assert(v@.subrange(i + 1, i + 1) =~= Seq::<char>::empty());
            }
            start = i + 1;
        } else {
            proof {
                assert(v@.subrange(start as int, i + 1) =~= v@.subrange(start as int, i as int).push(v@[i as int]));
                let sp = split_on(v@.take(i as int), ';');
                assert(sp.update(sp.len() - 1, sp.last().push(v@[i as int])) =~= before.push(v@.subrange(start as int, i + 1)));
            }
        }
        i = i + 1;
    }
    done.push((start, n));
    proof {
        assert forall|k: int| 0 <= k < done@.len() implies #[trigger] done@[k].0 <= done@[k].1 <= v@.len() by {
        }
        assert(v@.take(n as int) =~= v@);
        assert(range_views(v@, done@) =~= split_on(v@, ';'));
    }
    done
}

/// The style of a layer's root group made visible (see `merged_style`):
/// declarations of `display` and `visibility`, and of an `opacity` that
/// `opacity_is_zero` holds to be zero, are dropped, the others kept in order,
/// and the declarations that make the group visible close the style.
pub fn merge_style_for_visible_layer<F: Fn(String) -> bool>(style: &str, opacity_is_zero: &F) -> (r: String)
    requires
        is_value_test(opacity_is_zero),
    ensures
        r@ == merged_style(style@, zero_by(opacity_is_zero)),
        r@.len() >= visible_declarations().len(),
        r@.subrange(r@.len() - visible_declarations().len(), r@.len() as int) == visible_declarations(),
{
    let ghost zero = zero_by(opacity_is_zero);
    let v = chars_of(style);
    let vs = v.as_slice();
    let pieces = split_ranges(vs);
    assert(vs@ == v@);
    assert forall|k: int| 0 <= k < pieces@.len() implies #[trigger] pieces@[k].0 <= pieces@[k].1 <= v@.len() by {
        assert(pieces@[k].0 <= pieces@[k].1 <= vs@.len());
    }
    let ghost sp = split_on(v@, ';');
    let mut kept: Vec<(usize, usize)> = Vec::new();
    let np = pieces.len();
    let mut idx: usize = 0;
    assert(sp.take(0) =~= Seq::<Seq<char>>::empty());
    assert(range_views(v@, kept@) =~= Seq::<Seq<char>>::empty());
    while idx < np
        invariant
            np == pieces@.len(),
            0 <= idx <= np,
            sp == split_on(v@, ';'),
            sp == range_views(v@, pieces@),
            forall|k: int| 0 <= k < pieces@.len() ==> #[trigger] pieces@[k].0 <= pieces@[k].1 <= v@.len(),
            forall|k: int| 0 <= k < kept@.len() ==> #[trigger] kept@[k].0 <= kept@[k].1 <= v@.len(),
            forall|k: int| 0 <= k < kept@.len() ==> #[trigger] kept@[k].0 < kept@[k].1,
            is_value_test(opacity_is_zero),
            zero == zero_by(opacity_is_zero),
            range_views(v@, kept@) == kept_declarations(sp.take(idx as int), zero),
        decreases np - idx,
    {
        let (p0, p1) = pieces[idx];
        assert(pieces@[idx as int].0 <= pieces@[idx as int].1 <= v@.len());
        let ghost before = range_views(v@, kept@);
        proof {
            assert(sp.take(idx + 1).drop_last() =~= sp.take(idx as int));
            assert(sp.take(idx + 1).last() == v@.subrange(p0 as int, p1 as int));
        }
        let (a, b) = trim_range(v.as_slice(), p0, p1);
        if a < b {
            if !fragment_dropped_chars(v.as_slice(), p0, p1, opacity_is_zero) {
                let ghost old_kept = kept@;
                kept.push((a, b));
                proof {
                    assert forall|k: int| 0 <= k < kept@.len() implies #[trigger] kept@[k].0 <= kept@[k].1 <= v@.len() && kept@[k].0 < kept@[k].1 by {
                        if k < old_kept.len() {
                            assert(kept@[k] == old_kept[k]);
                            assert(old_kept[k].0 <= old_kept[k].1 <= v@.len() && old_kept[k].0 < old_kept[k].1);
                        } else {
                            assert(kept@[k] == (a, b));
                        }
                    }
                    assert(range_views(v@, kept@) =~= before.push(v@.subrange(a as int, b as int)));
                }
            }
        }
        idx = idx + 1;
        assert(forall|k: int| 0 <= k < pieces@.len() ==> #[trigger] pieces@[k].0 <= pieces@[k].1 <= v@.len());
    }
    assert(sp.take(np as int) =~= sp);
    let ghost kv = range_views(v@, kept@);
    let mut out = String::new();
    let nk = kept.len();
    let mut m: usize = 0;
    while m < nk
        invariant
            nk == kept@.len(),
            0 <= m <= nk,
            kv == range_views(v@, kept@),
            forall|k: int| 0 <= k < kept@.len() ==> #[trigger] kept@[k].0 <= kept@[k].1 <= v@.len(),
            out@ == joined(kv.take(m as int), "; "@),
        decreases nk - m,
    {
        let (a, b) = kept[m];
        proof {
            assert(kv.take(m + 1).drop_last() =~= kv.take(m as int));
        }
        if m > 0 {
            out.append("; ");
        }
        let piece = text::string_from_range(v.as_slice(), a, b);
        out.append(piece.as_str());
        proof {
            if m == 0 {
                assert(out@ =~= kv.take(1)[0]);
            }
        }
        m = m + 1;
    }
    assert(kv.take(nk as int) =~= kv);
    let nonempty = !out.as_str().is_empty();
    if nonempty {
        out.append("; ");
    }
    out.append("display:inline; visibility:visible; opacity:1");
    proof {
        let vis = visible_declarations();
        assert(out@.subrange(out@.len() - vis.len(), out@.len() as int) =~= vis);
    }
    out
}


/// What `c` becomes inside a double-quoted XML attribute value.
pub open spec fn escaped_char(c: char) -> Seq<char> {
    if c == '&' {
        "&amp;"@
    } else if c == '"' {
        "&quot;"@
    } else if c == '<' {
        "&lt;"@
    } else {
        seq![c]
    }
}

/// `s` with `&`, `"` and `<` written as the entities `&amp;`, `&quot;` and `&lt;`.
pub open spec fn xml_escaped(s: Seq<char>) -> Seq<char>
    decreases s.len(),
{
    if s.len() == 0 {
        Seq::<char>::empty()
    } else {
        xml_escaped(s.drop_last()) + escaped_char(s.last())
    }
}

proof fn lemma_escaped_has_no_quote(s: Seq<char>)
    ensures
        forall|k: int| 0 <= k < xml_escaped(s).len() ==> #[trigger] xml_escaped(s)[k] != '"' && xml_escaped(s)[k] != '<',
    decreases s.len(),
{
    reveal_strlit("&amp;");
    reveal_strlit("&quot;");
    reveal_strlit("&lt;");
    if s.len() > 0 {
        lemma_escaped_has_no_quote(s.drop_last());
        let a = xml_escaped(s.drop_last());
        let b = escaped_char(s.last());
        assert forall|k: int| 0 <= k < xml_escaped(s).len() implies #[trigger] xml_escaped(s)[k] != '"' && xml_escaped(s)[k] != '<' by {
            if k < a.len() {
                assert(xml_escaped(s)[k] == a[k]);
            } else {
                assert(xml_escaped(s)[k] == b[k - a.len()]);
            }
        }
    }
}

/// Escapes `s` for use inside a double-quoted XML attribute value: `&`, `"`
/// and `<` become `&amp;`, `&quot;` and `&lt;`. The result holds no `"` and no `<`.
pub fn xml_escape_double_quoted_attr_value(s: &str) -> (r: String)
    ensures
        r@ == xml_escaped(s@),
        forall|k: int| 0 <= k < r@.len() ==> #[trigger] r@[k] != '"' && r@[k] != '<',
{
    let v = chars_of(s);
    let n = v.len();
    let mut out = String::new();
    let mut i: usize = 0;
    while i < n
        invariant
            n == v@.len(),
            0 <= i <= n,
            out@ == xml_escaped(v@.take(i as int)),
        decreases n - i,
    {
        let c = v[i];
        proof {
            assert(v@.take(i + 1).drop_last() =~= v@.take(i as int));
            assert(v@.take(i + 1).last() == c);
        }
        if c == '&' {
            out.append("&amp;");
        } else if c == '"' {
            out.append("&quot;");
        } else if c == '<' {
            out.append("&lt;");
        } else {
            text::push_char(&mut out, c);
            proof {
                assert(out@ =~= xml_escaped(v@.take(i as int)) + seq![c]);
            }
        }
        i = i + 1;
    }
    assert(v@.take(n as int) =~= v@);
    proof {
        lemma_escaped_has_no_quote(v@);
    }
    out
}

} // verus!
