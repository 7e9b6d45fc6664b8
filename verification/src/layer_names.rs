use vstd::prelude::*;
use crate::text::{chars_of, string_from_chars, trim_bounds};
use crate::text;
use crate::versions;
use vstd::string::*;

verus! {

broadcast use vstd::string::group_string_axioms;

/// Characters that file names may not hold on common file systems.
pub open spec fn is_forbidden_in_file_name(c: char) -> bool {
    c == '<' || c == '>' || c == ':' || c == '"' || c == '/' || c == '\\' || c == '|' || c == '?'
        || c == '*'
}

/// `s` with every forbidden character replaced by `_`.
pub open spec fn replace_forbidden(s: Seq<char>) -> Seq<char> {
    s.map_values(|c: char| if is_forbidden_in_file_name(c) { '_' } else { c })
}

/// `s` without its trailing dots.
pub open spec fn trim_end_dots(s: Seq<char>) -> Seq<char>
    decreases s.len(),
{
    if s.len() > 0 && s.last() == '.' {
        trim_end_dots(s.drop_last())
    } else {
        s
    }
}

/// The name that stands in for a layer whose name leaves nothing usable.
pub open spec fn fallback_layer_name() -> Seq<char> {
    "_layer_"@
}

/// The file name stem made from a layer name: trimmed, forbidden characters
/// replaced by `_`, trailing dots dropped and trimmed again; `_layer_` when
/// nothing is left.
pub open spec fn sanitized(name: Seq<char>) -> Seq<char> {
    let u = text::trimmed(trim_end_dots(replace_forbidden(text::trimmed(name))));
    if u.len() == 0 {
        fallback_layer_name()
    } else {
        u
    }
}

/// Makes a file name stem from a layer name (see `sanitized`). The result is
/// never empty, holds no character forbidden in file names, and neither
/// starts nor ends with white space.
pub fn sanitize_for_filename(layer_name: &str) -> (r: String)
    ensures
        r@ == sanitized(layer_name@),
        r@.len() > 0,
        forall|k: int| 0 <= k < r@.len() ==> !is_forbidden_in_file_name(#[trigger] r@[k]),
        !text::is_white_space(r@[0]),
        !text::is_white_space(r@.last()),
{
    let v = chars_of(layer_name);
    let (i, j) = trim_bounds(v.as_slice());
    let mut w: Vec<char> = Vec::new();
    let mut k = i;
    while k < j
        invariant
            i <= k <= j <= v@.len(),
            w@ == replace_forbidden(v@.subrange(i as int, k as int)),
        decreases j - k,
    {
        let c = v[k];
        let d = if c == '<' || c == '>' || c == ':' || c == '"' || c == '/' || c == '\\' || c
            == '|' || c == '?' || c == '*' {
            '_'
        } else {
            c
        };
        w.push(d);
        proof {
            assert(replace_forbidden(v@.subrange(i as int, k + 1)) =~= replace_forbidden(
                v@.subrange(i as int, k as int),
            ).push(d));
        }
        k = k + 1;
    }
    let mut e = w.len();
    assert(w@.subrange(0, e as int) =~= w@);
    while e > 0 && w[e - 1] == '.'
        invariant
            e <= w@.len(),
            trim_end_dots(w@) == trim_end_dots(w@.subrange(0, e as int)),
        decreases e,
    {
        proof {
            assert(w@.subrange(0, e - 1) =~= w@.subrange(0, e as int).drop_last());
        }
        e = e - 1;
    }
    let head = &w.as_slice()[0..e];
    assert(head@ == w@.subrange(0, e as int));
    let (a, b) = trim_bounds(head);
    proof {
        text::lemma_trimmed_ends(trim_end_dots(replace_forbidden(text::trimmed(layer_name@))));
        reveal_strlit("_layer_");
    }
    if a == b {
        return "_layer_".to_owned();
    }
    let r = string_from_chars(&head[a..b]);
    proof {
        assert forall|k: int| 0 <= k < r@.len() implies !is_forbidden_in_file_name(#[trigger] r@[k]) by {
            assert(r@[k] == w@[a + k]);
        }
    }
    r
}


/// How many layers have so far been given each file name stem: the
/// bookkeeping behind `unique_export_stem`.
pub struct StemCounts {
    entries: Vec<(String, u32)>,
}

/// The count that `m` holds for `k`, zero where it holds none.
pub open spec fn count_in(m: Map<Seq<char>, u32>, k: Seq<char>) -> nat {
    if m.contains_key(k) {
        m[k] as nat
    } else {
        0
    }
}

impl View for StemCounts {
    type V = Map<Seq<char>, u32>;

    closed spec fn view(&self) -> Map<Seq<char>, u32> {
        Map::new(
            |k: Seq<char>| exists|i: int| 0 <= i < self.entries@.len() && self.entries@[i].0@ == k,
            |k: Seq<char>|
                self.entries@[choose|i: int|
                    0 <= i < self.entries@.len() && self.entries@[i].0@ == k].1,
        )
    }
}

impl StemCounts {
    /// No stem is recorded twice.
    pub closed spec fn well_formed(&self) -> bool {
        forall|i: int, j: int|
            0 <= i < j < self.entries@.len() ==> self.entries@[i].0@ != self.entries@[j].0@
    }

    /// No stem seen yet.
    pub fn new() -> (r: Self)
        ensures
            r.well_formed(),
            r@ == Map::<Seq<char>, u32>::empty(),
    {
        let r = StemCounts { entries: Vec::new() };
        assert(r@ =~= Map::<Seq<char>, u32>::empty());
        r
    }

    /// How many times `stem` was recorded.
    pub fn count(&self, stem: &String) -> (c: u32)
        requires
            self.well_formed(),
        ensures
            c == count_in(self@, stem@),
    {
        let n = self.entries.len();
        let mut i: usize = 0;
        while i < n
            invariant
                n == self.entries@.len(),
                self.well_formed(),
                0 <= i <= n,
                forall|j: int| 0 <= j < i ==> self.entries@[j].0@ != stem@,
            decreases n - i,
        {
            if self.entries[i].0 == *stem {
                proof {
                    let w = choose|j: int| 0 <= j < self.entries@.len() && self.entries@[j].0@ == stem@;
                    assert(0 <= w < self.entries@.len() && self.entries@[w].0@ == stem@);
                    assert(w == i);
                }
                return self.entries[i].1;
            }
            i = i + 1;
        }
        assert(!self@.contains_key(stem@));
        0
    }

    /// Records one more occurrence of `stem` and returns how many there are now.
    pub fn bump(&mut self, stem: &String) -> (c: u32)
        requires
            old(self).well_formed(),
            count_in(old(self)@, stem@) < u32::MAX,
        ensures
            final(self).well_formed(),
            c == count_in(old(self)@, stem@) + 1,
            final(self)@ == old(self)@.insert(stem@, c),
    {
        let ghost old_entries = self.entries@;
        let n = self.entries.len();
        let mut i: usize = 0;
        while i < n
            invariant
                n == self.entries@.len(),
                self.entries@ == old_entries,
                old(self).entries@ == old_entries,
                self.well_formed(),
                count_in(old(self)@, stem@) < u32::MAX,
                0 <= i <= n,
                forall|j: int| 0 <= j < i ==> self.entries@[j].0@ != stem@,
            decreases n - i,
        {
            if self.entries[i].0 == *stem {
                let c = self.entries[i].1;
                proof {
                    let w = choose|j: int| 0 <= j < self.entries@.len() && self.entries@[j].0@ == stem@;
                    assert(0 <= w < self.entries@.len() && self.entries@[w].0@ == stem@);
                    assert(w == i);
                }
                let key = self.entries[i].0.clone();
                self.entries.set(i, (key, c + 1));
                proof {
                    assert forall|j: int| 0 <= j < n implies #[trigger] self.entries@[j].0@ == old_entries[j].0@ by {
                    }
                    assert(self.entries@[i as int].0@ == stem@);
                    let m = self@;
                    let target = old(self)@.insert(stem@, (c + 1) as u32);
                    assert forall|k: Seq<char>| #[trigger] m.contains_key(k) == target.contains_key(k) by {
                        if target.contains_key(k) && k != stem@ {
                            let w = choose|j: int| 0 <= j < old_entries.len() && old_entries[j].0@ == k;
                            assert(self.entries@[w].0@ == k);
                        }
                        if m.contains_key(k) {
                            let w = choose|j: int| 0 <= j < self.entries@.len() && self.entries@[j].0@ == k;
                            assert(old_entries[w].0@ == k);
                        }
                    }
                    assert forall|k: Seq<char>| #[trigger] m.contains_key(k) implies m[k] == target[k] by {
                        let w = choose|j: int| 0 <= j < self.entries@.len() && self.entries@[j].0@ == k;
                        let w2 = choose|j: int| 0 <= j < old_entries.len() && old_entries[j].0@ == k;
                        assert(old_entries[w].0@ == k);
                        assert(self.entries@[w2].0@ == k);
                        assert(w == w2);
                    }
                    assert(m =~= target);
                }
                return c + 1;
            }
            i = i + 1;
        }
        assert(!old(self)@.contains_key(stem@));
        let key = stem.clone();
        self.entries.push((key, 1));
        proof {
            let m = self@;
            let target = old(self)@.insert(stem@, 1u32);
            assert forall|k: Seq<char>| #[trigger] m.contains_key(k) == target.contains_key(k) by {
                if target.contains_key(k) && k != stem@ {
                    let w = choose|j: int| 0 <= j < old_entries.len() && old_entries[j].0@ == k;
                    assert(self.entries@[w].0@ == k);
                }
                if k == stem@ {
                    assert(self.entries@[n as int].0@ == k);
                }
                if m.contains_key(k) && k != stem@ {
                    let w = choose|j: int| 0 <= j < self.entries@.len() && self.entries@[j].0@ == k;
                    assert(w != n);
                    assert(old_entries[w].0@ == k);
                }
            }
            assert forall|k: Seq<char>| #[trigger] m.contains_key(k) implies m[k] == target[k] by {
                let w = choose|j: int| 0 <= j < self.entries@.len() && self.entries@[j].0@ == k;
                if k == stem@ {
                    assert(self.entries@[n as int].0@ == k);
                    assert(w == n);
                } else {
                    let w2 = choose|j: int| 0 <= j < old_entries.len() && old_entries[j].0@ == k;
                    assert(self.entries@[w2].0@ == k);
                    assert(w == w2);
                }
            }
            assert(m =~= target);
        }
        1
    }
}

/// The stem that the `n`-th layer named `base` is exported under: `base`
/// itself for the first, `base_n` for later ones.
pub open spec fn numbered_stem(base: Seq<char>, n: nat) -> Seq<char> {
    if n == 1 {
        base
    } else {
        base + "_"@ + text::decimal(n)
    }
}

/// Stems of one base with different numbers differ: the `n`-th and the
/// `m`-th layer named `base` never get the same stem.
pub proof fn numbered_stems_differ(base: Seq<char>, n: nat, m: nat)
    requires
        1 <= n,
        1 <= m,
        n != m,
    ensures
        numbered_stem(base, n) != numbered_stem(base, m),
{
    reveal_strlit("_");
    if n == 1 {
        versions::decimal_reads_back(m);
        assert(numbered_stem(base, m).len() > base.len());
    } else if m == 1 {
        versions::decimal_reads_back(n);
        assert(numbered_stem(base, n).len() > base.len());
    } else {
        versions::decimal_reads_back(n);
        versions::decimal_reads_back(m);
        if numbered_stem(base, n) == numbered_stem(base, m) {
            let p = base.len() as int + 1;
            assert(numbered_stem(base, n).skip(p) =~= text::decimal(n));
            assert(numbered_stem(base, m).skip(p) =~= text::decimal(m));
        }
    }
}

/// The file name stem (without `.svg`) for a layer labelled `label`: the
/// sanitized name, with `_2`, `_3`, ... appended when that name came before.
pub fn unique_export_stem(label: &str, per_base: &mut StemCounts) -> (r: String)
    requires
        old(per_base).well_formed(),
        count_in(old(per_base)@, sanitized(label@)) < u32::MAX,
    ensures
        final(per_base).well_formed(),
        final(per_base)@ == old(per_base)@.insert(
            sanitized(label@),
            (count_in(old(per_base)@, sanitized(label@)) + 1) as u32,
        ),
        r@ == numbered_stem(sanitized(label@), count_in(old(per_base)@, sanitized(label@)) + 1),
{
    let base = sanitize_for_filename(label);
    let cnt = per_base.bump(&base);
    if cnt == 1 {
        base
    } else {
        let mut out = base.clone();
        out.append("_");
        text::push_decimal(&mut out, cnt);
        proof {
            reveal_strlit("_");
        }
        out
    }
}

} // verus!
