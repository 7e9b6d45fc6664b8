use vstd::prelude::*;
use vstd::string::*;
use crate::text;
use crate::text::{chars_of, find_char};

verus! {

broadcast use vstd::string::group_string_axioms;

/// `c` is an ASCII digit.
pub open spec fn is_digit(c: char) -> bool {
    '0' <= c <= '9'
}

/// Every character of `d` is an ASCII digit.
pub open spec fn all_digits(d: Seq<char>) -> bool {
    forall|i: int| 0 <= i < d.len() ==> is_digit(#[trigger] d[i])
}

/// The number written by the decimal digits `d`.
pub open spec fn digits_value(d: Seq<char>) -> nat
    decreases d.len(),
{
    if d.len() == 0 {
        0
    } else {
        10 * digits_value(d.drop_last()) + ((d.last() as u32) - 48) as nat
    }
}

/// What `str::parse::<u32>` gives for the digit string `d`, with 0 where it
/// fails (the number does not fit).
pub open spec fn u32_or_zero(d: Seq<char>) -> u32 {
    if digits_value(d) <= u32::MAX {
        digits_value(d) as u32
    } else {
        0
    }
}

/// The two numbers of a versioned file name `всё_в<digits>р<digits>.svg`
/// (the whole name must have this form), as digit strings.
#[verifier::opaque]
pub open spec fn version_parts(name: Seq<char>) -> Option<(Seq<char>, Seq<char>)> {
    let n = name.len();
    if n >= 9 && name.take(5) == "всё_в"@ && name.skip(n - 4) == ".svg"@ {
        let mid = name.subrange(5, n - 4);
        match text::first_index_of(mid, 'р') {
            Some(k) => {
                let d1 = mid.take(k);
                let d2 = mid.skip(k + 1);
                if d1.len() > 0 && d2.len() > 0 && all_digits(d1) && all_digits(d2) {
                    Some((d1, d2))
                } else {
                    None
                }
            },
            None => None,
        }
    } else {
        None
    }
}

/// The version numbers `(after_v, after_r)` of a versioned file name, each
/// 0 where its digits do not fit in a `u32`.
pub open spec fn version_of(name: Seq<char>) -> Option<(u32, u32)> {
    match version_parts(name) {
        Some((d1, d2)) => Some((u32_or_zero(d1), u32_or_zero(d2))),
        None => None,
    }
}

proof fn lemma_digits_value_grows(d: Seq<char>, c: char)
    requires
        is_digit(c),
    ensures
        digits_value(d.push(c)) == 10 * digits_value(d) + ((c as u32) - 48),
        digits_value(d.push(c)) >= digits_value(d),
{
    assert(d.push(c).drop_last() =~= d);
}

/// The name has the frame `всё_в...svg`.
pub open spec fn has_version_frame(name: Seq<char>) -> bool {
    let n = name.len();
    n >= 9 && name.take(5) == "всё_в"@ && name.skip(n - 4) == ".svg"@
}

proof fn lemma_no_frame(name: Seq<char>)
    requires
        !has_version_frame(name),
    ensures
        version_parts(name) is None,
{
    reveal(version_parts);
}

proof fn lemma_frame_parts(name: Seq<char>)
    requires
        has_version_frame(name),
    ensures
        version_parts(name) == ({
            let mid = name.subrange(5, name.len() - 4);
            match text::first_index_of(mid, 'р') {
                Some(k) => {
                    let d1 = mid.take(k);
                    let d2 = mid.skip(k + 1);
                    if d1.len() > 0 && d2.len() > 0 && all_digits(d1) && all_digits(d2) {
                        Some((d1, d2))
                    } else {
                        None
                    }
                },
                None => None,
            }
        }),
{
    reveal(version_parts);
}

/// Reads the digits `v[from..to]` as a `u32`, 0 where they do not fit.
fn parse_digits(v: &[char], from: usize, to: usize) -> (r: u32)
    requires
        from <= to <= v@.len(),
        all_digits(v@.subrange(from as int, to as int)),
    ensures
        r == u32_or_zero(v@.subrange(from as int, to as int)),
{
    let mut acc: u32 = 0;
    let mut overflow = false;
    let mut i = from;
    assert(v@.subrange(from as int, from as int) =~= Seq::<char>::empty());
    while i < to
        invariant
            from <= i <= to <= v@.len(),
            all_digits(v@.subrange(from as int, to as int)),
            !overflow ==> acc as nat == digits_value(v@.subrange(from as int, i as int)),
            overflow ==> digits_value(v@.subrange(from as int, i as int)) > u32::MAX,
        decreases to - i,
    {
        let c = v[i];
        proof {
            assert(v@.subrange(from as int, to as int)[i - from] == c);
            assert(v@.subrange(from as int, i + 1) =~= v@.subrange(from as int, i as int).push(c));
            lemma_digits_value_grows(v@.subrange(from as int, i as int), c);
        }
        let d: u32 = (c as u32) - 48;
        if !overflow {
            if acc > 429496729 || (acc == 429496729 && d > 5) {
                overflow = true;
            } else {
                acc = acc * 10 + d;
            }
        }
        i = i + 1;
    }
    if overflow {
        0
    } else {
        acc
    }
}

/// `v[from..to]` holds only ASCII digits.
fn digits_only(v: &[char], from: usize, to: usize) -> (r: bool)
    requires
        from <= to <= v@.len(),
    ensures
        r == all_digits(v@.subrange(from as int, to as int)),
{
    let mut i = from;
    while i < to
        invariant
            from <= i <= to <= v@.len(),
            forall|j: int| from <= j < i ==> is_digit(#[trigger] v@[j]),
        decreases to - i,
    {
        if !('0' <= v[i] && v[i] <= '9') {
            assert(v@.subrange(from as int, to as int)[i - from] == v@[i as int]);
            return false;
        }
        i = i + 1;
    }
    assert forall|j: int| 0 <= j < to - from implies is_digit(#[trigger] v@.subrange(from as int, to as int)[j]) by {
        assert(v@.subrange(from as int, to as int)[j] == v@[from + j]);
    }
    true
}

/// `v[from..]` starts with `w`.
fn range_starts_with(v: &[char], from: usize, w: &[char]) -> (r: bool)
    requires
        from <= v@.len(),
    ensures
        r == (from + w@.len() <= v@.len() && v@.subrange(from as int, from + w@.len()) == w@),
{
    if w.len() > v.len() - from {
        return false;
    }
    let n = w.len();
    let vlen = v.len();
    let mut i: usize = 0;
    while i < n
        invariant
            n == w@.len(),
            vlen == v@.len(),
            from + n <= vlen,
            0 <= i <= n,
            forall|j: int| 0 <= j < i ==> v@[from + j] == w@[j],
        decreases n - i,
    {
        if v[from + i] != w[i] {
            assert(v@.subrange(from as int, from + n)[i as int] != w@[i as int]);
            return false;
        }
        i = i + 1;
    }
    assert(v@.subrange(from as int, from + n) =~= w@);
    true
}

/// The version numbers of the file name `name` when it has the form
/// `всё_в<digits>р<digits>.svg` (see `version_of`); numbers that do not fit
/// in a `u32` count as 0.
#[verifier::rlimit(30)]
pub fn parse_version(name: &str) -> (r: Option<(u32, u32)>)
    ensures
        r == version_of(name@),
{
    proof {
        reveal_strlit("всё_в");
        reveal_strlit(".svg");
    }
    let v = chars_of(name);
    let n = v.len();
    let prefix = chars_of("всё_в");
    let suffix = chars_of(".svg");
    if n < 9 {
        proof {
            lemma_no_frame(v@);
        }
        return None;
    }
    let starts = range_starts_with(v.as_slice(), 0, prefix.as_slice());
    let ends = range_starts_with(v.as_slice(), n - 4, suffix.as_slice());
    assert(v@.subrange(0, 5) =~= v@.take(5));
    assert(v@.subrange(n - 4, n as int) =~= v@.skip(n - 4));
    if !starts || !ends {
        proof {
            lemma_no_frame(v@);
        }
        return None;
    }
    proof {
        lemma_frame_parts(v@);
    }
    let ghost mid = v@.subrange(5, n - 4);
    match find_char(v.as_slice(), 'р', 5, n - 4) {
        None => None,
        Some(k) => {
            proof {
                assert(mid.take(k - 5) =~= v@.subrange(5, k as int));
                assert(mid.skip(k - 5 + 1) =~= v@.subrange(k + 1, n - 4));
            }
            if k == 5 || k + 1 == n - 4 || !digits_only(v.as_slice(), 5, k) || !digits_only(v.as_slice(), k + 1, n - 4) {
                return None;
            }
            let a = parse_digits(v.as_slice(), 5, k);
            let b = parse_digits(v.as_slice(), k + 1, n - 4);
            Some((a, b))
        },
    }
}


/// Decimal digits read back as the number they were written from.
pub proof fn decimal_reads_back(n: nat)
    ensures
        all_digits(text::decimal(n)),
        text::decimal(n).len() > 0,
        digits_value(text::decimal(n)) == n,
    decreases n,
{
    let d = text::decimal(n);
    if n < 10 {
        assert(d =~= seq![text::digit_char(n)]);
        assert(d.drop_last() =~= Seq::<char>::empty());
        assert(digits_value(d.drop_last()) == 0);
        assert(((48 + n) as char) as u32 == 48 + n);
        assert(d.last() as u32 == 48 + n);
    } else {
        decimal_reads_back(n / 10);
        let init = text::decimal(n / 10);
        assert(d.drop_last() =~= init);
        assert(n == 10 * (n / 10) + n % 10 && n % 10 < 10) by (nonlinear_arith);
        let r = n % 10;
        assert(d.last() == text::digit_char(r));
        assert(((48 + r) as char) as u32 == 48 + r);
        assert(d.last() as u32 == 48 + r);
        assert(digits_value(d) == 10 * digits_value(init) + ((d.last() as u32) - 48) as nat);
        assert(digits_value(d) == 10 * (n / 10) + r);
        assert forall|i: int| 0 <= i < d.len() implies is_digit(#[trigger] d[i]) by {
            if i < init.len() {
                assert(d[i] == init[i]);
            }
        }
    }
}

/// The file name `всё_в<after_v>р<after_r>.svg`, written in decimal.
pub open spec fn versioned_name(after_v: nat, after_r: nat) -> Seq<char> {
    "всё_в"@ + text::decimal(after_v) + "р"@ + text::decimal(after_r) + ".svg"@
}

/// A versioned file name written from two numbers reads back as those numbers.
pub proof fn versioned_name_reads_back(after_v: u32, after_r: u32)
    ensures
        version_of(versioned_name(after_v as nat, after_r as nat)) == Some((after_v, after_r)),
{
    reveal_strlit("всё_в");
    reveal_strlit("р");
    reveal_strlit(".svg");
    decimal_reads_back(after_v as nat);
    decimal_reads_back(after_r as nat);
    let d1 = text::decimal(after_v as nat);
    let d2 = text::decimal(after_r as nat);
    let name = versioned_name(after_v as nat, after_r as nat);
    let n = name.len();
    assert(name.take(5) =~= "всё_в"@);
    assert(name.skip(n - 4) =~= ".svg"@);
    let mid = name.subrange(5, n - 4);
    assert(mid =~= d1 + "р"@ + d2);
    lemma_frame_parts(name);
    let k = d1.len() as int;
    assert(mid[k] == 'р');
    assert forall|j: int| 0 <= j < k implies mid[j] != 'р' by {
        assert(mid[j] == d1[j]);
        assert(is_digit(d1[j]));
    }
    let c = choose|c: int| 0 <= c < mid.len() && mid[c] == 'р' && forall|j: int| 0 <= j < c ==> mid[j] != 'р';
    assert(0 <= c < mid.len() && mid[c] == 'р' && forall|j: int| 0 <= j < c ==> mid[j] != 'р');
    if c < k {
    } else if c > k {
    }
    assert(text::first_index_of(mid, 'р') == Some(k));
    assert(mid.take(k) =~= d1);
    assert(mid.skip(k + 1) =~= d2);
}


/// A file whose name carries version numbers: its path and the numbers
/// after `в` and after `р`.
pub struct VersionedSvg {
    pub path: String,
    pub after_v: u32,
    pub after_r: u32,
}

/// The plain contents of a `VersionedSvg`.
pub struct VersionedSvgView {
    pub path: Seq<char>,
    pub after_v: u32,
    pub after_r: u32,
}

impl View for VersionedSvg {
    type V = VersionedSvgView;

    open spec fn view(&self) -> VersionedSvgView {
        VersionedSvgView { path: self.path@, after_v: self.after_v, after_r: self.after_r }
    }
}

impl Clone for VersionedSvg {
    fn clone(&self) -> (r: Self)
        ensures
            r@ == self@,
    {
        VersionedSvg { path: self.path.clone(), after_v: self.after_v, after_r: self.after_r }
    }
}

/// The views of `vs`.
pub open spec fn versions_view(vs: Seq<VersionedSvg>) -> Seq<VersionedSvgView> {
    vs.map_values(|x: VersionedSvg| x@)
}

/// The largest number after `в` (0 for no files).
pub open spec fn max_after_v(vs: Seq<VersionedSvgView>) -> u32
    decreases vs.len(),
{
    if vs.len() == 0 {
        0
    } else {
        let m = max_after_v(vs.drop_last());
        if vs.last().after_v > m {
            vs.last().after_v
        } else {
            m
        }
    }
}

/// The largest number after `р` among the files whose number after `в` is `v`.
pub open spec fn max_after_r_with_v(vs: Seq<VersionedSvgView>, v: u32) -> u32
    decreases vs.len(),
{
    if vs.len() == 0 {
        0
    } else {
        let m = max_after_r_with_v(vs.drop_last(), v);
        if vs.last().after_v == v && vs.last().after_r > m {
            vs.last().after_r
        } else {
            m
        }
    }
}

/// The file at `i` has the largest number after `в`, and among those the
/// largest after `р`.
pub open spec fn is_top(vs: Seq<VersionedSvgView>, i: int) -> bool {
    &&& vs[i].after_v == max_after_v(vs)
    &&& vs[i].after_r == max_after_r_with_v(vs, max_after_v(vs))
}

/// The file at `i` is the one to process: a top file whose path comes first
/// among the top files, the earliest of them where paths are equal.
pub open spec fn is_choice(vs: Seq<VersionedSvgView>, i: int) -> bool {
    &&& 0 <= i < vs.len()
    &&& is_top(vs, i)
    &&& forall|j: int| 0 <= j < vs.len() && is_top(vs, j) ==> !text::chars_lt(vs[j].path, vs[i].path)
    &&& forall|j: int| 0 <= j < i && is_top(vs, j) ==> text::chars_lt(vs[i].path, vs[j].path)
}

/// At most one file is the choice, so `choose_target` is pinned down.
pub proof fn choice_is_unique(vs: Seq<VersionedSvgView>, i: int, j: int)
    requires
        is_choice(vs, i),
        is_choice(vs, j),
    ensures
        i == j,
{
    if i < j {
        assert(text::chars_lt(vs[j].path, vs[i].path));
    } else if j < i {
        assert(text::chars_lt(vs[i].path, vs[j].path));
    }
}

/// The files whose number after `в` is `v`, in their order.
pub open spec fn with_after_v(vs: Seq<VersionedSvgView>, v: u32) -> Seq<VersionedSvgView>
    decreases vs.len(),
{
    if vs.len() == 0 {
        Seq::<VersionedSvgView>::empty()
    } else if vs.last().after_v == v {
        with_after_v(vs.drop_last(), v).push(vs.last())
    } else {
        with_after_v(vs.drop_last(), v)
    }
}

/// The largest number after `в` among the files (see `max_after_v`); 0 when
/// there are none.
pub fn largest_after_v(vs: &[VersionedSvg]) -> (r: u32)
    ensures
        r == max_after_v(versions_view(vs@)),
{
    let ghost view = versions_view(vs@);
    let n = vs.len();
    let mut max_v: u32 = 0;
    let mut i: usize = 0;
    assert(view.take(0).len() == 0);
    while i < n
        invariant
            n == vs@.len(),
            view == versions_view(vs@),
            0 <= i <= n,
            max_v == max_after_v(view.take(i as int)),
        decreases n - i,
    {
        proof {
            assert(view.take(i + 1).drop_last() =~= view.take(i as int));
            assert(view.take(i + 1).last() == vs@[i as int]@);
        }
        if vs[i].after_v > max_v {
            max_v = vs[i].after_v;
        }
        i = i + 1;
    }
    assert(view.take(n as int) =~= view);
    max_v
}

/// The files with the largest number after `в`, in their order.
pub fn files_with_max_after_v(vs: &Vec<VersionedSvg>) -> (r: Vec<VersionedSvg>)
    ensures
        versions_view(r@) == with_after_v(versions_view(vs@), max_after_v(versions_view(vs@))),
{
    let ghost view = versions_view(vs@);
    let n = vs.len();
    let mut max_v: u32 = 0;
    let mut i: usize = 0;
    assert(view.take(0).len() == 0);
    while i < n
        invariant
            n == vs@.len(),
            view == versions_view(vs@),
            0 <= i <= n,
            max_v == max_after_v(view.take(i as int)),
        decreases n - i,
    {
        proof {
            assert(view.take(i + 1).drop_last() =~= view.take(i as int));
            assert(view.take(i + 1).last() == vs@[i as int]@);
        }
        if vs[i].after_v > max_v {
            max_v = vs[i].after_v;
        }
        i = i + 1;
    }
    assert(view.take(n as int) =~= view);
    let mut out: Vec<VersionedSvg> = Vec::new();
    i = 0;
    assert(versions_view(out@) =~= Seq::<VersionedSvgView>::empty());
    while i < n
        invariant
            n == vs@.len(),
            view == versions_view(vs@),
            0 <= i <= n,
            max_v == max_after_v(view),
            versions_view(out@) == with_after_v(view.take(i as int), max_v),
        decreases n - i,
    {
        proof {
            assert(view.take(i + 1).drop_last() =~= view.take(i as int));
            assert(view.take(i + 1).last() == vs@[i as int]@);
        }
        if vs[i].after_v == max_v {
            let ghost before = versions_view(out@);
            out.push(vs[i].clone());
            assert(versions_view(out@) =~= before.push(vs@[i as int]@));
        }
        i = i + 1;
    }
    assert(view.take(n as int) =~= view);
    out
}

proof fn lemma_max_v_attained(vs: Seq<VersionedSvgView>)
    requires
        vs.len() > 0,
    ensures
        exists|i: int| 0 <= i < vs.len() && vs[i].after_v == max_after_v(vs),
        forall|i: int| 0 <= i < vs.len() ==> vs[i].after_v <= max_after_v(vs),
    decreases vs.len(),
{
    if vs.len() > 1 {
        lemma_max_v_attained(vs.drop_last());
        let w = choose|i: int| 0 <= i < vs.len() - 1 && vs.drop_last()[i].after_v == max_after_v(vs.drop_last());
        assert(vs[w] == vs.drop_last()[w]);
        assert forall|i: int| 0 <= i < vs.len() implies vs[i].after_v <= max_after_v(vs) by {
            if i < vs.len() - 1 {
                assert(vs[i] == vs.drop_last()[i]);
            }
        }
    } else {
        assert(vs.drop_last().len() == 0);
        assert(max_after_v(vs.drop_last()) == 0);
        assert(vs.last() == vs[0]);
        assert(vs[0].after_v == max_after_v(vs));
    }
}

proof fn lemma_max_r_none(vs: Seq<VersionedSvgView>, v: u32)
    requires
        forall|i: int| 0 <= i < vs.len() ==> vs[i].after_v != v,
    ensures
        max_after_r_with_v(vs, v) == 0,
    decreases vs.len(),
{
    if vs.len() > 0 {
        assert forall|i: int| 0 <= i < vs.len() - 1 implies vs.drop_last()[i].after_v != v by {
            assert(vs.drop_last()[i] == vs[i]);
        }
        lemma_max_r_none(vs.drop_last(), v);
    }
}

proof fn lemma_max_r_attained(vs: Seq<VersionedSvgView>, v: u32)
    requires
        exists|i: int| 0 <= i < vs.len() && vs[i].after_v == v,
    ensures
        exists|i: int| 0 <= i < vs.len() && vs[i].after_v == v && vs[i].after_r == max_after_r_with_v(vs, v),
        forall|i: int| 0 <= i < vs.len() && vs[i].after_v == v ==> vs[i].after_r <= max_after_r_with_v(vs, v),
    decreases vs.len(),
{
    let init = vs.drop_last();
    let last = vs.len() - 1;
    if exists|i: int| 0 <= i < init.len() && init[i].after_v == v {
        lemma_max_r_attained(init, v);
        let w = choose|i: int| 0 <= i < init.len() && init[i].after_v == v && init[i].after_r == max_after_r_with_v(init, v);
        assert(vs[w] == init[w]);
        if vs[last].after_v == v && vs[last].after_r > max_after_r_with_v(init, v) {
            assert(vs[last].after_r == max_after_r_with_v(vs, v));
        } else {
            assert(vs[w].after_r == max_after_r_with_v(vs, v));
        }
        assert forall|i: int| 0 <= i < vs.len() && vs[i].after_v == v implies vs[i].after_r <= max_after_r_with_v(vs, v) by {
            if i < last {
                assert(vs[i] == init[i]);
            }
        }
    } else {
        let w = choose|i: int| 0 <= i < vs.len() && vs[i].after_v == v;
        if w < last {
            assert(init[w] == vs[w]);
        }
        assert(vs[last].after_v == v);
        assert forall|i: int| 0 <= i < init.len() implies init[i].after_v != v by {
        }
        lemma_max_r_none(init, v);
        assert(vs[last].after_r == max_after_r_with_v(vs, v));
        assert forall|i: int| 0 <= i < vs.len() && vs[i].after_v == v implies vs[i].after_r <= max_after_r_with_v(vs, v) by {
            if i < last {
                assert(init[i] == vs[i]);
            }
        }
    }
}

/// Picks the file to process among the versioned ones: the largest number
/// after `в`, then the largest after `р`, then the first path in order (see
/// `is_choice`). `None` exactly when there is no file.
pub fn choose_target(vs: &[VersionedSvg]) -> (r: Option<&VersionedSvg>)
    ensures
        match r {
            None => vs@.len() == 0,
            Some(x) => exists|i: int| is_choice(versions_view(vs@), i) && x@ == vs@[i]@,
        },
{
    let n = vs.len();
    if n == 0 {
        return None;
    }
    let ghost view = versions_view(vs@);
    let mut max_v: u32 = 0;
    let mut i: usize = 0;
    assert(view.take(0).len() == 0);
    while i < n
        invariant
            n == vs@.len(),
            view == versions_view(vs@),
            0 <= i <= n,
            max_v == max_after_v(view.take(i as int)),
        decreases n - i,
    {
        proof {
            assert(view.take(i + 1).drop_last() =~= view.take(i as int));
            assert(view.take(i + 1).last() == vs@[i as int]@);
        }
        if vs[i].after_v > max_v {
            max_v = vs[i].after_v;
        }
        i = i + 1;
    }
    assert(view.take(n as int) =~= view);
    let mut max_r: u32 = 0;
    i = 0;
    while i < n
        invariant
            n == vs@.len(),
            view == versions_view(vs@),
            0 <= i <= n,
            max_v == max_after_v(view),
            max_r == max_after_r_with_v(view.take(i as int), max_v),
        decreases n - i,
    {
        proof {
            assert(view.take(i + 1).drop_last() =~= view.take(i as int));
            assert(view.take(i + 1).last() == vs@[i as int]@);
        }
        if vs[i].after_v == max_v && vs[i].after_r > max_r {
            max_r = vs[i].after_r;
        }
        i = i + 1;
    }
    assert(view.take(n as int) =~= view);
    proof {
        lemma_max_v_attained(view);
        lemma_max_r_attained(view, max_v);
    }
    let mut best: usize = 0;
    let mut found = false;
    let mut best_path: Vec<char> = Vec::new();
    i = 0;
    while i < n
        invariant
            n == vs@.len(),
            view == versions_view(vs@),
            0 <= i <= n,
            max_v == max_after_v(view),
            max_r == max_after_r_with_v(view, max_v),
            found ==> best < i && is_top(view, best as int) && best_path@ == view[best as int].path,
            found ==> forall|j: int| 0 <= j < i && is_top(view, j) ==> !text::chars_lt(view[j].path, view[best as int].path),
            found ==> forall|j: int| 0 <= j < best && is_top(view, j) ==> text::chars_lt(view[best as int].path, view[j].path),
            !found ==> forall|j: int| 0 <= j < i ==> !is_top(view, j),
        decreases n - i,
    {
        let x = &vs[i];
        assert(view[i as int] == x@);
        if x.after_v == max_v && x.after_r == max_r {
            let p = chars_of(x.path.as_str());
            if !found || text::chars_less(p.as_slice(), best_path.as_slice()) {
                proof {
                    if found {
                        let b = best as int;
                        assert forall|j: int| 0 <= j < i + 1 && is_top(view, j) implies !text::chars_lt(view[j].path, view[i as int].path) by {
                            text::lemma_chars_lt_order(view[j].path, view[i as int].path, view[b].path);
                        }
                        assert forall|j: int| 0 <= j < i && is_top(view, j) implies text::chars_lt(view[i as int].path, view[j].path) by {
                            text::lemma_chars_lt_order(view[i as int].path, view[b].path, view[j].path);
                            text::lemma_chars_lt_order(view[j].path, view[b].path, view[i as int].path);
                        }
                    } else {
                        text::lemma_chars_lt_order(view[i as int].path, view[i as int].path, view[i as int].path);
                    }
                }
                best = i;
                best_path = p;
                found = true;
            }
        }
        i = i + 1;
    }
    proof {
        if !found {
            let w = choose|k: int| 0 <= k < view.len() && view[k].after_v == max_v && view[k].after_r == max_after_r_with_v(view, max_v);
            assert(is_top(view, w));
        }
        assert(is_choice(view, best as int));
    }
    Some(&vs[best])
}


/// The first position at or after `q` in `order` whose key comes after `key`
/// (the length of `order` when none does).
pub open spec fn first_greater_from(keys: Seq<Seq<char>>, order: Seq<usize>, key: Seq<char>, q: int) -> int
    decreases order.len() - q,
{
    if q < 0 || q >= order.len() {
        order.len() as int
    } else if text::chars_lt(key, keys[order[q] as int]) {
        q
    } else {
        first_greater_from(keys, order, key, q + 1)
    }
}

/// The positions `0..n` ordered by their keys, equal keys keeping their
/// order (a stable sort by insertion: each position goes after every earlier
/// one whose key does not come after its own).
pub open spec fn stable_order(keys: Seq<Seq<char>>, n: int) -> Seq<usize>
    decreases n,
{
    if n <= 0 {
        Seq::<usize>::empty()
    } else {
        let prev = stable_order(keys, n - 1);
        let i = (n - 1) as usize;
        prev.insert(first_greater_from(keys, prev, keys[n - 1], 0), i)
    }
}

/// The keys of `keys`, by their views.
pub open spec fn keys_view(keys: Seq<Vec<char>>) -> Seq<Seq<char>> {
    keys.map_values(|k: Vec<char>| k@)
}

proof fn lemma_first_greater_bounds(keys: Seq<Seq<char>>, order: Seq<usize>, key: Seq<char>, q: int)
    requires
        0 <= q <= order.len(),
    ensures
        q <= first_greater_from(keys, order, key, q) <= order.len(),
    decreases order.len() - q,
{
    if q < order.len() && !text::chars_lt(key, keys[order[q] as int]) {
        lemma_first_greater_bounds(keys, order, key, q + 1);
    }
}

proof fn lemma_first_greater(keys: Seq<Seq<char>>, order: Seq<usize>, key: Seq<char>, q: int)
    requires
        0 <= q <= order.len(),
    ensures
        forall|m: int| q <= m < first_greater_from(keys, order, key, q) ==> !text::chars_lt(key, keys[order[m] as int]),
        first_greater_from(keys, order, key, q) < order.len() ==> text::chars_lt(key, keys[order[first_greater_from(keys, order, key, q)] as int]),
        q <= first_greater_from(keys, order, key, q) <= order.len(),
    decreases order.len() - q,
{
    if q < order.len() && !text::chars_lt(key, keys[order[q] as int]) {
        lemma_first_greater(keys, order, key, q + 1);
    }
}

/// `stable_order` sorts: it lists each of the positions `0..n` once, and
/// their keys never go down along it.
pub proof fn stable_order_sorts(keys: Seq<Seq<char>>, n: int)
    requires
        0 <= n <= keys.len(),
        n <= usize::MAX,
    ensures
        stable_order(keys, n).len() == n,
        forall|a: int| 0 <= a < n ==> #[trigger] stable_order(keys, n)[a] < n,
        forall|a: int, b: int| 0 <= a < b < n ==> stable_order(keys, n)[a] != stable_order(keys, n)[b],
        forall|a: int, b: int| 0 <= a < b < n ==> !text::chars_lt(
            keys[stable_order(keys, n)[b] as int],
            keys[stable_order(keys, n)[a] as int],
        ),
    decreases n,
{
    if n > 0 {
        stable_order_sorts(keys, n - 1);
        let prev = stable_order(keys, n - 1);
        let x = (n - 1) as usize;
        let kx = keys[n - 1];
        let p = first_greater_from(keys, prev, kx, 0);
        lemma_first_greater(keys, prev, kx, 0);
        let cur = stable_order(keys, n);
        assert(cur == prev.insert(p, x));
        prev.insert_ensures(p, x);
        assert forall|a: int| 0 <= a < n implies #[trigger] cur[a] < n by {
            if a > p {
                assert(cur[a] == prev[a - 1]);
            }
        }
        assert forall|a: int, b: int| 0 <= a < b < n implies cur[a] != cur[b] by {
            if a < p && b < p {
            } else if a < p && b == p {
            } else if a < p && b > p {
                assert(cur[b] == prev[b - 1]);
            } else if a == p {
                assert(cur[b] == prev[b - 1]);
            } else {
                assert(cur[a] == prev[a - 1]);
                assert(cur[b] == prev[b - 1]);
            }
        }
        assert forall|a: int, b: int| 0 <= a < b < n implies !text::chars_lt(keys[cur[b] as int], keys[cur[a] as int]) by {
            if a < p && b < p {
            } else if a < p && b == p {
                text::lemma_chars_lt_order(kx, keys[prev[a] as int], kx);
            } else if a < p && b > p {
                assert(cur[b] == prev[b - 1]);
            } else if a == p {
                assert(cur[b] == prev[b - 1]);
                if b - 1 > p {
                    text::lemma_chars_lt_order(keys[prev[b - 1] as int], keys[prev[p] as int], kx);
                    text::lemma_chars_lt_order(keys[prev[b - 1] as int], kx, keys[prev[p] as int]);
                    text::lemma_chars_lt_order(kx, keys[prev[p] as int], keys[prev[b - 1] as int]);
                } else {
                    text::lemma_chars_lt_order(keys[prev[p] as int], kx, kx);
                }
            } else {
                assert(cur[a] == prev[a - 1]);
                assert(cur[b] == prev[b - 1]);
            }
        }
    }
}

/// The stable order of `keys` (see `stable_order`).
pub fn stable_name_order(keys: &Vec<Vec<char>>) -> (r: Vec<usize>)
    ensures
        r@ == stable_order(keys_view(keys@), keys@.len() as int),
        forall|q: int| 0 <= q < r@.len() ==> #[trigger] r@[q] < keys@.len(),
        r@.len() == keys@.len(),
{
    let ghost kv = keys_view(keys@);
    let n = keys.len();
    let mut order: Vec<usize> = Vec::new();
    let mut i: usize = 0;
    while i < n
        invariant
            n == keys@.len(),
            kv == keys_view(keys@),
            0 <= i <= n,
            order@ == stable_order(kv, i as int),
            order@.len() == i,
            forall|q: int| 0 <= q < order@.len() ==> #[trigger] order@[q] < i,
        decreases n - i,
    {
        let key = &keys[i];
        assert(kv[i as int] == key@);
        let mut q: usize = 0;
        assert(first_greater_from(kv, order@, key@, 0) == first_greater_from(kv, order@, key@, q as int));
        while q < order.len() && !text::chars_less(key.as_slice(), keys[order[q]].as_slice())
            invariant
                n == keys@.len(),
                kv == keys_view(keys@),
                0 <= q <= order@.len(),
                order@.len() == i,
                i < n,
                key@ == kv[i as int],
                forall|m: int| 0 <= m < order@.len() ==> #[trigger] order@[m] < i,
                first_greater_from(kv, order@, key@, 0) == first_greater_from(kv, order@, key@, q as int),
            decreases order@.len() - q,
        {
            assert(kv[order@[q as int] as int] == keys@[order@[q as int] as int]@);
            q = q + 1;
        }
        proof {
            if q < order@.len() {
                assert(kv[order@[q as int] as int] == keys@[order@[q as int] as int]@);
            }
            assert(first_greater_from(kv, order@, key@, q as int) == q);
        }
        let ghost before = order@;
        order.insert(q, i);
        proof {
            assert forall|m: int| 0 <= m < order@.len() implies #[trigger] order@[m] < i + 1 by {
                before.insert_ensures(q as int, i);
                if m < q {
                    assert(order@[m] == before[m]);
                } else if m > q {
                    assert(order@[m] == before[m - 1]);
                }
            }
        }
        i = i + 1;
    }
    order
}


/// A directory entry as the search sees it: its path, its file name (when
/// that is valid UTF-8), whether it is a file, and the key that identifies
/// the file it names (its canonical path, or its path where that fails).
pub struct DirEntryInfo {
    pub path: String,
    pub file_name: Option<String>,
    pub is_file: bool,
    pub dedup_key: String,
}

/// The plain contents of a `DirEntryInfo`.
pub struct DirEntryView {
    pub path: Seq<char>,
    pub file_name: Option<Seq<char>>,
    pub is_file: bool,
    pub dedup_key: Seq<char>,
}

impl View for DirEntryInfo {
    type V = DirEntryView;

    open spec fn view(&self) -> DirEntryView {
        DirEntryView {
            path: self.path@,
            file_name: match self.file_name {
                Some(n) => Some(n@),
                None => None,
            },
            is_file: self.is_file,
            dedup_key: self.dedup_key@,
        }
    }
}

/// A file whose name starts with `всё` and ends with `.svg`.
pub struct SvgFile {
    pub path: String,
    pub file_name: String,
}

/// The plain contents of an `SvgFile`.
pub struct SvgFileView {
    pub path: Seq<char>,
    pub file_name: Seq<char>,
}

impl View for SvgFile {
    type V = SvgFileView;

    open spec fn view(&self) -> SvgFileView {
        SvgFileView { path: self.path@, file_name: self.file_name@ }
    }
}

/// The files found: every `всё*.svg` file, and those among them whose name
/// carries version numbers, each list ordered by file name.
pub struct CollectedFiles {
    pub all_prefixed: Vec<SvgFile>,
    pub structured: Vec<VersionedSvg>,
}

/// `s` starts with `p`.
pub open spec fn starts_with(s: Seq<char>, p: Seq<char>) -> bool {
    p.len() <= s.len() && s.take(p.len() as int) == p
}

/// `s` ends with `p`.
pub open spec fn ends_with(s: Seq<char>, p: Seq<char>) -> bool {
    p.len() <= s.len() && s.skip(s.len() - p.len()) == p
}

/// The name of an entry the search takes: a file whose name starts with
/// `всё` and ends with `.svg`.
pub open spec fn accepted_name(e: DirEntryView) -> Option<Seq<char>> {
    match e.file_name {
        Some(name) => if e.is_file && starts_with(name, "всё"@) && ends_with(name, ".svg"@) {
            Some(name)
        } else {
            None
        },
        None => None,
    }
}

/// What the search has gathered: the keys of the files taken, those files,
/// and the versioned ones with their names.
pub struct CollectState {
    pub seen: Seq<Seq<char>>,
    pub prefixed: Seq<SvgFileView>,
    pub versioned: Seq<VersionedSvgView>,
    pub versioned_names: Seq<Seq<char>>,
}

/// The search over the first `k` entries: each accepted entry whose file was
/// not taken before is taken, and also listed as versioned when its name
/// carries version numbers.
pub open spec fn collect_steps(entries: Seq<DirEntryView>, k: int) -> CollectState
    decreases k,
{
    if k <= 0 {
        CollectState { seen: Seq::empty(), prefixed: Seq::empty(), versioned: Seq::empty(), versioned_names: Seq::empty() }
    } else {
        let prev = collect_steps(entries, k - 1);
        let e = entries[k - 1];
        match accepted_name(e) {
            None => prev,
            Some(name) => if prev.seen.contains(e.dedup_key) {
                prev
            } else {
                let prefixed = prev.prefixed.push(SvgFileView { path: e.path, file_name: name });
                let seen = prev.seen.push(e.dedup_key);
                match version_of(name) {
                    Some((v, r)) => CollectState {
                        seen,
                        prefixed,
                        versioned: prev.versioned.push(VersionedSvgView { path: e.path, after_v: v, after_r: r }),
                        versioned_names: prev.versioned_names.push(name),
                    },
                    None => CollectState { seen, prefixed, versioned: prev.versioned, versioned_names: prev.versioned_names },
                }
            },
        }
    }
}

/// The items of `s` at the positions `order`, in that order.
pub open spec fn reordered<T>(s: Seq<T>, order: Seq<usize>) -> Seq<T> {
    order.map_values(|i: usize| s[i as int])
}

/// The file names of `files`.
pub open spec fn file_names(files: Seq<SvgFileView>) -> Seq<Seq<char>> {
    files.map_values(|f: SvgFileView| f.file_name)
}

fn name_has_frame(name: &String) -> (r: bool)
    ensures
        r == (starts_with(name@, "всё"@) && ends_with(name@, ".svg"@)),
{
    proof {
        reveal_strlit("всё");
        reveal_strlit(".svg");
    }
    let v = chars_of(name.as_str());
    let prefix = chars_of("всё");
    let suffix = chars_of(".svg");
    let n = v.len();
    if n < 4 {
        return false;
    }
    let starts = range_starts_with(v.as_slice(), 0, prefix.as_slice());
    let ends = range_starts_with(v.as_slice(), n - 4, suffix.as_slice());
    assert(v@.subrange(0, 3) =~= v@.take(3));
    assert(v@.subrange(n - 4, n as int) =~= v@.skip(n - 4));
    starts && ends
}

fn seen_contains(seen: &Vec<String>, key: &String) -> (r: bool)
    ensures
        r == seen@.map_values(|s: String| s@).contains(key@),
{
    let ghost sv = seen@.map_values(|s: String| s@);
    let mut i: usize = 0;
    while i < seen.len()
        invariant
            sv == seen@.map_values(|s: String| s@),
            0 <= i <= seen@.len(),
            forall|j: int| 0 <= j < i ==> sv[j] != key@,
        decreases seen@.len() - i,
    {
        if seen[i] == *key {
            assert(sv[i as int] == key@);
            return true;
        }
        i = i + 1;
    }
    false
}

/// Gathers the candidate files from the entries of the searched directories,
/// in the order they were listed (see `collect_steps`), and orders both lists
/// by file name, keeping the listed order among equal names.
pub fn collect_files(entries: &Vec<DirEntryInfo>) -> (r: CollectedFiles)
    ensures
        ({
            let st = collect_steps(entries@.map_values(|e: DirEntryInfo| e@), entries@.len() as int);
            &&& r.all_prefixed@.map_values(|f: SvgFile| f@) == reordered(st.prefixed, stable_order(file_names(st.prefixed), st.prefixed.len() as int))
            &&& r.structured@.map_values(|x: VersionedSvg| x@) == reordered(st.versioned, stable_order(st.versioned_names, st.versioned.len() as int))
        }),
{
    let ghost ev = entries@.map_values(|e: DirEntryInfo| e@);
    let n = entries.len();
    let mut seen: Vec<String> = Vec::new();
    let mut prefixed: Vec<SvgFile> = Vec::new();
    let mut prefixed_names: Vec<Vec<char>> = Vec::new();
    let mut versioned: Vec<VersionedSvg> = Vec::new();
    let mut versioned_names: Vec<Vec<char>> = Vec::new();
    let mut k: usize = 0;
    proof {
        assert(seen@.map_values(|s: String| s@) =~= Seq::<Seq<char>>::empty());
        assert(prefixed@.map_values(|f: SvgFile| f@) =~= Seq::<SvgFileView>::empty());
        assert(keys_view(prefixed_names@) =~= Seq::<Seq<char>>::empty());
        assert(versioned@.map_values(|x: VersionedSvg| x@) =~= Seq::<VersionedSvgView>::empty());
        assert(keys_view(versioned_names@) =~= Seq::<Seq<char>>::empty());
    }
    while k < n
        invariant
            n == entries@.len(),
            ev == entries@.map_values(|e: DirEntryInfo| e@),
            0 <= k <= n,
            seen@.map_values(|s: String| s@) == collect_steps(ev, k as int).seen,
            prefixed@.map_values(|f: SvgFile| f@) == collect_steps(ev, k as int).prefixed,
            keys_view(prefixed_names@) == file_names(collect_steps(ev, k as int).prefixed),
            versioned@.map_values(|x: VersionedSvg| x@) == collect_steps(ev, k as int).versioned,
            keys_view(versioned_names@) == collect_steps(ev, k as int).versioned_names,
            versioned@.len() == versioned_names@.len(),
        decreases n - k,
    {
        let e = &entries[k];
        assert(ev[k as int] == e@);
        let ghost prev = collect_steps(ev, k as int);
        if !e.is_file {
            k = k + 1;
            continue;
        }
        let name = match &e.file_name {
            Some(name) => name,
            None => {
                k = k + 1;
                continue;
            },
        };
        if !name_has_frame(name) {
            k = k + 1;
            continue;
        }
        if seen_contains(&seen, &e.dedup_key) {
            k = k + 1;
            continue;
        }
        let ghost s0 = seen@.map_values(|s: String| s@);
        let ghost p0 = prefixed@.map_values(|f: SvgFile| f@);
        let ghost pn0 = keys_view(prefixed_names@);
        let ghost v0 = versioned@.map_values(|x: VersionedSvg| x@);
        let ghost vn0 = keys_view(versioned_names@);
        seen.push(e.dedup_key.clone());
        prefixed.push(SvgFile { path: e.path.clone(), file_name: name.clone() });
        prefixed_names.push(chars_of(name.as_str()));
        proof {
            assert(seen@.map_values(|s: String| s@) =~= s0.push(e@.dedup_key));
            assert(prefixed@.map_values(|f: SvgFile| f@) =~= p0.push(SvgFileView { path: e@.path, file_name: name@ }));
            assert(keys_view(prefixed_names@) =~= pn0.push(name@));
            assert(file_names(p0.push(SvgFileView { path: e@.path, file_name: name@ })) =~= file_names(p0).push(name@));
        }
        match parse_version(name.as_str()) {
            Some((v, r)) => {
                versioned.push(VersionedSvg { path: e.path.clone(), after_v: v, after_r: r });
                versioned_names.push(chars_of(name.as_str()));
                proof {
                    assert(versioned@.map_values(|x: VersionedSvg| x@) =~= v0.push(VersionedSvgView { path: e@.path, after_v: v, after_r: r }));
                    assert(keys_view(versioned_names@) =~= vn0.push(name@));
                }
            },
            None => {},
        }
        k = k + 1;
    }
    let ghost st = collect_steps(ev, n as int);
    let order_p = stable_name_order(&prefixed_names);
    let order_v = stable_name_order(&versioned_names);
    let mut all_prefixed: Vec<SvgFile> = Vec::new();
    let mut m: usize = 0;
    while m < order_p.len()
        invariant
            0 <= m <= order_p@.len(),
            order_p@.len() == prefixed_names@.len(),
            forall|q: int| 0 <= q < order_p@.len() ==> #[trigger] order_p@[q] < prefixed_names@.len(),
            prefixed@.len() == prefixed_names@.len(),
            all_prefixed@.len() == m,
            all_prefixed@.map_values(|f: SvgFile| f@) == reordered(prefixed@.map_values(|f: SvgFile| f@), order_p@.take(m as int)),
        decreases order_p@.len() - m,
    {
        let idx = order_p[m];
        let f = &prefixed[idx];
        let ghost a0 = all_prefixed@.map_values(|f: SvgFile| f@);
        let ghost old_all = all_prefixed@;
        all_prefixed.push(SvgFile { path: f.path.clone(), file_name: f.file_name.clone() });
        proof {
            assert(order_p@[m as int] == idx);
            assert(idx < prefixed@.len());
            assert(all_prefixed@[m as int]@ == prefixed@[idx as int]@);
            assert(prefixed@.map_values(|f: SvgFile| f@)[idx as int] == prefixed@[idx as int]@);
            assert(order_p@.take(m + 1) =~= order_p@.take(m as int).push(idx));
            let sp = prefixed@.map_values(|f: SvgFile| f@);
            let mp = all_prefixed@.map_values(|f: SvgFile| f@);
            assert forall|j: int| 0 <= j < m + 1 implies #[trigger] mp[j] == reordered(sp, order_p@.take(m + 1))[j] by {
                if j < m {
                    assert(all_prefixed@[j] == old_all[j]);
                    assert(a0[j] == reordered(sp, order_p@.take(m as int))[j]);
                }
            }
            assert(all_prefixed@.map_values(|f: SvgFile| f@) =~= reordered(sp, order_p@.take(m + 1)));
        }
        m = m + 1;
    }
    assert(order_p@.take(order_p@.len() as int) =~= order_p@);
    let mut structured: Vec<VersionedSvg> = Vec::new();
    m = 0;
    while m < order_v.len()
        invariant
            0 <= m <= order_v@.len(),
            order_v@.len() == versioned_names@.len(),
            forall|q: int| 0 <= q < order_v@.len() ==> #[trigger] order_v@[q] < versioned_names@.len(),
            versioned@.len() == versioned_names@.len(),
            structured@.len() == m,
            structured@.map_values(|x: VersionedSvg| x@) == reordered(versioned@.map_values(|x: VersionedSvg| x@), order_v@.take(m as int)),
        decreases order_v@.len() - m,
    {
        let idx = order_v[m];
        let x = versioned[idx].clone();
        let ghost old_st = structured@;
        let ghost b0 = structured@.map_values(|x: VersionedSvg| x@);
        structured.push(x);
        proof {
            assert(order_v@[m as int] == idx);
            assert(idx < versioned@.len());
            assert(structured@[m as int]@ == versioned@[idx as int]@);
            assert(versioned@.map_values(|x: VersionedSvg| x@)[idx as int] == versioned@[idx as int]@);
            assert(order_v@.take(m + 1) =~= order_v@.take(m as int).push(idx));
            let sv = versioned@.map_values(|x: VersionedSvg| x@);
            let ms = structured@.map_values(|x: VersionedSvg| x@);
            assert forall|j: int| 0 <= j < m + 1 implies #[trigger] ms[j] == reordered(sv, order_v@.take(m + 1))[j] by {
                if j < m {
                    assert(structured@[j] == old_st[j]);
                    assert(b0[j] == reordered(sv, order_v@.take(m as int))[j]);
                }
            }
            assert(structured@.map_values(|x: VersionedSvg| x@) =~= reordered(sv, order_v@.take(m + 1)));
        }
        m = m + 1;
    }
    assert(order_v@.take(order_v@.len() as int) =~= order_v@);
    proof {
        assert(prefixed@.len() == st.prefixed.len());
    }
    CollectedFiles { all_prefixed, structured }
}

} // verus!
