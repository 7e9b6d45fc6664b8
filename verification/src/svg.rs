use vstd::prelude::*;
use vstd::string::*;

verus! {

/// The quote that is open after scanning `b[start..end)` from outside any
/// quote: a `"` or `'` opens a quote outside one, and the same byte closes it.
pub open spec fn quote_after(b: Seq<u8>, start: int, end: int) -> Option<u8>
    decreases end - start,
{
    if end <= start {
        None
    } else {
        let c = b[end - 1];
        match quote_after(b, start, end - 1) {
            None => if c == 0x22u8 || c == 0x27u8 {
                Some(c)
            } else {
                None
            },
            Some(q) => if c == q {
                None
            } else {
                Some(q)
            },
        }
    }
}

/// `b[i]` is a `>` that ends the opening tag starting at `open_lt`: it lies
/// after `open_lt` and outside any quoted attribute value.
pub open spec fn closes_tag(b: Seq<u8>, open_lt: int, i: int) -> bool {
    &&& open_lt < i < b.len()
    &&& b[i] == 0x3Eu8
    &&& quote_after(b, open_lt + 1, i) is None
}

/// The position of the `>` that ends the opening tag whose `<` is at `open_lt`
/// in the bytes `b`: the first one after it outside quoted attribute values.
/// `None` when `open_lt` is not a `<` of `b` or no such `>` follows.
pub open spec fn opening_tag_end(b: Seq<u8>, open_lt: int) -> Option<int> {
    if 0 <= open_lt < b.len() && b[open_lt] == 0x3Cu8 && exists|i: int| closes_tag(b, open_lt, i) {
        Some(choose|i: int| closes_tag(b, open_lt, i) && forall|j: int| open_lt < j < i ==> !closes_tag(b, open_lt, j))
    } else {
        None
    }
}

/// Finds the end of an opening tag: the byte position of the closing `>` of
/// the tag whose `<` is at `open_lt`, skipping `>` inside quoted attribute values.
pub fn end_of_opening_tag(xml: &str, open_lt: usize) -> (r: Option<usize>)
    ensures
        match r {
            Some(i) => {
                &&& 0 <= open_lt < xml.spec_bytes().len()
                &&& xml.spec_bytes()[open_lt as int] == 0x3Cu8
                &&& closes_tag(xml.spec_bytes(), open_lt as int, i as int)
                &&& forall|j: int| open_lt < j < i ==> !closes_tag(xml.spec_bytes(), open_lt as int, j)
            },
            None => opening_tag_end(xml.spec_bytes(), open_lt as int) is None,
        },
        r matches Some(i) ==> opening_tag_end(xml.spec_bytes(), open_lt as int) == Some(i as int),
        r matches Some(i) ==> i < usize::MAX,
{
    let b = xml.as_bytes();
    let n = b.len();
    if open_lt >= n || b[open_lt] != 0x3Cu8 {
        return None;
    }
    let ghost bs = b@;
    let mut quote: Option<u8> = None;
    let mut i = open_lt + 1;
    while i < n
        invariant
            bs == b@,
            bs == xml.spec_bytes(),
            n == bs.len(),
            open_lt < i <= n,
            bs[open_lt as int] == 0x3Cu8,
            quote == quote_after(bs, open_lt + 1, i as int),
            forall|j: int| open_lt < j < i ==> !closes_tag(bs, open_lt as int, j),
        decreases n - i,
    {
        let c = b[i];
        match quote {
            None => {
                if c == 0x3Eu8 {
                    proof {
                        assert(closes_tag(bs, open_lt as int, i as int));
                        let k = choose|k: int| closes_tag(bs, open_lt as int, k) && forall|j: int| open_lt < j < k ==> !closes_tag(bs, open_lt as int, j);
                        assert(closes_tag(bs, open_lt as int, k) && forall|j: int| open_lt < j < k ==> !closes_tag(bs, open_lt as int, j));
                        if k < i {
                            assert(!closes_tag(bs, open_lt as int, k));
                        } else if k > i {
                            assert(!closes_tag(bs, open_lt as int, i as int));
                        }
                    }
                    return Some(i);
                }
                if c == 0x22u8 || c == 0x27u8 {
                    quote = Some(c);
                }
            },
            Some(q) => {
                if c == q {
                    quote = None;
                }
            },
        }
        i = i + 1;
    }
    proof {
        assert forall|k: int| !closes_tag(bs, open_lt as int, k) by {
            if open_lt < k < n {
            }
        }
    }
    None
}

} // verus!
