//! Byte-string matching shared by the menu and the window rules.

use vstd::prelude::*;

verus! {

/// The lower-case form of an ASCII byte; every other byte is unchanged.
pub open spec fn ascii_lower(b: u8) -> u8 {
    if 0x41 <= b <= 0x5a { (b + 0x20) as u8 } else { b }
}

/// Two bytes are equal, ignoring ASCII case when `ci` holds.
pub open spec fn byte_eq(x: u8, y: u8, ci: bool) -> bool {
    if ci { ascii_lower(x) == ascii_lower(y) } else { x == y }
}

/// `needle` occurs in `hay` at offset `i`.
pub open spec fn match_at(hay: Seq<u8>, needle: Seq<u8>, i: int, ci: bool) -> bool {
    &&& 0 <= i
    &&& i + needle.len() <= hay.len()
    &&& forall|j: int| 0 <= j < needle.len() ==> byte_eq(hay[i + j], #[trigger] needle[j], ci)
}

/// The two strings are equal.
pub open spec fn text_equal(a: Seq<u8>, b: Seq<u8>, ci: bool) -> bool {
    a.len() == b.len() && match_at(a, b, 0, ci)
}

/// `needle` is a prefix of `hay`.
pub open spec fn text_prefix(hay: Seq<u8>, needle: Seq<u8>, ci: bool) -> bool {
    match_at(hay, needle, 0, ci)
}

/// `needle` occurs somewhere in `hay`.
pub open spec fn text_contains(hay: Seq<u8>, needle: Seq<u8>, ci: bool) -> bool {
    exists|i: int| match_at(hay, needle, i, ci)
}

/// Lower-cases an ASCII byte.
pub fn lower_byte(b: u8) -> (r: u8)
    ensures
        r == ascii_lower(b),
{
    if 0x41 <= b && b <= 0x5a {
        b + 0x20
    } else {
        b
    }
}

/// Compares two bytes, ignoring ASCII case when `ci` holds.
pub fn bytes_match(x: u8, y: u8, ci: bool) -> (r: bool)
    ensures
        r == byte_eq(x, y, ci),
{
    if ci {
        lower_byte(x) == lower_byte(y)
    } else {
        x == y
    }
}

/// Whether `needle` occurs in `hay` at offset `i`.
pub fn matches_at(hay: &[u8], needle: &[u8], i: usize, ci: bool) -> (r: bool)
    requires
        i + needle@.len() <= hay@.len(),
    ensures
        r == match_at(hay@, needle@, i as int, ci),
{
    let hl = hay.len();
    let mut j: usize = 0;
    while j < needle.len()
        invariant
            hl == hay@.len(),
            i + needle@.len() <= hay@.len(),
            j <= needle@.len(),
            forall|k: int| 0 <= k < j ==> byte_eq(hay@[i + k], #[trigger] needle@[k], ci),
        decreases needle@.len() - j,
    {
        if !bytes_match(hay[i + j], needle[j], ci) {
            assert(!byte_eq(hay@[i + j], needle@[j as int], ci));
            return false;
        }
        j += 1;
    }
    true
}

/// Whether `needle` occurs anywhere in `hay`.
pub fn find_sub(hay: &[u8], needle: &[u8], ci: bool) -> (r: bool)
    ensures
        r == text_contains(hay@, needle@, ci),
{
    if needle.len() > hay.len() {
        assert forall|i: int| !match_at(hay@, needle@, i, ci) by {}
        return false;
    }
    let last = hay.len() - needle.len();
    let mut i: usize = 0;
    loop
        invariant
            last == hay@.len() - needle@.len(),
            i <= last,
            forall|k: int| 0 <= k < i ==> !match_at(hay@, needle@, k, ci),
        ensures
            forall|k: int| 0 <= k <= last ==> !match_at(hay@, needle@, k, ci),
        decreases last - i,
    {
        if matches_at(hay, needle, i, ci) {
            return true;
        }
        if i == last {
            break;
        }
        i += 1;
    }
    assert forall|k: int| !match_at(hay@, needle@, k, ci) by {
        if 0 <= k <= last {
        }
    }
    false
}


/// The width of the first `n` bytes, each as wide as `w` says.
pub open spec fn text_width(w: Seq<i32>, n: int) -> int
    decreases n,
{
    if n <= 0 { 0 } else { text_width(w, n - 1) + w[n - 1] as int }
}

/// The longest prefix, of at most `m` bytes, that fits in `avail` with
/// `pad` to spare; none when not even one byte does.
pub open spec fn fitting(w: Seq<i32>, m: int, pad: int, avail: int) -> int
    decreases m,
{
    if m <= 0 { 0 } else if text_width(w, m) + pad <= avail { m } else { fitting(w, m - 1, pad, avail) }
}

/// What a cell `avail` wide shows of `text`: the longest prefix of at
/// most 255 bytes that fits with `pad` to spare, its last three bytes
/// (or fewer) made dots when it is cut short.
pub open spec fn label(text: Seq<u8>, w: Seq<i32>, pad: int, avail: int) -> Seq<u8> {
    let cap = if text.len() < 255 { text.len() as int } else { 255 };
    let n = fitting(w, cap, pad, avail);
    let start = if n < 3 { 0 } else { n - 3 };
    Seq::new(n as nat, |i: int| if n < text.len() && i >= start { 46u8 } else { text[i] })
}

/// Widths of bytes, each not negative and `small`.
pub open spec fn byte_widths_ok(w: Seq<i32>) -> bool {
    forall|i: int| 0 <= i < w.len() ==> 0 <= #[trigger] w[i] <= 0x10000
}

/// Text widths of at most 255 bytes stay within their count of byte
/// widths.
proof fn lemma_text_width(w: Seq<i32>, n: int)
    requires
        byte_widths_ok(w),
        0 <= n <= w.len(),
    ensures
        0 <= text_width(w, n) <= n * 0x10000,
    decreases n,
{
    if n > 0 {
        lemma_text_width(w, n - 1);
    }
}

/// The label that a cell `avail` wide shows of `text` (see `label`);
/// `w` holds the width of each byte.
pub fn fit_label(text: &[u8], w: &Vec<i32>, pad: i32, avail: i32) -> (r: Vec<u8>)
    requires
        w@.len() == text@.len(),
        byte_widths_ok(w@),
        -0x1000000 <= pad <= 0x1000000,
    ensures
        r@ == label(text@, w@, pad as int, avail as int),
{
    let n = text.len();
    let cap: usize = if n < 255 { n } else { 255 };
    let mut sum: i32 = 0;
    let mut k: usize = 0;
    while k < cap
        invariant
            cap <= w@.len(),
            cap <= 255,
            k <= cap,
            byte_widths_ok(w@),
            sum == text_width(w@, k as int),
        decreases cap - k,
    {
        proof {
            lemma_text_width(w@, k + 1);
        }
        sum = sum + w[k];
        k += 1;
    }
    let mut mn: usize = cap;
    proof {
        lemma_text_width(w@, cap as int);
    }
    while mn > 0 && sum + pad > avail
        invariant
            mn <= cap,
            cap <= w@.len(),
            cap <= 255,
            byte_widths_ok(w@),
            -0x1000000 <= pad <= 0x1000000,
            sum == text_width(w@, mn as int),
            0 <= sum <= mn * 0x10000,
            fitting(w@, cap as int, pad as int, avail as int) == fitting(w@, mn as int, pad as int, avail as int),
        decreases mn,
    {
        proof {
            lemma_text_width(w@, mn - 1);
        }
        sum = sum - w[mn - 1];
        mn -= 1;
    }
    assert(mn == fitting(w@, mn as int, pad as int, avail as int));
    let ghost want = label(text@, w@, pad as int, avail as int);
    let start: usize = if mn < 3 { 0 } else { mn - 3 };
    let mut r: Vec<u8> = Vec::new();
    let mut i: usize = 0;
    while i < mn
        invariant
            mn <= cap,
            cap <= text@.len(),
            n == text@.len(),
            start == (if mn < 3 { 0 } else { mn - 3 }),
            mn == fitting(w@, cap as int, pad as int, avail as int),
            cap == (if text@.len() < 255 { text@.len() as int } else { 255 }),
            i <= mn,
            r@ == want.take(i as int),
            want == label(text@, w@, pad as int, avail as int),
        decreases mn - i,
    {
        let b = if mn < n && i >= start { 46u8 } else { text[i] };
        r.push(b);
        i += 1;
        assert(r@ =~= want.take(i as int));
    }
    assert(want.take(mn as int) =~= want);
    r
}

} // verus!
