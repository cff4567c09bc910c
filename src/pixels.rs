use vstd::prelude::*;

verus! {

/// Luminosity of a pixel, `floor(0.299 * r + 0.587 * g + 0.114 * b)`, in exact arithmetic.
pub open spec fn luminance(r: u8, g: u8, b: u8) -> int {
    (299 * r + 587 * g + 114 * b) / 1000
}

/// Start of the 4-byte pixel that holds byte `i`.
pub open spec fn pixel_start(i: int) -> int {
    i - i % 4
}

/// Byte `i` lies in a full RGBA pixel and is one of its colour channels (not alpha).
pub open spec fn is_color_byte(len: int, i: int) -> bool {
    pixel_start(i) + 4 <= len && i % 4 < 3
}

/// Byte `i` of `s` after the grayscale filter.
pub open spec fn grayscale_byte(s: Seq<u8>, i: int) -> int {
    let p = pixel_start(i);
    if is_color_byte(s.len() as int, i) {
        luminance(s[p], s[p + 1], s[p + 2])
    } else {
        s[i] as int
    }
}

/// Byte `i` of `s` after each colour channel of each full pixel is passed through `table`.
pub open spec fn mapped_byte(s: Seq<u8>, table: Seq<u8>, i: int) -> u8 {
    if is_color_byte(s.len() as int, i) {
        table[s[i] as int]
    } else {
        s[i]
    }
}

proof fn lemma_luminance_bound(r: u8, g: u8, b: u8)
    ensures
        0 <= luminance(r, g, b) <= 255,
{
    assert((299 * r + 587 * g + 114 * b) / 1000 <= 255) by (nonlinear_arith)
        requires 0 <= 299 * r + 587 * g + 114 * b <= 1000 * 255;
}

/// Every full pixel of `s` is already gray: its three colour channels are equal.
pub open spec fn is_gray(s: Seq<u8>) -> bool {
    forall|p: int| 0 <= p && p % 4 == 0 && p + 4 <= s.len() ==> s[p] == s[p + 1] && #[trigger] s[p + 1] == s[p + 2]
}

/// The grayscale filter leaves a buffer unchanged where every full pixel
/// already has equal red, green and blue channels.
pub proof fn lemma_grayscale_keeps_gray(s: Seq<u8>)
    requires
        is_gray(s),
    ensures
        forall|i: int| 0 <= i < s.len() ==> #[trigger] grayscale_byte(s, i) == s[i] as int,
{
    assert forall|i: int| 0 <= i < s.len() implies #[trigger] grayscale_byte(s, i) == s[i] as int by {
        let p = pixel_start(i);
        if is_color_byte(s.len() as int, i) {
            assert(s[p] == s[p + 1] && s[p + 1] == s[p + 2]);
            let v = s[p] as int;
            assert((299 * v + 587 * v + 114 * v) / 1000 == v);
            assert(i == p || i == p + 1 || i == p + 2);
        }
    }
}

/// Turns each full RGBA pixel gray with the luminosity method; alpha and a
/// trailing partial pixel are left as they are.
pub fn grayscale(data: &mut [u8])
    ensures
        final(data)@.len() == old(data)@.len(),
        forall|i: int| 0 <= i < old(data)@.len() ==> #[trigger] final(data)@[i] as int == grayscale_byte(old(data)@, i),
{
    let ghost orig = data@;
    let len = data.len();
    let mut p: usize = 0;
    while len - p >= 4
        invariant
            data@.len() == len,
            len == orig.len(),
            p <= len,
            p % 4 == 0,
            forall|i: int| 0 <= i < p ==> data@[i] as int == #[trigger] grayscale_byte(orig, i),
            forall|i: int| p <= i < len ==> data@[i] == orig[i],
        decreases len - p,
    {
        let r = data[p] as u32;
        let g = data[p + 1] as u32;
        let b = data[p + 2] as u32;
        proof {
            lemma_luminance_bound(data@[p as int], data@[p + 1], data@[p + 2]);
        }
        let gray = ((299 * r + 587 * g + 114 * b) / 1000) as u8;
        data[p] = gray;
        data[p + 1] = gray;
        data[p + 2] = gray;
        assert forall|i: int| p <= i < p + 4 implies data@[i] as int == #[trigger] grayscale_byte(orig, i) by {
            assert(pixel_start(i) == p);
        }
        p = p + 4;
    }
    assert forall|i: int| p <= i < len implies data@[i] as int == #[trigger] grayscale_byte(orig, i) by {
        assert(pixel_start(i) + 4 > len);
    }
}

/// Replaces each colour channel `v` of each full RGBA pixel with `table[v]`;
/// alpha and a trailing partial pixel are left as they are.
pub fn map_color_channels(data: &mut [u8], table: &[u8])
    requires
        table@.len() == 256,
    ensures
        final(data)@.len() == old(data)@.len(),
        forall|i: int| 0 <= i < old(data)@.len() ==> #[trigger] final(data)@[i] == mapped_byte(old(data)@, table@, i),
{
    let ghost orig = data@;
    let len = data.len();
    let mut p: usize = 0;
    while len - p >= 4
        invariant
            data@.len() == len,
            len == orig.len(),
            table@.len() == 256,
            p <= len,
            p % 4 == 0,
            forall|i: int| 0 <= i < p ==> data@[i] == #[trigger] mapped_byte(orig, table@, i),
            forall|i: int| p <= i < len ==> data@[i] == orig[i],
        decreases len - p,
    {
        data[p] = table[data[p] as usize];
        data[p + 1] = table[data[p + 1] as usize];
        data[p + 2] = table[data[p + 2] as usize];
        assert forall|i: int| p <= i < p + 4 implies data@[i] == #[trigger] mapped_byte(orig, table@, i) by {
            assert(pixel_start(i) == p);
        }
        p = p + 4;
    }
    assert forall|i: int| p <= i < len implies data@[i] == #[trigger] mapped_byte(orig, table@, i) by {
        assert(pixel_start(i) + 4 > len);
    }
}

} // verus!
