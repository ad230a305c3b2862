//! Data for the popup's `_NET_WM_ICON` property: every size of the icon,
//! each as width, height and ARGB pixels, and the list of client windows
//! to search for the popup.
use vstd::prelude::*;

use crate::screen::le_u32;

verus! {

/// Largest icon side written to the property.
pub const ICON_SIDE_MAX: u32 = 512;

/// What the `png` crate decodes from the bytes of a PNG file: the first
/// frame's width and height and the output buffer it was decoded into;
/// `None` where reading the header or the frame fails.
pub uninterp spec fn png_frame(bytes: Seq<u8>) -> Option<(u32, u32, Seq<u8>)>;

/// Decodes the first frame with `png::Decoder` (`read_info`, a buffer of
/// `output_buffer_size` bytes, `next_frame`). The result is named, not
/// described: it is whatever the `png` crate decodes from these bytes.
#[verifier::external_body]
fn decode_png_frame(bytes: &[u8]) -> (r: Option<(u32, u32, Vec<u8>)>)
    ensures
        match png_frame(bytes@) {
            Some((w, h, buf)) => r matches Some((w2, h2, b2)) && w2 == w && h2 == h && b2@ == buf,
            None => r is None,
        },
{
    let decoder = png::Decoder::new(std::io::Cursor::new(bytes));
    let mut reader = decoder.read_info().ok()?;
    let mut buf = vec![0u8; reader.output_buffer_size()?];
    let info = reader.next_frame(&mut buf).ok()?;
    Some((info.width, info.height, buf))
}

/// One pixel from its red, green, blue and alpha bytes, as `0xAARRGGBB`.
pub open spec fn argb(r: u8, g: u8, b: u8, a: u8) -> u32 {
    (a as nat * 0x100_0000 + r as nat * 0x1_0000 + g as nat * 0x100 + b as nat) as u32
}

/// RGBA bytes read four at a time as ARGB pixels; bytes after the last
/// whole pixel are dropped.
pub open spec fn argb_pixels_of(rgba: Seq<u8>) -> Seq<u32> {
    Seq::new(
        rgba.len() / 4,
        |i: int| argb(rgba[4 * i], rgba[4 * i + 1], rgba[4 * i + 2], rgba[4 * i + 3]),
    )
}

pub open spec fn clamp_side(v: u32) -> u32 {
    if v < ICON_SIDE_MAX {
        v
    } else {
        ICON_SIDE_MAX
    }
}

/// An icon decoded from a PNG file: its sides (at most `ICON_SIDE_MAX`)
/// and its pixels; `None` where the file does not decode.
pub open spec fn decoded_icon(png: Seq<u8>) -> Option<(u32, u32, Seq<u32>)> {
    match png_frame(png) {
        Some((w, h, buf)) => Some((clamp_side(w), clamp_side(h), argb_pixels_of(buf))),
        None => None,
    }
}

fn pixel(r: u8, g: u8, b: u8, a: u8) -> (p: u32)
    ensures
        p == argb(r, g, b, a),
{
    (a as u32) * 0x100_0000 + (r as u32) * 0x1_0000 + (g as u32) * 0x100 + (b as u32)
}

/// Reads RGBA bytes as ARGB pixels.
pub fn argb_pixels(rgba: &[u8]) -> (r: Vec<u32>)
    ensures
        r@ == argb_pixels_of(rgba@),
{
    let mut r: Vec<u32> = Vec::new();
    let mut j: usize = 0;
    while 4 <= rgba.len() - j
        invariant
            j == 4 * r@.len(),
            j <= rgba@.len(),
            forall|i: int|
                0 <= i < r@.len() ==> #[trigger] r@[i] == argb(
                    rgba@[4 * i],
                    rgba@[4 * i + 1],
                    rgba@[4 * i + 2],
                    rgba@[4 * i + 3],
                ),
        decreases rgba.len() - j,
    {
        let p = pixel(rgba[j], rgba[j + 1], rgba[j + 2], rgba[j + 3]);
        r.push(p);
        j += 4;
    }
    assert(r@.len() == rgba@.len() / 4);
    assert(r@ =~= argb_pixels_of(rgba@));
    r
}

/// The icon for a decoded frame: sides clamped to `ICON_SIDE_MAX`, the
/// buffer read as RGBA pixels.
pub fn icon_from_frame(width: u32, height: u32, rgba: &[u8]) -> (r: (u32, u32, Vec<u32>))
    ensures
        r.0 == clamp_side(width),
        r.1 == clamp_side(height),
        r.2@ == argb_pixels_of(rgba@),
{
    let w = if width < ICON_SIDE_MAX { width } else { ICON_SIDE_MAX };
    let h = if height < ICON_SIDE_MAX { height } else { ICON_SIDE_MAX };
    (w, h, argb_pixels(rgba))
}

/// Decodes one embedded PNG icon.
pub fn decode_rgba(bytes: &[u8]) -> (r: Option<(u32, u32, Vec<u32>)>)
    ensures
        match decoded_icon(bytes@) {
            Some((w, h, px)) => r matches Some((w2, h2, p2)) && w2 == w && h2 == h && p2@ == px,
            None => r is None,
        },
{
    match decode_png_frame(bytes) {
        Some((w, h, buf)) => Some(icon_from_frame(w, h, buf.as_slice())),
        None => None,
    }
}

/// An icon's part of the property: width, height, then its pixels; nothing
/// for a file that does not decode.
pub open spec fn icon_entry(img: Option<(u32, u32, Seq<u32>)>) -> Seq<u32> {
    match img {
        Some((w, h, px)) => seq![w, h] + px,
        None => Seq::empty(),
    }
}

/// The property's words for the icons, in the order given.
pub open spec fn icon_words(icons: Seq<Seq<u8>>) -> Seq<u32>
    decreases icons.len(),
{
    if icons.len() == 0 {
        Seq::empty()
    } else {
        icon_words(icons.drop_last()) + icon_entry(decoded_icon(icons.last()))
    }
}

pub open spec fn views(icons: Seq<Vec<u8>>) -> Seq<Seq<u8>> {
    Seq::new(icons.len(), |i: int| icons[i]@)
}

/// The words of `_NET_WM_ICON` for the given PNG files, largest first as
/// given; a file that does not decode is skipped.
pub fn icon_property(icons: &Vec<Vec<u8>>) -> (r: Vec<u32>)
    ensures
        r@ == icon_words(views(icons@)),
{
    let mut data: Vec<u32> = Vec::new();
    let mut k: usize = 0;
    while k < icons.len()
        invariant
            k <= icons@.len(),
            data@ == icon_words(views(icons@).take(k as int)),
        decreases icons.len() - k,
    {
        let ghost before = data@;
        match decode_rgba(icons[k].as_slice()) {
            Some((w, h, px)) => {
                let mut px = px;
                data.push(w);
                data.push(h);
                data.append(&mut px);
            },
            None => {},
        }
        proof {
            let s = views(icons@).take(k + 1);
            assert(s.drop_last() =~= views(icons@).take(k as int));
            assert(s.last() == icons@[k as int]@);
            assert(data@ =~= before + icon_entry(decoded_icon(icons@[k as int]@)));
        }
        k += 1;
    }
    assert(views(icons@).take(icons@.len() as int) =~= views(icons@));
    data
}

/// The four bytes of `v` with the low byte first.
pub open spec fn le_bytes(v: u32) -> Seq<u8> {
    seq![
        (v % 0x100) as u8,
        ((v / 0x100) % 0x100) as u8,
        ((v / 0x1_0000) % 0x100) as u8,
        (v / 0x100_0000) as u8,
    ]
}

/// The four bytes of `v` with the high byte first.
pub open spec fn be_bytes(v: u32) -> Seq<u8> {
    le_bytes(v).reverse()
}

/// Calls `u32::to_ne_bytes`, which writes the value in the machine's byte
/// order; the contract says only that this is little- or big-endian.
#[verifier::external_body]
fn u32_to_ne_bytes(v: u32) -> (r: [u8; 4])
    ensures
        r@ == le_bytes(v) || r@ == be_bytes(v),
{
    v.to_ne_bytes()
}

/// Whether `bytes` holds the words of `data` one after another, four bytes
/// each, every word in one of the two byte orders.
pub open spec fn words_as_bytes(data: Seq<u32>, bytes: Seq<u8>) -> bool {
    &&& bytes.len() == 4 * data.len()
    &&& forall|i: int|
        0 <= i < data.len() ==> #[trigger] bytes.subrange(4 * i, 4 * i + 4) == le_bytes(data[i])
            || bytes.subrange(4 * i, 4 * i + 4) == be_bytes(data[i])
}

/// The property's words as the bytes handed to `ChangeProperty` (format
/// 32: each word in the machine's byte order).
pub fn icon_property_bytes(data: &[u32]) -> (r: Vec<u8>)
    ensures
        words_as_bytes(data@, r@),
{
    let mut r: Vec<u8> = Vec::new();
    let mut k: usize = 0;
    while k < data.len()
        invariant
            k <= data@.len(),
            words_as_bytes(data@.take(k as int), r@),
        decreases data.len() - k,
    {
        let b = u32_to_ne_bytes(data[k]);
        let ghost before = r@;
        r.push(b[0]);
        r.push(b[1]);
        r.push(b[2]);
        r.push(b[3]);
        proof {
            assert(r@ =~= before + b@);
            let d = data@.take(k + 1);
            assert forall|i: int| 0 <= i < d.len() implies #[trigger] r@.subrange(4 * i, 4 * i + 4)
                == le_bytes(d[i]) || r@.subrange(4 * i, 4 * i + 4) == be_bytes(d[i]) by {
                if i < k {
                    assert(r@.subrange(4 * i, 4 * i + 4) =~= before.subrange(4 * i, 4 * i + 4));
                    assert(data@.take(k as int)[i] == d[i]);
                } else {
                    assert(r@.subrange(4 * i, 4 * i + 4) =~= b@);
                }
            }
        }
        k += 1;
    }
    assert(data@.take(data@.len() as int) =~= data@);
    r
}

/// Window ids in a `_NET_CLIENT_LIST` reply: little-endian words, four
/// bytes each; bytes after the last whole word are dropped.
pub open spec fn client_ids_of(value: Seq<u8>) -> Seq<u32> {
    Seq::new(value.len() / 4, |i: int| le_u32(value.subrange(4 * i, 4 * i + 4)))
}

pub fn client_ids(value: &[u8]) -> (r: Vec<u32>)
    ensures
        r@ == client_ids_of(value@),
{
    let mut r: Vec<u32> = Vec::new();
    let mut j: usize = 0;
    while 4 <= value.len() - j
        invariant
            j == 4 * r@.len(),
            j <= value@.len(),
            forall|i: int|
                0 <= i < r@.len() ==> #[trigger] r@[i] == le_u32(value@.subrange(4 * i, 4 * i + 4)),
        decreases value.len() - j,
    {
        let w: u32 = (value[j] as u32) + (value[j + 1] as u32) * 0x100 + (value[j + 2] as u32)
            * 0x1_0000 + (value[j + 3] as u32) * 0x100_0000;
        let ghost sub = value@.subrange(j as int, j + 4);
        assert(sub[0] == value@[j as int] && sub[1] == value@[j + 1] && sub[2] == value@[j + 2]
            && sub[3] == value@[j + 3]);
        r.push(w);
        j += 4;
    }
    assert(r@ =~= client_ids_of(value@));
    r
}

} // verus!
