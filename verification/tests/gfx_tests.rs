use stratum_core::gfx::api::{with_wrapper, PictureNode};
use std::collections::BTreeMap;
use stratum_core::gfx::svg::{base64, color, esc, name_attr};
use stratum_core::gfx::{bmp_size, decode_bmp, encode_bmp24, lowest_free, Dib};

#[test]
fn encoded_bmp_decodes_to_the_same_pixels() {
    let rgb: Vec<u8> = vec![255, 0, 0, 0, 255, 0, 0, 0, 255, 10, 20, 30, 40, 50, 60, 70, 80, 90];
    let bmp = encode_bmp24(3, 2, &rgb);
    assert_eq!(&bmp[0..2], b"BM");
    assert_eq!(bmp.len(), 54 + 12 * 2);
    assert_eq!(bmp_size(&bmp), (3, 2));
    let (w, h, back) = decode_bmp(&bmp).unwrap();
    assert_eq!((w, h), (3, 2));
    assert_eq!(back, rgb);
}

#[test]
fn bottom_row_is_stored_first() {
    let rgb: Vec<u8> = vec![1, 2, 3, 4, 5, 6];
    let bmp = encode_bmp24(1, 2, &rgb);
    // row 1 (4, 5, 6) comes first, as b, g, r, then one byte of padding
    assert_eq!(&bmp[54..62], &[6, 5, 4, 0, 3, 2, 1, 0]);
}

#[test]
fn not_a_bmp() {
    assert_eq!(bmp_size(b"XX"), (0, 0));
    assert!(decode_bmp(&[0u8; 60]).is_none());
}

#[test]
fn eight_bit_palette() {
    // 2×1 pixels, 8 bits, palette of 2 colours
    let mut bmp = vec![0u8; 54 + 8 + 4];
    bmp[0] = b'B';
    bmp[1] = b'M';
    bmp[10..14].copy_from_slice(&(62u32).to_le_bytes());
    bmp[14..18].copy_from_slice(&(40u32).to_le_bytes());
    bmp[18..22].copy_from_slice(&(2u32).to_le_bytes());
    bmp[22..26].copy_from_slice(&(1u32).to_le_bytes());
    bmp[28..30].copy_from_slice(&(8u16).to_le_bytes());
    bmp[46..50].copy_from_slice(&(2u32).to_le_bytes());
    bmp[54..58].copy_from_slice(&[0x30, 0x20, 0x10, 0]);
    bmp[58..62].copy_from_slice(&[0x03, 0x02, 0x01, 0]);
    bmp[62] = 1;
    bmp[63] = 0;
    let (w, h, rgb) = decode_bmp(&bmp).unwrap();
    assert_eq!((w, h), (2, 1));
    assert_eq!(rgb, vec![0x01, 0x02, 0x03, 0x10, 0x20, 0x30]);
}

#[test]
fn pixel_after_set_pixel() {
    let bmp = encode_bmp24(2, 2, &[0u8; 12]);
    let mut d = Dib::new(bmp, Vec::new(), None);
    assert_eq!((d.width, d.height), (2, 2));
    assert_eq!(d.pixel(1, 1), Some(0));
    assert_eq!(d.set_pixel(1, 0, 0xAA11_2233), Some(()));
    assert!(d.dirty);
    assert_eq!(d.pixel(1, 0), Some(0x0011_2233));
    assert_eq!(d.pixel(0, 0), Some(0));
    assert_eq!(d.pixel(2, 0), None);
    assert_eq!(d.set_pixel(-1, 0, 1), None);
    d.flush();
    assert!(!d.dirty);
    let (_, _, rgb) = decode_bmp(&d.bmp).unwrap();
    assert_eq!(&rgb[3..6], &[0x33, 0x22, 0x11]);
}

#[test]
fn dib_of_garbage_has_no_pixels() {
    let mut d = Dib::new(vec![1, 2, 3], Vec::new(), Some("x.bmp".into()));
    assert_eq!((d.width, d.height), (0, 0));
    assert_eq!(d.pixel(0, 0), None);
}

#[test]
fn lowest_free_handle() {
    let mut t: BTreeMap<u32, ()> = BTreeMap::new();
    assert_eq!(lowest_free(&t), 1);
    t.insert(1, ());
    t.insert(2, ());
    t.insert(4, ());
    assert_eq!(lowest_free(&t), 3);
    t.insert(3, ());
    assert_eq!(lowest_free(&t), 5);
}

#[test]
fn svg_pieces() {
    assert_eq!(color(0x00112233), "#332211");
    assert_eq!(esc("a<b & \"c\">"), "a&lt;b &amp; &quot;c&quot;&gt;");
    assert_eq!(name_attr(""), "");
    assert_eq!(name_attr("x<y"), " data-name=\"x&lt;y\"");
    assert_eq!(base64(b""), "");
    assert_eq!(base64(b"f"), "Zg==");
    assert_eq!(base64(b"fo"), "Zm8=");
    assert_eq!(base64(b"foo"), "Zm9v");
    assert_eq!(base64(b"foobar"), "Zm9vYmFy");
}

fn node(handle: u16, children: Option<Vec<u16>>) -> PictureNode {
    PictureNode { handle, children }
}

#[test]
fn several_tops_get_a_wrapper_group() {
    let pic = vec![node(1, None), node(2, Some(vec![3])), node(3, None), node(5, None)];
    let out = with_wrapper(&pic);
    assert_eq!(out.len(), 5);
    assert_eq!(out[4].handle, 4);
    assert_eq!(out[4].children, Some(vec![1, 2, 5]));
    assert_eq!(out[1].children, Some(vec![3]));
}

#[test]
fn one_top_is_left_as_it_is() {
    let pic = vec![node(2, Some(vec![1, 3])), node(1, None), node(3, None)];
    let out = with_wrapper(&pic);
    assert_eq!(out.len(), 3);
    assert_eq!(out[0].handle, 2);
    assert!(with_wrapper(&vec![]).is_empty());
}

#[test]
fn an_encoded_raster_reads_back_through_a_dib() {
    let rgb = [1u8, 2, 3, 4, 5, 6, 7, 8, 9, 10, 11, 12];
    let mut d = Dib::new(encode_bmp24(2, 2, &rgb), Vec::new(), None);
    assert_eq!(d.pixel(0, 0), Some(0x030201));
    assert_eq!(d.pixel(1, 0), Some(0x060504));
    assert_eq!(d.pixel(0, 1), Some(0x090807));
    assert_eq!(d.pixel(1, 1), Some(0x0c0b0a));
    assert_eq!(d.pixel(2, 0), None);
}
