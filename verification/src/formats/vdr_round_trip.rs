//! A picture written by `vdr::write` reads back through `vdr::parse`: its
//! window, its z-order, its objects, its tools (pens, brushes, fonts,
//! strings, texts) and its sheet.

use vstd::prelude::*;
use crate::formats::cp1251;
use crate::formats::reader::{before_nul, lemma_before_nul, le_u64, string_at, u16_at, u32_at};
use crate::formats::vdr::{
    blocks_from, body_at, group_at, vec_opt, parts_at, parts_bytes, text_tool_body, texts_bytes, TextPart, TextTool, CHUNK_TEXT_PARTS, face_bytes, flag_byte, font_body, font_view, fonts_bytes, Font, FontView, brush_body, brushes_bytes, Brush, points_at, points_bytes, attachment_bytes, first_of, box_bytes, data_block, kind_bytes, kind_code, kind_view, name_block,
    object_body, object_item, object_view, objects_bytes, with_object, zeros, KindView, Object,
    ObjectKind, ObjectView,
    chunk_at, chunk_bytes, object_head, with_arrow, chunks_bytes, chunks_from, chunks_start, coord_at, coord_step, dibs_of,
    empty_view, front_chunks, item_at, law_picture_head, law_picture_window_round_trip, page_bytes,
    paint_chunks, pen_body, pens_bytes, picture_bytes, picture_of, record_bytes, records_from,
    string_tool_body, strings_bytes, text_chunks, tool_chunks, tool_head, u16s_at, u16s_bytes,
    window_at, with_tool, Pen, Picture, PictureView, StringTool, ToolView, CHUNK_OBJECTS,
    CHUNK_ZORDER,
};
use crate::formats::writer::{
    le64_bytes, law_u64_round_trip,
    law_string_round_trip, law_u16_round_trip, law_u32_round_trip, le16_bytes, le32_bytes,
    string_bytes,
};

verus! {

/// A `u16` field inside bytes reads as written.
proof fn lemma_field16(d: Seq<u8>, pre: Seq<u8>, v: u16, post: Seq<u8>)
    requires
        d =~= pre + le16_bytes(v) + post,
    ensures
        u16_at(d, pre.len() as int) == v,
{
    assert(d == pre + le16_bytes(v) + post);
    law_u16_round_trip(pre, v, post);
}

/// A `u32` field inside bytes reads as written.
proof fn lemma_field32(d: Seq<u8>, pre: Seq<u8>, v: u32, post: Seq<u8>)
    requires
        d =~= pre + le32_bytes(v) + post,
    ensures
        u32_at(d, pre.len() as int) == v,
{
    assert(d == pre + le32_bytes(v) + post);
    law_u32_round_trip(pre, v, post);
}

/// Handles written one after another read back.
proof fn lemma_u16s_read(x: Seq<u8>, z: Seq<u16>, y: Seq<u8>)
    ensures
        u16s_bytes(z).len() == 2 * z.len(),
        u16s_at(x + u16s_bytes(z) + y, x.len() as int, z.len()) == z,
    decreases z.len(),
{
    if z.len() > 0 {
        let z0 = z.drop_last();
        let d = x + u16s_bytes(z) + y;
        lemma_u16s_read(x, z0, le16_bytes(z.last()) + y);
        assert(x + u16s_bytes(z0) + (le16_bytes(z.last()) + y) =~= d);
        lemma_field16(d, x + u16s_bytes(z0), z.last(), y);
        assert forall|k: int| 0 <= k < z.len() implies #[trigger] u16s_at(d, x.len() as int, z.len())[k] == z[k] by {
            if k < z0.len() {
                assert(u16s_at(d, x.len() as int, z0.len())[k] == z0[k]);
            }
        }
        assert(u16s_at(d, x.len() as int, z.len()) =~= z);
    }
}

/// Records read one after another: first `a`, then `b`.
proof fn lemma_records_split(d: Seq<u8>, p: int, a: nat, b: nat, id: u16, v: PictureView)
    ensures
        records_from(d, p, a + b, true, true, id, v) == match records_from(d, p, a, true, true, id, v) {
            Some((v1, p1)) => records_from(d, p1, b, true, true, id, v1),
            None => None,
        },
    decreases a,
{
    reveal(records_from);
    if a > 0 {
        match item_at(d, p, true, true, id, v) {
            Some((v1, p1)) => {
                lemma_records_split(d, p1, (a - 1) as nat, b, id, v1);
                assert((a + b - 1) as nat == (a - 1) as nat + b);
            },
            None => {},
        }
    }
}

/// One record is read as `item_at` reads it.
proof fn lemma_records_one(d: Seq<u8>, p: int, id: u16, v: PictureView)
    ensures
        records_from(d, p, 1, true, true, id, v) == item_at(d, p, true, true, id, v),
{
    reveal_with_fuel(records_from, 2);
}

/// A pen record reads back as the pen.
#[verifier::spinoff_prover]
#[verifier::rlimit(60)]
proof fn lemma_pen_record(x: Seq<u8>, pen: Pen, y: Seq<u8>, v: PictureView)
    ensures
        record_bytes(101, false, pen_body(pen)).len() == 20,
        item_at(x + record_bytes(101, false, pen_body(pen)) + y, x.len() as int, true, true, 1004, v) == Some(
            (with_tool(v, ToolView::Pen(pen)), x.len() + 20int),
        ),
{
    reveal(crate::formats::vdr::tool_at);
    reveal(item_at);
    let a = x.len() as int;
    let d = x + record_bytes(101, false, pen_body(pen)) + y;
    let f = seq![
        le16_bytes(101),
        le16_bytes(20),
        le16_bytes(0),
        le16_bytes(1),
        le16_bytes(pen.handle),
    ];
    assert(((4 + pen_body(pen).len()) as u32) as u16 == 20);
    let h = le16_bytes(101) + le16_bytes(20) + le16_bytes(0) + le16_bytes(1) + le16_bytes(pen.handle);
    let c = le32_bytes(pen.color);
    let s = le16_bytes(pen.style);
    let w = le16_bytes(pen.width);
    let o = le16_bytes(pen.rop);
    assert(d =~= x + h + c + s + w + o + y);
    lemma_field16(d, x, 101, le16_bytes(20) + le16_bytes(0) + le16_bytes(1) + le16_bytes(pen.handle) + c + s + w + o + y);
    lemma_field16(d, x + le16_bytes(101), 20, le16_bytes(0) + le16_bytes(1) + le16_bytes(pen.handle) + c + s + w + o + y);
    lemma_field16(d, x + le16_bytes(101) + le16_bytes(20) + le16_bytes(0) + le16_bytes(1), pen.handle, c + s + w + o + y);
    lemma_field32(d, x + h, pen.color, s + w + o + y);
    lemma_field16(d, x + h + c, pen.style, w + o + y);
    lemma_field16(d, x + h + c + s, pen.width, o + y);
    lemma_field16(d, x + h + c + s + w, pen.rop, y);
}

/// Pen records written one after another read back as the pens.
#[verifier::spinoff_prover]
#[verifier::rlimit(60)]
proof fn lemma_pen_records(x: Seq<u8>, pens: Seq<Pen>, y: Seq<u8>, v: PictureView)
    ensures
        pens_bytes(pens).len() == 20 * pens.len(),
        records_from(x + pens_bytes(pens) + y, x.len() as int, pens.len(), true, true, 1004, v) == Some(
            (PictureView { pens: v.pens + pens, ..v }, (x.len() + 20 * pens.len()) as int),
        ),
    decreases pens.len(),
{
    reveal(records_from);
    if pens.len() == 0 {
        assert(v.pens + pens =~= v.pens);
        assert((PictureView { pens: v.pens + pens, ..v }) == v);
    } else {
        let s0 = pens.drop_last();
        let p = pens.last();
        let rec = record_bytes(101, false, pen_body(p));
        let d = x + pens_bytes(pens) + y;
        lemma_pen_records(x, s0, rec + y, v);
        assert(x + pens_bytes(s0) + (rec + y) =~= d);
        lemma_records_split(d, x.len() as int, s0.len(), 1, 1004, v);
        let v1 = PictureView { pens: v.pens + s0, ..v };
        lemma_pen_record(x + pens_bytes(s0), p, y, v1);
        assert(x + pens_bytes(s0) + rec + y =~= d);
        let p1 = (x.len() + 20 * s0.len()) as int;
        assert(records_from(d, x.len() as int, s0.len(), true, true, 1004, v) == Some((v1, p1)));
        assert(item_at(d, p1, true, true, 1004, v1) == Some((with_tool(v1, ToolView::Pen(p)), p1 + 20)));
        lemma_records_one(d, p1, 1004, v1);
        assert(v1.pens.push(p) =~= v.pens + pens);
        assert(with_tool(v1, ToolView::Pen(p)) == PictureView { pens: v.pens + pens, ..v });
        assert((s0.len() + 1) as nat == pens.len());
        assert(pens_bytes(pens).len() == 20 * pens.len());
    }
}

/// A brush record reads back as the brush.
#[verifier::spinoff_prover]
#[verifier::rlimit(60)]
proof fn lemma_brush_record(x: Seq<u8>, br: Brush, y: Seq<u8>, v: PictureView)
    ensures
        record_bytes(102, false, brush_body(br)).len() == 22,
        item_at(x + record_bytes(102, false, brush_body(br)) + y, x.len() as int, true, true, 1005, v) == Some(
            (with_tool(v, ToolView::Brush(br)), x.len() + 22int),
        ),
{
    reveal(crate::formats::vdr::tool_at);
    reveal(item_at);
    let d = x + record_bytes(102, false, brush_body(br)) + y;
    assert(((4 + brush_body(br).len()) as u32) as u16 == 22);
    let h = le16_bytes(102) + le16_bytes(22) + le16_bytes(0) + le16_bytes(1) + le16_bytes(br.handle);
    let c = le32_bytes(br.color);
    let s = le16_bytes(br.style);
    let t = le16_bytes(br.hatch);
    let o = le16_bytes(br.rop);
    let b = le16_bytes(br.dib);
    assert(d =~= x + h + c + s + t + o + b + y);
    lemma_field16(d, x, 102, le16_bytes(22) + le16_bytes(0) + le16_bytes(1) + le16_bytes(br.handle) + c + s + t + o + b + y);
    lemma_field16(d, x + le16_bytes(102), 22, le16_bytes(0) + le16_bytes(1) + le16_bytes(br.handle) + c + s + t + o + b + y);
    lemma_field16(d, x + le16_bytes(102) + le16_bytes(22) + le16_bytes(0) + le16_bytes(1), br.handle, c + s + t + o + b + y);
    lemma_field32(d, x + h, br.color, s + t + o + b + y);
    lemma_field16(d, x + h + c, br.style, t + o + b + y);
    lemma_field16(d, x + h + c + s, br.hatch, o + b + y);
    lemma_field16(d, x + h + c + s + t, br.rop, b + y);
    lemma_field16(d, x + h + c + s + t + o, br.dib, y);
}

/// Brush records written one after another read back as the brushes.
#[verifier::spinoff_prover]
#[verifier::rlimit(60)]
proof fn lemma_brush_records(x: Seq<u8>, brs: Seq<Brush>, y: Seq<u8>, v: PictureView)
    ensures
        brushes_bytes(brs).len() == 22 * brs.len(),
        records_from(x + brushes_bytes(brs) + y, x.len() as int, brs.len(), true, true, 1005, v) == Some(
            (PictureView { brushes: v.brushes + brs, ..v }, (x.len() + 22 * brs.len()) as int),
        ),
    decreases brs.len(),
{
    reveal(records_from);
    if brs.len() == 0 {
        assert(v.brushes + brs =~= v.brushes);
        assert((PictureView { brushes: v.brushes + brs, ..v }) == v);
    } else {
        let s0 = brs.drop_last();
        let p = brs.last();
        let rec = record_bytes(102, false, brush_body(p));
        let d = x + brushes_bytes(brs) + y;
        lemma_brush_records(x, s0, rec + y, v);
        assert(x + brushes_bytes(s0) + (rec + y) =~= d);
        lemma_records_split(d, x.len() as int, s0.len(), 1, 1005, v);
        let v1 = PictureView { brushes: v.brushes + s0, ..v };
        lemma_brush_record(x + brushes_bytes(s0), p, y, v1);
        assert(x + brushes_bytes(s0) + rec + y =~= d);
        let p1 = (x.len() + 22 * s0.len()) as int;
        assert(records_from(d, x.len() as int, s0.len(), true, true, 1005, v) == Some((v1, p1)));
        assert(item_at(d, p1, true, true, 1005, v1) == Some((with_tool(v1, ToolView::Brush(p)), p1 + 22)));
        lemma_records_one(d, p1, 1005, v1);
        assert(v1.brushes.push(p) =~= v.brushes + brs);
        assert(with_tool(v1, ToolView::Brush(p)) == PictureView { brushes: v.brushes + brs, ..v });
        assert((s0.len() + 1) as nat == brs.len());
        assert(brushes_bytes(brs).len() == 22 * brs.len());
    }
}

/// The brushes' chunk inside bytes reads back as the brushes.
#[verifier::spinoff_prover]
proof fn lemma_brushes_chunk(d: Seq<u8>, pre: Seq<u8>, brs: Seq<Brush>, post: Seq<u8>, v: PictureView)
    requires
        d =~= pre + chunk_bytes(1005, brs.len(), brushes_bytes(brs)) + post,
        0 < brs.len() <= 65535,
        15 + brushes_bytes(brs).len() <= u32::MAX,
    ensures
        u16_at(d, pre.len() as int) == 1005,
        chunk_at(d, pre.len() as int, true, true, 1005, v) == Some(
            (PictureView { brushes: v.brushes + brs, ..v }, (pre.len() + chunk_bytes(1005, brs.len(), brushes_bytes(brs)).len()) as int),
        ),
{
    let c = chunk_bytes(1005, brs.len(), brushes_bytes(brs));
    lemma_chunk_split(1005, brs.len(), brushes_bytes(brs));
    lemma_brush_records(pre + c.subrange(0, 15), brs, post, v);
    assert(pre + c.subrange(0, 15) + brushes_bytes(brs) + post =~= d);
    lemma_tool_chunk(pre, 1005, brs.len(), brushes_bytes(brs), post, v);
    assert(d.subrange(pre.len() as int, pre.len() + 2int) =~= c.subrange(0, 2));
}

/// A font the law below covers: sizes and weight that fit the `i16` fields,
/// and a face of at most 31 characters the code page holds, with no NUL.
pub open spec fn plain_font(f: Font) -> bool {
    &&& -32768 <= f.height <= 32767
    &&& -32768 <= f.width <= 32767
    &&& -32768 <= f.weight <= 32767
    &&& cp1251::representable(f.face@)
    &&& f.face@.len() <= 31
    &&& forall|k: int| 0 <= k < f.face@.len() ==> f.face@[k] != '\0'
}

/// A number of the `i16` range survives its field.
proof fn lemma_i16_field(v: i32)
    requires
        -32768 <= v <= 32767,
    ensures
        (v as i16 as u16) as i16 as i32 == v,
{
    assert(-32768 <= v <= 32767 ==> (v as i16 as u16) as i16 as i32 == v) by (bit_vector);
}

/// The face field of a plain font reads back as the face.
proof fn lemma_face_read(face: Seq<char>)
    requires
        cp1251::representable(face),
        face.len() <= 31,
        forall|k: int| 0 <= k < face.len() ==> face[k] != '\0',
    ensures
        face_bytes(face).len() == 32,
        cp1251::decoded(before_nul(face_bytes(face))) == face,
{
    let e = cp1251::encoded(face);
    let b = face_bytes(face);
    assert(b =~= e + zeros((32 - e.len()) as nat));
    assert forall|j: int| 0 <= j < e.len() implies b[j] != 0 by {
        let c = face[j];
        assert(cp1251::byte_of(c) is Some);
        cp1251::lemma_char_round_trip(c);
        if b[j] == 0 {
            assert(cp1251::char_of(0) == '\0');
        }
    }
    assert(b[e.len() as int] == 0);
    lemma_before_nul(b, e.len() as int);
    assert(b.take(e.len() as int) =~= e);
    cp1251::law_decode_encode(face);
}

/// A font record reads back as the font.
#[verifier::spinoff_prover]
#[verifier::rlimit(100)]
proof fn lemma_font_record(x: Seq<u8>, f: Font, y: Seq<u8>, v: PictureView)
    requires
        plain_font(f),
    ensures
        record_bytes(105, false, font_body(f)).len() == 68,
        item_at(x + record_bytes(105, false, font_body(f)) + y, x.len() as int, true, true, 1008, v) == Some(
            (with_tool(v, ToolView::Font(font_view(f))), x.len() + 68int),
        ),
{
    let a = x.len() as int;
    let fb = face_bytes(f.face@);
    lemma_face_read(f.face@);
    let d = x + record_bytes(105, false, font_body(f)) + y;
    assert(((4 + font_body(f).len()) as u32) as u16 == 68);
    let h = le16_bytes(105) + le16_bytes(68) + le16_bytes(0) + le16_bytes(1) + le16_bytes(f.handle);
    let e1 = le16_bytes(f.height as i16 as u16);
    let e2 = le16_bytes(f.width as i16 as u16);
    let e3 = le16_bytes(0) + le16_bytes(0);
    let e4 = le16_bytes(f.weight as i16 as u16);
    let fl = seq![flag_byte(f.italic), flag_byte(f.underline), 0u8, 204u8, 0u8, 0u8, 0u8, 0u8];
    assert(d =~= x + h + e1 + e2 + e3 + e4 + fl + fb + zeros(8) + y);
    lemma_field16(d, x, 105, d.subrange(a + 2, d.len() as int));
    lemma_field16(d, x + le16_bytes(105), 68, d.subrange(a + 4, d.len() as int));
    lemma_field16(d, x + le16_bytes(105) + le16_bytes(68) + le16_bytes(0) + le16_bytes(1), f.handle, d.subrange(a + 10, d.len() as int));
    lemma_field16(d, x + h, f.height as i16 as u16, d.subrange(a + 12, d.len() as int));
    lemma_field16(d, x + h + e1, f.width as i16 as u16, d.subrange(a + 14, d.len() as int));
    lemma_field16(d, x + h + e1 + e2 + e3, f.weight as i16 as u16, d.subrange(a + 20, d.len() as int));
    lemma_i16_field(f.height);
    lemma_i16_field(f.width);
    lemma_i16_field(f.weight);
    let p = a + 10;
    assert(d[p + 10] == flag_byte(f.italic));
    assert(d[p + 11] == flag_byte(f.underline));
    assert(d.subrange(p + 18, p + 50) =~= fb);
    let fv = FontView {
        handle: f.handle,
        height: u16_at(d, p) as i16 as i32,
        width: u16_at(d, p + 2) as i16 as i32,
        weight: u16_at(d, p + 8) as i16 as i32,
        italic: d[p + 10] != 0,
        underline: d[p + 11] != 0,
        face: cp1251::decoded(before_nul(d.subrange(p + 18, p + 50))),
    };
    assert(fv == font_view(f));
    assert(p + 58 <= d.len());
    assert(item_at(d, a, true, true, 1008, v) == Some((with_tool(v, ToolView::Font(fv)), p + 58))) by {
        reveal(crate::formats::vdr::tool_at);
        reveal(item_at);
    }
}

/// Font records written one after another read back as the fonts.
#[verifier::spinoff_prover]
#[verifier::rlimit(60)]
proof fn lemma_font_records(x: Seq<u8>, fs: Seq<Font>, y: Seq<u8>, v: PictureView)
    requires
        forall|i: int| 0 <= i < fs.len() ==> plain_font(#[trigger] fs[i]),
    ensures
        fonts_bytes(fs).len() == 68 * fs.len(),
        records_from(x + fonts_bytes(fs) + y, x.len() as int, fs.len(), true, true, 1008, v) == Some(
            (PictureView { fonts: v.fonts + fs.map_values(|f: Font| font_view(f)), ..v }, (x.len() + 68 * fs.len()) as int),
        ),
    decreases fs.len(),
{
    reveal(records_from);
    let m = fs.map_values(|f: Font| font_view(f));
    if fs.len() == 0 {
        assert(v.fonts + m =~= v.fonts);
        assert((PictureView { fonts: v.fonts + m, ..v }) == v);
    } else {
        let s0 = fs.drop_last();
        let p = fs.last();
        let rec = record_bytes(105, false, font_body(p));
        let d = x + fonts_bytes(fs) + y;
        assert forall|i: int| 0 <= i < s0.len() implies plain_font(#[trigger] s0[i]) by {
            assert(s0[i] == fs[i]);
        }
        lemma_font_records(x, s0, rec + y, v);
        assert(x + fonts_bytes(s0) + (rec + y) =~= d);
        lemma_records_split(d, x.len() as int, s0.len(), 1, 1008, v);
        let m0 = s0.map_values(|f: Font| font_view(f));
        let v1 = PictureView { fonts: v.fonts + m0, ..v };
        lemma_font_record(x + fonts_bytes(s0), p, y, v1);
        assert(x + fonts_bytes(s0) + rec + y =~= d);
        let p1 = (x.len() + 68 * s0.len()) as int;
        assert(records_from(d, x.len() as int, s0.len(), true, true, 1008, v) == Some((v1, p1)));
        assert(item_at(d, p1, true, true, 1008, v1) == Some((with_tool(v1, ToolView::Font(font_view(p))), p1 + 68)));
        lemma_records_one(d, p1, 1008, v1);
        assert(v1.fonts.push(font_view(p)) =~= v.fonts + m);
        assert(with_tool(v1, ToolView::Font(font_view(p))) == PictureView { fonts: v.fonts + m, ..v });
        assert((s0.len() + 1) as nat == fs.len());
        assert(fonts_bytes(fs).len() == 68 * fs.len());
    }
}

/// The fonts' chunk inside bytes reads back as the fonts.
#[verifier::spinoff_prover]
proof fn lemma_fonts_chunk(d: Seq<u8>, pre: Seq<u8>, fs: Seq<Font>, post: Seq<u8>, v: PictureView)
    requires
        d =~= pre + chunk_bytes(1008, fs.len(), fonts_bytes(fs)) + post,
        0 < fs.len() <= 65535,
        15 + fonts_bytes(fs).len() <= u32::MAX,
        forall|i: int| 0 <= i < fs.len() ==> plain_font(#[trigger] fs[i]),
    ensures
        u16_at(d, pre.len() as int) == 1008,
        chunk_at(d, pre.len() as int, true, true, 1008, v) == Some(
            (
                PictureView { fonts: v.fonts + fs.map_values(|f: Font| font_view(f)), ..v },
                (pre.len() + chunk_bytes(1008, fs.len(), fonts_bytes(fs)).len()) as int,
            ),
        ),
{
    let c = chunk_bytes(1008, fs.len(), fonts_bytes(fs));
    lemma_chunk_split(1008, fs.len(), fonts_bytes(fs));
    lemma_font_records(pre + c.subrange(0, 15), fs, post, v);
    assert(pre + c.subrange(0, 15) + fonts_bytes(fs) + post =~= d);
    lemma_tool_chunk(pre, 1008, fs.len(), fonts_bytes(fs), post, v);
    assert(d.subrange(pre.len() as int, pre.len() + 2int) =~= c.subrange(0, 2));
}

/// Parts of a text written one after another read back.
#[verifier::spinoff_prover]
#[verifier::rlimit(100)]
proof fn lemma_parts_read(x: Seq<u8>, z: Seq<TextPart>, y: Seq<u8>)
    ensures
        parts_bytes(z).len() == 12 * z.len(),
        parts_at(x + parts_bytes(z) + y, x.len() as int, z.len()) == z,
    decreases z.len(),
{
    if z.len() > 0 {
        let n = z.len();
        let z0 = z.drop_last();
        let t = z.last();
        let d = x + parts_bytes(z) + y;
        let p = x.len() as int;
        let a = le32_bytes(t.fg);
        let b = le32_bytes(t.bg);
        let c = le16_bytes(t.font);
        let e = le16_bytes(t.string);
        lemma_parts_read(x, z0, a + b + c + e + y);
        assert(x + parts_bytes(z0) + (a + b + c + e + y) =~= d);
        let small = parts_at(d, p, z0.len());
        assert(small == z0);
        let w = x + parts_bytes(z0);
        lemma_field32(d, w, t.fg, b + c + e + y);
        assert(w + a + (b + c + e + y) =~= d);
        lemma_field32(d, w + a, t.bg, c + e + y);
        assert(w + a + b + (c + e + y) =~= d);
        lemma_field16(d, w + a + b, t.font, e + y);
        assert(w + a + b + c + (e + y) =~= d);
        lemma_field16(d, w + a + b + c, t.string, y);
        assert(w + a + b + c + e + y =~= d);
        let big = parts_at(d, p, n);
        assert(big[n - 1] == t);
        assert forall|k: int| 0 <= k < z0.len() implies big[k] == small[k] by {}
        assert(big =~= small.push(t));
        assert(z0.push(t) =~= z);
    }
}

/// A record of a text (of at most 5000 parts) reads back as the text.
#[verifier::spinoff_prover]
#[verifier::rlimit(100)]
proof fn lemma_text_record(x: Seq<u8>, t: TextTool, y: Seq<u8>, v: PictureView)
    requires
        t.parts@.len() <= 5000,
    ensures
        record_bytes(107, false, text_tool_body(t)).len() == 22 + 12 * t.parts@.len(),
        item_at(x + record_bytes(107, false, text_tool_body(t)) + y, x.len() as int, true, true, 1010, v) == Some(
            (with_tool(v, ToolView::Text(t.handle, t.parts@)), (x.len() + 22 + 12 * t.parts@.len()) as int),
        ),
{
    let a = x.len() as int;
    let n = t.parts@.len();
    let size = (22 + 12 * n) as u16;
    lemma_parts_read(x, t.parts@, y);
    assert(((4 + text_tool_body(t).len()) as u32) as u16 == size);
    let d = x + record_bytes(107, false, text_tool_body(t)) + y;
    let h = le16_bytes(107) + le16_bytes(size) + le16_bytes(0) + le16_bytes(1) + le16_bytes(t.handle);
    let g = le16_bytes(CHUNK_TEXT_PARTS) + le32_bytes((12 + (n as u32) * 12) as u32) + le16_bytes(n as u16)
        + le16_bytes(n as u16) + le16_bytes(10);
    assert(d =~= x + h + g + parts_bytes(t.parts@) + y);
    lemma_parts_read(x + h + g, t.parts@, y);
    lemma_field16(d, x, 107, d.subrange(a + 2, d.len() as int));
    lemma_field16(d, x + le16_bytes(107), size, d.subrange(a + 4, d.len() as int));
    lemma_field16(d, x + le16_bytes(107) + le16_bytes(size) + le16_bytes(0) + le16_bytes(1), t.handle, d.subrange(a + 10, d.len() as int));
    lemma_field16(d, x + h, CHUNK_TEXT_PARTS, d.subrange(a + 12, d.len() as int));
    lemma_field16(d, x + h + le16_bytes(CHUNK_TEXT_PARTS) + le32_bytes((12 + (n as u32) * 12) as u32), n as u16, d.subrange(a + 18, d.len() as int));
    let p = a + 10;
    assert(u16_at(d, p) == CHUNK_TEXT_PARTS);
    assert(u16_at(d, p + 6) as nat == n);
    assert(parts_at(d, p + 12, n) == t.parts@);
    assert(p + 12 + 12 * n <= d.len());
    assert(item_at(d, a, true, true, 1010, v) == Some((with_tool(v, ToolView::Text(t.handle, t.parts@)), p + 12 + 12 * n))) by {
        reveal(crate::formats::vdr::tool_at);
        reveal(item_at);
    }
}

/// Text records written one after another read back as the texts.
#[verifier::spinoff_prover]
#[verifier::rlimit(60)]
proof fn lemma_text_records(x: Seq<u8>, ts: Seq<TextTool>, y: Seq<u8>, v: PictureView)
    requires
        forall|i: int| 0 <= i < ts.len() ==> (#[trigger] ts[i]).parts@.len() <= 5000,
    ensures
        records_from(x + texts_bytes(ts) + y, x.len() as int, ts.len(), true, true, 1010, v) == Some(
            (
                PictureView { texts: v.texts + ts.map_values(|t: TextTool| (t.handle, t.parts@)), ..v },
                (x.len() + texts_bytes(ts).len()) as int,
            ),
        ),
    decreases ts.len(),
{
    reveal(records_from);
    let m = ts.map_values(|t: TextTool| (t.handle, t.parts@));
    if ts.len() == 0 {
        assert(v.texts + m =~= v.texts);
        assert((PictureView { texts: v.texts + m, ..v }) == v);
    } else {
        let s0 = ts.drop_last();
        let t = ts.last();
        let rec = record_bytes(107, false, text_tool_body(t));
        let d = x + texts_bytes(ts) + y;
        assert forall|i: int| 0 <= i < s0.len() implies (#[trigger] s0[i]).parts@.len() <= 5000 by {
            assert(s0[i] == ts[i]);
        }
        lemma_text_records(x, s0, rec + y, v);
        assert(x + texts_bytes(s0) + (rec + y) =~= d);
        lemma_records_split(d, x.len() as int, s0.len(), 1, 1010, v);
        let m0 = s0.map_values(|t: TextTool| (t.handle, t.parts@));
        let v1 = PictureView { texts: v.texts + m0, ..v };
        lemma_text_record(x + texts_bytes(s0), t, y, v1);
        assert(x + texts_bytes(s0) + rec + y =~= d);
        let p1 = (x.len() + texts_bytes(s0).len()) as int;
        assert(records_from(d, x.len() as int, s0.len(), true, true, 1010, v) == Some((v1, p1)));
        lemma_records_one(d, p1, 1010, v1);
        assert(v1.texts.push((t.handle, t.parts@)) =~= v.texts + m);
        assert(with_tool(v1, ToolView::Text(t.handle, t.parts@)) == PictureView { texts: v.texts + m, ..v });
        assert((s0.len() + 1) as nat == ts.len());
    }
}

/// The texts' chunk inside bytes reads back as the texts.
#[verifier::spinoff_prover]
proof fn lemma_texts_chunk(d: Seq<u8>, pre: Seq<u8>, ts: Seq<TextTool>, post: Seq<u8>, v: PictureView)
    requires
        d =~= pre + chunk_bytes(1010, ts.len(), texts_bytes(ts)) + post,
        0 < ts.len() <= 65535,
        15 + texts_bytes(ts).len() <= u32::MAX,
        forall|i: int| 0 <= i < ts.len() ==> (#[trigger] ts[i]).parts@.len() <= 5000,
    ensures
        u16_at(d, pre.len() as int) == 1010,
        chunk_at(d, pre.len() as int, true, true, 1010, v) == Some(
            (
                PictureView { texts: v.texts + ts.map_values(|t: TextTool| (t.handle, t.parts@)), ..v },
                (pre.len() + chunk_bytes(1010, ts.len(), texts_bytes(ts)).len()) as int,
            ),
        ),
{
    let c = chunk_bytes(1010, ts.len(), texts_bytes(ts));
    lemma_chunk_split(1010, ts.len(), texts_bytes(ts));
    lemma_text_records(pre + c.subrange(0, 15), ts, post, v);
    assert(pre + c.subrange(0, 15) + texts_bytes(ts) + post =~= d);
    lemma_tool_chunk(pre, 1010, ts.len(), texts_bytes(ts), post, v);
    assert(d.subrange(pre.len() as int, pre.len() + 2int) =~= c.subrange(0, 2));
}

/// The sheet's record (of the 34 bytes the reader takes) reads back.
#[verifier::spinoff_prover]
#[verifier::rlimit(60)]
proof fn lemma_page_record(x: Seq<u8>, pg: Seq<u8>, y: Seq<u8>, v: PictureView)
    requires
        pg.len() == 34,
    ensures
        record_bytes(34, false, le16_bytes(0) + le16_bytes(1) + le16_bytes(1) + pg).len() == 44,
        item_at(x + record_bytes(34, false, le16_bytes(0) + le16_bytes(1) + le16_bytes(1) + pg) + y, x.len() as int, true, true, 1022, v)
            == Some((with_tool(v, ToolView::Page(pg)), x.len() + 44int)),
{
    let a = x.len() as int;
    let body = le16_bytes(0) + le16_bytes(1) + le16_bytes(1) + pg;
    let d = x + record_bytes(34, false, body) + y;
    assert(((4 + body.len()) as u32) as u16 == 44);
    assert(d =~= x + le16_bytes(34) + le16_bytes(44) + le16_bytes(0) + le16_bytes(1) + le16_bytes(1) + pg + y);
    lemma_field16(d, x, 34, d.subrange(a + 2, d.len() as int));
    lemma_field16(d, x + le16_bytes(34), 44, d.subrange(a + 4, d.len() as int));
    lemma_field16(d, x + le16_bytes(34) + le16_bytes(44) + le16_bytes(0) + le16_bytes(1), 1, d.subrange(a + 10, d.len() as int));
    assert(d.subrange(a + 10, a + 44) =~= pg);
    assert(item_at(d, a, true, true, 1022, v) == Some((with_tool(v, ToolView::Page(pg)), a + 44))) by {
        reveal(crate::formats::vdr::tool_at);
        reveal(item_at);
    }
}

/// The sheet's chunk inside bytes reads back as the sheet.
#[verifier::spinoff_prover]
proof fn lemma_page_chunk(d: Seq<u8>, pre: Seq<u8>, pg: Seq<u8>, post: Seq<u8>, v: PictureView)
    requires
        d =~= pre + chunk_bytes(1022, 1, record_bytes(34, false, le16_bytes(0) + le16_bytes(1) + le16_bytes(1) + pg)) + post,
        pg.len() == 34,
    ensures
        u16_at(d, pre.len() as int) == 1022,
        chunk_at(d, pre.len() as int, true, true, 1022, v) == Some(
            (
                PictureView { page: Some(pg), ..v },
                (pre.len() + chunk_bytes(1022, 1, record_bytes(34, false, le16_bytes(0) + le16_bytes(1) + le16_bytes(1) + pg)).len()) as int,
            ),
        ),
{
    let body = record_bytes(34, false, le16_bytes(0) + le16_bytes(1) + le16_bytes(1) + pg);
    let c = chunk_bytes(1022, 1, body);
    lemma_chunk_split(1022, 1, body);
    lemma_page_record(pre + c.subrange(0, 15), pg, post, v);
    assert(pre + c.subrange(0, 15) + body + post =~= d);
    lemma_records_one(d, (pre.len() + 15) as int, 1022, v);
    lemma_tool_chunk(pre, 1022, 1, body, post, v);
    assert(d.subrange(pre.len() as int, pre.len() + 2int) =~= c.subrange(0, 2));
}

/// A string record (of a text the code page holds, short enough for the
/// size of the record) reads back as the string.
#[verifier::spinoff_prover]
#[verifier::rlimit(60)]
proof fn lemma_string_record(x: Seq<u8>, st: StringTool, y: Seq<u8>, v: PictureView)
    requires
        cp1251::representable(st.text@),
        st.text@.len() <= 65000,
    ensures
        record_bytes(106, false, string_tool_body(st)).len() == 12 + st.text@.len(),
        item_at(x + record_bytes(106, false, string_tool_body(st)) + y, x.len() as int, true, true, 1009, v)
            == Some((with_tool(v, ToolView::Str(st.handle, st.text@)), (x.len() + 12 + st.text@.len()) as int)),
{
    reveal(crate::formats::vdr::tool_at);
    reveal(item_at);
    let t = st.text@;
    let a = x.len() as int;
    let n = (12 + t.len()) as u16;
    let d = x + record_bytes(106, false, string_tool_body(st)) + y;
    assert(cp1251::encoded(t).take(t.len() as int) =~= cp1251::encoded(t));
    assert(string_bytes(t).len() == 2 + t.len());
    assert(((4 + string_tool_body(st).len()) as u32) as u16 == n);
    let h = le16_bytes(106) + le16_bytes(n) + le16_bytes(0) + le16_bytes(1) + le16_bytes(st.handle);
    assert(d =~= x + h + string_bytes(t) + y);
    lemma_field16(d, x, 106, le16_bytes(n) + le16_bytes(0) + le16_bytes(1) + le16_bytes(st.handle) + string_bytes(t) + y);
    lemma_field16(d, x + le16_bytes(106), n, le16_bytes(0) + le16_bytes(1) + le16_bytes(st.handle) + string_bytes(t) + y);
    lemma_field16(d, x + le16_bytes(106) + le16_bytes(n) + le16_bytes(0) + le16_bytes(1), st.handle, string_bytes(t) + y);
    law_string_round_trip(x + h, t, y);
    assert(string_at(d, a + 10) == Some((t, a + 12 + t.len())));
}

/// String records written one after another read back as the strings.
#[verifier::spinoff_prover]
#[verifier::rlimit(100)]
proof fn lemma_string_records(x: Seq<u8>, ss: Seq<StringTool>, y: Seq<u8>, v: PictureView)
    requires
        forall|i: int| 0 <= i < ss.len() ==> cp1251::representable((#[trigger] ss[i]).text@) && ss[i].text@.len() <= 65000,
    ensures
        records_from(x + strings_bytes(ss) + y, x.len() as int, ss.len(), true, true, 1009, v) == Some(
            (
                PictureView { strings: v.strings + ss.map_values(|s: StringTool| (s.handle, s.text@)), ..v },
                (x.len() + strings_bytes(ss).len()) as int,
            ),
        ),
    decreases ss.len(),
{
    reveal(records_from);
    let m = ss.map_values(|s: StringTool| (s.handle, s.text@));
    if ss.len() == 0 {
        assert(v.strings + m =~= v.strings);
        assert((PictureView { strings: v.strings + m, ..v }) == v);
    } else {
        let s0 = ss.drop_last();
        let p = ss.last();
        let rec = record_bytes(106, false, string_tool_body(p));
        let d = x + strings_bytes(ss) + y;
        assert forall|i: int| 0 <= i < s0.len() implies cp1251::representable((#[trigger] s0[i]).text@) && s0[i].text@.len() <= 65000 by {
            assert(s0[i] == ss[i]);
        }
        lemma_string_records(x, s0, rec + y, v);
        assert(x + strings_bytes(s0) + (rec + y) =~= d);
        lemma_records_split(d, x.len() as int, s0.len(), 1, 1009, v);
        let m0 = s0.map_values(|s: StringTool| (s.handle, s.text@));
        let v1 = PictureView { strings: v.strings + m0, ..v };
        lemma_string_record(x + strings_bytes(s0), p, y, v1);
        assert(x + strings_bytes(s0) + rec + y =~= d);
        let p1 = (x.len() + strings_bytes(s0).len()) as int;
        let p2 = p1 + 12 + p.text@.len();
        assert(records_from(d, x.len() as int, s0.len(), true, true, 1009, v) == Some((v1, p1)));
        assert(item_at(d, p1, true, true, 1009, v1) == Some((with_tool(v1, ToolView::Str(p.handle, p.text@)), p2)));
        lemma_records_one(d, p1, 1009, v1);
        assert(v1.strings.push((p.handle, p.text@)) =~= v.strings + m);
        assert(with_tool(v1, ToolView::Str(p.handle, p.text@)) == PictureView { strings: v.strings + m, ..v });
        assert((s0.len() + 1) as nat == ss.len());
        assert(strings_bytes(ss).len() == strings_bytes(s0).len() + rec.len());
    }
}

/// The chunk of the z-order reads back as the handles, and the next chunk
/// starts after it.
#[verifier::spinoff_prover]
#[verifier::rlimit(60)]
proof fn lemma_zorder_chunk(x: Seq<u8>, z: Seq<u16>, y: Seq<u8>, v: PictureView)
    requires
        z.len() <= 65535,
    ensures
        chunk_bytes(CHUNK_ZORDER, z.len(), u16s_bytes(z)).len() == 12 + 2 * z.len(),
        chunk_at(x + chunk_bytes(CHUNK_ZORDER, z.len(), u16s_bytes(z)) + y, x.len() as int, true, true, CHUNK_ZORDER, v)
            == Some((PictureView { zorder: v.zorder + z, ..v }, (x.len() + 12 + 2 * z.len()) as int)),
{
    reveal(chunk_at);
    let n = z.len();
    let b = u16s_bytes(z);
    lemma_u16s_read(Seq::empty(), z, Seq::empty());
    let size = (12 + b.len()) as u32;
    let c = chunk_bytes(CHUNK_ZORDER, n, b);
    let d = x + c + y;
    let h2 = le16_bytes(n as u16) + le16_bytes(n as u16) + le16_bytes(10);
    assert(c =~= le16_bytes(CHUNK_ZORDER) + le32_bytes(size) + h2 + b);
    assert(d =~= x + le16_bytes(CHUNK_ZORDER) + le32_bytes(size) + h2 + b + y);
    lemma_field32(d, x + le16_bytes(CHUNK_ZORDER), size, h2 + b + y);
    lemma_field16(d, x + le16_bytes(CHUNK_ZORDER) + le32_bytes(size), n as u16, le16_bytes(n as u16) + le16_bytes(10) + b + y);
    lemma_u16s_read(x + le16_bytes(CHUNK_ZORDER) + le32_bytes(size) + h2, z, y);
}

/// A chunk of tools of `n` records (at least one) reads back as its records
/// say.
#[verifier::spinoff_prover]
#[verifier::rlimit(60)]
proof fn lemma_tool_chunk(x: Seq<u8>, id: u16, n: nat, body: Seq<u8>, y: Seq<u8>, v: PictureView)
    requires
        0 < n <= 65535,
        id != CHUNK_ZORDER,
        id != 1011,
        15 + body.len() <= u32::MAX,
    ensures
        chunk_bytes(id, n, body).len() == 15 + body.len(),
        chunk_at(x + chunk_bytes(id, n, body) + y, x.len() as int, true, true, id, v) == match records_from(
            x + chunk_bytes(id, n, body) + y,
            x.len() + 15int,
            n,
            true,
            true,
            id,
            v,
        ) {
            Some((v1, _)) => Some((v1, (x.len() + 15 + body.len()) as int)),
            None => None,
        },
{
    reveal(chunk_at);
    let size = (15 + body.len()) as u32;
    let c = chunk_bytes(id, n, body);
    let d = x + c + y;
    let h2 = le16_bytes(n as u16) + le16_bytes(n as u16) + le16_bytes(10) + seq![1u8, 0xFFu8, 0xFFu8];
    assert(c =~= le16_bytes(id) + le32_bytes(size) + h2 + body);
    assert(d =~= x + le16_bytes(id) + le32_bytes(size) + h2 + body + y);
    lemma_field32(d, x + le16_bytes(id), size, h2 + body + y);
    lemma_field16(d, x + le16_bytes(id) + le32_bytes(size), n as u16, le16_bytes(n as u16) + le16_bytes(10) + seq![1u8, 0xFFu8, 0xFFu8] + body + y);
}

/// Whether the reader fits the box of an object to its points: a polyline
/// with points (and no attachment).
pub open spec fn fit_of(o: Object) -> bool {
    o.kind matches ObjectKind::Polyline { points, .. } && points@.len() > 0
}

/// An object the law below covers: any kind the reader knows (not
/// `Unknown`), with a name and texts the code page holds, small enough for
/// the `u16` size of its record.
pub open spec fn plain_object(o: Object) -> bool {
    &&& cp1251::representable(o.name@)
    &&& o.name@.len() <= 20000
    &&& match o.kind {
        ObjectKind::Group { children } => children@.len() <= 20000,
        ObjectKind::Text { .. } => true,
        ObjectKind::Bitmap { .. } => true,
        ObjectKind::Polyline { points, .. } => points@.len() <= 2000,
        ObjectKind::Control { class, caption, .. } => cp1251::representable(class@) && cp1251::representable(caption@)
            && class@.len() <= 10000 && caption@.len() <= 10000,
        _ => false,
    }
}

/// A `f64` field (as its bits) inside bytes reads as written.
proof fn lemma_field64(d: Seq<u8>, pre: Seq<u8>, v: u64, post: Seq<u8>)
    requires
        d =~= pre + le64_bytes(v) + post,
    ensures
        crate::formats::vdr::coord_at(d, pre.len() as int, true) == v,
{
    assert(d == pre + le64_bytes(v) + post);
    law_u64_round_trip(pre, v, post);
}

/// The body of a text object reads back.
#[verifier::spinoff_prover]
#[verifier::rlimit(100)]
proof fn lemma_text_body(x: Seq<u8>, bx: u64, by: u64, bw: u64, bh: u64, t: u16, y: Seq<u8>)
    ensures
        ({
            let b = box_bytes(bx, by, bw, bh) + le16_bytes(t) + zeros(18);
            &&& b.len() == 52
            &&& body_at(x + b + y, x.len() as int, true, true, 23) == Some(
                (KindView::Text { x: bx, y: by, w: bw, h: bh, text: t }, false, Seq::<u8>::empty(), x.len() + 52int),
            )
        }),
{
    let b = box_bytes(bx, by, bw, bh) + le16_bytes(t) + zeros(18);
    let d = x + b + y;
    let p = x.len() as int;
    let e1 = le64_bytes(bx);
    let e2 = le64_bytes(by);
    let e3 = le64_bytes(bw);
    let e4 = le64_bytes(bh);
    let tl = le16_bytes(t) + zeros(18) + y;
    assert(b.len() == 52);
    assert(d =~= x + e1 + (e2 + e3 + e4 + tl));
    lemma_field64(d, x, bx, e2 + e3 + e4 + tl);
    assert(d =~= x + e1 + e2 + (e3 + e4 + tl));
    lemma_field64(d, x + e1, by, e3 + e4 + tl);
    assert(d =~= x + e1 + e2 + e3 + (e4 + tl));
    lemma_field64(d, x + e1 + e2, bw, e4 + tl);
    assert(d =~= x + e1 + e2 + e3 + e4 + tl);
    lemma_field64(d, x + e1 + e2 + e3, bh, tl);
    assert(d =~= x + e1 + e2 + e3 + e4 + le16_bytes(t) + (zeros(18) + y));
    lemma_field16(d, x + e1 + e2 + e3 + e4, t, zeros(18) + y);
    assert(coord_at(d, p, true) == bx);
    assert(coord_at(d, p + 8, true) == by);
    assert(coord_at(d, p + 16, true) == bw);
    assert(coord_at(d, p + 24, true) == bh);
    assert(u16_at(d, p + 32) == t);
    assert(p + 52 <= d.len());
    assert(body_at(d, p, true, true, 23) == Some(
        (KindView::Text { x: bx, y: by, w: bw, h: bh, text: t }, false, Seq::<u8>::empty(), p + 52),
    )) by {
        reveal(body_at);
    }
}

/// The body of a bitmap object reads back.
#[verifier::spinoff_prover]
#[verifier::rlimit(100)]
proof fn lemma_bitmap_body(x: Seq<u8>, bx: u64, by: u64, bw: u64, bh: u64, src: (u64, u64, u64, u64), dib: u16, masked: bool, y: Seq<u8>)
    ensures
        ({
            let b = box_bytes(bx, by, bw, bh) + box_bytes(src.0, src.1, src.2, src.3) + le16_bytes(0) + le16_bytes(dib);
            &&& b.len() == 68
            &&& body_at(x + b + y, x.len() as int, true, true, if masked { 22u16 } else { 21u16 }) == Some(
                (KindView::Bitmap { x: bx, y: by, w: bw, h: bh, src, dib, masked }, false, Seq::<u8>::empty(), x.len() + 68int),
            )
        }),
{
    let b1 = box_bytes(bx, by, bw, bh);
    let b2 = box_bytes(src.0, src.1, src.2, src.3);
    let b = b1 + b2 + le16_bytes(0) + le16_bytes(dib);
    let d = x + b + y;
    let p = x.len() as int;
    let kind: u16 = if masked { 22u16 } else { 21u16 };
    let e = seq![le64_bytes(bx), le64_bytes(by), le64_bytes(bw), le64_bytes(bh), le64_bytes(src.0), le64_bytes(src.1), le64_bytes(src.2), le64_bytes(src.3)];
    let tl = le16_bytes(0) + le16_bytes(dib) + y;
    assert(b.len() == 68);
    assert(d =~= x + e[0] + e[1] + e[2] + e[3] + e[4] + e[5] + e[6] + e[7] + tl);
    lemma_field64(d, x, bx, d.subrange(p + 8, d.len() as int));
    lemma_field64(d, x + e[0], by, d.subrange(p + 16, d.len() as int));
    lemma_field64(d, x + e[0] + e[1], bw, d.subrange(p + 24, d.len() as int));
    lemma_field64(d, x + e[0] + e[1] + e[2], bh, d.subrange(p + 32, d.len() as int));
    lemma_field64(d, x + e[0] + e[1] + e[2] + e[3], src.0, d.subrange(p + 40, d.len() as int));
    lemma_field64(d, x + e[0] + e[1] + e[2] + e[3] + e[4], src.1, d.subrange(p + 48, d.len() as int));
    lemma_field64(d, x + e[0] + e[1] + e[2] + e[3] + e[4] + e[5], src.2, d.subrange(p + 56, d.len() as int));
    lemma_field64(d, x + e[0] + e[1] + e[2] + e[3] + e[4] + e[5] + e[6], src.3, tl);
    lemma_field16(d, x + e[0] + e[1] + e[2] + e[3] + e[4] + e[5] + e[6] + e[7] + le16_bytes(0), dib, y);
    assert(coord_at(d, p, true) == bx);
    assert(coord_at(d, p + 8, true) == by);
    assert(coord_at(d, p + 16, true) == bw);
    assert(coord_at(d, p + 24, true) == bh);
    assert(coord_at(d, p + 32, true) == src.0);
    assert(coord_at(d, p + 40, true) == src.1);
    assert(coord_at(d, p + 48, true) == src.2);
    assert(coord_at(d, p + 56, true) == src.3);
    assert(u16_at(d, p + 66) == dib);
    assert(p + 68 <= d.len());
    assert(body_at(d, p, true, true, kind) == Some(
        (KindView::Bitmap { x: bx, y: by, w: bw, h: bh, src, dib, masked: kind == 22 }, false, Seq::<u8>::empty(), p + 68),
    )) by {
        reveal(body_at);
    }
}

/// Points written one after another read back.
#[verifier::spinoff_prover]
#[verifier::rlimit(100)]
proof fn lemma_points_read(x: Seq<u8>, z: Seq<(u64, u64)>, y: Seq<u8>)
    ensures
        points_bytes(z).len() == 16 * z.len(),
        points_at(x + points_bytes(z) + y, x.len() as int, z.len(), true) == z,
    decreases z.len(),
{
    if z.len() > 0 {
        let n = z.len();
        let z0 = z.drop_last();
        let d = x + points_bytes(z) + y;
        let p = x.len() as int;
        let a = le64_bytes(z.last().0);
        let b = le64_bytes(z.last().1);
        lemma_points_read(x, z0, a + b + y);
        assert(x + points_bytes(z0) + (a + b + y) =~= d);
        let small = points_at(d, p, z0.len(), true);
        assert(small == z0);
        lemma_field64(d, x + points_bytes(z0), z.last().0, b + y);
        assert(x + points_bytes(z0) + a + (b + y) =~= d);
        lemma_field64(d, x + points_bytes(z0) + a, z.last().1, y);
        let big = points_at(d, p, n, true);
        assert(big[n - 1] == (coord_at(d, p + 16 * (n - 1), true), coord_at(d, p + 16 * (n - 1) + 8, true)));
        assert(big[n - 1] == z.last());
        assert forall|k: int| 0 <= k < z0.len() implies big[k] == small[k] by {}
        assert(big =~= small.push(z.last()));
        assert(z0.push(z.last()) =~= z);
    }
}

/// The body of a polyline without an attachment reads back; it fits its
/// points when it has some.
#[verifier::spinoff_prover]
#[verifier::rlimit(100)]
proof fn lemma_polyline_body(
    x: Seq<u8>,
    bx: u64,
    by: u64,
    bw: u64,
    bh: u64,
    pen: u16,
    brush: u16,
    pts: Seq<(u64, u64)>,
    y: Seq<u8>,
)
    requires
        pts.len() <= 2000,
    ensures
        ({
            let b = box_bytes(bx, by, bw, bh) + le16_bytes(pen) + le16_bytes(brush) + le16_bytes(pts.len() as u16)
                + points_bytes(pts) + seq![0u8];
            &&& b.len() == 39 + 16 * pts.len()
            &&& body_at(x + b + y, x.len() as int, true, true, 20) == Some(
                (
                    KindView::Polyline { x: bx, y: by, w: bw, h: bh, pen, brush, points: pts },
                    pts.len() > 0,
                    Seq::<u8>::empty(),
                    (x.len() + 39 + 16 * pts.len()) as int,
                ),
            )
        }),
{
    let n = pts.len();
    let hd = box_bytes(bx, by, bw, bh) + le16_bytes(pen) + le16_bytes(brush) + le16_bytes(n as u16);
    let rest = points_bytes(pts) + seq![0u8] + y;
    let d = x + hd + rest;
    let p = x.len() as int;
    lemma_polyline_head(x, bx, by, bw, bh, pen, brush, n as u16, rest);
    lemma_points_read(x + hd, pts, seq![0u8] + y);
    assert(x + hd + points_bytes(pts) + (seq![0u8] + y) =~= d);
    let b = box_bytes(bx, by, bw, bh) + le16_bytes(pen) + le16_bytes(brush) + le16_bytes(pts.len() as u16)
        + points_bytes(pts) + seq![0u8];
    assert(x + b + y =~= d);
    let r = p + 38 + 16 * n;
    assert(d[r] == 0);
    assert(d.subrange(r + 1, r + 1) =~= Seq::<u8>::empty());
    assert(points_at(d, p + 38, n, true) == pts);
    assert(r + 1 <= d.len());
    assert(body_at(d, p, true, true, 20) == Some(
        (KindView::Polyline { x: bx, y: by, w: bw, h: bh, pen, brush, points: pts }, n > 0, Seq::<u8>::empty(), r + 1),
    )) by {
        reveal(body_at);
    }
}

/// The head of a polyline: its box, pen, brush and count of points.
#[verifier::spinoff_prover]
#[verifier::rlimit(100)]
proof fn lemma_polyline_head(x: Seq<u8>, bx: u64, by: u64, bw: u64, bh: u64, pen: u16, brush: u16, n: u16, rest: Seq<u8>)
    ensures
        ({
            let d = x + box_bytes(bx, by, bw, bh) + le16_bytes(pen) + le16_bytes(brush) + le16_bytes(n) + rest;
            let p = x.len() as int;
            &&& d.len() == p + 38 + rest.len()
            &&& coord_at(d, p, true) == bx
            &&& coord_at(d, p + 8, true) == by
            &&& coord_at(d, p + 16, true) == bw
            &&& coord_at(d, p + 24, true) == bh
            &&& u16_at(d, p + 32) == pen
            &&& u16_at(d, p + 34) == brush
            &&& u16_at(d, p + 36) == n
        }),
{
    let d = x + box_bytes(bx, by, bw, bh) + le16_bytes(pen) + le16_bytes(brush) + le16_bytes(n) + rest;
    let e1 = le64_bytes(bx);
    let e2 = le64_bytes(by);
    let e3 = le64_bytes(bw);
    let e4 = le64_bytes(bh);
    let tl = le16_bytes(pen) + le16_bytes(brush) + le16_bytes(n) + rest;
    assert(d =~= x + e1 + (e2 + e3 + e4 + tl));
    lemma_field64(d, x, bx, e2 + e3 + e4 + tl);
    assert(d =~= x + e1 + e2 + (e3 + e4 + tl));
    lemma_field64(d, x + e1, by, e3 + e4 + tl);
    assert(d =~= x + e1 + e2 + e3 + (e4 + tl));
    lemma_field64(d, x + e1 + e2, bw, e4 + tl);
    assert(d =~= x + e1 + e2 + e3 + e4 + tl);
    lemma_field64(d, x + e1 + e2 + e3, bh, tl);
    assert(d =~= x + e1 + e2 + e3 + e4 + le16_bytes(pen) + (le16_bytes(brush) + le16_bytes(n) + rest));
    lemma_field16(d, x + e1 + e2 + e3 + e4, pen, le16_bytes(brush) + le16_bytes(n) + rest);
    assert(d =~= x + e1 + e2 + e3 + e4 + le16_bytes(pen) + le16_bytes(brush) + (le16_bytes(n) + rest));
    lemma_field16(d, x + e1 + e2 + e3 + e4 + le16_bytes(pen), brush, le16_bytes(n) + rest);
    assert(d =~= x + e1 + e2 + e3 + e4 + le16_bytes(pen) + le16_bytes(brush) + le16_bytes(n) + rest);
    lemma_field16(d, x + e1 + e2 + e3 + e4 + le16_bytes(pen) + le16_bytes(brush), n, rest);
}

/// The body of a control reads back.
#[verifier::spinoff_prover]
#[verifier::rlimit(100)]
proof fn lemma_control_body(
    x: Seq<u8>,
    bx: u64,
    by: u64,
    bw: u64,
    bh: u64,
    class: Seq<char>,
    caption: Seq<char>,
    style: u32,
    y: Seq<u8>,
)
    requires
        cp1251::representable(class),
        cp1251::representable(caption),
        class.len() <= 10000,
        caption.len() <= 10000,
    ensures
        ({
            let b = box_bytes(bx, by, bw, bh) + string_bytes(class) + string_bytes(caption) + le16_bytes(0)
                + le32_bytes(style) + zeros(10);
            &&& b.len() == 52 + class.len() + caption.len()
            &&& body_at(x + b + y, x.len() as int, true, true, 26) == Some(
                (
                    KindView::Control { x: bx, y: by, w: bw, h: bh, class, caption, style },
                    false,
                    Seq::<u8>::empty(),
                    (x.len() + 52 + class.len() + caption.len()) as int,
                ),
            )
        }),
{
    let bb = box_bytes(bx, by, bw, bh);
    let s1 = string_bytes(class);
    let s2 = string_bytes(caption);
    let tl = le16_bytes(0) + le32_bytes(style) + zeros(10);
    let d = x + bb + s1 + s2 + tl + y;
    let p = x.len() as int;
    assert(cp1251::encoded(class).take(class.len() as int) =~= cp1251::encoded(class));
    assert(cp1251::encoded(caption).take(caption.len() as int) =~= cp1251::encoded(caption));
    assert(s1.len() == 2 + class.len());
    assert(s2.len() == 2 + caption.len());
    let q = p + 32;
    let q1 = q + 2 + class.len();
    let q2 = q1 + 2 + caption.len();
    assert(d =~= x + bb + (s1 + s2 + tl + y));
    lemma_box_read(x, bx, by, bw, bh, s1 + s2 + tl + y);
    assert(d =~= (x + bb) + s1 + (s2 + tl + y));
    law_string_round_trip(x + bb, class, s2 + tl + y);
    assert(d =~= (x + bb + s1) + s2 + (tl + y));
    law_string_round_trip(x + bb + s1, caption, tl + y);
    assert(d =~= (x + bb + s1 + s2 + le16_bytes(0)) + le32_bytes(style) + (zeros(10) + y));
    lemma_field32(d, x + bb + s1 + s2 + le16_bytes(0), style, zeros(10) + y);
    assert(string_at(d, q) == Some((class, q1)));
    assert(string_at(d, q1) == Some((caption, q2)));
    assert(u32_at(d, q2 + 2) == style);
    assert(q2 + 16 <= d.len());
    let b = box_bytes(bx, by, bw, bh) + string_bytes(class) + string_bytes(caption) + le16_bytes(0)
        + le32_bytes(style) + zeros(10);
    assert(zeros(10).len() == 10);
    assert(x + b + y =~= d);
    assert(body_at(d, p, true, true, 26) == Some(
        (KindView::Control { x: bx, y: by, w: bw, h: bh, class, caption, style }, false, Seq::<u8>::empty(), q2 + 16),
    )) by {
        reveal(body_at);
    }
}

/// A box of four `f64` fields reads back.
#[verifier::spinoff_prover]
#[verifier::rlimit(100)]
proof fn lemma_box_read(x: Seq<u8>, bx: u64, by: u64, bw: u64, bh: u64, rest: Seq<u8>)
    ensures
        ({
            let d = x + box_bytes(bx, by, bw, bh) + rest;
            let p = x.len() as int;
            &&& d.len() == p + 32 + rest.len()
            &&& coord_at(d, p, true) == bx
            &&& coord_at(d, p + 8, true) == by
            &&& coord_at(d, p + 16, true) == bw
            &&& coord_at(d, p + 24, true) == bh
        }),
{
    let d = x + box_bytes(bx, by, bw, bh) + rest;
    let e1 = le64_bytes(bx);
    let e2 = le64_bytes(by);
    let e3 = le64_bytes(bw);
    let e4 = le64_bytes(bh);
    assert(d =~= x + e1 + (e2 + e3 + e4 + rest));
    lemma_field64(d, x, bx, e2 + e3 + e4 + rest);
    assert(d =~= x + e1 + e2 + (e3 + e4 + rest));
    lemma_field64(d, x + e1, by, e3 + e4 + rest);
    assert(d =~= x + e1 + e2 + e3 + (e4 + rest));
    lemma_field64(d, x + e1 + e2, bw, e4 + rest);
    assert(d =~= x + e1 + e2 + e3 + e4 + rest);
    lemma_field64(d, x + e1 + e2 + e3, bh, rest);
}

/// The body of a group reads back.
proof fn lemma_group_body(x: Seq<u8>, ch: Seq<u16>, y: Seq<u8>, kind: u16)
    requires
        ch.len() <= 20000,
        3 <= kind <= 5,
    ensures
        ({
            let n = ch.len();
            let b = le16_bytes(CHUNK_ZORDER) + le32_bytes((14 + (n as u32) * 2) as u32) + le16_bytes(n as u16)
                + le16_bytes(n as u16) + le16_bytes(10) + u16s_bytes(ch);
            &&& b.len() == 12 + 2 * n
            &&& body_at(x + b + y, x.len() as int, true, true, kind) == Some(
                (KindView::Group { children: ch }, false, Seq::<u8>::empty(), (x.len() + 12 + 2 * n) as int),
            )
        }),
{
    let n = ch.len();
    let h = le16_bytes(CHUNK_ZORDER) + le32_bytes((14 + (n as u32) * 2) as u32) + le16_bytes(n as u16)
        + le16_bytes(n as u16) + le16_bytes(10);
    let b = h + u16s_bytes(ch);
    let d = x + b + y;
    let p = x.len() as int;
    lemma_u16s_read(x + h, ch, y);
    assert(d =~= x + h + u16s_bytes(ch) + y);
    assert(h.len() == 12);
    lemma_field16(d, x, CHUNK_ZORDER, d.subrange(p + 2, d.len() as int));
    lemma_field16(d, x + le16_bytes(CHUNK_ZORDER) + le32_bytes((14 + (n as u32) * 2) as u32), n as u16, d.subrange(p + 8, d.len() as int));
    assert(u16_at(d, p) == CHUNK_ZORDER);
    assert(u16_at(d, p + 6) as nat == n);
    assert(u16s_at(d, p + 12, n) == ch);
    assert(group_at(d, p, true) == Some((ch, p + 12 + 2 * n)));
    assert(body_at(d, p, true, true, kind) == Some(
        (KindView::Group { children: ch }, false, Seq::<u8>::empty(), p + 12 + 2 * n),
    )) by {
        reveal(body_at);
    }
}

/// The name block of an object reads back as the name, and the blocks end
/// there.
proof fn lemma_name_blocks(x: Seq<u8>, name: Seq<char>, y: Seq<u8>, handle: u16, v: PictureView)
    requires
        cp1251::representable(name),
        name.len() <= 20000,
    ensures
        blocks_from(x + name_block(name) + y, x.len() as int, (x.len() + name_block(name).len()) as int, handle, Seq::empty(), v)
            == Some((name, v)),
{
    reveal_with_fuel(blocks_from, 2);
    if name.len() > 0 {
        let n = ((name.len() as u32) + 6) as u32;
        let d = x + name_block(name) + y;
        assert(d =~= x + le16_bytes(0xCD) + le32_bytes(n) + (cp1251::encoded(name) + y));
        lemma_field16(d, x, 0xCD, le32_bytes(n) + (cp1251::encoded(name) + y));
        lemma_field32(d, x + le16_bytes(0xCD), n, cp1251::encoded(name) + y);
        assert(d.subrange(x.len() + 6int, (x.len() + 6 + name.len()) as int) =~= cp1251::encoded(name));
        cp1251::law_decode_encode(name);
    } else {
        assert(name =~= Seq::<char>::empty());
    }
}

/// The kind part of a plain object reads back as its kind.
#[verifier::spinoff_prover]
#[verifier::rlimit(100)]
proof fn lemma_kind_read(x: Seq<u8>, pic: Picture, o: Object, y: Seq<u8>)
    requires
        plain_object(o),
        pic.arrows@.len() == 0,
    ensures
        kind_bytes(pic, o).len() <= 40012,
        body_at(x + kind_bytes(pic, o) + y, x.len() as int, true, true, kind_code(o.kind)) == Some(
            (kind_view(o.kind), fit_of(o), Seq::<u8>::empty(), (x.len() + kind_bytes(pic, o).len()) as int),
        ),
{
    match o.kind {
        ObjectKind::Group { children } => {
            lemma_group_body(x, children@, y, 3);
        },
        ObjectKind::Text { x: bx, y: by, w: bw, h: bh, text } => {
            lemma_text_body(x, bx, by, bw, bh, text, y);
        },
        ObjectKind::Bitmap { x: bx, y: by, w: bw, h: bh, src, dib, masked } => {
            lemma_bitmap_body(x, bx, by, bw, bh, src, dib, masked, y);
        },
        ObjectKind::Polyline { x: bx, y: by, w: bw, h: bh, pen, brush, points } => {
            assert(first_of(pic.arrows@, o.handle) == None::<Vec<u8>>);
            assert(attachment_bytes(first_of(pic.arrows@, o.handle)) =~= seq![0u8]);
            lemma_polyline_body(x, bx, by, bw, bh, pen, brush, points@, y);
        },
        ObjectKind::Control { x: bx, y: by, w: bw, h: bh, class, caption, style } => {
            lemma_control_body(x, bx, by, bw, bh, class@, caption@, style, y);
        },
        _ => {},
    }
}

/// The record of a plain object (of a picture without hyperlinks, object
/// data or attachments) reads back as the object.
#[verifier::spinoff_prover]
#[verifier::rlimit(100)]
proof fn lemma_object_record(x: Seq<u8>, pic: Picture, o: Object, y: Seq<u8>, v: PictureView)
    requires
        plain_object(o),
        pic.hypers@.len() == 0,
        pic.object_data@.len() == 0,
        pic.arrows@.len() == 0,
    ensures
        record_bytes(kind_code(o.kind), false, object_body(pic, o)).len() <= 60100,
        item_at(x + record_bytes(kind_code(o.kind), false, object_body(pic, o)) + y, x.len() as int, true, true, CHUNK_OBJECTS, v)
            == Some((with_object(v, object_view(o), fit_of(o)), (x.len() + record_bytes(kind_code(o.kind), false, object_body(pic, o)).len()) as int)),
{
    let code = kind_code(o.kind);
    let kb = kind_bytes(pic, o);
    let nb = name_block(o.name@);
    assert(data_block(pic, o.handle) =~= Seq::<u8>::empty());
    let body = object_body(pic, o);
    assert(body =~= le16_bytes(0) + le16_bytes(o.handle) + le16_bytes(o.flags) + kb + nb);
    assert(nb.len() <= 20006);
    assert(kb.len() <= 40012) by { lemma_kind_read(x, pic, o, y); }
    let size = ((4 + body.len()) as u32) as u16;
    let rec = record_bytes(code, false, body);
    let d = x + rec + y;
    let a = x.len() as int;
    assert(rec =~= le16_bytes(code) + le16_bytes(size) + body);
    let pre6 = x + le16_bytes(code) + le16_bytes(size) + le16_bytes(0) + le16_bytes(o.handle) + le16_bytes(o.flags);
    assert(d =~= pre6 + kb + (nb + y));
    lemma_kind_read(pre6, pic, o, nb + y);
    assert(body.len() <= 60100 - 4);
    assert(size == 4 + body.len());
    lemma_field16(d, x, code, d.subrange(a + 2, d.len() as int));
    lemma_field16(d, x + le16_bytes(code), size, d.subrange(a + 4, d.len() as int));
    lemma_field16(d, x + le16_bytes(code) + le16_bytes(size) + le16_bytes(0), o.handle, d.subrange(a + 8, d.len() as int));
    lemma_field16(d, x + le16_bytes(code) + le16_bytes(size) + le16_bytes(0) + le16_bytes(o.handle), o.flags, d.subrange(a + 10, d.len() as int));
    lemma_name_blocks(pre6 + kb, o.name@, y, o.handle, v);
    assert(d =~= pre6 + kb + nb + y);
    let q = a + 10;
    let q2 = q + kb.len();
    let end = a + 4 + body.len();
    assert(end == q2 + nb.len());
    assert(object_head(d, a + 4, true) == Some((o.handle, o.flags, Seq::<char>::empty(), q)));
    assert(body_at(d, q, true, true, code) == Some((kind_view(o.kind), fit_of(o), Seq::<u8>::empty(), q2)));
    assert(with_arrow(v, o.handle, Seq::<u8>::empty()) == v);
    assert(blocks_from(d, q2, end, o.handle, Seq::empty(), v) == Some((o.name@, v)));
    assert(object_item(d, a + 4, true, true, code, end, v) == Some((with_object(v, object_view(o), fit_of(o)), end))) by {
        reveal(object_item);
    }
    assert(code != 103 && code != 104);
    assert(item_at(d, a, true, true, CHUNK_OBJECTS, v) == object_item(d, a + 4, true, true, code, end, v)) by {
        reveal(item_at);
    }
}

/// Records of plain objects written one after another read back.
#[verifier::spinoff_prover]
#[verifier::rlimit(100)]
proof fn lemma_object_records(x: Seq<u8>, pic: Picture, os: Seq<Object>, y: Seq<u8>, v: PictureView)
    requires
        forall|i: int| 0 <= i < os.len() ==> plain_object(#[trigger] os[i]),
        pic.hypers@.len() == 0,
        pic.object_data@.len() == 0,
        pic.arrows@.len() == 0,
    ensures
        records_from(x + objects_bytes(pic, os) + y, x.len() as int, os.len(), true, true, CHUNK_OBJECTS, v) == Some(
            (
                PictureView {
                    objects: v.objects + os.map_values(|o: Object| object_view(o)),
                    fit: v.fit + os.map_values(|o: Object| fit_of(o)),
                    ..v
                },
                (x.len() + objects_bytes(pic, os).len()) as int,
            ),
        ),
    decreases os.len(),
{
    reveal(records_from);
    let m = os.map_values(|o: Object| object_view(o));
    let f = os.map_values(|o: Object| fit_of(o));
    if os.len() == 0 {
        assert(v.objects + m =~= v.objects);
        assert(v.fit + f =~= v.fit);
        assert((PictureView { objects: v.objects + m, fit: v.fit + f, ..v }) == v);
    } else {
        let s0 = os.drop_last();
        let o = os.last();
        let rec = record_bytes(kind_code(o.kind), false, object_body(pic, o));
        let d = x + objects_bytes(pic, os) + y;
        assert forall|i: int| 0 <= i < s0.len() implies plain_object(#[trigger] s0[i]) by {
            assert(s0[i] == os[i]);
        }
        lemma_object_records(x, pic, s0, rec + y, v);
        assert(x + objects_bytes(pic, s0) + (rec + y) =~= d);
        lemma_records_split(d, x.len() as int, s0.len(), 1, CHUNK_OBJECTS, v);
        let m0 = s0.map_values(|o: Object| object_view(o));
        let f0 = s0.map_values(|o: Object| fit_of(o));
        let v1 = PictureView { objects: v.objects + m0, fit: v.fit + f0, ..v };
        lemma_object_record(x + objects_bytes(pic, s0), pic, o, y, v1);
        assert(x + objects_bytes(pic, s0) + rec + y =~= d);
        let p1 = (x.len() + objects_bytes(pic, s0).len()) as int;
        assert(records_from(d, x.len() as int, s0.len(), true, true, CHUNK_OBJECTS, v) == Some((v1, p1)));
        lemma_records_one(d, p1, CHUNK_OBJECTS, v1);
        assert(v1.objects.push(object_view(o)) =~= v.objects + m);
        assert(v1.fit.push(fit_of(o)) =~= v.fit + f);
        assert(with_object(v1, object_view(o), fit_of(o)) == PictureView { objects: v.objects + m, fit: v.fit + f, ..v });
        assert((s0.len() + 1) as nat == os.len());
    }
}

/// The objects' chunk inside bytes reads back as the objects.
#[verifier::spinoff_prover]
proof fn lemma_objects_chunk(d: Seq<u8>, pre: Seq<u8>, pic: Picture, post: Seq<u8>, v: PictureView)
    requires
        d =~= pre + chunk_bytes(CHUNK_OBJECTS, pic.objects@.len(), objects_bytes(pic, pic.objects@)) + post,
        0 < pic.objects@.len() <= 65535,
        15 + objects_bytes(pic, pic.objects@).len() <= u32::MAX,
        forall|i: int| 0 <= i < pic.objects@.len() ==> plain_object(#[trigger] pic.objects@[i]),
        pic.hypers@.len() == 0,
        pic.object_data@.len() == 0,
        pic.arrows@.len() == 0,
    ensures
        u16_at(d, pre.len() as int) == CHUNK_OBJECTS,
        chunk_at(d, pre.len() as int, true, true, CHUNK_OBJECTS, v) == Some(
            (
                PictureView {
                    objects: v.objects + pic.objects@.map_values(|o: Object| object_view(o)),
                    fit: v.fit + pic.objects@.map_values(|o: Object| fit_of(o)),
                    ..v
                },
                (pre.len() + chunk_bytes(CHUNK_OBJECTS, pic.objects@.len(), objects_bytes(pic, pic.objects@)).len()) as int,
            ),
        ),
{
    let os = pic.objects@;
    let c = chunk_bytes(CHUNK_OBJECTS, os.len(), objects_bytes(pic, os));
    lemma_chunk_split(CHUNK_OBJECTS, os.len(), objects_bytes(pic, os));
    lemma_object_records(pre + c.subrange(0, 15), pic, os, post, v);
    assert(pre + c.subrange(0, 15) + objects_bytes(pic, os) + post =~= d);
    lemma_tool_chunk(pre, CHUNK_OBJECTS, os.len(), objects_bytes(pic, os), post, v);
    assert(d.subrange(pre.len() as int, pre.len() + 2int) =~= c.subrange(0, 2));
}

/// What a written picture with only a z-order, objects, pens, brushes,
/// fonts, strings, texts and sheet reads back as; a polyline with points is
/// marked to have its box fitted.
pub open spec fn written_view(pic: Picture) -> PictureView {
    PictureView {
        zorder: pic.zorder@,
        objects: pic.objects@.map_values(|o: Object| object_view(o)),
        fit: pic.objects@.map_values(|o: Object| fit_of(o)),
        pens: pic.pens@,
        brushes: pic.brushes@,
        fonts: pic.fonts@.map_values(|f: Font| font_view(f)),
        strings: pic.strings@.map_values(|s: StringTool| (s.handle, s.text@)),
        texts: pic.texts@.map_values(|t: TextTool| (t.handle, t.parts@)),
        page: vec_opt(pic.page),
        ..empty_view(0x0300, pic.origin, pic.scale, pic.window)
    }
}

/// The pictures the law below is stated for: objects of the kinds the
/// reader knows (see `plain_object`), with no hyperlinks, object data or
/// attachments; fonts of `plain_font`; texts of at most 5000 parts; a
/// sheet of the 34 bytes the reader takes; no rasters; at most 65535
/// handles, objects, pens, brushes, fonts, strings and texts, each string
/// of at most 65000 characters the code page holds; the whole fits the size
/// fields.
pub open spec fn plain_picture(pic: Picture) -> bool {
    &&& pic.objects@.len() <= 65535
    &&& forall|i: int| 0 <= i < pic.objects@.len() ==> plain_object(#[trigger] pic.objects@[i])
    &&& pic.hypers@.len() == 0
    &&& pic.object_data@.len() == 0
    &&& pic.arrows@.len() == 0
    &&& pic.brushes@.len() <= 65535
    &&& pic.dibs@.len() == 0
    &&& pic.fonts@.len() <= 65535
    &&& forall|i: int| 0 <= i < pic.fonts@.len() ==> plain_font(#[trigger] pic.fonts@[i])
    &&& pic.texts@.len() <= 65535
    &&& forall|i: int| 0 <= i < pic.texts@.len() ==> (#[trigger] pic.texts@[i]).parts@.len() <= 5000
    &&& (pic.page matches Some(p) ==> p@.len() == 34)
    &&& pic.zorder@.len() <= 65535
    &&& pic.pens@.len() <= 65535
    &&& pic.strings@.len() <= 65535
    &&& forall|i: int|
        0 <= i < pic.strings@.len() ==> cp1251::representable((#[trigger] pic.strings@[i]).text@)
            && pic.strings@[i].text@.len() <= 65000
    &&& picture_bytes(pic).len() <= u32::MAX
}

/// A chunk read whole, when it takes the reading forward and stays in the
/// bytes, hands on to the chunks after it.
proof fn lemma_chunks_step(d: Seq<u8>, p: int, id: u16, v: PictureView, v1: PictureView, p1: int)
    requires
        0 <= p,
        p + 2 <= d.len(),
        u16_at(d, p) == id,
        1000 <= id <= 1030,
        chunk_at(d, p, true, true, id, v) == Some((v1, p1)),
        p < p1 <= d.len(),
    ensures
        chunks_from(d, p, true, true, None, v) == chunks_from(d, p1, true, true, None, v1),
{
    reveal(chunks_from);
}

/// A chunk of tools: its head of fifteen bytes, then its records.
proof fn lemma_chunk_split(id: u16, n: nat, body: Seq<u8>)
    requires
        n > 0,
        id != CHUNK_ZORDER,
    ensures
        chunk_bytes(id, n, body).len() == 15 + body.len(),
        chunk_bytes(id, n, body) =~= chunk_bytes(id, n, body).subrange(0, 15) + body,
        u16_at(chunk_bytes(id, n, body), 0) == id,
{
    let c = chunk_bytes(id, n, body);
    law_u16_round_trip(Seq::empty(), id, c.subrange(2, c.len() as int));
    assert(Seq::<u8>::empty() + le16_bytes(id) + c.subrange(2, c.len() as int) =~= c);
}

/// The pens' chunk inside bytes reads back as the pens.
#[verifier::spinoff_prover]
proof fn lemma_pens_chunk(d: Seq<u8>, pre: Seq<u8>, pens: Seq<Pen>, post: Seq<u8>, v: PictureView)
    requires
        d =~= pre + chunk_bytes(1004, pens.len(), pens_bytes(pens)) + post,
        0 < pens.len() <= 65535,
        15 + pens_bytes(pens).len() <= u32::MAX,
    ensures
        u16_at(d, pre.len() as int) == 1004,
        chunk_at(d, pre.len() as int, true, true, 1004, v) == Some(
            (PictureView { pens: v.pens + pens, ..v }, (pre.len() + chunk_bytes(1004, pens.len(), pens_bytes(pens)).len()) as int),
        ),
{
    let c = chunk_bytes(1004, pens.len(), pens_bytes(pens));
    lemma_chunk_split(1004, pens.len(), pens_bytes(pens));
    lemma_pen_records(pre + c.subrange(0, 15), pens, post, v);
    assert(pre + c.subrange(0, 15) + pens_bytes(pens) + post =~= d);
    lemma_tool_chunk(pre, 1004, pens.len(), pens_bytes(pens), post, v);
    assert(d.subrange(pre.len() as int, pre.len() + 2int) =~= c.subrange(0, 2));
}

/// The strings' chunk inside bytes reads back as the strings.
#[verifier::spinoff_prover]
proof fn lemma_strings_chunk(d: Seq<u8>, pre: Seq<u8>, ss: Seq<StringTool>, post: Seq<u8>, v: PictureView)
    requires
        d =~= pre + chunk_bytes(1009, ss.len(), strings_bytes(ss)) + post,
        0 < ss.len() <= 65535,
        15 + strings_bytes(ss).len() <= u32::MAX,
        forall|i: int| 0 <= i < ss.len() ==> cp1251::representable((#[trigger] ss[i]).text@) && ss[i].text@.len() <= 65000,
    ensures
        u16_at(d, pre.len() as int) == 1009,
        chunk_at(d, pre.len() as int, true, true, 1009, v) == Some(
            (
                PictureView { strings: v.strings + ss.map_values(|s: StringTool| (s.handle, s.text@)), ..v },
                (pre.len() + chunk_bytes(1009, ss.len(), strings_bytes(ss)).len()) as int,
            ),
        ),
{
    let c = chunk_bytes(1009, ss.len(), strings_bytes(ss));
    lemma_chunk_split(1009, ss.len(), strings_bytes(ss));
    lemma_string_records(pre + c.subrange(0, 15), ss, post, v);
    assert(pre + c.subrange(0, 15) + strings_bytes(ss) + post =~= d);
    lemma_tool_chunk(pre, 1009, ss.len(), strings_bytes(ss), post, v);
    assert(d.subrange(pre.len() as int, pre.len() + 2int) =~= c.subrange(0, 2));
}

/// Bytes after a head, in eight parts.
proof fn lemma_parts_joined(h: Seq<u8>, a: Seq<u8>, b: Seq<u8>, c: Seq<u8>, d: Seq<u8>, e: Seq<u8>, f: Seq<u8>, g: Seq<u8>, k: Seq<u8>)
    ensures
        h + (a + b + c + d + e + f + g + k) == h + a + b + c + d + e + f + g + k,
        h + a + b + (c + d + e + f + g + k) == h + a + b + c + d + e + f + g + k,
{
    assert(h + (a + b + c + d + e + f + g + k) =~= h + a + b + c + d + e + f + g + k);
    assert(h + a + b + (c + d + e + f + g + k) =~= h + a + b + c + d + e + f + g + k);
}

/// The chunks of a picture with no rasters: the z-order, the objects, the
/// pens, the brushes, the fonts, the strings, the texts and the sheet.
#[verifier::spinoff_prover]
#[verifier::rlimit(100)]
proof fn lemma_plain_chunks(pic: Picture)
    requires
        pic.dibs@.len() == 0,
    ensures
        chunks_bytes(pic) == chunk_bytes(CHUNK_ZORDER, pic.zorder@.len(), u16s_bytes(pic.zorder@)) + chunk_bytes(
            CHUNK_OBJECTS,
            pic.objects@.len(),
            objects_bytes(pic, pic.objects@),
        ) + chunk_bytes(1004, pic.pens@.len(), pens_bytes(pic.pens@)) + chunk_bytes(
            1005,
            pic.brushes@.len(),
            brushes_bytes(pic.brushes@),
        ) + chunk_bytes(1008, pic.fonts@.len(), fonts_bytes(pic.fonts@)) + chunk_bytes(
            1009,
            pic.strings@.len(),
            strings_bytes(pic.strings@),
        ) + chunk_bytes(1010, pic.texts@.len(), texts_bytes(pic.texts@)) + page_bytes(pic.page),
{
    let zc = chunk_bytes(CHUNK_ZORDER, pic.zorder@.len(), u16s_bytes(pic.zorder@));
    let oc = chunk_bytes(CHUNK_OBJECTS, pic.objects@.len(), objects_bytes(pic, pic.objects@));
    let pc = chunk_bytes(1004, pic.pens@.len(), pens_bytes(pic.pens@));
    let bc = chunk_bytes(1005, pic.brushes@.len(), brushes_bytes(pic.brushes@));
    let fc = chunk_bytes(1008, pic.fonts@.len(), fonts_bytes(pic.fonts@));
    let sc = chunk_bytes(1009, pic.strings@.len(), strings_bytes(pic.strings@));
    let tc = chunk_bytes(1010, pic.texts@.len(), texts_bytes(pic.texts@));
    assert(front_chunks(pic) == zc + oc) by {
        reveal(front_chunks);
    }
    assert(dibs_of(pic.dibs@, false) =~= Seq::<crate::formats::vdr::Dib>::empty());
    assert(dibs_of(pic.dibs@, true) =~= Seq::<crate::formats::vdr::Dib>::empty());
    assert(paint_chunks(pic) =~= pc + bc) by {
        reveal(paint_chunks);
    }
    assert(text_chunks(pic) =~= fc + sc + tc + page_bytes(pic.page)) by {
        reveal(text_chunks);
    }
    assert(tool_chunks(pic) =~= pc + bc + fc + sc + tc + page_bytes(pic.page)) by {
        reveal(tool_chunks);
    }
    assert(chunks_bytes(pic) =~= zc + oc + pc + bc + fc + sc + tc + page_bytes(pic.page)) by {
        reveal(chunks_bytes);
    }
}

/// The bytes of a picture: its head of seventy bytes, then its chunks.
proof fn lemma_head_then_chunks(pic: Picture)
    ensures
        picture_bytes(pic) == picture_bytes(pic).subrange(0, 70) + chunks_bytes(pic),
{
    let d = picture_bytes(pic);
    let rest = chunks_bytes(pic);
    let pre = d.subrange(0, 70);
    assert(d.len() == 70 + rest.len());
    assert(d.subrange(70, d.len() as int) =~= rest);
    assert(d =~= pre + rest);
}

/// Bytes whose head is that of the format 3.0, as `picture_of` reads them.
#[verifier::spinoff_prover]
proof fn lemma_head_30(d: Seq<u8>, origin: (u64, u64), scale: (u64, u64), window: (u64, u64))
    requires
        d.len() >= 70,
        u16_at(d, 2) == 0x0300,
        (coord_at(d, 12, true), coord_at(d, 20, true)) == origin,
        (coord_at(d, 28, true), coord_at(d, 36, true)) == scale,
        (coord_at(d, 44, true), coord_at(d, 52, true)) == window,
    ensures
        picture_of(d, 0) == match chunks_from(d, 70, true, true, None, empty_view(0x0300, origin, scale, window)) {
            Some((v, _)) => Some(v),
            None => None,
        },
{
    reveal(picture_of);
    assert(window_at(d, 0) == 12);
    assert(coord_step(0x0300) == 8);
    assert(chunks_start(d, 0) == Some(70int));
}

/// The head of a written picture as `picture_of` reads it.
#[verifier::spinoff_prover]
proof fn lemma_plain_head(pic: Picture)
    ensures
        picture_of(picture_bytes(pic), 0) == match chunks_from(picture_bytes(pic), 70, true, true, None, empty_view(0x0300, pic.origin, pic.scale, pic.window)) {
            Some((v, _)) => Some(v),
            None => None,
        },
{
    let d = picture_bytes(pic);
    law_picture_head(pic);
    law_picture_window_round_trip(pic);
    assert(d.len() >= 70);
    lemma_head_30(d, pic.origin, pic.scale, pic.window);
}

/// The chunks of the pens, brushes, fonts, strings, texts and sheet of a
/// plain picture, at the end of bytes, read back as them.
#[verifier::spinoff_prover]
#[verifier::rlimit(100)]
proof fn lemma_tools_read(d: Seq<u8>, pre: Seq<u8>, pic: Picture, v: PictureView)
    requires
        plain_picture(pic),
        d == pre + chunk_bytes(1004, pic.pens@.len(), pens_bytes(pic.pens@)) + chunk_bytes(
            1005,
            pic.brushes@.len(),
            brushes_bytes(pic.brushes@),
        ) + chunk_bytes(1008, pic.fonts@.len(), fonts_bytes(pic.fonts@)) + chunk_bytes(
            1009,
            pic.strings@.len(),
            strings_bytes(pic.strings@),
        ) + chunk_bytes(1010, pic.texts@.len(), texts_bytes(pic.texts@)) + page_bytes(pic.page),
        d.len() <= u32::MAX,
    ensures
        chunks_from(d, pre.len() as int, true, true, None, v) == Some(
            (
                PictureView {
                    pens: v.pens + pic.pens@,
                    brushes: v.brushes + pic.brushes@,
                    fonts: v.fonts + pic.fonts@.map_values(|f: Font| font_view(f)),
                    strings: v.strings + pic.strings@.map_values(|s: StringTool| (s.handle, s.text@)),
                    texts: v.texts + pic.texts@.map_values(|t: TextTool| (t.handle, t.parts@)),
                    page: match pic.page {
                        Some(p) => Some(p@),
                        None => v.page,
                    },
                    ..v
                },
                d.len() as int,
            ),
        ),
{
    let pc = chunk_bytes(1004, pic.pens@.len(), pens_bytes(pic.pens@));
    let bc = chunk_bytes(1005, pic.brushes@.len(), brushes_bytes(pic.brushes@));
    let fc = chunk_bytes(1008, pic.fonts@.len(), fonts_bytes(pic.fonts@));
    let sc = chunk_bytes(1009, pic.strings@.len(), strings_bytes(pic.strings@));
    let tc = chunk_bytes(1010, pic.texts@.len(), texts_bytes(pic.texts@));
    let gc = page_bytes(pic.page);
    let n = d.len() as int;
    let p1b = pre.len() as int;
    // the pens
    let np = pic.pens@.len();
    let v2 = PictureView { pens: v.pens + pic.pens@, ..v };
    let p2 = p1b + pc.len() as int;
    if np > 0 {
        lemma_chunk_split(1004, np, pens_bytes(pic.pens@));
        assert(d =~= pre + pc + (bc + fc + sc + tc + gc));
        lemma_pens_chunk(d, pre, pic.pens@, bc + fc + sc + tc + gc, v);
        lemma_chunks_step(d, p1b, 1004, v, v2, p2);
    } else {
        assert(v.pens + pic.pens@ =~= v.pens);
        assert(v2 == v);
    }
    // the brushes
    let nb = pic.brushes@.len();
    let v2b = PictureView { brushes: v2.brushes + pic.brushes@, ..v2 };
    let p2b = p2 + bc.len() as int;
    if nb > 0 {
        lemma_chunk_split(1005, nb, brushes_bytes(pic.brushes@));
        assert(d =~= pre + pc + bc + (fc + sc + tc + gc));
        lemma_brushes_chunk(d, pre + pc, pic.brushes@, fc + sc + tc + gc, v2);
        lemma_chunks_step(d, p2, 1005, v2, v2b, p2b);
    } else {
        assert(v2.brushes + pic.brushes@ =~= v2.brushes);
        assert(v2b == v2);
    }
    // the fonts
    let nf = pic.fonts@.len();
    let fm = pic.fonts@.map_values(|f: Font| font_view(f));
    let v2c = PictureView { fonts: v2b.fonts + fm, ..v2b };
    let p2c = p2b + fc.len() as int;
    if nf > 0 {
        lemma_chunk_split(1008, nf, fonts_bytes(pic.fonts@));
        assert(d =~= pre + pc + bc + fc + (sc + tc + gc));
        lemma_fonts_chunk(d, pre + pc + bc, pic.fonts@, sc + tc + gc, v2b);
        lemma_chunks_step(d, p2b, 1008, v2b, v2c, p2c);
    } else {
        assert(fm =~= Seq::empty());
        assert(v2b.fonts + fm =~= v2b.fonts);
        assert(v2c == v2b);
    }
    // the strings
    let ns = pic.strings@.len();
    let m = pic.strings@.map_values(|s: StringTool| (s.handle, s.text@));
    let v3 = PictureView { strings: v2c.strings + m, ..v2c };
    let p3 = p2c + sc.len() as int;
    if ns > 0 {
        lemma_chunk_split(1009, ns, strings_bytes(pic.strings@));
        assert(d =~= pre + pc + bc + fc + sc + (tc + gc));
        lemma_strings_chunk(d, pre + pc + bc + fc, pic.strings@, tc + gc, v2c);
        lemma_chunks_step(d, p2c, 1009, v2c, v3, p3);
    } else {
        assert(m =~= Seq::empty());
        assert(v2c.strings + m =~= v2c.strings);
        assert(v3 == v2c);
    }
    // the texts and the sheet
    assert(d == pre + pc + bc + fc + sc + tc + gc);
    lemma_last_read(d, pre + pc + bc + fc + sc, pic, v3);
    assert(v3.page == v.page);
}

/// The chunks of the texts and of the sheet of a plain picture, at the end
/// of bytes, read back as them.
#[verifier::spinoff_prover]
#[verifier::rlimit(100)]
proof fn lemma_last_read(d: Seq<u8>, pre: Seq<u8>, pic: Picture, v3: PictureView)
    requires
        plain_picture(pic),
        d == pre + chunk_bytes(1010, pic.texts@.len(), texts_bytes(pic.texts@)) + page_bytes(pic.page),
        d.len() <= u32::MAX,
    ensures
        chunks_from(d, pre.len() as int, true, true, None, v3) == Some(
            (
                PictureView {
                    texts: v3.texts + pic.texts@.map_values(|t: TextTool| (t.handle, t.parts@)),
                    page: match pic.page {
                        Some(p) => Some(p@),
                        None => v3.page,
                    },
                    ..v3
                },
                d.len() as int,
            ),
        ),
{
    let tc = chunk_bytes(1010, pic.texts@.len(), texts_bytes(pic.texts@));
    let gc = page_bytes(pic.page);
    let n = d.len() as int;
    let p3 = pre.len() as int;
    // the texts
    let nt = pic.texts@.len();
    let tm = pic.texts@.map_values(|t: TextTool| (t.handle, t.parts@));
    let v4 = PictureView { texts: v3.texts + tm, ..v3 };
    let p4 = p3 + tc.len() as int;
    if nt > 0 {
        lemma_chunk_split(1010, nt, texts_bytes(pic.texts@));
        assert(d =~= pre + tc + gc);
        lemma_texts_chunk(d, pre, pic.texts@, gc, v3);
        lemma_chunks_step(d, p3, 1010, v3, v4, p4);
    } else {
        assert(tm =~= Seq::empty());
        assert(v3.texts + tm =~= v3.texts);
        assert(v4 == v3);
    }
    // the sheet
    let v5 = PictureView {
        page: match pic.page {
            Some(p) => Some(p@),
            None => v4.page,
        },
        ..v4
    };
    match pic.page {
        Some(pg) => {
            let rb = record_bytes(34, false, le16_bytes(0) + le16_bytes(1) + le16_bytes(1) + pg@);
            assert(gc == chunk_bytes(1022, 1, rb));
            lemma_chunk_split(1022, 1, rb);
            assert(d =~= pre + tc + gc + Seq::<u8>::empty());
            lemma_page_chunk(d, pre + tc, pg@, Seq::empty(), v4);
            lemma_chunks_step(d, p4, 1022, v4, v5, n);
        },
        None => {
            assert(gc =~= Seq::<u8>::empty());
            assert(v5 == v4);
        },
    }
    assert(chunks_from(d, n, true, true, None, v5) == Some((v5, n))) by {
        reveal(chunks_from);
    }
}

/// The chunks of the z-order and of the objects of a plain picture, after
/// its head, read back as them.
#[verifier::spinoff_prover]
#[verifier::rlimit(100)]
proof fn lemma_front_read(d: Seq<u8>, head: Seq<u8>, pic: Picture, rest: Seq<u8>, v0: PictureView)
    requires
        plain_picture(pic),
        d == head + chunk_bytes(CHUNK_ZORDER, pic.zorder@.len(), u16s_bytes(pic.zorder@)) + chunk_bytes(
            CHUNK_OBJECTS,
            pic.objects@.len(),
            objects_bytes(pic, pic.objects@),
        ) + rest,
        d.len() <= u32::MAX,
    ensures
        chunks_from(d, head.len() as int, true, true, None, v0) == chunks_from(
            d,
            (head.len() + chunk_bytes(CHUNK_ZORDER, pic.zorder@.len(), u16s_bytes(pic.zorder@)).len() + chunk_bytes(
                CHUNK_OBJECTS,
                pic.objects@.len(),
                objects_bytes(pic, pic.objects@),
            ).len()) as int,
            true,
            true,
            None,
            PictureView {
                zorder: v0.zorder + pic.zorder@,
                objects: v0.objects + pic.objects@.map_values(|o: Object| object_view(o)),
                fit: v0.fit + pic.objects@.map_values(|o: Object| fit_of(o)),
                ..v0
            },
        ),
{
    let z = pic.zorder@;
    let os = pic.objects@;
    let zc = chunk_bytes(CHUNK_ZORDER, z.len(), u16s_bytes(z));
    let oc = chunk_bytes(CHUNK_OBJECTS, os.len(), objects_bytes(pic, os));
    let h = head.len() as int;
    lemma_zorder_chunk(head, z, oc + rest, v0);
    assert(d =~= head + zc + (oc + rest));
    let v1 = PictureView { zorder: v0.zorder + z, ..v0 };
    let p1 = h + zc.len() as int;
    lemma_chunks_step(d, h, CHUNK_ZORDER, v0, v1, p1);
    let om = os.map_values(|o: Object| object_view(o));
    let of = os.map_values(|o: Object| fit_of(o));
    let v1b = PictureView { objects: v1.objects + om, fit: v1.fit + of, ..v1 };
    let p1b = p1 + oc.len() as int;
    if os.len() > 0 {
        lemma_chunk_split(CHUNK_OBJECTS, os.len(), objects_bytes(pic, os));
        assert(d =~= head + zc + oc + rest);
        lemma_objects_chunk(d, head + zc, pic, rest, v1);
        lemma_chunks_step(d, p1, CHUNK_OBJECTS, v1, v1b, p1b);
    } else {
        assert(om =~= Seq::empty());
        assert(of =~= Seq::empty());
        assert(v1.objects + om =~= v1.objects);
        assert(v1.fit + of =~= v1.fit);
        assert(v1b == v1);
    }
}

/// What the reading of a plain picture gathers, chunk by chunk, is
/// `written_view`.
proof fn lemma_gathered_view(pic: Picture)
    ensures
        ({
            let v0 = empty_view(0x0300, pic.origin, pic.scale, pic.window);
            let v1 = PictureView {
                zorder: v0.zorder + pic.zorder@,
                objects: v0.objects + pic.objects@.map_values(|o: Object| object_view(o)),
                fit: v0.fit + pic.objects@.map_values(|o: Object| fit_of(o)),
                ..v0
            };
            PictureView {
                pens: v1.pens + pic.pens@,
                brushes: v1.brushes + pic.brushes@,
                fonts: v1.fonts + pic.fonts@.map_values(|f: Font| font_view(f)),
                strings: v1.strings + pic.strings@.map_values(|s: StringTool| (s.handle, s.text@)),
                texts: v1.texts + pic.texts@.map_values(|t: TextTool| (t.handle, t.parts@)),
                page: match pic.page {
                    Some(p) => Some(p@),
                    None => v1.page,
                },
                ..v1
            } == written_view(pic)
        }),
{
    let v0 = empty_view(0x0300, pic.origin, pic.scale, pic.window);
    let om = pic.objects@.map_values(|o: Object| object_view(o));
    let of = pic.objects@.map_values(|o: Object| fit_of(o));
    let fm = pic.fonts@.map_values(|f: Font| font_view(f));
    let m = pic.strings@.map_values(|s: StringTool| (s.handle, s.text@));
    let tm = pic.texts@.map_values(|t: TextTool| (t.handle, t.parts@));
    assert(v0.zorder + pic.zorder@ =~= pic.zorder@);
    assert(v0.objects + om =~= om);
    assert(v0.fit + of =~= of);
    assert(v0.pens + pic.pens@ =~= pic.pens@);
    assert(v0.brushes + pic.brushes@ =~= pic.brushes@);
    assert(v0.fonts + fm =~= fm);
    assert(v0.strings + m =~= m);
    assert(v0.texts + tm =~= tm);
}

/// A written picture reads back: `picture_of` of the bytes that `write`
/// makes holds the same window, z-order, objects, pens, brushes, fonts,
/// strings, texts and sheet, and nothing else (for the pictures of
/// `plain_picture`).
#[verifier::spinoff_prover]
#[verifier::rlimit(100)]
pub proof fn law_picture_round_trip(pic: Picture)
    requires
        plain_picture(pic),
    ensures
        picture_of(picture_bytes(pic), 0) == Some(written_view(pic)),
{
    let d = picture_bytes(pic);
    let zc = chunk_bytes(CHUNK_ZORDER, pic.zorder@.len(), u16s_bytes(pic.zorder@));
    let oc = chunk_bytes(CHUNK_OBJECTS, pic.objects@.len(), objects_bytes(pic, pic.objects@));
    let pc = chunk_bytes(1004, pic.pens@.len(), pens_bytes(pic.pens@));
    let bc = chunk_bytes(1005, pic.brushes@.len(), brushes_bytes(pic.brushes@));
    let fc = chunk_bytes(1008, pic.fonts@.len(), fonts_bytes(pic.fonts@));
    let sc = chunk_bytes(1009, pic.strings@.len(), strings_bytes(pic.strings@));
    let tc = chunk_bytes(1010, pic.texts@.len(), texts_bytes(pic.texts@));
    let gc = page_bytes(pic.page);
    let head = d.subrange(0, 70);
    let v0 = empty_view(0x0300, pic.origin, pic.scale, pic.window);
    let v1b = PictureView {
        zorder: v0.zorder + pic.zorder@,
        objects: v0.objects + pic.objects@.map_values(|o: Object| object_view(o)),
        fit: v0.fit + pic.objects@.map_values(|o: Object| fit_of(o)),
        ..v0
    };
    let p1 = (head + zc + oc).len() as int;
    assert(d == head + zc + oc + (pc + bc + fc + sc + tc + gc) && d == head + zc + oc + pc + bc + fc + sc + tc + gc) by {
        lemma_plain_chunks(pic);
        lemma_head_then_chunks(pic);
        lemma_parts_joined(head, zc, oc, pc, bc, fc, sc, tc, gc);
    }
    assert(chunks_from(d, 70, true, true, None, v0) == chunks_from(d, p1, true, true, None, v1b)) by {
        lemma_front_read(d, head, pic, pc + bc + fc + sc + tc + gc, v0);
    }
    assert(chunks_from(d, p1, true, true, None, v1b) == Some((written_view(pic), d.len() as int))) by {
        lemma_tools_read(d, head + zc + oc, pic, v1b);
        lemma_gathered_view(pic);
    }
    lemma_plain_head(pic);
}

} // verus!
