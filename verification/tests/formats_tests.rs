use stratum_core::formats::cls::{self, Child, Class, Link, LinkStyle, Variable};
use stratum_core::formats::cp1251;
use stratum_core::formats::json::write_string;
use stratum_core::formats::native::file_stem;
use stratum_core::formats::project::{
    parse_project, parse_state, write_project, write_state, Project, ProjectVariable, Property,
    PropertyValue, State, StateImage,
};
use stratum_core::formats::reader::Reader;
use stratum_core::formats::vdr::{
    parse as parse_picture, write as write_picture, Brush, Font, Object, ObjectKind, Pen, Picture, StringTool, TextPart,
    TextTool,
    merge_object_data, object_data_len, object_vars, parse_hyper, read_bmp, set_object_vars, write_hyper, Hyper,
};
use stratum_core::formats::writer::Writer;

fn hex(s: &str) -> Vec<u8> {
    (0..s.len()).step_by(2).map(|i| u8::from_str_radix(&s[i..i + 2], 16).unwrap()).collect()
}

#[test]
fn cp1251_round_trip_of_cyrillic() {
    let bytes = cp1251::encode("Планета");
    assert_eq!(bytes, vec![0xCF, 0xEB, 0xE0, 0xED, 0xE5, 0xF2, 0xE0]);
    assert_eq!(cp1251::decode(&bytes), "Планета");
}

#[test]
fn write_then_read_keeps_everything() {
    let cls = Class {
        name: "Планета".into(),
        version: 0x3003,
        description: "описание".into(),
        vars: vec![Variable {
            name: "x".into(),
            description: String::new(),
            default: "1.5".into(),
            var_type: "FLOAT".into(),
            flags: 0x100,
        }],
        text: "x := ~x + 1".into(),
        children: vec![Child {
            class_name: "Луна".into(),
            handle: 3,
            name: String::new(),
            x: (-12.0f64).to_bits(),
            y: 48.5f64.to_bits(),
            flags: 0,
        }],
        links: vec![Link {
            source: 0,
            target: 3,
            handle: 1,
            flags: 0,
            vars: vec![("x".into(), "y".into())],
            style: LinkStyle::default(),
        }],
        icon: Some(vec![1, 2, 3]),
        timestamp: Some(7),
        flags: Some(0x200),
        ..Default::default()
    };
    let back = cls::parse(&cls::write(&cls), "mem").unwrap();
    assert_eq!(back.name, cls.name);
    assert_eq!(back.text, cls.text);
    assert_eq!(back.vars.len(), 1);
    assert_eq!(f64::from_bits(back.children[0].y), 48.5);
    assert_eq!(back.links[0].vars, cls.links[0].vars);
    assert_eq!(back.icon, cls.icon);
    assert_eq!(back.timestamp, Some(7));
    assert_eq!(back.flags, Some(0x200));
}

#[test]
fn old_version_is_written_as_3_003() {
    let mut cls = Class::new("Old".into(), 0x2000);
    cls.equations = Some(vec![9, 8, 7]);
    let bytes = cls::write(&cls);
    assert_eq!(&bytes[0..2], b"SB");
    assert_eq!(u32::from_le_bytes([bytes[2], bytes[3], bytes[4], bytes[5]]), 0x3003);
    let back = cls::parse(&bytes, "p.cls").unwrap();
    assert_eq!(back.version, 0x3003);
    assert_eq!(back.equations, Some(vec![9, 8, 7]));
    assert_eq!(back.source, "p.cls");
}

#[test]
fn not_a_class_file() {
    let e = cls::parse(b"XX0123456789abcdef", "bad.cls").unwrap_err();
    assert_eq!(e.path, "bad.cls");
    assert_eq!(e.message, "не файл имиджа: нет сигнатуры SB");
}

#[test]
fn file_names_are_safe() {
    assert_eq!(file_stem("Root2787"), "Root2787");
    assert_eq!(file_stem("a/b:c?"), "a_b_c_");
    assert_eq!(file_stem("..."), "image");
}

#[test]
fn file_stem_trims_dots_and_spaces() {
    assert_eq!(file_stem(" .a.b. "), "a.b");
    assert_eq!(file_stem("x\u{7}y"), "x_y");
}

#[test]
fn hyperlink_blocks_of_the_corpus_round_trip() {
    let page = hex("010005000200010a000c000100080077696e646f775f32");
    let cmd = hex("010005000200010a00130001000b00434d5f505245565041474504000400");
    let h = parse_hyper(&page).unwrap();
    assert_eq!((h.mode, h.target.as_str()), (0, "window_2"));
    assert_eq!(write_hyper(&h), page);
    let h = parse_hyper(&cmd).unwrap();
    assert_eq!((h.mode, h.target.as_str()), (4, "CM_PREVPAGE"));
    assert_eq!(write_hyper(&h), cmd);
    let full = Hyper {
        mode: 0,
        target: "стр.vdr".into(),
        window: "Окно".into(),
        object: "Root".into(),
        effect: "".into(),
    };
    assert_eq!(parse_hyper(&write_hyper(&full)).unwrap(), full);
    let vars = hex("010005000200010d0004006162630a");
    assert_eq!(parse_hyper(&vars), None);
    assert_eq!(object_data_len(&vars), Some(vars.len()));
    let h = Hyper { target: "стр".into(), ..Default::default() };
    let merged = merge_object_data(Some(&vars), Some(&h)).unwrap();
    assert_eq!(merged[6], 2);
    assert_eq!(parse_hyper(&merged).unwrap(), h);
    assert_eq!(merge_object_data(Some(&merged), None).unwrap(), vars);
    let with = set_object_vars(Some(&page), "_HObject,_HPrev;out,in").unwrap();
    assert_eq!(object_vars(&with).as_deref(), Some("_HObject,_HPrev;out,in"));
    assert_eq!(parse_hyper(&with).unwrap().target, "window_2");
    assert_eq!(set_object_vars(Some(&with), "").unwrap(), page);
    assert_eq!(merge_object_data(Some(&page), Some(&parse_hyper(&page).unwrap())).unwrap(), page);
}

#[test]
fn project_round_trip_and_property_lookup() {
    let p = Project {
        root: "Root_1".into(),
        properties: vec![
            Property { key: "MathMode".into(), value: PropertyValue::Int(3) },
            Property { key: "Title".into(), value: PropertyValue::Text("Модель".into()) },
        ],
        variables: vec![ProjectVariable {
            kind: 1,
            flags: 0,
            handle: None,
            name: "ScaleZ".into(),
            description: "".into(),
        }],
    };
    let back = parse_project(&write_project(&p), "project.spj").unwrap();
    assert_eq!(back.root, "Root_1");
    assert!(matches!(back.property("mathmode"), Some(PropertyValue::Int(3))));
    assert!(matches!(back.property("TITLE"), Some(PropertyValue::Text(t)) if t == "Модель"));
    assert!(back.property("none").is_none());
    assert_eq!(back.variables.len(), 1);
    assert_eq!(back.variables[0].name, "ScaleZ");
}

#[test]
fn reads_project_variables() {
    let var = |name: &str| ProjectVariable { kind: 1, flags: 0, handle: None, name: name.into(), description: "".into() };
    let p = Project {
        root: "Osc3d".into(),
        properties: vec![],
        variables: vec![var("ScaleZ"), var("ScaleY"), var("OffsetY")],
    };
    let data = write_project(&p);
    let p = parse_project(&data, "project.spj").unwrap();
    let names: Vec<_> = p.variables.iter().map(|v| v.name.as_str()).collect();
    assert_eq!(names, ["ScaleZ", "ScaleY", "OffsetY"]);
}

#[test]
fn not_a_project_file() {
    let e = parse_project(b"XY", "x.spj").unwrap_err();
    assert_eq!(e.message, "не файл проекта: нет сигнатуры Ih");
}

#[test]
fn state_round_trip() {
    let s = State {
        root: "Root_d23262c_b10".into(),
        images: vec![StateImage {
            class_name: "Планета".into(),
            reference: 0,
            handle: 5,
            vars: vec![("ObjectName".into(), "Земля".into())],
        }],
    };
    let back = parse_state(&write_state(&s), "_preload.stt", |b: u64| f64::from_bits(b).to_string()).unwrap();
    assert_eq!(back.root, "Root_d23262c_b10");
    assert_eq!(back.images.len(), 1);
    assert_eq!(back.images[0].class_name, "Планета");
    assert_eq!(back.images[0].handle, 5);
    assert_eq!(back.images[0].vars, vec![("ObjectName".to_string(), "Земля".to_string())]);
}

#[test]
fn reader_reads_little_endian_and_reports_short_data() {
    let data = [0x34u8, 0x12, 0x78, 0x56, 0x34, 0x12];
    let mut r = Reader::new(&data, "f.bin");
    assert_eq!(r.u16().unwrap(), 0x1234);
    assert_eq!(r.u32().unwrap(), 0x12345678);
    assert!(r.eof());
    let e = r.u8().unwrap_err();
    assert_eq!(e.offset, 6);
    assert_eq!(e.message, "нужно 1 байт, а до конца файла осталось 0");
    assert_eq!(e.to_text(), "f.bin: 0x6: нужно 1 байт, а до конца файла осталось 0");
}

#[test]
fn writer_writes_what_reader_reads() {
    let mut w = Writer::new();
    w.u16(0xBEEF);
    w.u32(7);
    w.string("Луна");
    w.patch_u32(2, 9);
    let mut r = Reader::new(&w.data, "mem");
    assert_eq!(r.u16().unwrap(), 0xBEEF);
    assert_eq!(r.u32().unwrap(), 9);
    assert_eq!(r.string().unwrap(), "Луна");
    assert_eq!(w.pos(), 12);
}

#[test]
fn json_strings_are_escaped() {
    let mut out = String::new();
    write_string(&mut out, "планета \"x\"\n\u{1}\\");
    assert_eq!(out, "\"планета \\\"x\\\"\\n\\u0001\\\\\"");
}

fn owned(v: &[&str]) -> Vec<String> {
    v.iter().map(|s| s.to_string()).collect()
}

#[test]
fn stems_are_unique_without_regard_to_case() {
    assert_eq!(
        stratum_core::formats::native::unique_stems(&owned(&["A", "a", "A", "b/c"]), "~"),
        owned(&["A", "a~2", "A~3", "b_c"])
    );
}

#[test]
fn stems_without_separator() {
    assert_eq!(stratum_core::formats::native::unique_stems(&owned(&["x", "X", ""]), ""), owned(&["x", "X2", "image"]));
    assert_eq!(stratum_core::formats::native::unique_stems(&owned(&["", " . "]), ""), owned(&["image", "image2"]));
}

fn put_string(out: &mut Vec<u8>, s: &str) {
    out.extend_from_slice(&(s.len() as u16).to_le_bytes());
    out.extend_from_slice(s.as_bytes());
}

fn put_u16(out: &mut Vec<u8>, v: u16) {
    out.extend_from_slice(&v.to_le_bytes());
}

fn typed_state_bytes(marker: u16) -> Vec<u8> {
    let mut d = Vec::new();
    put_string(&mut d, "SC Scheme Variables");
    put_string(&mut d, "Root");
    put_u16(&mut d, 0);
    put_u16(&mut d, 0);
    put_u16(&mut d, 0x3e8);
    put_u16(&mut d, 4);
    // class 0: Root, two variables, one child (handle 5, class 1)
    put_string(&mut d, "Root");
    d.extend_from_slice(&0u32.to_le_bytes());
    put_u16(&mut d, 2);
    put_u16(&mut d, 1);
    put_u16(&mut d, 0);
    put_u16(&mut d, 5);
    put_u16(&mut d, 1);
    put_string(&mut d, "x");
    put_u16(&mut d, 2);
    put_string(&mut d, "s");
    put_u16(&mut d, 3);
    // class 1: Child, one variable of a type outside the table
    put_string(&mut d, "Child");
    d.extend_from_slice(&0u32.to_le_bytes());
    put_u16(&mut d, 1);
    put_u16(&mut d, 0);
    put_u16(&mut d, 0);
    put_string(&mut d, "n");
    put_u16(&mut d, 9);
    // the types
    for t in ["FLOAT", "STRING"] {
        put_string(&mut d, t);
        d.extend_from_slice(&0u32.to_le_bytes());
        put_u16(&mut d, 0);
        put_u16(&mut d, 0);
        put_u16(&mut d, 0);
    }
    put_u16(&mut d, marker);
    d.extend_from_slice(&1.5f64.to_bits().to_le_bytes());
    put_string(&mut d, "hi");
    d.extend_from_slice(&7u32.to_le_bytes());
    d
}

#[test]
fn typed_state_is_read_depth_first() {
    let s = parse_state(&typed_state_bytes(0x3e9), "_preload.stt", |b: u64| f64::from_bits(b).to_string()).unwrap();
    assert_eq!(s.root, "Root");
    assert_eq!(s.images.len(), 2);
    assert_eq!(s.images[0].class_name, "Root");
    assert_eq!((s.images[0].reference, s.images[0].handle), (0, 0));
    assert_eq!(s.images[0].vars, vec![("x".to_string(), "1.5".to_string()), ("s".to_string(), "hi".to_string())]);
    assert_eq!(s.images[1].class_name, "Child");
    assert_eq!((s.images[1].reference, s.images[1].handle), (1, 5));
    assert_eq!(s.images[1].vars, vec![("n".to_string(), "7".to_string())]);
}

#[test]
fn typed_state_needs_its_marker() {
    let e = parse_state(&typed_state_bytes(0x3ea), "_preload.stt", |b: u64| f64::from_bits(b).to_string()).unwrap_err();
    assert_eq!(e.message, "старая редакция .stt: ожидался маркер данных 0x3e9, а не 0x3ea");
    let mut short = typed_state_bytes(0x3e9);
    short.pop();
    assert!(parse_state(&short, "_preload.stt", |b: u64| f64::from_bits(b).to_string()).is_err());
}

#[test]
fn link_style_as_json() {
    let st = LinkStyle { color: "#ff0000".into(), width: 2, disabled: false, arrows: true, layer: 1 };
    assert_eq!(
        stratum_core::formats::native::link_style_json(&st).compact(),
        "{\"arrows\":true,\"color\":\"#ff0000\",\"disabled\":false,\"layer\":1,\"width\":2}"
    );
}

#[test]
fn raster_is_taken_by_the_size_in_its_header() {
    let data = vec![b'B', b'M', 8, 0, 0, 0, 1, 2, 9, 9];
    let mut r = Reader::new(&data, "p.vdr");
    assert_eq!(read_bmp(&mut r).unwrap(), vec![b'B', b'M', 8, 0, 0, 0, 1, 2]);
    assert_eq!(r.pos, 8);
    let mut short = Reader::new(&data[..7], "p.vdr");
    assert!(read_bmp(&mut short).is_err());
    assert_eq!(short.pos, 0);
    let mut bad = Reader::new(b"XX\x01\x00\x00\x00", "p.vdr");
    assert!(read_bmp(&mut bad).is_err());
}

#[test]
fn local_variables_and_instance_names() {
    let mut v = Variable { name: "x".into(), description: String::new(), default: String::new(), var_type: "FLOAT".into(), flags: 0 };
    assert!(!v.is_local());
    v.flags = cls::VAR_LOCAL;
    assert!(v.is_local());
    let mut c = Child { class_name: "Луна".into(), handle: 3, name: String::new(), x: 0, y: 0, flags: 0 };
    assert_eq!(Class::instance_name(&c), "Луна");
    c.name = "м".into();
    assert_eq!(Class::instance_name(&c), "м");
    let mut k = Class::new("K".into(), 0x3003);
    k.children = vec![c];
    assert_eq!(k.child(3).map(|x| x.name.as_str()), Some("м"));
    assert!(k.child(4).is_none());
}

#[test]
fn stems_are_clean_and_stable() {
    for name in ["", " . ", "a/b", ". x .", "Планета", "con:1", "\u{1}"] {
        let r = file_stem(name);
        assert!(!r.is_empty());
        assert!(!r.starts_with(['.', ' ']) && !r.ends_with(['.', ' ']));
        assert!(!r.chars().any(|c| c.is_control() || "<>:\"/\\|?*".contains(c)));
        assert_eq!(file_stem(&r), r);
    }
    assert_eq!(file_stem(""), "image");
    assert_eq!(file_stem(" . "), "image");
}

fn empty_picture() -> Picture {
    Picture {
        version: 0x0300,
        origin: (0, 0),
        scale: (0, 0),
        window: (0, 0),
        objects: vec![],
        zorder: vec![],
        pens: vec![],
        brushes: vec![],
        fonts: vec![],
        strings: vec![],
        texts: vec![],
        dibs: vec![],
        page: None,
        hypers: vec![],
        object_data: vec![],
        arrows: vec![],
    }
}

fn picture_head(total: u8) -> Vec<u8> {
    let mut v = hex("324400030003cc00");
    v.extend_from_slice(&[total, 0, 0, 0]);
    v.extend_from_slice(&[0u8; 48]);
    v.extend_from_slice(&[0u8; 10]);
    v
}

#[test]
fn an_empty_picture_is_its_head_and_an_empty_z_order() {
    let mut want = picture_head(82);
    want.extend_from_slice(&hex("fd030c000000000000000a00"));
    assert_eq!(write_picture(&empty_picture()), want);
}

#[test]
fn a_pen_is_written_as_a_sized_record_in_its_chunk() {
    let mut pic = empty_picture();
    pic.pens.push(Pen { handle: 5, color: 0x00FF0000, style: 0, width: 1, rop: 13 });
    let mut want = picture_head(117);
    want.extend_from_slice(&hex("fd030c000000000000000a00"));
    want.extend_from_slice(&hex("ec032300000001000100" ));
    want.extend_from_slice(&hex("0a0001ffff"));
    want.extend_from_slice(&hex("650014000000010005000000ff00000001000d00"));
    assert_eq!(write_picture(&pic), want);
}

#[test]
fn objects_carry_their_names_in_blocks() {
    let mut pic = empty_picture();
    pic.zorder = vec![7];
    pic.objects.push(Object { handle: 7, name: "A".into(), flags: 0, kind: ObjectKind::Group { children: vec![] } });
    let mut want = picture_head(128);
    want.extend_from_slice(&hex("fd030e000000010001000a000700"));
    want.extend_from_slice(&hex("fc032c00000001000100" ));
    want.extend_from_slice(&hex("0a0001ffff"));
    want.extend_from_slice(&hex("03001d00000007000000"));
    want.extend_from_slice(&hex("fd030e000000000000000a00"));
    want.extend_from_slice(&hex("cd00070000004100"));
    want.pop();
    assert_eq!(write_picture(&pic), want);
}

/// The box of points, as the IDE computes it in floating point.
fn points_box(points: &Vec<(u64, u64)>) -> (u64, u64, u64, u64) {
    let f = |b: u64| f64::from_bits(b);
    let (mut a, mut b, mut c, mut d) = (f(points[0].0), f(points[0].1), f(points[0].0), f(points[0].1));
    for &(px, py) in points {
        a = a.min(f(px));
        b = b.min(f(py));
        c = c.max(f(px));
        d = d.max(f(py));
    }
    (a.to_bits(), b.to_bits(), (c - a).to_bits(), (d - b).to_bits())
}

/// A picture of the format 2.02: head, z-order, objects (a polyline of five
/// points and a text), then at the tools offset a pen, a font and a string,
/// then the list of object data with the given blocks.
fn old_picture(data_blocks: &[(u16, Vec<u8>)]) -> Vec<u8> {
    let mut w = Writer::new();
    w.bytes(b"2D");
    w.u16(0x0202);
    w.u16(0x0202);
    w.u32(0);
    let off_at = w.pos();
    w.u32(0);
    for v in [0.0f64, 0.0, 1.0, 1.0, 100.0, 50.0] {
        w.u64(v.to_bits());
    }
    w.string("");
    w.bytes(&[0u8; 8]);
    w.u32(0);
    w.u16(0);
    // z-order
    for v in [1021u16, 2, 2, 10, 1, 2] {
        w.u16(v);
    }
    // objects
    for v in [1020u16, 2, 2, 10] {
        w.u16(v);
    }
    w.u8(1);
    w.u16(0xFFFF);
    w.u16(20);
    w.u16(1);
    w.u16(0);
    w.string("");
    for v in [0.0f64, 0.0, 41.0, 11.0] {
        w.u64(v.to_bits());
    }
    w.u16(1);
    w.u16(0);
    w.u16(5);
    for (x, y) in [(0.0f64, 0.0f64), (40.0, 0.0), (40.0, 10.0), (0.0, 10.0), (0.0, 0.0)] {
        w.u64(x.to_bits());
        w.u64(y.to_bits());
    }
    w.u8(0);
    w.u16(23);
    w.u16(2);
    w.u16(0);
    w.string("");
    for v in [0.0f64, 0.0, 40.0, 10.0] {
        w.u64(v.to_bits());
    }
    w.u16(1);
    w.bytes(&[0u8; 18]);
    // the tools, four bytes after their offset
    let tools = w.pos();
    w.patch_u32(off_at, tools as u32);
    w.bytes(&[0u8; 4]);
    for v in [1004u16, 1, 1, 10] {
        w.u16(v);
    }
    w.u8(1);
    w.u16(0xFFFF);
    w.u16(101);
    w.u16(1);
    w.u16(1);
    w.u32(0);
    w.u16(0);
    w.u16(1);
    w.u16(13);
    for v in [1008u16, 1, 1, 10] {
        w.u16(v);
    }
    w.u8(1);
    w.u16(0xFFFF);
    w.u16(105);
    w.u16(1);
    w.u16(1);
    for v in [-12i16, 0, 0, 0, 400] {
        w.u16(v as u16);
    }
    w.bytes(&[0, 0, 0, 204, 0, 0, 0, 0]);
    let mut face = b"Arial".to_vec();
    face.resize(32, 0);
    w.bytes(&face);
    for v in [1009u16, 1, 1, 10] {
        w.u16(v);
    }
    w.u8(1);
    w.u16(0xFFFF);
    w.u16(106);
    w.u16(1);
    w.u16(1);
    w.string("00%");
    // the list of object data
    w.u32(0);
    w.u16(0);
    for (handle, block) in data_blocks {
        w.u16(1);
        w.u16(*handle);
        w.u16(0x03FE);
        w.bytes(block);
    }
    w.u16(0);
    w.data
}

#[test]
fn reads_a_library_icon() {
    let data = old_picture(&[]);
    let pic = parse_picture(&data, "HGAUGE1.VDR", points_box).unwrap();
    assert_eq!(pic.version, 0x0202);
    assert_eq!(pic.zorder, [1, 2]);
    let line = pic.object(1).unwrap();
    match &line.kind {
        ObjectKind::Polyline { points, w, .. } => {
            assert_eq!(points.len(), 5);
            assert_eq!(f64::from_bits(*w), 40.0);
        }
        other => panic!("{other:?}"),
    }
    assert!(matches!(pic.object(2).unwrap().kind, ObjectKind::Text { .. }));
    assert_eq!(pic.pens.len(), 1);
    assert_eq!(pic.fonts[0].face, "Arial");
    assert_eq!(pic.fonts[0].height, -12);
    assert_eq!(pic.strings[0].text, "00%");
    assert_eq!(f64::from_bits(pic.window.0), 100.0);
}

#[test]
fn reads_hyperlinks_of_an_old_picture() {
    let page = hex("010005000200010a000c000100080077696e646f775f32");
    let products = write_hyper(&Hyper { target: "StratumClass_Products".into(), ..Default::default() });
    let data = old_picture(&[(93, page), (94, products)]);
    let pic = parse_picture(&data, "Root5782", points_box).unwrap();
    let targets: Vec<&str> = pic.hypers.iter().map(|(_, h)| h.target.as_str()).collect();
    assert!(targets.contains(&"window_2") && targets.contains(&"StratumClass_Products"), "{targets:?}");
    assert_eq!(pic.hypers.iter().find(|(h, _)| *h == 93).unwrap().1.target, "window_2");
    assert_eq!(pic.object_data.len(), 2);
}

#[test]
fn a_written_picture_reads_back() {
    let mut pic = empty_picture();
    pic.origin = (1.5f64.to_bits(), 2.5f64.to_bits());
    pic.zorder = vec![7, 8];
    pic.pens.push(Pen { handle: 5, color: 0x00FF0000, style: 0, width: 1, rop: 13 });
    pic.objects.push(Object { handle: 7, name: "A".into(), flags: 4, kind: ObjectKind::Group { children: vec![8] } });
    pic.objects.push(Object {
        handle: 8,
        name: String::new(),
        flags: 0,
        kind: ObjectKind::Text { x: 1.0f64.to_bits(), y: 2.0f64.to_bits(), w: 3.0f64.to_bits(), h: 4.0f64.to_bits(), text: 3 },
    });
    pic.hypers.push((8, Hyper { target: "window_2".into(), ..Default::default() }));
    let back = parse_picture(&write_picture(&pic), "x.vdr", points_box).unwrap();
    assert_eq!(back.version, 0x0300);
    assert_eq!(back.origin, pic.origin);
    assert_eq!(back.zorder, [7, 8]);
    assert_eq!(back.pens.len(), 1);
    assert_eq!((back.pens[0].handle, back.pens[0].color, back.pens[0].rop), (5, 0x00FF0000, 13));
    assert_eq!(back.objects.len(), 2);
    assert_eq!((back.objects[0].handle, back.objects[0].name.as_str(), back.objects[0].flags), (7, "A", 4));
    assert!(matches!(&back.objects[0].kind, ObjectKind::Group { children } if children == &vec![8]));
    assert!(matches!(back.objects[1].kind, ObjectKind::Text { text: 3, .. }));
    assert_eq!(back.hypers.len(), 1);
    assert_eq!(back.hypers[0].0, 8);
    assert_eq!(back.hypers[0].1.target, "window_2");
}

#[test]
fn a_picture_needs_its_signature() {
    let e = parse_picture(b"no picture here", "p.vdr", points_box).unwrap_err();
    assert_eq!(e.message, "нет сигнатуры 2D");
    assert_eq!(e.offset, 0);
}

#[test]
fn coordinates_of_the_first_format_are_whole_numbers() {
    let mut w = Writer::new();
    w.bytes(&[0, 0, 0, 0]);
    w.bytes(b"2D");
    w.u16(0x0100);
    w.u16(0x0100);
    w.u32(0);
    w.u32(0);
    for v in [-5i16, 7, 1, 1, 640, 480] {
        w.u16(v as u16);
    }
    w.string("");
    w.bytes(&[0u8; 8]);
    w.u32(0);
    w.u16(0);
    let pic = parse_picture(&w.data, "old.vdr", points_box).unwrap();
    assert_eq!(pic.version, 0x0100);
    assert_eq!((f64::from_bits(pic.origin.0), f64::from_bits(pic.origin.1)), (-5.0, 7.0));
    assert_eq!((f64::from_bits(pic.window.0), f64::from_bits(pic.window.1)), (640.0, 480.0));
    assert!(pic.objects.is_empty());
}

#[test]
fn reads_scheme_of_a_root_class() {
    let mut root = Class::new("Root2787".into(), 0x3003);
    for h in 1..=15u16 {
        let (name, x, y) = if h == 3 { ("планета", -544.0f64, 48.0f64) } else { ("звезда", h as f64 * 10.0, 0.0) };
        root.children.push(Child { class_name: name.into(), handle: h, name: String::new(), x: x.to_bits(), y: y.to_bits(), flags: 0 });
    }
    for h in 0..12u16 {
        root.links.push(Link {
            source: h + 1,
            target: h + 2,
            handle: 100 + h,
            flags: 0,
            vars: vec![("out".into(), "in".into())],
            style: LinkStyle::new(),
        });
    }
    let data = cls::write(&root);
    let cls = cls::parse(&data, "Root2787.cls").unwrap();
    assert_eq!(cls.children.len(), 15);
    assert_eq!(cls.links.len(), 12);
    let planet = cls.child(3).unwrap();
    assert_eq!(planet.class_name, "планета");
    assert_eq!((f64::from_bits(planet.x), f64::from_bits(planet.y)), (-544.0, 48.0));
}

#[test]
fn a_written_picture_of_pens_and_strings_reads_back() {
    let mut pic = empty_picture();
    pic.zorder = vec![1, 2, 3];
    pic.pens.push(Pen { handle: 1, color: 0x00112233, style: 0, width: 2, rop: 13 });
    pic.pens.push(Pen { handle: 2, color: 0x00445566, style: 1, width: 1, rop: 13 });
    pic.strings.push(StringTool { handle: 1, text: "год".into() });
    pic.strings.push(StringTool { handle: 2, text: "".into() });
    let back = parse_picture(&write_picture(&pic), "p.vdr", points_box).unwrap();
    assert_eq!(back.zorder, pic.zorder);
    assert_eq!(back.pens.len(), 2);
    for (a, b) in back.pens.iter().zip(pic.pens.iter()) {
        assert_eq!((a.handle, a.color, a.style, a.width, a.rop), (b.handle, b.color, b.style, b.width, b.rop));
    }
    let texts: Vec<(u16, &str)> = back.strings.iter().map(|s| (s.handle, s.text.as_str())).collect();
    assert_eq!(texts, [(1, "год"), (2, "")]);
    assert!(back.objects.is_empty() && back.dibs.is_empty() && back.hypers.is_empty() && back.object_data.is_empty());
}

#[test]
fn a_written_picture_of_groups_and_texts_reads_back() {
    let mut pic = empty_picture();
    pic.zorder = vec![7, 8];
    pic.objects.push(Object {
        handle: 7,
        name: "стрелка".into(),
        flags: 2,
        kind: ObjectKind::Text { x: 1, y: 2, w: 3, h: 4, text: 5 },
    });
    pic.objects.push(Object { handle: 8, name: "".into(), flags: 0, kind: ObjectKind::Group { children: vec![7, 3] } });
    let back = parse_picture(&write_picture(&pic), "g.vdr", points_box).unwrap();
    assert_eq!(back.zorder, vec![7, 8]);
    assert_eq!(back.objects.len(), 2);
    assert_eq!((back.objects[0].handle, back.objects[0].name.as_str(), back.objects[0].flags), (7, "стрелка", 2));
    assert!(matches!(back.objects[0].kind, ObjectKind::Text { x: 1, y: 2, w: 3, h: 4, text: 5 }));
    assert_eq!((back.objects[1].handle, back.objects[1].name.as_str(), back.objects[1].flags), (8, "", 0));
    match &back.objects[1].kind {
        ObjectKind::Group { children } => assert_eq!(children, &vec![7, 3]),
        _ => panic!("a group was written"),
    }
    assert!(back.pens.is_empty() && back.strings.is_empty() && back.hypers.is_empty() && back.object_data.is_empty());
}

#[test]
fn a_written_picture_of_every_known_object_reads_back() {
    let one = 1.0f64.to_bits();
    let two = 2.0f64.to_bits();
    let five = 5.0f64.to_bits();
    let mut pic = empty_picture();
    pic.zorder = vec![1, 2, 3];
    pic.objects.push(Object {
        handle: 1,
        name: "линия".into(),
        flags: 0,
        kind: ObjectKind::Polyline { x: 0, y: 0, w: 0, h: 0, pen: 4, brush: 6, points: vec![(one, five), (two, one)] },
    });
    pic.objects.push(Object {
        handle: 2,
        name: "".into(),
        flags: 1,
        kind: ObjectKind::Bitmap { x: one, y: two, w: five, h: one, src: (0, 0, one, one), dib: 9, masked: true },
    });
    pic.objects.push(Object {
        handle: 3,
        name: "кнопка".into(),
        flags: 0,
        kind: ObjectKind::Control { x: one, y: one, w: two, h: two, class: "BUTTON".into(), caption: "Пуск".into(), style: 0x5000_0001 },
    });
    let back = parse_picture(&write_picture(&pic), "k.vdr", points_box).unwrap();
    assert_eq!(back.zorder, vec![1, 2, 3]);
    assert_eq!(back.objects.len(), 3);
    match &back.objects[0].kind {
        ObjectKind::Polyline { x, y, w, h, pen, brush, points } => {
            assert_eq!((*pen, *brush), (4, 6));
            assert_eq!(points, &vec![(one, five), (two, one)]);
            assert_eq!((*x, *y, *w, *h), (one, one, one, 4.0f64.to_bits()));
        }
        _ => panic!("a polyline was written"),
    }
    assert_eq!(back.objects[0].name, "линия");
    match &back.objects[1].kind {
        ObjectKind::Bitmap { x, y, w, h, src, dib, masked } => {
            assert_eq!((*x, *y, *w, *h, *src, *dib, *masked), (one, two, five, one, (0, 0, one, one), 9, true));
        }
        _ => panic!("a bitmap was written"),
    }
    assert_eq!((back.objects[1].handle, back.objects[1].flags), (2, 1));
    match &back.objects[2].kind {
        ObjectKind::Control { x, y, w, h, class, caption, style } => {
            assert_eq!((*x, *y, *w, *h), (one, one, two, two));
            assert_eq!((class.as_str(), caption.as_str(), *style), ("BUTTON", "Пуск", 0x5000_0001));
        }
        _ => panic!("a control was written"),
    }
    assert_eq!(back.objects[2].name, "кнопка");
}

#[test]
fn a_written_picture_of_brushes_fonts_texts_and_sheet_reads_back() {
    let mut pic = empty_picture();
    pic.brushes.push(Brush { handle: 3, color: 0x00FF0000, style: 2, hatch: 5, rop: 13, dib: 0 });
    pic.fonts.push(Font { handle: 4, height: -16, width: 0, weight: 700, italic: true, underline: false, face: "Arial Cyr".into() });
    pic.fonts.push(Font { handle: 5, height: 12, width: 6, weight: 400, italic: false, underline: true, face: "Курьер".into() });
    pic.texts.push(TextTool {
        handle: 6,
        parts: vec![TextPart { fg: 0x00FF00, bg: 0xFFFFFF, font: 4, string: 1 }, TextPart { fg: 0, bg: 1, font: 5, string: 2 }],
    });
    let sheet: Vec<u8> = (0..34).map(|i| (i * 7) as u8).collect();
    pic.page = Some(sheet.clone());
    let back = parse_picture(&write_picture(&pic), "t.vdr", points_box).unwrap();
    assert_eq!(back.page, Some(sheet));
    assert_eq!(back.texts.len(), 1);
    assert_eq!(back.texts[0].handle, 6);
    let parts: Vec<(u32, u32, u16, u16)> = back.texts[0].parts.iter().map(|p| (p.fg, p.bg, p.font, p.string)).collect();
    assert_eq!(parts, [(0x00FF00, 0xFFFFFF, 4, 1), (0, 1, 5, 2)]);
    assert_eq!(back.brushes.len(), 1);
    let b = &back.brushes[0];
    assert_eq!((b.handle, b.color, b.style, b.hatch, b.rop, b.dib), (3, 0x00FF0000, 2, 5, 13, 0));
    assert_eq!(back.fonts.len(), 2);
    for (a, f) in back.fonts.iter().zip(pic.fonts.iter()) {
        assert_eq!((a.handle, a.height, a.width, a.weight, a.italic, a.underline), (f.handle, f.height, f.width, f.weight, f.italic, f.underline));
        assert_eq!(a.face, f.face);
    }
    assert!(back.objects.is_empty() && back.pens.is_empty() && back.strings.is_empty());
}
