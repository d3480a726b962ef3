use stratum_core::formats::cls::{Child, Class, Link, LinkStyle, Variable};
use stratum_core::formats::json_read::parse;
use stratum_core::formats::native_load::{class_from_meta, project_from_meta, state_from_meta, ClassBlobs};
use stratum_core::formats::native_save::{class_meta, pairs_json, project_meta, state_meta};
use stratum_core::formats::project::{Project, ProjectVariable, Property, PropertyValue, State, StateImage};

fn sheet_class() -> Class {
    let mut c = Class::new("Лист".into(), 0x3003);
    c.vars = vec![Variable {
        name: "x".into(),
        description: String::new(),
        default: "1".into(),
        var_type: "FLOAT".into(),
        flags: 0,
    }];
    c.children = vec![Child {
        class_name: "A".into(),
        handle: 2,
        name: "a".into(),
        x: 1.5f64.to_bits(),
        y: (-2.0f64).to_bits(),
        flags: 0,
    }];
    c.links = vec![Link {
        source: 0,
        target: 2,
        handle: 3,
        flags: 0,
        vars: vec![("x".into(), "y".into())],
        style: LinkStyle::default(),
    }];
    c.flags = Some(5);
    c
}

#[test]
fn class_description_as_json() {
    let c = sheet_class();
    let j = class_meta(&c, &vec![("1.5".to_string(), "-2".to_string())]);
    assert_eq!(
        j.compact(),
        "{\"children\":[{\"class\":\"A\",\"flags\":0,\"handle\":2,\"name\":\"a\",\"x\":1.5,\"y\":-2}],\"description\":\"\",\"flags\":5,\"links\":[{\"flags\":0,\"handle\":3,\"source\":0,\"target\":2,\"vars\":[[\"x\",\"y\"]]}],\"name\":\"Лист\",\"vars\":[{\"default\":\"1\",\"description\":\"\",\"flags\":0,\"name\":\"x\",\"type\":\"FLOAT\"}]}"
    );
}

#[test]
fn styled_link_and_icon_are_written() {
    let mut c = sheet_class();
    c.links[0].style = LinkStyle { color: "#f00".into(), width: 2, disabled: false, arrows: true, layer: 1 };
    c.icon_file = Some("lib.dbm".into());
    c.icon_index = Some(4);
    c.timestamp = Some(77);
    let j = class_meta(&c, &vec![("0".to_string(), "0".to_string())]);
    let text = j.compact();
    assert!(text.contains("\"style\":{\"arrows\":true,\"color\":\"#f00\",\"disabled\":false,\"layer\":1,\"width\":2}"));
    assert!(text.contains("\"iconFile\":\"lib.dbm\",\"iconIndex\":4"));
    assert!(text.contains("\"timestamp\":77"));
}

#[test]
fn pairs_as_arrays() {
    let j = pairs_json(&vec![("a".into(), "b".into()), ("c".into(), String::new())]);
    assert_eq!(j.compact(), "[[\"a\",\"b\"],[\"c\",\"\"]]");
}

#[test]
fn project_file_as_json() {
    let p = Project {
        root: "R".into(),
        properties: vec![
            Property { key: "k".into(), value: PropertyValue::Int(3) },
            Property { key: "t".into(), value: PropertyValue::Text("v".into()) },
        ],
        variables: vec![ProjectVariable {
            kind: 1,
            flags: 2,
            handle: Some(4),
            name: "n".into(),
            description: "d".into(),
        }],
    };
    let j = project_meta(&p, &vec![("R".into(), "R".into())], &vec!["lib".into()]);
    assert_eq!(
        j.compact(),
        "{\"classes\":[{\"file\":\"R\",\"name\":\"R\"}],\"format\":\"stratum-modern/1\",\"libraries\":[\"lib\"],\"properties\":[{\"int\":3,\"key\":\"k\"},{\"key\":\"t\",\"text\":\"v\"}],\"root\":\"R\",\"variables\":[{\"description\":\"d\",\"flags\":2,\"handle\":4,\"kind\":1,\"name\":\"n\"}]}"
    );
}

#[test]
fn state_file_as_json() {
    let s = State {
        root: "R".into(),
        images: vec![StateImage { class_name: "A".into(), reference: 1, handle: 2, vars: vec![("x".into(), "1".into())] }],
    };
    assert_eq!(
        state_meta(&s).compact(),
        "{\"images\":[{\"class\":\"A\",\"handle\":2,\"ref\":1,\"vars\":[[\"x\",\"1\"]]}],\"root\":\"R\"}"
    );
}

#[test]
fn written_files_read_back() {
    let c = sheet_class();
    let j = class_meta(&c, &vec![("1.5".to_string(), "-2".to_string())]);
    assert_eq!(parse(&j.pretty()).unwrap(), j);
    let s = State { root: "R".into(), images: vec![StateImage { class_name: "A".into(), reference: 1, handle: 2, vars: vec![] }] };
    let sj = state_meta(&s);
    assert_eq!(parse(&sj.pretty()).unwrap(), sj);
    let p = Project { root: "R".into(), properties: vec![], variables: vec![] };
    let pj = project_meta(&p, &vec![("R".into(), "R".into())], &vec![]);
    assert_eq!(parse(&pj.pretty()).unwrap(), pj);
}

#[test]
fn class_text_gets_unix_line_ends() {
    assert_eq!(stratum_core::formats::native_save::class_text_file("a\r\nb\rc\n\r\n"), "a\nb\rc\n\n");
}

fn whole(t: &str) -> u64 {
    t.parse::<f64>().map(|x| x as u64).unwrap_or(0)
}

fn bits(t: &str) -> u64 {
    t.parse::<f64>().map(f64::to_bits).unwrap_or(0)
}

fn no_blobs() -> ClassBlobs {
    ClassBlobs { icon: None, image: None, scheme: None, equations: None }
}

#[test]
fn class_description_reads_back() {
    let mut c = sheet_class();
    c.links[0].style = LinkStyle { color: "#f00".into(), width: 2, disabled: true, arrows: false, layer: 3 };
    c.icon_index = Some(4);
    c.timestamp = Some(77);
    let j = class_meta(&c, &vec![("1.5".to_string(), "-2".to_string())]);
    let text = j.pretty();
    let back = class_from_meta(&parse(&text).unwrap(), "stem", "p.strat.json", String::new(), no_blobs(), whole, bits);
    assert_eq!(back.name, "Лист");
    assert_eq!(back.vars[0].var_type, "FLOAT");
    assert_eq!(back.children[0].handle, 2);
    assert_eq!(f64::from_bits(back.children[0].x), 1.5);
    assert_eq!(f64::from_bits(back.children[0].y), -2.0);
    assert_eq!(back.links[0].vars, vec![("x".to_string(), "y".to_string())]);
    assert_eq!(back.links[0].style.color, "#f00");
    assert_eq!((back.links[0].style.width, back.links[0].style.layer), (2, 3));
    assert!(back.links[0].style.disabled);
    assert_eq!((back.flags, back.icon_index, back.timestamp), (Some(5), Some(4), Some(77)));
    assert_eq!(back.version, 0x3003);
}

#[test]
fn missing_members_take_defaults() {
    let j = parse("{\"children\":[{\"handle\":70000.7,\"x\":1e1}],\"vars\":[{}],\"links\":[{\"vars\":[[\"a\"],[\"b\",\"c\"],1]}]}").unwrap();
    let c = class_from_meta(&j, "stem", "p", "t".into(), no_blobs(), whole, bits);
    assert_eq!(c.name, "stem");
    assert_eq!(c.vars[0].var_type, "FLOAT");
    assert_eq!(c.children[0].handle, 65535);
    assert_eq!(f64::from_bits(c.children[0].x), 10.0);
    assert_eq!(c.children[0].y, 0);
    assert_eq!(c.links[0].vars, vec![("b".to_string(), "c".to_string())]);
    assert!(c.links[0].style.is_default());
    assert_eq!(c.flags, None);
    assert_eq!(c.text, "t");
}

#[test]
fn project_file_reads_back() {
    let p = Project {
        root: "R".into(),
        properties: vec![
            Property { key: "k".into(), value: PropertyValue::Int(3) },
            Property { key: "t".into(), value: PropertyValue::Text("v".into()) },
        ],
        variables: vec![ProjectVariable { kind: 2, flags: 1, handle: Some(9), name: "n".into(), description: "d".into() }],
    };
    let j = project_meta(&p, &vec![("R".into(), "R".into()), ("Луна".into(), "Луна~2".into())], &vec![]);
    let (q, stems) = project_from_meta(&parse(&j.pretty()).unwrap(), whole).unwrap();
    assert_eq!(q.root, "R");
    assert!(matches!(q.properties[0].value, PropertyValue::Int(3)));
    assert!(matches!(&q.properties[1].value, PropertyValue::Text(t) if t == "v"));
    assert_eq!(q.variables[0].handle, Some(9));
    assert_eq!(stems, vec!["R".to_string(), "Луна~2".to_string()]);
}

#[test]
fn foreign_project_json_cannot_point_outside_the_project() {
    for bad in ["../../etc/passwd", "", ".hidden", "a/b", "c:\\x", "a\\b"] {
        let text = format!("{{\"format\":\"stratum-modern/1\",\"classes\":[{{\"file\":{}}}]}}", stratum_core::player::json_string(bad));
        let e = project_from_meta(&parse(&text).unwrap(), whole).unwrap_err();
        assert!(e.contains("недопустимое имя файла имиджа"), "{e}");
    }
    let e = project_from_meta(&parse("{\"format\":\"x\"}").unwrap(), whole).unwrap_err();
    assert_eq!(e, "ожидался формат stratum-modern/1");
}

#[test]
fn state_file_reads_back() {
    let s = State {
        root: "R".into(),
        images: vec![StateImage { class_name: "A".into(), reference: 7, handle: 2, vars: vec![("x".into(), "1".into())] }],
    };
    let back = state_from_meta(&parse(&state_meta(&s).pretty()).unwrap(), whole);
    assert_eq!(back.root, "R");
    assert_eq!((back.images[0].reference, back.images[0].handle), (7, 2));
    assert_eq!(back.images[0].vars, s.images[0].vars);
}
