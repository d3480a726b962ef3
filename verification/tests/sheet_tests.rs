use stratum_core::formats::cls::{Child, Class, Link, LinkStyle, Variable};
use stratum_core::formats::project::{Project, Property, PropertyValue, State, StateImage};
use stratum_core::player::history::History;
use stratum_core::player::project_edit::{delete_class, new_class, rename_class, set_class_props, set_property, vars_from_lines, OpenProject};
use stratum_core::player::sheet::{
    add_child, lowered_names, max_child_handle, remove_child, remove_link, rename_child, reorder_children, replace_child,
    set_link, set_link_style,
};

fn child(handle: u16) -> Child {
    Child { class_name: "A".into(), handle, name: String::new(), x: 0, y: 0, flags: 0 }
}

fn link(handle: u16, source: u16, target: u16) -> Link {
    Link { source, target, handle, flags: 0, vars: vec![("x".into(), "y".into())], style: LinkStyle::default() }
}

fn sheet() -> Class {
    let mut c = Class::new("S".into(), 0x3003);
    c.children = vec![child(1), child(2), child(3)];
    c.links = vec![link(4, 1, 2), link(5, 2, 3), link(6, 1, 3)];
    c
}

#[test]
fn removing_a_block_drops_its_links() {
    let mut c = sheet();
    remove_child(&mut c, 2);
    assert_eq!(c.children.iter().map(|x| x.handle).collect::<Vec<_>>(), vec![1, 3]);
    assert_eq!(c.links.iter().map(|l| l.handle).collect::<Vec<_>>(), vec![6]);
    assert_eq!(c.name, "S");
}

#[test]
fn removing_a_link() {
    let mut c = sheet();
    remove_link(&mut c, 5);
    assert_eq!(c.links.iter().map(|l| l.handle).collect::<Vec<_>>(), vec![4, 6]);
    assert_eq!(c.children.len(), 3);
}

#[test]
fn renaming_and_adding_blocks() {
    let mut c = sheet();
    rename_child(&mut c, 3, "Луна".into());
    assert_eq!(c.children[2].name, "Луна");
    rename_child(&mut c, 9, "x".into());
    assert_eq!(max_child_handle(&c), 3);
    let h = add_child(&mut c, "B".into(), "b".into(), 1.5f64.to_bits(), 0);
    assert_eq!(h, 4);
    assert_eq!(c.children[3].class_name, "B");
    assert_eq!(f64::from_bits(c.children[3].x), 1.5);
}

#[test]
fn setting_links() {
    let mut c = sheet();
    // a new link takes a handle above every block and link
    let h = set_link(&mut c, 1, 2, 0, vec![("a".into(), "b".into())]);
    assert_eq!(h, 7);
    assert_eq!(c.links.len(), 4);
    assert!(c.links[3].style.is_default());
    // an existing one gets new ends and pairs
    assert_eq!(set_link(&mut c, 3, 1, 5, vec![("p".into(), "q".into())]), 5);
    assert_eq!((c.links[1].source, c.links[1].target), (3, 1));
    assert_eq!(c.links[1].vars, vec![("p".to_string(), "q".to_string())]);
    // without pairs it goes
    assert_eq!(set_link(&mut c, 3, 1, 5, vec![]), 0);
    assert_eq!(c.links.iter().map(|l| l.handle).collect::<Vec<_>>(), vec![4, 6, 7]);
    // a new one without pairs changes nothing
    assert_eq!(set_link(&mut c, 1, 2, 0, vec![]), 0);
    assert_eq!(c.links.len(), 3);
}

fn project() -> OpenProject {
    let mut root = Class::new("Root".into(), 0x3003);
    root.children = vec![Child { class_name: "луна".into(), ..child(1) }, child(2)];
    let mut luna = Class::new("Луна".into(), 0x3003);
    luna.children = vec![Child { class_name: "A".into(), ..child(1) }];
    let lib = Class::new("A".into(), 0x3003);
    OpenProject {
        project: Project { root: "root".into(), properties: vec![], variables: vec![] },
        classes: vec![root, luna, lib],
        own_classes: 2,
        state: Some(State {
            root: "Root".into(),
            images: vec![StateImage { class_name: "ROOT".into(), reference: 1, handle: 0, vars: vec![] }],
        }),
    }
}

#[test]
fn renaming_an_image_renames_its_uses() {
    let mut p = project();
    assert_eq!(rename_class(&mut p, "ROOT", "Main".into()), Ok(()));
    assert_eq!(p.classes[0].name, "Main");
    assert_eq!(p.project.root, "Main");
    assert_eq!(p.state.as_ref().unwrap().images[0].class_name, "Main");
    let mut p = project();
    assert_eq!(rename_class(&mut p, "a", "B".into()).unwrap_err().0, "403 Forbidden");
    assert_eq!(rename_class(&mut p, "x", "B".into()).unwrap_err().0, "404 Not Found");
    assert_eq!(rename_class(&mut p, "Root", "a".into()).unwrap_err().0, "409 Conflict");
    // ASCII case aside: the uses of A in own images are renamed
    let mut p = project();
    p.own_classes = 3;
    assert_eq!(rename_class(&mut p, "A", "Б".into()), Ok(()));
    assert_eq!(p.classes[1].children[0].class_name, "Б");
    assert_eq!(p.classes[0].children[1].class_name, "Б");
}

#[test]
fn deleting_an_image() {
    let mut p = project();
    assert_eq!(delete_class(&mut p, "root").unwrap_err().1, "корневой имидж удалить нельзя");
    p.classes[0].children[0].class_name = "Луна".into();
    let e = delete_class(&mut p, "Луна").unwrap_err();
    assert_eq!(e, ("409 Conflict", "имидж используется на схемах: Root".to_string()));
    p.classes[0].children.clear();
    assert_eq!(delete_class(&mut p, "Луна"), Ok(()));
    assert_eq!(p.classes.len(), 2);
    assert_eq!(p.own_classes, 1);
    assert_eq!(delete_class(&mut p, "A").unwrap_err().0, "403 Forbidden");
}

#[test]
fn variables_from_the_editor() {
    let vs = vars_from_lines("x\tFLOAT\t1\tпозиция\t5\r\n   \n\ny\n z\tSTRING\t\t\tbad\n");
    assert_eq!(vs.len(), 3);
    assert_eq!((vs[0].name.as_str(), vs[0].var_type.as_str(), vs[0].default.as_str(), vs[0].flags), ("x", "FLOAT", "1", 5));
    assert_eq!(vs[0].description, "позиция");
    assert_eq!((vs[1].name.as_str(), vs[1].var_type.as_str(), vs[1].flags), ("y", "FLOAT", 0x20000));
    assert_eq!((vs[2].name.as_str(), vs[2].var_type.as_str(), vs[2].flags), (" z", "STRING", 0x20000));
    assert!(vars_from_lines("").is_empty());
}

#[test]
fn setting_a_project_property() {
    let mut p = Project {
        root: "R".into(),
        properties: vec![
            Property { key: "MathMode".into(), value: PropertyValue::Int(3) },
            Property { key: "x".into(), value: PropertyValue::Text("a".into()) },
        ],
        variables: vec![],
    };
    set_property(&mut p, "MATHMODE".into(), Some(PropertyValue::Int(1)));
    assert_eq!(p.properties.len(), 2);
    assert_eq!(p.properties[0].key, "x");
    assert!(matches!(p.properties[1].value, PropertyValue::Int(1)));
    set_property(&mut p, "X".into(), None);
    assert_eq!(p.properties.len(), 1);
}

#[test]
fn reordering_blocks_and_styling_links() {
    let mut c = sheet();
    reorder_children(&mut c, &vec![3, 9, 1]);
    assert_eq!(c.children.iter().map(|x| x.handle).collect::<Vec<_>>(), vec![3, 1, 2]);
    set_link_style(&mut c, 5, LinkStyle { color: "red".into(), width: 2, disabled: false, arrows: true, layer: 0 });
    assert_eq!(c.links[1].style.color, "red");
    assert!(c.links[0].style.is_default());
}

#[test]
fn image_properties_and_new_images() {
    let mut c = Class::new("K".into(), 0x3003);
    set_class_props(&mut c, Some("описание".into()), Some("12"));
    assert_eq!((c.description.as_str(), c.flags), ("описание", Some(12)));
    set_class_props(&mut c, None, Some("x"));
    assert_eq!(c.flags, Some(12));
    let mut p = project();
    assert_eq!(new_class(&mut p, "  ").unwrap_err().0, "400 Bad Request");
    assert_eq!(new_class(&mut p, " root ").unwrap_err().0, "409 Conflict");
    assert_eq!(new_class(&mut p, " Новый ").map_err(|e| e.0), Ok(()));
    assert_eq!(p.classes[2].name, "Новый");
    assert_eq!(p.own_classes, 3);
    assert_eq!(p.classes[3].name, "A");
}

#[test]
fn replacing_a_block_drops_pairs_the_new_image_lacks() {
    let mut c = sheet();
    c.links = vec![
        Link { vars: vec![("X".into(), "a".into()), ("Ж".into(), "b".into())], ..link(4, 2, 1) },
        Link { vars: vec![("q".into(), "Y".into())], ..link(5, 3, 2) },
        Link { vars: vec![("q".into(), "r".into())], ..link(6, 1, 3) },
    ];
    let new_vars = vec![
        Variable { name: "x".into(), description: String::new(), default: String::new(), var_type: "FLOAT".into(), flags: 0 },
        Variable { name: "ж".into(), description: String::new(), default: String::new(), var_type: "FLOAT".into(), flags: 0 },
    ];
    let names = lowered_names(&new_vars);
    assert_eq!(names, vec!["x".to_string(), "ж".to_string()]);
    let dropped = replace_child(&mut c, 2, "B".into(), &names);
    assert_eq!(dropped, 1);
    assert_eq!(c.children[1].class_name, "B");
    assert_eq!(c.children[1].handle, 2);
    assert_eq!(c.links.len(), 2);
    assert_eq!(c.links[0].vars.len(), 2);
    assert_eq!(c.links[1].handle, 6);
}

#[test]
fn undo_after_an_edit_gives_the_images_back() {
    let mut p = project();
    let mut h = History::new();
    assert!(!h.undo(&mut p));
    assert!(!h.redo(&mut p));
    h.remember(&p);
    assert_eq!(rename_class(&mut p, "Луна", "Moon".into()), Ok(()));
    assert_eq!(p.classes[1].name, "Moon");
    assert!(h.undo(&mut p));
    assert_eq!(p.classes[1].name, "Луна");
    assert_eq!(p.classes[0].children[0].class_name, "луна");
    assert_eq!(p.classes.len(), 3);
    assert_eq!(p.classes[2].name, "A");
    assert_eq!(p.own_classes, 2);
    assert!(!h.undo(&mut p));
    assert!(h.redo(&mut p));
    assert_eq!(p.classes[1].name, "Moon");
    assert!(!h.redo(&mut p));
}

#[test]
fn undo_keeps_the_libraries_and_the_number_of_own_images() {
    let mut p = project();
    let mut h = History::new();
    h.remember(&p);
    assert_eq!(new_class(&mut p, "Новый"), Ok(()));
    assert_eq!(p.own_classes, 3);
    assert!(h.undo(&mut p));
    assert_eq!(p.own_classes, 2);
    assert_eq!(p.classes.len(), 3);
    assert_eq!(p.classes[2].name, "A");
    assert!(h.redo(&mut p));
    assert_eq!(p.own_classes, 3);
    assert_eq!(p.classes[2].name, "Новый");
}

#[test]
fn history_keeps_a_hundred_snapshots() {
    let mut p = project();
    let mut h = History::new();
    for _ in 0..105 {
        h.remember(&p);
    }
    assert_eq!(h.past.len(), 100);
    let mut n = 0;
    while h.undo(&mut p) {
        n += 1;
    }
    assert_eq!(n, 100);
    h.remember(&p);
    assert!(h.future.is_empty());
}
