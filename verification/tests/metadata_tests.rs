use viewtree::metadata::{
    CompDef, CompFlags, CompItemDef, EventDef, FieldAccessors, FieldDef, FieldFlags, FieldGetMode,
    FieldGetter, FieldSetter, FieldType, Path, PathRoot, Visibility, VisibilityRef,
};

fn path(idents: &[&str]) -> Path {
    Path { root: PathRoot::Crate, idents: idents.iter().map(|s| s.to_string()).collect() }
}

fn const_field(name: &str, optional: bool, setter_vis: Visibility) -> CompItemDef {
    CompItemDef::Field(FieldDef {
        field_ty: FieldType::Const,
        flags: FieldFlags { inject: false, optional },
        ident: name.to_string(),
        accessors: FieldAccessors {
            set: Some(FieldSetter { vis: setter_vis }),
            get: Some(FieldGetter { vis: Visibility::Public, mode: FieldGetMode::Borrow }),
            watch: None,
        },
        ty: None,
    })
}

fn event(name: &str) -> CompItemDef {
    CompItemDef::Event(EventDef {
        vis: Visibility::Public,
        ident: name.to_string(),
        inputs: vec![],
    })
}

#[test]
fn path_parent_and_prefix() {
    let p = path(&["ui", "views", "button"]);
    let r = p.as_ref();

    let parent = r.parent().unwrap().to_owned();
    assert_eq!(parent.idents, vec!["ui".to_string(), "views".to_string()]);

    let top = path(&[]);
    assert!(top.as_ref().parent().is_none());

    let prefix = path(&["ui", "views"]);
    let other = path(&["ui", "widgets"]);
    assert!(r.starts_with(&prefix.as_ref()));
    assert!(!r.starts_with(&other.as_ref()));
    assert!(r.starts_with(&top.as_ref()));
}

#[test]
fn lowest_common_ancestor_takes_the_shared_prefix() {
    let p1 = path(&["ui", "views", "button"]);
    let p2 = path(&["ui", "views", "label"]);
    let p3 = path(&["net", "socket"]);

    let lca = p1.as_ref().lowest_common_ancestor(&p2.as_ref()).unwrap().to_owned();
    assert_eq!(lca.idents, vec!["ui".to_string(), "views".to_string()]);

    let lca2 = p1.as_ref().lowest_common_ancestor(&p3.as_ref()).unwrap().to_owned();
    assert_eq!(lca2.idents, Vec::<String>::new());
}

#[test]
fn strictest_is_the_meet_of_visibilities() {
    let a = path(&["a", "b", "c"]);
    let b = path(&["a", "b", "d"]);

    let public = Visibility::Public;
    let private = Visibility::Private;
    let ra = Visibility::Restricted(a);
    let rb = Visibility::Restricted(b);

    assert!(matches!(
        public.as_ref().strictest(public.as_ref()),
        VisibilityRef::Public
    ));
    assert!(matches!(
        private.as_ref().strictest(public.as_ref()),
        VisibilityRef::Private
    ));
    assert!(matches!(
        public.as_ref().strictest(private.as_ref()),
        VisibilityRef::Private
    ));
    match ra.as_ref().strictest(public.as_ref()) {
        VisibilityRef::Restricted(p) => {
            assert_eq!(p.to_owned().idents, vec!["a".to_string(), "b".to_string(), "c".to_string()])
        },
        _ => panic!("expected a restricted visibility"),
    }
    match ra.as_ref().strictest(rb.as_ref()) {
        VisibilityRef::Restricted(p) => {
            assert_eq!(p.to_owned().idents, vec!["a".to_string(), "b".to_string()])
        },
        _ => panic!("expected a restricted visibility"),
    }
}

#[test]
fn builder_vis_follows_mandatory_const_setters() {
    let comp = CompDef {
        flags: CompFlags { prototype_only: false, widget: true },
        vis: Visibility::Public,
        paths: vec![path(&["widget"])],
        items: vec![
            event("activated"),
            const_field("style", false, Visibility::Restricted(path(&["theming"]))),
            const_field("label", true, Visibility::Public),
        ],
    };
    match comp.builder_vis() {
        VisibilityRef::Restricted(p) => {
            assert_eq!(p.to_owned().idents, vec!["theming".to_string()])
        },
        _ => panic!("expected a restricted visibility"),
    }

    let open_comp = CompDef {
        flags: CompFlags { prototype_only: false, widget: false },
        vis: Visibility::Public,
        paths: vec![path(&["panel"])],
        items: vec![event("resized")],
    };
    assert!(matches!(open_comp.builder_vis(), VisibilityRef::Public));
}

#[test]
fn find_item_by_ident_returns_the_first_match() {
    let comp = CompDef {
        flags: CompFlags { prototype_only: false, widget: false },
        vis: Visibility::Public,
        paths: vec![path(&["list"])],
        items: vec![
            const_field("rows", false, Visibility::Public),
            event("selected"),
        ],
    };
    let (i, item) = comp.find_item_by_ident("selected").unwrap();
    assert_eq!(i, 1);
    assert_eq!(item.ident(), "selected");
    assert!(item.event().is_some());

    let (j, first) = comp.find_item_by_ident("rows").unwrap();
    assert_eq!(j, 0);
    assert!(first.event().is_none());

    assert!(comp.find_item_by_ident("missing").is_none());
}
