use bastion_core::path::{AppendError, BastionId, BastionPath, BastionPathElement};

// SYSTEM + smth

#[test]
fn append_sv_to_system() {
    let sv_id = BastionId::new();
    let path = BastionPath::root()
        .append(BastionPathElement::Supervisor(sv_id.clone()))
        .unwrap();
    assert_eq!(path.iter(), vec![sv_id]);
}

#[test]
fn append_children_to_system() {
    let sv_id = BastionId::new();
    let res = BastionPath::root().append(BastionPathElement::Children(sv_id));
    assert!(res.is_err())
}

#[test]
fn append_child_to_system() {
    let sv_id = BastionId::new();
    let res = BastionPath::root().append(BastionPathElement::Child(sv_id));
    assert!(res.is_err())
}

// Supervisor + smth

#[test]
fn append_sv_to_sv() {
    let sv1_id = BastionId::new();
    let sv2_id = BastionId::new();
    let path = BastionPath::root()
        .append(BastionPathElement::Supervisor(sv1_id.clone()))
        .unwrap()
        .append(BastionPathElement::Supervisor(sv2_id.clone()))
        .unwrap();
    assert_eq!(path.iter(), vec![sv1_id, sv2_id]);
}

#[test]
fn append_children_to_sv() {
    let sv_id = BastionId::new();
    let children_id = BastionId::new();
    let path = BastionPath::root()
        .append(BastionPathElement::Supervisor(sv_id.clone()))
        .unwrap()
        .append(BastionPathElement::Children(children_id.clone()))
        .unwrap();
    assert_eq!(path.iter(), vec![sv_id, children_id]);
}

#[test]
fn append_child_to_sv() {
    let sv_id = BastionId::new();
    let children_id = BastionId::new();
    let res = BastionPath::root()
        .append(BastionPathElement::Supervisor(sv_id))
        .unwrap()
        .append(BastionPathElement::Child(children_id));
    assert!(res.is_err())
}

// children + smth

#[test]
fn append_sv_to_children() {
    let sv_id = BastionId::new();
    let children_id = BastionId::new();
    let res = BastionPath::root()
        .append(BastionPathElement::Supervisor(sv_id))
        .unwrap()
        .append(BastionPathElement::Children(children_id))
        .unwrap()
        .append(BastionPathElement::Supervisor(BastionId::new()));
    assert!(res.is_err())
}

#[test]
fn append_children_to_children() {
    let sv_id = BastionId::new();
    let children_id = BastionId::new();
    let res = BastionPath::root()
        .append(BastionPathElement::Supervisor(sv_id))
        .unwrap()
        .append(BastionPathElement::Children(children_id))
        .unwrap()
        .append(BastionPathElement::Children(BastionId::new()));
    assert!(res.is_err())
}

#[test]
fn append_child_to_children() {
    let sv_id = BastionId::new();
    let children_id = BastionId::new();
    let child_id = BastionId::new();
    let path = BastionPath::root()
        .append(BastionPathElement::Supervisor(sv_id.clone()))
        .unwrap()
        .append(BastionPathElement::Children(children_id.clone()))
        .unwrap()
        .append(BastionPathElement::Child(child_id.clone()))
        .unwrap();
    assert_eq!(path.iter(), vec![sv_id, children_id, child_id]);
}

// child + smth

#[test]
fn append_sv_to_child() {
    let sv_id = BastionId::new();
    let children_id = BastionId::new();
    let child_id = BastionId::new();
    let res = BastionPath::root()
        .append(BastionPathElement::Supervisor(sv_id))
        .unwrap()
        .append(BastionPathElement::Children(children_id))
        .unwrap()
        .append(BastionPathElement::Child(child_id))
        .unwrap()
        .append(BastionPathElement::Supervisor(BastionId::new()));
    assert!(res.is_err())
}

#[test]
fn append_children_to_child() {
    let sv_id = BastionId::new();
    let children_id = BastionId::new();
    let child_id = BastionId::new();
    let res = BastionPath::root()
        .append(BastionPathElement::Supervisor(sv_id))
        .unwrap()
        .append(BastionPathElement::Children(children_id))
        .unwrap()
        .append(BastionPathElement::Child(child_id))
        .unwrap()
        .append(BastionPathElement::Children(BastionId::new()));
    assert!(res.is_err())
}

#[test]
fn append_child_to_child() {
    let sv_id = BastionId::new();
    let children_id = BastionId::new();
    let child_id = BastionId::new();
    let res = BastionPath::root()
        .append(BastionPathElement::Supervisor(sv_id))
        .unwrap()
        .append(BastionPathElement::Children(children_id))
        .unwrap()
        .append(BastionPathElement::Child(child_id))
        .unwrap()
        .append(BastionPathElement::Child(BastionId::new()));
    assert!(res.is_err())
}

// Display and debug forms

fn id(name: &str) -> BastionId {
    BastionId::named(name.to_string())
}

#[test]
fn empty_path_display_and_debug_are_slash() {
    let root = BastionPath::root();
    assert_eq!(root.display_string(), "/");
    assert_eq!(root.debug_string(), "/");
}

#[test]
fn supervisor_on_root_iterates_and_displays() {
    let path = BastionPath::root()
        .append(BastionPathElement::Supervisor(id("S1")))
        .unwrap();
    assert_eq!(path.iter(), vec![id("S1")]);
    assert_eq!(path.display_string(), "/S1");
}

#[test]
fn children_on_root_error_keeps_path_unchanged() {
    let err: AppendError = BastionPath::root()
        .append(BastionPathElement::Children(id("C1")))
        .unwrap_err();
    assert_eq!(err.path.iter(), Vec::<BastionId>::new());
    assert_eq!(err.path.display_string(), "/");
    assert_eq!(err.element.id(), &id("C1"));
}

#[test]
fn two_supervisors_iterate_in_order() {
    let path = BastionPath::root()
        .append(BastionPathElement::Supervisor(id("S1")))
        .unwrap()
        .append(BastionPathElement::Supervisor(id("S2")))
        .unwrap();
    assert_eq!(path.iter(), vec![id("S1"), id("S2")]);
    assert_eq!(path.display_string(), "/S1/S2");
}

#[test]
fn full_chain_display_and_debug() {
    let path = BastionPath::root()
        .append(BastionPathElement::Supervisor(id("S1")))
        .unwrap()
        .append(BastionPathElement::Children(id("C1")))
        .unwrap()
        .append(BastionPathElement::Child(id("Ch1")))
        .unwrap();
    assert_eq!(path.iter(), vec![id("S1"), id("C1"), id("Ch1")]);
    assert_eq!(path.display_string(), "/S1/C1/Ch1");
    assert_eq!(path.debug_string(), "/supervisor#S1/children#C1/child#Ch1");
}

#[test]
fn supervisor_chain_debug_marks_all_supervisors() {
    let path = BastionPath::root()
        .append(BastionPathElement::Supervisor(id("S1")))
        .unwrap()
        .append(BastionPathElement::Supervisor(id("S2")))
        .unwrap();
    assert_eq!(path.debug_string(), "/supervisor#S1/supervisor#S2");
    let with_children = path
        .append(BastionPathElement::Children(id("C1")))
        .unwrap();
    assert_eq!(
        with_children.debug_string(),
        "/supervisor#S1/supervisor#S2/children#C1"
    );
}

#[test]
fn display_round_trips_through_split() {
    let path = BastionPath::root()
        .append(BastionPathElement::Supervisor(id("alpha")))
        .unwrap()
        .append(BastionPathElement::Children(id("beta")))
        .unwrap()
        .append(BastionPathElement::Child(id("gamma")))
        .unwrap();
    let shown = path.display_string();
    let split: Vec<&str> = shown[1..].split('/').collect();
    let ids: Vec<String> = path
        .iter()
        .iter()
        .map(|i| i.as_str().to_string())
        .collect();
    assert_eq!(split, ids);
}

#[test]
fn failed_append_returns_original_path_and_element() {
    let path = BastionPath::root()
        .append(BastionPathElement::Supervisor(id("S1")))
        .unwrap();
    let err = path
        .clone()
        .append(BastionPathElement::Child(id("X")))
        .unwrap_err();
    assert_eq!(err.path.iter(), path.iter());
    assert_eq!(err.path.display_string(), "/S1");
    assert_eq!(err.element.id(), &id("X"));
}
