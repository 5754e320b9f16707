use reconcile::dom::{button, diff, label, stack, Object};
use reconcile::layout::{layout, Node};
use reconcile::program::{convert, handle_line, initial_changeset, Event};
use reconcile::tree::{Operation, Path};

#[test]
fn growth_translates_to_one_create_event() {
    let old: Object<u64> = stack(vec![]);
    let new: Object<u64> = stack(vec![button().text("Go".to_string())]);
    let cs = diff(&old, &new);
    let (events, skipped) = convert(&new, cs);
    assert!(skipped.is_empty());
    assert_eq!(events.len(), 1);
    match &events[0] {
        Event::Create { id, kind, text } => {
            assert_eq!(id, "0");
            assert_eq!(kind, "Button");
            assert_eq!(text, "Go");
        }
        other => panic!("expected a create event, got {:?}", other),
    }
}

#[test]
fn initial_changeset_expands_whole_tree_parent_first() {
    let tree: Object<u64> = stack(vec![stack(vec![label().text("x".to_string())]), button()]);
    let (events, skipped) = convert(&tree, initial_changeset());
    assert!(skipped.is_empty());
    let got: Vec<(String, String, String)> = events
        .iter()
        .map(|e| match e {
            Event::Create { id, kind, text } => (id.clone(), kind.clone(), text.clone()),
            other => panic!("expected only create events, got {:?}", other),
        })
        .collect();
    assert_eq!(
        got,
        vec![
            ("".to_string(), "Stack".to_string(), "".to_string()),
            ("0".to_string(), "Stack".to_string(), "".to_string()),
            ("0.0".to_string(), "Label".to_string(), "x".to_string()),
            ("1".to_string(), "Button".to_string(), "".to_string()),
        ]
    );
}

#[test]
fn label_update_translates_to_text_event() {
    let old: Object<u64> = stack(vec![label().text("a".to_string())]);
    let new: Object<u64> = stack(vec![label().text("b".to_string())]);
    let cs = diff(&old, &new);
    let (events, skipped) = convert(&new, cs);
    assert!(skipped.is_empty());
    assert_eq!(events.len(), 1);
    match &events[0] {
        Event::Update(id, name, value) => {
            assert_eq!(id, "0");
            assert_eq!(name, "Text");
            assert_eq!(value, "b");
        }
        other => panic!("expected an update event, got {:?}", other),
    }
}

#[test]
fn unsupported_update_is_skipped_not_fatal() {
    let old: Object<u64> = stack(vec![button().text("a".to_string()), label().text("x".to_string())]);
    let new: Object<u64> = stack(vec![button().text("b".to_string()), label().text("y".to_string())]);
    let cs = diff(&old, &new);
    let (events, skipped) = convert(&new, cs);
    // the button update has no wire mapping and is skipped; the label update still goes out
    assert_eq!(skipped.len(), 1);
    assert_eq!(skipped[0].0.indices, vec![0]);
    assert_eq!(skipped[0].1, Operation::Update);
    assert_eq!(events.len(), 1);
    match &events[0] {
        Event::Update(id, name, value) => {
            assert_eq!(id, "1");
            assert_eq!(name, "Text");
            assert_eq!(value, "y");
        }
        other => panic!("expected an update event, got {:?}", other),
    }
}

#[test]
fn remove_translates_to_single_remove_event() {
    let tree: Object<u64> = stack(vec![]);
    let cs = vec![(Path::from_vec(vec![5]), Operation::Remove)];
    let (events, skipped) = convert(&tree, cs);
    assert!(skipped.is_empty());
    assert_eq!(events.len(), 1);
    match &events[0] {
        Event::Remove(id) => assert_eq!(id, "5"),
        other => panic!("expected a remove event, got {:?}", other),
    }
}

#[test]
fn click_resolves_to_button_message() {
    let tree: Object<u64> = stack(vec![button().text("Go".to_string()).click(7)]);
    assert_eq!(handle_line(&tree, "click.0"), Ok(Some(7)));
}

#[test]
fn other_commands_resolve_to_no_message() {
    let tree: Object<u64> = stack(vec![button().click(7)]);
    assert_eq!(handle_line(&tree, "resize.0"), Ok(None));
    assert_eq!(handle_line(&tree, "hover.0"), Ok(None));
}

#[test]
fn click_off_a_button_resolves_to_no_message() {
    let tree: Object<u64> = stack(vec![label(), button()]);
    // a stack, a label, a button without a click attribute, a missing node
    assert_eq!(handle_line(&tree, "click"), Ok(None));
    assert_eq!(handle_line(&tree, "click.0"), Ok(None));
    assert_eq!(handle_line(&tree, "click.1"), Ok(None));
    assert_eq!(handle_line(&tree, "click.2"), Ok(None));
}

#[test]
fn click_on_button_root_resolves() {
    let tree: Object<u64> = button().click(9);
    assert_eq!(handle_line(&tree, "click"), Ok(Some(9)));
}

#[test]
fn malformed_lines_are_protocol_errors() {
    let tree: Object<u64> = stack(vec![button().click(7)]);
    assert!(handle_line(&tree, "click.x").is_err());
    assert!(handle_line(&tree, "click.").is_err());
    assert!(handle_line(&tree, "click.0.").is_err());
    assert!(handle_line(&tree, "click..0").is_err());
    assert!(handle_line(&tree, "click.99999999999999999999999999999999").is_err());
    assert!(handle_line(&tree, "click.-1").is_err());
}

#[test]
fn initial_changeset_is_root_create() {
    let cs = initial_changeset();
    assert_eq!(cs.len(), 1);
    assert_eq!(cs[0].0.indices, Vec::<usize>::new());
    assert_eq!(cs[0].1, Operation::Create);
}

#[test]
fn layout_mirrors_dom_shape_with_unit_grow() {
    let tree: Object<u64> = stack(vec![label(), stack(vec![button()])]);
    let root: Node = layout(&tree);
    assert_eq!(root.grow, 0);
    assert_eq!(root.children.len(), 2);
    assert_eq!(root.children[0].grow, 1);
    assert!(root.children[0].children.is_empty());
    assert_eq!(root.children[1].grow, 1);
    assert_eq!(root.children[1].children.len(), 1);
    assert_eq!(root.children[1].children[0].grow, 1);
}
