use reconcile::dom::{button, diff, field, label, stack, Attribute, Kind, Object};
use reconcile::tree::{find, Operation, Path};

fn ids(cs: &[(Path, Operation)]) -> Vec<(Vec<usize>, Operation)> {
    cs.iter().map(|c| (c.0.indices.clone(), c.1)).collect()
}

#[test]
fn identity_diff_is_empty() {
    let t: Object<u64> = stack(vec![button().text("Go".to_string()), label().text("x".to_string())]);
    let u: Object<u64> = stack(vec![button().text("Go".to_string()), label().text("x".to_string())]);
    let cs = diff(&t, &u);
    assert!(cs.is_empty());
}

#[test]
fn identity_diff_single_node() {
    let t: Object<u64> = field();
    let u: Object<u64> = field();
    assert!(diff(&t, &u).is_empty());
}

#[test]
fn localized_text_update() {
    let old: Object<u64> = stack(vec![button(), label().text("a".to_string())]);
    let new: Object<u64> = stack(vec![button(), label().text("b".to_string())]);
    let cs = diff(&old, &new);
    assert_eq!(ids(&cs), vec![(vec![1], Operation::Update)]);
}

#[test]
fn kind_change_yields_single_create() {
    let old: Object<u64> = stack(vec![stack(vec![label(), label()])]);
    let new: Object<u64> = stack(vec![button()]);
    let cs = diff(&old, &new);
    assert_eq!(ids(&cs), vec![(vec![0], Operation::Create)]);
}

#[test]
fn growth_yields_create_at_new_index() {
    let old: Object<u64> = stack(vec![]);
    let new: Object<u64> = stack(vec![button().text("Go".to_string())]);
    let cs = diff(&old, &new);
    assert_eq!(ids(&cs), vec![(vec![0], Operation::Create)]);
}

#[test]
fn shrink_yields_remove_at_old_index() {
    let old: Object<u64> = stack(vec![label()]);
    let new: Object<u64> = stack(vec![]);
    let cs = diff(&old, &new);
    assert_eq!(ids(&cs), vec![(vec![0], Operation::Remove)]);
}

#[test]
fn update_recurses_into_children() {
    let old: Object<u64> = stack(vec![label().text("a".to_string())]).text("t1".to_string());
    let new: Object<u64> = stack(vec![label().text("b".to_string())]).text("t2".to_string());
    let cs = diff(&old, &new);
    assert_eq!(
        ids(&cs),
        vec![(vec![], Operation::Update), (vec![0], Operation::Update)]
    );
}

#[test]
fn click_payload_changes_are_value_diffs() {
    let old: Object<u64> = stack(vec![button().click(1)]);
    let new: Object<u64> = stack(vec![button().click(2)]);
    let cs = diff(&old, &new);
    assert_eq!(ids(&cs), vec![(vec![0], Operation::Update)]);
}

#[test]
fn builders_append_attributes_in_order() {
    let o: Object<u64> = button()
        .text("Go".to_string())
        .click(1)
        .placeholder("p".to_string())
        .change(2);
    assert_eq!(o.kind, Kind::Button);
    assert_eq!(o.attributes.len(), 4);
    assert!(matches!(o.attributes[0], Attribute::Text(ref t) if t == "Go"));
    assert!(matches!(o.attributes[1], Attribute::Click(1)));
    assert!(matches!(o.attributes[2], Attribute::Placeholder(ref p) if p == "p"));
    assert!(matches!(o.attributes[3], Attribute::Change(2)));
}

#[test]
fn find_resolves_paths() {
    let t: Object<u64> = stack(vec![button(), stack(vec![label()])]);
    assert_eq!(find(&t, &Path::new()).map(|n| n.kind), Some(Kind::Stack));
    assert_eq!(
        find(&t, &Path::from_vec(vec![0])).map(|n| n.kind),
        Some(Kind::Button)
    );
    assert_eq!(
        find(&t, &Path::from_vec(vec![1, 0])).map(|n| n.kind),
        Some(Kind::Label)
    );
    assert!(find(&t, &Path::from_vec(vec![2])).is_none());
    assert!(find(&t, &Path::from_vec(vec![0, 0])).is_none());
}

#[test]
fn path_to_string_is_dot_joined() {
    assert_eq!(Path::new().to_string(), "");
    assert_eq!(Path::from_vec(vec![0]).to_string(), "0");
    assert_eq!(Path::from_vec(vec![0, 1]).to_string(), "0.1");
    assert_eq!(Path::from_vec(vec![12, 3, 405]).to_string(), "12.3.405");
}

#[test]
fn path_push_and_len() {
    let mut p = Path::new();
    assert_eq!(p.len(), 0);
    p.push(4);
    p.push(7);
    assert_eq!(p.len(), 2);
    assert_eq!(p.index(0), 4);
    assert_eq!(p.index(1), 7);
    assert_eq!(p.child(9).indices, vec![4, 7, 9]);
}

#[test]
fn empty_stacks_are_identical() {
    let t: Object<u64> = stack(vec![]);
    let u: Object<u64> = stack(vec![]);
    assert!(diff(&t, &u).is_empty());
}

#[test]
fn placeholder_changes_are_value_diffs() {
    let old: Object<u64> = stack(vec![field().placeholder("name".to_string())]);
    let new: Object<u64> = stack(vec![field().placeholder("city".to_string())]);
    assert_eq!(ids(&diff(&old, &new)), vec![(vec![0], Operation::Update)]);
}

#[test]
fn change_handles_compare_by_identity() {
    let old: Object<u64> = stack(vec![field().change(1)]);
    let same: Object<u64> = stack(vec![field().change(1)]);
    let other: Object<u64> = stack(vec![field().change(2)]);
    assert!(diff(&old, &same).is_empty());
    assert_eq!(ids(&diff(&old, &other)), vec![(vec![0], Operation::Update)]);
}
