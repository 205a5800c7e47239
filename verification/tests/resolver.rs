use chunklog::batch::{flatten, tag, Batch};
use chunklog::identity::{default_identity, DataKind, Identity};

fn s(text: &str) -> String {
    text.to_string()
}

#[test]
fn default_identity_of_each_kind() {
    let position = default_identity(DataKind::Position3D);
    assert_eq!(position.component_name, "rerun.components.Position3D");
    assert!(position.archetype_name.is_none());
    assert!(position.archetype_field_name.is_none());

    let color = default_identity(DataKind::Color);
    assert_eq!(color.component_name, "rerun.components.Color");
    assert!(color.archetype_name.is_none());
    assert!(color.archetype_field_name.is_none());
}

#[test]
fn canonical_names() {
    assert_eq!(DataKind::Position3D.canonical_name(), "rerun.components.Position3D");
    assert_eq!(DataKind::Color.canonical_name(), "rerun.components.Color");
}

#[test]
fn construct_leaves_archetype_parts_absent() {
    let id = Identity::construct(s("user.Custom"));
    assert_eq!(id.component_name, "user.Custom");
    assert!(id.archetype_name.is_none());
    assert!(id.archetype_field_name.is_none());
}

#[test]
fn full_override_sets_all_three_parts() {
    let id = Identity::full_override(
        s("user.CustomPoints3D"),
        s("custom_positions"),
        s("user.CustomPosition3D"),
    );
    assert_eq!(id.archetype_name.as_deref(), Some("user.CustomPoints3D"));
    assert_eq!(id.archetype_field_name.as_deref(), Some("custom_positions"));
    assert_eq!(id.component_name, "user.CustomPosition3D");
}

#[test]
fn with_archetype_name_if_absent_fills_only_absent() {
    let id = Identity::construct(s("user.Custom")).with_archetype_name_if_absent("first");
    assert_eq!(id.archetype_name.as_deref(), Some("first"));

    // The field is now present: a second application with a different name
    // is a no-op.
    let id2 = id.clone().with_archetype_name_if_absent("second");
    assert_eq!(id, id2);
}

#[test]
fn with_archetype_field_name_if_absent_is_idempotent() {
    let once = Identity::construct(s("user.Custom")).with_archetype_field_name_if_absent("f1");
    let twice = once.clone().with_archetype_field_name_if_absent("f2");
    assert_eq!(once, twice);
    assert_eq!(once.archetype_field_name.as_deref(), Some("f1"));
}

#[test]
fn identity_equality_is_by_all_three_parts() {
    let a = Identity::full_override(s("g"), s("f"), s("c"));
    let b = Identity::full_override(s("g"), s("f"), s("c"));
    let c = Identity::full_override(s("g"), s("f"), s("d"));
    let d = Identity::construct(s("c"));
    assert_eq!(a, b);
    assert_ne!(a, c);
    assert_ne!(a, d);
}

#[test]
fn identity_order_puts_absent_parts_first() {
    let absent = Identity::construct(s("c"));
    let named = Identity::full_override(s("g"), s("f"), s("c"));
    assert!(absent.lt(&named));
    assert!(!named.lt(&absent));
    assert!(!absent.lt(&absent));
}

#[test]
fn tagging_is_pure_wrapping() {
    let id = Identity::construct(s("user.Custom"));
    let expected = id.clone();
    let tagged = tag(Batch::new(vec![vec![1, 2, 3]]), id);
    assert_eq!(tagged.identity, expected);
    assert_eq!(tagged.batch.values, vec![vec![1, 2, 3]]);
}

#[test]
fn flatten_drops_the_empty_batch() {
    let empty = tag(Batch::new(vec![]), Identity::construct(s("user.Empty")));
    let full = tag(Batch::new(vec![vec![7]]), Identity::construct(s("user.Full")));
    let unit = flatten(vec![empty, full]);
    assert_eq!(unit.batches.len(), 1);
    assert_eq!(unit.batches[0].identity.component_name, "user.Full");
}

#[test]
fn flatten_keeps_populated_batches_in_order() {
    let a = tag(Batch::new(vec![vec![1]]), Identity::construct(s("a")));
    let b = tag(Batch::new(vec![]), Identity::construct(s("b")));
    let c = tag(Batch::new(vec![vec![2], vec![3]]), Identity::construct(s("c")));
    let unit = flatten(vec![a, b, c]);
    assert_eq!(unit.batches.len(), 2);
    assert_eq!(unit.batches[0].identity.component_name, "a");
    assert_eq!(unit.batches[1].identity.component_name, "c");
    assert_eq!(unit.batches[1].batch.len(), 2);
}
