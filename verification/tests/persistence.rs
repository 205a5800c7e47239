use chunklog::batch::{flatten, tag, Batch, TaggedBatch};
use chunklog::codec::LoadError;
use chunklog::identity::{default_identity, DataKind, Identity};
use chunklog::store::{identities_of, Store, LEADING_METADATA_CHUNKS};

fn s(text: &str) -> String {
    text.to_string()
}

#[test]
fn open_of_zero_bytes_is_a_load_error() {
    let err = Store::open(&vec![]).unwrap_err();
    assert_eq!(err, LoadError);
}

#[test]
fn open_of_truncated_input_is_a_load_error() {
    let store = Store::new_session("app");
    let mut bytes = store.save();
    bytes.truncate(bytes.len() - 1);
    assert!(Store::open(&bytes).is_err());
}

#[test]
fn open_of_trailing_garbage_is_a_load_error() {
    let store = Store::new_session("app");
    let mut bytes = store.save();
    bytes.push(0);
    assert!(Store::open(&bytes).is_err());
}

#[test]
fn open_of_a_bad_presence_byte_is_a_load_error() {
    let store = Store::new_session("app");
    let mut bytes = store.save();
    // The first column starts right after the chunk count and the first
    // chunk's column count; its leading byte marks an optional string and
    // may only be 0 or 1.
    bytes[8] = 7;
    assert!(Store::open(&bytes).is_err());
}

#[test]
fn open_of_invalid_utf8_is_a_load_error() {
    let mut store = Store::new_session("app");
    store.commit(flatten(vec![tag(
        Batch::new(vec![vec![1]]),
        Identity::construct(s("zz")),
    )]));
    let bytes = store.save();
    // Corrupt the two bytes of the component name "zz" of the last column.
    let mut broken = bytes.clone();
    let mut corrupted = 0;
    for i in 0..broken.len() - 1 {
        if broken[i] == b'z' && broken[i + 1] == b'z' {
            broken[i] = 0xff;
            broken[i + 1] = 0xff;
            corrupted += 1;
        }
    }
    assert_eq!(corrupted, 1);
    assert!(Store::open(&broken).is_err());
}

#[test]
fn empty_session_reopens_with_exactly_the_metadata_chunks() {
    let store = Store::new_session("my_app");
    let bytes = store.save();
    let reopened = Store::open(&bytes).unwrap();
    assert_eq!(reopened.chunk_count(), LEADING_METADATA_CHUNKS);
    let rest = reopened.skip_leading(LEADING_METADATA_CHUNKS).unwrap();
    assert!(rest.is_empty());
}

#[test]
fn save_and_open_round_trip_preserves_everything() {
    let mut store = Store::new_session("app");
    let id = Identity::full_override(s("user.G"), s("f"), s("user.C"));
    store.commit(flatten(vec![tag(Batch::new(vec![vec![1, 2], vec![]]), id.clone())]));
    let bytes = store.save();
    let reopened = Store::open(&bytes).unwrap();

    assert_eq!(reopened.chunk_count(), 3);
    let chunk = &reopened.chunks()[2];
    assert_eq!(chunk.columns().len(), 1);
    assert_eq!(chunk.columns()[0].identity, id);
    assert_eq!(chunk.columns()[0].batch.values, vec![vec![1, 2], vec![]]);
}

#[test]
fn reopened_metadata_records_the_application_id() {
    let store = Store::new_session("my_app");
    let bytes = store.save();
    let reopened = Store::open(&bytes).unwrap();
    let first = &reopened.chunks()[0];
    assert_eq!(first.columns()[0].batch.values, vec![b"my_app".to_vec()]);
    assert_eq!(
        first.columns()[0].identity.component_name,
        "store.properties.ApplicationId"
    );
}

#[test]
fn end_to_end_custom_archetype_identities() {
    // One unit with two fields: positions under a full override, colors under
    // a default identity with both archetype parts filled in lazily.
    let position_identity = Identity::full_override(
        s("user.CustomPoints3D"),
        s("custom_positions"),
        s("user.CustomPosition3D"),
    );
    let color_identity = default_identity(DataKind::Color)
        .with_archetype_name_if_absent("user.CustomPoints3D")
        .with_archetype_field_name_if_absent("colors");

    let positions: Vec<TaggedBatch> = vec![
        tag(Batch::new(vec![vec![0; 12]]), position_identity),
        tag(Batch::new(vec![vec![0xFF, 0x00, 0xFF, 0xFF]]), color_identity),
    ];

    let mut store = Store::new_session("custom_archetype_example");
    store.commit(flatten(positions));
    let bytes = store.save();

    let reopened = Store::open(&bytes).unwrap();
    let user_chunks = reopened.skip_leading(2).unwrap();
    assert_eq!(user_chunks.len(), 1);

    let ids = identities_of(user_chunks[0]);
    let expected = vec![
        Identity::full_override(
            s("user.CustomPoints3D"),
            s("colors"),
            s("rerun.components.Color"),
        ),
        Identity::full_override(
            s("user.CustomPoints3D"),
            s("custom_positions"),
            s("user.CustomPosition3D"),
        ),
    ];
    assert_eq!(ids, expected);
}
