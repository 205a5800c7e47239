use chunklog::batch::{flatten, tag, Batch, TaggedBatch};
use chunklog::identity::Identity;
use chunklog::store::{identities_of, Loggable, RangeError, Store, LEADING_METADATA_CHUNKS};

fn s(text: &str) -> String {
    text.to_string()
}

fn named(component: &str) -> Identity {
    Identity::construct(s(component))
}

fn batch_of(component: &str, payload: u8) -> TaggedBatch {
    tag(Batch::new(vec![vec![payload]]), named(component))
}

#[test]
fn new_session_holds_only_the_metadata_chunks() {
    let store = Store::new_session("app");
    assert_eq!(store.chunk_count(), LEADING_METADATA_CHUNKS);
    assert_eq!(store.chunks().len(), 2);
}

#[test]
fn commit_appends_one_chunk_per_unit() {
    let mut store = Store::new_session("app");
    store.commit(flatten(vec![batch_of("user.A", 1)]));
    store.commit(flatten(vec![batch_of("user.B", 2), batch_of("user.C", 3)]));
    assert_eq!(store.chunk_count(), 4);
    assert_eq!(store.chunks()[2].columns().len(), 1);
    assert_eq!(store.chunks()[3].columns().len(), 2);
}

#[test]
fn identities_of_deduplicates_and_sorts() {
    let mut store = Store::new_session("app");
    store.commit(flatten(vec![
        batch_of("user.B", 1),
        batch_of("user.A", 2),
        batch_of("user.B", 3),
    ]));
    let chunk = &store.chunks()[2];
    let ids = identities_of(chunk);
    assert_eq!(ids, vec![named("user.A"), named("user.B")]);
}

#[test]
fn identities_of_is_order_insensitive() {
    let mut first = Store::new_session("app");
    first.commit(flatten(vec![batch_of("user.B1", 1), batch_of("user.B2", 2)]));
    let mut second = Store::new_session("app");
    second.commit(flatten(vec![batch_of("user.B2", 2), batch_of("user.B1", 1)]));

    let ids_first = identities_of(&first.chunks()[2]);
    let ids_second = identities_of(&second.chunks()[2]);
    assert_eq!(ids_first, ids_second);
}

#[test]
fn skip_leading_returns_the_user_chunks() {
    let mut store = Store::new_session("app");
    store.commit(flatten(vec![batch_of("user.A", 1)]));
    let rest = store.skip_leading(2).unwrap();
    assert_eq!(rest.len(), 1);
    assert_eq!(identities_of(rest[0]), vec![named("user.A")]);
}

#[test]
fn skip_leading_of_everything_is_empty_not_an_error() {
    let store = Store::new_session("app");
    let rest = store.skip_leading(2).unwrap();
    assert!(rest.is_empty());
}

#[test]
fn skip_leading_past_the_end_is_a_range_error() {
    let store = Store::new_session("app");
    let err = store.skip_leading(3).unwrap_err();
    assert_eq!(err, RangeError { requested: 3, available: 2 });
}

struct TwoFields {
    left: Vec<u8>,
    right: Vec<u8>,
}

impl Loggable for TwoFields {
    fn as_tagged_batches(&self) -> Vec<TaggedBatch> {
        vec![
            tag(
                Batch::new(self.left.iter().map(|b| vec![*b]).collect()),
                named("user.Left"),
            ),
            tag(
                Batch::new(self.right.iter().map(|b| vec![*b]).collect()),
                named("user.Right"),
            ),
        ]
    }
}

#[test]
fn log_flattens_and_commits_one_chunk() {
    let mut store = Store::new_session("app");
    store.log(&TwoFields { left: vec![1, 2], right: vec![] });
    assert_eq!(store.chunk_count(), 3);
    // The empty right-hand batch was dropped by flattening.
    let ids = identities_of(&store.chunks()[2]);
    assert_eq!(ids, vec![named("user.Left")]);
}
