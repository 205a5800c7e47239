//! The chunk store: append-only ingestion of logged units into immutable
//! chunks, and identity-level queries over them.

use vstd::prelude::*;
use crate::batch::{column_views, is_populated, flatten, ColumnView, LoggedUnit, TaggedBatch};
use crate::identity::{identity_lt, Identity, IdentityView};
use vstd::string::StrSliceExecFns;

verus! {

/// How many leading chunks of a session are, by convention, metadata records
/// unrelated to any user-logged identity.
pub const LEADING_METADATA_CHUNKS: usize = 2;

/// The version byte recorded in a session's metadata.
pub const STORE_VERSION: u8 = 1;

/// An immutable group of columns, committed as one unit.
///
/// A chunk does not deduplicate within the unit it was committed from: two
/// batches of one unit resolving to the same identity are the producer's
/// responsibility and are stored as given.
#[derive(Debug)]
pub struct Chunk {
    pub columns: Vec<TaggedBatch>,
}

impl View for Chunk {
    type V = Seq<ColumnView>;

    open spec fn view(&self) -> Seq<ColumnView> {
        column_views(self.columns@)
    }
}

impl Chunk {
    /// The columns of this chunk, in committed order.
    pub fn columns(&self) -> (r: &Vec<TaggedBatch>)
        ensures
            column_views(r@) == self@,
    {
        &self.columns
    }
}

/// The views of a sequence of chunks.
pub open spec fn chunk_views(chunks: Seq<Chunk>) -> Seq<Seq<ColumnView>> {
    chunks.map_values(|c: Chunk| c@)
}

/// The views of a sequence of borrowed chunks.
pub open spec fn chunk_ref_views(chunks: Seq<&Chunk>) -> Seq<Seq<ColumnView>> {
    chunks.map_values(|c: &Chunk| c@)
}

/// A caller asked to skip more leading chunks than the store holds.
#[derive(Debug, PartialEq, Eq, Structural)]
pub struct RangeError {
    /// How many leading chunks the caller asked to skip.
    pub requested: usize,
    /// How many chunks the store holds.
    pub available: usize,
}

/// The ordered sequence of chunks constituting one session's data.
///
/// Created at session start (with its leading metadata chunks) or loaded from
/// persisted bytes; grows only by appending whole chunks.
#[derive(Debug)]
pub struct Store {
    pub chunks: Vec<Chunk>,
}

impl View for Store {
    type V = Seq<Seq<ColumnView>>;

    open spec fn view(&self) -> Seq<Seq<ColumnView>> {
        chunk_views(self.chunks@)
    }
}

/// The two metadata chunks that open every session, each holding one column
/// under a reserved identity: the application id, then the store version.
pub open spec fn session_header(app_id: Seq<char>) -> Seq<Seq<ColumnView>> {
    seq![
        seq![
            ColumnView {
                identity: IdentityView {
                    archetype_name: Some("store.properties"@),
                    archetype_field_name: Some("application_id"@),
                    component_name: "store.properties.ApplicationId"@,
                },
                values: seq![vstd::utf8::encode_utf8(app_id)],
            },
        ],
        seq![
            ColumnView {
                identity: IdentityView {
                    archetype_name: Some("store.properties"@),
                    archetype_field_name: Some("store_version"@),
                    component_name: "store.properties.StoreVersion"@,
                },
                values: seq![seq![STORE_VERSION]],
            },
        ],
    ]
}

impl Store {
    /// Opens a fresh session: a store holding exactly the convention-defined
    /// leading metadata chunks and nothing else.
    pub fn new_session(application_id: &str) -> (r: Store)
        ensures
            r@ == session_header(application_id@),
            r@.len() == LEADING_METADATA_CHUNKS,
    {
        let app_identity = Identity::full_override(
            String::from_str("store.properties"),
            String::from_str("application_id"),
            String::from_str("store.properties.ApplicationId"),
        );
        let mut app_values: Vec<Vec<u8>> = Vec::new();
        app_values.push(application_id.as_bytes_vec());
        let app_column = TaggedBatch {
            identity: app_identity,
            batch: crate::batch::Batch::new(app_values),
        };
        let mut app_columns: Vec<TaggedBatch> = Vec::new();
        app_columns.push(app_column);

        let version_identity = Identity::full_override(
            String::from_str("store.properties"),
            String::from_str("store_version"),
            String::from_str("store.properties.StoreVersion"),
        );
        let mut version_bytes: Vec<u8> = Vec::new();
        version_bytes.push(STORE_VERSION);
        let mut version_values: Vec<Vec<u8>> = Vec::new();
        version_values.push(version_bytes);
        let version_column = TaggedBatch {
            identity: version_identity,
            batch: crate::batch::Batch::new(version_values),
        };
        let mut version_columns: Vec<TaggedBatch> = Vec::new();
        version_columns.push(version_column);

        let mut chunks: Vec<Chunk> = Vec::new();
        chunks.push(Chunk { columns: app_columns });
        chunks.push(Chunk { columns: version_columns });
        let r = Store { chunks };
        proof {
            assert(r@ =~~= session_header(application_id@));
        }
        r
    }

    /// Appends one committed logged unit as one new, immutable chunk.  The
    /// append is atomic: no partial chunk is ever observable.
    pub fn commit(&mut self, unit: LoggedUnit)
        ensures
            final(self)@ == old(self)@.push(unit@),
    {
        let ghost before = self@;
        self.chunks.push(Chunk { columns: unit.batches });
        proof {
            assert(self@ =~= before.push(unit@));
        }
    }

    /// The chunks of this store, in persisted/append order.
    pub fn chunks(&self) -> (r: &Vec<Chunk>)
        ensures
            chunk_views(r@) == self@,
    {
        &self.chunks
    }

    /// How many chunks the store holds.
    pub fn chunk_count(&self) -> (r: usize)
        ensures
            r == self@.len(),
    {
        self.chunks.len()
    }

    /// The chunks after the first `n`, which are by convention metadata
    /// records to be excluded before identity comparisons.  `n` is a
    /// caller-supplied constant, not inferred from content.
    ///
    /// Fails with [`RangeError`] exactly when `n` exceeds the chunk count;
    /// skipping all chunks yields an empty listing, not an error.
    pub fn skip_leading(&self, n: usize) -> (r: Result<Vec<&Chunk>, RangeError>)
        ensures
            match r {
                Ok(v) => n <= self@.len() && chunk_ref_views(v@) == self@.skip(n as int),
                Err(e) => n > self@.len() && e == (RangeError {
                    requested: n,
                    available: self@.len() as usize,
                }),
            },
    {
        if n > self.chunks.len() {
            return Err(RangeError { requested: n, available: self.chunks.len() });
        }
        let mut out: Vec<&Chunk> = Vec::new();
        let mut i = n;
        while i < self.chunks.len()
            invariant
                n <= i <= self.chunks.len(),
                chunk_ref_views(out@) == self@.subrange(n as int, i as int),
            decreases self.chunks.len() - i,
        {
            let ghost before = out@;
            let c = &self.chunks[i];
            out.push(c);
            proof {
                assert(chunk_ref_views(before).len() == before.len());
                assert(before.len() == i - n);
                assert(out@.len() == i + 1 - n);
                assert forall|k: int| 0 <= k < out@.len() implies chunk_ref_views(out@)[k]
                    == self@.subrange(n as int, i as int + 1)[k] by {
                    assert(chunk_ref_views(out@)[k] == out@[k]@);
                    if k < out@.len() - 1 {
                        assert(out@[k] == before[k]);
                        assert(chunk_ref_views(before)[k] == before[k]@);
                        assert(chunk_ref_views(before)[k] == self@.subrange(n as int, i as int)[k]);
                    } else {
                        assert(k == i - n);
                        assert(out@[k] == c);
                        assert(self@.subrange(n as int, i as int + 1)[k] == self@[i as int]);
                        assert(self@[i as int] == self.chunks@[i as int]@);
                    }
                }
                assert(chunk_ref_views(out@) =~= self@.subrange(n as int, i as int + 1));
            }
            i += 1;
        }
        proof {
            assert(self@.subrange(n as int, self@.len() as int) =~= self@.skip(n as int));
        }
        Ok(out)
    }
}

/// The identity views of a sequence of identities.
pub open spec fn identity_views(ids: Seq<Identity>) -> Seq<IdentityView> {
    ids.map_values(|x: Identity| x@)
}

/// The distinct identities present in a sequence of columns.
pub open spec fn identity_set(cols: Seq<ColumnView>) -> Set<IdentityView> {
    cols.map_values(|c: ColumnView| c.identity).to_set()
}

/// A canonical listing: strictly ascending in the identity order, hence free
/// of duplicates.
pub open spec fn strictly_sorted(ids: Seq<IdentityView>) -> bool {
    forall|i: int, j: int| 0 <= i < j < ids.len() ==> identity_lt(ids[i], ids[j])
}

/// Membership in a column sequence's identity set, column by column.
pub proof fn lemma_identity_set_contains(cols: Seq<ColumnView>, x: IdentityView)
    ensures
        identity_set(cols).contains(x) <==> exists|k: int|
            0 <= k < cols.len() && (#[trigger] cols[k]).identity == x,
{
    let m = cols.map_values(|c: ColumnView| c.identity);
    if m.contains(x) {
        let k = choose|k: int| 0 <= k < m.len() && m[k] == x;
        assert(cols[k].identity == x);
    }
    if exists|k: int| 0 <= k < cols.len() && (#[trigger] cols[k]).identity == x {
        let k = choose|k: int| 0 <= k < cols.len() && (#[trigger] cols[k]).identity == x;
        assert(m[k] == x);
        assert(m.contains(x));
    }
}

/// Membership in the set of views of a sequence of identities.
proof fn lemma_identity_views_contains(ids: Seq<Identity>, x: IdentityView)
    ensures
        identity_views(ids).to_set().contains(x) <==> exists|k: int|
            0 <= k < ids.len() && (#[trigger] ids[k])@ == x,
{
    let m = identity_views(ids);
    if m.contains(x) {
        let k = choose|k: int| 0 <= k < m.len() && m[k] == x;
        assert(ids[k]@ == x);
    }
    if exists|k: int| 0 <= k < ids.len() && (#[trigger] ids[k])@ == x {
        let k = choose|k: int| 0 <= k < ids.len() && (#[trigger] ids[k])@ == x;
        assert(m[k] == x);
        assert(m.contains(x));
    }
}

/// Taking one more column adds exactly that column's identity to the set.
proof fn lemma_identity_set_take_step(cols: Seq<ColumnView>, i: int)
    requires
        0 <= i < cols.len(),
    ensures
        identity_set(cols.take(i + 1)) == identity_set(cols.take(i)).insert(cols[i].identity),
{
    assert forall|x: IdentityView|
        identity_set(cols.take(i + 1)).contains(x) <==> identity_set(cols.take(i)).insert(
            cols[i].identity,
        ).contains(x) by {
        lemma_identity_set_contains(cols.take(i + 1), x);
        lemma_identity_set_contains(cols.take(i), x);
        if identity_set(cols.take(i + 1)).contains(x) {
            let k = choose|k: int|
                0 <= k < cols.take(i + 1).len() && (#[trigger] cols.take(i + 1)[k]).identity == x;
            if k < i {
                assert(cols.take(i)[k].identity == x);
            } else {
                assert(cols[i].identity == x);
            }
        }
        if identity_set(cols.take(i)).contains(x) {
            let k = choose|k: int|
                0 <= k < cols.take(i).len() && (#[trigger] cols.take(i)[k]).identity == x;
            assert(cols.take(i + 1)[k].identity == x);
        }
        if x == cols[i].identity {
            assert(cols.take(i + 1)[i].identity == x);
        }
    }
    assert(identity_set(cols.take(i + 1)) =~= identity_set(cols.take(i)).insert(
        cols[i].identity,
    ));
}

/// Inserting into a listing inserts its view into the listing's views.
proof fn lemma_identity_views_insert(ids: Seq<Identity>, j: int, v: Identity)
    requires
        0 <= j <= ids.len(),
    ensures
        identity_views(ids.insert(j, v)) == identity_views(ids).insert(j, v@),
{
    ids.insert_ensures(j, v);
    identity_views(ids).insert_ensures(j, v@);
    assert(identity_views(ids.insert(j, v)) =~= identity_views(ids).insert(j, v@));
}

/// Inserting anywhere into a listing adds exactly that element to its set.
proof fn lemma_to_set_of_insert(vs: Seq<IdentityView>, j: int, x: IdentityView)
    requires
        0 <= j <= vs.len(),
    ensures
        vs.insert(j, x).to_set() == vs.to_set().insert(x),
{
    vs.insert_ensures(j, x);
    assert forall|y: IdentityView|
        vs.insert(j, x).to_set().contains(y) <==> vs.to_set().insert(x).contains(y) by {
        if vs.insert(j, x).contains(y) {
            let k = choose|k: int| 0 <= k < vs.insert(j, x).len() && vs.insert(j, x)[k] == y;
            if k < j {
                assert(vs[k] == y);
                assert(vs.contains(y));
            } else if k > j {
                assert(vs.insert(j, x)[k - 1 + 1] == vs[k - 1]);
                assert(vs.contains(y));
            }
        }
        if vs.contains(y) {
            let k = choose|k: int| 0 <= k < vs.len() && vs[k] == y;
            if k < j {
                assert(vs.insert(j, x)[k] == y);
            } else {
                assert(vs.insert(j, x)[k + 1] == y);
            }
            assert(vs.insert(j, x).contains(y));
        }
        if y == x {
            assert(vs.insert(j, x)[j] == y);
            assert(vs.insert(j, x).contains(y));
        }
    }
    assert(vs.insert(j, x).to_set() =~= vs.to_set().insert(x));
}

/// The distinct identities present in a chunk, deduplicated, in the canonical
/// (ascending) order, for deterministic comparison across runs.
pub fn identities_of(chunk: &Chunk) -> (r: Vec<Identity>)
    ensures
        strictly_sorted(identity_views(r@)),
        identity_views(r@).to_set() == identity_set(chunk@),
{
    let mut out: Vec<Identity> = Vec::new();
    let n = chunk.columns.len();
    let mut i: usize = 0;
    proof {
        assert(chunk@.take(0) =~= Seq::<ColumnView>::empty());
        assert forall|x: IdentityView| !identity_set(chunk@.take(0)).contains(x) by {
            lemma_identity_set_contains(chunk@.take(0), x);
        }
        assert forall|x: IdentityView| !identity_views(out@).to_set().contains(x) by {
            lemma_identity_views_contains(out@, x);
        }
        assert(identity_views(out@).to_set() =~= identity_set(chunk@.take(0)));
    }
    while i < n
        invariant
            i <= n,
            n == chunk.columns.len(),
            strictly_sorted(identity_views(out@)),
            identity_views(out@).to_set() == identity_set(chunk@.take(i as int)),
        decreases n - i,
    {
        let id = &chunk.columns[i].identity;
        proof {
            assert(chunk@[i as int].identity == id@);
        }
        let mut j: usize = 0;
        while j < out.len() && out[j].lt(id)
            invariant
                j <= out.len(),
                forall|k: int| 0 <= k < j ==> identity_lt(#[trigger] identity_views(out@)[k], id@),
            decreases out.len() - j,
        {
            proof {
                assert(identity_views(out@)[j as int] == out@[j as int]@);
            }
            j += 1;
        }
        let ghost before = out@;
        let is_dup = j < out.len() && out[j] == *id;
        if is_dup {
            proof {
                assert(identity_views(out@)[j as int] == id@);
                assert(identity_views(out@).to_set().contains(id@));
                lemma_identity_set_take_step(chunk@, i as int);
                assert(identity_set(chunk@.take(i as int)).insert(id@) =~= identity_set(
                    chunk@.take(i as int),
                ));
            }
        } else {
            out.insert(j, id.clone());
            proof {
                let vs = identity_views(before);
                if (j as int) < before.len() {
                    assert(identity_views(before)[j as int] == before[j as int]@);
                    crate::identity::lemma_identity_lt_connected(id@, vs[j as int]);
                    assert(identity_lt(id@, vs[j as int]));
                }
                assert forall|k: int| j <= k < vs.len() implies identity_lt(
                    id@,
                    #[trigger] vs[k],
                ) by {
                    if k > j {
                        crate::identity::lemma_identity_lt_transitive(id@, vs[j as int], vs[k]);
                    }
                }
                lemma_identity_views_insert(before, j as int, out@[j as int]);
                assert(out@[j as int]@ == id@);
                assert(out@ == before.insert(j as int, out@[j as int]));
                let nvs = identity_views(out@);
                assert(nvs == vs.insert(j as int, id@));
                vs.insert_ensures(j as int, id@);
                assert forall|p: int, q: int| 0 <= p < q < nvs.len() implies identity_lt(
                    nvs[p],
                    nvs[q],
                ) by {
                    if q < j {
                    } else if p < j && q == j {
                        assert(nvs[p] == vs[p]);
                        assert(identity_lt(vs[p], id@));
                    } else if p < j && q > j {
                        assert(nvs[q] == vs[q - 1]);
                    } else if p == j {
                        assert(nvs[q] == vs[q - 1]);
                        assert(identity_lt(id@, vs[q - 1]));
                    } else {
                        assert(nvs[p] == vs[p - 1]);
                        assert(nvs[q] == vs[q - 1]);
                    }
                }
                lemma_to_set_of_insert(vs, j as int, id@);
                lemma_identity_set_take_step(chunk@, i as int);
            }
        }
        i += 1;
    }
    proof {
        assert(chunk@.take(n as int) =~= chunk@);
    }
    out
}

/// Two canonical listings of the same identity set are the same listing:
/// strictly sorted, duplicate-free sequences are determined by their set of
/// elements.  This is what makes the listing of [`identities_of`] a sound
/// basis for exact, order-independent set comparison.
pub proof fn lemma_canonical_listing_unique(a: Seq<IdentityView>, b: Seq<IdentityView>)
    requires
        strictly_sorted(a),
        strictly_sorted(b),
        a.to_set() == b.to_set(),
    ensures
        a == b,
    decreases a.len(),
{
    if a.len() == 0 {
        if b.len() > 0 {
            assert(b.contains(b[0]));
            assert(a.to_set().contains(b[0]));
            let k = choose|k: int| 0 <= k < a.len() && a[k] == b[0];
            assert(false);
        }
        assert(a =~= b);
    } else if b.len() == 0 {
        assert(a.contains(a[0]));
        assert(b.to_set().contains(a[0]));
        let k = choose|k: int| 0 <= k < b.len() && b[k] == a[0];
        assert(false);
    } else {
        let x = a[0];
        let y = b[0];
        assert(a.contains(x));
        assert(b.to_set().contains(x));
        let jx = choose|k: int| 0 <= k < b.len() && b[k] == x;
        assert(b.contains(y));
        assert(a.to_set().contains(y));
        let ky = choose|k: int| 0 <= k < a.len() && a[k] == y;
        if jx > 0 && ky > 0 {
            assert(identity_lt(y, x));
            assert(identity_lt(x, y));
            crate::identity::lemma_identity_lt_asymmetric(x, y);
        }
        assert(x == y);
        let at = a.skip(1);
        let bt = b.skip(1);
        assert forall|p: int, q: int| 0 <= p < q < at.len() implies identity_lt(
            at[p],
            at[q],
        ) by {
            assert(at[p] == a[p + 1]);
            assert(at[q] == a[q + 1]);
        }
        assert forall|p: int, q: int| 0 <= p < q < bt.len() implies identity_lt(
            bt[p],
            bt[q],
        ) by {
            assert(bt[p] == b[p + 1]);
            assert(bt[q] == b[q + 1]);
        }
        assert forall|z: IdentityView| at.to_set().contains(z) <==> bt.to_set().contains(z) by {
            crate::identity::lemma_identity_lt_asymmetric(z, z);
            if at.contains(z) {
                let k = choose|k: int| 0 <= k < at.len() && at[k] == z;
                assert(a[k + 1] == z);
                assert(identity_lt(x, z));
                assert(a.contains(z));
                assert(b.to_set().contains(z));
                let m = choose|m: int| 0 <= m < b.len() && b[m] == z;
                assert(m != 0);
                assert(bt[m - 1] == z);
                assert(bt.contains(z));
            }
            if bt.contains(z) {
                let k = choose|k: int| 0 <= k < bt.len() && bt[k] == z;
                assert(b[k + 1] == z);
                assert(identity_lt(y, z));
                assert(b.contains(z));
                assert(a.to_set().contains(z));
                let m = choose|m: int| 0 <= m < a.len() && a[m] == z;
                assert(m != 0);
                assert(at[m - 1] == z);
                assert(at.contains(z));
            }
        }
        assert(at.to_set() =~= bt.to_set());
        lemma_canonical_listing_unique(at, bt);
        assert forall|k: int| 0 <= k < a.len() implies a[k] == b[k] by {
            if k > 0 {
                assert(a[k] == at[k - 1]);
                assert(b[k] == bt[k - 1]);
            }
        }
        assert(a =~= b);
    }
}

/// The canonical identity listing is insensitive to the order in which a
/// unit's batches were committed: two units holding the same batches, in any
/// order, have canonical listings that are equal.  The hypotheses on `r1` and
/// `r2` are exactly what [`identities_of`] ensures of its result.
pub proof fn lemma_identities_order_insensitive(
    u1: Seq<ColumnView>,
    u2: Seq<ColumnView>,
    r1: Seq<IdentityView>,
    r2: Seq<IdentityView>,
)
    requires
        u1.to_multiset() == u2.to_multiset(),
        strictly_sorted(r1),
        r1.to_set() == identity_set(u1),
        strictly_sorted(r2),
        r2.to_set() == identity_set(u2),
    ensures
        r1 == r2,
{
    broadcast use vstd::seq_lib::group_to_multiset_ensures;

    assert forall|x: IdentityView|
        identity_set(u1).contains(x) <==> identity_set(u2).contains(x) by {
        lemma_identity_set_contains(u1, x);
        lemma_identity_set_contains(u2, x);
        if identity_set(u1).contains(x) {
            let k = choose|k: int| 0 <= k < u1.len() && (#[trigger] u1[k]).identity == x;
            assert(u1.contains(u1[k]));
            assert(u1.to_multiset().contains(u1[k]));
            assert(u2.to_multiset().contains(u1[k]));
            assert(u2.contains(u1[k]));
            let m = choose|m: int| 0 <= m < u2.len() && u2[m] == u1[k];
            assert(u2[m].identity == x);
        }
        if identity_set(u2).contains(x) {
            let k = choose|k: int| 0 <= k < u2.len() && (#[trigger] u2[k]).identity == x;
            assert(u2.contains(u2[k]));
            assert(u2.to_multiset().contains(u2[k]));
            assert(u1.to_multiset().contains(u2[k]));
            assert(u1.contains(u2[k]));
            let m = choose|m: int| 0 <= m < u1.len() && u1[m] == u2[k];
            assert(u1[m].identity == x);
        }
    }
    assert(identity_set(u1) =~= identity_set(u2));
    lemma_canonical_listing_unique(r1, r2);
}

/// Anything that can be logged: the capability to serialize oneself into an
/// ordered list of tagged batches.  Concrete producer data groupings
/// implement this.
pub trait Loggable {
    /// The tagged batches of this value, in producer order.
    fn as_tagged_batches(&self) -> Vec<TaggedBatch>;
}

impl Store {
    /// Logs one producer value as one atomic unit: its tagged batches are
    /// flattened (zero-length batches are dropped) and committed as one new
    /// chunk.
    ///
    /// Nothing is specified of which batches a value serializes to, so this
    /// states what holds of every outcome: exactly one chunk is appended, the
    /// existing chunks are untouched, and the new chunk holds no empty
    /// column.
    pub fn log<T: Loggable>(&mut self, value: &T)
        ensures
            final(self)@.len() == old(self)@.len() + 1,
            final(self)@.subrange(0, old(self)@.len() as int) == old(self)@,
            forall|k: int|
                0 <= k < final(self)@.last().len() ==> is_populated(#[trigger] final(self)@.last()[k]),
    {
        let batches = value.as_tagged_batches();
        let unit = flatten(batches);
        proof {
            crate::batch::lemma_drop_empty_populated(column_views(batches@));
        }
        self.commit(unit);
        proof {
            assert(self@.subrange(0, self@.len() - 1) =~= old(self)@);
        }
    }
}


} // verus!
