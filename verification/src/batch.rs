//! Batches of logged values, tagging, and the flattening of one producer
//! call's batches into a logged unit.

use vstd::prelude::*;
use crate::identity::{Identity, IdentityView};

verus! {

/// A homogeneous sequence of same-kind values.  Each value is carried as its
/// opaque encoded payload; the encoding itself is owned by a lower layer.
#[derive(Debug)]
pub struct Batch {
    pub values: Vec<Vec<u8>>,
}

impl View for Batch {
    type V = Seq<Seq<u8>>;

    open spec fn view(&self) -> Seq<Seq<u8>> {
        self.values.deep_view()
    }
}

impl Batch {
    /// Wraps already-encoded values into a batch.
    pub fn new(values: Vec<Vec<u8>>) -> (r: Batch)
        ensures
            r@ == values.deep_view(),
    {
        Batch { values }
    }

    /// The number of values in this batch.
    pub fn len(&self) -> (r: usize)
        ensures
            r == self@.len(),
    {
        self.values.len()
    }
}

/// The mathematical value of a tagged batch: one column of a chunk.
#[verifier::ext_equal]
pub struct ColumnView {
    pub identity: IdentityView,
    pub values: Seq<Seq<u8>>,
}

/// A batch paired with exactly one resolved identity.
#[derive(Debug)]
pub struct TaggedBatch {
    pub identity: Identity,
    pub batch: Batch,
}

impl View for TaggedBatch {
    type V = ColumnView;

    open spec fn view(&self) -> ColumnView {
        ColumnView { identity: self.identity@, values: self.batch@ }
    }
}

/// Pairs a batch with its resolved identity.
///
/// A pure wrapping operation: there is no validation against any schema
/// registry, so any syntactically valid identity is accepted, including one
/// that collides with another kind's default identity.  This is what lets a
/// producer-defined grouping extend a built-in grouping's namespace.
pub fn tag(batch: Batch, identity: Identity) -> (r: TaggedBatch)
    ensures
        r@ == (ColumnView { identity: identity@, values: batch@ }),
{
    TaggedBatch { identity, batch }
}

/// The columns described by a sequence of tagged batches, in order.
pub open spec fn column_views(batches: Seq<TaggedBatch>) -> Seq<ColumnView> {
    batches.map_values(|b: TaggedBatch| b@)
}

/// A column that actually holds data.
pub open spec fn is_populated(c: ColumnView) -> bool {
    c.values.len() > 0
}

/// The columns that survive flattening: the populated ones, in order.
pub open spec fn drop_empty(cols: Seq<ColumnView>) -> Seq<ColumnView> {
    cols.filter(|c: ColumnView| is_populated(c))
}

/// Everything that flattening keeps holds data: a logged unit's batch list
/// never contains a zero-length batch.
pub proof fn lemma_drop_empty_populated(cols: Seq<ColumnView>)
    ensures
        forall|i: int| 0 <= i < drop_empty(cols).len() ==> is_populated(#[trigger] drop_empty(cols)[i]),
{
    broadcast use vstd::seq_lib::group_filter_ensures;

}

/// The ordered batches produced by one producer call, committed atomically.
///
/// Constructed by [`flatten`], so it never holds a zero-length batch.
#[derive(Debug)]
pub struct LoggedUnit {
    pub batches: Vec<TaggedBatch>,
}

impl View for LoggedUnit {
    type V = Seq<ColumnView>;

    open spec fn view(&self) -> Seq<ColumnView> {
        column_views(self.batches@)
    }
}

/// Flattens the tagged batches of one producer call into a logged unit,
/// dropping every zero-length batch.
///
/// This is how an optional field that was not populated at log time is
/// silently omitted rather than recorded as an empty column.
pub fn flatten(batches: Vec<TaggedBatch>) -> (r: LoggedUnit)
    ensures
        r@ == drop_empty(column_views(batches@)),
{
    broadcast use vstd::seq_lib::group_filter_ensures;

    let ghost orig = column_views(batches@);
    let ghost processed = Seq::<ColumnView>::empty();
    let mut rest = batches;
    let mut out: Vec<TaggedBatch> = Vec::new();
    proof {
        assert(orig =~= processed + column_views(rest@));
        assert(column_views(out@) =~= drop_empty(processed)) by {
            reveal_with_fuel(Seq::filter, 1);
        }
    }
    while rest.len() > 0
        invariant
            orig == processed + column_views(rest@),
            column_views(out@) == drop_empty(processed),
        decreases rest.len(),
    {
        let ghost old_processed = processed;
        let ghost old_rest = rest@;
        let ghost old_out = out@;
        let b = rest.remove(0);
        let keep = b.batch.len() > 0;
        if keep {
            out.push(b);
        }
        proof {
            processed = old_processed.push(b@);
            assert(column_views(old_rest) =~= seq![b@] + column_views(rest@));
            assert(old_processed + column_views(old_rest) =~= processed + column_views(rest@));
            assert(processed =~= old_processed + seq![b@]);
            Seq::filter_distributes_over_add(
                old_processed,
                seq![b@],
                |c: ColumnView| is_populated(c),
            );
            assert(seq![b@].filter(|c: ColumnView| is_populated(c)) =~= (if is_populated(b@) {
                seq![b@]
            } else {
                Seq::<ColumnView>::empty()
            })) by {
                reveal_with_fuel(Seq::filter, 2);
                assert(seq![b@].drop_last() =~= Seq::<ColumnView>::empty());
            }
            if keep {
                assert(column_views(out@) =~= column_views(old_out).push(b@));
                assert(column_views(out@) =~= drop_empty(processed));
            } else {
                assert(column_views(out@) =~= drop_empty(processed));
            }
        }
    }
    proof {
        assert(column_views(rest@) =~= Seq::<ColumnView>::empty());
        assert(orig =~= processed);
    }
    LoggedUnit { batches: out }
}

} // verus!
