//! Writing the totals to the cache: one `SET` per entry, queued on
//! pipelines of at most [`BATCH_SIZE`] commands each.

use crate::arith::ceil_div;
use crate::cache_key::{cache_key, cache_key_of};
use crate::leaderboard::{AggregateXp, XpEntry};
use vstd::prelude::*;

verus! {

/// The most commands that one pipeline carries.
pub const BATCH_SIZE: usize = 1000;

/// `redis::Pipeline`: commands queued to be sent in one go.  What it holds
/// is spoken of through [`queued_writes`] alone.
#[verifier::external_type_specification]
#[verifier::external_body]
pub struct ExPipeline(redis::Pipeline);

/// The `SET` commands queued on a pipeline, first queued first: the key and
/// the value of each.
pub uninterp spec fn queued_writes(pipeline: redis::Pipeline) -> Seq<(Seq<char>, int)>;

/// `redis::pipe`: a pipeline with no command queued.
#[verifier::external_body]
fn new_pipeline() -> (pipeline: redis::Pipeline)
    ensures
        queued_writes(pipeline) == Seq::<(Seq<char>, int)>::empty(),
{
    redis::pipe()
}

/// `redis::Pipeline::set`: queues `SET key value` behind the commands that
/// the pipeline holds, which stay as they are.
#[verifier::external_body]
fn queue_set(pipeline: &mut redis::Pipeline, key: &str, value: i32)
    ensures
        queued_writes(*final(pipeline)) == queued_writes(*old(pipeline)).push(
            (key@, value as int),
        ),
{
    pipeline.set(key, value);
}

/// The write that stores an entry: its key and its total.
pub open spec fn write_of(entry: XpEntry) -> (Seq<char>, int) {
    (cache_key(entry.gamemode, entry.user_id), entry.xp as int)
}

/// The writes that store a listing, entry by entry.
pub open spec fn writes_of(listing: Seq<XpEntry>) -> Seq<(Seq<char>, int)> {
    Seq::new(listing.len(), |i: int| write_of(listing[i]))
}

/// Where batch `b` of `count` writes ends: a full batch further, or at the
/// last write.
pub open spec fn batch_end(b: int, count: int) -> int {
    if (b + 1) * BATCH_SIZE <= count {
        (b + 1) * BATCH_SIZE
    } else {
        count
    }
}

/// Queues the write of every entry of the totals, in the order of their
/// listing, on pipelines of [`BATCH_SIZE`] commands; only the last pipeline
/// may hold fewer, and none is empty.
pub fn build_batches(totals: &AggregateXp) -> (batches: Vec<redis::Pipeline>)
    ensures
        batches@.len() == ceil_div(totals.listing().len() as int, BATCH_SIZE as int),
        forall|b: int|
            0 <= b < batches@.len() ==> queued_writes(#[trigger] batches@[b]) == writes_of(
                totals.listing(),
            ).subrange(b * BATCH_SIZE, batch_end(b, totals.listing().len() as int)),
{
    let entries: &Vec<XpEntry> = totals.entries();
    let ghost writes = writes_of(entries@);
    let mut batches: Vec<redis::Pipeline> = Vec::new();
    let mut pipeline: redis::Pipeline = new_pipeline();
    let mut batch_count: usize = 0;
    let mut i: usize = 0;
    proof {
        assert(writes.subrange(0, 0) =~= Seq::<(Seq<char>, int)>::empty());
    }
    while i < entries.len()
        invariant
            entries@ == totals.listing(),
            writes == writes_of(entries@),
            i <= entries@.len(),
            batch_count < BATCH_SIZE,
            i == batches@.len() * BATCH_SIZE + batch_count,
            queued_writes(pipeline) == writes.subrange(i - batch_count, i as int),
            forall|b: int|
                0 <= b < batches@.len() ==> queued_writes(#[trigger] batches@[b])
                    == writes.subrange(b * BATCH_SIZE, (b + 1) * BATCH_SIZE),
        decreases entries@.len() - i,
    {
        let entry: XpEntry = entries[i];
        let key: String = cache_key_of(entry.gamemode, entry.user_id);
        queue_set(&mut pipeline, key.as_str(), entry.xp);
        proof {
            assert(writes.subrange(i - batch_count, i as int).push(writes[i as int])
                =~= writes.subrange(i - batch_count, i + 1));
        }
        batch_count = batch_count + 1;
        i = i + 1;
        if batch_count >= BATCH_SIZE {
            batches.push(pipeline);
            pipeline = new_pipeline();
            batch_count = 0;
            proof {
                assert(writes.subrange(i as int, i as int) =~= Seq::<(Seq<char>, int)>::empty());
            }
        }
    }
    let ghost full = batches@.len() as int;
    if batch_count > 0 {
        batches.push(pipeline);
    }
    proof {
        let count = entries@.len() as int;
        assert(count == full * BATCH_SIZE + batch_count);
        assert(full == count / (BATCH_SIZE as int) && batch_count == count % (BATCH_SIZE as int))
            by (nonlinear_arith)
            requires
                count == full * BATCH_SIZE + batch_count,
                0 <= batch_count < BATCH_SIZE,
                BATCH_SIZE == 1000,
                full >= 0,
        ;
        assert forall|b: int| 0 <= b < batches@.len() implies queued_writes(
            #[trigger] batches@[b],
        ) == writes.subrange(b * BATCH_SIZE, batch_end(b, count)) by {
            if b < full {
                assert((b + 1) * BATCH_SIZE <= full * BATCH_SIZE) by (nonlinear_arith)
                    requires
                        b + 1 <= full,
                        BATCH_SIZE == 1000,
                ;
            }
        }
    }
    batches
}

} // verus!
