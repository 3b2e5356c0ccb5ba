//! An object whose stripes are on several nodes: what is read of it is what was written.
use crate::client;
use crate::client::{arrived, received};
use crate::distributed::{committed, location_views, ordered_views, ReadStripe};
use crate::handlers::stripe_data;
use crate::metadata::{ChunkLocation, ChunkView, MetaView};
use crate::order;
use crate::order::arranged;
use crate::payload::{concat, payload};
use crate::placement::{chunks_of, NodeView};
use crate::streaming::{carries, object_chunks, DataChunk};
use crate::stripes;
use crate::stripes::{stripe_bytes, stripe_count, stripe_end, stripes_of, Stripe};
use vstd::prelude::*;

verus! {

/// Every stripe of an object was read, each once, in whatever order.
pub open spec fn read_in_any_order(read: Seq<ReadStripe>, all: Seq<u8>, size: nat) -> bool {
    &&& read.len() == stripe_count(all.len(), size)
    &&& forall|i: int, j: int|
        0 <= i < j < read.len() ==> (#[trigger] read[i]).index != (#[trigger] read[j]).index
    &&& forall|i: int|
        0 <= i < read.len() ==> (#[trigger] read[i]).index < read.len() && payload(read[i].data)
            == stripe_bytes(all, size, read[i].index as int)
}

/// An object whose stripes were all read, in whatever order, is the object that was cut: put in
/// order, they are its stripes, and joined they are its bytes.
pub proof fn distributed_object_is_read_back(read: Seq<ReadStripe>, all: Seq<u8>, size: nat)
    requires
        size > 0,
        read_in_any_order(read, all, size),
    ensures
        stripe_data(arranged(read)) == stripes_of(all, size),
        concat(stripe_data(arranged(read))) == all,
{
    let r = arranged(read);
    order::numbered_elements_find_their_places(read, |x: ReadStripe| x.index as int);
    assert forall|i: int| 0 <= i < r.len() implies #[trigger] stripe_data(r)[i] == stripe_bytes(
        all,
        size,
        i,
    ) by {
        assert(read.contains(r[i]));
        let k = choose|k: int| 0 <= k < read.len() && read[k] == r[i];
        assert(payload(read[k].data) == stripe_bytes(all, size, read[k].index as int));
    }
    assert(stripe_data(r) =~= stripes_of(all, size));
    stripes::stripes_make_up_the_object(all, size);
}

/// A client that is sent those stripes receives the object.
pub proof fn distributed_object_is_received(
    stream: Seq<DataChunk>,
    read: Seq<ReadStripe>,
    all: Seq<u8>,
    size: nat,
)
    requires
        size > 0,
        read_in_any_order(read, all, size),
        carries(stream, object_chunks(stripe_data(arranged(read))), all.len() as int),
    ensures
        received(arrived(stream)) is Ok,
        concat(received(arrived(stream))->Ok_0) == all,
{
    distributed_object_is_read_back(read, all, size);
    client::streamed_object_is_received(stream, stripe_data(arranged(read)));
}

/// The entry names the place of its stripe in an object of `total` bytes.
pub open spec fn locates(c: ChunkView, total: nat, size: nat) -> bool {
    &&& c.offset == c.stripe_index * size
    &&& c.length == stripe_end(total, size, c.stripe_index as int) - c.stripe_index * size
}

/// There is one entry for each stripe of an object of `total` bytes, in whatever order.
pub open spec fn locate_all(locations: Seq<ChunkLocation>, total: nat, size: nat) -> bool {
    &&& locations.len() == stripe_count(total, size)
    &&& forall|i: int, j: int|
        0 <= i < j < locations.len() ==> (#[trigger] locations[i]).stripe_index != (
        #[trigger] locations[j]).stripe_index
    &&& forall|i: int|
        0 <= i < locations.len() ==> (#[trigger] locations[i]).stripe_index < locations.len()
            && locates(locations[i]@, total, size)
}

/// A stripe that was cut from an object is recorded at its place when number, offset and length
/// are taken from it.
pub proof fn cut_stripe_is_located(s: Stripe, all: Seq<u8>, size: nat, i: int, c: ChunkView)
    requires
        size > 0,
        0 <= i < stripe_count(all.len(), size),
        s.is_stripe(all, size, i),
        c.stripe_index == s.index,
        c.offset == s.offset,
        c.length == s.bytes().len(),
    ensures
        locates(c, all.len(), size),
{
    stripes::lemma_stripe_bounds(all.len(), size, i);
}

/// Whichever node reads the published record finds every stripe in it, at the place of its
/// number, and the stripes follow one another through the whole object.
pub proof fn record_locates_every_stripe(
    local: NodeView,
    prepared: MetaView,
    locations: Seq<ChunkLocation>,
    total: u64,
    size: u64,
)
    requires
        size > 0,
        locate_all(locations, total as nat, size as nat),
    ensures
        ({
            let m = committed(prepared, ordered_views(locations), total, size);
            &&& m.size == total
            &&& chunks_of(local, m) == ordered_views(locations)
        }),
        ordered_views(locations).len() == stripe_count(total as nat, size as nat),
        forall|i: int|
            0 <= i < ordered_views(locations).len() ==> {
                let c = #[trigger] ordered_views(locations)[i];
                &&& c.stripe_index == i
                &&& c.offset == i * size
                &&& c.length == stripe_end(total as nat, size as nat, i) - i * size
                &&& location_views(locations).contains(c)
            },
{
    let sorted = arranged(locations);
    order::numbered_elements_find_their_places(
        locations,
        |x: ChunkLocation| x.stripe_index as int,
    );
    let views = ordered_views(locations);
    assert forall|i: int| 0 <= i < views.len() implies {
        let c = #[trigger] views[i];
        &&& c.stripe_index == i
        &&& c.offset == i * size
        &&& c.length == stripe_end(total as nat, size as nat, i) - i * size
        &&& location_views(locations).contains(c)
    } by {
        assert(views[i] == sorted[i]@);
        assert(locations.contains(sorted[i]));
        let k = choose|k: int| 0 <= k < locations.len() && locations[k] == sorted[i];
        assert(locates(locations[k]@, total as nat, size as nat));
        assert(location_views(locations)[k] == views[i]);
    }
}

/// Read `i` is that of entry `order[i]`: every entry of a record was read once, and what came
/// back is what the entry's node keeps under it.
pub open spec fn read_from(
    read: Seq<ReadStripe>,
    order: Seq<int>,
    chunks: Seq<ChunkView>,
    held: spec_fn(ChunkView) -> Seq<u8>,
) -> bool {
    &&& read.len() == chunks.len()
    &&& order.len() == chunks.len()
    &&& forall|i: int, j: int|
        0 <= i < j < order.len() ==> (#[trigger] order[i]) != (#[trigger] order[j])
    &&& forall|i: int|
        0 <= i < order.len() ==> {
            &&& 0 <= (#[trigger] order[i]) < chunks.len()
            &&& read[i].index == chunks[order[i]].stripe_index
            &&& payload(read[i].data) == held(chunks[order[i]])
        }
}

/// An object that was written through one node is read through any node as it was written: its
/// stripes may have been written in any order and may come back in any order, as long as every
/// node gives back what it was sent.
pub proof fn object_is_the_same_on_every_node(
    local: NodeView,
    prepared: MetaView,
    locations: Seq<ChunkLocation>,
    all: Seq<u8>,
    size: u64,
    held: spec_fn(ChunkView) -> Seq<u8>,
    read: Seq<ReadStripe>,
    order: Seq<int>,
)
    requires
        size > 0,
        all.len() <= u64::MAX,
        locate_all(locations, all.len(), size as nat),
        forall|i: int|
            0 <= i < locations.len() ==> held((#[trigger] locations[i])@) == stripe_bytes(
                all,
                size as nat,
                locations[i].stripe_index as int,
            ),
        read_from(
            read,
            order,
            chunks_of(
                local,
                committed(prepared, ordered_views(locations), all.len() as u64, size),
            ),
            held,
        ),
    ensures
        read_in_any_order(read, all, size as nat),
        concat(stripe_data(arranged(read))) == all,
{
    let total = all.len() as u64;
    record_locates_every_stripe(local, prepared, locations, total, size);
    let chunks = ordered_views(locations);
    assert forall|i: int| 0 <= i < read.len() implies (#[trigger] read[i]).index < read.len()
        && payload(read[i].data) == stripe_bytes(all, size as nat, read[i].index as int) by {
        let c = chunks[order[i]];
        assert(location_views(locations).contains(c));
        let k = choose|k: int|
            0 <= k < location_views(locations).len() && location_views(locations)[k] == c;
        assert(locations[k]@ == c);
        assert(held(locations[k]@) == stripe_bytes(
            all,
            size as nat,
            locations[k].stripe_index as int,
        ));
    }
    assert forall|i: int, j: int| 0 <= i < j < read.len() implies (#[trigger] read[i]).index != (
    #[trigger] read[j]).index by {
        assert(order[i] != order[j]);
        assert(chunks[order[i]].stripe_index == order[i]);
        assert(chunks[order[j]].stripe_index == order[j]);
    }
    distributed_object_is_read_back(read, all, size as nat);
}

} // verus!
