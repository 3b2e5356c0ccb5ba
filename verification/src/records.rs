//! What a value says is what its fields hold, and what it takes to accept one.
use crate::convert::{given, said};
use crate::distributed::{location_views, ReadStripe};
use crate::error::{Code, KVError, Status};
use crate::gds;
use crate::get_flow::{asked_placement, reads_stripes, says_not_found, striping_of, GetAction};
use crate::handlers::{
    gpu_fault, placement_view, stripe_data, GetResponse, GpuSupport, PlannedPut, PutItem,
};
use crate::inspect::{count_in, in_order, record_prefix, shown_time, NamespaceSummary};
use crate::io_rounds::{plan_views, IoRounds};
use crate::io_plan::Piece;
use crate::key;
use crate::key::KeyView;
use crate::memory_tier::{answers, answers_segments};
use crate::metadata::{BlockMeta, ChunkLocation, MetaView, StripingInfo};
use crate::metrics::{update_views, Update};
use crate::payload::{payload, payloads};
use crate::pb;
use crate::pb::{DescriptorView, PlacementView};
use crate::placement::{
    chunk_views, handle_of, node_views, offsets_fit, stripe_offsets_fit, DataNode,
};
use crate::text;
use crate::text::{all_digits, decimal, is_digit};
use crate::texts;
use prost::bytes::Bytes;
use vstd::prelude::*;
use vstd::string::*;

verus! {

/// A recorded location says what its fields hold.
pub proof fn location_says_what_it_holds(x: ChunkLocation)
    ensures
        x@.stripe_index == x.stripe_index,
        x@.node_id == x.node_id@,
        x@.grpc_endpoint == x.grpc_endpoint@,
        x@.rdma_endpoint == x.rdma_endpoint@,
        x@.device_id == x.device_id,
        x@.storage_handle == x.storage_handle@,
        x@.offset == x.offset,
        x@.length == x.length,
        x@.checksum == x.checksum@,
{
}

/// A recorded layout says what its fields hold.
pub proof fn striping_says_what_it_holds(x: StripingInfo)
    ensures
        x@.chunk_size == x.chunk_size,
        x@.chunk_devices == x.chunk_devices@,
        x@.chunk_paths == text::views(x.chunk_paths@),
        x@.total_size == x.total_size,
        x@.chunk_checksums == text::views(x.chunk_checksums@),
        x@.chunk_locations == location_views(x.chunk_locations@),
{
}

/// A record says what its fields hold.
pub proof fn record_says_what_it_holds(x: BlockMeta)
    ensures
        x@.device_id == x.device_id,
        x@.file_path == x.file_path@,
        x@.size == x.size,
        x@.object_handle == x.object_handle@,
        x@.object_generation == x.object_generation,
        x@.content_etag == x.content_etag@,
        x@.layout_version == x.layout_version,
        x@.created_at == x.created_at,
        x@.last_accessed_at == x.last_accessed_at,
        x@.ttl_seconds == x.ttl_seconds,
        x@.num_tokens == x.num_tokens,
        x@.num_layers == x.num_layers,
        x@.dtype == x.dtype@,
        x@.compressed == x.compressed,
        x.striping is None <==> x@.striping is None,
        x.striping is Some ==> x@.striping->0 == x.striping->0@,
{
}

/// A key says what its fields hold.
pub proof fn key_says_what_it_holds(x: key::ObjectKey)
    ensures
        x@.namespace == x.namespace@,
        x@.object_key == x.object_key@,
{
}

/// A key in a message says what its fields hold.
pub proof fn sent_key_says_what_it_holds(x: pb::ObjectKey)
    ensures
        x@.namespace == x.namespace@,
        x@.object_key == x.object_key@,
{
}

/// What a message tells of a value is what its fields hold.
pub proof fn sent_metadata_says_what_it_holds(x: pb::KvMetadata)
    ensures
        x@.num_tokens == x.num_tokens,
        x@.num_layers == x.num_layers,
        x@.dtype == x.dtype@,
        x@.shape == x.shape@,
        x@.compressed == x.compressed,
        x@.compression_level == x.compression_level,
        x@.created_at == x.created_at,
        x@.last_accessed_at == x.last_accessed_at,
{
}

/// A location in a message says what its fields hold.
pub proof fn sent_chunk_says_what_it_holds(x: pb::PlacementChunk)
    ensures
        x@.stripe_index == x.stripe_index,
        x@.node_id == x.node_id@,
        x@.grpc_endpoint == x.grpc_endpoint@,
        x@.rdma_endpoint == x.rdma_endpoint@,
        x@.device_id == x.device_id,
        x@.storage_handle == x.storage_handle@,
        x@.offset == x.offset,
        x@.length == x.length,
        x@.checksum == x.checksum@,
{
}

/// A descriptor says what its fields hold.
pub proof fn sent_descriptor_says_what_it_holds(x: pb::ObjectDescriptor)
    ensures
        x@.object_handle == x.object_handle@,
        x@.object_generation == x.object_generation,
        x@.content_etag == x.content_etag@,
        x@.layout_version == x.layout_version,
        x@.size == x.size,
        x@.is_striped == x.is_striped,
        x@.stripe_count == x.stripe_count,
        x@.chunk_size == x.chunk_size,
        x.key is None <==> x@.key is None,
        x.key is Some ==> x@.key->0 == x.key->0@,
{
}

/// A placement says what its fields hold.
pub proof fn sent_placement_says_what_it_holds(x: pb::PlacementDescriptor)
    ensures
        x@.placement_epoch == x.placement_epoch,
        x@.placement_policy_id == x.placement_policy_id@,
        x@.layout_hash == x.layout_hash@,
        x@.primary_node_id == x.primary_node_id@,
        x@.primary_grpc_endpoint == x.primary_grpc_endpoint@,
        x@.primary_rdma_endpoint == x.primary_rdma_endpoint@,
        x.key is None <==> x@.key is None,
        x.key is Some ==> x@.key->0 == x.key->0@,
        x@.chunks == chunk_views(x.chunks@),
{
}

/// A node says what its fields hold.
pub proof fn node_says_what_it_holds(x: DataNode)
    ensures
        x@.node_id == x.node_id@,
        x@.grpc_endpoint == x.grpc_endpoint@,
        x@.rdma_endpoint == x.rdma_endpoint@,
{
}

/// Lists say what their elements say, each at its place.
pub proof fn lists_say_what_their_elements_say(
    locations: Seq<ChunkLocation>,
    chunks: Seq<pb::PlacementChunk>,
    nodes: Seq<DataNode>,
    updates: Seq<Update>,
    texts: Seq<String>,
    plans: Seq<Vec<Piece>>,
    segments: Seq<Bytes>,
    stripes: Seq<ReadStripe>,
    i: int,
)
    ensures
        location_views(locations).len() == locations.len(),
        0 <= i < locations.len() ==> location_views(locations)[i] == locations[i]@,
        chunk_views(chunks).len() == chunks.len(),
        0 <= i < chunks.len() ==> chunk_views(chunks)[i] == chunks[i]@,
        node_views(nodes).len() == nodes.len(),
        0 <= i < nodes.len() ==> node_views(nodes)[i] == nodes[i]@,
        update_views(updates).len() == updates.len(),
        0 <= i < updates.len() ==> update_views(updates)[i] == updates[i]@,
        0 <= i < updates.len() ==> update_views(updates)[i].metric == updates[i].metric,
        0 <= i < updates.len() ==> update_views(updates)[i].value == updates[i].value,
        0 <= i < updates.len() && updates[i].label is Some ==> update_views(updates)[i].label
            == Some(updates[i].label->0@),
        text::views(texts).len() == texts.len(),
        0 <= i < texts.len() ==> text::views(texts)[i] == texts[i]@,
        plan_views(plans).len() == plans.len(),
        0 <= i < plans.len() ==> plan_views(plans)[i] == plans[i]@,
        payloads(segments).len() == segments.len(),
        0 <= i < segments.len() ==> payloads(segments)[i] == payload(segments[i]),
        stripe_data(stripes).len() == stripes.len(),
        0 <= i < stripes.len() ==> stripe_data(stripes)[i] == payload(stripes[i].data),
{
}

/// A refusal has its code and its words, both.
pub proof fn refusal_has_its_code_and_its_words(s: Status, code: Code, words: Seq<char>, e: KVError)
    ensures
        s.says(code, words) <==> s.code == code && s.message@ == words,
        gds::internal(e, words) <==> e is Internal && e->Internal_0@ == words,
{
}

/// What is read from other nodes is the object looked up, where its placement says.
pub proof fn stripes_are_read_as_placed(a: GetAction, d: DescriptorView, p: PlacementView)
    ensures
        reads_stripes(a, d, p) ==> a is ReadStripes && a->descriptor@ == d && a->placement@ == p,
        says_not_found(a) ==> a is Refuse && a->Refuse_0.code == Code::NotFound
            && a->Refuse_0.message@ == "key not found"@,
        !(reads_stripes(a, d, p) && says_not_found(a)),
{
}

/// What came with a request is what the request is held against.
pub proof fn parts_of_a_request_are_kept(
    p: pb::PlacementDescriptor,
    m: BlockMeta,
    k: pb::KvMetadata,
    o: pb::PutOptions,
)
    ensures
        said(Some(&k)) == Some(k@),
        said(None) is None,
        given(Some(&o)) == Some(o),
        given(None) is None,
        asked_placement(Some(p)) == Some(p@),
        asked_placement(None) is None,
        placement_view(Some(&p)) == Some(p@),
        placement_view(None) is None,
        striping_of(Some(m)) == m.striping,
        striping_of(None) is None,
{
}

/// An answer holds the bytes and the record that it is said to hold, and no others.
pub proof fn answer_holds_what_was_found(
    r: (Bytes, BlockMeta),
    s: (Vec<Bytes>, BlockMeta),
    g: GetResponse,
    data: Seq<u8>,
    segments: Seq<Seq<u8>>,
    meta: MetaView,
)
    ensures
        answers(r, data, meta) <==> payload(r.0) == data && r.1@ == meta,
        answers_segments(s, segments, meta) <==> payloads(s.0@) == segments && s.1@ == meta,
        g.gives(data, meta) ==> g.found && payload(g.data) == data && g.metadata is Some
            && !g.is_miss(),
        g.is_miss() ==> !g.found && g.metadata is None && payload(g.data).len() == 0,
{
}

/// An object of a batch is stored as its item asks: under its key, with its bytes and its
/// condition, for as long as it says.
pub proof fn item_is_stored_as_asked(p: PlannedPut, item: PutItem)
    requires
        p.carries_out(item),
    ensures
        item.key is Some && p.key@ == item.key->0@,
        payload(p.data) == payload(item.data),
        item.options is None ==> !p.if_not_exists && p.meta@.ttl_seconds == 0,
        item.options is Some ==> p.if_not_exists == item.options->0.if_not_exists,
        item.options is Some && item.options->0.ttl_seconds > 0 ==> p.meta@.ttl_seconds
            == item.options->0.ttl_seconds,
        p.meta@.object_generation == 1 && p.meta@.layout_version == 1,
{
}

/// A GPU request is accepted exactly where the driver is there, the key is given, and the handle
/// has its length.
pub proof fn gpu_request_needs_driver_key_and_handle(
    support: GpuSupport,
    is_read: bool,
    has_key: bool,
    handle_len: int,
)
    ensures
        gpu_fault(support, is_read, has_key, handle_len) is None <==> support
            == GpuSupport::Available && has_key && handle_len == 64,
        support == GpuSupport::NotCompiled ==> (gpu_fault(
            support,
            is_read,
            has_key,
            handle_len,
        )->0).0 == Code::Unimplemented,
        support == GpuSupport::NotAvailable ==> (gpu_fault(
            support,
            is_read,
            has_key,
            handle_len,
        )->0).0 == Code::FailedPrecondition,
        support == GpuSupport::Available && !(has_key && handle_len == 64) ==> (gpu_fault(
            support,
            is_read,
            has_key,
            handle_len,
        )->0).0 == Code::InvalidArgument,
{
}

/// The offsets of stripes fit exactly where each of them does.
pub proof fn offsets_fit_where_each_does(n: nat, chunk_size: u64, meta: MetaView)
    ensures
        offsets_fit(n, chunk_size) <==> forall|i: int|
            0 <= i < n ==> #[trigger] (i * chunk_size) <= u64::MAX,
        meta.striping is None ==> stripe_offsets_fit(meta),
        meta.striping is Some && meta.striping->0.chunk_locations.len()
            == meta.striping->0.chunk_paths.len() ==> stripe_offsets_fit(meta),
{
    if offsets_fit(n, chunk_size) {
        assert forall|i: int| 0 <= i < n implies #[trigger] (i * chunk_size) <= u64::MAX by {
            assert(i * chunk_size <= (n - 1) * chunk_size) by (nonlinear_arith)
                requires
                    i <= n - 1,
                    chunk_size >= 0,
            ;
        }
    }
    if n > 0 && (forall|i: int| 0 <= i < n ==> #[trigger] (i * chunk_size) <= u64::MAX) {
        assert((n - 1) * chunk_size <= u64::MAX);
    }
}

proof fn lemma_same_end(a: Seq<char>, x: Seq<char>, b: Seq<char>, y: Seq<char>, c: char)
    requires
        a + seq![c] + x == b + seq![c] + y,
        !is_digit(c),
        all_digits(x),
        all_digits(y),
    ensures
        a == b,
        x == y,
{
    let s = a + seq![c] + x;
    let t = b + seq![c] + y;
    assert(s.len() == t.len());
    if x.len() < y.len() {
        assert(s[a.len() as int] == c);
        assert(t[a.len() as int] == y[a.len() - b.len() - 1]);
        assert(is_digit(y[a.len() - b.len() - 1]));
    }
    if y.len() < x.len() {
        assert(t[b.len() as int] == c);
        assert(s[b.len() as int] == x[b.len() - a.len() - 1]);
        assert(is_digit(x[b.len() - a.len() - 1]));
    }
    assert(a =~= s.take(a.len() as int));
    assert(b =~= t.take(b.len() as int));
    assert(x =~= s.skip(a.len() as int + 1));
    assert(y =~= t.skip(b.len() as int + 1));
}

/// A record that was given a handle keeps it. Another gets one that tells its key, its generation
/// and its layout from every other.
pub proof fn handles_tell_versions_apart(k: KeyView, m: MetaView, k2: KeyView, m2: MetaView)
    ensures
        m.object_handle.len() > 0 ==> handle_of(k, m) == m.object_handle,
        m.object_handle.len() == 0 && m2.object_handle.len() == 0 ==> (handle_of(k, m)
            == handle_of(k2, m2) <==> k == k2 && m.object_generation == m2.object_generation
            && m.layout_version == m2.layout_version),
        handle_of(k, m).len() > 0,
{
    reveal_strlit("v1:");
    reveal_strlit(":g");
    reveal_strlit(":l");
    if m.object_handle.len() == 0 && m2.object_handle.len() == 0 && handle_of(k, m) == handle_of(
        k2,
        m2,
    ) {
        let g = decimal(m.object_generation as nat);
        let l = decimal(m.layout_version as nat);
        let g2 = decimal(m2.object_generation as nat);
        let l2 = decimal(m2.layout_version as nat);
        text::lemma_decimal_value(m.object_generation as nat);
        text::lemma_decimal_value(m.layout_version as nat);
        text::lemma_decimal_value(m2.object_generation as nat);
        text::lemma_decimal_value(m2.layout_version as nat);
        let h = "v1:"@ + key::canonical(k);
        let h2 = "v1:"@ + key::canonical(k2);
        let a = h + seq![':'] + seq!['g'] + g + seq![':'];
        let a2 = h2 + seq![':'] + seq!['g'] + g2 + seq![':'];
        assert(handle_of(k, m) =~= a + seq!['l'] + l);
        assert(handle_of(k2, m2) =~= a2 + seq!['l'] + l2);
        lemma_same_end(a, l, a2, l2, 'l');
        let b = h + seq![':'];
        let b2 = h2 + seq![':'];
        assert(a.drop_last() =~= b + seq!['g'] + g);
        assert(a2.drop_last() =~= b2 + seq!['g'] + g2);
        lemma_same_end(b, g, b2, g2, 'g');
        assert(b.drop_last() =~= h);
        assert(b2.drop_last() =~= h2);
        assert(h.skip(3) =~= key::canonical(k));
        assert(h2.skip(3) =~= key::canonical(k2));
        key::canonical_is_injective(k, k2);
        text::lemma_decimal_injective(m.object_generation as nat, m2.object_generation as nat);
        text::lemma_decimal_injective(m.layout_version as nat, m2.layout_version as nat);
    }
}

/// A table gives each namespace that it names the number beside the name, and any other none.
pub proof fn table_gives_the_number_beside_the_name(
    table: Seq<NamespaceSummary>,
    i: int,
    other: Seq<char>,
)
    requires
        in_order(table),
        0 <= i < table.len(),
    ensures
        count_in(table, table[i].namespace@) == table[i].object_count,
        (forall|k: int| 0 <= k < table.len() ==> (#[trigger] table[k]).namespace@ != other)
            ==> count_in(table, other) == 0,
        forall|k: int|
            0 <= k < table.len() && (#[trigger] table[k]).namespace@ == table[i].namespace@ ==> k
                == i,
    decreases table.len(),
{
    let f = table.drop_last();
    let n = table.len() - 1;
    assert(in_order(f)) by {
        assert forall|a: int, b: int| #![trigger f[a], f[b]] 0 <= a < b < f.len() implies
            text::comes_before(f[a].namespace@, f[b].namespace@) by {
            assert(f[a] == table[a]);
            assert(f[b] == table[b]);
        }
    }
    assert forall|k: int|
        0 <= k < table.len() && (#[trigger] table[k]).namespace@
            == table[i].namespace@ implies k == i by {
        text::lemma_text_order_total(table[k].namespace@, table[k].namespace@);
        if k < i {
            assert(text::comes_before(table[k].namespace@, table[i].namespace@));
        }
        if i < k {
            assert(text::comes_before(table[i].namespace@, table[k].namespace@));
        }
    }
    if f.len() > 0 {
        let j = if i < n {
            i
        } else {
            0
        };
        table_gives_the_number_beside_the_name(f, j, other);
        if i < n {
            assert(f[i] == table[i]);
            assert(table[n].namespace@ != table[i].namespace@);
        }
        if forall|k: int| 0 <= k < table.len() ==> (#[trigger] table[k]).namespace@ != other {
            assert forall|k: int| 0 <= k < f.len() implies (#[trigger] f[k]).namespace@ != other by {
                assert(f[k] == table[k]);
            }
            assert(table[n].namespace@ != other);
        }
    } else {
        assert(count_in(f, other) == 0);
        assert(table[n] == table.last());
    }
}

/// Records are found under the configured prefix, and different prefixes keep them apart.
pub proof fn records_stand_under_their_prefix(a: Seq<char>, b: Seq<char>)
    ensures
        a.is_prefix_of(record_prefix(a)),
        record_prefix(a) == record_prefix(b) <==> a == b,
        record_prefix(a).skip(a.len() as int) == "block_meta:"@,
{
    assert(a =~= record_prefix(a).subrange(0, a.len() as int));
    assert(record_prefix(a).skip(a.len() as int) =~= "block_meta:"@);
    if record_prefix(a) == record_prefix(b) {
        assert(a.len() == b.len());
        assert(a =~= record_prefix(a).take(a.len() as int));
        assert(b =~= record_prefix(b).take(b.len() as int));
    }
}

/// A time that has a text is shown by it, and another by its number.
pub proof fn time_is_shown_by_text_or_number(t: Seq<char>, a: i64, b: i64)
    ensures
        shown_time(Some(t), a) == t,
        shown_time(None, a) == shown_time(None, b) <==> a == b,
{
    if shown_time(None, a) == shown_time(None, b) {
        let p = "<invalid: "@;
        let x = text::signed_decimal(a as int);
        let y = text::signed_decimal(b as int);
        let e = ">"@;
        assert(shown_time(None, a) == p + x + e);
        assert(shown_time(None, b) == p + y + e);
        assert((p + x + e).len() == p.len() + x.len() + e.len());
        assert((p + y + e).len() == p.len() + y.len() + e.len());
        assert(x =~= shown_time(None, a).subrange(p.len() as int, p.len() as int + x.len()));
        assert(y =~= shown_time(None, b).subrange(p.len() as int, p.len() as int + y.len()));
        texts::sign_comes_first(a as int);
        texts::sign_comes_first(b as int);
        if (a < 0) != (b < 0) {
            assert(!is_digit('-'));
            if a < 0 {
                assert(is_digit(y[0]));
            } else {
                assert(is_digit(x[0]));
            }
        }
    }
}

/// A round takes as many pieces as the queue holds, or all that are left; what is counted anew
/// goes on where the last round ended.
pub proof fn rounds_are_as_large_as_the_queue(r: IoRounds, from: nat, end: nat, k: nat)
    requires
        r.batch() > 0,
        from <= r.queue().len(),
        end <= r.queue().len(),
    ensures
        from <= r.round_from(from) <= r.queue().len(),
        r.round_from(from) - from <= r.batch(),
        from < r.queue().len() ==> r.round_from(from) > from,
        r.round_from(from) < r.queue().len() ==> r.round_from(from) == from + r.batch(),
        k < end ==> r.round_of(end, k) == end,
        end <= k < r.queue().len() ==> k < r.round_of(end, k) <= k + r.batch(),
    decreases r.queue().len() - end,
{
    if end <= k < r.queue().len() {
        rounds_are_as_large_as_the_queue(r, end, r.round_from(end), k);
    }
}

/// Rounds that go on are of the same work.
pub proof fn rounds_stay_with_their_work(a: IoRounds, b: IoRounds)
    ensures
        a.same_work(&b) ==> a.queue() == b.queue() && a.batch() == b.batch() && a.active()
            == b.active(),
{
}

} // verus!
