//! Where the stripes of an object are placed, and the descriptors that say so.
use crate::config::Config;
use crate::error::{Code, Status};
use crate::hash::{hash64, xxh3_64};
use crate::key::{canonical, KeyView, ObjectKey};
use crate::layout;
use crate::metadata::{BlockMeta, ChunkLocation, ChunkView, MetaView, StripeView, StripingInfo};
use crate::pb;
use crate::pb::{DescriptorView, PlacementView};
use crate::text;
use crate::text::{decimal, hex};
use vstd::prelude::*;
use vstd::string::*;
use vstd::utf8::encode_utf8;

verus! {

/// A node that holds stripes.
#[derive(Debug, PartialEq, Eq)]
pub struct DataNode {
    pub node_id: String,
    pub grpc_endpoint: String,
    pub rdma_endpoint: String,
}

/// Mathematical form of [`DataNode`].
#[verifier::ext_equal]
pub struct NodeView {
    pub node_id: Seq<char>,
    pub grpc_endpoint: Seq<char>,
    pub rdma_endpoint: Seq<char>,
}

impl View for DataNode {
    type V = NodeView;

    open spec fn view(&self) -> NodeView {
        NodeView {
            node_id: self.node_id@,
            grpc_endpoint: self.grpc_endpoint@,
            rdma_endpoint: self.rdma_endpoint@,
        }
    }
}

impl Clone for DataNode {
    fn clone(&self) -> (r: Self)
        ensures
            r@ == self@,
    {
        DataNode {
            node_id: self.node_id.clone(),
            grpc_endpoint: self.grpc_endpoint.clone(),
            rdma_endpoint: self.rdma_endpoint.clone(),
        }
    }
}

/// What the process environment says of this node: the values of `CS_NODE_ID`,
/// `CS_GRPC_ADVERTISE` and `CS_RDMA_ADVERTISE`, where they are set.
#[derive(Debug, Default)]
pub struct NodeEnv {
    pub node_id: Option<String>,
    pub grpc_advertise: Option<String>,
    pub rdma_advertise: Option<String>,
}

/// What every request handler knows of the node it runs on.
pub struct KVServiceContext {
    pub config: Config,
    pub env: NodeEnv,
}

/// The configured text, or the environment's where that is empty, or a last resort.
pub open spec fn pick(configured: Seq<char>, env: Option<String>, otherwise: Seq<char>) -> Seq<
    char,
> {
    if configured.len() > 0 {
        configured
    } else {
        match env {
            Some(v) => if v@.len() > 0 {
                v@
            } else {
                otherwise
            },
            None => otherwise,
        }
    }
}

fn pick_text(configured: &String, env: &Option<String>, otherwise: &str) -> (r: String)
    ensures
        r@ == pick(configured@, *env, otherwise@),
{
    if !configured.as_str().is_empty() {
        return configured.clone();
    }
    match env {
        Some(v) => if !v.as_str().is_empty() {
            v.clone()
        } else {
            otherwise.to_owned()
        },
        None => otherwise.to_owned(),
    }
}

impl KVServiceContext {
    pub fn new(config: Config, env: NodeEnv) -> (r: KVServiceContext)
        ensures
            r.config == config,
            r.env == env,
    {
        KVServiceContext { config, env }
    }

    /// This node, as it presents itself to others.
    pub open spec fn local(&self) -> NodeView {
        NodeView {
            node_id: pick(self.config.cluster.node_id@, self.env.node_id, "local"@),
            grpc_endpoint: pick(
                self.config.cluster.grpc_advertise@,
                self.env.grpc_advertise,
                self.config.api.listen@,
            ),
            rdma_endpoint: pick(
                self.config.cluster.rdma_advertise@,
                self.env.rdma_advertise,
                Seq::empty(),
            ),
        }
    }

    /// The nodes that stripes are placed on: those configured, or this one alone.
    pub open spec fn nodes(&self) -> Seq<NodeView> {
        let configured = self.config.cluster.data_nodes@;
        if configured.len() == 0 {
            seq![self.local()]
        } else {
            Seq::new(
                configured.len(),
                |i: int|
                    NodeView {
                        node_id: if configured[i].node_id@.len() == 0 {
                            configured[i].grpc_endpoint@
                        } else {
                            configured[i].node_id@
                        },
                        grpc_endpoint: configured[i].grpc_endpoint@,
                        rdma_endpoint: configured[i].rdma_endpoint@,
                    },
            )
        }
    }

    /// Whether a node is this one: it has its ID or its RPC address.
    pub open spec fn is_local(&self, node: NodeView) -> bool {
        node.node_id == self.local().node_id || node.grpc_endpoint == self.local().grpc_endpoint
    }

    /// For each node that stripes are placed on, whether it is this one.
    pub open spec fn local_flags(&self) -> Seq<bool> {
        Seq::new(self.nodes().len(), |i: int| self.is_local(self.nodes()[i]))
    }

    /// The node that the stripes of an object start on.
    pub open spec fn base(&self, key: KeyView) -> int {
        (xxh3_64(encode_utf8(canonical(key))) as usize) as int % self.nodes().len() as int
    }

    /// The node that a stripe is placed on: stripes go round the nodes from the base on.
    pub open spec fn stripe_node(&self, key: KeyView, stripe: int) -> NodeView {
        self.nodes()[(self.base(key) + stripe) % self.nodes().len() as int]
    }
}

/// This node, as it presents itself to others.
pub fn local_node(ctx: &KVServiceContext) -> (r: DataNode)
    ensures
        r@ == ctx.local(),
{
    let cluster = &ctx.config.cluster;
    proof {
        reveal_strlit("");
        assert(""@ =~= Seq::<char>::empty());
    }
    DataNode {
        node_id: pick_text(&cluster.node_id, &ctx.env.node_id, "local"),
        grpc_endpoint: pick_text(
            &cluster.grpc_advertise,
            &ctx.env.grpc_advertise,
            ctx.config.api.listen.as_str(),
        ),
        rdma_endpoint: pick_text(&cluster.rdma_advertise, &ctx.env.rdma_advertise, ""),
    }
}

/// The list holds these nodes, in order.
pub open spec fn node_views(s: Seq<DataNode>) -> Seq<NodeView> {
    s.map_values(|n: DataNode| n@)
}

/// The nodes that stripes are placed on.
pub fn configured_data_nodes(ctx: &KVServiceContext) -> (r: Vec<DataNode>)
    ensures
        node_views(r@) == ctx.nodes(),
        r.len() >= 1,
{
    let configured = &ctx.config.cluster.data_nodes;
    let mut out: Vec<DataNode> = Vec::new();
    if configured.len() == 0 {
        out.push(local_node(ctx));
        proof {
            assert(node_views(out@) =~= ctx.nodes());
        }
        return out;
    }
    let mut i: usize = 0;
    while i < configured.len()
        invariant
            i <= configured.len(),
            configured == &ctx.config.cluster.data_nodes,
            configured.len() > 0,
            out.len() == i,
            forall|k: int| 0 <= k < i ==> (#[trigger] out@[k])@ == ctx.nodes()[k],
        decreases configured.len() - i,
    {
        let n = &configured[i];
        let node_id = if n.node_id.as_str().is_empty() {
            n.grpc_endpoint.clone()
        } else {
            n.node_id.clone()
        };
        out.push(
            DataNode {
                node_id,
                grpc_endpoint: n.grpc_endpoint.clone(),
                rdma_endpoint: n.rdma_endpoint.clone(),
            },
        );
        i = i + 1;
    }
    proof {
        assert(node_views(out@) =~= ctx.nodes());
    }
    out
}

/// Whether a node is this one.
pub fn is_local_node(ctx: &KVServiceContext, node: &DataNode) -> (r: bool)
    ensures
        r == ctx.is_local(node@),
{
    let local = local_node(ctx);
    node.node_id == local.node_id || node.grpc_endpoint == local.grpc_endpoint
}

/// Whether a value of `len` bytes is spread over several nodes: striping is on, the value is
/// above its threshold, and there is more than one node.
pub fn distributed_placement_enabled(ctx: &KVServiceContext, len: u64) -> (r: bool)
    ensures
        r == (0 < ctx.config.storage.striping_threshold < len && ctx.nodes().len() > 1),
{
    let threshold: u64 = ctx.config.storage.striping_threshold;
    let nodes = configured_data_nodes(ctx);
    proof {
        assert(node_views(nodes@).len() == nodes@.len());
    }
    threshold > 0 && len > threshold && nodes.len() > 1
}

fn base_slot(key: &ObjectKey, n: usize) -> (r: usize)
    requires
        n > 0,
    ensures
        r == (xxh3_64(encode_utf8(canonical(key@))) as usize) as int % n as int,
        r < n,
{
    let text = key.to_string_key();
    (hash64(text.as_str().as_bytes()) as usize) % n
}

/// The node that a stripe of an object is placed on.
pub fn select_data_node(ctx: &KVServiceContext, key: &ObjectKey, stripe_index: usize) -> (r:
    DataNode)
    requires
        stripe_index + ctx.nodes().len() <= usize::MAX,
    ensures
        r@ == ctx.stripe_node(key@, stripe_index as int),
{
    let nodes = configured_data_nodes(ctx);
    proof {
        assert(node_views(nodes@).len() == nodes@.len());
    }
    let base: usize = base_slot(key, nodes.len());
    let slot: usize = (base + stripe_index) % nodes.len();
    proof {
        assert(node_views(nodes@)[slot as int] == nodes@[slot as int]@);
    }
    nodes[slot].clone()
}

/// How many of the `len` slots from `start` on, going round the flags, are set.
pub open spec fn hits(flags: Seq<bool>, start: int, len: nat) -> nat
    decreases len,
{
    if len == 0 {
        0
    } else {
        hits(flags, start, (len - 1) as nat) + (if flags[(start + len - 1) % flags.len() as int] {
            1nat
        } else {
            0nat
        })
    }
}

proof fn lemma_hits_split(flags: Seq<bool>, start: int, a: nat, b: nat)
    ensures
        hits(flags, start, a + b) == hits(flags, start, a) + hits(flags, start + a, b),
    decreases b,
{
    if b > 0 {
        lemma_hits_split(flags, start, a, (b - 1) as nat);
    }
}

proof fn lemma_hits_period(flags: Seq<bool>, start: int, len: nat)
    requires
        flags.len() > 0,
    ensures
        hits(flags, start + flags.len(), len) == hits(flags, start, len),
    decreases len,
{
    if len > 0 {
        lemma_hits_period(flags, start, (len - 1) as nat);
        vstd::arithmetic::div_mod::lemma_mod_add_multiples_vanish(
            start + len - 1,
            flags.len() as int,
        );
    }
}

proof fn lemma_hits_whole_cycle(flags: Seq<bool>, start: int)
    requires
        flags.len() > 0,
        start >= 0,
    ensures
        hits(flags, start, flags.len()) == hits(flags, 0, flags.len()),
    decreases start,
{
    if start > 0 {
        let n = flags.len();
        lemma_hits_whole_cycle(flags, start - 1);
        lemma_hits_split(flags, start - 1, 1, n);
        lemma_hits_split(flags, start - 1, n, 1);
        lemma_hits_period(flags, start - 1, 1);
    }
}

/// Whole rounds each count every flag once, so a count is that many times the number of set
/// flags, and what the rest of a round adds.
proof fn lemma_hits_cycles(flags: Seq<bool>, start: int, cycles: nat, rest: nat)
    requires
        flags.len() > 0,
        start >= 0,
    ensures
        hits(flags, start, cycles * flags.len() + rest) == cycles * hits(flags, 0, flags.len())
            + hits(flags, start, rest),
    decreases cycles,
{
    let n = flags.len();
    let l = hits(flags, 0, n);
    if cycles == 0 {
        assert(0 * n == 0) by (nonlinear_arith);
        assert(0 * l == 0) by (nonlinear_arith);
    } else {
        let less = (cycles - 1) as nat;
        lemma_hits_cycles(flags, start, less, rest);
        assert(cycles * n + rest == n + (less * n + rest)) by (nonlinear_arith)
            requires
                cycles == less + 1,
        ;
        assert(cycles * l == less * l + l) by (nonlinear_arith)
            requires
                cycles == less + 1,
        ;
        lemma_hits_split(flags, start, n, less * n + rest);
        lemma_hits_whole_cycle(flags, start);
        lemma_hits_period(flags, start, less * n + rest);
    }
}

proof fn lemma_hits_bound(flags: Seq<bool>, start: int, len: nat)
    ensures
        hits(flags, start, len) <= len,
    decreases len,
{
    if len > 0 {
        lemma_hits_bound(flags, start, (len - 1) as nat);
    }
}

/// The ordinal of a stripe among those placed on this node, counted from zero; `None` for a
/// stripe of another node.
///
/// Stripes alternate over all nodes. A device picked by the number of the stripe would always
/// be the same on a node where the counts of nodes and devices share a factor; picked by this
/// ordinal, the devices take turns on every node, also where a node is listed twice.
pub fn local_device_stripe_index(
    ctx: &KVServiceContext,
    key: &ObjectKey,
    stripe_index: usize,
) -> (r: Option<usize>)
    requires
        stripe_index + ctx.nodes().len() <= usize::MAX,
    ensures
        match r {
            Some(ordinal) => ctx.is_local(ctx.stripe_node(key@, stripe_index as int)) && ordinal
                == hits(ctx.local_flags(), ctx.base(key@), stripe_index as nat),
            None => !ctx.is_local(ctx.stripe_node(key@, stripe_index as int)),
        },
{
    let nodes = configured_data_nodes(ctx);
    let n: usize = nodes.len();
    let ghost flags = ctx.local_flags();
    proof {
        assert(node_views(nodes@).len() == nodes@.len());
        assert forall|k: int| 0 <= k < n implies ctx.is_local((#[trigger] nodes@[k])@) == flags[k] by {
            assert(node_views(nodes@)[k] == nodes@[k]@);
        }
    }
    let mut local_count: usize = 0;
    let mut i: usize = 0;
    while i < n
        invariant
            i <= n,
            n == nodes.len(),
            n == flags.len(),
            local_count <= i,
            local_count == hits(flags, 0, i as nat),
            forall|k: int| 0 <= k < n ==> ctx.is_local((#[trigger] nodes@[k])@) == flags[k],
        decreases n - i,
    {
        proof {
            assert((0 + (i + 1) - 1) % n as int == i) by (nonlinear_arith)
                requires
                    0 <= i < n,
            ;
        }
        if is_local_node(ctx, &nodes[i]) {
            local_count = local_count + 1;
        }
        i = i + 1;
    }
    let base: usize = base_slot(key, n);
    let slot: usize = (base + stripe_index) % n;
    proof {
        assert(node_views(nodes@)[slot as int] == nodes@[slot as int]@);
    }
    if local_count == 0 {
        proof {
            lemma_hits_none(flags, slot as int);
        }
        return None;
    }
    if !is_local_node(ctx, &nodes[slot]) {
        return None;
    }
    let full_cycles: usize = stripe_index / n;
    let remainder: usize = stripe_index % n;
    proof {
        vstd::arithmetic::div_mod::lemma_fundamental_div_mod(stripe_index as int, n as int);
        vstd::arithmetic::div_mod::lemma_mod_bound(stripe_index as int, n as int);
        assert(full_cycles as int * n as int >= 0) by (nonlinear_arith);
    }
    let mut in_partial: usize = 0;
    let mut offset: usize = 0;
    while offset <= remainder
        invariant
            offset <= remainder + 1,
            remainder < n,
            remainder <= stripe_index,
            stripe_index + n <= usize::MAX,
            base < n,
            n == nodes.len(),
            n == flags.len(),
            in_partial <= offset,
            in_partial == hits(flags, base as int, offset as nat),
            forall|k: int| 0 <= k < n ==> ctx.is_local((#[trigger] nodes@[k])@) == flags[k],
        decreases remainder + 1 - offset,
    {
        if is_local_node(ctx, &nodes[(base + offset) % n]) {
            in_partial = in_partial + 1;
        }
        offset = offset + 1;
    }
    proof {
        let c = full_cycles as nat;
        let r = remainder as nat;
        assert(c * flags.len() + r == stripe_index) by (nonlinear_arith)
            requires
                stripe_index as int == n as int * full_cycles as int + remainder as int,
                c == full_cycles,
                r == remainder,
                flags.len() == n,
        ;
        lemma_hits_cycles(flags, base as int, c, r);
        lemma_hits_bound(flags, base as int, stripe_index as nat);
        // the last slot of the partial round is the stripe's own
        assert((base + remainder) % n as int == slot) by {
            vstd::arithmetic::div_mod::lemma_mod_multiples_vanish(
                full_cycles as int,
                base + remainder,
                n as int,
            );
            assert(n as int * full_cycles as int + (base + remainder) == base + stripe_index);
        }
        assert(flags[slot as int]);
        assert(in_partial == hits(flags, base as int, r) + 1);
        assert(full_cycles as int * local_count as int == c * hits(flags, 0, flags.len()));
    }
    Some(full_cycles * local_count + (in_partial - 1))
}

proof fn lemma_hits_none(flags: Seq<bool>, i: int)
    requires
        0 <= i < flags.len(),
        hits(flags, 0, flags.len()) == 0,
    ensures
        !flags[i],
{
    lemma_hits_split(flags, 0, (i + 1) as nat, (flags.len() - i - 1) as nat);
    assert((0 + (i + 1) - 1) % flags.len() as int == i) by (nonlinear_arith)
        requires
            0 <= i < flags.len(),
    ;
}

/// Consecutive stripes of this node take consecutive ordinals: between two of them that have no
/// other of this node in between, the ordinal grows by one, so that any number of devices is
/// used in turn.
pub proof fn local_stripes_take_turns(ctx: KVServiceContext, key: KeyView, a: nat, b: nat)
    requires
        a < b,
        ctx.is_local(ctx.stripe_node(key, a as int)),
        forall|j: int|
            a < j < b ==> !ctx.is_local(#[trigger] ctx.stripe_node(key, j)),
    ensures
        hits(ctx.local_flags(), ctx.base(key), b) == hits(ctx.local_flags(), ctx.base(key), a) + 1,
    decreases b - a,
{
    let n = ctx.nodes().len() as int;
    assert(n >= 1);
    let flags = ctx.local_flags();
    let last = (b - 1) as nat;
    let slot = (ctx.base(key) + last) % n;
    vstd::arithmetic::div_mod::lemma_mod_bound(ctx.base(key) + last, n);
    assert(flags[slot] == ctx.is_local(ctx.stripe_node(key, last as int)));
    if last > a {
        local_stripes_take_turns(ctx, key, a, last);
    }
}


impl KVServiceContext {
    /// The placement policy that this node follows: its routing strategy, in version one.
    pub open spec fn policy(&self) -> Seq<char> {
        self.config.router.strategy@ + "_v1"@
    }

    /// All that stripe placement depends on, as one text.
    pub open spec fn topology_text(&self) -> Seq<char> {
        "policy="@ + self.policy() + "|striping_threshold="@ + decimal(
            self.config.storage.striping_threshold as nat,
        ) + "|striping_chunk_size="@ + decimal(self.config.storage.striping_chunk_size as nat)
            + "|devices="@ + decimal(self.config.storage.devices@.len()) + nodes_text(
            self.nodes(),
            self.nodes().len(),
        )
    }

    /// The number that stands for the current topology; never zero.
    pub open spec fn epoch(&self) -> u64 {
        let h = xxh3_64(encode_utf8(self.topology_text()));
        if h == 0 {
            1
        } else {
            h
        }
    }
}

/// The first `n` nodes of a list, as text.
pub open spec fn nodes_text(nodes: Seq<NodeView>, n: nat) -> Seq<char>
    decreases n,
{
    if n == 0 {
        Seq::empty()
    } else {
        let i = (n - 1) as nat;
        let node = nodes[i as int];
        nodes_text(nodes, i) + "|node"@ + decimal(i) + "="@ + node.node_id + ":"@
            + node.grpc_endpoint + ":"@ + node.rdma_endpoint
    }
}

/// The placement policy that this node follows.
pub fn placement_policy_id(ctx: &KVServiceContext) -> (r: String)
    ensures
        r@ == ctx.policy(),
{
    let mut out = ctx.config.router.strategy.clone();
    out.append("_v1");
    out
}

/// The number that stands for the current topology.
pub fn placement_epoch(ctx: &KVServiceContext) -> (r: u64)
    ensures
        r == ctx.epoch(),
        r >= 1,
{
    let storage = &ctx.config.storage;
    let mut seed = "policy=".to_owned();
    seed.append(placement_policy_id(ctx).as_str());
    seed.append("|striping_threshold=");
    text::push_decimal(&mut seed, storage.striping_threshold);
    seed.append("|striping_chunk_size=");
    text::push_decimal(&mut seed, storage.striping_chunk_size);
    seed.append("|devices=");
    text::push_decimal(&mut seed, storage.devices.len() as u64);
    let ghost head = seed@;
    let nodes = configured_data_nodes(ctx);
    proof {
        assert(node_views(nodes@).len() == nodes@.len());
        assert(head + nodes_text(ctx.nodes(), 0) =~= head);
    }
    let mut i: usize = 0;
    while i < nodes.len()
        invariant
            i <= nodes.len(),
            node_views(nodes@) == ctx.nodes(),
            seed@ == head + nodes_text(ctx.nodes(), i as nat),
        decreases nodes.len() - i,
    {
        let node = &nodes[i];
        proof {
            assert(node_views(nodes@)[i as int] == node@);
        }
        seed.append("|node");
        text::push_decimal(&mut seed, i as u64);
        seed.append("=");
        seed.append(node.node_id.as_str());
        seed.append(":");
        seed.append(node.grpc_endpoint.as_str());
        seed.append(":");
        seed.append(node.rdma_endpoint.as_str());
        i = i + 1;
        proof {
            assert(seed@ =~= head + nodes_text(ctx.nodes(), i as nat));
        }
    }
    proof {
        assert(node_views(nodes@).len() == nodes@.len());
    }
    let h: u64 = hash64(seed.as_str().as_bytes());
    if h == 0 {
        1
    } else {
        h
    }
}

/// Nodes that share the configured topology agree on the epoch, whatever each is called: with
/// data nodes configured, neither the node's own name nor its addresses enter it.
pub proof fn epoch_does_not_depend_on_the_local_node(a: KVServiceContext, b: KVServiceContext)
    requires
        a.config.cluster.data_nodes@.len() > 0,
        a.config.cluster.data_nodes == b.config.cluster.data_nodes,
        a.config.router.strategy@ == b.config.router.strategy@,
        a.config.storage.striping_threshold == b.config.storage.striping_threshold,
        a.config.storage.striping_chunk_size == b.config.storage.striping_chunk_size,
        a.config.storage.devices@.len() == b.config.storage.devices@.len(),
    ensures
        a.epoch() == b.epoch(),
{
    assert(a.nodes() =~= b.nodes());
}

/// A key in the form it travels in.
pub fn internal_key_to_pb(k: &ObjectKey) -> (r: pb::ObjectKey)
    ensures
        r@ == k@,
{
    pb::ObjectKey { namespace: k.namespace.clone(), object_key: k.object_key.clone() }
}

/// A key that arrived, in the store's form.
pub fn pb_key_to_internal(k: &pb::ObjectKey) -> (r: ObjectKey)
    ensures
        r@ == k@,
{
    ObjectKey { namespace: k.namespace.clone(), object_key: k.object_key.clone() }
}

/// A stripe location in the form it travels in.
pub fn chunk_location_to_pb(key: &ObjectKey, loc: &ChunkLocation) -> (r: pb::PlacementChunk)
    ensures
        r@ == loc@,
{
    pb::PlacementChunk {
        stripe_index: loc.stripe_index,
        node_id: loc.node_id.clone(),
        grpc_endpoint: loc.grpc_endpoint.clone(),
        rdma_endpoint: loc.rdma_endpoint.clone(),
        device_id: loc.device_id,
        storage_handle: loc.storage_handle.clone(),
        offset: loc.offset,
        length: loc.length,
        checksum: loc.checksum.clone(),
    }
}

/// A stripe location that arrived, in the store's form.
pub fn pb_chunk_to_location(chunk: &pb::PlacementChunk) -> (r: ChunkLocation)
    ensures
        r@ == chunk@,
{
    ChunkLocation {
        stripe_index: chunk.stripe_index,
        node_id: chunk.node_id.clone(),
        grpc_endpoint: chunk.grpc_endpoint.clone(),
        rdma_endpoint: chunk.rdma_endpoint.clone(),
        device_id: chunk.device_id,
        storage_handle: chunk.storage_handle.clone(),
        offset: chunk.offset,
        length: chunk.length,
        checksum: chunk.checksum.clone(),
    }
}

/// The handle of an object: the recorded one, or else one made of key, generation and layout.
pub open spec fn handle_of(key: KeyView, meta: MetaView) -> Seq<char> {
    if meta.object_handle.len() > 0 {
        meta.object_handle
    } else {
        "v1:"@ + canonical(key) + ":g"@ + decimal(meta.object_generation as nat) + ":l"@ + decimal(
            meta.layout_version as nat,
        )
    }
}

/// The handle of an object.
pub fn object_handle(key: &ObjectKey, meta: &BlockMeta) -> (r: String)
    ensures
        r@ == handle_of(key@, meta@),
{
    if !meta.object_handle.as_str().is_empty() {
        return meta.object_handle.clone();
    }
    let mut out = "v1:".to_owned();
    out.append(key.to_string_key().as_str());
    out.append(":g");
    text::push_decimal(&mut out, meta.object_generation);
    out.append(":l");
    text::push_decimal(&mut out, meta.layout_version);
    out
}

/// The descriptor of the object version that `meta` records.
pub open spec fn descriptor_of(key: KeyView, meta: MetaView) -> DescriptorView {
    DescriptorView {
        key: Some(key),
        object_handle: handle_of(key, meta),
        object_generation: meta.object_generation,
        content_etag: meta.content_etag,
        layout_version: meta.layout_version,
        size: meta.size,
        is_striped: meta.striping is Some,
        stripe_count: match meta.striping {
            Some(s) => s.chunk_paths.len() as u32,
            None => 0,
        },
        chunk_size: match meta.striping {
            Some(s) => s.chunk_size,
            None => 0,
        },
    }
}

/// The descriptor of the object version that `meta` records.
pub fn descriptor_from_meta(key: &ObjectKey, meta: &BlockMeta) -> (r: pb::ObjectDescriptor)
    ensures
        r@ == descriptor_of(key@, meta@),
{
    let (is_striped, stripe_count, chunk_size): (bool, u32, u64) = match &meta.striping {
        Some(s) => {
            proof {
                assert(text::views(s.chunk_paths@).len() == s.chunk_paths@.len());
            }
            (true, s.chunk_paths.len() as u32, s.chunk_size)
        },
        None => (false, 0, 0),
    };
    pb::ObjectDescriptor {
        key: Some(internal_key_to_pb(key)),
        object_handle: object_handle(key, meta),
        object_generation: meta.object_generation,
        content_etag: meta.content_etag.clone(),
        layout_version: meta.layout_version,
        size: meta.size,
        is_striped,
        stripe_count,
        chunk_size,
    }
}

/// Length of the stripe that starts at `offset` of an object of `total` bytes.
pub open spec fn stripe_length(total: u64, offset: u64, chunk_size: u64) -> u64 {
    if total <= offset {
        0
    } else if total - offset < chunk_size {
        (total - offset) as u64
    } else {
        chunk_size
    }
}

/// Where the stripes of an object are: at the recorded locations where there is one for each
/// stripe, otherwise all on this node.
pub open spec fn chunks_of(local: NodeView, meta: MetaView) -> Seq<ChunkView> {
    match meta.striping {
        Some(s) => if s.chunk_locations.len() == s.chunk_paths.len() {
            s.chunk_locations
        } else {
            Seq::new(s.chunk_paths.len(), |i: int| local_chunk(local, s, i))
        },
        None => seq![
            ChunkView {
                stripe_index: 0,
                node_id: local.node_id,
                grpc_endpoint: local.grpc_endpoint,
                rdma_endpoint: local.rdma_endpoint,
                device_id: meta.device_id,
                storage_handle: meta.file_path,
                offset: 0,
                length: meta.size,
                checksum: Seq::empty(),
            },
        ],
    }
}

/// Stripe `i` of an object whose stripes are all on this node.
pub open spec fn local_chunk(local: NodeView, s: StripeView, i: int) -> ChunkView {
    let offset = (i * s.chunk_size) as u64;
    ChunkView {
        stripe_index: i as u32,
        node_id: local.node_id,
        grpc_endpoint: local.grpc_endpoint,
        rdma_endpoint: local.rdma_endpoint,
        device_id: if i < s.chunk_devices.len() {
            s.chunk_devices[i]
        } else {
            0
        },
        storage_handle: s.chunk_paths[i],
        offset,
        length: stripe_length(s.total_size, offset, s.chunk_size),
        checksum: if i < s.chunk_checksums.len() {
            s.chunk_checksums[i]
        } else {
            Seq::empty()
        },
    }
}

/// Where stripe offsets are computed rather than recorded, all of them fit 64 bits.
pub open spec fn stripe_offsets_fit(meta: MetaView) -> bool {
    meta.striping matches Some(s) ==> s.chunk_locations.len() == s.chunk_paths.len()
        || offsets_fit(s.chunk_paths.len(), s.chunk_size)
}

/// The offset of the last of `n` stripes fits 64 bits.
pub open spec fn offsets_fit(n: nat, chunk_size: u64) -> bool {
    n == 0 || (n - 1) * chunk_size <= u64::MAX
}

/// The first `n` stripes of a list, as text.
pub open spec fn chunks_text(chunks: Seq<ChunkView>, n: nat) -> Seq<char>
    decreases n,
{
    if n == 0 {
        Seq::empty()
    } else {
        let c = chunks[n - 1];
        chunks_text(chunks, (n - 1) as nat) + "|"@ + decimal(c.stripe_index as nat) + ":"@
            + c.node_id + ":"@ + decimal(c.device_id as nat) + ":"@ + decimal(c.offset as nat) + ":"@
            + c.storage_handle
    }
}

/// The layout of an object version, as one text.
pub open spec fn layout_text(ctx: &KVServiceContext, key: KeyView, meta: MetaView) -> Seq<char> {
    let chunks = chunks_of(ctx.local(), meta);
    canonical(key) + "|g"@ + decimal(meta.object_generation as nat) + "|l"@ + decimal(
        meta.layout_version as nat,
    ) + "|epoch"@ + decimal(ctx.epoch() as nat) + "|"@ + ctx.policy() + "|"@ + decimal(chunks.len())
        + chunks_text(chunks, chunks.len())
}

/// The placement of the object version that `meta` records, as this node sees it.
pub open spec fn placement_of(ctx: &KVServiceContext, key: KeyView, meta: MetaView) -> PlacementView {
    PlacementView {
        key: Some(key),
        placement_epoch: ctx.epoch(),
        placement_policy_id: ctx.policy(),
        layout_hash: hex(xxh3_64(encode_utf8(layout_text(ctx, key, meta))) as nat, 16),
        primary_node_id: ctx.local().node_id,
        primary_grpc_endpoint: ctx.local().grpc_endpoint,
        primary_rdma_endpoint: ctx.local().rdma_endpoint,
        chunks: chunks_of(ctx.local(), meta),
    }
}

/// The list holds these stripes, in order.
pub open spec fn chunk_views(s: Seq<pb::PlacementChunk>) -> Seq<ChunkView> {
    s.map_values(|x: pb::PlacementChunk| x@)
}

fn recorded_chunks(key: &ObjectKey, locations: &Vec<ChunkLocation>) -> (r: Vec<pb::PlacementChunk>)
    ensures
        chunk_views(r@) == locations@.map_values(|x: ChunkLocation| x@),
{
    let mut out: Vec<pb::PlacementChunk> = Vec::new();
    let mut i: usize = 0;
    while i < locations.len()
        invariant
            i <= locations.len(),
            out.len() == i,
            forall|k: int| 0 <= k < i ==> (#[trigger] out@[k])@ == locations@[k]@,
        decreases locations.len() - i,
    {
        out.push(chunk_location_to_pb(key, &locations[i]));
        i = i + 1;
    }
    proof {
        assert(chunk_views(out@) =~= locations@.map_values(|x: ChunkLocation| x@));
    }
    out
}

fn local_chunks(local: &DataNode, s: &StripingInfo) -> (r: Vec<pb::PlacementChunk>)
    requires
        offsets_fit(s.chunk_paths@.len(), s.chunk_size),
    ensures
        chunk_views(r@) == Seq::new(s.chunk_paths@.len(), |i: int| local_chunk(local@, s@, i)),
{
    let mut out: Vec<pb::PlacementChunk> = Vec::new();
    let mut i: usize = 0;
    while i < s.chunk_paths.len()
        invariant
            i <= s.chunk_paths.len(),
            offsets_fit(s.chunk_paths@.len(), s.chunk_size),
            out.len() == i,
            forall|k: int| 0 <= k < i ==> (#[trigger] out@[k])@ == local_chunk(local@, s@, k),
        decreases s.chunk_paths.len() - i,
    {
        proof {
            assert(i * s.chunk_size <= (s.chunk_paths@.len() - 1) * s.chunk_size) by (nonlinear_arith)
                requires
                    i <= s.chunk_paths@.len() - 1,
            ;
            assert(s@.chunk_paths[i as int] == s.chunk_paths@[i as int]@);
            assert(s@.chunk_checksums.len() == s.chunk_checksums@.len());
        }
        let offset: u64 = i as u64 * s.chunk_size;
        let left: u64 = s.total_size.saturating_sub(offset);
        let length: u64 = if left < s.chunk_size {
            left
        } else {
            s.chunk_size
        };
        let device_id: u32 = if i < s.chunk_devices.len() {
            s.chunk_devices[i]
        } else {
            0
        };
        let checksum = if i < s.chunk_checksums.len() {
            proof {
                assert(s@.chunk_checksums[i as int] == s.chunk_checksums@[i as int]@);
            }
            s.chunk_checksums[i].clone()
        } else {
            String::new()
        };
        out.push(
            pb::PlacementChunk {
                stripe_index: i as u32,
                node_id: local.node_id.clone(),
                grpc_endpoint: local.grpc_endpoint.clone(),
                rdma_endpoint: local.rdma_endpoint.clone(),
                device_id,
                storage_handle: s.chunk_paths[i].clone(),
                offset,
                length,
                checksum,
            },
        );
        proof {
            assert(out@[i as int]@ =~= local_chunk(local@, s@, i as int));
        }
        i = i + 1;
    }
    proof {
        assert(chunk_views(out@) =~= Seq::new(
            s.chunk_paths@.len(),
            |i: int| local_chunk(local@, s@, i),
        ));
    }
    out
}

fn push_layout(seed: &mut String, chunks: &Vec<pb::PlacementChunk>)
    ensures
        final(seed)@ == old(seed)@ + chunks_text(chunk_views(chunks@), chunks@.len()),
{
    let ghost head = seed@;
    proof {
        assert(head + chunks_text(chunk_views(chunks@), 0) =~= head);
    }
    let mut i: usize = 0;
    while i < chunks.len()
        invariant
            i <= chunks.len(),
            seed@ == head + chunks_text(chunk_views(chunks@), i as nat),
        decreases chunks.len() - i,
    {
        let c = &chunks[i];
        proof {
            assert(chunk_views(chunks@)[i as int] == c@);
        }
        seed.append("|");
        text::push_decimal(seed, c.stripe_index as u64);
        seed.append(":");
        seed.append(c.node_id.as_str());
        seed.append(":");
        text::push_decimal(seed, c.device_id as u64);
        seed.append(":");
        text::push_decimal(seed, c.offset);
        seed.append(":");
        seed.append(c.storage_handle.as_str());
        i = i + 1;
        proof {
            assert(seed@ =~= head + chunks_text(chunk_views(chunks@), i as nat));
        }
    }
}

/// The placement of the object version that `meta` records, as this node sees it.
pub fn placement_from_meta(ctx: &KVServiceContext, key: &ObjectKey, meta: &BlockMeta) -> (r:
    pb::PlacementDescriptor)
    requires
        stripe_offsets_fit(meta@),
    ensures
        r@ == placement_of(ctx, key@, meta@),
        meta@.striping matches Some(s) ==> s.chunk_locations.len() != s.chunk_paths.len()
            ==> layout::handles(r@.chunks) == s.chunk_paths,
{
    let local = local_node(ctx);
    let epoch: u64 = placement_epoch(ctx);
    let policy = placement_policy_id(ctx);
    let chunks = match &meta.striping {
        Some(s) => {
            proof {
                assert(s@.chunk_locations.len() == s.chunk_locations@.len());
                assert(s@.chunk_paths.len() == s.chunk_paths@.len());
            }
            if s.chunk_locations.len() == s.chunk_paths.len() {
                recorded_chunks(key, &s.chunk_locations)
            } else {
                local_chunks(&local, s)
            }
        },
        None => {
            let mut one: Vec<pb::PlacementChunk> = Vec::new();
            one.push(
                pb::PlacementChunk {
                    stripe_index: 0,
                    node_id: local.node_id.clone(),
                    grpc_endpoint: local.grpc_endpoint.clone(),
                    rdma_endpoint: local.rdma_endpoint.clone(),
                    device_id: meta.device_id,
                    storage_handle: meta.file_path.clone(),
                    offset: 0,
                    length: meta.size,
                    checksum: String::new(),
                },
            );
            proof {
                assert(chunk_views(one@) =~= chunks_of(local@, meta@));
            }
            one
        },
    };
    proof {
        assert(chunk_views(chunks@) =~= chunks_of(local@, meta@));
        assert(chunk_views(chunks@).len() == chunks@.len());
        if meta@.striping is Some && meta@.striping->0.chunk_locations.len()
            != meta@.striping->0.chunk_paths.len() {
            assert(layout::handles(chunks_of(local@, meta@))
                =~= meta@.striping->0.chunk_paths);
        }
    }
    let mut seed = key.to_string_key();
    seed.append("|g");
    text::push_decimal(&mut seed, meta.object_generation);
    seed.append("|l");
    text::push_decimal(&mut seed, meta.layout_version);
    seed.append("|epoch");
    text::push_decimal(&mut seed, epoch);
    seed.append("|");
    seed.append(policy.as_str());
    seed.append("|");
    text::push_decimal(&mut seed, chunks.len() as u64);
    push_layout(&mut seed, &chunks);
    proof {
        assert(seed@ =~= layout_text(ctx, key@, meta@));
    }
    pb::PlacementDescriptor {
        key: Some(internal_key_to_pb(key)),
        placement_epoch: epoch,
        placement_policy_id: policy,
        layout_hash: text::hex16(hash64(seed.as_str().as_bytes())),
        primary_node_id: local.node_id,
        primary_grpc_endpoint: local.grpc_endpoint,
        primary_rdma_endpoint: local.rdma_endpoint,
        chunks,
    }
}

/// The key that a descriptor names.
pub fn key_from_descriptor(desc: &pb::ObjectDescriptor) -> (r: Result<ObjectKey, Status>)
    ensures
        match desc@.key {
            Some(k) => r is Ok && r->Ok_0@ == k,
            None => r is Err && r->Err_0.says(Code::InvalidArgument, "descriptor missing key"@),
        },
{
    match &desc.key {
        Some(k) => Ok(pb_key_to_internal(k)),
        None => Err(Status::new(Code::InvalidArgument, "descriptor missing key")),
    }
}

/// A descriptor names the object version that `meta` records.
pub open spec fn describes(desc: DescriptorView, meta: MetaView) -> bool {
    &&& desc.object_generation == meta.object_generation
    &&& desc.content_etag == meta.content_etag
    &&& desc.layout_version == meta.layout_version
    &&& desc.size == meta.size
    &&& desc.object_handle == meta.object_handle
}

/// Accepts a descriptor of the version that `meta` records, and no other.
pub fn validate_descriptor(desc: &pb::ObjectDescriptor, meta: &BlockMeta) -> (r: Result<(), Status>)
    ensures
        describes(desc@, meta@) ==> r is Ok,
        !describes(desc@, meta@) ==> r is Err && r->Err_0.says(
            Code::FailedPrecondition,
            "stale descriptor"@,
        ),
{
    if desc.object_generation != meta.object_generation || desc.content_etag != meta.content_etag
        || desc.layout_version != meta.layout_version || desc.size != meta.size
        || desc.object_handle != meta.object_handle {
        return Err(Status::new(Code::FailedPrecondition, "stale descriptor"));
    }
    Ok(())
}

/// A descriptor made of an object's metadata is accepted against the same metadata, where a
/// handle is recorded: a descriptor of metadata without a handle carries one all the same.
pub proof fn own_descriptor_is_current(key: KeyView, meta: MetaView)
    requires
        meta.object_handle.len() > 0,
    ensures
        describes(descriptor_of(key, meta), meta),
{
}

/// A descriptor of an earlier generation is refused.
pub proof fn older_generation_is_stale(key: KeyView, old_meta: MetaView, meta: MetaView)
    requires
        old_meta.object_generation != meta.object_generation,
    ensures
        !describes(descriptor_of(key, old_meta), meta),
{
}

/// What is wrong with a placement that a caller brings for the object `key`, if anything. No
/// placement at all is accepted.
pub open spec fn placement_fault(
    ctx: &KVServiceContext,
    key: KeyView,
    meta: MetaView,
    placement: Option<PlacementView>,
) -> Option<(Code, Seq<char>)> {
    match placement {
        None => None,
        Some(p) => {
            let expected = placement_of(ctx, key, meta);
            match p.key {
                None => Some((Code::InvalidArgument, "placement descriptor missing key"@)),
                Some(k) => if k != key || p.placement_epoch != expected.placement_epoch
                    || p.placement_policy_id != expected.placement_policy_id || p.layout_hash
                    != expected.layout_hash {
                    Some((Code::FailedPrecondition, "stale placement descriptor"@))
                } else {
                    None
                },
            }
        },
    }
}

/// Accepts a placement that matches the current topology and layout of the object.
pub fn validate_placement_descriptor(
    ctx: &KVServiceContext,
    key: &ObjectKey,
    meta: &BlockMeta,
    placement: Option<&pb::PlacementDescriptor>,
) -> (r: Result<(), Status>)
    requires
        stripe_offsets_fit(meta@),
    ensures
        match placement_fault(
            ctx,
            key@,
            meta@,
            match placement {
                Some(p) => Some(p@),
                None => None,
            },
        ) {
            None => r is Ok,
            Some(f) => r is Err && r->Err_0.says(f.0, f.1),
        },
{
    let p = match placement {
        Some(p) => p,
        None => {
            return Ok(());
        },
    };
    let placement_key = match &p.key {
        Some(k) => pb_key_to_internal(k),
        None => {
            return Err(Status::new(Code::InvalidArgument, "placement descriptor missing key"));
        },
    };
    if !placement_key.matches(key) {
        return Err(Status::new(Code::FailedPrecondition, "stale placement descriptor"));
    }
    let expected = placement_from_meta(ctx, key, meta);
    if p.placement_epoch != expected.placement_epoch || p.placement_policy_id
        != expected.placement_policy_id || p.layout_hash != expected.layout_hash {
        return Err(Status::new(Code::FailedPrecondition, "stale placement descriptor"));
    }
    Ok(())
}

/// The placement that a node gives for an object is accepted by that node.
pub proof fn own_placement_is_current(ctx: &KVServiceContext, key: KeyView, meta: MetaView)
    ensures
        placement_fault(ctx, key, meta, Some(placement_of(ctx, key, meta))) is None,
{
}

/// A placement of another epoch is refused.
pub proof fn other_epoch_is_stale(
    ctx: &KVServiceContext,
    key: KeyView,
    meta: MetaView,
    placement: PlacementView,
)
    requires
        placement.key is Some,
        placement.placement_epoch != ctx.epoch(),
    ensures
        placement_fault(ctx, key, meta, Some(placement)) == Some(
            (Code::FailedPrecondition, "stale placement descriptor"@),
        ),
{
}

} // verus!
