//! The texts behind the epoch and the layout hash tell topologies and layouts apart.
use crate::error::Code;
use crate::hash::xxh3_64;
use crate::key::KeyView;
use crate::metadata::{ChunkView, MetaView};
use crate::placement::{
    chunks_of, chunks_text, layout_text, nodes_text, placement_fault, placement_of,
    KVServiceContext, NodeView,
};
use crate::text;
use crate::text::decimal;
use vstd::prelude::*;
use vstd::string::*;
use vstd::utf8::encode_utf8;

verus! {

/// How often a character occurs in a text.
pub open spec fn occurrences(s: Seq<char>, c: char) -> nat
    decreases s.len(),
{
    if s.len() == 0 {
        0
    } else {
        occurrences(s.drop_last(), c) + (if s.last() == c {
            1nat
        } else {
            0nat
        })
    }
}

proof fn lemma_occurrences_append(a: Seq<char>, b: Seq<char>, c: char)
    ensures
        occurrences(a + b, c) == occurrences(a, c) + occurrences(b, c),
    decreases b.len(),
{
    if b.len() == 0 {
        assert(a + b =~= a);
    } else {
        lemma_occurrences_append(a, b.drop_last(), c);
        assert((a + b).drop_last() =~= a + b.drop_last());
    }
}

proof fn lemma_no_occurrence(s: Seq<char>, c: char)
    requires
        forall|i: int| 0 <= i < s.len() ==> #[trigger] s[i] != c,
    ensures
        occurrences(s, c) == 0,
    decreases s.len(),
{
    if s.len() > 0 {
        lemma_no_occurrence(s.drop_last(), c);
    }
}

proof fn lemma_decimal_has_no(n: nat, c: char)
    requires
        !text::is_digit(c),
    ensures
        occurrences(decimal(n), c) == 0,
{
    text::lemma_decimal_value(n);
    lemma_no_occurrence(decimal(n), c);
}

proof fn lemma_one(c: char, d: char)
    ensures
        occurrences(seq![c], d) == (if c == d {
            1nat
        } else {
            0nat
        }),
{
    reveal_with_fuel(occurrences, 2);
    assert(seq![c].drop_last() =~= Seq::<char>::empty());
}

/// Two texts that are equal, and cut at the same occurrence of a character, have equal parts.
proof fn lemma_cut(a: Seq<char>, x: Seq<char>, b: Seq<char>, y: Seq<char>, c: char)
    requires
        a + seq![c] + x == b + seq![c] + y,
        occurrences(a, c) == occurrences(b, c),
    ensures
        a == b,
        x == y,
{
    let t = a + seq![c] + x;
    if a.len() < b.len() {
        lemma_cut_apart(a, x, b, y, c);
    } else if b.len() < a.len() {
        lemma_cut_apart(b, y, a, x, c);
    } else {
        assert(a =~= t.take(a.len() as int));
        assert(b =~= t.take(a.len() as int));
        assert(x =~= t.skip(a.len() as int + 1));
        assert(y =~= t.skip(a.len() as int + 1));
    }
}

proof fn lemma_cut_apart(a: Seq<char>, x: Seq<char>, b: Seq<char>, y: Seq<char>, c: char)
    requires
        a + seq![c] + x == b + seq![c] + y,
        a.len() < b.len(),
    ensures
        occurrences(a, c) < occurrences(b, c),
{
    let t = a + seq![c] + x;
    let rest = b.skip(a.len() as int + 1);
    assert(b =~= t.take(b.len() as int));
    assert(b =~= a + seq![c] + rest) by {
        assert(a =~= t.take(a.len() as int));
        assert(t[a.len() as int] == c);
    }
    lemma_occurrences_append(a + seq![c], rest, c);
    lemma_occurrences_append(a, seq![c], c);
    lemma_one(c, c);
}

proof fn lemma_same_start(p: Seq<char>, x: Seq<char>, y: Seq<char>)
    requires
        p + x == p + y,
    ensures
        x == y,
{
    assert(x =~= (p + x).skip(p.len() as int));
    assert(y =~= (p + y).skip(p.len() as int));
}

proof fn lemma_same_end(p: Seq<char>, x: Seq<char>, y: Seq<char>)
    requires
        x + p == y + p,
    ensures
        x == y,
{
    assert((x + p).len() == x.len() + p.len());
    assert((y + p).len() == y.len() + p.len());
    assert(x =~= (x + p).take(x.len() as int));
    assert(y =~= (y + p).take(y.len() as int));
}

/// No field of a node holds the character that separates nodes.
pub open spec fn plain_node(n: NodeView) -> bool {
    occurrences(n.node_id, '|') == 0 && occurrences(n.grpc_endpoint, '|') == 0 && occurrences(
        n.rdma_endpoint,
        '|',
    ) == 0
}

/// The IDs of two nodes hold as many colons, and so do their RPC addresses: none in a name, one
/// in a host and its port.
pub open spec fn alike(a: NodeView, b: NodeView) -> bool {
    occurrences(a.node_id, ':') == occurrences(b.node_id, ':') && occurrences(a.grpc_endpoint, ':')
        == occurrences(b.grpc_endpoint, ':')
}

spec fn node_fields(n: NodeView) -> Seq<char> {
    n.node_id + seq![':'] + (n.grpc_endpoint + seq![':'] + n.rdma_endpoint)
}

proof fn lemma_node_text(nodes: Seq<NodeView>, n: nat)
    requires
        0 < n <= nodes.len(),
    ensures
        nodes_text(nodes, n) == nodes_text(nodes, (n - 1) as nat) + seq!['|'] + ("node"@ + decimal(
            (n - 1) as nat,
        ) + "="@ + node_fields(nodes[n - 1])),
{
    reveal_strlit("|node");
    reveal_strlit("node");
    reveal_strlit(":");
    assert("|node"@ =~= seq!['|'] + "node"@);
    assert(":"@ =~= seq![':']);
    assert(nodes_text(nodes, n) =~= nodes_text(nodes, (n - 1) as nat) + seq!['|'] + ("node"@
        + decimal((n - 1) as nat) + "="@ + node_fields(nodes[n - 1])));
}

proof fn lemma_node_fields(n: NodeView, i: nat)
    requires
        plain_node(n),
    ensures
        occurrences("node"@ + decimal(i) + "="@ + node_fields(n), '|') == 0,
{
    reveal_strlit("node");
    reveal_strlit("=");
    let c = '|';
    let addresses = n.grpc_endpoint + seq![':'] + n.rdma_endpoint;
    lemma_no_occurrence("node"@, c);
    lemma_no_occurrence("="@, c);
    lemma_decimal_has_no(i, c);
    lemma_one(':', c);
    lemma_occurrences_append(n.grpc_endpoint, seq![':'], c);
    lemma_occurrences_append(n.grpc_endpoint + seq![':'], n.rdma_endpoint, c);
    lemma_occurrences_append(n.node_id, seq![':'], c);
    lemma_occurrences_append(n.node_id + seq![':'], addresses, c);
    lemma_occurrences_append("node"@, decimal(i), c);
    lemma_occurrences_append("node"@ + decimal(i), "="@, c);
    lemma_occurrences_append("node"@ + decimal(i) + "="@, node_fields(n), c);
}

proof fn lemma_nodes_count(nodes: Seq<NodeView>, n: nat)
    requires
        n <= nodes.len(),
        forall|i: int| 0 <= i < nodes.len() ==> plain_node(#[trigger] nodes[i]),
    ensures
        occurrences(nodes_text(nodes, n), '|') == n,
    decreases n,
{
    if n > 0 {
        let m = (n - 1) as nat;
        lemma_nodes_count(nodes, m);
        lemma_node_text(nodes, n);
        assert(plain_node(nodes[m as int]));
        lemma_node_fields(nodes[m as int], m);
        lemma_one('|', '|');
        lemma_occurrences_append(nodes_text(nodes, m), seq!['|'], '|');
        lemma_occurrences_append(
            nodes_text(nodes, m) + seq!['|'],
            "node"@ + decimal(m) + "="@ + node_fields(nodes[m as int]),
            '|',
        );
    }
}

/// Equal fields in one text mean equal fields.
proof fn lemma_fields_tell(a: NodeView, b: NodeView)
    requires
        node_fields(a) == node_fields(b),
        alike(a, b),
    ensures
        a == b,
{
    lemma_cut(
        a.node_id,
        a.grpc_endpoint + seq![':'] + a.rdma_endpoint,
        b.node_id,
        b.grpc_endpoint + seq![':'] + b.rdma_endpoint,
        ':',
    );
    lemma_cut(a.grpc_endpoint, a.rdma_endpoint, b.grpc_endpoint, b.rdma_endpoint, ':');
}

proof fn lemma_nodes_tell(
    p: Seq<char>,
    x: Seq<NodeView>,
    q: Seq<char>,
    y: Seq<NodeView>,
    n: nat,
)
    requires
        n <= x.len(),
        n <= y.len(),
        forall|i: int| 0 <= i < x.len() ==> plain_node(#[trigger] x[i]),
        forall|i: int| 0 <= i < y.len() ==> plain_node(#[trigger] y[i]),
        forall|i: int| 0 <= i < n ==> alike(#[trigger] x[i], y[i]),
        occurrences(p, '|') == occurrences(q, '|'),
        p + nodes_text(x, n) == q + nodes_text(y, n),
    ensures
        p == q,
        forall|i: int| 0 <= i < n ==> #[trigger] x[i] == y[i],
    decreases n,
{
    if n == 0 {
        assert(p + nodes_text(x, 0) =~= p);
        assert(q + nodes_text(y, 0) =~= q);
    } else {
        let m = (n - 1) as nat;
        lemma_node_text(x, n);
        lemma_node_text(y, n);
        lemma_nodes_count(x, m);
        lemma_nodes_count(y, m);
        lemma_occurrences_append(p, nodes_text(x, m), '|');
        lemma_occurrences_append(q, nodes_text(y, m), '|');
        let u = "node"@ + decimal(m) + "="@ + node_fields(x[m as int]);
        let v = "node"@ + decimal(m) + "="@ + node_fields(y[m as int]);
        assert(p + nodes_text(x, n) =~= p + nodes_text(x, m) + seq!['|'] + u);
        assert(q + nodes_text(y, n) =~= q + nodes_text(y, m) + seq!['|'] + v);
        lemma_cut(p + nodes_text(x, m), u, q + nodes_text(y, m), v, '|');
        lemma_same_start(
            "node"@ + decimal(m) + "="@,
            node_fields(x[m as int]),
            node_fields(y[m as int]),
        );
        assert(alike(x[m as int], y[m as int]));
        lemma_fields_tell(x[m as int], y[m as int]);
        lemma_nodes_tell(p, x, q, y, m);
    }
}

/// Strategy, stripe threshold, stripe size, number of devices, and all nodes with all their
/// addresses are the same.
pub open spec fn same_topology(a: KVServiceContext, b: KVServiceContext) -> bool {
    &&& a.config.router.strategy@ == b.config.router.strategy@
    &&& a.config.storage.striping_threshold == b.config.storage.striping_threshold
    &&& a.config.storage.striping_chunk_size == b.config.storage.striping_chunk_size
    &&& a.config.storage.devices@.len() == b.config.storage.devices@.len()
    &&& a.nodes().len() == b.nodes().len()
    &&& forall|i: int|
        0 <= i < a.nodes().len() ==> {
            &&& (#[trigger] a.nodes()[i]).node_id == b.nodes()[i].node_id
            &&& a.nodes()[i].grpc_endpoint == b.nodes()[i].grpc_endpoint
            &&& a.nodes()[i].rdma_endpoint == b.nodes()[i].rdma_endpoint
        }
}

/// The texts of two topologies can be compared part by part: the bar, which separates their
/// parts, is in no name and no address, and nodes at the same place are alike in their colons.
pub open spec fn comparable(a: KVServiceContext, b: KVServiceContext) -> bool {
    &&& occurrences(a.config.router.strategy@, '|') == 0
    &&& occurrences(b.config.router.strategy@, '|') == 0
    &&& forall|i: int| 0 <= i < a.nodes().len() ==> plain_node(#[trigger] a.nodes()[i])
    &&& forall|i: int| 0 <= i < b.nodes().len() ==> plain_node(#[trigger] b.nodes()[i])
    &&& forall|i: int|
        0 <= i < a.nodes().len() && i < b.nodes().len() ==> alike(
            #[trigger] a.nodes()[i],
            b.nodes()[i],
        )
}

spec fn settings_text(c: KVServiceContext) -> Seq<char> {
    "striping_threshold="@ + decimal(c.config.storage.striping_threshold as nat) + seq!['|'] + (
    "striping_chunk_size="@ + decimal(c.config.storage.striping_chunk_size as nat) + seq!['|'] + (
    "devices="@ + decimal(c.config.storage.devices@.len())))
}

spec fn head_text(c: KVServiceContext) -> Seq<char> {
    "policy="@ + c.config.router.strategy@ + "_v1"@ + seq!['|'] + settings_text(c)
}

proof fn lemma_head(c: KVServiceContext)
    requires
        occurrences(c.config.router.strategy@, '|') == 0,
    ensures
        c.topology_text() == head_text(c) + nodes_text(c.nodes(), c.nodes().len()),
        occurrences("policy="@ + c.config.router.strategy@ + "_v1"@, '|') == 0,
        occurrences(
            "striping_threshold="@ + decimal(c.config.storage.striping_threshold as nat),
            '|',
        ) == 0,
        occurrences(
            "striping_chunk_size="@ + decimal(c.config.storage.striping_chunk_size as nat),
            '|',
        ) == 0,
        occurrences(head_text(c), '|') == 3,
{
    reveal_strlit("policy=");
    reveal_strlit("_v1");
    reveal_strlit("|striping_threshold=");
    reveal_strlit("striping_threshold=");
    reveal_strlit("|striping_chunk_size=");
    reveal_strlit("striping_chunk_size=");
    reveal_strlit("|devices=");
    reveal_strlit("devices=");
    assert("|striping_threshold="@ =~= seq!['|'] + "striping_threshold="@);
    assert("|striping_chunk_size="@ =~= seq!['|'] + "striping_chunk_size="@);
    assert("|devices="@ =~= seq!['|'] + "devices="@);
    let bar = seq!['|'];
    let s = c.config.router.strategy@;
    let t = decimal(c.config.storage.striping_threshold as nat);
    let z = decimal(c.config.storage.striping_chunk_size as nat);
    let d = decimal(c.config.storage.devices@.len());
    assert(c.topology_text() =~= head_text(c) + nodes_text(c.nodes(), c.nodes().len()));
    let ch = '|';
    lemma_no_occurrence("policy="@, ch);
    lemma_no_occurrence("_v1"@, ch);
    lemma_no_occurrence("striping_threshold="@, ch);
    lemma_no_occurrence("striping_chunk_size="@, ch);
    lemma_no_occurrence("devices="@, ch);
    lemma_decimal_has_no(c.config.storage.striping_threshold as nat, ch);
    lemma_decimal_has_no(c.config.storage.striping_chunk_size as nat, ch);
    lemma_decimal_has_no(c.config.storage.devices@.len(), ch);
    lemma_one(ch, ch);
    lemma_occurrences_append("policy="@, s, ch);
    lemma_occurrences_append("policy="@ + s, "_v1"@, ch);
    lemma_occurrences_append("striping_threshold="@, t, ch);
    lemma_occurrences_append("striping_chunk_size="@, z, ch);
    lemma_occurrences_append("devices="@, d, ch);
    let third = "devices="@ + d;
    let second = "striping_chunk_size="@ + z;
    let first = "striping_threshold="@ + t;
    lemma_occurrences_append(second, bar, ch);
    lemma_occurrences_append(second + bar, third, ch);
    lemma_occurrences_append(first, bar, ch);
    lemma_occurrences_append(first + bar, second + bar + third, ch);
    lemma_occurrences_append("policy="@ + s + "_v1"@, bar, ch);
    lemma_occurrences_append("policy="@ + s + "_v1"@ + bar, settings_text(c), ch);
}

/// The text that is hashed into the epoch tells topologies apart: where two topologies differ in
/// their strategy, their stripe threshold, their stripe size, their number of devices, their
/// number of nodes, or in the ID, the RPC address or the RDMA address of any node, their texts
/// differ.
pub proof fn topologies_have_texts_of_their_own(a: KVServiceContext, b: KVServiceContext)
    requires
        comparable(a, b),
    ensures
        a.topology_text() == b.topology_text() <==> same_topology(a, b),
{
    lemma_head(a);
    lemma_head(b);
    if same_topology(a, b) {
        assert(a.nodes() =~= b.nodes()) by {
            assert forall|i: int| 0 <= i < a.nodes().len() implies a.nodes()[i] == b.nodes()[i] by {
                assert(a.nodes()[i] =~= b.nodes()[i]);
            }
        }
    }
    if a.topology_text() == b.topology_text() {
        let n = a.nodes().len();
        let m = b.nodes().len();
        lemma_nodes_count(a.nodes(), n);
        lemma_nodes_count(b.nodes(), m);
        lemma_occurrences_append(head_text(a), nodes_text(a.nodes(), n), '|');
        lemma_occurrences_append(head_text(b), nodes_text(b.nodes(), m), '|');
        assert(n == m);
        lemma_nodes_tell(head_text(a), a.nodes(), head_text(b), b.nodes(), n);
        lemma_cut(
            "policy="@ + a.config.router.strategy@ + "_v1"@,
            settings_text(a),
            "policy="@ + b.config.router.strategy@ + "_v1"@,
            settings_text(b),
            '|',
        );
        lemma_same_end(
            "_v1"@,
            "policy="@ + a.config.router.strategy@,
            "policy="@ + b.config.router.strategy@,
        );
        lemma_same_start("policy="@, a.config.router.strategy@, b.config.router.strategy@);
        let ta = "striping_threshold="@ + decimal(a.config.storage.striping_threshold as nat);
        let tb = "striping_threshold="@ + decimal(b.config.storage.striping_threshold as nat);
        let za = "striping_chunk_size="@ + decimal(a.config.storage.striping_chunk_size as nat);
        let zb = "striping_chunk_size="@ + decimal(b.config.storage.striping_chunk_size as nat);
        let da = "devices="@ + decimal(a.config.storage.devices@.len());
        let db = "devices="@ + decimal(b.config.storage.devices@.len());
        lemma_cut(ta, za + seq!['|'] + da, tb, zb + seq!['|'] + db, '|');
        lemma_cut(za, da, zb, db, '|');
        lemma_same_start(
            "striping_threshold="@,
            decimal(a.config.storage.striping_threshold as nat),
            decimal(b.config.storage.striping_threshold as nat),
        );
        lemma_same_start(
            "striping_chunk_size="@,
            decimal(a.config.storage.striping_chunk_size as nat),
            decimal(b.config.storage.striping_chunk_size as nat),
        );
        lemma_same_start(
            "devices="@,
            decimal(a.config.storage.devices@.len()),
            decimal(b.config.storage.devices@.len()),
        );
        text::lemma_decimal_injective(
            a.config.storage.striping_threshold as nat,
            b.config.storage.striping_threshold as nat,
        );
        text::lemma_decimal_injective(
            a.config.storage.striping_chunk_size as nat,
            b.config.storage.striping_chunk_size as nat,
        );
        text::lemma_decimal_injective(
            a.config.storage.devices@.len(),
            b.config.storage.devices@.len(),
        );
    }
}

/// The digests of two texts differ, and so do the epochs made of them: an epoch is never zero, so
/// that zero and one give the same.
pub open spec fn digests_differ(s: Seq<char>, t: Seq<char>) -> bool {
    let g = xxh3_64(encode_utf8(s));
    let h = xxh3_64(encode_utf8(t));
    g != h && !(g <= 1 && h <= 1)
}

/// A placement that was handed out under another topology is refused as stale, unless the
/// digests of the two topologies happen to be the same.
pub proof fn placement_of_another_topology_is_stale(
    a: KVServiceContext,
    b: KVServiceContext,
    key: KeyView,
    then: MetaView,
    now: MetaView,
)
    requires
        comparable(a, b),
        !same_topology(a, b),
        a.topology_text() != b.topology_text() ==> digests_differ(
            a.topology_text(),
            b.topology_text(),
        ),
    ensures
        a.epoch() != b.epoch(),
        placement_fault(&b, key, now, Some(placement_of(&a, key, then))) == Some(
            (Code::FailedPrecondition, "stale placement descriptor"@),
        ),
{
    topologies_have_texts_of_their_own(a, b);
}

proof fn lemma_nodes_text_same(x: Seq<NodeView>, y: Seq<NodeView>, n: nat)
    requires
        n <= x.len(),
        n <= y.len(),
        forall|i: int| 0 <= i < n ==> #[trigger] x[i] == y[i],
    ensures
        nodes_text(x, n) == nodes_text(y, n),
    decreases n,
{
    if n > 0 {
        lemma_nodes_text_same(x, y, (n - 1) as nat);
    }
}

/// Two nodes differ in one field, and in that alone.
pub open spec fn one_field_apart(a: NodeView, b: NodeView) -> bool {
    ||| a.node_id != b.node_id && a.grpc_endpoint == b.grpc_endpoint && a.rdma_endpoint
        == b.rdma_endpoint
    ||| a.node_id == b.node_id && a.grpc_endpoint != b.grpc_endpoint && a.rdma_endpoint
        == b.rdma_endpoint
    ||| a.node_id == b.node_id && a.grpc_endpoint == b.grpc_endpoint && a.rdma_endpoint
        != b.rdma_endpoint
}

proof fn lemma_one_field_apart(a: NodeView, b: NodeView)
    requires
        one_field_apart(a, b),
    ensures
        node_fields(a) != node_fields(b),
{
    if node_fields(a) == node_fields(b) {
        let colon = seq![':'];
        if a.node_id != b.node_id {
            let rest = colon + (a.grpc_endpoint + colon + a.rdma_endpoint);
            assert(node_fields(a) =~= a.node_id + rest);
            assert(node_fields(b) =~= b.node_id + rest);
            lemma_same_end(rest, a.node_id, b.node_id);
        } else {
            lemma_same_start(
                a.node_id + colon,
                a.grpc_endpoint + colon + a.rdma_endpoint,
                b.grpc_endpoint + colon + b.rdma_endpoint,
            );
            if a.grpc_endpoint != b.grpc_endpoint {
                let rest = colon + a.rdma_endpoint;
                assert(a.grpc_endpoint + colon + a.rdma_endpoint =~= a.grpc_endpoint + rest);
                assert(b.grpc_endpoint + colon + b.rdma_endpoint =~= b.grpc_endpoint + rest);
                lemma_same_end(rest, a.grpc_endpoint, b.grpc_endpoint);
            } else {
                lemma_same_start(a.grpc_endpoint + colon, a.rdma_endpoint, b.rdma_endpoint);
            }
        }
    }
}

proof fn lemma_moved_node(x: Seq<NodeView>, y: Seq<NodeView>, k: int, n: nat)
    requires
        0 <= k < n <= x.len(),
        n <= y.len(),
        one_field_apart(x[k], y[k]),
        forall|i: int| 0 <= i < n && i != k ==> #[trigger] x[i] == y[i],
    ensures
        nodes_text(x, n) != nodes_text(y, n),
    decreases n,
{
    let m = (n - 1) as nat;
    lemma_node_text(x, n);
    lemma_node_text(y, n);
    let start = "node"@ + decimal(m) + "="@;
    if k == m {
        lemma_nodes_text_same(x, y, m);
        if nodes_text(x, n) == nodes_text(y, n) {
            lemma_same_start(
                nodes_text(x, m) + seq!['|'],
                start + node_fields(x[k]),
                start + node_fields(y[k]),
            );
            lemma_same_start(start, node_fields(x[k]), node_fields(y[k]));
            lemma_one_field_apart(x[k], y[k]);
        }
    } else {
        lemma_moved_node(x, y, k, m);
        assert(x[m as int] == y[m as int]);
        if nodes_text(x, n) == nodes_text(y, n) {
            let rest = seq!['|'] + (start + node_fields(x[m as int]));
            assert(nodes_text(x, n) =~= nodes_text(x, m) + rest);
            assert(nodes_text(y, n) =~= nodes_text(y, m) + rest);
            lemma_same_end(rest, nodes_text(x, m), nodes_text(y, m));
        }
    }
}

/// A node that is renamed, or that moves to another RPC or RDMA address, changes the text of the
/// topology, whatever characters its names and addresses hold.
pub proof fn moved_node_changes_the_text(a: KVServiceContext, b: KVServiceContext, k: int)
    requires
        a.config.router.strategy@ == b.config.router.strategy@,
        a.config.storage.striping_threshold == b.config.storage.striping_threshold,
        a.config.storage.striping_chunk_size == b.config.storage.striping_chunk_size,
        a.config.storage.devices@.len() == b.config.storage.devices@.len(),
        a.nodes().len() == b.nodes().len(),
        0 <= k < a.nodes().len(),
        one_field_apart(a.nodes()[k], b.nodes()[k]),
        forall|i: int| 0 <= i < a.nodes().len() && i != k ==> #[trigger] a.nodes()[i] == b.nodes()[i],
    ensures
        a.topology_text() != b.topology_text(),
{
    let n = a.nodes().len();
    lemma_moved_node(a.nodes(), b.nodes(), k, n);
    if a.topology_text() == b.topology_text() {
        let head = "policy="@ + a.policy() + "|striping_threshold="@ + decimal(
            a.config.storage.striping_threshold as nat,
        ) + "|striping_chunk_size="@ + decimal(a.config.storage.striping_chunk_size as nat)
            + "|devices="@ + decimal(a.config.storage.devices@.len());
        assert(a.topology_text() == head + nodes_text(a.nodes(), n));
        assert(b.topology_text() == head + nodes_text(b.nodes(), n));
        lemma_same_start(head, nodes_text(a.nodes(), n), nodes_text(b.nodes(), n));
    }
}

// ---- layouts ----
spec fn chunk_fields(c: ChunkView) -> Seq<char> {
    decimal(c.stripe_index as nat) + seq![':'] + (c.node_id + seq![':'] + (decimal(
        c.device_id as nat,
    ) + seq![':'] + (decimal(c.offset as nat) + seq![':'] + c.storage_handle)))
}

/// Neither the node nor the handle of a stripe holds the character that separates stripes.
pub open spec fn plain_chunk(c: ChunkView) -> bool {
    occurrences(c.node_id, '|') == 0 && occurrences(c.storage_handle, '|') == 0
}

/// Two stripes have the same number, node, device, offset and handle.
pub open spec fn same_place(a: ChunkView, b: ChunkView) -> bool {
    &&& a.stripe_index == b.stripe_index
    &&& a.node_id == b.node_id
    &&& a.device_id == b.device_id
    &&& a.offset == b.offset
    &&& a.storage_handle == b.storage_handle
}

proof fn lemma_chunk_text(chunks: Seq<ChunkView>, n: nat)
    requires
        0 < n <= chunks.len(),
    ensures
        chunks_text(chunks, n) == chunks_text(chunks, (n - 1) as nat) + seq!['|'] + chunk_fields(
            chunks[n - 1],
        ),
{
    reveal_strlit("|");
    reveal_strlit(":");
    assert("|"@ =~= seq!['|']);
    assert(":"@ =~= seq![':']);
    assert(chunks_text(chunks, n) =~= chunks_text(chunks, (n - 1) as nat) + seq!['|']
        + chunk_fields(chunks[n - 1]));
}

proof fn lemma_chunk_fields(c: ChunkView)
    requires
        plain_chunk(c),
    ensures
        occurrences(chunk_fields(c), '|') == 0,
{
    let b = '|';
    let colon = seq![':'];
    let i = decimal(c.stripe_index as nat);
    let d = decimal(c.device_id as nat);
    let o = decimal(c.offset as nat);
    lemma_decimal_has_no(c.stripe_index as nat, b);
    lemma_decimal_has_no(c.device_id as nat, b);
    lemma_decimal_has_no(c.offset as nat, b);
    lemma_one(':', b);
    let last = o + colon + c.storage_handle;
    lemma_occurrences_append(o, colon, b);
    lemma_occurrences_append(o + colon, c.storage_handle, b);
    let device = d + colon + last;
    lemma_occurrences_append(d, colon, b);
    lemma_occurrences_append(d + colon, last, b);
    let node = c.node_id + colon + device;
    lemma_occurrences_append(c.node_id, colon, b);
    lemma_occurrences_append(c.node_id + colon, device, b);
    lemma_occurrences_append(i, colon, b);
    lemma_occurrences_append(i + colon, node, b);
}

proof fn lemma_chunks_count(chunks: Seq<ChunkView>, n: nat)
    requires
        n <= chunks.len(),
        forall|i: int| 0 <= i < chunks.len() ==> plain_chunk(#[trigger] chunks[i]),
    ensures
        occurrences(chunks_text(chunks, n), '|') == n,
    decreases n,
{
    if n > 0 {
        let m = (n - 1) as nat;
        lemma_chunks_count(chunks, m);
        lemma_chunk_text(chunks, n);
        assert(plain_chunk(chunks[m as int]));
        lemma_chunk_fields(chunks[m as int]);
        lemma_one('|', '|');
        lemma_occurrences_append(chunks_text(chunks, m), seq!['|'], '|');
        lemma_occurrences_append(
            chunks_text(chunks, m) + seq!['|'],
            chunk_fields(chunks[m as int]),
            '|',
        );
    }
}

proof fn lemma_chunk_fields_tell(a: ChunkView, b: ChunkView)
    requires
        chunk_fields(a) == chunk_fields(b),
        occurrences(a.node_id, ':') == occurrences(b.node_id, ':'),
    ensures
        same_place(a, b),
{
    let c = ':';
    let colon = seq![':'];
    lemma_decimal_has_no(a.stripe_index as nat, c);
    lemma_decimal_has_no(b.stripe_index as nat, c);
    lemma_decimal_has_no(a.device_id as nat, c);
    lemma_decimal_has_no(b.device_id as nat, c);
    lemma_decimal_has_no(a.offset as nat, c);
    lemma_decimal_has_no(b.offset as nat, c);
    let la = decimal(a.offset as nat) + colon + a.storage_handle;
    let lb = decimal(b.offset as nat) + colon + b.storage_handle;
    let da = decimal(a.device_id as nat) + colon + la;
    let db = decimal(b.device_id as nat) + colon + lb;
    lemma_cut(
        decimal(a.stripe_index as nat),
        a.node_id + colon + da,
        decimal(b.stripe_index as nat),
        b.node_id + colon + db,
        c,
    );
    lemma_cut(a.node_id, da, b.node_id, db, c);
    lemma_cut(decimal(a.device_id as nat), la, decimal(b.device_id as nat), lb, c);
    lemma_cut(
        decimal(a.offset as nat),
        a.storage_handle,
        decimal(b.offset as nat),
        b.storage_handle,
        c,
    );
    text::lemma_decimal_injective(a.stripe_index as nat, b.stripe_index as nat);
    text::lemma_decimal_injective(a.device_id as nat, b.device_id as nat);
    text::lemma_decimal_injective(a.offset as nat, b.offset as nat);
}

proof fn lemma_chunks_tell(
    p: Seq<char>,
    x: Seq<ChunkView>,
    q: Seq<char>,
    y: Seq<ChunkView>,
    n: nat,
)
    requires
        n <= x.len(),
        n <= y.len(),
        forall|i: int| 0 <= i < x.len() ==> plain_chunk(#[trigger] x[i]),
        forall|i: int| 0 <= i < y.len() ==> plain_chunk(#[trigger] y[i]),
        forall|i: int|
            0 <= i < n ==> occurrences((#[trigger] x[i]).node_id, ':') == occurrences(
                y[i].node_id,
                ':',
            ),
        occurrences(p, '|') == occurrences(q, '|'),
        p + chunks_text(x, n) == q + chunks_text(y, n),
    ensures
        p == q,
        forall|i: int| 0 <= i < n ==> same_place(#[trigger] x[i], y[i]),
    decreases n,
{
    if n == 0 {
        assert(p + chunks_text(x, 0) =~= p);
        assert(q + chunks_text(y, 0) =~= q);
    } else {
        let m = (n - 1) as nat;
        lemma_chunk_text(x, n);
        lemma_chunk_text(y, n);
        lemma_chunks_count(x, m);
        lemma_chunks_count(y, m);
        lemma_occurrences_append(p, chunks_text(x, m), '|');
        lemma_occurrences_append(q, chunks_text(y, m), '|');
        let u = chunk_fields(x[m as int]);
        let v = chunk_fields(y[m as int]);
        assert(p + chunks_text(x, n) =~= p + chunks_text(x, m) + seq!['|'] + u);
        assert(q + chunks_text(y, n) =~= q + chunks_text(y, m) + seq!['|'] + v);
        lemma_cut(p + chunks_text(x, m), u, q + chunks_text(y, m), v, '|');
        lemma_chunk_fields_tell(x[m as int], y[m as int]);
        lemma_chunks_tell(p, x, q, y, m);
    }
}

/// The two versions of an object have the same generation and layout version, were placed under
/// the same epoch and strategy, and have their stripes in the same places.
pub open spec fn same_layout(
    a: KVServiceContext,
    then: MetaView,
    b: KVServiceContext,
    now: MetaView,
) -> bool {
    let x = chunks_of(a.local(), then);
    let y = chunks_of(b.local(), now);
    &&& then.object_generation == now.object_generation
    &&& then.layout_version == now.layout_version
    &&& a.epoch() == b.epoch()
    &&& a.config.router.strategy@ == b.config.router.strategy@
    &&& x.len() == y.len()
    &&& forall|i: int| 0 <= i < x.len() ==> same_place(#[trigger] x[i], y[i])
}

/// The texts of two layouts can be compared part by part.
pub open spec fn comparable_layouts(
    a: KVServiceContext,
    then: MetaView,
    b: KVServiceContext,
    now: MetaView,
) -> bool {
    let x = chunks_of(a.local(), then);
    let y = chunks_of(b.local(), now);
    &&& occurrences(a.config.router.strategy@, '|') == 0
    &&& occurrences(b.config.router.strategy@, '|') == 0
    &&& forall|i: int| 0 <= i < x.len() ==> plain_chunk(#[trigger] x[i])
    &&& forall|i: int| 0 <= i < y.len() ==> plain_chunk(#[trigger] y[i])
    &&& forall|i: int|
        0 <= i < x.len() && i < y.len() ==> occurrences((#[trigger] x[i]).node_id, ':')
            == occurrences(y[i].node_id, ':')
}

spec fn layout_head(c: KVServiceContext, meta: MetaView) -> Seq<char> {
    decimal(meta.object_generation as nat) + seq!['|'] + ("l"@ + decimal(meta.layout_version as nat)
        + seq!['|'] + ("epoch"@ + decimal(c.epoch() as nat) + seq!['|'] + (c.config.router.strategy@
        + "_v1"@ + seq!['|'] + decimal(chunks_of(c.local(), meta).len()))))
}

proof fn lemma_layout_head(c: KVServiceContext, key: KeyView, meta: MetaView)
    requires
        occurrences(c.config.router.strategy@, '|') == 0,
    ensures
        layout_text(&c, key, meta) == crate::key::canonical(key) + "|g"@ + (layout_head(c, meta)
            + chunks_text(chunks_of(c.local(), meta), chunks_of(c.local(), meta).len())),
        occurrences("l"@ + decimal(meta.layout_version as nat), '|') == 0,
        occurrences("epoch"@ + decimal(c.epoch() as nat), '|') == 0,
        occurrences(c.config.router.strategy@ + "_v1"@, '|') == 0,
        occurrences(layout_head(c, meta), '|') == 4,
{
    reveal_strlit("|l");
    reveal_strlit("l");
    reveal_strlit("|epoch");
    reveal_strlit("epoch");
    reveal_strlit("|");
    reveal_strlit("_v1");
    assert("|l"@ =~= seq!['|'] + "l"@);
    assert("|epoch"@ =~= seq!['|'] + "epoch"@);
    assert("|"@ =~= seq!['|']);
    let chunks = chunks_of(c.local(), meta);
    assert(layout_text(&c, key, meta) =~= crate::key::canonical(key) + "|g"@ + (layout_head(c, meta)
        + chunks_text(chunks, chunks.len())));
    let b = '|';
    let bar = seq!['|'];
    let g = decimal(meta.object_generation as nat);
    let l = "l"@ + decimal(meta.layout_version as nat);
    let e = "epoch"@ + decimal(c.epoch() as nat);
    let s = c.config.router.strategy@ + "_v1"@;
    let n = decimal(chunks.len());
    lemma_no_occurrence("l"@, b);
    lemma_no_occurrence("epoch"@, b);
    lemma_no_occurrence("_v1"@, b);
    lemma_decimal_has_no(meta.object_generation as nat, b);
    lemma_decimal_has_no(meta.layout_version as nat, b);
    lemma_decimal_has_no(c.epoch() as nat, b);
    lemma_decimal_has_no(chunks.len(), b);
    lemma_one(b, b);
    lemma_occurrences_append("l"@, decimal(meta.layout_version as nat), b);
    lemma_occurrences_append("epoch"@, decimal(c.epoch() as nat), b);
    lemma_occurrences_append(c.config.router.strategy@, "_v1"@, b);
    lemma_occurrences_append(s, bar, b);
    lemma_occurrences_append(s + bar, n, b);
    lemma_occurrences_append(e, bar, b);
    lemma_occurrences_append(e + bar, s + bar + n, b);
    lemma_occurrences_append(l, bar, b);
    lemma_occurrences_append(l + bar, e + bar + (s + bar + n), b);
    lemma_occurrences_append(g, bar, b);
    lemma_occurrences_append(g + bar, l + bar + (e + bar + (s + bar + n)), b);
}

/// The text behind the layout hash tells layouts of an object apart: where generation, layout
/// version, epoch, strategy, number of stripes, or number, node, device, offset or handle of any
/// stripe differ, the texts differ.
pub proof fn layouts_have_texts_of_their_own(
    a: KVServiceContext,
    then: MetaView,
    b: KVServiceContext,
    now: MetaView,
    key: KeyView,
)
    requires
        comparable_layouts(a, then, b, now),
        layout_text(&a, key, then) == layout_text(&b, key, now),
    ensures
        same_layout(a, then, b, now),
{
    let x = chunks_of(a.local(), then);
    let y = chunks_of(b.local(), now);
    lemma_layout_head(a, key, then);
    lemma_layout_head(b, key, now);
    lemma_same_start(
        crate::key::canonical(key) + "|g"@,
        layout_head(a, then) + chunks_text(x, x.len()),
        layout_head(b, now) + chunks_text(y, y.len()),
    );
    lemma_chunks_count(x, x.len());
    lemma_chunks_count(y, y.len());
    lemma_occurrences_append(layout_head(a, then), chunks_text(x, x.len()), '|');
    lemma_occurrences_append(layout_head(b, now), chunks_text(y, y.len()), '|');
    assert(x.len() == y.len());
    lemma_chunks_tell(layout_head(a, then), x, layout_head(b, now), y, x.len());
    let c = '|';
    let bar = seq!['|'];
    let ga = decimal(then.object_generation as nat);
    let gb = decimal(now.object_generation as nat);
    let la = "l"@ + decimal(then.layout_version as nat);
    let lb = "l"@ + decimal(now.layout_version as nat);
    let ea = "epoch"@ + decimal(a.epoch() as nat);
    let eb = "epoch"@ + decimal(b.epoch() as nat);
    let sa = a.config.router.strategy@ + "_v1"@;
    let sb = b.config.router.strategy@ + "_v1"@;
    let na = decimal(x.len());
    let nb = decimal(y.len());
    lemma_decimal_has_no(then.object_generation as nat, c);
    lemma_decimal_has_no(now.object_generation as nat, c);
    lemma_cut(
        ga,
        la + bar + (ea + bar + (sa + bar + na)),
        gb,
        lb + bar + (eb + bar + (sb + bar + nb)),
        c,
    );
    lemma_cut(la, ea + bar + (sa + bar + na), lb, eb + bar + (sb + bar + nb), c);
    lemma_cut(ea, sa + bar + na, eb, sb + bar + nb, c);
    lemma_cut(sa, na, sb, nb, c);
    lemma_same_end("_v1"@, a.config.router.strategy@, b.config.router.strategy@);
    lemma_same_start("l"@, decimal(then.layout_version as nat), decimal(now.layout_version as nat));
    lemma_same_start("epoch"@, decimal(a.epoch() as nat), decimal(b.epoch() as nat));
    text::lemma_decimal_injective(then.object_generation as nat, now.object_generation as nat);
    text::lemma_decimal_injective(then.layout_version as nat, now.layout_version as nat);
    text::lemma_decimal_injective(a.epoch() as nat, b.epoch() as nat);
}

spec fn sixteens(n: nat) -> nat
    decreases n,
{
    if n == 0 {
        1
    } else {
        16 * sixteens((n - 1) as nat)
    }
}

proof fn lemma_hex_tells(a: nat, b: nat, width: nat)
    requires
        a < sixteens(width),
        b < sixteens(width),
        text::hex(a, width) == text::hex(b, width),
    ensures
        a == b,
    decreases width,
{
    if width > 0 {
        let w = (width - 1) as nat;
        let x = text::hex(a, width);
        let y = text::hex(b, width);
        assert(x.drop_last() =~= text::hex(a / 16, w));
        assert(y.drop_last() =~= text::hex(b / 16, w));
        assert(x.last() == text::digit(a % 16));
        assert(y.last() == text::digit(b % 16));
        lemma_hex_tells(a / 16, b / 16, w);
    }
}

/// A placement of an earlier layout of an object is refused as stale, unless the digests of the
/// two layouts happen to be the same.
pub proof fn placement_of_another_layout_is_stale(
    a: KVServiceContext,
    then: MetaView,
    b: KVServiceContext,
    now: MetaView,
    key: KeyView,
)
    requires
        comparable_layouts(a, then, b, now),
        !same_layout(a, then, b, now),
        layout_text(&a, key, then) != layout_text(&b, key, now) ==> xxh3_64(
            encode_utf8(layout_text(&a, key, then)),
        ) != xxh3_64(encode_utf8(layout_text(&b, key, now))),
    ensures
        placement_fault(&b, key, now, Some(placement_of(&a, key, then))) == Some(
            (Code::FailedPrecondition, "stale placement descriptor"@),
        ),
{
    let s = layout_text(&a, key, then);
    let t = layout_text(&b, key, now);
    if s == t {
        layouts_have_texts_of_their_own(a, then, b, now, key);
    }
    let g = xxh3_64(encode_utf8(s));
    let h = xxh3_64(encode_utf8(t));
    assert(sixteens(16) == 0x1_0000_0000_0000_0000) by {
        reveal_with_fuel(sixteens, 17);
    }
    if text::hex(g as nat, 16) == text::hex(h as nat, 16) {
        lemma_hex_tells(g as nat, h as nat, 16);
    }
}

} // verus!
