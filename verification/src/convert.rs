//! From messages to records and back.
use crate::metadata::{BlockMeta, MetaView};
use crate::pb::{KvMetadata, KvMetadataView, PutOptions};
use crate::text;
use vstd::prelude::*;
use vstd::string::*;

verus! {

/// `chrono::Utc::now().timestamp()`: the seconds since the epoch on the machine's clock.
/// Nothing is promised of the value.
#[verifier::external_body]
fn utc_seconds() -> (r: i64) {
    chrono::Utc::now().timestamp()
}

/// The lifetime that a client asks for; a negative one counts as none.
pub open spec fn requested_ttl(options: Option<PutOptions>) -> i64 {
    match options {
        Some(o) => if o.ttl_seconds > 0 {
            o.ttl_seconds
        } else {
            0
        },
        None => 0,
    }
}

/// The record that a value is first stored with, at the time `now`.
pub open spec fn fresh_meta(
    m: Option<KvMetadataView>,
    options: Option<PutOptions>,
    now: i64,
) -> MetaView {
    MetaView {
        device_id: 0,
        file_path: Seq::empty(),
        size: 0,
        object_handle: Seq::empty(),
        object_generation: 1,
        content_etag: Seq::empty(),
        layout_version: 1,
        created_at: match m {
            Some(m) => if m.created_at > 0 {
                m.created_at
            } else {
                now
            },
            None => now,
        },
        last_accessed_at: now,
        ttl_seconds: requested_ttl(options),
        num_tokens: match m {
            Some(m) => m.num_tokens,
            None => 0,
        },
        num_layers: match m {
            Some(m) => m.num_layers,
            None => 0,
        },
        dtype: match m {
            Some(m) => m.dtype,
            None => "bfloat16"@,
        },
        compressed: match m {
            Some(m) => m.compressed,
            None => false,
        },
        striping: None,
    }
}

/// What an optional message says.
pub open spec fn said(m: Option<&KvMetadata>) -> Option<KvMetadataView> {
    match m {
        Some(m) => Some(m@),
        None => None,
    }
}

/// What an optional reference refers to.
pub open spec fn given(options: Option<&PutOptions>) -> Option<PutOptions> {
    match options {
        Some(o) => Some(*o),
        None => None,
    }
}

/// The record that a value is first stored with, at the time `now`.
pub fn meta_from_pb_at(m: Option<&KvMetadata>, options: Option<&PutOptions>, now: i64) -> (r:
    BlockMeta)
    ensures
        r@ == fresh_meta(said(m), given(options), now),
{
    let ttl_seconds: i64 = match options {
        Some(o) => if o.ttl_seconds > 0 {
            o.ttl_seconds
        } else {
            0
        },
        None => 0,
    };
    let (created_at, num_tokens, num_layers, dtype, compressed): (i64, i32, i32, String, bool) =
        match m {
        Some(m) => {
            let created_at: i64 = if m.created_at > 0 {
                m.created_at
            } else {
                now
            };
            (created_at, m.num_tokens, m.num_layers, m.dtype.clone(), m.compressed)
        },
        None => (now, 0, 0, "bfloat16".to_owned(), false),
    };
    BlockMeta {
        device_id: 0,
        file_path: String::new(),
        size: 0,
        object_handle: String::new(),
        object_generation: 1,
        content_etag: String::new(),
        layout_version: 1,
        created_at,
        last_accessed_at: now,
        ttl_seconds,
        num_tokens,
        num_layers,
        dtype,
        compressed,
        striping: None,
    }
}

/// The record that a value is first stored with. The time is read from the machine's clock.
pub fn meta_from_pb(m: Option<&KvMetadata>, options: Option<&PutOptions>) -> (r: BlockMeta)
    ensures
        r@ == fresh_meta(said(m), given(options), r.last_accessed_at),
{
    let now: i64 = utc_seconds();
    meta_from_pb_at(m, options, now)
}

/// What a client is told of a stored value.
pub open spec fn told(m: MetaView) -> KvMetadataView {
    KvMetadataView {
        num_tokens: m.num_tokens,
        num_layers: m.num_layers,
        dtype: m.dtype,
        shape: Seq::empty(),
        compressed: m.compressed,
        compression_level: 0,
        created_at: m.created_at,
        last_accessed_at: m.last_accessed_at,
    }
}

/// What a client is told of a stored value.
pub fn meta_to_pb(m: &BlockMeta) -> (r: KvMetadata)
    ensures
        r@ == told(m@),
{
    KvMetadata {
        num_tokens: m.num_tokens,
        num_layers: m.num_layers,
        dtype: m.dtype.clone(),
        shape: Vec::new(),
        compressed: m.compressed,
        compression_level: 0,
        created_at: m.created_at,
        last_accessed_at: m.last_accessed_at,
    }
}

/// What a client says of a value comes back: tokens, layers, element type and compression as
/// they were given, and the time of creation where one was given.
pub proof fn stored_metadata_comes_back(m: KvMetadataView, options: Option<PutOptions>, now: i64)
    ensures
        ({
            let back = told(fresh_meta(Some(m), options, now));
            &&& back.num_tokens == m.num_tokens
            &&& back.num_layers == m.num_layers
            &&& back.dtype == m.dtype
            &&& back.compressed == m.compressed
            &&& m.created_at > 0 ==> back.created_at == m.created_at
        }),
{
}

/// Whether the value is to be stored only where there is none yet.
pub fn put_options_if_not_exists(options: Option<&PutOptions>) -> (r: bool)
    ensures
        r == (options is Some && options->0.if_not_exists),
{
    match options {
        Some(o) => o.if_not_exists,
        None => false,
    }
}

/// The URI of an RPC address: a scheme of its own is kept, otherwise plain HTTP is meant.
pub fn grpc_uri(endpoint: &str) -> (r: String)
    ensures
        r@ == (if "http://"@.is_prefix_of(endpoint@) || "https://"@.is_prefix_of(endpoint@) {
            endpoint@
        } else {
            "http://"@ + endpoint@
        }),
{
    if text::starts_with(endpoint, "http://") || text::starts_with(endpoint, "https://") {
        endpoint.to_owned()
    } else {
        let mut out = "http://".to_owned();
        out.append(endpoint);
        out
    }
}

} // verus!
