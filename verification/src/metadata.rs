//! What the store records of an object.
use crate::text::{clone_strings, views};
use vstd::prelude::*;

verus! {

/// Where one stripe of an object is kept.
#[derive(Debug, PartialEq, Eq)]
pub struct ChunkLocation {
    /// Position of the stripe in the object.
    pub stripe_index: u32,
    pub node_id: String,
    pub grpc_endpoint: String,
    pub rdma_endpoint: String,
    pub device_id: u32,
    /// Where the owning node keeps the bytes.
    pub storage_handle: String,
    /// First byte of the object that the stripe holds.
    pub offset: u64,
    pub length: u64,
    pub checksum: String,
}

/// Mathematical form of [`ChunkLocation`].
#[verifier::ext_equal]
pub struct ChunkView {
    pub stripe_index: u32,
    pub node_id: Seq<char>,
    pub grpc_endpoint: Seq<char>,
    pub rdma_endpoint: Seq<char>,
    pub device_id: u32,
    pub storage_handle: Seq<char>,
    pub offset: u64,
    pub length: u64,
    pub checksum: Seq<char>,
}

impl View for ChunkLocation {
    type V = ChunkView;

    open spec fn view(&self) -> ChunkView {
        ChunkView {
            stripe_index: self.stripe_index,
            node_id: self.node_id@,
            grpc_endpoint: self.grpc_endpoint@,
            rdma_endpoint: self.rdma_endpoint@,
            device_id: self.device_id,
            storage_handle: self.storage_handle@,
            offset: self.offset,
            length: self.length,
            checksum: self.checksum@,
        }
    }
}

impl Clone for ChunkLocation {
    fn clone(&self) -> (r: Self)
        ensures
            r@ == self@,
    {
        let r = ChunkLocation {
            stripe_index: self.stripe_index,
            node_id: self.node_id.clone(),
            grpc_endpoint: self.grpc_endpoint.clone(),
            rdma_endpoint: self.rdma_endpoint.clone(),
            device_id: self.device_id,
            storage_handle: self.storage_handle.clone(),
            offset: self.offset,
            length: self.length,
            checksum: self.checksum.clone(),
        };
        proof {
            assert(r@ =~= self@);
        }
        r
    }
}

/// A copy of a list.
pub fn clone_chunklocations(v: &Vec<ChunkLocation>) -> (r: Vec<ChunkLocation>)
    ensures
        r@.map_values(|x: ChunkLocation| x@) == v@.map_values(|x: ChunkLocation| x@),
{
    let mut out: Vec<ChunkLocation> = Vec::new();
    let mut i: usize = 0;
    while i < v.len()
        invariant
            i <= v.len(),
            out.len() == i,
            forall|k: int| 0 <= k < i ==> (#[trigger] out@[k])@ == v@[k]@,
        decreases v.len() - i,
    {
        out.push(v[i].clone());
        i = i + 1;
    }
    proof {
        assert(out@.map_values(|x: ChunkLocation| x@) =~= v@.map_values(|x: ChunkLocation| x@));
    }
    out
}

/// How a striped object is laid out.
#[derive(Debug, PartialEq, Eq)]
pub struct StripingInfo {
    pub chunk_size: u64,
    pub chunk_devices: Vec<u32>,
    pub chunk_paths: Vec<String>,
    pub total_size: u64,
    pub chunk_locations: Vec<ChunkLocation>,
    pub chunk_checksums: Vec<String>,
}

/// Mathematical form of [`StripingInfo`].
#[verifier::ext_equal]
pub struct StripeView {
    pub chunk_size: u64,
    pub chunk_devices: Seq<u32>,
    pub chunk_paths: Seq<Seq<char>>,
    pub total_size: u64,
    pub chunk_locations: Seq<ChunkView>,
    pub chunk_checksums: Seq<Seq<char>>,
}

impl View for StripingInfo {
    type V = StripeView;

    open spec fn view(&self) -> StripeView {
        StripeView {
            chunk_size: self.chunk_size,
            chunk_devices: self.chunk_devices@,
            chunk_paths: views(self.chunk_paths@),
            total_size: self.total_size,
            chunk_locations: self.chunk_locations@.map_values(|x: ChunkLocation| x@),
            chunk_checksums: views(self.chunk_checksums@),
        }
    }
}

impl Clone for StripingInfo {
    fn clone(&self) -> (r: Self)
        ensures
            r@ == self@,
    {
        let mut chunk_devices: Vec<u32> = Vec::new();
        let mut i: usize = 0;
        while i < self.chunk_devices.len()
            invariant
                i <= self.chunk_devices.len(),
                chunk_devices@ == self.chunk_devices@.take(i as int),
            decreases self.chunk_devices.len() - i,
        {
            chunk_devices.push(self.chunk_devices[i]);
            proof {
                assert(chunk_devices@ =~= self.chunk_devices@.take(i + 1));
            }
            i = i + 1;
        }
        let r = StripingInfo {
            chunk_size: self.chunk_size,
            chunk_devices,
            chunk_paths: clone_strings(&self.chunk_paths),
            total_size: self.total_size,
            chunk_locations: clone_chunklocations(&self.chunk_locations),
            chunk_checksums: clone_strings(&self.chunk_checksums),
        };
        proof {
            assert(r@ =~= self@);
        }
        r
    }
}

/// The metadata of one object.
#[derive(Debug, PartialEq, Eq)]
pub struct BlockMeta {
    pub device_id: u32,
    pub file_path: String,
    /// Size of the object in bytes.
    pub size: u64,
    pub object_handle: String,
    pub object_generation: u64,
    pub content_etag: String,
    pub layout_version: u64,
    /// Seconds since the epoch.
    pub created_at: i64,
    /// Seconds since the epoch.
    pub last_accessed_at: i64,
    /// Seconds that the object lives; zero for ever.
    pub ttl_seconds: i64,
    pub num_tokens: i32,
    pub num_layers: i32,
    pub dtype: String,
    pub compressed: bool,
    /// Layout, where the object is striped.
    pub striping: Option<StripingInfo>,
}

/// Mathematical form of [`BlockMeta`].
#[verifier::ext_equal]
pub struct MetaView {
    pub device_id: u32,
    pub file_path: Seq<char>,
    pub size: u64,
    pub object_handle: Seq<char>,
    pub object_generation: u64,
    pub content_etag: Seq<char>,
    pub layout_version: u64,
    pub created_at: i64,
    pub last_accessed_at: i64,
    pub ttl_seconds: i64,
    pub num_tokens: i32,
    pub num_layers: i32,
    pub dtype: Seq<char>,
    pub compressed: bool,
    pub striping: Option<StripeView>,
}

impl View for BlockMeta {
    type V = MetaView;

    open spec fn view(&self) -> MetaView {
        MetaView {
            device_id: self.device_id,
            file_path: self.file_path@,
            size: self.size,
            object_handle: self.object_handle@,
            object_generation: self.object_generation,
            content_etag: self.content_etag@,
            layout_version: self.layout_version,
            created_at: self.created_at,
            last_accessed_at: self.last_accessed_at,
            ttl_seconds: self.ttl_seconds,
            num_tokens: self.num_tokens,
            num_layers: self.num_layers,
            dtype: self.dtype@,
            compressed: self.compressed,
            striping: match self.striping {
                Some(x) => Some(x@),
                None => None,
            },
        }
    }
}

impl Clone for BlockMeta {
    fn clone(&self) -> (r: Self)
        ensures
            r@ == self@,
    {
        let striping = match &self.striping {
            Some(x) => Some(x.clone()),
            None => None,
        };
        let r = BlockMeta {
            device_id: self.device_id,
            file_path: self.file_path.clone(),
            size: self.size,
            object_handle: self.object_handle.clone(),
            object_generation: self.object_generation,
            content_etag: self.content_etag.clone(),
            layout_version: self.layout_version,
            created_at: self.created_at,
            last_accessed_at: self.last_accessed_at,
            ttl_seconds: self.ttl_seconds,
            num_tokens: self.num_tokens,
            num_layers: self.num_layers,
            dtype: self.dtype.clone(),
            compressed: self.compressed,
            striping,
        };
        proof {
            assert(r@ =~= self@);
        }
        r
    }
}

} // verus!
