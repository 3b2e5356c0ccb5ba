//! The messages that clients and nodes exchange.
use crate::key::KeyView;
use crate::metadata::ChunkView;
use vstd::prelude::*;

verus! {

/// Name of an object, as it travels.
#[derive(Debug, PartialEq, Eq)]
pub struct ObjectKey {
    pub namespace: String,
    pub object_key: String,
}

impl View for ObjectKey {
    type V = KeyView;

    open spec fn view(&self) -> KeyView {
        KeyView {
            namespace: self.namespace@,
            object_key: self.object_key@,
        }
    }
}

impl Clone for ObjectKey {
    fn clone(&self) -> (r: Self)
        ensures
            r@ == self@,
    {
        let r = ObjectKey {
            namespace: self.namespace.clone(),
            object_key: self.object_key.clone(),
        };
        proof {
            assert(r@ =~= self@);
        }
        r
    }
}

/// What a client says of the value it stores.
#[derive(Debug, PartialEq, Eq)]
pub struct KvMetadata {
    pub num_tokens: i32,
    pub num_layers: i32,
    pub dtype: String,
    pub shape: Vec<i64>,
    pub compressed: bool,
    pub compression_level: i32,
    pub created_at: i64,
    pub last_accessed_at: i64,
}

/// Mathematical form of [`KvMetadata`].
#[verifier::ext_equal]
pub struct KvMetadataView {
    pub num_tokens: i32,
    pub num_layers: i32,
    pub dtype: Seq<char>,
    pub shape: Seq<i64>,
    pub compressed: bool,
    pub compression_level: i32,
    pub created_at: i64,
    pub last_accessed_at: i64,
}

impl View for KvMetadata {
    type V = KvMetadataView;

    open spec fn view(&self) -> KvMetadataView {
        KvMetadataView {
            num_tokens: self.num_tokens,
            num_layers: self.num_layers,
            dtype: self.dtype@,
            shape: self.shape@,
            compressed: self.compressed,
            compression_level: self.compression_level,
            created_at: self.created_at,
            last_accessed_at: self.last_accessed_at,
        }
    }
}

impl Clone for KvMetadata {
    fn clone(&self) -> (r: Self)
        ensures
            r@ == self@,
    {
        let mut shape: Vec<i64> = Vec::new();
        let mut i: usize = 0;
        while i < self.shape.len()
            invariant
                i <= self.shape.len(),
                shape@ == self.shape@.take(i as int),
            decreases self.shape.len() - i,
        {
            shape.push(self.shape[i]);
            proof {
                assert(shape@ =~= self.shape@.take(i + 1));
            }
            i = i + 1;
        }
        let r = KvMetadata {
            num_tokens: self.num_tokens,
            num_layers: self.num_layers,
            dtype: self.dtype.clone(),
            shape,
            compressed: self.compressed,
            compression_level: self.compression_level,
            created_at: self.created_at,
            last_accessed_at: self.last_accessed_at,
        };
        proof {
            assert(r@ =~= self@);
        }
        r
    }
}

/// How a value is to be stored.
#[derive(Debug, Clone, Copy, PartialEq, Eq, Structural)]
pub struct PutOptions {
    pub ttl_seconds: i64,
    pub if_not_exists: bool,
    pub compression: i32,
}

/// Where one stripe of an object is kept, as it travels.
#[derive(Debug, PartialEq, Eq)]
pub struct PlacementChunk {
    /// Position of the stripe in the object.
    pub stripe_index: u32,
    pub node_id: String,
    pub grpc_endpoint: String,
    pub rdma_endpoint: String,
    pub device_id: u32,
    /// Where the owning node keeps the bytes.
    pub storage_handle: String,
    /// First byte of the object that the stripe holds.
    pub offset: u64,
    pub length: u64,
    pub checksum: String,
}

impl View for PlacementChunk {
    type V = ChunkView;

    open spec fn view(&self) -> ChunkView {
        ChunkView {
            stripe_index: self.stripe_index,
            node_id: self.node_id@,
            grpc_endpoint: self.grpc_endpoint@,
            rdma_endpoint: self.rdma_endpoint@,
            device_id: self.device_id,
            storage_handle: self.storage_handle@,
            offset: self.offset,
            length: self.length,
            checksum: self.checksum@,
        }
    }
}

impl Clone for PlacementChunk {
    fn clone(&self) -> (r: Self)
        ensures
            r@ == self@,
    {
        let r = PlacementChunk {
            stripe_index: self.stripe_index,
            node_id: self.node_id.clone(),
            grpc_endpoint: self.grpc_endpoint.clone(),
            rdma_endpoint: self.rdma_endpoint.clone(),
            device_id: self.device_id,
            storage_handle: self.storage_handle.clone(),
            offset: self.offset,
            length: self.length,
            checksum: self.checksum.clone(),
        };
        proof {
            assert(r@ =~= self@);
        }
        r
    }
}

/// A copy of a list.
pub fn clone_placementchunks(v: &Vec<PlacementChunk>) -> (r: Vec<PlacementChunk>)
    ensures
        r@.map_values(|x: PlacementChunk| x@) == v@.map_values(|x: PlacementChunk| x@),
{
    let mut out: Vec<PlacementChunk> = Vec::new();
    let mut i: usize = 0;
    while i < v.len()
        invariant
            i <= v.len(),
            out.len() == i,
            forall|k: int| 0 <= k < i ==> (#[trigger] out@[k])@ == v@[k]@,
        decreases v.len() - i,
    {
        out.push(v[i].clone());
        i = i + 1;
    }
    proof {
        assert(out@.map_values(|x: PlacementChunk| x@) =~= v@.map_values(|x: PlacementChunk| x@));
    }
    out
}

/// Identity of one version of an object.
#[derive(Debug, PartialEq, Eq)]
pub struct ObjectDescriptor {
    pub key: Option<ObjectKey>,
    pub object_handle: String,
    pub object_generation: u64,
    pub content_etag: String,
    pub layout_version: u64,
    pub size: u64,
    pub is_striped: bool,
    pub stripe_count: u32,
    pub chunk_size: u64,
}

/// Mathematical form of [`ObjectDescriptor`].
#[verifier::ext_equal]
pub struct DescriptorView {
    pub key: Option<KeyView>,
    pub object_handle: Seq<char>,
    pub object_generation: u64,
    pub content_etag: Seq<char>,
    pub layout_version: u64,
    pub size: u64,
    pub is_striped: bool,
    pub stripe_count: u32,
    pub chunk_size: u64,
}

impl View for ObjectDescriptor {
    type V = DescriptorView;

    open spec fn view(&self) -> DescriptorView {
        DescriptorView {
            key: match self.key {
                Some(x) => Some(x@),
                None => None,
            },
            object_handle: self.object_handle@,
            object_generation: self.object_generation,
            content_etag: self.content_etag@,
            layout_version: self.layout_version,
            size: self.size,
            is_striped: self.is_striped,
            stripe_count: self.stripe_count,
            chunk_size: self.chunk_size,
        }
    }
}

impl Clone for ObjectDescriptor {
    fn clone(&self) -> (r: Self)
        ensures
            r@ == self@,
    {
        let key = match &self.key {
            Some(x) => Some(x.clone()),
            None => None,
        };
        let r = ObjectDescriptor {
            key,
            object_handle: self.object_handle.clone(),
            object_generation: self.object_generation,
            content_etag: self.content_etag.clone(),
            layout_version: self.layout_version,
            size: self.size,
            is_striped: self.is_striped,
            stripe_count: self.stripe_count,
            chunk_size: self.chunk_size,
        };
        proof {
            assert(r@ =~= self@);
        }
        r
    }
}

/// Where the stripes of one version of an object are.
#[derive(Debug, PartialEq, Eq)]
pub struct PlacementDescriptor {
    pub key: Option<ObjectKey>,
    pub placement_epoch: u64,
    pub placement_policy_id: String,
    pub layout_hash: String,
    pub primary_node_id: String,
    pub primary_grpc_endpoint: String,
    pub primary_rdma_endpoint: String,
    pub chunks: Vec<PlacementChunk>,
}

/// Mathematical form of [`PlacementDescriptor`].
#[verifier::ext_equal]
pub struct PlacementView {
    pub key: Option<KeyView>,
    pub placement_epoch: u64,
    pub placement_policy_id: Seq<char>,
    pub layout_hash: Seq<char>,
    pub primary_node_id: Seq<char>,
    pub primary_grpc_endpoint: Seq<char>,
    pub primary_rdma_endpoint: Seq<char>,
    pub chunks: Seq<ChunkView>,
}

impl View for PlacementDescriptor {
    type V = PlacementView;

    open spec fn view(&self) -> PlacementView {
        PlacementView {
            key: match self.key {
                Some(x) => Some(x@),
                None => None,
            },
            placement_epoch: self.placement_epoch,
            placement_policy_id: self.placement_policy_id@,
            layout_hash: self.layout_hash@,
            primary_node_id: self.primary_node_id@,
            primary_grpc_endpoint: self.primary_grpc_endpoint@,
            primary_rdma_endpoint: self.primary_rdma_endpoint@,
            chunks: self.chunks@.map_values(|x: PlacementChunk| x@),
        }
    }
}

impl Clone for PlacementDescriptor {
    fn clone(&self) -> (r: Self)
        ensures
            r@ == self@,
    {
        let key = match &self.key {
            Some(x) => Some(x.clone()),
            None => None,
        };
        let r = PlacementDescriptor {
            key,
            placement_epoch: self.placement_epoch,
            placement_policy_id: self.placement_policy_id.clone(),
            layout_hash: self.layout_hash.clone(),
            primary_node_id: self.primary_node_id.clone(),
            primary_grpc_endpoint: self.primary_grpc_endpoint.clone(),
            primary_rdma_endpoint: self.primary_rdma_endpoint.clone(),
            chunks: clone_placementchunks(&self.chunks),
        };
        proof {
            assert(r@ =~= self@);
        }
        r
    }
}

} // verus!
