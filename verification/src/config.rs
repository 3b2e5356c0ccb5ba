//! Configuration of a node and its checks.
use crate::error::KVError;
use crate::text;
use crate::text::is_blank;
use vstd::prelude::*;
use vstd::string::*;

verus! {

/// A node that stripes can be placed on.
#[derive(Debug, Clone)]
pub struct ClusterNodeConfig {
    /// Stable node ID; the endpoint stands in where it is empty.
    pub node_id: String,
    /// Address of the node's RPC service, for example "10.0.0.11:50051".
    pub grpc_endpoint: String,
    /// Optional RDMA address, for example "10.0.0.11:18515".
    pub rdma_endpoint: String,
}

impl Default for ClusterNodeConfig {
    fn default() -> (r: Self)
        ensures
            r.node_id@ == Seq::<char>::empty(),
            r.grpc_endpoint@ == Seq::<char>::empty(),
            r.rdma_endpoint@ == Seq::<char>::empty(),
    {
        ClusterNodeConfig {
            node_id: String::new(),
            grpc_endpoint: String::new(),
            rdma_endpoint: String::new(),
        }
    }
}

/// The cluster as this node sees it.
#[derive(Debug, Clone)]
pub struct ClusterConfig {
    /// This node's ID; where empty, `CS_NODE_ID` is read, and "local" stands in for that.
    pub node_id: String,
    /// This node's outward RPC address; where empty, `CS_GRPC_ADVERTISE` is read, and
    /// `api.listen` stands in for that.
    pub grpc_advertise: String,
    /// This node's outward RDMA address; where empty, `CS_RDMA_ADVERTISE` is read.
    pub rdma_advertise: String,
    /// Nodes that stripes can be placed on. None means that this node serves alone; stripes
    /// are spread only where more than one node is named.
    pub data_nodes: Vec<ClusterNodeConfig>,
}

impl Default for ClusterConfig {
    fn default() -> (r: Self)
        ensures
            r.node_id@ == Seq::<char>::empty(),
            r.grpc_advertise@ == Seq::<char>::empty(),
            r.rdma_advertise@ == Seq::<char>::empty(),
            r.data_nodes@.len() == 0,
    {
        ClusterConfig {
            node_id: String::new(),
            grpc_advertise: String::new(),
            rdma_advertise: String::new(),
            data_nodes: Vec::new(),
        }
    }
}

/// The RPC front end.
#[derive(Debug, Clone)]
pub struct ApiConfig {
    pub listen: String,
    pub max_connections: usize,
}

impl Default for ApiConfig {
    fn default() -> (r: Self)
        ensures
            r.listen@ == "0.0.0.0:50051"@,
            r.max_connections == 1000,
    {
        ApiConfig { listen: "0.0.0.0:50051".to_owned(), max_connections: 1000 }
    }
}

/// The storage devices and how large values are striped over them.
#[derive(Debug, Clone)]
pub struct StorageConfig {
    /// Mount directory (or raw device path) of each NVMe device.
    pub devices: Vec<String>,
    /// Data directory under each device.
    pub data_subdir: String,
    /// Size in bytes above which a value is striped; zero turns striping off.
    pub striping_threshold: u64,
    /// Size in bytes of each stripe.
    pub striping_chunk_size: u64,
}

/// 256 MiB.
pub fn default_striping_threshold() -> (r: u64)
    ensures
        r == 256 * 1024 * 1024,
{
    268435456
}

/// 64 MiB.
pub fn default_striping_chunk_size() -> (r: u64)
    ensures
        r == 64 * 1024 * 1024,
{
    67108864
}

impl Default for StorageConfig {
    fn default() -> (r: Self)
        ensures
            text::views(r.devices@) == seq!["./data/nvme0"@],
            r.data_subdir@ == "contextstore"@,
            r.striping_threshold == 256 * 1024 * 1024,
            r.striping_chunk_size == 64 * 1024 * 1024,
    {
        let mut devices: Vec<String> = Vec::new();
        devices.push("./data/nvme0".to_owned());
        proof {
            assert(text::views(devices@) =~= seq!["./data/nvme0"@]);
        }
        StorageConfig {
            devices,
            data_subdir: "contextstore".to_owned(),
            striping_threshold: default_striping_threshold(),
            striping_chunk_size: default_striping_chunk_size(),
        }
    }
}

/// The in-memory tier.
#[derive(Debug, Clone)]
pub struct MemoryTierConfig {
    /// Capacity in MiB.
    pub capacity_mb: usize,
    /// Slab size in MiB.
    pub slab_size_mb: usize,
    /// Whether to use pinned memory (needs a CUDA environment).
    pub use_pinned_memory: bool,
}

impl Default for MemoryTierConfig {
    fn default() -> (r: Self)
        ensures
            r.capacity_mb == 4096,
            r.slab_size_mb == 64,
            !r.use_pinned_memory,
    {
        MemoryTierConfig { capacity_mb: 4096, slab_size_mb: 64, use_pinned_memory: false }
    }
}

/// How disk I/O is carried out.
#[derive(Debug, Clone)]
pub struct IoExecutorConfig {
    /// "tier_a" (thread pool), "tier_b" (io_uring) or "tier_c" (SPDK).
    pub kind: String,
    pub thread_pool_size: usize,
    pub io_uring_depth: usize,
}

impl Default for IoExecutorConfig {
    fn default() -> (r: Self)
        ensures
            r.kind@ == "tier_a"@,
            r.thread_pool_size == 32,
            r.io_uring_depth == 256,
    {
        IoExecutorConfig { kind: "tier_a".to_owned(), thread_pool_size: 32, io_uring_depth: 256 }
    }
}

/// How keys are routed to devices.
#[derive(Debug, Clone)]
pub struct RouterConfig {
    /// "object_hash".
    pub strategy: String,
}

impl Default for RouterConfig {
    fn default() -> (r: Self)
        ensures
            r.strategy@ == "object_hash"@,
    {
        RouterConfig { strategy: "object_hash".to_owned() }
    }
}

/// The metadata store.
#[derive(Debug, Clone)]
pub struct MetadataConfig {
    pub redis_url: String,
    pub redis_key_prefix: String,
    pub redis_connect_timeout_ms: u64,
    pub redis_command_timeout_ms: u64,
}

pub fn default_redis_key_prefix() -> (r: String)
    ensures
        r@ == "contextstore:metadata:"@,
{
    "contextstore:metadata:".to_owned()
}

pub fn default_redis_connect_timeout_ms() -> (r: u64)
    ensures
        r == 1000,
{
    1000
}

pub fn default_redis_command_timeout_ms() -> (r: u64)
    ensures
        r == 1000,
{
    1000
}

impl Default for MetadataConfig {
    fn default() -> (r: Self)
        ensures
            r.redis_url@ == "redis://127.0.0.1:6379/"@,
            r.redis_key_prefix@ == "contextstore:metadata:"@,
            r.redis_connect_timeout_ms == 1000,
            r.redis_command_timeout_ms == 1000,
    {
        MetadataConfig {
            redis_url: "redis://127.0.0.1:6379/".to_owned(),
            redis_key_prefix: default_redis_key_prefix(),
            redis_connect_timeout_ms: default_redis_connect_timeout_ms(),
            redis_command_timeout_ms: default_redis_command_timeout_ms(),
        }
    }
}

/// The metrics exporter.
#[derive(Debug, Clone)]
pub struct MetricsConfig {
    pub enabled: bool,
    /// Listen address.
    pub listen: String,
}

impl Default for MetricsConfig {
    fn default() -> (r: Self)
        ensures
            !r.enabled,
            r.listen@ == "0.0.0.0:9090"@,
    {
        MetricsConfig { enabled: false, listen: "0.0.0.0:9090".to_owned() }
    }
}

/// GPUDirect Storage.
#[derive(Debug, Clone)]
pub struct GdsConfig {
    /// Whether the driver is loaded at start; where that fails, plain reads and writes serve.
    pub enabled: bool,
    /// CUDA device ordinal; -1 leaves the device alone.
    pub device: i32,
}

impl Default for GdsConfig {
    fn default() -> (r: Self)
        ensures
            !r.enabled,
            r.device == -1,
    {
        GdsConfig { enabled: false, device: -1 }
    }
}

/// All of a node's configuration.
#[derive(Debug, Clone)]
pub struct Config {
    pub api: ApiConfig,
    pub storage: StorageConfig,
    pub memory_tier: MemoryTierConfig,
    pub io_executor: IoExecutorConfig,
    pub router: RouterConfig,
    pub cluster: ClusterConfig,
    pub metadata: MetadataConfig,
    pub metrics: MetricsConfig,
    pub gds: GdsConfig,
}

impl Default for Config {
    fn default() -> (r: Self)
        ensures
            call_ensures(ApiConfig::default, (), r.api),
            call_ensures(StorageConfig::default, (), r.storage),
            call_ensures(MemoryTierConfig::default, (), r.memory_tier),
            call_ensures(IoExecutorConfig::default, (), r.io_executor),
            call_ensures(RouterConfig::default, (), r.router),
            call_ensures(ClusterConfig::default, (), r.cluster),
            call_ensures(MetadataConfig::default, (), r.metadata),
            call_ensures(MetricsConfig::default, (), r.metrics),
            call_ensures(GdsConfig::default, (), r.gds),
            config_fault(r) is None,
    {
        let r = Config {
            api: ApiConfig::default(),
            storage: StorageConfig::default(),
            memory_tier: MemoryTierConfig::default(),
            io_executor: IoExecutorConfig::default(),
            router: RouterConfig::default(),
            cluster: ClusterConfig::default(),
            metadata: MetadataConfig::default(),
            metrics: MetricsConfig::default(),
            gds: GdsConfig::default(),
        };
        proof {
            reveal_strlit("redis://127.0.0.1:6379/");
            reveal_strlit("contextstore:metadata:");
            reveal_strlit("memory://");
            assert(text::views(r.storage.devices@).len() == 1);
            assert(!text::is_white_space(r.metadata.redis_url@[0]));
            assert(!text::is_white_space(r.metadata.redis_key_prefix@[0]));
            assert(r.metadata.redis_url@.subrange(0, 9)[0] == 'r');
        }
        r
    }
}

/// The first thing wrong with a configuration, if anything is.
pub open spec fn config_fault(c: Config) -> Option<Seq<char>> {
    if c.storage.devices@.len() == 0 {
        Some("at least one storage device must be configured"@)
    } else if exists|i: int|
        0 <= i < c.cluster.data_nodes@.len() && is_blank(
            #[trigger] c.cluster.data_nodes@[i].grpc_endpoint@,
        ) {
        Some("cluster.data_nodes.grpc_endpoint must not be empty"@)
    } else if c.router.strategy@ != "object_hash"@ {
        Some("unknown router strategy: "@ + c.router.strategy@)
    } else if c.io_executor.kind@ != "tier_a"@ && c.io_executor.kind@ != "tier_b"@
        && c.io_executor.kind@ != "tier_c"@ {
        Some("unknown io_executor.kind: "@ + c.io_executor.kind@)
    } else if is_blank(c.metadata.redis_url@) {
        Some("metadata.redis_url must not be empty"@)
    } else if "memory://"@.is_prefix_of(c.metadata.redis_url@) {
        Some("metadata.redis_url memory:// is only available in unit tests"@)
    } else if is_blank(c.metadata.redis_key_prefix@) {
        Some("metadata.redis_key_prefix must not be empty"@)
    } else if c.metadata.redis_connect_timeout_ms == 0 {
        Some("metadata.redis_connect_timeout_ms must be greater than 0"@)
    } else if c.metadata.redis_command_timeout_ms == 0 {
        Some("metadata.redis_command_timeout_ms must be greater than 0"@)
    } else {
        None
    }
}

fn refuse(message: &str) -> (r: Result<(), KVError>)
    ensures
        r is Err,
        r->Err_0 is Config,
        r->Err_0->Config_0@ == message@,
{
    Err(KVError::Config(message.to_owned()))
}

fn refuse_value(message: &str, value: &String) -> (r: Result<(), KVError>)
    ensures
        r is Err,
        r->Err_0 is Config,
        r->Err_0->Config_0@ == message@ + value@,
{
    let mut text = message.to_owned();
    text.append(value.as_str());
    Err(KVError::Config(text))
}

impl Config {
    /// Accepts the configuration, or names the first thing wrong with it.
    pub fn validate(&self) -> (r: Result<(), KVError>)
        ensures
            match config_fault(*self) {
                None => r is Ok,
                Some(message) => r is Err && r->Err_0 is Config && r->Err_0->Config_0@ == message,
            },
    {
        if self.storage.devices.len() == 0 {
            return refuse("at least one storage device must be configured");
        }
        let mut i: usize = 0;
        while i < self.cluster.data_nodes.len()
            invariant
                i <= self.cluster.data_nodes.len(),
                self.storage.devices@.len() > 0,
                forall|k: int|
                    0 <= k < i ==> !is_blank(#[trigger] self.cluster.data_nodes@[k].grpc_endpoint@),
            decreases self.cluster.data_nodes.len() - i,
        {
            if text::blank(self.cluster.data_nodes[i].grpc_endpoint.as_str()) {
                return refuse("cluster.data_nodes.grpc_endpoint must not be empty");
            }
            i = i + 1;
        }
        if !text::same(self.router.strategy.as_str(), "object_hash") {
            return refuse_value("unknown router strategy: ", &self.router.strategy);
        }
        let kind = self.io_executor.kind.as_str();
        if !text::same(kind, "tier_a") && !text::same(kind, "tier_b") && !text::same(
            kind,
            "tier_c",
        ) {
            return refuse_value("unknown io_executor.kind: ", &self.io_executor.kind);
        }
        if text::blank(self.metadata.redis_url.as_str()) {
            return refuse("metadata.redis_url must not be empty");
        }
        if text::starts_with(self.metadata.redis_url.as_str(), "memory://") {
            return refuse("metadata.redis_url memory:// is only available in unit tests");
        }
        if text::blank(self.metadata.redis_key_prefix.as_str()) {
            return refuse("metadata.redis_key_prefix must not be empty");
        }
        if self.metadata.redis_connect_timeout_ms == 0 {
            return refuse("metadata.redis_connect_timeout_ms must be greater than 0");
        }
        if self.metadata.redis_command_timeout_ms == 0 {
            return refuse("metadata.redis_command_timeout_ms must be greater than 0");
        }
        Ok(())
    }
}

} // verus!
