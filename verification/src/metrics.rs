//! What the server measures, how a scrape is answered, and which values a scrape refreshes.
use crate::text;
use crate::text::{decimal, views};
use vstd::prelude::*;
use vstd::string::*;

verus! {

/// The kinds of metrics; those with a list of labels hold one value for each combination.
#[derive(Clone, Copy, PartialEq, Eq, Structural, Debug)]
pub enum MetricKind {
    IntGauge,
    GaugeVec,
    IntCounter,
    IntCounterVec,
    HistogramVec,
}

/// Everything that is measured.
#[derive(Clone, Copy, PartialEq, Eq, Structural, Debug)]
pub enum Metric {
    Up,
    BuildInfo,
    RequestTotal,
    RequestDuration,
    DiskReadDuration,
    RdmaTransferDuration,
    CacheHitTotal,
    ForceDiskReadTotal,
    FallbackTotal,
    NvmeReadBytesTotal,
    RdmaBytesTotal,
    RdmaErrorsTotal,
    RdmaConnectionState,
    L1Hits,
    L1Misses,
    L1Evictions,
    L1SizeBytes,
    L2Reads,
    L2Writes,
    L2BytesRead,
    L2BytesWritten,
    L2StripedWrites,
    DeviceUsedBytes,
    GrpcRequests,
}

impl Metric {
    /// Under which name the metric is exported.
    pub open spec fn exported(self) -> Seq<char> {
        match self {
            Metric::Up => "kvservice_up"@,
            Metric::BuildInfo => "kvservice_build_info"@,
            Metric::RequestTotal => "kvservice_request_total"@,
            Metric::RequestDuration => "kvservice_request_duration_seconds"@,
            Metric::DiskReadDuration => "kvservice_disk_read_duration_seconds"@,
            Metric::RdmaTransferDuration => "kvservice_rdma_transfer_duration_seconds"@,
            Metric::CacheHitTotal => "kvservice_cache_hit_total"@,
            Metric::ForceDiskReadTotal => "kvservice_force_disk_read_total"@,
            Metric::FallbackTotal => "kvservice_fallback_total"@,
            Metric::NvmeReadBytesTotal => "kvservice_nvme_read_bytes_total"@,
            Metric::RdmaBytesTotal => "kvservice_rdma_bytes_total"@,
            Metric::RdmaErrorsTotal => "kvservice_rdma_errors_total"@,
            Metric::RdmaConnectionState => "kvservice_rdma_connection_state"@,
            Metric::L1Hits => "l1_cache_hits_total"@,
            Metric::L1Misses => "l1_cache_misses_total"@,
            Metric::L1Evictions => "l1_cache_evictions_total"@,
            Metric::L1SizeBytes => "l1_cache_size_bytes"@,
            Metric::L2Reads => "l2_reads_total"@,
            Metric::L2Writes => "l2_writes_total"@,
            Metric::L2BytesRead => "l2_bytes_read_total"@,
            Metric::L2BytesWritten => "l2_bytes_written_total"@,
            Metric::L2StripedWrites => "l2_striped_writes_total"@,
            Metric::DeviceUsedBytes => "device_used_bytes"@,
            Metric::GrpcRequests => "grpc_requests_total"@,
        }
    }

    /// Under which name the metric is exported.
    pub fn name(&self) -> (r: &'static str)
        ensures
            r@ == self.exported(),
    {
        match self {
            Metric::Up => "kvservice_up",
            Metric::BuildInfo => "kvservice_build_info",
            Metric::RequestTotal => "kvservice_request_total",
            Metric::RequestDuration => "kvservice_request_duration_seconds",
            Metric::DiskReadDuration => "kvservice_disk_read_duration_seconds",
            Metric::RdmaTransferDuration => "kvservice_rdma_transfer_duration_seconds",
            Metric::CacheHitTotal => "kvservice_cache_hit_total",
            Metric::ForceDiskReadTotal => "kvservice_force_disk_read_total",
            Metric::FallbackTotal => "kvservice_fallback_total",
            Metric::NvmeReadBytesTotal => "kvservice_nvme_read_bytes_total",
            Metric::RdmaBytesTotal => "kvservice_rdma_bytes_total",
            Metric::RdmaErrorsTotal => "kvservice_rdma_errors_total",
            Metric::RdmaConnectionState => "kvservice_rdma_connection_state",
            Metric::L1Hits => "l1_cache_hits_total",
            Metric::L1Misses => "l1_cache_misses_total",
            Metric::L1Evictions => "l1_cache_evictions_total",
            Metric::L1SizeBytes => "l1_cache_size_bytes",
            Metric::L2Reads => "l2_reads_total",
            Metric::L2Writes => "l2_writes_total",
            Metric::L2BytesRead => "l2_bytes_read_total",
            Metric::L2BytesWritten => "l2_bytes_written_total",
            Metric::L2StripedWrites => "l2_striped_writes_total",
            Metric::DeviceUsedBytes => "device_used_bytes",
            Metric::GrpcRequests => "grpc_requests_total",
        }
    }

    /// What the metric means.
    pub open spec fn meaning(self) -> Seq<char> {
        match self {
            Metric::Up => "KVService liveness"@,
            Metric::BuildInfo => "KVService build metadata"@,
            Metric::RequestTotal => "KVService request count"@,
            Metric::RequestDuration => "KVService request duration"@,
            Metric::DiskReadDuration => "KVService disk read duration"@,
            Metric::RdmaTransferDuration => "KVService RDMA transfer duration"@,
            Metric::CacheHitTotal => "KVService cache hits"@,
            Metric::ForceDiskReadTotal => "Forced disk-read requests"@,
            Metric::FallbackTotal => "KVService fallback count"@,
            Metric::NvmeReadBytesTotal => "KVService per-device NVMe read bytes"@,
            Metric::RdmaBytesTotal => "KVService RDMA bytes"@,
            Metric::RdmaErrorsTotal => "KVService RDMA errors"@,
            Metric::RdmaConnectionState => "KVService RDMA connection state"@,
            Metric::L1Hits => "L1 cache hits"@,
            Metric::L1Misses => "L1 cache misses"@,
            Metric::L1Evictions => "L1 evictions"@,
            Metric::L1SizeBytes => "L1 size"@,
            Metric::L2Reads => "L2 reads"@,
            Metric::L2Writes => "L2 writes"@,
            Metric::L2BytesRead => "L2 bytes read"@,
            Metric::L2BytesWritten => "L2 bytes written"@,
            Metric::L2StripedWrites => "L2 striped writes"@,
            Metric::DeviceUsedBytes => "Used bytes per device"@,
            Metric::GrpcRequests => "gRPC request count"@,
        }
    }

    /// What the metric means.
    pub fn help(&self) -> (r: &'static str)
        ensures
            r@ == self.meaning(),
    {
        match self {
            Metric::Up => "KVService liveness",
            Metric::BuildInfo => "KVService build metadata",
            Metric::RequestTotal => "KVService request count",
            Metric::RequestDuration => "KVService request duration",
            Metric::DiskReadDuration => "KVService disk read duration",
            Metric::RdmaTransferDuration => "KVService RDMA transfer duration",
            Metric::CacheHitTotal => "KVService cache hits",
            Metric::ForceDiskReadTotal => "Forced disk-read requests",
            Metric::FallbackTotal => "KVService fallback count",
            Metric::NvmeReadBytesTotal => "KVService per-device NVMe read bytes",
            Metric::RdmaBytesTotal => "KVService RDMA bytes",
            Metric::RdmaErrorsTotal => "KVService RDMA errors",
            Metric::RdmaConnectionState => "KVService RDMA connection state",
            Metric::L1Hits => "L1 cache hits",
            Metric::L1Misses => "L1 cache misses",
            Metric::L1Evictions => "L1 evictions",
            Metric::L1SizeBytes => "L1 size",
            Metric::L2Reads => "L2 reads",
            Metric::L2Writes => "L2 writes",
            Metric::L2BytesRead => "L2 bytes read",
            Metric::L2BytesWritten => "L2 bytes written",
            Metric::L2StripedWrites => "L2 striped writes",
            Metric::DeviceUsedBytes => "Used bytes per device",
            Metric::GrpcRequests => "gRPC request count",
        }
    }

    /// What kind of metric it is.
    pub open spec fn sort(self) -> MetricKind {
        match self {
            Metric::Up | Metric::L1SizeBytes => MetricKind::IntGauge,
            Metric::BuildInfo | Metric::RdmaConnectionState | Metric::DeviceUsedBytes => MetricKind::GaugeVec,
            Metric::RequestTotal | Metric::CacheHitTotal | Metric::FallbackTotal | Metric::NvmeReadBytesTotal | Metric::RdmaBytesTotal | Metric::RdmaErrorsTotal | Metric::GrpcRequests => MetricKind::IntCounterVec,
            Metric::RequestDuration | Metric::DiskReadDuration | Metric::RdmaTransferDuration => MetricKind::HistogramVec,
            _ => MetricKind::IntCounter,
        }
    }

    /// What kind of metric it is.
    pub fn kind(&self) -> (r: MetricKind)
        ensures
            r == self.sort(),
    {
        match self {
            Metric::Up | Metric::L1SizeBytes => MetricKind::IntGauge,
            Metric::BuildInfo | Metric::RdmaConnectionState | Metric::DeviceUsedBytes => MetricKind::GaugeVec,
            Metric::RequestTotal | Metric::CacheHitTotal | Metric::FallbackTotal | Metric::NvmeReadBytesTotal | Metric::RdmaBytesTotal | Metric::RdmaErrorsTotal | Metric::GrpcRequests => MetricKind::IntCounterVec,
            Metric::RequestDuration | Metric::DiskReadDuration | Metric::RdmaTransferDuration => MetricKind::HistogramVec,
            _ => MetricKind::IntCounter,
        }
    }

    /// The labels by which the values of the metric are told apart.
    pub open spec fn label_names(self) -> Seq<&'static str> {
        match self {
            Metric::BuildInfo => seq!["version", "commit", "features"],
            Metric::RequestTotal => seq!["op", "status"],
            Metric::RequestDuration => seq!["op"],
            Metric::DiskReadDuration => seq!["device"],
            Metric::RdmaTransferDuration => seq!["nic", "direction"],
            Metric::CacheHitTotal => seq!["tier"],
            Metric::FallbackTotal => seq!["from", "to", "reason"],
            Metric::NvmeReadBytesTotal => seq!["device"],
            Metric::RdmaBytesTotal => seq!["nic", "direction"],
            Metric::RdmaErrorsTotal => seq!["nic", "type"],
            Metric::RdmaConnectionState => seq!["peer"],
            Metric::DeviceUsedBytes => seq!["device"],
            Metric::GrpcRequests => seq!["method", "status"],
            _ => Seq::empty(),
        }
    }

    /// The labels by which the values of the metric are told apart.
    pub fn labels(&self) -> (r: Vec<&'static str>)
        ensures
            r@ == self.label_names(),
    {
        match self {
            Metric::BuildInfo => vec!["version", "commit", "features"],
            Metric::RequestTotal => vec!["op", "status"],
            Metric::RequestDuration => vec!["op"],
            Metric::DiskReadDuration => vec!["device"],
            Metric::RdmaTransferDuration => vec!["nic", "direction"],
            Metric::CacheHitTotal => vec!["tier"],
            Metric::FallbackTotal => vec!["from", "to", "reason"],
            Metric::NvmeReadBytesTotal => vec!["device"],
            Metric::RdmaBytesTotal => vec!["nic", "direction"],
            Metric::RdmaErrorsTotal => vec!["nic", "type"],
            Metric::RdmaConnectionState => vec!["peer"],
            Metric::DeviceUsedBytes => vec!["device"],
            Metric::GrpcRequests => vec!["method", "status"],
            _ => Vec::new(),
        }
    }
}

/// All metrics, in the order in which they are registered.
pub open spec fn registered() -> Seq<Metric> {
    seq![
        Metric::Up,
        Metric::BuildInfo,
        Metric::RequestTotal,
        Metric::RequestDuration,
        Metric::DiskReadDuration,
        Metric::RdmaTransferDuration,
        Metric::CacheHitTotal,
        Metric::ForceDiskReadTotal,
        Metric::FallbackTotal,
        Metric::NvmeReadBytesTotal,
        Metric::RdmaBytesTotal,
        Metric::RdmaErrorsTotal,
        Metric::RdmaConnectionState,
        Metric::L1Hits,
        Metric::L1Misses,
        Metric::L1Evictions,
        Metric::L1SizeBytes,
        Metric::L2Reads,
        Metric::L2Writes,
        Metric::L2BytesRead,
        Metric::L2BytesWritten,
        Metric::L2StripedWrites,
        Metric::DeviceUsedBytes,
        Metric::GrpcRequests,
    ]
}

/// All metrics, in the order in which they are registered.
pub fn all_metrics() -> (r: Vec<Metric>)
    ensures
        r@ == registered(),
{
    vec![
        Metric::Up,
        Metric::BuildInfo,
        Metric::RequestTotal,
        Metric::RequestDuration,
        Metric::DiskReadDuration,
        Metric::RdmaTransferDuration,
        Metric::CacheHitTotal,
        Metric::ForceDiskReadTotal,
        Metric::FallbackTotal,
        Metric::NvmeReadBytesTotal,
        Metric::RdmaBytesTotal,
        Metric::RdmaErrorsTotal,
        Metric::RdmaConnectionState,
        Metric::L1Hits,
        Metric::L1Misses,
        Metric::L1Evictions,
        Metric::L1SizeBytes,
        Metric::L2Reads,
        Metric::L2Writes,
        Metric::L2BytesRead,
        Metric::L2BytesWritten,
        Metric::L2StripedWrites,
        Metric::DeviceUsedBytes,
        Metric::GrpcRequests,
    ]
}

proof fn lemma_name_literals()
    ensures
        "kvservice_up"@.len() == 12,
        "kvservice_build_info"@.len() == 20,
        "kvservice_request_total"@.len() == 23,
        "kvservice_request_duration_seconds"@.len() == 34,
        "kvservice_disk_read_duration_seconds"@.len() == 36,
        "kvservice_rdma_transfer_duration_seconds"@.len() == 40,
        "kvservice_cache_hit_total"@.len() == 25,
        "kvservice_force_disk_read_total"@.len() == 31,
        "kvservice_fallback_total"@.len() == 24,
        "kvservice_nvme_read_bytes_total"@.len() == 31,
        "kvservice_rdma_bytes_total"@.len() == 26,
        "kvservice_rdma_errors_total"@.len() == 27,
        "kvservice_rdma_connection_state"@.len() == 31,
        "l1_cache_hits_total"@.len() == 19,
        "l1_cache_misses_total"@.len() == 21,
        "l1_cache_evictions_total"@.len() == 24,
        "l1_cache_size_bytes"@.len() == 19,
        "l2_reads_total"@.len() == 14,
        "l2_writes_total"@.len() == 15,
        "l2_bytes_read_total"@.len() == 19,
        "l2_bytes_written_total"@.len() == 22,
        "l2_striped_writes_total"@.len() == 23,
        "device_used_bytes"@.len() == 17,
        "grpc_requests_total"@.len() == 19,
        "kvservice_request_total"@ != "l2_striped_writes_total"@,
        "kvservice_force_disk_read_total"@ != "kvservice_nvme_read_bytes_total"@,
        "kvservice_force_disk_read_total"@ != "kvservice_rdma_connection_state"@,
        "kvservice_fallback_total"@ != "l1_cache_evictions_total"@,
        "kvservice_nvme_read_bytes_total"@ != "kvservice_rdma_connection_state"@,
        "l1_cache_hits_total"@ != "l1_cache_size_bytes"@,
        "l1_cache_hits_total"@ != "l2_bytes_read_total"@,
        "l1_cache_hits_total"@ != "grpc_requests_total"@,
        "l1_cache_size_bytes"@ != "l2_bytes_read_total"@,
        "l1_cache_size_bytes"@ != "grpc_requests_total"@,
        "l2_bytes_read_total"@ != "grpc_requests_total"@,
{
    reveal_strlit("kvservice_up");
    reveal_strlit("kvservice_build_info");
    reveal_strlit("kvservice_request_total");
    reveal_strlit("kvservice_request_duration_seconds");
    reveal_strlit("kvservice_disk_read_duration_seconds");
    reveal_strlit("kvservice_rdma_transfer_duration_seconds");
    reveal_strlit("kvservice_cache_hit_total");
    reveal_strlit("kvservice_force_disk_read_total");
    reveal_strlit("kvservice_fallback_total");
    reveal_strlit("kvservice_nvme_read_bytes_total");
    reveal_strlit("kvservice_rdma_bytes_total");
    reveal_strlit("kvservice_rdma_errors_total");
    reveal_strlit("kvservice_rdma_connection_state");
    reveal_strlit("l1_cache_hits_total");
    reveal_strlit("l1_cache_misses_total");
    reveal_strlit("l1_cache_evictions_total");
    reveal_strlit("l1_cache_size_bytes");
    reveal_strlit("l2_reads_total");
    reveal_strlit("l2_writes_total");
    reveal_strlit("l2_bytes_read_total");
    reveal_strlit("l2_bytes_written_total");
    reveal_strlit("l2_striped_writes_total");
    reveal_strlit("device_used_bytes");
    reveal_strlit("grpc_requests_total");
    assert("kvservice_request_total"@[0] != "l2_striped_writes_total"@[0]);
    assert("kvservice_force_disk_read_total"@[10] != "kvservice_nvme_read_bytes_total"@[10]);
    assert("kvservice_force_disk_read_total"@[10] != "kvservice_rdma_connection_state"@[10]);
    assert("kvservice_fallback_total"@[0] != "l1_cache_evictions_total"@[0]);
    assert("kvservice_nvme_read_bytes_total"@[10] != "kvservice_rdma_connection_state"@[10]);
    assert("l1_cache_hits_total"@[9] != "l1_cache_size_bytes"@[9]);
    assert("l1_cache_hits_total"@[1] != "l2_bytes_read_total"@[1]);
    assert("l1_cache_hits_total"@[0] != "grpc_requests_total"@[0]);
    assert("l1_cache_size_bytes"@[1] != "l2_bytes_read_total"@[1]);
    assert("l1_cache_size_bytes"@[0] != "grpc_requests_total"@[0]);
    assert("l2_bytes_read_total"@[0] != "grpc_requests_total"@[0]);
}

/// No two metrics are exported under the same name, so that each of them can be registered.
pub proof fn names_are_distinct(a: Metric, b: Metric)
    requires
        a.exported() == b.exported(),
    ensures
        a == b,
{
    lemma_name_literals();
}

/// A text ends in another.
pub open spec fn ends_in(s: Seq<char>, end: Seq<char>) -> bool {
    s.len() >= end.len() && s.skip(s.len() - end.len()) == end
}

/// Names tell what is measured: what only grows ends in `_total`, what takes time in `_seconds`,
/// and nothing else does.
pub proof fn names_tell_what_is_measured(m: Metric)
    ensures
        ends_in(m.exported(), "_total"@) <==> m.sort() == MetricKind::IntCounter || m.sort()
            == MetricKind::IntCounterVec,
        ends_in(m.exported(), "_seconds"@) <==> m.sort() == MetricKind::HistogramVec,
{
    reveal_strlit("_total");
    reveal_strlit("_seconds");
    reveal_strlit("kvservice_up");
    reveal_strlit("kvservice_build_info");
    reveal_strlit("kvservice_request_total");
    reveal_strlit("kvservice_request_duration_seconds");
    reveal_strlit("kvservice_disk_read_duration_seconds");
    reveal_strlit("kvservice_rdma_transfer_duration_seconds");
    reveal_strlit("kvservice_cache_hit_total");
    reveal_strlit("kvservice_force_disk_read_total");
    reveal_strlit("kvservice_fallback_total");
    reveal_strlit("kvservice_nvme_read_bytes_total");
    reveal_strlit("kvservice_rdma_bytes_total");
    reveal_strlit("kvservice_rdma_errors_total");
    reveal_strlit("kvservice_rdma_connection_state");
    reveal_strlit("l1_cache_hits_total");
    reveal_strlit("l1_cache_misses_total");
    reveal_strlit("l1_cache_evictions_total");
    reveal_strlit("l1_cache_size_bytes");
    reveal_strlit("l2_reads_total");
    reveal_strlit("l2_writes_total");
    reveal_strlit("l2_bytes_read_total");
    reveal_strlit("l2_bytes_written_total");
    reveal_strlit("l2_striped_writes_total");
    reveal_strlit("device_used_bytes");
    reveal_strlit("grpc_requests_total");
    let s = m.exported();
    if m.sort() == MetricKind::IntCounter || m.sort() == MetricKind::IntCounterVec {
        assert(s.skip(s.len() - 6) =~= "_total"@);
    } else if m.sort() == MetricKind::HistogramVec {
        assert(s.skip(s.len() - 8) =~= "_seconds"@);
    }
    if ends_in(s, "_total"@) {
        assert(s.skip(s.len() - 6)[5] == 'l');
        assert(s.skip(s.len() - 6)[0] == '_');
    }
    if ends_in(s, "_seconds"@) {
        assert(s.skip(s.len() - 8)[7] == 's');
        assert(s.skip(s.len() - 8)[0] == '_');
    }
}

/// Every metric is registered, and none twice.
pub proof fn every_metric_is_registered_once(m: Metric)
    ensures
        registered().contains(m),
        registered().no_duplicates(),
{
    let all = registered();
    let i: int = match m {
        Metric::Up => 0,
        Metric::BuildInfo => 1,
        Metric::RequestTotal => 2,
        Metric::RequestDuration => 3,
        Metric::DiskReadDuration => 4,
        Metric::RdmaTransferDuration => 5,
        Metric::CacheHitTotal => 6,
        Metric::ForceDiskReadTotal => 7,
        Metric::FallbackTotal => 8,
        Metric::NvmeReadBytesTotal => 9,
        Metric::RdmaBytesTotal => 10,
        Metric::RdmaErrorsTotal => 11,
        Metric::RdmaConnectionState => 12,
        Metric::L1Hits => 13,
        Metric::L1Misses => 14,
        Metric::L1Evictions => 15,
        Metric::L1SizeBytes => 16,
        Metric::L2Reads => 17,
        Metric::L2Writes => 18,
        Metric::L2BytesRead => 19,
        Metric::L2BytesWritten => 20,
        Metric::L2StripedWrites => 21,
        Metric::DeviceUsedBytes => 22,
        Metric::GrpcRequests => 23,
    };
    assert(all[i] == m);
}

/// What a request to the exporter asks for.
#[derive(Clone, Copy, PartialEq, Eq, Structural, Debug)]
pub enum Route {
    Metrics,
    Health,
    NotFound,
}

/// What a request to the exporter asks for, by its path.
pub fn route(path: &str) -> (r: Route)
    ensures
        r == (if path@ == "/metrics"@ {
            Route::Metrics
        } else if path@ == "/health"@ {
            Route::Health
        } else {
            Route::NotFound
        }),
{
    if text::same(path, "/metrics") {
        Route::Metrics
    } else if text::same(path, "/health") {
        Route::Health
    } else {
        Route::NotFound
    }
}

/// The features of a build, as its information metric names them.
pub fn feature_flags(rdma: bool, io_uring: bool, gds: bool) -> (r: &'static str)
    ensures
        r@ == (if rdma && io_uring && gds {
            "metrics,rdma,io-uring,gds"@
        } else if rdma && io_uring {
            "metrics,rdma,io-uring"@
        } else if rdma {
            "metrics,rdma"@
        } else if io_uring && gds {
            "metrics,io-uring,gds"@
        } else if io_uring {
            "metrics,io-uring"@
        } else {
            "metrics"@
        }),
{
    if rdma && io_uring && gds {
        "metrics,rdma,io-uring,gds"
    } else if rdma && io_uring {
        "metrics,rdma,io-uring"
    } else if rdma {
        "metrics,rdma"
    } else if io_uring && gds {
        "metrics,io-uring,gds"
    } else if io_uring {
        "metrics,io-uring"
    } else {
        "metrics"
    }
}

/// The value that a metric is set to, for one label where it has one.
pub struct Update {
    pub metric: Metric,
    pub label: Option<String>,
    pub value: u64,
}

/// What an update says.
#[verifier::ext_equal]
pub struct UpdateView {
    pub metric: Metric,
    pub label: Option<Seq<char>>,
    pub value: u64,
}

impl View for Update {
    type V = UpdateView;

    open spec fn view(&self) -> UpdateView {
        UpdateView {
            metric: self.metric,
            label: match self.label {
                Some(l) => Some(l@),
                None => None,
            },
            value: self.value,
        }
    }
}

/// The value that a metric has from the start, with all its labels.
pub struct FirstValue {
    pub metric: Metric,
    pub labels: Vec<String>,
    pub value: u64,
}

/// The values that are set once, when the metrics are made: the service is up, and this build of
/// it runs. A build without a commit is one of an unknown commit.
pub fn first_values(version: &str, commit: Option<&str>, features: &str) -> (r: Vec<FirstValue>)
    ensures
        r@.len() == 2,
        r@[0].metric == Metric::Up,
        r@[0].labels@.len() == 0,
        r@[0].value == 1,
        r@[1].metric == Metric::BuildInfo,
        views(r@[1].labels@) == seq![
            version@,
            (match commit {
                Some(c) => c@,
                None => "unknown"@,
            }),
            features@,
        ],
        r@[1].value == 1,
{
    let commit = match commit {
        Some(c) => c.to_owned(),
        None => "unknown".to_owned(),
    };
    let mut labels: Vec<String> = Vec::new();
    labels.push(version.to_owned());
    labels.push(commit);
    labels.push(features.to_owned());
    proof {
        assert(views(labels@) =~= seq![version@, commit@, features@]);
    }
    let mut out: Vec<FirstValue> = Vec::new();
    out.push(FirstValue { metric: Metric::Up, labels: Vec::new(), value: 1 });
    out.push(FirstValue { metric: Metric::BuildInfo, labels, value: 1 });
    out
}

/// What the storage tier has counted.
#[derive(Clone, Copy, PartialEq, Eq, Structural, Debug)]
pub struct StorageCounters {
    pub reads_total: u64,
    pub writes_total: u64,
    pub bytes_read: u64,
    pub bytes_written: u64,
    pub striped_writes: u64,
}

/// What is known of one device.
#[derive(Clone, Copy, PartialEq, Eq, Structural, Debug)]
pub struct DeviceCounters {
    pub read_bytes: u64,
    pub used_bytes: u64,
}

pub open spec fn plain(metric: Metric, value: u64) -> UpdateView {
    UpdateView { metric, label: None, value }
}

pub open spec fn labelled(metric: Metric, label: Seq<char>, value: u64) -> UpdateView {
    UpdateView { metric, label: Some(label), value }
}

/// The values of the tiers: hits, misses, evictions and bytes of the memory tier, then the
/// counters of the storage tier.
pub open spec fn tier_updates(stats: (u64, u64, u64, u64), st: StorageCounters) -> Seq<UpdateView> {
    seq![
        labelled(Metric::CacheHitTotal, "l1"@, stats.0),
        plain(Metric::L1Hits, stats.0),
        plain(Metric::L1Misses, stats.1),
        plain(Metric::L1Evictions, stats.2),
        plain(Metric::L1SizeBytes, stats.3),
        plain(Metric::L2Reads, st.reads_total),
        plain(Metric::L2Writes, st.writes_total),
        plain(Metric::L2BytesRead, st.bytes_read),
        plain(Metric::L2BytesWritten, st.bytes_written),
        plain(Metric::L2StripedWrites, st.striped_writes),
    ]
}

/// The values of the devices; each is labelled by its number.
pub open spec fn device_updates(devices: Seq<DeviceCounters>) -> Seq<UpdateView>
    decreases devices.len(),
{
    if devices.len() == 0 {
        Seq::empty()
    } else {
        let label = "nvme"@ + decimal((devices.len() - 1) as nat);
        device_updates(devices.drop_last()).push(
            labelled(Metric::NvmeReadBytesTotal, label, devices.last().read_bytes),
        ).push(labelled(Metric::DeviceUsedBytes, label, devices.last().used_bytes))
    }
}

/// What a list of updates says.
pub open spec fn update_views(s: Seq<Update>) -> Seq<UpdateView> {
    s.map_values(|u: Update| u@)
}

/// The values that a scrape refreshes.
pub fn refresh(stats: (u64, u64, u64, u64), storage: StorageCounters, devices: &Vec<DeviceCounters>) -> (r:
    Vec<Update>)
    ensures
        update_views(r@) == tier_updates(stats, storage) + device_updates(devices@),
{
    let mut out: Vec<Update> = Vec::new();
    out.push(
        Update { metric: Metric::CacheHitTotal, label: Some("l1".to_owned()), value: stats.0 },
    );
    out.push(Update { metric: Metric::L1Hits, label: None, value: stats.0 });
    out.push(Update { metric: Metric::L1Misses, label: None, value: stats.1 });
    out.push(Update { metric: Metric::L1Evictions, label: None, value: stats.2 });
    out.push(Update { metric: Metric::L1SizeBytes, label: None, value: stats.3 });
    out.push(Update { metric: Metric::L2Reads, label: None, value: storage.reads_total });
    out.push(Update { metric: Metric::L2Writes, label: None, value: storage.writes_total });
    out.push(Update { metric: Metric::L2BytesRead, label: None, value: storage.bytes_read });
    out.push(Update { metric: Metric::L2BytesWritten, label: None, value: storage.bytes_written });
    out.push(Update { metric: Metric::L2StripedWrites, label: None, value: storage.striped_writes });
    let ghost tiers = tier_updates(stats, storage);
    proof {
        assert(update_views(out@) =~= tiers);
        assert(devices@.take(0) =~= Seq::<DeviceCounters>::empty());
        assert(tiers + device_updates(devices@.take(0)) =~= tiers);
    }
    let mut i: usize = 0;
    while i < devices.len()
        invariant
            i <= devices.len(),
            update_views(out@) == tiers + device_updates(devices@.take(i as int)),
        decreases devices.len() - i,
    {
        let ghost before = update_views(out@);
        let mut label = "nvme".to_owned();
        text::push_decimal(&mut label, i as u64);
        let again = label.clone();
        out.push(
            Update {
                metric: Metric::NvmeReadBytesTotal,
                label: Some(label),
                value: devices[i].read_bytes,
            },
        );
        out.push(
            Update {
                metric: Metric::DeviceUsedBytes,
                label: Some(again),
                value: devices[i].used_bytes,
            },
        );
        proof {
            let l = "nvme"@ + decimal(i as nat);
            let a = labelled(Metric::NvmeReadBytesTotal, l, devices@[i as int].read_bytes);
            let b = labelled(Metric::DeviceUsedBytes, l, devices@[i as int].used_bytes);
            assert(devices@.take(i + 1).drop_last() =~= devices@.take(i as int));
            assert(update_views(out@) =~= before.push(a).push(b));
            assert(update_views(out@) =~= tiers + device_updates(devices@.take(i + 1)));
        }
        i = i + 1;
    }
    proof {
        assert(devices@.take(i as int) =~= devices@);
    }
    out
}

/// The value of the connection metric.
pub fn connection_state(connected: bool) -> (r: u64)
    ensures
        r == (if connected {
            1u64
        } else {
            0u64
        }),
{
    if connected {
        1
    } else {
        0
    }
}

} // verus!
