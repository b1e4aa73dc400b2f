//! Data model shared by the traversal engine and the tree store: size
//! metrics, entry kinds, node summaries, scan options, progress counters and
//! the scan event protocol.
//!
//! Paths are carried as plain `String`s throughout the core; the embedding
//! binary converts between `std::path` values and strings at the boundary.

use vstd::prelude::*;
use vstd::string::*;

verus! {

/// Which of the two sizes of a node is displayed.
#[derive(Debug, Clone, Copy, PartialEq, Eq, Structural)]
pub enum SizeMetric {
    Allocated,
    Apparent,
}

impl SizeMetric {
    pub open spec fn spec_toggle(self) -> Self {
        match self {
            SizeMetric::Allocated => SizeMetric::Apparent,
            SizeMetric::Apparent => SizeMetric::Allocated,
        }
    }

    /// Switch to the other metric.
    pub fn toggle(self) -> (r: Self)
        ensures
            r == self.spec_toggle(),
    {
        match self {
            Self::Allocated => Self::Apparent,
            Self::Apparent => Self::Allocated,
        }
    }

    pub fn as_str(self) -> (r: &'static str)
        ensures
            self is Allocated ==> r@ == "allocated"@,
            self is Apparent ==> r@ == "apparent"@,
    {
        match self {
            Self::Allocated => "allocated",
            Self::Apparent => "apparent",
        }
    }
}

/// What kind of filesystem entry a node summarizes.
#[derive(Debug, Clone, Copy, PartialEq, Eq, Structural)]
pub enum FsEntryKind {
    File,
    Dir,
    Symlink,
    Other,
}

impl FsEntryKind {
    /// Short label for display; stands in for a `Display` impl.
    pub fn label(self) -> (r: &'static str)
        ensures
            self is File ==> r@ == "file"@,
            self is Dir ==> r@ == "dir"@,
            self is Symlink ==> r@ == "symlink"@,
            self is Other ==> r@ == "other"@,
    {
        match self {
            Self::File => "file",
            Self::Dir => "dir",
            Self::Symlink => "symlink",
            Self::Other => "other",
        }
    }
}

/// The latest known summary of one filesystem entry.
///
/// For non-directory kinds `is_complete` is always true (single emission).
/// For directories at most two emissions occur per scan: a provisional one
/// (`is_complete == false`, sizes are the directory's own metadata only) and a
/// final one (`is_complete == true`, sizes cover the whole subtree).
#[derive(Debug, Clone)]
pub struct NodeSummary {
    pub path: String,
    pub kind: FsEntryKind,
    pub apparent_bytes: u64,
    pub allocated_bytes: u64,
    pub children_count: u64,
    pub is_complete: bool,
    /// Milliseconds since the Unix epoch at the time of the emission.
    pub last_updated: u64,
}

impl NodeSummary {
    pub open spec fn spec_metric_bytes(self, metric: SizeMetric) -> u64 {
        match metric {
            SizeMetric::Allocated => self.allocated_bytes,
            SizeMetric::Apparent => self.apparent_bytes,
        }
    }

    /// The size of this node under the chosen metric.
    pub fn metric_bytes(&self, metric: SizeMetric) -> (r: u64)
        ensures
            r == self.spec_metric_bytes(metric),
    {
        match metric {
            SizeMetric::Allocated => self.allocated_bytes,
            SizeMetric::Apparent => self.apparent_bytes,
        }
    }
}

/// Order in which a directory's visible children are listed.
#[derive(Debug, Clone, Copy, PartialEq, Eq, Structural)]
pub enum SortMode {
    SizeDesc,
    SizeAsc,
    Name,
}

impl SortMode {
    pub open spec fn spec_cycle(self) -> Self {
        match self {
            SortMode::SizeDesc => SortMode::SizeAsc,
            SortMode::SizeAsc => SortMode::Name,
            SortMode::Name => SortMode::SizeDesc,
        }
    }

    /// Step to the next mode, cycling through all three.
    pub fn cycle(self) -> (r: Self)
        ensures
            r == self.spec_cycle(),
    {
        match self {
            Self::SizeDesc => Self::SizeAsc,
            Self::SizeAsc => Self::Name,
            Self::Name => Self::SizeDesc,
        }
    }

    pub fn as_str(self) -> (r: &'static str)
        ensures
            self is SizeDesc ==> r@ == "size-desc"@,
            self is SizeAsc ==> r@ == "size-asc"@,
            self is Name ==> r@ == "name"@,
    {
        match self {
            Self::SizeDesc => "size-desc",
            Self::SizeAsc => "size-asc",
            Self::Name => "name",
        }
    }
}

/// Configuration of one scan; immutable for the scan's whole lifetime.
#[derive(Debug, Clone)]
pub struct ScanOptions {
    pub root: String,
    /// Do not descend into subtrees on a different mount than the root.
    pub one_file_system: bool,
    /// Follow symbolic links instead of summarizing them as terminal nodes.
    pub follow_symlinks: bool,
    /// Emit node updates for dotfile-named entries. Aggregate totals always
    /// include them either way.
    pub show_hidden: bool,
    /// Emit node updates for non-directory entries. Aggregate totals always
    /// include them either way.
    pub show_files: bool,
    /// Emit node updates only for entries at most this deep; `None` means no
    /// limit. Deeper entries are still visited and counted.
    pub max_depth: Option<usize>,
}

/// Running counters for one scan. All four are non-decreasing within a scan.
#[derive(Debug, Clone, Copy)]
pub struct ScanProgress {
    pub visited_entries: u64,
    pub warnings: u64,
    pub apparent_bytes_seen: u64,
    pub allocated_bytes_seen: u64,
}

impl ScanProgress {
    /// Pointwise order on the four counters.
    pub open spec fn le(self, other: ScanProgress) -> bool {
        &&& self.visited_entries <= other.visited_entries
        &&& self.warnings <= other.warnings
        &&& self.apparent_bytes_seen <= other.apparent_bytes_seen
        &&& self.allocated_bytes_seen <= other.allocated_bytes_seen
    }

    pub open spec fn is_zero(self) -> bool {
        &&& self.visited_entries == 0
        &&& self.warnings == 0
        &&& self.apparent_bytes_seen == 0
        &&& self.allocated_bytes_seen == 0
    }
}

impl Default for ScanProgress {
    /// All counters start at zero.
    fn default() -> (r: Self)
        ensures
            r.is_zero(),
    {
        ScanProgress { visited_entries: 0, warnings: 0, apparent_bytes_seen: 0, allocated_bytes_seen: 0 }
    }
}

/// One message from the traversal engine to the consumer.
///
/// `Reset` is always first; exactly one of `Complete`, `Error` or `Cancelled`
/// is always last. `Reset`, `Warning` and the three terminal events are
/// critical (never dropped); `NodeUpdated` and `Progress` are best-effort.
#[derive(Debug, Clone)]
pub enum ScanEvent {
    Reset { root: String },
    NodeUpdated(NodeSummary),
    Progress(ScanProgress),
    Warning { path: String, message: String },
    Complete(ScanProgress),
    Error(String),
    Cancelled,
}

impl ScanEvent {
    /// Exactly one terminal event ends every scan.
    pub open spec fn is_terminal(self) -> bool {
        self is Complete || self is Error || self is Cancelled
    }

    /// The progress snapshot an event carries, if any.
    pub open spec fn progress_of(self) -> Option<ScanProgress> {
        match self {
            ScanEvent::Progress(p) => Some(p),
            ScanEvent::Complete(p) => Some(p),
            _ => None,
        }
    }
}

/// `a * b`, clamped at `u64::MAX`.
pub open spec fn spec_sat_mul(a: u64, b: u64) -> u64 {
    if a * b > u64::MAX {
        u64::MAX
    } else {
        (a * b) as u64
    }
}

/// The on-disk allocation of an entry, from the figures a stat call reports:
/// the 512-byte block count when the platform gives one, the logical length
/// otherwise.
pub fn allocated_size(blocks: u64, len: u64) -> (r: u64)
    ensures
        blocks > 0 ==> r == spec_sat_mul(blocks, 512),
        blocks == 0 ==> r == len,
{
    if blocks > 0 {
        if blocks > u64::MAX / 512 {
            proof {
                assert(blocks * 512 > u64::MAX) by (nonlinear_arith)
                    requires
                        blocks > u64::MAX / 512,
                ;
            }
            u64::MAX
        } else {
            proof {
                assert(blocks * 512 <= u64::MAX) by (nonlinear_arith)
                    requires
                        blocks <= u64::MAX / 512,
                ;
            }
            blocks * 512
        }
    } else {
        len
    }
}

/// `len` rounded up to the next whole 4096-byte cluster, clamped at
/// `u64::MAX`; zero stays zero.
pub open spec fn spec_cluster_round(len: u64) -> u64 {
    if len == 0 {
        0
    } else {
        let r = ((len + 4095) / 4096) * 4096;
        if r > u64::MAX {
            u64::MAX
        } else {
            r as u64
        }
    }
}

/// The on-disk allocation on platforms that report no block count and
/// allocate in fixed 4096-byte clusters: the logical length rounded up to a
/// whole cluster, saturating at the machine limit.
pub fn allocated_size_clustered(len: u64) -> (r: u64)
    ensures
        r == spec_cluster_round(len),
{
    if len == 0 {
        0
    } else if len > u64::MAX - 4095 {
        proof {
            assert(((len + 4095) / 4096) * 4096 > u64::MAX) by (nonlinear_arith)
                requires
                    len + 4095 > u64::MAX,
            ;
        }
        u64::MAX
    } else {
        let t = len + 4095;
        proof {
            assert((t / 4096) * 4096 <= t) by (nonlinear_arith);
        }
        (t / 4096) * 4096
    }
}

/// `a * b`, computed with saturation at `u64::MAX`.
pub fn sat_mul(a: u64, b: u64) -> (r: u64)
    ensures
        r == spec_sat_mul(a, b),
{
    if a == 0 || b == 0 {
        0
    } else if a > u64::MAX / b {
        proof {
            assert(a * b > u64::MAX) by (nonlinear_arith)
                requires
                    a > u64::MAX / b,
                    b > 0,
            ;
        }
        u64::MAX
    } else {
        proof {
            assert(a * b <= u64::MAX) by (nonlinear_arith)
                requires
                    a <= u64::MAX / b,
                    b > 0,
            ;
        }
        a * b
    }
}

/// Free space figures for the mount holding a path, as reported by the
/// platform layer.
#[derive(Debug, Clone, Copy, PartialEq, Eq, Structural)]
pub struct DiskUsage {
    pub total_bytes: u64,
    pub free_bytes: u64,
    pub available_bytes: u64,
}

/// Free-space figures from the raw fields a statvfs call reports: the three
/// block counts scaled by the fragment size (or, where the platform reports
/// no fragment size, the block size), each product saturating.
pub fn disk_usage_from_statvfs(
    frsize: u64,
    bsize: u64,
    blocks: u64,
    bfree: u64,
    bavail: u64,
) -> (r: DiskUsage)
    ensures
        ({
            let unit = if frsize > 0 {
                frsize
            } else {
                bsize
            };
            &&& r.total_bytes == spec_sat_mul(blocks, unit)
            &&& r.free_bytes == spec_sat_mul(bfree, unit)
            &&& r.available_bytes == spec_sat_mul(bavail, unit)
        }),
{
    let unit = if frsize > 0 {
        frsize
    } else {
        bsize
    };
    DiskUsage {
        total_bytes: sat_mul(blocks, unit),
        free_bytes: sat_mul(bfree, unit),
        available_bytes: sat_mul(bavail, unit),
    }
}

/// Initial size metric as chosen on the command line.
#[derive(Debug, Clone, Copy, PartialEq, Eq, Structural)]
pub enum MetricArg {
    Allocated,
    Apparent,
}

impl MetricArg {
    pub fn into_metric(self) -> (r: SizeMetric)
        ensures
            r == (match self {
                MetricArg::Allocated => SizeMetric::Allocated,
                MetricArg::Apparent => SizeMetric::Apparent,
            }),
    {
        match self {
            Self::Allocated => SizeMetric::Allocated,
            Self::Apparent => SizeMetric::Apparent,
        }
    }
}

/// Command-line choices, already parsed into plain values. The binary's
/// argument parser fills this in and resolves `path` to an absolute root
/// before handing it to [`Config::from_cli`].
#[derive(Debug, Clone)]
pub struct Cli {
    pub path: String,
    pub one_file_system: bool,
    pub follow_symlinks: bool,
    pub show_hidden: bool,
    pub show_files: bool,
    pub metric: MetricArg,
    pub max_depth: Option<usize>,
    pub no_delete: bool,
}

/// Resolved application configuration.
#[derive(Debug, Clone)]
pub struct Config {
    pub startup_root: String,
    pub scan_options: ScanOptions,
    pub initial_metric: SizeMetric,
    pub no_delete: bool,
}

impl Config {
    /// Build the configuration from parsed command-line choices and the
    /// canonicalized startup root (resolving the root is the caller's task).
    pub fn from_cli(cli: Cli, startup_root: String) -> (r: Config)
        ensures
            r.startup_root == startup_root,
            r.scan_options.root == startup_root,
            r.scan_options.one_file_system == cli.one_file_system,
            r.scan_options.follow_symlinks == cli.follow_symlinks,
            r.scan_options.show_hidden == cli.show_hidden,
            r.scan_options.show_files == cli.show_files,
            r.scan_options.max_depth == cli.max_depth,
            r.initial_metric == (match cli.metric {
                MetricArg::Allocated => SizeMetric::Allocated,
                MetricArg::Apparent => SizeMetric::Apparent,
            }),
            r.no_delete == cli.no_delete,
    {
        let initial_metric = cli.metric.into_metric();
        Config {
            scan_options: ScanOptions {
                root: startup_root.clone(),
                one_file_system: cli.one_file_system,
                follow_symlinks: cli.follow_symlinks,
                show_hidden: cli.show_hidden,
                show_files: cli.show_files,
                max_depth: cli.max_depth,
            },
            startup_root,
            initial_metric,
            no_delete: cli.no_delete,
        }
    }
}

/// Application-level error, carried as plain strings.
#[derive(Debug, Clone)]
pub enum AppError {
    Io(String),
    Terminal(String),
    Scan(String),
    Delete { path: String, reason: String },
}

impl AppError {
    /// The user-facing text of the error; stands in for a `Display` impl.
    pub fn message(&self) -> (r: String)
        ensures
            (self matches AppError::Io(m) ==> r@ == "I/O error: "@ + m@),
            (self matches AppError::Terminal(m) ==> r@ == "terminal error: "@ + m@),
            (self matches AppError::Scan(m) ==> r@ == "scan error: "@ + m@),
            (self matches AppError::Delete { path, reason } ==> r@ == "delete error for "@ + path@
                + ": "@ + reason@),
    {
        match self {
            AppError::Io(m) => {
                let mut s = String::from_str("I/O error: ");
                s.append(m.as_str());
                s
            },
            AppError::Terminal(m) => {
                let mut s = String::from_str("terminal error: ");
                s.append(m.as_str());
                s
            },
            AppError::Scan(m) => {
                let mut s = String::from_str("scan error: ");
                s.append(m.as_str());
                s
            },
            AppError::Delete { path, reason } => {
                let mut s = String::from_str("delete error for ");
                s.append(path.as_str());
                s.append(": ");
                s.append(reason.as_str());
                s
            },
        }
    }
}

} // verus!
