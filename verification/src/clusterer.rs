//! Clusterer configuration, errors and the calibrated domain profiles.
//!
//! The clustering algorithms themselves work on floating-point embeddings and
//! live outside this library; what is here is the configuration they are
//! built from, the errors they report, and the checks made on their input
//! before any arithmetic starts.

use vstd::prelude::*;
use vstd::string::StringExecFns;
use crate::text::{decimal, push_decimal, str_eq};

verus! {

/// Errors reported by the clusterers.
#[derive(Clone, Debug, PartialEq, Eq)]
pub enum ClustererError {
    /// Fewer embeddings than the clusterer needs.
    TooFewEmbeddings { actual: usize, min: usize },
    /// Embedding `index` has `actual` dimensions where `expected` were due.
    DimMismatch { expected: usize, actual: usize, index: usize },
    /// The algorithm itself gave up.
    AlgorithmFailed { detail: String },
}

impl ClustererError {
    /// The human-readable message of the error.
    pub open spec fn message_spec(&self) -> Seq<char> {
        match self {
            ClustererError::TooFewEmbeddings { actual, min } => "too few embeddings: got "@
                + decimal(*actual as nat) + ", need at least "@ + decimal(*min as nat),
            ClustererError::DimMismatch { expected, actual, index } =>
                "embedding dimension mismatch: expected "@ + decimal(*expected as nat) + ", got "@
                + decimal(*actual as nat) + " at index "@ + decimal(*index as nat),
            ClustererError::AlgorithmFailed { detail } => "clustering failed: "@ + detail@,
        }
    }

    /// The human-readable message of the error.
    pub fn message(&self) -> (m: String)
        ensures
            m@ == self.message_spec(),
    {
        let mut m = String::new();
        match self {
            ClustererError::TooFewEmbeddings { actual, min } => {
                m.append("too few embeddings: got ");
                push_decimal(&mut m, *actual as u64);
                m.append(", need at least ");
                push_decimal(&mut m, *min as u64);
            },
            ClustererError::DimMismatch { expected, actual, index } => {
                m.append("embedding dimension mismatch: expected ");
                push_decimal(&mut m, *expected as u64);
                m.append(", got ");
                push_decimal(&mut m, *actual as u64);
                m.append(" at index ");
                push_decimal(&mut m, *index as u64);
            },
            ClustererError::AlgorithmFailed { detail } => {
                m.append("clustering failed: ");
                m.append(detail.as_str());
            },
        }
        m
    }
}

/// Checks that every embedding has the dimension of the first; `dims[i]` is
/// the dimension of embedding `i`. The first mismatch is reported.
pub fn uniform_dim(dims: &Vec<usize>) -> (r: Result<(), ClustererError>)
    requires
        dims.len() > 0,
    ensures
        r is Ok <==> forall|i: int| 0 <= i < dims.len() ==> #[trigger] dims@[i] == dims@[0],
        r matches Err(e) ==> e matches ClustererError::DimMismatch { expected, actual, index } && expected
            == dims@[0] && 0 < index < dims.len() && actual == dims@[index as int] && actual != expected
            && forall|q: int| 0 <= q < index ==> #[trigger] dims@[q] == dims@[0],
{
    let expected = dims[0];
    let mut index: usize = 1;
    while index < dims.len()
        invariant
            1 <= index <= dims.len(),
            expected == dims@[0],
            forall|q: int| 0 <= q < index ==> #[trigger] dims@[q] == dims@[0],
        decreases dims.len() - index,
    {
        let actual = dims[index];
        if actual != expected {
            return Err(ClustererError::DimMismatch { expected, actual, index });
        }
        index += 1;
    }
    Ok(())
}

/// K-means++ clusterer settings, with automatic choice of `k`.
#[derive(Clone, Copy, Debug, PartialEq, Eq)]
pub struct KmeansClusterer {
    max_clusters: usize,
    max_iter: usize,
    trials: usize,
    fast_mode: bool,
}

impl KmeansClusterer {
    pub closed spec fn spec_max_clusters(self) -> usize {
        self.max_clusters
    }

    pub closed spec fn spec_max_iter(self) -> usize {
        self.max_iter
    }

    pub closed spec fn spec_trials(self) -> usize {
        self.trials
    }

    pub closed spec fn spec_fast_mode(self) -> bool {
        self.fast_mode
    }

    /// At most `max_clusters` clusters (at least two), 50 Lloyd iterations,
    /// three initialisations per `k`, fast mode off.
    pub fn new(max_clusters: usize) -> (c: Self)
        ensures
            c.spec_max_clusters() == if max_clusters < 2 {
                2
            } else {
                max_clusters
            },
            c.spec_max_iter() == 50,
            c.spec_trials() == 3,
            !c.spec_fast_mode(),
    {
        KmeansClusterer {
            max_clusters: if max_clusters < 2 {
                2
            } else {
                max_clusters
            },
            max_iter: 50,
            trials: 3,
            fast_mode: false,
        }
    }

    /// The same settings with fast mode on (fewer candidates and iterations,
    /// one trial).
    pub fn fast_mode(self) -> (c: Self)
        ensures
            c.spec_fast_mode(),
            c.spec_max_clusters() == self.spec_max_clusters(),
            c.spec_max_iter() == self.spec_max_iter(),
            c.spec_trials() == self.spec_trials(),
    {
        KmeansClusterer { fast_mode: true, ..self }
    }

    /// The same settings with at most `max_iter` Lloyd iterations.
    pub fn with_max_iter(self, max_iter: usize) -> (c: Self)
        ensures
            c.spec_max_iter() == max_iter,
            c.spec_max_clusters() == self.spec_max_clusters(),
            c.spec_trials() == self.spec_trials(),
            c.spec_fast_mode() == self.spec_fast_mode(),
    {
        KmeansClusterer { max_iter, ..self }
    }

    /// The same settings with `trials` initialisations per `k` (at least one).
    pub fn with_trials(self, trials: usize) -> (c: Self)
        ensures
            c.spec_trials() == if trials < 1 {
                1
            } else {
                trials
            },
            c.spec_max_clusters() == self.spec_max_clusters(),
            c.spec_max_iter() == self.spec_max_iter(),
            c.spec_fast_mode() == self.spec_fast_mode(),
    {
        KmeansClusterer {
            trials: if trials < 1 {
                1
            } else {
                trials
            },
            ..self
        }
    }

    /// Upper bound on the number of clusters.
    pub fn max_clusters(&self) -> (n: usize)
        ensures
            n == self.spec_max_clusters(),
    {
        self.max_clusters
    }

    /// Lloyd iterations per run.
    pub fn max_iter(&self) -> (n: usize)
        ensures
            n == self.spec_max_iter(),
    {
        self.max_iter
    }

    /// Initialisations per `k`.
    pub fn trials(&self) -> (n: usize)
        ensures
            n == self.spec_trials(),
    {
        self.trials
    }

    /// Whether fast mode is on.
    pub fn is_fast(&self) -> (b: bool)
        ensures
            b == self.spec_fast_mode(),
    {
        self.fast_mode
    }
}

impl Default for KmeansClusterer {
    /// At most 64 clusters.
    fn default() -> (c: Self)
        ensures
            c.spec_max_clusters() == 64,
            c.spec_max_iter() == 50,
            c.spec_trials() == 3,
            !c.spec_fast_mode(),
    {
        KmeansClusterer::new(64)
    }
}

/// Normalized-maximum-eigengap spectral clusterer settings.
#[derive(Clone, Copy, Debug, PartialEq, Eq)]
pub struct NmeScClusterer {
    max_clusters: usize,
}

impl NmeScClusterer {
    pub closed spec fn spec_max_clusters(self) -> usize {
        self.max_clusters
    }

    /// At most `max_clusters` clusters (at least one).
    pub fn new(max_clusters: usize) -> (c: Self)
        ensures
            c.spec_max_clusters() == if max_clusters < 1 {
                1
            } else {
                max_clusters
            },
    {
        NmeScClusterer {
            max_clusters: if max_clusters < 1 {
                1
            } else {
                max_clusters
            },
        }
    }

    /// Upper bound on the number of clusters.
    pub fn max_clusters(&self) -> (n: usize)
        ensures
            n == self.spec_max_clusters(),
    {
        self.max_clusters
    }
}

impl Default for NmeScClusterer {
    /// At most 64 clusters.
    fn default() -> (c: Self)
        ensures
            c.spec_max_clusters() == 64,
    {
        NmeScClusterer::new(64)
    }
}

/// Agglomerative clusterer settings (automatic threshold).
#[derive(Clone, Copy, Debug, PartialEq, Eq)]
pub struct AhcClusterer {
    max_clusters: usize,
}

impl AhcClusterer {
    pub closed spec fn spec_max_clusters(self) -> usize {
        self.max_clusters
    }

    /// At most `max_clusters` clusters (at least one).
    pub fn new(max_clusters: usize) -> (c: Self)
        ensures
            c.spec_max_clusters() == if max_clusters < 1 {
                1
            } else {
                max_clusters
            },
    {
        AhcClusterer {
            max_clusters: if max_clusters < 1 {
                1
            } else {
                max_clusters
            },
        }
    }

    /// Upper bound on the number of clusters.
    pub fn max_clusters(&self) -> (n: usize)
        ensures
            n == self.spec_max_clusters(),
    {
        self.max_clusters
    }
}

impl Default for AhcClusterer {
    /// At most 64 clusters.
    fn default() -> (c: Self)
        ensures
            c.spec_max_clusters() == 64,
    {
        AhcClusterer::new(64)
    }
}

/// A calibrated recording domain: the merge threshold (in thousandths of
/// cosine similarity) and the AS-norm cohort size tuned for it.
#[derive(Clone, Copy, Debug, PartialEq, Eq)]
pub struct DomainProfile {
    pub name: &'static str,
    pub ahc_threshold_milli: u32,
    pub as_norm_top_n: usize,
}

/// Broadcast interviews and debates (the default profile).
pub fn voxconverse() -> (p: DomainProfile)
    ensures
        p.name@ == "voxconverse"@,
        p.ahc_threshold_milli == 500,
        p.as_norm_top_n == 100,
{
    DomainProfile { name: "voxconverse", ahc_threshold_milli: 500, as_norm_top_n: 100 }
}

/// Meeting-room recordings.
pub fn ami() -> (p: DomainProfile)
    ensures
        p.name@ == "ami"@,
        p.ahc_threshold_milli == 550,
        p.as_norm_top_n == 100,
{
    DomainProfile { name: "ami", ahc_threshold_milli: 550, as_norm_top_n: 100 }
}

/// Telephone conversations.
pub fn callhome() -> (p: DomainProfile)
    ensures
        p.name@ == "callhome"@,
        p.ahc_threshold_milli == 450,
        p.as_norm_top_n == 100,
{
    DomainProfile { name: "callhome", ahc_threshold_milli: 450, as_norm_top_n: 100 }
}

/// The profile used when none is chosen.
pub fn default_domain_profile() -> (p: DomainProfile)
    ensures
        p.name@ == "voxconverse"@,
        p.ahc_threshold_milli == 500,
        p.as_norm_top_n == 100,
{
    voxconverse()
}

/// The shipped profiles, in lookup order.
pub fn domain_profiles() -> (v: Vec<DomainProfile>)
    ensures
        v.len() == 3,
        v@[0].name@ == "voxconverse"@ && v@[0].ahc_threshold_milli == 500,
        v@[1].name@ == "ami"@ && v@[1].ahc_threshold_milli == 550,
        v@[2].name@ == "callhome"@ && v@[2].ahc_threshold_milli == 450,
        forall|i: int| 0 <= i < 3 ==> (#[trigger] v@[i]).as_norm_top_n == 100,
{
    let mut v: Vec<DomainProfile> = Vec::new();
    v.push(voxconverse());
    v.push(ami());
    v.push(callhome());
    v
}

/// The profile named `name` (exact, case-sensitive), if it is shipped.
pub fn domain_profile(name: &str) -> (r: Option<DomainProfile>)
    ensures
        r matches Some(p) ==> p.name@ == name@ && (p.name@ == "voxconverse"@ || p.name@ == "ami"@
            || p.name@ == "callhome"@),
        r matches Some(p) ==> (name@ == "voxconverse"@ ==> p.ahc_threshold_milli == 500) && (name@
            == "ami"@ ==> p.ahc_threshold_milli == 550) && (name@ == "callhome"@
            ==> p.ahc_threshold_milli == 450) && p.as_norm_top_n == 100,
        r is None <==> !(name@ == "voxconverse"@ || name@ == "ami"@ || name@ == "callhome"@),
{
    let profiles = domain_profiles();
    let mut i: usize = 0;
    while i < profiles.len()
        invariant
            i <= profiles.len(),
            profiles.len() == 3,
            profiles@[0].name@ == "voxconverse"@ && profiles@[0].ahc_threshold_milli == 500,
            profiles@[1].name@ == "ami"@ && profiles@[1].ahc_threshold_milli == 550,
            profiles@[2].name@ == "callhome"@ && profiles@[2].ahc_threshold_milli == 450,
            forall|q: int| 0 <= q < 3 ==> (#[trigger] profiles@[q]).as_norm_top_n == 100,
            forall|q: int| 0 <= q < i ==> (#[trigger] profiles@[q]).name@ != name@,
        decreases profiles.len() - i,
    {
        if str_eq(profiles[i].name, name) {
            proof {
                reveal_strlit("voxconverse");
                reveal_strlit("ami");
                reveal_strlit("callhome");
                assert("voxconverse"@.len() == 11);
                assert("ami"@.len() == 3);
                assert("callhome"@.len() == 8);
                assert("voxconverse"@ != "ami"@ && "voxconverse"@ != "callhome"@ && "ami"@
                    != "callhome"@);
                assert(i == 0 || i == 1 || i == 2);
            }
            return Some(profiles[i]);
        }
        i += 1;
    }
    None
}

/// Default AS-norm cohort size (top-N cohort scores per embedding).
pub const DEFAULT_AS_NORM_TOP_N: usize = 100;

/// Model-registry id of the shipped imposter cohort.
pub const DEFAULT_ASNORM_COHORT_MODEL_ID: &'static str = "asnorm_cohort_voxdev";

/// Where the AS-norm imposter cohort comes from.
#[derive(Clone, Debug, PartialEq, Eq)]
pub enum CohortSource {
    /// A local `.npy` file.
    Path(String),
    /// A model-registry id, resolved when the pipeline is built.
    ModelId(String),
}

/// AS-norm configuration for the fixed-threshold agglomerative clusterer.
#[derive(Clone, Debug, PartialEq, Eq)]
pub struct AsNormConfig {
    /// Top cohort scores per embedding used for the normalisation statistics.
    pub top_n: usize,
    /// Cohort provenance.
    pub cohort: CohortSource,
}

/// Errors loading an AS-norm cohort.
#[derive(Clone, Debug, PartialEq, Eq)]
pub enum AsNormError {
    Io { path: String, detail: String },
}

impl AsNormError {
    pub open spec fn message_spec(&self) -> Seq<char> {
        match self {
            AsNormError::Io { path, detail } => "as-norm cohort io error on "@ + path@ + ": "@
                + detail@,
        }
    }

    /// The human-readable message of the error.
    pub fn message(&self) -> (m: String)
        ensures
            m@ == self.message_spec(),
    {
        let mut m = String::new();
        match self {
            AsNormError::Io { path, detail } => {
                m.append("as-norm cohort io error on ");
                m.append(path.as_str());
                m.append(": ");
                m.append(detail.as_str());
            },
        }
        m
    }
}

/// Errors loading or applying a PLDA model.
#[derive(Clone, Debug, PartialEq, Eq)]
pub enum PldaError {
    Io { path: String, detail: String },
    Shape { name: String, expected: String, actual: String },
}

impl PldaError {
    pub open spec fn message_spec(&self) -> Seq<char> {
        match self {
            PldaError::Io { path, detail } => "plda param io error on "@ + path@ + ": "@ + detail@,
            PldaError::Shape { name, expected, actual } => "plda param "@ + name@
                + " has wrong shape: expected "@ + expected@ + ", got "@ + actual@,
        }
    }

    /// The human-readable message of the error.
    pub fn message(&self) -> (m: String)
        ensures
            m@ == self.message_spec(),
    {
        let mut m = String::new();
        match self {
            PldaError::Io { path, detail } => {
                m.append("plda param io error on ");
                m.append(path.as_str());
                m.append(": ");
                m.append(detail.as_str());
            },
            PldaError::Shape { name, expected, actual } => {
                m.append("plda param ");
                m.append(name.as_str());
                m.append(" has wrong shape: expected ");
                m.append(expected.as_str());
                m.append(", got ");
                m.append(actual.as_str());
            },
        }
        m
    }
}

} // verus!
