//! What the builder of inverted indexes is asked for.

use crate::options::ComponentTypeArg;
use crate::text;
use vstd::prelude::*;
use vstd::string::StringExecFns;

verus! {

/// How posting lists are shortened, on the command line.
#[derive(Clone, Copy, Debug, PartialEq, Eq, Structural)]
pub enum PruningStrategyClap {
    FixedSize,
    GlobalThreshold,
    CoiThreshold,
}

impl Default for PruningStrategyClap {
    fn default() -> (d: Self)
        ensures
            d == PruningStrategyClap::GlobalThreshold,
    {
        PruningStrategyClap::GlobalThreshold
    }
}

/// How the postings of a list are clustered, on the command line.
#[derive(Clone, Copy, Debug, PartialEq, Eq, Structural)]
pub enum ClusteringAlgorithmClap {
    RandomKmeans,
    RandomKmeansInvertedIndex,
    RandomKmeansInvertedIndexApprox,
}

impl Default for ClusteringAlgorithmClap {
    fn default() -> (d: Self)
        ensures
            d == ClusteringAlgorithmClap::RandomKmeansInvertedIndexApprox,
    {
        ClusteringAlgorithmClap::RandomKmeansInvertedIndexApprox
    }
}

/// How blocks are summarized, on the command line.
#[derive(Clone, Copy, Debug, PartialEq, Eq, Structural)]
pub enum SummarizationStrategyClap {
    EnergyPreserving,
    Medoid,
    FixedSize,
}

impl Default for SummarizationStrategyClap {
    fn default() -> (d: Self)
        ensures
            d == SummarizationStrategyClap::EnergyPreserving,
    {
        SummarizationStrategyClap::EnergyPreserving
    }
}

/// The options that shape an index; `R` holds fractions.
pub struct BuildOptions<R> {
    pub n_postings: usize,
    pub centroid_fraction: R,
    pub summarization_strategy: SummarizationStrategyClap,
    pub summary_energy: R,
    pub n_components: usize,
    pub clustering_algorithm: ClusteringAlgorithmClap,
    pub pruning_strategy: PruningStrategyClap,
    pub kmeans_pruning_factor: R,
    pub kmeans_doc_cut: usize,
    pub min_cluster_size: usize,
    pub alpha: R,
    pub max_fraction: R,
    pub knn: usize,
    pub knn_path: Option<String>,
}

/// How posting lists are shortened.
pub enum PruningStrategy<R> {
    FixedSize { n_postings: usize },
    GlobalThreshold { n_postings: usize, max_fraction: R },
    CoiThreshold { alpha: R, n_postings: usize },
}

/// How the postings of a list are clustered.
pub enum ClusteringAlgorithm<R> {
    RandomKmeans,
    RandomKmeansInvertedIndex { pruning_factor: R, doc_cut: usize },
    RandomKmeansInvertedIndexApprox { doc_cut: usize },
}

/// How blocks are summarized.
pub enum SummarizationStrategy<R> {
    EnergyPreserving { summary_energy: R },
    Medoid,
    FixedSize { n_components: usize },
}

/// How posting lists are cut into blocks.
pub struct BlockingStrategy<R> {
    pub centroid_fraction: R,
    pub min_cluster_size: usize,
    pub clustering_algorithm: ClusteringAlgorithm<R>,
}

/// How many neighbours are stored for each vector, and where they were computed before.
pub struct KnnConfiguration {
    pub nknn: usize,
    pub knn_path: Option<String>,
}

/// How an index is built.
pub struct Configuration<R> {
    pub pruning: PruningStrategy<R>,
    pub blocking: BlockingStrategy<R>,
    pub summarization: SummarizationStrategy<R>,
    pub knn: KnnConfiguration,
}

/// The pruning that the options ask for.
pub open spec fn pruning_of<R>(o: BuildOptions<R>) -> PruningStrategy<R> {
    match o.pruning_strategy {
        PruningStrategyClap::FixedSize => PruningStrategy::FixedSize { n_postings: o.n_postings },
        PruningStrategyClap::GlobalThreshold => PruningStrategy::GlobalThreshold {
            n_postings: o.n_postings,
            max_fraction: o.max_fraction,
        },
        PruningStrategyClap::CoiThreshold => PruningStrategy::CoiThreshold {
            alpha: o.alpha,
            n_postings: o.n_postings,
        },
    }
}

/// The clustering that the options ask for.
pub open spec fn clustering_of<R>(o: BuildOptions<R>) -> ClusteringAlgorithm<R> {
    match o.clustering_algorithm {
        ClusteringAlgorithmClap::RandomKmeansInvertedIndexApprox =>
            ClusteringAlgorithm::RandomKmeansInvertedIndexApprox { doc_cut: o.kmeans_doc_cut },
        ClusteringAlgorithmClap::RandomKmeansInvertedIndex =>
            ClusteringAlgorithm::RandomKmeansInvertedIndex {
                pruning_factor: o.kmeans_pruning_factor,
                doc_cut: o.kmeans_doc_cut,
            },
        ClusteringAlgorithmClap::RandomKmeans => ClusteringAlgorithm::RandomKmeans,
    }
}

/// The summaries that the options ask for.
pub open spec fn summarization_of<R>(o: BuildOptions<R>) -> SummarizationStrategy<R> {
    match o.summarization_strategy {
        SummarizationStrategyClap::EnergyPreserving => SummarizationStrategy::EnergyPreserving {
            summary_energy: o.summary_energy,
        },
        SummarizationStrategyClap::Medoid => SummarizationStrategy::Medoid,
        SummarizationStrategyClap::FixedSize => SummarizationStrategy::FixedSize {
            n_components: o.n_components,
        },
    }
}

/// Two optional texts are the same.
pub open spec fn same_path(a: Option<String>, b: Option<String>) -> bool {
    match (a, b) {
        (Some(a), Some(b)) => a@ == b@,
        (None, None) => true,
        _ => false,
    }
}

/// How an index with these options is built.
pub fn build_config<R: Copy>(o: &BuildOptions<R>) -> (config: Configuration<R>)
    ensures
        config.pruning == pruning_of(*o),
        config.blocking.centroid_fraction == o.centroid_fraction,
        config.blocking.min_cluster_size == o.min_cluster_size,
        config.blocking.clustering_algorithm == clustering_of(*o),
        config.summarization == summarization_of(*o),
        config.knn.nknn == o.knn,
        same_path(config.knn.knn_path, o.knn_path),
{
    let clustering_algorithm = match o.clustering_algorithm {
        ClusteringAlgorithmClap::RandomKmeansInvertedIndexApprox =>
            ClusteringAlgorithm::RandomKmeansInvertedIndexApprox { doc_cut: o.kmeans_doc_cut },
        ClusteringAlgorithmClap::RandomKmeansInvertedIndex =>
            ClusteringAlgorithm::RandomKmeansInvertedIndex {
                pruning_factor: o.kmeans_pruning_factor,
                doc_cut: o.kmeans_doc_cut,
            },
        ClusteringAlgorithmClap::RandomKmeans => ClusteringAlgorithm::RandomKmeans,
    };
    let pruning = match o.pruning_strategy {
        PruningStrategyClap::FixedSize => PruningStrategy::FixedSize { n_postings: o.n_postings },
        PruningStrategyClap::GlobalThreshold => PruningStrategy::GlobalThreshold {
            n_postings: o.n_postings,
            max_fraction: o.max_fraction,
        },
        PruningStrategyClap::CoiThreshold => PruningStrategy::CoiThreshold {
            alpha: o.alpha,
            n_postings: o.n_postings,
        },
    };
    let summarization = match o.summarization_strategy {
        SummarizationStrategyClap::EnergyPreserving => SummarizationStrategy::EnergyPreserving {
            summary_energy: o.summary_energy,
        },
        SummarizationStrategyClap::Medoid => SummarizationStrategy::Medoid,
        SummarizationStrategyClap::FixedSize => SummarizationStrategy::FixedSize {
            n_components: o.n_components,
        },
    };
    let knn_path = match &o.knn_path {
        Some(path) => Some(path.clone()),
        None => None,
    };
    Configuration {
        pruning,
        blocking: BlockingStrategy {
            centroid_fraction: o.centroid_fraction,
            min_cluster_size: o.min_cluster_size,
            clustering_algorithm,
        },
        summarization,
        knn: KnnConfiguration { nknn: o.knn, knn_path },
    }
}

/// How the values of an index are stored.
#[derive(Clone, Copy, Debug, PartialEq, Eq, Structural)]
pub enum Conversion {
    F32,
    F16,
    Bf16,
    Fixedu16,
    Fixedu8,
    BlockedSparse,
    Dotvbyte,
    DotvbyteScalar,
    DotvbyteOptimistic,
    DotvbyteOptimisticScalar,
    Dotpacking8Fixedu8,
    Dotpacking8Scalar,
    Dotpacking8SparseScalar,
    Dotpacking8Scalar4bit,
    Dotpacking8Centroid4bit,
    Dotpacking8OptimisticScalar,
    Dotpacking8F16,
    DotpackingsparseF16,
    PackedCentroid,
    PackedVariableUniform,
}

/// Which components a conversion can handle.
#[derive(Clone, Copy, Debug, PartialEq, Eq, Structural)]
pub enum ComponentNeed {
    OnlyU16,
    OnlyU32,
    Either,
}

/// What is wrong with the options.
#[derive(Clone, Copy, Debug, PartialEq, Eq, Structural)]
pub enum BuildError {
    /// The conversion cannot handle the components.
    WrongComponent { conversion: Conversion },
    /// The component type is not known.
    UnknownComponent,
    /// The value type is not known.
    UnknownValue,
}

/// An index to be built.
#[derive(Clone, Copy, Debug, PartialEq, Eq, Structural)]
pub struct BuildPlan {
    pub component_type: ComponentTypeArg,
    pub conversion: Conversion,
}

/// The packed value type that a name stands for.
pub open spec fn packed_conversion(name: Seq<char>) -> Option<Conversion> {
    if name == "blocked-sparse"@ {
        Some(Conversion::BlockedSparse)
    } else if name == "dotvbyte"@ {
        Some(Conversion::Dotvbyte)
    } else if name == "dotvbyte-scalar"@ {
        Some(Conversion::DotvbyteScalar)
    } else if name == "dotpacking8-fixedu8"@ {
        Some(Conversion::Dotpacking8Fixedu8)
    } else if name == "dotpacking8-scalar"@ {
        Some(Conversion::Dotpacking8Scalar)
    } else if name == "dotpacking8-sparse-scalar"@ {
        Some(Conversion::Dotpacking8SparseScalar)
    } else if name == "dotpacking8-scalar4bit"@ {
        Some(Conversion::Dotpacking8Scalar4bit)
    } else if name == "dotpacking8-centroid4bit"@ {
        Some(Conversion::Dotpacking8Centroid4bit)
    } else if name == "dotvbyte-optimistic"@ {
        Some(Conversion::DotvbyteOptimistic)
    } else if name == "dotvbyte-optimistic-scalar"@ {
        Some(Conversion::DotvbyteOptimisticScalar)
    } else if name == "dotpacking8-optimistic-scalar"@ {
        Some(Conversion::Dotpacking8OptimisticScalar)
    } else if name == "dotpacking8-f16"@ {
        Some(Conversion::Dotpacking8F16)
    } else if name == "dotpackingsparse-f16"@ {
        Some(Conversion::DotpackingsparseF16)
    } else if name == "packed-centroid"@ {
        Some(Conversion::PackedCentroid)
    } else if name == "packed-variable-uniform"@ {
        Some(Conversion::PackedVariableUniform)
    } else {
        None
    }
}

/// The plain value type that a name stands for.
pub open spec fn plain_conversion(name: Seq<char>) -> Option<Conversion> {
    if name == "f32"@ {
        Some(Conversion::F32)
    } else if name == "f16"@ {
        Some(Conversion::F16)
    } else if name == "bf16"@ {
        Some(Conversion::Bf16)
    } else if name == "fixedu16"@ {
        Some(Conversion::Fixedu16)
    } else if name == "fixedu8"@ {
        Some(Conversion::Fixedu8)
    } else {
        None
    }
}

/// Which components a conversion can handle.
pub open spec fn need_of(c: Conversion) -> ComponentNeed {
    match c {
        Conversion::F32
        | Conversion::F16
        | Conversion::Bf16
        | Conversion::Fixedu16
        | Conversion::Fixedu8
        | Conversion::Dotvbyte
        | Conversion::DotvbyteScalar => ComponentNeed::Either,
        Conversion::DotvbyteOptimistic
        | Conversion::DotvbyteOptimisticScalar
        | Conversion::Dotpacking8OptimisticScalar => ComponentNeed::OnlyU32,
        _ => ComponentNeed::OnlyU16,
    }
}

/// The component type that a name stands for.
pub open spec fn component_of(name: Seq<char>) -> Option<ComponentTypeArg> {
    if name == "u16"@ {
        Some(ComponentTypeArg::U16)
    } else if name == "u32"@ {
        Some(ComponentTypeArg::U32)
    } else {
        None
    }
}

/// The conversion can handle these components.
pub open spec fn can_handle(need: ComponentNeed, component_type: ComponentTypeArg) -> bool {
    match need {
        ComponentNeed::OnlyU16 => component_type == ComponentTypeArg::U16,
        ComponentNeed::OnlyU32 => component_type == ComponentTypeArg::U32,
        ComponentNeed::Either => true,
    }
}

/// The index that two names ask for.
pub open spec fn build_plan(
    value_type: Seq<char>,
    component_type: Seq<char>,
) -> Result<BuildPlan, BuildError> {
    match packed_conversion(value_type) {
        Some(conversion) => match component_of(component_type) {
            Some(component_type) => if can_handle(need_of(conversion), component_type) {
                Ok(BuildPlan { component_type, conversion })
            } else {
                Err(BuildError::WrongComponent { conversion })
            },
            None => Err(BuildError::WrongComponent { conversion }),
        },
        None => match component_of(component_type) {
            None => Err(BuildError::UnknownComponent),
            Some(component_type) => match plain_conversion(value_type) {
                Some(conversion) => Ok(BuildPlan { component_type, conversion }),
                None => Err(BuildError::UnknownValue),
            },
        },
    }
}

fn parse_packed(name: &str) -> (conversion: Option<Conversion>)
    ensures
        conversion == packed_conversion(name@),
{
    if text::is_same(name, "blocked-sparse") {
        Some(Conversion::BlockedSparse)
    } else if text::is_same(name, "dotvbyte") {
        Some(Conversion::Dotvbyte)
    } else if text::is_same(name, "dotvbyte-scalar") {
        Some(Conversion::DotvbyteScalar)
    } else if text::is_same(name, "dotpacking8-fixedu8") {
        Some(Conversion::Dotpacking8Fixedu8)
    } else if text::is_same(name, "dotpacking8-scalar") {
        Some(Conversion::Dotpacking8Scalar)
    } else if text::is_same(name, "dotpacking8-sparse-scalar") {
        Some(Conversion::Dotpacking8SparseScalar)
    } else if text::is_same(name, "dotpacking8-scalar4bit") {
        Some(Conversion::Dotpacking8Scalar4bit)
    } else if text::is_same(name, "dotpacking8-centroid4bit") {
        Some(Conversion::Dotpacking8Centroid4bit)
    } else if text::is_same(name, "dotvbyte-optimistic") {
        Some(Conversion::DotvbyteOptimistic)
    } else if text::is_same(name, "dotvbyte-optimistic-scalar") {
        Some(Conversion::DotvbyteOptimisticScalar)
    } else if text::is_same(name, "dotpacking8-optimistic-scalar") {
        Some(Conversion::Dotpacking8OptimisticScalar)
    } else if text::is_same(name, "dotpacking8-f16") {
        Some(Conversion::Dotpacking8F16)
    } else if text::is_same(name, "dotpackingsparse-f16") {
        Some(Conversion::DotpackingsparseF16)
    } else if text::is_same(name, "packed-centroid") {
        Some(Conversion::PackedCentroid)
    } else if text::is_same(name, "packed-variable-uniform") {
        Some(Conversion::PackedVariableUniform)
    } else {
        None
    }
}

fn parse_plain(name: &str) -> (conversion: Option<Conversion>)
    ensures
        conversion == plain_conversion(name@),
{
    if text::is_same(name, "f32") {
        Some(Conversion::F32)
    } else if text::is_same(name, "f16") {
        Some(Conversion::F16)
    } else if text::is_same(name, "bf16") {
        Some(Conversion::Bf16)
    } else if text::is_same(name, "fixedu16") {
        Some(Conversion::Fixedu16)
    } else if text::is_same(name, "fixedu8") {
        Some(Conversion::Fixedu8)
    } else {
        None
    }
}

fn parse_component(name: &str) -> (component_type: Option<ComponentTypeArg>)
    ensures
        component_type == component_of(name@),
{
    if text::is_same(name, "u16") {
        Some(ComponentTypeArg::U16)
    } else if text::is_same(name, "u32") {
        Some(ComponentTypeArg::U32)
    } else {
        None
    }
}

fn component_need(c: Conversion) -> (need: ComponentNeed)
    ensures
        need == need_of(c),
{
    match c {
        Conversion::F32
        | Conversion::F16
        | Conversion::Bf16
        | Conversion::Fixedu16
        | Conversion::Fixedu8
        | Conversion::Dotvbyte
        | Conversion::DotvbyteScalar => ComponentNeed::Either,
        Conversion::DotvbyteOptimistic
        | Conversion::DotvbyteOptimisticScalar
        | Conversion::Dotpacking8OptimisticScalar => ComponentNeed::OnlyU32,
        _ => ComponentNeed::OnlyU16,
    }
}

/// The name of a conversion on the command line.
pub open spec fn conversion_text(c: Conversion) -> Seq<char> {
    match c {
        Conversion::F32 => "f32"@,
        Conversion::F16 => "f16"@,
        Conversion::Bf16 => "bf16"@,
        Conversion::Fixedu16 => "fixedu16"@,
        Conversion::Fixedu8 => "fixedu8"@,
        Conversion::BlockedSparse => "blocked-sparse"@,
        Conversion::Dotvbyte => "dotvbyte"@,
        Conversion::DotvbyteScalar => "dotvbyte-scalar"@,
        Conversion::DotvbyteOptimistic => "dotvbyte-optimistic"@,
        Conversion::DotvbyteOptimisticScalar => "dotvbyte-optimistic-scalar"@,
        Conversion::Dotpacking8Fixedu8 => "dotpacking8-fixedu8"@,
        Conversion::Dotpacking8Scalar => "dotpacking8-scalar"@,
        Conversion::Dotpacking8SparseScalar => "dotpacking8-sparse-scalar"@,
        Conversion::Dotpacking8Scalar4bit => "dotpacking8-scalar4bit"@,
        Conversion::Dotpacking8Centroid4bit => "dotpacking8-centroid4bit"@,
        Conversion::Dotpacking8OptimisticScalar => "dotpacking8-optimistic-scalar"@,
        Conversion::Dotpacking8F16 => "dotpacking8-f16"@,
        Conversion::DotpackingsparseF16 => "dotpackingsparse-f16"@,
        Conversion::PackedCentroid => "packed-centroid"@,
        Conversion::PackedVariableUniform => "packed-variable-uniform"@,
    }
}

impl Conversion {
    /// The name of the conversion on the command line.
    pub fn name(&self) -> (text: &'static str)
        ensures
            text@ == conversion_text(*self),
    {
        match self {
            Conversion::F32 => "f32",
            Conversion::F16 => "f16",
            Conversion::Bf16 => "bf16",
            Conversion::Fixedu16 => "fixedu16",
            Conversion::Fixedu8 => "fixedu8",
            Conversion::BlockedSparse => "blocked-sparse",
            Conversion::Dotvbyte => "dotvbyte",
            Conversion::DotvbyteScalar => "dotvbyte-scalar",
            Conversion::DotvbyteOptimistic => "dotvbyte-optimistic",
            Conversion::DotvbyteOptimisticScalar => "dotvbyte-optimistic-scalar",
            Conversion::Dotpacking8Fixedu8 => "dotpacking8-fixedu8",
            Conversion::Dotpacking8Scalar => "dotpacking8-scalar",
            Conversion::Dotpacking8SparseScalar => "dotpacking8-sparse-scalar",
            Conversion::Dotpacking8Scalar4bit => "dotpacking8-scalar4bit",
            Conversion::Dotpacking8Centroid4bit => "dotpacking8-centroid4bit",
            Conversion::Dotpacking8OptimisticScalar => "dotpacking8-optimistic-scalar",
            Conversion::Dotpacking8F16 => "dotpacking8-f16",
            Conversion::DotpackingsparseF16 => "dotpackingsparse-f16",
            Conversion::PackedCentroid => "packed-centroid",
            Conversion::PackedVariableUniform => "packed-variable-uniform",
        }
    }
}

/// How the components that a conversion can handle are listed for the user.
pub open spec fn need_text(need: ComponentNeed) -> Seq<char> {
    match need {
        ComponentNeed::OnlyU16 => " requires component-type 'u16'."@,
        ComponentNeed::OnlyU32 => " requires component-type 'u32'."@,
        ComponentNeed::Either => " requires component-type 'u16' or 'u32'."@,
    }
}

/// What the user is told.
pub open spec fn build_error_text(e: BuildError) -> Seq<char> {
    match e {
        BuildError::WrongComponent { conversion } => "Error: "@ + conversion_text(conversion)
            + need_text(need_of(conversion)),
        BuildError::UnknownComponent =>
            "Error: component-type must be either 'u16' or 'u32'"@,
        BuildError::UnknownValue =>
            "Error: value-type must be 'f16', 'bf16', 'f32', 'fixedu16', or 'fixedu8'"@,
    }
}

impl BuildError {
    /// What the user is told.
    pub fn message(&self) -> (text: String)
        ensures
            text@ == build_error_text(*self),
    {
        match self {
            BuildError::WrongComponent { conversion } => {
                let mut text = String::from_str("Error: ");
                text.append(conversion.name());
                text.append(
                    match component_need(*conversion) {
                        ComponentNeed::OnlyU16 => " requires component-type 'u16'.",
                        ComponentNeed::OnlyU32 => " requires component-type 'u32'.",
                        ComponentNeed::Either => " requires component-type 'u16' or 'u32'.",
                    },
                );
                text
            },
            BuildError::UnknownComponent => String::from_str(
                "Error: component-type must be either 'u16' or 'u32'",
            ),
            BuildError::UnknownValue => String::from_str(
                "Error: value-type must be 'f16', 'bf16', 'f32', 'fixedu16', or 'fixedu8'",
            ),
        }
    }
}

/// The index that a value type and a component type ask for.
pub fn plan_build(value_type: &str, component_type: &str) -> (r: Result<BuildPlan, BuildError>)
    ensures
        r == build_plan(value_type@, component_type@),
{
    let component = parse_component(component_type);
    match parse_packed(value_type) {
        Some(conversion) => match (component_need(conversion), component) {
            (ComponentNeed::Either, Some(component_type)) => Ok(
                BuildPlan { component_type, conversion },
            ),
            (ComponentNeed::OnlyU16, Some(ComponentTypeArg::U16)) => Ok(
                BuildPlan { component_type: ComponentTypeArg::U16, conversion },
            ),
            (ComponentNeed::OnlyU32, Some(ComponentTypeArg::U32)) => Ok(
                BuildPlan { component_type: ComponentTypeArg::U32, conversion },
            ),
            _ => Err(BuildError::WrongComponent { conversion }),
        },
        None => match component {
            None => Err(BuildError::UnknownComponent),
            Some(component_type) => match parse_plain(value_type) {
                Some(conversion) => Ok(BuildPlan { component_type, conversion }),
                None => Err(BuildError::UnknownValue),
            },
        },
    }
}

/// An index is planned only with components that its conversion can handle.
pub proof fn law_planned_components_are_handled(value_type: Seq<char>, component_type: Seq<char>)
    ensures
        build_plan(value_type, component_type) matches Ok(plan) ==> can_handle(
            need_of(plan.conversion),
            plan.component_type,
        ),
{
}

/// Different names ask for different indexes.
pub proof fn law_plans_are_told_apart(
    value_type: Seq<char>,
    component_type: Seq<char>,
    other_value_type: Seq<char>,
    other_component_type: Seq<char>,
)
    requires
        build_plan(value_type, component_type) is Ok,
        build_plan(value_type, component_type) == build_plan(
            other_value_type,
            other_component_type,
        ),
    ensures
        value_type == other_value_type,
        component_type == other_component_type,
{
}

/// Plain values and the two plain `dotvbyte` packings come with 16-bit or 32-bit components; the
/// optimistic packings come with 32-bit ones only, and all others with 16-bit ones only.
pub proof fn law_components_of_plans(value_type: Seq<char>, component_type: Seq<char>)
    ensures
        build_plan(value_type, component_type) matches Ok(plan) ==> {
            &&& plan.component_type == ComponentTypeArg::U16 <==> component_type == "u16"@
            &&& match plan.conversion {
                Conversion::F32
                | Conversion::F16
                | Conversion::Bf16
                | Conversion::Fixedu16
                | Conversion::Fixedu8
                | Conversion::Dotvbyte
                | Conversion::DotvbyteScalar => component_type == "u16"@ || component_type
                    == "u32"@,
                Conversion::DotvbyteOptimistic
                | Conversion::DotvbyteOptimisticScalar
                | Conversion::Dotpacking8OptimisticScalar => component_type == "u32"@,
                _ => component_type == "u16"@,
            }
        },
        build_plan(value_type, component_type) == Err::<BuildPlan, BuildError>(
            BuildError::UnknownComponent,
        ) ==> component_type != "u16"@ && component_type != "u32"@,
        build_plan(value_type, component_type) == Err::<BuildPlan, BuildError>(
            BuildError::UnknownValue,
        ) ==> build_plan(value_type, "u16"@) is Err && build_plan(value_type, "u32"@) is Err,
        build_plan(value_type, component_type) matches Err(
            BuildError::WrongComponent { conversion },
        ) ==> {
            ||| component_type != "u16"@ && component_type != "u32"@
            ||| build_plan(value_type, "u16"@) is Ok && component_type == "u32"@
            ||| build_plan(value_type, "u32"@) is Ok && component_type == "u16"@
        },
{
    reveal_strlit("u16");
    reveal_strlit("u32");
    assert("u16"@[1] != "u32"@[1]);
}

/// The names and values of the settings that the training of packed quantizers reads.
pub open spec fn quant_settings(c: Conversion) -> Seq<(Seq<char>, Seq<char>)> {
    match c {
        Conversion::PackedCentroid => seq![
            ("QUANT_LOWER_PCT"@, "0"@),
            ("QUANT_UPPER_PCT"@, "1"@),
            ("QUANT_KMEANS_ITERS"@, "5"@),
        ],
        Conversion::PackedVariableUniform => seq![
            ("QUANT_LOWER_PCT"@, "0"@),
            ("QUANT_UPPER_PCT"@, "1"@),
            ("QUANT_NBITS"@, "4"@),
        ],
        _ => Seq::empty(),
    }
}

/// Pairs of texts as sequences.
pub open spec fn settings_view(settings: Seq<(&'static str, &'static str)>) -> Seq<
    (Seq<char>, Seq<char>),
> {
    settings.map_values(|s: (&'static str, &'static str)| (s.0@, s.1@))
}

/// The settings that have to be made before an index is converted.
pub fn packed_quant_settings(c: Conversion) -> (settings: Vec<(&'static str, &'static str)>)
    ensures
        settings_view(settings@) == quant_settings(c),
{
    let mut settings: Vec<(&'static str, &'static str)> = Vec::new();
    match c {
        Conversion::PackedCentroid => {
            settings.push(("QUANT_LOWER_PCT", "0"));
            settings.push(("QUANT_UPPER_PCT", "1"));
            settings.push(("QUANT_KMEANS_ITERS", "5"));
        },
        Conversion::PackedVariableUniform => {
            settings.push(("QUANT_LOWER_PCT", "0"));
            settings.push(("QUANT_UPPER_PCT", "1"));
            settings.push(("QUANT_NBITS", "4"));
        },
        _ => {},
    }
    assert(settings_view(settings@) =~= quant_settings(c));
    settings
}

/// Where an index is saved.
pub fn index_path(output_file: &str) -> (path: String)
    ensures
        path@ == output_file@ + ".index.seismic"@,
{
    let mut path = String::from_str(output_file);
    path.append(".index.seismic");
    path
}

/// How a dataset is encoded before a full scan.
#[derive(Clone, Copy, Debug, PartialEq, Eq, Structural)]
pub enum ScanEncoding {
    DotvbyteScalar,
    Dotvbyte,
}

/// The encoding that a name stands for.
pub open spec fn scan_encoding_of(name: Seq<char>) -> Option<ScanEncoding> {
    if name == "dotvbyte-scalar"@ {
        Some(ScanEncoding::DotvbyteScalar)
    } else if name == "dotvbyte"@ {
        Some(ScanEncoding::Dotvbyte)
    } else {
        None
    }
}

/// What the user is told of a name that stands for no encoding.
pub open spec fn scan_error_text(name: Seq<char>) -> Seq<char> {
    "Error: value-type must be 'dotvbyte-scalar' or 'dotvbyte'. Got: '"@ + name + "'"@
}

/// The encoding that a name stands for, or what the user is told if it stands for none.
pub fn scan_encoding(value_type: &str) -> (r: Result<ScanEncoding, String>)
    ensures
        match scan_encoding_of(value_type@) {
            Some(encoding) => r == Ok::<ScanEncoding, String>(encoding),
            None => r is Err && r->Err_0@ == scan_error_text(value_type@),
        },
{
    if text::is_same(value_type, "dotvbyte-scalar") {
        Ok(ScanEncoding::DotvbyteScalar)
    } else if text::is_same(value_type, "dotvbyte") {
        Ok(ScanEncoding::Dotvbyte)
    } else {
        let mut message = String::from_str(
            "Error: value-type must be 'dotvbyte-scalar' or 'dotvbyte'. Got: '",
        );
        message.append(value_type);
        message.append("'");
        Err(message)
    }
}

/// How many queries are run: as many as asked for, but no more than there are.
pub fn queries_to_run(asked: usize, available: usize) -> (n: usize)
    ensures
        n == if asked <= available {
            asked
        } else {
            available
        },
{
    if asked <= available {
        asked
    } else {
        available
    }
}

} // verus!
