//! What the command-line options ask for, and which combinations make sense.

use crate::text;
use vstd::arithmetic::power2;
use vstd::prelude::*;

verus! {

/// The kind of vectors in a dataset.
#[derive(Clone, Copy, Debug, PartialEq, Eq, Structural)]
pub enum DatasetType {
    Dense,
    Sparse,
}

/// How stored values are represented.
///
/// Dense plain datasets have `f32` or `f16`, sparse plain ones any of these. Other encoders choose
/// for themselves.
#[derive(Clone, Copy, Debug, PartialEq, Eq, Structural)]
pub enum ValueTypeArg {
    F16,
    F32,
    Fixedu8,
    Fixedu16,
}

impl Default for ValueTypeArg {
    fn default() -> (d: Self)
        ensures
            d == ValueTypeArg::F32,
    {
        ValueTypeArg::F32
    }
}

/// How vectors are encoded.
#[derive(Clone, Copy, Debug, PartialEq, Eq, Structural)]
pub enum EncoderType {
    Plain,
    Pq,
    Dotvbyte,
    Dotpacking8Scalaru8,
    BlockedSparse,
    DotpackingSparseScalaru8,
}

impl Default for EncoderType {
    fn default() -> (d: Self)
        ensures
            d == EncoderType::Plain,
    {
        EncoderType::Plain
    }
}

/// How the components of sparse vectors are represented.
#[derive(Clone, Copy, Debug, PartialEq, Eq, Structural)]
pub enum ComponentTypeArg {
    U16,
    U32,
}

impl Default for ComponentTypeArg {
    fn default() -> (d: Self)
        ensures
            d == ComponentTypeArg::U16,
    {
        ComponentTypeArg::U16
    }
}

/// How distances are measured.
#[derive(Clone, Copy, Debug, PartialEq, Eq, Structural)]
pub enum DistanceKind {
    Euclidean,
    DotProduct,
}

/// What is wrong with the options.
#[derive(Clone, Copy, Debug, PartialEq, Eq, Structural)]
pub enum OptionError {
    PqNeedsDense,
    DotvbyteNeedsSparse,
    Dotpacking8NeedsSparse,
    BlockedSparseNeedsSparse,
    DotpackingSparseNeedsSparse,
    FixedNeedsSparse,
    ComponentNeedsSparse,
    DotvbyteNeedsU16,
    Dotpacking8NeedsU16,
    BlockedSparseNeedsU16,
    DotpackingSparseNeedsU16,
    InvalidDistance,
    ZeroZetaK,
    ConvertNeedsSparseTarget,
    DotvbyteNeedsDotProduct,
    Dotpacking8NeedsDotProduct,
    BlockedSparseNeedsDotProduct,
    DotpackingSparseNeedsDotProduct,
    InvalidSubspaces,
}

/// What the user is told.
pub open spec fn error_text(e: OptionError) -> Seq<char> {
    match e {
        OptionError::PqNeedsDense => "Error: PQ encoder is only available for dense vectors."@,
        OptionError::DotvbyteNeedsSparse =>
            "Error: DotVByte encoder is only available for sparse vectors."@,
        OptionError::Dotpacking8NeedsSparse =>
            "Error: DotPacking8 encoder is only available for sparse vectors."@,
        OptionError::BlockedSparseNeedsSparse =>
            "Error: BlockedSparse encoder is only available for sparse vectors."@,
        OptionError::DotpackingSparseNeedsSparse =>
            "Error: DotPackingSparse encoder is only available for sparse vectors."@,
        OptionError::FixedNeedsSparse =>
            "Error: fixedu8/fixedu16 value types are only available for sparse vectors."@,
        OptionError::ComponentNeedsSparse =>
            "Error: component-type is only applicable to sparse datasets."@,
        OptionError::DotvbyteNeedsU16 =>
            "Error: DotVByte encoder supports only component-type u16."@,
        OptionError::Dotpacking8NeedsU16 =>
            "Error: DotPacking8 encoder supports only component-type u16."@,
        OptionError::BlockedSparseNeedsU16 =>
            "Error: BlockedSparse encoder supports only component-type u16."@,
        OptionError::DotpackingSparseNeedsU16 =>
            "Error: DotPackingSparse encoder supports only component-type u16."@,
        OptionError::InvalidDistance =>
            "Error: Invalid distance type. Choose between 'euclidean' and 'dotproduct'."@,
        OptionError::ZeroZetaK => "Error: --zeta-k must be greater than 0."@,
        OptionError::ConvertNeedsSparseTarget =>
            "Error: --convert-in-memory only supports sparse blocked-sparse / dotpacking8-sparse-scalar encoders."@,
        OptionError::DotvbyteNeedsDotProduct =>
            "Error: DotVByte encoder only supports dotproduct distance."@,
        OptionError::Dotpacking8NeedsDotProduct =>
            "Error: DotPacking8 encoder only supports dotproduct distance."@,
        OptionError::BlockedSparseNeedsDotProduct =>
            "Error: BlockedSparse encoder only supports dotproduct distance."@,
        OptionError::DotpackingSparseNeedsDotProduct =>
            "Error: DotPackingSparse encoder only supports dotproduct distance."@,
        OptionError::InvalidSubspaces =>
            "Error: Invalid pq-subspaces value. Choose between 4, 8, 16, 32, 48, 64, 96, 128, 192, 256, 384."@,
    }
}

impl OptionError {
    /// What the user is told.
    pub fn message(&self) -> (text: &'static str)
        ensures
            text@ == error_text(*self),
    {
        match self {
            OptionError::PqNeedsDense => "Error: PQ encoder is only available for dense vectors.",
            OptionError::DotvbyteNeedsSparse =>
                "Error: DotVByte encoder is only available for sparse vectors.",
            OptionError::Dotpacking8NeedsSparse =>
                "Error: DotPacking8 encoder is only available for sparse vectors.",
            OptionError::BlockedSparseNeedsSparse =>
                "Error: BlockedSparse encoder is only available for sparse vectors.",
            OptionError::DotpackingSparseNeedsSparse =>
                "Error: DotPackingSparse encoder is only available for sparse vectors.",
            OptionError::FixedNeedsSparse =>
                "Error: fixedu8/fixedu16 value types are only available for sparse vectors.",
            OptionError::ComponentNeedsSparse =>
                "Error: component-type is only applicable to sparse datasets.",
            OptionError::DotvbyteNeedsU16 =>
                "Error: DotVByte encoder supports only component-type u16.",
            OptionError::Dotpacking8NeedsU16 =>
                "Error: DotPacking8 encoder supports only component-type u16.",
            OptionError::BlockedSparseNeedsU16 =>
                "Error: BlockedSparse encoder supports only component-type u16.",
            OptionError::DotpackingSparseNeedsU16 =>
                "Error: DotPackingSparse encoder supports only component-type u16.",
            OptionError::InvalidDistance =>
                "Error: Invalid distance type. Choose between 'euclidean' and 'dotproduct'.",
            OptionError::ZeroZetaK => "Error: --zeta-k must be greater than 0.",
            OptionError::ConvertNeedsSparseTarget =>
                "Error: --convert-in-memory only supports sparse blocked-sparse / dotpacking8-sparse-scalar encoders.",
            OptionError::DotvbyteNeedsDotProduct =>
                "Error: DotVByte encoder only supports dotproduct distance.",
            OptionError::Dotpacking8NeedsDotProduct =>
                "Error: DotPacking8 encoder only supports dotproduct distance.",
            OptionError::BlockedSparseNeedsDotProduct =>
                "Error: BlockedSparse encoder only supports dotproduct distance.",
            OptionError::DotpackingSparseNeedsDotProduct =>
                "Error: DotPackingSparse encoder only supports dotproduct distance.",
            OptionError::InvalidSubspaces =>
                "Error: Invalid pq-subspaces value. Choose between 4, 8, 16, 32, 48, 64, 96, 128, 192, 256, 384.",
        }
    }
}

/// The name of a value type on the command line.
pub open spec fn value_type_text(v: ValueTypeArg) -> Seq<char> {
    match v {
        ValueTypeArg::F16 => "f16"@,
        ValueTypeArg::F32 => "f32"@,
        ValueTypeArg::Fixedu8 => "fixedu8"@,
        ValueTypeArg::Fixedu16 => "fixedu16"@,
    }
}

impl ValueTypeArg {
    /// The name of the value type on the command line.
    pub fn name(&self) -> (text: &'static str)
        ensures
            text@ == value_type_text(*self),
    {
        match self {
            ValueTypeArg::F16 => "f16",
            ValueTypeArg::F32 => "f32",
            ValueTypeArg::Fixedu8 => "fixedu8",
            ValueTypeArg::Fixedu16 => "fixedu16",
        }
    }
}

/// The name of an encoder on the command line.
pub open spec fn encoder_text(e: EncoderType) -> Seq<char> {
    match e {
        EncoderType::Plain => "plain"@,
        EncoderType::Pq => "pq"@,
        EncoderType::Dotvbyte => "dotvbyte"@,
        EncoderType::Dotpacking8Scalaru8 => "dotpacking8-scalaru8"@,
        EncoderType::BlockedSparse => "blocked-sparse"@,
        EncoderType::DotpackingSparseScalaru8 => "dotpacking8-sparse-scalar"@,
    }
}

impl EncoderType {
    /// The name of the encoder on the command line.
    pub fn name(&self) -> (text: &'static str)
        ensures
            text@ == encoder_text(*self),
    {
        match self {
            EncoderType::Plain => "plain",
            EncoderType::Pq => "pq",
            EncoderType::Dotvbyte => "dotvbyte",
            EncoderType::Dotpacking8Scalaru8 => "dotpacking8-scalaru8",
            EncoderType::BlockedSparse => "blocked-sparse",
            EncoderType::DotpackingSparseScalaru8 => "dotpacking8-sparse-scalar",
        }
    }
}

/// The distance that a name stands for.
pub open spec fn metric_of(name: Seq<char>) -> Option<DistanceKind> {
    if name == "euclidean"@ || name == "l2"@ {
        Some(DistanceKind::Euclidean)
    } else if name == "dotproduct"@ || name == "ip"@ {
        Some(DistanceKind::DotProduct)
    } else {
        None
    }
}

/// The distance that a name stands for.
pub fn parse_metric(metric: &str) -> (kind: Result<DistanceKind, OptionError>)
    ensures
        kind == match metric_of(metric@) {
            Some(k) => Ok(k),
            None => Err(OptionError::InvalidDistance),
        },
{
    if text::is_same(metric, "euclidean") || text::is_same(metric, "l2") {
        Ok(DistanceKind::Euclidean)
    } else if text::is_same(metric, "dotproduct") || text::is_same(metric, "ip") {
        Ok(DistanceKind::DotProduct)
    } else {
        Err(OptionError::InvalidDistance)
    }
}

/// What is stored in an index.
#[derive(Clone, Copy, Debug, PartialEq, Eq, Structural)]
pub struct Storage {
    pub dataset_type: DatasetType,
    pub encoder: EncoderType,
    pub value_type: ValueTypeArg,
    pub component_type: ComponentTypeArg,
}

/// The encoder works on sparse vectors only; what the user is told otherwise.
pub open spec fn sparse_only(e: EncoderType) -> Option<OptionError> {
    match e {
        EncoderType::Dotvbyte => Some(OptionError::DotvbyteNeedsSparse),
        EncoderType::Dotpacking8Scalaru8 => Some(OptionError::Dotpacking8NeedsSparse),
        EncoderType::BlockedSparse => Some(OptionError::BlockedSparseNeedsSparse),
        EncoderType::DotpackingSparseScalaru8 => Some(OptionError::DotpackingSparseNeedsSparse),
        _ => None,
    }
}

/// The encoder works with 16-bit components only; what the user is told otherwise.
pub open spec fn u16_only(e: EncoderType) -> Option<OptionError> {
    match e {
        EncoderType::Dotvbyte => Some(OptionError::DotvbyteNeedsU16),
        EncoderType::Dotpacking8Scalaru8 => Some(OptionError::Dotpacking8NeedsU16),
        EncoderType::BlockedSparse => Some(OptionError::BlockedSparseNeedsU16),
        EncoderType::DotpackingSparseScalaru8 => Some(OptionError::DotpackingSparseNeedsU16),
        _ => None,
    }
}

/// The encoder works with dot products only; what the user is told otherwise.
pub open spec fn dot_product_only(e: EncoderType) -> Option<OptionError> {
    match e {
        EncoderType::Dotvbyte => Some(OptionError::DotvbyteNeedsDotProduct),
        EncoderType::Dotpacking8Scalaru8 => Some(OptionError::Dotpacking8NeedsDotProduct),
        EncoderType::BlockedSparse => Some(OptionError::BlockedSparseNeedsDotProduct),
        EncoderType::DotpackingSparseScalaru8 => Some(OptionError::DotpackingSparseNeedsDotProduct),
        _ => None,
    }
}

/// What is wrong with a combination, if anything.
pub open spec fn storage_fault(s: Storage) -> Option<OptionError> {
    match s.dataset_type {
        DatasetType::Sparse => if s.encoder == EncoderType::Pq {
            Some(OptionError::PqNeedsDense)
        } else if s.component_type != ComponentTypeArg::U16 {
            u16_only(s.encoder)
        } else {
            None
        },
        DatasetType::Dense => if sparse_only(s.encoder) is Some {
            sparse_only(s.encoder)
        } else if s.encoder == EncoderType::Plain && (s.value_type == ValueTypeArg::Fixedu8
            || s.value_type == ValueTypeArg::Fixedu16) {
            Some(OptionError::FixedNeedsSparse)
        } else if s.component_type != ComponentTypeArg::U16 {
            Some(OptionError::ComponentNeedsSparse)
        } else {
            None
        },
    }
}

/// Tells what is wrong with a combination of dataset, encoder and types.
pub fn check_storage(s: &Storage) -> (r: Result<(), OptionError>)
    ensures
        r == match storage_fault(*s) {
            Some(e) => Err(e),
            None => Ok(()),
        },
{
    let is_u16 = s.component_type == ComponentTypeArg::U16;
    match (s.dataset_type, s.encoder) {
        (DatasetType::Sparse, EncoderType::Pq) => Err(OptionError::PqNeedsDense),
        (DatasetType::Dense, EncoderType::Dotvbyte) => Err(OptionError::DotvbyteNeedsSparse),
        (DatasetType::Dense, EncoderType::Dotpacking8Scalaru8) => Err(
            OptionError::Dotpacking8NeedsSparse,
        ),
        (DatasetType::Dense, EncoderType::BlockedSparse) => Err(
            OptionError::BlockedSparseNeedsSparse,
        ),
        (DatasetType::Dense, EncoderType::DotpackingSparseScalaru8) => Err(
            OptionError::DotpackingSparseNeedsSparse,
        ),
        (DatasetType::Dense, EncoderType::Plain) => if s.value_type == ValueTypeArg::Fixedu8
            || s.value_type == ValueTypeArg::Fixedu16 {
            Err(OptionError::FixedNeedsSparse)
        } else if !is_u16 {
            Err(OptionError::ComponentNeedsSparse)
        } else {
            Ok(())
        },
        (DatasetType::Dense, EncoderType::Pq) => if !is_u16 {
            Err(OptionError::ComponentNeedsSparse)
        } else {
            Ok(())
        },
        (DatasetType::Sparse, EncoderType::Plain) => Ok(()),
        (DatasetType::Sparse, EncoderType::Dotvbyte) => if !is_u16 {
            Err(OptionError::DotvbyteNeedsU16)
        } else {
            Ok(())
        },
        (DatasetType::Sparse, EncoderType::Dotpacking8Scalaru8) => if !is_u16 {
            Err(OptionError::Dotpacking8NeedsU16)
        } else {
            Ok(())
        },
        (DatasetType::Sparse, EncoderType::BlockedSparse) => if !is_u16 {
            Err(OptionError::BlockedSparseNeedsU16)
        } else {
            Ok(())
        },
        (DatasetType::Sparse, EncoderType::DotpackingSparseScalaru8) => if !is_u16 {
            Err(OptionError::DotpackingSparseNeedsU16)
        } else {
            Ok(())
        },
    }
}

/// The kind of index that the options ask for.
#[derive(Clone, Copy, Debug, PartialEq, Eq, Structural)]
pub enum IndexKind {
    /// Dense vectors of `f32` or `f16`.
    DensePlain { value_type: ValueTypeArg },
    /// Dense vectors in so many quantized parts.
    DensePq { subspaces: usize },
    /// Sparse vectors as they are.
    SparsePlain { value_type: ValueTypeArg, component_type: ComponentTypeArg },
    /// Sparse vectors packed by an encoder.
    SparsePacked { encoder: EncoderType },
}

/// The numbers of parts that dense vectors can be quantized in.
pub open spec fn is_valid_subspaces(m: usize) -> bool {
    m == 4 || m == 8 || m == 16 || m == 32 || m == 48 || m == 64 || m == 96 || m == 128 || m == 192
        || m == 256 || m == 384
}

/// The kind of index that a sensible combination asks for.
pub open spec fn kind_of(
    s: Storage,
    metric: DistanceKind,
    subspaces: usize,
) -> Result<IndexKind, OptionError> {
    match s.encoder {
        EncoderType::Plain => if s.dataset_type == DatasetType::Dense {
            Ok(IndexKind::DensePlain { value_type: s.value_type })
        } else {
            Ok(
                IndexKind::SparsePlain {
                    value_type: s.value_type,
                    component_type: s.component_type,
                },
            )
        },
        EncoderType::Pq => if is_valid_subspaces(subspaces) {
            Ok(IndexKind::DensePq { subspaces })
        } else {
            Err(OptionError::InvalidSubspaces)
        },
        _ => if metric == DistanceKind::DotProduct {
            Ok(IndexKind::SparsePacked { encoder: s.encoder })
        } else {
            Err(dot_product_only(s.encoder)->0)
        },
    }
}

/// The kind of index that a sensible combination asks for.
fn choose_kind(s: &Storage, metric: DistanceKind, subspaces: usize) -> (r: Result<
    IndexKind,
    OptionError,
>)
    ensures
        r == kind_of(*s, metric, subspaces),
{
    match s.encoder {
        EncoderType::Plain => if s.dataset_type == DatasetType::Dense {
            Ok(IndexKind::DensePlain { value_type: s.value_type })
        } else {
            Ok(
                IndexKind::SparsePlain {
                    value_type: s.value_type,
                    component_type: s.component_type,
                },
            )
        },
        EncoderType::Pq => if subspaces == 4 || subspaces == 8 || subspaces == 16 || subspaces == 32
            || subspaces == 48 || subspaces == 64 || subspaces == 96 || subspaces == 128
            || subspaces == 192 || subspaces == 256 || subspaces == 384 {
            Ok(IndexKind::DensePq { subspaces })
        } else {
            Err(OptionError::InvalidSubspaces)
        },
        encoder => if metric == DistanceKind::DotProduct {
            Ok(IndexKind::SparsePacked { encoder })
        } else {
            match encoder {
                EncoderType::Dotvbyte => Err(OptionError::DotvbyteNeedsDotProduct),
                EncoderType::Dotpacking8Scalaru8 => Err(OptionError::Dotpacking8NeedsDotProduct),
                EncoderType::BlockedSparse => Err(OptionError::BlockedSparseNeedsDotProduct),
                _ => Err(OptionError::DotpackingSparseNeedsDotProduct),
            }
        },
    }
}

/// An index to be loaded, and how its distances are measured.
#[derive(Clone, Copy, Debug, PartialEq, Eq, Structural)]
pub struct IndexPlan {
    pub kind: IndexKind,
    pub metric: DistanceKind,
}

/// The index that the options ask for.
pub open spec fn index_plan(
    s: Storage,
    metric_name: Seq<char>,
    subspaces: usize,
) -> Result<IndexPlan, OptionError> {
    match storage_fault(s) {
        Some(e) => Err(e),
        None => match metric_of(metric_name) {
            None => Err(OptionError::InvalidDistance),
            Some(metric) => match kind_of(s, metric, subspaces) {
                Ok(kind) => Ok(IndexPlan { kind, metric }),
                Err(e) => Err(e),
            },
        },
    }
}

/// The index that the options ask for.
///
/// The combination is checked first, then the distance, then what the encoder needs.
pub fn plan_index(s: &Storage, metric_name: &str, subspaces: usize) -> (r: Result<
    IndexPlan,
    OptionError,
>)
    ensures
        r == index_plan(*s, metric_name@, subspaces),
{
    match check_storage(s) {
        Err(e) => Err(e),
        Ok(_) => match parse_metric(metric_name) {
            Err(e) => Err(e),
            Ok(metric) => match choose_kind(s, metric, subspaces) {
                Ok(kind) => Ok(IndexPlan { kind, metric }),
                Err(e) => Err(e),
            },
        },
    }
}

/// What a search loads, and whether it converts it first.
#[derive(Clone, Copy, Debug, PartialEq, Eq, Structural)]
pub enum SearchPlan {
    /// An index is loaded as it is.
    Load { index: IndexPlan },
    /// An index of plain `f16` vectors is loaded, and becomes one of blocked sparse vectors.
    ConvertToBlockedSparse,
    /// An index of packed vectors is loaded, and becomes one of packed sparse vectors.
    ConvertToDotpackingSparse,
}

/// What the options of a search ask for.
pub open spec fn search_plan(
    s: Storage,
    metric_name: Seq<char>,
    subspaces: usize,
    zeta_k: usize,
    convert_in_memory: bool,
) -> Result<SearchPlan, OptionError> {
    match storage_fault(s) {
        Some(e) => Err(e),
        None => match metric_of(metric_name) {
            None => Err(OptionError::InvalidDistance),
            Some(metric) => if zeta_k == 0 {
                Err(OptionError::ZeroZetaK)
            } else if convert_in_memory {
                if s.dataset_type == DatasetType::Sparse && s.encoder
                    == EncoderType::BlockedSparse {
                    Ok(SearchPlan::ConvertToBlockedSparse)
                } else if s.dataset_type == DatasetType::Sparse && s.encoder
                    == EncoderType::DotpackingSparseScalaru8 {
                    Ok(SearchPlan::ConvertToDotpackingSparse)
                } else {
                    Err(OptionError::ConvertNeedsSparseTarget)
                }
            } else {
                match kind_of(s, metric, subspaces) {
                    Ok(kind) => Ok(SearchPlan::Load { index: IndexPlan { kind, metric } }),
                    Err(e) => Err(e),
                }
            },
        },
    }
}

/// What the options of a search ask for.
pub fn plan_search(
    s: &Storage,
    metric_name: &str,
    subspaces: usize,
    zeta_k: usize,
    convert_in_memory: bool,
) -> (r: Result<SearchPlan, OptionError>)
    ensures
        r == search_plan(*s, metric_name@, subspaces, zeta_k, convert_in_memory),
{
    match check_storage(s) {
        Err(e) => {
            return Err(e);
        },
        Ok(_) => {},
    }
    let metric = match parse_metric(metric_name) {
        Err(e) => {
            return Err(e);
        },
        Ok(metric) => metric,
    };
    if zeta_k == 0 {
        return Err(OptionError::ZeroZetaK);
    }
    if convert_in_memory {
        return match (s.dataset_type, s.encoder) {
            (DatasetType::Sparse, EncoderType::BlockedSparse) => Ok(
                SearchPlan::ConvertToBlockedSparse,
            ),
            (DatasetType::Sparse, EncoderType::DotpackingSparseScalaru8) => Ok(
                SearchPlan::ConvertToDotpackingSparse,
            ),
            _ => Err(OptionError::ConvertNeedsSparseTarget),
        };
    }
    match choose_kind(s, metric, subspaces) {
        Ok(kind) => Ok(SearchPlan::Load { index: IndexPlan { kind, metric } }),
        Err(e) => Err(e),
    }
}

/// A plan is made only for what can be stored: quantized dense vectors have a valid number of
/// parts, dense plain vectors have `f32` or `f16`, and packed vectors come with dot products.
pub proof fn law_planned_index_is_sensible(s: Storage, metric_name: Seq<char>, subspaces: usize)
    ensures
        index_plan(s, metric_name, subspaces) matches Ok(plan) ==> match plan.kind {
            IndexKind::DensePlain { value_type } => s.dataset_type == DatasetType::Dense && (
            value_type == ValueTypeArg::F32 || value_type == ValueTypeArg::F16),
            IndexKind::DensePq { subspaces } => s.dataset_type == DatasetType::Dense
                && is_valid_subspaces(subspaces),
            IndexKind::SparsePlain { value_type, component_type } => s.dataset_type
                == DatasetType::Sparse,
            IndexKind::SparsePacked { encoder } => s.dataset_type == DatasetType::Sparse
                && s.component_type == ComponentTypeArg::U16 && plan.metric
                == DistanceKind::DotProduct && sparse_only(encoder) is Some,
        },
{
}

/// The numbers of parts are the powers of two from 4 to 256, and three times those from 16 to 128.
pub proof fn law_subspaces_are_regular(m: usize)
    ensures
        is_valid_subspaces(m) <==> exists|a: nat|
            2 <= a <= 8 && m == #[trigger] power2::pow2(a) || 4 <= a <= 7 && m == 3
                * power2::pow2(a),
{
    power2::lemma2_to64();
    assert(is_valid_subspaces(m) ==> {
        ||| m == power2::pow2(2)
        ||| m == power2::pow2(3)
        ||| m == power2::pow2(4) || m == 3 * power2::pow2(4)
        ||| m == power2::pow2(5) || m == 3 * power2::pow2(5)
        ||| m == power2::pow2(6) || m == 3 * power2::pow2(6)
        ||| m == power2::pow2(7) || m == 3 * power2::pow2(7)
        ||| m == power2::pow2(8)
    });
}

/// The name of a distance that can be measured.
pub open spec fn is_metric_name(name: Seq<char>) -> bool {
    name == "euclidean"@ || name == "l2"@ || name == "dotproduct"@ || name == "ip"@
}

/// What can be stored, and how it can be measured.
///
/// Dense vectors are stored as `f32` or `f16`, or quantized in parts; sparse ones in any type, or
/// packed. Only sparse vectors that are not packed have a choice of components, and packed ones
/// are measured by dot products.
pub open spec fn is_sensible(s: Storage, metric_name: Seq<char>, subspaces: usize) -> bool {
    &&& is_metric_name(metric_name)
    &&& match (s.dataset_type, s.encoder) {
        (DatasetType::Dense, EncoderType::Plain) => s.component_type == ComponentTypeArg::U16 && (
        s.value_type == ValueTypeArg::F32 || s.value_type == ValueTypeArg::F16),
        (DatasetType::Dense, EncoderType::Pq) => s.component_type == ComponentTypeArg::U16
            && is_valid_subspaces(subspaces),
        (DatasetType::Dense, _) => false,
        (DatasetType::Sparse, EncoderType::Plain) => true,
        (DatasetType::Sparse, EncoderType::Pq) => false,
        (DatasetType::Sparse, _) => s.component_type == ComponentTypeArg::U16 && (metric_name
            == "dotproduct"@ || metric_name == "ip"@),
    }
}

/// Every sensible combination is planned, and no other; and the plan is for what was asked for.
pub proof fn law_sensible_options_are_planned(s: Storage, metric_name: Seq<char>, subspaces: usize)
    ensures
        index_plan(s, metric_name, subspaces) is Ok <==> is_sensible(s, metric_name, subspaces),
        index_plan(s, metric_name, subspaces) matches Ok(plan) ==> {
            &&& plan.metric == DistanceKind::DotProduct <==> metric_name == "dotproduct"@
                || metric_name == "ip"@
            &&& plan.kind is DensePlain <==> s.dataset_type == DatasetType::Dense && s.encoder
                == EncoderType::Plain
            &&& plan.kind is DensePq <==> s.encoder == EncoderType::Pq
            &&& plan.kind is SparsePlain <==> s.dataset_type == DatasetType::Sparse && s.encoder
                == EncoderType::Plain
            &&& match plan.kind {
                IndexKind::DensePlain { value_type } => value_type == s.value_type,
                IndexKind::DensePq { subspaces: parts } => parts == subspaces,
                IndexKind::SparsePlain { value_type, component_type } => value_type == s.value_type
                    && component_type == s.component_type,
                IndexKind::SparsePacked { encoder } => encoder == s.encoder,
            }
        },
{
    lemma_metric_names_differ();
}

/// No name stands for both distances.
proof fn lemma_metric_names_differ()
    ensures
        "dotproduct"@ != "euclidean"@,
        "dotproduct"@ != "l2"@,
        "ip"@ != "euclidean"@,
        "ip"@ != "l2"@,
{
    reveal_strlit("euclidean");
    reveal_strlit("l2");
    reveal_strlit("dotproduct");
    reveal_strlit("ip");
    assert("dotproduct"@[0] != "euclidean"@[0]);
    assert("ip"@[0] != "l2"@[0]);
}

/// A search that converts nothing loads the index that is planned for its options; one that
/// converts needs sparse vectors with an encoder that is converted to; and none is planned with a
/// parameter of zero.
pub proof fn law_search_plans_follow_index_plans(
    s: Storage,
    metric_name: Seq<char>,
    subspaces: usize,
    zeta_k: usize,
    convert_in_memory: bool,
)
    ensures
        ({
            let plan = search_plan(s, metric_name, subspaces, zeta_k, convert_in_memory);
            let index = index_plan(s, metric_name, subspaces);
            &&& zeta_k == 0 ==> plan is Err
            &&& zeta_k > 0 && !convert_in_memory ==> match index {
                Ok(index) => plan == Ok::<SearchPlan, OptionError>(SearchPlan::Load { index }),
                Err(e) => plan == Err::<SearchPlan, OptionError>(e),
            }
            &&& zeta_k > 0 && convert_in_memory ==> (plan is Ok <==> {
                &&& s.dataset_type == DatasetType::Sparse
                &&& s.component_type == ComponentTypeArg::U16
                &&& is_metric_name(metric_name)
                &&& s.encoder == EncoderType::BlockedSparse || s.encoder
                    == EncoderType::DotpackingSparseScalaru8
            })
            &&& plan matches Ok(SearchPlan::ConvertToBlockedSparse) ==> s.encoder
                == EncoderType::BlockedSparse
            &&& plan matches Ok(SearchPlan::ConvertToDotpackingSparse) ==> s.encoder
                == EncoderType::DotpackingSparseScalaru8
            &&& convert_in_memory && plan is Ok ==> !(plan->Ok_0 is Load)
        }),
{
}

/// When a search stops early.
#[derive(Clone, Copy, Debug, PartialEq, Eq, Structural)]
pub enum EarlyTerminationMethod {
    Never,
    DistanceAdaptive,
}

/// When a search stops early, with the parameter that it needs.
pub enum EarlyTerminationStrategy<R> {
    Never,
    DistanceAdaptive { lambda: R },
}

/// How a search is run.
pub struct SearchConfiguration<R> {
    pub ef_search: usize,
    pub early_termination: EarlyTerminationStrategy<R>,
}

/// How a search with these options is run.
pub fn create_search_config<R: Copy>(
    ef_search: usize,
    early_termination: EarlyTerminationMethod,
    lambda: R,
) -> (config: SearchConfiguration<R>)
    ensures
        config == (SearchConfiguration {
            ef_search,
            early_termination: match early_termination {
                EarlyTerminationMethod::Never => EarlyTerminationStrategy::Never,
                EarlyTerminationMethod::DistanceAdaptive =>
                    EarlyTerminationStrategy::DistanceAdaptive { lambda },
            },
        }),
{
    let early_termination = match early_termination {
        EarlyTerminationMethod::Never => EarlyTerminationStrategy::Never,
        EarlyTerminationMethod::DistanceAdaptive => EarlyTerminationStrategy::DistanceAdaptive {
            lambda,
        },
    };
    SearchConfiguration { ef_search, early_termination }
}

/// How many candidates are fetched before reranking: ten for each result, unless told otherwise.
pub fn candidates_to_rerank(k_candidates: Option<usize>, k: usize) -> (n: usize)
    requires
        k_candidates is None ==> k * 10 <= usize::MAX,
    ensures
        n == match k_candidates {
            Some(n) => n as int,
            None => k * 10,
        },
{
    match k_candidates {
        Some(n) => n,
        None => k * 10,
    }
}

} // verus!
