//! Replay completeness grades and the replay evidence-class vocabulary.
//!
//! A completeness grade says how much of a production incident can be
//! replayed: fully, structurally (some classes reproduced, others omitted),
//! verifiably once missing artifacts are supplied, or for audit only. Grades
//! are built only through validating constructors and combine by a total,
//! conservative meet.

use vstd::prelude::*;
use crate::text::{decimal, push_decimal, push_text};

verus! {

/// Version of the replay-class vocabulary carried by completeness grades.
pub const REPLAY_CLASS_VOCABULARY_VERSION: u16 = 1;

/// Closed replay evidence-class vocabulary, in stable bytewise order.
///
/// `CryptoEntropy` names evidence that policy forbids recording: it may occur
/// in omitted or redacted diagnostics, never in a reproduced, present or
/// later-supplyable set.
#[derive(Clone, Copy, PartialEq, Eq, PartialOrd, Ord, Hash, Debug, Structural)]
pub enum ReplayClass {
    BoundQuery,
    CompilationTarget,
    CpuFeatureContract,
    CryptoEntropy,
    DecisionCards,
    DerivedGenerationSnapshots,
    DifferentialPrivacySeed,
    Evidence,
    ExecutableBinary,
    ExecutionSchedule,
    ExecutionSeed,
    KernelProfileRegistry,
    KeyMaterial,
    LanguageProfile,
    LogicalState,
    MediatedExternalInputs,
    MediatedNondeterminism,
    NormalizedQuery,
    NumericProfile,
    PlatformAbi,
    Policies,
    ReplayAuthoritySnapshot,
    ReproducibleBuildClosure,
    RoleBearingBindingSet,
    RuntimeAllocatorConfiguration,
    RustToolchain,
    ScalarProfile,
    SemanticProfile,
    SourceTree,
    StructuralControlFlow,
    StructuralDataShape,
    StructuralReplayProjection,
    TypedParameters,
    UdfModuleSet,
    VmJitCompilerArtifacts,
    WallClock,
}

/// Canonical position of a class in the vocabulary.
pub open spec fn class_index(class: ReplayClass) -> int {
    match class {
        ReplayClass::BoundQuery => 0,
        ReplayClass::CompilationTarget => 1,
        ReplayClass::CpuFeatureContract => 2,
        ReplayClass::CryptoEntropy => 3,
        ReplayClass::DecisionCards => 4,
        ReplayClass::DerivedGenerationSnapshots => 5,
        ReplayClass::DifferentialPrivacySeed => 6,
        ReplayClass::Evidence => 7,
        ReplayClass::ExecutableBinary => 8,
        ReplayClass::ExecutionSchedule => 9,
        ReplayClass::ExecutionSeed => 10,
        ReplayClass::KernelProfileRegistry => 11,
        ReplayClass::KeyMaterial => 12,
        ReplayClass::LanguageProfile => 13,
        ReplayClass::LogicalState => 14,
        ReplayClass::MediatedExternalInputs => 15,
        ReplayClass::MediatedNondeterminism => 16,
        ReplayClass::NormalizedQuery => 17,
        ReplayClass::NumericProfile => 18,
        ReplayClass::PlatformAbi => 19,
        ReplayClass::Policies => 20,
        ReplayClass::ReplayAuthoritySnapshot => 21,
        ReplayClass::ReproducibleBuildClosure => 22,
        ReplayClass::RoleBearingBindingSet => 23,
        ReplayClass::RuntimeAllocatorConfiguration => 24,
        ReplayClass::RustToolchain => 25,
        ReplayClass::ScalarProfile => 26,
        ReplayClass::SemanticProfile => 27,
        ReplayClass::SourceTree => 28,
        ReplayClass::StructuralControlFlow => 29,
        ReplayClass::StructuralDataShape => 30,
        ReplayClass::StructuralReplayProjection => 31,
        ReplayClass::TypedParameters => 32,
        ReplayClass::UdfModuleSet => 33,
        ReplayClass::VmJitCompilerArtifacts => 34,
        ReplayClass::WallClock => 35,
    }
}

/// The class at a canonical position.
pub open spec fn class_at(index: int) -> ReplayClass {
    if index == 0 {
        ReplayClass::BoundQuery
    } else if index == 1 {
        ReplayClass::CompilationTarget
    } else if index == 2 {
        ReplayClass::CpuFeatureContract
    } else if index == 3 {
        ReplayClass::CryptoEntropy
    } else if index == 4 {
        ReplayClass::DecisionCards
    } else if index == 5 {
        ReplayClass::DerivedGenerationSnapshots
    } else if index == 6 {
        ReplayClass::DifferentialPrivacySeed
    } else if index == 7 {
        ReplayClass::Evidence
    } else if index == 8 {
        ReplayClass::ExecutableBinary
    } else if index == 9 {
        ReplayClass::ExecutionSchedule
    } else if index == 10 {
        ReplayClass::ExecutionSeed
    } else if index == 11 {
        ReplayClass::KernelProfileRegistry
    } else if index == 12 {
        ReplayClass::KeyMaterial
    } else if index == 13 {
        ReplayClass::LanguageProfile
    } else if index == 14 {
        ReplayClass::LogicalState
    } else if index == 15 {
        ReplayClass::MediatedExternalInputs
    } else if index == 16 {
        ReplayClass::MediatedNondeterminism
    } else if index == 17 {
        ReplayClass::NormalizedQuery
    } else if index == 18 {
        ReplayClass::NumericProfile
    } else if index == 19 {
        ReplayClass::PlatformAbi
    } else if index == 20 {
        ReplayClass::Policies
    } else if index == 21 {
        ReplayClass::ReplayAuthoritySnapshot
    } else if index == 22 {
        ReplayClass::ReproducibleBuildClosure
    } else if index == 23 {
        ReplayClass::RoleBearingBindingSet
    } else if index == 24 {
        ReplayClass::RuntimeAllocatorConfiguration
    } else if index == 25 {
        ReplayClass::RustToolchain
    } else if index == 26 {
        ReplayClass::ScalarProfile
    } else if index == 27 {
        ReplayClass::SemanticProfile
    } else if index == 28 {
        ReplayClass::SourceTree
    } else if index == 29 {
        ReplayClass::StructuralControlFlow
    } else if index == 30 {
        ReplayClass::StructuralDataShape
    } else if index == 31 {
        ReplayClass::StructuralReplayProjection
    } else if index == 32 {
        ReplayClass::TypedParameters
    } else if index == 33 {
        ReplayClass::UdfModuleSet
    } else if index == 34 {
        ReplayClass::VmJitCompilerArtifacts
    } else {
        ReplayClass::WallClock
    }
}

/// Stable lowercase name of a class.
pub open spec fn class_name(class: ReplayClass) -> Seq<char> {
    match class {
        ReplayClass::BoundQuery => "bound_query"@,
        ReplayClass::CompilationTarget => "compilation_target"@,
        ReplayClass::CpuFeatureContract => "cpu_feature_contract"@,
        ReplayClass::CryptoEntropy => "crypto_entropy"@,
        ReplayClass::DecisionCards => "decision_cards"@,
        ReplayClass::DerivedGenerationSnapshots => "derived_generation_snapshots"@,
        ReplayClass::DifferentialPrivacySeed => "differential_privacy_seed"@,
        ReplayClass::Evidence => "evidence"@,
        ReplayClass::ExecutableBinary => "executable_binary"@,
        ReplayClass::ExecutionSchedule => "execution_schedule"@,
        ReplayClass::ExecutionSeed => "execution_seed"@,
        ReplayClass::KernelProfileRegistry => "kernel_profile_registry"@,
        ReplayClass::KeyMaterial => "key_material"@,
        ReplayClass::LanguageProfile => "language_profile"@,
        ReplayClass::LogicalState => "logical_state"@,
        ReplayClass::MediatedExternalInputs => "mediated_external_inputs"@,
        ReplayClass::MediatedNondeterminism => "mediated_nondeterminism"@,
        ReplayClass::NormalizedQuery => "normalized_query"@,
        ReplayClass::NumericProfile => "numeric_profile"@,
        ReplayClass::PlatformAbi => "platform_abi"@,
        ReplayClass::Policies => "policies"@,
        ReplayClass::ReplayAuthoritySnapshot => "replay_authority_snapshot"@,
        ReplayClass::ReproducibleBuildClosure => "reproducible_build_closure"@,
        ReplayClass::RoleBearingBindingSet => "role_bearing_binding_set"@,
        ReplayClass::RuntimeAllocatorConfiguration => "runtime_allocator_configuration"@,
        ReplayClass::RustToolchain => "rust_toolchain"@,
        ReplayClass::ScalarProfile => "scalar_profile"@,
        ReplayClass::SemanticProfile => "semantic_profile"@,
        ReplayClass::SourceTree => "source_tree"@,
        ReplayClass::StructuralControlFlow => "structural_control_flow"@,
        ReplayClass::StructuralDataShape => "structural_data_shape"@,
        ReplayClass::StructuralReplayProjection => "structural_replay_projection"@,
        ReplayClass::TypedParameters => "typed_parameters"@,
        ReplayClass::UdfModuleSet => "udf_module_set"@,
        ReplayClass::VmJitCompilerArtifacts => "vm_jit_compiler_artifacts"@,
        ReplayClass::WallClock => "wall_clock"@,
    }
}

impl ReplayClass {
    /// Every class, in canonical order.
    pub const ALL: [ReplayClass; 36] = [
        ReplayClass::BoundQuery,
        ReplayClass::CompilationTarget,
        ReplayClass::CpuFeatureContract,
        ReplayClass::CryptoEntropy,
        ReplayClass::DecisionCards,
        ReplayClass::DerivedGenerationSnapshots,
        ReplayClass::DifferentialPrivacySeed,
        ReplayClass::Evidence,
        ReplayClass::ExecutableBinary,
        ReplayClass::ExecutionSchedule,
        ReplayClass::ExecutionSeed,
        ReplayClass::KernelProfileRegistry,
        ReplayClass::KeyMaterial,
        ReplayClass::LanguageProfile,
        ReplayClass::LogicalState,
        ReplayClass::MediatedExternalInputs,
        ReplayClass::MediatedNondeterminism,
        ReplayClass::NormalizedQuery,
        ReplayClass::NumericProfile,
        ReplayClass::PlatformAbi,
        ReplayClass::Policies,
        ReplayClass::ReplayAuthoritySnapshot,
        ReplayClass::ReproducibleBuildClosure,
        ReplayClass::RoleBearingBindingSet,
        ReplayClass::RuntimeAllocatorConfiguration,
        ReplayClass::RustToolchain,
        ReplayClass::ScalarProfile,
        ReplayClass::SemanticProfile,
        ReplayClass::SourceTree,
        ReplayClass::StructuralControlFlow,
        ReplayClass::StructuralDataShape,
        ReplayClass::StructuralReplayProjection,
        ReplayClass::TypedParameters,
        ReplayClass::UdfModuleSet,
        ReplayClass::VmJitCompilerArtifacts,
        ReplayClass::WallClock,
    ];

    /// Stable lowercase name.
    pub fn as_str(self) -> (name: &'static str)
        ensures
            name@ == class_name(self),
    {
        match self {
            ReplayClass::BoundQuery => "bound_query",
            ReplayClass::CompilationTarget => "compilation_target",
            ReplayClass::CpuFeatureContract => "cpu_feature_contract",
            ReplayClass::CryptoEntropy => "crypto_entropy",
            ReplayClass::DecisionCards => "decision_cards",
            ReplayClass::DerivedGenerationSnapshots => "derived_generation_snapshots",
            ReplayClass::DifferentialPrivacySeed => "differential_privacy_seed",
            ReplayClass::Evidence => "evidence",
            ReplayClass::ExecutableBinary => "executable_binary",
            ReplayClass::ExecutionSchedule => "execution_schedule",
            ReplayClass::ExecutionSeed => "execution_seed",
            ReplayClass::KernelProfileRegistry => "kernel_profile_registry",
            ReplayClass::KeyMaterial => "key_material",
            ReplayClass::LanguageProfile => "language_profile",
            ReplayClass::LogicalState => "logical_state",
            ReplayClass::MediatedExternalInputs => "mediated_external_inputs",
            ReplayClass::MediatedNondeterminism => "mediated_nondeterminism",
            ReplayClass::NormalizedQuery => "normalized_query",
            ReplayClass::NumericProfile => "numeric_profile",
            ReplayClass::PlatformAbi => "platform_abi",
            ReplayClass::Policies => "policies",
            ReplayClass::ReplayAuthoritySnapshot => "replay_authority_snapshot",
            ReplayClass::ReproducibleBuildClosure => "reproducible_build_closure",
            ReplayClass::RoleBearingBindingSet => "role_bearing_binding_set",
            ReplayClass::RuntimeAllocatorConfiguration => "runtime_allocator_configuration",
            ReplayClass::RustToolchain => "rust_toolchain",
            ReplayClass::ScalarProfile => "scalar_profile",
            ReplayClass::SemanticProfile => "semantic_profile",
            ReplayClass::SourceTree => "source_tree",
            ReplayClass::StructuralControlFlow => "structural_control_flow",
            ReplayClass::StructuralDataShape => "structural_data_shape",
            ReplayClass::StructuralReplayProjection => "structural_replay_projection",
            ReplayClass::TypedParameters => "typed_parameters",
            ReplayClass::UdfModuleSet => "udf_module_set",
            ReplayClass::VmJitCompilerArtifacts => "vm_jit_compiler_artifacts",
            ReplayClass::WallClock => "wall_clock",
        }
    }

    /// Canonical position in the vocabulary.
    pub fn index(self) -> (index: u8)
        ensures
            index == class_index(self),
            index < 36,
            class_at(index as int) == self,
    {
        match self {
            ReplayClass::BoundQuery => 0,
            ReplayClass::CompilationTarget => 1,
            ReplayClass::CpuFeatureContract => 2,
            ReplayClass::CryptoEntropy => 3,
            ReplayClass::DecisionCards => 4,
            ReplayClass::DerivedGenerationSnapshots => 5,
            ReplayClass::DifferentialPrivacySeed => 6,
            ReplayClass::Evidence => 7,
            ReplayClass::ExecutableBinary => 8,
            ReplayClass::ExecutionSchedule => 9,
            ReplayClass::ExecutionSeed => 10,
            ReplayClass::KernelProfileRegistry => 11,
            ReplayClass::KeyMaterial => 12,
            ReplayClass::LanguageProfile => 13,
            ReplayClass::LogicalState => 14,
            ReplayClass::MediatedExternalInputs => 15,
            ReplayClass::MediatedNondeterminism => 16,
            ReplayClass::NormalizedQuery => 17,
            ReplayClass::NumericProfile => 18,
            ReplayClass::PlatformAbi => 19,
            ReplayClass::Policies => 20,
            ReplayClass::ReplayAuthoritySnapshot => 21,
            ReplayClass::ReproducibleBuildClosure => 22,
            ReplayClass::RoleBearingBindingSet => 23,
            ReplayClass::RuntimeAllocatorConfiguration => 24,
            ReplayClass::RustToolchain => 25,
            ReplayClass::ScalarProfile => 26,
            ReplayClass::SemanticProfile => 27,
            ReplayClass::SourceTree => 28,
            ReplayClass::StructuralControlFlow => 29,
            ReplayClass::StructuralDataShape => 30,
            ReplayClass::StructuralReplayProjection => 31,
            ReplayClass::TypedParameters => 32,
            ReplayClass::UdfModuleSet => 33,
            ReplayClass::VmJitCompilerArtifacts => 34,
            ReplayClass::WallClock => 35,
        }
    }

    /// The class at a canonical position.
    pub fn from_index(index: u8) -> (class: ReplayClass)
        requires
            index < 36,
        ensures
            class == class_at(index as int),
            class_index(class) == index,
    {
        match index {
            0 => ReplayClass::BoundQuery,
            1 => ReplayClass::CompilationTarget,
            2 => ReplayClass::CpuFeatureContract,
            3 => ReplayClass::CryptoEntropy,
            4 => ReplayClass::DecisionCards,
            5 => ReplayClass::DerivedGenerationSnapshots,
            6 => ReplayClass::DifferentialPrivacySeed,
            7 => ReplayClass::Evidence,
            8 => ReplayClass::ExecutableBinary,
            9 => ReplayClass::ExecutionSchedule,
            10 => ReplayClass::ExecutionSeed,
            11 => ReplayClass::KernelProfileRegistry,
            12 => ReplayClass::KeyMaterial,
            13 => ReplayClass::LanguageProfile,
            14 => ReplayClass::LogicalState,
            15 => ReplayClass::MediatedExternalInputs,
            16 => ReplayClass::MediatedNondeterminism,
            17 => ReplayClass::NormalizedQuery,
            18 => ReplayClass::NumericProfile,
            19 => ReplayClass::PlatformAbi,
            20 => ReplayClass::Policies,
            21 => ReplayClass::ReplayAuthoritySnapshot,
            22 => ReplayClass::ReproducibleBuildClosure,
            23 => ReplayClass::RoleBearingBindingSet,
            24 => ReplayClass::RuntimeAllocatorConfiguration,
            25 => ReplayClass::RustToolchain,
            26 => ReplayClass::ScalarProfile,
            27 => ReplayClass::SemanticProfile,
            28 => ReplayClass::SourceTree,
            29 => ReplayClass::StructuralControlFlow,
            30 => ReplayClass::StructuralDataShape,
            31 => ReplayClass::StructuralReplayProjection,
            32 => ReplayClass::TypedParameters,
            33 => ReplayClass::UdfModuleSet,
            34 => ReplayClass::VmJitCompilerArtifacts,
            _ => ReplayClass::WallClock,
        }
    }

    /// Whether policy permits replay evidence of this class to be present.
    pub fn may_be_present(self) -> (allowed: bool)
        ensures
            allowed == (self != ReplayClass::CryptoEntropy),
    {
        match self {
            ReplayClass::CryptoEntropy => false,
            _ => true,
        }
    }
}

/// Whether position `i` of a class bitmap is set.
pub open spec fn class_bit(bits: u64, i: int) -> bool {
    (bits >> (i as u64)) & 1u64 == 1u64
}

/// A bitmap of the closed universe: no bit at or above the vocabulary size.
pub open spec fn in_universe(bits: u64) -> bool {
    bits < 0x10_0000_0000u64
}

/// The classes whose positions are set in a bitmap.
pub open spec fn bits_view(bits: u64) -> Set<ReplayClass> {
    Set::new(|c: ReplayClass| class_bit(bits, class_index(c)))
}

/// The classes whose positions, from `from` on, are set in a bitmap, in
/// canonical order.
pub open spec fn classes_in_order(bits: u64, from: int) -> Seq<ReplayClass>
    decreases 36 - from,
{
    if from >= 36 {
        Seq::empty()
    } else if class_bit(bits, from) {
        seq![class_at(from)] + classes_in_order(bits, from + 1)
    } else {
        classes_in_order(bits, from + 1)
    }
}

proof fn lemma_class_index(c: ReplayClass)
    ensures
        0 <= class_index(c) < 36,
        class_at(class_index(c)) == c,
{
}

proof fn lemma_class_at(i: int)
    requires
        0 <= i < 36,
    ensures
        class_index(class_at(i)) == i,
{
}

proof fn lemma_bit_ops(a: u64, b: u64, i: u64)
    by (bit_vector)
    requires
        i < 64,
    ensures
        ((a | b) >> i) & 1u64 == 1u64 <==> ((a >> i) & 1u64 == 1u64 || (b >> i) & 1u64 == 1u64),
        ((a & b) >> i) & 1u64 == 1u64 <==> ((a >> i) & 1u64 == 1u64 && (b >> i) & 1u64 == 1u64),
        ((a & !b) >> i) & 1u64 == 1u64 <==> ((a >> i) & 1u64 == 1u64 && (b >> i) & 1u64 != 1u64),
        (0u64 >> i) & 1u64 != 1u64,
        a < 0x10_0000_0000u64 && b < 0x10_0000_0000u64 ==> (a | b) < 0x10_0000_0000u64,
        a < 0x10_0000_0000u64 ==> (a & b) < 0x10_0000_0000u64,
        a < 0x10_0000_0000u64 ==> (a & !b) < 0x10_0000_0000u64,
{
}

proof fn lemma_single_bit(a: u64, i: u64, j: u64)
    by (bit_vector)
    requires
        i < 64,
        j < 64,
    ensures
        ((a | (1u64 << j)) >> i) & 1u64 == 1u64 <==> (i == j || (a >> i) & 1u64 == 1u64),
        ((a & !(1u64 << j)) >> i) & 1u64 == 1u64 <==> (i != j && (a >> i) & 1u64 == 1u64),
        j < 36 && a < 0x10_0000_0000u64 ==> (a | (1u64 << j)) < 0x10_0000_0000u64,
        a < 0x10_0000_0000u64 ==> (a & !(1u64 << j)) < 0x10_0000_0000u64,
{
}

proof fn lemma_shift_step(a: u64, k: u64)
    by (bit_vector)
    requires
        k < 64,
    ensures
        (a >> k) != 0u64 && (a >> k) & 1u64 != 1u64 ==> (a >> ((k + 1) as u64)) != 0u64,
        a < 0x10_0000_0000u64 ==> (a >> 36u64) == 0u64,
        a < 0x10_0000_0000u64 && 36 <= k ==> (a >> k) & 1u64 != 1u64,
        (a >> 0u64) == a,
{
}

/// A non-zero bitmap of the universe has a set position below 36, at or
/// after `from` when nothing is set before it.
proof fn lemma_some_bit_from(bits: u64, from: int) -> (i: int)
    requires
        0 <= from <= 36,
        in_universe(bits),
        (bits >> (from as u64)) != 0u64,
    ensures
        from <= i < 36,
        class_bit(bits, i),
    decreases 36 - from,
{
    lemma_shift_step(bits, from as u64);
    if from == 36 {
        assert(false);
        0
    } else if class_bit(bits, from) {
        from
    } else {
        assert(((from as u64) + 1) as u64 == (from + 1) as u64);
        lemma_some_bit_from(bits, from + 1)
    }
}

/// A bitmap of the universe is zero exactly when no class is in it.
proof fn lemma_bits_view_empty(bits: u64)
    requires
        in_universe(bits),
    ensures
        (bits == 0) == (bits_view(bits) == Set::<ReplayClass>::empty()),
{
    if bits == 0 {
        assert forall|c: ReplayClass| !bits_view(bits).contains(c) by {
            lemma_class_index(c);
            lemma_bit_ops(0, 0, class_index(c) as u64);
        }
        assert(bits_view(bits) =~= Set::<ReplayClass>::empty());
    } else {
        lemma_shift_step(bits, 0);
        let i = lemma_some_bit_from(bits, 0);
        lemma_class_at(i);
        assert(bits_view(bits).contains(class_at(i)));
    }
}

/// Bitwise or, and and and-not are union, intersection and difference.
proof fn lemma_bits_view_ops(a: u64, b: u64)
    ensures
        bits_view(a | b) == bits_view(a).union(bits_view(b)),
        bits_view(a & b) == bits_view(a).intersect(bits_view(b)),
        bits_view(a & !b) == bits_view(a).difference(bits_view(b)),
{
    assert forall|c: ReplayClass|
        #![trigger bits_view(a).contains(c)]
        (bits_view(a | b).contains(c) == (bits_view(a).contains(c) || bits_view(b).contains(c)))
        && (bits_view(a & b).contains(c) == (bits_view(a).contains(c) && bits_view(b).contains(c)))
        && (bits_view(a & !b).contains(c) == (bits_view(a).contains(c) && !bits_view(b).contains(c)))
    by {
        lemma_class_index(c);
        lemma_bit_ops(a, b, class_index(c) as u64);
    }
    assert(bits_view(a | b) =~= bits_view(a).union(bits_view(b)));
    assert(bits_view(a & b) =~= bits_view(a).intersect(bits_view(b)));
    assert(bits_view(a & !b) =~= bits_view(a).difference(bits_view(b)));
}

/// The positions before `to` being clear, listing from `from` or from `to`
/// gives the same classes.
proof fn lemma_skip_clear(bits: u64, from: int, to: int)
    requires
        0 <= from <= to <= 36,
        forall|j: int| from <= j < to ==> !class_bit(bits, j),
    ensures
        classes_in_order(bits, from) == classes_in_order(bits, to),
    decreases to - from,
{
    if from < to {
        lemma_skip_clear(bits, from + 1, to);
    }
}

/// Bitmaps that agree from `from` on list the same classes from there.
proof fn lemma_agree_from(a: u64, b: u64, from: int)
    requires
        0 <= from <= 36,
        forall|j: int| from <= j < 36 ==> class_bit(a, j) == class_bit(b, j),
    ensures
        classes_in_order(a, from) == classes_in_order(b, from),
    decreases 36 - from,
{
    if from < 36 {
        lemma_agree_from(a, b, from + 1);
    }
}

/// What the canonical listing from `from` holds, and that it ascends.
proof fn lemma_listing(bits: u64, from: int)
    requires
        0 <= from <= 36,
    ensures
        forall|c: ReplayClass|
            #[trigger] classes_in_order(bits, from).contains(c) <==> (from <= class_index(c)
                && class_bit(bits, class_index(c))),
        forall|j: int, k: int|
            0 <= j < k < classes_in_order(bits, from).len() ==> class_index(
                #[trigger] classes_in_order(bits, from)[j],
            ) < class_index(#[trigger] classes_in_order(bits, from)[k]),
        forall|j: int|
            0 <= j < classes_in_order(bits, from).len() ==> from <= class_index(
                #[trigger] classes_in_order(bits, from)[j],
            ),
    decreases 36 - from,
{
    let m = classes_in_order(bits, from);
    if from >= 36 {
        assert forall|c: ReplayClass| #[trigger] m.contains(c) <==> (from <= class_index(c)
            && class_bit(bits, class_index(c))) by {
            lemma_class_index(c);
        }
    } else {
        lemma_listing(bits, from + 1);
        lemma_class_at(from);
        let rest = classes_in_order(bits, from + 1);
        if class_bit(bits, from) {
            let head = seq![class_at(from)];
            assert(m == head + rest);
            assert forall|c: ReplayClass| #[trigger] m.contains(c) <==> (from <= class_index(c)
                && class_bit(bits, class_index(c))) by {
                lemma_class_index(c);
                if m.contains(c) {
                    let j = choose|j: int| 0 <= j < m.len() && m[j] == c;
                    if j > 0 {
                        assert(rest[j - 1] == c);
                        assert(rest.contains(c));
                    }
                }
                if from <= class_index(c) && class_bit(bits, class_index(c)) {
                    if class_index(c) == from {
                        assert(m[0] == c);
                    } else {
                        assert(rest.contains(c));
                        let j = choose|j: int| 0 <= j < rest.len() && rest[j] == c;
                        assert(m[j + 1] == c);
                    }
                }
            }
            assert forall|j: int, k: int|
                0 <= j < k < m.len() implies class_index(#[trigger] m[j]) < class_index(
                #[trigger] m[k],
            ) by {
                assert(m[k] == rest[k - 1]);
                if j > 0 {
                    assert(m[j] == rest[j - 1]);
                }
            }
            assert forall|j: int| 0 <= j < m.len() implies from <= class_index(#[trigger] m[j]) by {
                if j > 0 {
                    assert(m[j] == rest[j - 1]);
                }
            }
        } else {
            assert forall|c: ReplayClass| #[trigger] m.contains(c) <==> (from <= class_index(c)
                && class_bit(bits, class_index(c))) by {
                lemma_class_index(c);
                if class_index(c) == from {
                    assert(!rest.contains(c));
                }
            }
        }
    }
}

/// The canonical listing holds exactly the classes of the bitmap, each once.
proof fn lemma_listing_is_view(bits: u64)
    ensures
        classes_in_order(bits, 0).to_set() == bits_view(bits),
        classes_in_order(bits, 0).no_duplicates(),
        bits_view(bits).finite(),
        classes_in_order(bits, 0).len() == bits_view(bits).len(),
{
    let m = classes_in_order(bits, 0);
    lemma_listing(bits, 0);
    assert forall|c: ReplayClass| #[trigger] m.to_set().contains(c) == bits_view(bits).contains(c) by {
        lemma_class_index(c);
    }
    assert(m.to_set() =~= bits_view(bits));
    assert forall|j: int, k: int| 0 <= j < m.len() && 0 <= k < m.len() && j != k implies m[j]
        != m[k] by {
        if j < k {
            assert(class_index(m[j]) < class_index(m[k]));
        } else {
            assert(class_index(m[k]) < class_index(m[j]));
        }
    }
    m.unique_seq_to_set();
}

/// Number of classes listed from position `from` on.
fn count_classes(bits: u64) -> (count: usize)
    ensures
        count == classes_in_order(bits, 0).len(),
{
    let mut count: usize = 0;
    let mut i: u64 = 0;
    while i < 36
        invariant
            i <= 36,
            count + classes_in_order(bits, i as int).len() == classes_in_order(bits, 0).len(),
            count <= i,
        decreases 36 - i,
    {
        if (bits >> i) & 1 == 1 {
            count = count + 1;
        }
        i = i + 1;
    }
    count
}

/// Allocation-free set of replay classes.
#[derive(Clone, Copy, PartialEq, Eq, Hash, Debug, Structural)]
pub struct ReplayClassSet {
    bits: u64,
}

impl View for ReplayClassSet {
    type V = Set<ReplayClass>;

    closed spec fn view(&self) -> Set<ReplayClass> {
        bits_view(self.bits)
    }
}

impl ReplayClassSet {
    #[verifier::type_invariant]
    closed spec fn within_universe(self) -> bool {
        in_universe(self.bits)
    }

    /// The members in canonical order.
    pub closed spec fn ordered(self) -> Seq<ReplayClass> {
        classes_in_order(self.bits, 0)
    }

    fn empty() -> (set: Self)
        ensures
            set.bits == 0,
            set@ == Set::<ReplayClass>::empty(),
    {
        let set = ReplayClassSet { bits: 0 };
        proof {
            lemma_bits_view_empty(0);
        }
        set
    }

    /// Number of classes in the set.
    pub fn len(self) -> (count: usize)
        ensures
            count == self@.len(),
            self@.finite(),
    {
        proof {
            lemma_listing_is_view(self.bits);
        }
        count_classes(self.bits)
    }

    /// Whether the set holds no class.
    pub fn is_empty(self) -> (empty: bool)
        ensures
            empty == (self@ == Set::<ReplayClass>::empty()),
    {
        proof {
            use_type_invariant(&self);
            lemma_bits_view_empty(self.bits);
        }
        self.bits == 0
    }

    /// Iterates in the canonical order of the vocabulary.
    pub fn iter(self) -> (iter: ReplayClassIter)
        ensures
            iter@ == self.ordered(),
    {
        proof {
            use_type_invariant(&self);
        }
        ReplayClassIter { remaining: self.bits }
    }

    /// Whether `class` is in the set.
    pub fn contains(self, class: ReplayClass) -> (present: bool)
        ensures
            present == self@.contains(class),
    {
        let index = class.index();
        (self.bits >> (index as u64)) & 1 == 1
    }

    fn union(self, other: Self) -> (set: Self)
        ensures
            set.bits == self.bits | other.bits,
            set@ == self@.union(other@),
    {
        proof {
            use_type_invariant(&self);
            use_type_invariant(&other);
            lemma_bit_ops(self.bits, other.bits, 0);
            lemma_bits_view_ops(self.bits, other.bits);
        }
        ReplayClassSet { bits: self.bits | other.bits }
    }

    fn intersection(self, other: Self) -> (set: Self)
        ensures
            set.bits == self.bits & other.bits,
            set@ == self@.intersect(other@),
    {
        proof {
            use_type_invariant(&self);
            lemma_bit_ops(self.bits, other.bits, 0);
            lemma_bits_view_ops(self.bits, other.bits);
        }
        ReplayClassSet { bits: self.bits & other.bits }
    }

    fn difference(self, other: Self) -> (set: Self)
        ensures
            set.bits == self.bits & !other.bits,
            set@ == self@.difference(other@),
    {
        proof {
            use_type_invariant(&self);
            lemma_bit_ops(self.bits, other.bits, 0);
            lemma_bits_view_ops(self.bits, other.bits);
        }
        ReplayClassSet { bits: self.bits & !other.bits }
    }
}

/// The canonical order of a set lists each of its classes once, in
/// ascending vocabulary position.
pub proof fn lemma_ordered_classes(set: ReplayClassSet)
    ensures
        set.ordered().to_set() == set@,
        set.ordered().no_duplicates(),
        set.ordered().len() == set@.len(),
        forall|j: int, k: int|
            0 <= j < k < set.ordered().len() ==> class_index(#[trigger] set.ordered()[j])
                < class_index(#[trigger] set.ordered()[k]),
{
    lemma_listing_is_view(set.bits);
    lemma_listing(set.bits, 0);
}

/// Allocation-free iterator over a [`ReplayClassSet`].
#[derive(Clone, Copy, Debug)]
pub struct ReplayClassIter {
    remaining: u64,
}

impl View for ReplayClassIter {
    type V = Seq<ReplayClass>;

    closed spec fn view(&self) -> Seq<ReplayClass> {
        classes_in_order(self.remaining, 0)
    }
}

impl ReplayClassIter {
    #[verifier::type_invariant]
    closed spec fn within_universe(self) -> bool {
        in_universe(self.remaining)
    }

    /// The next class in canonical order.
    pub fn next(&mut self) -> (next: Option<ReplayClass>)
        ensures
            old(self)@.len() == 0 ==> next is None && final(self)@ == old(self)@,
            old(self)@.len() > 0 ==> next == Some(old(self)@[0]) && final(self)@ == old(
                self,
            )@.drop_first(),
    {
        proof {
            use_type_invariant(&*self);
        }
        let remaining = self.remaining;
        if remaining == 0 {
            proof {
                lemma_bits_view_empty(0);
                lemma_listing_is_view(0);
            }
            return None;
        }
        let ghost witness = {
            lemma_shift_step(remaining, 0);
            lemma_some_bit_from(remaining, 0)
        };
        let mut i: u64 = 0;
        while (remaining >> i) & 1 != 1
            invariant
                i <= witness < 36,
                class_bit(remaining, witness),
                forall|j: int| 0 <= j < i ==> !class_bit(remaining, j),
            decreases 36 - i,
        {
            i = i + 1;
        }
        let class = ReplayClass::from_index(i as u8);
        let cleared = remaining & !(1u64 << i);
        proof {
            assert forall|j: int| 0 <= j < 36 implies class_bit(cleared, j) == (j != i && class_bit(
                remaining,
                j,
            )) by {
                lemma_single_bit(remaining, j as u64, i);
            }
            lemma_single_bit(remaining, 0, i);
            lemma_skip_clear(remaining, 0, i as int);
            lemma_skip_clear(cleared, 0, i as int + 1);
            lemma_agree_from(cleared, remaining, i as int + 1);
            let rest = classes_in_order(remaining, i as int + 1);
            assert(classes_in_order(remaining, 0) == seq![class] + rest);
            assert((seq![class] + rest).drop_first() =~= rest);
        }
        self.remaining = cleared;
        Some(class)
    }

    /// The last class in canonical order.
    pub fn next_back(&mut self) -> (next: Option<ReplayClass>)
        ensures
            old(self)@.len() == 0 ==> next is None && final(self)@ == old(self)@,
            old(self)@.len() > 0 ==> next == Some(old(self)@.last()) && final(self)@ == old(
                self,
            )@.drop_last(),
    {
        proof {
            use_type_invariant(&*self);
        }
        let remaining = self.remaining;
        if remaining == 0 {
            proof {
                lemma_bits_view_empty(0);
                lemma_listing_is_view(0);
            }
            return None;
        }
        let ghost witness = {
            lemma_shift_step(remaining, 0);
            lemma_some_bit_from(remaining, 0)
        };
        let mut i: u64 = 35;
        while (remaining >> i) & 1 != 1
            invariant
                0 <= witness <= i < 36,
                class_bit(remaining, witness),
                forall|j: int| i < j < 36 ==> !class_bit(remaining, j),
            decreases i,
        {
            i = i - 1;
        }
        let class = ReplayClass::from_index(i as u8);
        let cleared = remaining & !(1u64 << i);
        proof {
            assert forall|j: int| 0 <= j < 36 implies class_bit(cleared, j) == (j != i && class_bit(
                remaining,
                j,
            )) by {
                lemma_single_bit(remaining, j as u64, i);
            }
            lemma_single_bit(remaining, 0, i);
            lemma_last_class(remaining, cleared, i as int, 0);
            let shorter = classes_in_order(cleared, 0);
            assert(shorter.push(class).drop_last() =~= shorter);
        }
        self.remaining = cleared;
        Some(class)
    }

    /// Number of classes still to come.
    pub fn len(&self) -> (count: usize)
        ensures
            count == self@.len(),
    {
        count_classes(self.remaining)
    }
}

/// Clearing the highest set position `top` drops the last listed class.
proof fn lemma_last_class(full: u64, cleared: u64, top: int, from: int)
    requires
        0 <= from <= top < 36,
        class_bit(full, top),
        !class_bit(cleared, top),
        forall|j: int| from <= j < top ==> class_bit(full, j) == class_bit(cleared, j),
        forall|j: int| top < j < 36 ==> !class_bit(full, j) && !class_bit(cleared, j),
    ensures
        classes_in_order(full, from) == classes_in_order(cleared, from).push(class_at(top)),
    decreases top - from,
{
    if from == top {
        lemma_skip_clear(full, top + 1, 36);
        lemma_skip_clear(cleared, top, 36);
        assert(classes_in_order(full, top) =~= seq![class_at(top)]);
    } else {
        lemma_last_class(full, cleared, top, from + 1);
        let rest_full = classes_in_order(full, from + 1);
        let rest_cleared = classes_in_order(cleared, from + 1);
        if class_bit(full, from) {
            assert(seq![class_at(from)] + rest_cleared.push(class_at(top)) =~= (seq![class_at(from)]
                + rest_cleared).push(class_at(top)));
        }
    }
}

/// Why a completeness value could not be built without normalization or
/// information loss.
#[derive(Clone, PartialEq, Eq, Debug)]
pub enum ReplayCompletenessError {
    EmptyClassSet { list: &'static str },
    ClassesNotStrictlySorted {
        list: &'static str,
        previous_index: usize,
        index: usize,
        previous: ReplayClass,
        current: ReplayClass,
        kind: ClassOrderViolation,
    },
    AbsenceOnlyClassCannotBePresent { list: &'static str, index: usize, class: ReplayClass },
    AbsenceOnlyClassCannotBeSupplied { list: &'static str, index: usize, class: ReplayClass },
    StructuralClassOverlap { class: ReplayClass },
}

/// The two ways an input list can violate strict canonical ordering.
#[derive(Clone, Copy, PartialEq, Eq, Debug, Structural)]
pub enum ClassOrderViolation {
    Duplicate,
    OutOfOrder,
}

/// What a class list is used for, which decides whether the absence-only
/// class may appear in it.
#[derive(Clone, Copy, PartialEq, Eq, Debug, Structural)]
pub enum ReplayClassUse {
    /// Classes reproduced or present: the absence-only class is refused.
    Present,
    /// Classes that can be supplied later: the absence-only class is refused.
    MissingArtifact,
    /// Classes omitted, missing or redacted: every class is accepted.
    AbsenceDiagnostic,
}

/// The violation at position `k` of a class list, if any: an order
/// violation against the previous entry first, then a forbidden class.
pub open spec fn fault_at(
    list: &'static str,
    classes: Seq<ReplayClass>,
    usage: ReplayClassUse,
    k: int,
) -> Option<ReplayCompletenessError> {
    if 0 < k && class_index(classes[k]) <= class_index(classes[k - 1]) {
        Some(
            ReplayCompletenessError::ClassesNotStrictlySorted {
                list,
                previous_index: (k - 1) as usize,
                index: k as usize,
                previous: classes[k - 1],
                current: classes[k],
                kind: if classes[k - 1] == classes[k] {
                    ClassOrderViolation::Duplicate
                } else {
                    ClassOrderViolation::OutOfOrder
                },
            },
        )
    } else if usage == ReplayClassUse::Present && classes[k] == ReplayClass::CryptoEntropy {
        Some(
            ReplayCompletenessError::AbsenceOnlyClassCannotBePresent {
                list,
                index: k as usize,
                class: classes[k],
            },
        )
    } else if usage == ReplayClassUse::MissingArtifact && classes[k] == ReplayClass::CryptoEntropy {
        Some(
            ReplayCompletenessError::AbsenceOnlyClassCannotBeSupplied {
                list,
                index: k as usize,
                class: classes[k],
            },
        )
    } else {
        None
    }
}

/// The first violation of a class list at or after position `from`.
pub open spec fn first_fault(
    list: &'static str,
    classes: Seq<ReplayClass>,
    usage: ReplayClassUse,
    from: int,
) -> Option<ReplayCompletenessError>
    decreases classes.len() - from,
{
    if from < 0 || from >= classes.len() {
        None
    } else {
        match fault_at(list, classes, usage, from) {
            Some(fault) => Some(fault),
            None => first_fault(list, classes, usage, from + 1),
        }
    }
}

proof fn lemma_nonempty_witness(s: Set<ReplayClass>) -> (c: ReplayClass)
    requires
        s != Set::<ReplayClass>::empty(),
    ensures
        s.contains(c),
{
    if !(exists|c: ReplayClass| s.contains(c)) {
        assert(s =~= Set::<ReplayClass>::empty());
    }
    choose|c: ReplayClass| s.contains(c)
}

impl ReplayClassSet {
    fn insert(self, class: ReplayClass) -> (set: Self)
        ensures
            set@ == self@.insert(class),
    {
        proof {
            use_type_invariant(&self);
        }
        let index = class.index();
        proof {
            lemma_single_bit(self.bits, 0, index as u64);
        }
        let set = ReplayClassSet { bits: self.bits | (1u64 << (index as u64)) };
        proof {
            assert forall|c: ReplayClass| #[trigger] set@.contains(c) == self@.insert(class).contains(c) by {
                lemma_class_index(c);
                lemma_single_bit(self.bits, class_index(c) as u64, index as u64);
            }
            assert(set@ =~= self@.insert(class));
        }
        set
    }

    /// Validates a class list: strictly ascending in canonical order, and
    /// without the absence-only class where `usage` forbids it.
    fn from_strictly_ordered(
        list: &'static str,
        classes: &[ReplayClass],
        usage: ReplayClassUse,
    ) -> (result: Result<ReplayClassSet, ReplayCompletenessError>)
        ensures
            match result {
                Ok(set) => first_fault(list, classes@, usage, 0) is None && set@ == classes@.to_set(),
                Err(fault) => first_fault(list, classes@, usage, 0) == Some(fault),
            },
    {
        let mut set = ReplayClassSet::empty();
        let mut index: usize = 0;
        while index < classes.len()
            invariant
                index <= classes.len(),
                first_fault(list, classes@, usage, 0) == first_fault(
                    list,
                    classes@,
                    usage,
                    index as int,
                ),
                set@ == classes@.subrange(0, index as int).to_set(),
            decreases classes.len() - index,
        {
            let class = classes[index];
            if index > 0 {
                let previous = classes[index - 1];
                if class.index() <= previous.index() {
                    let kind = if previous == class {
                        ClassOrderViolation::Duplicate
                    } else {
                        ClassOrderViolation::OutOfOrder
                    };
                    return Err(
                        ReplayCompletenessError::ClassesNotStrictlySorted {
                            list,
                            previous_index: index - 1,
                            index,
                            previous,
                            current: class,
                            kind,
                        },
                    );
                }
            }
            if usage == ReplayClassUse::Present && !class.may_be_present() {
                return Err(
                    ReplayCompletenessError::AbsenceOnlyClassCannotBePresent { list, index, class },
                );
            }
            if usage == ReplayClassUse::MissingArtifact && !class.may_be_present() {
                return Err(
                    ReplayCompletenessError::AbsenceOnlyClassCannotBeSupplied { list, index, class },
                );
            }
            proof {
                let before = classes@.subrange(0, index as int);
                let after = classes@.subrange(0, index as int + 1);
                assert(after =~= before.push(class));
                assert forall|c: ReplayClass| #[trigger] after.to_set().contains(c) == before.to_set().insert(
                    class,
                ).contains(c) by {
                    vstd::seq_lib::lemma_seq_contains_after_push(before, class, c);
                }
                assert(after.to_set() =~= before.to_set().insert(class));
            }
            set = set.insert(class);
            index = index + 1;
        }
        proof {
            assert(classes@.subrange(0, classes@.len() as int) =~= classes@);
        }
        Ok(set)
    }
}

/// Validated payload of the structural-replay grade.
#[derive(Clone, Copy, PartialEq, Eq, Hash, Debug, Structural)]
pub struct StructuralReplayCompleteness {
    reproduced_classes: ReplayClassSet,
    omitted_classes: ReplayClassSet,
}

impl StructuralReplayCompleteness {
    #[verifier::type_invariant]
    closed spec fn well_formed(self) -> bool {
        grade_valid(
            ReplayGrade::StructuralReplay {
                reproduced: self.reproduced_classes@,
                omitted: self.omitted_classes@,
            },
        )
    }

    /// The classes the replay reproduces.
    pub closed spec fn reproduced_set(self) -> Set<ReplayClass> {
        self.reproduced_classes@
    }

    /// The classes the replay omits.
    pub closed spec fn omitted_set(self) -> Set<ReplayClass> {
        self.omitted_classes@
    }

    /// The classes the replay reproduces.
    pub fn reproduced_classes(&self) -> (set: &ReplayClassSet)
        ensures
            set@ == self.reproduced_set(),
    {
        &self.reproduced_classes
    }

    /// The classes the replay omits.
    pub fn omitted_classes(&self) -> (set: &ReplayClassSet)
        ensures
            set@ == self.omitted_set(),
    {
        &self.omitted_classes
    }
}

/// Validated payload of the verifiable-if-artifacts-supplied grade.
#[derive(Clone, Copy, PartialEq, Eq, Hash, Debug, Structural)]
pub struct MissingArtifactCompleteness {
    missing_classes: ReplayClassSet,
}

impl MissingArtifactCompleteness {
    #[verifier::type_invariant]
    closed spec fn well_formed(self) -> bool {
        grade_valid(ReplayGrade::Verifiable { missing: self.missing_classes@ })
    }

    /// The classes whose artifacts are missing.
    pub closed spec fn missing_set(self) -> Set<ReplayClass> {
        self.missing_classes@
    }

    /// The classes whose artifacts are missing.
    pub fn missing_classes(&self) -> (set: &ReplayClassSet)
        ensures
            set@ == self.missing_set(),
    {
        &self.missing_classes
    }
}

/// Validated payload of the audit-only grade.
#[derive(Clone, Copy, PartialEq, Eq, Hash, Debug, Structural)]
pub struct AuditOnlyCompleteness {
    missing_or_redacted_classes: ReplayClassSet,
}

impl AuditOnlyCompleteness {
    #[verifier::type_invariant]
    closed spec fn well_formed(self) -> bool {
        grade_valid(ReplayGrade::Audit { gaps: self.missing_or_redacted_classes@ })
    }

    /// The classes missing or redacted.
    pub closed spec fn gap_set(self) -> Set<ReplayClass> {
        self.missing_or_redacted_classes@
    }

    /// The classes missing or redacted.
    pub fn missing_or_redacted_classes(&self) -> (set: &ReplayClassSet)
        ensures
            set@ == self.gap_set(),
    {
        &self.missing_or_redacted_classes
    }
}

/// The four replay grades as sets of classes.
pub enum ReplayGrade {
    Replayable,
    StructuralReplay { reproduced: Set<ReplayClass>, omitted: Set<ReplayClass> },
    Verifiable { missing: Set<ReplayClass> },
    Audit { gaps: Set<ReplayClass> },
}

/// Shape rules of a grade: every set named is non-empty, a structural grade
/// never both reproduces and omits a class, and the absence-only class is
/// never reproduced nor supplyable.
pub open spec fn grade_valid(grade: ReplayGrade) -> bool {
    match grade {
        ReplayGrade::Replayable => true,
        ReplayGrade::StructuralReplay { reproduced, omitted } => {
            &&& reproduced != Set::<ReplayClass>::empty()
            &&& omitted != Set::<ReplayClass>::empty()
            &&& reproduced.disjoint(omitted)
            &&& !reproduced.contains(ReplayClass::CryptoEntropy)
        },
        ReplayGrade::Verifiable { missing } => {
            &&& missing != Set::<ReplayClass>::empty()
            &&& !missing.contains(ReplayClass::CryptoEntropy)
        },
        ReplayGrade::Audit { gaps } => gaps != Set::<ReplayClass>::empty(),
    }
}

/// The classes a grade actually lacks.
pub open spec fn grade_gaps(grade: ReplayGrade) -> Set<ReplayClass> {
    match grade {
        ReplayGrade::Replayable => Set::empty(),
        ReplayGrade::StructuralReplay { omitted, .. } => omitted,
        ReplayGrade::Verifiable { missing } => missing,
        ReplayGrade::Audit { gaps } => gaps,
    }
}

/// Whether a grade reproduces `class`.
pub open spec fn grade_reproduces(grade: ReplayGrade, class: ReplayClass) -> bool {
    match grade {
        ReplayGrade::Replayable => true,
        ReplayGrade::StructuralReplay { reproduced, .. } => reproduced.contains(class),
        _ => false,
    }
}

/// The conservative meet of two grades. Replayable is neutral; two
/// structural grades keep only jointly reproduced classes and union their
/// omissions, falling to audit-only when nothing is jointly reproduced; two
/// later-supplyable grades union their missing classes; any other pair falls
/// to audit-only over the union of the actual gaps.
pub open spec fn grade_meet(left: ReplayGrade, right: ReplayGrade) -> ReplayGrade {
    match (left, right) {
        (ReplayGrade::Replayable, _) => right,
        (_, ReplayGrade::Replayable) => left,
        (
            ReplayGrade::StructuralReplay { reproduced: r1, omitted: o1 },
            ReplayGrade::StructuralReplay { reproduced: r2, omitted: o2 },
        ) => {
            let reproduced = r1.intersect(r2);
            let omitted = o1.union(o2).difference(reproduced);
            if reproduced == Set::<ReplayClass>::empty() {
                ReplayGrade::Audit { gaps: omitted }
            } else {
                ReplayGrade::StructuralReplay { reproduced, omitted }
            }
        },
        (ReplayGrade::Verifiable { missing: m1 }, ReplayGrade::Verifiable { missing: m2 }) => {
            ReplayGrade::Verifiable { missing: m1.union(m2) }
        },
        _ => ReplayGrade::Audit { gaps: grade_gaps(left).union(grade_gaps(right)) },
    }
}

/// A grade after redacting `redacted`: unchanged when nothing is redacted,
/// else audit-only over its gaps and the redacted classes.
pub open spec fn grade_redact(grade: ReplayGrade, redacted: Set<ReplayClass>) -> ReplayGrade {
    if redacted == Set::<ReplayClass>::empty() {
        grade
    } else {
        ReplayGrade::Audit { gaps: grade_gaps(grade).union(redacted) }
    }
}

/// The four production-incident replay grades.
#[derive(Clone, Copy, PartialEq, Eq, Hash, Debug, Structural)]
pub enum ReplayCompleteness {
    Replayable,
    StructuralReplay(StructuralReplayCompleteness),
    VerifiableIfArtifactsSupplied(MissingArtifactCompleteness),
    AuditOnly(AuditOnlyCompleteness),
}

impl View for ReplayCompleteness {
    type V = ReplayGrade;

    open spec fn view(&self) -> ReplayGrade {
        match *self {
            ReplayCompleteness::Replayable => ReplayGrade::Replayable,
            ReplayCompleteness::StructuralReplay(value) => ReplayGrade::StructuralReplay {
                reproduced: value.reproduced_set(),
                omitted: value.omitted_set(),
            },
            ReplayCompleteness::VerifiableIfArtifactsSupplied(value) => ReplayGrade::Verifiable {
                missing: value.missing_set(),
            },
            ReplayCompleteness::AuditOnly(value) => ReplayGrade::Audit { gaps: value.gap_set() },
        }
    }
}

impl ReplayCompleteness {
    fn lemma_valid(&self)
        ensures
            grade_valid(self@),
    {
        match self {
            ReplayCompleteness::Replayable => {},
            ReplayCompleteness::StructuralReplay(value) => {
                proof {
                    use_type_invariant(value);
                }
            },
            ReplayCompleteness::VerifiableIfArtifactsSupplied(value) => {
                proof {
                    use_type_invariant(value);
                }
            },
            ReplayCompleteness::AuditOnly(value) => {
                proof {
                    use_type_invariant(value);
                }
            },
        }
    }

    /// The fully replayable grade.
    pub fn replayable() -> (grade: Self)
        ensures
            grade@ == ReplayGrade::Replayable,
    {
        ReplayCompleteness::Replayable
    }

    fn audit_over(gaps: ReplayClassSet) -> (grade: Self)
        requires
            gaps@ != Set::<ReplayClass>::empty(),
        ensures
            grade@ == (ReplayGrade::Audit { gaps: gaps@ }),
    {
        ReplayCompleteness::AuditOnly(AuditOnlyCompleteness { missing_or_redacted_classes: gaps })
    }

    /// A structural-replay grade. Each list is strictly ascending in
    /// canonical order; the reproduced list never holds the absence-only
    /// class; neither list is empty; no class is both reproduced and
    /// omitted (the first shared class is reported).
    pub fn structural_replay(
        reproduced_classes: &[ReplayClass],
        omitted_classes: &[ReplayClass],
    ) -> (result: Result<Self, ReplayCompletenessError>)
        ensures
            ({
                let reproduced_fault = first_fault(
                    "reproduced_classes",
                    reproduced_classes@,
                    ReplayClassUse::Present,
                    0,
                );
                let omitted_fault = first_fault(
                    "omitted_classes",
                    omitted_classes@,
                    ReplayClassUse::AbsenceDiagnostic,
                    0,
                );
                let reproduced = reproduced_classes@.to_set();
                let omitted = omitted_classes@.to_set();
                match result {
                    Ok(grade) => {
                        &&& reproduced_fault is None
                        &&& omitted_fault is None
                        &&& grade@ == (ReplayGrade::StructuralReplay { reproduced, omitted })
                        &&& grade_valid(grade@)
                    },
                    Err(fault) => if reproduced_fault is Some {
                        reproduced_fault == Some(fault)
                    } else if omitted_fault is Some {
                        omitted_fault == Some(fault)
                    } else if reproduced == Set::<ReplayClass>::empty() {
                        fault == (ReplayCompletenessError::EmptyClassSet { list: "reproduced_classes" })
                    } else if omitted == Set::<ReplayClass>::empty() {
                        fault == (ReplayCompletenessError::EmptyClassSet { list: "omitted_classes" })
                    } else {
                        &&& fault is StructuralClassOverlap
                        &&& reproduced.contains(fault->StructuralClassOverlap_class)
                        &&& omitted.contains(fault->StructuralClassOverlap_class)
                        &&& forall|c: ReplayClass|
                            reproduced.contains(c) && omitted.contains(c) ==> class_index(
                                fault->StructuralClassOverlap_class,
                            ) <= class_index(c)
                    },
                }
            }),
    {
        let reproduced = ReplayClassSet::from_strictly_ordered(
            "reproduced_classes",
            reproduced_classes,
            ReplayClassUse::Present,
        )?;
        let omitted = ReplayClassSet::from_strictly_ordered(
            "omitted_classes",
            omitted_classes,
            ReplayClassUse::AbsenceDiagnostic,
        )?;
        if reproduced.is_empty() {
            return Err(ReplayCompletenessError::EmptyClassSet { list: "reproduced_classes" });
        }
        if omitted.is_empty() {
            return Err(ReplayCompletenessError::EmptyClassSet { list: "omitted_classes" });
        }
        let shared = reproduced.intersection(omitted);
        let mut shared_classes = shared.iter();
        let first_shared = shared_classes.next();
        proof {
            lemma_ordered_classes(shared);
        }
        if let Some(class) = first_shared {
            proof {
                assert(shared.ordered().to_set().contains(class));
                assert forall|c: ReplayClass|
                    reproduced@.contains(c) && omitted@.contains(c) implies class_index(class)
                    <= class_index(c) by {
                    assert(shared.ordered().to_set().contains(c));
                    let j = choose|j: int| 0 <= j < shared.ordered().len() && shared.ordered()[j] == c;
                    if j > 0 {
                        assert(class_index(shared.ordered()[0]) < class_index(shared.ordered()[j]));
                    }
                }
            }
            return Err(ReplayCompletenessError::StructuralClassOverlap { class });
        }
        proof {
            assert(shared.ordered().len() == 0);
            assert forall|c: ReplayClass| reproduced@.contains(c) implies !omitted@.contains(c) by {
                if omitted@.contains(c) {
                    assert(shared@.contains(c));
                    assert(shared.ordered().to_set().contains(c));
                }
            }
            assert(!reproduced@.contains(ReplayClass::CryptoEntropy)) by {
                if reproduced@.contains(ReplayClass::CryptoEntropy) {
                    lemma_present_list_has_no_absence_class(
                        "reproduced_classes",
                        reproduced_classes@,
                        ReplayClassUse::Present,
                    );
                }
            }
        }
        Ok(
            ReplayCompleteness::StructuralReplay(
                StructuralReplayCompleteness {
                    reproduced_classes: reproduced,
                    omitted_classes: omitted,
                },
            ),
        )
    }

    /// A grade verifiable once the artifacts of `missing_classes` are
    /// supplied: strictly ascending, non-empty, without the absence-only
    /// class.
    pub fn verifiable_if_artifacts_supplied(missing_classes: &[ReplayClass]) -> (result: Result<
        Self,
        ReplayCompletenessError,
    >)
        ensures
            ({
                let fault = first_fault(
                    "missing_classes",
                    missing_classes@,
                    ReplayClassUse::MissingArtifact,
                    0,
                );
                let missing = missing_classes@.to_set();
                match result {
                    Ok(grade) => {
                        &&& fault is None
                        &&& missing != Set::<ReplayClass>::empty()
                        &&& grade@ == (ReplayGrade::Verifiable { missing })
                        &&& grade_valid(grade@)
                    },
                    Err(error) => if fault is Some {
                        fault == Some(error)
                    } else {
                        &&& missing == Set::<ReplayClass>::empty()
                        &&& error == (ReplayCompletenessError::EmptyClassSet { list: "missing_classes" })
                    },
                }
            }),
    {
        let missing = ReplayClassSet::from_strictly_ordered(
            "missing_classes",
            missing_classes,
            ReplayClassUse::MissingArtifact,
        )?;
        if missing.is_empty() {
            return Err(ReplayCompletenessError::EmptyClassSet { list: "missing_classes" });
        }
        proof {
            if missing@.contains(ReplayClass::CryptoEntropy) {
                lemma_present_list_has_no_absence_class(
                    "missing_classes",
                    missing_classes@,
                    ReplayClassUse::MissingArtifact,
                );
            }
        }
        Ok(
            ReplayCompleteness::VerifiableIfArtifactsSupplied(
                MissingArtifactCompleteness { missing_classes: missing },
            ),
        )
    }

    /// An audit-only grade over `missing_or_redacted_classes`: strictly
    /// ascending and non-empty.
    pub fn audit_only(missing_or_redacted_classes: &[ReplayClass]) -> (result: Result<
        Self,
        ReplayCompletenessError,
    >)
        ensures
            ({
                let fault = first_fault(
                    "missing_or_redacted_classes",
                    missing_or_redacted_classes@,
                    ReplayClassUse::AbsenceDiagnostic,
                    0,
                );
                let gaps = missing_or_redacted_classes@.to_set();
                match result {
                    Ok(grade) => {
                        &&& fault is None
                        &&& gaps != Set::<ReplayClass>::empty()
                        &&& grade@ == (ReplayGrade::Audit { gaps })
                        &&& grade_valid(grade@)
                    },
                    Err(error) => if fault is Some {
                        fault == Some(error)
                    } else {
                        &&& gaps == Set::<ReplayClass>::empty()
                        &&& error == (ReplayCompletenessError::EmptyClassSet {
                            list: "missing_or_redacted_classes",
                        })
                    },
                }
            }),
    {
        let gaps = ReplayClassSet::from_strictly_ordered(
            "missing_or_redacted_classes",
            missing_or_redacted_classes,
            ReplayClassUse::AbsenceDiagnostic,
        )?;
        if gaps.is_empty() {
            return Err(
                ReplayCompletenessError::EmptyClassSet { list: "missing_or_redacted_classes" },
            );
        }
        Ok(ReplayCompleteness::audit_over(gaps))
    }

    /// The reproduced classes of a structural grade.
    pub fn reproduced_classes(&self) -> (set: Option<&ReplayClassSet>)
        ensures
            match self@ {
                ReplayGrade::StructuralReplay { reproduced, .. } => set is Some && set->0@ == reproduced,
                _ => set is None,
            },
    {
        match self {
            ReplayCompleteness::StructuralReplay(value) => Some(value.reproduced_classes()),
            _ => None,
        }
    }

    /// The omitted classes of a structural grade.
    pub fn omitted_classes(&self) -> (set: Option<&ReplayClassSet>)
        ensures
            match self@ {
                ReplayGrade::StructuralReplay { omitted, .. } => set is Some && set->0@ == omitted,
                _ => set is None,
            },
    {
        match self {
            ReplayCompleteness::StructuralReplay(value) => Some(value.omitted_classes()),
            _ => None,
        }
    }

    /// The missing classes of a later-supplyable grade.
    pub fn missing_classes(&self) -> (set: Option<&ReplayClassSet>)
        ensures
            match self@ {
                ReplayGrade::Verifiable { missing } => set is Some && set->0@ == missing,
                _ => set is None,
            },
    {
        match self {
            ReplayCompleteness::VerifiableIfArtifactsSupplied(value) => Some(
                value.missing_classes(),
            ),
            _ => None,
        }
    }

    /// The missing or redacted classes of an audit-only grade.
    pub fn missing_or_redacted_classes(&self) -> (set: Option<&ReplayClassSet>)
        ensures
            match self@ {
                ReplayGrade::Audit { gaps } => set is Some && set->0@ == gaps,
                _ => set is None,
            },
    {
        match self {
            ReplayCompleteness::AuditOnly(value) => Some(value.missing_or_redacted_classes()),
            _ => None,
        }
    }

    fn actual_gaps(&self) -> (gaps: ReplayClassSet)
        ensures
            gaps@ == grade_gaps(self@),
    {
        match self {
            ReplayCompleteness::Replayable => ReplayClassSet::empty(),
            ReplayCompleteness::StructuralReplay(value) => value.omitted_classes,
            ReplayCompleteness::VerifiableIfArtifactsSupplied(value) => value.missing_classes,
            ReplayCompleteness::AuditOnly(value) => value.missing_or_redacted_classes,
        }
    }

    /// Total, conservative meet of two independently derived grades.
    pub fn meet(&self, other: &Self) -> (grade: Self)
        ensures
            grade@ == grade_meet(self@, other@),
            grade_valid(grade@),
    {
        self.lemma_valid();
        other.lemma_valid();
        proof {
            lemma_meet_valid(self@, other@);
        }
        match (self, other) {
            (ReplayCompleteness::Replayable, value) => *value,
            (value, ReplayCompleteness::Replayable) => *value,
            (ReplayCompleteness::StructuralReplay(left), ReplayCompleteness::StructuralReplay(right)) => {
                let reproduced = left.reproduced_classes.intersection(right.reproduced_classes);
                let omitted = left.omitted_classes.union(right.omitted_classes).difference(
                    reproduced,
                );
                if reproduced.is_empty() {
                    return ReplayCompleteness::audit_over(omitted);
                }
                ReplayCompleteness::StructuralReplay(
                    StructuralReplayCompleteness {
                        reproduced_classes: reproduced,
                        omitted_classes: omitted,
                    },
                )
            },
            (
                ReplayCompleteness::VerifiableIfArtifactsSupplied(left),
                ReplayCompleteness::VerifiableIfArtifactsSupplied(right),
            ) => ReplayCompleteness::VerifiableIfArtifactsSupplied(
                MissingArtifactCompleteness {
                    missing_classes: left.missing_classes.union(right.missing_classes),
                },
            ),
            _ => ReplayCompleteness::audit_over(self.actual_gaps().union(other.actual_gaps())),
        }
    }

    /// Applies a redaction conservatively: an empty redaction leaves the
    /// grade unchanged; any other drops it to audit-only over its gaps and
    /// the redacted classes. The list is strictly ascending.
    pub fn weaken_for_redaction(&self, redacted_classes: &[ReplayClass]) -> (result: Result<
        Self,
        ReplayCompletenessError,
    >)
        ensures
            ({
                let fault = first_fault(
                    "redacted_classes",
                    redacted_classes@,
                    ReplayClassUse::AbsenceDiagnostic,
                    0,
                );
                match result {
                    Ok(grade) => {
                        &&& fault is None
                        &&& grade@ == grade_redact(self@, redacted_classes@.to_set())
                        &&& grade_valid(grade@)
                    },
                    Err(error) => fault == Some(error),
                }
            }),
    {
        self.lemma_valid();
        let redacted = ReplayClassSet::from_strictly_ordered(
            "redacted_classes",
            redacted_classes,
            ReplayClassUse::AbsenceDiagnostic,
        )?;
        if redacted.is_empty() {
            return Ok(*self);
        }
        let gaps = self.actual_gaps();
        let all_gaps = gaps.union(redacted);
        proof {
            let c = lemma_nonempty_witness(redacted@);
            assert(all_gaps@.contains(c));
        }
        Ok(ReplayCompleteness::audit_over(all_gaps))
    }
}

/// A list without faults under a usage that refuses the absence-only class
/// does not hold it.
proof fn lemma_present_list_has_no_absence_class(
    list: &'static str,
    classes: Seq<ReplayClass>,
    usage: ReplayClassUse,
)
    requires
        usage != ReplayClassUse::AbsenceDiagnostic,
        first_fault(list, classes, usage, 0) is None,
    ensures
        !classes.to_set().contains(ReplayClass::CryptoEntropy),
{
    lemma_no_fault_anywhere(list, classes, usage, 0);
    if classes.to_set().contains(ReplayClass::CryptoEntropy) {
        let k = choose|k: int| 0 <= k < classes.len() && classes[k] == ReplayClass::CryptoEntropy;
        assert(fault_at(list, classes, usage, k) is None);
    }
}

proof fn lemma_no_fault_anywhere(
    list: &'static str,
    classes: Seq<ReplayClass>,
    usage: ReplayClassUse,
    from: int,
)
    requires
        0 <= from,
        first_fault(list, classes, usage, from) is None,
    ensures
        forall|k: int| from <= k < classes.len() ==> fault_at(list, classes, usage, k) is None,
    decreases classes.len() - from,
{
    if from < classes.len() {
        lemma_no_fault_anywhere(list, classes, usage, from + 1);
    }
}

/// Every grade but the replayable one lacks at least one class.
proof fn lemma_gaps_nonempty(grade: ReplayGrade)
    requires
        grade_valid(grade),
        !(grade is Replayable),
    ensures
        grade_gaps(grade) != Set::<ReplayClass>::empty(),
{
}

/// The meet of two valid grades is a valid grade.
pub proof fn lemma_meet_valid(left: ReplayGrade, right: ReplayGrade)
    requires
        grade_valid(left),
        grade_valid(right),
    ensures
        grade_valid(grade_meet(left, right)),
{
    match (left, right) {
        (ReplayGrade::Replayable, _) => {},
        (_, ReplayGrade::Replayable) => {},
        (
            ReplayGrade::StructuralReplay { reproduced: r1, omitted: o1 },
            ReplayGrade::StructuralReplay { reproduced: r2, omitted: o2 },
        ) => {
            let w = lemma_nonempty_witness(o1);
            assert(o1.union(o2).difference(r1.intersect(r2)).contains(w));
        },
        (ReplayGrade::Verifiable { missing: m1 }, ReplayGrade::Verifiable { missing: m2 }) => {
            let w = lemma_nonempty_witness(m1);
            assert(m1.union(m2).contains(w));
        },
        _ => {
            lemma_gaps_nonempty(left);
            let w = lemma_nonempty_witness(grade_gaps(left));
            assert(grade_gaps(left).union(grade_gaps(right)).contains(w));
        },
    }
}

/// The classes a meet lacks are those either grade lacks.
pub proof fn lemma_meet_gaps(left: ReplayGrade, right: ReplayGrade)
    requires
        grade_valid(left),
        grade_valid(right),
    ensures
        grade_gaps(grade_meet(left, right)) == grade_gaps(left).union(grade_gaps(right)),
{
    match (left, right) {
        (ReplayGrade::Replayable, _) => {
            assert(grade_gaps(right) =~= Set::<ReplayClass>::empty().union(grade_gaps(right)));
        },
        (_, ReplayGrade::Replayable) => {
            assert(grade_gaps(left) =~= grade_gaps(left).union(Set::<ReplayClass>::empty()));
        },
        (
            ReplayGrade::StructuralReplay { reproduced: r1, omitted: o1 },
            ReplayGrade::StructuralReplay { reproduced: r2, omitted: o2 },
        ) => {
            assert(o1.union(o2).difference(r1.intersect(r2)) =~= o1.union(o2));
        },
        _ => {},
    }
}

/// A meet reproduces exactly the classes both grades reproduce.
pub proof fn lemma_meet_reproduces(left: ReplayGrade, right: ReplayGrade, class: ReplayClass)
    ensures
        grade_reproduces(grade_meet(left, right), class) == (grade_reproduces(left, class)
            && grade_reproduces(right, class)),
{
    match (left, right) {
        (ReplayGrade::Replayable, _) => {},
        (_, ReplayGrade::Replayable) => {},
        (
            ReplayGrade::StructuralReplay { reproduced: r1, .. },
            ReplayGrade::StructuralReplay { reproduced: r2, .. },
        ) => {
            if r1.intersect(r2) == Set::<ReplayClass>::empty() {
                assert(!r1.intersect(r2).contains(class));
            }
        },
        _ => {},
    }
}

/// The replayable grade is neutral for the meet.
pub proof fn lemma_meet_identity(grade: ReplayGrade)
    ensures
        grade_meet(ReplayGrade::Replayable, grade) == grade,
        grade_meet(grade, ReplayGrade::Replayable) == grade,
{
}

/// The meet is commutative.
pub proof fn lemma_meet_commutative(left: ReplayGrade, right: ReplayGrade)
    ensures
        grade_meet(left, right) == grade_meet(right, left),
{
    match (left, right) {
        (
            ReplayGrade::StructuralReplay { reproduced: r1, omitted: o1 },
            ReplayGrade::StructuralReplay { reproduced: r2, omitted: o2 },
        ) => {
            assert(r1.intersect(r2) =~= r2.intersect(r1));
            assert(o1.union(o2) =~= o2.union(o1));
        },
        (ReplayGrade::Verifiable { missing: m1 }, ReplayGrade::Verifiable { missing: m2 }) => {
            assert(m1.union(m2) =~= m2.union(m1));
        },
        _ => {
            assert(grade_gaps(left).union(grade_gaps(right)) =~= grade_gaps(right).union(
                grade_gaps(left),
            ));
        },
    }
}

/// The meet of a valid grade with itself is that grade.
pub proof fn lemma_meet_idempotent(grade: ReplayGrade)
    requires
        grade_valid(grade),
    ensures
        grade_meet(grade, grade) == grade,
{
    match grade {
        ReplayGrade::StructuralReplay { reproduced, omitted } => {
            assert(reproduced.intersect(reproduced) =~= reproduced);
            assert(omitted.union(omitted).difference(reproduced) =~= omitted);
        },
        ReplayGrade::Verifiable { missing } => {
            assert(missing.union(missing) =~= missing);
        },
        ReplayGrade::Audit { gaps } => {
            assert(gaps.union(gaps) =~= gaps);
        },
        ReplayGrade::Replayable => {},
    }
}

/// Outside the structural-structural and supplyable-supplyable cases, a
/// meet of non-replayable grades is audit-only over their joint gaps.
proof fn lemma_meet_falls_to_audit(left: ReplayGrade, right: ReplayGrade)
    requires
        !(left is Replayable),
        !(right is Replayable),
        !(left is StructuralReplay && right is StructuralReplay),
        !(left is Verifiable && right is Verifiable),
    ensures
        grade_meet(left, right) == (ReplayGrade::Audit {
            gaps: grade_gaps(left).union(grade_gaps(right)),
        }),
{
}

/// The meet is associative on valid grades.
pub proof fn lemma_meet_associative(a: ReplayGrade, b: ReplayGrade, c: ReplayGrade)
    requires
        grade_valid(a),
        grade_valid(b),
        grade_valid(c),
    ensures
        grade_meet(grade_meet(a, b), c) == grade_meet(a, grade_meet(b, c)),
{
    let ab = grade_meet(a, b);
    let bc = grade_meet(b, c);
    lemma_meet_valid(a, b);
    lemma_meet_valid(b, c);
    lemma_meet_gaps(a, b);
    lemma_meet_gaps(b, c);
    let ga = grade_gaps(a);
    let gb = grade_gaps(b);
    let gc = grade_gaps(c);
    assert(ga.union(gb).union(gc) =~= ga.union(gb.union(gc)));
    if a is Replayable || b is Replayable || c is Replayable {
    } else {
        match (a, b, c) {
            (
                ReplayGrade::StructuralReplay { reproduced: r1, omitted: o1 },
                ReplayGrade::StructuralReplay { reproduced: r2, omitted: o2 },
                ReplayGrade::StructuralReplay { reproduced: r3, omitted: o3 },
            ) => {
                let r12 = r1.intersect(r2);
                let r23 = r2.intersect(r3);
                let all = r1.intersect(r2).intersect(r3);
                assert(all =~= r1.intersect(r2.intersect(r3)));
                assert(o1.union(o2).difference(r12) =~= o1.union(o2));
                assert(o2.union(o3).difference(r23) =~= o2.union(o3));
                assert(o1.union(o2).union(o3).difference(all) =~= o1.union(o2).union(o3));
                assert(o1.union(o2.union(o3)).difference(all) =~= o1.union(o2).union(o3));
                if r12 == Set::<ReplayClass>::empty() {
                    assert(all =~= Set::<ReplayClass>::empty());
                }
                if r23 == Set::<ReplayClass>::empty() {
                    assert(all =~= Set::<ReplayClass>::empty());
                }
            },
            (
                ReplayGrade::Verifiable { missing: m1 },
                ReplayGrade::Verifiable { missing: m2 },
                ReplayGrade::Verifiable { missing: m3 },
            ) => {
                assert(m1.union(m2).union(m3) =~= m1.union(m2.union(m3)));
            },
            _ => {
                if ab is StructuralReplay {
                    lemma_meet_falls_to_audit(ab, c);
                } else if ab is Verifiable {
                    lemma_meet_falls_to_audit(ab, c);
                } else {
                    lemma_meet_falls_to_audit(ab, c);
                }
                lemma_meet_falls_to_audit(a, bc);
            },
        }
    }
}

/// Redacting a non-empty set of classes is meeting with the audit-only
/// grade over them.
pub proof fn lemma_redaction_is_meet_with_audit(grade: ReplayGrade, redacted: Set<ReplayClass>)
    requires
        grade_valid(grade),
        redacted != Set::<ReplayClass>::empty(),
    ensures
        grade_redact(grade, redacted) == grade_meet(grade, ReplayGrade::Audit { gaps: redacted }),
{
    if grade is Replayable {
        assert(Set::<ReplayClass>::empty().union(redacted) =~= redacted);
    }
}

/// Closed, half-open window of commit sequences the evidence was computed
/// over: `[start_seq, end_seq)`.
#[derive(Clone, Copy, PartialEq, Eq, Hash, Debug, Structural)]
pub struct CalibrationWindow {
    pub start_seq: u64,
    pub end_seq: u64,
}

/// Rejection of an empty or inverted calibration window.
#[derive(Clone, Copy, PartialEq, Eq, Debug, Structural)]
pub struct InvalidWindow {
    pub start_seq: u64,
    pub end_seq: u64,
}

impl CalibrationWindow {
    /// Rejects empty and inverted windows instead of normalizing them.
    pub fn new(start_seq: u64, end_seq: u64) -> (result: Result<Self, InvalidWindow>)
        ensures
            match result {
                Ok(window) => start_seq < end_seq && window == (CalibrationWindow {
                    start_seq,
                    end_seq,
                }),
                Err(error) => end_seq <= start_seq && error == (InvalidWindow {
                    start_seq,
                    end_seq,
                }),
            },
    {
        if start_seq >= end_seq {
            return Err(InvalidWindow { start_seq, end_seq });
        }
        Ok(CalibrationWindow { start_seq, end_seq })
    }
}

impl InvalidWindow {
    /// Human-readable diagnostic.
    pub fn message(&self) -> (text: String)
        ensures
            text@ == "calibration window ["@ + decimal(self.start_seq as nat) + ", "@ + decimal(
                self.end_seq as nat,
            ) + ") is empty or inverted"@,
    {
        let mut out = "calibration window [".to_owned();
        push_decimal(&mut out, self.start_seq);
        push_text(&mut out, ", ");
        push_decimal(&mut out, self.end_seq);
        push_text(&mut out, ") is empty or inverted");
        out
    }
}

/// The `Debug` name of an order violation.
pub open spec fn violation_name(kind: ClassOrderViolation) -> Seq<char> {
    match kind {
        ClassOrderViolation::Duplicate => "Duplicate"@,
        ClassOrderViolation::OutOfOrder => "OutOfOrder"@,
    }
}

/// Diagnostic text of a completeness failure.
pub open spec fn completeness_error_text(error: ReplayCompletenessError) -> Seq<char> {
    match error {
        ReplayCompletenessError::EmptyClassSet { list } => list@ + " must contain at least one class"@,
        ReplayCompletenessError::ClassesNotStrictlySorted {
            list,
            previous_index,
            index,
            previous,
            current,
            kind,
        } => list@ + "["@ + decimal(previous_index as nat) + "]="@ + class_name(previous) + " and "@
            + list@ + "["@ + decimal(index as nat) + "]="@ + class_name(current)
            + " violate strict ordering ("@ + violation_name(kind) + ")"@,
        ReplayCompletenessError::AbsenceOnlyClassCannotBePresent { list, index, class } => list@ + "["@
            + decimal(index as nat) + "]="@ + class_name(class)
            + " is an absence-only diagnostic class and cannot be reproduced or present"@,
        ReplayCompletenessError::AbsenceOnlyClassCannotBeSupplied { list, index, class } => list@
            + "["@ + decimal(index as nat) + "]="@ + class_name(class)
            + " is an absence-only diagnostic class and cannot be supplied later"@,
        ReplayCompletenessError::StructuralClassOverlap { class } => "structural replay class "@
            + class_name(class) + " is both reproduced and omitted"@,
    }
}

impl ReplayCompletenessError {
    /// Human-readable diagnostic.
    pub fn message(&self) -> (text: String)
        ensures
            text@ == completeness_error_text(*self),
    {
        match *self {
            ReplayCompletenessError::EmptyClassSet { list } => {
                let mut out = list.to_owned();
                push_text(&mut out, " must contain at least one class");
                out
            },
            ReplayCompletenessError::ClassesNotStrictlySorted {
                list,
                previous_index,
                index,
                previous,
                current,
                kind,
            } => {
                let mut out = list.to_owned();
                push_text(&mut out, "[");
                push_decimal(&mut out, previous_index as u64);
                push_text(&mut out, "]=");
                push_text(&mut out, previous.as_str());
                push_text(&mut out, " and ");
                push_text(&mut out, list);
                push_text(&mut out, "[");
                push_decimal(&mut out, index as u64);
                push_text(&mut out, "]=");
                push_text(&mut out, current.as_str());
                push_text(&mut out, " violate strict ordering (");
                match kind {
                    ClassOrderViolation::Duplicate => push_text(&mut out, "Duplicate"),
                    ClassOrderViolation::OutOfOrder => push_text(&mut out, "OutOfOrder"),
                }
                push_text(&mut out, ")");
                out
            },
            ReplayCompletenessError::AbsenceOnlyClassCannotBePresent { list, index, class } => {
                let mut out = list.to_owned();
                push_text(&mut out, "[");
                push_decimal(&mut out, index as u64);
                push_text(&mut out, "]=");
                push_text(&mut out, class.as_str());
                push_text(
                    &mut out,
                    " is an absence-only diagnostic class and cannot be reproduced or present",
                );
                out
            },
            ReplayCompletenessError::AbsenceOnlyClassCannotBeSupplied { list, index, class } => {
                let mut out = list.to_owned();
                push_text(&mut out, "[");
                push_decimal(&mut out, index as u64);
                push_text(&mut out, "]=");
                push_text(&mut out, class.as_str());
                push_text(&mut out, " is an absence-only diagnostic class and cannot be supplied later");
                out
            },
            ReplayCompletenessError::StructuralClassOverlap { class } => {
                let mut out = "structural replay class ".to_owned();
                push_text(&mut out, class.as_str());
                push_text(&mut out, " is both reproduced and omitted");
                out
            },
        }
    }
}

} // verus!
