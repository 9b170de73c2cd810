//! The decisions behind the encoder that is generated for an extended
//! item: which parts are always written and what FX bit follows each.

use vstd::prelude::*;

verus! {

/// Where the FX bit written after a part comes from.
#[derive(Debug, Clone, Copy, PartialEq, Eq)]
pub enum FxSource {
    /// The bit is set exactly when the given (next) part is present.
    NextPartPresent(usize),
    /// The bit is zero: no extension follows.
    NoExtension,
}

/// How one part of an extended item is encoded.
#[derive(Debug, Clone, Copy, PartialEq, Eq)]
pub struct PartEncodeStep {
    /// The part's position.
    pub part: usize,
    /// Whether the part is written only when present (every part but the
    /// first is optional).
    pub optional: bool,
    /// The FX bit written after the part.
    pub fx: FxSource,
}

/// The encoding step of part `i` of an extended item of `total` parts.
pub open spec fn part_step(i: nat, total: nat) -> PartEncodeStep {
    PartEncodeStep {
        part: i as usize,
        optional: i > 0,
        fx: if i + 1 < total {
            FxSource::NextPartPresent((i + 1) as usize)
        } else {
            FxSource::NoExtension
        },
    }
}

/// The encoding steps of an extended item of `total_parts` parts, in order:
/// the first part is always written; each later part is written when
/// present; after each written part comes an FX bit that says whether the
/// next part is present, and after the last part an FX bit of zero.
pub fn extended_encode_steps(total_parts: usize) -> (r: Vec<PartEncodeStep>)
    ensures
        r@.len() == total_parts,
        forall|i: int| 0 <= i < total_parts ==> #[trigger] r@[i] == part_step(i as nat, total_parts as nat),
        total_parts >= 1 ==> !r@[0].optional,
        forall|i: int| 0 <= i < total_parts ==> (#[trigger] r@[i]).part == i && (r@[i].optional
            <==> i > 0),
        forall|i: int|
            0 <= i < total_parts ==> ((#[trigger] r@[i]).fx == FxSource::NoExtension <==> i + 1
                == total_parts),
        forall|i: int|
            0 <= i < total_parts && i + 1 < total_parts ==> (#[trigger] r@[i]).fx
                == FxSource::NextPartPresent((i + 1) as usize),
{
    let mut steps: Vec<PartEncodeStep> = Vec::new();
    let mut i: usize = 0;
    while i < total_parts
        invariant
            i <= total_parts,
            steps@.len() == i,
            forall|j: int| 0 <= j < i ==> #[trigger] steps@[j] == part_step(j as nat, total_parts as nat),
        decreases total_parts - i,
    {
        let fx = if i + 1 < total_parts {
            FxSource::NextPartPresent(i + 1)
        } else {
            FxSource::NoExtension
        };
        steps.push(PartEncodeStep { part: i, optional: i > 0, fx });
        i = i + 1;
    }
    steps
}

/// The first part of an extended item is always written and every later
/// part only when present; the FX bit after part `i` refers to part
/// `i + 1`, and only the last part is followed by a zero FX bit.
pub proof fn law_part_steps(total: nat, i: nat)
    requires
        i < total <= usize::MAX,
    ensures
        part_step(i, total).part == i,
        !part_step(0, total).optional,
        part_step(i, total).optional <==> i >= 1,
        i + 1 < total ==> part_step(i, total).fx == FxSource::NextPartPresent((i + 1) as usize),
        i + 1 == total ==> part_step(i, total).fx == FxSource::NoExtension,
{
}

/// Whether a step writes its part when the first `present` parts are
/// present.
pub open spec fn step_writes(step: PartEncodeStep, present: nat) -> bool {
    !step.optional || step.part < present
}

/// The FX bit a step writes when the first `present` parts are present.
pub open spec fn step_fx(step: PartEncodeStep, present: nat) -> bool {
    match step.fx {
        FxSource::NextPartPresent(next) => next < present,
        FxSource::NoExtension => false,
    }
}

/// When the present parts of an extended item are its first `present`
/// parts (at least the first), the encoder writes exactly those parts, and
/// the FX bit after a written part is set exactly when another part
/// follows it.
pub proof fn law_fx_chain(total: nat, present: nat, i: nat)
    requires
        1 <= present <= total <= usize::MAX,
        i < total,
    ensures
        step_writes(part_step(i, total), present) == (i < present),
        i < present ==> step_fx(part_step(i, total), present) == (i + 1 < present),
{
}

} // verus!
