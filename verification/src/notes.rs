//! How the notes of a report begin and end.

use crate::ir::Feature;
use crate::kernel::Arithmetic;
use crate::plan;
use crate::program;
use crate::program::{LossKind, LossView};
use crate::scalar::Scalar;
use crate::text;
use crate::wording;
use vstd::prelude::*;

verus! {

/// Whether a note reports that something of a feature is left out: it begins
/// with the feature's name and a colon.
pub open spec fn is_note_on(feature: Feature, note: LossView) -> bool {
    note.kind == LossKind::ParametricRecordOmitted && (plan::name_of(feature)
        + ":"@).is_prefix_of(note.message)
}

/// What every note on a body merged into the first one ends with.
pub open spec fn merged_ending() -> Seq<char> {
    ": starts a further body, and the emitted program merges every body into one part"@
}

/// Whether a note reports that a body is merged into the first one.
pub open spec fn is_merge_note(note: LossView) -> bool {
    merged_ending().is_suffix_of(note.message)
}

/// How many of the first `n` notes report merged bodies.
pub open spec fn merge_notes(losses: Seq<LossView>, n: int) -> int
    decreases n,
{
    if n <= 0 {
        0
    } else {
        merge_notes(losses, n - 1) + if is_merge_note(losses[n - 1]) {
            1int
        } else {
            0int
        }
    }
}

/// How many notes report merged bodies.
pub open spec fn all_merge_notes(losses: Seq<LossView>) -> int {
    merge_notes(losses, losses.len() as int)
}

proof fn merge_notes_same(a: Seq<LossView>, b: Seq<LossView>, n: int)
    requires
        n <= a.len(),
        n <= b.len(),
        forall|i: int| 0 <= i < n ==> #[trigger] a[i] == b[i],
    ensures
        merge_notes(a, n) == merge_notes(b, n),
    decreases n,
{
    if n > 0 {
        merge_notes_same(a, b, n - 1);
        assert(a[n - 1] == b[n - 1]);
    }
}

pub proof fn merge_notes_push(losses: Seq<LossView>, note: LossView)
    ensures
        all_merge_notes(losses.push(note)) == all_merge_notes(losses) + if is_merge_note(note) {
            1int
        } else {
            0int
        },
{
    merge_notes_same(losses, losses.push(note), losses.len() as int);
}

pub proof fn merge_notes_add(a: Seq<LossView>, b: Seq<LossView>, n: int)
    requires
        0 <= n <= b.len(),
        forall|i: int| 0 <= i < n ==> !is_merge_note(#[trigger] b[i]),
    ensures
        merge_notes(a + b, a.len() + n) == all_merge_notes(a),
    decreases n,
{
    if n > 0 {
        merge_notes_add(a, b, n - 1);
        assert((a + b)[a.len() + n - 1] == b[n - 1]);
    } else {
        merge_notes_same(a, a + b, a.len() as int);
    }
}

/// A message with another last letter reports no merged body.
proof fn other_ending(message: Seq<char>, tail: Seq<char>)
    requires
        tail.len() > 0,
        tail.last() != 't',
    ensures
        !merged_ending().is_suffix_of(message + tail),
{
    reveal_strlit(
        ": starts a further body, and the emitted program merges every body into one part",
    );
    let ending = merged_ending();
    let whole = message + tail;
    if ending.is_suffix_of(whole) {
        assert(ending.last() == 't');
        assert(whole.last() == tail.last());
        assert(whole.subrange(whole.len() - ending.len(), whole.len() as int).last()
            == whole.last());
    }
}

/// What a feature's name and a colon begin is a note on the feature.
proof fn begins_with_name(feature: Feature, rest: Seq<char>)
    requires
        rest.len() > 0,
        rest[0] == ':',
    ensures
        is_note_on(feature, program::omitted(plan::name_of(feature) + rest)),
{
    reveal_strlit(":");
    let name = plan::name_of(feature);
    let head = name + ":"@;
    let whole = name + rest;
    assert(head =~= whole.subrange(0, head.len() as int));
}

/// A note that ends unlike one on a merged body.
proof fn plain_note(feature: Feature, middle: Seq<char>, tail: Seq<char>)
    requires
        tail.len() > 0,
        tail.last() != 't',
        (middle + tail)[0] == ':',
    ensures
        is_note_on(feature, program::omitted(plan::name_of(feature) + middle + tail)),
        !is_merge_note(program::omitted(plan::name_of(feature) + middle + tail)),
        is_note_on(feature, program::omitted(plan::name_of(feature) + (middle + tail))),
        !is_merge_note(program::omitted(plan::name_of(feature) + (middle + tail))),
{
    let name = plan::name_of(feature);
    assert(name + middle + tail =~= name + (middle + tail));
    begins_with_name(feature, middle + tail);
    other_ending(name + middle, tail);
}

/// A note made of a name and a remark that ends unlike one on a merged body.
proof fn plain_remark(feature: Feature, tail: Seq<char>)
    requires
        tail.len() > 0,
        tail.last() != 't',
        tail[0] == ':',
    ensures
        is_note_on(feature, program::omitted(plan::name_of(feature) + tail)),
        !is_merge_note(program::omitted(plan::name_of(feature) + tail)),
{
    assert(Seq::<char>::empty() + tail =~= tail);
    plain_note(feature, Seq::empty(), tail);
}

/// The notes that leave a feature out all begin with its name, and none of them
/// reports a merged body.
pub proof fn notes_on_features(feature: Feature)
    ensures
        is_note_on(feature, wording::suppressed_note(feature)),
        is_note_on(feature, wording::unresolved_profile(feature)),
        is_note_on(feature, wording::unresolved_operation(feature)),
        is_note_on(feature, wording::undrawn(feature)),
        is_note_on(feature, wording::without_groups(feature)),
        is_note_on(feature, wording::unsupported_family(feature)),
        is_note_on(feature, plan::not_blind(feature)),
        is_note_on(feature, plan::without_sketch(feature)),
        !is_merge_note(wording::suppressed_note(feature)),
        !is_merge_note(wording::unresolved_profile(feature)),
        !is_merge_note(wording::unresolved_operation(feature)),
        !is_merge_note(wording::undrawn(feature)),
        !is_merge_note(wording::without_groups(feature)),
        !is_merge_note(wording::unsupported_family(feature)),
        !is_merge_note(wording::halved(feature)),
        !is_merge_note(plan::not_blind(feature)),
        !is_merge_note(plan::without_sketch(feature)),
        !is_merge_note(plan::stands_in(feature)),
        is_merge_note(wording::further_body(feature)),
{
    reveal_strlit(": suppressed in the source");
    plain_remark(feature, ": suppressed in the source"@);
    reveal_strlit(": its profile is unresolved");
    plain_remark(feature, ": its profile is unresolved"@);
    reveal_strlit(": its boolean operation is unresolved");
    plain_remark(feature, ": its boolean operation is unresolved"@);
    reveal_strlit(
        ": no exterior loop of its profile is a single circle ahead of its holes, and this encoder writes circular profile loops only",
    );
    plain_remark(
        feature,
        ": no exterior loop of its profile is a single circle ahead of its holes, and this encoder writes circular profile loops only"@,
    );
    reveal_strlit(": it has no group of edges");
    plain_remark(feature, ": it has no group of edges"@);
    reveal_strlit(": an asymmetric two-sided extent is emitted as two extrusions");
    plain_remark(feature, ": an asymmetric two-sided extent is emitted as two extrusions"@);
    reveal_strlit(
        ": its extent is not blind on every side; through-all, to-face and to-vertex laws need target geometry this encoder does not resolve",
    );
    plain_remark(
        feature,
        ": its extent is not blind on every side; through-all, to-face and to-vertex laws need target geometry this encoder does not resolve"@,
    );
    reveal_strlit(": its profile names no sketch");
    plain_remark(feature, ": its profile names no sketch"@);
    reveal_strlit(
        ": no region of its exterior loop was found to hold material, so the loop is written as it is",
    );
    plain_remark(
        feature,
        ": no region of its exterior loop was found to hold material, so the loop is written as it is"@,
    );
    reveal_strlit(": the ");
    reveal_strlit(" feature family is not expressed by this encoder");
    let name = plan::name_of(feature);
    let family = ": the "@ + wording::family_of(feature.definition);
    assert(name + ": the "@ + wording::family_of(feature.definition) =~= name + family);
    plain_note(feature, family, " feature family is not expressed by this encoder"@);
    let merged = name + merged_ending();
    assert(merged_ending() =~= merged.subrange(
        merged.len() - merged_ending().len(),
        merged.len() as int,
    ));
}

/// The note on a fillet group begins with its feature's name.
pub proof fn notes_on_groups(m: Arithmetic, feature: Feature, radius: Scalar, index: int)
    ensures
        is_note_on(feature, wording::varying_radius(feature, index)),
        is_note_on(feature, wording::no_blend_face(m, feature, radius)),
        !is_merge_note(wording::varying_radius(feature, index)),
        !is_merge_note(wording::no_blend_face(m, feature, radius)),
{
    let name = plan::name_of(feature);
    reveal_strlit(": group ");
    reveal_strlit(" has a non-constant radius law, which this encoder cannot express");
    let group = ": group "@ + text::digits(index as nat);
    assert(name + ": group "@ + text::digits(index as nat) =~= name + group);
    plain_note(
        feature,
        group,
        " has a non-constant radius law, which this encoder cannot express"@,
    );
    reveal_strlit(": no blend face of radius ");
    reveal_strlit(
        " was found in the solved body, so its edge selection could not be recovered",
    );
    let size = ": no blend face of radius "@ + (m.number)(radius);
    assert(name + ": no blend face of radius "@ + (m.number)(radius) =~= name + size);
    plain_note(
        feature,
        size,
        " was found in the solved body, so its edge selection could not be recovered"@,
    );
}

/// The other notes of resolution.
pub proof fn notes_on_plans(feature: Feature, sketch: Seq<char>, reason: Seq<char>)
    ensures
        is_note_on(feature, plan::unplaced_sketch(feature, sketch)),
        !is_merge_note(plan::unplaced_sketch(feature, sketch)),
        !is_merge_note(plan::unattributed(feature, reason)),
{
    let name = plan::name_of(feature);
    reveal_strlit(": its sketch ");
    reveal_strlit(" has no plane, or its profile loops are open or cross one another");
    let named = ": its sketch "@ + sketch;
    assert(name + ": its sketch "@ + sketch =~= name + named);
    plain_note(
        feature,
        named,
        " has no plane, or its profile loops are open or cross one another"@,
    );
    reveal_strlit(", and no solved carrier could be attributed to any of its profile loops");
    other_ending(
        name + ": "@ + reason,
        ", and no solved carrier could be attributed to any of its profile loops"@,
    );
}

/// The note on a body without a classifier reports no merged body.
pub proof fn note_on_classifier()
    ensures
        !is_merge_note(plan::unclassified()),
{
    reveal_strlit(
        "the body is not a solid of revolution, so inferred profiles keep every atomic region of their exterior loop rather than testing each for material",
    );
    let whole = "the body is not a solid of revolution, so inferred profiles keep every atomic region of their exterior loop rather than testing each for material"@;
    other_ending(Seq::empty(), whole);
    assert(Seq::<char>::empty() + whole =~= whole);
}

/// The note on a loop that is not a circle reports no merged body.
pub proof fn notes_on_loops(sketch: Seq<char>, ring: usize)
    ensures
        !is_merge_note(wording::not_a_circle(sketch, ring)),
{
    reveal_strlit(
        " is not a single circle; this encoder writes circular profile loops only",
    );
    other_ending(
        "sketch "@ + sketch + " loop "@ + text::digits(ring as nat),
        " is not a single circle; this encoder writes circular profile loops only"@,
    );
}

} // verus!
