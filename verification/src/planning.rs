//! What planning makes of a document, feature by feature.

use crate::arrangement;
use crate::arrangement::{ArrangementView, RegionView};
use crate::assign;
use crate::assign::PendingView;
use crate::frame;
use crate::frame::SketchFrame;
use crate::identity;
use crate::ir::{
    BooleanOp, Feature, FeatureDefinition, Model, ProfileRef, SketchPlacement, SketchProfileRegion,
};
use crate::kernel::{Arithmetic, Vec3};
use crate::lines;
use crate::list::Ranked;
use crate::meridian;
use crate::plan;
use crate::plan::PlanView;
use crate::profile;
use crate::profile::{CutView, ProfileView};
use crate::program::{LossKind, LossView};
use crate::scalar::Scalar;
use crate::settle;
use crate::text;
use vstd::prelude::*;

verus! {

// ---------------------------------------------------------------------------
// the timeline
// ---------------------------------------------------------------------------

/// Whether a sequence of bytes comes before another: at the first place where they
/// differ it has the smaller byte, or it ends there.
pub open spec fn bytes_before(a: Seq<u8>, b: Seq<u8>) -> bool {
    exists|k: int| #[trigger] part_at(a, b, k)
}

/// Whether two sequences of bytes part at a place, the first being the lesser.
pub open spec fn part_at(a: Seq<u8>, b: Seq<u8>, k: int) -> bool {
    &&& 0 <= k <= a.len()
    &&& k < b.len()
    &&& a.take(k) == b.take(k)
    &&& k == a.len() || a[k] < b[k]
}

proof fn bytes_part_alike(a: Seq<u8>, b: Seq<u8>)
    ensures
        text::bytes_precede(a, b) == bytes_before(a, b),
{
    if text::bytes_precede(a, b) {
        let k = choose|k: int| text::splits_before(a, b, k);
        assert(a.take(k) =~= b.take(k));
        assert(part_at(a, b, k));
    }
    if bytes_before(a, b) {
        let k = choose|k: int| #[trigger] part_at(a, b, k);
        assert forall|j: int| 0 <= j < k implies a[j] == b[j] by {
            assert(a.take(k)[j] == b.take(k)[j]);
        }
        assert(text::splits_before(a, b, k));
    }
}

/// The timeline holds the features of the document, each as often as that does. No
/// feature stands behind one of a greater ordinal, nor, among those of one ordinal,
/// behind one whose identity is the greater byte by byte.
pub proof fn timeline_runs_by_ordinal_and_identity(model: Model)
    ensures
        plan::timeline(model).to_multiset() == model.features@.to_multiset(),
        forall|i: int, j: int|
            0 <= i < j < plan::timeline(model).len() ==> {
                let a = #[trigger] plan::timeline(model)[i];
                let b = #[trigger] plan::timeline(model)[j];
                &&& a.ordinal <= b.ordinal
                &&& a.ordinal == b.ordinal ==> !bytes_before(
                    vstd::utf8::encode_utf8(b.id@),
                    vstd::utf8::encode_utf8(a.id@),
                )
            },
{
    plan::timeline_is_ordered(model);
    let steps = plan::timeline(model);
    assert forall|i: int, j: int| 0 <= i < j < steps.len() implies {
        let a = #[trigger] steps[i];
        let b = #[trigger] steps[j];
        &&& a.ordinal <= b.ordinal
        &&& a.ordinal == b.ordinal ==> !bytes_before(
            vstd::utf8::encode_utf8(b.id@),
            vstd::utf8::encode_utf8(a.id@),
        )
    } by {
        let a = steps[i];
        let b = steps[j];
        assert(!b.before(a));
        bytes_part_alike(vstd::utf8::encode_utf8(b.id@), vstd::utf8::encode_utf8(a.id@));
    }
}

// ---------------------------------------------------------------------------
// sketches
// ---------------------------------------------------------------------------

/// The frame of a sketch on a plane: its normal and its first axis of length one,
/// the latter in the plane, and the second axis to the left of the first.
pub open spec fn plane_frame(m: Arithmetic, origin: Vec3, normal: Vec3, u_axis: Vec3) -> SketchFrame {
    let n = m.unit(normal);
    let x = m.unit(m.reject(u_axis, n));
    SketchFrame { origin, normal: n, x_axis: x, y_axis: m.cross(n, x) }
}

/// Whether a sketch is on a plane and its loops can be arranged.
pub open spec fn is_usable(m: Arithmetic, model: Model, i: int) -> bool {
    &&& model.sketches@[i].placement is Resolved
    &&& arrangement::arrangement_of(
        m,
        model.sketches@[i].profiles@,
        model.sketch_entities@,
    ) is Some
}

/// Whether a sketch is the last usable one of an identity among the first `n`.
pub open spec fn is_sketch_of(m: Arithmetic, model: Model, id: Seq<char>, n: int, i: int) -> bool {
    &&& 0 <= i < n
    &&& model.sketches@[i].id@ == id
    &&& is_usable(m, model, i)
    &&& forall|j: int|
        i < j < n ==> !((#[trigger] model.sketches@[j]).id@ == id && is_usable(m, model, j))
}

proof fn sketches_are_entered(m: Arithmetic, model: Model, id: Seq<char>, n: int)
    requires
        0 <= n <= model.sketches@.len(),
    ensures
        ({
            let frames = plan::placed_frames(m, model, n);
            let arrangements = plan::placed_arrangements(m, model, n);
            &&& frames.contains_key(id) == arrangements.contains_key(id)
            &&& frames.contains_key(id) ==> exists|i: int| #[trigger]
                is_sketch_of(m, model, id, n, i) && is_entered(
                    m,
                    model,
                    i,
                    frames[id],
                    arrangements[id],
                )
            &&& !frames.contains_key(id) ==> forall|j: int|
                0 <= j < n ==> !((#[trigger] model.sketches@[j]).id@ == id && is_usable(
                    m,
                    model,
                    j,
                ))
        }),
    decreases n,
{
    if n > 0 {
        sketches_are_entered(m, model, id, n - 1);
        let frames = plan::placed_frames(m, model, n);
        let fewer = plan::placed_frames(m, model, n - 1);
        let last = n - 1;
        assert(is_usable(m, model, last) == (plan::placed(m, model, last) is Some));
        if is_usable(m, model, last) && model.sketches@[last].id@ == id {
            assert(is_sketch_of(m, model, id, n, last));
        } else if fewer.contains_key(id) {
            let i = choose|i: int| #[trigger]
                is_sketch_of(m, model, id, n - 1, i) && is_entered(
                    m,
                    model,
                    i,
                    fewer[id],
                    plan::placed_arrangements(m, model, n - 1)[id],
                );
            assert(is_sketch_of(m, model, id, n, i));
        }
    }
}

/// Whether a frame and an arrangement are those of a sketch.
pub open spec fn is_entered(
    m: Arithmetic,
    model: Model,
    i: int,
    frame: SketchFrame,
    arrangement: ArrangementView,
) -> bool {
    &&& model.sketches@[i].placement matches SketchPlacement::Resolved { origin, normal, u_axis }
        && frame == plane_frame(m, origin, normal, u_axis)
    &&& Some(arrangement) == arrangement::arrangement_of(
        m,
        model.sketches@[i].profiles@,
        model.sketch_entities@,
    )
}

/// A sketch has a frame and an arrangement exactly if it is on a plane and its
/// loops can be arranged: those of its own plane and its own loops. Of several
/// sketches of one identity the last such counts.
pub proof fn sketches_are_placed_and_arranged(m: Arithmetic, model: Model, id: Seq<char>)
    ensures
        ({
            let frames = plan::frames_of(m, model);
            let arrangements = plan::arrangements_of(m, model);
            let all = model.sketches@.len() as int;
            &&& frames.contains_key(id) == arrangements.contains_key(id)
            &&& frames.contains_key(id) ==> exists|i: int| #[trigger]
                is_sketch_of(m, model, id, all, i) && is_entered(
                    m,
                    model,
                    i,
                    frames[id],
                    arrangements[id],
                )
            &&& !frames.contains_key(id) ==> forall|j: int|
                0 <= j < all ==> !((#[trigger] model.sketches@[j]).id@ == id && is_usable(
                    m,
                    model,
                    j,
                ))
        }),
{
    sketches_are_entered(m, model, id, model.sketches@.len() as int);
}

// ---------------------------------------------------------------------------
// extrudes
// ---------------------------------------------------------------------------

/// The sketch a profile reference names, whatever its form.
pub open spec fn names_sketch(profile: ProfileRef, sketch: Seq<char>) -> bool {
    match profile {
        ProfileRef::Sketch(named) => named@ == sketch,
        ProfileRef::SketchProfiles { sketch: named, .. } => named@ == sketch,
        ProfileRef::SketchRegions { sketch: named, .. } => named@ == sketch,
        ProfileRef::SketchEntities { sketch: named, .. } => named@ == sketch,
        ProfileRef::SketchSelection { sketch: named } => named@ == sketch,
        ProfileRef::Other { .. } => false,
    }
}

/// Whether a plan is that of an extrude: on the frame of the sketch its profile
/// names, from as far behind the sketch's station along its normal as it reaches
/// back to as far in front as it reaches forward, the lower end first.
pub open spec fn is_planned_as(
    m: Arithmetic,
    frames: Map<Seq<char>, SketchFrame>,
    feature: Feature,
    plan: PlanView,
) -> bool {
    &&& feature.suppressed != Some(true)
    &&& feature.definition matches FeatureDefinition::Extrude { profile, extent, op } && {
        &&& plan.feature == feature
        &&& plan.op == op
        &&& plan.extent == extent
        &&& names_sketch(profile, plan.sketch)
        &&& frames.contains_key(plan.sketch)
        &&& plan.frame == frames[plan.sketch]
        &&& plan.profile is None
        &&& exists|back: Scalar, forward: Scalar| #[trigger]
            lines::reaches(m, extent, back, forward) && spans(
                m,
                plan.frame,
                back,
                forward,
                plan.span,
            )
    }
}

/// Whether a span runs from so far behind a plane to so far in front of it.
pub open spec fn spans(
    m: Arithmetic,
    f: SketchFrame,
    back: Scalar,
    forward: Scalar,
    span: (Scalar, Scalar),
) -> bool {
    let station = m.dot(f.origin, f.normal);
    let low = m.minus(station, back);
    let high = m.plus(station, forward);
    if low.at_most(high) {
        span == (low, high)
    } else {
        span == (high, low)
    }
}

/// Whether a note says why an extrude is not planned.
pub open spec fn is_noted_as(
    m: Arithmetic,
    frames: Map<Seq<char>, SketchFrame>,
    feature: Feature,
    note: LossView,
) -> bool {
    &&& feature.suppressed != Some(true)
    &&& feature.definition matches FeatureDefinition::Extrude { profile, extent, .. } && {
        ||| profile is Other && note == lines::note_on(feature, ": its profile names no sketch"@)
        ||| exists|sketch: Seq<char>| #[trigger]
            names_sketch(profile, sketch) && if frames.contains_key(sketch) {
                (forall|back: Scalar, forward: Scalar|
                    !#[trigger] lines::reaches(m, extent, back, forward)) && note
                    == lines::note_on(
                    feature,
                    ": its extent is not blind on every side; through-all, to-face and to-vertex laws need target geometry this encoder does not resolve"@,
                )
            } else {
                note == lines::note_on(
                    feature,
                    ": its sketch "@ + sketch
                        + " has no plane, or its profile loops are open or cross one another"@,
                )
            }
    }
}

/// A feature is planned as the extrude it is, or noted, or neither: the last
/// exactly if it is switched off or no extrude.
pub proof fn feature_is_planned_or_noted(
    m: Arithmetic,
    frames: Map<Seq<char>, SketchFrame>,
    feature: Feature,
)
    ensures
        match plan::outline(m, frames, feature) {
            Some(Ok(plan)) => is_planned_as(m, frames, feature, plan),
            Some(Err(note)) => is_noted_as(m, frames, feature, note),
            None => feature.suppressed == Some(true) || !(feature.definition is Extrude),
        },
{
    if let FeatureDefinition::Extrude { profile, extent, op } = feature.definition {
        if let Some(sketch) = plan::sketch_of(profile) {
            assert(names_sketch(profile, sketch));
            if frames.contains_key(sketch) {
                if let Some((back, forward)) = frame::travel(m, extent) {
                    assert(lines::reaches(m, extent, back, forward));
                    let span = frame::swept_span(m, frames[sketch], extent)->0;
                    assert(spans(m, frames[sketch], back, forward, span));
                } else {
                    assert forall|back: Scalar, forward: Scalar| !#[trigger] lines::reaches(
                        m,
                        extent,
                        back,
                        forward,
                    ) by {}
                }
            } else {
                let note = plan::unplaced_sketch(feature, sketch);
                assert(note.message =~= lines::called(feature) + (": its sketch "@ + sketch
                    + " has no plane, or its profile loops are open or cross one another"@));
            }
        }
    }
}

/// The extrudes are planned, and the others noted, in the order of the timeline.
pub proof fn features_are_planned_in_order(m: Arithmetic, model: Model, n: int)
    requires
        0 <= n < plan::timeline(model).len(),
    ensures
        ({
            let steps = plan::timeline(model);
            let frames = plan::frames_of(m, model);
            let all = steps.len() as int;
            let next = plan::outline(m, frames, steps[n]);
            let plans = plan::outlined(m, frames, steps, n);
            let notes = plan::outline_losses(m, frames, steps, n);
            &&& plan::plans_of(m, model) == plan::outlined(m, frames, steps, all)
            &&& plan::outlined(m, frames, steps, 0).len() == 0
            &&& plan::outline_losses(m, frames, steps, 0).len() == 0
            &&& plan::outlined(m, frames, steps, n + 1) == if next is Some && next->0 is Ok {
                plans.push(next->0->Ok_0)
            } else {
                plans
            }
            &&& plan::outline_losses(m, frames, steps, n + 1) == if next is Some && next->0 is Err {
                notes.push(next->0->Err_0)
            } else {
                notes
            }
        }),
{
}

// ---------------------------------------------------------------------------
// profile references
// ---------------------------------------------------------------------------

/// Whether regions are those a document lists by their loops.
pub open spec fn are_listed(given: Seq<SketchProfileRegion>, regions: Seq<RegionView>) -> bool {
    &&& regions.len() == given.len()
    &&& forall|i: int|
        0 <= i < given.len() ==> is_listed(#[trigger] given[i], regions[i])
}

/// Whether a region is one a document lists by its loops.
pub open spec fn is_listed(given: SketchProfileRegion, region: RegionView) -> bool {
    given matches SketchProfileRegion::Loops { outer, holes } && {
        &&& region.outer == outer
        &&& region.holes.len() == holes@.len()
        &&& forall|j: int| 0 <= j < holes@.len() ==> #[trigger] region.holes[j] == holes@[j]
    }
}

proof fn regions_are_listed(given: Seq<SketchProfileRegion>, n: int)
    requires
        0 <= n <= given.len(),
    ensures
        profile::listed(given, n) matches Some(regions) ==> are_listed(given.take(n), regions),
        profile::listed(given, n) is None ==> exists|i: int|
            0 <= i < n && #[trigger] given[i] is Trimmed,
    decreases n,
{
    if n > 0 {
        regions_are_listed(given, n - 1);
        if let Some(regions) = profile::listed(given, n) {
            let rest = profile::listed(given, n - 1)->0;
            assert forall|i: int| 0 <= i < n implies is_listed(
                #[trigger] given.take(n)[i],
                regions[i],
            ) by {
                if i < n - 1 {
                    assert(given.take(n)[i] == given.take(n - 1)[i]);
                    assert(regions[i] == rest[i]);
                }
            }
        } else if profile::listed(given, n - 1) is Some {
            assert(given[n - 1] is Trimmed);
        }
    }
}

proof fn regions_are_picked(regions: Seq<RegionView>, profiles: Seq<u32>, n: int)
    requires
        0 <= n <= profiles.len(),
    ensures
        profile::picked(regions, profiles, n) == profiles.take(n).filter(
            |index: u32| index < regions.len(),
        ).map_values(|index: u32| regions[index as int]),
    decreases n,
{
    reveal(Seq::filter);
    let known = |index: u32| index < regions.len();
    let named = |index: u32| regions[index as int];
    let some = profiles.take(n);
    if n > 0 {
        regions_are_picked(regions, profiles, n - 1);
        assert(some.drop_last() =~= profiles.take(n - 1));
        assert(some.last() == profiles[n - 1]);
        let fewer = profiles.take(n - 1).filter(known);
        assert(some.filter(known).map_values(named) =~= profile::picked(regions, profiles, n));
    } else {
        assert(some =~= Seq::empty());
        assert(some.filter(known).map_values(named) =~= Seq::<RegionView>::empty());
    }
}

/// Whether one of some entities is on record as part of a loop.
pub open spec fn is_named(
    ring_of_entity: Map<Seq<char>, usize>,
    entities: Seq<String>,
    ring: usize,
) -> bool {
    exists|e: int|
        0 <= e < entities.len() && ring_of_entity.contains_key((#[trigger] entities[e])@)
            && ring_of_entity[entities[e]@] == ring
}

proof fn regions_are_selected(arranged: ArrangementView, entities: Seq<String>, n: int)
    requires
        0 <= n <= arranged.regions.len(),
    ensures
        profile::selected(arranged, entities, n) == arranged.regions.take(n).filter(
            |region: RegionView| is_named(arranged.ring_of_entity, entities, region.outer),
        ),
    decreases n,
{
    reveal(Seq::filter);
    let some = arranged.regions.take(n);
    if n > 0 {
        regions_are_selected(arranged, entities, n - 1);
        assert(some.drop_last() =~= arranged.regions.take(n - 1));
        assert(some.last() == arranged.regions[n - 1]);
        let outer = arranged.regions[n - 1].outer;
        if profile::touches(arranged.ring_of_entity, entities, outer) {
            let e = choose|e: int|
                0 <= e < entities.len() && arranged.ring_of_entity.contains_key(
                    (#[trigger] entities[e])@,
                ) && arranged.ring_of_entity[entities[e]@] == outer;
            assert(is_named(arranged.ring_of_entity, entities, outer));
        }
        if is_named(arranged.ring_of_entity, entities, outer) {
            let e = choose|e: int|
                0 <= e < entities.len() && arranged.ring_of_entity.contains_key(
                    (#[trigger] entities[e])@,
                ) && arranged.ring_of_entity[entities[e]@] == outer;
            assert(profile::touches(arranged.ring_of_entity, entities, outer));
        }
    } else {
        assert(some =~= Seq::empty());
    }
}

/// A reference to regions is read as the loops it lists, one to profiles as the
/// regions of those numbers that there are, one to a sketch as all its regions, and
/// one to entities as the regions whose outer loop one of them belongs to. Each
/// names its own sketch. A reference that cannot be read says why.
pub proof fn reference_is_read(
    profile: ProfileRef,
    arrangements: Map<Seq<char>, ArrangementView>,
)
    ensures
        ({
            let read = profile::resolution(profile, arrangements);
            &&& read matches Ok(found) ==> names_sketch(profile, found.sketch) && found.inference
                is None
            &&& match profile {
                ProfileRef::SketchRegions { sketch, regions } => match read {
                    Ok(found) => are_listed(regions@, found.regions),
                    Err(why) => why
                        == "the trimmed-boundary region form needs curve splitting this encoder does not perform"@
                        && exists|i: int|
                        0 <= i < regions@.len() && #[trigger] regions@[i] is Trimmed,
                },
                ProfileRef::SketchProfiles { sketch, profiles } => match read {
                    Ok(found) => arrangements.contains_key(sketch@) && found.regions
                        == profiles@.filter(
                        |index: u32| index < arrangements[sketch@].regions.len(),
                    ).map_values(|index: u32| arrangements[sketch@].regions[index as int]),
                    Err(why) => !arrangements.contains_key(sketch@) && why == "sketch "@ + sketch@
                        + " has no usable planar arrangement"@,
                },
                ProfileRef::Sketch(sketch) => match read {
                    Ok(found) => arrangements.contains_key(sketch@) && found.regions
                        == arrangements[sketch@].regions,
                    Err(why) => !arrangements.contains_key(sketch@) && why == "sketch "@ + sketch@
                        + " has no usable planar arrangement"@,
                },
                ProfileRef::SketchEntities { sketch, entities } => if arrangements.contains_key(
                    sketch@,
                ) {
                    let arranged = arrangements[sketch@];
                    let chosen = arranged.regions.filter(
                        |region: RegionView|
                            is_named(arranged.ring_of_entity, entities@, region.outer),
                    );
                    match read {
                        Ok(found) => chosen.len() > 0 && found.regions == chosen,
                        Err(why) => chosen.len() == 0 && why
                            == "the selected sketch entities close no profile loop"@,
                    }
                } else {
                    read == Err::<ProfileView, Seq<char>>(
                        "sketch "@ + sketch@ + " has no usable planar arrangement"@,
                    )
                },
                ProfileRef::SketchSelection { sketch } => read == Err::<ProfileView, Seq<char>>(
                    "profile is a native selection in sketch "@ + sketch@
                        + "; it needs inference"@,
                ),
                ProfileRef::Other { description } => read == Err::<ProfileView, Seq<char>>(
                    "unsupported profile reference: "@ + description@,
                ),
            }
        }),
{
    match profile {
        ProfileRef::SketchRegions { sketch, regions } => {
            regions_are_listed(regions@, regions@.len() as int);
            assert(regions@.take(regions@.len() as int) =~= regions@);
        },
        ProfileRef::SketchProfiles { sketch, profiles } => {
            if arrangements.contains_key(sketch@) {
                let regions = arrangements[sketch@].regions;
                regions_are_picked(regions, profiles@, profiles@.len() as int);
                assert(profiles@.take(profiles@.len() as int) =~= profiles@);
            }
        },
        ProfileRef::SketchEntities { sketch, entities } => {
            if arrangements.contains_key(sketch@) {
                let arranged = arrangements[sketch@];
                regions_are_selected(arranged, entities@, arranged.regions.len() as int);
                assert(arranged.regions.take(arranged.regions.len() as int)
                    =~= arranged.regions);
            }
        },
        _ => {},
    }
}

// ---------------------------------------------------------------------------
// attribution
// ---------------------------------------------------------------------------

/// What the profile reference of a plan's own feature reads as.
pub open spec fn read_of(m: Arithmetic, model: Model, plan: PlanView) -> Result<
    ProfileView,
    Seq<char>,
> {
    match plan.feature.definition {
        FeatureDefinition::Extrude { profile, .. } => profile::resolution(
            profile,
            plan::arrangements_of(m, model),
        ),
        _ => Err(Seq::empty()),
    }
}

/// Whether some places are those of the plans whose profile cannot be read, in
/// order.
pub open spec fn are_unread(m: Arithmetic, model: Model, places: Seq<int>) -> bool {
    let plans = plan::plans_of(m, model);
    &&& forall|k: int|
        0 <= k < places.len() ==> 0 <= #[trigger] places[k] < plans.len() && read_of(
            m,
            model,
            plans[places[k]],
        ) is Err
    &&& forall|a: int, b: int|
        0 <= a < b < places.len() ==> #[trigger] places[a] < #[trigger] places[b]
    &&& forall|i: int|
        0 <= i < plans.len() && read_of(m, model, #[trigger] plans[i]) is Err ==> places.contains(i)
}

/// What is attributed is attributed to the extrudes whose profile cannot be read,
/// each with its own identity, frame, loops and span, along the normal of the first
/// planned sketch. Where every profile can be read, nothing is.
pub proof fn unread_extrudes_are_attributed(m: Arithmetic, model: Model)
    ensures
        exists|places: Seq<int>| #[trigger]
            are_unread(m, model, places) && {
                let plans = plan::plans_of(m, model);
                let arrangements = plan::arrangements_of(m, model);
                let pending = places.map_values(
                    |i: int|
                        PendingView {
                            id: plans[i].feature.id@,
                            frame: plans[i].frame,
                            rings: arrangements[plans[i].sketch].rings,
                            span: plans[i].span,
                        },
                );
                plan::rings_of(m, model) == if places.len() == 0 {
                    Map::empty()
                } else {
                    assign::outer_rings(m, model, plans[0].frame.normal, pending)
                }
            },
{
    let plans = plan::plans_of(m, model);
    let arrangements = plan::arrangements_of(m, model);
    let open = plan::open_of(m, model);
    let all = plans.len() as int;
    let places = open.map_values(|entry: (usize, Seq<char>)| entry.0 as int);
    plan::plans_fit(m, model);
    identity::open_plans_ascend(plans, arrangements, all);
    assert forall|k: int| 0 <= k < places.len() implies 0 <= #[trigger] places[k] < plans.len()
        && read_of(m, model, plans[places[k]]) is Err by {
        let i = open[k].0 as int;
        settle::open_where_unread(plans, arrangements, all, i);
        if read_of(m, model, plans[i]) is Ok {
            assert(open[k].0 != i);
        }
    }
    assert forall|a: int, b: int| 0 <= a < b < places.len() implies #[trigger] places[a]
        < #[trigger] places[b] by {
        assert(open[a].0 < open[b].0);
    }
    assert forall|i: int|
        0 <= i < plans.len() && read_of(m, model, #[trigger] plans[i]) is Err implies places.contains(
        i,
    ) by {
        settle::open_where_unread(plans, arrangements, all, i);
        let why = plan::reading(plans[i], arrangements)->Err_0;
        let k = choose|k: int| 0 <= k < open.len() && #[trigger] open[k] == (i as usize, why);
        assert(places[k] == i);
    }
    assert(are_unread(m, model, places));
    let pending = places.map_values(
        |i: int|
            PendingView {
                id: plans[i].feature.id@,
                frame: plans[i].frame,
                rings: arrangements[plans[i].sketch].rings,
                span: plans[i].span,
            },
    );
    assert(plan::attribution_inputs(plans, arrangements, open) =~= pending);
    if places.len() > 0 {
        assert(0 <= places[0] < plans.len());
    }
}

// ---------------------------------------------------------------------------
// later cuts
// ---------------------------------------------------------------------------

/// Whether a loop is an exterior one of what a plan cuts: the outer loop of a
/// region of its profile where that can be read, else the loop attributed to it.
pub open spec fn is_exterior(m: Arithmetic, model: Model, plan: PlanView, ring: usize) -> bool {
    match read_of(m, model, plan) {
        Ok(read) => exists|k: int|
            0 <= k < read.regions.len() && (#[trigger] read.regions[k]).outer == ring,
        Err(_) => plan::rings_of(m, model).contains_key(plan.feature.id@) && plan::rings_of(
            m,
            model,
        )[plan.feature.id@] == ring,
    }
}

/// Whether a volume is one that a plan cuts after an ordinal: swept by an exterior
/// loop of it, from the plan's own plane and over its own span.
pub open spec fn cuts_later(
    m: Arithmetic,
    model: Model,
    plan: PlanView,
    ordinal: u64,
    cut: CutView,
    ring: usize,
) -> bool {
    let arrangements = plan::arrangements_of(m, model);
    &&& plan.feature.ordinal > ordinal
    &&& plan.op == BooleanOp::Cut
    &&& is_exterior(m, model, plan, ring)
    &&& arrangements.contains_key(plan.sketch)
    &&& ring < arrangements[plan.sketch].rings.len()
    &&& cut == (CutView {
        frame: plan.frame,
        span: plan.span,
        ring: arrangements[plan.sketch].rings[ring as int],
    })
}

/// Whether one of the first `n` plans cuts a volume after an ordinal.
pub open spec fn is_cut_later(
    m: Arithmetic,
    model: Model,
    ordinal: u64,
    n: int,
    cut: CutView,
) -> bool {
    exists|j: int, ring: usize|
        0 <= j < n && #[trigger] cuts_later(
            m,
            model,
            plan::plans_of(m, model)[j],
            ordinal,
            cut,
            ring,
        )
}

proof fn regions_sweep(
    plan: PlanView,
    arrangements: Map<Seq<char>, ArrangementView>,
    regions: Seq<RegionView>,
    n: int,
    cut: CutView,
)
    requires
        0 <= n <= regions.len(),
    ensures
        plan::swept_by_regions(plan, arrangements, regions, n).contains(cut) <==> exists|k: int|
            0 <= k < n && plan::swept_by(
                plan,
                arrangements,
                (#[trigger] regions[k]).outer,
            ).contains(cut),
    decreases n,
{
    if n > 0 {
        regions_sweep(plan, arrangements, regions, n - 1, cut);
        let rest = plan::swept_by_regions(plan, arrangements, regions, n - 1);
        let more = plan::swept_by(plan, arrangements, regions[n - 1].outer);
        both_hold(rest, more, cut);
    }
}

proof fn both_hold(a: Seq<CutView>, b: Seq<CutView>, cut: CutView)
    ensures
        (a + b).contains(cut) <==> a.contains(cut) || b.contains(cut),
{
    if a.contains(cut) {
        let i = choose|i: int| 0 <= i < a.len() && a[i] == cut;
        assert((a + b)[i] == cut);
    }
    if b.contains(cut) {
        let i = choose|i: int| 0 <= i < b.len() && b[i] == cut;
        assert((a + b)[a.len() + i] == cut);
    }
    if (a + b).contains(cut) {
        let i = choose|i: int| 0 <= i < (a + b).len() && (a + b)[i] == cut;
        if i < a.len() {
            assert(a[i] == cut);
        } else {
            assert(b[i - a.len()] == cut);
        }
    }
}

proof fn plan_cuts_its_exteriors(
    m: Arithmetic,
    model: Model,
    i: int,
    ordinal: u64,
    cut: CutView,
)
    requires
        0 <= i < plan::plans_of(m, model).len(),
    ensures
        plan::cuts_of(
            plan::plans_read(m, model)[i],
            plan::arrangements_of(m, model),
            plan::rings_of(m, model),
            ordinal,
        ).contains(cut) <==> exists|ring: usize| #[trigger]
            cuts_later(m, model, plan::plans_of(m, model)[i], ordinal, cut, ring),
{
    let own = plan::plans_of(m, model)[i];
    let read = plan::plans_read(m, model)[i];
    let arrangements = plan::arrangements_of(m, model);
    let rings = plan::rings_of(m, model);
    let steps = plan::timeline(model);
    let found = plan::cuts_of(read, arrangements, rings, ordinal);
    plan::plans_are_outlines(m, plan::frames_of(m, model), steps, steps.len() as int);
    assert(own.profile is None) by {
        let k = choose|k: int|
            0 <= k < steps.len() && plan::outline(
                m,
                plan::frames_of(m, model),
                #[trigger] steps[k],
            ) == Some(Ok::<PlanView, LossView>(own));
        assert(plan::outline(m, plan::frames_of(m, model), steps[k]) is Some);
    }
    assert(read == plan::read_plan(own, arrangements));
    if let FeatureDefinition::Extrude { profile, .. } = own.feature.definition {
        profile::resolution_is_read(profile, arrangements);
    }
    match read_of(m, model, own) {
        Ok(resolved) => {
            let regions = resolved.regions;
            regions_sweep(read, arrangements, regions, regions.len() as int, cut);
            if found.contains(cut) {
                let k = choose|k: int|
                    0 <= k < regions.len() && plan::swept_by(
                        read,
                        arrangements,
                        (#[trigger] regions[k]).outer,
                    ).contains(cut);
                assert(is_exterior(m, model, own, regions[k].outer));
                assert(cuts_later(m, model, own, ordinal, cut, regions[k].outer));
            }
            if exists|ring: usize| #[trigger] cuts_later(m, model, own, ordinal, cut, ring) {
                let ring = choose|ring: usize| #[trigger]
                    cuts_later(m, model, own, ordinal, cut, ring);
                let k = choose|k: int|
                    0 <= k < regions.len() && (#[trigger] regions[k]).outer == ring;
                let swept = plan::swept_by(read, arrangements, regions[k].outer);
                assert(swept[0] == cut);
            }
        },
        Err(_) => {
            if found.contains(cut) {
                assert(cuts_later(m, model, own, ordinal, cut, rings[own.feature.id@]));
            }
            if exists|ring: usize| #[trigger] cuts_later(m, model, own, ordinal, cut, ring) {
                let ring = choose|ring: usize| #[trigger]
                    cuts_later(m, model, own, ordinal, cut, ring);
                assert(found[0] == cut);
            }
        },
    }
}

proof fn cuts_are_later(m: Arithmetic, model: Model, ordinal: u64, n: int, cut: CutView)
    requires
        0 <= n <= plan::plans_of(m, model).len(),
    ensures
        plan::later_cuts(
            plan::plans_read(m, model),
            plan::arrangements_of(m, model),
            plan::rings_of(m, model),
            ordinal,
            n,
        ).contains(cut) <==> is_cut_later(m, model, ordinal, n, cut),
    decreases n,
{
    if n > 0 {
        cuts_are_later(m, model, ordinal, n - 1, cut);
        plan_cuts_its_exteriors(m, model, n - 1, ordinal, cut);
        let plans = plan::plans_read(m, model);
        let arrangements = plan::arrangements_of(m, model);
        let rings = plan::rings_of(m, model);
        let rest = plan::later_cuts(plans, arrangements, rings, ordinal, n - 1);
        let more = plan::cuts_of(plans[n - 1], arrangements, rings, ordinal);
        both_hold(rest, more, cut);
        if is_cut_later(m, model, ordinal, n, cut) {
            let (j, ring) = choose|j: int, ring: usize|
                0 <= j < n && #[trigger] cuts_later(
                    m,
                    model,
                    plan::plans_of(m, model)[j],
                    ordinal,
                    cut,
                    ring,
                );
            if j < n - 1 {
                assert(is_cut_later(m, model, ordinal, n - 1, cut));
            }
        }
    }
}

// ---------------------------------------------------------------------------
// settled extrudes
// ---------------------------------------------------------------------------

/// Whether some volumes are those that are cut after an ordinal.
pub open spec fn are_later_cuts(
    m: Arithmetic,
    model: Model,
    ordinal: u64,
    cuts: Seq<CutView>,
) -> bool {
    forall|cut: CutView| #[trigger]
        cuts.contains(cut) <==> is_cut_later(
            m,
            model,
            ordinal,
            plan::plans_of(m, model).len() as int,
            cut,
        )
}

/// A planned extrude keeps all that was planned of it. Its profile is what its
/// reference reads as, where that can be read. Otherwise it is inferred within the
/// loop attributed to it, from its own sketch, plane and span, the solved body and
/// what is cut later; and where no loop is attributed it has none, and a note gives
/// the reason. Where no region was found to be kept, a note says so.
pub proof fn extrude_is_settled(m: Arithmetic, model: Model, i: int)
    requires
        0 <= i < plan::plans_of(m, model).len(),
    ensures
        ({
            let own = plan::plans_of(m, model)[i];
            let settled = plan::resolved_plans(m, model)[i];
            let rings = plan::rings_of(m, model);
            let arrangements = plan::arrangements_of(m, model);
            let solid = meridian::meridian_of(m, model);
            let losses = plan::resolution_losses(m, model);
            &&& plan::resolved_plans(m, model).len() == plan::plans_of(m, model).len()
            &&& settled == (PlanView { profile: settled.profile, ..own })
            &&& match read_of(m, model, own) {
                Ok(read) => settled.profile == Some(read),
                Err(why) => if rings.contains_key(own.feature.id@) {
                    exists|cuts: Seq<CutView>|
                        {
                            let outer = rings[own.feature.id@];
                            let arranged = arrangements[own.sketch];
                            &&& #[trigger] are_later_cuts(m, model, own.feature.ordinal, cuts)
                            &&& settled.profile == Some(
                                profile::inferred(
                                    m,
                                    own.sketch,
                                    outer,
                                    arranged,
                                    own.frame,
                                    own.span,
                                    solid,
                                    cuts,
                                ),
                            )
                            &&& (forall|k: int|
                                0 <= k < arranged.within(outer as int).len() ==> !profile::is_kept(
                                    m,
                                    arranged,
                                    #[trigger] arranged.within(outer as int)[k],
                                    own.frame,
                                    own.span,
                                    solid,
                                    cuts,
                                )) ==> losses.contains(
                                lines::note_on(
                                    own.feature,
                                    ": no region of its exterior loop was found to hold material, so the loop is written as it is"@,
                                ),
                            )
                        }
                } else {
                    &&& settled.profile is None
                    &&& losses.contains(
                        lines::note_on(
                            own.feature,
                            ": "@ + why
                                + ", and no solved carrier could be attributed to any of its profile loops"@,
                        ),
                    )
                },
            }
        }),
{
    let own = plan::plans_of(m, model)[i];
    let steps = plan::timeline(model);
    let all = plan::plans_of(m, model).len() as int;
    let ordinal = own.feature.ordinal;
    settle::every_plan_is_settled(m, model, i);
    let plans = plan::plans_read(m, model);
    let arrangements = plan::arrangements_of(m, model);
    let rings = plan::rings_of(m, model);
    let cuts = plan::later_cuts(plans, arrangements, rings, ordinal, plans.len() as int);
    assert forall|cut: CutView| #[trigger] cuts.contains(cut) <==> is_cut_later(
        m,
        model,
        ordinal,
        all,
        cut,
    ) by {
        cuts_are_later(m, model, ordinal, all, cut);
    }
    assert(are_later_cuts(m, model, ordinal, cuts));
    plan::plans_are_outlines(m, plan::frames_of(m, model), steps, steps.len() as int);
    assert(own.profile is None) by {
        let k = choose|k: int|
            0 <= k < steps.len() && plan::outline(
                m,
                plan::frames_of(m, model),
                #[trigger] steps[k],
            ) == Some(Ok::<PlanView, LossView>(own));
        assert(plan::outline(m, plan::frames_of(m, model), steps[k]) is Some);
    }
    if let Err(why) = read_of(m, model, own) {
        let note = plan::unattributed(own.feature, why);
        assert(note.message =~= lines::called(own.feature) + (": "@ + why
            + ", and no solved carrier could be attributed to any of its profile loops"@));
    }
}

/// Whether no region within the loop attributed to an extrude is kept.
pub open spec fn is_guess(m: Arithmetic, model: Model, plan: PlanView) -> bool {
    exists|cuts: Seq<CutView>|
        {
            let outer = plan::rings_of(m, model)[plan.feature.id@] as int;
            let arranged = plan::arrangements_of(m, model)[plan.sketch];
            &&& #[trigger] are_later_cuts(m, model, plan.feature.ordinal, cuts)
            &&& forall|k: int|
                0 <= k < arranged.within(outer).len() ==> !profile::is_kept(
                    m,
                    arranged,
                    #[trigger] arranged.within(outer)[k],
                    plan.frame,
                    plan.span,
                    meridian::meridian_of(m, model),
                    cuts,
                )
        }
}

/// The notes an extrude leaves once it is settled: on a profile that can neither be
/// read nor inferred, and on one that is inferred though no region was kept.
pub open spec fn settling_notes(m: Arithmetic, model: Model, plan: PlanView) -> Seq<LossView> {
    match read_of(m, model, plan) {
        Ok(_) => Seq::empty(),
        Err(why) => if !plan::rings_of(m, model).contains_key(plan.feature.id@) {
            seq![
                lines::note_on(
                    plan.feature,
                    ": "@ + why
                        + ", and no solved carrier could be attributed to any of its profile loops"@,
                ),
            ]
        } else if is_guess(m, model, plan) {
            seq![
                lines::note_on(
                    plan.feature,
                    ": no region of its exterior loop was found to hold material, so the loop is written as it is"@,
                ),
            ]
        } else {
            Seq::empty()
        },
    }
}

/// The notes that the first `n` planned extrudes leave.
pub open spec fn all_settling_notes(m: Arithmetic, model: Model, n: int) -> Seq<LossView>
    decreases n,
{
    if n <= 0 {
        Seq::empty()
    } else {
        all_settling_notes(m, model, n - 1) + settling_notes(
            m,
            model,
            plan::plans_of(m, model)[n - 1],
        )
    }
}

proof fn cuts_count_once(
    m: Arithmetic,
    arranged: ArrangementView,
    region: RegionView,
    f: SketchFrame,
    span: (Scalar, Scalar),
    solid: Option<meridian::MeridianView>,
    a: Seq<CutView>,
    b: Seq<CutView>,
)
    requires
        forall|cut: CutView| #[trigger] a.contains(cut) <==> b.contains(cut),
    ensures
        profile::is_kept(m, arranged, region, f, span, solid, a) == profile::is_kept(
            m,
            arranged,
            region,
            f,
            span,
            solid,
            b,
        ),
{
    if let Some(at) = arranged.sample_point(m, region) {
        let probe = profile::column_middle(m, at, f, span);
        if profile::covered(m, a, probe) {
            let c = choose|c: int| 0 <= c < a.len() && (#[trigger] a[c]).has_inside(m, probe);
            assert(a.contains(a[c]));
            let d = choose|d: int| 0 <= d < b.len() && b[d] == a[c];
            assert(b[d].has_inside(m, probe));
        }
        if profile::covered(m, b, probe) {
            let c = choose|c: int| 0 <= c < b.len() && (#[trigger] b[c]).has_inside(m, probe);
            assert(b.contains(b[c]));
            assert(a.contains(b[c]));
            let d = choose|d: int| 0 <= d < a.len() && a[d] == b[c];
            assert(a[d].has_inside(m, probe));
        }
    }
}

proof fn guess_is_told(m: Arithmetic, model: Model, i: int)
    requires
        0 <= i < plan::plans_of(m, model).len(),
        read_of(m, model, plan::plans_of(m, model)[i]) is Err,
    ensures
        ({
            let own = plan::plans_of(m, model)[i];
            plan::is_guessed(
                m,
                plan::plans_read(m, model),
                plan::arrangements_of(m, model),
                plan::rings_of(m, model),
                plan::solid_of(m, model),
                plan::plans_read(m, model)[i],
            ) == is_guess(m, model, own)
        }),
{
    let own = plan::plans_of(m, model)[i];
    let plans = plan::plans_read(m, model);
    let arrangements = plan::arrangements_of(m, model);
    let rings = plan::rings_of(m, model);
    let solid = plan::solid_of(m, model);
    let ordinal = own.feature.ordinal;
    let all = plan::plans_of(m, model).len() as int;
    let outer = rings[own.feature.id@] as int;
    let arranged = arrangements[own.sketch];
    assert(plans[i] == own);
    let cuts = plan::later_cuts(plans, arrangements, rings, ordinal, plans.len() as int);
    assert forall|cut: CutView| #[trigger] cuts.contains(cut) <==> is_cut_later(
        m,
        model,
        ordinal,
        all,
        cut,
    ) by {
        cuts_are_later(m, model, ordinal, all, cut);
    }
    assert(are_later_cuts(m, model, ordinal, cuts));
    if is_guess(m, model, own) {
        let others = choose|others: Seq<CutView>|
            {
                &&& #[trigger] are_later_cuts(m, model, ordinal, others)
                &&& forall|k: int|
                    0 <= k < arranged.within(outer).len() ==> !profile::is_kept(
                        m,
                        arranged,
                        #[trigger] arranged.within(outer)[k],
                        own.frame,
                        own.span,
                        solid,
                        others,
                    )
            };
        assert forall|cut: CutView| #[trigger] others.contains(cut) <==> cuts.contains(cut) by {}
        assert forall|k: int| 0 <= k < arranged.within(outer).len() implies !profile::is_kept(
            m,
            arranged,
            #[trigger] arranged.within(outer)[k],
            own.frame,
            own.span,
            solid,
            cuts,
        ) by {
            cuts_count_once(
                m,
                arranged,
                arranged.within(outer)[k],
                own.frame,
                own.span,
                solid,
                others,
                cuts,
            );
        }
    }
}

proof fn notes_run_by_plan(m: Arithmetic, model: Model, n: int)
    requires
        0 <= n <= plan::plans_of(m, model).len(),
    ensures
        ({
            let plans = plan::plans_of(m, model);
            let open = plan::open_plans(plans, plan::arrangements_of(m, model), n);
            settle::notes_left(
                m,
                plan::plans_read(m, model),
                plan::arrangements_of(m, model),
                plan::rings_of(m, model),
                plan::solid_of(m, model),
                open,
                open.len() as int,
            ) == all_settling_notes(m, model, n)
        }),
    decreases n,
{
    if n > 0 {
        notes_run_by_plan(m, model, n - 1);
        let plans = plan::plans_of(m, model);
        let arrangements = plan::arrangements_of(m, model);
        let read = plan::plans_read(m, model);
        let rings = plan::rings_of(m, model);
        let solid = plan::solid_of(m, model);
        let before = plan::open_plans(plans, arrangements, n - 1);
        let open = plan::open_plans(plans, arrangements, n);
        let own = plans[n - 1];
        plan::plans_fit(m, model);
        assert(plan::reading(own, arrangements) == read_of(m, model, own));
        match read_of(m, model, own) {
            Ok(_) => {
                assert(all_settling_notes(m, model, n) =~= all_settling_notes(m, model, n - 1));
            },
            Err(why) => {
                earlier_notes_stay(
                    m,
                    read,
                    arrangements,
                    rings,
                    solid,
                    before,
                    open,
                    before.len() as int,
                );
                guess_is_told(m, model, n - 1);
                assert(open.last() == ((n - 1) as usize, why));
                assert(read[n - 1] == own);
                let note = plan::unattributed(own.feature, why);
                assert(note.message =~= lines::called(own.feature) + (": "@ + why
                    + ", and no solved carrier could be attributed to any of its profile loops"@));
                let now = settle::notes_left(
                    m,
                    read,
                    arrangements,
                    rings,
                    solid,
                    open,
                    open.len() as int,
                );
                assert(now =~= all_settling_notes(m, model, n));
            },
        }
    }
}

proof fn earlier_notes_stay(
    m: Arithmetic,
    plans: Seq<PlanView>,
    arrangements: Map<Seq<char>, ArrangementView>,
    rings: Map<Seq<char>, usize>,
    solid: Option<meridian::MeridianView>,
    a: Seq<(usize, Seq<char>)>,
    b: Seq<(usize, Seq<char>)>,
    n: int,
)
    requires
        n <= a.len(),
        n <= b.len(),
        forall|i: int| 0 <= i < n ==> #[trigger] a[i] == b[i],
    ensures
        settle::notes_left(m, plans, arrangements, rings, solid, a, n) == settle::notes_left(
            m,
            plans,
            arrangements,
            rings,
            solid,
            b,
            n,
        ),
    decreases n,
{
    if n > 0 {
        earlier_notes_stay(m, plans, arrangements, rings, solid, a, b, n - 1);
        assert(a[n - 1] == b[n - 1]);
    }
}

/// Resolution leaves these notes and no others: on the features that are not
/// planned, on a missing classifier where one would be used, and on the extrudes as
/// they are settled, each in the order of the timeline.
pub proof fn resolution_leaves_no_other_notes(m: Arithmetic, model: Model)
    ensures
        ({
            let steps = plan::timeline(model);
            let all = plan::plans_of(m, model).len() as int;
            let first = plan::outline_losses(
                m,
                plan::frames_of(m, model),
                steps,
                steps.len() as int,
            );
            let unread = exists|i: int|
                0 <= i < all && read_of(m, model, #[trigger] plan::plans_of(m, model)[i]) is Err;
            let classifier = if unread && meridian::meridian_of(m, model) is None {
                seq![
                    LossView {
                        kind: LossKind::CarrierSummary,
                        message: "the body is not a solid of revolution, so inferred profiles keep every atomic region of their exterior loop rather than testing each for material"@,
                    },
                ]
            } else {
                Seq::empty()
            };
            plan::resolution_losses(m, model) == first + classifier + all_settling_notes(
                m,
                model,
                all,
            )
        }),
{
    let plans = plan::plans_of(m, model);
    let arrangements = plan::arrangements_of(m, model);
    let all = plans.len() as int;
    let open = plan::open_of(m, model);
    settle::settling_leaves_no_other_notes(m, model);
    notes_run_by_plan(m, model, all);
    plan::plans_fit(m, model);
    identity::open_plans_ascend(plans, arrangements, all);
    if exists|i: int| 0 <= i < plans.len() && read_of(m, model, #[trigger] plans[i]) is Err {
        let i = choose|i: int| 0 <= i < plans.len() && read_of(m, model, #[trigger] plans[i]) is Err;
        settle::open_where_unread(plans, arrangements, all, i);
    } else if open.len() > 0 {
        let i = open[0].0 as int;
        settle::open_where_unread(plans, arrangements, all, i);
        assert(read_of(m, model, plans[i]) is Ok);
    }
}

/// A document can be exported where no extrude whose profile cannot be read is
/// attributed a loop beyond those of its own sketch.
pub proof fn attributions_stay_within_their_sketches(m: Arithmetic, model: Model)
    ensures
        plan::is_attributable(m, model) <==> forall|i: int|
            0 <= i < plan::plans_of(m, model).len() ==> stays_within(
                m,
                model,
                #[trigger] plan::plans_of(m, model)[i],
            ),
{
    let plans = plan::plans_of(m, model);
    let arrangements = plan::arrangements_of(m, model);
    let open = plan::open_of(m, model);
    let all = plans.len() as int;
    plan::plans_fit(m, model);
    identity::open_plans_ascend(plans, arrangements, all);
    if plan::is_attributable(m, model) {
        assert forall|i: int| 0 <= i < all implies stays_within(m, model, #[trigger] plans[i]) by {
            settle::open_where_unread(plans, arrangements, all, i);
            if let Err(why) = read_of(m, model, plans[i]) {
                let k = choose|k: int|
                    0 <= k < open.len() && #[trigger] open[k] == (i as usize, why);
                assert(open[k].0 == i);
            }
        }
    }
    if forall|i: int| 0 <= i < all ==> stays_within(m, model, #[trigger] plans[i]) {
        assert forall|k: int| 0 <= k < open.len() implies {
            let plan = plans[(#[trigger] open[k]).0 as int];
            plan::rings_of(m, model).contains_key(plan.feature.id@) ==> plan::rings_of(
                m,
                model,
            )[plan.feature.id@] < arrangements[plan.sketch].regions.len()
        } by {
            let i = open[k].0 as int;
            settle::open_where_unread(plans, arrangements, all, i);
            if read_of(m, model, plans[i]) is Ok {
                assert(open[k].0 != i);
            }
            assert(stays_within(m, model, plans[i]));
        }
    }
}

/// Whether what is attributed to an extrude, if anything, is a loop of its sketch.
pub open spec fn stays_within(m: Arithmetic, model: Model, plan: PlanView) -> bool {
    read_of(m, model, plan) is Err && plan::rings_of(m, model).contains_key(plan.feature.id@)
        ==> plan::rings_of(m, model)[plan.feature.id@] < plan::arrangements_of(
        m,
        model,
    )[plan.sketch].regions.len()
}

} // verus!
