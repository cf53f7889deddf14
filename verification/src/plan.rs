//! Resolution of the feature timeline.
//!
//! Every selection is resolved before a line of output is written. Order
//! matters: exterior loops are attributed globally, so one extrude's choice
//! constrains the rest, and that has to settle before any single profile is
//! decided.

use crate::arena::Catalog;
use crate::arrangement::{Arrangement, ArrangementView, Region, RegionView};
use crate::arrangement;
use crate::assign::{assign_outer_rings, PendingExtrude, PendingView};
use crate::assign;
use crate::frame::{extrude_span, sketch_frame, SketchFrame};
use crate::frame;
use crate::ir::{
    BooleanOp, CadIr, ExtrudeExtent, Feature, FeatureDefinition, Model, ProfileRef, SketchEntity,
};
use crate::kernel::{Arithmetic, Kernel, Vec3};
use crate::list::{sort_stable, Ranked};
use crate::list;
use crate::meridian::{Meridian, MeridianView};
use crate::meridian;
use crate::profile::{
    infer_profile, is_none_kept, resolve_profile, CutView, CutVolume, ProfileView, ResolvedProfile,
};
use crate::profile;
use crate::program::{LossKind, LossView, Program};
use crate::program;
use crate::scalar::{Scalar, ONE, ZERO};
use crate::text;
use crate::topo::Topology;
use vstd::hash_map::StringHashMap;
use vstd::prelude::*;

verus! {

// ---------------------------------------------------------------------------
// the timeline
// ---------------------------------------------------------------------------

impl Ranked for Feature {
    open spec fn before(self, other: Feature) -> bool {
        self.ordinal < other.ordinal || (self.ordinal == other.ordinal && text::text_precedes(
            self.id@,
            other.id@,
        ))
    }

    fn precedes(&self, other: &Feature) -> bool {
        self.ordinal < other.ordinal || (self.ordinal == other.ordinal && text::precedes(
            self.id.as_str(),
            other.id.as_str(),
        ))
    }
}

/// The features by ordinal, then by identity.
pub open spec fn timeline(model: Model) -> Seq<Feature> {
    list::stable_order(model.features@, model.features@.len() as int)
}

/// The order of features is one that a timeline can follow.
pub proof fn features_are_orderly()
    ensures
        list::orderly::<Feature>(),
{
    assert forall|a: Feature, b: Feature| #[trigger] a.before(b) implies !b.before(a) by {
        text::byte_order_is_total(vstd::utf8::encode_utf8(a.id@), vstd::utf8::encode_utf8(b.id@));
    }
    assert forall|a: Feature, b: Feature, c: Feature|
        !(#[trigger] b.before(a)) && !(#[trigger] c.before(b)) implies !c.before(a) by {
        let x = vstd::utf8::encode_utf8(a.id@);
        let y = vstd::utf8::encode_utf8(b.id@);
        let z = vstd::utf8::encode_utf8(c.id@);
        text::byte_order_is_total(x, y);
        text::byte_order_is_total(y, z);
        text::byte_order_is_total(x, z);
        if text::bytes_precede(x, y) && text::bytes_precede(y, z) {
            text::byte_order_is_transitive(x, y, z);
        }
    }
}

/// The timeline holds every feature of the document, ordered by ordinal and then
/// by identity.
pub proof fn timeline_is_ordered(model: Model)
    ensures
        list::in_order(timeline(model)),
        timeline(model).to_multiset() == model.features@.to_multiset(),
{
    features_are_orderly();
    list::stable_order_is_ordered(model.features@, model.features@.len() as int);
    assert(model.features@.take(model.features@.len() as int) =~= model.features@);
}

// ---------------------------------------------------------------------------
// reading features
// ---------------------------------------------------------------------------

/// The name of a feature, or its identity when it has none.
pub open spec fn name_of(feature: Feature) -> Seq<char> {
    match feature.name {
        Some(name) => name@,
        None => feature.id@,
    }
}

/// The name of a feature, or its identity when it has none.
pub fn feature_name(feature: &Feature) -> (r: &String)
    ensures
        r@ == name_of(*feature),
{
    match &feature.name {
        Some(name) => name,
        None => &feature.id,
    }
}

/// The sketch a profile reference points at.
pub open spec fn sketch_of(profile: ProfileRef) -> Option<Seq<char>> {
    match profile {
        ProfileRef::Sketch(sketch) => Some(sketch@),
        ProfileRef::SketchProfiles { sketch, .. } => Some(sketch@),
        ProfileRef::SketchRegions { sketch, .. } => Some(sketch@),
        ProfileRef::SketchEntities { sketch, .. } => Some(sketch@),
        ProfileRef::SketchSelection { sketch } => Some(sketch@),
        ProfileRef::Other { .. } => None,
    }
}

/// The sketch a profile reference points at, whatever variant it uses.
pub fn profile_sketch(profile: &ProfileRef) -> (r: Option<&String>)
    ensures
        match r {
            Some(sketch) => sketch_of(*profile) == Some(sketch@),
            None => sketch_of(*profile) is None,
        },
{
    match profile {
        ProfileRef::Sketch(sketch) => Some(sketch),
        ProfileRef::SketchProfiles { sketch, .. } => Some(sketch),
        ProfileRef::SketchRegions { sketch, .. } => Some(sketch),
        ProfileRef::SketchEntities { sketch, .. } => Some(sketch),
        ProfileRef::SketchSelection { sketch } => Some(sketch),
        ProfileRef::Other { .. } => None,
    }
}

/// Whether a boolean operation removes material.
pub fn is_subtractive(op: BooleanOp) -> (r: bool)
    ensures
        r == (op == BooleanOp::Cut),
{
    matches!(op, BooleanOp::Cut)
}

/// The extrude definition of a feature, when it has one.
pub fn as_extrude(feature: &Feature) -> (r: Option<(&ProfileRef, &ExtrudeExtent, &BooleanOp)>)
    ensures
        match r {
            Some((profile, extent, op)) => feature.definition == (FeatureDefinition::Extrude {
                profile: *profile,
                extent: *extent,
                op: *op,
            }),
            None => !(feature.definition is Extrude),
        },
{
    match &feature.definition {
        FeatureDefinition::Extrude { profile, extent, op } => Some((profile, extent, op)),
        _ => None,
    }
}

/// Whether a feature is switched off.
pub open spec fn is_suppressed(feature: Feature) -> bool {
    feature.suppressed == Some(true)
}

/// Whether a feature is switched off.
pub fn suppressed(feature: &Feature) -> (r: bool)
    ensures
        r == is_suppressed(*feature),
{
    match feature.suppressed {
        Some(off) => off,
        None => false,
    }
}

// ---------------------------------------------------------------------------
// sketches
// ---------------------------------------------------------------------------

/// The frame and arrangement of a sketch that has both.
pub open spec fn placed(m: Arithmetic, model: Model, i: int) -> Option<
    (SketchFrame, ArrangementView),
> {
    let sketch = model.sketches@[i];
    match (
        frame::placed_frame(m, sketch),
        arrangement::arrangement_of(m, sketch.profiles@, model.sketch_entities@),
    ) {
        (Some(frame), Some(arrangement)) => Some((frame, arrangement)),
        _ => None,
    }
}

/// The frame of each of the first `n` sketches that has one and an arrangement.
pub open spec fn placed_frames(m: Arithmetic, model: Model, n: int) -> Map<Seq<char>, SketchFrame>
    decreases n,
{
    if n <= 0 {
        Map::empty()
    } else {
        let rest = placed_frames(m, model, n - 1);
        match placed(m, model, n - 1) {
            Some((frame, _)) => rest.insert(model.sketches@[n - 1].id@, frame),
            None => rest,
        }
    }
}

/// The arrangement of each of the first `n` sketches that has one and a frame.
pub open spec fn placed_arrangements(m: Arithmetic, model: Model, n: int) -> Map<
    Seq<char>,
    ArrangementView,
>
    decreases n,
{
    if n <= 0 {
        Map::empty()
    } else {
        let rest = placed_arrangements(m, model, n - 1);
        match placed(m, model, n - 1) {
            Some((_, arrangement)) => rest.insert(model.sketches@[n - 1].id@, arrangement),
            None => rest,
        }
    }
}

/// Every frame by its sketch.
pub open spec fn frames_of(m: Arithmetic, model: Model) -> Map<Seq<char>, SketchFrame> {
    placed_frames(m, model, model.sketches@.len() as int)
}

/// Every arrangement by its sketch.
pub open spec fn arrangements_of(m: Arithmetic, model: Model) -> Map<Seq<char>, ArrangementView> {
    placed_arrangements(m, model, model.sketches@.len() as int)
}

proof fn placed_together(m: Arithmetic, model: Model, n: int)
    requires
        0 <= n <= model.sketches@.len(),
    ensures
        placed_frames(m, model, n).dom() =~= placed_arrangements(m, model, n).dom(),
        forall|key: Seq<char>| #[trigger]
            placed_arrangements(m, model, n).contains_key(key) ==> placed_arrangements(
                m,
                model,
                n,
            )[key].sound(),
    decreases n,
{
    if n > 0 {
        placed_together(m, model, n - 1);
        let sketch = model.sketches@[n - 1];
        assert(sketch.profiles.len() == sketch.profiles@.len());
        arrangement::arrangement_is_sound(m, sketch.profiles@, model.sketch_entities@);
    }
}

// ---------------------------------------------------------------------------
// planned extrudes
// ---------------------------------------------------------------------------

/// What a [`Planned`] holds.
#[verifier::ext_equal]
pub struct PlanView {
    pub feature: Feature,
    pub sketch: Seq<char>,
    pub frame: SketchFrame,
    pub span: (Scalar, Scalar),
    pub op: BooleanOp,
    pub extent: ExtrudeExtent,
    pub profile: Option<ProfileView>,
}

impl PlanView {
    /// The plan with a profile.
    pub open spec fn with_profile(self, profile: ProfileView) -> PlanView {
        PlanView { profile: Some(profile), ..self }
    }
}

/// One extrude with everything resolution needs already looked up.
pub struct Planned<'a> {
    pub feature: &'a Feature,
    pub sketch: String,
    pub frame: SketchFrame,
    pub span: (Scalar, Scalar),
    pub op: BooleanOp,
    pub extent: ExtrudeExtent,
    pub profile: Option<ResolvedProfile>,
}

/// What an optional profile holds.
pub open spec fn profile_view(profile: Option<ResolvedProfile>) -> Option<ProfileView> {
    match profile {
        Some(resolved) => Some(resolved@),
        None => None,
    }
}

impl<'a> View for Planned<'a> {
    type V = PlanView;

    open spec fn view(&self) -> PlanView {
        PlanView {
            feature: *self.feature,
            sketch: self.sketch@,
            frame: self.frame,
            span: self.span,
            op: self.op,
            extent: self.extent,
            profile: profile_view(self.profile),
        }
    }
}

/// What some planned extrudes hold.
pub open spec fn plan_views<'a>(planned: Seq<Planned<'a>>) -> Seq<PlanView> {
    planned.map_values(|plan: Planned<'a>| plan@)
}

/// The note on an extrude that is not blind.
pub open spec fn not_blind(feature: Feature) -> LossView {
    program::omitted(
        name_of(feature)
            + ": its extent is not blind on every side; through-all, to-face and to-vertex laws need target geometry this encoder does not resolve"@,
    )
}

/// The note on an extrude whose profile names no sketch.
pub open spec fn without_sketch(feature: Feature) -> LossView {
    program::omitted(name_of(feature) + ": its profile names no sketch"@)
}

/// The note on an extrude whose sketch has no plane or no arrangement.
pub open spec fn unplaced_sketch(feature: Feature, sketch: Seq<char>) -> LossView {
    program::omitted(
        name_of(feature) + ": its sketch "@ + sketch
            + " has no plane, or its profile loops are open or cross one another"@,
    )
}

/// What planning makes of a feature: nothing, a plan, or a note.
pub open spec fn outline(
    m: Arithmetic,
    frames: Map<Seq<char>, SketchFrame>,
    feature: Feature,
) -> Option<Result<PlanView, LossView>> {
    match feature.definition {
        FeatureDefinition::Extrude { profile, extent, op } => if is_suppressed(feature) {
            None
        } else {
            match sketch_of(profile) {
                Some(sketch) => if !frames.contains_key(sketch) {
                    Some(Err(unplaced_sketch(feature, sketch)))
                } else {
                    match frame::swept_span(m, frames[sketch], extent) {
                        Some(span) => Some(
                            Ok(
                                PlanView {
                                    feature,
                                    sketch,
                                    frame: frames[sketch],
                                    span,
                                    op,
                                    extent,
                                    profile: None,
                                },
                            ),
                        ),
                        None => Some(Err(not_blind(feature))),
                    }
                },
                None => Some(Err(without_sketch(feature))),
            }
        },
        _ => None,
    }
}

/// What planning makes of a feature: nothing, a plan, or the message of a note.
fn outline_feature<'a, K: Kernel>(
    feature: &'a Feature,
    frames: &StringHashMap<SketchFrame>,
    kernel: &K,
) -> (r: Option<Result<Planned<'a>, String>>)
    ensures
        match r {
            Some(Ok(plan)) => outline(kernel.model(), frames@, *feature) == Some(
                Ok::<PlanView, LossView>(plan@),
            ) && plan.feature.definition is Extrude && frames@.contains_key(plan.sketch@),
            Some(Err(message)) => outline(kernel.model(), frames@, *feature) == Some(
                Err::<PlanView, LossView>(program::omitted(message@)),
            ),
            None => outline(kernel.model(), frames@, *feature) is None,
        },
{
    if suppressed(feature) {
        return None;
    }
    let (profile, extent, op) = match as_extrude(feature) {
        Some(parts) => parts,
        None => {
            return None;
        },
    };
    let mut message = feature_name(feature).clone();
    let sketch = match profile_sketch(profile) {
        Some(sketch) => sketch,
        None => {
            message.append(": its profile names no sketch");
            return Some(Err(message));
        },
    };
    let frame = match frames.get(sketch.as_str()) {
        Some(frame) => *frame,
        None => {
            message.append(": its sketch ");
            message.append(sketch.as_str());
            message.append(" has no plane, or its profile loops are open or cross one another");
            return Some(Err(message));
        },
    };
    match extrude_span(&frame, extent, kernel) {
        Some(span) => Some(
            Ok(
                Planned {
                    feature,
                    sketch: sketch.clone(),
                    frame,
                    span,
                    op: *op,
                    extent: *extent,
                    profile: None,
                },
            ),
        ),
        None => {
            message.append(
                ": its extent is not blind on every side; through-all, to-face and to-vertex laws need target geometry this encoder does not resolve",
            );
            Some(Err(message))
        },
    }
}

/// The plans of the first `n` features.
pub open spec fn outlined(
    m: Arithmetic,
    frames: Map<Seq<char>, SketchFrame>,
    steps: Seq<Feature>,
    n: int,
) -> Seq<PlanView>
    decreases n,
{
    if n <= 0 {
        Seq::empty()
    } else {
        let rest = outlined(m, frames, steps, n - 1);
        match outline(m, frames, steps[n - 1]) {
            Some(Ok(plan)) => rest.push(plan),
            _ => rest,
        }
    }
}

/// The notes on those of the first `n` features that cannot be planned.
pub open spec fn outline_losses(
    m: Arithmetic,
    frames: Map<Seq<char>, SketchFrame>,
    steps: Seq<Feature>,
    n: int,
) -> Seq<LossView>
    decreases n,
{
    if n <= 0 {
        Seq::empty()
    } else {
        let rest = outline_losses(m, frames, steps, n - 1);
        match outline(m, frames, steps[n - 1]) {
            Some(Err(note)) => rest.push(note),
            _ => rest,
        }
    }
}

/// The extrudes of a document, in the order of the timeline.
pub open spec fn plans_of(m: Arithmetic, model: Model) -> Seq<PlanView> {
    let steps = timeline(model);
    outlined(m, frames_of(m, model), steps, steps.len() as int)
}

/// What the profile reference of a planned extrude resolves to.
pub open spec fn reading(
    plan: PlanView,
    arrangements: Map<Seq<char>, ArrangementView>,
) -> Result<ProfileView, Seq<char>> {
    match plan.feature.definition {
        FeatureDefinition::Extrude { profile, .. } => profile::resolution(profile, arrangements),
        _ => Err(Seq::empty()),
    }
}

/// A plan with its profile, if that can be read.
pub open spec fn read_plan(
    plan: PlanView,
    arrangements: Map<Seq<char>, ArrangementView>,
) -> PlanView {
    match reading(plan, arrangements) {
        Ok(resolved) => plan.with_profile(resolved),
        Err(_) => plan,
    }
}

/// The first `n` plans with their profiles where those can be read, followed by
/// the others as they are.
pub open spec fn read_plans(
    plans: Seq<PlanView>,
    arrangements: Map<Seq<char>, ArrangementView>,
    n: int,
) -> Seq<PlanView> {
    Seq::new(
        plans.len(),
        |i: int|
            if i < n {
                read_plan(plans[i], arrangements)
            } else {
                plans[i]
            },
    )
}

/// Those of the first `n` plans whose profile cannot be read, each with why.
pub open spec fn open_plans(
    plans: Seq<PlanView>,
    arrangements: Map<Seq<char>, ArrangementView>,
    n: int,
) -> Seq<(usize, Seq<char>)>
    decreases n,
{
    if n <= 0 {
        Seq::empty()
    } else {
        let rest = open_plans(plans, arrangements, n - 1);
        match reading(plans[n - 1], arrangements) {
            Ok(_) => rest,
            Err(reason) => rest.push(((n - 1) as usize, reason)),
        }
    }
}

/// What attribution needs of an open plan.
pub open spec fn pending_view(
    plan: PlanView,
    arrangements: Map<Seq<char>, ArrangementView>,
) -> PendingView {
    PendingView {
        id: plan.feature.id@,
        frame: plan.frame,
        rings: arrangements[plan.sketch].rings,
        span: plan.span,
    }
}

/// What attribution needs of the open plans.
pub open spec fn attribution_inputs(
    plans: Seq<PlanView>,
    arrangements: Map<Seq<char>, ArrangementView>,
    open: Seq<(usize, Seq<char>)>,
) -> Seq<PendingView> {
    open.map_values(|entry: (usize, Seq<char>)| pending_view(plans[entry.0 as int], arrangements))
}

/// The axis stations are measured along: the normal of the first planned sketch.
pub open spec fn reference_of(plans: Seq<PlanView>) -> Vec3 {
    if plans.len() > 0 {
        plans[0].frame.normal
    } else {
        Vec3 { x: Scalar { bits: ZERO }, y: Scalar { bits: ZERO }, z: Scalar { bits: ONE } }
    }
}

/// The exterior loop attributed to each open extrude.
pub open spec fn attribution(
    m: Arithmetic,
    model: Model,
    plans: Seq<PlanView>,
    arrangements: Map<Seq<char>, ArrangementView>,
    open: Seq<(usize, Seq<char>)>,
) -> Map<Seq<char>, usize> {
    if open.len() == 0 {
        Map::empty()
    } else {
        assign::outer_rings(
            m,
            model,
            reference_of(plans),
            attribution_inputs(plans, arrangements, open),
        )
    }
}

/// The note on a body without a classifier.
pub open spec fn unclassified() -> LossView {
    LossView {
        kind: LossKind::CarrierSummary,
        message: "the body is not a solid of revolution, so inferred profiles keep every atomic region of their exterior loop rather than testing each for material"@,
    }
}

/// The profile of a plan, if it was read from the document.
pub open spec fn read_profile_of(plan: PlanView) -> Option<ProfileView> {
    match plan.profile {
        Some(resolved) => if resolved.inference is None {
            Some(resolved)
        } else {
            None
        },
        None => None,
    }
}

/// The volume swept by a loop of a plan's sketch, or none when the sketch has no
/// such loop.
pub open spec fn swept_by(
    plan: PlanView,
    arrangements: Map<Seq<char>, ArrangementView>,
    ring: usize,
) -> Seq<CutView> {
    if arrangements.contains_key(plan.sketch) && ring < arrangements[plan.sketch].rings.len() {
        seq![
            CutView {
                frame: plan.frame,
                span: plan.span,
                ring: arrangements[plan.sketch].rings[ring as int],
            },
        ]
    } else {
        Seq::empty()
    }
}

/// The volumes swept by the exterior loops of the first `n` regions.
pub open spec fn swept_by_regions(
    plan: PlanView,
    arrangements: Map<Seq<char>, ArrangementView>,
    regions: Seq<RegionView>,
    n: int,
) -> Seq<CutView>
    decreases n,
{
    if n <= 0 {
        Seq::empty()
    } else {
        swept_by_regions(plan, arrangements, regions, n - 1) + swept_by(
            plan,
            arrangements,
            regions[n - 1].outer,
        )
    }
}

/// The volumes a plan cuts after an ordinal: those of the exterior loops its
/// profile was read with, else that of the exterior loop attributed to it.
pub open spec fn cuts_of(
    plan: PlanView,
    arrangements: Map<Seq<char>, ArrangementView>,
    rings: Map<Seq<char>, usize>,
    ordinal: u64,
) -> Seq<CutView> {
    if plan.feature.ordinal > ordinal && plan.op == BooleanOp::Cut {
        match read_profile_of(plan) {
            Some(read) => swept_by_regions(
                plan,
                arrangements,
                read.regions,
                read.regions.len() as int,
            ),
            None => if rings.contains_key(plan.feature.id@) {
                swept_by(plan, arrangements, rings[plan.feature.id@])
            } else {
                Seq::empty()
            },
        }
    } else {
        Seq::empty()
    }
}

/// The volumes cut by the first `n` plans after an ordinal.
pub open spec fn later_cuts(
    plans: Seq<PlanView>,
    arrangements: Map<Seq<char>, ArrangementView>,
    rings: Map<Seq<char>, usize>,
    ordinal: u64,
    n: int,
) -> Seq<CutView>
    decreases n,
{
    if n <= 0 {
        Seq::empty()
    } else {
        later_cuts(plans, arrangements, rings, ordinal, n - 1) + cuts_of(
            plans[n - 1],
            arrangements,
            rings,
            ordinal,
        )
    }
}

/// The profile inferred for a plan with an attributed exterior loop.
pub open spec fn inferred_for(
    m: Arithmetic,
    plans: Seq<PlanView>,
    arrangements: Map<Seq<char>, ArrangementView>,
    rings: Map<Seq<char>, usize>,
    solid: Option<MeridianView>,
    plan: PlanView,
) -> ProfileView {
    profile::inferred(
        m,
        plan.sketch,
        rings[plan.feature.id@],
        arrangements[plan.sketch],
        plan.frame,
        plan.span,
        solid,
        later_cuts(plans, arrangements, rings, plan.feature.ordinal, plans.len() as int),
    )
}

/// The plans once the first `n` open ones were inferred where their exterior
/// loop is attributed.
pub open spec fn settled(
    m: Arithmetic,
    plans: Seq<PlanView>,
    arrangements: Map<Seq<char>, ArrangementView>,
    rings: Map<Seq<char>, usize>,
    solid: Option<MeridianView>,
    open: Seq<(usize, Seq<char>)>,
    n: int,
) -> Seq<PlanView>
    decreases n,
{
    if n <= 0 {
        plans
    } else {
        let rest = settled(m, plans, arrangements, rings, solid, open, n - 1);
        let index = open[n - 1].0 as int;
        if rings.contains_key(rest[index].feature.id@) {
            rest.update(
                index,
                rest[index].with_profile(
                    inferred_for(m, rest, arrangements, rings, solid, rest[index]),
                ),
            )
        } else {
            rest
        }
    }
}

/// The note on an open extrude without an attributed exterior loop.
pub open spec fn unattributed(feature: Feature, reason: Seq<char>) -> LossView {
    program::omitted(
        name_of(feature) + ": "@ + reason
            + ", and no solved carrier could be attributed to any of its profile loops"@,
    )
}

/// The note on an extrude none of whose regions holds material.
pub open spec fn stands_in(feature: Feature) -> LossView {
    program::omitted(
        name_of(feature)
            + ": no region of its exterior loop was found to hold material, so the loop is written as it is"@,
    )
}

/// Whether none of the regions within a plan's attributed loop is kept.
pub open spec fn is_guessed(
    m: Arithmetic,
    plans: Seq<PlanView>,
    arrangements: Map<Seq<char>, ArrangementView>,
    rings: Map<Seq<char>, usize>,
    solid: Option<MeridianView>,
    plan: PlanView,
) -> bool {
    profile::none_kept(
        m,
        rings[plan.feature.id@],
        arrangements[plan.sketch],
        plan.frame,
        plan.span,
        solid,
        later_cuts(plans, arrangements, rings, plan.feature.ordinal, plans.len() as int),
    )
}

/// The notes on those of the first `n` open plans that cannot be inferred, or
/// only by writing their exterior loop as it is.
pub open spec fn settle_losses(
    m: Arithmetic,
    plans: Seq<PlanView>,
    arrangements: Map<Seq<char>, ArrangementView>,
    rings: Map<Seq<char>, usize>,
    solid: Option<MeridianView>,
    open: Seq<(usize, Seq<char>)>,
    n: int,
) -> Seq<LossView>
    decreases n,
{
    if n <= 0 {
        Seq::empty()
    } else {
        let rest = settle_losses(m, plans, arrangements, rings, solid, open, n - 1);
        let now = settled(m, plans, arrangements, rings, solid, open, n - 1);
        let plan = now[open[n - 1].0 as int];
        if !rings.contains_key(plan.feature.id@) {
            rest.push(unattributed(plan.feature, open[n - 1].1))
        } else if is_guessed(m, now, arrangements, rings, solid, plan) {
            rest.push(stands_in(plan.feature))
        } else {
            rest
        }
    }
}

// ---------------------------------------------------------------------------
// what a document resolves to
// ---------------------------------------------------------------------------

/// The extrudes of a document whose profile cannot be read.
pub open spec fn open_of(m: Arithmetic, model: Model) -> Seq<(usize, Seq<char>)> {
    let plans = plans_of(m, model);
    open_plans(plans, arrangements_of(m, model), plans.len() as int)
}

/// The exterior loops attributed in a document.
pub open spec fn rings_of(m: Arithmetic, model: Model) -> Map<Seq<char>, usize> {
    attribution(m, model, plans_of(m, model), arrangements_of(m, model), open_of(m, model))
}

/// The classifier of a document's solved body.
pub open spec fn solid_of(m: Arithmetic, model: Model) -> Option<MeridianView> {
    meridian::meridian_of(m, model)
}

/// The extrudes of a document with every profile that can be read.
pub open spec fn plans_read(m: Arithmetic, model: Model) -> Seq<PlanView> {
    let plans = plans_of(m, model);
    read_plans(plans, arrangements_of(m, model), plans.len() as int)
}

/// The extrudes of a document with every profile that can be read or inferred.
pub open spec fn resolved_plans(m: Arithmetic, model: Model) -> Seq<PlanView> {
    let arrangements = arrangements_of(m, model);
    let open = open_of(m, model);
    settled(
        m,
        plans_read(m, model),
        arrangements,
        rings_of(m, model),
        solid_of(m, model),
        open,
        open.len() as int,
    )
}

/// The note on a missing classifier, where one would have been used.
pub open spec fn classifier_losses(
    solid: Option<MeridianView>,
    open: Seq<(usize, Seq<char>)>,
) -> Seq<LossView> {
    if solid is None && open.len() > 0 {
        seq![unclassified()]
    } else {
        Seq::empty()
    }
}

/// The notes resolution leaves.
pub open spec fn resolution_losses(m: Arithmetic, model: Model) -> Seq<LossView> {
    let steps = timeline(model);
    let open = open_of(m, model);
    outline_losses(m, frames_of(m, model), steps, steps.len() as int) + classifier_losses(
        solid_of(m, model),
        open,
    ) + settle_losses(
        m,
        plans_read(m, model),
        arrangements_of(m, model),
        rings_of(m, model),
        solid_of(m, model),
        open,
        open.len() as int,
    )
}

/// Whether the exterior loop attributed to each open extrude is a loop of its
/// own sketch.
pub open spec fn loops_fit(
    plans: Seq<PlanView>,
    arrangements: Map<Seq<char>, ArrangementView>,
    rings: Map<Seq<char>, usize>,
    open: Seq<(usize, Seq<char>)>,
) -> bool {
    forall|k: int|
        0 <= k < open.len() ==> {
            let plan = plans[(#[trigger] open[k]).0 as int];
            rings.contains_key(plan.feature.id@) ==> rings[plan.feature.id@]
                < arrangements[plan.sketch].regions.len()
        }
}

/// Whether a document's attributions stay within their sketches.
pub open spec fn is_attributable(m: Arithmetic, model: Model) -> bool {
    loops_fit(
        plans_of(m, model),
        arrangements_of(m, model),
        rings_of(m, model),
        open_of(m, model),
    )
}

/// What some pending entries hold.
pub open spec fn entry_views(pending: Seq<(usize, String)>) -> Seq<(usize, Seq<char>)> {
    pending.map_values(|entry: (usize, String)| (entry.0, entry.1@))
}

// ---------------------------------------------------------------------------
// the writer's plans
// ---------------------------------------------------------------------------

/// The state of one export.
pub struct Writer<'a, K: Kernel> {
    pub ir: &'a CadIr,
    pub kernel: &'a K,
    pub topo: Topology<'a>,
    pub arrangements: StringHashMap<Arrangement>,
    pub frames: StringHashMap<SketchFrame>,
    pub planned: Vec<Planned<'a>>,
    /// Exterior loop attributed to each extrude that needed inference.
    pub rings: StringHashMap<usize>,
    /// Extrudes awaiting inference, with the reason their selection was open.
    pub pending: Vec<(usize, String)>,
    pub meridian: Option<Meridian>,
    pub program: Program,
}

impl<'a, K: Kernel> Writer<'a, K> {
    /// The arithmetic of the export.
    pub open spec fn arithmetic(&self) -> Arithmetic {
        self.kernel.model()
    }

    /// What the plans hold.
    pub open spec fn plans(&self) -> Seq<PlanView> {
        plan_views(self.planned@)
    }

    /// What the arrangements hold.
    pub open spec fn arranged(&self) -> Map<Seq<char>, ArrangementView> {
        profile::arrangement_views(self.arrangements@)
    }

    /// What waits for inference.
    pub open spec fn waiting(&self) -> Seq<(usize, Seq<char>)> {
        entry_views(self.pending@)
    }

    /// The lookups belong to the document, sketches are placed and arranged
    /// together, and plans are extrudes on placed sketches.
    pub open spec fn sound(&self) -> bool {
        &&& self.topo.model() == self.ir.model
        &&& self.frames@.dom() =~= self.arrangements@.dom()
        &&& forall|key: Seq<char>| #[trigger]
            self.arrangements@.contains_key(key) ==> self.arrangements@[key]@.sound()
        &&& forall|i: int|
            0 <= i < self.planned@.len() ==> {
                &&& (#[trigger] self.planned@[i]).feature.definition is Extrude
                &&& self.frames@.contains_key(self.planned@[i].sketch@)
            }
        &&& forall|k: int|
            0 <= k < self.pending@.len() ==> (#[trigger] self.pending@[k]).0 < self.planned@.len()
    }

    /// Whether the export has not begun.
    pub open spec fn fresh(&self) -> bool {
        &&& self.frames@ == Map::<Seq<char>, SketchFrame>::empty()
        &&& self.arrangements@ == Map::<Seq<char>, Arrangement>::empty()
        &&& self.planned@.len() == 0
        &&& self.pending@.len() == 0
        &&& self.rings@ == Map::<Seq<char>, usize>::empty()
        &&& self.meridian is None
        &&& self.program@ == program::ProgramView::empty()
    }

    /// Whether two states share document, arithmetic and sketches.
    pub open spec fn same_sketches(&self, other: &Self) -> bool {
        &&& self.ir == other.ir
        &&& self.kernel == other.kernel
        &&& self.topo == other.topo
        &&& self.frames == other.frames
        &&& self.arrangements == other.arrangements
    }

    /// Begins an export.
    pub fn new(ir: &'a CadIr, kernel: &'a K) -> (r: Self)
        ensures
            r.ir == ir,
            r.kernel == kernel,
            r.sound(),
            r.fresh(),
    {
        Writer {
            ir,
            kernel,
            topo: Topology::new(ir),
            arrangements: StringHashMap::new(),
            frames: StringHashMap::new(),
            planned: Vec::new(),
            rings: StringHashMap::new(),
            pending: Vec::new(),
            meridian: None,
            program: Program::new(),
        }
    }

    /// Places and arranges the sketches.
    fn place_sketches(&mut self)
        requires
            old(self).sound(),
            old(self).fresh(),
        ensures
            final(self).sound(),
            final(self).ir == old(self).ir,
            final(self).kernel == old(self).kernel,
            final(self).topo == old(self).topo,
            final(self).planned == old(self).planned,
            final(self).pending == old(self).pending,
            final(self).rings == old(self).rings,
            final(self).meridian == old(self).meridian,
            final(self).program == old(self).program,
            final(self).frames@ == frames_of(final(self).arithmetic(), final(self).ir.model),
            final(self).arranged() == arrangements_of(
                final(self).arithmetic(),
                final(self).ir.model,
            ),
    {
        let ghost m = self.arithmetic();
        let ghost model = self.ir.model;
        let ir = self.ir;
        let kernel = self.kernel;
        let entities: Catalog<'a, SketchEntity> = Catalog::new(&ir.model.sketch_entities);
        let mut frames: StringHashMap<SketchFrame> = StringHashMap::new();
        let mut arrangements: StringHashMap<Arrangement> = StringHashMap::new();
        let mut i: usize = 0;
        assert(profile::arrangement_views(arrangements@) =~= Map::empty());
        while i < ir.model.sketches.len()
            invariant
                i <= ir.model.sketches@.len(),
                m == kernel.model(),
                model == ir.model,
                entities@ == model.sketch_entities@,
                frames@ == placed_frames(m, model, i as int),
                profile::arrangement_views(arrangements@) == placed_arrangements(
                    m,
                    model,
                    i as int,
                ),
            decreases ir.model.sketches@.len() - i,
        {
            let sketch = &ir.model.sketches[i];
            let ghost before = profile::arrangement_views(arrangements@);
            if let Some(frame) = sketch_frame(sketch, kernel) {
                if let Some(arrangement) = Arrangement::build(sketch, &entities, kernel) {
                    let ghost view = arrangement@;
                    frames.insert(sketch.id.clone(), frame);
                    arrangements.insert(sketch.id.clone(), arrangement);
                    assert(profile::arrangement_views(arrangements@) =~= before.insert(
                        sketch.id@,
                        view,
                    ));
                }
            }
            i += 1;
        }
        proof {
            placed_together(m, model, i as int);
            let views = profile::arrangement_views(arrangements@);
            assert(arrangements@.dom() =~= views.dom());
            assert forall|key: Seq<char>| #[trigger] arrangements@.contains_key(key) implies
                arrangements@[key]@.sound() by {
                assert(views.contains_key(key));
                assert(views[key] == arrangements@[key]@);
            }
        }
        self.frames = frames;
        self.arrangements = arrangements;
    }

    /// Plans the extrudes of the timeline.
    fn outline_extrudes(&mut self)
        requires
            old(self).sound(),
            old(self).planned@.len() == 0,
        ensures
            final(self).sound(),
            final(self).same_sketches(old(self)),
            final(self).pending == old(self).pending,
            final(self).rings == old(self).rings,
            final(self).meridian == old(self).meridian,
            final(self).plans() == outlined(
                old(self).arithmetic(),
                old(self).frames@,
                timeline(old(self).ir.model),
                timeline(old(self).ir.model).len() as int,
            ),
            final(self).program@ == (program::ProgramView {
                losses: old(self).program@.losses + outline_losses(
                    old(self).arithmetic(),
                    old(self).frames@,
                    timeline(old(self).ir.model),
                    timeline(old(self).ir.model).len() as int,
                ),
                ..old(self).program@
            }),
    {
        let ghost m = self.arithmetic();
        let ghost frames = self.frames@;
        let ghost start = self.program@;
        let ghost steps = timeline(self.ir.model);
        let ir = self.ir;
        let features = sort_stable(&ir.model.features);
        assert(features@.unref() == steps);
        let mut i: usize = 0;
        assert(self.plans() =~= Seq::empty());
        assert(start.losses + Seq::<LossView>::empty() =~= start.losses);
        while i < features.len()
            invariant
                i <= features@.len(),
                features@.unref() == steps,
                m == self.arithmetic(),
                frames == self.frames@,
                self.sound(),
                self.same_sketches(old(self)),
                self.pending == old(self).pending,
                self.rings == old(self).rings,
                self.meridian == old(self).meridian,
                self.plans() == outlined(m, frames, steps, i as int),
                self.program@ == (program::ProgramView {
                    losses: start.losses + outline_losses(m, frames, steps, i as int),
                    ..start
                }),
            decreases features@.len() - i,
        {
            let feature: &'a Feature = features[i];
            assert(steps[i as int] == *feature);
            let ghost plans = self.plans();
            let ghost losses = outline_losses(m, frames, steps, i as int);
            match outline_feature(feature, &self.frames, self.kernel) {
                Some(Ok(plan)) => {
                    let ghost added = plan@;
                    self.planned.push(plan);
                    assert(self.plans() =~= plans.push(added));
                },
                Some(Err(message)) => {
                    let ghost note = program::omitted(message@);
                    self.program.note(LossKind::ParametricRecordOmitted, message);
                    assert(start.losses + losses.push(note) =~= (start.losses + losses).push(
                        note,
                    ));
                },
                None => {},
            }
            i += 1;
        }
    }

    /// The axis stations are measured along. Every sketch in a resolvable
    /// history shares it; the first plane's normal names it.
    pub fn reference_axis(&self) -> (r: Vec3)
        ensures
            r == reference_of(self.plans()),
    {
        if self.planned.len() > 0 {
            assert(self.plans()[0] == self.planned@[0]@);
            self.planned[0].frame.normal
        } else {
            let zero = Scalar { bits: ZERO };
            Vec3 { x: zero, y: zero, z: Scalar { bits: ONE } }
        }
    }
}

/// Reading profiles leaves everything but the profiles as it was.
proof fn reading_keeps_outline(
    plans: Seq<PlanView>,
    arrangements: Map<Seq<char>, ArrangementView>,
    n: int,
)
    ensures
        read_plans(plans, arrangements, n).len() == plans.len(),
        reference_of(read_plans(plans, arrangements, n)) == reference_of(plans),
{
}

proof fn open_in_range(
    plans: Seq<PlanView>,
    arrangements: Map<Seq<char>, ArrangementView>,
    n: int,
)
    requires
        0 <= n <= plans.len() <= usize::MAX,
    ensures
        forall|k: int| #![trigger open_plans(plans, arrangements, n)[k]]
            0 <= k < open_plans(plans, arrangements, n).len() ==> open_plans(
                plans,
                arrangements,
                n,
            )[k].0 < n,
    decreases n,
{
    if n > 0 {
        open_in_range(plans, arrangements, n - 1);
        let rest = open_plans(plans, arrangements, n - 1);
        let now = open_plans(plans, arrangements, n);
        assert forall|k: int| #![trigger now[k]] 0 <= k < now.len() implies now[k].0 < n by {
            if k < rest.len() {
                assert(now[k] == rest[k]);
            }
        }
    }
}

impl<'a, K: Kernel> Writer<'a, K> {
    /// Reads the profiles that can be read, and attributes exterior loops to
    /// the others.
    pub fn attribute_exterior_loops(&mut self)
        requires
            old(self).sound(),
            old(self).pending@.len() == 0,
            old(self).rings@ == Map::<Seq<char>, usize>::empty(),
        ensures
            final(self).sound(),
            final(self).same_sketches(old(self)),
            final(self).meridian == old(self).meridian,
            final(self).program == old(self).program,
            final(self).plans() == read_plans(
                old(self).plans(),
                old(self).arranged(),
                old(self).plans().len() as int,
            ),
            final(self).waiting() == open_plans(
                old(self).plans(),
                old(self).arranged(),
                old(self).plans().len() as int,
            ),
            final(self).rings@ == attribution(
                old(self).arithmetic(),
                old(self).ir.model,
                old(self).plans(),
                old(self).arranged(),
                final(self).waiting(),
            ),
    {
        let ghost plans = self.plans();
        let ghost arranged = self.arranged();
        let ghost m = self.arithmetic();
        let mut index: usize = 0;
        assert(self.plans() =~= read_plans(plans, arranged, 0));
        assert(self.waiting() =~= open_plans(plans, arranged, 0));
        while index < self.planned.len()
            invariant
                index <= self.planned@.len(),
                self.sound(),
                self.same_sketches(old(self)),
                self.meridian == old(self).meridian,
                self.program == old(self).program,
                self.rings == old(self).rings,
                plans == old(self).plans(),
                arranged == self.arranged(),
                plans.len() == self.planned@.len(),
                self.plans() == read_plans(plans, arranged, index as int),
                self.waiting() == open_plans(plans, arranged, index as int),
            decreases self.planned@.len() - index,
        {
            assert(self.plans()[index as int] == self.planned@[index as int]@);
            assert(self.plans()[index as int] == plans[index as int]);
            let ghost before = self.plans();
            let ghost waiting = self.waiting();
            let ghost planned = self.planned@;
            if let Some((profile, _, _)) = as_extrude(self.planned[index].feature) {
                match resolve_profile(profile, &self.arrangements) {
                    Ok(resolved) => {
                        let ghost view = resolved@;
                        self.planned[index].profile = Some(resolved);
                        assert(self.plans() =~= before.update(
                            index as int,
                            plans[index as int].with_profile(view),
                        ));
                        assert(self.plans() =~= read_plans(plans, arranged, index + 1));
                    },
                    Err(reason) => {
                        let ghost view = reason@;
                        self.pending.push((index, reason));
                        assert(self.waiting() =~= waiting.push((index, view)));
                        assert(self.plans() =~= read_plans(plans, arranged, index + 1));
                    },
                }
            }
            index += 1;
        }
        assert(self.waiting().len() == self.pending@.len());
        if self.pending.is_empty() {
            return;
        }
        let axis = self.reference_axis();
        proof {
            reading_keeps_outline(plans, arranged, plans.len() as int);
        }
        let mut inputs: Vec<PendingExtrude> = Vec::new();
        let mut k: usize = 0;
        let ghost open = self.waiting();
        while k < self.pending.len()
            invariant
                k <= self.pending@.len(),
                self.sound(),
                open == self.waiting(),
                open.len() == self.pending@.len(),
                arranged == self.arranged(),
                plans.len() == self.planned@.len(),
                self.plans() == read_plans(plans, arranged, plans.len() as int),
                assign::pending_views(inputs@) =~= attribution_inputs(plans, arranged, open).take(
                    k as int,
                ),
            decreases self.pending@.len() - k,
        {
            let index: usize = self.pending[k].0;
            let plan = &self.planned[index];
            assert(open[k as int] == (index, self.pending@[k as int].1@));
            assert(self.plans()[index as int] == plan@);
            assert(arranged.contains_key(plan.sketch@));
            assert(self.arrangements@.contains_key(plan.sketch@));
            let ghost before = assign::pending_views(inputs@);
            if let Some(arrangement) = self.arrangements.get(plan.sketch.as_str()) {
                let input = PendingExtrude {
                    id: &plan.feature.id,
                    frame: plan.frame,
                    arrangement,
                    span: plan.span,
                };
                let ghost view = input@;
                inputs.push(input);
                assert(assign::pending_views(inputs@) =~= before.push(view));
                assert(view == pending_view(plans[index as int], arranged));
            }
            k += 1;
        }
        assert(assign::pending_views(inputs@) =~= attribution_inputs(plans, arranged, open));
        self.rings = assign_outer_rings(&inputs, &self.topo, axis, self.kernel);
    }

    /// Builds the classifier of the solved body.
    pub fn build_classifier(&mut self)
        requires
            old(self).sound(),
        ensures
            final(self).sound(),
            final(self).same_sketches(old(self)),
            final(self).planned == old(self).planned,
            final(self).pending == old(self).pending,
            final(self).rings == old(self).rings,
            profile::meridian_view(final(self).meridian) == meridian::meridian_of(
                old(self).arithmetic(),
                old(self).ir.model,
            ),
            final(self).program@ == (program::ProgramView {
                losses: old(self).program@.losses + classifier_losses(
                    profile::meridian_view(final(self).meridian),
                    old(self).waiting(),
                ),
                ..old(self).program@
            }),
    {
        let ghost start = self.program@;
        self.meridian = Meridian::build(&self.topo, self.kernel);
        assert(self.waiting().len() == self.pending@.len());
        if self.meridian.is_none() && !self.pending.is_empty() {
            self.program.note(
                LossKind::CarrierSummary,
                "the body is not a solid of revolution, so inferred profiles keep every atomic region of their exterior loop rather than testing each for material".to_owned(),
            );
            assert(start.losses + seq![unclassified()] =~= start.losses.push(unclassified()));
        } else {
            assert(start.losses + Seq::<LossView>::empty() =~= start.losses);
        }
    }

    /// Adds the volume swept by a loop of a plan's sketch.
    fn sweep(&self, plan: &Planned<'a>, ring: usize, cuts: &mut Vec<CutVolume>)
        ensures
            profile::cut_views(final(cuts)@) == profile::cut_views(old(cuts)@) + swept_by(
                plan@,
                self.arranged(),
                ring,
            ),
    {
        let ghost before = profile::cut_views(cuts@);
        let ghost arranged = self.arranged();
        if let Some(arrangement) = self.arrangements.get(plan.sketch.as_str()) {
            assert(arranged.contains_key(plan.sketch@));
            assert(arranged[plan.sketch@] == arrangement@);
            if ring < arrangement.rings.len() {
                assert(arrangement@.rings[ring as int] == arrangement.rings@[ring as int]@);
                let cut = CutVolume {
                    frame: plan.frame,
                    span: plan.span,
                    ring: arrangement.rings[ring].duplicate(),
                };
                let ghost view = cut@;
                cuts.push(cut);
                assert(profile::cut_views(cuts@) =~= before + seq![view]);
                return;
            }
        }
        assert(before + Seq::<CutView>::empty() =~= before);
    }

    /// Adds the volumes swept by the exterior loops of some regions.
    fn sweep_regions(&self, plan: &Planned<'a>, regions: &Vec<Region>, cuts: &mut Vec<CutVolume>)
        ensures
            profile::cut_views(final(cuts)@) == profile::cut_views(old(cuts)@)
                + swept_by_regions(
                plan@,
                self.arranged(),
                arrangement::region_views(regions@),
                regions@.len() as int,
            ),
    {
        let ghost start = profile::cut_views(cuts@);
        let ghost arranged = self.arranged();
        let ghost views = arrangement::region_views(regions@);
        let mut i: usize = 0;
        assert(start + Seq::<CutView>::empty() =~= start);
        while i < regions.len()
            invariant
                i <= regions@.len(),
                arranged == self.arranged(),
                views == arrangement::region_views(regions@),
                profile::cut_views(cuts@) == start + swept_by_regions(
                    plan@,
                    arranged,
                    views,
                    i as int,
                ),
            decreases regions@.len() - i,
        {
            assert(views[i as int] == regions@[i as int]@);
            let ghost so_far = swept_by_regions(plan@, arranged, views, i as int);
            let ghost more = swept_by(plan@, arranged, regions@[i as int].outer);
            self.sweep(plan, regions[i].outer, cuts);
            assert((start + so_far) + more =~= start + (so_far + more));
            i += 1;
        }
    }

    /// The volumes later subtractive extrudes remove.
    ///
    /// Only the exterior loop and span of a later cut are consulted, never its
    /// holes: those may themselves still be under inference, and the exterior is
    /// enough to answer the question.
    pub fn later_cut_coverage(&self, index: usize) -> (r: Vec<CutVolume>)
        requires
            index < self.planned@.len(),
        ensures
            profile::cut_views(r@) == later_cuts(
                self.plans(),
                self.arranged(),
                self.rings@,
                self.plans()[index as int].feature.ordinal,
                self.plans().len() as int,
            ),
    {
        let ghost plans = self.plans();
        let ghost arranged = self.arranged();
        assert(plans[index as int] == self.planned@[index as int]@);
        let ordinal = self.planned[index].feature.ordinal;
        let mut cuts: Vec<CutVolume> = Vec::new();
        let mut i: usize = 0;
        assert(profile::cut_views(cuts@) =~= Seq::empty());
        while i < self.planned.len()
            invariant
                i <= self.planned@.len(),
                plans == self.plans(),
                arranged == self.arranged(),
                profile::cut_views(cuts@) == later_cuts(
                    plans,
                    arranged,
                    self.rings@,
                    ordinal,
                    i as int,
                ),
            decreases self.planned@.len() - i,
        {
            let plan = &self.planned[i];
            assert(plans[i as int] == plan@);
            let ghost before = profile::cut_views(cuts@);
            if plan.feature.ordinal > ordinal && is_subtractive(plan.op) {
                let read = match &plan.profile {
                    Some(resolved) => if resolved.inference.is_none() {
                        Some(&resolved.regions)
                    } else {
                        None
                    },
                    None => None,
                };
                match read {
                    Some(regions) => {
                        self.sweep_regions(plan, regions, &mut cuts);
                        assert(arrangement::region_views(regions@).len() == regions@.len());
                    },
                    None => {
                        if let Some(outer) = self.rings.get(plan.feature.id.as_str()) {
                            self.sweep(plan, *outer, &mut cuts);
                        } else {
                            assert(before + Seq::<CutView>::empty() =~= before);
                        }
                    },
                }
            } else {
                assert(before + Seq::<CutView>::empty() =~= before);
            }
            i += 1;
        }
        cuts
    }
}

/// Inference leaves everything but the profiles as it was.
proof fn settling_keeps_outline(
    m: Arithmetic,
    plans: Seq<PlanView>,
    arrangements: Map<Seq<char>, ArrangementView>,
    rings: Map<Seq<char>, usize>,
    solid: Option<MeridianView>,
    open: Seq<(usize, Seq<char>)>,
    n: int,
)
    requires
        0 <= n <= open.len(),
        forall|k: int| 0 <= k < open.len() ==> (#[trigger] open[k]).0 < plans.len(),
    ensures
        settled(m, plans, arrangements, rings, solid, open, n).len() == plans.len(),
        forall|i: int|
            0 <= i < plans.len() ==> {
                &&& (#[trigger] settled(m, plans, arrangements, rings, solid, open, n)[i]).feature
                    == plans[i].feature
                &&& settled(m, plans, arrangements, rings, solid, open, n)[i].sketch
                    == plans[i].sketch
                &&& settled(m, plans, arrangements, rings, solid, open, n)[i].frame
                    == plans[i].frame
                &&& settled(m, plans, arrangements, rings, solid, open, n)[i].span
                    == plans[i].span
                &&& settled(m, plans, arrangements, rings, solid, open, n)[i].op == plans[i].op
                &&& settled(m, plans, arrangements, rings, solid, open, n)[i].extent
                    == plans[i].extent
            },
    decreases n,
{
    if n > 0 {
        settling_keeps_outline(m, plans, arrangements, rings, solid, open, n - 1);
        assert(open[n - 1].0 < plans.len());
    }
}

/// Whether two lists of plans agree in everything but inferred profiles.
pub open spec fn same_outline(a: Seq<PlanView>, b: Seq<PlanView>) -> bool {
    &&& a.len() == b.len()
    &&& forall|i: int|
        0 <= i < a.len() ==> {
            &&& #[trigger] a[i] == (PlanView { profile: a[i].profile, ..b[i] })
            &&& read_profile_of(a[i]) == read_profile_of(b[i])
        }
}

/// Which volumes are cut does not depend on inferred profiles.
pub proof fn cuts_ignore_inference(
    a: Seq<PlanView>,
    b: Seq<PlanView>,
    arrangements: Map<Seq<char>, ArrangementView>,
    rings: Map<Seq<char>, usize>,
    ordinal: u64,
    n: int,
)
    requires
        same_outline(a, b),
        0 <= n <= a.len(),
    ensures
        later_cuts(a, arrangements, rings, ordinal, n) == later_cuts(
            b,
            arrangements,
            rings,
            ordinal,
            n,
        ),
    decreases n,
{
    if n > 0 {
        cuts_ignore_inference(a, b, arrangements, rings, ordinal, n - 1);
        let x = a[n - 1];
        let y = b[n - 1];
        assert(x == (PlanView { profile: x.profile, ..y }));
        if let Some(read) = read_profile_of(x) {
            sweeping_ignores_profile(x, y, arrangements, read.regions, read.regions.len() as int);
        }
    }
}

proof fn sweeping_ignores_profile(
    a: PlanView,
    b: PlanView,
    arrangements: Map<Seq<char>, ArrangementView>,
    regions: Seq<RegionView>,
    n: int,
)
    requires
        a == (PlanView { profile: a.profile, ..b }),
    ensures
        swept_by_regions(a, arrangements, regions, n) == swept_by_regions(
            b,
            arrangements,
            regions,
            n,
        ),
    decreases n,
{
    if n > 0 {
        sweeping_ignores_profile(a, b, arrangements, regions, n - 1);
    }
}

/// No more extrudes are planned than there are features.
pub proof fn plans_fit(m: Arithmetic, model: Model)
    ensures
        plans_of(m, model).len() <= model.features@.len() <= usize::MAX,
{
    let steps = timeline(model);
    list::stable_order_len(model.features@, model.features@.len() as int);
    assert(model.features.len() == model.features@.len());
    outlined_len(m, frames_of(m, model), steps, steps.len() as int);
}

proof fn outlined_len(
    m: Arithmetic,
    frames: Map<Seq<char>, SketchFrame>,
    steps: Seq<Feature>,
    n: int,
)
    requires
        0 <= n,
    ensures
        outlined(m, frames, steps, n).len() <= n,
    decreases n,
{
    if n > 0 {
        outlined_len(m, frames, steps, n - 1);
    }
}

/// The plans and notes are what planning makes of the features, each of them.
pub proof fn plans_are_outlines(
    m: Arithmetic,
    frames: Map<Seq<char>, SketchFrame>,
    steps: Seq<Feature>,
    n: int,
)
    requires
        0 <= n <= steps.len(),
    ensures
        forall|i: int| #![trigger outlined(m, frames, steps, n)[i]]
            0 <= i < outlined(m, frames, steps, n).len() ==> exists|k: int|
                0 <= k < n && outline(m, frames, #[trigger] steps[k]) == Some(
                    Ok::<PlanView, LossView>(outlined(m, frames, steps, n)[i]),
                ),
        forall|k: int|
            0 <= k < n ==> match outline(m, frames, #[trigger] steps[k]) {
                Some(Ok(plan)) => outlined(m, frames, steps, n).contains(plan),
                Some(Err(note)) => outline_losses(m, frames, steps, n).contains(note),
                None => true,
            },
    decreases n,
{
    if n > 0 {
        plans_are_outlines(m, frames, steps, n - 1);
        let rest = outlined(m, frames, steps, n - 1);
        let now = outlined(m, frames, steps, n);
        let fewer = outline_losses(m, frames, steps, n - 1);
        let notes = outline_losses(m, frames, steps, n);
        assert forall|i: int| #![trigger now[i]] 0 <= i < now.len() implies exists|k: int|
            0 <= k < n && outline(m, frames, #[trigger] steps[k]) == Some(
                Ok::<PlanView, LossView>(now[i]),
            ) by {
            if i < rest.len() {
                assert(now[i] == rest[i]);
                let k = choose|k: int|
                    0 <= k < n - 1 && outline(m, frames, #[trigger] steps[k]) == Some(
                        Ok::<PlanView, LossView>(rest[i]),
                    );
                assert(outline(m, frames, steps[k]) == Some(Ok::<PlanView, LossView>(now[i])));
            } else {
                assert(outline(m, frames, steps[n - 1]) == Some(
                    Ok::<PlanView, LossView>(now[i]),
                ));
            }
        }
        assert forall|k: int| 0 <= k < n implies match outline(m, frames, #[trigger] steps[k]) {
            Some(Ok(plan)) => now.contains(plan),
            Some(Err(note)) => notes.contains(note),
            None => true,
        } by {
            match outline(m, frames, steps[k]) {
                Some(Ok(plan)) => {
                    if k < n - 1 {
                        let i = choose|i: int| 0 <= i < rest.len() && rest[i] == plan;
                        assert(now[i] == plan);
                    } else {
                        assert(now[rest.len() as int] == plan);
                    }
                },
                Some(Err(note)) => {
                    if k < n - 1 {
                        let i = choose|i: int| 0 <= i < fewer.len() && fewer[i] == note;
                        assert(notes[i] == note);
                    } else {
                        assert(notes[fewer.len() as int] == note);
                    }
                },
                None => {},
            }
        }
    }
}

/// The sketch of a planned extrude is placed, and its arrangement is sound.
pub proof fn planned_sketch_is_sound(m: Arithmetic, model: Model, i: int)
    requires
        0 <= i < plans_of(m, model).len(),
    ensures
        frames_of(m, model).contains_key(plans_of(m, model)[i].sketch),
        arrangements_of(m, model).contains_key(plans_of(m, model)[i].sketch),
        arrangements_of(m, model)[plans_of(m, model)[i].sketch].sound(),
{
    let steps = timeline(model);
    plans_are_outlines(m, frames_of(m, model), steps, steps.len() as int);
    assert(model.sketches.len() == model.sketches@.len());
    placed_together(m, model, model.sketches@.len() as int);
    assert(frames_of(m, model).dom().contains(plans_of(m, model)[i].sketch));
}

impl<'a, K: Kernel> Writer<'a, K> {
    /// Infers the profiles that could not be read.
    pub fn infer_open_profiles(&mut self)
        requires
            old(self).sound(),
            loops_fit(
                old(self).plans(),
                old(self).arranged(),
                old(self).rings@,
                old(self).waiting(),
            ),
        ensures
            final(self).sound(),
            final(self).same_sketches(old(self)),
            final(self).rings == old(self).rings,
            final(self).meridian == old(self).meridian,
            final(self).pending@.len() == 0,
            final(self).plans() == settled(
                old(self).arithmetic(),
                old(self).plans(),
                old(self).arranged(),
                old(self).rings@,
                profile::meridian_view(old(self).meridian),
                old(self).waiting(),
                old(self).waiting().len() as int,
            ),
            final(self).program@ == (program::ProgramView {
                losses: old(self).program@.losses + settle_losses(
                    old(self).arithmetic(),
                    old(self).plans(),
                    old(self).arranged(),
                    old(self).rings@,
                    profile::meridian_view(old(self).meridian),
                    old(self).waiting(),
                    old(self).waiting().len() as int,
                ),
                ..old(self).program@
            }),
    {
        let ghost m = self.arithmetic();
        let ghost plans = self.plans();
        let ghost arranged = self.arranged();
        let ghost open = self.waiting();
        let ghost solid = profile::meridian_view(self.meridian);
        let ghost start = self.program@;
        let mut pending: Vec<(usize, String)> = Vec::new();
        std::mem::swap(&mut pending, &mut self.pending);
        proof {
            assert(open =~= entry_views(pending@));
            assert forall|k: int| 0 <= k < open.len() implies (#[trigger] open[k]).0
                < plans.len() by {
                assert(open[k] == (pending@[k].0, pending@[k].1@));
                assert(old(self).pending@[k].0 < old(self).planned@.len());
            }
            assert(start.losses + Seq::<LossView>::empty() =~= start.losses);
        }
        let mut k: usize = 0;
        while k < pending.len()
            invariant
                k <= pending@.len(),
                self.sound(),
                self.same_sketches(old(self)),
                self.rings == old(self).rings,
                self.meridian == old(self).meridian,
                self.pending@.len() == 0,
                m == self.arithmetic(),
                arranged == self.arranged(),
                plans == old(self).plans(),
                open == entry_views(pending@),
                open.len() == pending@.len(),
                solid == profile::meridian_view(self.meridian),
                forall|j: int| 0 <= j < open.len() ==> (#[trigger] open[j]).0 < plans.len(),
                loops_fit(plans, arranged, self.rings@, open),
                self.plans() == settled(m, plans, arranged, self.rings@, solid, open, k as int),
                self.program@ == (program::ProgramView {
                    losses: start.losses + settle_losses(
                        m,
                        plans,
                        arranged,
                        self.rings@,
                        solid,
                        open,
                        k as int,
                    ),
                    ..start
                }),
            decreases pending@.len() - k,
        {
            let index: usize = pending[k].0;
            let reason = &pending[k].1;
            let ghost before = self.plans();
            let ghost losses = settle_losses(
                m,
                plans,
                arranged,
                self.rings@,
                solid,
                open,
                k as int,
            );
            proof {
                assert(open[k as int] == (index, reason@));
                settling_keeps_outline(m, plans, arranged, self.rings@, solid, open, k as int);
                assert(self.plans().len() == self.planned@.len());
                assert(before[index as int] == self.planned@[index as int]@);
                assert(before[index as int].feature == plans[index as int].feature);
                assert(before[index as int].sketch == plans[index as int].sketch);
            }
            let outer = match self.rings.get(self.planned[index].feature.id.as_str()) {
                Some(outer) => Some(*outer),
                None => None,
            };
            match outer {
                Some(outer) => {
                    let covered = self.later_cut_coverage(index);
                    let plan = &self.planned[index];
                    assert(self.arrangements@.contains_key(plan.sketch@));
                    assert(arranged.contains_key(plan.sketch@));
                    if let Some(arrangement) = self.arrangements.get(plan.sketch.as_str()) {
                        assert(arranged[plan.sketch@] == arrangement@);
                        let profile = infer_profile(
                            &plan.sketch,
                            outer,
                            arrangement,
                            &plan.frame,
                            plan.span,
                            &self.meridian,
                            &covered,
                            self.kernel,
                        );
                        let ghost view = profile@;
                        let guessed = is_none_kept(
                            outer,
                            arrangement,
                            &plan.frame,
                            plan.span,
                            &self.meridian,
                            &covered,
                            self.kernel,
                        );
                        assert(guessed == is_guessed(
                            m,
                            before,
                            arranged,
                            self.rings@,
                            solid,
                            before[index as int],
                        ));
                        let ghost feature = *plan.feature;
                        if guessed {
                            let mut message = feature_name(plan.feature).clone();
                            message.append(
                                ": no region of its exterior loop was found to hold material, so the loop is written as it is",
                            );
                            self.program.note(LossKind::ParametricRecordOmitted, message);
                            assert(start.losses + losses.push(stands_in(feature)) =~= (start.losses
                                + losses).push(stands_in(feature)));
                        }
                        self.planned[index].profile = Some(profile);
                        assert(self.plans() =~= before.update(
                            index as int,
                            before[index as int].with_profile(view),
                        ));
                    }
                },
                None => {
                    let mut message = feature_name(self.planned[index].feature).clone();
                    message.append(": ");
                    message.append(reason.as_str());
                    message.append(
                        ", and no solved carrier could be attributed to any of its profile loops",
                    );
                    self.program.note(LossKind::ParametricRecordOmitted, message);
                    proof {
                        let note = unattributed(plans[index as int].feature, reason@);
                        assert(start.losses + losses.push(note) =~= (start.losses + losses).push(
                            note,
                        ));
                    }
                },
            }
            k += 1;
        }
    }

    /// Runs resolution up to the attribution of exterior loops.
    fn outline(&mut self)
        requires
            old(self).sound(),
            old(self).fresh(),
        ensures
            final(self).sound(),
            final(self).ir == old(self).ir,
            final(self).kernel == old(self).kernel,
            final(self).topo == old(self).topo,
            final(self).meridian == old(self).meridian,
            final(self).frames@ == frames_of(final(self).arithmetic(), final(self).ir.model),
            final(self).arranged() == arrangements_of(
                final(self).arithmetic(),
                final(self).ir.model,
            ),
            final(self).plans() == read_plans(
                plans_of(final(self).arithmetic(), final(self).ir.model),
                final(self).arranged(),
                plans_of(final(self).arithmetic(), final(self).ir.model).len() as int,
            ),
            final(self).waiting() == open_of(final(self).arithmetic(), final(self).ir.model),
            final(self).rings@ == rings_of(final(self).arithmetic(), final(self).ir.model),
            final(self).program@ == (program::ProgramView {
                losses: outline_losses(
                    final(self).arithmetic(),
                    final(self).frames@,
                    timeline(final(self).ir.model),
                    timeline(final(self).ir.model).len() as int,
                ),
                ..program::ProgramView::empty()
            }),
    {
        self.place_sketches();
        self.outline_extrudes();
        proof {
            let added = outline_losses(
                self.arithmetic(),
                self.frames@,
                timeline(self.ir.model),
                timeline(self.ir.model).len() as int,
            );
            assert(Seq::<LossView>::empty() + added =~= added);
        }
        self.attribute_exterior_loops();
    }

    /// Resolves every selection before a line of output is written.
    ///
    /// Order matters: exterior loops are attributed globally, so one extrude's
    /// choice constrains the rest, and that has to settle before any single
    /// profile is decided.
    pub fn plan(&mut self)
        requires
            old(self).sound(),
            old(self).fresh(),
            is_attributable(old(self).arithmetic(), old(self).ir.model),
        ensures
            final(self).sound(),
            final(self).ir == old(self).ir,
            final(self).kernel == old(self).kernel,
            final(self).frames@ == frames_of(final(self).arithmetic(), final(self).ir.model),
            final(self).arranged() == arrangements_of(
                final(self).arithmetic(),
                final(self).ir.model,
            ),
            final(self).plans() == resolved_plans(
                final(self).arithmetic(),
                final(self).ir.model,
            ),
            final(self).topo == old(self).topo,
            final(self).pending@.len() == 0,
            final(self).rings@ == rings_of(final(self).arithmetic(), final(self).ir.model),
            profile::meridian_view(final(self).meridian) == solid_of(
                final(self).arithmetic(),
                final(self).ir.model,
            ),
            final(self).program@ == (program::ProgramView {
                losses: resolution_losses(final(self).arithmetic(), final(self).ir.model),
                ..program::ProgramView::empty()
            }),
    {
        self.outline();
        let ghost m = self.arithmetic();
        let ghost model = self.ir.model;
        let ghost plans = plans_of(m, model);
        let ghost arranged = self.arranged();
        let ghost open = self.waiting();
        let ghost rings = self.rings@;
        let total: usize = self.planned.len();
        proof {
            assert(self.plans().len() == plans.len());
            assert(total == plans.len());
            reading_keeps_outline(plans, arranged, plans.len() as int);
            open_in_range(plans, arranged, plans.len() as int);
        }
        self.build_classifier();
        proof {
            assert(self.plans() == read_plans(plans, arranged, plans.len() as int));
            assert(loops_fit(self.plans(), arranged, rings, open)) by {
                assert forall|k: int| 0 <= k < open.len() implies {
                    let plan = self.plans()[(#[trigger] open[k]).0 as int];
                    rings.contains_key(plan.feature.id@) ==> rings[plan.feature.id@]
                        < arranged[plan.sketch].regions.len()
                } by {
                    let plan = plans[open[k].0 as int];
                    assert(open[k].0 < plans.len());
                    assert(read_plan(plan, arranged).feature == plan.feature);
                    assert(read_plan(plan, arranged).sketch == plan.sketch);
                }
            }
            assert(self.plans() == plans_read(m, model));
        }
        self.infer_open_profiles();
    }

    /// Whether every attribution stays within its own sketch, which planning
    /// relies on. It does where no two features share an identity; see
    /// [`crate::identity::distinct_features_are_attributable`].
    pub fn attributable(ir: &'a CadIr, kernel: &'a K) -> (r: bool)
        ensures
            r == is_attributable(kernel.model(), ir.model),
    {
        let mut writer = Writer::new(ir, kernel);
        writer.outline();
        let ghost m = kernel.model();
        let ghost plans = plans_of(m, ir.model);
        let ghost arranged = writer.arranged();
        let ghost open = writer.waiting();
        let total: usize = writer.planned.len();
        proof {
            assert(writer.plans().len() == plans.len());
            assert(total == plans.len());
            open_in_range(plans, arranged, plans.len() as int);
        }
        let mut k: usize = 0;
        while k < writer.pending.len()
            invariant
                k <= writer.pending@.len(),
                m == kernel.model(),
                writer.sound(),
                arranged == writer.arranged(),
                open == writer.waiting(),
                open.len() == writer.pending@.len(),
                plans.len() == writer.planned@.len(),
                writer.plans() == read_plans(plans, arranged, plans.len() as int),
                writer.rings@ == rings_of(m, ir.model),
                plans == plans_of(m, ir.model),
                arranged == arrangements_of(m, ir.model),
                open == open_of(m, ir.model),
                forall|j: int| 0 <= j < k ==> {
                    let plan = plans[(#[trigger] open[j]).0 as int];
                    writer.rings@.contains_key(plan.feature.id@) ==> writer.rings@[plan.feature.id@]
                        < arranged[plan.sketch].regions.len()
                },
            decreases writer.pending@.len() - k,
        {
            let index: usize = writer.pending[k].0;
            let plan = &writer.planned[index];
            proof {
                assert(open[k as int] == (index, writer.pending@[k as int].1@));
                assert(writer.plans()[index as int] == plan@);
                assert(writer.plans()[index as int] == read_plan(plans[index as int], arranged));
                assert(arranged.contains_key(plan.sketch@));
                assert(writer.arrangements@.contains_key(plan.sketch@));
            }
            if let Some(outer) = writer.rings.get(plan.feature.id.as_str()) {
                if let Some(arrangement) = writer.arrangements.get(plan.sketch.as_str()) {
                    assert(arranged[plan.sketch@] == arrangement@);
                    if *outer >= arrangement.regions.len() {
                        return false;
                    }
                }
            }
            k += 1;
        }
        true
    }
}

} // verus!
