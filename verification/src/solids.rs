//! What the classifier of a solved body is, and what it answers.

use crate::arena;
use crate::ir::{Face, Model, SurfaceFrame, SurfaceShape};
use crate::kernel::{Arithmetic, Vec3};
use crate::meridian;
use crate::meridian::{LateralFace, MeridianView};
use crate::scalar::{Scalar, INFINITY, NEG_INFINITY};
use crate::topo;
use vstd::prelude::*;

verus! {

// ---------------------------------------------------------------------------
// answers
// ---------------------------------------------------------------------------

/// Whether a station lies between two others, up to the slack.
pub open spec fn is_between(m: Arithmetic, low: Scalar, high: Scalar, station: Scalar) -> bool {
    &&& !station.below(m.minus(low, m.direction_tolerance))
    &&& !m.plus(high, m.direction_tolerance).below(station)
}

/// Whether a wall counts at a station: it spans the station, and if some wall
/// begins there, it does not end there.
pub open spec fn counts_at(
    m: Arithmetic,
    walls: Seq<LateralFace>,
    wall: LateralFace,
    station: Scalar,
) -> bool {
    &&& is_between(m, wall.low, wall.high, station)
    &&& (exists|k: int|
        0 <= k < walls.len() && is_between(
            m,
            (#[trigger] walls[k]).low,
            walls[k].low,
            station,
        )) ==> station.below(m.minus(wall.high, m.direction_tolerance))
}

/// How often a wall lies outward of a point that is some way from the axis: a
/// cylinder, a cone and a sphere by their one radius at the point's height above
/// their origin, a torus by that on the side of its tube which the wall covers.
pub open spec fn times_outward(m: Arithmetic, wall: LateralFace, point: Vec3, away: Scalar) -> int {
    let limit = m.plus(away, m.direction_tolerance);
    if wall.geometry.frame is None {
        0
    } else {
        let own = wall.geometry.frame->0;
        let height = m.minus(m.dot(point, own.axis), m.dot(own.origin, own.axis));
        match wall.geometry.shape {
            SurfaceShape::Cylinder { radius } => if limit.below(radius) {
                1
            } else {
                0
            },
            SurfaceShape::Cone { radius, half_angle } => if limit.below(
                m.mul_add(height, m.tan(half_angle), radius),
            ) {
                1
            } else {
                0
            },
            SurfaceShape::Sphere { radius } => {
                let squared = m.mul_add(radius, radius, m.times(height, height).negated());
                if (Scalar { bits: 0 }).below(squared) && limit.below(m.sqrt(squared)) {
                    1
                } else {
                    0
                }
            },
            SurfaceShape::Torus { major_radius, minor_radius } => {
                let minor = minor_radius.unsigned();
                let squared = m.mul_add(minor, minor, m.times(height, height).negated());
                let slack = m.direction_tolerance;
                let inner = m.plus(wall.near, slack).below(major_radius) && limit.below(
                    m.minus(major_radius, m.sqrt(squared)),
                );
                let outer = m.plus(major_radius, slack).below(wall.far) && limit.below(
                    m.plus(major_radius, m.sqrt(squared)),
                );
                if !(Scalar { bits: 0 }).below(squared) {
                    0
                } else if inner && outer {
                    2
                } else if inner || outer {
                    1
                } else {
                    0
                }
            },
            _ => 0,
        }
    }
}

/// How often the first `n` walls that count at a station lie outward of a point.
pub open spec fn walls_outward(
    m: Arithmetic,
    walls: Seq<LateralFace>,
    point: Vec3,
    station: Scalar,
    away: Scalar,
    n: int,
) -> int
    decreases n,
{
    if n <= 0 {
        0
    } else {
        walls_outward(m, walls, point, station, away, n - 1) + if counts_at(
            m,
            walls,
            walls[n - 1],
            station,
        ) {
            times_outward(m, walls[n - 1], point, away)
        } else {
            0
        }
    }
}

proof fn outward_is_counted(
    m: Arithmetic,
    wall: LateralFace,
    point: Vec3,
    away: Scalar,
)
    ensures
        meridian::outward(m, wall, meridian::own_station(m, wall, point), away) == times_outward(
            m,
            wall,
            point,
            away,
        ),
{
    reveal_with_fuel(meridian::exceeding, 3);
}

proof fn walls_are_counted(
    m: Arithmetic,
    walls: Seq<LateralFace>,
    point: Vec3,
    station: Scalar,
    away: Scalar,
    n: int,
)
    requires
        n <= walls.len(),
    ensures
        meridian::outward_of(m, walls, point, station, away, n) == walls_outward(
            m,
            walls,
            point,
            station,
            away,
            n,
        ),
    decreases n,
{
    if n > 0 {
        walls_are_counted(m, walls, point, station, away, n - 1);
        outward_is_counted(m, walls[n - 1], point, away);
        if meridian::continues_from(m, walls, station) {
            let k = choose|k: int|
                0 <= k < walls.len() && meridian::in_span(
                    m,
                    station,
                    (#[trigger] walls[k]).low,
                    walls[k].low,
                );
            assert(is_between(m, walls[k].low, walls[k].low, station));
        }
        if exists|k: int|
            0 <= k < walls.len() && is_between(m, (#[trigger] walls[k]).low, walls[k].low, station) {
            let k = choose|k: int|
                0 <= k < walls.len() && is_between(
                    m,
                    (#[trigger] walls[k]).low,
                    walls[k].low,
                    station,
                );
            assert(meridian::in_span(m, station, walls[k].low, walls[k].low));
        }
    }
}

/// A model point is inside a solid exactly if the walls that count at its own
/// station, measured along the solid's axis, lie outward of it an odd number of
/// times, its distance being that from the line of the axis.
pub proof fn solid_holds_what_walls_enclose(m: Arithmetic, solid: MeridianView, point: Vec3)
    ensures
        solid.has_inside(m, point) == (walls_outward(
            m,
            solid.lateral,
            point,
            m.dot(point, solid.axis),
            m.length(m.reject(m.difference(point, solid.origin), solid.axis)),
            solid.lateral.len() as int,
        ) % 2 == 1),
{
    let station = m.dot(point, solid.axis);
    let away = m.length(m.reject(m.difference(point, solid.origin), solid.axis));
    walls_are_counted(m, solid.lateral, point, station, away, solid.lateral.len() as int);
}

// ---------------------------------------------------------------------------
// the body
// ---------------------------------------------------------------------------

/// Whether a face is built on a carrier that is no plane.
pub open spec fn is_wall(model: Model, face: Face) -> bool {
    arena::lookup(model.surfaces@, face.surface@) is Some && !(arena::lookup(
        model.surfaces@,
        face.surface@,
    )->0.geometry.shape is Plane)
}

/// The frame of the carrier a face is built on, if there is one.
pub open spec fn frame_under(model: Model, face: Face) -> Option<SurfaceFrame> {
    if arena::lookup(model.surfaces@, face.surface@) is Some {
        arena::lookup(model.surfaces@, face.surface@)->0.geometry.frame
    } else {
        None
    }
}

/// Whether a face is the first of a body that is a wall with a frame.
pub open spec fn is_first_wall(model: Model, h: int) -> bool {
    &&& 0 <= h < model.faces@.len()
    &&& is_wall(model, model.faces@[h])
    &&& frame_under(model, model.faces@[h]) is Some
    &&& forall|j: int|
        0 <= j < h ==> !(is_wall(model, #[trigger] model.faces@[j]) && frame_under(
            model,
            model.faces@[j],
        ) is Some)
}

/// Whether a face runs about an axis: its own direction is parallel, and a wall's
/// own line lies no farther from the axis than the slack.
pub open spec fn runs_about(m: Arithmetic, model: Model, face: Face, about: SurfaceFrame) -> bool {
    let own = frame_under(model, face);
    &&& own is Some
    &&& m.is_parallel(about.axis, own->0.axis)
    &&& is_wall(model, face) ==> m.length(
        m.reject(m.difference(own->0.origin, about.origin), about.axis),
    ).at_most(m.direction_tolerance)
}

/// How far a point lies from an axis.
pub open spec fn distance_from(m: Arithmetic, about: SurfaceFrame, point: Vec3) -> Scalar {
    m.length(m.reject(m.difference(point, about.origin), about.axis))
}

/// Whether two distances bound those of some points, and are among them or at the
/// ends of the scale.
pub open spec fn bound_distances(
    m: Arithmetic,
    about: SurfaceFrame,
    points: Seq<Vec3>,
    near: Scalar,
    far: Scalar,
) -> bool {
    &&& forall|i: int|
        0 <= i < points.len() && !distance_from(m, about, #[trigger] points[i]).nan()
            ==> near.at_most(distance_from(m, about, points[i])) && distance_from(
            m,
            about,
            points[i],
        ).at_most(far)
    &&& near.bits == INFINITY || exists|i: int|
        0 <= i < points.len() && near == distance_from(m, about, #[trigger] points[i])
    &&& far.bits == NEG_INFINITY || exists|i: int|
        0 <= i < points.len() && far == distance_from(m, about, #[trigger] points[i])
}

/// Whether a wall is known by its carrier, by the stations its solved edges span
/// and by how near to the axis and how far from it they lie, and these tell what it
/// covers: two heights, and one side of a torus.
pub open spec fn describes(
    m: Arithmetic,
    model: Model,
    face: Face,
    about: SurfaceFrame,
    wall: LateralFace,
) -> bool {
    let edges = topo::face_edges(model, face);
    &&& is_wall(model, face)
    &&& wall.geometry == arena::lookup(model.surfaces@, face.surface@)->0.geometry
    &&& topo::face_span(m, model, face.id@, about.axis) == Some((wall.low, wall.high))
    &&& bound_distances(
        m,
        about,
        topo::points_along(model, edges, edges.len() as int),
        wall.near,
        wall.far,
    )
    &&& wall.low.below(wall.high)
    &&& !(wall.geometry.shape is Other)
    &&& wall.geometry.shape matches SurfaceShape::Torus { major_radius, .. } ==> m.plus(
        wall.near,
        m.direction_tolerance,
    ).below(major_radius) != m.plus(major_radius, m.direction_tolerance).below(wall.far)
}

proof fn distances_are_bounded(m: Arithmetic, about: SurfaceFrame, points: Seq<Vec3>, n: int)
    requires
        0 <= n <= points.len(),
    ensures
        ({
            let (near, far) = meridian::radial_reach(m, points, about.origin, about.axis, n);
            &&& !near.nan() && !far.nan()
            &&& bound_distances(m, about, points.take(n), near, far)
        }),
    decreases n,
{
    let some = points.take(n);
    let (near, far) = meridian::radial_reach(m, points, about.origin, about.axis, n);
    if n > 0 {
        distances_are_bounded(m, about, points, n - 1);
        let before = meridian::radial_reach(m, points, about.origin, about.axis, n - 1);
        let fewer = points.take(n - 1);
        assert(some[n - 1] == points[n - 1]);
        assert forall|i: int| 0 <= i < n - 1 implies #[trigger] some[i] == fewer[i] by {}
        if near == before.0 && near.bits != INFINITY {
            let i = choose|i: int|
                0 <= i < fewer.len() && near == distance_from(m, about, #[trigger] fewer[i]);
            assert(near == distance_from(m, about, some[i]));
        }
        if far == before.1 && far.bits != NEG_INFINITY {
            let i = choose|i: int|
                0 <= i < fewer.len() && far == distance_from(m, about, #[trigger] fewer[i]);
            assert(far == distance_from(m, about, some[i]));
        }
        if near != before.0 {
            assert(near == distance_from(m, about, some[n - 1]));
        }
        if far != before.1 {
            assert(far == distance_from(m, about, some[n - 1]));
        }
    }
}

proof fn told_wall_is_described(m: Arithmetic, model: Model, face: Face, about: SurfaceFrame)
    requires
        is_wall(model, face),
    ensures
        meridian::lateral_of(m, model, face, about.origin, about.axis) matches Some(wall)
            ==> describes(m, model, face, about, wall),
{
    let points = meridian::face_points(model, face);
    distances_are_bounded(m, about, points, points.len() as int);
    assert(points.take(points.len() as int) =~= points);
}

proof fn walls_are_described(
    m: Arithmetic,
    model: Model,
    about: SurfaceFrame,
    n: int,
)
    requires
        0 <= n <= model.faces@.len(),
    ensures
        meridian::lateral_faces(m, model, about.origin, about.axis, n) matches Some(walls) ==> ({
            let faces = model.faces@.take(n).filter(|face: Face| is_wall(model, face));
            &&& walls.len() == faces.len()
            &&& forall|k: int|
                0 <= k < walls.len() ==> describes(
                    m,
                    model,
                    faces[k],
                    about,
                    #[trigger] walls[k],
                )
        }),
    decreases n,
{
    reveal(Seq::filter);
    let keep = |face: Face| is_wall(model, face);
    if n > 0 {
        walls_are_described(m, model, about, n - 1);
        let some = model.faces@.take(n);
        assert(some.drop_last() =~= model.faces@.take(n - 1));
        assert(some.last() == model.faces@[n - 1]);
        let face = model.faces@[n - 1];
        if is_wall(model, face) {
            told_wall_is_described(m, model, face, about);
        }
        if let Some(walls) = meridian::lateral_faces(m, model, about.origin, about.axis, n) {
            let rest = meridian::lateral_faces(m, model, about.origin, about.axis, n - 1)->0;
            let faces = some.filter(keep);
            let fewer = model.faces@.take(n - 1).filter(keep);
            assert forall|k: int| 0 <= k < walls.len() implies describes(
                m,
                model,
                faces[k],
                about,
                #[trigger] walls[k],
            ) by {
                if k < rest.len() {
                    assert(walls[k] == rest[k]);
                    assert(faces[k] == fewer[k]);
                }
            }
        }
    } else {
        assert(model.faces@.take(n) =~= Seq::empty());
    }
}

proof fn first_wall_is_found(model: Model, n: int, h: int)
    requires
        0 <= n <= model.faces@.len(),
    ensures
        is_first_wall(model, h) && h < n ==> meridian::first_lateral(model, n) == frame_under(
            model,
            model.faces@[h],
        ),
        meridian::first_lateral(model, n) is None ==> forall|j: int|
            0 <= j < n ==> !(is_wall(model, #[trigger] model.faces@[j]) && frame_under(
                model,
                model.faces@[j],
            ) is Some),
        meridian::first_lateral(model, n) is Some ==> exists|j: int|
            j < n && #[trigger] is_first_wall(model, j),
    decreases n,
{
    if n > 0 {
        first_wall_is_found(model, n - 1, h);
        if meridian::first_lateral(model, n - 1) is None {
            if meridian::first_lateral(model, n) is Some {
                assert(is_first_wall(model, n - 1));
            }
            if is_first_wall(model, h) && h < n - 1 {
                assert(is_wall(model, model.faces@[h]));
            }
        } else if is_first_wall(model, h) && h == n - 1 {
            let j = choose|j: int| j < n - 1 && #[trigger] is_first_wall(model, j);
            assert(is_wall(model, model.faces@[j]) && frame_under(model, model.faces@[j]) is Some);
        }
    }
}

/// A body has a classifier only if every one of its faces runs about the axis of
/// its first wall. The classifier then has that axis, and knows the walls of the
/// body, all of them and in order, each by what describes it.
pub proof fn classifier_is_read_from_the_body(m: Arithmetic, model: Model, solid: MeridianView)
    requires
        meridian::meridian_of(m, model) == Some(solid),
    ensures
        exists|h: int| #[trigger]
            is_first_wall(model, h) && frame_under(model, model.faces@[h]) == Some(
                SurfaceFrame { origin: solid.origin, axis: solid.axis },
            ),
        ({
            let about = SurfaceFrame { origin: solid.origin, axis: solid.axis };
            let walls = model.faces@.filter(|face: Face| is_wall(model, face));
            &&& forall|i: int|
                0 <= i < model.faces@.len() ==> runs_about(
                    m,
                    model,
                    #[trigger] model.faces@[i],
                    about,
                )
            &&& solid.lateral.len() == walls.len()
            &&& forall|k: int|
                0 <= k < walls.len() ==> describes(
                    m,
                    model,
                    walls[k],
                    about,
                    #[trigger] solid.lateral[k],
                )
        }),
{
    let all = model.faces@.len() as int;
    let about = SurfaceFrame { origin: solid.origin, axis: solid.axis };
    first_wall_is_found(model, all, 0);
    let h = choose|h: int| h < all && #[trigger] is_first_wall(model, h);
    first_wall_is_found(model, all, h);
    walls_are_described(m, model, about, all);
    assert(model.faces@.take(all) =~= model.faces@);
    assert forall|i: int| 0 <= i < all implies runs_about(
        m,
        model,
        #[trigger] model.faces@[i],
        about,
    ) by {
        assert(meridian::shares_axis(m, model, model.faces@[i], about.origin, about.axis));
    }
}

proof fn untold_wall_stops(m: Arithmetic, model: Model, about: SurfaceFrame, n: int)
    requires
        0 <= n <= model.faces@.len(),
        meridian::lateral_faces(m, model, about.origin, about.axis, n) is None,
    ensures
        exists|i: int|
            0 <= i < n && is_wall(model, #[trigger] model.faces@[i]) && meridian::lateral_of(
                m,
                model,
                model.faces@[i],
                about.origin,
                about.axis,
            ) is None,
    decreases n,
{
    if n > 0 && meridian::lateral_faces(m, model, about.origin, about.axis, n - 1) is None {
        untold_wall_stops(m, model, about, n - 1);
    } else {
        assert(is_wall(model, model.faces@[n - 1]));
    }
}

proof fn undescribed_wall(m: Arithmetic, model: Model, face: Face, about: SurfaceFrame, wall: LateralFace)
    requires
        is_wall(model, face),
        meridian::lateral_of(m, model, face, about.origin, about.axis) is None,
        ({
            let points = meridian::face_points(model, face);
            let reach = meridian::radial_reach(
                m,
                points,
                about.origin,
                about.axis,
                points.len() as int,
            );
            wall.near == reach.0 && wall.far == reach.1
        }),
    ensures
        !describes(m, model, face, about, wall),
{
}

/// A body whose faces all run about the axis of its first wall has a classifier,
/// unless the edges of some wall do not tell what it covers: they span no stations,
/// or only one, or both sides of a torus or neither, or the carrier's family is not
/// known.
pub proof fn classifier_is_had_where_it_can_be(m: Arithmetic, model: Model, h: int)
    requires
        is_first_wall(model, h),
        meridian::meridian_of(m, model) is None,
        forall|i: int|
            0 <= i < model.faces@.len() ==> runs_about(
                m,
                model,
                #[trigger] model.faces@[i],
                frame_under(model, model.faces@[h])->0,
            ),
    ensures
        exists|i: int|
            0 <= i < model.faces@.len() && is_wall(model, #[trigger] model.faces@[i])
                && is_untold(
                m,
                model,
                model.faces@[i],
                frame_under(model, model.faces@[h])->0,
            ),
{
    let all = model.faces@.len() as int;
    let about = frame_under(model, model.faces@[h])->0;
    first_wall_is_found(model, all, h);
    assert forall|i: int| 0 <= i < all implies meridian::shares_axis(
        m,
        model,
        #[trigger] model.faces@[i],
        about.origin,
        about.axis,
    ) by {
        assert(runs_about(m, model, model.faces@[i], about));
    }
    assert(meridian::coaxial(m, model, all));
    untold_wall_stops(m, model, about, all);
    let i = choose|i: int|
        0 <= i < all && is_wall(model, #[trigger] model.faces@[i]) && meridian::lateral_of(
            m,
            model,
            model.faces@[i],
            about.origin,
            about.axis,
        ) is None;
    let face = model.faces@[i];
    let points = meridian::face_points(model, face);
    let reach = meridian::radial_reach(m, points, about.origin, about.axis, points.len() as int);
    distances_are_bounded(m, about, points, points.len() as int);
    assert(points.take(points.len() as int) =~= points);
    if topo::face_span(m, model, face.id@, about.axis) is Some {
        let span = topo::face_span(m, model, face.id@, about.axis)->0;
        let wall = LateralFace {
            geometry: arena::lookup(model.surfaces@, face.surface@)->0.geometry,
            low: span.0,
            high: span.1,
            near: reach.0,
            far: reach.1,
        };
        undescribed_wall(m, model, face, about, wall);
        assert(is_untold_by(m, model, face, about, wall));
    }
}

/// Whether a wall would be known by some numbers, but they do not tell what it
/// covers.
pub open spec fn is_untold_by(
    m: Arithmetic,
    model: Model,
    face: Face,
    about: SurfaceFrame,
    wall: LateralFace,
) -> bool {
    let edges = topo::face_edges(model, face);
    &&& wall.geometry == arena::lookup(model.surfaces@, face.surface@)->0.geometry
    &&& topo::face_span(m, model, face.id@, about.axis) == Some((wall.low, wall.high))
    &&& bound_distances(
        m,
        about,
        topo::points_along(model, edges, edges.len() as int),
        wall.near,
        wall.far,
    )
    &&& !describes(m, model, face, about, wall)
}

/// Whether it cannot be told what a wall covers.
pub open spec fn is_untold(m: Arithmetic, model: Model, face: Face, about: SurfaceFrame) -> bool {
    topo::face_span(m, model, face.id@, about.axis) is None || exists|wall: LateralFace| #[trigger]
        is_untold_by(m, model, face, about, wall)
}

} // verus!
