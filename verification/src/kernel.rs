//! The arithmetic and the notation the exporter is run with.
//!
//! Rounded arithmetic on doubles, vector algebra and the decimal notation of a
//! number are supplied by the caller. Everything this crate decides is stated
//! over the values they give, whatever those are.

use crate::scalar::Scalar;
use vstd::prelude::*;

verus! {

/// A model-space vector or point.
#[derive(Clone, Copy, PartialEq, Eq, Structural, Debug)]
pub struct Vec3 {
    pub x: Scalar,
    pub y: Scalar,
    pub z: Scalar,
}

/// An operation with a scalar result.
#[derive(Clone, Copy, PartialEq, Eq, Structural, Debug)]
pub enum ScalarOp {
    /// The first plus the second.
    Plus(Scalar, Scalar),
    /// The first minus the second.
    Minus(Scalar, Scalar),
    /// The first times the second.
    Times(Scalar, Scalar),
    /// The first over the second.
    Divide(Scalar, Scalar),
    /// The first times the second, plus the third, rounded once.
    MulAdd(Scalar, Scalar, Scalar),
    /// The point half way between two values.
    Midpoint(Scalar, Scalar),
    /// The square root.
    Sqrt(Scalar),
    /// The sine of an angle in radians.
    Sin(Scalar),
    /// The cosine of an angle in radians.
    Cos(Scalar),
    /// The tangent of an angle in radians.
    Tan(Scalar),
    /// The length of the hypotenuse over two legs.
    Hypot(Scalar, Scalar),
    /// A count as a scalar.
    Count(usize),
    /// The inner product.
    Dot(Vec3, Vec3),
    /// The length of a vector.
    Length(Vec3),
}

/// An operation with a vector result.
#[derive(Clone, Copy, PartialEq, Eq, Structural, Debug)]
pub enum VectorOp {
    /// The first plus the second.
    Sum(Vec3, Vec3),
    /// The first minus the second.
    Difference(Vec3, Vec3),
    /// A vector times a scalar.
    Scale(Vec3, Scalar),
    /// The unit vector of the same direction.
    Unit(Vec3),
    /// The part of the first orthogonal to the second.
    Reject(Vec3, Vec3),
    /// The outer product.
    Cross(Vec3, Vec3),
}

/// What a kernel answers, as a mathematical function of what it is asked.
pub struct Arithmetic {
    pub scalar: spec_fn(ScalarOp) -> Scalar,
    pub vector: spec_fn(VectorOp) -> Vec3,
    pub parallel: spec_fn((Vec3, Vec3)) -> bool,
    pub number: spec_fn(Scalar) -> Seq<char>,
    pub tuple: spec_fn(Vec3) -> Seq<char>,
    pub direction_tolerance: Scalar,
}

impl Arithmetic {
    pub open spec fn plus(self, a: Scalar, b: Scalar) -> Scalar {
        (self.scalar)(ScalarOp::Plus(a, b))
    }

    pub open spec fn minus(self, a: Scalar, b: Scalar) -> Scalar {
        (self.scalar)(ScalarOp::Minus(a, b))
    }

    pub open spec fn times(self, a: Scalar, b: Scalar) -> Scalar {
        (self.scalar)(ScalarOp::Times(a, b))
    }

    pub open spec fn divide(self, a: Scalar, b: Scalar) -> Scalar {
        (self.scalar)(ScalarOp::Divide(a, b))
    }

    pub open spec fn mul_add(self, a: Scalar, b: Scalar, c: Scalar) -> Scalar {
        (self.scalar)(ScalarOp::MulAdd(a, b, c))
    }

    pub open spec fn midpoint(self, a: Scalar, b: Scalar) -> Scalar {
        (self.scalar)(ScalarOp::Midpoint(a, b))
    }

    pub open spec fn sqrt(self, a: Scalar) -> Scalar {
        (self.scalar)(ScalarOp::Sqrt(a))
    }

    pub open spec fn sin(self, a: Scalar) -> Scalar {
        (self.scalar)(ScalarOp::Sin(a))
    }

    pub open spec fn cos(self, a: Scalar) -> Scalar {
        (self.scalar)(ScalarOp::Cos(a))
    }

    pub open spec fn tan(self, a: Scalar) -> Scalar {
        (self.scalar)(ScalarOp::Tan(a))
    }

    pub open spec fn hypot(self, a: Scalar, b: Scalar) -> Scalar {
        (self.scalar)(ScalarOp::Hypot(a, b))
    }

    pub open spec fn count(self, n: usize) -> Scalar {
        (self.scalar)(ScalarOp::Count(n))
    }

    pub open spec fn dot(self, a: Vec3, b: Vec3) -> Scalar {
        (self.scalar)(ScalarOp::Dot(a, b))
    }

    pub open spec fn length(self, a: Vec3) -> Scalar {
        (self.scalar)(ScalarOp::Length(a))
    }

    pub open spec fn sum(self, a: Vec3, b: Vec3) -> Vec3 {
        (self.vector)(VectorOp::Sum(a, b))
    }

    pub open spec fn difference(self, a: Vec3, b: Vec3) -> Vec3 {
        (self.vector)(VectorOp::Difference(a, b))
    }

    pub open spec fn scale(self, a: Vec3, k: Scalar) -> Vec3 {
        (self.vector)(VectorOp::Scale(a, k))
    }

    pub open spec fn unit(self, a: Vec3) -> Vec3 {
        (self.vector)(VectorOp::Unit(a))
    }

    pub open spec fn reject(self, a: Vec3, b: Vec3) -> Vec3 {
        (self.vector)(VectorOp::Reject(a, b))
    }

    pub open spec fn cross(self, a: Vec3, b: Vec3) -> Vec3 {
        (self.vector)(VectorOp::Cross(a, b))
    }

    /// Whether two directions are parallel: whichever of them is named first, one
    /// answer that they are settles it.
    pub open spec fn is_parallel(self, a: Vec3, b: Vec3) -> bool {
        (self.parallel)((a, b)) || (self.parallel)((b, a))
    }
}

/// A source of arithmetic answers.
pub trait Kernel {
    /// The function the answers follow.
    spec fn model(&self) -> Arithmetic;

    fn scalar(&self, op: ScalarOp) -> (r: Scalar)
        ensures
            r == (self.model().scalar)(op),
    ;

    fn vector(&self, op: VectorOp) -> (r: Vec3)
        ensures
            r == (self.model().vector)(op),
    ;

    /// Whether two directions are parallel, in either sense.
    fn parallel(&self, a: Vec3, b: Vec3) -> (r: bool)
        ensures
            r == self.model().is_parallel(a, b),
    ;

    /// The written form of a number.
    fn number(&self, value: Scalar) -> (r: String)
        ensures
            r@ == (self.model().number)(value),
    ;

    /// The written form of a vector.
    fn tuple(&self, value: Vec3) -> (r: String)
        ensures
            r@ == (self.model().tuple)(value),
    ;

    /// The slack allowed on stations and directions.
    fn direction_tolerance(&self) -> (r: Scalar)
        ensures
            r == self.model().direction_tolerance,
    ;

    fn plus(&self, a: Scalar, b: Scalar) -> (r: Scalar)
        ensures
            r == self.model().plus(a, b),
    {
        self.scalar(ScalarOp::Plus(a, b))
    }

    fn minus(&self, a: Scalar, b: Scalar) -> (r: Scalar)
        ensures
            r == self.model().minus(a, b),
    {
        self.scalar(ScalarOp::Minus(a, b))
    }

    fn times(&self, a: Scalar, b: Scalar) -> (r: Scalar)
        ensures
            r == self.model().times(a, b),
    {
        self.scalar(ScalarOp::Times(a, b))
    }

    fn divide(&self, a: Scalar, b: Scalar) -> (r: Scalar)
        ensures
            r == self.model().divide(a, b),
    {
        self.scalar(ScalarOp::Divide(a, b))
    }

    fn mul_add(&self, a: Scalar, b: Scalar, c: Scalar) -> (r: Scalar)
        ensures
            r == self.model().mul_add(a, b, c),
    {
        self.scalar(ScalarOp::MulAdd(a, b, c))
    }

    fn midpoint(&self, a: Scalar, b: Scalar) -> (r: Scalar)
        ensures
            r == self.model().midpoint(a, b),
    {
        self.scalar(ScalarOp::Midpoint(a, b))
    }

    fn dot(&self, a: Vec3, b: Vec3) -> (r: Scalar)
        ensures
            r == self.model().dot(a, b),
    {
        self.scalar(ScalarOp::Dot(a, b))
    }

    fn sum(&self, a: Vec3, b: Vec3) -> (r: Vec3)
        ensures
            r == self.model().sum(a, b),
    {
        self.vector(VectorOp::Sum(a, b))
    }

    fn difference(&self, a: Vec3, b: Vec3) -> (r: Vec3)
        ensures
            r == self.model().difference(a, b),
    {
        self.vector(VectorOp::Difference(a, b))
    }

    fn scale(&self, a: Vec3, k: Scalar) -> (r: Vec3)
        ensures
            r == self.model().scale(a, k),
    {
        self.vector(VectorOp::Scale(a, k))
    }
}

/// Whether a closure takes every argument and answers each in one way.
pub open spec fn is_function<A, B, F: Fn(A) -> B>(f: F) -> bool {
    &&& forall|a: A| #[trigger] f.requires((a,))
    &&& forall|a: A, b: B, c: B|
        #[trigger] f.ensures((a,), b) && #[trigger] f.ensures((a,), c) ==> b == c
}

/// Whether a closure takes every argument and writes each in one way.
pub open spec fn is_notation<A, F: Fn(A) -> String>(f: F) -> bool {
    &&& forall|a: A| #[trigger] f.requires((a,))
    &&& forall|a: A, b: String, c: String|
        #[trigger] f.ensures((a,), b) && #[trigger] f.ensures((a,), c) ==> b@ == c@
}

/// A kernel made of closures.
pub struct Closures<S, V, P, N, T> where
    S: Fn(ScalarOp) -> Scalar,
    V: Fn(VectorOp) -> Vec3,
    P: Fn((Vec3, Vec3)) -> bool,
    N: Fn(Scalar) -> String,
    T: Fn(Vec3) -> String,
 {
    scalar: S,
    vector: V,
    parallel: P,
    number: N,
    tuple: T,
    direction_tolerance: Scalar,
}

impl<S, V, P, N, T> Closures<S, V, P, N, T> where
    S: Fn(ScalarOp) -> Scalar,
    V: Fn(VectorOp) -> Vec3,
    P: Fn((Vec3, Vec3)) -> bool,
    N: Fn(Scalar) -> String,
    T: Fn(Vec3) -> String,
 {
    #[verifier::type_invariant]
    spec fn answers(self) -> bool {
        &&& is_function(self.scalar)
        &&& is_function(self.vector)
        &&& is_function(self.parallel)
        &&& is_notation(self.number)
        &&& is_notation(self.tuple)
    }

    /// Gathers a kernel from its parts.
    pub fn new(
        scalar: S,
        vector: V,
        parallel: P,
        number: N,
        tuple: T,
        direction_tolerance: Scalar,
    ) -> (r: Self)
        requires
            is_function(scalar),
            is_function(vector),
            is_function(parallel),
            is_notation(number),
            is_notation(tuple),
        ensures
            forall|op: ScalarOp, v: Scalar| #[trigger]
                scalar.ensures((op,), v) ==> (r.model().scalar)(op) == v,
            forall|op: VectorOp, v: Vec3| #[trigger]
                vector.ensures((op,), v) ==> (r.model().vector)(op) == v,
            forall|pair: (Vec3, Vec3), v: bool| #[trigger]
                parallel.ensures((pair,), v) ==> (r.model().parallel)(pair) == v,
            forall|x: Scalar, v: String| #[trigger]
                number.ensures((x,), v) ==> (r.model().number)(x) == v@,
            forall|x: Vec3, v: String| #[trigger]
                tuple.ensures((x,), v) ==> (r.model().tuple)(x) == v@,
            r.model().direction_tolerance == direction_tolerance,
    {
        Closures { scalar, vector, parallel, number, tuple, direction_tolerance }
    }
}

impl<S, V, P, N, T> Kernel for Closures<S, V, P, N, T> where
    S: Fn(ScalarOp) -> Scalar,
    V: Fn(VectorOp) -> Vec3,
    P: Fn((Vec3, Vec3)) -> bool,
    N: Fn(Scalar) -> String,
    T: Fn(Vec3) -> String,
 {
    closed spec fn model(&self) -> Arithmetic {
        Arithmetic {
            scalar: |op: ScalarOp| choose|v: Scalar| self.scalar.ensures((op,), v),
            vector: |op: VectorOp| choose|v: Vec3| self.vector.ensures((op,), v),
            parallel: |pair: (Vec3, Vec3)| choose|v: bool| self.parallel.ensures((pair,), v),
            number: |x: Scalar| (choose|v: String| self.number.ensures((x,), v))@,
            tuple: |x: Vec3| (choose|v: String| self.tuple.ensures((x,), v))@,
            direction_tolerance: self.direction_tolerance,
        }
    }

    fn scalar(&self, op: ScalarOp) -> Scalar {
        proof {
            use_type_invariant(self);
        }
        (self.scalar)(op)
    }

    fn vector(&self, op: VectorOp) -> Vec3 {
        proof {
            use_type_invariant(self);
        }
        (self.vector)(op)
    }

    fn parallel(&self, a: Vec3, b: Vec3) -> bool {
        proof {
            use_type_invariant(self);
        }
        (self.parallel)((a, b)) || (self.parallel)((b, a))
    }

    fn number(&self, value: Scalar) -> String {
        proof {
            use_type_invariant(self);
        }
        (self.number)(value)
    }

    fn tuple(&self, value: Vec3) -> String {
        proof {
            use_type_invariant(self);
        }
        (self.tuple)(value)
    }

    fn direction_tolerance(&self) -> Scalar {
        self.direction_tolerance
    }
}

} // verus!
