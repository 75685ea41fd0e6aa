//! The geometric shapes of the `iron_shapes` crate, carried through the
//! layout of a chip without being looked into.

use iron_shapes::transform::SimpleTransform;
use iron_shapes::types::Angle;
use iron_shapes::vector::Vector;
use vstd::prelude::*;

verus! {

/// A geometric shape (point, edge, rectangle, polygon, path or text) of the
/// `iron_shapes` crate. Shapes are stored and handed back as they are.
#[verifier::external_type_specification]
#[verifier::external_body]
#[verifier::reject_recursive_types(T)]
pub struct ExGeometry<T>(iron_shapes::shape::Geometry<T>);

/// A vector of the `iron_shapes` crate.
#[verifier::external_type_specification]
#[verifier::reject_recursive_types(T)]
pub struct ExVector<T>(iron_shapes::vector::Vector<T>);

/// A rotation by a multiple of 90 degrees, of the `iron_shapes` crate.
#[verifier::external_type_specification]
pub struct ExAngle(iron_shapes::types::Angle);

/// A transformation of the `iron_shapes` crate: a mirroring at the x-axis,
/// a rotation by a multiple of 90 degrees, a magnification and a displacement.
#[verifier::external_type_specification]
#[verifier::reject_recursive_types(T)]
pub struct ExSimpleTransform<T>(iron_shapes::transform::SimpleTransform<T>);

/// The identity transformation: no mirroring, no rotation, magnification one
/// and no displacement.
pub open spec fn identity_transform_spec() -> SimpleTransform<i32> {
    SimpleTransform {
        mirror: false,
        rotation: Angle::R0,
        magnification: 1,
        displacement: Vector { x: 0, y: 0 },
    }
}

/// The identity transformation, as `SimpleTransform::identity` builds it: the
/// translation by the zero vector.
pub(crate) fn identity_transform() -> (res: SimpleTransform<i32>)
    ensures
        res == identity_transform_spec(),
{
    SimpleTransform {
        mirror: false,
        rotation: Angle::R0,
        magnification: 1,
        displacement: Vector { x: 0, y: 0 },
    }
}

} // verus!
