use vstd::prelude::*;
use hecs::Entity;
use rapier2d::dynamics::{GenericJoint, ImpulseJointHandle};

verus! {

/// An entity identifier of the `hecs` entity store, carried opaquely.
#[verifier::external_type_specification]
#[verifier::external_body]
pub struct ExEntity(Entity);

/// A joint handle assigned by the `rapier2d` engine, carried opaquely.
#[verifier::external_type_specification]
#[verifier::external_body]
pub struct ExImpulseJointHandle(ImpulseJointHandle);

/// A `rapier2d` joint description, carried opaquely.
#[verifier::external_type_specification]
#[verifier::external_body]
pub struct ExGenericJoint(GenericJoint);

/// A component recording a joint created inside the physics engine: the
/// engine-assigned joint handle, plus the two entities the joint connects.
/// It is created by the system layer as the terminal state of a
/// `JointBuilderComponent`, never by application code, and is immutable
/// afterwards.
pub struct JointHandleComponent {
    handle: ImpulseJointHandle,
    entity1: Entity,
    entity2: Entity,
}

impl JointHandleComponent {
    /// The engine handle of the joint, for specifications.
    pub closed spec fn spec_handle(&self) -> ImpulseJointHandle {
        self.handle
    }

    /// The first joined entity, for specifications.
    pub closed spec fn spec_entity1(&self) -> Entity {
        self.entity1
    }

    /// The second joined entity, for specifications.
    pub closed spec fn spec_entity2(&self) -> Entity {
        self.entity2
    }

    /// Packs an engine-assigned joint handle with the two entities it joins.
    pub fn new(handle: ImpulseJointHandle, entity1: Entity, entity2: Entity) -> (c:
        JointHandleComponent)
        ensures
            c.spec_handle() == handle,
            c.spec_entity1() == entity1,
            c.spec_entity2() == entity2,
    {
        JointHandleComponent { handle, entity1, entity2 }
    }

    /// The engine handle of the joint.
    pub fn handle(&self) -> (h: ImpulseJointHandle)
        ensures
            h == self.spec_handle(),
    {
        self.handle
    }

    /// The first entity affected by this joint.
    pub fn entity1(&self) -> (e: Entity)
        ensures
            e == self.spec_entity1(),
    {
        self.entity1
    }

    /// The second entity affected by this joint.
    pub fn entity2(&self) -> (e: Entity)
        ensures
            e == self.spec_entity2(),
    {
        self.entity2
    }
}

/// Relies on `Into::into` of the `rapier2d` joint builders and joint types:
/// converts any joint description into the engine's general joint form.
#[verifier::external_body]
fn into_generic_joint<J: Into<GenericJoint>>(joint: J) -> GenericJoint {
    joint.into()
}

/// A transient component declaring intent to create a joint: the joint's
/// construction parameters plus the two entities to connect. It is consumed
/// by the system layer once the engine joint exists and is then replaced by
/// a `JointHandleComponent`; both entities must resolve to physics bodies by
/// the time it is consumed, or creation fails.
pub struct JointBuilderComponent {
    pub(crate) params: GenericJoint,
    pub(crate) entity1: Entity,
    pub(crate) entity2: Entity,
}

impl JointBuilderComponent {
    /// The first entity to connect, for specifications.
    pub closed spec fn spec_entity1(&self) -> Entity {
        self.entity1
    }

    /// The second entity to connect, for specifications.
    pub closed spec fn spec_entity2(&self) -> Entity {
        self.entity2
    }

    /// Packs a joint description with the two entities it should connect.
    pub fn new<J: Into<GenericJoint>>(joint: J, entity1: Entity, entity2: Entity) -> (b:
        JointBuilderComponent)
        ensures
            b.spec_entity1() == entity1,
            b.spec_entity2() == entity2,
    {
        JointBuilderComponent { params: into_generic_joint(joint), entity1, entity2 }
    }

    /// The joint description held by this builder.
    pub fn params(&self) -> &GenericJoint {
        &self.params
    }

    /// The first entity the joint should connect.
    pub fn entity1(&self) -> (e: Entity)
        ensures
            e == self.spec_entity1(),
    {
        self.entity1
    }

    /// The second entity the joint should connect.
    pub fn entity2(&self) -> (e: Entity)
        ensures
            e == self.spec_entity2(),
    {
        self.entity2
    }
}

} // verus!
