use crate::protocol::packets::spawn_entity::EntityKind;
use vstd::prelude::*;

verus! {

/// Marks an entity that moves.
pub struct Moveable;

/// Marks an entity that pushes others out of its way.
pub struct Collideable;

/// What an entity touched during the last collision pass, side by side: the
/// kind of the entity touching it on that side, if any.
#[derive(Debug, Copy, Clone)]
pub struct CollisionMesh {
    pub top: Option<EntityKind>,
    pub bottom: Option<EntityKind>,
    pub left: Option<EntityKind>,
    pub right: Option<EntityKind>,
}

/// `a` if it holds a kind, else `b`.
pub open spec fn either(a: Option<EntityKind>, b: Option<EntityKind>) -> Option<EntityKind> {
    match a {
        Some(k) => Some(k),
        None => b,
    }
}

/// `kind` where `side` holds any kind, else nothing.
pub open spec fn relabel(side: Option<EntityKind>, kind: EntityKind) -> Option<EntityKind> {
    match side {
        Some(_) => Some(kind),
        None => None,
    }
}

/// A mesh that records no contact.
pub open spec fn empty_mesh() -> CollisionMesh {
    CollisionMesh { top: None, bottom: None, left: None, right: None }
}

/// Whether some side records a contact.
pub open spec fn mesh_any(m: CollisionMesh) -> bool {
    m.top is Some || m.bottom is Some || m.left is Some || m.right is Some
}

/// Whether some side records a contact with an entity of `kind`.
pub open spec fn mesh_any_of_kind(m: CollisionMesh, kind: EntityKind) -> bool {
    m.top == Some(kind) || m.bottom == Some(kind) || m.left == Some(kind) || m.right == Some(kind)
}

/// The mesh seen from the other entity of each contact in `m`: sides swap
/// (top with bottom, left with right) and every contact is with an entity of
/// `kind`.
pub open spec fn inverted(m: CollisionMesh, kind: EntityKind) -> CollisionMesh {
    CollisionMesh {
        top: relabel(m.bottom, kind),
        bottom: relabel(m.top, kind),
        left: relabel(m.right, kind),
        right: relabel(m.left, kind),
    }
}

/// `m` with the contacts of `other` added; where both record a contact on a
/// side, `other`'s wins.
pub open spec fn merged(m: CollisionMesh, other: CollisionMesh) -> CollisionMesh {
    CollisionMesh {
        top: either(other.top, m.top),
        bottom: either(other.bottom, m.bottom),
        left: either(other.left, m.left),
        right: either(other.right, m.right),
    }
}

fn or_side(a: Option<EntityKind>, b: Option<EntityKind>) -> (r: Option<EntityKind>)
    ensures
        r == either(a, b),
{
    match a {
        Some(k) => Some(k),
        None => b,
    }
}

fn relabel_side(side: Option<EntityKind>, kind: EntityKind) -> (r: Option<EntityKind>)
    ensures
        r == relabel(side, kind),
{
    match side {
        Some(_) => Some(kind),
        None => None,
    }
}

fn side_is(side: Option<EntityKind>, kind: EntityKind) -> (r: bool)
    ensures
        r == (side == Some(kind)),
{
    match side {
        Some(k) => k == kind,
        None => false,
    }
}

impl Default for CollisionMesh {
    fn default() -> (r: Self)
        ensures
            r == empty_mesh(),
    {
        CollisionMesh { top: None, bottom: None, left: None, right: None }
    }
}

impl CollisionMesh {
    /// The mesh of the other entity of a contact: see `inverted`.
    pub fn invert(other: &CollisionMesh, other_kind: EntityKind) -> (r: Self)
        ensures
            r == inverted(*other, other_kind),
    {
        Self {
            top: relabel_side(other.bottom, other_kind),
            bottom: relabel_side(other.top, other_kind),
            left: relabel_side(other.right, other_kind),
            right: relabel_side(other.left, other_kind),
        }
    }

    /// Forgets every contact.
    pub fn reset(&mut self)
        ensures
            *final(self) == empty_mesh(),
    {
        self.top = None;
        self.bottom = None;
        self.left = None;
        self.right = None;
    }

    /// Adds the contacts of `other`: see `merged`.
    pub fn update(&mut self, other: &CollisionMesh)
        ensures
            *final(self) == merged(*old(self), *other),
    {
        self.top = or_side(other.top, self.top);
        self.bottom = or_side(other.bottom, self.bottom);
        self.left = or_side(other.left, self.left);
        self.right = or_side(other.right, self.right);
    }

    /// Whether some side records a contact.
    pub fn any(&self) -> (r: bool)
        ensures
            r == mesh_any(*self),
    {
        self.top.is_some() || self.bottom.is_some() || self.left.is_some() || self.right.is_some()
    }

    /// Whether some side records a contact with an entity of `kind`.
    pub fn any_of_kind(&self, kind: EntityKind) -> (r: bool)
        ensures
            r == mesh_any_of_kind(*self, kind),
    {
        side_is(self.top, kind) || side_is(self.bottom, kind) || side_is(self.left, kind) || side_is(
            self.right,
            kind,
        )
    }
}

/// A contact with an entity of some kind is a contact.
pub proof fn lemma_any_of_kind_is_any(m: CollisionMesh, kind: EntityKind)
    ensures
        mesh_any_of_kind(m, kind) ==> mesh_any(m),
{
}

/// The other side of a contact sees a contact exactly where there is one,
/// always with the given kind; inverting twice puts every contact back on
/// its side.
pub proof fn lemma_invert(m: CollisionMesh, k1: EntityKind, k2: EntityKind)
    ensures
        mesh_any(inverted(m, k1)) == mesh_any(m),
        mesh_any_of_kind(inverted(m, k1), k1) == mesh_any(m),
        inverted(inverted(m, k1), k2).top is Some == m.top is Some,
        inverted(inverted(m, k1), k2).bottom is Some == m.bottom is Some,
        inverted(inverted(m, k1), k2).left is Some == m.left is Some,
        inverted(inverted(m, k1), k2).right is Some == m.right is Some,
{
}

/// Merging into an empty mesh gives the other mesh; merging the same mesh
/// twice is merging it once; a reset mesh records nothing.
pub proof fn lemma_merge(m: CollisionMesh, other: CollisionMesh)
    ensures
        merged(empty_mesh(), other) == other,
        merged(merged(m, other), other) == merged(m, other),
        merged(m, empty_mesh()) == m,
        !mesh_any(empty_mesh()),
        mesh_any(merged(m, other)) == (mesh_any(m) || mesh_any(other)),
{
}

/// Seen from the other entity, each contact sits on the opposite side: a
/// contact on the right of `m` is one on the left of the inverted mesh, one
/// on its top one on the bottom, and so on, each with an entity of `kind`;
/// a side of the inverted mesh records a contact only where the opposite
/// side of `m` does.
pub proof fn lemma_invert_opposite_sides(m: CollisionMesh, kind: EntityKind)
    ensures
        inverted(m, kind).left == (if m.right is Some {
            Some(kind)
        } else {
            None
        }),
        inverted(m, kind).right == (if m.left is Some {
            Some(kind)
        } else {
            None
        }),
        inverted(m, kind).top == (if m.bottom is Some {
            Some(kind)
        } else {
            None
        }),
        inverted(m, kind).bottom == (if m.top is Some {
            Some(kind)
        } else {
            None
        }),
{
}

} // verus!
