use crate::game::ecs::components::moveable::CollisionMesh;
use crate::game::ecs::components::moveable::inverted;
use crate::protocol::packets::spawn_entity::EntityKind;
use vstd::prelude::*;

verus! {

/// The axis along which a collision pass moves entities apart.
#[derive(Debug, Clone, Copy, PartialEq, Eq, Structural)]
pub enum Axis {
    X,
    Y,
}

/// The pairs that a collision pass resolves, from the overlapping pairs in
/// the order they were found: an entity never collides with itself, and a
/// pair is resolved once, in the order it was first found.
pub open spec fn kept_pairs(overlaps: Seq<(u64, u64)>) -> Seq<(u64, u64)>
    decreases overlaps.len(),
{
    if overlaps.len() == 0 {
        Seq::empty()
    } else {
        let kept = kept_pairs(overlaps.drop_last());
        let (a, b) = overlaps.last();
        if a != b && !kept.contains((b, a)) {
            kept.push((a, b))
        } else {
            kept
        }
    }
}

/// The pairs to resolve: see `kept_pairs`.
pub fn collision_pairs(overlaps: &Vec<(u64, u64)>) -> (r: Vec<(u64, u64)>)
    ensures
        r@ == kept_pairs(overlaps@),
        forall|i: int| 0 <= i < r@.len() ==> (#[trigger] r@[i]).0 != r@[i].1,
        forall|i: int, j: int|
            0 <= i < r@.len() && 0 <= j < r@.len() ==> (#[trigger] r@[i]).0 != (#[trigger] r@[j]).1
                || r@[i].1 != r@[j].0,
{
    let mut collisions: Vec<(u64, u64)> = Vec::new();
    let mut i: usize = 0;
    while i < overlaps.len()
        invariant
            i <= overlaps@.len(),
            collisions@ == kept_pairs(overlaps@.take(i as int)),
            forall|k: int| 0 <= k < collisions@.len() ==> (#[trigger] collisions@[k]).0 != collisions@[k].1,
            forall|k: int, l: int|
                0 <= k < collisions@.len() && 0 <= l < collisions@.len() ==> (
                #[trigger] collisions@[k]).0 != (#[trigger] collisions@[l]).1 || collisions@[k].1
                    != collisions@[l].0,
        decreases overlaps@.len() - i,
    {
        let (a, b) = overlaps[i];
        let mut seen = false;
        let mut j: usize = 0;
        while j < collisions.len()
            invariant
                j <= collisions@.len(),
                seen == collisions@.take(j as int).contains((b, a)),
            decreases collisions@.len() - j,
        {
            if collisions[j].0 == b && collisions[j].1 == a {
                seen = true;
            }
            proof {
                broadcast use vstd::seq_lib::group_seq_properties;

                assert(collisions@.take(j + 1) =~= collisions@.take(j as int).push(collisions@[j as int]));
            }
            j += 1;
        }
        proof {
            assert(collisions@.take(collisions@.len() as int) =~= collisions@);
            assert(overlaps@.take(i + 1).drop_last() =~= overlaps@.take(i as int));
            assert(overlaps@.take(i + 1).last() == (a, b));
        }
        if a != b && !seen {
            let ghost before = collisions@;
            collisions.push((a, b));
            proof {
                assert forall|k: int, l: int|
                    0 <= k < collisions@.len() && 0 <= l < collisions@.len() implies (
                    #[trigger] collisions@[k]).0 != (#[trigger] collisions@[l]).1 || collisions@[k].1
                        != collisions@[l].0 by {
                    let last = collisions@.len() - 1;
                    if k == last && l < last {
                        assert(before[l] == collisions@[l]);
                        if collisions@[l] == (b, a) {
                            assert(before.contains((b, a)));
                        }
                    } else if l == last && k < last {
                        if collisions@[k] == (b, a) {
                            assert(before.contains((b, a)));
                        }
                    }
                }
            }
        }
        i += 1;
    }
    proof {
        assert(overlaps@.take(overlaps@.len() as int) =~= overlaps@);
    }
    collisions
}

/// The contact that entity 1 records when it hits entity 2 (of kind
/// `other_kind`) along `axis`: on the right or the top side when
/// `toward_high_side`, else on the left or the bottom side.
pub open spec fn contact(axis: Axis, toward_high_side: bool, other_kind: EntityKind) -> CollisionMesh {
    match axis {
        Axis::X => if toward_high_side {
            CollisionMesh { top: None, bottom: None, left: None, right: Some(other_kind) }
        } else {
            CollisionMesh { top: None, bottom: None, left: Some(other_kind), right: None }
        },
        Axis::Y => if toward_high_side {
            CollisionMesh { top: Some(other_kind), bottom: None, left: None, right: None }
        } else {
            CollisionMesh { top: None, bottom: Some(other_kind), left: None, right: None }
        },
    }
}

/// The mesh that records one contact: see `contact`.
pub fn contact_mesh(axis: Axis, toward_high_side: bool, other_kind: EntityKind) -> (r: CollisionMesh)
    ensures
        r == contact(axis, toward_high_side, other_kind),
{
    let mut collision_mesh = CollisionMesh::default();
    match axis {
        Axis::X => {
            if toward_high_side {
                collision_mesh.right = Some(other_kind);
            } else {
                collision_mesh.left = Some(other_kind);
            }
        },
        Axis::Y => {
            if toward_high_side {
                collision_mesh.top = Some(other_kind);
            } else {
                collision_mesh.bottom = Some(other_kind);
            }
        },
    }
    collision_mesh
}

/// No overlaps give no pairs; each overlap found next adds its pair, at the
/// end, unless it is an entity with itself or the reverse pair was already
/// kept, in which case the kept pairs stay as they were.
pub proof fn lemma_kept_pairs_step(overlaps: Seq<(u64, u64)>, a: u64, b: u64)
    ensures
        kept_pairs(Seq::empty()) == Seq::<(u64, u64)>::empty(),
        a != b && !kept_pairs(overlaps).contains((b, a)) ==> kept_pairs(overlaps.push((a, b)))
            == kept_pairs(overlaps).push((a, b)),
        a == b || kept_pairs(overlaps).contains((b, a)) ==> kept_pairs(overlaps.push((a, b)))
            == kept_pairs(overlaps),
{
    assert(overlaps.push((a, b)).drop_last() =~= overlaps);
}

/// The pairs kept from the first overlaps stay kept, in the same places,
/// when more overlaps follow.
proof fn lemma_kept_pairs_prefix(overlaps: Seq<(u64, u64)>, j: int, k: int)
    requires
        0 <= j <= k <= overlaps.len(),
    ensures
        kept_pairs(overlaps.take(j)).len() <= kept_pairs(overlaps.take(k)).len(),
        forall|x: int|
            0 <= x < kept_pairs(overlaps.take(j)).len() ==> #[trigger] kept_pairs(overlaps.take(k))[x]
                == kept_pairs(overlaps.take(j))[x],
    decreases k - j,
{
    if j < k {
        lemma_kept_pairs_prefix(overlaps, j, k - 1);
        assert(overlaps.take(k).drop_last() =~= overlaps.take(k - 1));
    }
}

/// Every overlap of two different entities whose reverse pair was not kept
/// from the overlaps before it is kept; every kept pair is an overlap of two
/// different entities.
pub proof fn lemma_kept_pairs_complete(overlaps: Seq<(u64, u64)>)
    ensures
        forall|i: int|
            0 <= i < overlaps.len() && overlaps[i].0 != overlaps[i].1 && !kept_pairs(
                overlaps.take(i),
            ).contains((overlaps[i].1, overlaps[i].0)) ==> #[trigger] kept_pairs(overlaps).contains(
                overlaps[i],
            ),
        forall|x: int|
            0 <= x < kept_pairs(overlaps).len() ==> overlaps.contains(#[trigger] kept_pairs(overlaps)[x])
                && kept_pairs(overlaps)[x].0 != kept_pairs(overlaps)[x].1,
    decreases overlaps.len(),
{
    assert(overlaps.take(overlaps.len() as int) =~= overlaps);
    assert forall|i: int|
        0 <= i < overlaps.len() && overlaps[i].0 != overlaps[i].1 && !kept_pairs(
            overlaps.take(i),
        ).contains((overlaps[i].1, overlaps[i].0)) implies #[trigger] kept_pairs(overlaps).contains(
        overlaps[i],
    ) by {
        assert(overlaps.take(i + 1).drop_last() =~= overlaps.take(i));
        assert(overlaps.take(i + 1).last() == overlaps[i]);
        let kept = kept_pairs(overlaps.take(i + 1));
        let n = kept_pairs(overlaps.take(i)).len();
        assert(kept[n as int] == overlaps[i]);
        lemma_kept_pairs_prefix(overlaps, i + 1, overlaps.len() as int);
        assert(kept_pairs(overlaps)[n as int] == overlaps[i]);
    }
    if overlaps.len() > 0 {
        let rest = overlaps.drop_last();
        lemma_kept_pairs_complete(rest);
        assert forall|x: int|
            0 <= x < kept_pairs(overlaps).len() implies overlaps.contains(#[trigger] kept_pairs(overlaps)[x])
            && kept_pairs(overlaps)[x].0 != kept_pairs(overlaps)[x].1 by {
            if x < kept_pairs(rest).len() {
                assert(kept_pairs(overlaps)[x] == kept_pairs(rest)[x]);
                let k = choose|k: int| 0 <= k < rest.len() && rest[k] == kept_pairs(rest)[x];
                assert(overlaps[k] == rest[k]);
            } else {
                assert(kept_pairs(overlaps)[x] == overlaps[overlaps.len() - 1]);
            }
        }
    }
}

/// Where one entity records a contact with the other, the other records it
/// on the opposite side: left for right, bottom for top, and back.
pub proof fn lemma_contact_seen_from_other(axis: Axis, toward_high_side: bool, k1: EntityKind, k2: EntityKind)
    ensures
        inverted(contact(axis, toward_high_side, k1), k2) == contact(axis, !toward_high_side, k2),
{
}

} // verus!
