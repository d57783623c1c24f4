use crate::game::ecs::network_id::NetworkId;
use vstd::prelude::*;

verus! {

/// Whether `i` is the first position of an entity carrying `id`.
pub open spec fn is_first_with_id(entities: Seq<(u64, NetworkId)>, id: NetworkId, i: int) -> bool {
    &&& 0 <= i < entities.len()
    &&& entities[i].1 == id
    &&& forall|j: int| 0 <= j < i ==> #[trigger] entities[j].1 != id
}

/// The entity (bits) that carries the network id `id`: the first of
/// `entities` (each an entity with its network id) that carries it; none if
/// no entity does.
pub fn find_network_entity(entities: &Vec<(u64, NetworkId)>, id: NetworkId) -> (r: Option<u64>)
    ensures
        r is None <==> forall|j: int| 0 <= j < entities@.len() ==> #[trigger] entities@[j].1 != id,
        r matches Some(e) ==> exists|i: int| is_first_with_id(entities@, id, i) && entities@[i].0 == e,
{
    let mut i: usize = 0;
    while i < entities.len()
        invariant
            i <= entities@.len(),
            forall|j: int| 0 <= j < i ==> #[trigger] entities@[j].1 != id,
        decreases entities@.len() - i,
    {
        if entities[i].1 == id {
            proof {
                assert(is_first_with_id(entities@, id, i as int));
            }
            return Some(entities[i].0);
        }
        i += 1;
    }
    None
}

/// The entity (bits) to take out of the world when the server despawns the
/// network entity `id`: the one that `find_network_entity` finds.
pub fn despawn_network_entity(entities: &Vec<(u64, NetworkId)>, id: NetworkId) -> (r: Option<u64>)
    ensures
        r is None <==> forall|j: int| 0 <= j < entities@.len() ==> #[trigger] entities@[j].1 != id,
        r matches Some(e) ==> exists|i: int| is_first_with_id(entities@, id, i) && entities@[i].0 == e,
{
    find_network_entity(entities, id)
}

} // verus!
