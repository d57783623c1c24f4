use crate::game::ecs::network_id::NetworkId;
use crate::protocol::packets::input::InputMap;
use crate::protocol::packets::input::PacketInput;
use vstd::prelude::*;

verus! {

/// The inputs a client has sent and the server has not yet acknowledged,
/// kept to replay them on top of the server's state.
pub struct InputHistory {
    /// The number of the last input sent.
    pub input_seq: u32,
    /// The inputs sent, by number, oldest first.
    pub last_maps: Vec<(u32, InputMap)>,
    /// The input last sent.
    pub last_sent_map: Option<InputMap>,
}

/// Input numbers strictly increase along the history, none is zero, and
/// none is beyond the last number handed out.
pub open spec fn history_ok(seq: u32, maps: Seq<(u32, InputMap)>) -> bool {
    &&& forall|i: int, j: int| 0 <= i < j < maps.len() ==> #[trigger] maps[i].0 < #[trigger] maps[j].0
    &&& forall|i: int| 0 <= i < maps.len() ==> 0 < #[trigger] maps[i].0 <= seq
}

/// The entries of the history that the server has not yet acknowledged.
pub open spec fn unacknowledged(maps: Seq<(u32, InputMap)>, last_ack_seq: u32) -> Seq<(u32, InputMap)> {
    maps.filter(|e: (u32, InputMap)| e.0 > last_ack_seq)
}

impl InputHistory {
    /// Whether the history is well formed.
    pub open spec fn wf(&self) -> bool {
        history_ok(self.input_seq, self.last_maps@)
    }

    /// An empty history: nothing sent yet.
    pub fn new() -> (r: Self)
        ensures
            r.input_seq == 0,
            r.last_maps@ == Seq::<(u32, InputMap)>::empty(),
            r.last_sent_map is None,
            r.wf(),
    {
        InputHistory { input_seq: 0, last_maps: Vec::new(), last_sent_map: None }
    }

    /// Called with the input of each frame. When it differs from the input
    /// last sent, the input gets the next number, joins the history, and the
    /// packet to send is returned; otherwise nothing changes.
    pub fn check_for_new_input(&mut self, client_id: NetworkId, current_map: &InputMap) -> (r:
        Option<PacketInput>)
        requires
            old(self).last_sent_map != Some(*current_map) ==> old(self).input_seq < u32::MAX,
        ensures
            old(self).last_sent_map == Some(*current_map) ==> {
                &&& r is None
                &&& final(self).input_seq == old(self).input_seq
                &&& final(self).last_maps@ == old(self).last_maps@
                &&& final(self).last_sent_map == old(self).last_sent_map
            },
            old(self).last_sent_map != Some(*current_map) ==> {
                &&& final(self).input_seq == old(self).input_seq + 1
                &&& final(self).last_maps@ == old(self).last_maps@.push(
                    (final(self).input_seq, *current_map),
                )
                &&& final(self).last_sent_map == Some(*current_map)
                &&& r == Some(
                    PacketInput {
                        client_id,
                        seq: final(self).input_seq,
                        input_map: *current_map,
                    },
                )
            },
            final(self).last_sent_map == Some(*current_map),
            old(self).wf() ==> final(self).wf(),
    {
        let changed = match &self.last_sent_map {
            Some(m) => *m != *current_map,
            None => true,
        };
        if changed {
            self.input_seq = self.input_seq + 1;
            self.last_maps.push((self.input_seq, *current_map));
            let payload = PacketInput::new(client_id, self.input_seq, *current_map);
            self.last_sent_map = Some(*current_map);
            Some(payload)
        } else {
            None
        }
    }

    /// Forgets the inputs that the server has acknowledged: those numbered
    /// up to `last_ack_seq`.
    pub fn discard_acknowledged(&mut self, last_ack_seq: u32)
        ensures
            final(self).last_maps@ == unacknowledged(old(self).last_maps@, last_ack_seq),
            final(self).input_seq == old(self).input_seq,
            final(self).last_sent_map == old(self).last_sent_map,
            old(self).wf() ==> final(self).wf(),
            forall|i: int|
                0 <= i < final(self).last_maps@.len() ==> #[trigger] final(self).last_maps@[i].0
                    > last_ack_seq,
    {
        let ghost maps = self.last_maps@;
        let ghost pred = |e: (u32, InputMap)| e.0 > last_ack_seq;
        let mut kept: Vec<(u32, InputMap)> = Vec::new();
        let mut i: usize = 0;
        while i < self.last_maps.len()
            invariant
                i <= maps.len(),
                self.last_maps@ == maps,
                pred == (|e: (u32, InputMap)| e.0 > last_ack_seq),
                kept@ == maps.take(i as int).filter(pred),
            decreases maps.len() - i,
        {
            let entry = self.last_maps[i];
            proof {
                assert(maps.take(i + 1).drop_last() =~= maps.take(i as int));
                assert(maps.take(i + 1).last() == entry);
                assert(pred(entry) == (entry.0 > last_ack_seq));
                reveal_with_fuel(Seq::<_>::filter, 1);
            }
            if entry.0 > last_ack_seq {
                kept.push(entry);
            }
            i += 1;
        }
        proof {
            assert(maps.take(maps.len() as int) =~= maps);
            assert forall|i: int| 0 <= i < kept@.len() implies #[trigger] kept@[i].0 > last_ack_seq by {
                maps.lemma_filter_pred(pred, i);
                assert(pred(kept@[i]));
            }
            if history_ok(self.input_seq, maps) {
                lemma_filter_keeps_order(maps, pred, self.input_seq);
            }
        }
        self.last_maps = kept;
    }
}

/// Every entry kept by a filter was in the sequence filtered.
proof fn lemma_filtered_from<A>(s: Seq<A>, pred: spec_fn(A) -> bool, i: int)
    requires
        0 <= i < s.filter(pred).len(),
    ensures
        s.contains(s.filter(pred)[i]),
    decreases s.len(),
{
    reveal_with_fuel(Seq::<_>::filter, 1);
    if s.len() > 0 {
        let rest = s.drop_last();
        let f = rest.filter(pred);
        if i < f.len() {
            lemma_filtered_from(rest, pred, i);
            let k = choose|k: int| 0 <= k < rest.len() && rest[k] == f[i];
            assert(s[k] == rest[k]);
        } else {
            assert(s[s.len() - 1] == s.filter(pred)[i]);
        }
    }
}

/// Keeping some entries of a well-formed history leaves it well formed.
proof fn lemma_filter_keeps_order(
    maps: Seq<(u32, InputMap)>,
    pred: spec_fn((u32, InputMap)) -> bool,
    seq: u32,
)
    requires
        history_ok(seq, maps),
    ensures
        history_ok(seq, maps.filter(pred)),
    decreases maps.len(),
{
    reveal_with_fuel(Seq::<_>::filter, 1);
    if maps.len() > 0 {
        let rest = maps.drop_last();
        assert(history_ok(seq, rest));
        lemma_filter_keeps_order(rest, pred, seq);
        if pred(maps.last()) {
            let f = rest.filter(pred);
            assert forall|i: int| 0 <= i < f.len() implies #[trigger] f[i].0 < maps.last().0 by {
                lemma_filtered_from(rest, pred, i);
                let k = choose|k: int| 0 <= k < rest.len() && rest[k] == f[i];
                assert(maps[k] == rest[k]);
            }
        }
    }
}

/// A history with nothing in it keeps nothing, and an input added to a
/// history stays after an acknowledgement exactly when its number is above
/// the acknowledged one, after the inputs that stay of the rest and in the
/// order they were sent.
pub proof fn lemma_unacknowledged_step(maps: Seq<(u32, InputMap)>, e: (u32, InputMap), last_ack_seq: u32)
    ensures
        unacknowledged(Seq::empty(), last_ack_seq) == Seq::<(u32, InputMap)>::empty(),
        e.0 > last_ack_seq ==> unacknowledged(maps.push(e), last_ack_seq) == unacknowledged(
            maps,
            last_ack_seq,
        ).push(e),
        e.0 <= last_ack_seq ==> unacknowledged(maps.push(e), last_ack_seq) == unacknowledged(
            maps,
            last_ack_seq,
        ),
{
    reveal_with_fuel(Seq::<_>::filter, 1);
    assert(maps.push(e).drop_last() =~= maps);
    assert(Seq::<(u32, InputMap)>::empty().filter(|x: (u32, InputMap)| x.0 > last_ack_seq)
        =~= Seq::<(u32, InputMap)>::empty());
}

/// Every input of the history numbered above the acknowledged one stays,
/// and every input that stays was in the history and is numbered above it.
pub proof fn lemma_unacknowledged_members(maps: Seq<(u32, InputMap)>, last_ack_seq: u32)
    ensures
        forall|i: int|
            0 <= i < maps.len() && maps[i].0 > last_ack_seq ==> #[trigger] unacknowledged(
                maps,
                last_ack_seq,
            ).contains(maps[i]),
        forall|j: int|
            0 <= j < unacknowledged(maps, last_ack_seq).len() ==> {
                &&& maps.contains(#[trigger] unacknowledged(maps, last_ack_seq)[j])
                &&& unacknowledged(maps, last_ack_seq)[j].0 > last_ack_seq
            },
{
    let pred = |e: (u32, InputMap)| e.0 > last_ack_seq;
    assert forall|i: int| 0 <= i < maps.len() && maps[i].0 > last_ack_seq implies #[trigger] unacknowledged(
        maps,
        last_ack_seq,
    ).contains(maps[i]) by {
        assert(pred(maps[i]));
        maps.lemma_filter_contains(pred, i);
    }
    assert forall|j: int| 0 <= j < unacknowledged(maps, last_ack_seq).len() implies {
        &&& maps.contains(#[trigger] unacknowledged(maps, last_ack_seq)[j])
        &&& unacknowledged(maps, last_ack_seq)[j].0 > last_ack_seq
    } by {
        lemma_filtered_from(maps, pred, j);
        maps.lemma_filter_pred(pred, j);
    }
}

} // verus!
