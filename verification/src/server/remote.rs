//! A controller whose socket is served in the background.

use crate::interface::action::ActionTensor;
use crate::interface::observation::ObservationTensor;
use crate::server::wire::encode_observation;
use crate::server::wire::observation_header;
use crate::server::wire::patterns;
use crate::server::wire::words_bytes;
use crate::server::wire::HEADER_BYTES;
use crate::PROTOCOL_VERSION;
use vstd::prelude::*;

verus! {

/// Steps after which an action is stale.
pub const MAX_ACTION_AGE: u64 = 2;

/// The newest usable action of a remote controller. Simulation ticks never wait
/// for the network: stale or missing actions resolve to no action.
#[derive(Clone, Copy, Debug, Default)]
pub struct RemoteAgent {
    /// The step that the action answers, and the action.
    pub last_action: Option<(u64, ActionTensor)>,
}

/// The action kept after `arrived` came in, in this order: the last one that is
/// meant for the entity and answers no step of the future.
pub open spec fn kept_action(
    kept: Option<(u64, ActionTensor)>,
    arrived: Seq<(u64, u64, ActionTensor)>,
    entity: u64,
    step: u64,
) -> Option<(u64, ActionTensor)>
    decreases arrived.len(),
{
    if arrived.len() == 0 {
        kept
    } else if arrived.last().1 == entity && arrived.last().0 <= step {
        Some((arrived.last().0, arrived.last().2))
    } else {
        kept_action(kept, arrived.drop_last(), entity, step)
    }
}

/// The action taken at `step`: the kept one while it is fresh.
pub open spec fn fresh_action(kept: Option<(u64, ActionTensor)>, step: u64) -> ActionTensor {
    match kept {
        Some((answered, action)) if step - answered <= MAX_ACTION_AGE => action,
        _ => ActionTensor::noop(),
    }
}

impl RemoteAgent {
    /// A controller that has not answered yet.
    pub fn new() -> (r: RemoteAgent)
        ensures
            r.last_action is None,
    {
        RemoteAgent { last_action: None }
    }

    /// One tick: the frame to offer to the client, and the action that the body
    /// takes. `arrived` are the actions received since the last tick, in order.
    pub fn act(
        &mut self,
        observation: &ObservationTensor,
        arrived: &[(u64, u64, ActionTensor)],
    ) -> (r: (Vec<u8>, ActionTensor))
        requires
            HEADER_BYTES + 4 * observation.flat().len() <= usize::MAX,
        ensures
            final(self).last_action == kept_action(
                old(self).last_action,
                arrived@,
                observation.entity_id,
                observation.step,
            ),
            r.0@ == words_bytes(
                observation_header(PROTOCOL_VERSION, *observation).words() + patterns(
                    observation.flat(),
                ),
            ),
            r.1 == fresh_action(final(self).last_action, observation.step),
    {
        let frame: Vec<u8> = encode_observation(PROTOCOL_VERSION, observation);
        let mut i: usize = 0;
        while i < arrived.len()
            invariant
                i <= arrived@.len(),
                self.last_action == kept_action(
                    old(self).last_action,
                    arrived@.take(i as int),
                    observation.entity_id,
                    observation.step,
                ),
            decreases arrived@.len() - i,
        {
            assert(arrived@.take(i + 1).drop_last() =~= arrived@.take(i as int));
            let (step, entity, action) = arrived[i];
            if entity == observation.entity_id && step <= observation.step {
                self.last_action = Some((step, action));
            }
            i += 1;
        }
        assert(arrived@.take(i as int) =~= arrived@);
        let action: ActionTensor = match self.last_action {
            Some((step, action)) => {
                if observation.step.saturating_sub(step) <= MAX_ACTION_AGE {
                    action
                } else {
                    ActionTensor::noop()
                }
            },
            None => ActionTensor::noop(),
        };
        (frame, action)
    }
}

/// An action older than two steps is never taken.
pub proof fn lemma_stale_is_noop(kept: Option<(u64, ActionTensor)>, step: u64)
    requires
        kept matches Some(k) ==> k.0 + MAX_ACTION_AGE < step,
    ensures
        fresh_action(kept, step) == ActionTensor::noop(),
{
}

/// An action meant for another entity, or one that answers a step of the
/// future, changes nothing.
pub proof fn lemma_foreign_is_ignored(
    kept: Option<(u64, ActionTensor)>,
    arrived: Seq<(u64, u64, ActionTensor)>,
    entity: u64,
    step: u64,
)
    requires
        forall|i: int|
            0 <= i < arrived.len() ==> (#[trigger] arrived[i]).1 != entity || arrived[i].0 > step,
    ensures
        kept_action(kept, arrived, entity, step) == kept,
    decreases arrived.len(),
{
    if arrived.len() > 0 {
        let rest = arrived.drop_last();
        assert forall|i: int| 0 <= i < rest.len() implies (#[trigger] rest[i]).1 != entity
            || rest[i].0 > step by {
            assert(rest[i] == arrived[i]);
        }
        lemma_foreign_is_ignored(kept, rest, entity, step);
    }
}

} // verus!
