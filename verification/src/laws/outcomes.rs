//! How the lives of agents are told and ranked, and what fractures leave.

use crate::binary32::bounds::lemma_sign_of_units;
use crate::binary32::model::lemma_grid_order;
use crate::binary32::model::Binary32;
use crate::binary32::order::num;
use crate::binary32::value::lemma_modest_fits;
use crate::binary32::value::lemma_value_order;
use crate::binary32::value::lemma_value_sign;
use crate::binary32::value::lemma_value_sum;
use crate::binary32::value::lemma_value_zero;
use crate::binary32::value::modest;
use crate::binary32::value::value;
use crate::components::lemma_place;
use crate::components::place_of;
use crate::components::EnergyFlow;
use crate::components::EnergyLedger;
use crate::components::Node;
use crate::evaluator::outranks;
use crate::evaluator::CompetenceRecord;
use crate::fragmentation::paid;
use crate::fragmentation::Fracture;
use crate::laws::energy::only_energy_differs;
use crate::laws::energy::solvent;
use crate::laws::heat::moved_by;
use vstd::prelude::*;

verus! {

/// Who lived longer ranks first; of those who lived as long, the later generation;
/// of these, who gathered more energy. Energy that is no number counts for least.
/// Nobody comes before themselves, nor both before each other.
pub proof fn lemma_survival_ranks_first(a: CompetenceRecord, b: CompetenceRecord)
    ensures
        !(outranks(a, b) && outranks(b, a)),
        a.survival_steps > b.survival_steps ==> outranks(a, b),
        a.survival_steps == b.survival_steps && a.generation > b.generation ==> outranks(a, b),
        a.survival_steps == b.survival_steps && a.generation == b.generation
            && a.energy_accumulated.finite() && b.energy_accumulated.finite() && value(
            a.energy_accumulated,
        ) > value(b.energy_accumulated) ==> outranks(a, b),
        a.survival_steps == b.survival_steps && a.generation == b.generation
            && !a.energy_accumulated.finite() ==> !outranks(a, b),
{
    let (x, y) = (a.energy_accumulated, b.energy_accumulated);
    lemma_value_order(y, x);
    lemma_sign_of_units(x);
    lemma_sign_of_units(y);
    if x.magnitude() <= y.magnitude() {
        lemma_grid_order(x.magnitude(), y.magnitude());
    } else {
        lemma_grid_order(y.magnitude(), x.magnitude());
    }
}

/// A life in numbers: how long it was, and what was gathered in all, which is what
/// vents, harvests and victims gave.
pub open spec fn life_told(r: CompetenceRecord, l: EnergyLedger, step: u32) -> bool {
    &&& r.step == step
    &&& step >= l.born_step ==> r.survival_steps + l.born_step == step
    &&& step < l.born_step ==> r.survival_steps == 0
    &&& r.energy_harvested == l.harvested
    &&& r.energy_consumed == l.consumed_from_others
    &&& modest(l.vented) && modest(l.harvested) && modest(l.consumed_from_others) ==> exists|
        sum: Binary32,
    | #[trigger]
        moved_by(sum, value(l.vented), value(l.harvested)) && moved_by(
            r.energy_accumulated,
            value(sum),
            value(l.consumed_from_others),
        )
}

/// The record of an agent tells its life.
pub proof fn lemma_record_tells_the_life(
    entity: u64,
    generation: u32,
    lineage: u64,
    step: u32,
    l: EnergyLedger,
)
    ensures
        ({
            let r = CompetenceRecord::from_ledger(entity, generation, lineage, step, &l);
            &&& r.alive
            &&& r.entity == entity
            &&& r.generation == generation
            &&& r.lineage == lineage
            &&& life_told(r, l, step)
        }),
{
    if modest(l.vented) && modest(l.harvested) && modest(l.consumed_from_others) {
        lemma_gathered(l.vented, l.harvested, l.consumed_from_others);
    }
}

/// The sum of what was gathered.
proof fn lemma_gathered(a: Binary32, b: Binary32, c: Binary32)
    requires
        modest(a),
        modest(b),
        modest(c),
    ensures
        moved_by(a.plus(b), value(a), value(b)),
        moved_by(a.plus(b).plus(c), value(a.plus(b)), value(c)),
{
    crate::binary32::value::lemma_large();
    lemma_modest_fits(a, b);
    lemma_value_sum(a, b);
    let s = a.plus(b);
    let m = crate::binary32::value::mag(value(a) + value(b));
    let e = crate::binary32::value::eps();
    assert(e * m <= m) by (nonlinear_arith)
        requires
            m >= 0 as real,
            e == 1 as real / 0x100_0000 as real,
    ;
    crate::binary32::value::lemma_plus_fits(s, c);
    lemma_value_sum(s, c);
}

/// A killer gets the share that it is owed, and the ledger says that it came from
/// another. Nobody else gets anything.
pub proof fn lemma_killer_gets_the_share(nodes: Seq<Node>, queue: Seq<Fracture>, n: nat, i: int)
    requires
        0 < n <= queue.len(),
        queue[n - 1].killer is Some,
        modest(queue[n - 1].share),
        value(queue[n - 1].share) > 0 as real,
        ({
            let before = paid(nodes, queue, (n - 1) as nat);
            &&& place_of(before, queue[n - 1].killer->0) == Some(i)
            &&& solvent(before[i])
            &&& modest(before[i].physical->0.energy)
        }),
    ensures
        ({
            let before = paid(nodes, queue, (n - 1) as nat);
            let after = paid(nodes, queue, n);
            let share = queue[n - 1].share;
            &&& after.len() == before.len()
            &&& forall|k: int| 0 <= k < before.len() && k != i ==> after[k] == before[k]
            &&& only_energy_differs(before[i], after[i])
            &&& moved_by(
                after[i].physical->0.energy,
                value(before[i].physical->0.energy),
                value(share),
            )
            &&& after[i].ledger is Some
            &&& after[i].ledger->0.consumed_from_others
                == before[i].ledger->0.consumed_from_others.plus(share)
        }),
{
    let before = paid(nodes, queue, (n - 1) as nat);
    let share = queue[n - 1].share;
    lemma_place(before, queue[n - 1].killer->0);
    lemma_value_zero();
    lemma_value_sign(share);
    lemma_value_order(share, num(0));
    crate::laws::energy::lemma_credit_brings_the_amount(before[i], EnergyFlow::Consumed, share);
    crate::components::lemma_amount_valid(share);
    lemma_value_sign(before[i].physical->0.energy);
}

/// A fracture without a killer, or with nothing to share, pays nobody.
pub proof fn lemma_nobody_is_paid_for_nothing(nodes: Seq<Node>, queue: Seq<Fracture>, n: nat)
    requires
        0 < n <= queue.len(),
        queue[n - 1].killer is None || (queue[n - 1].share.finite() && value(queue[n - 1].share)
            <= 0 as real),
    ensures
        paid(nodes, queue, n) == paid(nodes, queue, (n - 1) as nat),
{
    lemma_value_zero();
    lemma_value_order(queue[n - 1].share, num(0));
}

} // verus!
