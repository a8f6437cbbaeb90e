//! The external evaluator. The world exposes no reward and no score: this reads
//! the same raw outcomes that everyone can read, and compares them offline.

use crate::binary32::num;
use crate::binary32::Binary32;
use crate::components::EnergyLedger;
use crate::lineage::AgentSnapshot;
use vstd::prelude::*;

verus! {

/// Pattern of the smallest finite number.
pub const LOWEST: u32 = 0xff7f_ffff;

/// What an agent's outcome is compared by.
#[derive(Clone, Copy, Debug, Default, PartialEq, Eq, Structural)]
pub struct CompetenceRecord {
    pub alive: bool,
    pub step: u32,
    pub entity: u64,
    pub generation: u32,
    pub lineage: u64,
    pub survival_steps: u32,
    pub energy_accumulated: Binary32,
    pub energy_harvested: Binary32,
    pub energy_consumed: Binary32,
}

/// How long an agent lived, in steps.
pub open spec fn lifetime(step: u32, born_step: u32) -> u32 {
    if step < born_step {
        0
    } else {
        (step - born_step) as u32
    }
}

impl CompetenceRecord {
    pub open spec fn from_ledger_spec(
        entity: u64,
        generation: u32,
        lineage: u64,
        step: u32,
        l: &EnergyLedger,
    ) -> CompetenceRecord {
        CompetenceRecord {
            alive: true,
            step,
            entity,
            generation,
            lineage,
            survival_steps: lifetime(step, l.born_step),
            energy_accumulated: l.vented.plus(l.harvested).plus(l.consumed_from_others),
            energy_harvested: l.harvested,
            energy_consumed: l.consumed_from_others,
        }
    }

    /// The record of a living agent, from its ledger.
    #[verifier::when_used_as_spec(from_ledger_spec)]
    pub fn from_ledger(
        entity: u64,
        generation: u32,
        lineage: u64,
        step: u32,
        l: &EnergyLedger,
    ) -> (r: CompetenceRecord)
        ensures
            r == CompetenceRecord::from_ledger_spec(entity, generation, lineage, step, l),
    {
        CompetenceRecord {
            alive: true,
            step,
            entity,
            generation,
            lineage,
            survival_steps: step.saturating_sub(l.born_step),
            energy_accumulated: l.vented.plus(l.harvested).plus(l.consumed_from_others),
            energy_harvested: l.harvested,
            energy_consumed: l.consumed_from_others,
        }
    }

    pub open spec fn from_snapshot_spec(s: AgentSnapshot) -> CompetenceRecord {
        CompetenceRecord {
            alive: s.alive,
            step: s.step,
            entity: s.entity,
            generation: s.generation,
            lineage: s.lineage,
            survival_steps: lifetime(s.step, s.born_step),
            energy_accumulated: s.vented.plus(s.harvested).plus(s.consumed_from_others),
            energy_harvested: s.harvested,
            energy_consumed: s.consumed_from_others,
        }
    }

    /// The record of an outcome, of a living agent or a dead one.
    #[verifier::when_used_as_spec(from_snapshot_spec)]
    pub fn from_snapshot(s: AgentSnapshot) -> (r: CompetenceRecord)
        ensures
            r == CompetenceRecord::from_snapshot_spec(s),
    {
        CompetenceRecord {
            alive: s.alive,
            step: s.step,
            entity: s.entity,
            generation: s.generation,
            lineage: s.lineage,
            survival_steps: s.step.saturating_sub(s.born_step),
            energy_accumulated: s.vented.plus(s.harvested).plus(s.consumed_from_others),
            energy_harvested: s.harvested,
            energy_consumed: s.consumed_from_others,
        }
    }
}

pub open spec fn finite_metric_spec(value: Binary32) -> Binary32 {
    if value.finite() {
        value
    } else {
        num(LOWEST)
    }
}

/// A metric that can be compared: what is not finite counts as the lowest.
#[verifier::when_used_as_spec(finite_metric_spec)]
pub fn finite_metric(value: Binary32) -> (r: Binary32)
    ensures
        r == finite_metric_spec(value),
{
    if value.is_finite() {
        value
    } else {
        num(LOWEST)
    }
}

/// Does `a` come before `b`? Survival decides, then the generation, then the
/// energy that was gathered.
pub open spec fn outranks(a: CompetenceRecord, b: CompetenceRecord) -> bool {
    if a.survival_steps != b.survival_steps {
        a.survival_steps > b.survival_steps
    } else if a.generation != b.generation {
        a.generation > b.generation
    } else {
        finite_metric(a.energy_accumulated).total_rank() > finite_metric(
            b.energy_accumulated,
        ).total_rank()
    }
}

/// Does `a` come before `b`?
fn comes_first(a: CompetenceRecord, b: CompetenceRecord) -> (r: bool)
    ensures
        r == outranks(a, b),
{
    if a.survival_steps != b.survival_steps {
        a.survival_steps > b.survival_steps
    } else if a.generation != b.generation {
        a.generation > b.generation
    } else {
        finite_metric(b.energy_accumulated).total_lt(finite_metric(a.energy_accumulated))
    }
}

/// How many of the first `n` in the list keep their place before a newcomer: all
/// but those at the end that it outranks.
pub open spec fn slot(
    records: Seq<CompetenceRecord>,
    list: Seq<usize>,
    newcomer: CompetenceRecord,
    n: nat,
) -> nat
    decreases n,
{
    if n == 0 || !outranks(newcomer, records[list[n - 1] as int]) {
        n
    } else {
        slot(records, list, newcomer, (n - 1) as nat)
    }
}

/// The first `n` records, best first. Equals keep their order.
pub open spec fn ranking(records: Seq<CompetenceRecord>, n: nat) -> Seq<usize>
    decreases n,
{
    if n == 0 {
        Seq::empty()
    } else {
        let rest = ranking(records, (n - 1) as nat);
        rest.insert(slot(records, rest, records[n - 1], rest.len()) as int, (n - 1) as usize)
    }
}

/// The length of a ranking, and what it holds.
proof fn lemma_ranking(records: Seq<CompetenceRecord>, n: nat)
    requires
        n <= records.len() <= usize::MAX,
    ensures
        ranking(records, n).len() == n,
        forall|i: int| 0 <= i < n ==> 0 <= #[trigger] ranking(records, n)[i] < n,
    decreases n,
{
    if n > 0 {
        lemma_ranking(records, (n - 1) as nat);
        let rest = ranking(records, (n - 1) as nat);
        lemma_slot(records, rest, records[n - 1], rest.len());
        let k = slot(records, rest, records[n - 1], rest.len()) as int;
        let all = ranking(records, n);
        assert forall|i: int| 0 <= i < n implies 0 <= #[trigger] all[i] < n by {
            if i < k {
                assert(all[i] == rest[i]);
            } else if i > k {
                assert(all[i] == rest[i - 1]);
            }
        }
    }
}

proof fn lemma_slot(
    records: Seq<CompetenceRecord>,
    list: Seq<usize>,
    newcomer: CompetenceRecord,
    n: nat,
)
    ensures
        slot(records, list, newcomer, n) <= n,
        slot(records, list, newcomer, n) > 0 ==> !outranks(
            newcomer,
            records[list[slot(records, list, newcomer, n) - 1] as int],
        ),
        forall|i: int|
            slot(records, list, newcomer, n) <= i < n ==> outranks(
                newcomer,
                records[#[trigger] list[i] as int],
            ),
    decreases n,
{
    if n > 0 && outranks(newcomer, records[list[n - 1] as int]) {
        lemma_slot(records, list, newcomer, (n - 1) as nat);
    }
}

/// The indices of the records, best first.
pub fn rank(records: &[CompetenceRecord]) -> (r: Vec<usize>)
    ensures
        r@ == ranking(records@, records@.len()),
{
    let mut list: Vec<usize> = Vec::new();
    let mut i: usize = 0;
    assert(records@.len() <= usize::MAX) by {
        let n = records.len();
    }
    while i < records.len()
        invariant
            i <= records@.len() <= usize::MAX,
            list@ == ranking(records@, i as nat),
        decreases records@.len() - i,
    {
        proof {
            lemma_ranking(records@, i as nat);
        }
        let newcomer: CompetenceRecord = records[i];
        let mut k: usize = list.len();
        while k > 0 && comes_first(newcomer, records[list[k - 1]])
            invariant
                k <= list@.len(),
                list@.len() == i,
                i < records@.len() <= usize::MAX,
                list@ == ranking(records@, i as nat),
                forall|j: int| 0 <= j < i ==> 0 <= #[trigger] list@[j] < i,
                newcomer == records@[i as int],
                slot(records@, list@, newcomer, list@.len()) == slot(
                    records@,
                    list@,
                    newcomer,
                    k as nat,
                ),
            decreases k,
        {
            k -= 1;
        }
        list.insert(k, i);
        i += 1;
    }
    list
}

/// The ranking is best first: nobody outranks anyone placed before.
pub proof fn lemma_best_first(records: Seq<CompetenceRecord>, n: nat)
    requires
        n <= records.len() <= usize::MAX,
    ensures
        forall|i: int, j: int|
            0 <= i < j < n ==> !outranks(
                records[#[trigger] ranking(records, n)[j] as int],
                records[#[trigger] ranking(records, n)[i] as int],
            ),
    decreases n,
{
    if n > 0 {
        lemma_best_first(records, (n - 1) as nat);
        lemma_ranking(records, (n - 1) as nat);
        lemma_ranking(records, n);
        let rest = ranking(records, (n - 1) as nat);
        let newcomer = records[n - 1];
        lemma_slot(records, rest, newcomer, rest.len());
        let k = slot(records, rest, newcomer, rest.len()) as int;
        let all = ranking(records, n);
        assert forall|i: int, j: int| 0 <= i < j < n implies !outranks(
            records[#[trigger] all[j] as int],
            records[#[trigger] all[i] as int],
        ) by {
            let a = if i < k {
                i
            } else {
                i - 1
            };
            let b = if j < k {
                j
            } else {
                j - 1
            };
            if i != k && j != k {
                assert(all[i] == rest[a] && all[j] == rest[b]);
                assert(!outranks(records[rest[b] as int], records[rest[a] as int]));
            } else if i == k {
                assert(all[j] == rest[b]);
                assert(outranks(newcomer, records[rest[b] as int]));
            } else {
                assert(all[i] == rest[a]);
                assert(!outranks(newcomer, records[rest[k - 1] as int]));
                if a < k - 1 {
                    assert(!outranks(records[rest[k - 1] as int], records[rest[a] as int]));
                }
            }
        }
    }
}

/// The ranking is stable: of two that neither outranks the other, the earlier
/// record stays before the later.
pub proof fn lemma_equals_keep_their_order(records: Seq<CompetenceRecord>, n: nat)
    requires
        n <= records.len() <= usize::MAX,
    ensures
        forall|i: int, j: int|
            0 <= i < j < n && !outranks(
                records[#[trigger] ranking(records, n)[i] as int],
                records[#[trigger] ranking(records, n)[j] as int],
            ) ==> ranking(records, n)[i] < ranking(records, n)[j],
    decreases n,
{
    if n > 0 {
        lemma_equals_keep_their_order(records, (n - 1) as nat);
        lemma_ranking(records, (n - 1) as nat);
        lemma_ranking(records, n);
        let rest = ranking(records, (n - 1) as nat);
        let newcomer = records[n - 1];
        lemma_slot(records, rest, newcomer, rest.len());
        let k = slot(records, rest, newcomer, rest.len()) as int;
        let all = ranking(records, n);
        assert forall|i: int, j: int|
            0 <= i < j < n && !outranks(
                records[#[trigger] all[i] as int],
                records[#[trigger] all[j] as int],
            ) implies all[i] < all[j] by {
            let a = if i < k {
                i
            } else {
                i - 1
            };
            let b = if j < k {
                j
            } else {
                j - 1
            };
            if i != k && j != k {
                assert(all[i] == rest[a] && all[j] == rest[b]);
            } else if i == k {
                assert(all[j] == rest[b]);
                assert(outranks(newcomer, records[rest[b] as int]));
            } else {
                assert(all[i] == rest[a]);
            }
        }
    }
}

/// Every record is ranked, and none twice.
pub proof fn lemma_everyone_is_ranked(records: Seq<CompetenceRecord>, n: nat)
    requires
        n <= records.len() <= usize::MAX,
    ensures
        ranking(records, n).len() == n,
        ranking(records, n).no_duplicates(),
        forall|i: int| 0 <= i < n ==> ranking(records, n).contains(#[trigger] (i as usize)),
    decreases n,
{
    if n > 0 {
        lemma_everyone_is_ranked(records, (n - 1) as nat);
        lemma_ranking(records, (n - 1) as nat);
        lemma_ranking(records, n);
        let rest = ranking(records, (n - 1) as nat);
        lemma_slot(records, rest, records[n - 1], rest.len());
        let k = slot(records, rest, records[n - 1], rest.len()) as int;
        let all = ranking(records, n);
        assert(all[k] == n - 1);
        assert forall|i: int, j: int| 0 <= i < n && 0 <= j < n && i != j implies all[i]
            != all[j] by {
            let a = if i < k {
                i
            } else {
                i - 1
            };
            let b = if j < k {
                j
            } else {
                j - 1
            };
            if i != k {
                assert(all[i] == rest[a] && rest[a] < n - 1);
            }
            if j != k {
                assert(all[j] == rest[b] && rest[b] < n - 1);
            }
        }
        assert forall|i: int| 0 <= i < n implies all.contains(#[trigger] (i as usize)) by {
            if i < n - 1 {
                assert(rest.contains(i as usize));
                let a = choose|a: int| 0 <= a < rest.len() && rest[a] == i as usize;
                if a < k {
                    assert(all[a] == i as usize);
                } else {
                    assert(all[a + 1] == i as usize);
                }
            }
        }
    }
}

} // verus!
