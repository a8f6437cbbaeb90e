//! The parts of the simulation, one at a time.

use ertw::actuation::nearest_neighbor;
use ertw::actuation::spawn_structure;
use ertw::binary32::num;
use ertw::binary32::Binary32;
use ertw::components::valid_energy_amount;
use ertw::components::AgentMarker;
use ertw::components::EnergyFlow;
use ertw::components::EnergyLedger;
use ertw::components::ImpulseAccum;
use ertw::components::Node;
use ertw::components::NodeRng;
use ertw::components::Physical;
use ertw::components::Tags;
use ertw::components::Yield;
use ertw::economy::drain_rate;
use ertw::economy::transfer_energy;
use ertw::economy::volatile_trap_discharge;
use ertw::evaluator::finite_metric;
use ertw::evaluator::rank;
use ertw::evaluator::CompetenceRecord;
use ertw::fields::Drift;
use ertw::fields::seeded_rng;
use ertw::fields::FieldSample;
use ertw::fields::FieldSampler;
use ertw::fields::MagneticPair;
use ertw::fields::Noise;
use ertw::fields::SimSeed;
use ertw::fragmentation::accumulate_collision_damage;
use ertw::fragmentation::can_fragment;
use ertw::fragmentation::daughter_count;
use ertw::fragmentation::limited_count;
use ertw::fragmentation::queue_fragment;
use ertw::fragmentation::queue_fragment_with_share;
use ertw::fragmentation::run_fragmentation;
use ertw::fragmentation::transfer_to_killers;
use ertw::fragmentation::Contact;
use ertw::fragmentation::DaughterDraw;
use ertw::fragmentation::Fracture;
use ertw::fragmentation::FragmentQueue;
use ertw::genesis::ChunkManager;
use ertw::genesis::chunk_of;
use ertw::interface::action::ActionTensor;
use ertw::interface::vector::Vec2Lite;
use ertw::lineage::child_seed;
use ertw::lineage::child_tuning;
use ertw::lineage::AgentSnapshot;
use ertw::lineage::BirthDraw;
use ertw::render::inspected;
use ertw::render::kind_label;
use ertw::render::pan;
use ertw::render::panel;
use ertw::render::parade_agent;
use ertw::render::parade_position;
use ertw::render::pip_length;
use ertw::render::ring_radius;
use ertw::render::tag_color;
use ertw::render::zoom;
use ertw::render::PanKeys;
use ertw::render::SimControl;
use ertw::snapshot::WorldSnapshot;
use ertw::spatial_hash::is_reachable;
use ertw::spatial_hash::Cell;
use ertw::spatial_hash::SpatialHash;
use ertw::spatial_hash::CELL_SIZE;
use ertw::tags::CustomTags;
use ertw::tags::TagMutation;
use ertw::tags::AGENT;
use ertw::tags::CLAMP_CAPABLE;
use ertw::tags::SHELTER;
use ertw::tags::THERMAL_VENT;
use ertw::tags::VOLATILE_TRAP;
use ertw::world::action_cost;
use rand::rngs::StdRng;
use rand::Rng;
use rand::SeedableRng;
use rand_chacha::ChaCha8Rng;

fn n(x: f32) -> Binary32 {
    Binary32 { bits: x.to_bits() }
}

fn f(x: Binary32) -> f32 {
    f32::from_bits(x.bits)
}

fn vec2(x: f32, y: f32) -> Vec2Lite {
    Vec2Lite { x: n(x), y: n(y) }
}

fn body(mass: f32, structure: f32, energy: f32) -> Physical {
    Physical { mass: n(mass), structure: n(structure), energy: n(energy) }
}

/// A node that breaks.
fn victim(entity: u64, energy: f32, mass: f32, structure: f32) -> Node {
    let mut node = Node::bare(entity, vec2(0.0, 0.0));
    node.physical = Some(body(mass, structure, energy));
    node.yield_thresh = Some(Yield(n(structure)));
    node.tags = Some(Tags(CustomTags::from_bits(0)));
    node.impulse = Some(ImpulseAccum { value: n(0.0), source: None });
    node.ledger = Some(EnergyLedger::opened(0));
    node.node_rng = Some(NodeRng(0xCAFE));
    node
}

fn killer(entity: u64, energy: f32) -> Node {
    let mut node = victim(entity, energy, 1.0, 8.0);
    node.tags = Some(Tags(CustomTags::from_bits(AGENT)));
    node.node_rng = Some(NodeRng(0xBEEF));
    node.marker = Some(AgentMarker { generation: 0, lineage: 1, controller: 1 });
    node
}

fn still() -> Vec<DaughterDraw> {
    let mutation = TagMutation { happens: false, bit: 0, sets: false };
    (0..3).map(|_| DaughterDraw { direction: vec2(1.0, 0.0), mutation }).collect()
}

#[test]
fn energy_transactions_reject_non_finite_amounts() {
    let mut physical = Physical { energy: n(10.0), ..Physical::default() };
    let mut ledger = EnergyLedger::default();
    assert_eq!(f(ledger.credit(&mut physical, EnergyFlow::Harvested, n(f32::NAN))), 0.0);
    assert_eq!(
        f(ledger.debit_available(&mut physical, EnergyFlow::Actuation, n(f32::INFINITY))),
        0.0
    );
    assert_eq!(f(physical.energy), 10.0);
    assert_eq!(f(ledger.harvested), 0.0);
    assert_eq!(f(ledger.spent_on_actuation), 0.0);
}

#[test]
fn energy_transactions_balance() {
    for (initial, credit, requested) in
        [(0.0f32, 0.0f32, 0.0f32), (10.0, 2.5, 4.0), (1.0, 0.25, 99.0), (1000.0, 3.0, 0.1)]
    {
        let mut physical = Physical { energy: n(initial), ..Physical::default() };
        let mut ledger = EnergyLedger::default();
        let credited = f(ledger.credit(&mut physical, EnergyFlow::Harvested, n(credit)));
        let debited =
            f(ledger.debit_available(&mut physical, EnergyFlow::Actuation, n(requested)));
        assert_eq!(f(ledger.harvested), credited);
        assert_eq!(f(ledger.spent_on_actuation), debited);
        assert!(f(physical.energy) >= 0.0);
        let expected = initial + credited - debited;
        assert!((f(physical.energy) - expected).abs() <= expected.max(1.0) * f32::EPSILON);
    }
}

#[test]
fn exact_debits_take_all_or_nothing() {
    let mut physical = Physical { energy: n(3.0), ..Physical::default() };
    let mut ledger = EnergyLedger::default();
    assert!(!ledger.debit_exact(&mut physical, EnergyFlow::Fabrication, n(3.5)));
    assert_eq!(f(physical.energy), 3.0);
    assert!(ledger.debit_exact(&mut physical, EnergyFlow::Fabrication, n(3.0)));
    assert_eq!(f(physical.energy), 0.0);
    assert_eq!(f(ledger.invested_in_fabrication), 3.0);
    assert_eq!(f(valid_energy_amount(n(-1.0))), 0.0);
    let mut full = Physical { energy: n(1.0), ..Physical::default() };
    assert_eq!(f(ledger.drain(&mut full, n(2.5))), 2.5);
    assert_eq!(f(full.energy), -1.5);
    assert_eq!(f(ledger.dissipated), 2.5);
}

#[test]
fn consumption_transfer_runs_through_fragmentation_helper() {
    let mut q = FragmentQueue::new();
    q.entities.clear();
    let placeholder = u64::MAX;
    queue_fragment_with_share(placeholder, Some(placeholder), n(5.0), &mut q);
    assert_eq!(q.entities.len(), 1);
    assert!(q.entities[0].killer.is_some());
    assert_eq!(f(q.entities[0].share), 5.0);
    queue_fragment_with_share(placeholder, None, n(1.0), &mut q);
    assert_eq!(q.entities.len(), 1);
}

#[test]
fn fragmentation_conserves_mass_and_energy_without_killer() {
    let mut queue = FragmentQueue::new();
    let nodes = vec![victim(1, 12.0, 6.0, 4.0)];
    queue_fragment(1, None, &mut queue);
    let (gone, born) = run_fragmentation(&nodes, &mut queue, &vec![still()]);
    assert_eq!(gone, vec![1]);
    let total_child_energy: f32 = born.iter().map(|d| f(d.physical.unwrap().energy)).sum();
    let total_child_mass: f32 = born.iter().map(|d| f(d.physical.unwrap().mass)).sum();
    assert!(
        (total_child_energy - 12.0).abs() < 1e-3,
        "conservation: child energy total {} != parent 12.0",
        total_child_energy
    );
    assert!(
        (total_child_mass - 6.0).abs() < 1e-3,
        "conservation: child mass total {} != parent 6.0",
        total_child_mass
    );
    assert!(queue.entities.is_empty());
}

#[test]
fn consumption_transfers_half_victim_energy_to_killer() {
    let mut victim_phys = body(6.0, 4.0, 10.0);
    let mut killer_phys = body(1.0, 8.0, 0.0);
    let untouched = victim_phys;
    let share = transfer_energy(&mut victim_phys, &mut killer_phys);
    let mut killer_ledger = EnergyLedger::default();
    killer_ledger.consumed_from_others = killer_ledger.consumed_from_others.plus(share);
    assert_eq!(f(untouched.energy), 10.0);
    assert_eq!(f(victim_phys.energy), 5.0);
    assert_eq!(f(killer_phys.energy), 0.0 + 5.0);
    assert_eq!(f(killer_ledger.consumed_from_others), 0.0 + 5.0);

    let mut r = StdRng::seed_from_u64(0xCAFE ^ 0x9E37_79B9);
    let n_daughters = r.gen_range(2..=3);
    let total_daughters: f32 = (0..n_daughters).map(|_| 5.0_f32 / n_daughters as f32).sum();
    assert!((total_daughters - 5.0).abs() < 1e-4);

    // The same through the systems: the killer's half and the daughters' half.
    let mut nodes = vec![victim(1, 10.0, 6.0, 0.5), killer(2, 0.0)];
    nodes[0].yield_thresh = Some(Yield(n(4.0)));
    let mut queue = FragmentQueue::new();
    let contact = Contact { first: 1, second: 2, impulse: n(9.0) };
    accumulate_collision_damage(&mut nodes, &[contact], &mut queue);
    assert_eq!(queue.entities.len(), 1);
    assert_eq!(queue.entities[0].killer, Some(2));
    assert_eq!(f(queue.entities[0].share), 5.0);
    transfer_to_killers(&mut nodes, &queue);
    assert_eq!(f(nodes[1].physical.unwrap().energy), 5.0);
    assert_eq!(f(nodes[1].ledger.unwrap().consumed_from_others), 5.0);
    let (_, born) = run_fragmentation(&nodes, &mut queue, &vec![still()]);
    let daughters: f32 = born.iter().map(|d| f(d.physical.unwrap().energy)).sum();
    assert!((daughters - 5.0).abs() < 1e-4);
}

#[test]
fn daughters_are_counted_by_the_standard_generator() {
    for seed in 0..40u64 {
        let mut r = StdRng::seed_from_u64(seed ^ 0x9E37_79B9);
        let expected: i32 = r.gen_range(2..=3);
        let count = daughter_count(body(6.0, 4.0, 1.0), Yield(n(4.0)), NodeRng(seed));
        assert_eq!(count as i32, expected);
    }
    assert_eq!(limited_count(body(6.0, 4.0, 1.0), Yield(n(1.2)), 3), 2);
    assert_eq!(limited_count(body(6.0, 4.0, 1.0), Yield(n(1.5)), 3), 3);
}

#[test]
fn undersized_nodes_leave_no_daughters() {
    assert!(!can_fragment(body(0.09, 4.0, 1.0), Yield(n(4.0))));
    assert!(!can_fragment(body(1.0, 4.0, 1.0), Yield(n(0.9))));
    assert!(can_fragment(body(0.1, 1.0, 1.0), Yield(n(1.0))));
    let mut queue = FragmentQueue::new();
    let nodes = vec![victim(1, 12.0, 6.0, 0.5)];
    queue_fragment(1, None, &mut queue);
    let (gone, born) = run_fragmentation(&nodes, &mut queue, &vec![still()]);
    assert_eq!(gone, vec![1]);
    assert!(born.is_empty());
}

#[test]
fn rubble_is_inert() {
    let mut queue = FragmentQueue::new();
    let mut node = victim(1, 12.0, 6.0, 4.0);
    node.tags = Some(Tags(CustomTags::from_bits(AGENT | CLAMP_CAPABLE | SHELTER)));
    queue_fragment(1, None, &mut queue);
    let mut draws = still();
    draws[0].mutation = TagMutation { happens: true, bit: 1, sets: true };
    let (_, born) = run_fragmentation(&vec![node], &mut queue, &vec![draws]);
    for daughter in born {
        assert!(!daughter.tagged(AGENT));
        assert!(!daughter.tagged(CLAMP_CAPABLE));
        assert!(daughter.marker.is_none());
        assert_eq!(f(daughter.conductivity.unwrap().0), 0.2);
    }
}

#[test]
fn stress_fades_and_breaks_nothing_below_the_threshold() {
    let mut nodes = vec![victim(1, 12.0, 6.0, 4.0), victim(2, 12.0, 6.0, 4.0)];
    let mut queue = FragmentQueue::new();
    let contact = Contact { first: 1, second: 2, impulse: n(2.0) };
    accumulate_collision_damage(&mut nodes, &[contact], &mut queue);
    assert_eq!(f(nodes[0].impulse.unwrap().value), 2.0);
    assert_eq!(nodes[0].impulse.unwrap().source, Some(2));
    accumulate_collision_damage(&mut nodes, &[], &mut queue);
    assert_eq!(f(nodes[0].impulse.unwrap().value), 2.0f32 * 0.92);
    for _ in 0..200 {
        accumulate_collision_damage(&mut nodes, &[], &mut queue);
    }
    assert_eq!(f(nodes[0].impulse.unwrap().value), 0.0);
    assert_eq!(nodes[0].impulse.unwrap().source, None);
    assert_eq!(f(nodes[0].physical.unwrap().structure), 4.0);
    assert!(queue.entities.is_empty());
}

fn at(entity: u64, x: f32, y: f32) -> Node {
    Node::bare(entity, vec2(x, y))
}

#[test]
fn query_radius_includes_all_within_no_far_outsiders() {
    let (near1, near2, far, very_far) = (1, 2, 3, 4);
    let mut nodes = vec![at(near1, 1.0, 0.0), at(near2, 2.5, -1.5), at(far, 50.0, 50.0)];
    let mut h = SpatialHash::new();
    h.rebuild_from_state(&nodes);

    let mut out = Vec::new();
    h.query_radius(vec2(0.0, 0.0), n(5.0), &mut out);
    assert!(out.contains(&near1), "near1 should be in radius 5.0");
    assert!(out.contains(&near2), "near2 should be in radius 5.0");
    assert!(!out.contains(&far), "far must not be in radius 5.0");

    nodes.push(at(very_far, 100.0, 0.0));
    h.rebuild_from_state(&nodes);
    let mut out2 = Vec::new();
    h.query_radius(vec2(0.0, 0.0), n(5.0), &mut out2);
    assert!(!out2.contains(&very_far));
    assert_eq!(h.occupied_cells(), 4);
}

#[test]
fn rebuild_clears_stale_entries() {
    let mut nodes = vec![at(9, 0.0, 0.0)];
    let mut h = SpatialHash::new();
    h.rebuild_from_state(&nodes);
    let mut out = Vec::new();
    h.query_radius(vec2(0.0, 0.0), n(10.0), &mut out);
    assert!(out.contains(&9));

    nodes.clear();
    h.rebuild_from_state(&nodes);
    let mut out2 = Vec::new();
    h.query_radius(vec2(0.0, 0.0), n(10.0), &mut out2);
    assert!(!out2.contains(&9), "stale entity must not survive a rebuild");
}

#[test]
fn cell_assignment_is_deterministic() {
    let a = Cell::from_pos(vec2(3.0, 7.0));
    let b = Cell::from_pos(vec2(3.0, 7.0));
    assert_eq!(a, b, "same input must yield the same cell");
    let c = Cell::from_pos(vec2(8.0, 7.0));
    assert_ne!(a, c, "distinct cells must hash to distinct Cell values");
    let d = Cell::from_pos(vec2(3.0, 7.0 + f32::from_bits(CELL_SIZE)));
    assert_ne!(a, d, "different y cells must also differ");
    assert_eq!(Cell::from_pos(vec2(-0.5, -4.0)), Cell { x: -1, y: -1 });
}

#[test]
fn nobody_within_the_radius_is_missed() {
    let mut rng = StdRng::seed_from_u64(5);
    let nodes: Vec<Node> = (0..200)
        .map(|i| {
            let x: f32 = rng.gen_range(-40.0..40.0);
            let y: f32 = rng.gen_range(-40.0..40.0);
            at(i, x, y)
        })
        .collect();
    let mut h = SpatialHash::new();
    h.rebuild_from_state(&nodes);
    for radius in [0.5f32, 3.9, 4.0, 7.25, 12.0] {
        for center in &nodes {
            let mut out = Vec::new();
            h.query_radius(center.position, n(radius), &mut out);
            for other in &nodes {
                let dx = f(other.position.x) - f(center.position.x);
                let dy = f(other.position.y) - f(center.position.y);
                if dx.abs() <= radius && dy.abs() <= radius {
                    assert!(out.contains(&other.entity));
                }
            }
        }
    }
    assert!(!is_reachable(vec2(1.0e10, 0.0), n(5.0)));
    assert!(is_reachable(vec2(1.0e9, 0.0), n(5.0)));
}

#[test]
fn clamps_reach_for_the_nearest_body() {
    let mut nodes = vec![victim(1, 1.0, 1.0, 1.0), victim(2, 1.0, 1.0, 1.0), victim(3, 1.0, 1.0, 1.0)];
    nodes[1].position = vec2(3.0, 0.0);
    nodes[2].position = vec2(-2.0, 0.0);
    nodes.push(at(4, 0.5, 0.0));
    let mut h = SpatialHash::new();
    h.rebuild_from_state(&nodes);
    assert_eq!(nearest_neighbor(&nodes, &h, 1, vec2(0.0, 0.0)), Some(3));
    nodes[1].position = vec2(13.0, 0.0);
    nodes.remove(2);
    h.rebuild_from_state(&nodes);
    assert_eq!(nearest_neighbor(&nodes, &h, 1, vec2(0.0, 0.0)), None);
    let shelter = spawn_structure(vec2(1.0, 0.0), n(0.5), n(3.0));
    assert!(shelter.tagged(SHELTER));
    assert_eq!(f(shelter.physical.unwrap().structure), 12.0);
}

#[test]
fn rank_is_stable_for_dead_records_and_non_finite_metrics() {
    let records = [
        CompetenceRecord {
            alive: false,
            survival_steps: 100,
            energy_accumulated: n(2.0),
            ..CompetenceRecord::default()
        },
        CompetenceRecord {
            alive: true,
            survival_steps: 80,
            energy_accumulated: n(100.0),
            ..CompetenceRecord::default()
        },
        CompetenceRecord {
            alive: false,
            survival_steps: 100,
            energy_accumulated: n(f32::NAN),
            ..CompetenceRecord::default()
        },
    ];
    assert_eq!(rank(&records), vec![0, 2, 1]);
}

#[test]
fn ranking_goes_by_survival_generation_and_energy() {
    let record = |survival_steps: u32, generation: u32, energy: f32| CompetenceRecord {
        survival_steps,
        generation,
        energy_accumulated: n(energy),
        ..CompetenceRecord::default()
    };
    let records = [
        record(5, 0, 1.0),
        record(5, 2, -1.0),
        record(9, 0, 0.0),
        record(5, 0, 1.0),
        record(5, 0, 3.0),
    ];
    assert_eq!(rank(&records), vec![2, 1, 4, 0, 3]);
    assert_eq!(f(finite_metric(n(f32::INFINITY))), f32::MIN);
    let ledger = EnergyLedger {
        harvested: n(2.0),
        consumed_from_others: n(3.0),
        vented: n(4.0),
        born_step: 7,
        ..EnergyLedger::default()
    };
    let made = CompetenceRecord::from_ledger(1, 2, 3, 10, &ledger);
    assert_eq!(made.survival_steps, 3);
    assert_eq!(f(made.energy_accumulated), 9.0);
    let outcome = AgentSnapshot { alive: false, step: 4, born_step: 9, ..AgentSnapshot::default() };
    assert_eq!(CompetenceRecord::from_snapshot(outcome).survival_steps, 0);
}

#[test]
fn field_seeds_come_from_the_seeded_streams() {
    for seed in [0u64, 1, 42, u64::MAX] {
        let mut r = ChaCha8Rng::seed_from_u64(seed);
        let k: u64 = r.gen();
        let t: u64 = r.gen();
        let e: u64 = r.gen();
        let kinetic: u32 = ChaCha8Rng::seed_from_u64(k).gen();
        let thermal: u32 = ChaCha8Rng::seed_from_u64(t).gen();
        let em: u32 = ChaCha8Rng::seed_from_u64(e).gen();
        let sampler = FieldSampler::from_world(SimSeed(seed));
        assert_eq!(sampler.kinetic_seed, kinetic);
        assert_eq!(sampler.thermal_seed, thermal);
        assert_eq!(sampler.em_seed, em);
    }
    assert_eq!(seeded_rng(SimSeed(5), 0), 5);
}

#[test]
fn fields_stay_in_their_bands() {
    let mut sampler = FieldSampler::with_seeds(1, 2, 3);
    let angles = sampler.set_time(n(30.0));
    assert!((f(angles.thermal) - std::f32::consts::FRAC_PI_2).abs() < 1e-5);
    sampler.refresh_drift(ertw::fields::Drift { kinetic: n(1.0), thermal: n(1.0), em: n(1.0) });
    let high = sampler.sample(Noise { kinetic: n(9.0), thermal: n(9.0), em: n(9.0) });
    assert_eq!(f(high.kinetic), 2.0);
    assert_eq!(f(high.em), 1.5);
    let low = sampler.sample(Noise { kinetic: n(-9.0), thermal: n(-9.0), em: n(-9.0) });
    assert_eq!(f(low.kinetic), 0.0);
    assert_eq!(f(low.thermal), -1.0);
    assert_eq!(f(low.em), -1.5);
    assert!(sampler.is_em_spike(Noise { kinetic: n(0.0), thermal: n(0.0), em: n(1.0) }));
    assert!(!sampler.is_em_spike(Noise { kinetic: n(0.0), thermal: n(0.0), em: n(0.0) }));
}

#[test]
fn magnetic_forces_follow_the_field() {
    let pair = MagneticPair {
        first: 1,
        second: 2,
        delta: vec2(2.0, 0.0),
        distance_squared: n(4.0),
        midpoint: vec2(1.0, 0.0),
    };
    let field = FieldSample { kinetic: n(0.0), thermal: n(0.0), em: n(0.5) };
    let pull = pair.force(field);
    assert_eq!(f(pull.x), 1.2 / 4.0);
    let push = pair.force(FieldSample { em: n(-0.5), ..field });
    assert_eq!(f(push.x), -1.2 / 4.0);
}

#[test]
fn drains_grow_with_heat_and_shrink_with_shelter() {
    let exposed = f(drain_rate(n(0.5), n(1.0), n(0.6)));
    let sheltered = f(drain_rate(n(0.5), n(0.25), n(0.6)));
    assert_eq!(exposed, 0.6 * (1.0 + 0.5 * 1.0) * (0.4 + 0.6 * 0.6));
    assert!(sheltered < exposed);
}

#[test]
fn births_mutate_within_their_bands() {
    let parent = ertw::components::AgentTuning::default();
    let draw = BirthDraw {
        sensor: n(1.04),
        yield_threshold: n(0.96),
        oscillator: n(0.1),
        direction: vec2(1.0, 0.0),
    };
    let child = child_tuning(parent, draw);
    assert_eq!(f(child.sensor_radius), f(parent.sensor_radius) * 1.04);
    assert_eq!(f(child.yield_threshold), f(parent.yield_threshold) * 0.96);
    assert_eq!(f(child.osc_baseline), f(parent.osc_baseline) + 0.1);
    let wild = child_tuning(
        ertw::components::AgentTuning { max_neighbors: 900, ..parent },
        BirthDraw { sensor: n(100.0), yield_threshold: n(0.0), oscillator: n(99.0), ..draw },
    );
    assert_eq!(f(wild.sensor_radius), 32.0);
    assert_eq!(f(wild.yield_threshold), 1.0);
    assert_eq!(f(wild.osc_baseline), 16.0);
    assert_eq!(wild.max_neighbors, 64);
    assert_eq!(child_seed(NodeRng(7), 0), 7);
    assert_eq!(child_seed(NodeRng(7), 1), 7 ^ 0x9E37_79B9_7F4A_7C15);
}

#[test]
fn motion_has_its_price() {
    let action = ertw::interface::action::ActionTensor {
        force: vec2(0.6, 0.8),
        torque: n(-0.5),
        ..ertw::interface::action::ActionTensor::noop()
    };
    assert_eq!(f(action_cost(action)), (vec2_length(0.6, 0.8) + 0.5) * 0.1);
}

fn vec2_length(x: f32, y: f32) -> f32 {
    (x * x + y * y).sqrt()
}

#[test]
fn digests_are_those_of_the_hash() {
    assert_eq!(
        WorldSnapshot::content_hash(b""),
        "af1349b9f5f9a1a6a0404dea36dcc9499bcb25c9adc112b7cc9a93cae41f3262"
    );
    assert_eq!(WorldSnapshot::content_hash(b"abc"), blake3::hash(b"abc").to_hex().to_string());
}

#[test]
fn observers_only_hold_the_simulation() {
    let mut control = SimControl::new(7);
    assert!(control.should_simulate());
    control.paused = true;
    assert!(!control.should_simulate());
    control.request_step();
    assert!(control.should_simulate());
    assert!(control.onestep_active());
    control.consume_step();
    assert!(!control.should_simulate());
}

#[test]
fn nodes_are_drawn_by_tags_structure_and_energy() {
    let blue = tag_color(CustomTags::from_bits(AGENT | THERMAL_VENT));
    assert_eq!((f(blue.red), f(blue.green), f(blue.blue)), (0.3, 0.6, 1.0));
    let vent = tag_color(CustomTags::from_bits(THERMAL_VENT));
    assert_eq!((f(vent.red), f(vent.green), f(vent.blue)), (1.0, 0.4, 0.1));
    let trap = tag_color(CustomTags::from_bits(VOLATILE_TRAP));
    assert_eq!((f(trap.red), f(trap.green), f(trap.blue)), (1.0, 0.1, 0.6));
    let rest = tag_color(CustomTags::from_bits(0));
    assert_eq!((f(rest.red), f(rest.green), f(rest.blue)), (0.6, 0.6, 0.6));
    assert_eq!(f(ring_radius(body(1.0, -3.0, 0.0))), 0.5);
    assert_eq!(f(ring_radius(body(1.0, 99.0, 0.0))), 0.5 + 0.4);
    assert_eq!(f(ring_radius(body(1.0, 5.0, 0.0))), 0.5 + 0.4 * (5.0 / 10.0));
    assert_eq!(f(pip_length(body(1.0, 1.0, 20.0))), 1.0);
    assert_eq!(f(pip_length(body(1.0, 1.0, 200.0))), 3.0);
}

#[test]
fn cameras_pan_and_zoom() {
    let keys = PanKeys { left: true, right: false, up: false, down: false };
    let step = pan(keys, n(0.5));
    assert_eq!((f(step.x), f(step.y)), (-10.0, 0.0));
    let opposed = PanKeys { left: true, right: true, up: true, down: true };
    let stay = pan(opposed, n(0.5));
    assert_eq!((f(stay.x), f(stay.y)), (0.0, 0.0));
    assert_eq!(f(zoom(n(1.0), true, true, n(0.5))), 1.5);
    assert_eq!(f(zoom(n(7.9), true, false, n(0.5))), 8.0);
    assert_eq!(f(zoom(n(1.0), false, true, n(0.5))), 0.75);
    assert_eq!(f(zoom(n(0.21), false, true, n(0.5))), 0.2);
    assert_eq!(f(zoom(n(1.0), false, false, n(0.5))), 1.0);
}

#[test]
fn panels_count_list_and_show_what_is_picked() {
    let mut nodes: Vec<Node> = (0..70).map(|i| victim(100 + i, 3.0, 1.0, 1.0)).collect();
    nodes[1].tags = None;
    let mut agent = parade_agent(3, parade_position(2));
    agent.entity = 7;
    nodes.insert(0, agent);
    let view = panel(Some(7), &nodes);
    assert_eq!(view.agents, 1);
    assert_eq!(view.bodies, 70);
    assert_eq!(view.rows.len(), 64);
    let first = view.rows[0];
    assert!(first.agent && first.picked && first.entity == 7 && f(first.energy) == 20.0);
    assert_eq!(view.rows[1].entity, 100);
    assert_eq!(view.rows[2].entity, 102);
    assert!(!view.rows[1].agent && !view.rows[1].picked);
    assert_eq!(view.selected, Some(7));
    assert_eq!(view.detail, Some(agent));
    let lost = panel(Some(101), &nodes);
    assert_eq!(lost.selected, None);
    assert!(lost.detail.is_none());
    assert!(lost.rows.iter().all(|row| !row.picked));
}

#[test]
fn killers_are_paid_with_or_without_a_ledger() {
    let queue = FragmentQueue {
        entities: vec![
            Fracture { victim: 1, killer: Some(2), share: n(5.0) },
            Fracture { victim: 1, killer: Some(3), share: n(4.0) },
            Fracture { victim: 1, killer: Some(4), share: n(0.0) },
            Fracture { victim: 1, killer: None, share: n(3.0) },
        ],
    };
    let mut bodies = vec![victim(2, 1.0, 1.0, 1.0), victim(3, 1.0, 1.0, 1.0)];
    bodies[0].ledger = None;
    bodies[1].physical = None;
    bodies.push(victim(4, 1.0, 1.0, 1.0));
    let before = bodies[2];
    transfer_to_killers(&mut bodies, &queue);
    assert_eq!(f(bodies[0].physical.unwrap().energy), 6.0);
    assert_eq!(f(bodies[1].ledger.unwrap().consumed_from_others), 4.0);
    assert_eq!(bodies[2], before);
}

#[test]
fn the_inspector_follows_what_is_there() {
    let nodes = vec![parade_agent(3, parade_position(2)), victim(8, 1.0, 1.0, 1.0)];
    assert_eq!(kind_label(nodes[0]), "agent");
    assert_eq!(kind_label(nodes[1]), "node");
    assert!(inspected(Some(8), &nodes).is_some());
    assert!(inspected(Some(9), &nodes).is_none());
    assert!(inspected(None, &nodes).is_none());
    assert_eq!(f(nodes[0].position.x), (2.0 - 3.5) * 3.0);
    assert_eq!(f(nodes[0].position.y), 0.0);
    assert_eq!(f(parade_position(3).y), 2.0);
    assert_eq!(f(nodes[0].physical.unwrap().mass), 0.8);
    assert_eq!(nodes[0].node_rng, Some(NodeRng(3 * 0x9E37_79B1)));
    assert_eq!(nodes[0].yield_thresh, Some(Yield(num(0x4100_0000))));
}

#[test]
fn shortened_forces_are_no_longer_than_one() {
    let cases = [(3.0e38, 3.0e38), (1.0e-30, 7.0), (0.8, 0.7), (-3.0, 4.0), (1.0, 0.0)];
    for (x, y) in cases {
        let mut action =
            ActionTensor { force: Vec2Lite { x: n(x), y: n(y) }, ..ActionTensor::noop() };
        action.sanitize();
        let (a, b) = (f64::from(f(action.force.x)), f64::from(f(action.force.y)));
        assert!(a * a + b * b <= 1.0 + 1.0 / 262_144.0);
    }
}

#[test]
fn drift_is_in_no_gradient() {
    let still = FieldSampler::from_world(SimSeed(5));
    let mut drifted = still;
    drifted.refresh_drift(Drift { kinetic: n(1.0), thermal: n(0.5), em: n(-0.25) });
    let noise = |k: f32, t: f32, e: f32| Noise { kinetic: n(k), thermal: n(t), em: n(e) };
    let (center, right, above) =
        (noise(0.0, 0.25, -0.5), noise(1.0, 0.5, 0.25), noise(-0.5, 0.0, 0.5));
    let (here, slopes) = still.sample_with_gradient(center, right, above, n(0.05));
    let (there, same) = drifted.sample_with_gradient(center, right, above, n(0.05));
    assert_eq!(f(here.kinetic), 0.5);
    assert_eq!(f(there.kinetic), 0.5 * f(drifted.kinetic_scale));
    assert_eq!(slopes[0], same[0]);
    assert!((f(slopes[0].x) - 10.0).abs() < 1.0e-4);
    for field in 1..3 {
        assert!((f(slopes[field].x) - f(same[field].x)).abs() < 1.0e-4);
        assert!((f(slopes[field].y) - f(same[field].y)).abs() < 1.0e-4);
    }
}

#[test]
fn planning_activates_nothing() {
    let mut chunks = ChunkManager::new(9);
    let offsets = vec![Vec2Lite { x: n(2.0), y: n(3.0) }; 8];
    let plan = chunks.spawn_plan(2, 1, &offsets);
    assert_eq!(plan.len(), 8);
    assert!(chunks.active_chunks().is_empty());
    let again = chunks.spawn_plan(2, 1, &offsets);
    assert_eq!(plan, again);
    chunks.activate_grid(2, 1);
    assert_eq!(chunks.active_chunks(), vec![(0, 0), (1, 0)]);
}

#[test]
fn terrain_stays_in_its_chunk() {
    let chunks = ChunkManager::new(77);
    let edge = |x: f32, y: f32| Vec2Lite { x: n(x), y: n(y) };
    let jitter = [edge(0.5, -0.5), edge(-0.5, 0.5), edge(0.25, 0.0), edge(-0.5, -0.5), edge(0.5, 0.5)];
    let insets = [(8.0, 8.0), (24.0, 8.0), (8.0, 24.0), (24.0, 24.0), (16.0, 16.0)];
    for (cx, cy) in [(0, 0), (-3, 5), (262_143, -262_144), (4_194_303, -4_194_304)] {
        for (spawn, (x, y)) in chunks.terrain_plan_for_chunk(cx, cy, &jitter).iter().zip(insets) {
            let place = (f64::from(cx) * 32.0 + x, f64::from(cy) * 32.0 + y);
            assert!((f64::from(f(spawn.pos.x)) - place.0).abs() <= 0.5);
            assert!((f64::from(f(spawn.pos.y)) - place.1).abs() <= 0.5);
            assert_eq!(chunk_of(spawn.pos), (cx, cy));
        }
    }
}

#[test]
fn traps_reach_agents_within_their_range_only() {
    let body = |entity: u64, x: f32, energy: f32, tags: u64| {
        let mut node = Node::bare(entity, Vec2Lite { x: n(x), y: n(0.0) });
        node.physical = Some(Physical { mass: n(1.0), structure: n(8.0), energy: n(energy) });
        node.ledger = Some(EnergyLedger::opened(0));
        node.tags = Some(Tags(CustomTags::from_bits(tags)));
        node
    };
    let mut nodes = vec![
        body(1, 0.0, 12.0, VOLATILE_TRAP),
        body(2, 2.0, 1.0, AGENT),
        body(3, -4.0, 1.0, AGENT),
        body(4, 8.0, 1.0, AGENT),
        body(5, 8.5, 1.0, AGENT),
        body(6, 1.0, 1.0, SHELTER),
    ];
    let mut hash = SpatialHash::new();
    hash.rebuild_from_state(&nodes);
    let mut near = Vec::new();
    hash.query_radius(nodes[0].position, n(8.0), &mut near);
    assert!(near.contains(&5));
    near.sort();
    near.dedup();
    assert_eq!(near.len(), 6);

    let sampler = FieldSampler::from_world(SimSeed(1));
    let spike = Noise { kinetic: n(0.0), thermal: n(0.0), em: n(1.4) };
    volatile_trap_discharge(&mut nodes, &hash, sampler, &[spike; 6]);
    let energy = |i: usize| f(nodes[i].physical.unwrap().energy);
    assert_eq!(energy(0), 6.0);
    assert_eq!(energy(4), 1.0);
    assert_eq!(energy(5), 1.0);
    assert!((energy(1) - 1.0 - 6.0 * 4.0 / 7.0).abs() < 1.0e-5);
    assert!((energy(2) - 1.0 - 6.0 * 2.0 / 7.0).abs() < 1.0e-5);
    assert!((energy(3) - 1.0 - 6.0 / 7.0).abs() < 1.0e-5);
    let total: f32 = (0..6).map(energy).sum();
    assert!((total - 17.0).abs() < 1.0e-4);
}
