//! Whole steps on a world without a physics engine: bodies stay where they are
//! put, and contacts are handed in.

use ertw::actuation::apply_actuators;
use ertw::actuation::cleanup_clamp_joints;
use ertw::actuation::despawn_physical_entities;
use ertw::actuation::Effect;
use ertw::actuation::CLAMP_COOLDOWN;
use ertw::actuation::FABRICATE_ENERGY_COST;
use ertw::actuation::FABRICATE_MASS_COST;
use ertw::agents::build_observation;
use ertw::agents::is_alive;
use ertw::agents::probe_angle;
use ertw::agents::probe_position;
use ertw::agents::Agent;
use ertw::agents::Probe;
use ertw::agents::WorldAgents;
use ertw::agents::GRADIENT_EPSILON;
use ertw::binary32::num;
use ertw::binary32::Binary32;
use ertw::components::find;
use ertw::components::lookup;
use ertw::components::AgentTuning;
use ertw::components::ChunkOrigin;
use ertw::components::ClampJoint;
use ertw::components::ClampState;
use ertw::components::Conductivity;
use ertw::components::EnergyLedger;
use ertw::components::Node;
use ertw::components::NodeRng;
use ertw::components::Physical;
use ertw::components::StableId;
use ertw::components::Tags;
use ertw::components::Yield;
use ertw::economy::kinetic_harvest;
use ertw::economy::run_deaths;
use ertw::economy::thermodynamic_drain;
use ertw::economy::volatile_trap_discharge;
use ertw::fields::advance_fields;
use ertw::fields::apply_field_forces;
use ertw::fields::magnetic_pairs;
use ertw::fields::Drift;
use ertw::fields::FieldSample;
use ertw::fields::FieldSampler;
use ertw::fields::Noise;
use ertw::fragmentation::accumulate_collision_damage;
use ertw::fragmentation::run_fragmentation;
use ertw::fragmentation::transfer_to_killers;
use ertw::fragmentation::Contact;
use ertw::fragmentation::DaughterDraw;
use ertw::genesis::spawn_genesis_node;
use ertw::genesis::stream_chunks;
use ertw::genesis::GenesisAgent;
use ertw::genesis::StreamPlan;
use ertw::genesis::TerrainKind;
use ertw::genesis::TerrainSpawn;
use ertw::interface::action::ActionTensor;
use ertw::interface::observation::ObservationTensor;
use ertw::interface::vector::Rotation;
use ertw::interface::vector::Vec2Lite;
use ertw::lineage::child_seed;
use ertw::lineage::collect_competence;
use ertw::lineage::record_agent_history;
use ertw::lineage::reproduce_agents;
use ertw::lineage::BirthDraw;
use ertw::lineage::REPRODUCTION_SURPLUS_SECONDS;
use ertw::snapshot::capture;
use ertw::snapshot::ensure_stable_ids;
use ertw::snapshot::restoration::RestoreError;
use ertw::snapshot::restore;
use ertw::snapshot::WorldSnapshot;
use ertw::tags::TagMutation;
use ertw::tags::ENERGY_CONVERTIBLE;
use ertw::tags::SHELTER;
use ertw::tags::CustomTags;
use ertw::tick::schedule;
use ertw::tick::Phase;
use ertw::world::advance_sim_clock;
use ertw::world::apply_agent_actions;
use ertw::world::gather_agent_actions;
use ertw::world::is_sighted;
use ertw::world::rebuild_spatial_hash;
use ertw::world::ErtwWorld;
use noise::NoiseFn;
use noise::Perlin;
use rand::rngs::StdRng;
use rand::Rng;
use rand::SeedableRng;

fn n(x: f32) -> Binary32 {
    Binary32 { bits: x.to_bits() }
}

fn f(x: Binary32) -> f32 {
    f32::from_bits(x.bits)
}

fn vec2(x: f32, y: f32) -> Vec2Lite {
    Vec2Lite { x: n(x), y: n(y) }
}

/// The controllers of these tests.
#[derive(Clone, Debug, PartialEq)]
enum Policy {
    Null,
    Passive,
    Fabricator,
    ClampOnce { first: bool },
    ClampHold,
    Breeder,
}

impl Agent for Policy {
    fn act(&mut self, _observation: &ObservationTensor) -> ActionTensor {
        let idle = ActionTensor::noop();
        match self {
            Policy::Null | Policy::Breeder => idle,
            Policy::Passive => ActionTensor { osc_freq: n(1.0), ..idle },
            Policy::Fabricator => ActionTensor { fabricate: n(1.0), osc_freq: n(1.0), ..idle },
            Policy::ClampOnce { first } => {
                let clamp = if *first { 1.0 } else { 0.0 };
                *first = false;
                ActionTensor { clamp: n(clamp), osc_freq: n(1.0), ..idle }
            }
            Policy::ClampHold => ActionTensor { clamp: n(1.0), osc_freq: n(1.0), ..idle },
        }
    }

    fn on_reset(&mut self, _seed: u64) {}

    fn spawn_child(&mut self, _seed: u64) -> Option<Policy> {
        match self {
            Policy::Breeder => Some(Policy::Breeder),
            _ => None,
        }
    }
}

/// The noise functions of a world.
struct Substrate {
    kinetic: Perlin,
    thermal: Perlin,
    em: Perlin,
}

impl Substrate {
    fn of(sampler: &FieldSampler) -> Substrate {
        Substrate {
            kinetic: Perlin::new(sampler.kinetic_seed),
            thermal: Perlin::new(sampler.thermal_seed),
            em: Perlin::new(sampler.em_seed),
        }
    }

    fn noise_at(&self, pos: Vec2Lite) -> Noise {
        let at = FieldSampler::lattice_point(pos);
        let p = [f(at.x) as f64, f(at.y) as f64];
        Noise {
            kinetic: n(self.kinetic.get(p) as f32),
            thermal: n(self.thermal.get(p) as f32),
            em: n(self.em.get(p) as f32),
        }
    }
}

/// A world, and the numbers that its engine gives out.
struct Simulation<A> {
    world: ErtwWorld<A>,
    substrate: Substrate,
    next: u64,
}

fn sines(angles: Drift) -> Drift {
    Drift {
        kinetic: n(f(angles.kinetic).sin()),
        thermal: n(f(angles.thermal).sin()),
        em: n(f(angles.em).sin()),
    }
}

fn jitter(seed: u64) -> [Vec2Lite; 5] {
    let mut rng = StdRng::seed_from_u64(seed);
    let mut draw = || {
        let x: f32 = rng.gen_range(-0.5..0.5);
        let y: f32 = rng.gen_range(-0.5..0.5);
        vec2(x, y)
    };
    [draw(), draw(), draw(), draw(), draw()]
}

impl<A: Agent> Simulation<A> {
    fn new(seed: u64) -> Simulation<A> {
        Simulation::around(ErtwWorld::new(seed), 1)
    }

    fn around(world: ErtwWorld<A>, next: u64) -> Simulation<A> {
        let substrate = Substrate::of(&world.sampler);
        Simulation { world, substrate, next }
    }

    fn sample_at(&self, pos: Vec2Lite) -> FieldSample {
        self.world.sampler.sample(self.substrate.noise_at(pos))
    }

    fn probe_at(&self, pos: Vec2Lite) -> Probe {
        let (center, right, above) = FieldSampler::stencil(pos, num(GRADIENT_EPSILON));
        let (sample, gradients) = self.world.sampler.sample_with_gradient(
            self.substrate.noise_at(center),
            self.substrate.noise_at(right),
            self.substrate.noise_at(above),
            num(GRADIENT_EPSILON),
        );
        Probe {
            sample,
            kinetic_gradient: gradients[0],
            thermal_gradient: gradients[1],
            em_gradient: gradients[2],
        }
    }

    fn probes_around(&self, node: &Node) -> [Probe; 4] {
        let radius = match node.tuning {
            Some(t) => t.sensor_radius,
            None => {
                let blank = self.probe_at(node.position);
                return [blank, blank, blank, blank];
            }
        };
        let at = |s: u32| {
            let direction = if s == 0 {
                None
            } else {
                let angle = f(probe_angle(s));
                Some(vec2(angle.cos(), angle.sin()))
            };
            self.probe_at(probe_position(node.position, node.rotation, radius, direction))
        };
        [at(0), at(1), at(2), at(3)]
    }

    fn number(&mut self) -> u64 {
        self.next += 1;
        self.next
    }

    fn spawn_agent(&mut self, agent: A, pos: Vec2Lite) -> u64 {
        let entity = self.number();
        self.world.spawn_agent(agent, pos, entity);
        entity
    }

    fn spawn(&mut self, node: Node) -> u64 {
        let entity = self.number();
        self.world.nodes.push(Node { entity, ..node });
        entity
    }

    fn node(&self, entity: u64) -> Option<Node> {
        lookup(&self.world.nodes, entity)
    }

    fn edit(&mut self, entity: u64, change: impl Fn(&mut Node)) {
        let i = find(&self.world.nodes, entity).unwrap();
        change(&mut self.world.nodes[i]);
    }

    fn despawn(&mut self, entities: &[u64]) {
        let gone = despawn_physical_entities(entities, &self.world.joints);
        self.world.joints.retain(|(joint, _)| !gone.contains(joint));
        self.world.nodes.retain(|node| !gone.contains(&node.entity));
    }

    fn step(&mut self, steps: u32) {
        for _ in 0..steps {
            self.tick(&[]);
        }
    }

    fn tick(&mut self, contacts: &[Contact]) {
        for phase in schedule(true) {
            self.run(phase, contacts);
        }
    }

    fn noises(&self) -> Vec<Noise> {
        self.world.nodes.iter().map(|node| self.substrate.noise_at(node.position)).collect()
    }

    fn run(&mut self, phase: Phase, contacts: &[Contact]) {
        match phase {
            Phase::AdvanceFields => {
                let angles = advance_fields(&mut self.world.sampler);
                self.world.sampler.refresh_drift(sines(angles));
            }
            Phase::RebuildSpatialHash => {
                rebuild_spatial_hash(&self.world.nodes, &mut self.world.spatial);
            }
            Phase::CleanupClampJoints => {
                let gone = cleanup_clamp_joints(&mut self.world.nodes, &self.world.joints);
                self.world.joints.retain(|(joint, _)| !gone.contains(joint));
            }
            Phase::GatherAgentActions => {
                assert!(self.world.nodes.iter().all(|node| is_sighted(&self.world.nodes, *node)));
                let probes: Vec<[Probe; 4]> = self
                    .world
                    .nodes
                    .iter()
                    .map(|node| self.probes_around(node))
                    .collect();
                self.world.pending = gather_agent_actions(
                    &mut self.world.agents,
                    &self.world.nodes,
                    &self.world.spatial,
                    self.world.clock.step,
                    &probes,
                );
            }
            Phase::ApplyAgentActions => {
                apply_agent_actions(&mut self.world.nodes, &self.world.pending);
            }
            Phase::ApplyActuators => {
                let count = self.world.pending.items.len();
                let joints: Vec<u64> = (0..count).map(|_| self.number()).collect();
                let effects = apply_actuators(
                    &mut self.world.nodes,
                    &self.world.spatial,
                    &self.world.pending.items,
                    &joints,
                );
                for effect in effects {
                    match effect {
                        Effect::Join(joint, ends) => self.world.joints.push((joint, ends)),
                        Effect::Cut(joint) => self.world.joints.retain(|(j, _)| *j != joint),
                        Effect::Spawn(node) => {
                            self.spawn(node);
                        }
                    }
                }
            }
            Phase::ApplyFieldForces => {
                let fields: Vec<FieldSample> = self
                    .world
                    .nodes
                    .iter()
                    .map(|node| self.sample_at(node.position))
                    .collect();
                let pairs = magnetic_pairs(&self.world.nodes, &self.world.spatial);
                let between: Vec<FieldSample> = pairs
                    .iter()
                    .map(|pair| self.sample_at(pair.midpoint))
                    .collect();
                apply_field_forces(&self.world.nodes, &fields, &pairs, &between);
            }
            Phase::ThermodynamicDrain => {
                let noises = self.noises();
                thermodynamic_drain(
                    &mut self.world.nodes,
                    &self.world.spatial,
                    self.world.sampler,
                    &noises,
                    &mut self.world.fragments,
                    &mut self.world.deaths,
                );
            }
            Phase::KineticHarvest => {
                kinetic_harvest(&mut self.world.nodes, &self.world.spatial);
            }
            Phase::VolatileTrapDischarge => {
                let noises = self.noises();
                volatile_trap_discharge(
                    &mut self.world.nodes,
                    &self.world.spatial,
                    self.world.sampler,
                    &noises,
                );
            }
            Phase::ReproduceAgents => {
                let draws: Vec<BirthDraw> = self
                    .world
                    .nodes
                    .iter()
                    .map(|_| BirthDraw {
                        sensor: n(1.0),
                        yield_threshold: n(1.0),
                        oscillator: n(0.0),
                        direction: vec2(1.0, 0.0),
                    })
                    .collect();
                let births = reproduce_agents(
                    &mut self.world.nodes,
                    &mut self.world.agents,
                    self.world.clock.step,
                    &draws,
                );
                for child in births.children {
                    self.spawn(child);
                }
            }
            Phase::Physics => {}
            Phase::AccumulateCollisionDamage => {
                accumulate_collision_damage(
                    &mut self.world.nodes,
                    contacts,
                    &mut self.world.fragments,
                );
            }
            Phase::TransferToKillers => {
                transfer_to_killers(&mut self.world.nodes, &self.world.fragments);
            }
            Phase::RunFragmentation => {
                let still = TagMutation { happens: false, bit: 0, sets: false };
                let draws: Vec<Vec<DaughterDraw>> = self
                    .world
                    .fragments
                    .entities
                    .iter()
                    .map(|_| {
                        vec![
                            DaughterDraw { direction: vec2(1.0, 0.0), mutation: still },
                            DaughterDraw { direction: vec2(-0.5, 0.8), mutation: still },
                            DaughterDraw { direction: vec2(-0.5, -0.8), mutation: still },
                        ]
                    })
                    .collect();
                let (gone, born) =
                    run_fragmentation(&self.world.nodes, &mut self.world.fragments, &draws);
                self.despawn(&gone);
                for node in born {
                    self.spawn(node);
                }
            }
            Phase::RunDeaths => {
                let gone = run_deaths(
                    &mut self.world.nodes,
                    &self.world.joints,
                    &mut self.world.deaths,
                );
                self.world.joints.retain(|(joint, _)| !gone.contains(joint));
            }
            Phase::StreamChunks => {
                let plan: StreamPlan = stream_chunks(
                    &mut self.world.chunks,
                    self.world.clock.step,
                    &self.world.nodes,
                );
                for (cx, cy) in plan.load {
                    let draws = jitter(self.world.chunks.terrain_seed(cx, cy));
                    for spawn in self.world.chunks.terrain_plan_for_chunk(cx, cy, &draws) {
                        self.spawn(spawn_genesis_node(spawn));
                    }
                }
                self.despawn(&plan.unload);
            }
            Phase::AdvanceSimClock => advance_sim_clock(&mut self.world.clock),
            Phase::RecordAgentHistory => record_agent_history(
                &mut self.world.history,
                self.world.clock.step,
                &self.world.nodes,
            ),
        }
    }
}

fn angle_of(rotation: Rotation) -> Binary32 {
    n(2.0 * f(rotation.z).atan2(f(rotation.w)))
}

fn turn_by(angle: Binary32) -> Rotation {
    let half = f(angle) * 0.5;
    Rotation { x: n(0.0), y: n(0.0), z: n(half.sin()), w: n(half.cos()) }
}

fn take<A: Agent>(simulation: &mut Simulation<A>, checkpoint: Option<String>) -> WorldSnapshot {
    let angles: Vec<Binary32> =
        simulation.world.nodes.iter().map(|node| angle_of(node.rotation)).collect();
    capture(&mut simulation.world, &angles, checkpoint)
}

fn bring_back(snapshot: &WorldSnapshot, controllers: Vec<(u64, Policy)>) -> Simulation<Policy> {
    let count = snapshot.nodes.len() as u64;
    let turns: Vec<Rotation> = snapshot.nodes.iter().map(|node| turn_by(node.rotation)).collect();
    let entities: Vec<u64> = (500..500 + count).collect();
    let joints: Vec<u64> = (900..900 + count).collect();
    let (mut world, angles) =
        restore(snapshot, controllers, &turns, &entities, &joints).expect("supported schema");
    world.sampler.refresh_drift(sines(angles));
    Simulation::around(world, 2000)
}

fn same_snapshot(a: &WorldSnapshot, b: &WorldSnapshot) -> bool {
    a.schema_version == b.schema_version
        && a.seed == b.seed
        && a.simulation_tick == b.simulation_tick
        && a.field_time == b.field_time
        && a.agent_checkpoint == b.agent_checkpoint
        && a.active_chunks == b.active_chunks
        && a.nodes == b.nodes
}

#[test]
fn fabrication_transfers_exact_mass_and_energy() {
    let mut simulation = Simulation::new(11);
    let parent = simulation.spawn_agent(Policy::Fabricator, vec2(0.0, 0.0));
    simulation.world.clock.step = 1;
    simulation.step(1);

    let parent_physical = simulation.node(parent).expect("parent").physical.unwrap();
    assert!((f(parent_physical.mass) - 7.5).abs() < 1.0e-4);
    let fabricated = simulation
        .world
        .nodes
        .iter()
        .find(|node| node.tagged(SHELTER))
        .map(|node| node.physical.unwrap())
        .expect("fabricated shelter");
    assert!((f(fabricated.mass) - f32::from_bits(FABRICATE_MASS_COST)).abs() < 1.0e-4);
    assert!(f(fabricated.energy) <= f32::from_bits(FABRICATE_ENERGY_COST));
    assert!(f(fabricated.energy) > f32::from_bits(FABRICATE_ENERGY_COST) - 0.05);
    assert!((f(parent_physical.mass) + f(fabricated.mass) - 8.0).abs() < 1.0e-4);
}

#[test]
fn clamp_creates_and_releases_physical_joint_with_cooldown() {
    let mut simulation = Simulation::new(12);
    let clamping =
        simulation.spawn_agent(Policy::ClampOnce { first: true }, vec2(-0.75, 0.0));
    simulation.spawn_agent(Policy::Passive, vec2(0.75, 0.0));
    simulation.world.clock.step = 1;

    simulation.step(1);
    let engaged = simulation.node(clamping).unwrap().clamp.expect("clamp state");
    assert!(engaged.target.is_some());
    assert!(engaged.joint.is_some());

    simulation.step(1);
    let released = simulation.node(clamping).unwrap().clamp.expect("clamp state");
    assert!(released.target.is_none());
    assert!(released.joint.is_none());
    assert!(f(released.cooldown) > 0.0);
}

#[test]
fn clamp_cleanup_handles_target_and_owner_despawn() {
    let mut target_case = Simulation::new(13);
    let owner = target_case.spawn_agent(Policy::ClampHold, vec2(-0.75, 0.0));
    let target = target_case.spawn_agent(Policy::Passive, vec2(0.75, 0.0));
    target_case.step(1);
    let joint =
        target_case.node(owner).and_then(|node| node.clamp.unwrap().joint).expect("engaged joint");
    target_case.world.nodes.retain(|node| node.entity != target);
    target_case.step(1);
    let state = target_case.node(owner).expect("owner").clamp.unwrap();
    assert!(state.target.is_none());
    assert!(state.joint.is_none());
    assert!(target_case.world.joints.iter().all(|(j, _)| *j != joint));

    let mut owner_case = Simulation::new(14);
    let owner = owner_case.spawn_agent(Policy::ClampHold, vec2(-0.75, 0.0));
    owner_case.spawn_agent(Policy::Passive, vec2(0.75, 0.0));
    owner_case.step(1);
    let joint =
        owner_case.node(owner).and_then(|node| node.clamp.unwrap().joint).expect("engaged joint");
    owner_case.world.nodes.retain(|node| node.entity != owner);
    owner_case.step(1);
    assert!(owner_case.world.joints.iter().all(|(j, _)| *j != joint));
}

#[test]
fn kinetic_harvest_only_fires_above_rel_speed_threshold() {
    let mut simulation = Simulation::new(123);
    let agent = simulation.spawn_agent(Policy::Null, vec2(0.0, 0.0));
    let mut node = Node::bare(0, vec2(1.5, 0.0));
    node.physical = Some(Physical { mass: n(1.0), structure: n(8.0), energy: n(5.0) });
    node.yield_thresh = Some(Yield(n(8.0)));
    node.conductivity = Some(Conductivity(n(0.6)));
    node.tags = Some(Tags(CustomTags::from_bits(ENERGY_CONVERTIBLE)));
    node.ledger = Some(EnergyLedger::opened(0));
    let source = simulation.spawn(node);
    simulation.edit(agent, |node| node.velocity = Some(vec2(3.0, 0.0)));
    simulation.step(1);
    let agent_energy = f(simulation.node(agent).unwrap().physical.unwrap().energy);
    let node_energy = f(simulation.node(source).unwrap().physical.unwrap().energy);
    assert!(agent_energy > 20.0, "agent must have gained energy (got {agent_energy})");
    assert!(node_energy < 5.0, "node must have lost energy (got {node_energy})");

    let mut still = Simulation::new(123);
    let agent = still.spawn_agent(Policy::Null, vec2(0.0, 0.0));
    let source = still.spawn(node);
    still.step(1);
    assert!(f(still.node(agent).unwrap().physical.unwrap().energy) < 20.0);
    let left = still.node(source).unwrap();
    assert_eq!(left.ledger.unwrap().transferred_out, n(0.0));
}

#[test]
fn nearby_shelter_reduces_thermal_drain() {
    let mut exposed = Simulation::new(33);
    let exposed_agent = exposed.spawn_agent(Policy::Null, vec2(0.0, 0.0));
    exposed.world.clock.step = 1;

    let mut sheltered = Simulation::new(33);
    let sheltered_agent = sheltered.spawn_agent(Policy::Null, vec2(0.0, 0.0));
    sheltered.spawn(spawn_genesis_node(TerrainSpawn {
        chunk_origin: ChunkOrigin { x: 0, y: 0 },
        pos: vec2(1.0, 0.0),
        node_rng: 7,
        kind: TerrainKind::Shelter,
        mass: n(1.0),
        structure: n(14.0),
        energy: n(2.0),
        conductivity: n(0.2),
    }));
    sheltered.world.clock.step = 1;

    exposed.step(1);
    sheltered.step(1);
    let exposed_energy =
        f(exposed.node(exposed_agent).expect("exposed agent").physical.unwrap().energy);
    let sheltered_energy =
        f(sheltered.node(sheltered_agent).expect("sheltered agent").physical.unwrap().energy);
    assert!(sheltered_energy > exposed_energy);
}

#[test]
fn solved_contact_impulse_causes_structural_failure() {
    let mut simulation = Simulation::new(17);
    let first = simulation.spawn_agent(Policy::Null, vec2(-0.3, 0.0));
    let second = simulation.spawn_agent(Policy::Null, vec2(0.3, 0.0));
    simulation.world.clock.step = 1;
    for (entity, velocity) in [(first, 5.0), (second, -5.0)] {
        simulation.edit(entity, |node| {
            node.velocity = Some(vec2(velocity, 0.0));
            node.yield_thresh = Some(Yield(n(0.001)));
            let mut physical = node.physical.unwrap();
            physical.structure = n(0.001);
            node.physical = Some(physical);
        });
    }
    for _ in 0..3 {
        simulation.tick(&[Contact { first, second, impulse: n(40.0) }]);
    }
    let first_alive = simulation.node(first).is_some();
    let second_alive = simulation.node(second).is_some();
    assert!(!first_alive || !second_alive);
}

#[test]
fn chunk_terrain_is_order_independent_and_reproducible() {
    let manager = ertw::genesis::ChunkManager::new(1234);
    let plan = |cx: i32, cy: i32| {
        manager.terrain_plan_for_chunk(cx, cy, &jitter(manager.terrain_seed(cx, cy)))
    };
    let first = plan(-3, 7);
    let _other = plan(10, -2);
    let second = plan(-3, 7);
    assert_eq!(first.len(), second.len());
    for (left, right) in first.iter().zip(second.iter()) {
        assert_eq!(left.pos, right.pos);
        assert_eq!(left.node_rng, right.node_rng);
        assert_eq!(left.kind, right.kind);
        assert_eq!(left.mass, right.mass);
        assert_eq!(left.energy, right.energy);
    }
}

#[test]
fn inactive_chunks_unload_and_recreate_around_agent() {
    let mut simulation = Simulation::new(222);
    let agent = simulation.spawn_agent(GenesisAgent, vec2(0.0, 0.0));
    simulation.step(1);
    let side = f32::from_bits(ertw::genesis::CHUNK_SIZE);
    simulation.edit(agent, |node| node.position = vec2(side * 4.0, f(node.position.y)));
    simulation.world.clock.step = 120;
    simulation.step(1);

    let inert_chunks: Vec<i32> = simulation
        .world
        .nodes
        .iter()
        .filter(|node| node.physical.is_some() && node.marker.is_none())
        .map(|node| (f(node.position.x) / side).floor() as i32)
        .collect();
    assert_eq!(inert_chunks.len(), 45);
    assert!(inert_chunks.iter().all(|cx| (3..=5).contains(cx)));
}

#[test]
fn passive_agent_dies_under_decay() {
    let mut simulation = Simulation::new(1);
    let e = simulation.spawn_agent(Policy::Null, vec2(0.0, 0.0));
    simulation.step(60 * 60);
    let alive = simulation.node(e).is_some();
    assert!(!alive, "passive agent should have died from thermodynamic decay");
    let outcomes =
        collect_competence(&simulation.world.history, &simulation.world.nodes, 60 * 60);
    assert!(outcomes.iter().any(|outcome| outcome.entity == e));
}

#[test]
fn field_sampling_is_seeded_and_reproducible() {
    let a = Simulation::<Policy>::new(42);
    let b = Simulation::<Policy>::new(42);
    let sa = a.sample_at(vec2(3.3, 7.7));
    let sb = b.sample_at(vec2(3.3, 7.7));
    assert_eq!(sa.kinetic, sb.kinetic);
    assert_eq!(sa.thermal, sb.thermal);
    assert_eq!(sa.em, sb.em);

    let c = Simulation::<Policy>::new(43);
    let sc = c.sample_at(vec2(3.3, 7.7));
    assert_ne!(sa.kinetic, sc.kinetic);
}

#[test]
fn observation_payload_is_deterministic_per_seed() {
    let mut a = Simulation::new(99);
    let mut b = Simulation::new(99);
    a.spawn_agent(Policy::Null, vec2(0.0, 0.0));
    b.spawn_agent(Policy::Null, vec2(0.0, 0.0));
    a.step(15);
    b.step(15);
    let pa = a.sample_at(vec2(2.0, 3.0));
    let pb = b.sample_at(vec2(2.0, 3.0));
    assert_eq!(pa.kinetic, pb.kinetic);
    assert_eq!(pa.thermal, pb.thermal);
    assert_eq!(pa.em, pb.em);
}

#[test]
fn same_target_world_replay_is_bit_identical() {
    fn snapshot(simulation: &Simulation<Policy>) -> Vec<(u64, [u32; 7])> {
        let mut values: Vec<(u64, [u32; 7])> = simulation
            .world
            .nodes
            .iter()
            .filter_map(|node| {
                node.physical.map(|physical| {
                    (
                        node.entity,
                        [
                            node.position.x.bits,
                            node.position.y.bits,
                            node.rotation.z.bits,
                            node.rotation.w.bits,
                            physical.mass.bits,
                            physical.structure.bits,
                            physical.energy.bits,
                        ],
                    )
                })
            })
            .collect();
        values.sort_by_key(|(entity, _)| *entity);
        values
    }

    let mut first = Simulation::new(0xA11CE);
    let mut second = Simulation::new(0xA11CE);
    first.spawn_agent(Policy::Null, vec2(2.0, -3.0));
    second.spawn_agent(Policy::Null, vec2(2.0, -3.0));
    first.step(180);
    second.step(180);
    assert_eq!(snapshot(&first), snapshot(&second));
}

#[test]
fn sustained_surplus_creates_independent_conserving_offspring() {
    let mut simulation = Simulation::new(91);
    let parent = simulation.spawn_agent(Policy::Breeder, vec2(0.0, 0.0));
    simulation.step(1);
    simulation.edit(parent, |node| {
        let mut physical = node.physical.expect("parent");
        physical.energy = n(60.0);
        node.physical = Some(physical);
    });
    simulation.step((f32::from_bits(REPRODUCTION_SURPLUS_SECONDS) * 60.0) as u32 + 2);

    let agents: Vec<Node> =
        simulation.world.nodes.iter().filter(|node| node.marker.is_some()).copied().collect();
    assert_eq!(agents.len(), 2);
    assert!(agents.iter().any(|node| node.marker.unwrap().generation == 1));
    assert_ne!(agents[0].marker.unwrap().controller, agents[1].marker.unwrap().controller);
    let total_mass: f32 = agents.iter().map(|node| f(node.physical.unwrap().mass)).sum();
    assert!((total_mass - f(AgentTuning::default().yield_threshold)).abs() < 1.0e-4);
    let lineages: Vec<u64> = agents.iter().map(|node| node.marker.unwrap().lineage).collect();
    assert_eq!(lineages[0], lineages[1]);
    assert_eq!(simulation.world.agents.next_id, 2);
}

#[test]
fn snapshot_hash_and_restore_are_canonical() {
    let mut simulation = Simulation::new(77);
    simulation.spawn_agent(Policy::Passive, vec2(1.0, 2.0));
    simulation.step(3);
    let snapshot = take(&mut simulation, Some("agent-checkpoint-1".to_string()));
    let bytes = format!("{snapshot:?}").into_bytes();
    assert_eq!(WorldSnapshot::content_hash(&bytes), WorldSnapshot::content_hash(&bytes));
    let stable_id = snapshot.nodes.iter().find(|node| node.agent.is_some()).unwrap().stable_id;
    let mut restored = bring_back(&snapshot, vec![(stable_id, Policy::Passive)]);
    assert_eq!(restored.world.clock.step, snapshot.simulation_tick);
    let recaptured = take(&mut restored, snapshot.agent_checkpoint.clone());
    assert!(same_snapshot(&recaptured, &snapshot));
    let again = format!("{recaptured:?}").into_bytes();
    assert_eq!(WorldSnapshot::content_hash(&again), WorldSnapshot::content_hash(&bytes));
}

#[test]
fn allocator_never_reuses_an_explicit_stable_id() {
    let mut simulation = Simulation::new(78);
    let explicit = simulation.spawn_agent(Policy::Passive, vec2(0.0, 0.0));
    simulation.edit(explicit, |node| node.stable_id = Some(StableId(1)));
    simulation.spawn_agent(Policy::Passive, vec2(1.0, 0.0));
    ensure_stable_ids(&mut simulation.world.nodes, &mut simulation.world.allocator);
    let mut ids: Vec<u64> =
        simulation.world.nodes.iter().filter_map(|node| node.stable_id.map(|id| id.0)).collect();
    ids.sort_unstable();
    ids.dedup();
    assert_eq!(ids, vec![1, 2]);
    assert_eq!(simulation.world.allocator.next, 2);
    assert_eq!(simulation.world.allocator.allocate(), StableId(3));
    simulation.world.allocator.observe(40);
    assert_eq!(simulation.world.allocator.allocate(), StableId(41));
}

#[test]
fn snapshot_restores_active_clamp_relationship() {
    let mut simulation = Simulation::new(79);
    simulation.spawn_agent(Policy::ClampHold, vec2(-0.75, 0.0));
    simulation.spawn_agent(Policy::Passive, vec2(0.75, 0.0));
    simulation.step(1);
    let snapshot = take(&mut simulation, None);
    assert!(snapshot
        .nodes
        .iter()
        .any(|node| node.agent.is_some_and(|agent| agent.clamp_target.is_some())));
    let controllers: Vec<(u64, Policy)> = snapshot
        .nodes
        .iter()
        .filter(|node| node.agent.is_some())
        .map(|node| (node.stable_id, Policy::Passive))
        .collect();
    let mut restored = bring_back(&snapshot, controllers);
    assert_eq!(restored.world.joints.len(), 1);
    let recaptured = take(&mut restored, None);
    assert!(same_snapshot(&recaptured, &snapshot));
}

#[test]
fn other_schemas_are_refused() {
    let mut simulation = Simulation::new(5);
    simulation.spawn_agent(Policy::Passive, vec2(0.0, 0.0));
    let mut snapshot = take(&mut simulation, None);
    snapshot.schema_version = 1;
    let turns = [turn_by(n(0.0))];
    let refused = restore::<Policy>(&snapshot, Vec::new(), &turns, &[7], &[8]);
    assert!(matches!(refused, Err(RestoreError::UnsupportedSchema)));
    assert_eq!(RestoreError::UnsupportedSchema.message(), "unsupported snapshot schema");
}

#[test]
fn agents_without_controllers_come_back_as_matter() {
    let mut simulation = Simulation::new(6);
    simulation.spawn_agent(Policy::Passive, vec2(3.0, 4.0));
    let snapshot = take(&mut simulation, None);
    let restored = bring_back(&snapshot, Vec::new());
    assert_eq!(restored.world.nodes.len(), 1);
    assert!(restored.world.nodes[0].marker.is_none());
    assert_eq!(restored.world.nodes[0].stable_id, Some(StableId(1)));
    assert_eq!(restored.world.nodes[0].position, vec2(3.0, 4.0));
    assert_eq!(restored.world.allocator.next, 1);
}

#[test]
fn snapshots_do_not_depend_on_the_order_of_the_table() {
    let mut simulation = Simulation::new(8);
    for i in 0..6 {
        simulation.spawn_agent(Policy::Passive, vec2(i as f32 * 2.0, 0.0));
    }
    simulation.step(2);
    let straight = take(&mut simulation, None);
    simulation.world.nodes.reverse();
    let turned = take(&mut simulation, None);
    assert!(same_snapshot(&straight, &turned));
    let ids: Vec<u64> = straight.nodes.iter().map(|node| node.stable_id).collect();
    let mut sorted = ids.clone();
    sorted.sort_unstable();
    assert_eq!(ids, sorted);
}

#[test]
fn a_held_simulation_runs_no_phase() {
    assert!(schedule(false).is_empty());
    let phases = schedule(true);
    assert_eq!(phases.len(), 19);
    assert_eq!(phases[0], Phase::AdvanceFields);
    assert_eq!(phases[11], Phase::Physics);
    assert_eq!(phases[18], Phase::RecordAgentHistory);
}

#[test]
fn seeding_places_agents_and_terrain_in_every_chunk() {
    let mut world: ErtwWorld<GenesisAgent> = ErtwWorld::new(31);
    let cells = 6usize;
    let mut rng = StdRng::seed_from_u64(31);
    let side = f32::from_bits(ertw::genesis::CHUNK_SIZE);
    let offsets: Vec<Vec2Lite> = (0..4 * cells)
        .map(|_| {
            let x: f32 = rng.gen_range(1.0..side - 1.0);
            let y: f32 = rng.gen_range(1.0..side - 1.0);
            vec2(x, y)
        })
        .collect();
    let scatter: Vec<[Vec2Lite; 5]> = (0..3)
        .flat_map(|cx| (0..2).map(move |cy| (cx, cy)))
        .map(|(cx, cy)| jitter(world.chunks.terrain_seed(cx, cy)))
        .collect();
    let settlers: Vec<u64> = (1..=4 * cells as u64).collect();
    let features: Vec<u64> = (1000..1000 + 5 * cells as u64).collect();
    let controllers: Vec<GenesisAgent> = (0..4 * cells).map(|_| GenesisAgent).collect();
    world.seed_world(3, 2, controllers, &offsets, &scatter, &settlers, &features);
    assert_eq!(world.agents.next_id, 24);
    assert_eq!(world.nodes.len(), 24 + 30);
    assert_eq!(world.nodes.iter().filter(|node| node.marker.is_some()).count(), 24);
    assert_eq!(world.chunks.active_chunks().len(), 6);
    assert_eq!(world.nodes[24].chunk_origin, Some(ChunkOrigin { x: 0, y: 0 }));
    assert_eq!(world.nodes[53].chunk_origin, Some(ChunkOrigin { x: 2, y: 1 }));
    assert!(world
        .nodes
        .iter()
        .take(24)
        .zip(0u64..)
        .all(|(node, i)| node.marker.unwrap().controller == i));
}

#[test]
fn the_dead_leave_matter_and_a_record() {
    let mut simulation = Simulation::new(21);
    let e = simulation.spawn_agent(Policy::Null, vec2(0.0, 0.0));
    simulation.edit(e, |node| {
        let mut physical = node.physical.unwrap();
        physical.energy = n(0.001);
        node.physical = Some(physical);
    });
    simulation.world.clock.step = 1;
    assert!(is_alive(&simulation.world.nodes, e));
    simulation.step(1);
    assert!(!is_alive(&simulation.world.nodes, e));
    assert!(!is_alive(&simulation.world.nodes, e + 1));
    let left = simulation.node(e).expect("matter stays");
    assert!(left.marker.is_none());
    assert!(left.dead);
    assert_eq!(left.node_rng, Some(NodeRng(0xABCD)));
    simulation.step(1);
    assert_eq!(simulation.world.agents.controllers.len(), 0);
    let outcomes = collect_competence(&simulation.world.history, &simulation.world.nodes, 3);
    assert_eq!(outcomes.len(), 0);
}

/// A controller that remembers what it is asked and what it is shown.
#[derive(Clone, Debug, Default, PartialEq)]
struct Witness {
    shown: Vec<(u64, u64, Binary32)>,
    asked: Vec<u64>,
    reset: Option<u64>,
}

impl Agent for Witness {
    fn act(&mut self, observation: &ObservationTensor) -> ActionTensor {
        self.shown.push((observation.step, observation.entity_id, observation.self_state[4]));
        ActionTensor { osc_freq: n(40.0 + self.shown.len() as f32), ..ActionTensor::noop() }
    }

    fn on_reset(&mut self, seed: u64) {
        self.reset = Some(seed);
    }

    fn spawn_child(&mut self, seed: u64) -> Option<Witness> {
        self.asked.push(seed);
        Some(Witness::default())
    }
}

/// A controller that only acts.
struct Childless;

impl Agent for Childless {
    fn act(&mut self, _observation: &ObservationTensor) -> ActionTensor {
        ActionTensor::noop()
    }
}

#[test]
fn controllers_answer_what_they_are_shown() {
    let mut simulation: Simulation<Witness> = Simulation::new(5);
    let first = simulation.spawn_agent(Witness::default(), vec2(0.0, 0.0));
    let second = simulation.spawn_agent(Witness::default(), vec2(9.0, 0.0));
    simulation.edit(second, |node| {
        let mut physical = node.physical.unwrap();
        physical.energy = n(7.5);
        node.physical = Some(physical);
    });
    simulation.run(Phase::RebuildSpatialHash, &[]);
    simulation.run(Phase::GatherAgentActions, &[]);
    let shown: Vec<_> =
        simulation.world.agents.controllers.iter().map(|(_, a)| a.shown.clone()).collect();
    assert_eq!(shown[0], vec![(0, first, n(20.0))]);
    assert_eq!(shown[1], vec![(0, second, n(7.5))]);
    let entities: Vec<u64> = simulation.world.pending.items.iter().map(|(e, _)| *e).collect();
    assert_eq!(entities, vec![first, second]);
    assert!(simulation.world.pending.items.iter().all(|(_, a)| {
        let mut raw = ActionTensor { osc_freq: n(41.0), ..ActionTensor::noop() };
        raw.sanitize();
        *a == raw
    }));

    simulation.despawn(&[first]);
    simulation.run(Phase::GatherAgentActions, &[]);
    assert_eq!(simulation.world.agents.controllers.len(), 1);
    assert_eq!(simulation.world.agents.controllers[0].1.shown.len(), 2);
}

#[test]
fn children_get_controllers_of_their_own() {
    let mut simulation: Simulation<Witness> = Simulation::new(91);
    let parent = simulation.spawn_agent(Witness::default(), vec2(0.0, 0.0));
    let other = simulation.spawn_agent(Witness::default(), vec2(40.0, 0.0));
    simulation.edit(parent, |node| {
        let mut physical = node.physical.unwrap();
        physical.energy = n(60.0);
        node.physical = Some(physical);
        let mut state = node.reproduction.unwrap();
        state.surplus_seconds = num(REPRODUCTION_SURPLUS_SECONDS);
        node.reproduction = Some(state);
    });
    simulation.world.clock.step = 6;
    let seed = child_seed(simulation.node(parent).unwrap().node_rng.unwrap(), 6);
    simulation.run(Phase::ReproduceAgents, &[]);

    let controllers = &simulation.world.agents.controllers;
    assert_eq!(controllers.len(), 3);
    assert_eq!(controllers[0].1.asked, vec![seed]);
    assert_eq!(controllers[0].1.reset, None);
    assert_eq!(controllers[1].1, Witness::default());
    assert_eq!(controllers[2].1.reset, Some(seed));
    let steering: Vec<u64> = simulation
        .world
        .nodes
        .iter()
        .filter_map(|node| node.marker.map(|m| m.controller))
        .collect();
    assert_eq!(steering, vec![0, 1, 2]);
    assert!(simulation.node(other).is_some());
}

#[test]
fn controllers_have_no_children_unless_they_say_so() {
    let mut agents: WorldAgents<Childless> = WorldAgents::new();
    let id = agents.register(Childless);
    assert_eq!(agents.spawn_child(id, 3), None);
    assert_eq!(agents.spawn_child(id + 1, 3), None);
    assert_eq!(agents.next_id, 1);
}

#[test]
fn torn_clamps_let_go_and_their_joints_go() {
    let mut simulation: Simulation<Policy> = Simulation::new(3);
    let owner = simulation.spawn_agent(Policy::Null, vec2(0.0, 0.0));
    let target = simulation.spawn_agent(Policy::Null, vec2(1.0, 0.0));
    let hold = |target| ClampState { target: Some(target), joint: Some(70), cooldown: n(0.0) };
    simulation.edit(owner, |node| node.clamp = Some(hold(target)));
    simulation.world.joints.push((70, ClampJoint { owner, target }));
    simulation.world.joints.push((71, ClampJoint { owner: target, target: owner }));

    let gone = cleanup_clamp_joints(&mut simulation.world.nodes, &simulation.world.joints);
    assert_eq!(gone, vec![71]);
    assert_eq!(simulation.node(owner).unwrap().clamp, Some(hold(target)));

    simulation.edit(target, |node| node.physical = None);
    let gone = cleanup_clamp_joints(&mut simulation.world.nodes, &simulation.world.joints);
    assert_eq!(gone, vec![71, 70]);
    let clamp = simulation.node(owner).unwrap().clamp.unwrap();
    assert_eq!((clamp.target, clamp.joint, clamp.cooldown), (None, None, num(CLAMP_COOLDOWN)));
}

#[test]
fn observations_do_not_tell_where_they_were_made() {
    let show = |x: f32, y: f32| {
        let mut simulation: Simulation<Policy> = Simulation::new(3);
        let agent = simulation.spawn_agent(Policy::Null, vec2(x, y));
        simulation.spawn_agent(Policy::Null, vec2(x + 2.0, y - 1.0));
        simulation.run(Phase::RebuildSpatialHash, &[]);
        let still = simulation.probe_at(vec2(0.0, 0.0));
        build_observation(
            &simulation.world.nodes,
            &simulation.world.spatial,
            agent,
            AgentTuning::default(),
            0,
            &[still, still, still, still],
        )
        .unwrap()
    };
    let here = show(0.0, 0.0);
    let there = show(512.0, -256.0);
    assert_eq!(here.self_state, there.self_state);
    assert_eq!(here.field, there.field);
    assert_eq!(here.neighbors, there.neighbors);
}
