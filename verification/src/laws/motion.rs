//! What agents pay for their motion, and what they get.

use crate::binary32::bounds::lemma_sum_not_negative;
use crate::binary32::model::Binary32;
use crate::binary32::order::num;
use crate::binary32::value::eps;
use crate::binary32::value::lemma_decimal;
use crate::binary32::value::lemma_large;
use crate::binary32::value::lemma_near_bounds;
use crate::binary32::value::lemma_near_product;
use crate::binary32::value::lemma_near_self;
use crate::binary32::value::lemma_near_sum;
use crate::binary32::value::lemma_plus_fits;
use crate::binary32::value::lemma_product_sign;
use crate::binary32::value::lemma_product_within;
use crate::binary32::value::lemma_times_fits;
use crate::binary32::value::lemma_tiny;
use crate::binary32::value::lemma_value_abs;
use crate::binary32::value::lemma_value_minus;
use crate::binary32::value::lemma_value_order;
use crate::binary32::value::lemma_value_sign;
use crate::binary32::value::lemma_value_zero;
use crate::binary32::value::mag;
use crate::binary32::value::modest;
use crate::binary32::value::near;
use crate::binary32::value::ratio;
use crate::binary32::value::tiny;
use crate::binary32::value::value;
use crate::components::lemma_amount_valid;
use crate::components::lemma_debit_keeps_reserve;
use crate::components::lemma_place;
use crate::components::place_of;
use crate::components::valid_energy_amount;
use crate::components::EnergyFlow;
use crate::components::EnergyLedger;
use crate::components::Node;
use crate::interface::action::ActionTensor;
use crate::laws::energy::only_energy_differs;
use crate::laws::energy::solvent;
use crate::laws::vectors::is_length;
use crate::laws::vectors::lemma_length_value;
use crate::laws::vectors::modest_vector;
use crate::laws::vectors::square;
use crate::world::action_cost;
use crate::world::driven;
use crate::world::ACTION_COST;
use vstd::arithmetic::power2::lemma2_to64;
use vstd::prelude::*;

verus! {

/// An action of everyday size.
pub open spec fn modest_action(action: ActionTensor) -> bool {
    modest_vector(action.force) && modest(action.torque)
}

/// The price of an action: a tenth of the length of its force and of the size of
/// its torque, up to rounding.
pub open spec fn is_price(price: Binary32, action: ActionTensor) -> bool {
    exists|length: Binary32|
        #![trigger is_length(length, value(action.force.x), value(action.force.y))]
        is_length(length, value(action.force.x), value(action.force.y)) && near(
            price,
            (value(length) + mag(value(action.torque))) * ratio(1, 10),
            5,
            tiny(),
        )
}

/// What an action costs is its price.
pub proof fn lemma_motion_has_a_price(action: ActionTensor)
    requires
        modest_action(action),
    ensures
        is_price(action_cost(action), action),
        value(action_cost(action)) >= 0 as real,
{
    lemma_tiny();
    lemma_large();
    let l = action.force.length();
    let (x, y) = (value(action.force.x), value(action.force.y));
    lemma_length_value(action.force);
    lemma_length_bounded(value(l), x, y);
    let t = action.torque.abs();
    lemma_value_abs(action.torque);
    lemma_plus_fits(l, t);
    lemma_near_self(l);
    lemma_near_self(t);
    let (a, b, o) = (value(l), mag(value(action.torque)), 0 as real);
    lemma_near_sum(l, t, a, b, 0, o, o);
    let s = l.plus(t);
    assert(2 as real * (o + o) == o);
    lemma_near_bounds(s, a + b, 2, o, 0x2_0000_0000 as real);
    lemma2_to64();
    lemma_decimal(ACTION_COST, 0xcc_cccd, 122, 1, 10);
    let q = ratio(1, 10);
    assert(q == 1 as real / 10 as real);
    let c = num(ACTION_COST);
    lemma_near_bounds(c, q, 1, o, 1 as real);
    lemma_product_within(value(s), value(c), 0x4_0000_0000 as real, 2 as real);
    lemma_times_fits(s, c);
    lemma_near_product(s, c, a + b, q, 2, 1, o, o);
    assert(2 as real * (o * mag(q) + o * mag(a + b) + o * o) + tiny() == tiny())
        by (nonlinear_arith)
        requires
            o == 0 as real,
    ;
    assert(near(s.times(c), (a + b) * q, 5, tiny()));
    assert(is_length(l, x, y));
    lemma_value_sign(l);
    lemma_value_sign(t);
    lemma_sum_not_negative(l, t);
    lemma_product_sign(s, c);
    lemma_value_sign(s.times(c));
}

/// A length of parts of everyday size is not large.
proof fn lemma_length_bounded(l: real, x: real, y: real)
    requires
        l >= 0 as real,
        mag(x) <= 0x4000_0000 as real,
        mag(y) <= 0x4000_0000 as real,
        mag(l * l - square(x, y)) <= 9 as real * (eps() * square(x, y)) + 5 as real * tiny(),
    ensures
        l <= 0x1_0000_0000 as real,
{
    lemma_tiny();
    let h = 0x4000_0000 as real;
    lemma_product_within(x, x, h, h);
    lemma_product_within(y, y, h, h);
    let n = square(x, y);
    assert(n >= 0 as real) by (nonlinear_arith)
        requires
            n == x * x + y * y,
    ;
    assert(9 as real * (eps() * n) <= n) by (nonlinear_arith)
        requires
            n >= 0 as real,
            eps() == 1 as real / 0x100_0000 as real,
    ;
    assert(l <= 0x1_0000_0000 as real) by (nonlinear_arith)
        requires
            l * l <= 5 as real * (h * h),
            h == 0x4000_0000 as real,
            l >= 0 as real,
    ;
}

/// Paying is getting: whenever the node that acts is there and has the price of the
/// action, it gets the very force and torque that it asked for, and its energy
/// falls by the price, up to one rounding; it then shows in the ledger. Without the
/// price it gets none and pays nothing. No other node changes.
pub proof fn lemma_paying_is_getting(
    nodes: Seq<Node>,
    items: Seq<(u64, ActionTensor)>,
    n: nat,
    i: int,
)
    requires
        0 < n <= items.len(),
        modest_action(items[n - 1].1),
        ({
            let table = driven(nodes, items, (n - 1) as nat).0;
            &&& place_of(table, items[n - 1].0) == Some(i)
            &&& solvent(table[i])
        }),
    ensures
        ({
            let (table, drives) = driven(nodes, items, (n - 1) as nat);
            let (after, all) = driven(nodes, items, n);
            let (entity, action) = items[n - 1];
            let price = action_cost(action);
            let had = table[i].physical->0.energy;
            &&& is_price(price, action)
            &&& all.len() == drives.len() + 1
            &&& forall|k: int| 0 <= k < drives.len() ==> all[k] == drives[k]
            &&& all.last().entity == entity
            &&& after.len() == table.len()
            &&& forall|k: int| 0 <= k < table.len() && k != i ==> after[k] == table[k]
            &&& value(price) <= value(had) ==> {
                &&& all.last().force == action.force
                &&& all.last().torque == action.torque
                &&& paid_for(table[i], after[i], price)
            }
            &&& value(price) > value(had) ==> {
                &&& value(all.last().force.x) == 0 as real
                &&& value(all.last().force.y) == 0 as real
                &&& value(all.last().torque) == 0 as real
                &&& after == table
            }
        }),
{
    let (table, drives) = driven(nodes, items, (n - 1) as nat);
    let (after, all) = driven(nodes, items, n);
    let (entity, action) = items[n - 1];
    let price = action_cost(action);
    let p = table[i].physical->0;
    let l = table[i].ledger->0;
    lemma_place(table, entity);
    lemma_motion_has_a_price(action);
    lemma_value_order(price, p.energy);
    lemma_value_zero();
    lemma_value_sign(price);
    if value(price) <= value(p.energy) {
        lemma_debit_keeps_reserve(l, p, EnergyFlow::Actuation, price);
        lemma_amount_valid(price);
        crate::binary32::bounds::lemma_sign_of_units(price);
        assert(crate::binary32::model::grid(0) == 0);
        let booked = valid_energy_amount(price);
        assert(booked.units() == price.units());
        lemma_value_order(booked, price);
        lemma_value_order(price, booked);
        lemma_value_minus(p.energy, booked);
    }
}

/// The node paid the price for motion.
pub open spec fn paid_for(before: Node, after: Node, price: Binary32) -> bool {
    let (e, f) = (value(before.physical->0.energy), value(after.physical->0.energy));
    &&& only_energy_differs(before, after)
    &&& solvent(after)
    &&& mag(f - (e - value(price))) <= eps() * (e - value(price))
    &&& exists|booked: Binary32|
        value(booked) == value(price) && after.ledger->0 == (EnergyLedger {
            spent_on_actuation: #[trigger] before.ledger->0.spent_on_actuation.plus(booked),
            ..before.ledger->0
        })
}

/// An action of an entity that is not there, or that has no matter, has no effect.
pub proof fn lemma_nobody_acts_for_the_absent(
    nodes: Seq<Node>,
    items: Seq<(u64, ActionTensor)>,
    n: nat,
)
    requires
        0 < n <= items.len(),
        match place_of(driven(nodes, items, (n - 1) as nat).0, items[n - 1].0) {
            Some(i) => driven(nodes, items, (n - 1) as nat).0[i].physical is None,
            None => true,
        },
    ensures
        driven(nodes, items, n).0 == driven(nodes, items, (n - 1) as nat).0,
        value(driven(nodes, items, n).1.last().force.x) == 0 as real,
        value(driven(nodes, items, n).1.last().force.y) == 0 as real,
        value(driven(nodes, items, n).1.last().torque) == 0 as real,
{
    lemma_value_zero();
}

} // verus!
