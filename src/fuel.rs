//! Fuel for a module of a given mass, alone or with the fuel for its fuel.
use vstd::prelude::*;

verus! {

/// Fuel for `mass`: a third of it, rounded down, less two.
pub open spec fn fuel_spec(mass: int) -> int {
    mass / 3 - 2
}

/// Fuel for `mass` and, in turn, for that fuel, until a mass needs none
/// (a mass of 6 or less).
pub open spec fn total_fuel_spec(mass: int) -> int
    decreases mass,
{
    if mass <= 6 {
        0
    } else {
        fuel_spec(mass) + total_fuel_spec(fuel_spec(mass))
    }
}

/// The total never exceeds half the mass.
pub proof fn lemma_total_fuel_bound(mass: int)
    ensures
        0 <= total_fuel_spec(mass),
        mass >= 0 ==> 2 * total_fuel_spec(mass) <= mass,
    decreases mass,
{
    if mass > 6 {
        lemma_total_fuel_bound(fuel_spec(mass));
    }
}

/// Fuel for one module of `mass`, which must be at least 6.
pub fn mass_to_fuel(mass: u32) -> (r: u32)
    requires
        mass >= 6,
    ensures
        r == fuel_spec(mass as int),
{
    mass / 3 - 2
}

/// Fuel for a module of `mass` together with the fuel that its fuel needs.
pub fn fuel_for_ship(mass: u32) -> (r: u32)
    ensures
        r == total_fuel_spec(mass as int),
    decreases mass,
{
    if mass <= 6 {
        return 0;
    }
    let m = mass_to_fuel(mass);
    proof {
        lemma_total_fuel_bound(m as int);
    }
    m + fuel_for_ship(m)
}

/// Fuel for one module: with `with_fuel_for_fuel`, the fuel that its fuel
/// needs is counted too.
pub open spec fn module_fuel(mass: int, with_fuel_for_fuel: bool) -> int {
    if with_fuel_for_fuel {
        total_fuel_spec(mass)
    } else {
        fuel_spec(mass)
    }
}

/// Fuel for all the modules of `masses`.
pub open spec fn fuel_sum_spec(masses: Seq<u32>, with_fuel_for_fuel: bool) -> int
    decreases masses.len(),
{
    if masses.len() == 0 {
        0
    } else {
        fuel_sum_spec(masses.drop_last(), with_fuel_for_fuel) + module_fuel(
            masses.last() as int,
            with_fuel_for_fuel,
        )
    }
}

/// Fuel for all the modules of `masses`, or `None` when the sum does not
/// fit in a `u32`. Without the fuel for fuel, each mass must be at least 6.
pub fn fuel_sum(masses: &[u32], with_fuel_for_fuel: bool) -> (r: Option<u32>)
    requires
        !with_fuel_for_fuel ==> forall|i: int| 0 <= i < masses@.len() ==> masses@[i] >= 6,
    ensures
        match r {
            Some(total) => total == fuel_sum_spec(masses@, with_fuel_for_fuel),
            None => fuel_sum_spec(masses@, with_fuel_for_fuel) > u32::MAX,
        },
{
    let mut total: u32 = 0;
    let mut i: usize = 0;
    assert(masses@.take(0) =~= Seq::<u32>::empty());
    while i < masses.len()
        invariant
            i <= masses@.len(),
            !with_fuel_for_fuel ==> forall|k: int| 0 <= k < masses@.len() ==> masses@[k] >= 6,
            total == fuel_sum_spec(masses@.take(i as int), with_fuel_for_fuel),
        decreases masses@.len() - i,
    {
        let mass = masses[i];
        let fuel = if with_fuel_for_fuel {
            fuel_for_ship(mass)
        } else {
            mass_to_fuel(mass)
        };
        assert(masses@.take(i + 1).drop_last() =~= masses@.take(i as int));
        match total.checked_add(fuel) {
            Some(t) => {
                total = t;
            },
            None => {
                proof {
                    lemma_fuel_sum_grows(masses@, with_fuel_for_fuel, i + 1);
                }
                return None;
            },
        }
        i = i + 1;
    }
    assert(masses@.take(i as int) =~= masses@);
    Some(total)
}

/// Adding modules never lowers the sum.
proof fn lemma_fuel_sum_grows(masses: Seq<u32>, with_fuel_for_fuel: bool, k: int)
    requires
        0 <= k <= masses.len(),
        !with_fuel_for_fuel ==> forall|i: int| 0 <= i < masses.len() ==> masses[i] >= 6,
    ensures
        fuel_sum_spec(masses.take(k), with_fuel_for_fuel) <= fuel_sum_spec(masses, with_fuel_for_fuel),
    decreases masses.len(),
{
    if k == masses.len() {
        assert(masses.take(k) =~= masses);
    } else {
        assert(masses.drop_last().take(k) =~= masses.take(k));
        lemma_fuel_sum_grows(masses.drop_last(), with_fuel_for_fuel, k);
        lemma_total_fuel_bound(masses.last() as int);
    }
}

} // verus!
