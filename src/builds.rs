use vstd::prelude::*;

use crate::bom::{bom_exists, explode, is_placed, lemma_unplaced_quantity_zero, per_unit_demand, placed_quantity};
use crate::inventory::{
    reported, shortage_order,
    build_events, demand_events, find_part_by_id, id_index, lemma_id_index, needed, on_hand, part_known,
    quantity_on_hand,
};
use crate::error::Error;
use crate::models::{fits_store, Build, Inventory, NewBuild, NewInventoryEntry, Part, PartsPart};
use crate::bom::in_bom;
use crate::inventory::Shortage;
use crate::text::{concat, decimal, to_decimal};

verus! {

/// What completing a build leaves behind.
#[derive(Clone, Debug)]
pub struct Completion {
    /// Every lot that was handed in, in the same order, after consumption.
    pub lots: Vec<Inventory>,
    /// The lot of finished assemblies.
    pub new_lot: NewInventoryEntry,
    /// The build, now complete.
    pub build: Build,
    /// Cost of everything consumed from lots of known price.
    pub total_cost: i128,
    /// `total_cost` per finished unit, rounded down.
    pub unit_cost: i64,
}

/// What build `b` consumes of component `c`: its quantity times what one
/// assembly needs; lines marked no-stuff count for nothing.
pub open spec fn build_demand(b: Build, lines: Seq<PartsPart>, c: i32) -> int {
    b.quantity * per_unit_demand(lines, b.part_id, b.part_ver, c)
}

/// Demand for component `c` still open after the first `k` lots were drawn
/// from, first come first served, starting from `demand`.
pub open spec fn remaining_after(lots: Seq<Inventory>, c: i32, demand: int, k: int) -> int
    decreases k,
{
    if k <= 0 {
        demand
    } else {
        let r = remaining_after(lots, c, demand, k - 1);
        let lot = lots[k - 1];
        if lot.part_id == c && r > 0 {
            if lot.quantity < r {
                r - lot.quantity
            } else {
                0
            }
        } else {
            r
        }
    }
}

/// What lot `k` gives towards `demand` for component `c`: the smaller of its
/// quantity and the demand still open, while some is open.
pub open spec fn used_from(lots: Seq<Inventory>, c: i32, demand: int, k: int) -> int {
    let r = remaining_after(lots, c, demand, k);
    if lots[k].part_id == c && r > 0 {
        if lots[k].quantity < r {
            lots[k].quantity as int
        } else {
            r
        }
    } else {
        0
    }
}

/// What completing build `b` takes from lot `k`.
pub open spec fn taken(b: Build, lines: Seq<PartsPart>, lots: Seq<Inventory>, k: int) -> int {
    used_from(lots, lots[k].part_id, build_demand(b, lines, lots[k].part_id), k)
}

/// Cost of taking `used` units of `lot`: nothing when its price is unknown.
pub open spec fn lot_cost(lot: Inventory, used: int) -> int {
    match lot.unit_price {
        Some(p) => used * p,
        None => 0,
    }
}

/// Cost of what completing build `b` takes from the first `n` lots.
pub open spec fn allocation_cost(b: Build, lines: Seq<PartsPart>, lots: Seq<Inventory>, n: int) -> int
    decreases n,
{
    if n <= 0 {
        0
    } else {
        allocation_cost(b, lines, lots, n - 1) + lot_cost(lots[n - 1], taken(b, lines, lots, n - 1))
    }
}

/// `new` is lot `old` after `used` units were taken from it.
pub open spec fn is_drawn_lot(new: Inventory, old: Inventory, used: int) -> bool {
    &&& new.quantity == old.quantity - used
    &&& new.consumed == old.consumed + used
    &&& new.id == old.id
    &&& new.unit_price == old.unit_price
    &&& new.notes == old.notes
    &&& new.part_ver == old.part_ver
    &&& new.part_id == old.part_id
}

/// The amounts that completing build `b` writes fit their types.
pub open spec fn allocation_fits(b: Build, lines: Seq<PartsPart>, lots: Seq<Inventory>) -> bool {
    &&& forall|k: int|
        0 <= k < lots.len() ==> i32::MIN <= #[trigger] lots[k].consumed + taken(b, lines, lots, k)
            <= i32::MAX
    &&& i64::MIN <= allocation_cost(b, lines, lots, lots.len() as int) / b.quantity as int <= i64::MAX
}

pub proof fn lemma_remaining_bounds(lots: Seq<Inventory>, c: i32, demand: int, k: int)
    requires
        0 <= k <= lots.len(),
    ensures
        demand <= 0 ==> remaining_after(lots, c, demand, k) == demand,
        demand > 0 ==> 0 <= remaining_after(lots, c, demand, k) <= demand + k * 0x8000_0000,
    decreases k,
{
    if k > 0 {
        lemma_remaining_bounds(lots, c, demand, k - 1);
    }
}

/// Completes build `b`: for each stuffed requirement of its bill of
/// materials, `b.quantity` times the per-unit quantity is drawn from the lots
/// of that component in the order given, each lot giving the smaller of its
/// quantity and what is still open; what a lot gives is taken off its
/// quantity and added to its consumed count, and costs its unit price when
/// that is known. A demand that the lots cannot meet is not an error: what
/// they hold is taken. The result also holds a new lot of `b.quantity`
/// finished units priced at the unit cost (rounded down), noted `Build <id>`,
/// and the build marked complete.
///
/// Fails with `InvalidInput` for a build that is already complete or whose
/// quantity is not positive, with `NotFound` when its bill of materials has
/// no line, and with `Overflow` when a consumed count or the unit cost does
/// not fit its type.
pub fn complete_build(b: &Build, lines: &Vec<PartsPart>, lots: &Vec<Inventory>) -> (r: Result<Completion, Error>)
    requires
        fits_store(lines@.len() as int),
        fits_store(lots@.len() as int),
    ensures
        r == Err::<Completion, Error>(Error::InvalidInput) <==> (b.complete || b.quantity <= 0),
        r == Err::<Completion, Error>(Error::NotFound) <==> (!b.complete && b.quantity > 0 && !bom_exists(
            lines@,
            b.part_id,
            b.part_ver,
        )),
        r == Err::<Completion, Error>(Error::Overflow) <==> (!b.complete && b.quantity > 0 && bom_exists(
            lines@,
            b.part_id,
            b.part_ver,
        ) && !allocation_fits(*b, lines@, lots@)),
        r matches Ok(c) ==> {
            &&& c.lots@.len() == lots@.len()
            &&& forall|k: int|
                0 <= k < lots@.len() ==> is_drawn_lot(#[trigger] c.lots@[k], lots@[k], taken(*b, lines@, lots@, k))
            &&& c.total_cost == allocation_cost(*b, lines@, lots@, lots@.len() as int)
            &&& c.unit_cost == c.total_cost as int / b.quantity as int
            &&& c.new_lot.quantity == b.quantity
            &&& c.new_lot.consumed == 0
            &&& c.new_lot.unit_price == Some(c.unit_cost)
            &&& c.new_lot.part_id == b.part_id
            &&& c.new_lot.part_ver == b.part_ver
            &&& c.new_lot.notes matches Some(n) && n@ == "Build "@ + decimal(b.id as int)
            &&& c.build.complete
            &&& c.build.id == b.id
            &&& c.build.quantity == b.quantity
            &&& c.build.cost == b.cost
            &&& c.build.notes == b.notes
            &&& c.build.part_id == b.part_id
            &&& c.build.part_ver == b.part_ver
        },
{
    if b.complete || b.quantity <= 0 {
        return Err(Error::InvalidInput);
    }
    let reqs = match explode(lines, b.part_id, b.part_ver) {
        Ok(v) => v,
        Err(e) => {
            return Err(e);
        },
    };
    let mut rem: Vec<i128> = Vec::new();
    let mut j: usize = 0;
    while j < reqs.len()
        invariant
            j <= reqs@.len(),
            rem@.len() == j,
            0 < b.quantity,
            crate::bom::is_explosion(reqs@, lines@, b.part_id, b.part_ver),
            forall|i: int|
                0 <= i < j && !reqs@[i].no_stuff ==> #[trigger] rem@[i] == build_demand(
                    *b,
                    lines@,
                    reqs@[i].component_part_id,
                ),
            forall|i: int|
                0 <= i < j ==> -0x8000_0000_0000_0000_0000_0000 <= #[trigger] rem@[i] <= 0x8000_0000_0000_0000_0000_0000,
        decreases reqs@.len() - j,
    {
        let q = reqs[j];
        if q.no_stuff {
            rem.push(0);
        } else {
            proof {
                assert(-0x8000_0000_0000_0000_0000_0000 <= b.quantity * q.per_unit_quantity
                    <= 0x8000_0000_0000_0000_0000_0000) by (nonlinear_arith)
                    requires
                        0 < b.quantity <= 0x7FFF_FFFF,
                        -0x8000_0000_0000_0000 <= q.per_unit_quantity <= 0x7FFF_FFFF_FFFF_FFFF,
                ;
            }
            rem.push(b.quantity as i128 * q.per_unit_quantity as i128);
        }
        j += 1;
    }
    proof {
        assert forall|i: int| 0 <= i < reqs@.len() && !reqs@[i].no_stuff implies -0x8000_0000_0000_0000_0000_0000
            <= build_demand(*b, lines@, #[trigger] reqs@[i].component_part_id)
            <= 0x8000_0000_0000_0000_0000_0000 by {
            assert(rem@[i] == build_demand(*b, lines@, reqs@[i].component_part_id));
        }
    }
    let mut out: Vec<Inventory> = Vec::new();
    let mut total: i128 = 0;
    let mut k: usize = 0;
    while k < lots.len()
        invariant
            k <= lots@.len(),
            fits_store(lots@.len() as int),
            b.quantity > 0,
            !b.complete,
            bom_exists(lines@, b.part_id, b.part_ver),
            rem@.len() == reqs@.len(),
            crate::bom::is_explosion(reqs@, lines@, b.part_id, b.part_ver),
            forall|i: int|
                0 <= i < reqs@.len() && !reqs@[i].no_stuff ==> #[trigger] rem@[i] == remaining_after(
                    lots@,
                    reqs@[i].component_part_id,
                    build_demand(*b, lines@, reqs@[i].component_part_id),
                    k as int,
                ),
            forall|i: int|
                0 <= i < reqs@.len() && !reqs@[i].no_stuff ==> -0x8000_0000_0000_0000_0000_0000
                    <= build_demand(*b, lines@, #[trigger] reqs@[i].component_part_id)
                    <= 0x8000_0000_0000_0000_0000_0000,
            out@.len() == k,
            forall|i: int|
                0 <= i < k ==> is_drawn_lot(#[trigger] out@[i], lots@[i], taken(*b, lines@, lots@, i)),
            forall|i: int|
                0 <= i < k ==> i32::MIN <= #[trigger] lots@[i].consumed + taken(*b, lines@, lots@, i)
                    <= i32::MAX,
            total == allocation_cost(*b, lines@, lots@, k as int),
            -(k * 0x4000_0000_0000_0000_0000_0000) <= total <= k * 0x4000_0000_0000_0000_0000_0000,
        decreases lots@.len() - k,
    {
        let lot = &lots[k];
        let c = lot.part_id;
        let ghost demand = build_demand(*b, lines@, c);
        let mut j: usize = 0;
        let mut found = false;
        while j < reqs.len()
            invariant_except_break
                !found,
            invariant
                j <= reqs@.len(),
                forall|i: int|
                    0 <= i < j ==> !(#[trigger] reqs@[i].component_part_id == c && !reqs@[i].no_stuff),
            ensures
                found ==> j < reqs@.len() && reqs@[j as int].component_part_id == c && !reqs@[j as int].no_stuff,
                !found ==> forall|i: int|
                    0 <= i < reqs@.len() ==> !(#[trigger] reqs@[i].component_part_id == c && !reqs@[i].no_stuff),
            decreases reqs@.len() - j,
        {
            if reqs[j].component_part_id == c && !reqs[j].no_stuff {
                found = true;
                break;
            }
            j += 1;
        }
        let mut used: i32 = 0;
        if found {
            let r = rem[j];
            proof {
                lemma_remaining_bounds(lots@, c, demand, k as int);
                assert(k * 0x8000_0000 <= 0xFFFF_FFFFint * 0x8000_0000) by (nonlinear_arith)
                    requires
                        k <= 0xFFFF_FFFFint,
                ;
            }
            if r > 0 {
                if (lot.quantity as i128) < r {
                    used = lot.quantity;
                    rem.set(j, r - lot.quantity as i128);
                } else {
                    used = r as i32;
                    rem.set(j, 0);
                }
            }
            proof {
                assert(used == used_from(lots@, c, demand, k as int));
            }
        } else {
            proof {
                assert(!is_placed(lines@, b.part_id, b.part_ver, c, false));
                lemma_unplaced_quantity_zero(lines@, b.part_id, b.part_ver, c, false);
                assert(per_unit_demand(lines@, b.part_id, b.part_ver, c) == 0);
                assert(demand == 0) by (nonlinear_arith)
                    requires
                        demand == b.quantity * per_unit_demand(lines@, b.part_id, b.part_ver, c),
                        per_unit_demand(lines@, b.part_id, b.part_ver, c) == 0,
                ;
                lemma_remaining_bounds(lots@, c, demand, k as int);
            }
        }
        proof {
            assert(used == taken(*b, lines@, lots@, k as int));
            assert forall|i: int| 0 <= i < reqs@.len() && !reqs@[i].no_stuff implies #[trigger] rem@[i]
                == remaining_after(
                lots@,
                reqs@[i].component_part_id,
                build_demand(*b, lines@, reqs@[i].component_part_id),
                k + 1,
            ) by {
                if found && i == j {
                } else if reqs@[i].component_part_id == c {
                    assert(i != j);
                    assert(false);
                }
            }
        }
        let consumed = lot.consumed as i64 + used as i64;
        if consumed < i32::MIN as i64 || consumed > i32::MAX as i64 {
            proof {
                assert(!allocation_fits(*b, lines@, lots@)) by {
                    assert(!(i32::MIN <= lots@[k as int].consumed + taken(*b, lines@, lots@, k as int) <= i32::MAX));
                }
            }
            return Err(Error::Overflow);
        }
        let notes = match &lot.notes {
            Some(n) => Some(n.clone()),
            None => None,
        };
        out.push(
            Inventory {
                id: lot.id,
                quantity: lot.quantity - used,
                consumed: consumed as i32,
                unit_price: lot.unit_price,
                notes,
                part_ver: lot.part_ver,
                part_id: lot.part_id,
            },
        );
        let cost: i128 = match lot.unit_price {
            Some(p) => {
                proof {
                    assert(-0x4000_0000_0000_0000_0000_0000 <= used * p <= 0x4000_0000_0000_0000_0000_0000)
                        by (nonlinear_arith)
                        requires
                            -0x8000_0000 <= used <= 0x7FFF_FFFF,
                            -0x8000_0000_0000_0000 <= p <= 0x7FFF_FFFF_FFFF_FFFF,
                    ;
                }
                used as i128 * p as i128
            },
            None => 0,
        };
        proof {
            assert(k * 0x4000_0000_0000_0000_0000_0000 + 0x4000_0000_0000_0000_0000_0000 == (k + 1)
                * 0x4000_0000_0000_0000_0000_0000) by (nonlinear_arith);
            assert((k + 1) * 0x4000_0000_0000_0000_0000_0000 <= 0xFFFF_FFFFint * 0x4000_0000_0000_0000_0000_0000)
                by (nonlinear_arith)
                requires
                    k + 1 <= 0xFFFF_FFFFint,
            ;
        }
        total = total + cost;
        k += 1;
    }
    let unit = match total.checked_div_euclid(b.quantity as i128) {
        Some(u) => u,
        None => {
            return Err(Error::Overflow);
        },
    };
    if unit < i64::MIN as i128 || unit > i64::MAX as i128 {
        return Err(Error::Overflow);
    }
    let note_id = to_decimal(b.id);
    let note = concat("Build ", note_id.as_str());
    let notes = match &b.notes {
        Some(n) => Some(n.clone()),
        None => None,
    };
    Ok(
        Completion {
            lots: out,
            new_lot: NewInventoryEntry {
                quantity: b.quantity,
                consumed: 0,
                unit_price: Some(unit as i64),
                part_ver: b.part_ver,
                part_id: b.part_id,
                notes: Some(note),
            },
            build: Build {
                id: b.id,
                quantity: b.quantity,
                cost: b.cost,
                complete: true,
                notes,
                part_ver: b.part_ver,
                part_id: b.part_id,
            },
            total_cost: total,
            unit_cost: unit as i64,
        },
    )
}

/// Summed consumed count of the lots of part `p`.
pub open spec fn consumed_of(lots: Seq<Inventory>, p: i32) -> int
    decreases lots.len(),
{
    if lots.len() == 0 {
        0
    } else {
        consumed_of(lots.drop_last(), p) + if lots.last().part_id == p {
            lots.last().consumed as int
        } else {
            0
        }
    }
}

/// What completing build `b` takes from the lots of part `c` among the first `n`.
pub open spec fn taken_of(b: Build, lines: Seq<PartsPart>, lots: Seq<Inventory>, c: i32, n: int) -> int
    decreases n,
{
    if n <= 0 {
        0
    } else {
        taken_of(b, lines, lots, c, n - 1) + if lots[n - 1].part_id == c {
            taken(b, lines, lots, n - 1)
        } else {
            0
        }
    }
}

/// While demand is open, it is the starting demand less what the lots of
/// `c` met so far hold; all that was taken is what is no longer open.
proof fn lemma_fifo_progress(b: Build, lines: Seq<PartsPart>, lots: Seq<Inventory>, c: i32, n: int)
    requires
        0 <= n <= lots.len(),
        build_demand(b, lines, c) >= 0,
    ensures
        taken_of(b, lines, lots, c, n) == build_demand(b, lines, c) - remaining_after(
            lots,
            c,
            build_demand(b, lines, c),
            n,
        ),
        remaining_after(lots, c, build_demand(b, lines, c), n) > 0 ==> remaining_after(
            lots,
            c,
            build_demand(b, lines, c),
            n,
        ) == build_demand(b, lines, c) - on_hand(lots.subrange(0, n), c),
    decreases n,
{
    let d = build_demand(b, lines, c);
    lemma_remaining_bounds(lots, c, d, n);
    if n > 0 {
        lemma_fifo_progress(b, lines, lots, c, n - 1);
        lemma_remaining_bounds(lots, c, d, n - 1);
        assert(lots.subrange(0, n).drop_last() =~= lots.subrange(0, n - 1));
    } else {
        assert(lots.subrange(0, 0) =~= Seq::<Inventory>::empty());
    }
}

/// The lots of `c` after drawing, summed over the first `n`.
proof fn lemma_drawn_sums(
    b: Build,
    lines: Seq<PartsPart>,
    lots: Seq<Inventory>,
    after: Seq<Inventory>,
    c: i32,
    n: int,
)
    requires
        0 <= n <= lots.len(),
        after.len() == lots.len(),
        forall|k: int| 0 <= k < lots.len() ==> is_drawn_lot(#[trigger] after[k], lots[k], taken(b, lines, lots, k)),
    ensures
        on_hand(after.subrange(0, n), c) == on_hand(lots.subrange(0, n), c) - taken_of(b, lines, lots, c, n),
        consumed_of(after.subrange(0, n), c) == consumed_of(lots.subrange(0, n), c) + taken_of(b, lines, lots, c, n),
    decreases n,
{
    if n > 0 {
        lemma_drawn_sums(b, lines, lots, after, c, n - 1);
        assert(lots.subrange(0, n).drop_last() =~= lots.subrange(0, n - 1));
        assert(after.subrange(0, n).drop_last() =~= after.subrange(0, n - 1));
        assert(is_drawn_lot(after[n - 1], lots[n - 1], taken(b, lines, lots, n - 1)));
    } else {
        assert(lots.subrange(0, 0) =~= Seq::<Inventory>::empty());
        assert(after.subrange(0, 0) =~= Seq::<Inventory>::empty());
    }
}

/// When the lots of component `c` together hold at least what build `b`
/// needs of it, completing the build (which leaves `after`, lot for lot)
/// lowers their summed quantity on hand by exactly that demand and raises
/// their summed consumed count by exactly as much. Every lot keeps its
/// quantity plus consumed count, and no lot that held a quantity that was
/// not negative is left below zero.
pub proof fn lemma_allocation_conserves(
    b: Build,
    lines: Seq<PartsPart>,
    lots: Seq<Inventory>,
    after: Seq<Inventory>,
    c: i32,
)
    requires
        0 <= build_demand(b, lines, c) <= on_hand(lots, c),
        after.len() == lots.len(),
        forall|k: int| 0 <= k < lots.len() ==> is_drawn_lot(#[trigger] after[k], lots[k], taken(b, lines, lots, k)),
    ensures
        on_hand(after, c) == on_hand(lots, c) - build_demand(b, lines, c),
        consumed_of(after, c) == consumed_of(lots, c) + build_demand(b, lines, c),
        forall|k: int|
            0 <= k < lots.len() ==> #[trigger] after[k].quantity + after[k].consumed == lots[k].quantity
                + lots[k].consumed,
        forall|k: int|
            0 <= k < lots.len() && lots[k].quantity >= 0 ==> #[trigger] after[k].quantity >= 0,
{
    assert forall|k: int| 0 <= k < lots.len() && lots[k].quantity >= 0 implies #[trigger] after[k].quantity >= 0 by {
        assert(is_drawn_lot(after[k], lots[k], taken(b, lines, lots, k)));
    }
    assert forall|k: int| 0 <= k < lots.len() implies #[trigger] after[k].quantity + after[k].consumed
        == lots[k].quantity + lots[k].consumed by {
        assert(is_drawn_lot(after[k], lots[k], taken(b, lines, lots, k)));
    }
    let n = lots.len() as int;
    lemma_fifo_progress(b, lines, lots, c, n);
    lemma_remaining_bounds(lots, c, build_demand(b, lines, c), n);
    lemma_drawn_sums(b, lines, lots, after, c, n);
    assert(lots.subrange(0, n) =~= lots);
    assert(after.subrange(0, n) =~= after);
}

/// The lines not marked no-stuff, in order.
pub open spec fn stuffed_only(lines: Seq<PartsPart>) -> Seq<PartsPart>
    decreases lines.len(),
{
    if lines.len() == 0 {
        Seq::empty()
    } else if lines.last().nostuff {
        stuffed_only(lines.drop_last())
    } else {
        stuffed_only(lines.drop_last()).push(lines.last())
    }
}

proof fn lemma_build_events_stuffed(b: Build, lines: Seq<PartsPart>)
    ensures
        build_events(b, lines) == build_events(b, stuffed_only(lines)),
    decreases lines.len(),
{
    if lines.len() > 0 {
        lemma_build_events_stuffed(b, lines.drop_last());
        if !lines.last().nostuff {
            assert(stuffed_only(lines).drop_last() =~= stuffed_only(lines.drop_last()));
        }
    }
}

proof fn lemma_demand_events_stuffed(builds: Seq<Build>, lines: Seq<PartsPart>)
    ensures
        demand_events(builds, lines) == demand_events(builds, stuffed_only(lines)),
    decreases builds.len(),
{
    if builds.len() > 0 {
        lemma_demand_events_stuffed(builds.drop_last(), lines);
        lemma_build_events_stuffed(builds.last(), lines);
    }
}

proof fn lemma_placed_stuffed(lines: Seq<PartsPart>, bom_part_id: i32, bom_ver: i32, c: i32)
    ensures
        placed_quantity(lines, bom_part_id, bom_ver, c, false) == placed_quantity(
            stuffed_only(lines),
            bom_part_id,
            bom_ver,
            c,
            false,
        ),
    decreases lines.len(),
{
    if lines.len() > 0 {
        lemma_placed_stuffed(lines.drop_last(), bom_part_id, bom_ver, c);
        if !lines.last().nostuff {
            assert(stuffed_only(lines).drop_last() =~= stuffed_only(lines.drop_last()));
        }
    }
}

proof fn lemma_reported_same_need(
    order: Seq<i32>,
    builds: Seq<Build>,
    lines1: Seq<PartsPart>,
    lines2: Seq<PartsPart>,
    lots: Seq<Inventory>,
    show_all_entries: bool,
)
    requires
        forall|p: i32| #[trigger] needed(builds, lines1, p) == needed(builds, lines2, p),
    ensures
        reported(order, builds, lines1, lots, show_all_entries) == reported(
            order,
            builds,
            lines2,
            lots,
            show_all_entries,
        ),
    decreases order.len(),
{
    if order.len() > 0 {
        lemma_reported_same_need(order.drop_last(), builds, lines1, lines2, lots, show_all_entries);
        assert(needed(builds, lines1, order.last()) == needed(builds, lines2, order.last()));
    }
}

/// Lines marked no-stuff count for nothing: two sets of bill-of-materials
/// lines that differ only in no-stuff lines (added, removed, or with other
/// quantities) give the same need of every part, the same report order and
/// the same rows kept in the shortage report, and the same demand when a
/// build is completed.
pub proof fn lemma_no_stuff_excluded(
    builds: Seq<Build>,
    lines1: Seq<PartsPart>,
    lines2: Seq<PartsPart>,
    lots: Seq<Inventory>,
    show_all_entries: bool,
    b: Build,
    p: i32,
)
    requires
        stuffed_only(lines1) == stuffed_only(lines2),
    ensures
        needed(builds, lines1, p) == needed(builds, lines2, p),
        shortage_order(builds, lines1) == shortage_order(builds, lines2),
        reported(shortage_order(builds, lines1), builds, lines1, lots, show_all_entries) == reported(
            shortage_order(builds, lines2),
            builds,
            lines2,
            lots,
            show_all_entries,
        ),
        build_demand(b, lines1, p) == build_demand(b, lines2, p),
{
    lemma_demand_events_stuffed(builds, lines1);
    lemma_demand_events_stuffed(builds, lines2);
    lemma_placed_stuffed(lines1, b.part_id, b.part_ver, p);
    lemma_placed_stuffed(lines2, b.part_id, b.part_ver, p);
    lemma_reported_same_need(shortage_order(builds, lines1), builds, lines1, lines2, lots, show_all_entries);
}

/// A new, open build of `quantity` units of version `version` of `part`.
/// Fails with `NotFound` when `version` is not the part's version, and with
/// `InvalidInput` when the quantity is not positive.
pub fn new_build(part: &Part, version: i32, quantity: i32) -> (r: Result<NewBuild, Error>)
    ensures
        r == Err::<NewBuild, Error>(Error::NotFound) <==> part.ver != version,
        r == Err::<NewBuild, Error>(Error::InvalidInput) <==> (part.ver == version && quantity <= 0),
        r is Ok <==> (part.ver == version && quantity > 0),
        r matches Ok(nb) ==> nb.quantity == quantity && !nb.complete && nb.notes@.len() == 0 && nb.part_ver
            == version && nb.part_id == part.id,
{
    if part.ver != version {
        return Err(Error::NotFound);
    }
    if quantity <= 0 {
        return Err(Error::InvalidInput);
    }
    Ok(NewBuild { quantity, complete: false, notes: String::new(), part_ver: version, part_id: part.id })
}

/// One row of a build's pick list: a component, what is in stock and what the build needs.
#[derive(Clone, Debug)]
pub struct BuildExport {
    pub pn: String,
    pub mpn: String,
    pub desc: String,
    pub quantity_in_stock: i64,
    pub quantity_needed: i64,
    pub checked: Option<bool>,
}

/// The stuffed lines of the bill of materials of build `b`, in order.
pub open spec fn stuffed_lines(lines: Seq<PartsPart>, b: Build) -> Seq<PartsPart>
    decreases lines.len(),
{
    if lines.len() == 0 {
        Seq::empty()
    } else if in_bom(lines.last(), b.part_id, b.part_ver) && !lines.last().nostuff {
        stuffed_lines(lines.drop_last(), b).push(lines.last())
    } else {
        stuffed_lines(lines.drop_last(), b)
    }
}

/// `e` is the pick-list row of line `l` of build `b`.
pub open spec fn is_pick_row(
    e: BuildExport,
    l: PartsPart,
    b: Build,
    lots: Seq<Inventory>,
    parts: Seq<Part>,
) -> bool {
    let part = parts[id_index(parts, l.part_id)];
    &&& e.pn@ == part.pn@
    &&& e.mpn@ == part.mpn@
    &&& e.desc@ == part.descr@
    &&& e.quantity_in_stock == on_hand(lots, l.part_id)
    &&& e.quantity_needed == l.quantity * b.quantity
    &&& e.checked is None
}

proof fn lemma_stuffed_prefix(lines: Seq<PartsPart>, b: Build, n: int)
    requires
        0 <= n <= lines.len(),
    ensures
        stuffed_lines(lines.subrange(0, n), b).len() <= stuffed_lines(lines, b).len(),
        forall|m: int|
            0 <= m < stuffed_lines(lines.subrange(0, n), b).len() ==> #[trigger] stuffed_lines(
                lines.subrange(0, n),
                b,
            )[m] == stuffed_lines(lines, b)[m],
    decreases lines.len() - n,
{
    if n < lines.len() {
        lemma_stuffed_prefix(lines, b, n + 1);
        assert(lines.subrange(0, n + 1).drop_last() =~= lines.subrange(0, n));
        let x = stuffed_lines(lines.subrange(0, n), b);
        let y = stuffed_lines(lines.subrange(0, n + 1), b);
        assert forall|m: int| 0 <= m < x.len() implies #[trigger] x[m] == y[m] by {}
    } else {
        assert(lines.subrange(0, n) =~= lines);
    }
}

/// The pick list of build `b`: for each stuffed line of its bill of
/// materials, in order, the component's part number, manufacturer part
/// number and description, its quantity on hand over all its lots, and the
/// line's quantity times the build's. Fails with `NotFound` when a line's
/// component has no part record.
pub fn build_export_rows(b: &Build, lines: &Vec<PartsPart>, lots: &Vec<Inventory>, parts: &Vec<Part>) -> (r: Result<
    Vec<BuildExport>,
    Error,
>)
    requires
        fits_store(lots@.len() as int),
    ensures
        r is Err <==> exists|i: int|
            0 <= i < stuffed_lines(lines@, *b).len() && !part_known(
                parts@,
                #[trigger] stuffed_lines(lines@, *b)[i].part_id,
            ),
        r is Err ==> r->Err_0 == Error::NotFound,
        r matches Ok(v) ==> {
            &&& v@.len() == stuffed_lines(lines@, *b).len()
            &&& forall|i: int|
                0 <= i < v@.len() ==> is_pick_row(#[trigger] v@[i], stuffed_lines(lines@, *b)[i], *b, lots@, parts@)
        },
{
    let mut out: Vec<BuildExport> = Vec::new();
    let mut i: usize = 0;
    while i < lines.len()
        invariant
            i <= lines@.len(),
            fits_store(lots@.len() as int),
            out@.len() == stuffed_lines(lines@.subrange(0, i as int), *b).len(),
            forall|m: int|
                0 <= m < out@.len() ==> is_pick_row(
                    #[trigger] out@[m],
                    stuffed_lines(lines@.subrange(0, i as int), *b)[m],
                    *b,
                    lots@,
                    parts@,
                ),
            forall|m: int|
                0 <= m < out@.len() ==> part_known(
                    parts@,
                    #[trigger] stuffed_lines(lines@.subrange(0, i as int), *b)[m].part_id,
                ),
        decreases lines@.len() - i,
    {
        let l = &lines[i];
        let ghost pre = lines@.subrange(0, i as int);
        let ghost post = lines@.subrange(0, i + 1);
        proof {
            assert(post.drop_last() =~= pre);
            assert(post.last() == *l);
        }
        if l.bom_part_id == b.part_id && l.bom_ver == b.part_ver && !l.nostuff {
            let j = match find_part_by_id(parts, l.part_id) {
                Some(j) => j,
                None => {
                    proof {
                        lemma_stuffed_prefix(lines@, *b, i as int + 1);
                        let e = stuffed_lines(post, *b);
                        assert(e[e.len() - 1] == *l);
                        assert(stuffed_lines(lines@, *b)[e.len() - 1] == *l);
                    }
                    return Err(Error::NotFound);
                },
            };
            let part = &parts[j];
            let stock = quantity_on_hand(lots, l.part_id);
            proof {
                assert(-0x4000_0000_0000_0000 <= l.quantity * b.quantity <= 0x4000_0000_0000_0000)
                    by (nonlinear_arith)
                    requires
                        -0x8000_0000 <= b.quantity <= 0x7FFF_FFFF,
                        -0x8000_0000 <= l.quantity <= 0x7FFF_FFFF,
                ;
            }
            let ghost old_out = out@;
            out.push(
                BuildExport {
                    pn: part.pn.clone(),
                    mpn: part.mpn.clone(),
                    desc: part.descr.clone(),
                    quantity_in_stock: stock,
                    quantity_needed: l.quantity as i64 * b.quantity as i64,
                    checked: None,
                },
            );
            proof {
                lemma_id_index(parts@, l.part_id, j as int);
                assert forall|m: int| 0 <= m < out@.len() implies is_pick_row(
                    #[trigger] out@[m],
                    stuffed_lines(post, *b)[m],
                    *b,
                    lots@,
                    parts@,
                ) && part_known(parts@, stuffed_lines(post, *b)[m].part_id) by {
                    if m < out@.len() - 1 {
                        assert(out@[m] == old_out[m]);
                        assert(stuffed_lines(post, *b)[m] == stuffed_lines(pre, *b)[m]);
                        assert(part_known(parts@, stuffed_lines(pre, *b)[m].part_id));
                    } else {
                        assert(parts@[j as int].id == l.part_id);
                    }
                }
            }
        }
        i += 1;
    }
    proof {
        assert(lines@.subrange(0, lines@.len() as int) =~= lines@);
    }
    Ok(out)
}

/// The rows of `report` that are short, restricted to parts that some
/// stuffed line of `b`'s bill of materials places.
pub open spec fn blocking(report: Seq<Shortage>, lines: Seq<PartsPart>, b: Build) -> Seq<i32>
    decreases report.len(),
{
    if report.len() == 0 {
        Seq::empty()
    } else {
        let s = report.last();
        let rest = blocking(report.drop_last(), lines, b);
        if s.short != 0 && is_placed(lines, b.part_id, b.part_ver, s.pid, false) {
            rest.push(s.pid)
        } else {
            rest
        }
    }
}

/// The components of build `b` that a shortage report shows short, in
/// report order: completing the build should wait until there are none.
pub fn short_components(report: &Vec<Shortage>, lines: &Vec<PartsPart>, b: &Build) -> (r: Vec<i32>)
    ensures
        r@ == blocking(report@, lines@, *b),
{
    let mut out: Vec<i32> = Vec::new();
    let mut i: usize = 0;
    while i < report.len()
        invariant
            i <= report@.len(),
            out@ == blocking(report@.subrange(0, i as int), lines@, *b),
        decreases report@.len() - i,
    {
        let s = &report[i];
        proof {
            assert(report@.subrange(0, i + 1).drop_last() =~= report@.subrange(0, i as int));
            assert(report@.subrange(0, i + 1).last() == *s);
        }
        if s.short != 0 {
            let mut k: usize = 0;
            let mut found = false;
            while k < lines.len()
                invariant_except_break
                    !found,
                invariant
                    k <= lines@.len(),
                    forall|j: int| 0 <= j < k ==> !#[trigger] crate::bom::places(lines@[j], b.part_id, b.part_ver, s.pid, false),
                ensures
                    found <==> is_placed(lines@, b.part_id, b.part_ver, s.pid, false),
                decreases lines@.len() - k,
            {
                let l = &lines[k];
                if l.bom_part_id == b.part_id && l.bom_ver == b.part_ver && l.part_id == s.pid && !l.nostuff {
                    found = true;
                    proof {
                        assert(crate::bom::places(lines@[k as int], b.part_id, b.part_ver, s.pid, false));
                    }
                    break;
                }
                k += 1;
            }
            if found {
                out.push(s.pid);
            }
        }
        i += 1;
    }
    proof {
        assert(report@.subrange(0, report@.len() as int) =~= report@);
    }
    out
}

} // verus!
