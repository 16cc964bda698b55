use vstd::prelude::*;

use crate::bom::{bom_exists, in_bom, is_explosion, per_unit_demand, placed_quantity, places, ComponentRequirement};
use crate::error::Error;
use crate::models::{fits_store, Build, Inventory, NewInventoryEntry, Part, PartsPart};

verus! {

/// One row of the shortage report: what the open builds need of part `pid`,
/// what the inventory holds of it, and by how much it falls short.
#[derive(Clone, Debug)]
pub struct Shortage {
    pub pid: i32,
    pub pn: String,
    pub mpn: String,
    pub desc: String,
    pub have: i64,
    pub needed: i128,
    pub short: i128,
    pub quantity: Option<i32>,
    pub notes: Option<String>,
    pub unit_price: Option<i64>,
}

/// Quantity on hand of part `p`: the sum over all its lots, whatever their version.
pub open spec fn on_hand(lots: Seq<Inventory>, p: i32) -> int
    decreases lots.len(),
{
    if lots.len() == 0 {
        0
    } else {
        on_hand(lots.drop_last(), p) + if lots.last().part_id == p {
            lots.last().quantity as int
        } else {
            0
        }
    }
}

/// The demand that build `b` places on each component, one `(part id, amount)`
/// event per stuffed line of its bill of materials, in line order.
pub open spec fn build_events(b: Build, lines: Seq<PartsPart>) -> Seq<(i32, int)>
    decreases lines.len(),
{
    if lines.len() == 0 {
        Seq::empty()
    } else {
        let rest = build_events(b, lines.drop_last());
        let l = lines.last();
        if in_bom(l, b.part_id, b.part_ver) && !l.nostuff {
            rest.push((l.part_id, b.quantity * l.quantity))
        } else {
            rest
        }
    }
}

/// The demand events of all open builds, build after build.
pub open spec fn demand_events(builds: Seq<Build>, lines: Seq<PartsPart>) -> Seq<(i32, int)>
    decreases builds.len(),
{
    if builds.len() == 0 {
        Seq::empty()
    } else {
        demand_events(builds.drop_last(), lines) + if builds.last().complete {
            Seq::empty()
        } else {
            build_events(builds.last(), lines)
        }
    }
}

/// Summed amount of the events for part `p`.
pub open spec fn event_total(ev: Seq<(i32, int)>, p: i32) -> int
    decreases ev.len(),
{
    if ev.len() == 0 {
        0
    } else {
        event_total(ev.drop_last(), p) + if ev.last().0 == p {
            ev.last().1
        } else {
            0
        }
    }
}

/// The part ids of the events, each once, in the order of first appearance.
pub open spec fn first_seen(ev: Seq<(i32, int)>) -> Seq<i32>
    decreases ev.len(),
{
    if ev.len() == 0 {
        Seq::empty()
    } else {
        let d = first_seen(ev.drop_last());
        if d.contains(ev.last().0) {
            d
        } else {
            d.push(ev.last().0)
        }
    }
}

/// Total quantity of part `p` that the open builds need.
pub open spec fn needed(builds: Seq<Build>, lines: Seq<PartsPart>, p: i32) -> int {
    event_total(demand_events(builds, lines), p)
}

/// How much is missing when `need` is wanted and `have` is held; never negative.
pub open spec fn short_of(need: int, have: int) -> int {
    if need > have {
        need - have
    } else {
        0
    }
}

/// The parts that the open builds need, in the order they are first met.
pub open spec fn shortage_order(builds: Seq<Build>, lines: Seq<PartsPart>) -> Seq<i32> {
    first_seen(demand_events(builds, lines))
}

/// The entries of `order` that the report keeps: all of them, or only those short.
pub open spec fn reported(
    order: Seq<i32>,
    builds: Seq<Build>,
    lines: Seq<PartsPart>,
    lots: Seq<Inventory>,
    show_all_entries: bool,
) -> Seq<i32>
    decreases order.len(),
{
    if order.len() == 0 {
        Seq::empty()
    } else {
        let rest = reported(order.drop_last(), builds, lines, lots, show_all_entries);
        let p = order.last();
        if show_all_entries || short_of(needed(builds, lines, p), on_hand(lots, p)) != 0 {
            rest.push(p)
        } else {
            rest
        }
    }
}

/// `parts[j]` is the first part with id `p`.
pub open spec fn first_part_with_id(parts: Seq<Part>, p: i32, j: int) -> bool {
    &&& 0 <= j < parts.len()
    &&& parts[j].id == p
    &&& forall|k: int| 0 <= k < j ==> #[trigger] parts[k].id != p
}

/// Some part has id `p`.
pub open spec fn part_known(parts: Seq<Part>, p: i32) -> bool {
    exists|j: int| 0 <= j < parts.len() && #[trigger] parts[j].id == p
}

/// Every part id of `ids` names a part.
pub open spec fn parts_known(ids: Seq<i32>, parts: Seq<Part>) -> bool {
    forall|i: int| 0 <= i < ids.len() ==> part_known(parts, #[trigger] ids[i])
}

/// Some open build has a bill of materials without any line.
pub open spec fn missing_bom(builds: Seq<Build>, lines: Seq<PartsPart>) -> bool {
    exists|i: int|
        0 <= i < builds.len() && !builds[i].complete && !bom_exists(
            lines,
            #[trigger] builds[i].part_id,
            builds[i].part_ver,
        )
}

/// `s` is the report row of part `p`.
pub open spec fn is_shortage_of(
    s: Shortage,
    p: i32,
    builds: Seq<Build>,
    lines: Seq<PartsPart>,
    lots: Seq<Inventory>,
    parts: Seq<Part>,
) -> bool {
    &&& s.pid == p
    &&& exists|j: int|
        #[trigger] first_part_with_id(parts, p, j) && s.pn@ == parts[j].pn@ && s.mpn@ == parts[j].mpn@
            && s.desc@ == parts[j].descr@
    &&& s.have == on_hand(lots, p)
    &&& s.needed == needed(builds, lines, p)
    &&& s.short == short_of(needed(builds, lines, p), on_hand(lots, p))
    &&& s.quantity is None
    &&& s.notes is None
    &&& s.unit_price is None
}

pub proof fn lemma_on_hand_bounds(lots: Seq<Inventory>, p: i32)
    ensures
        -(lots.len() * 0x8000_0000) <= on_hand(lots, p) <= lots.len() * 0x8000_0000,
    decreases lots.len(),
{
    if lots.len() > 0 {
        lemma_on_hand_bounds(lots.drop_last(), p);
    }
}

/// Sums the quantity on hand of part `part_id` over its lots.
pub fn quantity_on_hand(lots: &Vec<Inventory>, part_id: i32) -> (r: i64)
    requires
        fits_store(lots@.len() as int),
    ensures
        r == on_hand(lots@, part_id),
{
    let mut total: i64 = 0;
    let mut k: usize = 0;
    while k < lots.len()
        invariant
            k <= lots@.len(),
            fits_store(lots@.len() as int),
            total == on_hand(lots@.subrange(0, k as int), part_id),
        decreases lots@.len() - k,
    {
        let ghost post = lots@.subrange(0, k + 1);
        proof {
            assert(post.drop_last() =~= lots@.subrange(0, k as int));
            lemma_on_hand_bounds(post, part_id);
            assert(post.len() * 0x8000_0000 <= 0xFFFF_FFFFint * 0x8000_0000) by (nonlinear_arith)
                requires
                    post.len() <= 0xFFFF_FFFFint,
            ;
        }
        if lots[k].part_id == part_id {
            total = total + lots[k].quantity as i64;
        }
        k += 1;
    }
    proof {
        assert(lots@.subrange(0, lots@.len() as int) =~= lots@);
    }
    total
}

/// The accumulator of the shortage scan holds, for each part first met in
/// `ev`, the summed amount of its events.
pub open spec fn accumulates(pids: Seq<i32>, needs: Seq<i128>, ev: Seq<(i32, int)>) -> bool {
    &&& pids == first_seen(ev)
    &&& needs.len() == pids.len()
    &&& forall|j: int| 0 <= j < pids.len() ==> #[trigger] needs[j] == event_total(ev, pids[j])
    &&& forall|j: int|
        0 <= j < pids.len() ==> -(ev.len() * 0x4000_0000_0000_0000) <= #[trigger] needs[j] <= ev.len()
            * 0x4000_0000_0000_0000
}

pub proof fn lemma_first_seen_distinct(ev: Seq<(i32, int)>)
    ensures
        first_seen(ev).no_duplicates(),
    decreases ev.len(),
{
    if ev.len() > 0 {
        lemma_first_seen_distinct(ev.drop_last());
    }
}

/// A part that no event names has a total of zero.
pub proof fn lemma_unseen_total_zero(ev: Seq<(i32, int)>, p: i32)
    requires
        !first_seen(ev).contains(p),
    ensures
        event_total(ev, p) == 0,
    decreases ev.len(),
{
    if ev.len() > 0 {
        let d = first_seen(ev.drop_last());
        if d.contains(p) {
            let i = choose|i: int| 0 <= i < d.len() && d[i] == p;
            assert(first_seen(ev)[i] == p);
        }
        if ev.last().0 == p {
            if d.contains(p) {
            } else {
                assert(first_seen(ev)[d.len() as int] == p);
            }
        }
        lemma_unseen_total_zero(ev.drop_last(), p);
    }
}

/// Adds one demand event to the accumulator of the shortage scan.
fn accumulate(pids: &mut Vec<i32>, needs: &mut Vec<i128>, p: i32, amount: i128, ev: Ghost<Seq<(i32, int)>>)
    requires
        accumulates(old(pids)@, old(needs)@, ev@),
        -0x4000_0000_0000_0000 <= amount <= 0x4000_0000_0000_0000,
        ev@.len() < 0x1_0000_0000_0000_0000,
    ensures
        accumulates(final(pids)@, final(needs)@, ev@.push((p, amount as int))),
{
    let ghost ev2 = ev@.push((p, amount as int));
    proof {
        assert(ev2.drop_last() =~= ev@);
        lemma_first_seen_distinct(ev@);
        assert(ev@.len() * 0x4000_0000_0000_0000 < 0x1_0000_0000_0000_0000int * 0x4000_0000_0000_0000)
            by (nonlinear_arith)
            requires
                ev@.len() < 0x1_0000_0000_0000_0000int,
        ;
    }
    let mut j: usize = 0;
    let mut found = false;
    while j < pids.len()
        invariant_except_break
            !found,
        invariant
            j <= pids@.len(),
            forall|i: int| 0 <= i < j ==> #[trigger] pids@[i] != p,
        ensures
            found ==> j < pids@.len() && pids@[j as int] == p,
            !found ==> forall|i: int| 0 <= i < pids@.len() ==> #[trigger] pids@[i] != p,
        decreases pids@.len() - j,
    {
        if pids[j] == p {
            found = true;
            break;
        }
        j += 1;
    }
    if found {
        let v = needs[j] + amount;
        needs.set(j, v);
        proof {
            assert(first_seen(ev@).contains(p)) by {
                assert(first_seen(ev@)[j as int] == p);
            }
            assert forall|i: int| 0 <= i < pids@.len() implies #[trigger] needs@[i] == event_total(ev2, pids@[i]) by {
                if i != j {
                    assert(pids@[i] != pids@[j as int]);
                }
            }
        }
    } else {
        proof {
            assert(!first_seen(ev@).contains(p));
            lemma_unseen_total_zero(ev@, p);
        }
        pids.push(p);
        needs.push(amount);
    }
}

/// The shortage report over the open builds: for each part that they need,
/// in the order first met (build after build, line after line), the summed
/// need, the quantity on hand over all its lots, and
/// `short = max(0, needed - have)`. On-hand stock is a snapshot: it is not
/// drawn down from one build to the next. Lines marked no-stuff are skipped.
/// Unless `show_all_entries`, rows that are not short are left out. Fails
/// with `NotFound` when an open build's bill of materials has no line, or
/// when a needed part has no part record.
pub fn get_shortages(
    builds: &Vec<Build>,
    lines: &Vec<PartsPart>,
    lots: &Vec<Inventory>,
    parts: &Vec<Part>,
    show_all_entries: bool,
) -> (r: Result<Vec<Shortage>, Error>)
    requires
        fits_store(builds@.len() as int),
        fits_store(lines@.len() as int),
        fits_store(lots@.len() as int),
    ensures
        r is Err <==> (missing_bom(builds@, lines@) || !parts_known(shortage_order(builds@, lines@), parts@)),
        r is Err ==> r->Err_0 == Error::NotFound,
        r matches Ok(v) ==> {
            &&& v@.map_values(|s: Shortage| s.pid) == reported(
                shortage_order(builds@, lines@),
                builds@,
                lines@,
                lots@,
                show_all_entries,
            )
            &&& forall|i: int|
                0 <= i < v@.len() ==> is_shortage_of(#[trigger] v@[i], v@[i].pid, builds@, lines@, lots@, parts@)
            &&& forall|i: int| 0 <= i < v@.len() ==> #[trigger] v@[i].short >= 0
        },
{
    let mut pids: Vec<i32> = Vec::new();
    let mut needs: Vec<i128> = Vec::new();
    let ghost mut ev: Seq<(i32, int)> = Seq::empty();
    let n_lines = lines.len();
    let mut i: usize = 0;
    while i < builds.len()
        invariant
            i <= builds@.len(),
            n_lines == lines@.len(),
            fits_store(builds@.len() as int),
            fits_store(lines@.len() as int),
            ev == demand_events(builds@.subrange(0, i as int), lines@),
            ev.len() <= i * n_lines,
            accumulates(pids@, needs@, ev),
            forall|i2: int|
                0 <= i2 < i && !builds@[i2].complete ==> bom_exists(
                    lines@,
                    #[trigger] builds@[i2].part_id,
                    builds@[i2].part_ver,
                ),
        decreases builds@.len() - i,
    {
        let b = &builds[i];
        let ghost done = builds@.subrange(0, i as int);
        proof {
            assert(builds@.subrange(0, i + 1).drop_last() =~= done);
            assert(builds@.subrange(0, i + 1).last() == *b);
        }
        if !b.complete {
            let mut any = false;
            let mut k: usize = 0;
            while k < n_lines
                invariant
                    i < builds@.len(),
                    k <= n_lines,
                    n_lines == lines@.len(),
                    *b == builds@[i as int],
                    fits_store(builds@.len() as int),
                    fits_store(lines@.len() as int),
                    ev == demand_events(done, lines@) + build_events(*b, lines@.subrange(0, k as int)),
                    ev.len() <= i * n_lines + k,
                    accumulates(pids@, needs@, ev),
                    any == bom_exists(lines@.subrange(0, k as int), b.part_id, b.part_ver),
                decreases n_lines - k,
            {
                let l = &lines[k];
                proof {
                    assert(lines@.subrange(0, k + 1).drop_last() =~= lines@.subrange(0, k as int));
                    assert(lines@.subrange(0, k + 1).last() == *l);
                    let pre = lines@.subrange(0, k as int);
                    let post = lines@.subrange(0, k + 1);
                    if bom_exists(pre, b.part_id, b.part_ver) {
                        let w = choose|w: int| 0 <= w < pre.len() && #[trigger] in_bom(pre[w], b.part_id, b.part_ver);
                        assert(pre[w] == post[w]);
                    }
                    if bom_exists(post, b.part_id, b.part_ver) && !in_bom(*l, b.part_id, b.part_ver) {
                        let w = choose|w: int| 0 <= w < post.len() && #[trigger] in_bom(post[w], b.part_id, b.part_ver);
                        assert(pre[w] == post[w]);
                    }
                    if in_bom(*l, b.part_id, b.part_ver) {
                        assert(in_bom(post[k as int], b.part_id, b.part_ver));
                    }
                    assert(i * n_lines + k < 0xFFFF_FFFFint * 0xFFFF_FFFF) by (nonlinear_arith)
                        requires
                            i < 0xFFFF_FFFFint,
                            k < n_lines,
                            n_lines <= 0xFFFF_FFFFint,
                    ;
                }
                if l.bom_part_id == b.part_id && l.bom_ver == b.part_ver {
                    any = true;
                }
                if l.bom_part_id == b.part_id && l.bom_ver == b.part_ver && !l.nostuff {
                    proof {
                        assert(-0x4000_0000_0000_0000 <= b.quantity * l.quantity <= 0x4000_0000_0000_0000)
                            by (nonlinear_arith)
                            requires
                                -0x8000_0000 <= b.quantity <= 0x7FFF_FFFF,
                                -0x8000_0000 <= l.quantity <= 0x7FFF_FFFF,
                        ;
                    }
                    let amount = b.quantity as i128 * l.quantity as i128;
                    accumulate(&mut pids, &mut needs, l.part_id, amount, Ghost(ev));
                    proof {
                        ev = ev.push((l.part_id, amount as int));
                    }
                }
                proof {
                    assert(ev =~= demand_events(done, lines@) + build_events(*b, lines@.subrange(0, k + 1)));
                }
                k += 1;
            }
            proof {
                assert(lines@.subrange(0, n_lines as int) =~= lines@);
            }
            if !any {
                proof {
                    assert(!bom_exists(lines@, builds@[i as int].part_id, builds@[i as int].part_ver));
                }
                return Err(Error::NotFound);
            }
            proof {
                assert(ev == demand_events(builds@.subrange(0, i + 1), lines@));
                assert(i * n_lines + n_lines == (i + 1) * n_lines) by (nonlinear_arith);
            }
        } else {
            proof {
                assert(ev =~= demand_events(builds@.subrange(0, i + 1), lines@));
                assert(i * n_lines <= (i + 1) * n_lines) by (nonlinear_arith);
            }
        }
        i += 1;
    }
    proof {
        assert(builds@.subrange(0, builds@.len() as int) =~= builds@);
        lemma_first_seen_distinct(ev);
        assert(!missing_bom(builds@, lines@));
        assert(builds@.len() * n_lines <= 0xFFFF_FFFFint * 0xFFFF_FFFF) by (nonlinear_arith)
            requires
                builds@.len() <= 0xFFFF_FFFFint,
                n_lines <= 0xFFFF_FFFFint,
        ;
    }
    let mut out: Vec<Shortage> = Vec::new();
    let mut j: usize = 0;
    while j < pids.len()
        invariant
            j <= pids@.len(),
            fits_store(lots@.len() as int),
            ev == demand_events(builds@, lines@),
            ev.len() < 0x1_0000_0000_0000_0000,
            accumulates(pids@, needs@, ev),
            parts_known(pids@.subrange(0, j as int), parts@),
            out@.map_values(|s: Shortage| s.pid) == reported(
                pids@.subrange(0, j as int),
                builds@,
                lines@,
                lots@,
                show_all_entries,
            ),
            forall|o: int|
                0 <= o < out@.len() ==> is_shortage_of(#[trigger] out@[o], out@[o].pid, builds@, lines@, lots@, parts@),
            !missing_bom(builds@, lines@),
        decreases pids@.len() - j,
    {
        let p = pids[j];
        let mut q: usize = 0;
        let mut found = false;
        while q < parts.len()
            invariant_except_break
                !found,
            invariant
                q <= parts@.len(),
                forall|k: int| 0 <= k < q ==> #[trigger] parts@[k].id != p,
            ensures
                found ==> first_part_with_id(parts@, p, q as int),
                !found ==> forall|k: int| 0 <= k < parts@.len() ==> #[trigger] parts@[k].id != p,
            decreases parts@.len() - q,
        {
            if parts[q].id == p {
                found = true;
                break;
            }
            q += 1;
        }
        if !found {
            proof {
                assert(!part_known(parts@, pids@[j as int]));
            }
            return Err(Error::NotFound);
        }
        let have = quantity_on_hand(lots, p);
        let need = needs[j];
        proof {
            assert(ev.len() * 0x4000_0000_0000_0000 < 0x1_0000_0000_0000_0000int * 0x4000_0000_0000_0000)
                by (nonlinear_arith)
                requires
                    ev.len() < 0x1_0000_0000_0000_0000int,
            ;
        }
        let short: i128 = if need > have as i128 {
            need - have as i128
        } else {
            0
        };
        let ghost before = out@;
        let ghost pre = pids@.subrange(0, j as int);
        let ghost post = pids@.subrange(0, j + 1);
        proof {
            assert(post.drop_last() =~= pre);
            assert(post.last() == p);
        }
        if show_all_entries || short != 0 {
            let part = &parts[q];
            out.push(
                Shortage {
                    pid: p,
                    pn: part.pn.clone(),
                    mpn: part.mpn.clone(),
                    desc: part.descr.clone(),
                    have,
                    needed: need,
                    short,
                    quantity: None,
                    notes: None,
                    unit_price: None,
                },
            );
            proof {
                assert(out@.map_values(|s: Shortage| s.pid) =~= before.map_values(|s: Shortage| s.pid).push(p));
                assert(first_part_with_id(parts@, p, q as int));
                assert(is_shortage_of(out@[before.len() as int], p, builds@, lines@, lots@, parts@));
            }
        }
        proof {
            assert forall|i: int| 0 <= i < post.len() implies part_known(parts@, #[trigger] post[i]) by {
                if i < pre.len() {
                    assert(pre[i] == post[i]);
                } else {
                    assert(parts@[q as int].id == p);
                }
            }
        }
        j += 1;
    }
    proof {
        assert(pids@.subrange(0, pids@.len() as int) =~= pids@);
    }
    Ok(out)
}

pub proof fn lemma_event_total_concat(a: Seq<(i32, int)>, b: Seq<(i32, int)>, p: i32)
    ensures
        event_total(a + b, p) == event_total(a, p) + event_total(b, p),
    decreases b.len(),
{
    if b.len() > 0 {
        assert((a + b).drop_last() =~= a + b.drop_last());
        lemma_event_total_concat(a, b.drop_last(), p);
    } else {
        assert(a + b =~= a);
    }
}

/// What one build's events ask of part `p` is its quantity times what one
/// assembly of its bill of materials needs of `p`.
pub proof fn lemma_build_events_total(b: Build, lines: Seq<PartsPart>, p: i32)
    ensures
        event_total(build_events(b, lines), p) == b.quantity * per_unit_demand(lines, b.part_id, b.part_ver, p),
    decreases lines.len(),
{
    if lines.len() > 0 {
        let rest = lines.drop_last();
        let l = lines.last();
        lemma_build_events_total(b, rest, p);
        let x = placed_quantity(rest, b.part_id, b.part_ver, p, false);
        assert(b.quantity * (x + l.quantity) == b.quantity * x + b.quantity * l.quantity) by (nonlinear_arith);
        if in_bom(l, b.part_id, b.part_ver) && !l.nostuff {
            assert(build_events(b, lines).drop_last() =~= build_events(b, rest));
        }
        if !places(l, b.part_id, b.part_ver, p, false) {
            assert(placed_quantity(lines, b.part_id, b.part_ver, p, false) == x);
        }
    } else {
        assert(b.quantity * 0 == 0);
    }
}

/// What an open build adds to the shortage report's need of a component is
/// its quantity times the per-unit quantity of that component's stuffed
/// requirement in the explosion of its bill of materials.
pub proof fn lemma_need_from_explosion(b: Build, lines: Seq<PartsPart>, reqs: Seq<ComponentRequirement>, i: int)
    requires
        is_explosion(reqs, lines, b.part_id, b.part_ver),
        0 <= i < reqs.len(),
        !reqs[i].no_stuff,
    ensures
        event_total(build_events(b, lines), reqs[i].component_part_id) == b.quantity * reqs[i].per_unit_quantity,
{
    lemma_build_events_total(b, lines, reqs[i].component_part_id);
}

proof fn lemma_placed_quantity_nonneg(lines: Seq<PartsPart>, bom_part_id: i32, bom_ver: i32, p: i32)
    requires
        forall|k: int|
            0 <= k < lines.len() && #[trigger] places(lines[k], bom_part_id, bom_ver, p, false) ==> lines[k].quantity
                >= 0,
    ensures
        placed_quantity(lines, bom_part_id, bom_ver, p, false) >= 0,
    decreases lines.len(),
{
    if lines.len() > 0 {
        let pre = lines.drop_last();
        assert forall|k: int| 0 <= k < pre.len() && #[trigger] places(pre[k], bom_part_id, bom_ver, p, false) implies pre[k].quantity >= 0 by {
            assert(pre[k] == lines[k]);
        }
        lemma_placed_quantity_nonneg(pre, bom_part_id, bom_ver, p);
        if places(lines.last(), bom_part_id, bom_ver, p, false) {
            assert(places(lines[lines.len() - 1], bom_part_id, bom_ver, p, false));
        }
    }
}

proof fn lemma_first_seen_contains(ev: Seq<(i32, int)>, i: int)
    requires
        0 <= i < ev.len(),
    ensures
        first_seen(ev).contains(ev[i].0),
    decreases ev.len(),
{
    let d = first_seen(ev.drop_last());
    if i < ev.len() - 1 {
        lemma_first_seen_contains(ev.drop_last(), i);
        let j = choose|j: int| 0 <= j < d.len() && d[j] == ev[i].0;
        assert(first_seen(ev)[j] == ev[i].0);
    } else if !d.contains(ev[i].0) {
        assert(first_seen(ev)[d.len() as int] == ev[i].0);
    }
}

proof fn lemma_build_events_name_placed(b: Build, lines: Seq<PartsPart>, p: i32)
    requires
        crate::bom::is_placed(lines, b.part_id, b.part_ver, p, false),
    ensures
        exists|i: int| 0 <= i < build_events(b, lines).len() && (#[trigger] build_events(b, lines)[i]).0 == p,
    decreases lines.len(),
{
    let pre = lines.drop_last();
    let ev = build_events(b, lines);
    if places(lines.last(), b.part_id, b.part_ver, p, false) {
        assert(ev[ev.len() - 1].0 == p);
    } else {
        let k = choose|k: int| 0 <= k < lines.len() && #[trigger] places(lines[k], b.part_id, b.part_ver, p, false);
        assert(k < pre.len());
        assert(places(pre[k], b.part_id, b.part_ver, p, false));
        lemma_build_events_name_placed(b, pre, p);
        let i = choose|i: int| 0 <= i < build_events(b, pre).len() && (#[trigger] build_events(b, pre)[i]).0 == p;
        assert(ev[i] == build_events(b, pre)[i]);
    }
}

/// Adding one more open build that needs part `p` (its quantity is positive
/// and every stuffed line placing `p` in its bill has a quantity that is not
/// negative) adds exactly what it needs of `p` to the need of `p`: neither
/// the need of `p` nor its shortage can go down, and `p` is in the report
/// when the bill places it.
pub proof fn lemma_shortage_monotonic(
    builds: Seq<Build>,
    lines: Seq<PartsPart>,
    lots: Seq<Inventory>,
    extra: Build,
    p: i32,
)
    requires
        !extra.complete,
        extra.quantity > 0,
        forall|k: int|
            0 <= k < lines.len() && #[trigger] places(lines[k], extra.part_id, extra.part_ver, p, false)
                ==> lines[k].quantity >= 0,
    ensures
        needed(builds.push(extra), lines, p) == needed(builds, lines, p) + extra.quantity * per_unit_demand(
            lines,
            extra.part_id,
            extra.part_ver,
            p,
        ),
        needed(builds.push(extra), lines, p) >= needed(builds, lines, p),
        short_of(needed(builds.push(extra), lines, p), on_hand(lots, p)) >= short_of(
            needed(builds, lines, p),
            on_hand(lots, p),
        ),
        crate::bom::is_placed(lines, extra.part_id, extra.part_ver, p, false) ==> shortage_order(
            builds.push(extra),
            lines,
        ).contains(p),
{
    assert(builds.push(extra).drop_last() =~= builds);
    lemma_event_total_concat(demand_events(builds, lines), build_events(extra, lines), p);
    lemma_build_events_total(extra, lines, p);
    lemma_placed_quantity_nonneg(lines, extra.part_id, extra.part_ver, p);
    let d = per_unit_demand(lines, extra.part_id, extra.part_ver, p);
    assert(extra.quantity * d >= 0) by (nonlinear_arith)
        requires
            extra.quantity > 0,
            d >= 0,
    ;
    if crate::bom::is_placed(lines, extra.part_id, extra.part_ver, p, false) {
        lemma_build_events_name_placed(extra, lines, p);
        let a = demand_events(builds, lines);
        let e = build_events(extra, lines);
        let i = choose|i: int| 0 <= i < e.len() && (#[trigger] e[i]).0 == p;
        assert(demand_events(builds.push(extra), lines) == a + e);
        assert((a + e)[a.len() + i] == e[i]);
        lemma_first_seen_contains(a + e, a.len() + i);
    }
}

/// One record of an inventory import: a quantity of the part with
/// manufacturer part number `mpn`. A record without quantity creates nothing.
#[derive(Clone, Debug)]
pub struct NewInventoryRecord {
    pub mpn: String,
    pub quantity: Option<i32>,
    pub notes: Option<String>,
    pub unit_price: Option<i64>,
}

/// One row of an inventory export: a lot with its part's manufacturer part number.
#[derive(Clone, Debug)]
pub struct InventoryEntry {
    pub id: i32,
    pub mpn: String,
    pub quantity: i32,
    pub consumed: i32,
    pub unit_price: Option<i64>,
    pub notes: Option<String>,
    pub part_ver: i32,
    pub part_id: i32,
}

/// `parts[j]` is the first part with manufacturer part number `mpn`.
pub open spec fn first_part_with_mpn(parts: Seq<Part>, mpn: Seq<char>, j: int) -> bool {
    &&& 0 <= j < parts.len()
    &&& parts[j].mpn@ == mpn
    &&& forall|k: int| 0 <= k < j ==> #[trigger] parts[k].mpn@ != mpn
}

/// Index of the first part with manufacturer part number `mpn`.
pub open spec fn mpn_index(parts: Seq<Part>, mpn: Seq<char>) -> int {
    choose|j: int| first_part_with_mpn(parts, mpn, j)
}

/// Index of the first part with id `p`.
pub open spec fn id_index(parts: Seq<Part>, p: i32) -> int {
    choose|j: int| first_part_with_id(parts, p, j)
}

proof fn lemma_mpn_index(parts: Seq<Part>, mpn: Seq<char>, j: int)
    requires
        first_part_with_mpn(parts, mpn, j),
    ensures
        mpn_index(parts, mpn) == j,
{
    let k = mpn_index(parts, mpn);
    if k < j {
        assert(parts[k].mpn@ != mpn);
    } else if j < k {
        assert(parts[j].mpn@ != mpn);
    }
}

pub(crate) proof fn lemma_id_index(parts: Seq<Part>, p: i32, j: int)
    requires
        first_part_with_id(parts, p, j),
    ensures
        id_index(parts, p) == j,
{
    let k = id_index(parts, p);
    if k < j {
        assert(parts[k].id != p);
    } else if j < k {
        assert(parts[j].id != p);
    }
}

/// Some part has manufacturer part number `mpn`.
pub open spec fn mpn_known(parts: Seq<Part>, mpn: Seq<char>) -> bool {
    exists|j: int| 0 <= j < parts.len() && #[trigger] parts[j].mpn@ == mpn
}

/// The records that carry a quantity, in order.
pub open spec fn stocked(records: Seq<NewInventoryRecord>) -> Seq<NewInventoryRecord>
    decreases records.len(),
{
    if records.len() == 0 {
        Seq::empty()
    } else if records.last().quantity is Some {
        stocked(records.drop_last()).push(records.last())
    } else {
        stocked(records.drop_last())
    }
}

/// `e` is the new lot that record `rec` creates for part `part`.
pub open spec fn is_lot_of_record(e: NewInventoryEntry, rec: NewInventoryRecord, part: Part) -> bool {
    &&& rec.quantity == Some(e.quantity)
    &&& e.consumed == 0
    &&& e.unit_price == rec.unit_price
    &&& e.notes == rec.notes
    &&& e.part_id == part.id
    &&& e.part_ver == part.ver
}

fn find_part_by_mpn(parts: &Vec<Part>, mpn: &String) -> (r: Option<usize>)
    ensures
        r is None <==> !mpn_known(parts@, mpn@),
        r matches Some(j) ==> first_part_with_mpn(parts@, mpn@, j as int),
{
    let mut j: usize = 0;
    while j < parts.len()
        invariant
            j <= parts@.len(),
            forall|k: int| 0 <= k < j ==> #[trigger] parts@[k].mpn@ != mpn@,
        decreases parts@.len() - j,
    {
        if parts[j].mpn == *mpn {
            return Some(j);
        }
        j += 1;
    }
    None
}

pub(crate) fn find_part_by_id(parts: &Vec<Part>, id: i32) -> (r: Option<usize>)
    ensures
        r is None <==> !part_known(parts@, id),
        r matches Some(j) ==> first_part_with_id(parts@, id, j as int),
{
    let mut j: usize = 0;
    while j < parts.len()
        invariant
            j <= parts@.len(),
            forall|k: int| 0 <= k < j ==> #[trigger] parts@[k].id != id,
        decreases parts@.len() - j,
    {
        if parts[j].id == id {
            return Some(j);
        }
        j += 1;
    }
    None
}

fn clone_notes(notes: &Option<String>) -> (r: Option<String>)
    ensures
        r == *notes,
{
    match notes {
        Some(n) => Some(n.clone()),
        None => None,
    }
}

/// The new lots of an inventory import. Every record must name a known
/// manufacturer part number, or nothing is created and the import fails with
/// `NotFound`. Then each record with a quantity, in order, gives a lot of
/// the first part with that number (its id and version), with nothing
/// consumed and the record's price and notes.
pub fn inventory_entries_from_records(records: &Vec<NewInventoryRecord>, parts: &Vec<Part>) -> (r: Result<
    Vec<NewInventoryEntry>,
    Error,
>)
    ensures
        r is Err <==> exists|i: int| 0 <= i < records@.len() && !mpn_known(parts@, #[trigger] records@[i].mpn@),
        r is Err ==> r->Err_0 == Error::NotFound,
        r matches Ok(v) ==> {
            &&& v@.len() == stocked(records@).len()
            &&& forall|i: int|
                0 <= i < v@.len() ==> is_lot_of_record(
                    #[trigger] v@[i],
                    stocked(records@)[i],
                    parts@[mpn_index(parts@, stocked(records@)[i].mpn@)],
                )
        },
{
    let mut i: usize = 0;
    while i < records.len()
        invariant
            i <= records@.len(),
            forall|k: int| 0 <= k < i ==> mpn_known(parts@, #[trigger] records@[k].mpn@),
        decreases records@.len() - i,
    {
        if find_part_by_mpn(parts, &records[i].mpn).is_none() {
            return Err(Error::NotFound);
        }
        i += 1;
    }
    let mut out: Vec<NewInventoryEntry> = Vec::new();
    let mut i: usize = 0;
    while i < records.len()
        invariant
            i <= records@.len(),
            forall|k: int| 0 <= k < records@.len() ==> mpn_known(parts@, #[trigger] records@[k].mpn@),
            out@.len() == stocked(records@.subrange(0, i as int)).len(),
            forall|m: int|
                0 <= m < out@.len() ==> is_lot_of_record(
                    #[trigger] out@[m],
                    stocked(records@.subrange(0, i as int))[m],
                    parts@[mpn_index(parts@, stocked(records@.subrange(0, i as int))[m].mpn@)],
                ),
        decreases records@.len() - i,
    {
        let rec = &records[i];
        let ghost pre = records@.subrange(0, i as int);
        let ghost post = records@.subrange(0, i + 1);
        proof {
            assert(post.drop_last() =~= pre);
            assert(post.last() == *rec);
        }
        match rec.quantity {
            Some(q) => {
                let j = match find_part_by_mpn(parts, &rec.mpn) {
                    Some(j) => j,
                    None => {
                        proof {
                            assert(mpn_known(parts@, records@[i as int].mpn@));
                        }
                        return Err(Error::NotFound);
                    },
                };
                let part = &parts[j];
                let ghost old_out = out@;
                out.push(
                    NewInventoryEntry {
                        quantity: q,
                        consumed: 0,
                        unit_price: rec.unit_price,
                        part_ver: part.ver,
                        part_id: part.id,
                        notes: clone_notes(&rec.notes),
                    },
                );
                proof {
                    lemma_mpn_index(parts@, rec.mpn@, j as int);
                    assert forall|m: int| 0 <= m < out@.len() implies is_lot_of_record(
                        #[trigger] out@[m],
                        stocked(post)[m],
                        parts@[mpn_index(parts@, stocked(post)[m].mpn@)],
                    ) by {
                        if m < out@.len() - 1 {
                            assert(out@[m] == old_out[m]);
                            assert(stocked(post)[m] == stocked(pre)[m]);
                        }
                    }
                }
            },
            None => {},
        }
        i += 1;
    }
    proof {
        assert(records@.subrange(0, records@.len() as int) =~= records@);
    }
    Ok(out)
}

/// The lot is exported: all lots are, or only those with stock.
pub open spec fn exported(lot: Inventory, export_all: bool) -> bool {
    export_all || lot.quantity != 0
}

/// The lots that an export writes, in order.
pub open spec fn exported_lots(lots: Seq<Inventory>, export_all: bool) -> Seq<Inventory>
    decreases lots.len(),
{
    if lots.len() == 0 {
        Seq::empty()
    } else if exported(lots.last(), export_all) {
        exported_lots(lots.drop_last(), export_all).push(lots.last())
    } else {
        exported_lots(lots.drop_last(), export_all)
    }
}

/// `e` is the export row of `lot`, whose part is `part`.
pub open spec fn is_export_of(e: InventoryEntry, lot: Inventory, part: Part) -> bool {
    &&& e.id == lot.id
    &&& e.mpn@ == part.mpn@
    &&& e.quantity == lot.quantity
    &&& e.consumed == lot.consumed
    &&& e.unit_price == lot.unit_price
    &&& e.notes == lot.notes
    &&& e.part_ver == lot.part_ver
    &&& e.part_id == lot.part_id
}

/// The rows of an inventory export: each lot (with stock, unless
/// `export_all`), in order, with the manufacturer part number of its part.
/// Fails with `NotFound` when an exported lot's part has no part record.
pub fn inventory_export_rows(lots: &Vec<Inventory>, parts: &Vec<Part>, export_all: bool) -> (r: Result<
    Vec<InventoryEntry>,
    Error,
>)
    ensures
        r is Err <==> exists|i: int|
            0 <= i < exported_lots(lots@, export_all).len() && !part_known(
                parts@,
                #[trigger] exported_lots(lots@, export_all)[i].part_id,
            ),
        r is Err ==> r->Err_0 == Error::NotFound,
        r matches Ok(v) ==> {
            &&& v@.len() == exported_lots(lots@, export_all).len()
            &&& forall|i: int|
                0 <= i < v@.len() ==> is_export_of(
                    #[trigger] v@[i],
                    exported_lots(lots@, export_all)[i],
                    parts@[id_index(parts@, exported_lots(lots@, export_all)[i].part_id)],
                )
        },
{
    let mut out: Vec<InventoryEntry> = Vec::new();
    let mut i: usize = 0;
    while i < lots.len()
        invariant
            i <= lots@.len(),
            out@.len() == exported_lots(lots@.subrange(0, i as int), export_all).len(),
            forall|m: int|
                0 <= m < out@.len() ==> is_export_of(
                    #[trigger] out@[m],
                    exported_lots(lots@.subrange(0, i as int), export_all)[m],
                    parts@[id_index(parts@, exported_lots(lots@.subrange(0, i as int), export_all)[m].part_id)],
                ),
            forall|m: int|
                0 <= m < out@.len() ==> part_known(
                    parts@,
                    #[trigger] exported_lots(lots@.subrange(0, i as int), export_all)[m].part_id,
                ),
        decreases lots@.len() - i,
    {
        let lot = &lots[i];
        let ghost pre = lots@.subrange(0, i as int);
        let ghost post = lots@.subrange(0, i + 1);
        proof {
            assert(post.drop_last() =~= pre);
            assert(post.last() == *lot);
        }
        if export_all || lot.quantity != 0 {
            let j = match find_part_by_id(parts, lot.part_id) {
                Some(j) => j,
                None => {
                    proof {
                        lemma_exported_prefix(lots@, export_all, i as int + 1);
                        let e = exported_lots(post, export_all);
                        assert(e[e.len() - 1] == *lot);
                        assert(exported_lots(lots@, export_all)[e.len() - 1] == *lot);
                    }
                    return Err(Error::NotFound);
                },
            };
            let part = &parts[j];
            let ghost old_out = out@;
            out.push(
                InventoryEntry {
                    id: lot.id,
                    mpn: part.mpn.clone(),
                    quantity: lot.quantity,
                    consumed: lot.consumed,
                    unit_price: lot.unit_price,
                    notes: clone_notes(&lot.notes),
                    part_ver: lot.part_ver,
                    part_id: lot.part_id,
                },
            );
            proof {
                lemma_id_index(parts@, lot.part_id, j as int);
                assert forall|m: int| 0 <= m < out@.len() implies is_export_of(
                    #[trigger] out@[m],
                    exported_lots(post, export_all)[m],
                    parts@[id_index(parts@, exported_lots(post, export_all)[m].part_id)],
                ) && part_known(parts@, exported_lots(post, export_all)[m].part_id) by {
                    if m < out@.len() - 1 {
                        assert(out@[m] == old_out[m]);
                        assert(exported_lots(post, export_all)[m] == exported_lots(pre, export_all)[m]);
                        assert(part_known(parts@, exported_lots(pre, export_all)[m].part_id));
                    } else {
                        assert(parts@[j as int].id == lot.part_id);
                    }
                }
            }
        }
        i += 1;
    }
    proof {
        assert(lots@.subrange(0, lots@.len() as int) =~= lots@);
    }
    Ok(out)
}
/// The exported lots of a prefix come first among the exported lots of the whole.
proof fn lemma_exported_prefix(lots: Seq<Inventory>, export_all: bool, n: int)
    requires
        0 <= n <= lots.len(),
    ensures
        exported_lots(lots.subrange(0, n), export_all).len() <= exported_lots(lots, export_all).len(),
        forall|m: int|
            0 <= m < exported_lots(lots.subrange(0, n), export_all).len() ==> #[trigger] exported_lots(
                lots.subrange(0, n),
                export_all,
            )[m] == exported_lots(lots, export_all)[m],
    decreases lots.len() - n,
{
    if n < lots.len() {
        lemma_exported_prefix(lots, export_all, n + 1);
        assert(lots.subrange(0, n + 1).drop_last() =~= lots.subrange(0, n));
        let a = exported_lots(lots.subrange(0, n), export_all);
        let b = exported_lots(lots.subrange(0, n + 1), export_all);
        assert forall|m: int| 0 <= m < a.len() implies #[trigger] a[m] == b[m] by {}
    } else {
        assert(lots.subrange(0, n) =~= lots);
    }
}

} // verus!
