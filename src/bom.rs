use vstd::prelude::*;

use crate::error::Error;
use crate::models::{fits_store, Inventory, NewUpdatePart, Part, PartsPart};
use crate::inventory::{find_part_by_id, id_index, lemma_id_index, on_hand, part_known, quantity_on_hand};
use crate::schematic;
use crate::text::{concat, contains, occurs_in, parse_i32, parsed_i32, text_eq, trim, trimmed};

verus! {

/// What one unit of an assembly needs of one component: the summed quantity of
/// all the bill-of-materials lines that place it with the same stuffing state.
#[derive(Clone, Copy, Debug, PartialEq, Eq, Structural)]
pub struct ComponentRequirement {
    pub component_part_id: i32,
    pub per_unit_quantity: i64,
    pub no_stuff: bool,
}

/// The line belongs to the bill of materials of `(bom_part_id, bom_ver)`.
pub open spec fn in_bom(l: PartsPart, bom_part_id: i32, bom_ver: i32) -> bool {
    l.bom_part_id == bom_part_id && l.bom_ver == bom_ver
}

/// The line places component `c` with stuffing state `ns` in `(bom_part_id, bom_ver)`.
pub open spec fn places(l: PartsPart, bom_part_id: i32, bom_ver: i32, c: i32, ns: bool) -> bool {
    in_bom(l, bom_part_id, bom_ver) && l.part_id == c && l.nostuff == ns
}

/// Some line belongs to the bill of materials of `(bom_part_id, bom_ver)`.
pub open spec fn bom_exists(lines: Seq<PartsPart>, bom_part_id: i32, bom_ver: i32) -> bool {
    exists|i: int| 0 <= i < lines.len() && #[trigger] in_bom(lines[i], bom_part_id, bom_ver)
}

/// Some line places component `c` with stuffing state `ns` in `(bom_part_id, bom_ver)`.
pub open spec fn is_placed(lines: Seq<PartsPart>, bom_part_id: i32, bom_ver: i32, c: i32, ns: bool) -> bool {
    exists|i: int| 0 <= i < lines.len() && #[trigger] places(lines[i], bom_part_id, bom_ver, c, ns)
}

/// Summed quantity of the lines that place component `c` with stuffing state
/// `ns` in `(bom_part_id, bom_ver)`: what one assembly holds of them.
pub open spec fn placed_quantity(lines: Seq<PartsPart>, bom_part_id: i32, bom_ver: i32, c: i32, ns: bool) -> int
    decreases lines.len(),
{
    if lines.len() == 0 {
        0
    } else {
        placed_quantity(lines.drop_last(), bom_part_id, bom_ver, c, ns) + if places(
            lines.last(),
            bom_part_id,
            bom_ver,
            c,
            ns,
        ) {
            lines.last().quantity as int
        } else {
            0
        }
    }
}

/// What one assembly of `(bom_part_id, bom_ver)` consumes of component `c`:
/// the lines marked no-stuff count for nothing.
pub open spec fn per_unit_demand(lines: Seq<PartsPart>, bom_part_id: i32, bom_ver: i32, c: i32) -> int {
    placed_quantity(lines, bom_part_id, bom_ver, c, false)
}

/// Index of the first line that places component `c` with stuffing state
/// `ns` in `(bom_part_id, bom_ver)`, or the number of lines when none does.
pub open spec fn first_placement(lines: Seq<PartsPart>, bom_part_id: i32, bom_ver: i32, c: i32, ns: bool) -> int
    decreases lines.len(),
{
    if lines.len() == 0 {
        0
    } else {
        let f = first_placement(lines.drop_last(), bom_part_id, bom_ver, c, ns);
        if f < lines.len() - 1 {
            f
        } else if places(lines.last(), bom_part_id, bom_ver, c, ns) {
            lines.len() - 1
        } else {
            lines.len() as int
        }
    }
}

/// The requirements come in the order of their first lines.
pub open spec fn in_line_order(
    reqs: Seq<ComponentRequirement>,
    lines: Seq<PartsPart>,
    bom_part_id: i32,
    bom_ver: i32,
) -> bool {
    forall|i: int, j: int|
        0 <= i < j < reqs.len() ==> first_placement(
            lines,
            bom_part_id,
            bom_ver,
            #[trigger] reqs[i].component_part_id,
            reqs[i].no_stuff,
        ) < first_placement(lines, bom_part_id, bom_ver, #[trigger] reqs[j].component_part_id, reqs[j].no_stuff)
}

proof fn lemma_first_placement(lines: Seq<PartsPart>, bom_part_id: i32, bom_ver: i32, c: i32, ns: bool)
    ensures
        0 <= first_placement(lines, bom_part_id, bom_ver, c, ns) <= lines.len(),
        first_placement(lines, bom_part_id, bom_ver, c, ns) < lines.len() <==> is_placed(
            lines,
            bom_part_id,
            bom_ver,
            c,
            ns,
        ),
    decreases lines.len(),
{
    if lines.len() > 0 {
        let pre = lines.drop_last();
        lemma_first_placement(pre, bom_part_id, bom_ver, c, ns);
        if is_placed(pre, bom_part_id, bom_ver, c, ns) {
            let i = choose|i: int| 0 <= i < pre.len() && #[trigger] places(pre[i], bom_part_id, bom_ver, c, ns);
            assert(places(lines[i], bom_part_id, bom_ver, c, ns));
        }
        if is_placed(lines, bom_part_id, bom_ver, c, ns) {
            let i = choose|i: int| 0 <= i < lines.len() && #[trigger] places(lines[i], bom_part_id, bom_ver, c, ns);
            if i < pre.len() {
                assert(places(pre[i], bom_part_id, bom_ver, c, ns));
            }
        }
        if places(lines.last(), bom_part_id, bom_ver, c, ns) {
            assert(places(lines[lines.len() - 1], bom_part_id, bom_ver, c, ns));
        }
    }
}

/// `reqs` is the explosion of `(bom_part_id, bom_ver)` over `lines`: one entry
/// for each placed (component, stuffing state) pair, and only for those, each
/// with the summed quantity of its lines.
pub open spec fn is_explosion(
    reqs: Seq<ComponentRequirement>,
    lines: Seq<PartsPart>,
    bom_part_id: i32,
    bom_ver: i32,
) -> bool {
    &&& forall|i: int, j: int|
        0 <= i < j < reqs.len() ==> !(reqs[i].component_part_id == reqs[j].component_part_id
            && reqs[i].no_stuff == reqs[j].no_stuff)
    &&& forall|i: int|
        0 <= i < reqs.len() ==> {
            &&& is_placed(lines, bom_part_id, bom_ver, #[trigger] reqs[i].component_part_id, reqs[i].no_stuff)
            &&& reqs[i].per_unit_quantity == placed_quantity(
                lines,
                bom_part_id,
                bom_ver,
                reqs[i].component_part_id,
                reqs[i].no_stuff,
            )
        }
    &&& forall|c: i32, ns: bool|
        #[trigger] is_placed(lines, bom_part_id, bom_ver, c, ns) ==> exists|i: int|
            0 <= i < reqs.len() && #[trigger] reqs[i].component_part_id == c && reqs[i].no_stuff == ns
}

/// The summed quantity of `n` lines stays within `n` times the range of `i32`.
pub proof fn lemma_placed_quantity_bounds(lines: Seq<PartsPart>, bom_part_id: i32, bom_ver: i32, c: i32, ns: bool)
    ensures
        -(lines.len() * 0x8000_0000) <= placed_quantity(lines, bom_part_id, bom_ver, c, ns) <= lines.len()
            * 0x8000_0000,
    decreases lines.len(),
{
    if lines.len() > 0 {
        lemma_placed_quantity_bounds(lines.drop_last(), bom_part_id, bom_ver, c, ns);
    }
}

/// Flattens the bill of materials of `(bom_part_id, bom_ver)` into what one
/// assembly needs: the lines that place the same component with the same
/// stuffing state become one requirement with their summed quantity, and
/// the requirements come in the order of their first lines. No-stuff
/// requirements stay in the result, for callers to skip. Fails with
/// `NotFound` when no line belongs to that bill of materials.
pub fn explode(lines: &Vec<PartsPart>, bom_part_id: i32, bom_ver: i32) -> (r: Result<
    Vec<ComponentRequirement>,
    Error,
>)
    requires
        fits_store(lines@.len() as int),
    ensures
        r is Err <==> !bom_exists(lines@, bom_part_id, bom_ver),
        r is Err ==> r->Err_0 == Error::NotFound,
        r matches Ok(reqs) ==> is_explosion(reqs@, lines@, bom_part_id, bom_ver) && in_line_order(
            reqs@,
            lines@,
            bom_part_id,
            bom_ver,
        ),
{
    let mut reqs: Vec<ComponentRequirement> = Vec::new();
    let mut any = false;
    let mut k: usize = 0;
    while k < lines.len()
        invariant
            k <= lines@.len(),
            fits_store(lines@.len() as int),
            any == bom_exists(lines@.subrange(0, k as int), bom_part_id, bom_ver),
            is_explosion(reqs@, lines@.subrange(0, k as int), bom_part_id, bom_ver),
            in_line_order(reqs@, lines@.subrange(0, k as int), bom_part_id, bom_ver),
        decreases lines@.len() - k,
    {
        let ghost pre = lines@.subrange(0, k as int);
        let ghost post = lines@.subrange(0, k + 1);
        let l = &lines[k];
        proof {
            assert(post.drop_last() =~= pre);
            assert(post.last() == *l);
            assert forall|c: i32, ns: bool| #[trigger]
                is_placed(post, bom_part_id, bom_ver, c, ns) <==> (is_placed(pre, bom_part_id, bom_ver, c, ns)
                    || places(*l, bom_part_id, bom_ver, c, ns)) by {
                if is_placed(post, bom_part_id, bom_ver, c, ns) {
                    let i = choose|i: int| 0 <= i < post.len() && #[trigger] places(post[i], bom_part_id, bom_ver, c, ns);
                    if i < pre.len() {
                        assert(pre[i] == post[i]);
                    }
                }
                if is_placed(pre, bom_part_id, bom_ver, c, ns) {
                    let i = choose|i: int| 0 <= i < pre.len() && #[trigger] places(pre[i], bom_part_id, bom_ver, c, ns);
                    assert(pre[i] == post[i]);
                }
                if places(*l, bom_part_id, bom_ver, c, ns) {
                    assert(places(post[k as int], bom_part_id, bom_ver, c, ns));
                }
            }
            if bom_exists(pre, bom_part_id, bom_ver) {
                let i = choose|i: int| 0 <= i < pre.len() && #[trigger] in_bom(pre[i], bom_part_id, bom_ver);
                assert(pre[i] == post[i]);
            }
            if bom_exists(post, bom_part_id, bom_ver) && !in_bom(*l, bom_part_id, bom_ver) {
                let i = choose|i: int| 0 <= i < post.len() && #[trigger] in_bom(post[i], bom_part_id, bom_ver);
                assert(pre[i] == post[i]);
            }
            if in_bom(*l, bom_part_id, bom_ver) {
                assert(in_bom(post[k as int], bom_part_id, bom_ver));
            }
            assert forall|c: i32, ns: bool| #[trigger]
                first_placement(post, bom_part_id, bom_ver, c, ns) == if is_placed(pre, bom_part_id, bom_ver, c, ns) {
                    first_placement(pre, bom_part_id, bom_ver, c, ns)
                } else if places(*l, bom_part_id, bom_ver, c, ns) {
                    k as int
                } else {
                    k + 1
                } by {
                lemma_first_placement(pre, bom_part_id, bom_ver, c, ns);
            }
            assert forall|i: int| 0 <= i < reqs@.len() implies first_placement(
                post,
                bom_part_id,
                bom_ver,
                #[trigger] reqs@[i].component_part_id,
                reqs@[i].no_stuff,
            ) == first_placement(pre, bom_part_id, bom_ver, reqs@[i].component_part_id, reqs@[i].no_stuff)
                && first_placement(pre, bom_part_id, bom_ver, reqs@[i].component_part_id, reqs@[i].no_stuff) < k by {
                lemma_first_placement(pre, bom_part_id, bom_ver, reqs@[i].component_part_id, reqs@[i].no_stuff);
            }
        }
        if l.bom_part_id == bom_part_id && l.bom_ver == bom_ver {
            any = true;
            let mut j: usize = 0;
            let mut found = false;
            while j < reqs.len()
                invariant_except_break
                    !found,
                invariant
                    j <= reqs@.len(),
                    forall|i: int|
                        0 <= i < j ==> !(#[trigger] reqs@[i].component_part_id == l.part_id && reqs@[i].no_stuff
                            == l.nostuff),
                ensures
                    found ==> j < reqs@.len() && reqs@[j as int].component_part_id == l.part_id
                        && reqs@[j as int].no_stuff == l.nostuff,
                    !found ==> forall|i: int|
                        0 <= i < reqs@.len() ==> !(#[trigger] reqs@[i].component_part_id == l.part_id
                            && reqs@[i].no_stuff == l.nostuff),
                decreases reqs@.len() - j,
            {
                if reqs[j].component_part_id == l.part_id && reqs[j].no_stuff == l.nostuff {
                    found = true;
                    break;
                }
                j += 1;
            }
            proof {
                lemma_placed_quantity_bounds(post, bom_part_id, bom_ver, l.part_id, l.nostuff);
                assert(post.len() * 0x8000_0000 <= 0xFFFF_FFFFint * 0x8000_0000) by (nonlinear_arith)
                    requires
                        post.len() <= 0xFFFF_FFFFint,
                ;
            }
            if found {
                let old_req = reqs[j];
                let ghost before = reqs@;
                let updated = ComponentRequirement {
                    component_part_id: old_req.component_part_id,
                    per_unit_quantity: old_req.per_unit_quantity + l.quantity as i64,
                    no_stuff: old_req.no_stuff,
                };
                reqs.set(j, updated);
                proof {
                    assert forall|i: int| 0 <= i < reqs@.len() implies {
                        &&& is_placed(post, bom_part_id, bom_ver, #[trigger] reqs@[i].component_part_id, reqs@[i].no_stuff)
                        &&& reqs@[i].per_unit_quantity == placed_quantity(
                            post,
                            bom_part_id,
                            bom_ver,
                            reqs@[i].component_part_id,
                            reqs@[i].no_stuff,
                        )
                    } by {
                        assert(is_placed(pre, bom_part_id, bom_ver, before[i].component_part_id, before[i].no_stuff));
                    }
                    assert forall|c: i32, ns: bool| #[trigger]
                        is_placed(post, bom_part_id, bom_ver, c, ns) implies exists|i: int|
                            0 <= i < reqs@.len() && #[trigger] reqs@[i].component_part_id == c && reqs@[i].no_stuff == ns by {
                        if is_placed(pre, bom_part_id, bom_ver, c, ns) {
                            let i = choose|i: int|
                                0 <= i < before.len() && #[trigger] before[i].component_part_id == c && before[i].no_stuff == ns;
                            assert(reqs@[i].component_part_id == c);
                        } else {
                            assert(reqs@[j as int].component_part_id == c);
                        }
                    }
                }
            } else {
                let ghost before = reqs@;
                reqs.push(
                    ComponentRequirement {
                        component_part_id: l.part_id,
                        per_unit_quantity: l.quantity as i64,
                        no_stuff: l.nostuff,
                    },
                );
                proof {
                    assert(!is_placed(pre, bom_part_id, bom_ver, l.part_id, l.nostuff));
                    assert(placed_quantity(pre, bom_part_id, bom_ver, l.part_id, l.nostuff) == 0) by {
                        lemma_unplaced_quantity_zero(pre, bom_part_id, bom_ver, l.part_id, l.nostuff);
                    }
                    assert forall|i: int| 0 <= i < reqs@.len() implies {
                        &&& is_placed(post, bom_part_id, bom_ver, #[trigger] reqs@[i].component_part_id, reqs@[i].no_stuff)
                        &&& reqs@[i].per_unit_quantity == placed_quantity(
                            post,
                            bom_part_id,
                            bom_ver,
                            reqs@[i].component_part_id,
                            reqs@[i].no_stuff,
                        )
                    } by {
                        if i < before.len() {
                            assert(is_placed(pre, bom_part_id, bom_ver, before[i].component_part_id, before[i].no_stuff));
                        }
                    }
                    assert forall|c: i32, ns: bool| #[trigger]
                        is_placed(post, bom_part_id, bom_ver, c, ns) implies exists|i: int|
                            0 <= i < reqs@.len() && #[trigger] reqs@[i].component_part_id == c && reqs@[i].no_stuff == ns by {
                        if is_placed(pre, bom_part_id, bom_ver, c, ns) {
                            let i = choose|i: int|
                                0 <= i < before.len() && #[trigger] before[i].component_part_id == c && before[i].no_stuff == ns;
                            assert(reqs@[i].component_part_id == c);
                        } else {
                            assert(reqs@[before.len() as int].component_part_id == c);
                        }
                    }
                }
            }
        } else {
            proof {
                assert forall|c: i32, ns: bool|
                    placed_quantity(post, bom_part_id, bom_ver, c, ns) == placed_quantity(pre, bom_part_id, bom_ver, c, ns)
                    by {}
            }
        }
        k += 1;
    }
    proof {
        assert(lines@.subrange(0, lines@.len() as int) =~= lines@);
    }
    if any {
        Ok(reqs)
    } else {
        Err(Error::NotFound)
    }
}

/// Components that no line places have no quantity.
pub proof fn lemma_unplaced_quantity_zero(lines: Seq<PartsPart>, bom_part_id: i32, bom_ver: i32, c: i32, ns: bool)
    requires
        !is_placed(lines, bom_part_id, bom_ver, c, ns),
    ensures
        placed_quantity(lines, bom_part_id, bom_ver, c, ns) == 0,
    decreases lines.len(),
{
    if lines.len() > 0 {
        let pre = lines.drop_last();
        assert(!is_placed(pre, bom_part_id, bom_ver, c, ns)) by {
            if is_placed(pre, bom_part_id, bom_ver, c, ns) {
                let i = choose|i: int| 0 <= i < pre.len() && #[trigger] places(pre[i], bom_part_id, bom_ver, c, ns);
                assert(places(lines[i], bom_part_id, bom_ver, c, ns));
            }
        }
        assert(!places(lines[lines.len() - 1], bom_part_id, bom_ver, c, ns));
        lemma_unplaced_quantity_zero(pre, bom_part_id, bom_ver, c, ns);
    }
}

/// One line of a bill of materials read from a schematic: the placements
/// `name` (reference designators separated by spaces) of part number `pn`.
#[derive(Clone, Debug)]
pub struct LineItem {
    pub name: String,
    pub pn: String,
    pub quantity: i32,
    pub nostuff: bool,
}

/// A line item as plain values: (designators, part number, quantity, no-stuff).
pub open spec fn item_view(l: LineItem) -> (Seq<char>, Seq<char>, int, bool) {
    (l.name@, l.pn@, l.quantity as int, l.nostuff)
}

/// The device set contains one of the texts of the ignore list.
pub open spec fn ignored(deviceset: Seq<char>, ignore_list: Seq<String>) -> bool {
    exists|i: int| 0 <= i < ignore_list.len() && occurs_in(#[trigger] ignore_list[i]@, deviceset)
}

/// The technology that a part has in variant `vname`: the one of the last
/// variant entry of that name that names one, else `base`.
pub open spec fn variant_technology(variants: Seq<schematic::Variant>, vname: Seq<char>, base: Seq<char>) -> Seq<char>
    decreases variants.len(),
{
    if variants.len() == 0 {
        base
    } else {
        let v = variants.last();
        if v.name@ == vname && v.technology is Some {
            v.technology->0@
        } else {
            variant_technology(variants.drop_last(), vname, base)
        }
    }
}

/// The part is left off in variant `vname`.
pub open spec fn no_stuff_in(variants: Seq<schematic::Variant>, vname: Seq<char>) -> bool {
    exists|i: int|
        0 <= i < variants.len() && (#[trigger] variants[i]).name@ == vname && variants[i].populate is Some
            && variants[i].populate->0@ == seq!['n', 'o']
}

/// The part's own technology, or none.
pub open spec fn base_technology(p: schematic::Part) -> Seq<char> {
    match p.technology {
        Some(t) => t@,
        None => Seq::empty(),
    }
}

/// Part number of a schematic part in variant `vname`: device set,
/// technology and device, run together.
pub open spec fn part_number_of(p: schematic::Part, vname: Seq<char>) -> Seq<char> {
    p.deviceset@ + variant_technology(p.variants@, vname, base_technology(p)) + p.device@
}

/// Index of the first item with part number `pn` and no-stuff state `ns`,
/// or the length of `items` when there is none.
pub open spec fn find_item(items: Seq<(Seq<char>, Seq<char>, int, bool)>, pn: Seq<char>, ns: bool) -> int
    decreases items.len(),
{
    if items.len() == 0 {
        0
    } else {
        let f = find_item(items.drop_last(), pn, ns);
        if f < items.len() - 1 {
            f
        } else if items.last().1 == pn && items.last().3 == ns {
            items.len() - 1
        } else {
            items.len() as int
        }
    }
}

/// The line items of the parts of a schematic in variant `vname`: parts of
/// an ignored device set are left out; parts with the same part number and
/// no-stuff state make one item, whose quantity counts them and whose
/// designators list them in order, separated by spaces.
pub open spec fn merged_items(parts: Seq<schematic::Part>, vname: Seq<char>, ignore_list: Seq<String>) -> Seq<
    (Seq<char>, Seq<char>, int, bool),
>
    decreases parts.len(),
{
    if parts.len() == 0 {
        Seq::empty()
    } else {
        let rest = merged_items(parts.drop_last(), vname, ignore_list);
        let p = parts.last();
        if ignored(p.deviceset@, ignore_list) {
            rest
        } else {
            let pn = part_number_of(p, vname);
            let ns = no_stuff_in(p.variants@, vname);
            let f = find_item(rest, pn, ns);
            if f < rest.len() {
                rest.update(f, (rest[f].0 + seq![' '] + p.name@, pn, rest[f].2 + 1, ns))
            } else {
                rest.push((p.name@, pn, 1, ns))
            }
        }
    }
}

proof fn lemma_find_item(items: Seq<(Seq<char>, Seq<char>, int, bool)>, pn: Seq<char>, ns: bool, i: int)
    requires
        0 <= i <= items.len(),
        i < items.len() ==> items[i].1 == pn && items[i].3 == ns,
        forall|j: int| 0 <= j < i ==> !(#[trigger] items[j].1 == pn && items[j].3 == ns),
    ensures
        find_item(items, pn, ns) == i,
    decreases items.len(),
{
    if items.len() > 0 {
        let pre = items.drop_last();
        if i < items.len() - 1 {
            lemma_find_item(pre, pn, ns, i);
        } else {
            lemma_find_item(pre, pn, ns, pre.len() as int);
        }
    }
}

proof fn lemma_find_item_result(items: Seq<(Seq<char>, Seq<char>, int, bool)>, pn: Seq<char>, ns: bool)
    ensures
        0 <= find_item(items, pn, ns) <= items.len(),
        find_item(items, pn, ns) < items.len() ==> items[find_item(items, pn, ns)].1 == pn
            && items[find_item(items, pn, ns)].3 == ns,
        find_item(items, pn, ns) == items.len() ==> forall|i: int|
            0 <= i < items.len() ==> !(#[trigger] items[i].1 == pn && items[i].3 == ns),
    decreases items.len(),
{
    if items.len() > 0 {
        let pre = items.drop_last();
        lemma_find_item_result(pre, pn, ns);
        assert forall|i: int| 0 <= i < pre.len() implies pre[i] == items[i] by {}
    }
}

/// No two items of `merged_items` share a part number and a no-stuff state.
pub proof fn lemma_merged_items_distinct(parts: Seq<schematic::Part>, vname: Seq<char>, ignore_list: Seq<String>)
    ensures
        forall|i: int, j: int|
            0 <= i < j < merged_items(parts, vname, ignore_list).len() ==> !(
            #[trigger] merged_items(parts, vname, ignore_list)[i].1 == #[trigger] merged_items(
                parts,
                vname,
                ignore_list,
            )[j].1 && merged_items(parts, vname, ignore_list)[i].3 == merged_items(parts, vname, ignore_list)[j].3),
    decreases parts.len(),
{
    if parts.len() > 0 {
        let rest = merged_items(parts.drop_last(), vname, ignore_list);
        lemma_merged_items_distinct(parts.drop_last(), vname, ignore_list);
        let p = parts.last();
        if !ignored(p.deviceset@, ignore_list) {
            let pn = part_number_of(p, vname);
            let ns = no_stuff_in(p.variants@, vname);
            lemma_find_item_result(rest, pn, ns);
            let m = merged_items(parts, vname, ignore_list);
            assert forall|i: int, j: int| 0 <= i < j < m.len() implies !(m[i].1 == m[j].1 && m[i].3 == m[j].3) by {
                if j < rest.len() {
                    assert(!(rest[i].1 == rest[j].1 && rest[i].3 == rest[j].3));
                }
            }
        }
    }
}

/// How many parts, among those not ignored, have part number `pn` and
/// no-stuff state `ns` in variant `vname`.
pub open spec fn kept_count(
    parts: Seq<schematic::Part>,
    vname: Seq<char>,
    ignore_list: Seq<String>,
    pn: Seq<char>,
    ns: bool,
) -> int
    decreases parts.len(),
{
    if parts.len() == 0 {
        0
    } else {
        let p = parts.last();
        kept_count(parts.drop_last(), vname, ignore_list, pn, ns) + if !ignored(p.deviceset@, ignore_list)
            && part_number_of(p, vname) == pn && no_stuff_in(p.variants@, vname) == ns {
            1int
        } else {
            0
        }
    }
}

/// Each merged item counts exactly the kept parts of its part number and
/// no-stuff state, and every such pair that some kept part has gets an item.
pub proof fn lemma_merged_items_count(parts: Seq<schematic::Part>, vname: Seq<char>, ignore_list: Seq<String>)
    ensures
        forall|i: int|
            0 <= i < merged_items(parts, vname, ignore_list).len() ==> (#[trigger] merged_items(
                parts,
                vname,
                ignore_list,
            )[i]).2 == kept_count(
                parts,
                vname,
                ignore_list,
                merged_items(parts, vname, ignore_list)[i].1,
                merged_items(parts, vname, ignore_list)[i].3,
            ),
        forall|pn: Seq<char>, ns: bool|
            #[trigger] kept_count(parts, vname, ignore_list, pn, ns) > 0 ==> find_item(
                merged_items(parts, vname, ignore_list),
                pn,
                ns,
            ) < merged_items(parts, vname, ignore_list).len(),
    decreases parts.len(),
{
    if parts.len() > 0 {
        let pre = parts.drop_last();
        let rest = merged_items(pre, vname, ignore_list);
        let m = merged_items(parts, vname, ignore_list);
        lemma_merged_items_count(pre, vname, ignore_list);
        lemma_merged_items_distinct(pre, vname, ignore_list);
        let p = parts.last();
        if !ignored(p.deviceset@, ignore_list) {
            let pn0 = part_number_of(p, vname);
            let ns0 = no_stuff_in(p.variants@, vname);
            let f = find_item(rest, pn0, ns0);
            lemma_find_item_result(rest, pn0, ns0);
            if f == rest.len() {
                if kept_count(pre, vname, ignore_list, pn0, ns0) > 0 {
                    assert(false);
                }
            }
            assert forall|i: int| 0 <= i < m.len() implies (#[trigger] m[i]).2 == kept_count(
                parts,
                vname,
                ignore_list,
                m[i].1,
                m[i].3,
            ) by {
                lemma_kept_count_nonneg(pre, vname, ignore_list, pn0, ns0);
                if i < rest.len() {
                    assert(rest[i].2 == kept_count(pre, vname, ignore_list, rest[i].1, rest[i].3));
                }
                if i < rest.len() && i != f {
                    assert(m[i] == rest[i]);
                    if f < rest.len() {
                        assert(!(rest[i].1 == rest[f].1 && rest[i].3 == rest[f].3));
                    }
                    assert(!(m[i].1 == pn0 && m[i].3 == ns0));
                } else if f < rest.len() && i == f {
                    assert(m[i].1 == pn0 && m[i].3 == ns0 && m[i].2 == rest[f].2 + 1);
                } else {
                    assert(f == rest.len() && i == rest.len());
                    assert(m[i].1 == pn0 && m[i].3 == ns0 && m[i].2 == 1);
                    assert(kept_count(pre, vname, ignore_list, pn0, ns0) == 0);
                }
            }
            assert forall|pn: Seq<char>, ns: bool| #[trigger]
                kept_count(parts, vname, ignore_list, pn, ns) > 0 implies find_item(m, pn, ns) < m.len() by {
                lemma_find_item_result(m, pn, ns);
                if pn == pn0 && ns == ns0 {
                    if f < rest.len() {
                        assert(m[f].1 == pn && m[f].3 == ns);
                    } else {
                        assert(m[rest.len() as int].1 == pn && m[rest.len() as int].3 == ns);
                    }
                } else {
                    assert(kept_count(pre, vname, ignore_list, pn, ns) > 0);
                    let g = find_item(rest, pn, ns);
                    lemma_find_item_result(rest, pn, ns);
                    assert(m[g].1 == pn && m[g].3 == ns);
                }
            }
        } else {
            assert forall|pn: Seq<char>, ns: bool| #[trigger]
                kept_count(parts, vname, ignore_list, pn, ns) > 0 implies find_item(m, pn, ns) < m.len() by {
                assert(kept_count(pre, vname, ignore_list, pn, ns) > 0);
            }
        }
    }
}

/// A kept part is counted under its own part number and no-stuff state.
proof fn lemma_kept_part_counted(parts: Seq<schematic::Part>, vname: Seq<char>, ignore_list: Seq<String>, k: int)
    requires
        0 <= k < parts.len(),
        !ignored(parts[k].deviceset@, ignore_list),
    ensures
        kept_count(
            parts,
            vname,
            ignore_list,
            part_number_of(parts[k], vname),
            no_stuff_in(parts[k].variants@, vname),
        ) > 0,
    decreases parts.len(),
{
    let pn = part_number_of(parts[k], vname);
    let ns = no_stuff_in(parts[k].variants@, vname);
    if k < parts.len() - 1 {
        let pre = parts.drop_last();
        assert(pre[k] == parts[k]);
        lemma_kept_part_counted(pre, vname, ignore_list, k);
        lemma_kept_count_nonneg(pre, vname, ignore_list, pn, ns);
    } else {
        lemma_kept_count_nonneg(parts.drop_last(), vname, ignore_list, pn, ns);
    }
}

proof fn lemma_kept_count_nonneg(
    parts: Seq<schematic::Part>,
    vname: Seq<char>,
    ignore_list: Seq<String>,
    pn: Seq<char>,
    ns: bool,
)
    ensures
        kept_count(parts, vname, ignore_list, pn, ns) >= 0,
    decreases parts.len(),
{
    if parts.len() > 0 {
        lemma_kept_count_nonneg(parts.drop_last(), vname, ignore_list, pn, ns);
    }
}

/// Tells whether the device set contains one of the texts of the ignore list.
fn is_ignored(deviceset: &String, ignore_list: &Vec<String>) -> (r: bool)
    ensures
        r == ignored(deviceset@, ignore_list@),
{
    let mut i: usize = 0;
    while i < ignore_list.len()
        invariant
            i <= ignore_list@.len(),
            forall|j: int| 0 <= j < i ==> !occurs_in(#[trigger] ignore_list@[j]@, deviceset@),
        decreases ignore_list@.len() - i,
    {
        if contains(deviceset.as_str(), ignore_list[i].as_str()) {
            proof {
                assert(occurs_in(ignore_list@[i as int]@, deviceset@));
            }
            return true;
        }
        i += 1;
    }
    false
}

/// The technology and the no-stuff state of a part in the given variant.
fn variant_settings(part: &schematic::Part, vname: &String) -> (r: (String, bool))
    ensures
        r.0@ == variant_technology(part.variants@, vname@, base_technology(*part)),
        r.1 == no_stuff_in(part.variants@, vname@),
{
    let mut technology = match &part.technology {
        Some(t) => t.clone(),
        None => String::new(),
    };
    let mut nostuff = false;
    let mut i: usize = 0;
    while i < part.variants.len()
        invariant
            i <= part.variants@.len(),
            technology@ == variant_technology(part.variants@.subrange(0, i as int), vname@, base_technology(*part)),
            nostuff == no_stuff_in(part.variants@.subrange(0, i as int), vname@),
        decreases part.variants@.len() - i,
    {
        let v = &part.variants[i];
        let ghost pre = part.variants@.subrange(0, i as int);
        let ghost post = part.variants@.subrange(0, i + 1);
        proof {
            assert(post.drop_last() =~= pre);
            assert(post.last() == *v);
        }
        let mut off = false;
        if v.name == *vname {
            match &v.technology {
                Some(t) => {
                    technology = t.clone();
                },
                None => {},
            }
            match &v.populate {
                Some(p) => {
                    off = crate::text::text_eq(p.as_str(), "no");
                    proof {
                        reveal_strlit("no");
                        assert("no"@ =~= seq!['n', 'o']);
                    }
                },
                None => {},
            }
        }
        proof {
            assert(off == ((*v).name@ == vname@ && v.populate is Some && v.populate->0@ == seq!['n', 'o']));
            assert(no_stuff_in(post, vname@) == (no_stuff_in(pre, vname@) || off)) by {
                if no_stuff_in(post, vname@) {
                    let j = choose|j: int|
                        0 <= j < post.len() && (#[trigger] post[j]).name@ == vname@ && post[j].populate is Some
                            && post[j].populate->0@ == seq!['n', 'o'];
                    if j < pre.len() {
                        assert(pre[j] == post[j]);
                    }
                }
                if no_stuff_in(pre, vname@) {
                    let j = choose|j: int|
                        0 <= j < pre.len() && (#[trigger] pre[j]).name@ == vname@ && pre[j].populate is Some
                            && pre[j].populate->0@ == seq!['n', 'o'];
                    assert(pre[j] == post[j]);
                }
                if off {
                    assert(post[i as int] == *v);
                }
            }
        }
        if off {
            nostuff = true;
        }
        i += 1;
    }
    proof {
        assert(part.variants@.subrange(0, part.variants@.len() as int) =~= part.variants@);
    }
    (technology, nostuff)
}

/// Turns the parts of a schematic into line items for the variant
/// `variant`: parts whose device set contains a text of `ignore_list`
/// (ground symbols, frames, fiducials) are skipped; a part's number is its
/// device set, technology and device run together, the variant's technology
/// replacing the part's own; a part that the variant leaves off is no-stuff;
/// parts with the same number and no-stuff state are merged into one item.
pub fn get_line_items_from_parts(
    parts: &Vec<schematic::Part>,
    variant: &schematic::VariantDef,
    ignore_list: &Vec<String>,
) -> (r: Vec<LineItem>)
    requires
        parts@.len() <= i32::MAX,
    ensures
        r@.map_values(|l: LineItem| item_view(l)) == merged_items(parts@, variant.name@, ignore_list@),
        forall|i: int, j: int|
            0 <= i < j < r@.len() ==> !(#[trigger] r@[i].pn@ == #[trigger] r@[j].pn@ && r@[i].nostuff
                == r@[j].nostuff),
        forall|i: int|
            0 <= i < r@.len() ==> (#[trigger] r@[i]).quantity == kept_count(
                parts@,
                variant.name@,
                ignore_list@,
                r@[i].pn@,
                r@[i].nostuff,
            ),
        forall|k: int|
            0 <= k < parts@.len() && !ignored(#[trigger] parts@[k].deviceset@, ignore_list@) ==> exists|i: int|
                0 <= i < r@.len() && (#[trigger] r@[i]).pn@ == part_number_of(parts@[k], variant.name@)
                    && r@[i].nostuff == no_stuff_in(parts@[k].variants@, variant.name@),
{
    let mut list: Vec<LineItem> = Vec::new();
    let mut k: usize = 0;
    while k < parts.len()
        invariant
            k <= parts@.len(),
            parts@.len() <= i32::MAX,
            list@.map_values(|l: LineItem| item_view(l)) == merged_items(
                parts@.subrange(0, k as int),
                variant.name@,
                ignore_list@,
            ),
            forall|i: int| 0 <= i < list@.len() ==> 1 <= #[trigger] list@[i].quantity <= k,
        decreases parts@.len() - k,
    {
        let part = &parts[k];
        let ghost pre = parts@.subrange(0, k as int);
        let ghost post = parts@.subrange(0, k + 1);
        let ghost before = list@.map_values(|l: LineItem| item_view(l));
        proof {
            assert(post.drop_last() =~= pre);
            assert(post.last() == *part);
        }
        if !is_ignored(&part.deviceset, ignore_list) {
            let (technology, nostuff) = variant_settings(part, &variant.name);
            let head = concat(part.deviceset.as_str(), technology.as_str());
            let pn = concat(head.as_str(), part.device.as_str());
            let mut j: usize = 0;
            let mut found = false;
            while j < list.len()
                invariant_except_break
                    !found,
                invariant
                    j <= list@.len(),
                    forall|i: int| 0 <= i < j ==> !(#[trigger] list@[i].pn@ == pn@ && list@[i].nostuff == nostuff),
                ensures
                    found ==> j < list@.len() && list@[j as int].pn@ == pn@ && list@[j as int].nostuff == nostuff,
                    !found ==> j == list@.len(),
                    forall|i: int| 0 <= i < j ==> !(#[trigger] list@[i].pn@ == pn@ && list@[i].nostuff == nostuff),
                decreases list@.len() - j,
            {
                if list[j].pn == pn && list[j].nostuff == nostuff {
                    found = true;
                    break;
                }
                j += 1;
            }
            proof {
                assert forall|i: int| 0 <= i < j implies !(#[trigger] before[i].1 == pn@ && before[i].3 == nostuff) by {
                    assert(before[i] == item_view(list@[i]));
                }
                lemma_find_item(before, pn@, nostuff, j as int);
            }
            if found {
                let spaced = concat(list[j].name.as_str(), " ");
                let name = concat(spaced.as_str(), part.name.as_str());
                let updated = LineItem {
                    name,
                    pn: list[j].pn.clone(),
                    quantity: list[j].quantity + 1,
                    nostuff,
                };
                list.set(j, updated);
                proof {
                    reveal_strlit(" ");
                    assert(" "@ =~= seq![' ']);
                    assert(list@[j as int].name@ =~= before[j as int].0 + seq![' '] + part.name@);
                    assert(list@.map_values(|l: LineItem| item_view(l)) =~= merged_items(
                        post,
                        variant.name@,
                        ignore_list@,
                    ));
                }
            } else {
                list.push(LineItem { name: part.name.clone(), pn, quantity: 1, nostuff });
                proof {
                    assert(list@.map_values(|l: LineItem| item_view(l)) =~= merged_items(
                        post,
                        variant.name@,
                        ignore_list@,
                    ));
                }
            }
        } else {
            proof {
                assert(list@.map_values(|l: LineItem| item_view(l)) =~= merged_items(post, variant.name@, ignore_list@));
            }
        }
        k += 1;
    }
    proof {
        assert(parts@.subrange(0, parts@.len() as int) =~= parts@);
        lemma_merged_items_distinct(parts@, variant.name@, ignore_list@);
        let m = list@.map_values(|l: LineItem| item_view(l));
        assert forall|i: int, j: int| 0 <= i < j < list@.len() implies !(#[trigger] list@[i].pn@
            == #[trigger] list@[j].pn@ && list@[i].nostuff == list@[j].nostuff) by {
            let mi = merged_items(parts@, variant.name@, ignore_list@);
            assert(mi[i] == item_view(list@[i]));
            assert(mi[j] == item_view(list@[j]));
            assert(!(mi[i].1 == mi[j].1 && mi[i].3 == mi[j].3));
        }
        lemma_merged_items_count(parts@, variant.name@, ignore_list@);
        let mi = merged_items(parts@, variant.name@, ignore_list@);
        assert forall|i: int| 0 <= i < list@.len() implies (#[trigger] list@[i]).quantity == kept_count(
            parts@,
            variant.name@,
            ignore_list@,
            list@[i].pn@,
            list@[i].nostuff,
        ) by {
            assert(mi[i] == item_view(list@[i]));
        }
        assert forall|k: int| 0 <= k < parts@.len() && !ignored(#[trigger] parts@[k].deviceset@, ignore_list@)
            implies exists|i: int|
            0 <= i < list@.len() && (#[trigger] list@[i]).pn@ == part_number_of(parts@[k], variant.name@)
                && list@[i].nostuff == no_stuff_in(parts@[k].variants@, variant.name@) by {
            let pn = part_number_of(parts@[k], variant.name@);
            let ns = no_stuff_in(parts@[k].variants@, variant.name@);
            lemma_kept_part_counted(parts@, variant.name@, ignore_list@, k);
            let g = find_item(mi, pn, ns);
            lemma_find_item_result(mi, pn, ns);
            assert(mi[g] == item_view(list@[g]));
        }
    }
    list
}

/// A part as the schematic's library describes it.
#[derive(Clone, Debug)]
pub struct SimplePart {
    pub pn: String,
    pub mpn: String,
    pub descr: String,
    pub ver: i32,
    pub mqty: i32,
    pub nostuff: bool,
}

/// The indices name a technology of a device of a device set of `lib`.
pub open spec fn valid_at(lib: schematic::Library, a: int, b: int, c: int) -> bool {
    &&& 0 <= a < lib.devicesets.deviceset@.len()
    &&& 0 <= b < lib.devicesets.deviceset@[a].devices.device@.len()
    &&& 0 <= c < lib.devicesets.deviceset@[a].devices.device@[b].technologies.technology@.len()
}

/// Part number of that technology: device set, technology and device names run together.
pub open spec fn key_at(lib: schematic::Library, a: int, b: int, c: int) -> Seq<char> {
    let ds = lib.devicesets.deviceset@[a];
    let dev = ds.devices.device@[b];
    ds.name@ + dev.technologies.technology@[c].name@ + dev.name@
}

/// The technology at `(a, b, c)` has part number `pn`, and none before it does.
pub open spec fn first_match(lib: schematic::Library, pn: Seq<char>, a: int, b: int, c: int) -> bool {
    &&& valid_at(lib, a, b, c)
    &&& key_at(lib, a, b, c) == pn
    &&& forall|a2: int, b2: int, c2: int|
        valid_at(lib, a2, b2, c2) && (a2 < a || (a2 == a && b2 < b) || (a2 == a && b2 == b && c2 < c))
            ==> #[trigger] key_at(lib, a2, b2, c2) != pn
}

/// No technology of `lib` has part number `pn`.
pub open spec fn no_match(lib: schematic::Library, pn: Seq<char>) -> bool {
    forall|a: int, b: int, c: int| valid_at(lib, a, b, c) ==> #[trigger] key_at(lib, a, b, c) != pn
}

/// The attributes of a technology, none when it has no list.
pub open spec fn attributes_at(lib: schematic::Library, a: int, b: int, c: int) -> Seq<schematic::Attribute> {
    match lib.devicesets.deviceset@[a].devices.device@[b].technologies.technology@[c].attribute {
        Some(v) => v@,
        None => Seq::empty(),
    }
}

/// (manufacturer part number, description, multiplier quantity) after the
/// library attributes: blank values are skipped, `MPN`, `DESC` and `MQTY`
/// set their field, others are ignored. `None` when an `MQTY` value is not
/// an integer.
pub open spec fn apply_attributes(v: (Seq<char>, Seq<char>, int), attrs: Seq<schematic::Attribute>) -> Option<
    (Seq<char>, Seq<char>, int),
>
    decreases attrs.len(),
{
    if attrs.len() == 0 {
        Some(v)
    } else {
        match apply_attributes(v, attrs.drop_last()) {
            None => None,
            Some(w) => {
                let a = attrs.last();
                if a.value@.len() == 0 {
                    Some(w)
                } else if a.name@ == "MPN"@ {
                    Some((a.value@, w.1, w.2))
                } else if a.name@ == "DESC"@ {
                    Some((w.0, a.value@, w.2))
                } else if a.name@ == "MQTY"@ {
                    match parsed_i32(trimmed(a.value@)) {
                        Some(q) => Some((w.0, w.1, q as int)),
                        None => None,
                    }
                } else {
                    Some(w)
                }
            },
        }
    }
}

/// The part description after the libraries `libs`: each library named
/// `library_name` in which a technology has part number `pn` applies the
/// attributes of the first such technology.
pub open spec fn library_fold(
    libs: Seq<schematic::Library>,
    library_name: Seq<char>,
    pn: Seq<char>,
    init: (Seq<char>, Seq<char>, int),
) -> Option<(Seq<char>, Seq<char>, int)>
    decreases libs.len(),
{
    if libs.len() == 0 {
        Some(init)
    } else {
        match library_fold(libs.drop_last(), library_name, pn, init) {
            None => None,
            Some(w) => {
                let lib = libs.last();
                if lib.name@ == library_name && !no_match(lib, pn) {
                    let t = choose|t: (int, int, int)| first_match(lib, pn, t.0, t.1, t.2);
                    apply_attributes(w, attributes_at(lib, t.0, t.1, t.2))
                } else {
                    Some(w)
                }
            },
        }
    }
}

/// Finds the first technology of `lib` whose part number is `pn`.
fn find_technology(lib: &schematic::Library, pn: &String) -> (r: Option<(usize, usize, usize)>)
    ensures
        r is None <==> no_match(*lib, pn@),
        r matches Some(t) ==> first_match(*lib, pn@, t.0 as int, t.1 as int, t.2 as int),
{
    let sets = &lib.devicesets.deviceset;
    let mut a: usize = 0;
    while a < sets.len()
        invariant
            sets@ == lib.devicesets.deviceset@,
            a <= sets@.len(),
            forall|a2: int, b2: int, c2: int|
                valid_at(*lib, a2, b2, c2) && a2 < a ==> #[trigger] key_at(*lib, a2, b2, c2) != pn@,
        decreases sets@.len() - a,
    {
        let ds = &sets[a];
        let devs = &ds.devices.device;
        let mut b: usize = 0;
        while b < devs.len()
            invariant
                sets@ == lib.devicesets.deviceset@,
                a < sets@.len(),
                *ds == sets@[a as int],
                devs@ == ds.devices.device@,
                b <= devs@.len(),
                forall|a2: int, b2: int, c2: int|
                    valid_at(*lib, a2, b2, c2) && (a2 < a || (a2 == a && b2 < b)) ==> #[trigger] key_at(
                        *lib,
                        a2,
                        b2,
                        c2,
                    ) != pn@,
            decreases devs@.len() - b,
        {
            let dev = &devs[b];
            let techs = &dev.technologies.technology;
            let mut c: usize = 0;
            while c < techs.len()
                invariant
                    sets@ == lib.devicesets.deviceset@,
                    a < sets@.len(),
                    *ds == sets@[a as int],
                    devs@ == ds.devices.device@,
                    b < devs@.len(),
                    *dev == devs@[b as int],
                    techs@ == dev.technologies.technology@,
                    c <= techs@.len(),
                    forall|a2: int, b2: int, c2: int|
                        valid_at(*lib, a2, b2, c2) && (a2 < a || (a2 == a && b2 < b) || (a2 == a && b2 == b && c2
                            < c)) ==> #[trigger] key_at(*lib, a2, b2, c2) != pn@,
                decreases techs@.len() - c,
            {
                let head = concat(ds.name.as_str(), techs[c].name.as_str());
                let key = concat(head.as_str(), dev.name.as_str());
                proof {
                    assert(key@ == key_at(*lib, a as int, b as int, c as int));
                }
                if key == *pn {
                    return Some((a, b, c));
                }
                c += 1;
            }
            b += 1;
        }
        a += 1;
    }
    None
}

/// Applies library attributes to (manufacturer part number, description,
/// multiplier quantity); `None` when an `MQTY` value is not an integer.
fn apply_attribute_list(attrs: &Vec<schematic::Attribute>, mpn0: String, descr0: String, mqty0: i32) -> (r: Option<
    (String, String, i32),
>)
    ensures
        match apply_attributes((mpn0@, descr0@, mqty0 as int), attrs@) {
            None => r is None,
            Some(v) => r matches Some(t) && t.0@ == v.0 && t.1@ == v.1 && t.2 as int == v.2,
        },
{
    let mut mpn = mpn0;
    let mut descr = descr0;
    let mut mqty = mqty0;
    let ghost init = (mpn@, descr@, mqty as int);
    let mut i: usize = 0;
    while i < attrs.len()
        invariant
            i <= attrs@.len(),
            init == (mpn0@, descr0@, mqty0 as int),
            apply_attributes(init, attrs@.subrange(0, i as int)) == Some((mpn@, descr@, mqty as int)),
        decreases attrs@.len() - i,
    {
        let at = &attrs[i];
        proof {
            assert(attrs@.subrange(0, i + 1).drop_last() =~= attrs@.subrange(0, i as int));
            assert(attrs@.subrange(0, i + 1).last() == *at);
        }
        if at.value.as_str().unicode_len() == 0 {
        } else if text_eq(at.name.as_str(), "MPN") {
            mpn = at.value.clone();
        } else if text_eq(at.name.as_str(), "DESC") {
            descr = at.value.clone();
        } else if text_eq(at.name.as_str(), "MQTY") {
            let t = trim(at.value.as_str());
            match parse_i32(t.as_str()) {
                Some(q) => {
                    mqty = q;
                },
                None => {
                    proof {
                        assert(apply_attributes(init, attrs@.subrange(0, i + 1)) is None);
                        lemma_apply_attributes_stays_failed(init, attrs@, i as int + 1);
                        assert(attrs@.subrange(0, attrs@.len() as int) =~= attrs@);
                    }
                    return None;
                },
            }
        }
        i += 1;
    }
    proof {
        assert(attrs@.subrange(0, attrs@.len() as int) =~= attrs@);
    }
    Some((mpn, descr, mqty))
}

proof fn lemma_apply_attributes_stays_failed(
    init: (Seq<char>, Seq<char>, int),
    attrs: Seq<schematic::Attribute>,
    n: int,
)
    requires
        0 <= n <= attrs.len(),
        apply_attributes(init, attrs.subrange(0, n)) is None,
    ensures
        apply_attributes(init, attrs.subrange(0, attrs.len() as int)) is None,
    decreases attrs.len() - n,
{
    if n < attrs.len() {
        assert(attrs.subrange(0, n + 1).drop_last() =~= attrs.subrange(0, n));
        lemma_apply_attributes_stays_failed(init, attrs, n + 1);
    }
}

proof fn lemma_library_fold_stays_failed(
    libs: Seq<schematic::Library>,
    library_name: Seq<char>,
    pn: Seq<char>,
    init: (Seq<char>, Seq<char>, int),
    n: int,
)
    requires
        0 <= n <= libs.len(),
        library_fold(libs.subrange(0, n), library_name, pn, init) is None,
    ensures
        library_fold(libs, library_name, pn, init) is None,
    decreases libs.len() - n,
{
    if n < libs.len() {
        assert(libs.subrange(0, n + 1).drop_last() =~= libs.subrange(0, n));
        lemma_library_fold_stays_failed(libs, library_name, pn, init, n + 1);
    } else {
        assert(libs.subrange(0, n) =~= libs);
    }
}

/// Describes a line item from the schematic's library `library_name`: the
/// part number, no-stuff state and (until an `MQTY` attribute says
/// otherwise) quantity of the item, with the `MPN`, `DESC` and `MQTY`
/// attributes of the first technology whose part number is the item's, in
/// each library of that name. Fails with `InvalidInput` when an `MQTY`
/// value is not an integer.
pub fn get_simplepart_from_library(item: &LineItem, eagle: &schematic::Eagle, library_name: &str) -> (r: Result<
    SimplePart,
    Error,
>)
    ensures
        match library_fold(
            eagle.drawing.schematic.libraries.library@,
            library_name@,
            item.pn@,
            (Seq::empty(), Seq::empty(), item.quantity as int),
        ) {
            None => r == Err::<SimplePart, Error>(Error::InvalidInput),
            Some(v) => r matches Ok(p) && p.mpn@ == v.0 && p.descr@ == v.1 && p.mqty as int == v.2 && p.pn@
                == item.pn@ && p.nostuff == item.nostuff && p.ver == 0,
        },
{
    let libs = &eagle.drawing.schematic.libraries.library;
    let ghost init = (Seq::<char>::empty(), Seq::<char>::empty(), item.quantity as int);
    let mut mpn = String::new();
    let mut descr = String::new();
    let mut mqty = item.quantity;
    let mut i: usize = 0;
    while i < libs.len()
        invariant
            i <= libs@.len(),
            libs@ == eagle.drawing.schematic.libraries.library@,
            init == (Seq::<char>::empty(), Seq::<char>::empty(), item.quantity as int),
            library_fold(libs@.subrange(0, i as int), library_name@, item.pn@, init) == Some(
                (mpn@, descr@, mqty as int),
            ),
        decreases libs@.len() - i,
    {
        let lib = &libs[i];
        proof {
            assert(libs@.subrange(0, i + 1).drop_last() =~= libs@.subrange(0, i as int));
            assert(libs@.subrange(0, i + 1).last() == *lib);
        }
        if text_eq(lib.name.as_str(), library_name) {
            match find_technology(lib, &item.pn) {
                Some(t) => {
                    let tech = &lib.devicesets.deviceset[t.0].devices.device[t.1].technologies.technology[t.2];
                    let empty: Vec<schematic::Attribute> = Vec::new();
                    let attrs = match &tech.attribute {
                        Some(v) => v,
                        None => &empty,
                    };
                    proof {
                        let c = choose|c: (int, int, int)| first_match(*lib, item.pn@, c.0, c.1, c.2);
                        lemma_first_match_unique(*lib, item.pn@, c, (t.0 as int, t.1 as int, t.2 as int));
                        assert(attrs@ == attributes_at(*lib, t.0 as int, t.1 as int, t.2 as int));
                    }
                    match apply_attribute_list(attrs, mpn, descr, mqty) {
                        Some(v) => {
                            mpn = v.0;
                            descr = v.1;
                            mqty = v.2;
                        },
                        None => {
                            proof {
                                lemma_library_fold_stays_failed(libs@, library_name@, item.pn@, init, i + 1);
                            }
                            return Err(Error::InvalidInput);
                        },
                    }
                },
                None => {},
            }
        }
        i += 1;
    }
    proof {
        assert(libs@.subrange(0, libs@.len() as int) =~= libs@);
    }
    Ok(SimplePart { pn: item.pn.clone(), mpn, descr, ver: 0, mqty, nostuff: item.nostuff })
}

proof fn lemma_first_match_unique(lib: schematic::Library, pn: Seq<char>, s: (int, int, int), t: (int, int, int))
    requires
        first_match(lib, pn, s.0, s.1, s.2),
        first_match(lib, pn, t.0, t.1, t.2),
    ensures
        s == t,
{
    if s.0 < t.0 || (s.0 == t.0 && s.1 < t.1) || (s.0 == t.0 && s.1 == t.1 && s.2 < t.2) {
        assert(key_at(lib, s.0, s.1, s.2) != pn);
    } else if t.0 < s.0 || (t.0 == s.0 && t.1 < s.1) || (t.0 == s.0 && t.1 == s.1 && t.2 < s.2) {
        assert(key_at(lib, t.0, t.1, t.2) != pn);
    }
}

/// The new description of a part differs from the stored one in its
/// manufacturer part number, its description or its version, so that
/// importing it would change the part.
pub fn part_differs(new: &NewUpdatePart, existing: &Part) -> (r: bool)
    ensures
        r == (new.mpn@ != existing.mpn@ || new.descr@ != existing.descr@ || new.ver != existing.ver),
{
    !(new.mpn == existing.mpn) || !(new.descr == existing.descr) || new.ver != existing.ver
}

/// The value of the last attribute named `name`, if any.
pub open spec fn last_attribute(attrs: Seq<schematic::Attribute>, name: Seq<char>) -> Option<Seq<char>>
    decreases attrs.len(),
{
    if attrs.len() == 0 {
        None
    } else if attrs.last().name@ == name {
        Some(attrs.last().value@)
    } else {
        last_attribute(attrs.drop_last(), name)
    }
}

/// Reads the assembly's own part number and description from the global
/// attributes `PN` and `DESC` of a schematic (the last of each name wins; a
/// missing description is empty). Fails with `InvalidInput` when there is
/// no `PN` attribute.
pub fn schematic_part_number(eagle: &schematic::Eagle) -> (r: Result<(String, String), Error>)
    ensures
        r is Err <==> last_attribute(eagle.drawing.schematic.attributes.attribute@, "PN"@) is None,
        r is Err ==> r->Err_0 == Error::InvalidInput,
        r matches Ok(v) ==> {
            &&& last_attribute(eagle.drawing.schematic.attributes.attribute@, "PN"@) == Some(v.0@)
            &&& v.1@ == match last_attribute(eagle.drawing.schematic.attributes.attribute@, "DESC"@) {
                Some(d) => d,
                None => Seq::empty(),
            }
        },
{
    let attrs = &eagle.drawing.schematic.attributes.attribute;
    let mut pn: Option<String> = None;
    let mut desc = String::new();
    let mut i: usize = 0;
    while i < attrs.len()
        invariant
            i <= attrs@.len(),
            attrs@ == eagle.drawing.schematic.attributes.attribute@,
            match last_attribute(attrs@.subrange(0, i as int), "PN"@) {
                Some(v) => pn matches Some(p) && p@ == v,
                None => pn is None,
            },
            desc@ == match last_attribute(attrs@.subrange(0, i as int), "DESC"@) {
                Some(d) => d,
                None => Seq::empty(),
            },
        decreases attrs@.len() - i,
    {
        let at = &attrs[i];
        proof {
            assert(attrs@.subrange(0, i + 1).drop_last() =~= attrs@.subrange(0, i as int));
            assert(attrs@.subrange(0, i + 1).last() == *at);
        }
        if text_eq(at.name.as_str(), "DESC") {
            desc = at.value.clone();
        }
        if text_eq(at.name.as_str(), "PN") {
            pn = Some(at.value.clone());
        }
        i += 1;
    }
    proof {
        assert(attrs@.subrange(0, attrs@.len() as int) =~= attrs@);
    }
    match pn {
        Some(p) => Ok((p, desc)),
        None => Err(Error::InvalidInput),
    }
}

/// The variant definition is the active one: `current` is `yes`.
pub open spec fn is_current(v: schematic::VariantDef) -> bool {
    v.current is Some && v.current->0@ == "yes"@
}

/// The first active variant of a schematic, if any.
pub fn current_variant(eagle: &schematic::Eagle) -> (r: Option<schematic::VariantDef>)
    ensures
        r is None <==> forall|i: int|
            0 <= i < eagle.drawing.schematic.variantdefs.variantdef@.len() ==> !is_current(
                #[trigger] eagle.drawing.schematic.variantdefs.variantdef@[i],
            ),
        r matches Some(v) ==> exists|i: int|
            0 <= i < eagle.drawing.schematic.variantdefs.variantdef@.len() && is_current(
                #[trigger] eagle.drawing.schematic.variantdefs.variantdef@[i],
            ) && v.name@ == eagle.drawing.schematic.variantdefs.variantdef@[i].name@ && v.current
                == eagle.drawing.schematic.variantdefs.variantdef@[i].current && forall|j: int|
                0 <= j < i ==> !is_current(#[trigger] eagle.drawing.schematic.variantdefs.variantdef@[j]),
{
    let defs = &eagle.drawing.schematic.variantdefs.variantdef;
    let mut i: usize = 0;
    while i < defs.len()
        invariant
            i <= defs@.len(),
            defs@ == eagle.drawing.schematic.variantdefs.variantdef@,
            forall|j: int| 0 <= j < i ==> !is_current(#[trigger] defs@[j]),
        decreases defs@.len() - i,
    {
        let d = &defs[i];
        let active = match &d.current {
            Some(c) => text_eq(c.as_str(), "yes"),
            None => false,
        };
        if active {
            let current = match &d.current {
                Some(c) => Some(c.clone()),
                None => None,
            };
            let v = schematic::VariantDef { name: d.name.clone(), current };
            proof {
                assert(is_current(defs@[i as int]));
            }
            return Some(v);
        }
        i += 1;
    }
    None
}

/// One row of a bill of materials as shown or exported: the line, its
/// component's part record and the component's quantity on hand.
#[derive(Clone, Debug)]
pub struct BomEntry {
    pub pn: String,
    pub quantity: i32,
    pub refdes: String,
    pub mpn: String,
    pub descr: String,
    pub ver: i32,
    pub inventory_qty: i64,
    pub no_stuff: bool,
}

/// `e` is the row of line `l`, whose component is `part`.
pub open spec fn is_bom_entry(e: BomEntry, l: PartsPart, lots: Seq<Inventory>, part: Part) -> bool {
    &&& e.pn@ == part.pn@
    &&& e.quantity == l.quantity
    &&& e.refdes@ == l.refdes@
    &&& e.mpn@ == part.mpn@
    &&& e.descr@ == part.descr@
    &&& e.ver == part.ver
    &&& e.inventory_qty == on_hand(lots, l.part_id)
    &&& e.no_stuff == l.nostuff
}

/// The rows of the given bill-of-materials lines, in their order: each with
/// its component's part number, manufacturer part number, description and
/// version (from the first part with that id) and quantity on hand. Fails
/// with `NotFound` when a line's component has no part record.
pub fn bom_entries(lines: &Vec<PartsPart>, lots: &Vec<Inventory>, parts: &Vec<Part>) -> (r: Result<
    Vec<BomEntry>,
    Error,
>)
    requires
        fits_store(lots@.len() as int),
    ensures
        r is Err <==> exists|i: int| 0 <= i < lines@.len() && !part_known(parts@, #[trigger] lines@[i].part_id),
        r is Err ==> r->Err_0 == Error::NotFound,
        r matches Ok(v) ==> {
            &&& v@.len() == lines@.len()
            &&& forall|i: int|
                0 <= i < v@.len() ==> is_bom_entry(
                    #[trigger] v@[i],
                    lines@[i],
                    lots@,
                    parts@[id_index(parts@, lines@[i].part_id)],
                )
        },
{
    let mut out: Vec<BomEntry> = Vec::new();
    let mut i: usize = 0;
    while i < lines.len()
        invariant
            i <= lines@.len(),
            fits_store(lots@.len() as int),
            out@.len() == i,
            forall|m: int|
                0 <= m < i ==> is_bom_entry(
                    #[trigger] out@[m],
                    lines@[m],
                    lots@,
                    parts@[id_index(parts@, lines@[m].part_id)],
                ),
            forall|m: int| 0 <= m < i ==> part_known(parts@, #[trigger] lines@[m].part_id),
        decreases lines@.len() - i,
    {
        let l = &lines[i];
        let j = match find_part_by_id(parts, l.part_id) {
            Some(j) => j,
            None => {
                return Err(Error::NotFound);
            },
        };
        let part = &parts[j];
        let stock = quantity_on_hand(lots, l.part_id);
        let ghost old_out = out@;
        out.push(
            BomEntry {
                pn: part.pn.clone(),
                quantity: l.quantity,
                refdes: l.refdes.clone(),
                mpn: part.mpn.clone(),
                descr: part.descr.clone(),
                ver: part.ver,
                inventory_qty: stock,
                no_stuff: l.nostuff,
            },
        );
        proof {
            lemma_id_index(parts@, l.part_id, j as int);
            assert(parts@[j as int].id == l.part_id);
            assert forall|m: int| 0 <= m < i + 1 implies is_bom_entry(
                #[trigger] out@[m],
                lines@[m],
                lots@,
                parts@[id_index(parts@, lines@[m].part_id)],
            ) by {
                if m < i {
                    assert(out@[m] == old_out[m]);
                }
            }
        }
        i += 1;
    }
    Ok(out)
}

} // verus!
