//! Moving and turning placed components.

use crate::decimal::{millionths_text, write_millionths};
use crate::geometry::{coincident, points_coincident, COINCIDENT_TOLERANCE};
use crate::intent::ComponentTarget;
use crate::lists::{lemma_positions, positions_where};
use crate::sync_plan::clamped;
use crate::symbol::SheetSymbol;
use crate::text::{concat3, concat5, contains_text, owned, text_eq, texts};
use vstd::prelude::*;
use vstd::string::*;

verus! {

/// A full turn in millionths of a degree.
pub const FULL_TURN: i64 = 360_000_000;

/// What moving a component leaves as it is in its units.
pub open spec fn only_moved(
    before: crate::intent::ComponentTargetUnit,
    after: crate::intent::ComponentTargetUnit,
) -> bool {
    &&& after.uuid == before.uuid
    &&& after.unit == before.unit
    &&& after.fields == before.fields
    &&& after.lib_id == before.lib_id
    &&& after.mirror == before.mirror
    &&& after.instances == before.instances
}

fn clamp_sum(a: i64, b: i128) -> (res: i64)
    requires
        -0x2_0000_0000_0000_0000 <= b <= 0x2_0000_0000_0000_0000,
    ensures
        res == clamped(a + b),
{
    let sum: i128 = a as i128 + b;
    if sum > i64::MAX as i128 {
        i64::MAX
    } else if sum < i64::MIN as i128 {
        i64::MIN
    } else {
        sum as i64
    }
}

/// Moves every unit of a component by the same distance: the one that takes
/// its anchor from `old` to `new`.
pub fn move_target(
    target: &mut ComponentTarget,
    old_x: i64,
    old_y: i64,
    new_x: i64,
    new_y: i64,
)
    ensures
        final(target).reference == old(target).reference,
        final(target).units@.len() == old(target).units@.len(),
        forall|i: int|
            0 <= i < old(target).units@.len() ==> {
                &&& only_moved(old(target).units@[i], #[trigger] final(target).units@[i])
                &&& final(target).units@[i].rotation == old(target).units@[i].rotation
                &&& final(target).units@[i].x == clamped(
                    old(target).units@[i].x + (new_x - old_x),
                )
                &&& final(target).units@[i].y == clamped(
                    old(target).units@[i].y + (new_y - old_y),
                )
            },
{
    let ghost all = target.units@;
    let dx: i128 = new_x as i128 - old_x as i128;
    let dy: i128 = new_y as i128 - old_y as i128;
    let mut i: usize = 0;
    while i < target.units.len()
        invariant
            i <= target.units@.len(),
            target.units@.len() == all.len(),
            all == old(target).units@,
            target.reference == old(target).reference,
            dx == new_x - old_x,
            dy == new_y - old_y,
            forall|j: int|
                0 <= j < i ==> {
                    &&& only_moved(all[j], #[trigger] target.units@[j])
                    &&& target.units@[j].rotation == all[j].rotation
                    &&& target.units@[j].x == clamped(all[j].x + (new_x - old_x))
                    &&& target.units@[j].y == clamped(all[j].y + (new_y - old_y))
                },
            forall|j: int| i <= j < all.len() ==> #[trigger] target.units@[j] == all[j],
        decreases target.units@.len() - i,
    {
        let x: i64 = clamp_sum(target.units[i].x, dx);
        let y: i64 = clamp_sum(target.units[i].y, dy);
        target.units[i].x = x;
        target.units[i].y = y;
        i += 1;
    }
}

/// The angle brought into one turn.
pub open spec fn within_turn(angle: int) -> int {
    angle % (FULL_TURN as int)
}

fn normalised(angle: i128) -> (res: i64)
    requires
        -0x4_0000_0000_0000_0000 <= angle <= 0x4_0000_0000_0000_0000,
    ensures
        res == within_turn(angle as int),
        0 <= res < FULL_TURN,
{
    let turn: i128 = FULL_TURN as i128;
    if angle >= 0 {
        (angle % turn) as i64
    } else {
        let up: i128 = -angle;
        let rest: i128 = up % turn;
        let res: i128 = if rest == 0 {
            0
        } else {
            turn - rest
        };
        proof {
            let (u, t, a) = (up as int, turn as int, angle as int);
            vstd::arithmetic::div_mod::lemma_fundamental_div_mod(u, t);
            let q = u / t;
            let r = u % t;
            if r == 0 {
                assert(a == t * (-q) + 0) by (nonlinear_arith)
                    requires
                        u == t * q + r,
                        u == -a,
                        r == 0,
                ;
                vstd::arithmetic::div_mod::lemma_fundamental_div_mod_converse(a, t, -q, 0);
            } else {
                assert(a == t * (-q - 1) + (t - r)) by (nonlinear_arith)
                    requires
                        u == t * q + r,
                        u == -a,
                ;
                vstd::arithmetic::div_mod::lemma_fundamental_div_mod_converse(
                    a,
                    t,
                    -q - 1,
                    t - r,
                );
            }
        }
        res as i64
    }
}

/// Turns every unit of a component by the same angle: the one that takes its
/// anchor from `old` to `new`. Every angle is brought into one turn, which is
/// what KiCad stores.
pub fn rotate_target(target: &mut ComponentTarget, old_rotation: i64, new_rotation: i64)
    ensures
        final(target).reference == old(target).reference,
        final(target).units@.len() == old(target).units@.len(),
        forall|i: int|
            0 <= i < old(target).units@.len() ==> {
                &&& only_moved(old(target).units@[i], #[trigger] final(target).units@[i])
                &&& final(target).units@[i].x == old(target).units@[i].x
                &&& final(target).units@[i].y == old(target).units@[i].y
                &&& final(target).units@[i].rotation == within_turn(
                    old(target).units@[i].rotation + (new_rotation - old_rotation),
                )
                &&& 0 <= final(target).units@[i].rotation < FULL_TURN
            },
{
    let ghost all = target.units@;
    let delta: i128 = new_rotation as i128 - old_rotation as i128;
    let mut i: usize = 0;
    while i < target.units.len()
        invariant
            i <= target.units@.len(),
            target.units@.len() == all.len(),
            all == old(target).units@,
            target.reference == old(target).reference,
            delta == new_rotation - old_rotation,
            forall|j: int|
                0 <= j < i ==> {
                    &&& only_moved(all[j], #[trigger] target.units@[j])
                    &&& target.units@[j].x == all[j].x
                    &&& target.units@[j].y == all[j].y
                    &&& target.units@[j].rotation == within_turn(
                        all[j].rotation + (new_rotation - old_rotation),
                    )
                    &&& 0 <= target.units@[j].rotation < FULL_TURN
                },
            forall|j: int| i <= j < all.len() ==> #[trigger] target.units@[j] == all[j],
        decreases target.units@.len() - i,
    {
        let angle: i64 = normalised(target.units[i].rotation as i128 + delta);
        target.units[i].rotation = angle;
        i += 1;
    }
}

/// The units of a component keep their places relative to each other when it
/// is moved, as long as nothing runs out of range.
pub proof fn law_moving_keeps_the_shape(a: i64, b: i64, delta: int)
    requires
        i64::MIN <= a + delta <= i64::MAX,
        i64::MIN <= b + delta <= i64::MAX,
    ensures
        clamped(a + delta) - clamped(b + delta) == a - b,
{
}

/// The anchor of a component lands on the angle that was asked for.
pub proof fn law_the_anchor_lands_on_its_angle(old_rotation: i64, new_rotation: i64)
    requires
        0 <= new_rotation < FULL_TURN,
    ensures
        within_turn(old_rotation + (new_rotation - old_rotation)) == new_rotation,
{
    vstd::arithmetic::div_mod::lemma_small_mod(new_rotation as nat, FULL_TURN as nat);
}

/// Turning a component back restores the angle of each of its units.
pub proof fn law_turning_back_restores(rotation: int, from: int, to: int)
    requires
        0 <= rotation < FULL_TURN,
    ensures
        within_turn(within_turn(rotation + (to - from)) + (from - to)) == rotation,
{
    let turn = FULL_TURN as int;
    let there = rotation + (to - from);
    vstd::arithmetic::div_mod::lemma_add_mod_noop(there, from - to, turn);
    vstd::arithmetic::div_mod::lemma_add_mod_noop(within_turn(there), from - to, turn);
    vstd::arithmetic::div_mod::lemma_mod_twice(there, turn);
    vstd::arithmetic::div_mod::lemma_small_mod(rotation as nat, turn as nat);
    assert(there + (from - to) == rotation);
}

/// The units of a component keep their angles relative to each other when it
/// is turned.
pub proof fn law_turning_keeps_the_shape(a: int, b: int, delta: int)
    ensures
        within_turn(within_turn(a + delta) - within_turn(b + delta)) == within_turn(a - b),
{
    vstd::arithmetic::div_mod::lemma_sub_mod_noop(a + delta, b + delta, FULL_TURN as int);
    assert((a + delta) - (b + delta) == a - b);
}

/// Where a symbol of a moved region is to be.
#[derive(PartialEq, Eq, Debug)]
pub struct PlannedMove {
    pub uuid: String,
    pub x: i64,
    pub y: i64,
}

/// A symbol of a moved region as it was read back.
#[derive(PartialEq, Eq, Debug)]
pub struct MovedSymbol {
    pub reference: String,
    pub unit: u32,
    pub x: i64,
    pub y: i64,
}

/// The content of a [`MovedSymbol`].
pub struct MovedView {
    pub reference: Seq<char>,
    pub unit: u32,
    pub x: i64,
    pub y: i64,
}

impl View for MovedSymbol {
    type V = MovedView;

    open spec fn view(&self) -> MovedView {
        MovedView { reference: self.reference@, unit: self.unit, x: self.x, y: self.y }
    }
}

/// The contents of a list of moved symbols.
pub open spec fn moved_views(list: Seq<MovedSymbol>) -> Seq<MovedView> {
    Seq::new(list.len(), |i: int| list[i]@)
}

/// What a moved region was found to hold.
#[derive(PartialEq, Eq, Debug)]
pub struct RegionReport {
    pub references: Vec<String>,
    pub placements: Vec<MovedSymbol>,
}

/// The first of the first `n` symbols with this identifier.
pub open spec fn symbol_with(symbols: Seq<SheetSymbol>, uuid: Seq<char>, n: nat) -> Option<
    SheetSymbol,
>
    decreases n,
{
    if n == 0 {
        None
    } else {
        match symbol_with(symbols, uuid, (n - 1) as nat) {
            Some(symbol) => Some(symbol),
            None => if symbols[n - 1].uuid@ == uuid {
                Some(symbols[n - 1])
            } else {
                None
            },
        }
    }
}

/// The symbol is where it was to be.
pub open spec fn arrived(symbol: SheetSymbol, planned: PlannedMove) -> bool {
    coincident(
        symbol.x as int,
        symbol.y as int,
        planned.x as int,
        planned.y as int,
        COINCIDENT_TOLERANCE as int,
    )
}

/// Why a moved symbol leaves the outcome uncertain, if it does.
pub open spec fn move_fault(symbols: Seq<SheetSymbol>, planned: PlannedMove) -> Option<Seq<char>> {
    let name = "selected symbol UUID "@ + planned.uuid@;
    match symbol_with(symbols, planned.uuid@, symbols.len()) {
        None => Some(name + " is missing from the written schematic"@),
        Some(symbol) => if arrived(symbol, planned) {
            None
        } else {
            Some(
                name + " was written at ("@ + millionths_text(symbol.x as int) + ", "@
                    + millionths_text(symbol.y as int) + "), expected ("@ + millionths_text(
                    planned.x as int,
                ) + ", "@ + millionths_text(planned.y as int) + ")"@,
            )
        },
    }
}

/// The first fault among the first `n` moves.
pub open spec fn moves_fault(symbols: Seq<SheetSymbol>, moves: Seq<PlannedMove>, n: nat) -> Option<
    Seq<char>,
>
    decreases n,
{
    if n == 0 {
        None
    } else {
        match moves_fault(symbols, moves, (n - 1) as nat) {
            Some(fault) => Some(fault),
            None => move_fault(symbols, moves[n - 1]),
        }
    }
}

/// The reference of a symbol, as far as it has one.
pub open spec fn shown_reference(symbol: SheetSymbol) -> Seq<char> {
    match symbol.value_of("Reference"@) {
        Some(reference) => reference,
        None => "?"@,
    }
}

/// The symbols of the first `n` moves as they were read back.
pub open spec fn moved_symbols(symbols: Seq<SheetSymbol>, moves: Seq<PlannedMove>, n: nat) -> Seq<
    MovedView,
>
    decreases n,
{
    if n == 0 {
        Seq::empty()
    } else {
        let symbol = symbol_with(symbols, moves[n - 1].uuid@, symbols.len())->0;
        moved_symbols(symbols, moves, (n - 1) as nat).push(
            MovedView {
                reference: shown_reference(symbol),
                unit: symbol.unit,
                x: symbol.x,
                y: symbol.y,
            },
        )
    }
}

/// The references of these symbols, each once, in the order in which they first
/// occur.
pub open spec fn moved_references(list: Seq<MovedView>) -> Seq<Seq<char>>
    decreases list.len(),
{
    if list.len() == 0 {
        Seq::empty()
    } else {
        let rest = moved_references(list.drop_last());
        if rest.contains(list.last().reference) {
            rest
        } else {
            rest.push(list.last().reference)
        }
    }
}

fn find_symbol(symbols: &Vec<SheetSymbol>, uuid: &str) -> (res: Option<usize>)
    ensures
        match res {
            Some(i) => i < symbols@.len() && symbol_with(symbols@, uuid@, symbols@.len()) == Some(
                symbols@[i as int],
            ),
            None => symbol_with(symbols@, uuid@, symbols@.len()) is None,
        },
{
    let mut i: usize = 0;
    while i < symbols.len()
        invariant
            i <= symbols@.len(),
            symbol_with(symbols@, uuid@, i as nat) is None,
        decreases symbols@.len() - i,
    {
        if text_eq(symbols[i].uuid.as_str(), uuid) {
            proof {
                lemma_symbol_stays(symbols@, uuid@, (i + 1) as nat);
            }
            return Some(i);
        }
        i += 1;
    }
    None
}

proof fn lemma_symbol_stays(symbols: Seq<SheetSymbol>, uuid: Seq<char>, n: nat)
    requires
        n <= symbols.len(),
        symbol_with(symbols, uuid, n) is Some,
    ensures
        symbol_with(symbols, uuid, symbols.len()) == symbol_with(symbols, uuid, n),
    decreases symbols.len() - n,
{
    if n < symbols.len() {
        lemma_symbol_stays(symbols, uuid, n + 1);
    }
}

proof fn lemma_moves_fault_stays(symbols: Seq<SheetSymbol>, moves: Seq<PlannedMove>, n: nat)
    requires
        n <= moves.len(),
        moves_fault(symbols, moves, n) is Some,
    ensures
        moves_fault(symbols, moves, moves.len()) == moves_fault(symbols, moves, n),
    decreases moves.len() - n,
{
    if n < moves.len() {
        lemma_moves_fault_stays(symbols, moves, n + 1);
    }
}

/// The positions of the symbols with these identifiers, in file order.
pub open spec fn chosen_positions(symbols: Seq<SheetSymbol>, chosen: Seq<Seq<char>>, n: nat) -> Seq<
    int,
> {
    positions_where(|i: int| chosen.contains(symbols[i].uuid@), n)
}

/// The moves take exactly the symbols with these identifiers to their places,
/// in file order.
pub open spec fn is_region_plan(
    symbols: Seq<SheetSymbol>,
    chosen: Seq<Seq<char>>,
    places: Seq<(i64, i64)>,
    moves: Seq<PlannedMove>,
    n: nat,
) -> bool {
    let at = chosen_positions(symbols, chosen, n);
    &&& moves.len() == at.len()
    &&& forall|i: int|
        0 <= i < moves.len() ==> {
            &&& (#[trigger] moves[i]).uuid@ == symbols[at[i]].uuid@
            &&& moves[i].x == places[at[i]].0
            &&& moves[i].y == places[at[i]].1
        }
}

/// Plans the move of a region: each chosen symbol goes to its place, and no
/// other moves. Symbols are chosen by identifier, so that one unit of a
/// component can move without the others.
pub fn plan_region_move(
    symbols: &Vec<SheetSymbol>,
    chosen: &Vec<String>,
    places: &Vec<(i64, i64)>,
) -> (res: Vec<PlannedMove>)
    requires
        places@.len() == symbols@.len(),
    ensures
        is_region_plan(symbols@, texts(chosen@), places@, res@, symbols@.len()),
{
    let mut moves: Vec<PlannedMove> = Vec::new();
    let mut i: usize = 0;
    while i < symbols.len()
        invariant
            i <= symbols@.len(),
            places@.len() == symbols@.len(),
            is_region_plan(symbols@, texts(chosen@), places@, moves@, i as nat),
        decreases symbols@.len() - i,
    {
        if contains_text(chosen, symbols[i].uuid.as_str()) {
            let place: (i64, i64) = places[i];
            moves.push(PlannedMove { uuid: symbols[i].uuid.clone(), x: place.0, y: place.1 });
        }
        i += 1;
    }
    moves
}

/// A region that was moved as planned is confirmed, whatever else changed in
/// the file, as long as no two of its symbols have the same identifier.
pub proof fn law_a_planned_move_is_confirmed(
    symbols: Seq<SheetSymbol>,
    chosen: Seq<Seq<char>>,
    places: Seq<(i64, i64)>,
    moves: Seq<PlannedMove>,
    after: Seq<SheetSymbol>,
)
    requires
        places.len() == symbols.len(),
        is_region_plan(symbols, chosen, places, moves, symbols.len()),
        forall|i: int, j: int|
            0 <= i < j < after.len() ==> (#[trigger] after[i]).uuid@ != (#[trigger] after[j]).uuid@,
        forall|i: int|
            0 <= i < symbols.len() && chosen.contains((#[trigger] symbols[i]).uuid@) ==> stands_at(
                after,
                symbols[i].uuid@,
                places[i],
            ),
    ensures
        moves_fault(after, moves, moves.len()) is None,
{
    lemma_positions(|i: int| chosen.contains(symbols[i].uuid@), symbols.len());
    let at = chosen_positions(symbols, chosen, symbols.len());
    assert forall|k: int| 0 <= k < moves.len() implies move_fault(
        after,
        #[trigger] moves[k],
    ) is None by {
        let p = at[k];
        assert(0 <= p < symbols.len() && chosen.contains(symbols[p].uuid@));
        assert(stands_at(after, symbols[p].uuid@, places[p]));
        let j = choose|j: int|
            0 <= j < after.len() && (#[trigger] after[j]).uuid@ == symbols[p].uuid@ && after[j].x
                == places[p].0 && after[j].y == places[p].1;
        lemma_only_symbol(after, j, after.len());
    }
    lemma_no_fault(after, moves, moves.len());
}

/// A symbol with this identifier stands there.
pub open spec fn stands_at(symbols: Seq<SheetSymbol>, uuid: Seq<char>, place: (i64, i64)) -> bool {
    exists|j: int|
        0 <= j < symbols.len() && (#[trigger] symbols[j]).uuid@ == uuid && symbols[j].x == place.0
            && symbols[j].y == place.1
}

proof fn lemma_only_symbol(symbols: Seq<SheetSymbol>, j: int, n: nat)
    requires
        0 <= j < symbols.len(),
        n <= symbols.len(),
        forall|a: int, b: int|
            0 <= a < b < symbols.len() ==> (#[trigger] symbols[a]).uuid@ != (
            #[trigger] symbols[b]).uuid@,
    ensures
        symbol_with(symbols, symbols[j].uuid@, n) == (if j < n {
            Some(symbols[j])
        } else {
            None
        }),
    decreases n,
{
    if n > 0 {
        lemma_only_symbol(symbols, j, (n - 1) as nat);
        if j < n - 1 {
            assert(symbols[j].uuid@ != symbols[n - 1].uuid@);
        } else if j > n - 1 {
            assert(symbols[n - 1].uuid@ != symbols[j].uuid@);
        }
    }
}

proof fn lemma_no_fault(symbols: Seq<SheetSymbol>, moves: Seq<PlannedMove>, n: nat)
    requires
        n <= moves.len(),
        forall|k: int| 0 <= k < n ==> move_fault(symbols, #[trigger] moves[k]) is None,
    ensures
        moves_fault(symbols, moves, n) is None,
    decreases n,
{
    if n > 0 {
        lemma_no_fault(symbols, moves, (n - 1) as nat);
    }
}

/// Holds the saved file to a moved region. A symbol that is missing or
/// elsewhere leaves the outcome uncertain, with the reason that is returned.
pub fn verify_region_move(symbols: &Vec<SheetSymbol>, moves: &Vec<PlannedMove>) -> (res: Result<
    RegionReport,
    String,
>)
    ensures
        match moves_fault(symbols@, moves@, moves@.len()) {
            Some(fault) => res matches Err(reason) && reason@ == fault,
            None => res matches Ok(report) && moved_views(report.placements@) == moved_symbols(
                symbols@,
                moves@,
                moves@.len(),
            ) && texts(report.references@) == moved_references(
                moved_symbols(symbols@, moves@, moves@.len()),
            ),
        },
{
    let mut references: Vec<String> = Vec::new();
    let mut placements: Vec<MovedSymbol> = Vec::new();
    let mut i: usize = 0;
    assert(moved_views(placements@) =~= moved_symbols(symbols@, moves@, 0));
    assert(texts(references@) =~= moved_references(moved_symbols(symbols@, moves@, 0)));
    while i < moves.len()
        invariant
            i <= moves@.len(),
            moves_fault(symbols@, moves@, i as nat) is None,
            moved_views(placements@) == moved_symbols(symbols@, moves@, i as nat),
            texts(references@) == moved_references(moved_symbols(symbols@, moves@, i as nat)),
        decreases moves@.len() - i,
    {
        let planned = &moves[i];
        let found = match find_symbol(symbols, planned.uuid.as_str()) {
            Some(found) => found,
            None => {
                proof {
                    lemma_moves_fault_stays(symbols@, moves@, (i + 1) as nat);
                }
                return Err(
                    concat3(
                        "selected symbol UUID ",
                        planned.uuid.as_str(),
                        " is missing from the written schematic",
                    ),
                );
            },
        };
        let symbol = &symbols[found];
        if !points_coincident(symbol.x, symbol.y, planned.x, planned.y, COINCIDENT_TOLERANCE) {
            let mut reason = concat5(
                "selected symbol UUID ",
                planned.uuid.as_str(),
                " was written at (",
                write_millionths(symbol.x).as_str(),
                ", ",
            );
            reason.append(write_millionths(symbol.y).as_str());
            reason.append("), expected (");
            reason.append(write_millionths(planned.x).as_str());
            reason.append(", ");
            reason.append(write_millionths(planned.y).as_str());
            reason.append(")");
            proof {
                lemma_moves_fault_stays(symbols@, moves@, (i + 1) as nat);
            }
            return Err(reason);
        }
        let reference = match symbol.property("Reference") {
            Some(reference) => reference,
            None => owned("?"),
        };
        let ghost old_references = texts(references@);
        let ghost old_placements = moved_views(placements@);
        let ghost own = reference@;
        if !contains_text(&references, reference.as_str()) {
            references.push(reference.clone());
            assert(texts(references@) =~= old_references.push(own));
        }
        let placed = MovedSymbol { reference, unit: symbol.unit, x: symbol.x, y: symbol.y };
        let ghost view = placed@;
        placements.push(placed);
        proof {
            assert(moved_views(placements@) =~= old_placements.push(view));
            let now = moved_symbols(symbols@, moves@, (i + 1) as nat);
            assert(now == old_placements.push(view));
            assert(now.drop_last() =~= old_placements);
        }
        i += 1;
    }
    Ok(RegionReport { references, placements })
}

} // verus!
