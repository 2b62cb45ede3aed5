//! Replacing the library symbol of a placed component.

use crate::decimal::{number_text, write_number, write_number_u64};
use crate::deletion::PlacedInstance;
use crate::intent::ComponentTarget;
use crate::lists::positions_where;
use crate::property_edit::{find_text, ranges_fit};
use crate::property_text::{
    closing_quote, edit_views, escape_property_text, escaped, quote_end, EditView, TextEdit,
};
use crate::scan::{
    find_byte, first_byte, first_in, lemma_after_ascii, lemma_ascii_is_boundary, part, slice,
};
use crate::sexp::{node_refs, Sexp, SexpNode};
use crate::text::{
    concat3, concat5, join, joined, ordered_list_of, owned, text_eq, texts,
};
use crate::text_map::sorted_unique;
use vstd::prelude::*;
use vstd::string::*;
use vstd::utf8::*;

verus! {

/// Why a replacement cannot even be tried: there is no such component, or a
/// unit is asked for where several are placed.
pub open spec fn request_refusal(
    reference: Seq<char>,
    placed: nat,
    new_unit: Option<u32>,
) -> Option<Seq<char>> {
    if placed == 0 {
        Some("Component '"@ + reference + "' not found"@)
    } else if placed > 1 && new_unit is Some {
        Some(
            "Component '"@ + reference + "' has "@ + number_text(placed)
                + " placed units; the 'unit' override is only unambiguous for a single placement. Omit it to preserve each unit."@,
        )
    } else {
        None
    }
}

/// Decides whether a replacement can be tried.
pub fn refuse_replacement(reference: &str, placed: usize, new_unit: Option<u32>) -> (res: Option<
    String,
>)
    ensures
        crate::text::opt_text(res) == request_refusal(reference@, placed as nat, new_unit),
{
    if placed == 0 {
        return Some(concat3("Component '", reference, "' not found"));
    }
    if placed > 1 && new_unit.is_some() {
        return Some(
            concat5(
                "Component '",
                reference,
                "' has ",
                write_number(placed).as_str(),
                " placed units; the 'unit' override is only unambiguous for a single placement. Omit it to preserve each unit.",
            ),
        );
    }
    None
}

/// A unit that a symbol of so many units does not have.
pub open spec fn out_of_range(unit: u32, unit_count: u32) -> bool {
    unit < 1 || unit > unit_count
}

/// The first of these units that the symbol does not have.
pub open spec fn first_out_of_range(units: Seq<u32>, unit_count: u32, n: nat) -> Option<u32>
    decreases n,
{
    if n == 0 {
        None
    } else {
        match first_out_of_range(units, unit_count, (n - 1) as nat) {
            Some(unit) => Some(unit),
            None => if out_of_range(units[n - 1], unit_count) {
                Some(units[n - 1])
            } else {
                None
            },
        }
    }
}

/// Why the new symbol does not fit the placed units.
pub open spec fn unit_refusal(
    reference: Seq<char>,
    new_lib_id: Seq<char>,
    new_unit: Option<u32>,
    current: Seq<u32>,
    unit_count: u32,
) -> Option<Seq<char>> {
    let count = number_text(unit_count as nat);
    match new_unit {
        Some(unit) => if out_of_range(unit, unit_count) {
            Some(
                "Invalid unit "@ + number_text(unit as nat) + " for '"@ + new_lib_id
                    + "': the symbol has "@ + count + " unit(s) (valid: 1..="@ + count + ")."@,
            )
        } else {
            None
        },
        None => match first_out_of_range(current, unit_count, current.len()) {
            Some(unit) => Some(
                "Cannot replace '"@ + reference + "' with '"@ + new_lib_id + "': placed unit "@
                    + number_text(unit as nat) + " does not exist in the new "@ + count
                    + "-unit symbol. Delete and re-place the component deliberately."@,
            ),
            None => None,
        },
    }
}

proof fn lemma_out_stays(units: Seq<u32>, unit_count: u32, n: nat)
    requires
        n <= units.len(),
        first_out_of_range(units, unit_count, n) is Some,
    ensures
        first_out_of_range(units, unit_count, units.len()) == first_out_of_range(
            units,
            unit_count,
            n,
        ),
    decreases units.len() - n,
{
    if n < units.len() {
        lemma_out_stays(units, unit_count, n + 1);
    }
}

/// The positions of the placed units of a component.
pub open spec fn units_of(instances: Seq<PlacedInstance>, reference: Seq<char>, n: nat) -> Seq<
    int,
> {
    positions_where(|i: int| instances[i].reference@ == reference, n)
}

/// The numbers of the placed units of a component, in order.
pub fn placed_unit_numbers(instances: &Vec<PlacedInstance>, reference: &str) -> (res: Vec<u32>)
    ensures
        res@ == units_of(instances@, reference@, instances@.len()).map_values(
            |i: int| instances@[i].unit,
        ),
{
    let ghost number = |i: int| instances@[i].unit;
    let mut list: Vec<u32> = Vec::new();
    let mut i: usize = 0;
    assert(list@ =~= units_of(instances@, reference@, 0).map_values(number));
    while i < instances.len()
        invariant
            i <= instances@.len(),
            number == (|i: int| instances@[i].unit),
            list@ == units_of(instances@, reference@, i as nat).map_values(number),
        decreases instances@.len() - i,
    {
        let ghost before = units_of(instances@, reference@, i as nat);
        if text_eq(instances[i].reference.as_str(), reference) {
            list.push(instances[i].unit);
            assert(list@ =~= before.push(i as int).map_values(number));
        }
        i += 1;
    }
    list
}

/// Checks the placed units of a component against a new symbol.
pub fn refuse_units(
    reference: &str,
    new_lib_id: &str,
    new_unit: Option<u32>,
    current: &Vec<u32>,
    unit_count: u32,
) -> (res: Option<String>)
    ensures
        crate::text::opt_text(res) == unit_refusal(
            reference@,
            new_lib_id@,
            new_unit,
            current@,
            unit_count,
        ),
{
    let count = write_number_u64(unit_count as u64);
    if let Some(unit) = new_unit {
        if unit < 1 || unit > unit_count {
            let mut message = concat5(
                "Invalid unit ",
                write_number_u64(unit as u64).as_str(),
                " for '",
                new_lib_id,
                "': the symbol has ",
            );
            message.append(count.as_str());
            message.append(" unit(s) (valid: 1..=");
            message.append(count.as_str());
            message.append(").");
            return Some(message);
        }
        return None;
    }
    let mut i: usize = 0;
    while i < current.len()
        invariant
            i <= current@.len(),
            new_unit is None,
            count@ == number_text(unit_count as nat),
            first_out_of_range(current@, unit_count, i as nat) is None,
        decreases current@.len() - i,
    {
        let unit: u32 = current[i];
        if unit < 1 || unit > unit_count {
            proof {
                lemma_out_stays(current@, unit_count, (i + 1) as nat);
            }
            let mut message = concat5(
                "Cannot replace '",
                reference,
                "' with '",
                new_lib_id,
                "': placed unit ",
            );
            message.append(write_number_u64(unit as u64).as_str());
            message.append(" does not exist in the new ");
            message.append(count.as_str());
            message.append(
                "-unit symbol. Delete and re-place the component deliberately.",
            );
            return Some(message);
        }
        i += 1;
    }
    None
}

/// The first of these symbols that has this name.
pub open spec fn symbol_named(symbols: Seq<Sexp>, name: Seq<char>) -> Option<Sexp>
    decreases symbols.len(),
{
    if symbols.len() == 0 {
        None
    } else {
        match symbol_named(symbols.drop_last(), name) {
            Some(symbol) => Some(symbol),
            None => if symbols.last().text_at(1) == Some(name) {
                Some(symbols.last())
            } else {
                None
            },
        }
    }
}

/// The names of these nodes, as far as they have one.
pub open spec fn node_names(list: Seq<Sexp>) -> Seq<Seq<char>>
    decreases list.len(),
{
    if list.len() == 0 {
        Seq::empty()
    } else {
        let rest = node_names(list.drop_last());
        match list.last().text_at(1) {
            Some(name) => rest.push(name),
            None => rest,
        }
    }
}

/// The definition of a symbol that is embedded in a schematic.
pub open spec fn embedded(root: Sexp, lib_id: Seq<char>) -> Option<Sexp> {
    match root.first("lib_symbols"@) {
        None => None,
        Some(libraries) => symbol_named(libraries.all("symbol"@), lib_id),
    }
}

proof fn lemma_named_stays(symbols: Seq<Sexp>, name: Seq<char>, n: int)
    requires
        0 <= n <= symbols.len(),
        symbol_named(symbols.take(n), name) is Some,
    ensures
        symbol_named(symbols, name) == symbol_named(symbols.take(n), name),
    decreases symbols.len() - n,
{
    if n == symbols.len() {
        assert(symbols.take(n) =~= symbols);
    } else {
        assert(symbols.take(n + 1).drop_last() =~= symbols.take(n));
        lemma_named_stays(symbols, name, n + 1);
    }
}

/// The names of the units of a symbol that is embedded in a schematic.
pub fn embedded_unit_names(root: &SexpNode, lib_id: &str) -> (res: Option<Vec<String>>)
    ensures
        match embedded(root@, lib_id@) {
            None => res is None,
            Some(symbol) => res matches Some(names) && texts(names@) == node_names(
                symbol.all("symbol"@),
            ),
        },
{
    let libraries = match root.find("lib_symbols") {
        Some(node) => node,
        None => {
            return None;
        },
    };
    let symbols = libraries.find_all("symbol");
    let ghost all = libraries@.all("symbol"@);
    assert(node_refs(symbols@).len() == symbols@.len());
    let mut i: usize = 0;
    assert(all.take(0) =~= Seq::empty());
    while i < symbols.len()
        invariant
            i <= symbols@.len(),
            all == node_refs(symbols@),
            all == libraries@.all("symbol"@),
            embedded(root@, lib_id@) == symbol_named(all, lib_id@),
            symbol_named(all.take(i as int), lib_id@) is None,
        decreases symbols@.len() - i,
    {
        let symbol = symbols[i];
        proof {
            assert(all.take(i + 1).drop_last() =~= all.take(i as int));
            assert(all.take(i + 1).last() == symbol@);
        }
        let same: bool = match symbol.str_at(1) {
            Some(name) => text_eq(name, lib_id),
            None => false,
        };
        if same {
            proof {
                lemma_named_stays(all, lib_id@, i + 1);
            }
            return Some(list_names(symbol));
        }
        i += 1;
    }
    assert(all.take(i as int) =~= all);
    None
}

fn list_names(symbol: &SexpNode) -> (res: Vec<String>)
    ensures
        texts(res@) == node_names(symbol@.all("symbol"@)),
{
    let units = symbol.find_all("symbol");
    let ghost all = symbol@.all("symbol"@);
    assert(node_refs(units@).len() == units@.len());
    let mut res: Vec<String> = Vec::new();
    let mut i: usize = 0;
    assert(all.take(0) =~= Seq::empty());
    assert(texts(res@) =~= Seq::empty());
    while i < units.len()
        invariant
            i <= units@.len(),
            all == node_refs(units@),
            texts(res@) == node_names(all.take(i as int)),
        decreases units@.len() - i,
    {
        let ghost before = texts(res@);
        proof {
            assert(all.take(i + 1).drop_last() =~= all.take(i as int));
            assert(all.take(i + 1).last() == units@[i as int]@);
        }
        if let Some(name) = units[i].str_at(1) {
            res.push(owned(name));
            assert(texts(res@) =~= before.push(name@));
        }
        i += 1;
    }
    assert(all.take(i as int) =~= all);
    res
}

/// The greatest of these numbers, and at least one.
pub open spec fn greatest(units: Seq<u32>) -> u32
    decreases units.len(),
{
    if units.len() == 0 {
        1
    } else {
        let rest = greatest(units.drop_last());
        if units.last() > rest {
            units.last()
        } else {
            rest
        }
    }
}

/// How many units a symbol has, by the numbers of those that it describes.
pub fn unit_count_of(units: &Vec<u32>) -> (res: u32)
    ensures
        res == greatest(units@),
        res >= 1,
{
    let mut most: u32 = 1;
    let mut i: usize = 0;
    assert(units@.take(0) =~= Seq::empty());
    while i < units.len()
        invariant
            i <= units@.len(),
            most >= 1,
            most == greatest(units@.take(i as int)),
        decreases units@.len() - i,
    {
        assert(units@.take(i + 1).drop_last() =~= units@.take(i as int));
        assert(units@.take(i + 1).last() == units@[i as int]);
        if units[i] > most {
            most = units[i];
        }
        i += 1;
    }
    assert(units@.take(i as int) =~= units@);
    most
}

/// Where the library name of a block stands.
pub open spec fn lib_id_range(bytes: Seq<u8>, block: (usize, usize)) -> Result<(int, int), bool> {
    let search = encode_utf8("(lib_id \""@);
    match first_in(bytes, search, block.0 as int, block.1 as int) {
        None => Err(false),
        Some(at) => match quote_end(bytes, at + search.len(), false) {
            None => Err(true),
            Some(close) => Ok((at + search.len(), close)),
        },
    }
}

/// What is said of a block without a readable library name.
pub open spec fn lib_id_refusal(reference: Seq<char>, is_malformed: bool) -> Seq<char> {
    if is_malformed {
        "Malformed lib_id"@
    } else {
        "A unit of '"@ + reference + "' has no lib_id"@
    }
}

/// The edits that rename the symbol of the first `n` blocks with the names that
/// they had, or the first reason against it.
pub open spec fn lib_id_edits(
    bytes: Seq<u8>,
    reference: Seq<char>,
    new_lib_id: Seq<char>,
    blocks: Seq<(usize, usize)>,
    n: nat,
) -> Result<(Seq<EditView>, Seq<Seq<char>>), Seq<char>>
    decreases n,
{
    if n == 0 {
        Ok((Seq::empty(), Seq::empty()))
    } else {
        match lib_id_edits(bytes, reference, new_lib_id, blocks, (n - 1) as nat) {
            Err(reason) => Err(reason),
            Ok(done) => match lib_id_range(bytes, blocks[n - 1]) {
                Err(is_malformed) => Err(lib_id_refusal(reference, is_malformed)),
                Ok(range) => Ok(
                    (
                        done.0.push(
                            EditView {
                                start: range.0,
                                end: range.1,
                                text: escaped(new_lib_id),
                            },
                        ),
                        done.1.push(part(bytes, range.0, range.1)),
                    ),
                ),
            },
        }
    }
}

/// The edits that renumber every unit entry of a block, from a position on.
pub open spec fn unit_edits(bytes: Seq<u8>, from: int, end: int, unit: u32) -> Seq<EditView>
    decreases end - from,
{
    if from > end {
        Seq::empty()
    } else {
        match first_in(bytes, encode_utf8("(unit "@), from, end) {
            None => Seq::empty(),
            Some(at) => match first_byte(bytes, 41, at + 6, end) {
                None => Seq::empty(),
                Some(close) => if close <= from || close > end {
                    Seq::empty()
                } else {
                    seq![
                        EditView {
                            start: at + 6,
                            end: close,
                            text: number_text(unit as nat),
                        },
                    ] + unit_edits(bytes, close, end, unit)
                },
            },
        }
    }
}

/// The edits of a replacement and the library name that gives way.
pub open spec fn replacement_plan(
    bytes: Seq<u8>,
    reference: Seq<char>,
    new_lib_id: Seq<char>,
    new_unit: Option<u32>,
    blocks: Seq<(usize, usize)>,
) -> Result<(Seq<EditView>, Seq<char>), Seq<char>> {
    match lib_id_edits(bytes, reference, new_lib_id, blocks, blocks.len()) {
        Err(reason) => Err(reason),
        Ok(done) => {
            let names = ordered_list_of(done.1.to_set());
            let units = match new_unit {
                Some(unit) => unit_edits(bytes, blocks[0].0 as int, blocks[0].1 as int, unit),
                None => Seq::empty(),
            };
            if names.len() != 1 {
                Err(
                    "Component '"@ + reference
                        + "' already has inconsistent library ids across its units: "@ + joined(
                        names,
                        ", "@,
                    ),
                )
            } else {
                Ok((done.0 + units, names[0]))
            }
        },
    }
}

/// The edits of a replacement.
#[derive(PartialEq, Eq, Debug)]
pub struct Replacement {
    pub edits: Vec<TextEdit>,
    pub old_lib_id: String,
}

proof fn lemma_search_bytes()
    ensures
        encode_utf8("(lib_id \""@).len() == 9,
        encode_utf8("(lib_id \""@)[8] == 34,
        encode_utf8("(unit "@).len() == 6,
        "(lib_id \""@.len() > 0,
        "(unit "@.len() > 0,
{
    reveal_strlit("(lib_id \"");
    reveal_strlit("(unit ");
    is_ascii_chars_encode_utf8("(lib_id \""@);
    is_ascii_chars_encode_utf8("(unit "@);
}

fn find_lib_id(content: &str, start: usize, end: usize) -> (res: Result<(usize, usize), bool>)
    requires
        start <= end <= encode_utf8(content@).len(),
    ensures
        match res {
            Ok(range) => lib_id_range(encode_utf8(content@), (start, end)) == Ok::<
                (int, int),
                bool,
            >((range.0 as int, range.1 as int)) && range.0 <= range.1 <= encode_utf8(
                content@,
            ).len() && is_char_boundary(encode_utf8(content@), range.0 as int) && is_char_boundary(
                encode_utf8(content@),
                range.1 as int,
            ),
            Err(flag) => lib_id_range(encode_utf8(content@), (start, end)) == Err::<
                (int, int),
                bool,
            >(flag),
        },
{
    let ghost bytes = encode_utf8(content@);
    proof {
        lemma_search_bytes();
        encode_utf8_valid_utf8(content@);
    }
    let at = match find_text(content, "(lib_id \"", start, end) {
        Some(at) => at,
        None => {
            return Err(false);
        },
    };
    let value_start: usize = at + 9;
    match closing_quote(content, value_start) {
        Some(close) => {
            proof {
                let found = bytes.subrange(at as int, at + 9);
                assert(found[8] == bytes[at + 8]);
                lemma_after_ascii(bytes, at + 8);
                lemma_ascii_is_boundary(bytes, close as int);
            }
            Ok((value_start, close))
        },
        None => Err(true),
    }
}

proof fn lemma_lib_edits_stay(
    bytes: Seq<u8>,
    reference: Seq<char>,
    new_lib_id: Seq<char>,
    blocks: Seq<(usize, usize)>,
    n: nat,
)
    requires
        n <= blocks.len(),
        lib_id_edits(bytes, reference, new_lib_id, blocks, n) is Err,
    ensures
        lib_id_edits(bytes, reference, new_lib_id, blocks, blocks.len()) == lib_id_edits(
            bytes,
            reference,
            new_lib_id,
            blocks,
            n,
        ),
    decreases blocks.len() - n,
{
    if n < blocks.len() {
        lemma_lib_edits_stay(bytes, reference, new_lib_id, blocks, n + 1);
    }
}

fn push_unit_edits(content: &str, start: usize, end: usize, unit: u32, edits: &mut Vec<TextEdit>)
    requires
        start <= end <= encode_utf8(content@).len(),
    ensures
        edit_views(final(edits)@) == edit_views(old(edits)@) + unit_edits(
            encode_utf8(content@),
            start as int,
            end as int,
            unit,
        ),
{
    let ghost bytes = encode_utf8(content@);
    let ghost base = edit_views(edits@);
    let ghost all = unit_edits(bytes, start as int, end as int, unit);
    let ghost mut found: Seq<EditView> = Seq::empty();
    let mut from: usize = start;
    proof {
        lemma_search_bytes();
        assert(found + all =~= all);
        assert(base + found =~= base);
    }
    loop
        invariant
            start <= from <= end <= bytes.len(),
            bytes == encode_utf8(content@),
            "(unit "@.len() > 0,
            encode_utf8("(unit "@).len() == 6,
            all == found + unit_edits(bytes, from as int, end as int, unit),
            edit_views(edits@) == base + found,
        ensures
            all == found,
            edit_views(edits@) == base + found,
        decreases end - from,
    {
        let at = match find_text(content, "(unit ", from, end) {
            Some(at) => at,
            None => {
                assert(found + Seq::<EditView>::empty() =~= found);
                break ;
            },
        };
        let close = match find_byte(content.as_bytes(), 41, at + 6, end) {
            Some(close) => close,
            None => {
                assert(found + Seq::<EditView>::empty() =~= found);
                break ;
            },
        };
        let edit = TextEdit { start: at + 6, end: close, text: write_number_u64(unit as u64) };
        let ghost view = edit@;
        let ghost before = edit_views(edits@);
        edits.push(edit);
        proof {
            assert(edit_views(edits@) =~= before.push(view));
            let rest = unit_edits(bytes, close as int, end as int, unit);
            assert(found + (seq![view] + rest) =~= found.push(view) + rest);
            assert(base + found.push(view) =~= (base + found).push(view));
            found = found.push(view);
        }
        from = close;
    }
}

/// Builds the edits that replace the library symbol of every placed unit, and
/// the number of the unit where that is asked for. Units that name different
/// symbols already are refused.
pub fn plan_replacement(
    content: &str,
    blocks: &Vec<(usize, usize)>,
    reference: &str,
    new_lib_id: &str,
    new_unit: Option<u32>,
) -> (res: Result<Replacement, String>)
    requires
        ranges_fit(encode_utf8(content@), blocks@),
        blocks@.len() > 0,
    ensures
        match replacement_plan(
            encode_utf8(content@),
            reference@,
            new_lib_id@,
            new_unit,
            blocks@,
        ) {
            Ok(plan) => res matches Ok(done) && edit_views(done.edits@) == plan.0
                && done.old_lib_id@ == plan.1,
            Err(reason) => res matches Err(message) && message@ == reason,
        },
{
    let ghost bytes = encode_utf8(content@);
    let text = escape_property_text(new_lib_id);
    let mut edits: Vec<TextEdit> = Vec::new();
    let mut names: Vec<String> = Vec::new();
    let mut i: usize = 0;
    assert(edit_views(edits@) =~= Seq::empty());
    assert(texts(names@) =~= Seq::empty());
    while i < blocks.len()
        invariant
            i <= blocks@.len(),
            bytes == encode_utf8(content@),
            ranges_fit(bytes, blocks@),
            text@ == escaped(new_lib_id@),
            lib_id_edits(bytes, reference@, new_lib_id@, blocks@, i as nat) == Ok::<_, Seq<char>>(
                (edit_views(edits@), texts(names@)),
            ),
        decreases blocks@.len() - i,
    {
        let (start, end) = blocks[i];
        assert(blocks@[i as int] == (start, end));
        match find_lib_id(content, start, end) {
            Ok((from, to)) => {
                let ghost old_edits = edit_views(edits@);
                let ghost old_names = texts(names@);
                names.push(owned(slice(content, from, to)));
                let edit = TextEdit { start: from, end: to, text: text.clone() };
                let ghost view = edit@;
                edits.push(edit);
                assert(edit_views(edits@) =~= old_edits.push(view));
                assert(texts(names@) =~= old_names.push(part(bytes, from as int, to as int)));
            },
            Err(is_malformed) => {
                proof {
                    lemma_lib_edits_stay(
                        bytes,
                        reference@,
                        new_lib_id@,
                        blocks@,
                        (i + 1) as nat,
                    );
                }
                return Err(
                    if is_malformed {
                        owned("Malformed lib_id")
                    } else {
                        concat3("A unit of '", reference, "' has no lib_id")
                    },
                );
            },
        }
        i += 1;
    }
    let ghost renamed = edit_views(edits@);
    let (start, end) = blocks[0];
    assert(blocks@[0] == (start, end));
    if let Some(unit) = new_unit {
        push_unit_edits(content, start, end, unit, &mut edits);
    } else {
        assert(renamed + Seq::<EditView>::empty() =~= renamed);
    }
    let unique = sorted_unique(&names);
    assert(texts(unique@).len() == unique@.len());
    if unique.len() != 1 {
        let mut message = concat3(
            "Component '",
            reference,
            "' already has inconsistent library ids across its units: ",
        );
        message.append(join(&unique, ", ").as_str());
        return Err(message);
    }
    assert(texts(unique@)[0] == unique@[0]@);
    Ok(Replacement { edits, old_lib_id: unique[0].clone() })
}

/// Turns a target into that of the replaced component.
pub fn retarget(target: &mut ComponentTarget, new_lib_id: &str, new_unit: Option<u32>)
    ensures
        final(target).reference == old(target).reference,
        final(target).units@.len() == old(target).units@.len(),
        forall|i: int|
            0 <= i < old(target).units@.len() ==> {
                &&& (#[trigger] final(target).units@[i]).lib_id@ == new_lib_id@
                &&& final(target).units@[i].unit == (match new_unit {
                    Some(unit) => unit,
                    None => old(target).units@[i].unit,
                })
                &&& final(target).units@[i].uuid == old(target).units@[i].uuid
                &&& final(target).units@[i].fields == old(target).units@[i].fields
                &&& final(target).units@[i].x == old(target).units@[i].x
                &&& final(target).units@[i].y == old(target).units@[i].y
                &&& final(target).units@[i].rotation == old(target).units@[i].rotation
                &&& final(target).units@[i].mirror == old(target).units@[i].mirror
                &&& final(target).units@[i].instances == old(target).units@[i].instances
            },
{
    let ghost all = target.units@;
    let mut i: usize = 0;
    while i < target.units.len()
        invariant
            i <= target.units@.len(),
            target.units@.len() == all.len(),
            all == old(target).units@,
            target.reference == old(target).reference,
            forall|j: int|
                0 <= j < i ==> {
                    &&& (#[trigger] target.units@[j]).lib_id@ == new_lib_id@
                    &&& target.units@[j].unit == (match new_unit {
                        Some(unit) => unit,
                        None => all[j].unit,
                    })
                    &&& target.units@[j].uuid == all[j].uuid
                    &&& target.units@[j].fields == all[j].fields
                    &&& target.units@[j].x == all[j].x
                    &&& target.units@[j].y == all[j].y
                    &&& target.units@[j].rotation == all[j].rotation
                    &&& target.units@[j].mirror == all[j].mirror
                    &&& target.units@[j].instances == all[j].instances
                },
            forall|j: int| i <= j < all.len() ==> #[trigger] target.units@[j] == all[j],
        decreases target.units@.len() - i,
    {
        target.units[i].lib_id = owned(new_lib_id);
        if let Some(unit) = new_unit {
            target.units[i].unit = unit;
        }
        i += 1;
    }
}

} // verus!
