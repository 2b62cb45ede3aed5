//! What a deletion reads of a sheet: the pins of its units and its no-connect
//! flags.

use crate::deletion::{kind_of, read_kind, stale, NoConnect, PinGroup, TopLevelBlock};
use crate::lists::{ints, positions_where};
use crate::text::{opt_text, owned, text_eq};
use crate::tool_error::ComponentDeleteTargetError;
use vstd::prelude::*;
use vstd::string::*;

verus! {

/// The pins that a deletion of these units is judged by. `groups` are the pins
/// of all placed symbols, or why they do not resolve. Pins that are not known
/// are no evidence that no pin stays at a place, so a deletion of units needs
/// them all; one of other items needs none.
pub fn pins_or_stale(
    path: &str,
    unit_uuids: &Vec<String>,
    groups: Result<Vec<PinGroup>, String>,
) -> (res: Result<Vec<PinGroup>, ComponentDeleteTargetError>)
    ensures
        if unit_uuids@.len() == 0 {
            res matches Ok(list) && list@ == Seq::<PinGroup>::empty()
        } else {
            match groups {
                Ok(all) => res matches Ok(list) && list == all,
                Err(reason) => res matches Err(error) && error@ == stale(path@, reason@),
            }
        },
{
    if unit_uuids.len() == 0 {
        return Ok(Vec::new());
    }
    match groups {
        Ok(all) => Ok(all),
        Err(reason) => Err(ComponentDeleteTargetError::stale(path, reason)),
    }
}

/// The block is a no-connect flag.
pub open spec fn is_no_connect(block: TopLevelBlock) -> bool {
    block.node matches Ok(node) && kind_of(node@) == "no_connect"@
}

/// The positions of the no-connect flags among the blocks of a file.
pub fn no_connect_blocks(blocks: &Vec<TopLevelBlock>) -> (res: Vec<usize>)
    ensures
        ints(res@) == positions_where(|i: int| is_no_connect(blocks@[i]), blocks@.len()),
{
    let ghost flags = |i: int| is_no_connect(blocks@[i]);
    let mut list: Vec<usize> = Vec::new();
    let mut i: usize = 0;
    assert(ints(list@) =~= positions_where(flags, 0));
    while i < blocks.len()
        invariant
            i <= blocks@.len(),
            flags == (|i: int| is_no_connect(blocks@[i])),
            ints(list@) == positions_where(flags, i as nat),
        decreases blocks@.len() - i,
    {
        let ghost before = ints(list@);
        let found: bool = match &blocks[i].node {
            Ok(node) => text_eq(read_kind(node).as_str(), "no_connect"),
            Err(_) => false,
        };
        if found {
            list.push(i);
            assert(ints(list@) =~= before.push(i as int));
        }
        assert(found == flags(i as int));
        i += 1;
    }
    list
}

/// The identifier of a block, if it has one.
pub open spec fn block_uuid(block: TopLevelBlock) -> Option<Seq<char>> {
    match block.node {
        Ok(node) => node@.value_of("uuid"@),
        Err(_) => None,
    }
}

/// Where a flag stands, with its identifier.
pub open spec fn no_connect_view(flag: NoConnect) -> (i64, i64, Option<Seq<char>>) {
    (flag.x, flag.y, opt_text(flag.uuid))
}

/// The contents of a list of flags.
pub open spec fn no_connect_views(list: Seq<NoConnect>) -> Seq<(i64, i64, Option<Seq<char>>)> {
    Seq::new(list.len(), |i: int| no_connect_view(list[i]))
}

/// The first `n` flags that have a place, with their identifiers.
pub open spec fn placed_flags(
    blocks: Seq<TopLevelBlock>,
    flags: Seq<int>,
    places: Seq<Option<(i64, i64)>>,
    n: nat,
) -> Seq<(i64, i64, Option<Seq<char>>)>
    decreases n,
{
    if n == 0 {
        Seq::empty()
    } else {
        let rest = placed_flags(blocks, flags, places, (n - 1) as nat);
        match places[n - 1] {
            Some(place) => rest.push((place.0, place.1, block_uuid(blocks[flags[n - 1]]))),
            None => rest,
        }
    }
}

/// The no-connect flags at these positions of a file. `places` says where each
/// of them stands; one without a place marks nothing.
pub fn placed_no_connects(
    blocks: &Vec<TopLevelBlock>,
    flags: &Vec<usize>,
    places: &Vec<Option<(i64, i64)>>,
) -> (res: Vec<NoConnect>)
    requires
        places@.len() == flags@.len(),
        forall|i: int| 0 <= i < flags@.len() ==> #[trigger] flags@[i] < blocks@.len(),
    ensures
        no_connect_views(res@) == placed_flags(blocks@, ints(flags@), places@, flags@.len()),
{
    let mut list: Vec<NoConnect> = Vec::new();
    let mut i: usize = 0;
    assert(no_connect_views(list@) =~= placed_flags(blocks@, ints(flags@), places@, 0));
    while i < flags.len()
        invariant
            i <= flags@.len(),
            places@.len() == flags@.len(),
            forall|i: int| 0 <= i < flags@.len() ==> #[trigger] flags@[i] < blocks@.len(),
            no_connect_views(list@) == placed_flags(blocks@, ints(flags@), places@, i as nat),
        decreases flags@.len() - i,
    {
        let at: usize = flags[i];
        if let Some(place) = places[i] {
            let ghost before = no_connect_views(list@);
            let uuid: Option<String> = match &blocks[at].node {
                Ok(node) => match node.find_str("uuid") {
                    Some(text) => Some(owned(text)),
                    None => None,
                },
                Err(_) => None,
            };
            let flag = NoConnect { x: place.0, y: place.1, uuid };
            let ghost view = no_connect_view(flag);
            list.push(flag);
            proof {
                assert(ints(flags@)[i as int] == at as int);
                assert(view.2 == block_uuid(blocks@[at as int]));
                assert(no_connect_views(list@) =~= before.push(view));
            }
        }
        i += 1;
    }
    list
}

} // verus!
