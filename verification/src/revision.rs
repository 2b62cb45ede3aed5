//! The revision of a plan: a digest of everything that the plan was made from.
//!
//! Applying a plan asks for the revision that its dry run returned, so the
//! revision stays the same for as long as nothing that the plan read changes.

use crate::identity::{append_le_bytes, le_bytes, netlist_bytes, netlist_identity};
use crate::sexp::{Sexp, SexpNode};
use crate::sync_types::{BoardFootprint, BoardState, SyncPlan};
use crate::text::{text_before, text_less};
use crate::text_map::TextMap;
use sha2::{Digest, Sha256};
use vstd::prelude::*;
use vstd::string::*;
use vstd::utf8::*;

verus! {

/// The SHA-256 digest of some bytes as 64 lower-case hexadecimal digits.
pub uninterp spec fn sha256_hex_of(bytes: Seq<u8>) -> Seq<char>;

/// The text is made of 64 lower-case hexadecimal digits.
pub open spec fn is_hex_digest(text: Seq<char>) -> bool {
    &&& text.len() == 64
    &&& forall|i: int|
        0 <= i < text.len() ==> ('0' <= #[trigger] text[i] <= '9' || 'a' <= text[i] <= 'f')
}

/// Calls `sha2::Sha256::digest` and writes the digest out with `{:x}`. What the
/// digest is goes by its name. It is claimed that it depends on the bytes alone
/// and that its 32 bytes are written with two lower-case digits each.
#[verifier::external_body]
fn sha256_hex(bytes: &[u8]) -> (res: String)
    ensures
        res@ == sha256_hex_of(bytes@),
        is_hex_digest(res@),
{
    format!("{:x}", Sha256::digest(bytes))
}

/// Puts footprint `k` into an order by identifier, behind those that it does
/// not come before.
pub open spec fn placed_by_kiid(
    footprints: Seq<BoardFootprint>,
    order: Seq<int>,
    k: int,
) -> Seq<int>
    decreases order.len(),
{
    if order.len() == 0 || !text_before(footprints[k].kiid@, footprints[order.last()].kiid@) {
        order.push(k)
    } else {
        placed_by_kiid(footprints, order.drop_last(), k).push(order.last())
    }
}

/// The first `n` footprints by identifier; of equal ones the earlier is first.
pub open spec fn kiid_order(footprints: Seq<BoardFootprint>, n: nat) -> Seq<int>
    decreases n,
{
    if n == 0 {
        Seq::empty()
    } else {
        placed_by_kiid(footprints, kiid_order(footprints, (n - 1) as nat), n - 1)
    }
}

/// The first `n` pads of a footprint, each with its net.
pub open spec fn pads_bytes(pads: TextMap<String>, n: nat) -> Seq<u8>
    decreases n,
{
    if n == 0 {
        Seq::empty()
    } else {
        pads_bytes(pads, (n - 1) as nat) + encode_utf8(pads.keys()[n - 1]) + encode_utf8(
            pads.values()[n - 1]@,
        )
    }
}

/// What of a footprint enters the revision.
pub open spec fn footprint_bytes(footprint: BoardFootprint) -> Seq<u8> {
    encode_utf8(footprint.kiid@) + encode_utf8(footprint.reference@) + encode_utf8(
        footprint.footprint_id@,
    ) + (match footprint.symbol_path {
        Some(path) => encode_utf8(path@),
        None => Seq::empty(),
    }) + pads_bytes(footprint.pad_nets, footprint.pad_nets.keys().len())
}

/// The footprints of an order, one after another.
pub open spec fn footprints_bytes(
    footprints: Seq<BoardFootprint>,
    order: Seq<int>,
) -> Seq<u8>
    decreases order.len(),
{
    if order.len() == 0 {
        Seq::empty()
    } else {
        footprints_bytes(footprints, order.drop_last()) + footprint_bytes(footprints[order.last()])
    }
}

/// The first `n` routed nets, each with its count.
pub open spec fn routed_bytes(routed: TextMap<usize>, n: nat) -> Seq<u8>
    decreases n,
{
    if n == 0 {
        Seq::empty()
    } else {
        routed_bytes(routed, (n - 1) as nat) + encode_utf8(routed.keys()[n - 1]) + le_bytes(
            routed.values()[n - 1] as nat,
            8,
        )
    }
}

/// What of the board enters the revision besides its bounds.
pub open spec fn board_bytes(board: BoardState) -> Seq<u8> {
    footprints_bytes(
        board.footprints@,
        kiid_order(board.footprints@, board.footprints@.len()),
    ) + routed_bytes(board.routed_nets, board.routed_nets.keys().len())
}

/// Everything that the revision covers.
pub open spec fn revision_bytes(
    identity: Seq<u8>,
    bounds_json: Seq<u8>,
    board: BoardState,
) -> Seq<u8> {
    identity + bounds_json + board_bytes(board)
}

spec fn as_ints(order: Seq<usize>) -> Seq<int> {
    Seq::new(order.len(), |i: int| order[i] as int)
}

fn place_by_kiid(footprints: &Vec<BoardFootprint>, order: &mut Vec<usize>, k: usize)
    requires
        k < footprints@.len(),
        forall|i: int| 0 <= i < old(order)@.len() ==> #[trigger] old(order)@[i] < footprints@.len(),
    ensures
        as_ints(final(order)@) == placed_by_kiid(footprints@, as_ints(old(order)@), k as int),
        forall|i: int|
            0 <= i < final(order)@.len() ==> #[trigger] final(order)@[i] < footprints@.len(),
{
    let ghost all = as_ints(order@);
    let mut at: usize = order.len();
    assert(all.take(at as int) =~= all);
    assert(placed_by_kiid(footprints@, all, k as int) + all.skip(at as int)
        =~= placed_by_kiid(footprints@, all, k as int));
    while at > 0 && text_less(
        footprints[k].kiid.as_str(),
        footprints[order[at - 1]].kiid.as_str(),
    )
        invariant
            at <= order@.len(),
            k < footprints@.len(),
            all == as_ints(order@),
            forall|i: int| 0 <= i < order@.len() ==> #[trigger] order@[i] < footprints@.len(),
            placed_by_kiid(footprints@, all, k as int) == placed_by_kiid(
                footprints@,
                all.take(at as int),
                k as int,
            ) + all.skip(at as int),
        decreases at,
    {
        proof {
            let head = all.take(at as int);
            assert(head.drop_last() =~= all.take(at - 1));
            assert(head.last() == all[at - 1]);
            let inner = placed_by_kiid(footprints@, all.take(at - 1), k as int);
            assert(inner.push(all[at - 1]) + all.skip(at as int) =~= inner + all.skip(at - 1));
        }
        at -= 1;
    }
    proof {
        let head = all.take(at as int);
        if at > 0 {
            assert(head.last() == all[at - 1]);
        }
        assert(placed_by_kiid(footprints@, head, k as int) == head.push(k as int));
    }
    let ghost before = order@;
    order.insert(at, k);
    assert(as_ints(order@) =~= all.take(at as int).push(k as int) + all.skip(at as int));
}

fn order_by_kiid(footprints: &Vec<BoardFootprint>) -> (res: Vec<usize>)
    ensures
        as_ints(res@) == kiid_order(footprints@, footprints@.len()),
        forall|i: int| 0 <= i < res@.len() ==> #[trigger] res@[i] < footprints@.len(),
{
    let mut order: Vec<usize> = Vec::new();
    let mut k: usize = 0;
    assert(as_ints(order@) =~= kiid_order(footprints@, 0));
    while k < footprints.len()
        invariant
            k <= footprints@.len(),
            as_ints(order@) == kiid_order(footprints@, k as nat),
            forall|i: int| 0 <= i < order@.len() ==> #[trigger] order@[i] < footprints@.len(),
        decreases footprints@.len() - k,
    {
        place_by_kiid(footprints, &mut order, k);
        k += 1;
    }
    order
}

fn append_text(text: &str, out: &mut Vec<u8>)
    ensures
        final(out)@ == old(out)@ + encode_utf8(text@),
{
    let ghost before = out@;
    out.extend_from_slice(text.as_bytes());
    assert(out@ =~= before + encode_utf8(text@));
}

fn append_footprint(footprint: &BoardFootprint, out: &mut Vec<u8>)
    ensures
        final(out)@ == old(out)@ + footprint_bytes(*footprint),
{
    let ghost before = out@;
    append_text(footprint.kiid.as_str(), out);
    append_text(footprint.reference.as_str(), out);
    append_text(footprint.footprint_id.as_str(), out);
    match &footprint.symbol_path {
        Some(path) => {
            append_text(path.as_str(), out);
        },
        None => {},
    }
    let ghost head = out@;
    let pads = &footprint.pad_nets;
    let count: usize = pads.len();
    let mut i: usize = 0;
    assert(head + pads_bytes(*pads, 0) =~= head);
    while i < count
        invariant
            i <= count,
            count == pads.keys().len(),
            out@ == head + pads_bytes(*pads, i as nat),
        decreases count - i,
    {
        append_text(pads.key_at(i).as_str(), out);
        append_text(pads.value_at(i).as_str(), out);
        assert(out@ =~= head + pads_bytes(*pads, (i + 1) as nat));
        i += 1;
    }
    assert(out@ =~= before + footprint_bytes(*footprint));
}

fn append_board(board: &BoardState, out: &mut Vec<u8>)
    ensures
        final(out)@ == old(out)@ + board_bytes(*board),
{
    let ghost before = out@;
    let order = order_by_kiid(&board.footprints);
    let ghost all = as_ints(order@);
    let mut i: usize = 0;
    assert(all.take(0) =~= Seq::empty());
    assert(before + footprints_bytes(board.footprints@, all.take(0)) =~= before);
    while i < order.len()
        invariant
            i <= order@.len(),
            all == as_ints(order@),
            forall|k: int| 0 <= k < order@.len() ==> #[trigger] order@[k]
                < board.footprints@.len(),
            out@ == before + footprints_bytes(board.footprints@, all.take(i as int)),
        decreases order@.len() - i,
    {
        append_footprint(&board.footprints[order[i]], out);
        proof {
            assert(all.take(i + 1).drop_last() =~= all.take(i as int));
            assert(all.take(i + 1).last() == all[i as int]);
            assert(out@ =~= before + footprints_bytes(board.footprints@, all.take(i + 1)));
        }
        i += 1;
    }
    assert(all.take(i as int) =~= all);
    let ghost head = out@;
    let routed = &board.routed_nets;
    let count: usize = routed.len();
    let mut j: usize = 0;
    assert(head + routed_bytes(*routed, 0) =~= head);
    while j < count
        invariant
            j <= count,
            count == routed.keys().len(),
            out@ == head + routed_bytes(*routed, j as nat),
        decreases count - j,
    {
        append_text(routed.key_at(j).as_str(), out);
        append_le_bytes(*routed.value_at(j) as u64, out);
        assert(out@ =~= head + routed_bytes(*routed, (j + 1) as nat));
        j += 1;
    }
    assert(out@ =~= before + board_bytes(*board));
}

/// The revision of a plan made from this netlist and this board. `root` is the
/// tree of `source` where it parses, and `bounds_json` is the board's bounds
/// in JSON.
pub fn plan_revision(
    source: &str,
    root: &Option<SexpNode>,
    board: &BoardState,
    bounds_json: &[u8],
) -> (res: String)
    ensures
        res@ == sha256_hex_of(
            revision_bytes(
                netlist_bytes(
                    source@,
                    match root {
                        Some(tree) => Some(tree@),
                        None => None,
                    },
                ),
                bounds_json@,
                *board,
            ),
        ),
        is_hex_digest(res@),
{
    let mut bytes = netlist_identity(source, root);
    let ghost identity = bytes@;
    bytes.extend_from_slice(bounds_json);
    assert(bytes@ =~= identity + bounds_json@);
    append_board(board, &mut bytes);
    sha256_hex(bytes.as_slice())
}

/// Takes the placement of staged footprints into the revision. `changes_json`
/// is the plan's changes in JSON.
pub fn refresh_revision_with_staging(plan: &mut SyncPlan, changes_json: &[u8])
    ensures
        final(plan).plan_revision@ == sha256_hex_of(
            encode_utf8(old(plan).plan_revision@) + changes_json@,
        ),
        is_hex_digest(final(plan).plan_revision@),
        final(plan).status == old(plan).status,
        final(plan).counts == old(plan).counts,
        final(plan).changes == old(plan).changes,
        final(plan).diagnostics == old(plan).diagnostics,
{
    let mut bytes: Vec<u8> = Vec::new();
    append_text(plan.plan_revision.as_str(), &mut bytes);
    let ghost head = bytes@;
    bytes.extend_from_slice(changes_json);
    assert(bytes@ =~= encode_utf8(plan.plan_revision@) + changes_json@);
    plan.plan_revision = sha256_hex(bytes.as_slice());
}

/// The date of an export and the version of the tool that wrote it do not
/// enter the revision.
pub proof fn law_revision_ignores_the_header(
    a: Sexp,
    b: Sexp,
    source_a: Seq<char>,
    source_b: Seq<char>,
    bounds_json: Seq<u8>,
    board: BoardState,
)
    requires
        a.first("components"@) == b.first("components"@),
        a.first("nets"@) == b.first("nets"@),
    ensures
        revision_bytes(netlist_bytes(source_a, Some(a)), bounds_json, board) == revision_bytes(
            netlist_bytes(source_b, Some(b)),
            bounds_json,
            board,
        ),
{
    crate::identity::law_identity_ignores_the_header(a, b);
}

/// With everything else equal, what is digested changes with the board's
/// bounds.
pub proof fn law_revision_covers_the_bounds(
    identity: Seq<u8>,
    bounds_a: Seq<u8>,
    bounds_b: Seq<u8>,
    board: BoardState,
)
    ensures
        (revision_bytes(identity, bounds_a, board) == revision_bytes(identity, bounds_b, board))
            == (bounds_a == bounds_b),
{
    let left = revision_bytes(identity, bounds_a, board);
    let right = revision_bytes(identity, bounds_b, board);
    let n = identity.len() as int;
    if left == right {
        assert(left.len() == n + bounds_a.len() + board_bytes(board).len());
        assert(right.len() == n + bounds_b.len() + board_bytes(board).len());
        assert(left.subrange(n, n + bounds_a.len()) =~= bounds_a);
        assert(right.subrange(n, n + bounds_a.len()) =~= bounds_b);
    }
}

/// The order of footprints in the revision is that of their identifiers,
/// whatever order the board lists them in, and every footprint is in it once.
pub proof fn law_kiid_order_sorts(footprints: Seq<BoardFootprint>, n: nat)
    requires
        n <= footprints.len(),
    ensures
        kiid_order(footprints, n).len() == n,
        kiid_order(footprints, n).no_duplicates(),
        forall|i: int| 0 <= i < n ==> 0 <= #[trigger] kiid_order(footprints, n)[i] < n,
        forall|i: int, j: int|
            0 <= i < j < n ==> !text_before(
                footprints[#[trigger] kiid_order(footprints, n)[j]].kiid@,
                footprints[#[trigger] kiid_order(footprints, n)[i]].kiid@,
            ),
    decreases n,
{
    if n > 0 {
        law_kiid_order_sorts(footprints, (n - 1) as nat);
        lemma_placed_sorted(footprints, kiid_order(footprints, (n - 1) as nat), n - 1);
    }
}

proof fn lemma_placed_sorted(footprints: Seq<BoardFootprint>, order: Seq<int>, k: int)
    requires
        order.no_duplicates(),
        forall|i: int| 0 <= i < order.len() ==> 0 <= #[trigger] order[i] < k,
        0 <= k < footprints.len(),
        forall|i: int, j: int|
            0 <= i < j < order.len() ==> !text_before(
                footprints[#[trigger] order[j]].kiid@,
                footprints[#[trigger] order[i]].kiid@,
            ),
    ensures
        ({
            let placed = placed_by_kiid(footprints, order, k);
            &&& placed.len() == order.len() + 1
            &&& placed.no_duplicates()
            &&& forall|i: int| 0 <= i < placed.len() ==> (#[trigger] placed[i] == k
                || order.contains(placed[i]))
            &&& forall|i: int| 0 <= i < placed.len() ==> 0 <= #[trigger] placed[i] < k + 1
            &&& forall|i: int, j: int|
                0 <= i < j < placed.len() ==> !text_before(
                    footprints[#[trigger] placed[j]].kiid@,
                    footprints[#[trigger] placed[i]].kiid@,
                )
        }),
    decreases order.len(),
{
    let placed = placed_by_kiid(footprints, order, k);
    if order.len() == 0 {
    } else if !text_before(footprints[k].kiid@, footprints[order.last()].kiid@) {
        assert forall|i: int, j: int| 0 <= i < j < placed.len() implies !text_before(
            footprints[#[trigger] placed[j]].kiid@,
            footprints[#[trigger] placed[i]].kiid@,
        ) by {
            if j == order.len() && text_before(footprints[k].kiid@, footprints[order[i]].kiid@) {
                let last = order.len() - 1;
                if i < last {
                    lemma_not_before(
                        footprints[order[i]].kiid@,
                        footprints[order[last]].kiid@,
                        footprints[k].kiid@,
                    );
                }
            }
        }
        assert forall|i: int| 0 <= i < placed.len() implies (#[trigger] placed[i] == k
            || order.contains(placed[i])) by {
            if i < order.len() {
                assert(order[i] == placed[i]);
            }
        }
    } else {
        let rest = order.drop_last();
        let last = order.last();
        lemma_placed_sorted(footprints, rest, k);
        let inner = placed_by_kiid(footprints, rest, k);
        assert(placed == inner.push(last));
        assert forall|i: int| 0 <= i < placed.len() implies (#[trigger] placed[i] == k
            || order.contains(placed[i])) by {
            if i < inner.len() {
                assert(placed[i] == inner[i]);
                if inner[i] != k {
                    let j = rest.index_of(inner[i]);
                    assert(order[j] == inner[i]);
                }
            } else {
                assert(order[order.len() - 1] == last);
            }
        }
        assert forall|i: int| 0 <= i < inner.len() implies #[trigger] inner[i] != last by {
            if inner[i] != k {
                let j = rest.index_of(inner[i]);
                assert(order[j] == inner[i]);
                assert(order[order.len() - 1] == last);
            } else {
                assert(order[order.len() - 1] < k);
            }
        }
        assert forall|i: int, j: int| 0 <= i < j < placed.len() implies !text_before(
            footprints[#[trigger] placed[j]].kiid@,
            footprints[#[trigger] placed[i]].kiid@,
        ) by {
            if j == inner.len() {
                assert(placed[i] == inner[i]);
                if inner[i] == k {
                    lemma_asymmetric(footprints[k].kiid@, footprints[last].kiid@);
                } else {
                    let m = rest.index_of(inner[i]);
                    assert(order[m] == inner[i]);
                    assert(order[order.len() - 1] == last);
                }
            } else {
                assert(placed[i] == inner[i] && placed[j] == inner[j]);
            }
        }
    }
}

proof fn lemma_asymmetric(a: Seq<char>, b: Seq<char>)
    requires
        text_before(a, b),
    ensures
        !text_before(b, a),
{
    if text_before(b, a) {
        crate::text::lemma_text_before_transitive(a, b, a);
        crate::text::lemma_text_before_irreflexive(a);
    }
}

/// If `b` does not come before `a` and `c` does not come before `b`, then `c`
/// does not come before `a`.
proof fn lemma_not_before(a: Seq<char>, b: Seq<char>, c: Seq<char>)
    requires
        !text_before(b, a),
        !text_before(c, b),
    ensures
        !text_before(c, a),
{
    if text_before(c, a) {
        crate::text::lemma_text_before_total(a, b);
        if a != b {
            crate::text::lemma_text_before_transitive(c, a, b);
        }
    }
}

/// The footprints enter the revision in the same way.
pub open spec fn reads_alike(a: BoardFootprint, b: BoardFootprint) -> bool {
    a.kiid@ == b.kiid@ && footprint_bytes(a) == footprint_bytes(b)
}

/// One of the footprints enters the revision in the same way as this one.
pub open spec fn has_like(footprints: Seq<BoardFootprint>, footprint: BoardFootprint) -> bool {
    exists|i: int| 0 <= i < footprints.len() && reads_alike(#[trigger] footprints[i], footprint)
}

/// No two footprints have the same identifier.
pub open spec fn distinct_kiids(footprints: Seq<BoardFootprint>) -> bool {
    forall|i: int, j: int|
        0 <= i < j < footprints.len() ==> (#[trigger] footprints[i]).kiid@ != (
        #[trigger] footprints[j]).kiid@
}

/// The order in which the board lists its footprints does not enter the
/// revision.
pub proof fn law_revision_ignores_the_footprint_order(
    identity: Seq<u8>,
    bounds_json: Seq<u8>,
    a: BoardState,
    b: BoardState,
)
    requires
        distinct_kiids(a.footprints@),
        distinct_kiids(b.footprints@),
        forall|i: int|
            0 <= i < a.footprints@.len() ==> has_like(b.footprints@, #[trigger] a.footprints@[i]),
        forall|i: int|
            0 <= i < b.footprints@.len() ==> has_like(a.footprints@, #[trigger] b.footprints@[i]),
        a.routed_nets.keys() == b.routed_nets.keys(),
        a.routed_nets.values() == b.routed_nets.values(),
    ensures
        revision_bytes(identity, bounds_json, a) == revision_bytes(identity, bounds_json, b),
{
    let (left, right) = (a.footprints@, b.footprints@);
    let (m, n) = (left.len(), right.len());
    let (x, y) = (kiid_order(left, m), kiid_order(right, n));
    lemma_kiids_in_order(left);
    lemma_kiids_in_order(right);
    let members = kiids_of(left, x).to_set();
    lemma_kiids_found(left, x, right, y);
    lemma_kiids_found(right, y, left, x);
    crate::text::lemma_ordered_list(kiids_of(left, x), members);
    crate::text::lemma_ordered_list(kiids_of(right, y), members);
    assert(x.len() == y.len()) by {
        assert(kiids_of(left, x).len() == kiids_of(right, y).len());
    }
    lemma_same_in_order(left, x, right, y);
    lemma_same_footprints_bytes(left, x, right, y);
    lemma_same_routed_bytes(a.routed_nets, b.routed_nets, a.routed_nets.keys().len());
}

/// What one board has, the other has too.
proof fn lemma_kiids_found(
    left: Seq<BoardFootprint>,
    x: Seq<int>,
    right: Seq<BoardFootprint>,
    y: Seq<int>,
)
    requires
        forall|i: int| 0 <= i < left.len() ==> has_like(right, #[trigger] left[i]),
        forall|i: int| 0 <= i < x.len() ==> 0 <= #[trigger] x[i] < left.len(),
        forall|k: int| 0 <= k < right.len() ==> #[trigger] y.contains(k),
    ensures
        forall|k: Seq<char>| #[trigger]
            kiids_of(left, x).contains(k) ==> kiids_of(right, y).contains(k),
{
    assert forall|k: Seq<char>| #[trigger] kiids_of(left, x).contains(k) implies kiids_of(
        right,
        y,
    ).contains(k) by {
        let i = kiids_of(left, x).index_of(k);
        let p = x[i];
        assert(has_like(right, left[p]));
        let j = choose|j: int| 0 <= j < right.len() && reads_alike(#[trigger] right[j], left[p]);
        assert(y.contains(j));
        assert(kiids_of(right, y)[y.index_of(j)] == k);
    }
}

/// Where the identifiers are the same, so is what enters the revision.
proof fn lemma_same_in_order(
    left: Seq<BoardFootprint>,
    x: Seq<int>,
    right: Seq<BoardFootprint>,
    y: Seq<int>,
)
    requires
        distinct_kiids(right),
        forall|i: int| 0 <= i < left.len() ==> has_like(right, #[trigger] left[i]),
        forall|i: int| 0 <= i < x.len() ==> 0 <= #[trigger] x[i] < left.len(),
        forall|i: int| 0 <= i < y.len() ==> 0 <= #[trigger] y[i] < right.len(),
        kiids_of(left, x) == kiids_of(right, y),
        x.len() == y.len(),
    ensures
        forall|i: int|
            0 <= i < x.len() ==> footprint_bytes(left[#[trigger] x[i]]) == footprint_bytes(
                right[y[i]],
            ),
{
    assert forall|i: int| 0 <= i < x.len() implies footprint_bytes(left[#[trigger] x[i]])
        == footprint_bytes(right[y[i]]) by {
        let (p, q) = (x[i], y[i]);
        assert(kiids_of(left, x)[i] == left[p].kiid@);
        assert(kiids_of(right, y)[i] == right[q].kiid@);
        assert(has_like(right, left[p]));
        let j = choose|j: int| 0 <= j < right.len() && reads_alike(#[trigger] right[j], left[p]);
        assert(right[q].kiid@ == right[j].kiid@);
        assert(q == j);
    }
}

spec fn kiids_of(footprints: Seq<BoardFootprint>, order: Seq<int>) -> Seq<Seq<char>> {
    Seq::new(order.len(), |i: int| footprints[order[i]].kiid@)
}

/// Footprints with identifiers of their own stand in strict order, and none is
/// left out.
proof fn lemma_kiids_in_order(footprints: Seq<BoardFootprint>)
    requires
        distinct_kiids(footprints),
    ensures
        ({
            let order = kiid_order(footprints, footprints.len());
            &&& order.len() == footprints.len()
            &&& forall|i: int| 0 <= i < order.len() ==> 0 <= #[trigger] order[i] < footprints.len()
            &&& forall|k: int| 0 <= k < footprints.len() ==> #[trigger] order.contains(k)
            &&& crate::text::strictly_ordered(kiids_of(footprints, order))
        }),
{
    let n = footprints.len();
    let order = kiid_order(footprints, n);
    law_kiid_order_sorts(footprints, n);
    lemma_all_in_order(footprints, n);
    let kiids = kiids_of(footprints, order);
    assert forall|i: int, j: int| 0 <= i < j < kiids.len() implies text_before(
        kiids[i],
        kiids[j],
    ) by {
        let (p, q) = (order[i], order[j]);
        assert(p != q);
        assert(footprints[p].kiid@ != footprints[q].kiid@);
        crate::text::lemma_text_before_total(kiids[i], kiids[j]);
    }
}

proof fn lemma_all_in_order(footprints: Seq<BoardFootprint>, n: nat)
    ensures
        forall|k: int| 0 <= k < n ==> #[trigger] kiid_order(footprints, n).contains(k),
    decreases n,
{
    if n > 0 {
        lemma_all_in_order(footprints, (n - 1) as nat);
        let before = kiid_order(footprints, (n - 1) as nat);
        lemma_placed_holds(footprints, before, n - 1);
        assert forall|k: int| 0 <= k < n implies #[trigger] kiid_order(footprints, n).contains(
            k,
        ) by {
            if k < n - 1 {
                assert(before.contains(k));
            }
        }
    }
}

proof fn lemma_placed_holds(footprints: Seq<BoardFootprint>, order: Seq<int>, k: int)
    ensures
        placed_by_kiid(footprints, order, k).contains(k),
        forall|i: int| #[trigger]
            order.contains(i) ==> placed_by_kiid(footprints, order, k).contains(i),
    decreases order.len(),
{
    let placed = placed_by_kiid(footprints, order, k);
    if order.len() == 0 || !text_before(footprints[k].kiid@, footprints[order.last()].kiid@) {
        assert(placed[order.len() as int] == k);
        assert forall|i: int| #[trigger] order.contains(i) implies placed.contains(i) by {
            assert(placed[order.index_of(i)] == i);
        }
    } else {
        let rest = order.drop_last();
        lemma_placed_holds(footprints, rest, k);
        let inner = placed_by_kiid(footprints, rest, k);
        assert(placed[inner.index_of(k)] == k);
        assert forall|i: int| #[trigger] order.contains(i) implies placed.contains(i) by {
            let at = order.index_of(i);
            if at < rest.len() {
                assert(rest[at] == i);
                assert(rest.contains(i));
                assert(placed[inner.index_of(i)] == i);
            } else {
                assert(placed[inner.len() as int] == i);
            }
        }
    }
}

proof fn lemma_same_footprints_bytes(
    a: Seq<BoardFootprint>,
    x: Seq<int>,
    b: Seq<BoardFootprint>,
    y: Seq<int>,
)
    requires
        x.len() == y.len(),
        forall|i: int|
            0 <= i < x.len() ==> footprint_bytes(a[#[trigger] x[i]]) == footprint_bytes(b[y[i]]),
    ensures
        footprints_bytes(a, x) == footprints_bytes(b, y),
    decreases x.len(),
{
    if x.len() > 0 {
        let n = x.len() - 1;
        assert(x[n] == x.last());
        let (p, q) = (x.drop_last(), y.drop_last());
        assert forall|i: int| 0 <= i < p.len() implies footprint_bytes(a[#[trigger] p[i]])
            == footprint_bytes(b[q[i]]) by {
            assert(x[i] == p[i]);
        }
        lemma_same_footprints_bytes(a, p, b, q);
    }
}

proof fn lemma_same_routed_bytes(a: TextMap<usize>, b: TextMap<usize>, n: nat)
    requires
        a.keys() == b.keys(),
        a.values() == b.values(),
    ensures
        routed_bytes(a, n) == routed_bytes(b, n),
    decreases n,
{
    if n > 0 {
        lemma_same_routed_bytes(a, b, (n - 1) as nat);
    }
}

} // verus!
