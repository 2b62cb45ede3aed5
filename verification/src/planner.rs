//! Carrying out the planning of a schematic-to-board update.

use crate::identity::netlist_bytes;
use crate::revision::{plan_revision, revision_bytes, sha256_hex_of};
use crate::sexp::SexpNode;
use crate::sync_plan::{
    about, accepted, additions, all_changes, all_component_conflicts, all_skipped_conflicts,
    at_path, at_reference, board_conflicts, board_only, claimed, claimed_by_component,
    claimed_by_skipped, clamped, component_conflicts, component_ids, component_index,
    footprint_conflicts, has_path, net_of, pad_conflicts, pads_of, pads_reassigned, path_repeated,
    plan_conflicts, reassignments, reference_repeated, rename_candidates, skipped_conflicts,
    skipped_count, skipped_ids, skipped_index, updates, verdict, Identity, Verdict, STAGING_STEP,
};
use crate::sync_types::{
    change_views, diagnostic_views, BoardFootprint, BoardState, ChangeView, CountPair,
    DesignComponent, DiagnosticView, ExportedDesign, PlanStatus, PlannedChange, Point,
    PreservedBoardState, PreservedView, SkippedComponent, SyncCounts, SyncDiagnostic, SyncPlan,
};
use crate::text::{concat2, concat3, concat5, join, owned, text_eq, texts};
use crate::text_map::{clone_texts, union_keys, TextMap};
use vstd::prelude::*;
use vstd::string::*;

verus! {

/// A conflict with its code, its message and the reference it is about.
pub fn conflict(code: &str, message: String, reference: Option<&str>) -> (res: SyncDiagnostic)
    ensures
        res@ == (DiagnosticView {
            code: code@,
            message: message@,
            reference: match reference {
                Some(text) => Some(text@),
                None => None,
            },
        }),
{
    SyncDiagnostic {
        code: owned(code),
        message,
        reference: match reference {
            Some(text) => Some(owned(text)),
            None => None,
        },
    }
}

fn report(diagnostics: &mut Vec<SyncDiagnostic>, code: &str, message: String, reference: &str)
    ensures
        diagnostic_views(final(diagnostics)@) == diagnostic_views(old(diagnostics)@).push(
            about(code@, message@, reference@),
        ),
{
    let ghost before = diagnostics@;
    let diagnostic = conflict(code, message, Some(reference));
    diagnostics.push(diagnostic);
    assert(diagnostic_views(diagnostics@) =~= diagnostic_views(before).push(diagnostic@));
}

/// The nearest sum that 64 bits hold.
fn add_clamped(a: i64, steps: usize, step: i64) -> (res: i64)
    requires
        0 <= step <= 1_000_000_000,
    ensures
        res == clamped(a + steps * step),
{
    assert(0 <= steps * step <= u64::MAX * 1_000_000_000) by (nonlinear_arith)
        requires
            0 <= steps <= u64::MAX,
            0 <= step <= 1_000_000_000,
    ;
    let offset: i128 = (steps as i128) * (step as i128);
    let sum: i128 = (a as i128) + offset;
    if sum > i64::MAX as i128 {
        i64::MAX
    } else {
        sum as i64
    }
}

/// The index gives for each reference the last footprint that has it.
spec fn indexes_references(map: TextMap<usize>, footprints: Seq<BoardFootprint>) -> bool {
    forall|key: Seq<char>| #[trigger]
        at_reference(footprints, key) == (if map@.contains_key(key) {
            Some(map@[key] as int)
        } else {
            None
        })
}

/// The index gives for each identity the last footprint that has it.
spec fn indexes_paths(map: TextMap<usize>, footprints: Seq<BoardFootprint>) -> bool {
    forall|key: Seq<char>| #[trigger]
        at_path(footprints, key) == (if map@.contains_key(key) {
            Some(map@[key] as int)
        } else {
            None
        })
}

struct BoardIndex {
    by_reference: TextMap<usize>,
    by_path: TextMap<usize>,
}

spec fn indexes(index: BoardIndex, footprints: Seq<BoardFootprint>) -> bool {
    &&& indexes_references(index.by_reference, footprints)
    &&& indexes_paths(index.by_path, footprints)
}

proof fn lemma_index_in_range(footprints: Seq<BoardFootprint>, key: Seq<char>)
    ensures
        at_reference(footprints, key) matches Some(k) ==> 0 <= k < footprints.len()
            && footprints[k].reference@ == key,
        at_path(footprints, key) matches Some(k) ==> 0 <= k < footprints.len() && has_path(
            footprints[k],
            key,
        ),
    decreases footprints.len(),
{
    if footprints.len() > 0 {
        lemma_index_in_range(footprints.drop_last(), key);
    }
}

/// Indexes the board and reports its duplicates.
fn index_board(
    footprints: &Vec<BoardFootprint>,
    diagnostics: &mut Vec<SyncDiagnostic>,
) -> (res: BoardIndex)
    requires
        old(diagnostics)@.len() == 0,
    ensures
        indexes(res, footprints@),
        diagnostic_views(final(diagnostics)@) == board_conflicts(footprints@),
{
    let mut by_reference: TextMap<usize> = TextMap::new();
    let mut by_path: TextMap<usize> = TextMap::new();
    let mut i: usize = 0;
    assert(footprints@.take(0) =~= Seq::empty());
    assert(diagnostic_views(diagnostics@) =~= board_conflicts(footprints@.take(0)));
    while i < footprints.len()
        invariant
            i <= footprints.len(),
            indexes_references(by_reference, footprints@.take(i as int)),
            indexes_paths(by_path, footprints@.take(i as int)),
            diagnostic_views(diagnostics@) == board_conflicts(footprints@.take(i as int)),
        decreases footprints.len() - i,
    {
        let footprint = &footprints[i];
        let ghost earlier = footprints@.take(i as int);
        let ghost now = footprints@.take(i + 1);
        let ghost start = diagnostic_views(diagnostics@);
        let ghost old_references = by_reference;
        let ghost old_paths = by_path;
        proof {
            assert(now.drop_last() =~= earlier);
            assert(now.last() == *footprint);
            assert(at_reference(earlier, footprint.reference@) is Some
                <==> by_reference@.contains_key(footprint.reference@));
        }
        if !by_reference.insert(footprint.reference.clone(), i) {
            report(
                diagnostics,
                "duplicate_board_reference",
                concat2("board contains duplicate reference ", footprint.reference.as_str()),
                footprint.reference.as_str(),
            );
        }
        let ghost middle = diagnostic_views(diagnostics@);
        match &footprint.symbol_path {
            Some(path) => {
                assert(at_path(earlier, path@) is Some <==> by_path@.contains_key(path@));
                if !by_path.insert(path.clone(), i) {
                    report(
                        diagnostics,
                        "duplicate_board_identity",
                        concat2("board contains duplicate schematic identity ", path.as_str()),
                        footprint.reference.as_str(),
                    );
                }
            },
            None => {},
        }
        proof {
            assert(diagnostic_views(diagnostics@) =~= start + footprint_conflicts(
                earlier,
                *footprint,
            ));
            assert forall|key: Seq<char>| #[trigger]
                at_reference(now, key) == (if by_reference@.contains_key(key) {
                    Some(by_reference@[key] as int)
                } else {
                    None
                }) by {
                assert(at_reference(earlier, key) == (if old_references@.contains_key(key) {
                    Some(old_references@[key] as int)
                } else {
                    None
                }));
            }
            assert forall|key: Seq<char>| #[trigger]
                at_path(now, key) == (if by_path@.contains_key(key) {
                    Some(by_path@[key] as int)
                } else {
                    None
                }) by {
                assert(at_path(earlier, key) == (if old_paths@.contains_key(key) {
                    Some(old_paths@[key] as int)
                } else {
                    None
                }));
            }
        }
        i += 1;
    }
    assert(footprints@.take(i as int) =~= footprints@);
    BoardIndex { by_reference, by_path }
}

fn find_in(map: &TextMap<usize>, key: &str) -> (res: Option<usize>)
    ensures
        match res {
            Some(index) => map@.contains_key(key@) && map@[key@] == index,
            None => !map@.contains_key(key@),
        },
{
    match map.get(key) {
        Some(index) => Some(*index),
        None => None,
    }
}

impl BoardIndex {
    fn reference(&self, key: &str, footprints: &Vec<BoardFootprint>) -> (res: Option<usize>)
        requires
            indexes(*self, footprints@),
        ensures
            match res {
                Some(index) => at_reference(footprints@, key@) == Some(index as int) && index
                    < footprints@.len() && footprints@[index as int].reference@ == key@,
                None => at_reference(footprints@, key@) is None,
            },
    {
        let res = find_in(&self.by_reference, key);
        proof {
            lemma_index_in_range(footprints@, key@);
            assert(at_reference(footprints@, key@) is Some
                <==> self.by_reference@.contains_key(key@));
        }
        res
    }

    fn path(&self, key: &str, footprints: &Vec<BoardFootprint>) -> (res: Option<usize>)
        requires
            indexes(*self, footprints@),
        ensures
            match res {
                Some(index) => at_path(footprints@, key@) == Some(index as int) && index
                    < footprints@.len() && has_path(footprints@[index as int], key@),
                None => at_path(footprints@, key@) is None,
            },
    {
        let res = find_in(&self.by_path, key);
        proof {
            lemma_index_in_range(footprints@, key@);
            assert(at_path(footprints@, key@) is Some <==> self.by_path@.contains_key(key@));
        }
        res
    }
}

/// The references and identities met so far.
struct Seen {
    references: TextMap<bool>,
    paths: TextMap<bool>,
}

/// What `seen` holds after the first `n` entries.
spec fn seen_holds(seen: Seen, ids: Seq<Identity>, n: int) -> bool {
    &&& forall|x: Seq<char>| #[trigger]
        seen.references@.contains_key(x) <==> exists|j: int|
            0 <= j < n && (#[trigger] ids[j]).reference == x
    &&& forall|x: Seq<char>| #[trigger]
        seen.paths@.contains_key(x) <==> exists|j: int|
            0 <= j < n && !reference_repeated(ids, j) && (#[trigger] ids[j]).path == x
}

/// What an entry repeats.
enum Repeat {
    Reference,
    Path,
    Nothing,
}

impl Seen {
    fn new() -> (res: Seen)
        ensures
            forall|ids: Seq<Identity>| #[trigger] seen_holds(res, ids, 0),
    {
        Seen { references: TextMap::new(), paths: TextMap::new() }
    }

    /// Takes the next entry in.
    fn meet(
        &mut self,
        reference: &String,
        path: &String,
        Ghost(ids): Ghost<Seq<Identity>>,
        Ghost(n): Ghost<int>,
    ) -> (res: Repeat)
        requires
            seen_holds(*old(self), ids, n),
            0 <= n < ids.len(),
            ids[n] == (Identity { reference: reference@, path: path@ }),
        ensures
            seen_holds(*final(self), ids, n + 1),
            res is Reference <==> reference_repeated(ids, n),
            res is Path <==> !reference_repeated(ids, n) && path_repeated(ids, n),
    {
        let ghost before = *self;
        proof {
            assert(self.references@.contains_key(reference@) <==> reference_repeated(ids, n));
            assert(self.paths@.contains_key(path@) <==> path_repeated(ids, n));
        }
        let new_reference = self.references.insert(reference.clone(), true);
        let res = if !new_reference {
            Repeat::Reference
        } else {
            let new_path = self.paths.insert(path.clone(), true);
            if !new_path {
                Repeat::Path
            } else {
                Repeat::Nothing
            }
        };
        proof {
            assert forall|x: Seq<char>| #[trigger]
                self.references@.contains_key(x) <==> exists|j: int|
                    0 <= j < n + 1 && (#[trigger] ids[j]).reference == x by {
                assert(before.references@.contains_key(x) <==> exists|j: int|
                    0 <= j < n && (#[trigger] ids[j]).reference == x);
                if x == reference@ {
                    assert(ids[n].reference == x);
                }
            }
            assert forall|x: Seq<char>| #[trigger]
                self.paths@.contains_key(x) <==> exists|j: int|
                    0 <= j < n + 1 && !reference_repeated(ids, j) && (#[trigger] ids[j]).path
                        == x by {
                assert(before.paths@.contains_key(x) <==> exists|j: int|
                    0 <= j < n && !reference_repeated(ids, j) && (#[trigger] ids[j]).path == x);
                if x == path@ {
                    assert(ids[n].path == x);
                }
            }
        }
        res
    }
}

proof fn lemma_skipped_claims(
    footprints: Seq<BoardFootprint>,
    skipped: Seq<SkippedComponent>,
    n: int,
    k: int,
)
    requires
        0 <= n < skipped.len(),
    ensures
        claimed_by_skipped(footprints, skipped, n + 1, k) == (claimed_by_skipped(
            footprints,
            skipped,
            n,
            k,
        ) || (accepted(skipped_ids(skipped), n) && skipped_index(footprints, skipped[n]) == Some(
            k,
        ))),
{
    if claimed_by_skipped(footprints, skipped, n, k) {
        let j = choose|j: int|
            0 <= j < n && accepted(skipped_ids(skipped), j) && skipped_index(
                footprints,
                #[trigger] skipped[j],
            ) == Some(k);
        assert(skipped_index(footprints, skipped[j]) == Some(k));
    }
}

/// Reports the conflicts of the skipped symbols, marks the footprints they have
/// on the board, and counts the symbols that repeat nothing.
fn plan_skipped(
    skipped: &Vec<SkippedComponent>,
    footprints: &Vec<BoardFootprint>,
    index: &BoardIndex,
    matched: &mut Vec<bool>,
    diagnostics: &mut Vec<SyncDiagnostic>,
) -> (res: usize)
    requires
        indexes(*index, footprints@),
        old(matched)@.len() == footprints@.len(),
        forall|k: int| 0 <= k < footprints@.len() ==> !#[trigger] old(matched)@[k],
    ensures
        final(matched)@.len() == footprints@.len(),
        forall|k: int|
            0 <= k < footprints@.len() ==> #[trigger] final(matched)@[k] == claimed_by_skipped(
                footprints@,
                skipped@,
                skipped@.len() as int,
                k,
            ),
        diagnostic_views(final(diagnostics)@) == diagnostic_views(old(diagnostics)@)
            + all_skipped_conflicts(footprints@, skipped@, skipped@.len()),
        res == skipped_count(skipped@, skipped@.len()),
{
    let ghost start = diagnostic_views(diagnostics@);
    let ghost ids = skipped_ids(skipped@);
    let mut seen = Seen::new();
    let mut count: usize = 0;
    let mut i: usize = 0;
    assert(start + all_skipped_conflicts(footprints@, skipped@, 0) =~= start);
    while i < skipped.len()
        invariant
            i <= skipped.len(),
            count <= i,
            ids == skipped_ids(skipped@),
            indexes(*index, footprints@),
            seen_holds(seen, ids, i as int),
            matched@.len() == footprints@.len(),
            forall|k: int|
                0 <= k < footprints@.len() ==> #[trigger] matched@[k] == claimed_by_skipped(
                    footprints@,
                    skipped@,
                    i as int,
                    k,
                ),
            diagnostic_views(diagnostics@) == start + all_skipped_conflicts(
                footprints@,
                skipped@,
                i as nat,
            ),
            count == skipped_count(skipped@, i as nat),
        decreases skipped.len() - i,
    {
        let entry = &skipped[i];
        let ghost before = diagnostic_views(diagnostics@);
        let ghost matched_before = matched@;
        let ghost rest = all_skipped_conflicts(footprints@, skipped@, i as nat);
        match seen.meet(&entry.reference, &entry.symbol_path, Ghost(ids), Ghost(i as int)) {
            Repeat::Nothing => {
                count += 1;
                let existing: Option<usize> = match index.path(
                    entry.symbol_path.as_str(),
                    footprints,
                ) {
                    Some(found) => Some(found),
                    None => index.reference(entry.reference.as_str(), footprints),
                };
                if let Some(found) = existing {
                    matched.set(found, true);
                    report(
                        diagnostics,
                        "on_board_exclusion_conflict",
                        concat2(
                            entry.reference.as_str(),
                            " is marked on_board=no but already exists on the board",
                        ),
                        entry.reference.as_str(),
                    );
                }
            },
            _ => {
                report(
                    diagnostics,
                    "duplicate_skipped_identity",
                    concat3(
                        "on_board=no instance ",
                        entry.reference.as_str(),
                        " has a duplicate reference or identity",
                    ),
                    entry.reference.as_str(),
                );
            },
        }
        proof {
            assert(diagnostic_views(diagnostics@) =~= before + skipped_conflicts(
                footprints@,
                skipped@,
                i as int,
            ));
            assert(start + (rest + skipped_conflicts(footprints@, skipped@, i as int))
                =~= start + rest + skipped_conflicts(footprints@, skipped@, i as int));
            assert forall|k: int| 0 <= k < footprints@.len() implies #[trigger] matched@[k]
                == claimed_by_skipped(footprints@, skipped@, i + 1, k) by {
                lemma_skipped_claims(footprints@, skipped@, i as int, k);
            }
        }
        i += 1;
    }
    count
}

/// What was decided about a component.
enum Decision {
    RepeatedReference,
    RepeatedIdentity,
    ReferenceTaken { index: usize },
    PossibleRename { names: Vec<String> },
    New,
    RenameCollision { index: usize, other: usize },
    FootprintChanged { index: usize },
    Matched { index: usize },
}

spec fn verdict_of(decision: Decision) -> Verdict {
    match decision {
        Decision::RepeatedReference => Verdict::RepeatedReference,
        Decision::RepeatedIdentity => Verdict::RepeatedIdentity,
        Decision::ReferenceTaken { index } => Verdict::ReferenceTaken { index: index as int },
        Decision::PossibleRename { names } => Verdict::PossibleRename,
        Decision::New => Verdict::New,
        Decision::RenameCollision { index, other } => Verdict::RenameCollision {
            index: index as int,
            other: other as int,
        },
        Decision::FootprintChanged { index } => Verdict::FootprintChanged { index: index as int },
        Decision::Matched { index } => Verdict::Matched { index: index as int },
    }
}

spec fn marks(matched: Seq<bool>, design: ExportedDesign, board: BoardState, n: int) -> bool {
    &&& matched.len() == board.footprints@.len()
    &&& forall|k: int|
        0 <= k < matched.len() ==> #[trigger] matched[k] == claimed(design, board, n, k)
}

fn find_rename_candidates(
    design: &ExportedDesign,
    board: &BoardState,
    matched: &Vec<bool>,
    i: usize,
) -> (res: Vec<String>)
    requires
        i < design.components@.len(),
        marks(matched@, *design, *board, i as int),
    ensures
        texts(res@) == rename_candidates(*design, *board, i as int, board.footprints@.len()),
{
    let component = &design.components[i];
    let mut res: Vec<String> = Vec::new();
    let mut k: usize = 0;
    assert(texts(res@) =~= rename_candidates(*design, *board, i as int, 0));
    while k < board.footprints.len()
        invariant
            k <= board.footprints@.len(),
            i < design.components@.len(),
            *component == design.components@[i as int],
            marks(matched@, *design, *board, i as int),
            texts(res@) == rename_candidates(*design, *board, i as int, k as nat),
        decreases board.footprints@.len() - k,
    {
        let footprint = &board.footprints[k];
        let ghost before = res@;
        if !matched[k] && footprint.symbol_path.is_none() && !footprint.not_in_schematic
            && footprint.footprint_id == component.footprint_id && footprint.value
            == component.value {
            res.push(footprint.reference.clone());
            assert(texts(res@) =~= texts(before).push(footprint.reference@));
        }
        k += 1;
    }
    res
}

fn decide(
    design: &ExportedDesign,
    board: &BoardState,
    index: &BoardIndex,
    matched: &Vec<bool>,
    repeat: Repeat,
    i: usize,
) -> (res: Decision)
    requires
        i < design.components@.len(),
        indexes(*index, board.footprints@),
        marks(matched@, *design, *board, i as int),
        repeat is Reference <==> reference_repeated(component_ids(design.components@), i as int),
        repeat is Path <==> !reference_repeated(component_ids(design.components@), i as int)
            && path_repeated(component_ids(design.components@), i as int),
    ensures
        verdict_of(res) == verdict(*design, *board, i as int),
        res matches Decision::PossibleRename { names } ==> texts(names@) == rename_candidates(
            *design,
            *board,
            i as int,
            board.footprints@.len(),
        ),
        match res {
            Decision::ReferenceTaken { index } => index < board.footprints@.len(),
            Decision::RenameCollision { index, other } => index < board.footprints@.len() && other
                < board.footprints@.len(),
            Decision::FootprintChanged { index } => index < board.footprints@.len(),
            Decision::Matched { index } => index < board.footprints@.len(),
            _ => true,
        },
        component_index(board.footprints@, design.components@[i as int]) matches Some(k) ==> 0 <= k
            < board.footprints@.len(),
{
    let component = &design.components[i];
    let footprints = &board.footprints;
    let named = index.reference(component.reference.as_str(), footprints);
    let linked = index.path(component.symbol_path.as_str(), footprints);
    match repeat {
        Repeat::Reference => {
            return Decision::RepeatedReference;
        },
        Repeat::Path => {
            return Decision::RepeatedIdentity;
        },
        Repeat::Nothing => {},
    }
    let found: Option<usize> = match linked {
        Some(found) => Some(found),
        None => match named {
            Some(found) => if footprints[found].symbol_path.is_none() {
                Some(found)
            } else {
                None
            },
            None => None,
        },
    };
    match found {
        None => {
            if let Some(taken) = named {
                return Decision::ReferenceTaken { index: taken };
            }
            let names = find_rename_candidates(design, board, matched, i);
            assert(texts(names@).len() == names@.len());
            if names.len() > 0 {
                Decision::PossibleRename { names }
            } else {
                Decision::New
            }
        },
        Some(found) => {
            let footprint = &footprints[found];
            if footprint.reference != component.reference {
                if let Some(other) = named {
                    if other != found {
                        return Decision::RenameCollision { index: found, other };
                    }
                }
            }
            if footprint.footprint_id != component.footprint_id {
                return Decision::FootprintChanged { index: found };
            }
            Decision::Matched { index: found }
        },
    }
}

fn net_text<'a>(pad_nets: &'a TextMap<String>, pad: &str) -> (res: &'a str)
    ensures
        res@ == net_of(pad_nets@, pad@),
{
    match pad_nets.get(pad) {
        Some(net) => net.as_str(),
        None => {
            proof {
                reveal_strlit("");
                assert(""@ =~= Seq::empty());
            }
            ""
        },
    }
}

/// Reports the pads that routed copper holds and counts those that change.
fn check_pads(
    board: &BoardState,
    component: &DesignComponent,
    footprint: &BoardFootprint,
    diagnostics: &mut Vec<SyncDiagnostic>,
) -> (res: usize)
    ensures
        diagnostic_views(final(diagnostics)@) == diagnostic_views(old(diagnostics)@)
            + pad_conflicts(
            *board,
            *component,
            *footprint,
            pads_of(*component, *footprint),
        ),
        res == pads_reassigned(*board, *component, *footprint, pads_of(*component, *footprint)),
{
    let pads = union_keys(&component.pad_nets, &footprint.pad_nets);
    let ghost all = pads_of(*component, *footprint);
    let ghost start = diagnostic_views(diagnostics@);
    let mut changed: usize = 0;
    let mut i: usize = 0;
    assert(all.take(0) =~= Seq::empty());
    assert(start + pad_conflicts(*board, *component, *footprint, all.take(0)) =~= start);
    while i < pads.len()
        invariant
            i <= pads.len(),
            changed <= i,
            all == texts(pads@),
            diagnostic_views(diagnostics@) == start + pad_conflicts(
                *board,
                *component,
                *footprint,
                all.take(i as int),
            ),
            changed == pads_reassigned(*board, *component, *footprint, all.take(i as int)),
        decreases pads.len() - i,
    {
        let pad = pads[i].as_str();
        let ghost before = diagnostic_views(diagnostics@);
        let ghost rest = pad_conflicts(*board, *component, *footprint, all.take(i as int));
        proof {
            assert(all.take(i + 1).drop_last() =~= all.take(i as int));
            assert(all.take(i + 1).last() == pad@);
        }
        let new_net = net_text(&component.pad_nets, pad);
        let old_net = net_text(&footprint.pad_nets, pad);
        if !text_eq(old_net, new_net) {
            if board.routed_nets.contains_key(old_net) || board.routed_nets.contains_key(new_net) {
                let mut message = concat5(
                    component.reference.as_str(),
                    " pad ",
                    pad,
                    " would change from '",
                    old_net,
                );
                message.append("' to '");
                message.append(new_net);
                message.append("' while routed copper uses that net");
                let ghost text = message@;
                report(
                    diagnostics,
                    "routed_pad_net_change",
                    message,
                    component.reference.as_str(),
                );
                proof {
                    let item = about("routed_pad_net_change"@, text, component.reference@);
                    assert((start + rest).push(item) =~= start + rest.push(item));
                }
            } else {
                changed += 1;
            }
        }
        i += 1;
    }
    assert(all.take(i as int) =~= all);
    changed
}

/// The progress of planning.
struct Progress {
    seen: Seen,
    matched: Vec<bool>,
    diagnostics: Vec<SyncDiagnostic>,
    changes: Vec<PlannedChange>,
    added: usize,
    updated: usize,
    pads: usize,
}

/// What has been worked out after the first `n` components, on top of the
/// conflicts found before them.
spec fn progress_holds(
    progress: Progress,
    design: ExportedDesign,
    board: BoardState,
    start: Seq<DiagnosticView>,
    n: nat,
) -> bool {
    &&& n <= design.components@.len()
    &&& seen_holds(progress.seen, component_ids(design.components@), n as int)
    &&& marks(progress.matched@, design, board, n as int)
    &&& diagnostic_views(progress.diagnostics@) == start + all_component_conflicts(
        design,
        board,
        n,
    )
    &&& change_views(progress.changes@) == all_changes(design, board, n)
    &&& progress.added == additions(design, board, n)
    &&& progress.updated == updates(design, board, n)
    &&& progress.added + progress.updated <= n
    &&& progress.pads == at_most_usize(reassignments(design, board, n))
}

/// The count, or the largest one there is where it is beyond that.
pub open spec fn at_most_usize(count: nat) -> usize {
    if count > usize::MAX {
        usize::MAX
    } else {
        count as usize
    }
}

proof fn lemma_component_claims(
    design: ExportedDesign,
    board: BoardState,
    n: int,
    k: int,
)
    requires
        0 <= n < design.components@.len(),
    ensures
        claimed(design, board, n + 1, k) == (claimed(design, board, n, k) || (accepted(
            component_ids(design.components@),
            n,
        ) && component_index(board.footprints@, design.components@[n]) == Some(k))),
{
    let footprints = board.footprints@;
    let components = design.components@;
    if claimed_by_component(footprints, components, n, k) {
        let j = choose|j: int|
            0 <= j < n && accepted(component_ids(components), j) && component_index(
                footprints,
                #[trigger] components[j],
            ) == Some(k);
        assert(component_index(footprints, components[j]) == Some(k));
    }
}

fn copy_component(component: &DesignComponent, position: Point) -> (res: PlannedChange)
    ensures
        res@ == (ChangeView::Add {
            reference: component.reference@,
            value: component.value@,
            footprint_id: component.footprint_id@,
            symbol_path: component.symbol_path@,
            dnp: component.dnp,
            pad_nets: component.pad_nets@,
            position,
        }),
{
    PlannedChange::Add {
        reference: component.reference.clone(),
        value: component.value.clone(),
        footprint_id: component.footprint_id.clone(),
        symbol_path: component.symbol_path.clone(),
        dnp: component.dnp,
        pad_nets: clone_texts(&component.pad_nets),
        position,
    }
}

/// The update that gives a footprint what the schematic owns and keeps the
/// rest.
fn update_of(component: &DesignComponent, footprint: &BoardFootprint) -> (res: PlannedChange)
    ensures
        res@ == (ChangeView::Update {
            kiid: footprint.kiid@,
            reference: component.reference@,
            value: component.value@,
            symbol_path: component.symbol_path@,
            dnp: component.dnp,
            pad_nets: component.pad_nets@,
            preserve: PreservedView {
                position: footprint.position,
                rotation: footprint.rotation,
                layer: footprint.layer@,
                locked: footprint.locked,
            },
        }),
{
    PlannedChange::Update {
        kiid: footprint.kiid.clone(),
        reference: component.reference.clone(),
        value: component.value.clone(),
        symbol_path: component.symbol_path.clone(),
        dnp: component.dnp,
        pad_nets: clone_texts(&component.pad_nets),
        preserve: PreservedBoardState {
            position: footprint.position,
            rotation: footprint.rotation,
            layer: footprint.layer.clone(),
            locked: footprint.locked,
        },
    }
}

fn differs(component: &DesignComponent, footprint: &BoardFootprint, changed: usize) -> (res: bool)
    ensures
        res == (footprint.reference@ != component.reference@ || footprint.value@
            != component.value@ || !has_path(*footprint, component.symbol_path@) || footprint.dnp
            != component.dnp || changed > 0),
{
    let linked: bool = match &footprint.symbol_path {
        Some(path) => *path == component.symbol_path,
        None => false,
    };
    footprint.reference != component.reference || footprint.value != component.value || !linked
        || footprint.dnp != component.dnp || changed > 0
}

/// Reports what is wrong with a component that planning has refused.
fn report_decision(
    design: &ExportedDesign,
    board: &BoardState,
    decision: &Decision,
    i: usize,
    diagnostics: &mut Vec<SyncDiagnostic>,
)
    requires
        i < design.components@.len(),
        verdict_of(*decision) == verdict(*design, *board, i as int),
        decision matches Decision::PossibleRename { names } ==> texts(names@) == rename_candidates(
            *design,
            *board,
            i as int,
            board.footprints@.len(),
        ),
        match decision {
            Decision::ReferenceTaken { index } => *index < board.footprints@.len(),
            Decision::RenameCollision { index, other } => *index < board.footprints@.len()
                && *other < board.footprints@.len(),
            Decision::FootprintChanged { index } => *index < board.footprints@.len(),
            _ => true,
        },
    ensures
        !(decision is Matched) ==> diagnostic_views(final(diagnostics)@) == diagnostic_views(
            old(diagnostics)@,
        ) + component_conflicts(*design, *board, i as int),
        decision is Matched ==> diagnostic_views(final(diagnostics)@) == diagnostic_views(
            old(diagnostics)@,
        ),
{
    let component = &design.components[i];
    let footprints = &board.footprints;
    let reference = component.reference.as_str();
    let ghost before = diagnostic_views(diagnostics@);
    match decision {
        Decision::RepeatedReference => {
            report(
                diagnostics,
                "duplicate_schematic_reference",
                concat2("schematic export contains duplicate reference ", reference),
                reference,
            );
        },
        Decision::RepeatedIdentity => {
            report(
                diagnostics,
                "duplicate_schematic_identity",
                concat2(
                    "schematic export contains duplicate identity ",
                    component.symbol_path.as_str(),
                ),
                reference,
            );
        },
        Decision::ReferenceTaken { index } => {
            report(
                diagnostics,
                "reference_identity_conflict",
                concat3(
                    "reference ",
                    reference,
                    " belongs to a different schematic identity on the board",
                ),
                footprints[*index].reference.as_str(),
            );
        },
        Decision::PossibleRename { names } => {
            let mut message = concat3(
                reference,
                " has no stable board identity and could be a rename of ",
                join(names, ", ").as_str(),
            );
            message.append("; link or resolve the identity in KiCad");
            report(diagnostics, "reference_only_rename_ambiguous", message, reference);
        },
        Decision::New => {},
        Decision::RenameCollision { index, other } => {
            let mut message = concat5(
                "cannot rename ",
                footprints[*index].reference.as_str(),
                " to ",
                reference,
                " because that reference belongs to board footprint ",
            );
            message.append(footprints[*other].kiid.as_str());
            report(diagnostics, "reference_rename_collision", message, reference);
        },
        Decision::FootprintChanged { index } => {
            let mut message = concat5(
                reference,
                " uses ",
                footprints[*index].footprint_id.as_str(),
                " on the board but ",
                component.footprint_id.as_str(),
            );
            message.append(" in the schematic");
            report(diagnostics, "footprint_id_changed", message, reference);
        },
        Decision::Matched { .. } => {},
    }
    proof {
        if !(decision is Matched) {
            assert(diagnostic_views(diagnostics@) =~= before + component_conflicts(
                *design,
                *board,
                i as int,
            ));
        }
    }
}

/// Works component `i` into the plan.
fn plan_component(
    design: &ExportedDesign,
    board: &BoardState,
    index: &BoardIndex,
    progress: &mut Progress,
    i: usize,
    Ghost(start): Ghost<Seq<DiagnosticView>>,
)
    requires
        i < design.components@.len(),
        indexes(*index, board.footprints@),
        progress_holds(*old(progress), *design, *board, start, i as nat),
    ensures
        progress_holds(*final(progress), *design, *board, start, (i + 1) as nat),
{
    let component = &design.components[i];
    let ghost before = *progress;
    let ghost ids = component_ids(design.components@);
    let repeat = progress.seen.meet(
        &component.reference,
        &component.symbol_path,
        Ghost(ids),
        Ghost(i as int),
    );
    let decision = decide(design, board, index, &progress.matched, repeat, i);
    assert(i < design.components.len());
    report_decision(design, board, &decision, i, &mut progress.diagnostics);
    match decision {
        Decision::New => {
            let position = Point {
                x: add_clamped(board.bounds.max_x, 1, STAGING_STEP),
                y: add_clamped(board.bounds.min_y, progress.added, STAGING_STEP),
            };
            let change = copy_component(component, position);
            progress.changes.push(change);
            progress.added = progress.added + 1;
            assert(change_views(progress.changes@) =~= change_views(before.changes@).push(
                change@,
            ));
        },
        Decision::RenameCollision { index: found, .. } => {
            progress.matched.set(found, true);
        },
        Decision::FootprintChanged { index: found } => {
            progress.matched.set(found, true);
        },
        Decision::Matched { index: found } => {
            progress.matched.set(found, true);
            let footprint = &board.footprints[found];
            let changed: usize = check_pads(
                board,
                component,
                footprint,
                &mut progress.diagnostics,
            );
            if differs(component, footprint, changed) {
                let change = update_of(component, footprint);
                progress.changes.push(change);
                progress.updated = progress.updated + 1;
                progress.pads = progress.pads.saturating_add(changed);
                assert(change_views(progress.changes@) =~= change_views(before.changes@).push(
                    change@,
                ));
            }
        },
        _ => {},
    }
    proof {
        let rest = all_component_conflicts(*design, *board, i as nat);
        let own = component_conflicts(*design, *board, i as int);
        assert(start + (rest + own) =~= start + rest + own);
        assert forall|k: int| 0 <= k < progress.matched@.len() implies #[trigger]
            progress.matched@[k] == claimed(*design, *board, i + 1, k) by {
            lemma_component_claims(*design, *board, i as int, k);
        }
    }
}

fn no_count() -> (res: CountPair)
    ensures
        res == (CountPair { planned: 0, applied: 0 }),
{
    CountPair { planned: 0, applied: 0 }
}

fn planned(count: usize) -> (res: CountPair)
    ensures
        res == (CountPair { planned: count, applied: 0 }),
{
    CountPair { planned: count, applied: 0 }
}

/// Counts the footprints that belong to no symbol.
fn count_board_only(
    design: &ExportedDesign,
    board: &BoardState,
    matched: &Vec<bool>,
) -> (res: usize)
    requires
        marks(matched@, *design, *board, design.components@.len() as int),
    ensures
        res == board_only(*design, *board, board.footprints@.len()),
{
    let mut count: usize = 0;
    let mut k: usize = 0;
    while k < matched.len()
        invariant
            k <= matched@.len(),
            count <= k,
            marks(matched@, *design, *board, design.components@.len() as int),
            count == board_only(*design, *board, k as nat),
        decreases matched@.len() - k,
    {
        if !matched[k] {
            count += 1;
        }
        k += 1;
    }
    count
}

/// Turns a schematic export and a board into a complete plan.
///
/// A component updates the footprint that carries its schematic identity, or
/// the one with its reference where that has no identity yet; any other
/// component is staged beside the board. A plan with a conflict changes
/// nothing. `root` is the tree of `netlist_source` where it parses, and
/// `bounds_json` is the board's bounds in JSON.
pub fn plan_sync(
    netlist_source: &str,
    root: &Option<SexpNode>,
    design: &ExportedDesign,
    board: &BoardState,
    bounds_json: &[u8],
) -> (res: SyncPlan)
    ensures
        diagnostic_views(res.diagnostics@) == plan_conflicts(*design, *board),
        plan_conflicts(*design, *board).len() > 0 ==> res.changes@.len() == 0,
        plan_conflicts(*design, *board).len() == 0 ==> change_views(res.changes@) == all_changes(
            *design,
            *board,
            design.components@.len(),
        ),
        res.status == plan_status(*design, *board),
        res.counts == plan_counts(*design, *board),
        res.plan_revision@ == sha256_hex_of(
            revision_bytes(
                netlist_bytes(
                    netlist_source@,
                    match root {
                        Some(tree) => Some(tree@),
                        None => None,
                    },
                ),
                bounds_json@,
                *board,
            ),
        ),
{
    let mut diagnostics: Vec<SyncDiagnostic> = Vec::new();
    let index = index_board(&board.footprints, &mut diagnostics);
    let mut matched: Vec<bool> = Vec::new();
    let mut k: usize = 0;
    while k < board.footprints.len()
        invariant
            k <= board.footprints@.len(),
            matched@.len() == k,
            forall|j: int| 0 <= j < k ==> !#[trigger] matched@[j],
        decreases board.footprints@.len() - k,
    {
        matched.push(false);
        k += 1;
    }
    let skipped: usize = plan_skipped(
        &design.skipped,
        &board.footprints,
        &index,
        &mut matched,
        &mut diagnostics,
    );
    let ghost start = diagnostic_views(diagnostics@);
    let mut progress = Progress {
        seen: Seen::new(),
        matched,
        diagnostics,
        changes: Vec::new(),
        added: 0,
        updated: 0,
        pads: 0,
    };
    let mut i: usize = 0;
    proof {
        assert(start + all_component_conflicts(*design, *board, 0) =~= start);
        assert(change_views(progress.changes@) =~= all_changes(*design, *board, 0));
        assert(seen_holds(progress.seen, component_ids(design.components@), 0));
        assert(marks(progress.matched@, *design, *board, 0));
    }
    while i < design.components.len()
        invariant
            i <= design.components@.len(),
            indexes(index, board.footprints@),
            progress_holds(progress, *design, *board, start, i as nat),
        decreases design.components@.len() - i,
    {
        plan_component(design, board, &index, &mut progress, i, Ghost(start));
        i += 1;
    }
    let board_only_count: usize = count_board_only(design, board, &progress.matched);
    let conflicts: usize = progress.diagnostics.len();
    assert(diagnostic_views(progress.diagnostics@).len() == conflicts);
    assert(change_views(progress.changes@).len() == progress.changes@.len());
    let plan_revision = plan_revision(netlist_source, root, board, bounds_json);
    let counts = SyncCounts {
        added: if conflicts > 0 {
            no_count()
        } else {
            planned(progress.added)
        },
        updated: if conflicts > 0 {
            no_count()
        } else {
            planned(progress.updated)
        },
        pads_reassigned: if conflicts > 0 {
            no_count()
        } else {
            planned(progress.pads)
        },
        board_only_preserved: planned(board_only_count),
        skipped_by_flag: planned(skipped),
        conflicts: planned(conflicts),
    };
    if conflicts > 0 {
        SyncPlan {
            status: PlanStatus::Conflict,
            plan_revision,
            counts,
            changes: Vec::new(),
            diagnostics: progress.diagnostics,
        }
    } else {
        let status = if progress.changes.len() == 0 {
            PlanStatus::Noop
        } else {
            PlanStatus::Ready
        };
        SyncPlan {
            status,
            plan_revision,
            counts,
            changes: progress.changes,
            diagnostics: progress.diagnostics,
        }
    }
}

/// The status of a plan.
pub open spec fn plan_status(design: ExportedDesign, board: BoardState) -> PlanStatus {
    if plan_conflicts(design, board).len() > 0 {
        PlanStatus::Conflict
    } else if all_changes(design, board, design.components@.len()).len() == 0 {
        PlanStatus::Noop
    } else {
        PlanStatus::Ready
    }
}

/// A count of planned things, nothing of which has been applied.
pub open spec fn planned_only(count: nat) -> CountPair {
    CountPair { planned: at_most_usize(count), applied: 0 }
}

/// The counts of a plan.
pub open spec fn plan_counts(design: ExportedDesign, board: BoardState) -> SyncCounts {
    let n = design.components@.len();
    let clean = plan_conflicts(design, board).len() == 0;
    SyncCounts {
        added: planned_only(
            if clean {
                additions(design, board, n)
            } else {
                0
            },
        ),
        updated: planned_only(
            if clean {
                updates(design, board, n)
            } else {
                0
            },
        ),
        pads_reassigned: planned_only(
            if clean {
                reassignments(design, board, n)
            } else {
                0
            },
        ),
        board_only_preserved: planned_only(board_only(design, board, board.footprints@.len())),
        skipped_by_flag: planned_only(skipped_count(design.skipped@, design.skipped@.len())),
        conflicts: planned_only(plan_conflicts(design, board).len()),
    }
}

} // verus!
