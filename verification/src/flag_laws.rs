//! What the saved flags do to a design, told from the nodes of the files and
//! from the flags of every unit.

use crate::chars::pairs_replaced;
use crate::lists::positions_where;
use crate::netlist::ComponentView;
use crate::netlist_laws::{is_bare, is_slashes, lemma_end_stripped, lemma_no_pairs};
use crate::sexp::{Sexp, SexpNode};
use crate::symbol_flags::{
    all_kept, all_skipped, base_path, components_off_board, first_with_path, first_with_reference,
    flags_for, has_identity, inconsistent, kept, named_off_board, off_board, one_symbol_flags,
    path_flags, paths_flags, projects_flags, projects_of, root_uuid_of, saved_flags, symbols_flags,
    with_off_board, FlagsView,
};
use crate::sync_plan::Identity;
use vstd::prelude::*;
use vstd::string::*;

verus! {

/// The flags are those of a unit that this path of this symbol places.
pub open spec fn is_placed_by(
    root_uuid: Seq<char>,
    symbol: Sexp,
    path: Sexp,
    entry: FlagsView,
) -> bool {
    let instance = match path.text_at(1) {
        Some(text) => text,
        None => "/"@,
    };
    &&& path.value_of("reference"@) == Some(entry.reference)
    &&& symbol.value_of("uuid"@) is Some
    &&& entry.symbol_path == pairs_replaced(
        base_path(instance, root_uuid) + "/"@ + symbol.value_of("uuid"@)->0,
        '/',
    )
    &&& entry.in_bom == !(symbol.value_of("in_bom"@) == Some("no"@))
    &&& entry.on_board == !(symbol.value_of("on_board"@) == Some("no"@))
    &&& entry.dnp == (symbol.value_of("dnp"@) == Some("yes"@))
}

/// A path of a project of the symbol places the unit.
pub open spec fn is_unit_of(root_uuid: Seq<char>, symbol: Sexp, entry: FlagsView) -> bool {
    symbol.first("instances"@) is Some && exists|p: int, q: int|
        0 <= p < symbol.first("instances"@)->0.all("project"@).len() && 0 <= q
            < symbol.first("instances"@)->0.all("project"@)[p].all("path"@).len() && is_placed_by(
            root_uuid,
            symbol,
            #[trigger] symbol.first("instances"@)->0.all("project"@)[p].all("path"@)[q],
            entry,
        )
}

/// The unit is one of those that the files place.
pub open spec fn is_saved(trees: Seq<SexpNode>, entry: FlagsView) -> bool {
    exists|t: int, s: int|
        0 <= t < trees.len() && 0 <= s < trees[t]@.all("symbol"@).len() && is_unit_of(
            match trees[t]@.value_of("uuid"@) {
                Some(uuid) => uuid,
                None => Seq::empty(),
            },
            #[trigger] trees[t]@.all("symbol"@)[s],
            entry,
        )
}

/// A unit on the root sheet is known by the identifiers of the root and of its
/// symbol, and one below it by its sheet path and the identifier of its symbol.
pub proof fn law_a_unit_is_known_by_its_sheet(
    root_uuid: Seq<char>,
    sheet: Seq<char>,
    after: Seq<char>,
    uuid: Seq<char>,
)
    requires
        is_bare(root_uuid),
        root_uuid.len() > 0,
        is_bare(sheet),
        sheet.len() > 0,
        is_slashes(after),
        is_bare(uuid),
        uuid.len() > 0,
    ensures
        pairs_replaced(base_path("/"@, root_uuid) + "/"@ + uuid, '/') == seq!['/'] + root_uuid
            + seq!['/'] + uuid,
        pairs_replaced(
            base_path(seq!['/'] + sheet + after, root_uuid) + "/"@ + uuid,
            '/',
        ) == seq!['/'] + sheet + seq!['/'] + uuid,
{
    reveal_strlit("/");
    assert("/"@ =~= seq!['/']);
    lemma_joined(root_uuid, uuid);
    lemma_joined(sheet, uuid);
    assert("/"@ + root_uuid + "/"@ + uuid =~= seq!['/'] + root_uuid + seq!['/'] + uuid);
    let instance = seq!['/'] + sheet + after;
    assert(instance != "/"@) by {
        assert(instance.len() > 1);
    }
    let stripped = seq!['/'] + sheet;
    assert(stripped.last() == sheet.last());
    lemma_end_stripped(stripped, after);
    assert(stripped + after =~= instance);
}

proof fn lemma_joined(a: Seq<char>, b: Seq<char>)
    requires
        is_bare(a),
        a.len() > 0,
        is_bare(b),
        b.len() > 0,
    ensures
        pairs_replaced(seq!['/'] + a + seq!['/'] + b, '/') == seq!['/'] + a + seq!['/'] + b,
{
    let whole = seq!['/'] + a + seq!['/'] + b;
    assert forall|i: int| 0 <= i < whole.len() - 1 implies !(#[trigger] whole[i] == '/' && whole[i
        + 1] == '/') by {
        let n = a.len() as int;
        if i == 0 {
            assert(whole[1] == a[0]);
        } else if i <= n {
            assert(whole[i] == a[i - 1]);
            if i < n {
                assert(whole[i + 1] == a[i]);
                assert(!(a[i - 1] == '/' && a[i - 1 + 1] == '/'));
            } else {
                assert(a[n - 1] == a.last());
            }
        } else {
            assert(whole[i + 1] == b[i - n - 1]);
            if i == n + 1 {
                assert(b[0] != '/');
            } else {
                assert(whole[i] == b[i - n - 2]);
                assert(!(b[i - n - 2] == '/' && b[i - n - 2 + 1] == '/'));
            }
        }
    }
    lemma_no_pairs(whole);
}

/// The flags of exactly the units that the files place are read.
pub proof fn law_every_placed_unit_is_read(trees: Seq<SexpNode>, entry: FlagsView)
    ensures
        saved_flags(trees, trees.len()).contains(entry) <==> is_saved(trees, entry),
{
    lemma_saved(trees, trees.len(), entry);
}

proof fn lemma_either(a: Seq<FlagsView>, b: Seq<FlagsView>, x: FlagsView)
    ensures
        (a + b).contains(x) <==> a.contains(x) || b.contains(x),
{
    let both = a + b;
    if a.contains(x) {
        assert(both[a.index_of(x)] == x);
    }
    if b.contains(x) {
        assert(both[a.len() + b.index_of(x)] == x);
    }
    if both.contains(x) {
        let i = both.index_of(x);
        if i < a.len() {
            assert(a[i] == x);
        } else {
            assert(b[i - a.len()] == x);
        }
    }
}

proof fn lemma_paths(
    root_uuid: Seq<char>,
    symbol: Sexp,
    uuid: Seq<char>,
    paths: Seq<Sexp>,
    entry: FlagsView,
)
    requires
        symbol.value_of("uuid"@) == Some(uuid),
    ensures
        paths_flags(root_uuid, symbol, uuid, paths).contains(entry) <==> exists|q: int|
            0 <= q < paths.len() && is_placed_by(root_uuid, symbol, #[trigger] paths[q], entry),
    decreases paths.len(),
{
    if paths.len() > 0 {
        let rest = paths.drop_last();
        let last = paths.last();
        lemma_paths(root_uuid, symbol, uuid, rest, entry);
        let own = path_flags(root_uuid, symbol, uuid, last);
        lemma_either(paths_flags(root_uuid, symbol, uuid, rest), own, entry);
        assert(paths[paths.len() - 1] == last);
        if own.len() > 0 {
            if own.contains(entry) {
                assert(own[0] == entry);
            }
            if is_placed_by(root_uuid, symbol, last, entry) {
                assert(own[0] == entry);
            }
        }
        if exists|q: int|
            0 <= q < rest.len() && is_placed_by(root_uuid, symbol, #[trigger] rest[q], entry) {
            let q = choose|q: int|
                0 <= q < rest.len() && is_placed_by(root_uuid, symbol, #[trigger] rest[q], entry);
            assert(paths[q] == rest[q]);
        }
        if exists|q: int|
            0 <= q < paths.len() && is_placed_by(root_uuid, symbol, #[trigger] paths[q], entry) {
            let q = choose|q: int|
                0 <= q < paths.len() && is_placed_by(
                    root_uuid,
                    symbol,
                    #[trigger] paths[q],
                    entry,
                );
            if q < rest.len() {
                assert(rest[q] == paths[q]);
            }
        }
    }
}

spec fn in_projects(
    root_uuid: Seq<char>,
    symbol: Sexp,
    projects: Seq<Sexp>,
    entry: FlagsView,
) -> bool {
    exists|p: int, q: int|
        0 <= p < projects.len() && 0 <= q < projects[p].all("path"@).len() && is_placed_by(
            root_uuid,
            symbol,
            #[trigger] projects[p].all("path"@)[q],
            entry,
        )
}

proof fn lemma_projects(
    root_uuid: Seq<char>,
    symbol: Sexp,
    uuid: Seq<char>,
    projects: Seq<Sexp>,
    entry: FlagsView,
)
    requires
        symbol.value_of("uuid"@) == Some(uuid),
    ensures
        projects_flags(root_uuid, symbol, uuid, projects).contains(entry) <==> in_projects(
            root_uuid,
            symbol,
            projects,
            entry,
        ),
    decreases projects.len(),
{
    if projects.len() > 0 {
        let rest = projects.drop_last();
        let end = projects.len() - 1;
        let paths = projects.last().all("path"@);
        lemma_projects(root_uuid, symbol, uuid, rest, entry);
        lemma_paths(root_uuid, symbol, uuid, paths, entry);
        lemma_either(
            projects_flags(root_uuid, symbol, uuid, rest),
            paths_flags(root_uuid, symbol, uuid, paths),
            entry,
        );
        assert(projects[end] == projects.last());
        if in_projects(root_uuid, symbol, rest, entry) {
            let (p, q) = choose|p: int, q: int|
                0 <= p < rest.len() && 0 <= q < rest[p].all("path"@).len() && is_placed_by(
                    root_uuid,
                    symbol,
                    #[trigger] rest[p].all("path"@)[q],
                    entry,
                );
            assert(projects[p] == rest[p]);
            assert(is_placed_by(root_uuid, symbol, projects[p].all("path"@)[q], entry));
        }
        if exists|q: int|
            0 <= q < paths.len() && is_placed_by(root_uuid, symbol, #[trigger] paths[q], entry) {
            let q = choose|q: int|
                0 <= q < paths.len() && is_placed_by(
                    root_uuid,
                    symbol,
                    #[trigger] paths[q],
                    entry,
                );
            assert(is_placed_by(root_uuid, symbol, projects[end].all("path"@)[q], entry));
        }
        if in_projects(root_uuid, symbol, projects, entry) {
            let (p, q) = choose|p: int, q: int|
                0 <= p < projects.len() && 0 <= q < projects[p].all("path"@).len()
                    && is_placed_by(
                    root_uuid,
                    symbol,
                    #[trigger] projects[p].all("path"@)[q],
                    entry,
                );
            if p < end {
                assert(rest[p] == projects[p]);
                assert(is_placed_by(root_uuid, symbol, rest[p].all("path"@)[q], entry));
            } else {
                assert(is_placed_by(root_uuid, symbol, paths[q], entry));
            }
        }
    }
}

proof fn lemma_symbol(root_uuid: Seq<char>, symbol: Sexp, entry: FlagsView)
    ensures
        one_symbol_flags(root_uuid, symbol).contains(entry) <==> is_unit_of(
            root_uuid,
            symbol,
            entry,
        ),
{
    if symbol.value_of("uuid"@) is Some {
        let uuid = symbol.value_of("uuid"@)->0;
        lemma_projects(root_uuid, symbol, uuid, projects_of(symbol), entry);
        if symbol.first("instances"@) is Some {
            assert(projects_of(symbol) == symbol.first("instances"@)->0.all("project"@));
        }
    }
}

proof fn lemma_symbols(root_uuid: Seq<char>, symbols: Seq<Sexp>, entry: FlagsView)
    ensures
        symbols_flags(root_uuid, symbols).contains(entry) <==> exists|s: int|
            0 <= s < symbols.len() && is_unit_of(root_uuid, #[trigger] symbols[s], entry),
    decreases symbols.len(),
{
    if symbols.len() > 0 {
        let rest = symbols.drop_last();
        lemma_symbols(root_uuid, rest, entry);
        lemma_symbol(root_uuid, symbols.last(), entry);
        lemma_either(
            symbols_flags(root_uuid, rest),
            one_symbol_flags(root_uuid, symbols.last()),
            entry,
        );
        assert(symbols[symbols.len() - 1] == symbols.last());
        if exists|s: int| 0 <= s < rest.len() && is_unit_of(root_uuid, #[trigger] rest[s], entry) {
            let s = choose|s: int|
                0 <= s < rest.len() && is_unit_of(root_uuid, #[trigger] rest[s], entry);
            assert(symbols[s] == rest[s]);
        }
        if exists|s: int|
            0 <= s < symbols.len() && is_unit_of(root_uuid, #[trigger] symbols[s], entry) {
            let s = choose|s: int|
                0 <= s < symbols.len() && is_unit_of(root_uuid, #[trigger] symbols[s], entry);
            if s < rest.len() {
                assert(rest[s] == symbols[s]);
            }
        }
    }
}

spec fn saved_before(trees: Seq<SexpNode>, n: nat, entry: FlagsView) -> bool {
    exists|t: int, s: int|
        0 <= t < n && 0 <= s < trees[t]@.all("symbol"@).len() && is_unit_of(
            root_uuid_of(trees[t]@),
            #[trigger] trees[t]@.all("symbol"@)[s],
            entry,
        )
}

proof fn lemma_saved(trees: Seq<SexpNode>, n: nat, entry: FlagsView)
    requires
        n <= trees.len(),
    ensures
        saved_flags(trees, n).contains(entry) <==> saved_before(trees, n, entry),
    decreases n,
{
    if n > 0 {
        lemma_saved(trees, (n - 1) as nat, entry);
        let tree = trees[n - 1]@;
        let symbols = tree.all("symbol"@);
        lemma_symbols(root_uuid_of(tree), symbols, entry);
        lemma_either(
            saved_flags(trees, (n - 1) as nat),
            symbols_flags(root_uuid_of(tree), symbols),
            entry,
        );
        if exists|s: int|
            0 <= s < symbols.len() && is_unit_of(root_uuid_of(tree), #[trigger] symbols[s], entry) {
            let s = choose|s: int|
                0 <= s < symbols.len() && is_unit_of(
                    root_uuid_of(tree),
                    #[trigger] symbols[s],
                    entry,
                );
            assert(is_unit_of(root_uuid_of(trees[n - 1]@), trees[n - 1]@.all("symbol"@)[s], entry));
        }
        if saved_before(trees, n, entry) {
            let (t, s) = choose|t: int, s: int|
                0 <= t < n && 0 <= s < trees[t]@.all("symbol"@).len() && is_unit_of(
                    root_uuid_of(trees[t]@),
                    #[trigger] trees[t]@.all("symbol"@)[s],
                    entry,
                );
            if t == n - 1 {
                assert(is_unit_of(root_uuid_of(tree), symbols[s], entry));
            }
        }
    }
}

/// The files disagree about a reference exactly if two of its units differ in a
/// flag.
pub proof fn law_units_that_differ_disagree(flags: Seq<FlagsView>, reference: Seq<char>)
    ensures
        inconsistent(flags, reference) <==> exists|i: int, j: int|
            0 <= i < flags.len() && 0 <= j < flags.len() && (#[trigger] flags[i]).reference
                == reference && (#[trigger] flags[j]).reference == reference && (flags[i].in_bom
                != flags[j].in_bom || flags[i].on_board != flags[j].on_board || flags[i].dnp
                != flags[j].dnp),
{
    if inconsistent(flags, reference) {
        let (i, j) = choose|i: int, j: int|
            0 <= i < flags.len() && 0 <= j < flags.len() && flags[i].reference == reference
                && #[trigger] crate::symbol_flags::disagree(flags, i, j);
        assert(flags[i].reference == reference && flags[j].reference == reference);
    }
    if exists|i: int, j: int|
        0 <= i < flags.len() && 0 <= j < flags.len() && (#[trigger] flags[i]).reference
            == reference && (#[trigger] flags[j]).reference == reference && (flags[i].in_bom
            != flags[j].in_bom || flags[i].on_board != flags[j].on_board || flags[i].dnp
            != flags[j].dnp) {
        let (i, j) = choose|i: int, j: int|
            0 <= i < flags.len() && 0 <= j < flags.len() && (#[trigger] flags[i]).reference
                == reference && (#[trigger] flags[j]).reference == reference && (flags[i].in_bom
                != flags[j].in_bom || flags[i].on_board != flags[j].on_board || flags[i].dnp
                != flags[j].dnp);
        assert(crate::symbol_flags::disagree(flags, i, j));
    }
}

/// Unit `k` speaks for a component: it is the first with its identity, or no
/// unit has that and it is the first with its reference.
pub open spec fn speaks_for(flags: Seq<FlagsView>, component: ComponentView, k: int) -> bool {
    &&& 0 <= k < flags.len()
    &&& if exists|m: int|
        0 <= m < flags.len() && (#[trigger] flags[m]).symbol_path == component.symbol_path {
        flags[k].symbol_path == component.symbol_path && forall|m: int|
            0 <= m < k ==> (#[trigger] flags[m]).symbol_path != component.symbol_path
    } else {
        flags[k].reference == component.reference && forall|m: int|
            0 <= m < k ==> (#[trigger] flags[m]).reference != component.reference
    }
}

/// A unit that speaks for the component keeps it off the board or out of the
/// bill of materials.
pub open spec fn goes(flags: Seq<FlagsView>, component: ComponentView) -> bool {
    exists|k: int| #[trigger]
        speaks_for(flags, component, k) && !(flags[k].in_bom && flags[k].on_board)
}

/// Whether the component is not to be populated, as the unit that speaks for it
/// says, or as it was where none does.
pub open spec fn new_dnp(flags: Seq<FlagsView>, component: ComponentView) -> bool {
    if exists|k: int| #[trigger] speaks_for(flags, component, k) {
        exists|k: int| #[trigger] speaks_for(flags, component, k) && flags[k].dnp
    } else {
        component.dnp
    }
}

proof fn lemma_first_with_path(flags: Seq<FlagsView>, path: Seq<char>)
    ensures
        match first_with_path(flags, path) {
            Some(entry) => exists|k: int|
                0 <= k < flags.len() && #[trigger] flags[k] == entry && entry.symbol_path == path
                    && forall|m: int| 0 <= m < k ==> (#[trigger] flags[m]).symbol_path != path,
            None => forall|m: int|
                0 <= m < flags.len() ==> (#[trigger] flags[m]).symbol_path != path,
        },
    decreases flags.len(),
{
    if flags.len() > 0 {
        let rest = flags.drop_last();
        lemma_first_with_path(rest, path);
        assert(flags[flags.len() - 1] == flags.last());
        assert forall|m: int| 0 <= m < rest.len() implies #[trigger] rest[m] == flags[m] by {}
        match first_with_path(rest, path) {
            Some(entry) => {
                let k = choose|k: int|
                    0 <= k < rest.len() && #[trigger] rest[k] == entry && entry.symbol_path == path
                        && forall|m: int| 0 <= m < k ==> (#[trigger] rest[m]).symbol_path != path;
                assert(flags[k] == entry);
                assert forall|m: int| 0 <= m < k implies (#[trigger] flags[m]).symbol_path
                    != path by {
                    assert(rest[m] == flags[m]);
                }
            },
            None => {
                assert forall|m: int| 0 <= m < rest.len() implies (#[trigger] flags[m]).symbol_path
                    != path by {
                    assert(rest[m] == flags[m]);
                }
            },
        }
    }
}

proof fn lemma_first_with_reference(flags: Seq<FlagsView>, reference: Seq<char>)
    ensures
        match first_with_reference(flags, reference) {
            Some(entry) => exists|k: int|
                0 <= k < flags.len() && #[trigger] flags[k] == entry && entry.reference == reference
                    && forall|m: int| 0 <= m < k ==> (#[trigger] flags[m]).reference != reference,
            None => forall|m: int|
                0 <= m < flags.len() ==> (#[trigger] flags[m]).reference != reference,
        },
    decreases flags.len(),
{
    if flags.len() > 0 {
        let rest = flags.drop_last();
        lemma_first_with_reference(rest, reference);
        assert(flags[flags.len() - 1] == flags.last());
        assert forall|m: int| 0 <= m < rest.len() implies #[trigger] rest[m] == flags[m] by {}
        match first_with_reference(rest, reference) {
            Some(entry) => {
                let k = choose|k: int|
                    0 <= k < rest.len() && #[trigger] rest[k] == entry && entry.reference
                        == reference && forall|m: int|
                        0 <= m < k ==> (#[trigger] rest[m]).reference != reference;
                assert(flags[k] == entry);
                assert forall|m: int| 0 <= m < k implies (#[trigger] flags[m]).reference
                    != reference by {
                    assert(rest[m] == flags[m]);
                }
            },
            None => {
                assert forall|m: int| 0 <= m < rest.len() implies (#[trigger] flags[m]).reference
                    != reference by {
                    assert(rest[m] == flags[m]);
                }
            },
        }
    }
}

proof fn lemma_speaker(flags: Seq<FlagsView>, component: ComponentView)
    ensures
        match flags_for(flags, component) {
            Some(entry) => exists|k: int| #[trigger]
                speaks_for(flags, component, k) && flags[k] == entry,
            None => forall|k: int| !#[trigger] speaks_for(flags, component, k),
        },
        forall|j: int, k: int| #[trigger]
            speaks_for(flags, component, j) && #[trigger] speaks_for(flags, component, k) ==> j
                == k,
{
    lemma_first_with_path(flags, component.symbol_path);
    lemma_first_with_reference(flags, component.reference);
    if first_with_path(flags, component.symbol_path) is Some {
        let entry = first_with_path(flags, component.symbol_path)->0;
        let k = choose|k: int|
            0 <= k < flags.len() && #[trigger] flags[k] == entry && entry.symbol_path
                == component.symbol_path && forall|m: int|
                0 <= m < k ==> (#[trigger] flags[m]).symbol_path != component.symbol_path;
        assert(speaks_for(flags, component, k));
    } else if first_with_reference(flags, component.reference) is Some {
        let entry = first_with_reference(flags, component.reference)->0;
        let k = choose|k: int|
            0 <= k < flags.len() && #[trigger] flags[k] == entry && entry.reference
                == component.reference && forall|m: int|
                0 <= m < k ==> (#[trigger] flags[m]).reference != component.reference;
        assert(speaks_for(flags, component, k));
    }
    assert forall|j: int, k: int| #[trigger]
        speaks_for(flags, component, j) && #[trigger] speaks_for(
            flags,
            component,
            k,
        ) implies j == k by {
        if j < k {
            assert(flags[j].symbol_path != component.symbol_path || flags[j].reference
                != component.reference);
        } else if k < j {
            assert(flags[k].symbol_path != component.symbol_path || flags[k].reference
                != component.reference);
        }
    }
}

/// Exactly the components that a unit keeps away go. The others stay as they
/// are and in order, but for whether they are populated.
pub proof fn law_flags_decide_which_components_stay(
    flags: Seq<FlagsView>,
    components: Seq<ComponentView>,
)
    ensures
        all_kept(flags, components) == positions_where(
            |i: int| !goes(flags, components[i]),
            components.len(),
        ).map_values(
            |i: int| ComponentView { dnp: new_dnp(flags, components[i]), ..components[i] },
        ),
{
    lemma_kept(flags, components, components.len());
    assert(components.take(components.len() as int) =~= components);
}

proof fn lemma_kept(flags: Seq<FlagsView>, components: Seq<ComponentView>, n: nat)
    requires
        n <= components.len(),
    ensures
        all_kept(flags, components.take(n as int)) == positions_where(
            |i: int| !goes(flags, components[i]),
            n,
        ).map_values(
            |i: int| ComponentView { dnp: new_dnp(flags, components[i]), ..components[i] },
        ),
    decreases n,
{
    let stays = |i: int| !goes(flags, components[i]);
    let shown = |i: int| ComponentView { dnp: new_dnp(flags, components[i]), ..components[i] };
    if n > 0 {
        lemma_kept(flags, components, (n - 1) as nat);
        let head = components.take(n as int);
        assert(head.drop_last() =~= components.take(n - 1));
        let own = components[n - 1];
        assert(head.last() == own);
        lemma_speaker(flags, own);
        let entry = flags_for(flags, own);
        if entry is Some {
            let k = choose|k: int| #[trigger]
                speaks_for(flags, own, k) && flags[k] == entry->0;
            assert(speaks_for(flags, own, k));
            assert(goes(flags, own) == !(entry->0.in_bom && entry->0.on_board));
            assert(new_dnp(flags, own) == entry->0.dnp);
        } else {
            assert(!goes(flags, own));
            assert(new_dnp(flags, own) == own.dnp);
        }
        let before = positions_where(stays, (n - 1) as nat);
        assert(kept(flags, own) =~= (if stays(n - 1) {
            seq![shown(n - 1)]
        } else {
            Seq::empty()
        }));
        assert(positions_where(stays, n).map_values(shown) =~= before.map_values(shown) + kept(
            flags,
            own,
        ));
    } else {
        assert(all_kept(flags, components.take(0)) =~= positions_where(stays, 0).map_values(
            shown,
        ));
    }
}

/// The unit is one that was kept off the board and is in the bill of materials.
pub open spec fn is_off_board(flags: Seq<FlagsView>, k: int) -> bool {
    0 <= k < flags.len() && flags[k].in_bom && !flags[k].on_board
}

/// The identity is that of a unit off the board.
pub open spec fn is_of_unit_off_board(flags: Seq<FlagsView>, identity: Identity) -> bool {
    exists|k: int| #[trigger]
        is_off_board(flags, k) && identity.reference == flags[k].reference && identity.path
            == flags[k].symbol_path
}

/// The list holds the identity of a unit, at `from` or later.
pub open spec fn holds_unit(list: Seq<Identity>, from: int, unit: FlagsView) -> bool {
    exists|q: int|
        from <= q < list.len() && (#[trigger] list[q]).path == unit.symbol_path && list[q].reference
            == unit.reference
}

/// The list holds the identity of this unit, or of one off the board with the
/// same reference among the first `n`.
pub open spec fn covers_unit(list: Seq<Identity>, flags: Seq<FlagsView>, n: int, k: int) -> bool {
    exists|m: int| #[trigger]
        is_off_board(flags, m) && m < n && flags[m].reference == flags[k].reference && has_path(
            list,
            flags[m].symbol_path,
        )
}

/// The list holds this identity.
pub open spec fn has_path(list: Seq<Identity>, path: Seq<char>) -> bool {
    exists|q: int| 0 <= q < list.len() && (#[trigger] list[q]).path == path
}

/// Skipped symbols stay skipped. What is added are units off the board; a
/// component that such a unit speaks for is among them, and so is, by its
/// reference or by its identity, every unit off the board.
pub proof fn law_units_off_the_board_are_skipped(
    skipped: Seq<Identity>,
    flags: Seq<FlagsView>,
    components: Seq<ComponentView>,
)
    ensures
        ({
            let all = all_skipped(skipped, flags, components);
            &&& all.len() >= skipped.len() && all.take(skipped.len() as int) == skipped
            &&& forall|q: int|
                skipped.len() <= q < all.len() ==> is_of_unit_off_board(flags, #[trigger] all[q])
            &&& forall|i: int, k: int|
                0 <= i < components.len() && #[trigger] speaks_for(flags, components[i], k)
                    && is_off_board(flags, k) ==> holds_unit(all, skipped.len() as int, flags[k])
            &&& forall|k: int| #[trigger]
                is_off_board(flags, k) ==> covers_unit(all, flags, flags.len() as int, k)
        }),
{
    let lost = components_off_board(flags, components);
    let start = skipped + lost;
    let all = all_skipped(skipped, flags, components);
    lemma_lost(flags, components, components.len());
    assert(components.take(components.len() as int) =~= components);
    lemma_added(start, flags, flags.len());
    assert(all.take(skipped.len() as int) =~= skipped) by {
        assert forall|q: int| 0 <= q < skipped.len() implies #[trigger] all[q] == skipped[q] by {
            assert(all[q] == start[q]);
        }
    }
    assert forall|q: int| skipped.len() <= q < all.len() implies is_of_unit_off_board(
        flags,
        #[trigger] all[q],
    ) by {
        if q < start.len() {
            assert(all[q] == start[q]);
            assert(start[q] == lost[q - skipped.len()]);
        }
    }
    assert forall|i: int, k: int|
        0 <= i < components.len() && #[trigger] speaks_for(flags, components[i], k)
            && is_off_board(flags, k) implies holds_unit(all, skipped.len() as int, flags[k]) by {
        assert(holds_unit(lost, 0, flags[k]));
        let p = choose|p: int|
            0 <= p < lost.len() && (#[trigger] lost[p]).path == flags[k].symbol_path
                && lost[p].reference == flags[k].reference;
        assert(start[skipped.len() + p] == lost[p]);
        assert(all[skipped.len() + p] == start[skipped.len() + p]);
    }
}

proof fn lemma_lost(flags: Seq<FlagsView>, components: Seq<ComponentView>, n: nat)
    requires
        n <= components.len(),
    ensures
        ({
            let lost = components_off_board(flags, components.take(n as int));
            &&& forall|p: int|
                0 <= p < lost.len() ==> is_of_unit_off_board(flags, #[trigger] lost[p])
            &&& forall|i: int, k: int|
                0 <= i < n && #[trigger] speaks_for(flags, components[i], k) && is_off_board(
                    flags,
                    k,
                ) ==> holds_unit(lost, 0, flags[k])
        }),
    decreases n,
{
    if n > 0 {
        lemma_lost(flags, components, (n - 1) as nat);
        let head = components.take(n as int);
        assert(head.drop_last() =~= components.take(n - 1));
        let own = components[n - 1];
        assert(head.last() == own);
        lemma_speaker(flags, own);
        let before = components_off_board(flags, components.take(n - 1));
        let lost = components_off_board(flags, head);
        assert forall|p: int| 0 <= p < lost.len() implies is_of_unit_off_board(
            flags,
            #[trigger] lost[p],
        ) by {
            if p < before.len() {
                assert(lost[p] == before[p]);
            } else {
                let entry = flags_for(flags, own)->0;
                let k = choose|k: int| #[trigger]
                    speaks_for(flags, own, k) && flags[k] == entry;
                assert(is_off_board(flags, k));
            }
        }
        assert forall|i: int, k: int|
            0 <= i < n && #[trigger] speaks_for(flags, components[i], k) && is_off_board(
                flags,
                k,
            ) implies holds_unit(lost, 0, flags[k]) by {
            if i < n - 1 {
                assert(holds_unit(before, 0, flags[k]));
                let p = choose|p: int|
                    0 <= p < before.len() && (#[trigger] before[p]).path == flags[k].symbol_path
                        && before[p].reference == flags[k].reference;
                assert(lost[p] == before[p]);
            } else {
                let entry = flags_for(flags, own)->0;
                let j = choose|j: int| #[trigger]
                    speaks_for(flags, own, j) && flags[j] == entry;
                assert(j == k);
                assert(lost[lost.len() - 1].path == flags[k].symbol_path);
            }
        }
    } else {
        assert(components_off_board(flags, components.take(0)) =~= Seq::empty());
    }
}

proof fn lemma_added(start: Seq<Identity>, flags: Seq<FlagsView>, n: nat)
    requires
        n <= flags.len(),
    ensures
        ({
            let all = with_off_board(start, flags, n);
            &&& all.len() >= start.len()
            &&& forall|q: int| 0 <= q < start.len() ==> #[trigger] all[q] == start[q]
            &&& forall|q: int|
                start.len() <= q < all.len() ==> is_of_unit_off_board(flags, #[trigger] all[q])
            &&& forall|k: int| #[trigger]
                is_off_board(flags, k) && k < n ==> covers_unit(all, flags, n as int, k)
        }),
    decreases n,
{
    if n > 0 {
        lemma_added(start, flags, (n - 1) as nat);
        let before = with_off_board(start, flags, (n - 1) as nat);
        let all = with_off_board(start, flags, n);
        let entry = flags[n - 1];
        assert forall|q: int| start.len() <= q < all.len() implies is_of_unit_off_board(
            flags,
            #[trigger] all[q],
        ) by {
            if q < before.len() {
                assert(all[q] == before[q]);
            } else {
                assert(is_off_board(flags, n - 1));
            }
        }
        assert forall|path: Seq<char>| #[trigger] has_path(before, path) implies has_path(
            all,
            path,
        ) by {
            let q = choose|q: int| 0 <= q < before.len() && (#[trigger] before[q]).path == path;
            assert(all[q] == before[q]);
        }
        assert forall|k: int| #[trigger] is_off_board(flags, k) && k < n implies covers_unit(
            all,
            flags,
            n as int,
            k,
        ) by {
            if k < n - 1 {
                assert(covers_unit(before, flags, n - 1, k));
            } else {
                assert(off_board(entry));
                if named_off_board(flags, n - 1, entry.reference) {
                    let j = choose|j: int|
                        0 <= j < n - 1 && off_board(flags[j]) && (#[trigger] flags[j]).reference
                            == entry.reference;
                    assert(is_off_board(flags, j));
                    assert(covers_unit(before, flags, n - 1, j));
                } else if has_identity(before, entry.symbol_path) {
                    let q = choose|q: int|
                        0 <= q < before.len() && (#[trigger] before[q]).path == entry.symbol_path;
                    assert(all[q] == before[q]);
                    assert(has_path(all, flags[k].symbol_path));
                } else {
                    assert(all[all.len() - 1].path == flags[k].symbol_path);
                    assert(has_path(all, flags[k].symbol_path));
                }
            }
        }
    }
}

} // verus!
