//! What the saved schematic files say of each symbol: whether it is in the
//! bill of materials, on the board, and to be populated.

use crate::chars::{pairs_replaced, replace_pairs, trim_end, trimmed_end};
use crate::netlist::{component_view, component_views, ComponentView};
use crate::sexp::{node_refs, opt_str, Sexp, SexpNode};
use crate::sync_plan::{skipped_ids, Identity};
use crate::sync_types::{DesignComponent, ExportedDesign, SkippedComponent};
use crate::text::{concat2, concat3, owned, text_eq};
use vstd::prelude::*;
use vstd::string::*;

verus! {

/// The flags of one placed unit of a symbol.
#[derive(PartialEq, Eq, Debug)]
pub struct SymbolFlags {
    pub reference: String,
    pub symbol_path: String,
    pub in_bom: bool,
    pub on_board: bool,
    pub dnp: bool,
}

/// The content of a [`SymbolFlags`].
pub struct FlagsView {
    pub reference: Seq<char>,
    pub symbol_path: Seq<char>,
    pub in_bom: bool,
    pub on_board: bool,
    pub dnp: bool,
}

impl View for SymbolFlags {
    type V = FlagsView;

    open spec fn view(&self) -> FlagsView {
        FlagsView {
            reference: self.reference@,
            symbol_path: self.symbol_path@,
            in_bom: self.in_bom,
            on_board: self.on_board,
            dnp: self.dnp,
        }
    }
}

/// The units of one reference disagree about their flags.
#[derive(PartialEq, Eq, Debug)]
pub struct InconsistentFlags {
    pub reference: String,
}

/// The contents of a list of flags.
pub open spec fn flags_views(list: Seq<SymbolFlags>) -> Seq<FlagsView> {
    Seq::new(list.len(), |i: int| list[i]@)
}

/// The sheet path that an instance path stands for.
pub open spec fn base_path(instance: Seq<char>, root_uuid: Seq<char>) -> Seq<char> {
    if instance == "/"@ && root_uuid.len() > 0 {
        "/"@ + root_uuid
    } else {
        trimmed_end(instance, '/')
    }
}

/// The flags of the unit that an instance path places.
pub open spec fn path_flags(
    root_uuid: Seq<char>,
    symbol: Sexp,
    uuid: Seq<char>,
    path: Sexp,
) -> Seq<FlagsView> {
    match path.value_of("reference"@) {
        None => Seq::empty(),
        Some(reference) => {
            let instance = match path.text_at(1) {
                Some(text) => text,
                None => "/"@,
            };
            seq![
                FlagsView {
                    reference,
                    symbol_path: pairs_replaced(
                        base_path(instance, root_uuid) + "/"@ + uuid,
                        '/',
                    ),
                    in_bom: symbol.value_of("in_bom"@) != Some("no"@),
                    on_board: symbol.value_of("on_board"@) != Some("no"@),
                    dnp: symbol.value_of("dnp"@) == Some("yes"@),
                },
            ]
        },
    }
}

/// The flags of the units that these instance paths place.
pub open spec fn paths_flags(
    root_uuid: Seq<char>,
    symbol: Sexp,
    uuid: Seq<char>,
    paths: Seq<Sexp>,
) -> Seq<FlagsView>
    decreases paths.len(),
{
    if paths.len() == 0 {
        Seq::empty()
    } else {
        paths_flags(root_uuid, symbol, uuid, paths.drop_last()) + path_flags(
            root_uuid,
            symbol,
            uuid,
            paths.last(),
        )
    }
}

/// The flags of the units that these projects place.
pub open spec fn projects_flags(
    root_uuid: Seq<char>,
    symbol: Sexp,
    uuid: Seq<char>,
    projects: Seq<Sexp>,
) -> Seq<FlagsView>
    decreases projects.len(),
{
    if projects.len() == 0 {
        Seq::empty()
    } else {
        projects_flags(root_uuid, symbol, uuid, projects.drop_last()) + paths_flags(
            root_uuid,
            symbol,
            uuid,
            projects.last().all("path"@),
        )
    }
}

/// The projects that place a symbol.
pub open spec fn projects_of(symbol: Sexp) -> Seq<Sexp> {
    match symbol.first("instances"@) {
        Some(instances) => instances.all("project"@),
        None => Seq::empty(),
    }
}

/// The flags of a symbol's units; one without an identifier has none.
pub open spec fn one_symbol_flags(root_uuid: Seq<char>, symbol: Sexp) -> Seq<FlagsView> {
    match symbol.value_of("uuid"@) {
        None => Seq::empty(),
        Some(uuid) => projects_flags(root_uuid, symbol, uuid, projects_of(symbol)),
    }
}

/// The flags of these symbols' units.
pub open spec fn symbols_flags(root_uuid: Seq<char>, symbols: Seq<Sexp>) -> Seq<FlagsView>
    decreases symbols.len(),
{
    if symbols.len() == 0 {
        Seq::empty()
    } else {
        symbols_flags(root_uuid, symbols.drop_last()) + one_symbol_flags(root_uuid, symbols.last())
    }
}

/// The identifier of a schematic file; one without has the empty one.
pub open spec fn root_uuid_of(tree: Sexp) -> Seq<char> {
    match tree.value_of("uuid"@) {
        Some(uuid) => uuid,
        None => Seq::empty(),
    }
}

/// The flags of the first `n` schematic files.
pub open spec fn saved_flags(trees: Seq<SexpNode>, n: nat) -> Seq<FlagsView>
    decreases n,
{
    if n == 0 {
        Seq::empty()
    } else {
        saved_flags(trees, (n - 1) as nat) + symbols_flags(
            root_uuid_of(trees[n - 1]@),
            trees[n - 1]@.all("symbol"@),
        )
    }
}

/// Two units of the same reference disagree.
pub open spec fn disagree(flags: Seq<FlagsView>, i: int, j: int) -> bool {
    &&& flags[i].reference == flags[j].reference
    &&& flags[i].in_bom != flags[j].in_bom || flags[i].on_board != flags[j].on_board
        || flags[i].dnp != flags[j].dnp
}

/// The units of the reference do not all have the same flags.
pub open spec fn inconsistent(flags: Seq<FlagsView>, reference: Seq<char>) -> bool {
    exists|i: int, j: int|
        0 <= i < flags.len() && 0 <= j < flags.len() && flags[i].reference == reference
            && #[trigger] disagree(flags, i, j)
}

/// The first unit with this identity.
pub open spec fn first_with_path(flags: Seq<FlagsView>, path: Seq<char>) -> Option<FlagsView>
    decreases flags.len(),
{
    if flags.len() == 0 {
        None
    } else {
        match first_with_path(flags.drop_last(), path) {
            Some(entry) => Some(entry),
            None => if flags.last().symbol_path == path {
                Some(flags.last())
            } else {
                None
            },
        }
    }
}

/// The first unit with this reference.
pub open spec fn first_with_reference(flags: Seq<FlagsView>, reference: Seq<char>) -> Option<
    FlagsView,
>
    decreases flags.len(),
{
    if flags.len() == 0 {
        None
    } else {
        match first_with_reference(flags.drop_last(), reference) {
            Some(entry) => Some(entry),
            None => if flags.last().reference == reference {
                Some(flags.last())
            } else {
                None
            },
        }
    }
}

/// The flags that hold for a component: those of the unit with its identity,
/// or else of the first unit with its reference.
pub open spec fn flags_for(flags: Seq<FlagsView>, component: ComponentView) -> Option<FlagsView> {
    match first_with_path(flags, component.symbol_path) {
        Some(entry) => Some(entry),
        None => first_with_reference(flags, component.reference),
    }
}

/// What is left of a component: one outside the bill of materials or off the
/// board goes, any other takes its flag for population.
pub open spec fn kept(flags: Seq<FlagsView>, component: ComponentView) -> Seq<ComponentView> {
    match flags_for(flags, component) {
        None => seq![component],
        Some(entry) => if entry.in_bom && entry.on_board {
            seq![ComponentView { dnp: entry.dnp, ..component }]
        } else {
            Seq::empty()
        },
    }
}

/// What is left of these components.
pub open spec fn all_kept(flags: Seq<FlagsView>, components: Seq<ComponentView>) -> Seq<
    ComponentView,
>
    decreases components.len(),
{
    if components.len() == 0 {
        Seq::empty()
    } else {
        all_kept(flags, components.drop_last()) + kept(flags, components.last())
    }
}

/// The unit is in the bill of materials and kept off the board.
pub open spec fn off_board(entry: FlagsView) -> bool {
    entry.in_bom && !entry.on_board
}

/// The identity of a unit.
pub open spec fn identity_of(entry: FlagsView) -> Identity {
    Identity { reference: entry.reference, path: entry.symbol_path }
}

/// The units that these components lose to their board flag.
pub open spec fn components_off_board(
    flags: Seq<FlagsView>,
    components: Seq<ComponentView>,
) -> Seq<Identity>
    decreases components.len(),
{
    if components.len() == 0 {
        Seq::empty()
    } else {
        let rest = components_off_board(flags, components.drop_last());
        match flags_for(flags, components.last()) {
            Some(entry) if off_board(entry) => rest.push(identity_of(entry)),
            _ => rest,
        }
    }
}

/// One of the first `n` units is off the board and has this reference.
pub open spec fn named_off_board(flags: Seq<FlagsView>, n: int, reference: Seq<char>) -> bool {
    exists|i: int|
        0 <= i < n && off_board(flags[i]) && (#[trigger] flags[i]).reference == reference
}

/// Some entry has this identity.
pub open spec fn has_identity(list: Seq<Identity>, path: Seq<char>) -> bool {
    exists|i: int| 0 <= i < list.len() && (#[trigger] list[i]).path == path
}

/// The skipped symbols with those of the first `n` units added that are off
/// the board, are the first of their reference and are not among them yet.
pub open spec fn with_off_board(start: Seq<Identity>, flags: Seq<FlagsView>, n: nat) -> Seq<
    Identity,
>
    decreases n,
{
    if n == 0 {
        start
    } else {
        let rest = with_off_board(start, flags, (n - 1) as nat);
        let entry = flags[n - 1];
        if off_board(entry) && !named_off_board(flags, n - 1, entry.reference) && !has_identity(
            rest,
            entry.symbol_path,
        ) {
            rest.push(identity_of(entry))
        } else {
            rest
        }
    }
}

/// The skipped symbols after the flags were applied.
pub open spec fn all_skipped(
    skipped: Seq<Identity>,
    flags: Seq<FlagsView>,
    components: Seq<ComponentView>,
) -> Seq<Identity> {
    with_off_board(skipped + components_off_board(flags, components), flags, flags.len())
}

fn is_text(value: Option<&str>, text: &str) -> (res: bool)
    ensures
        res == (opt_str(value) == Some(text@)),
{
    match value {
        Some(found) => text_eq(found, text),
        None => false,
    }
}

fn unit_path(path: &SexpNode, root_uuid: &str, uuid: &str) -> (res: String)
    ensures
        res@ == pairs_replaced(
            base_path(
                match path@.text_at(1) {
                    Some(text) => text,
                    None => "/"@,
                },
                root_uuid@,
            ) + "/"@ + uuid@,
            '/',
        ),
{
    let instance: &str = match path.str_at(1) {
        Some(text) => text,
        None => "/",
    };
    let has_root: bool = root_uuid.as_bytes().len() > 0;
    proof {
        vstd::utf8::encode_utf8_decode_utf8(root_uuid@);
        vstd::utf8::encode_utf8_decode_utf8(Seq::empty());
        if root_uuid@.len() == 0 {
            assert(root_uuid@ =~= Seq::empty());
            assert(vstd::utf8::encode_utf8(Seq::empty()).len() == 0);
        }
        if root_uuid.spec_bytes().len() == 0 {
            assert(root_uuid.spec_bytes() =~= Seq::empty());
            assert(vstd::utf8::encode_utf8(Seq::empty()) =~= Seq::empty());
        }
    }
    let base = if text_eq(instance, "/") && has_root {
        concat2("/", root_uuid)
    } else {
        trim_end(instance, '/')
    };
    let joined_path = concat3(base.as_str(), "/", uuid);
    replace_pairs(joined_path.as_str(), '/')
}

fn collect_paths(
    root_uuid: &str,
    symbol: &SexpNode,
    uuid: &str,
    project: &SexpNode,
    flags: &mut Vec<SymbolFlags>,
)
    ensures
        flags_views(final(flags)@) == flags_views(old(flags)@) + paths_flags(
            root_uuid@,
            symbol@,
            uuid@,
            project@.all("path"@),
        ),
{
    let ghost start = flags_views(flags@);
    let paths = project.find_all("path");
    let ghost all = project@.all("path"@);
    assert(node_refs(paths@).len() == paths@.len());
    let in_bom = !is_text(symbol.find_str("in_bom"), "no");
    let on_board = !is_text(symbol.find_str("on_board"), "no");
    let dnp = is_text(symbol.find_str("dnp"), "yes");
    let mut i: usize = 0;
    assert(all.take(0) =~= Seq::empty());
    assert(start + paths_flags(root_uuid@, symbol@, uuid@, all.take(0)) =~= start);
    while i < paths.len()
        invariant
            i <= paths@.len(),
            all == node_refs(paths@),
            in_bom == (symbol@.value_of("in_bom"@) != Some("no"@)),
            on_board == (symbol@.value_of("on_board"@) != Some("no"@)),
            dnp == (symbol@.value_of("dnp"@) == Some("yes"@)),
            flags_views(flags@) == start + paths_flags(
                root_uuid@,
                symbol@,
                uuid@,
                all.take(i as int),
            ),
        decreases paths@.len() - i,
    {
        let path = paths[i];
        let ghost before = flags_views(flags@);
        let ghost rest = paths_flags(root_uuid@, symbol@, uuid@, all.take(i as int));
        if let Some(reference) = path.find_str("reference") {
            flags.push(
                SymbolFlags {
                    reference: owned(reference),
                    symbol_path: unit_path(path, root_uuid, uuid),
                    in_bom,
                    on_board,
                    dnp,
                },
            );
        }
        proof {
            let own = path_flags(root_uuid@, symbol@, uuid@, path@);
            assert(flags_views(flags@) =~= before + own);
            assert(all.take(i + 1).drop_last() =~= all.take(i as int));
            assert(all.take(i + 1).last() == path@);
            assert(start + (rest + own) =~= start + rest + own);
        }
        i += 1;
    }
    assert(all.take(i as int) =~= all);
}

fn collect_symbol(root_uuid: &str, symbol: &SexpNode, flags: &mut Vec<SymbolFlags>)
    ensures
        flags_views(final(flags)@) == flags_views(old(flags)@) + one_symbol_flags(
            root_uuid@,
            symbol@,
        ),
{
    let ghost start = flags_views(flags@);
    let uuid = match symbol.find_str("uuid") {
        Some(text) => text,
        None => {
            assert(start + one_symbol_flags(root_uuid@, symbol@) =~= start);
            return ;
        },
    };
    let instances = match symbol.find("instances") {
        Some(node) => node,
        None => {
            assert(start + one_symbol_flags(root_uuid@, symbol@) =~= start);
            return ;
        },
    };
    let projects = instances.find_all("project");
    let ghost all = projects_of(symbol@);
    assert(node_refs(projects@).len() == projects@.len());
    let mut i: usize = 0;
    assert(all.take(0) =~= Seq::empty());
    assert(start + projects_flags(root_uuid@, symbol@, uuid@, all.take(0)) =~= start);
    while i < projects.len()
        invariant
            i <= projects@.len(),
            all == node_refs(projects@),
            flags_views(flags@) == start + projects_flags(
                root_uuid@,
                symbol@,
                uuid@,
                all.take(i as int),
            ),
        decreases projects@.len() - i,
    {
        let ghost rest = projects_flags(root_uuid@, symbol@, uuid@, all.take(i as int));
        collect_paths(root_uuid, symbol, uuid, projects[i], flags);
        proof {
            let own = paths_flags(root_uuid@, symbol@, uuid@, projects@[i as int]@.all("path"@));
            assert(all.take(i + 1).drop_last() =~= all.take(i as int));
            assert(all.take(i + 1).last() == projects@[i as int]@);
            assert(start + (rest + own) =~= start + rest + own);
        }
        i += 1;
    }
    assert(all.take(i as int) =~= all);
}

fn collect_tree(tree: &SexpNode, flags: &mut Vec<SymbolFlags>)
    ensures
        flags_views(final(flags)@) == flags_views(old(flags)@) + symbols_flags(
            root_uuid_of(tree@),
            tree@.all("symbol"@),
        ),
{
    let ghost start = flags_views(flags@);
    let root_uuid: &str = match tree.find_str("uuid") {
        Some(text) => text,
        None => {
            proof {
                reveal_strlit("");
                assert(""@ =~= Seq::empty());
            }
            ""
        },
    };
    let symbols = tree.find_all("symbol");
    let ghost all = tree@.all("symbol"@);
    assert(node_refs(symbols@).len() == symbols@.len());
    let mut i: usize = 0;
    assert(all.take(0) =~= Seq::empty());
    assert(start + symbols_flags(root_uuid@, all.take(0)) =~= start);
    while i < symbols.len()
        invariant
            i <= symbols@.len(),
            all == node_refs(symbols@),
            flags_views(flags@) == start + symbols_flags(root_uuid@, all.take(i as int)),
        decreases symbols@.len() - i,
    {
        let ghost rest = symbols_flags(root_uuid@, all.take(i as int));
        collect_symbol(root_uuid, symbols[i], flags);
        proof {
            let own = one_symbol_flags(root_uuid@, symbols@[i as int]@);
            assert(all.take(i + 1).drop_last() =~= all.take(i as int));
            assert(all.take(i + 1).last() == symbols@[i as int]@);
            assert(start + (rest + own) =~= start + rest + own);
        }
        i += 1;
    }
    assert(all.take(i as int) =~= all);
}

/// Reads the flags of every placed unit from the saved schematic files.
pub fn collect_flags(trees: &Vec<SexpNode>) -> (res: Vec<SymbolFlags>)
    ensures
        flags_views(res@) == saved_flags(trees@, trees@.len()),
{
    let mut flags: Vec<SymbolFlags> = Vec::new();
    let mut i: usize = 0;
    assert(flags_views(flags@) =~= saved_flags(trees@, 0));
    while i < trees.len()
        invariant
            i <= trees@.len(),
            flags_views(flags@) == saved_flags(trees@, i as nat),
        decreases trees@.len() - i,
    {
        collect_tree(&trees[i], &mut flags);
        i += 1;
    }
    flags
}

/// Finds a reference whose units disagree.
fn find_inconsistent(flags: &Vec<SymbolFlags>) -> (res: Option<usize>)
    ensures
        match res {
            Some(i) => i < flags@.len() && inconsistent(
                flags_views(flags@),
                flags@[i as int].reference@,
            ),
            None => forall|reference: Seq<char>| !inconsistent(flags_views(flags@), reference),
        },
{
    let ghost views = flags_views(flags@);
    let mut i: usize = 0;
    while i < flags.len()
        invariant
            i <= flags@.len(),
            views == flags_views(flags@),
            forall|a: int, b: int| 0 <= a < i && 0 <= b < flags@.len() ==> !#[trigger] disagree(
                views,
                a,
                b,
            ),
        decreases flags@.len() - i,
    {
        let mut j: usize = 0;
        while j < flags.len()
            invariant
                i < flags@.len(),
                j <= flags@.len(),
                views == flags_views(flags@),
                forall|b: int| 0 <= b < j ==> !#[trigger] disagree(views, i as int, b),
            decreases flags@.len() - j,
        {
            let (a, b) = (&flags[i], &flags[j]);
            if a.reference == b.reference && (a.in_bom != b.in_bom || a.on_board != b.on_board
                || a.dnp != b.dnp) {
                assert(disagree(views, i as int, j as int));
                return Some(i);
            }
            j += 1;
        }
        i += 1;
    }
    None
}

fn find_flags(flags: &Vec<SymbolFlags>, component: &DesignComponent) -> (res: Option<usize>)
    ensures
        match res {
            Some(i) => i < flags@.len() && flags_for(
                flags_views(flags@),
                component_view(*component),
            ) == Some(flags@[i as int]@),
            None => flags_for(flags_views(flags@), component_view(*component)) is None,
        },
{
    let ghost views = flags_views(flags@);
    let mut by_reference: Option<usize> = None;
    let mut i: usize = 0;
    assert(views.take(0) =~= Seq::empty());
    while i < flags.len()
        invariant
            i <= flags@.len(),
            views == flags_views(flags@),
            first_with_path(views.take(i as int), component.symbol_path@) is None,
            match by_reference {
                Some(k) => k < i && first_with_reference(
                    views.take(i as int),
                    component.reference@,
                ) == Some(flags@[k as int]@),
                None => first_with_reference(views.take(i as int), component.reference@) is None,
            },
        decreases flags@.len() - i,
    {
        proof {
            assert(views.take(i + 1).drop_last() =~= views.take(i as int));
            assert(views.take(i + 1).last() == flags@[i as int]@);
        }
        if flags[i].symbol_path == component.symbol_path {
            proof {
                lemma_first_path_stays(views, component.symbol_path@, i + 1);
            }
            return Some(i);
        }
        if by_reference.is_none() && flags[i].reference == component.reference {
            by_reference = Some(i);
        }
        i += 1;
    }
    assert(views.take(i as int) =~= views);
    by_reference
}

proof fn lemma_first_path_stays(flags: Seq<FlagsView>, path: Seq<char>, n: int)
    requires
        0 <= n <= flags.len(),
        first_with_path(flags.take(n), path) is Some,
    ensures
        first_with_path(flags, path) == first_with_path(flags.take(n), path),
    decreases flags.len() - n,
{
    if n == flags.len() {
        assert(flags.take(n) =~= flags);
    } else {
        assert(flags.take(n + 1).drop_last() =~= flags.take(n));
        lemma_first_path_stays(flags, path, n + 1);
    }
}

fn skip_unit(skipped: &mut Vec<SkippedComponent>, entry: &SymbolFlags)
    ensures
        skipped_ids(final(skipped)@) == skipped_ids(old(skipped)@).push(identity_of(entry@)),
{
    let ghost before = skipped@;
    skipped.push(
        SkippedComponent {
            reference: entry.reference.clone(),
            symbol_path: entry.symbol_path.clone(),
        },
    );
    assert(skipped_ids(skipped@) =~= skipped_ids(before).push(identity_of(entry@)));
}

/// Takes the components out that their flags exclude, and gives the others
/// their flag for population.
fn flag_components(
    flags: &Vec<SymbolFlags>,
    components: &mut Vec<DesignComponent>,
    skipped: &mut Vec<SkippedComponent>,
)
    ensures
        component_views(final(components)@) == all_kept(
            flags_views(flags@),
            component_views(old(components)@),
        ),
        skipped_ids(final(skipped)@) == skipped_ids(old(skipped)@) + components_off_board(
            flags_views(flags@),
            component_views(old(components)@),
        ),
{
    let ghost views = flags_views(flags@);
    let ghost all = component_views(components@);
    let ghost start = skipped_ids(skipped@);
    let ghost mut done: int = 0;
    let mut i: usize = 0;
    proof {
        assert(all.take(0) =~= Seq::empty());
        assert(component_views(components@).take(0) =~= all_kept(views, all.take(0)));
        assert(component_views(components@).skip(0) =~= all.skip(0));
        assert(start + components_off_board(views, all.take(0)) =~= start);
    }
    while i < components.len()
        invariant
            i <= components@.len(),
            0 <= done <= all.len(),
            components@.len() - i == all.len() - done,
            views == flags_views(flags@),
            component_views(components@).take(i as int) == all_kept(views, all.take(done)),
            component_views(components@).skip(i as int) == all.skip(done),
            skipped_ids(skipped@) == start + components_off_board(views, all.take(done)),
        decreases components@.len() - i,
    {
        let ghost now = component_views(components@);
        let ghost rest = all_kept(views, all.take(done));
        let ghost lost = components_off_board(views, all.take(done));
        let ghost current = components@;
        proof {
            assert(now.skip(i as int)[0] == all.skip(done)[0]);
            assert(now[i as int] == all[done]);
            assert(all.take(done + 1).drop_last() =~= all.take(done));
            assert(all.take(done + 1).last() == all[done]);
            assert(now.skip(i as int).skip(1) =~= now.skip(i + 1));
            assert(all.skip(done).skip(1) =~= all.skip(done + 1));
        }
        match find_flags(flags, &components[i]) {
            None => {
                proof {
                    assert(now.take(i + 1) =~= rest + seq![all[done]]);
                }
                i += 1;
            },
            Some(k) => {
                let entry = &flags[k];
                assert(views[k as int] == entry@);
                if !entry.in_bom {
                    components.remove(i);
                    proof {
                        let after = component_views(components@);
                        assert(after.take(i as int) =~= now.take(i as int));
                        assert(after.skip(i as int) =~= now.skip(i + 1));
                        assert(rest + kept(views, all[done]) =~= rest);
                    }
                } else if !entry.on_board {
                    skip_unit(skipped, entry);
                    components.remove(i);
                    proof {
                        let after = component_views(components@);
                        assert(after.take(i as int) =~= now.take(i as int));
                        assert(after.skip(i as int) =~= now.skip(i + 1));
                        assert(rest + kept(views, all[done]) =~= rest);
                        assert((start + lost).push(identity_of(entry@)) =~= start + lost.push(
                            identity_of(entry@),
                        ));
                    }
                } else {
                    components[i].dnp = entry.dnp;
                    proof {
                        let after = component_views(components@);
                        assert(after.take(i + 1) =~= rest + kept(views, all[done]));
                        assert(after.skip(i + 1) =~= now.skip(i + 1));
                    }
                    i += 1;
                }
            },
        }
        proof {
            done = done + 1;
        }
    }
    proof {
        assert(all.take(done) =~= all);
        assert(component_views(components@).take(i as int) =~= component_views(components@));
    }
}

fn has_path_listed(skipped: &Vec<SkippedComponent>, path: &String) -> (res: bool)
    ensures
        res == has_identity(skipped_ids(skipped@), path@),
{
    let ghost ids = skipped_ids(skipped@);
    let mut i: usize = 0;
    while i < skipped.len()
        invariant
            i <= skipped@.len(),
            ids == skipped_ids(skipped@),
            forall|j: int| 0 <= j < i ==> (#[trigger] ids[j]).path != path@,
        decreases skipped@.len() - i,
    {
        assert(ids[i as int].path == skipped@[i as int].symbol_path@);
        if skipped[i].symbol_path == *path {
            return true;
        }
        i += 1;
    }
    false
}

fn named_before(flags: &Vec<SymbolFlags>, n: usize, reference: &String) -> (res: bool)
    requires
        n <= flags@.len(),
    ensures
        res == named_off_board(flags_views(flags@), n as int, reference@),
{
    let ghost views = flags_views(flags@);
    let mut i: usize = 0;
    while i < n
        invariant
            i <= n <= flags@.len(),
            views == flags_views(flags@),
            forall|j: int|
                0 <= j < i ==> !(off_board(views[j]) && (#[trigger] views[j]).reference
                    == reference@),
        decreases n - i,
    {
        let entry = &flags[i];
        assert(views[i as int] == entry@);
        if entry.in_bom && !entry.on_board && entry.reference == *reference {
            return true;
        }
        i += 1;
    }
    false
}

/// Applies the saved flags to an exported design: components outside the bill
/// of materials go, those off the board become skipped symbols, and the others
/// take their flag for population. Units of one reference that disagree are an
/// error, and the design then stays as it was.
pub fn apply_saved_symbol_flags(trees: &Vec<SexpNode>, design: &mut ExportedDesign) -> (res: Result<
    (),
    InconsistentFlags,
>)
    ensures
        res is Err <==> exists|reference: Seq<char>|
            inconsistent(saved_flags(trees@, trees@.len()), reference),
        match res {
            Err(error) => inconsistent(saved_flags(trees@, trees@.len()), error.reference@)
                && *final(design) == *old(design),
            Ok(_) => component_views(final(design).components@) == all_kept(
                saved_flags(trees@, trees@.len()),
                component_views(old(design).components@),
            ) && skipped_ids(final(design).skipped@) == all_skipped(
                skipped_ids(old(design).skipped@),
                saved_flags(trees@, trees@.len()),
                component_views(old(design).components@),
            ),
        },
{
    let flags = collect_flags(trees);
    let ghost views = flags_views(flags@);
    if let Some(i) = find_inconsistent(&flags) {
        return Err(InconsistentFlags { reference: flags[i].reference.clone() });
    }
    flag_components(&flags, &mut design.components, &mut design.skipped);
    let ghost start = skipped_ids(design.skipped@);
    let ghost components = design.components;
    let mut i: usize = 0;
    while i < flags.len()
        invariant
            i <= flags@.len(),
            views == flags_views(flags@),
            design.components == components,
            skipped_ids(design.skipped@) == with_off_board(start, views, i as nat),
        decreases flags@.len() - i,
    {
        let entry = &flags[i];
        assert(views[i as int] == entry@);
        if entry.in_bom && !entry.on_board && !named_before(&flags, i, &entry.reference)
            && !has_path_listed(&design.skipped, &entry.symbol_path) {
            skip_unit(&mut design.skipped, entry);
        }
        i += 1;
    }
    Ok(())
}

impl InconsistentFlags {
    /// The message of the error.
    pub fn message(&self) -> (res: String)
        ensures
            res@ == "multi-unit reference "@ + self.reference@
                + " has inconsistent board/BOM/DNP flags"@,
    {
        concat3(
            "multi-unit reference ",
            self.reference.as_str(),
            " has inconsistent board/BOM/DNP flags",
        )
    }
}

/// No component stays that its flags exclude from the bill of materials or
/// from the board.
pub proof fn law_excluded_components_go(
    flags: Seq<FlagsView>,
    components: Seq<ComponentView>,
    k: int,
)
    requires
        0 <= k < all_kept(flags, components).len(),
    ensures
        match flags_for(flags, all_kept(flags, components)[k]) {
            Some(entry) => entry.in_bom && entry.on_board && all_kept(flags, components)[k].dnp
                == entry.dnp,
            None => components.contains(all_kept(flags, components)[k]),
        },
    decreases components.len(),
{
    let rest = components.drop_last();
    let list = all_kept(flags, rest);
    if k < list.len() {
        law_excluded_components_go(flags, rest, k);
        assert(all_kept(flags, components)[k] == list[k]);
        if rest.contains(list[k]) {
            let j = rest.index_of(list[k]);
            assert(components[j] == list[k]);
        }
    } else {
        assert(all_kept(flags, components)[k] == kept(flags, components.last())[0]);
        assert(components[components.len() - 1] == components.last());
    }
}

} // verus!
