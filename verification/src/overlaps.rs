//! Symbols and labels that lie on each other.

use crate::geometry::{coincident, points_coincident, Label};
use crate::lists::{ints, positions_where};
use crate::text::owned;
use crate::tool_error::{ErrorView, KindView, ToolError, ToolErrorKind};
use vstd::prelude::*;
use vstd::string::*;

verus! {

/// The rectangle round the drawing and the pins of a placed symbol.
#[derive(Clone, Copy, PartialEq, Eq, Debug, Structural)]
pub struct SymbolBounds {
    pub min_x: i64,
    pub min_y: i64,
    pub max_x: i64,
    pub max_y: i64,
}

/// A symbol on the sheet. One whose library geometry could not be resolved has
/// no bounds.
#[derive(PartialEq, Eq, Debug)]
pub struct PlacedSymbol {
    pub reference: String,
    pub unit: u32,
    pub x: i64,
    pub y: i64,
    pub bounds: Option<SymbolBounds>,
}

/// Two things that lie on each other, by their positions in their lists.
#[derive(Clone, Copy, PartialEq, Eq, Debug, Structural)]
pub enum Overlap {
    /// The rectangles of two symbols overlap by so much on each axis.
    Geometry { a: usize, b: usize, overlap_x: i128, overlap_y: i128 },
    /// The origins of two symbols coincide, and one has no known rectangle.
    Origin { a: usize, b: usize },
    /// Labels of different nets coincide.
    Labels { a: usize, b: usize },
}

/// How far two stretches overlap; below zero where there is a gap.
pub open spec fn overlap_of(min_a: int, max_a: int, min_b: int, max_b: int) -> int {
    (if max_a < max_b {
        max_a
    } else {
        max_b
    }) - (if min_a > min_b {
        min_a
    } else {
        min_b
    })
}

/// How far two rectangles overlap on the x axis.
pub open spec fn overlap_x_of(a: SymbolBounds, b: SymbolBounds) -> int {
    overlap_of(a.min_x as int, a.max_x as int, b.min_x as int, b.max_x as int)
}

/// How far two rectangles overlap on the y axis.
pub open spec fn overlap_y_of(a: SymbolBounds, b: SymbolBounds) -> int {
    overlap_of(a.min_y as int, a.max_y as int, b.min_y as int, b.max_y as int)
}

/// The overlap of two symbols. Touching edges are a normal connection: only a
/// common area counts. Where a rectangle is not known, the origins decide.
pub open spec fn symbol_overlap(
    symbols: Seq<PlacedSymbol>,
    tol: int,
    i: int,
    j: int,
) -> Seq<Overlap> {
    match (symbols[i].bounds, symbols[j].bounds) {
        (Some(a), Some(b)) => if overlap_x_of(a, b) > 0 && overlap_y_of(a, b) > 0 {
            seq![
                Overlap::Geometry {
                    a: i as usize,
                    b: j as usize,
                    overlap_x: overlap_x_of(a, b) as i128,
                    overlap_y: overlap_y_of(a, b) as i128,
                },
            ]
        } else {
            Seq::empty()
        },
        _ => if coincident(
            symbols[i].x as int,
            symbols[i].y as int,
            symbols[j].x as int,
            symbols[j].y as int,
            tol,
        ) {
            seq![Overlap::Origin { a: i as usize, b: j as usize }]
        } else {
            Seq::empty()
        },
    }
}

/// The overlaps of symbol `i` with those behind it, below `m`.
pub open spec fn symbol_row(symbols: Seq<PlacedSymbol>, tol: int, i: int, m: int) -> Seq<Overlap>
    decreases m - i,
{
    if m <= i + 1 {
        Seq::empty()
    } else {
        symbol_row(symbols, tol, i, m - 1) + symbol_overlap(symbols, tol, i, m - 1)
    }
}

/// The overlaps of the first `n` symbols with those behind them.
pub open spec fn symbol_overlaps(symbols: Seq<PlacedSymbol>, tol: int, n: nat) -> Seq<Overlap>
    decreases n,
{
    if n == 0 {
        Seq::empty()
    } else {
        symbol_overlaps(symbols, tol, (n - 1) as nat) + symbol_row(
            symbols,
            tol,
            n - 1,
            symbols.len() as int,
        )
    }
}

/// Labels of different nets at one place.
pub open spec fn label_overlap(labels: Seq<Label>, tol: int, i: int, j: int) -> Seq<Overlap> {
    if coincident(
        labels[i].x as int,
        labels[i].y as int,
        labels[j].x as int,
        labels[j].y as int,
        tol,
    ) && labels[i].net@ != labels[j].net@ {
        seq![Overlap::Labels { a: i as usize, b: j as usize }]
    } else {
        Seq::empty()
    }
}

/// The overlaps of label `i` with those behind it, below `m`.
pub open spec fn label_row(labels: Seq<Label>, tol: int, i: int, m: int) -> Seq<Overlap>
    decreases m - i,
{
    if m <= i + 1 {
        Seq::empty()
    } else {
        label_row(labels, tol, i, m - 1) + label_overlap(labels, tol, i, m - 1)
    }
}

/// The overlaps of the first `n` labels with those behind them.
pub open spec fn label_overlaps(labels: Seq<Label>, tol: int, n: nat) -> Seq<Overlap>
    decreases n,
{
    if n == 0 {
        Seq::empty()
    } else {
        label_overlaps(labels, tol, (n - 1) as nat) + label_row(
            labels,
            tol,
            n - 1,
            labels.len() as int,
        )
    }
}

/// What lies on each other on a sheet.
#[derive(PartialEq, Eq, Debug)]
pub struct OverlapReport {
    pub overlaps: Vec<Overlap>,
    pub bounds_resolved: usize,
    pub bounds_unresolved: Vec<usize>,
}

fn overlap_depth(min_a: i64, max_a: i64, min_b: i64, max_b: i64) -> (res: i128)
    ensures
        res == overlap_of(min_a as int, max_a as int, min_b as int, max_b as int),
{
    let high: i128 = if max_a < max_b {
        max_a as i128
    } else {
        max_b as i128
    };
    let low: i128 = if min_a > min_b {
        min_a as i128
    } else {
        min_b as i128
    };
    high - low
}

fn compare_symbols(symbols: &Vec<PlacedSymbol>, tol: i64, i: usize, j: usize) -> (res: Option<
    Overlap,
>)
    requires
        i < symbols@.len(),
        j < symbols@.len(),
    ensures
        symbol_overlap(symbols@, tol as int, i as int, j as int) == (match res {
            Some(overlap) => seq![overlap],
            None => Seq::empty(),
        }),
{
    let (a, b) = (&symbols[i], &symbols[j]);
    match (a.bounds, b.bounds) {
        (Some(x), Some(y)) => {
            let overlap_x: i128 = overlap_depth(x.min_x, x.max_x, y.min_x, y.max_x);
            let overlap_y: i128 = overlap_depth(x.min_y, x.max_y, y.min_y, y.max_y);
            if overlap_x > 0 && overlap_y > 0 {
                Some(Overlap::Geometry { a: i, b: j, overlap_x, overlap_y })
            } else {
                None
            }
        },
        _ => if points_coincident(a.x, a.y, b.x, b.y, tol) {
            Some(Overlap::Origin { a: i, b: j })
        } else {
            None
        },
    }
}

/// What the report says of a sheet.
pub open spec fn reports_overlaps(
    report: OverlapReport,
    symbols: Seq<PlacedSymbol>,
    labels: Seq<Label>,
    tol: int,
) -> bool {
    &&& report.overlaps@ == symbol_overlaps(symbols, tol, symbols.len()) + label_overlaps(
        labels,
        tol,
        labels.len(),
    )
    &&& ints(report.bounds_unresolved@) == positions_where(
        |i: int| symbols[i].bounds is None,
        symbols.len(),
    )
    &&& report.bounds_resolved == symbols.len() - report.bounds_unresolved@.len()
}

/// Finds symbols whose drawings overlap, and labels of different nets at one
/// place. The symbols that could only be compared by their origins are listed.
/// A negative tolerance is refused.
pub fn check_overlaps(symbols: &Vec<PlacedSymbol>, labels: &Vec<Label>, tol: i64) -> (res: Result<
    OverlapReport,
    ToolError,
>)
    ensures
        tol >= 0 ==> (res matches Ok(report) && reports_overlaps(
            report,
            symbols@,
            labels@,
            tol as int,
        )),
        tol < 0 ==> (res matches Err(refusal) && refusal@ == (ErrorView {
            kind: Some(
                KindView::InvalidArgument {
                    field: "tolerance"@,
                    reason: "must be a finite, non-negative number"@,
                },
            ),
            message: "Argument 'tolerance' must be a finite, non-negative number."@,
        })),
{
    if tol < 0 {
        return Err(
            ToolError {
                kind: Some(
                    ToolErrorKind::InvalidArgument {
                        field: owned("tolerance"),
                        reason: owned("must be a finite, non-negative number"),
                    },
                ),
                message: owned("Argument 'tolerance' must be a finite, non-negative number."),
            },
        );
    }
    Ok(list_overlaps(symbols, labels, tol))
}

fn list_overlaps(symbols: &Vec<PlacedSymbol>, labels: &Vec<Label>, tol: i64) -> (res:
    OverlapReport)
    ensures
        reports_overlaps(res, symbols@, labels@, tol as int),
{
    let mut overlaps: Vec<Overlap> = Vec::new();
    let mut unresolved: Vec<usize> = Vec::new();
    let ghost unknown = |i: int| symbols@[i].bounds is None;
    let mut i: usize = 0;
    assert(ints(unresolved@) =~= positions_where(unknown, 0));
    while i < symbols.len()
        invariant
            i <= symbols@.len(),
            unresolved@.len() <= i,
            unknown == (|i: int| symbols@[i].bounds is None),
            overlaps@ == symbol_overlaps(symbols@, tol as int, i as nat),
            ints(unresolved@) == positions_where(unknown, i as nat),
        decreases symbols@.len() - i,
    {
        let ghost start = overlaps@;
        let ghost before = ints(unresolved@);
        assert(unknown(i as int) == (symbols@[i as int].bounds is None));
        if symbols[i].bounds.is_none() {
            unresolved.push(i);
            assert(ints(unresolved@) =~= before.push(i as int));
        }
        let mut j: usize = i + 1;
        assert(start + symbol_row(symbols@, tol as int, i as int, i + 1) =~= start);
        while j < symbols.len()
            invariant
                i < j <= symbols@.len(),
                overlaps@ == start + symbol_row(symbols@, tol as int, i as int, j as int),
            decreases symbols@.len() - j,
        {
            let ghost rest = symbol_row(symbols@, tol as int, i as int, j as int);
            let ghost own = symbol_overlap(symbols@, tol as int, i as int, j as int);
            if let Some(overlap) = compare_symbols(symbols, tol, i, j) {
                overlaps.push(overlap);
            }
            assert(overlaps@ =~= start + (rest + own));
            j += 1;
        }
        i += 1;
    }
    let ghost base = overlaps@;
    let mut k: usize = 0;
    assert(base + label_overlaps(labels@, tol as int, 0) =~= base);
    while k < labels.len()
        invariant
            k <= labels@.len(),
            overlaps@ == base + label_overlaps(labels@, tol as int, k as nat),
        decreases labels@.len() - k,
    {
        let ghost done = label_overlaps(labels@, tol as int, k as nat);
        let ghost start = overlaps@;
        let mut m: usize = k + 1;
        assert(start + label_row(labels@, tol as int, k as int, k + 1) =~= start);
        while m < labels.len()
            invariant
                k < m <= labels@.len(),
                overlaps@ == start + label_row(labels@, tol as int, k as int, m as int),
            decreases labels@.len() - m,
        {
            let ghost rest = label_row(labels@, tol as int, k as int, m as int);
            let ghost own = label_overlap(labels@, tol as int, k as int, m as int);
            let (a, b) = (&labels[k], &labels[m]);
            if points_coincident(a.x, a.y, b.x, b.y, tol) && a.net != b.net {
                overlaps.push(Overlap::Labels { a: k, b: m });
            }
            assert(overlaps@ =~= start + (rest + own));
            m += 1;
        }
        proof {
            let row = label_row(labels@, tol as int, k as int, labels@.len() as int);
            assert(base + done + row =~= base + (done + row));
        }
        k += 1;
    }
    let bounds_resolved: usize = symbols.len() - unresolved.len();
    OverlapReport { overlaps, bounds_resolved, bounds_unresolved: unresolved }
}

/// Rectangles overlap or not whichever is named first.
pub proof fn law_overlap_is_symmetric(a: SymbolBounds, b: SymbolBounds)
    ensures
        overlap_x_of(a, b) == overlap_x_of(b, a),
        overlap_y_of(a, b) == overlap_y_of(b, a),
{
}

/// Rectangles that touch at an edge only do not overlap.
pub proof fn law_contact_is_no_overlap(a: SymbolBounds, b: SymbolBounds)
    requires
        a.max_x == b.min_x || a.max_y == b.min_y,
    ensures
        !(overlap_x_of(a, b) > 0 && overlap_y_of(a, b) > 0),
{
}

} // verus!
