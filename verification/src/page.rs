//! The paper of a schematic sheet.

use crate::property_edit::find_text;
use crate::property_text::{lemma_encode_concat, with_edit, EditView, TextEdit};
use crate::scan::{
    find_byte, first_byte, first_in, lemma_first_in_found, lemma_first_in_is, matches_at,
};
use crate::text::{concat3, join, joined, owned, text_eq, texts};
use crate::tool_error::{invalid_argument, ErrorView, KindView, ToolError};
use vstd::prelude::*;
use vstd::string::*;
use vstd::utf8::*;

verus! {

/// A paper size: its name and its landscape dimensions in nanometres.
#[derive(PartialEq, Eq, Debug)]
pub struct PaperSize {
    pub name: &'static str,
    pub width: i64,
    pub height: i64,
}

/// The name and dimensions of the paper size at a position of the table.
pub open spec fn paper_at(i: int) -> (Seq<char>, i64, i64) {
    if i == 0 {
        ("A0"@, 1_189_000_000, 841_000_000)
    } else if i == 1 {
        ("A1"@, 841_000_000, 594_000_000)
    } else if i == 2 {
        ("A2"@, 594_000_000, 420_000_000)
    } else if i == 3 {
        ("A3"@, 420_000_000, 297_000_000)
    } else if i == 4 {
        ("A4"@, 297_000_000, 210_000_000)
    } else if i == 5 {
        ("A5"@, 210_000_000, 148_000_000)
    } else if i == 6 {
        ("A"@, 279_400_000, 215_900_000)
    } else if i == 7 {
        ("B"@, 431_800_000, 279_400_000)
    } else if i == 8 {
        ("C"@, 558_800_000, 431_800_000)
    } else if i == 9 {
        ("D"@, 863_600_000, 558_800_000)
    } else if i == 10 {
        ("E"@, 1_117_600_000, 863_600_000)
    } else if i == 11 {
        ("USLetter"@, 279_400_000, 215_900_000)
    } else if i == 12 {
        ("USLegal"@, 355_600_000, 215_900_000)
    } else {
        ("USLedger"@, 431_800_000, 279_400_000)
    }
}

/// The number of paper sizes.
pub const PAPER_COUNT: usize = 14;

fn paper(name: &'static str, width: i64, height: i64) -> (res: PaperSize)
    ensures
        res.name@ == name@,
        res.width == width,
        res.height == height,
{
    PaperSize { name, width, height }
}

/// The table agrees with the paper sizes.
pub open spec fn lists_paper(table: Seq<PaperSize>) -> bool {
    &&& table.len() == PAPER_COUNT
    &&& forall|i: int|
        0 <= i < PAPER_COUNT ==> ((#[trigger] table[i]).name@, table[i].width, table[i].height)
            == paper_at(i)
}

/// The paper sizes that KiCad accepts, with their landscape dimensions.
pub fn paper_sizes() -> (res: Vec<PaperSize>)
    ensures
        lists_paper(res@),
{
    let mut table: Vec<PaperSize> = Vec::new();
    table.push(paper("A0", 1_189_000_000, 841_000_000));
    table.push(paper("A1", 841_000_000, 594_000_000));
    table.push(paper("A2", 594_000_000, 420_000_000));
    table.push(paper("A3", 420_000_000, 297_000_000));
    table.push(paper("A4", 297_000_000, 210_000_000));
    table.push(paper("A5", 210_000_000, 148_000_000));
    table.push(paper("A", 279_400_000, 215_900_000));
    table.push(paper("B", 431_800_000, 279_400_000));
    table.push(paper("C", 558_800_000, 431_800_000));
    table.push(paper("D", 863_600_000, 558_800_000));
    table.push(paper("E", 1_117_600_000, 863_600_000));
    table.push(paper("USLetter", 279_400_000, 215_900_000));
    table.push(paper("USLegal", 355_600_000, 215_900_000));
    table.push(paper("USLedger", 431_800_000, 279_400_000));
    table
}

/// The names of the first `n` paper sizes.
pub open spec fn paper_names(n: int) -> Seq<Seq<char>> {
    Seq::new(n as nat, |i: int| paper_at(i).0)
}

/// The first paper size of this name, among the first `n`.
pub open spec fn find_paper(size: Seq<char>, n: nat) -> Option<(i64, i64)>
    decreases n,
{
    if n == 0 {
        None
    } else {
        match find_paper(size, (n - 1) as nat) {
            Some(found) => Some(found),
            None => if paper_at(n - 1).0 == size {
                Some((paper_at(n - 1).1, paper_at(n - 1).2))
            } else {
                None
            },
        }
    }
}

/// The reason why a paper size is refused.
pub open spec fn unknown_paper(size: Seq<char>) -> Seq<char> {
    "unknown paper size '"@ + size + "'; valid: "@ + joined(paper_names(PAPER_COUNT as int), ", "@)
}

proof fn lemma_paper_stays(size: Seq<char>, n: nat)
    requires
        n <= PAPER_COUNT,
        find_paper(size, n) is Some,
    ensures
        find_paper(size, PAPER_COUNT as nat) == find_paper(size, n),
    decreases PAPER_COUNT - n,
{
    if n < PAPER_COUNT {
        lemma_paper_stays(size, n + 1);
    }
}

/// The landscape width and height of a paper size, or a refusal that names
/// every size there is.
pub fn paper_dimensions(size: &str) -> (res: Result<(i64, i64), ToolError>)
    ensures
        match find_paper(size@, PAPER_COUNT as nat) {
            Some(found) => res == Ok::<(i64, i64), ToolError>(found),
            None => res matches Err(error) && error@ == (ErrorView {
                kind: Some(
                    KindView::InvalidArgument { field: "size"@, reason: unknown_paper(size@) },
                ),
                message: "Argument '"@ + "size"@ + "' is invalid: "@ + unknown_paper(size@),
            }),
        },
{
    let table = paper_sizes();
    let ghost all = paper_names(PAPER_COUNT as int);
    let mut names: Vec<String> = Vec::new();
    let mut i: usize = 0;
    assert(texts(names@) =~= all.take(0));
    while i < PAPER_COUNT
        invariant
            i <= PAPER_COUNT,
            lists_paper(table@),
            all == paper_names(PAPER_COUNT as int),
            texts(names@) == all.take(i as int),
            find_paper(size@, i as nat) is None,
        decreases PAPER_COUNT - i,
    {
        let entry = &table[i];
        assert((entry.name@, entry.width, entry.height) == paper_at(i as int));
        if text_eq(entry.name, size) {
            proof {
                lemma_paper_stays(size@, (i + 1) as nat);
            }
            return Ok((entry.width, entry.height));
        }
        let ghost before = texts(names@);
        names.push(owned(entry.name));
        assert(texts(names@) =~= before.push(all[i as int]));
        assert(all.take(i + 1) =~= all.take(i as int).push(all[i as int]));
        i += 1;
    }
    assert(all.take(i as int) =~= all);
    let mut reason = concat3("unknown paper size '", size, "'; valid: ");
    reason.append(join(&names, ", ").as_str());
    Err(invalid_argument("size", reason))
}

/// Width and height as they lie: a portrait sheet is turned.
pub fn oriented(dimensions: (i64, i64), portrait: bool) -> (res: (i64, i64))
    ensures
        res == (if portrait {
            (dimensions.1, dimensions.0)
        } else {
            dimensions
        }),
{
    if portrait {
        (dimensions.1, dimensions.0)
    } else {
        dimensions
    }
}

/// The paper node of a sheet.
pub open spec fn paper_node(size: Seq<char>, portrait: bool) -> Seq<char> {
    if portrait {
        "(paper \""@ + size + "\" portrait)"@
    } else {
        "(paper \""@ + size + "\")"@
    }
}

/// The edit that sets the paper of a sheet: the paper node that is there is
/// replaced; a sheet without one gets it behind its identifier, or behind the
/// first line.
pub open spec fn page_edit(bytes: Seq<u8>, size: Seq<char>, portrait: bool) -> EditView {
    let n = bytes.len() as int;
    match first_in(bytes, encode_utf8("(paper "@), 0, n) {
        Some(start) => EditView {
            start,
            end: match first_byte(bytes, 41, start, n) {
                Some(close) => close + 1,
                None => n,
            },
            text: paper_node(size, portrait),
        },
        None => {
            let anchor = match first_in(bytes, encode_utf8("(uuid "@), 0, n) {
                Some(at) => first_byte(bytes, 41, at, n),
                None => None,
            };
            let at = match anchor {
                Some(close) => close + 1,
                None => match first_byte(bytes, 10, 0, n) {
                    Some(line) => line + 1,
                    None => 0,
                },
            };
            EditView { start: at, end: at, text: "\n  "@ + paper_node(size, portrait) }
        },
    }
}

/// Builds the edit that sets the paper of a sheet.
pub fn set_page(content: &str, size: &str, portrait: bool) -> (res: TextEdit)
    ensures
        res@ == page_edit(encode_utf8(content@), size@, portrait),
{
    proof {
        reveal_strlit("(paper ");
        reveal_strlit("(uuid ");
    }
    let node = if portrait {
        concat3("(paper \"", size, "\" portrait)")
    } else {
        concat3("(paper \"", size, "\")")
    };
    let bytes = content.as_bytes();
    let count: usize = bytes.len();
    if let Some(start) = find_text(content, "(paper ", 0, count) {
        let end: usize = match find_byte(bytes, 41, start, count) {
            Some(close) => close + 1,
            None => count,
        };
        return TextEdit { start, end, text: node };
    }
    let anchor: Option<usize> = match find_text(content, "(uuid ", 0, count) {
        Some(at) => find_byte(bytes, 41, at, count),
        None => None,
    };
    let at: usize = match anchor {
        Some(close) => close + 1,
        None => match find_byte(bytes, 10, 0, count) {
            Some(line) => line + 1,
            None => 0,
        },
    };
    TextEdit { start: at, end: at, text: crate::text::concat2("\n  ", node.as_str()) }
}

/// Every paper size is wider than it is high.
pub proof fn law_paper_is_landscape(i: int)
    requires
        0 <= i < PAPER_COUNT,
    ensures
        paper_at(i).1 > paper_at(i).2 > 0,
{
}

/// No two paper sizes have the same name.
pub proof fn law_paper_names_are_unique(i: int, j: int)
    requires
        0 <= i < j < PAPER_COUNT,
    ensures
        paper_at(i).0 != paper_at(j).0,
{
    reveal_strlit("A0");
    reveal_strlit("A1");
    reveal_strlit("A2");
    reveal_strlit("A3");
    reveal_strlit("A4");
    reveal_strlit("A5");
    reveal_strlit("A");
    reveal_strlit("B");
    reveal_strlit("C");
    reveal_strlit("D");
    reveal_strlit("E");
    reveal_strlit("USLetter");
    reveal_strlit("USLegal");
    reveal_strlit("USLedger");
    let (a, b) = (paper_at(i).0, paper_at(j).0);
    if a == b {
        assert(a.len() == b.len());
        assert(a[0] == b[0]);
        if a.len() == 2 {
            assert(a[1] == b[1]);
        }
        if a.len() == 8 {
            assert(a[3] == b[3] && a[4] == b[4]);
        }
    }
}

proof fn lemma_first_byte_range(hay: Seq<u8>, byte: u8, from: int, to: int)
    ensures
        first_byte(hay, byte, from, to) matches Some(at) ==> from <= at < to,
    decreases to - from,
{
    if from < to {
        lemma_first_byte_range(hay, byte, from + 1, to);
    }
}

proof fn lemma_paper_bytes()
    ensures
        encode_utf8("(paper "@).len() == 7,
        encode_utf8("(paper "@)[0] == 40,
        forall|k: int|
            0 < k < 7 ==> #[trigger] encode_utf8("(paper "@)[k] != 40 && encode_utf8(
                "(paper "@,
            )[k] != 10,
        encode_utf8("\n  "@) == seq![10u8, 32u8, 32u8],
{
    reveal_strlit("(paper ");
    is_ascii_chars_encode_utf8("(paper "@);
    reveal_strlit("\n  ");
    is_ascii_chars_encode_utf8("\n  "@);
    assert(encode_utf8("\n  "@) =~= seq![10u8, 32u8, 32u8]);
}

/// A paper node begins as every paper node does.
proof fn lemma_node_start(size: Seq<char>, portrait: bool)
    ensures
        encode_utf8(paper_node(size, portrait)).len() >= 7,
        encode_utf8(paper_node(size, portrait)).subrange(0, 7) == encode_utf8("(paper "@),
{
    reveal_strlit("(paper ");
    reveal_strlit("(paper \"");
    lemma_paper_bytes();
    let node = paper_node(size, portrait);
    let rest = node.subrange(7, node.len() as int);
    assert(node.len() >= 8);
    assert(node.subrange(0, 7) =~= "(paper "@);
    assert(node =~= "(paper "@ + rest);
    lemma_encode_concat("(paper "@, rest);
    assert(encode_utf8(node).subrange(0, 7) =~= encode_utf8("(paper "@));
}

/// A sheet says of its paper what was set: its first paper node is the one that
/// the edit writes.
pub proof fn law_the_page_reads_as_it_was_set(bytes: Seq<u8>, size: Seq<char>, portrait: bool)
    ensures
        ({
            let after = with_edit(bytes, page_edit(bytes, size, portrait));
            first_in(after, encode_utf8("(paper "@), 0, after.len() as int) matches Some(at)
                && matches_at(after, encode_utf8(paper_node(size, portrait)), at)
        }),
{
    let edit = page_edit(bytes, size, portrait);
    let after = with_edit(bytes, edit);
    let needle = encode_utf8("(paper "@);
    let node = encode_utf8(paper_node(size, portrait));
    let n = bytes.len() as int;
    lemma_paper_bytes();
    lemma_node_start(size, portrait);
    lemma_first_in_found(bytes, needle, 0, n);
    lemma_first_in_found(bytes, encode_utf8("(uuid "@), 0, n);
    lemma_first_byte_range(bytes, 10, 0, n);
    let text = encode_utf8(edit.text);
    assert(0 <= edit.start <= n ==> forall|i: int|
        0 <= i < edit.start ==> #[trigger] after[i] == bytes[i]);
    match first_in(bytes, needle, 0, n) {
        Some(start) => {
            lemma_first_byte_range(bytes, 41, start, n);
            assert(text == node);
            let at = start;
            assert(after.subrange(at, at + node.len()) =~= node);
            assert(matches_at(after, node, at));
            assert(after.subrange(at, at + 7) =~= node.subrange(0, 7));
            assert forall|p: int| 0 <= p < at implies !matches_at(after, needle, p) by {
                lemma_not_before(bytes, after, needle, start, p);
            }
            lemma_first_in_is(after, needle, 0, after.len() as int, at);
        },
        None => {
            match first_in(bytes, encode_utf8("(uuid "@), 0, n) {
                Some(found) => {
                    lemma_first_byte_range(bytes, 41, found, n);
                },
                None => {},
            }
            let start = edit.start;
            lemma_encode_concat("\n  "@, paper_node(size, portrait));
            assert(text == seq![10u8, 32u8, 32u8] + node);
            let at = start + 3;
            assert(after.subrange(at, at + node.len()) =~= node);
            assert(matches_at(after, node, at));
            assert(after.subrange(at, at + 7) =~= node.subrange(0, 7));
            assert(after[start] == 10 && after[start + 1] == 32 && after[start + 2] == 32);
            assert forall|p: int| 0 <= p < at implies !matches_at(after, needle, p) by {
                if p < start {
                    lemma_not_before(bytes, after, needle, start, p);
                } else if matches_at(after, needle, p) {
                    assert(after.subrange(p, p + 7)[0] == needle[0]);
                }
            }
            lemma_first_in_is(after, needle, 0, after.len() as int, at);
        },
    }
}

/// Nothing begins before an edit that did not begin there before it, where the
/// edit begins with a byte that the needle has at its start at most.
proof fn lemma_not_before(
    bytes: Seq<u8>,
    after: Seq<u8>,
    needle: Seq<u8>,
    start: int,
    p: int,
)
    requires
        0 <= p < start <= bytes.len(),
        start < after.len(),
        forall|i: int| 0 <= i < start ==> #[trigger] after[i] == bytes[i],
        needle.len() == 7,
        forall|k: int| 0 < k < 7 ==> #[trigger] needle[k] != after[start],
        p + 7 <= bytes.len() ==> !matches_at(bytes, needle, p),
    ensures
        !matches_at(after, needle, p),
{
    if matches_at(after, needle, p) {
        let seen = after.subrange(p, p + 7);
        if p + 7 <= start {
            assert(bytes.subrange(p, p + 7) =~= seen);
            assert(matches_at(bytes, needle, p));
        } else {
            assert(seen[start - p] == needle[start - p]);
        }
    }
}

} // verus!
