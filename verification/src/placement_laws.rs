//! A field that was hidden is hidden, and one that was shown is shown, whatever
//! its property said before.

use crate::field_placement::{
    behind_flag, blanks_before, flag_edit, flag_edits, flag_start, gap_end, hide_edit, is_gap,
    lemma_first_byte_found, lemma_tag_stands, line_indent, says_yes,
};
use crate::property_laws::{lemma_last_byte_range, lemma_part_bytes};
use crate::property_text::{lemma_encode_concat, with_edit, with_edits, EditView};
use crate::scan::{
    blanks_end, first_byte, first_in, last_byte, lemma_after_ascii, lemma_blanks,
    lemma_first_in_found, matches_at,
};
use vstd::prelude::*;
use vstd::string::*;
use vstd::utf8::*;

verus! {

/// Every flag in a range hides.
pub open spec fn all_flags_hide(bytes: Seq<u8>, from: int, to: int) -> bool {
    forall|p: int|
        from <= p && p + 6 <= to && #[trigger] matches_at(bytes, encode_utf8("(hide "@), p)
            ==> says_yes(bytes, p, to)
}

/// The words of a flag in bytes.
proof fn lemma_flag_bytes()
    ensures
        encode_utf8("(hide "@) == seq![40u8, 104u8, 105u8, 100u8, 101u8, 32u8],
        encode_utf8("(hide yes)"@) == seq![
            40u8,
            104u8,
            105u8,
            100u8,
            101u8,
            32u8,
            121u8,
            101u8,
            115u8,
            41u8,
        ],
        encode_utf8("(hide no)"@) == seq![
            40u8,
            104u8,
            105u8,
            100u8,
            101u8,
            32u8,
            110u8,
            111u8,
            41u8,
        ],
{
    reveal_strlit("(hide ");
    reveal_strlit("(hide yes)");
    reveal_strlit("(hide no)");
    is_ascii_chars_encode_utf8("(hide "@);
    is_ascii_chars_encode_utf8("(hide yes)"@);
    is_ascii_chars_encode_utf8("(hide no)"@);
    assert(encode_utf8("(hide "@) =~= seq![40u8, 104u8, 105u8, 100u8, 101u8, 32u8]);
    assert(encode_utf8("(hide yes)"@) =~= seq![
        40u8,
        104u8,
        105u8,
        100u8,
        101u8,
        32u8,
        121u8,
        101u8,
        115u8,
        41u8,
    ]);
    assert(encode_utf8("(hide no)"@) =~= seq![
        40u8,
        104u8,
        105u8,
        100u8,
        101u8,
        32u8,
        110u8,
        111u8,
        41u8,
    ]);
}

/// A place of a needle, byte by byte.
proof fn lemma_match_bytes(bytes: Seq<u8>, needle: Seq<u8>, at: int)
    ensures
        matches_at(bytes, needle, at) <==> 0 <= at && at + needle.len() <= bytes.len() && forall|
            k: int,
        |
            0 <= k < needle.len() ==> bytes[at + k] == #[trigger] needle[k],
{
    if 0 <= at && at + needle.len() <= bytes.len() {
        let seen = bytes.subrange(at, at + needle.len());
        if seen == needle {
            assert forall|k: int| 0 <= k < needle.len() implies bytes[at + k]
                == #[trigger] needle[k] by {
                assert(seen[k] == bytes[at + k]);
            }
        }
        if forall|k: int| 0 <= k < needle.len() ==> bytes[at + k] == #[trigger] needle[k] {
            assert(seen =~= needle);
        }
    }
}

proof fn lemma_edits_compose(bytes: Seq<u8>, first: Seq<EditView>, second: Seq<EditView>)
    ensures
        with_edits(bytes, first + second) == with_edits(with_edits(bytes, second), first),
    decreases second.len(),
{
    if second.len() == 0 {
        assert(first + second =~= first);
    } else {
        let all = first + second;
        assert(all.last() == second.last());
        assert(all.drop_last() =~= first + second.drop_last());
        lemma_edits_compose(with_edit(bytes, second.last()), first, second.drop_last());
    }
}

/// Behind a flag that hides no other begins before its end.
proof fn lemma_no_flag_inside(bytes: Seq<u8>, flag: int, p: int)
    requires
        matches_at(bytes, encode_utf8("(hide yes)"@), flag),
        flag < p < flag + 10,
    ensures
        !matches_at(bytes, encode_utf8("(hide "@), p),
{
    lemma_flag_bytes();
    let (flagged, needle) = (encode_utf8("(hide yes)"@), encode_utf8("(hide "@));
    lemma_match_bytes(bytes, flagged, flag);
    lemma_match_bytes(bytes, needle, p);
    if matches_at(bytes, needle, p) {
        assert(bytes[p + 0] == needle[0]);
        assert(bytes[flag + (p - flag)] == flagged[p - flag]);
    }
}

/// What a gap is made of, and where it ends.
proof fn lemma_gap(bytes: Seq<u8>, from: int, to: int)
    requires
        from <= to,
    ensures
        from <= gap_end(bytes, from, to) <= to,
        forall|i: int| from <= i < gap_end(bytes, from, to) ==> is_gap(#[trigger] bytes[i]),
        gap_end(bytes, from, to) < to ==> !is_gap(bytes[gap_end(bytes, from, to)]),
    decreases to - from,
{
    if from < to && is_gap(bytes[from]) {
        lemma_gap(bytes, from + 1, to);
    }
}

proof fn lemma_gap_is(bytes: Seq<u8>, from: int, to: int, at: int)
    requires
        from <= at < to,
        forall|i: int| from <= i < at ==> is_gap(#[trigger] bytes[i]),
        !is_gap(bytes[at]),
    ensures
        gap_end(bytes, from, to) == at,
    decreases at - from,
{
    if from < at {
        lemma_gap_is(bytes, from + 1, to, at);
    }
}

/// The word of a flag that hides.
proof fn lemma_yes_bytes()
    ensures
        encode_utf8("yes"@) == seq![121u8, 101u8, 115u8],
        encode_utf8("\"yes\""@) == seq![34u8, 121u8, 101u8, 115u8, 34u8],
{
    reveal_strlit("yes");
    reveal_strlit("\"yes\"");
    is_ascii_chars_encode_utf8("yes"@);
    is_ascii_chars_encode_utf8("\"yes\""@);
    assert(encode_utf8("yes"@) =~= seq![121u8, 101u8, 115u8]);
    assert(encode_utf8("\"yes\""@) =~= seq![34u8, 121u8, 101u8, 115u8, 34u8]);
}

/// How far the text of a flag that hides has to stay for it to hide.
spec fn yes_end(bytes: Seq<u8>, flag: int, to: int) -> int {
    let word = gap_end(bytes, flag + 6, to);
    if bytes[word] == 34 {
        word + 5
    } else {
        word + 4
    }
}

/// Nothing before the end of the word opens a bracket.
proof fn lemma_yes_is_plain(bytes: Seq<u8>, flag: int, to: int)
    requires
        0 <= flag,
        flag + 6 <= to <= bytes.len(),
        says_yes(bytes, flag, to),
    ensures
        flag + 6 < yes_end(bytes, flag, to) <= to,
        forall|i: int| flag + 6 <= i < yes_end(bytes, flag, to) - 1 ==> #[trigger] bytes[i] != 40,
{
    lemma_yes_bytes();
    lemma_gap(bytes, flag + 6, to);
    let word = gap_end(bytes, flag + 6, to);
    let (bare, quoted) = (encode_utf8("yes"@), encode_utf8("\"yes\""@));
    lemma_match_bytes(bytes, bare, word);
    lemma_match_bytes(bytes, quoted, word);
    if bytes[word] == 34 {
        if matches_at(bytes, bare, word) {
            assert(bytes[word + 0] == bare[0]);
        }
        assert(matches_at(bytes, quoted, word));
        assert forall|i: int| word <= i < word + 5 implies #[trigger] bytes[i] != 40 by {
            assert(bytes[word + (i - word)] == quoted[i - word]);
        }
    } else {
        if matches_at(bytes, quoted, word) {
            assert(bytes[word + 0] == quoted[0]);
        }
        assert(matches_at(bytes, bare, word));
        assert forall|i: int| word <= i < word + 3 implies #[trigger] bytes[i] != 40 by {
            assert(bytes[word + (i - word)] == bare[i - word]);
        }
    }
    assert forall|i: int| flag + 6 <= i < yes_end(bytes, flag, to) - 1 implies #[trigger] bytes[i]
        != 40 by {
        if i < word {
            assert(is_gap(bytes[i]));
        }
    }
}

/// A flag hides wherever its text is the same up to the end of its word.
proof fn lemma_yes_kept(a: Seq<u8>, x: int, ta: int, b: Seq<u8>, y: int, tb: int)
    requires
        0 <= x,
        0 <= y,
        x + 6 <= ta <= a.len(),
        tb <= b.len(),
        says_yes(a, x, ta),
        ta - x <= tb - y || (y + (yes_end(a, x, ta) - x) < tb),
        forall|k: int| 6 <= k < yes_end(a, x, ta) - x ==> #[trigger] b[y + k] == a[x + k],
    ensures
        says_yes(b, y, tb),
{
    lemma_yes_bytes();
    lemma_yes_is_plain(a, x, ta);
    lemma_gap(a, x + 6, ta);
    let (bare, quoted) = (encode_utf8("yes"@), encode_utf8("\"yes\""@));
    let word = gap_end(a, x + 6, ta);
    let far = yes_end(a, x, ta);
    let other = y + (word - x);
    assert forall|i: int| y + 6 <= i < y + (far - x) implies #[trigger] b[i] == a[x + (i - y)] by {
        assert(b[y + (i - y)] == a[x + (i - y)]);
    }
    lemma_match_bytes(a, bare, word);
    lemma_match_bytes(a, quoted, word);
    lemma_match_bytes(b, bare, other);
    lemma_match_bytes(b, quoted, other);
    assert(!is_gap(a[word])) by {
        assert(a[word + 0] == bare[0] || a[word + 0] == quoted[0]);
    }
    assert(b[other] == a[word]);
    assert forall|i: int| y + 6 <= i < other implies is_gap(#[trigger] b[i]) by {
        assert(is_gap(a[x + (i - y)]));
    }
    lemma_gap_is(b, y + 6, tb, other);
    if a[word] == 34 {
        assert(a[word + 0] != bare[0]);
        assert(matches_at(a, quoted, word));
        assert forall|k: int| 0 <= k < 5 implies b[other + k] == #[trigger] quoted[k] by {
            assert(a[word + k] == quoted[k]);
        }
    } else {
        assert(a[word + 0] != quoted[0]);
        assert(matches_at(a, bare, word));
        assert forall|k: int| 0 <= k < 3 implies b[other + k] == #[trigger] bare[k] by {
            assert(a[word + k] == bare[k]);
        }
        assert(b[other + 3] == a[word + 3]);
    }
}

/// A flag as it is written hides.
proof fn lemma_written_hides(bytes: Seq<u8>, flag: int, to: int)
    requires
        flag + 10 <= to <= bytes.len(),
        matches_at(bytes, encode_utf8("(hide yes)"@), flag),
    ensures
        says_yes(bytes, flag, to),
{
    lemma_flag_bytes();
    lemma_yes_bytes();
    let (flagged, bare) = (encode_utf8("(hide yes)"@), encode_utf8("yes"@));
    lemma_match_bytes(bytes, flagged, flag);
    lemma_match_bytes(bytes, bare, flag + 6);
    assert(bytes[flag + 6] == flagged[6]);
    assert(bytes[flag + 9] == flagged[9]);
    lemma_gap_is(bytes, flag + 6, to, flag + 6);
    assert forall|k: int| 0 <= k < 3 implies bytes[flag + 6 + k] == #[trigger] bare[k] by {
        assert(bytes[flag + (6 + k)] == flagged[6 + k]);
    }
}

/// How far the text before the first flag stays, with the tag of that flag.
spec fn kept_to(bytes: Seq<u8>, from: int, to: int) -> int {
    match first_in(bytes, encode_utf8("(hide "@), from, to) {
        Some(flag) => flag + 6,
        None => bytes.len() as int,
    }
}

proof fn lemma_flags_hidden(
    bytes: Seq<u8>,
    field: Seq<char>,
    reference: Seq<char>,
    from: int,
    to: int,
)
    requires
        0 <= from <= to + 1,
        to <= bytes.len(),
        flag_edits(bytes, field, reference, from, to, true) is Ok,
    ensures
        ({
            let edits = flag_edits(bytes, field, reference, from, to, true)->Ok_0;
            let after = with_edits(bytes, edits);
            let end = to + after.len() - bytes.len();
            &&& end <= after.len()
            &&& from <= end + 1
            &&& kept_to(bytes, from, to) <= after.len()
            &&& first_in(bytes, encode_utf8("(hide "@), from, to) is Some ==> kept_to(
                bytes,
                from,
                to,
            ) < end
            &&& first_in(bytes, encode_utf8("(hide "@), from, to) is None ==> after == bytes
            &&& forall|i: int|
                0 <= i < kept_to(bytes, from, to) ==> #[trigger] after[i] == bytes[i]
            &&& all_flags_hide(after, from, end)
        }),
    decreases to - from,
{
    let needle = encode_utf8("(hide "@);
    lemma_flag_bytes();
    lemma_first_in_found(bytes, needle, from, to);
    if first_in(bytes, needle, from, to) is Some {
        let flag = first_in(bytes, needle, from, to)->0;
        lemma_first_byte_found(bytes, 41, flag, to);
        let close = first_byte(bytes, 41, flag, to)->0;
        lemma_tag_stands(bytes, flag, close);
        let next = behind_flag(bytes, flag, close, true);
        lemma_flags_hidden(bytes, field, reference, next, to);
        lemma_first_in_found(bytes, needle, next, to);
        if says_yes(bytes, flag, close + 1) {
            lemma_flag_stays(bytes, field, reference, from, to, flag, close);
        } else {
            lemma_flag_replaced(bytes, field, reference, from, to, flag, close);
        }
    } else {
        assert(flag_edits(bytes, field, reference, from, to, true)->Ok_0 == Seq::<
            EditView,
        >::empty());
    }
}

/// The step at a flag that hides already.
proof fn lemma_flag_stays(
    bytes: Seq<u8>,
    field: Seq<char>,
    reference: Seq<char>,
    from: int,
    to: int,
    flag: int,
    close: int,
)
    requires
        0 <= from <= to <= bytes.len(),
        first_in(bytes, encode_utf8("(hide "@), from, to) == Some(flag),
        first_byte(bytes, 41, flag, to) == Some(close),
        from <= flag,
        flag + 6 <= close < to,
        says_yes(bytes, flag, close + 1),
        flag_edits(bytes, field, reference, from, to, true) is Ok,
        ({
            let after = with_edits(
                bytes,
                flag_edits(bytes, field, reference, flag + 6, to, true)->Ok_0,
            );
            let end = to + after.len() - bytes.len();
            &&& end <= after.len()
            &&& kept_to(bytes, flag + 6, to) <= after.len()
            &&& first_in(bytes, encode_utf8("(hide "@), flag + 6, to) is Some ==> kept_to(
                bytes,
                flag + 6,
                to,
            ) < end
            &&& first_in(bytes, encode_utf8("(hide "@), flag + 6, to) is None ==> after == bytes
            &&& forall|i: int|
                0 <= i < kept_to(bytes, flag + 6, to) ==> #[trigger] after[i] == bytes[i]
            &&& all_flags_hide(after, flag + 6, end)
        }),
    ensures
        ({
            let after = with_edits(
                bytes,
                flag_edits(bytes, field, reference, from, to, true)->Ok_0,
            );
            let end = to + after.len() - bytes.len();
            &&& flag + 6 < end <= after.len()
            &&& forall|i: int| 0 <= i < flag + 6 ==> #[trigger] after[i] == bytes[i]
            &&& all_flags_hide(after, from, end)
        }),
{
    let needle = encode_utf8("(hide "@);
    lemma_flag_bytes();
    lemma_first_in_found(bytes, needle, from, to);
    lemma_first_in_found(bytes, needle, flag + 6, to);
    let rest = flag_edits(bytes, field, reference, flag + 6, to, true)->Ok_0;
    let after = with_edits(bytes, rest);
    let end = to + after.len() - bytes.len();
    assert(Seq::<EditView>::empty() + rest =~= rest);
    assert(flag_edits(bytes, field, reference, from, to, true)->Ok_0 == rest);
    lemma_yes_is_plain(bytes, flag, close + 1);
    let far = yes_end(bytes, flag, close + 1);
    assert(far <= kept_to(bytes, flag + 6, to) && far <= end) by {
        if first_in(bytes, needle, flag + 6, to) is Some {
            let second = first_in(bytes, needle, flag + 6, to)->0;
            lemma_match_bytes(bytes, needle, second);
            assert(bytes[second + 0] == needle[0]);
        }
    }
    assert(says_yes(after, flag, end)) by {
        assert forall|k: int| 6 <= k < far - flag implies #[trigger] after[flag + k] == bytes[flag
            + k] by {}
        if first_in(bytes, needle, flag + 6, to) is Some {
            assert(far < end);
        }
        lemma_yes_kept(bytes, flag, close + 1, after, flag, end);
    }
    assert forall|p: int|
        from <= p && p + 6 <= end && #[trigger] matches_at(after, needle, p) implies says_yes(
        after,
        p,
        end,
    ) by {
        lemma_match_bytes(after, needle, p);
        assert(after[p + 0] == needle[0]);
        lemma_match_bytes(bytes, needle, flag);
        if p < flag {
            lemma_match_bytes(bytes, needle, p);
            assert forall|k: int| 0 <= k < 6 implies bytes[p + k] == #[trigger] needle[k] by {
                assert(after[p + k] == needle[k]);
                assert(after[p + k] == bytes[p + k]);
            }
            assert(matches_at(bytes, needle, p));
        } else if flag < p < flag + 6 {
            assert(bytes[flag + (p - flag)] == needle[p - flag]);
        }
    }
}

/// The step at a flag that is made to hide.
proof fn lemma_flag_replaced(
    bytes: Seq<u8>,
    field: Seq<char>,
    reference: Seq<char>,
    from: int,
    to: int,
    flag: int,
    close: int,
)
    requires
        0 <= from <= to <= bytes.len(),
        first_in(bytes, encode_utf8("(hide "@), from, to) == Some(flag),
        first_byte(bytes, 41, flag, to) == Some(close),
        from <= flag,
        flag + 6 <= close < to,
        !says_yes(bytes, flag, close + 1),
        flag_edits(bytes, field, reference, from, to, true) is Ok,
        ({
            let middle = with_edits(
                bytes,
                flag_edits(bytes, field, reference, close + 1, to, true)->Ok_0,
            );
            let end = to + middle.len() - bytes.len();
            &&& close < end <= middle.len()
            &&& forall|i: int| 0 <= i < close + 1 ==> #[trigger] middle[i] == bytes[i]
            &&& all_flags_hide(middle, close + 1, end)
        }),
    ensures
        ({
            let after = with_edits(
                bytes,
                flag_edits(bytes, field, reference, from, to, true)->Ok_0,
            );
            let end = to + after.len() - bytes.len();
            &&& flag + 6 < end <= after.len()
            &&& forall|i: int| 0 <= i < flag + 6 ==> #[trigger] after[i] == bytes[i]
            &&& all_flags_hide(after, from, end)
        }),
{
    let needle = encode_utf8("(hide "@);
    let flagged = encode_utf8("(hide yes)"@);
    lemma_flag_bytes();
    lemma_first_in_found(bytes, needle, from, to);
    let rest = flag_edits(bytes, field, reference, close + 1, to, true)->Ok_0;
    let own = flag_edit(bytes, flag, close, true);
    let middle = with_edits(bytes, rest);
    let after = with_edits(middle, own);
    lemma_edits_compose(bytes, own, rest);
    assert(flag_edits(bytes, field, reference, from, to, true)->Ok_0 == own + rest);
    let edit = own[0];
    assert(own.last() == edit);
    assert(own.drop_last() =~= Seq::empty());
    assert(with_edits(with_edit(middle, edit), own.drop_last()) == with_edit(middle, edit));
    assert(after == middle.subrange(0, flag) + flagged + middle.subrange(
        close + 1,
        middle.len() as int,
    ));
    let middle_end = to + middle.len() - bytes.len();
    let end = to + after.len() - bytes.len();
    let shift = flag + 10 - (close + 1);
    lemma_match_bytes(bytes, needle, flag);
    assert forall|i: int| 0 <= i < flag + 6 implies #[trigger] after[i] == bytes[i] by {
        if i < flag {
            assert(middle[i] == bytes[i]);
        } else {
            assert(flagged[i - flag] == needle[i - flag]);
            assert(bytes[flag + (i - flag)] == needle[i - flag]);
        }
    }
    assert(matches_at(after, flagged, flag)) by {
        lemma_match_bytes(after, flagged, flag);
    }
    lemma_written_hides(after, flag, end);
    assert forall|p: int|
        from <= p && p + 6 <= end && #[trigger] matches_at(after, needle, p) implies says_yes(
        after,
        p,
        end,
    ) by {
        lemma_match_bytes(after, needle, p);
        if p < flag {
            lemma_match_bytes(bytes, needle, p);
            assert forall|k: int| 0 <= k < 6 implies bytes[p + k] == #[trigger] needle[k] by {
                assert(after[p + k] == needle[k]);
                assert(after[p + k] == bytes[p + k]);
            }
            assert(matches_at(bytes, needle, p));
        } else if flag < p < flag + 10 {
            lemma_no_flag_inside(after, flag, p);
        } else if p >= flag + 10 {
            let q = p - shift;
            lemma_match_bytes(middle, needle, q);
            assert forall|k: int| 0 <= k < 6 implies middle[q + k] == #[trigger] needle[k] by {
                assert(after[p + k] == needle[k]);
                assert(after[p + k] == middle[p + k - shift]);
            }
            assert(matches_at(middle, needle, q));
            assert(says_yes(middle, q, middle_end));
            lemma_yes_is_plain(middle, q, middle_end);
            let far = yes_end(middle, q, middle_end);
            assert forall|k: int| 6 <= k < far - q implies #[trigger] after[p + k] == middle[q
                + k] by {}
            lemma_yes_kept(middle, q, middle_end, after, p, end);
        }
    }
}

/// The spaces and tabs that a line begins with, in bytes.
proof fn lemma_indent_blank(bytes: Seq<u8>, at: int)
    requires
        valid_utf8(bytes),
        0 <= at <= bytes.len(),
    ensures
        forall|i: int|
            0 <= i < encode_utf8(line_indent(bytes, at)).len() ==> (#[trigger] encode_utf8(
                line_indent(bytes, at),
            )[i] == 32 || encode_utf8(line_indent(bytes, at))[i] == 9),
{
    lemma_last_byte_range(bytes, 10, 0, at);
    is_char_boundary_start_end_of_seq(bytes);
    let from = match last_byte(bytes, 10, 0, at) {
        None => 0,
        Some(line) => line + 1,
    };
    if from > 0 {
        lemma_after_ascii(bytes, from - 1);
    }
    lemma_blanks(bytes, from, at);
    let to = blanks_end(bytes, from, at);
    if from < to {
        assert(bytes[to - 1] == 32 || bytes[to - 1] == 9);
        lemma_after_ascii(bytes, to - 1);
    }
    lemma_part_bytes(bytes, from, to);
    let blanks = encode_utf8(line_indent(bytes, at));
    assert(blanks == bytes.subrange(from, to));
    assert forall|i: int| 0 <= i < blanks.len() implies (#[trigger] blanks[i] == 32 || blanks[i]
        == 9) by {
        assert(blanks[i] == bytes[from + i]);
    }
}

/// Hiding a field hides it, whatever its property said before: every flag
/// behind the value says `yes`, there is one, and none says otherwise. The
/// range grows or shrinks with its text.
pub proof fn law_a_hidden_field_is_hidden(
    bytes: Seq<u8>,
    field: Seq<char>,
    reference: Seq<char>,
    body: int,
    prop_end: int,
    at: int,
    at_end: int,
    edits: Seq<EditView>,
)
    requires
        valid_utf8(bytes),
        0 <= body <= at <= at_end <= prop_end <= bytes.len(),
        hide_edit(bytes, field, reference, body, prop_end, at, at_end, Some(true)) == Ok::<
            Seq<EditView>,
            crate::field_placement::RefusalView,
        >(edits),
    ensures
        ({
            let after = with_edits(bytes, edits);
            let end = prop_end + after.len() - bytes.len();
            &&& first_in(after, encode_utf8("(hide "@), body, end) is Some
            &&& all_flags_hide(after, body, end)
            &&& forall|p: int|
                body <= p && p + 9 <= end ==> !#[trigger] matches_at(
                    after,
                    encode_utf8("(hide no)"@),
                    p,
                )
        }),
{
    let needle = encode_utf8("(hide "@);
    let flagged = encode_utf8("(hide yes)"@);
    let shown = encode_utf8("(hide no)"@);
    let after = with_edits(bytes, edits);
    let end = prop_end + after.len() - bytes.len();
    lemma_flag_bytes();
    if first_in(bytes, needle, body, prop_end) is None {
        lemma_inserted(bytes, body, prop_end, at, at_end, edits[0]);
        assert(edits.last() == edits[0]);
        assert(edits.drop_last() =~= Seq::empty());
        assert(with_edits(with_edit(bytes, edits[0]), edits.drop_last()) == with_edit(
            bytes,
            edits[0],
        ));
        assert(after == with_edit(bytes, edits[0]));
    } else {
        lemma_flags_hidden(bytes, field, reference, body, prop_end);
        lemma_first_in_found(bytes, needle, body, prop_end);
        let flag = first_in(bytes, needle, body, prop_end)->0;
        lemma_match_bytes(bytes, needle, flag);
        lemma_match_bytes(after, needle, flag);
        assert forall|k: int| 0 <= k < 6 implies after[flag + k] == #[trigger] needle[k] by {
            assert(after[flag + k] == bytes[flag + k]);
            assert(bytes[flag + k] == needle[k]);
        }
        assert(matches_at(after, needle, flag));
        lemma_first_in_found(after, needle, body, end);
    }
    assert forall|p: int| body <= p && p + 9 <= end implies !#[trigger] matches_at(
        after,
        shown,
        p,
    ) by {
        lemma_match_bytes(after, shown, p);
        lemma_match_bytes(after, needle, p);
        lemma_match_bytes(after, flagged, p);
        if matches_at(after, shown, p) {
            assert forall|k: int| 0 <= k < 6 implies after[p + k] == #[trigger] needle[k] by {
                assert(shown[k] == needle[k]);
                assert(after[p + k] == shown[k]);
            }
            assert(matches_at(after, needle, p));
            assert(after[p + 6] == shown[6]);
            lemma_gap_is(after, p + 6, end, p + 6);
            lemma_yes_bytes();
            let (bare, quoted) = (encode_utf8("yes"@), encode_utf8("\"yes\""@));
            lemma_match_bytes(after, bare, p + 6);
            lemma_match_bytes(after, quoted, p + 6);
            assert(after[p + 6 + 0] != bare[0] && after[p + 6 + 0] != quoted[0]);
        }
    }
}

/// Every flag in a range is closed and hides.
pub open spec fn all_flags_closed_and_hiding(bytes: Seq<u8>, from: int, to: int) -> bool {
    forall|p: int|
        from <= p && p + 6 <= to && #[trigger] matches_at(bytes, encode_utf8("(hide "@), p) ==> (
        first_byte(bytes, 41, p, to) matches Some(close) && says_yes(bytes, p, close + 1))
}

/// Hiding a field that is hidden changes nothing, however its flags are spelled.
pub proof fn law_a_hidden_field_is_left_alone(
    bytes: Seq<u8>,
    field: Seq<char>,
    reference: Seq<char>,
    body: int,
    prop_end: int,
    at: int,
    at_end: int,
)
    requires
        0 <= body <= prop_end <= bytes.len(),
        first_in(bytes, encode_utf8("(hide "@), body, prop_end) is Some,
        all_flags_closed_and_hiding(bytes, body, prop_end),
    ensures
        hide_edit(bytes, field, reference, body, prop_end, at, at_end, Some(true)) == Ok::<
            Seq<EditView>,
            crate::field_placement::RefusalView,
        >(Seq::empty()),
{
    lemma_hiding_flags_stay(bytes, field, reference, body, prop_end);
}

proof fn lemma_hiding_flags_stay(
    bytes: Seq<u8>,
    field: Seq<char>,
    reference: Seq<char>,
    from: int,
    to: int,
)
    requires
        0 <= from,
        to <= bytes.len(),
        all_flags_closed_and_hiding(bytes, from, to),
    ensures
        flag_edits(bytes, field, reference, from, to, true) == Ok::<
            Seq<EditView>,
            crate::field_placement::RefusalView,
        >(Seq::empty()),
    decreases to - from,
{
    let needle = encode_utf8("(hide "@);
    lemma_flag_bytes();
    lemma_first_in_found(bytes, needle, from, to);
    match first_in(bytes, needle, from, to) {
        Some(flag) => {
            lemma_first_byte_found(bytes, 41, flag, to);
            let close = first_byte(bytes, 41, flag, to)->0;
            lemma_hiding_flags_stay(bytes, field, reference, flag + 6, to);
            assert(Seq::<EditView>::empty() + Seq::<EditView>::empty() =~= Seq::<
                EditView,
            >::empty());
        },
        None => {},
    }
}

/// What precedes a position ends with the beginning of a flag.
pub open spec fn ends_in_part(bytes: Seq<u8>, at: int) -> bool {
    exists|k: int|
        1 <= k <= 5 && #[trigger] matches_at(bytes, encode_utf8("(hide "@).take(k), at - k)
}

/// Taking out a flag brings no other about: what precedes it does not end with
/// the beginning of one.
pub open spec fn flags_stand_apart(bytes: Seq<u8>, from: int, to: int) -> bool {
    forall|p: int|
        from <= p && p + 6 <= to && #[trigger] matches_at(bytes, encode_utf8("(hide "@), p)
            ==> !ends_in_part(bytes, flag_start(bytes, p))
}

/// Showing a field takes out every flag behind its value, wherever the flags
/// stand apart. The range shrinks with its text.
pub proof fn law_a_shown_field_has_no_flag(
    bytes: Seq<u8>,
    field: Seq<char>,
    reference: Seq<char>,
    body: int,
    prop_end: int,
    at: int,
    at_end: int,
    edits: Seq<EditView>,
)
    requires
        0 < body <= prop_end <= bytes.len(),
        bytes[body - 1] == 34,
        flags_stand_apart(bytes, body, prop_end),
        hide_edit(bytes, field, reference, body, prop_end, at, at_end, Some(false)) == Ok::<
            Seq<EditView>,
            crate::field_placement::RefusalView,
        >(edits),
    ensures
        ({
            let after = with_edits(bytes, edits);
            let end = prop_end + after.len() - bytes.len();
            &&& body <= end <= after.len()
            &&& first_in(after, encode_utf8("(hide "@), body, end) is None
        }),
{
    lemma_flags_removed(bytes, field, reference, body, prop_end);
    let after = with_edits(bytes, edits);
    lemma_first_in_found(
        after,
        encode_utf8("(hide "@),
        body,
        prop_end + after.len() - bytes.len(),
    );
    lemma_flag_bytes();
}

/// Removing a flag begins behind a byte that is neither blank nor the end of a
/// line.
proof fn lemma_flag_start(bytes: Seq<u8>, from: int, flag: int)
    requires
        0 < from <= flag <= bytes.len(),
        bytes[from - 1] == 34 || bytes[from - 1] == 41,
    ensures
        from <= blanks_before(bytes, flag) <= flag,
        from <= flag_start(bytes, flag) <= flag,
    decreases flag,
{
    if flag > from && (bytes[flag - 1] == 32 || bytes[flag - 1] == 9) {
        lemma_flag_start(bytes, from, flag - 1);
    }
}

proof fn lemma_flags_removed(
    bytes: Seq<u8>,
    field: Seq<char>,
    reference: Seq<char>,
    from: int,
    to: int,
)
    requires
        0 < from <= to + 1,
        to <= bytes.len(),
        bytes[from - 1] == 34 || bytes[from - 1] == 41,
        flags_stand_apart(bytes, from, to),
        flag_edits(bytes, field, reference, from, to, false) is Ok,
    ensures
        ({
            let edits = flag_edits(bytes, field, reference, from, to, false)->Ok_0;
            let after = with_edits(bytes, edits);
            let end = to + after.len() - bytes.len();
            &&& end <= after.len()
            &&& from <= end || from == to + 1
            &&& forall|i: int| 0 <= i < from && i < bytes.len() ==> #[trigger] after[i] == bytes[i]
            &&& forall|p: int|
                from <= p && p + 6 <= end ==> !#[trigger] matches_at(
                    after,
                    encode_utf8("(hide "@),
                    p,
                )
        }),
    decreases to - from,
{
    let needle = encode_utf8("(hide "@);
    lemma_flag_bytes();
    lemma_first_in_found(bytes, needle, from, to);
    let edits = flag_edits(bytes, field, reference, from, to, false)->Ok_0;
    if from <= to && first_in(bytes, needle, from, to) is Some {
        let flag = first_in(bytes, needle, from, to)->0;
        lemma_first_byte_found(bytes, 41, flag, to);
        let close = first_byte(bytes, 41, flag, to)->0;
        lemma_flag_start(bytes, from, flag);
        let start = flag_start(bytes, flag);
        lemma_flags_removed(bytes, field, reference, close + 1, to);
        let rest = flag_edits(bytes, field, reference, close + 1, to, false)->Ok_0;
        let own = flag_edit(bytes, flag, close, false);
        let middle = with_edits(bytes, rest);
        let after = with_edits(middle, own);
        lemma_edits_compose(bytes, own, rest);
        assert(edits == own + rest);
        let edit = own[0];
        assert(own.last() == edit);
        assert(own.drop_last() =~= Seq::empty());
        assert(with_edits(with_edit(middle, edit), own.drop_last()) == with_edit(middle, edit));
        assert(encode_utf8(Seq::<char>::empty()) =~= Seq::<u8>::empty());
        assert(after == middle.subrange(0, start) + middle.subrange(
            close + 1,
            middle.len() as int,
        ));
        let shift = close + 1 - start;
        let end = to + after.len() - bytes.len();
        assert forall|p: int| from <= p && p + 6 <= end implies !#[trigger] matches_at(
            after,
            needle,
            p,
        ) by {
            lemma_match_bytes(after, needle, p);
            if matches_at(after, needle, p) {
                if p + 6 <= start {
                    lemma_match_bytes(bytes, needle, p);
                    assert forall|k: int| 0 <= k < 6 implies bytes[p + k]
                        == #[trigger] needle[k] by {
                        assert(after[p + k] == needle[k]);
                        assert(middle[p + k] == bytes[p + k]);
                    }
                    assert(matches_at(bytes, needle, p));
                } else if p < start {
                    let k = start - p;
                    let begun = needle.take(k);
                    lemma_match_bytes(bytes, begun, p);
                    assert forall|j: int| 0 <= j < k implies bytes[p + j]
                        == #[trigger] begun[j] by {
                        assert(after[p + j] == needle[j]);
                        assert(middle[p + j] == bytes[p + j]);
                    }
                    assert(matches_at(bytes, begun, start - k));
                    assert(ends_in_part(bytes, start));
                    assert(matches_at(bytes, needle, flag));
                } else {
                    let q = p + shift;
                    lemma_match_bytes(middle, needle, q);
                    assert forall|k: int| 0 <= k < 6 implies middle[q + k]
                        == #[trigger] needle[k] by {
                        assert(after[p + k] == needle[k]);
                        assert(after[p + k] == middle[p + k + shift]);
                    }
                    assert(matches_at(middle, needle, q));
                }
            }
        }
    } else {
        assert(edits == Seq::<EditView>::empty());
    }
}

proof fn lemma_inserted(
    bytes: Seq<u8>,
    body: int,
    prop_end: int,
    at: int,
    at_end: int,
    edit: EditView,
)
    requires
        valid_utf8(bytes),
        0 <= body <= at <= at_end <= prop_end <= bytes.len(),
        first_in(bytes, encode_utf8("(hide "@), body, prop_end) is None,
        edit.start == at_end,
        edit.end == at_end,
        edit.text == "\n"@ + line_indent(bytes, at) + "(hide yes)"@,
    ensures
        ({
            let after = with_edit(bytes, edit);
            let end = prop_end + after.len() - bytes.len();
            &&& first_in(after, encode_utf8("(hide "@), body, end) is Some
            &&& all_flags_hide(after, body, end)
        }),
{
    let needle = encode_utf8("(hide "@);
    let flagged = encode_utf8("(hide yes)"@);
    let after = with_edit(bytes, edit);
    let end = prop_end + after.len() - bytes.len();
    let lead = encode_utf8(line_indent(bytes, at));
    lemma_flag_bytes();
    lemma_indent_blank(bytes, at);
    reveal_strlit("\n");
    is_ascii_chars_encode_utf8("\n"@);
    assert(encode_utf8("\n"@) =~= seq![10u8]);
    lemma_encode_concat("\n"@, line_indent(bytes, at));
    lemma_encode_concat("\n"@ + line_indent(bytes, at), "(hide yes)"@);
    let text = encode_utf8(edit.text);
    assert(text == seq![10u8] + lead + flagged);
    let q = at_end + 1 + lead.len();
    lemma_first_in_found(bytes, needle, body, prop_end);
    assert(after.len() == bytes.len() + text.len());
    assert forall|i: int| 0 <= i < at_end implies #[trigger] after[i] == bytes[i] by {}
    assert(after[at_end] == 10) by {
        assert(text[0] == 10);
    }
    assert forall|i: int| at_end < i < q implies #[trigger] after[i] != 40 by {
        assert(after[i] == lead[i - at_end - 1]);
    }
    assert forall|k: int| 0 <= k < 10 implies after[q + k] == #[trigger] flagged[k] by {}
    assert(matches_at(after, flagged, q)) by {
        lemma_match_bytes(after, flagged, q);
    }
    assert(matches_at(after, needle, q)) by {
        lemma_match_bytes(after, needle, q);
        assert forall|k: int| 0 <= k < 6 implies after[q + k] == #[trigger] needle[k] by {
            assert(flagged[k] == needle[k]);
        }
    }
    assert forall|p: int|
        body <= p && p + 6 <= end && #[trigger] matches_at(after, needle, p) implies says_yes(
        after,
        p,
        end,
    ) by {
        lemma_match_bytes(after, needle, p);
        assert(after[p + 0] == needle[0]);
        if p < at_end {
            if p + 6 <= at_end {
                lemma_match_bytes(bytes, needle, p);
                assert forall|k: int| 0 <= k < 6 implies bytes[p + k] == #[trigger] needle[k] by {
                    assert(after[p + k] == needle[k]);
                    assert(after[p + k] == bytes[p + k]);
                }
                assert(matches_at(bytes, needle, p));
            } else {
                assert(after[p + (at_end - p)] == needle[at_end - p]);
            }
        } else if p < q {
        } else if p == q {
            lemma_written_hides(after, q, end);
        } else if q < p < q + 10 {
            lemma_no_flag_inside(after, q, p);
        } else if p >= q + 10 {
            let o = p - text.len();
            lemma_match_bytes(bytes, needle, o);
            assert forall|k: int| 0 <= k < 6 implies bytes[o + k] == #[trigger] needle[k] by {
                assert(after[p + k] == needle[k]);
                assert(after[p + k] == bytes[p + k - text.len()]);
            }
            assert(matches_at(bytes, needle, o));
        }
    }
    lemma_first_in_found(after, needle, body, end);
}

} // verus!
