//! Committing a change that was verified beforehand.
//!
//! The prospective text is read and held to the intents before anything is
//! written, so a mismatch there changes nothing. After the commit the saved
//! file is held to them again; a mismatch then leaves the outcome uncertain.

use crate::deletion::stale;
use crate::intent::{
    intents_outcome, observations, verify_component_mutation_intents, ComponentMutationIntent,
};
use crate::readback::{ObservedComponent, ReadSchematic};
use crate::text::{concat2, owned};
use crate::tool_error::{ComponentDeleteTargetError, ToolError};
use vstd::prelude::*;
use vstd::string::*;

verus! {

/// A part of an answer.
#[derive(PartialEq, Eq, Debug)]
pub enum ToolContent {
    Text { text: String },
    Image,
}

/// The text under a key of the JSON object that a text holds; nothing where the
/// text is no JSON, where there is no such key, or where it holds no text.
pub uninterp spec fn json_text_of(text: Seq<char>, key: Seq<char>) -> Option<Seq<char>>;

/// Parses a text with `serde_json::from_str` and takes the text under a key with
/// `Value::get` and `Value::as_str`. What is found goes by its name; that it
/// depends on the text and the key alone is what is claimed.
#[verifier::external_body]
fn json_text(text: &str, key: &str) -> (res: Option<String>)
    ensures
        match res {
            Some(found) => json_text_of(text@, key@) == Some(found@),
            None => json_text_of(text@, key@) is None,
        },
{
    serde_json::from_str::<serde_json::Value>(text)
        .ok()
        .and_then(|body| body.get(key).and_then(|value| value.as_str()).map(str::to_owned))
}

/// The message that was found in a text, or else the text itself.
pub fn message_or_text(found: Option<String>, text: &str) -> (res: String)
    ensures
        res@ == match found {
            Some(message) => message@,
            None => text@,
        },
{
    match found {
        Some(message) => message,
        None => owned(text),
    }
}

/// The first text of an answer.
pub open spec fn first_text(contents: Seq<ToolContent>, n: nat) -> Option<Seq<char>>
    decreases n,
{
    if n == 0 {
        None
    } else {
        match first_text(contents, (n - 1) as nat) {
            Some(text) => Some(text),
            None => match contents[n - 1] {
                ToolContent::Text { text } => Some(text@),
                ToolContent::Image => None,
            },
        }
    }
}

/// The message of a text: what its JSON says, or else the text itself.
pub open spec fn message_of(text: Seq<char>) -> Seq<char> {
    match json_text_of(text, "message"@) {
        Some(message) => message,
        None => text,
    }
}

proof fn lemma_first_text_stays(contents: Seq<ToolContent>, n: nat)
    requires
        n <= contents.len(),
        first_text(contents, n) is Some,
    ensures
        first_text(contents, contents.len()) == first_text(contents, n),
    decreases contents.len() - n,
{
    if n < contents.len() {
        lemma_first_text_stays(contents, n + 1);
    }
}

/// Sums an answer up in one message: that of its first text.
pub fn tool_error_summary(contents: &Vec<ToolContent>) -> (res: String)
    ensures
        res@ == match first_text(contents@, contents@.len()) {
            Some(text) => message_of(text),
            None => "readback returned no diagnostic text"@,
        },
{
    let mut i: usize = 0;
    while i < contents.len()
        invariant
            i <= contents@.len(),
            first_text(contents@, i as nat) is None,
        decreases contents@.len() - i,
    {
        match &contents[i] {
            ToolContent::Text { text } => {
                proof {
                    lemma_first_text_stays(contents@, (i + 1) as nat);
                }
                let found = json_text(text.as_str(), "message");
                return message_or_text(found, text.as_str());
            },
            ToolContent::Image => {},
        }
        i += 1;
    }
    owned("readback returned no diagnostic text")
}

/// Decides whether a prospective text may be committed. Only what reads as
/// every intent says may be.
pub fn judge_prospective(
    path: &str,
    same_document: bool,
    read: &Result<ReadSchematic, String>,
    intents: &Vec<ComponentMutationIntent>,
) -> (res: Result<(), ToolError>)
    ensures
        match read {
            Err(why) => res matches Err(error) && error@ == stale(
                path@,
                "prospective schematic is not readable: "@ + why@,
            ).reported(),
            Ok(schematic) => match intents_outcome(
                path@,
                same_document,
                *schematic,
                intents@,
                "prospective"@,
                intents@.len(),
            ) {
                Ok(_) => res is Ok,
                Err(fault) => res matches Err(error) && error@ == fault.reported(),
            },
        },
{
    match read {
        Err(why) => {
            let reason = concat2("prospective schematic is not readable: ", why.as_str());
            Err(ComponentDeleteTargetError::stale(path, reason).into_result())
        },
        Ok(schematic) => {
            match verify_component_mutation_intents(
                path,
                same_document,
                schematic,
                intents,
                "prospective",
            ) {
                Ok(_) => Ok(()),
                Err(error) => Err(error),
            }
        },
    }
}

/// Decides what a committed change is answered with: what was read back, or
/// the reason why its outcome is uncertain.
pub fn judge_committed(
    path: &str,
    same_document: bool,
    read: &Result<ReadSchematic, String>,
    intents: &Vec<ComponentMutationIntent>,
) -> (res: Result<Vec<ObservedComponent>, String>)
    ensures
        match read {
            Err(why) => res matches Err(reason) && reason@
                == "The committed schematic could not be loaded: "@ + why@,
            Ok(schematic) => match intents_outcome(
                path@,
                same_document,
                *schematic,
                intents@,
                "post-commit"@,
                intents@.len(),
            ) {
                Ok(list) => res matches Ok(found) && observations(found@) == list,
                Err(fault) => res matches Err(reason) && reason@ == fault.reported().message,
            },
        },
{
    match read {
        Err(why) => Err(concat2("The committed schematic could not be loaded: ", why.as_str())),
        Ok(schematic) => {
            match verify_component_mutation_intents(
                path,
                same_document,
                schematic,
                intents,
                "post-commit",
            ) {
                Ok(found) => Ok(found),
                Err(error) => Err(error.message),
            }
        },
    }
}

/// The text with the first occurrence of another replaced.
pub open spec fn first_replaced(text: Seq<char>, from: Seq<char>, to: Seq<char>) -> Seq<char>
    decreases text.len(),
{
    if from.len() > text.len() {
        text
    } else if text.take(from.len() as int) == from {
        to + text.skip(from.len() as int)
    } else if text.len() == 0 {
        text
    } else {
        seq![text[0]] + first_replaced(text.skip(1), from, to)
    }
}

/// Spoils a prospective text on purpose: the first occurrence of one text gives
/// way to another. Without a fault to apply the text stays as it is.
pub fn apply_component_prospective_fault(
    source: String,
    fault: Option<(String, String)>,
) -> (res: String)
    ensures
        res@ == match fault {
            Some(pair) => first_replaced(source@, pair.0@, pair.1@),
            None => source@,
        },
{
    let (from, to) = match fault {
        Some(pair) => pair,
        None => {
            return source;
        },
    };
    let list = crate::chars::chars_of(source.as_str());
    let needle = crate::chars::chars_of(from.as_str());
    let mut res = String::new();
    let mut i: usize = 0;
    assert(list@.skip(0) =~= list@);
    assert(res@ + first_replaced(list@, from@, to@) =~= first_replaced(list@, from@, to@));
    while i <= list.len() && needle.len() <= list.len() - i
        invariant
            i <= list@.len(),
            list@ == source@,
            needle@ == from@,
            fault matches Some(pair) && pair.0@ == from@ && pair.1@ == to@,
            first_replaced(source@, from@, to@) == res@ + first_replaced(
                list@.skip(i as int),
                from@,
                to@,
            ),
        decreases list@.len() - i,
    {
        let ghost rest = list@.skip(i as int);
        let ghost before = res@;
        let mut same = true;
        let count: usize = list.len();
        let mut j: usize = 0;
        while j < needle.len()
            invariant
                j <= needle@.len(),
                count == list@.len(),
                i + needle@.len() <= count,
                rest == list@.skip(i as int),
                same ==> forall|k: int| 0 <= k < j ==> rest[k] == needle@[k],
                !same ==> exists|k: int| 0 <= k < needle@.len() && rest[k] != #[trigger] needle@[k],
            decreases needle@.len() - j,
        {
            assert(rest[j as int] == list@[i + j]);
            if list[i + j] != needle[j] {
                same = false;
                assert(rest[j as int] != needle@[j as int]);
            }
            j += 1;
        }
        if same {
            assert(rest.take(from@.len() as int) =~= from@);
            res.append(to.as_str());
            let ghost middle = res@;
            let tail = crate::chars::string_of(&list, i + needle.len(), list.len());
            res.append(tail.as_str());
            proof {
                assert(list@.subrange(i + needle@.len(), list@.len() as int) =~= rest.skip(
                    from@.len() as int,
                ));
                assert(before + (to@ + rest.skip(from@.len() as int)) =~= res@);
            }
            return res;
        }
        proof {
            let k = choose|k: int|
                0 <= k < needle@.len() && rest[k] != #[trigger] needle@[k];
            assert(rest.take(from@.len() as int)[k] != from@[k]);
        }
        res.push(list[i]);
        proof {
            assert(rest[0] == list@[i as int]);
            assert(rest.skip(1) =~= list@.skip(i + 1));
            assert(before + (seq![rest[0]] + first_replaced(rest.skip(1), from@, to@)) =~= res@
                + first_replaced(rest.skip(1), from@, to@));
        }
        i += 1;
    }
    let rest = crate::chars::string_of(&list, i, list.len());
    let ghost before = res@;
    res.append(rest.as_str());
    assert(list@.subrange(i as int, list@.len() as int) =~= list@.skip(i as int));
    res
}

} // verus!
