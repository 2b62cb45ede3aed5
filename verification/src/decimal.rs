//! Numbers as decimal text.

use crate::chars::{string_of, trim_end, trimmed_end};
use vstd::prelude::*;
use vstd::string::*;

verus! {

/// The decimal digit of a number below ten.
pub open spec fn digit(value: nat) -> char {
    ((value % 10) + 48) as u8 as char
}

/// The decimal digits of a number, without leading zeros.
pub open spec fn number_text(value: nat) -> Seq<char>
    decreases value,
{
    if value < 10 {
        seq![digit(value)]
    } else {
        number_text(value / 10).push(digit(value))
    }
}


/// Writes a number in decimal.
pub fn write_number(value: usize) -> (res: String)
    ensures
        res@ == number_text(value as nat),
{
    write_number_u64(value as u64)
}

/// Writes a number in decimal.
pub fn write_number_u64(value: u64) -> (res: String)
    ensures
        res@ == number_text(value as nat),
{
    let mut reversed: Vec<char> = Vec::new();
    let mut rest: u64 = value;
    let ghost mut tail: Seq<char> = Seq::empty();
    assert(number_text(value as nat) + tail =~= number_text(value as nat));
    while rest >= 10
        invariant
            number_text(value as nat) == number_text(rest as nat) + tail,
            reversed@.len() == tail.len(),
            forall|i: int|
                0 <= i < tail.len() ==> #[trigger] tail[i] == reversed@[tail.len() - 1 - i],
        decreases rest,
    {
        let last: u8 = (rest % 10) as u8 + 48;
        reversed.push(last as char);
        proof {
            let c = digit(rest as nat);
            assert(number_text((rest / 10) as nat).push(c) + tail =~= number_text(
                (rest / 10) as nat,
            ) + (seq![c] + tail));
            tail = seq![c] + tail;
        }
        rest = rest / 10;
    }
    let first: u8 = rest as u8 + 48;
    reversed.push(first as char);
    proof {
        tail = seq![digit(rest as nat)] + tail;
        assert(number_text(value as nat) =~= tail);
    }
    let mut forward: Vec<char> = Vec::new();
    let count: usize = reversed.len();
    let mut i: usize = 0;
    while i < count
        invariant
            i <= count,
            count == reversed@.len(),
            count == tail.len(),
            number_text(value as nat) == tail,
            forall|k: int|
                0 <= k < tail.len() ==> #[trigger] tail[k] == reversed@[tail.len() - 1 - k],
            forward@ == tail.take(i as int),
        decreases count - i,
    {
        forward.push(reversed[count - 1 - i]);
        assert(forward@ =~= tail.take(i + 1));
        i += 1;
    }
    assert(forward@.subrange(0, count as int) =~= tail);
    string_of(&forward, 0, count)
}

/// The number with exactly `width` digits, zeros in front.
pub open spec fn padded(value: nat, width: nat) -> Seq<char>
    decreases width,
{
    if width == 0 {
        Seq::empty()
    } else {
        padded(value / 10, (width - 1) as nat).push(digit(value))
    }
}

/// A number of millionths as a decimal fraction, without zeros at its end.
pub open spec fn fraction_text(millionths: nat) -> Seq<char> {
    trimmed_end(padded(millionths, 6), '0')
}

/// A number of millionths as text: nanometres in millimetres, for example.
pub open spec fn millionths_text(value: int) -> Seq<char> {
    let size = if value < 0 {
        (-value) as nat
    } else {
        value as nat
    };
    let sign = if value < 0 {
        "-"@
    } else {
        ""@
    };
    let whole = sign + number_text(size / 1_000_000);
    if size % 1_000_000 == 0 {
        whole
    } else {
        whole + "."@ + fraction_text(size % 1_000_000)
    }
}

fn write_padded(value: u64) -> (res: String)
    requires
        value < 1_000_000,
    ensures
        res@ == padded(value as nat, 6),
{
    let mut res = String::new();
    let d1: u8 = (value / 100_000 % 10) as u8 + 48;
    let d2: u8 = (value / 10_000 % 10) as u8 + 48;
    let d3: u8 = (value / 1_000 % 10) as u8 + 48;
    let d4: u8 = (value / 100 % 10) as u8 + 48;
    let d5: u8 = (value / 10 % 10) as u8 + 48;
    let d6: u8 = (value % 10) as u8 + 48;
    res.push(d1 as char);
    res.push(d2 as char);
    res.push(d3 as char);
    res.push(d4 as char);
    res.push(d5 as char);
    res.push(d6 as char);
    proof {
        let v = value as nat;
        reveal_with_fuel(padded, 7);
        assert(v / 10 / 10 == v / 100);
        assert(v / 10 / 10 / 10 == v / 1_000);
        assert(v / 10 / 10 / 10 / 10 == v / 10_000);
        assert(v / 10 / 10 / 10 / 10 / 10 == v / 100_000);
        assert(res@ =~= padded(v, 6));
    }
    res
}

/// Writes a number of millionths as a decimal number.
pub fn write_millionths(value: i64) -> (res: String)
    ensures
        res@ == millionths_text(value as int),
{
    let size: u64 = if value < 0 {
        (-(value as i128)) as u64
    } else {
        value as u64
    };
    let mut res = if value < 0 {
        String::from_str("-")
    } else {
        String::from_str("")
    };
    let whole: u64 = size / 1_000_000;
    let rest: u64 = size % 1_000_000;
    let digits = write_number_u64(whole);
    res.append(digits.as_str());
    if rest > 0 {
        res.append(".");
        let fraction = trim_end(write_padded(rest).as_str(), '0');
        res.append(fraction.as_str());
    }
    res
}

} // verus!
