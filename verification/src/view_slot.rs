//! The directory that the rendered view of a schematic is kept in.

use vstd::prelude::*;
use vstd::string::*;

verus! {

/// The hexadecimal digit of a number below 16.
pub open spec fn hex_digit(d: int) -> char {
    if d < 10 {
        (('0' as u32) + d) as char
    } else {
        (('a' as u32) + d - 10) as char
    }
}

/// The last `width` hexadecimal digits of a number.
pub open spec fn hex_text(n: int, width: nat) -> Seq<char>
    decreases width,
{
    if width == 0 {
        Seq::empty()
    } else {
        hex_text(n / 16, (width - 1) as nat).push(hex_digit(n % 16))
    }
}

/// The number of numbers with `width` hexadecimal digits.
pub open spec fn hex_range(width: nat) -> int
    decreases width,
{
    if width == 0 {
        1
    } else {
        16 * hex_range((width - 1) as nat)
    }
}

fn write_digit(d: u64) -> (res: char)
    requires
        d < 16,
    ensures
        res == hex_digit(d as int),
{
    match d {
        0 => '0',
        1 => '1',
        2 => '2',
        3 => '3',
        4 => '4',
        5 => '5',
        6 => '6',
        7 => '7',
        8 => '8',
        9 => '9',
        10 => 'a',
        11 => 'b',
        12 => 'c',
        13 => 'd',
        14 => 'e',
        _ => 'f',
    }
}

fn write_hex(n: u64, width: usize) -> (res: String)
    ensures
        res@ == hex_text(n as int, width as nat),
    decreases width,
{
    if width == 0 {
        String::new()
    } else {
        let mut text = write_hex(n / 16, width - 1);
        text.push(write_digit(n % 16));
        text
    }
}

/// The name of the slot that a schematic is rendered into, by the hash of its
/// path: one slot for each, which a second view overwrites.
pub fn view_slot(hash: u64) -> (res: String)
    ensures
        res@ == hex_text(hash as int, 16),
{
    write_hex(hash, 16)
}

/// Paths with different hashes have different slots.
pub proof fn law_slots_differ(a: u64, b: u64)
    requires
        a != b,
    ensures
        hex_text(a as int, 16) != hex_text(b as int, 16),
{
    assert(hex_range(16) == 0x1_0000_0000_0000_0000) by {
        reveal_with_fuel(hex_range, 17);
    }
    if hex_text(a as int, 16) == hex_text(b as int, 16) {
        lemma_hex_determines(a as int, b as int, 16);
    }
}

proof fn lemma_hex_determines(a: int, b: int, width: nat)
    requires
        0 <= a < hex_range(width),
        0 <= b < hex_range(width),
        hex_text(a, width) == hex_text(b, width),
    ensures
        a == b,
    decreases width,
{
    if width > 0 {
        let (x, y) = (hex_text(a, width), hex_text(b, width));
        assert(x.drop_last() =~= hex_text(a / 16, (width - 1) as nat));
        assert(y.drop_last() =~= hex_text(b / 16, (width - 1) as nat));
        assert(x.last() == hex_digit(a % 16));
        assert(y.last() == hex_digit(b % 16));
        assert(a % 16 == b % 16);
        lemma_hex_determines(a / 16, b / 16, (width - 1) as nat);
    }
}

} // verus!
