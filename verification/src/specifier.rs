//! Width specifiers: the types `B1` to `B64`, the names they go by, and
//! the fields of a record as they are declared with them.

use crate::layout::FieldDescriptor;
use vstd::prelude::*;
use vstd::string::StrSliceExecFns;

verus! {

/// A type that stands for a field width.
pub trait Specifier {
    /// The width in bits.
    const BITS: u8;
}

/// A width of 1 bit.
pub struct B1;

impl Specifier for B1 {
    const BITS: u8 = 1;
}

/// A width of 2 bits.
pub struct B2;

impl Specifier for B2 {
    const BITS: u8 = 2;
}

/// A width of 3 bits.
pub struct B3;

impl Specifier for B3 {
    const BITS: u8 = 3;
}

/// A width of 4 bits.
pub struct B4;

impl Specifier for B4 {
    const BITS: u8 = 4;
}

/// A width of 5 bits.
pub struct B5;

impl Specifier for B5 {
    const BITS: u8 = 5;
}

/// A width of 6 bits.
pub struct B6;

impl Specifier for B6 {
    const BITS: u8 = 6;
}

/// A width of 7 bits.
pub struct B7;

impl Specifier for B7 {
    const BITS: u8 = 7;
}

/// A width of 8 bits.
pub struct B8;

impl Specifier for B8 {
    const BITS: u8 = 8;
}

/// A width of 9 bits.
pub struct B9;

impl Specifier for B9 {
    const BITS: u8 = 9;
}

/// A width of 10 bits.
pub struct B10;

impl Specifier for B10 {
    const BITS: u8 = 10;
}

/// A width of 11 bits.
pub struct B11;

impl Specifier for B11 {
    const BITS: u8 = 11;
}

/// A width of 12 bits.
pub struct B12;

impl Specifier for B12 {
    const BITS: u8 = 12;
}

/// A width of 13 bits.
pub struct B13;

impl Specifier for B13 {
    const BITS: u8 = 13;
}

/// A width of 14 bits.
pub struct B14;

impl Specifier for B14 {
    const BITS: u8 = 14;
}

/// A width of 15 bits.
pub struct B15;

impl Specifier for B15 {
    const BITS: u8 = 15;
}

/// A width of 16 bits.
pub struct B16;

impl Specifier for B16 {
    const BITS: u8 = 16;
}

/// A width of 17 bits.
pub struct B17;

impl Specifier for B17 {
    const BITS: u8 = 17;
}

/// A width of 18 bits.
pub struct B18;

impl Specifier for B18 {
    const BITS: u8 = 18;
}

/// A width of 19 bits.
pub struct B19;

impl Specifier for B19 {
    const BITS: u8 = 19;
}

/// A width of 20 bits.
pub struct B20;

impl Specifier for B20 {
    const BITS: u8 = 20;
}

/// A width of 21 bits.
pub struct B21;

impl Specifier for B21 {
    const BITS: u8 = 21;
}

/// A width of 22 bits.
pub struct B22;

impl Specifier for B22 {
    const BITS: u8 = 22;
}

/// A width of 23 bits.
pub struct B23;

impl Specifier for B23 {
    const BITS: u8 = 23;
}

/// A width of 24 bits.
pub struct B24;

impl Specifier for B24 {
    const BITS: u8 = 24;
}

/// A width of 25 bits.
pub struct B25;

impl Specifier for B25 {
    const BITS: u8 = 25;
}

/// A width of 26 bits.
pub struct B26;

impl Specifier for B26 {
    const BITS: u8 = 26;
}

/// A width of 27 bits.
pub struct B27;

impl Specifier for B27 {
    const BITS: u8 = 27;
}

/// A width of 28 bits.
pub struct B28;

impl Specifier for B28 {
    const BITS: u8 = 28;
}

/// A width of 29 bits.
pub struct B29;

impl Specifier for B29 {
    const BITS: u8 = 29;
}

/// A width of 30 bits.
pub struct B30;

impl Specifier for B30 {
    const BITS: u8 = 30;
}

/// A width of 31 bits.
pub struct B31;

impl Specifier for B31 {
    const BITS: u8 = 31;
}

/// A width of 32 bits.
pub struct B32;

impl Specifier for B32 {
    const BITS: u8 = 32;
}

/// A width of 33 bits.
pub struct B33;

impl Specifier for B33 {
    const BITS: u8 = 33;
}

/// A width of 34 bits.
pub struct B34;

impl Specifier for B34 {
    const BITS: u8 = 34;
}

/// A width of 35 bits.
pub struct B35;

impl Specifier for B35 {
    const BITS: u8 = 35;
}

/// A width of 36 bits.
pub struct B36;

impl Specifier for B36 {
    const BITS: u8 = 36;
}

/// A width of 37 bits.
pub struct B37;

impl Specifier for B37 {
    const BITS: u8 = 37;
}

/// A width of 38 bits.
pub struct B38;

impl Specifier for B38 {
    const BITS: u8 = 38;
}

/// A width of 39 bits.
pub struct B39;

impl Specifier for B39 {
    const BITS: u8 = 39;
}

/// A width of 40 bits.
pub struct B40;

impl Specifier for B40 {
    const BITS: u8 = 40;
}

/// A width of 41 bits.
pub struct B41;

impl Specifier for B41 {
    const BITS: u8 = 41;
}

/// A width of 42 bits.
pub struct B42;

impl Specifier for B42 {
    const BITS: u8 = 42;
}

/// A width of 43 bits.
pub struct B43;

impl Specifier for B43 {
    const BITS: u8 = 43;
}

/// A width of 44 bits.
pub struct B44;

impl Specifier for B44 {
    const BITS: u8 = 44;
}

/// A width of 45 bits.
pub struct B45;

impl Specifier for B45 {
    const BITS: u8 = 45;
}

/// A width of 46 bits.
pub struct B46;

impl Specifier for B46 {
    const BITS: u8 = 46;
}

/// A width of 47 bits.
pub struct B47;

impl Specifier for B47 {
    const BITS: u8 = 47;
}

/// A width of 48 bits.
pub struct B48;

impl Specifier for B48 {
    const BITS: u8 = 48;
}

/// A width of 49 bits.
pub struct B49;

impl Specifier for B49 {
    const BITS: u8 = 49;
}

/// A width of 50 bits.
pub struct B50;

impl Specifier for B50 {
    const BITS: u8 = 50;
}

/// A width of 51 bits.
pub struct B51;

impl Specifier for B51 {
    const BITS: u8 = 51;
}

/// A width of 52 bits.
pub struct B52;

impl Specifier for B52 {
    const BITS: u8 = 52;
}

/// A width of 53 bits.
pub struct B53;

impl Specifier for B53 {
    const BITS: u8 = 53;
}

/// A width of 54 bits.
pub struct B54;

impl Specifier for B54 {
    const BITS: u8 = 54;
}

/// A width of 55 bits.
pub struct B55;

impl Specifier for B55 {
    const BITS: u8 = 55;
}

/// A width of 56 bits.
pub struct B56;

impl Specifier for B56 {
    const BITS: u8 = 56;
}

/// A width of 57 bits.
pub struct B57;

impl Specifier for B57 {
    const BITS: u8 = 57;
}

/// A width of 58 bits.
pub struct B58;

impl Specifier for B58 {
    const BITS: u8 = 58;
}

/// A width of 59 bits.
pub struct B59;

impl Specifier for B59 {
    const BITS: u8 = 59;
}

/// A width of 60 bits.
pub struct B60;

impl Specifier for B60 {
    const BITS: u8 = 60;
}

/// A width of 61 bits.
pub struct B61;

impl Specifier for B61 {
    const BITS: u8 = 61;
}

/// A width of 62 bits.
pub struct B62;

impl Specifier for B62 {
    const BITS: u8 = 62;
}

/// A width of 63 bits.
pub struct B63;

impl Specifier for B63 {
    const BITS: u8 = 63;
}

/// A width of 64 bits.
pub struct B64;

impl Specifier for B64 {
    const BITS: u8 = 64;
}

/// A field named `name` that is as wide as `S` says.
pub fn field<S: Specifier>(name: String) -> (descriptor: FieldDescriptor)
    ensures
        descriptor.name == name,
        descriptor.width == S::BITS,
{
    FieldDescriptor { name, width: S::BITS as usize }
}

/// Whether `c` is one of the ten decimal digits.
pub open spec fn is_digit(c: char) -> bool {
    '0' <= c <= '9'
}

/// The number that a decimal digit stands for; 0 for any other character.
pub open spec fn digit_value(c: char) -> nat {
    if is_digit(c) {
        (c as nat - '0' as nat) as nat
    } else {
        0
    }
}

/// The number that a string of decimal digits stands for.
pub open spec fn decimal_value(digits: Seq<char>) -> nat
    decreases digits.len(),
{
    if digits.len() == 0 {
        0
    } else {
        10 * decimal_value(digits.drop_last()) + digit_value(digits.last())
    }
}

/// How many times the letter `B` stands at the start of `name`.
pub open spec fn leading_marks(name: Seq<char>) -> nat
    decreases name.len(),
{
    if name.len() > 0 && name[0] == 'B' {
        1 + leading_marks(name.drop_first())
    } else {
        0
    }
}

/// What is left of the name of a specifier after every leading `B` and then
/// one `+`, if there is one.
pub open spec fn digits_of(name: Seq<char>) -> Seq<char> {
    let marks = leading_marks(name) as int;
    if marks < name.len() && name[marks] == '+' {
        name.subrange(marks + 1, name.len() as int)
    } else {
        name.subrange(marks, name.len() as int)
    }
}

/// The width that the name of a specifier stands for: the number written
/// in decimal after the leading `B`s, as in `B12`. There is none where no
/// digit is left, where something else than a digit is left, or where the
/// number does not fit the machine's word.
pub open spec fn named_bits(name: Seq<char>) -> Option<nat> {
    let digits = digits_of(name);
    if digits.len() > 0 && (forall|i: int| 0 <= i < digits.len() ==> is_digit(#[trigger] digits[i]))
        && decimal_value(digits) <= usize::MAX {
        Some(decimal_value(digits))
    } else {
        None
    }
}

/// A name that has `B` at each of its first `count` places and not at the
/// next has `count` leading marks.
pub proof fn lemma_leading_marks(name: Seq<char>, count: nat)
    requires
        count <= name.len(),
        forall|i: int| 0 <= i < count ==> #[trigger] name[i] == 'B',
        count == name.len() || name[count as int] != 'B',
    ensures
        leading_marks(name) == count,
    decreases count,
{
    if count > 0 {
        let rest = name.drop_first();
        assert forall|i: int| 0 <= i < count - 1 implies #[trigger] rest[i] == 'B' by {
            assert(rest[i] == name[i + 1]);
        }
        lemma_leading_marks(rest, (count - 1) as nat);
    }
}

/// The digits read so far never stand for more than all of them.
pub proof fn lemma_decimal_value_grows(digits: Seq<char>, count: int)
    requires
        0 <= count <= digits.len(),
    ensures
        decimal_value(digits.take(count)) <= decimal_value(digits),
    decreases digits.len() - count,
{
    if count < digits.len() {
        lemma_decimal_value_grows(digits, count + 1);
        assert(digits.take(count + 1).drop_last() =~= digits.take(count));
    } else {
        assert(digits.take(count) =~= digits);
    }
}

/// The width that the name of a specifier stands for, as `named_bits`
/// defines it.
pub fn specifier_bits(name: &str) -> (bits: Option<usize>)
    ensures
        match bits {
            Some(width) => named_bits(name@) == Some(width as nat),
            None => named_bits(name@) is None,
        },
{
    let len = name.unicode_len();
    let mut at: usize = 0;
    while at < len
        invariant_except_break
            at <= len,
            forall|i: int| 0 <= i < at ==> #[trigger] name@[i] == 'B',
        invariant
            len == name@.len(),
        ensures
            at <= len,
            forall|i: int| 0 <= i < at ==> #[trigger] name@[i] == 'B',
            at == len || name@[at as int] != 'B',
        decreases len - at,
    {
        if name.get_char(at) != 'B' {
            break ;
        }
        at = at + 1;
    }
    proof {
        lemma_leading_marks(name@, at as nat);
    }
    if at < len && name.get_char(at) == '+' {
        at = at + 1;
    }
    let ghost digits = digits_of(name@);
    let start = at;
    assert(digits == name@.subrange(start as int, len as int));
    if at == len {
        return None;
    }
    let mut value: usize = 0;
    while at < len
        invariant
            start <= at <= len,
            len == name@.len(),
            digits == digits_of(name@),
            digits == name@.subrange(start as int, len as int),
            forall|i: int| 0 <= i < at - start ==> is_digit(#[trigger] digits[i]),
            value == decimal_value(digits.take(at - start)),
        decreases len - at,
    {
        let c = name.get_char(at);
        assert(c == digits[at - start]);
        if c < '0' || c > '9' {
            assert(!is_digit(digits[at - start]));
            return None;
        }
        let digit = (c as u32 - '0' as u32) as usize;
        proof {
            let longer = digits.take(at - start + 1);
            assert(longer.drop_last() =~= digits.take(at - start));
            assert(longer.last() == c);
            assert(digit == digit_value(c));
            assert(decimal_value(longer) == 10 * value + digit);
            lemma_decimal_value_grows(digits, at - start + 1);
        }
        if value > (usize::MAX - digit) / 10 {
            assert(decimal_value(digits) > usize::MAX);
            return None;
        }
        value = value * 10 + digit;
        at = at + 1;
    }
    proof {
        assert(digits.take(at - start) =~= digits);
    }
    Some(value)
}

} // verus!
