//! Identifiers of the objects in a database.
use vstd::prelude::*;

verus! {

/// A universally unique identifier, as a number.
pub type Uuid = u128;

/// Identifies a group.
#[derive(Clone, Copy, Debug, PartialEq, Eq, Hash, Structural)]
pub struct GroupId {
    pub uuid: Uuid,
}

/// Identifies an entry.
#[derive(Clone, Copy, Debug, PartialEq, Eq, Hash, Structural)]
pub struct EntryId {
    pub uuid: Uuid,
}

/// Identifies a custom icon.
#[derive(Clone, Copy, Debug, PartialEq, Eq, Hash, Structural)]
pub struct CustomIconId {
    pub uuid: Uuid,
}

/// Identifies an attachment within one database.
#[derive(Clone, Copy, Debug, PartialEq, Eq, Hash, Structural)]
pub struct AttachmentId {
    pub number: usize,
}

impl GroupId {
    pub fn from_uuid(uuid: Uuid) -> (id: Self)
        ensures
            id.uuid == uuid,
    {
        GroupId { uuid }
    }

    pub fn uuid(&self) -> (uuid: Uuid)
        ensures
            uuid == self.uuid,
    {
        self.uuid
    }
}

impl EntryId {
    pub fn from_uuid(uuid: Uuid) -> (id: Self)
        ensures
            id.uuid == uuid,
    {
        EntryId { uuid }
    }

    pub fn uuid(&self) -> (uuid: Uuid)
        ensures
            uuid == self.uuid,
    {
        self.uuid
    }
}

impl CustomIconId {
    pub fn from_uuid(uuid: Uuid) -> (id: Self)
        ensures
            id.uuid == uuid,
    {
        CustomIconId { uuid }
    }

    pub fn uuid(&self) -> (uuid: Uuid)
        ensures
            uuid == self.uuid,
    {
        self.uuid
    }
}

impl AttachmentId {
    pub fn new(number: usize) -> (id: Self)
        ensures
            id.number == number,
    {
        AttachmentId { number }
    }
}

/// Appends one character to a string: `String::push`.
pub assume_specification[ String::push ](s: &mut String, c: char)
    ensures
        final(s)@ == old(s)@.push(c),
;

/// The lower-case hexadecimal digit of a value below sixteen.
pub open spec fn hex_digit(value: int) -> char {
    if value < 10 {
        (('0' as int) + value) as char
    } else {
        (('a' as int) + value - 10) as char
    }
}

/// Four times the number of hexadecimal digits that stand behind position `i` of a written
/// identifier, where `i` is the position of a digit.
pub open spec fn uuid_shift(i: int) -> int {
    let dashes = if i < 8 {
        0
    } else if i < 13 {
        1
    } else if i < 18 {
        2
    } else if i < 23 {
        3
    } else {
        4int
    };
    4 * (31 - (i - dashes))
}

/// An identifier as thirty-two hexadecimal digits in groups of eight, four, four, four and
/// twelve, with dashes between them.
pub open spec fn uuid_text(uuid: Uuid) -> Seq<char> {
    Seq::new(
        36,
        |i: int|
            if i == 8 || i == 13 || i == 18 || i == 23 {
                '-'
            } else {
                hex_digit(((uuid >> (uuid_shift(i) as u128)) & 0xf) as int)
            },
    )
}

fn digit_char(value: u128) -> (c: char)
    requires
        value < 16,
    ensures
        c == hex_digit(value as int),
{
    if value < 10 {
        (48u8 + value as u8) as char
    } else {
        (97u8 + (value as u8 - 10)) as char
    }
}

/// Appends an identifier as text.
pub fn push_uuid(out: &mut String, uuid: Uuid)
    ensures
        final(out)@ == old(out)@ + uuid_text(uuid),
{
    let mut i: usize = 0;
    let mut shift: u128 = 128;
    assert(out@ =~= old(out)@ + uuid_text(uuid).take(0));
    while i < 36
        invariant
            i <= 36,
            out@ == old(out)@ + uuid_text(uuid).take(i as int),
            i < 36 && i != 8 && i != 13 && i != 18 && i != 23 ==> shift == uuid_shift(i as int) + 4,
            i == 8 || i == 13 || i == 18 || i == 23 ==> shift == uuid_shift(i as int),
        decreases 36 - i,
    {
        assert(uuid_text(uuid).take(i + 1) =~= uuid_text(uuid).take(i as int).push(uuid_text(uuid)[i as int]));
        if i == 8 || i == 13 || i == 18 || i == 23 {
            out.push('-');
        } else {
            shift = shift - 4;
            let nibble: u128 = (uuid >> shift) & 0xf;
            assert(nibble < 16) by (bit_vector)
                requires
                    nibble == (uuid >> shift) & 0xf,
            ;
            out.push(digit_char(nibble));
        }
        i = i + 1;
    }
    assert(uuid_text(uuid).take(36) =~= uuid_text(uuid));
}

/// Where a digit of a written identifier stands: four dashes stand between groups of eight, four,
/// four, four and twelve digits.
pub open spec fn digit_place(d: int) -> int {
    if d < 8 {
        d
    } else if d < 12 {
        d + 1
    } else if d < 16 {
        d + 2
    } else if d < 20 {
        d + 3
    } else {
        d + 4
    }
}

/// An identifier is written with thirty-two lower-case hexadecimal digits and four dashes. The digits
/// are those of the number, the highest one first.
pub proof fn identifier_is_written_in_digits(uuid: Uuid)
    ensures
        uuid_text(uuid).len() == 36,
        uuid_text(uuid)[8] == '-',
        uuid_text(uuid)[13] == '-',
        uuid_text(uuid)[18] == '-',
        uuid_text(uuid)[23] == '-',
        forall|d: int|
            0 <= d < 32 ==> {
                let c = uuid_text(uuid)[#[trigger] digit_place(d)];
                let digit = (uuid as int / vstd::arithmetic::power2::pow2((4 * (31 - d)) as nat) as int) % 16;
                &&& digit < 10 ==> c as int == '0' as int + digit
                &&& digit >= 10 ==> c as int == 'a' as int + (digit - 10)
            },
{
    assert forall|d: int| 0 <= d < 32 implies {
        let c = uuid_text(uuid)[#[trigger] digit_place(d)];
        let digit = (uuid as int / vstd::arithmetic::power2::pow2((4 * (31 - d)) as nat) as int) % 16;
        &&& digit < 10 ==> c as int == '0' as int + digit
        &&& digit >= 10 ==> c as int == 'a' as int + (digit - 10)
    } by {
        let i = digit_place(d);
        assert(uuid_shift(i) == 4 * (31 - d));
        let shift = uuid_shift(i) as u128;
        vstd::bits::lemma_u128_shr_is_div(uuid, shift);
        let high: u128 = uuid >> shift;
        assert(high & 0xf == high % 16) by (bit_vector);
        assert(uuid_text(uuid)[i] == hex_digit((high & 0xf) as int));
    }
}

} // verus!
