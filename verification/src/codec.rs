//! Wire encoding of message payload parts: big-endian integers, the entity
//! identifier, and the ordinal encoding of enumeration values (a member is
//! stored as its declaration index).

use vstd::prelude::*;

use crate::item::assoc_find;

verus! {

/// An error while reading a message payload.
#[derive(Debug, Clone, PartialEq, Eq, Structural)]
pub enum MessageCodecError {
    UnexpectedEnd,
    UnknownMember,
}

/// The big-endian bytes of a 64-bit integer.
pub open spec fn spec_u64_be(x: u64) -> Seq<u8> {
    seq![
        ((x >> 56) & 0xff) as u8,
        ((x >> 48) & 0xff) as u8,
        ((x >> 40) & 0xff) as u8,
        ((x >> 32) & 0xff) as u8,
        ((x >> 24) & 0xff) as u8,
        ((x >> 16) & 0xff) as u8,
        ((x >> 8) & 0xff) as u8,
        (x & 0xff) as u8,
    ]
}

/// The 64-bit integer the big-endian bytes spell.
pub open spec fn spec_u64_from_be(s: Seq<u8>) -> u64 {
    ((s[0] as u64) << 56) | ((s[1] as u64) << 48) | ((s[2] as u64) << 40) | ((s[3] as u64) << 32)
        | ((s[4] as u64) << 24) | ((s[5] as u64) << 16) | ((s[6] as u64) << 8) | (s[7] as u64)
}

/// The big-endian bytes of a 32-bit integer.
pub open spec fn spec_u32_be(x: u32) -> Seq<u8> {
    seq![
        ((x >> 24) & 0xff) as u8,
        ((x >> 16) & 0xff) as u8,
        ((x >> 8) & 0xff) as u8,
        (x & 0xff) as u8,
    ]
}

/// Reading back the big-endian bytes of an integer gives the integer.
pub proof fn lemma_u64_be_round_trip(x: u64)
    ensures
        spec_u64_from_be(spec_u64_be(x)) == x,
{
    assert(((((x >> 56) & 0xff) as u8 as u64) << 56) | ((((x >> 48) & 0xff) as u8 as u64) << 48)
        | ((((x >> 40) & 0xff) as u8 as u64) << 40) | ((((x >> 32) & 0xff) as u8 as u64) << 32) | (
    (((x >> 24) & 0xff) as u8 as u64) << 24) | ((((x >> 16) & 0xff) as u8 as u64) << 16) | ((((x
        >> 8) & 0xff) as u8 as u64) << 8) | ((x & 0xff) as u8 as u64) == x) by (bit_vector);
}

/// Appends a 64-bit integer to the output, most significant byte first.
pub fn write_u64_be(output: &mut Vec<u8>, x: u64)
    ensures
        final(output)@ == old(output)@ + spec_u64_be(x),
{
    let ghost pre = output@;
    output.push(((x >> 56) & 0xff) as u8);
    output.push(((x >> 48) & 0xff) as u8);
    output.push(((x >> 40) & 0xff) as u8);
    output.push(((x >> 32) & 0xff) as u8);
    output.push(((x >> 24) & 0xff) as u8);
    output.push(((x >> 16) & 0xff) as u8);
    output.push(((x >> 8) & 0xff) as u8);
    output.push((x & 0xff) as u8);
    proof {
        assert(output@ =~= pre + spec_u64_be(x));
    }
}

/// Appends a 32-bit integer to the output, most significant byte first.
pub fn write_u32_be(output: &mut Vec<u8>, x: u32)
    ensures
        final(output)@ == old(output)@ + spec_u32_be(x),
{
    let ghost pre = output@;
    output.push(((x >> 24) & 0xff) as u8);
    output.push(((x >> 16) & 0xff) as u8);
    output.push(((x >> 8) & 0xff) as u8);
    output.push((x & 0xff) as u8);
    proof {
        assert(output@ =~= pre + spec_u32_be(x));
    }
}

/// Reads a big-endian 64-bit integer at `at`, handing back the value and the
/// position after it; fails exactly when fewer than eight bytes remain.
pub fn read_u64_be(input: &Vec<u8>, at: usize) -> (r: Result<(u64, usize), MessageCodecError>)
    ensures
        at + 8 <= input@.len() ==> (r matches Ok(p) && p.0 == spec_u64_from_be(
            input@.subrange(at as int, at + 8),
        ) && p.1 == at + 8),
        at + 8 > input@.len() ==> (r matches Err(e) && e == MessageCodecError::UnexpectedEnd),
{
    if input.len() < 8 || at > input.len() - 8 {
        return Err(MessageCodecError::UnexpectedEnd);
    }
    let x = ((input[at] as u64) << 56) | ((input[at + 1] as u64) << 48) | ((input[at + 2] as u64)
        << 40) | ((input[at + 3] as u64) << 32) | ((input[at + 4] as u64) << 24) | ((input[at
        + 5] as u64) << 16) | ((input[at + 6] as u64) << 8) | (input[at + 7] as u64);
    proof {
        let s = input@.subrange(at as int, at + 8);
        assert(s[0] == input@[at as int]);
        assert(s[1] == input@[at + 1]);
        assert(s[2] == input@[at + 2]);
        assert(s[3] == input@[at + 3]);
        assert(s[4] == input@[at + 4]);
        assert(s[5] == input@[at + 5]);
        assert(s[6] == input@[at + 6]);
        assert(s[7] == input@[at + 7]);
    }
    Ok((x, at + 8))
}

/// A runtime entity identifier: two 64-bit halves.
#[derive(Debug, Clone, Copy, PartialEq, Eq, Structural)]
pub struct EntityId {
    pub id0: u64,
    pub id1: u64,
}

impl EntityId {
    /// Appends this identifier's wire form: both halves big-endian, first
    /// half first.
    pub fn serialize_message_part(&self, output: &mut Vec<u8>)
        ensures
            final(output)@ == old(output)@ + spec_u64_be(self.id0) + spec_u64_be(self.id1),
    {
        write_u64_be(output, self.id0);
        write_u64_be(output, self.id1);
    }

    /// Reads an identifier's wire form at `at`, handing back the identifier
    /// and the position after it; fails exactly when fewer than sixteen
    /// bytes remain.
    pub fn deserialize_message_part(input: &Vec<u8>, at: usize) -> (r: Result<
        (EntityId, usize),
        MessageCodecError,
    >)
        ensures
            at + 16 <= input@.len() ==> (r matches Ok(p) && p.0.id0 == spec_u64_from_be(
                input@.subrange(at as int, at + 8),
            ) && p.0.id1 == spec_u64_from_be(input@.subrange(at + 8, at + 16)) && p.1 == at + 16),
            at + 16 > input@.len() ==> (r matches Err(e) && e == MessageCodecError::UnexpectedEnd),
    {
        if input.len() < 16 || at > input.len() - 16 {
            return Err(MessageCodecError::UnexpectedEnd);
        }
        let (id0, mid) = match read_u64_be(input, at) {
            Ok(p) => p,
            Err(e) => {
                proof {
                    assert(false);
                }
                return Err(e);
            },
        };
        let (id1, end) = match read_u64_be(input, mid) {
            Ok(p) => p,
            Err(e) => {
                proof {
                    assert(false);
                }
                return Err(e);
            },
        };
        Ok((EntityId { id0, id1 }, end))
    }
}

/// The ordinal of an enumeration member: its index in declaration order,
/// which is exactly the order the schema author wrote.
pub open spec fn spec_member_ordinal(members: Seq<(String, String)>, name: Seq<char>) -> Option<
    int,
> {
    if exists|j: int| 0 <= j < members.len() && (#[trigger] members[j]).0@ == name {
        Some(choose|j: int| 0 <= j < members.len() && (#[trigger] members[j]).0@ == name)
    } else {
        None
    }
}

/// The declaration index of the first member with the given name, if any.
pub fn member_ordinal(members: &Vec<(String, String)>, name: &String) -> (r: Option<u32>)
    requires
        members@.len() <= u32::MAX,
    ensures
        r is Some <==> (exists|j: int|
            0 <= j < members@.len() && (#[trigger] members@[j]).0@ == name@),
        r matches Some(o) ==> 0 <= o < members@.len() && members@[o as int].0@ == name@ && (
        forall|j: int| 0 <= j < o ==> (#[trigger] members@[j]).0@ != name@),
    {
    let mut i: usize = 0;
    while i < members.len()
        invariant
            members@.len() <= u32::MAX,
            i <= members@.len(),
            forall|j: int| 0 <= j < i ==> (#[trigger] members@[j]).0@ != name@,
        decreases members@.len() - i,
    {
        if members[i].0 == *name {
            return Some(i as u32);
        }
        i += 1;
    }
    None
}

/// Appends the wire form of an enumeration value: its ordinal, big-endian.
pub fn serialize_enum_value(members: &Vec<(String, String)>, name: &String, output: &mut Vec<u8>)
    -> (r: Result<(), MessageCodecError>)
    requires
        members@.len() <= u32::MAX,
    ensures
        (r is Ok) <==> (exists|j: int|
            0 <= j < members@.len() && (#[trigger] members@[j]).0@ == name@),
        r is Ok ==> exists|o: u32|
            final(output)@ == old(output)@ + spec_u32_be(o) && 0 <= o < members@.len() && (
            #[trigger] members@[o as int]).0@ == name@ && (forall|j: int|
                0 <= j < o ==> (#[trigger] members@[j]).0@ != name@),
        r is Err ==> final(output)@ == old(output)@,
{
    match member_ordinal(members, name) {
        Some(o) => {
            write_u32_be(output, o);
            proof {
                assert(members@[o as int].0@ == name@);
            }
            Ok(())
        },
        None => Err(MessageCodecError::UnknownMember),
    }
}

} // verus!
