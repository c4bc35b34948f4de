//! Fields of a protobuf message, by their places in the bytes.

use vstd::prelude::*;

verus! {

/// How the value of a field is written.
#[derive(Clone, Copy, Debug, PartialEq, Eq, Structural)]
pub enum Wire {
    Varint,
    Fixed64,
    Bytes,
    Fixed32,
}

/// A field of a message.
#[derive(Clone, Copy, Debug, PartialEq, Eq, Structural)]
pub struct Field {
    pub number: u32,
    pub wire: Wire,
    /// The value of a varint, and zero for the rest.
    pub value: u64,
    /// Where the bytes of the value begin, behind the length of bytes.
    pub from: usize,
    /// Where the field ends.
    pub to: usize,
}

/// The varint from `pos` on and where it ends, with the bits below `shift`
/// already in `acc`. It has at most ten bytes; bits above the 64th are lost.
pub open spec fn varint_from(b: Seq<u8>, pos: int, shift: u64, acc: u64) -> Option<(u64, int)>
    decreases 70 - shift,
{
    if shift >= 64 || pos >= b.len() {
        None
    } else {
        let next = acc | (((b[pos] & 0x7f) as u64) << shift);
        if b[pos] & 0x80 == 0 {
            Some((next, pos + 1))
        } else {
            varint_from(b, pos + 1, (shift + 7) as u64, next)
        }
    }
}

/// The varint at `pos` and where it ends.
pub open spec fn varint_at(b: Seq<u8>, pos: int) -> Option<(u64, int)> {
    varint_from(b, pos, 0, 0)
}

/// The field at `pos`, if a whole one is there.
pub open spec fn field_at(b: Seq<u8>, pos: int) -> Option<Field> {
    match varint_at(b, pos) {
        None => None,
        Some((key, p)) => {
            let number = (key >> 3) as u32;
            let kind = key & 7;
            if number == 0 {
                None
            } else if kind == 0 {
                match varint_at(b, p) {
                    None => None,
                    Some((value, to)) => Some(
                        Field {
                            number,
                            wire: Wire::Varint,
                            value,
                            from: p as usize,
                            to: to as usize,
                        },
                    ),
                }
            } else if kind == 1 {
                fixed(b, number, Wire::Fixed64, p, 8)
            } else if kind == 2 {
                match varint_at(b, p) {
                    None => None,
                    Some((len, from)) => fixed(b, number, Wire::Bytes, from, len as usize as int),
                }
            } else if kind == 5 {
                fixed(b, number, Wire::Fixed32, p, 4)
            } else {
                None
            }
        },
    }
}

/// A field whose value takes `len` bytes from `from` on, if they are there.
pub open spec fn fixed(b: Seq<u8>, number: u32, wire: Wire, from: int, len: int) -> Option<Field> {
    if from + len <= b.len() {
        Some(Field { number, wire, value: 0, from: from as usize, to: (from + len) as usize })
    } else {
        None
    }
}

/// The fields from `pos` to the end, or `None` where the bytes are no message.
/// A field that is there always ends further on, within the bytes.
pub open spec fn fields_from(b: Seq<u8>, pos: int) -> Option<Seq<Field>>
    decreases b.len() - pos,
{
    if pos >= b.len() {
        Some(Seq::empty())
    } else {
        match field_at(b, pos) {
            None => None,
            Some(f) => if f.to <= pos || f.to > b.len() {
                None
            } else {
                match fields_from(b, f.to as int) {
                    None => None,
                    Some(rest) => Some(seq![f] + rest),
                }
            },
        }
    }
}

/// The fields of a message.
pub open spec fn fields_of(b: Seq<u8>) -> Option<Seq<Field>> {
    fields_from(b, 0)
}

/// The last field of that number, written that way: the one that counts.
pub open spec fn last_of(fields: Seq<Field>, number: u32, wire: Wire) -> Option<Field>
    decreases fields.len(),
{
    if fields.len() == 0 {
        None
    } else if fields.last().number == number && fields.last().wire == wire {
        Some(fields.last())
    } else {
        last_of(fields.drop_last(), number, wire)
    }
}

/// The bytes of a field's value.
pub open spec fn part(b: Seq<u8>, f: Field) -> Seq<u8> {
    b.subrange(f.from as int, f.to as int)
}

fn read_varint(b: &[u8], pos: usize) -> (r: Option<(u64, usize)>)
    requires
        pos <= b.len(),
    ensures
        r is Some == varint_at(b@, pos as int) is Some,
        r matches Some((v, to)) ==> varint_at(b@, pos as int) == Some((v, to as int)) && pos < to
            <= b.len(),
{
    let mut at: usize = pos;
    let mut shift: u64 = 0;
    let mut acc: u64 = 0;
    while shift < 64
        invariant
            pos <= at <= b.len(),
            shift <= 70,
            varint_at(b@, pos as int) == varint_from(b@, at as int, shift, acc),
        decreases 70 - shift,
    {
        if at >= b.len() {
            return None;
        }
        let byte: u8 = b[at];
        acc = acc | (((byte & 0x7f) as u64) << shift);
        at += 1;
        if byte & 0x80 == 0 {
            return Some((acc, at));
        }
        shift += 7;
    }
    None
}

/// The field at `pos`, if a whole one is there.
pub fn read_field(b: &[u8], pos: usize) -> (r: Option<Field>)
    requires
        pos <= b.len(),
    ensures
        r == field_at(b@, pos as int),
        r matches Some(f) ==> pos < f.to && f.from <= f.to <= b.len(),
{
    let (key, p): (u64, usize) = match read_varint(b, pos) {
        Some(x) => x,
        None => return None,
    };
    let number: u32 = #[verifier::truncate] ((key >> 3) as u32);
    let kind: u64 = key & 7;
    if number == 0 {
        return None;
    }
    let (wire, from, len): (Wire, usize, usize) = if kind == 0 {
        return match read_varint(b, p) {
            Some((value, to)) => Some(Field { number, wire: Wire::Varint, value, from: p, to }),
            None => None,
        };
    } else if kind == 1 {
        (Wire::Fixed64, p, 8)
    } else if kind == 2 {
        match read_varint(b, p) {
            Some((len, from)) => (Wire::Bytes, from, #[verifier::truncate] (len as usize)),
            None => return None,
        }
    } else if kind == 5 {
        (Wire::Fixed32, p, 4)
    } else {
        return None;
    };
    if len > b.len() - from {
        return None;
    }
    Some(Field { number, wire, value: 0, from, to: from + len })
}

/// The fields of a message, or `None` where the bytes are no message.
pub fn read_fields(b: &[u8]) -> (r: Option<Vec<Field>>)
    ensures
        match fields_of(b@) {
            None => r is None,
            Some(fields) => r matches Some(v) && v@ == fields,
        },
        r matches Some(v) ==> forall|i: int|
            0 <= i < v@.len() ==> (#[trigger] v@[i]).from <= v@[i].to <= b.len(),
{
    let mut out: Vec<Field> = Vec::new();
    let mut pos: usize = 0;
    proof {
        if let Some(rest) = fields_from(b@, 0) {
            assert(out@ + rest =~= rest);
        }
    }
    while pos < b.len()
        invariant
            pos <= b.len(),
            forall|i: int|
                0 <= i < out@.len() ==> (#[trigger] out@[i]).from <= out@[i].to <= b.len(),
            match fields_from(b@, pos as int) {
                None => fields_of(b@) is None,
                Some(rest) => fields_of(b@) == Some(out@ + rest),
            },
        decreases b.len() - pos,
    {
        let f: Field = match read_field(b, pos) {
            Some(f) => f,
            None => return None,
        };
        let ghost before = out@;
        out.push(f);
        proof {
            if let Some(rest) = fields_from(b@, f.to as int) {
                assert(before + (seq![f] + rest) =~= out@ + rest);
            }
        }
        pos = f.to;
    }
    assert(out@ + Seq::<Field>::empty() =~= out@);
    Some(out)
}

/// The last field of that number, written that way.
pub fn find_last(fields: &Vec<Field>, number: u32, wire: Wire) -> (r: Option<Field>)
    ensures
        r == last_of(fields@, number, wire),
        r matches Some(f) ==> fields@.contains(f),
{
    let mut i: usize = fields.len();
    assert(fields@.take(i as int) =~= fields@);
    while i > 0
        invariant
            i <= fields.len(),
            last_of(fields@, number, wire) == last_of(fields@.take(i as int), number, wire),
        decreases i,
    {
        let ghost t = fields@.take(i as int);
        assert(t.last() == fields@[i - 1]);
        assert(t.drop_last() =~= fields@.take(i - 1));
        i -= 1;
        if fields[i].number == number && fields[i].wire == wire {
            assert(fields@[i as int] == t.last());
            return Some(fields[i]);
        }
    }
    None
}

} // verus!
