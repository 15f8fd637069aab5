//! Sub-byte fields: a cursor over the eight bits of one byte, most significant bit first.
use vstd::prelude::*;

use crate::error::Error;

verus! {

/// The low `width` bits set.
pub open spec fn field_mask(width: u8) -> u32 {
    ((1u32 << (width as u32)) - 1u32) as u32
}

/// How far a field of `width` bits starting at bit `offset` (counted from the most
/// significant bit) sits from the least significant end of the byte.
pub open spec fn field_shift(offset: u8, width: u8) -> u32 {
    (8 - offset - width) as u32
}

/// `data` with bits `offset .. offset + width` replaced by the low `width` bits of `value`.
pub open spec fn with_field(data: u8, offset: u8, width: u8, value: u8) -> u8 {
    let shift = field_shift(offset, width);
    let mask = field_mask(width);
    (((data as u32) & !(mask << shift)) | (((value as u32) & mask) << shift)) as u8
}

/// Bits `offset .. offset + width` of `data`, as an unsigned number.
pub open spec fn field_of(data: u8, offset: u8, width: u8) -> u8 {
    (((data as u32) >> field_shift(offset, width)) & field_mask(width)) as u8
}

/// `value` has no bit set at or above position `width`.
pub open spec fn fits(value: u8, width: u8) -> bool {
    (value as u32) >> (width as u32) == 0
}

/// What writing `value` as a `width`-bit field at bit `offset` of `data` leads to: the new
/// byte and offset, or the error.
pub open spec fn write_outcome(data: u8, offset: u8, value: u8, width: u8) -> Result<(u8, u8), Error> {
    if width == 0 || width > 8 {
        Err(Error::BitsWidth(width))
    } else if offset + width > 8 {
        Err(Error::BitsWrite { offset, width })
    } else {
        Ok((with_field(data, offset, width, value), (offset + width) as u8))
    }
}

/// What reading a `width`-bit field at bit `offset` of `data` leads to: the field, or the error.
pub open spec fn read_outcome(data: u8, offset: u8, width: u8) -> Result<u8, Error> {
    if width == 0 || width > 8 {
        Err(Error::BitsWidth(width))
    } else if offset + width > 8 {
        Err(Error::BitsRead { offset, width })
    } else {
        Ok(field_of(data, offset, width))
    }
}

/// Writing the `(value, width)` fields one after another from bit `offset` of `data`: the
/// final byte and offset, or the first error.
pub open spec fn pack_fields(data: u8, offset: u8, fields: Seq<(u8, u8)>) -> Result<(u8, u8), Error>
    decreases fields.len(),
{
    if fields.len() == 0 {
        Ok((data, offset))
    } else {
        match write_outcome(data, offset, fields[0].0, fields[0].1) {
            Err(e) => Err(e),
            Ok((d, o)) => pack_fields(d, o, fields.drop_first()),
        }
    }
}

/// Reading fields of the given widths one after another from bit `offset` of `data`: the
/// values, or the first error.
pub open spec fn unpack_fields(data: u8, offset: u8, widths: Seq<u8>) -> Result<Seq<u8>, Error>
    decreases widths.len(),
{
    if widths.len() == 0 {
        Ok(Seq::empty())
    } else {
        match read_outcome(data, offset, widths[0]) {
            Err(e) => Err(e),
            Ok(v) => match unpack_fields(data, (offset + widths[0]) as u8, widths.drop_first()) {
                Err(e) => Err(e),
                Ok(vs) => Ok(seq![v] + vs),
            },
        }
    }
}

/// The widths of the fields, in order.
pub open spec fn widths_of(fields: Seq<(u8, u8)>) -> Seq<u8> {
    fields.map_values(|f: (u8, u8)| f.1)
}

/// The values of the fields, in order.
pub open spec fn values_of(fields: Seq<(u8, u8)>) -> Seq<u8> {
    fields.map_values(|f: (u8, u8)| f.0)
}

/// The number of bits the fields take together.
pub open spec fn total_width(fields: Seq<(u8, u8)>) -> int
    decreases fields.len(),
{
    if fields.len() == 0 {
        0
    } else {
        fields[0].1 + total_width(fields.drop_first())
    }
}

/// Reading back the field just written gives its value (its low bits).
proof fn lemma_read_written(data: u8, offset: u8, width: u8, value: u8)
    requires
        1 <= width <= 8,
        offset + width <= 8,
    ensures
        field_of(with_field(data, offset, width, value), offset, width) == ((value as u32)
            & field_mask(width)) as u8,
        fits(value, width) ==> field_of(with_field(data, offset, width, value), offset, width)
            == value,
{
    assert(field_of(with_field(data, offset, width, value), offset, width) == ((value as u32)
        & field_mask(width)) as u8) by (bit_vector)
        requires
            1 <= width <= 8,
            offset + width <= 8,
    ;
    assert(fits(value, width) ==> ((value as u32) & field_mask(width)) as u8 == value)
        by (bit_vector)
        requires
            1 <= width <= 8,
    ;
}

/// A write leaves every field that ends at or before its start as it was.
proof fn lemma_write_keeps_earlier(data: u8, offset: u8, width: u8, value: u8, o2: u8, w2: u8)
    requires
        1 <= width <= 8,
        offset + width <= 8,
        1 <= w2 <= 8,
        o2 + w2 <= offset,
    ensures
        field_of(with_field(data, offset, width, value), o2, w2) == field_of(data, o2, w2),
{
    assert(field_of(with_field(data, offset, width, value), o2, w2) == field_of(data, o2, w2))
        by (bit_vector)
        requires
            1 <= width <= 8,
            offset + width <= 8,
            1 <= w2 <= 8,
            o2 + w2 <= offset,
    ;
}

/// Packing fields from `offset` on leaves every field that ends at or before `offset` as it was.
proof fn lemma_pack_keeps_earlier(data: u8, offset: u8, fields: Seq<(u8, u8)>, o2: u8, w2: u8)
    requires
        pack_fields(data, offset, fields) is Ok,
        1 <= w2 <= 8,
        o2 + w2 <= offset,
    ensures
        field_of(pack_fields(data, offset, fields)->Ok_0.0, o2, w2) == field_of(data, o2, w2),
    decreases fields.len(),
{
    if fields.len() > 0 {
        let (value, width) = fields[0];
        let (d, o) = write_outcome(data, offset, value, width)->Ok_0;
        lemma_write_keeps_earlier(data, offset, width, value, o2, w2);
        lemma_pack_keeps_earlier(d, o, fields.drop_first(), o2, w2);
    }
}

proof fn lemma_fields_round_trip_from(data: u8, offset: u8, fields: Seq<(u8, u8)>)
    requires
        forall|i: int|
            0 <= i < fields.len() ==> 1 <= #[trigger] fields[i].1 <= 8 && fits(fields[i].0, fields[i].1),
        offset + total_width(fields) <= 8,
    ensures
        pack_fields(data, offset, fields) matches Ok((byte, end)) && end == offset + total_width(
            fields,
        ) && unpack_fields(byte, offset, widths_of(fields)) == Ok::<Seq<u8>, Error>(
            values_of(fields),
        ),
    decreases fields.len(),
{
    if fields.len() == 0 {
        assert(values_of(fields) =~= Seq::<u8>::empty());
    } else {
        let (value, width) = fields[0];
        let rest = fields.drop_first();
        assert(1 <= fields[0].1 <= 8);
        let d = with_field(data, offset, width, value);
        let o = (offset + width) as u8;
        assert forall|i: int| 0 <= i < rest.len() implies 1 <= #[trigger] rest[i].1 <= 8 && fits(
            rest[i].0,
            rest[i].1,
        ) by {
            assert(rest[i] == fields[i + 1]);
        }
        lemma_fields_round_trip_from(d, o, rest);
        let byte = pack_fields(d, o, rest)->Ok_0.0;
        lemma_pack_keeps_earlier(d, o, rest, offset, width);
        lemma_read_written(data, offset, width, value);
        assert(widths_of(fields).drop_first() =~= widths_of(rest));
        assert(values_of(fields) =~= seq![value] + values_of(rest));
    }
}

/// Fields that fill a byte exactly, each no wider than eight bits and each value fitting its
/// width, written one after another and read back in the same order and widths, give back
/// the values written.
pub proof fn lemma_fields_round_trip(data: u8, fields: Seq<(u8, u8)>)
    requires
        forall|i: int|
            0 <= i < fields.len() ==> 1 <= #[trigger] fields[i].1 <= 8 && fits(fields[i].0, fields[i].1),
        total_width(fields) == 8,
    ensures
        pack_fields(data, 0, fields) matches Ok((byte, end)) && end == 8 && unpack_fields(
            byte,
            0,
            widths_of(fields),
        ) == Ok::<Seq<u8>, Error>(values_of(fields)),
{
    lemma_fields_round_trip_from(data, 0, fields);
}

/// A writer of fields into one byte, most significant bit first.
pub struct BitEncoder<'a> {
    /// The byte written to.
    pub data: &'a mut u8,
    /// How many bits of the byte, from the most significant, have been written.
    pub offset: u8,
}

impl<'a> BitEncoder<'a> {
    /// A writer that starts at the most significant bit of `data`.
    pub fn new(data: &'a mut u8) -> (r: Self)
        ensures
            *r.data == *old(data),
            r.offset == 0,
            *final(r.data) == *final(data),
    {
        BitEncoder { data, offset: 0 }
    }

    /// Writes the low `width` bits of `value` into the next `width` bits of the byte.
    pub fn write(&mut self, value: u8, width: u8) -> (r: Result<(), Error>)
        ensures
            *final(final(self).data) == *final(old(self).data),
            match write_outcome(*old(self).data, old(self).offset, value, width) {
                Ok((d, o)) => r is Ok && *final(self).data == d && final(self).offset == o,
                Err(e) => r == Err::<(), Error>(e) && *final(self).data == *old(self).data
                    && final(self).offset == old(self).offset,
            },
    {
        if width == 0 || width > 8 {
            return Err(Error::BitsWidth(width));
        }
        if self.offset > 8 - width {
            return Err(Error::BitsWrite { offset: self.offset, width });
        }
        let shift: u32 = (8 - self.offset - width) as u32;
        let w: u32 = width as u32;
        assert((1u32 << w) >= 1) by (bit_vector)
            requires
                w <= 8,
        ;
        let mask: u32 = (1u32 << w) - 1;
        let cleared: u32 = (*self.data as u32) & !(mask << shift);
        let field: u32 = ((value as u32) & mask) << shift;
        *self.data = (cleared | field) as u8;
        self.offset = self.offset + width;
        Ok(())
    }
}

/// A reader of fields from one byte, most significant bit first.
pub struct BitDecoder<'a> {
    /// The byte read from.
    pub data: &'a u8,
    /// How many bits of the byte, from the most significant, have been read.
    pub offset: u8,
}

impl<'a> BitDecoder<'a> {
    /// A reader that starts at the most significant bit of `data`.
    pub fn new(data: &'a u8) -> (r: Self)
        ensures
            *r.data == *data,
            r.offset == 0,
    {
        BitDecoder { data, offset: 0 }
    }

    /// Reads the next `width` bits of the byte as an unsigned number.
    pub fn read(&mut self, width: u8) -> (r: Result<u8, Error>)
        ensures
            final(self).data == old(self).data,
            match read_outcome(*old(self).data, old(self).offset, width) {
                Ok(v) => r == Ok::<u8, Error>(v) && final(self).offset == old(self).offset + width,
                Err(e) => r == Err::<u8, Error>(e) && final(self).offset == old(self).offset,
            },
    {
        if width == 0 || width > 8 {
            return Err(Error::BitsWidth(width));
        }
        if self.offset > 8 - width {
            return Err(Error::BitsRead { offset: self.offset, width });
        }
        let shift: u32 = (8 - self.offset - width) as u32;
        let w: u32 = width as u32;
        assert((1u32 << w) >= 1) by (bit_vector)
            requires
                w <= 8,
        ;
        let mask: u32 = (1u32 << w) - 1;
        let v: u8 = (((*self.data as u32) >> shift) & mask) as u8;
        self.offset = self.offset + width;
        Ok(v)
    }
}

} // verus!
