//! The records of a DNS message and their wire forms.
use vstd::prelude::*;
use vstd::slice::slice_to_vec;
use vstd::utf8::{decode_utf8, encode_utf8};

use crate::bits::{pack_fields, unpack_fields};
use crate::encoder::{
    be16, be32, from_be16, from_be32, lemma_overwrite_concat, lemma_overwrite_empty, overwrite,
    slice_outcome, Decoder, Encoder,
};
use crate::error::Error;
use crate::name::{
    first_long_label, label_wire, labels_wire, lemma_labels_wire_len, lemma_long_label_stays,
    name_wire, parse_name, split_dots, DOT, MAX_LABEL_LEN,
};

verus! {

/// A domain name as dot-joined text, with no trailing dot.
#[derive(Debug, Default, PartialEq, Clone)]
pub struct Name(pub String);

impl View for Name {
    type V = Seq<char>;

    open spec fn view(&self) -> Seq<char> {
        self.0@
    }
}

impl Name {
    /// Writes the name as length-prefixed labels, one for each non-empty piece between
    /// dots, then a zero byte. A piece longer than 63 bytes is refused before anything is
    /// written.
    pub fn encode(&self, enc: &mut Encoder) -> (r: Result<(), Error>)
        requires
            old(enc).wf(),
            old(enc).offset + encode_utf8(self@).len() + 2 <= usize::MAX,
        ensures
            *final(final(enc).buf) == *final(old(enc).buf),
            match name_wire(encode_utf8(self@)) {
                Ok(w) => r is Ok && final(enc).wrote(old(enc), w),
                Err(e) => r == Err::<(), Error>(e) && final(enc).bytes() == old(enc).bytes()
                    && final(enc).offset == old(enc).offset,
            },
    {
        let b: &[u8] = self.0.as_str().as_bytes();
        let ghost bs = b@;
        assert(bs.subrange(0, 0) =~= Seq::<u8>::empty());
        let mut i: usize = 0;
        let mut start: usize = 0;
        while i < b.len()
            invariant
                bs == b@,
                bs == encode_utf8(self@),
                0 <= start <= i <= bs.len(),
                enc.bytes() == old(enc).bytes(),
                enc.offset == old(enc).offset,
                *final(enc.buf) == *final(old(enc).buf),
                split_dots(bs.subrange(0, i as int)).last() == bs.subrange(start as int, i as int),
                split_dots(bs.subrange(0, i as int)).len() >= 1,
                first_long_label(split_dots(bs.subrange(0, i as int)).drop_last()) is None,
            decreases bs.len() - i,
        {
            let ghost pre = bs.subrange(0, i as int);
            let ghost next = bs.subrange(0, i + 1 as int);
            assert(next.drop_last() =~= pre);
            if b[i] == DOT {
                assert(split_dots(next).drop_last() =~= split_dots(pre));
                if i - start > MAX_LABEL_LEN {
                    proof {
                        lemma_long_label_stays(bs, i + 1, (i - start) as nat);
                    }
                    return Err(Error::LabelTooLong(i - start));
                }
                assert(bs.subrange(i + 1 as int, i + 1 as int) =~= Seq::<u8>::empty());
                start = i + 1;
            } else {
                assert(split_dots(next).drop_last() =~= split_dots(pre).drop_last());
                assert(bs.subrange(start as int, i + 1 as int) =~= bs.subrange(
                    start as int,
                    i as int,
                ).push(b[i as int]));
            }
            i = i + 1;
        }
        assert(bs.subrange(0, i as int) =~= bs);
        if i - start > MAX_LABEL_LEN {
            return Err(Error::LabelTooLong(i - start));
        }
        i = 0;
        start = 0;
        assert(labels_wire(Seq::<Seq<u8>>::empty()) =~= Seq::<u8>::empty());
        proof {
            lemma_overwrite_empty(old(enc).bytes(), old(enc).offset as int);
        }
        while i < b.len()
            invariant
                bs == b@,
                bs == encode_utf8(self@),
                first_long_label(split_dots(bs)) is None,
                0 <= start <= i <= bs.len(),
                old(enc).wf(),
                old(enc).offset + bs.len() + 2 <= usize::MAX,
                split_dots(bs.subrange(0, i as int)).last() == bs.subrange(start as int, i as int),
                split_dots(bs.subrange(0, i as int)).len() >= 1,
                enc.wrote(old(enc), labels_wire(split_dots(bs.subrange(0, i as int)).drop_last())),
                *final(enc.buf) == *final(old(enc).buf),
            decreases bs.len() - i,
        {
            let ghost pre = bs.subrange(0, i as int);
            let ghost next = bs.subrange(0, i + 1 as int);
            assert(next.drop_last() =~= pre);
            if b[i] == DOT {
                assert(split_dots(next).drop_last() =~= split_dots(pre));
                proof {
                    lemma_labels_wire_len(pre);
                    lemma_overwrite_concat(
                        old(enc).bytes(),
                        old(enc).offset as int,
                        labels_wire(split_dots(pre).drop_last()),
                        label_wire(split_dots(pre).last()),
                    );
                }
                write_label(enc, b, start, i);
                assert(bs.subrange(i + 1 as int, i + 1 as int) =~= Seq::<u8>::empty());
                start = i + 1;
            } else {
                assert(split_dots(next).drop_last() =~= split_dots(pre).drop_last());
                assert(bs.subrange(start as int, i + 1 as int) =~= bs.subrange(
                    start as int,
                    i as int,
                ).push(b[i as int]));
            }
            i = i + 1;
        }
        assert(bs.subrange(0, i as int) =~= bs);
        proof {
            lemma_labels_wire_len(bs);
            lemma_overwrite_concat(
                old(enc).bytes(),
                old(enc).offset as int,
                labels_wire(split_dots(bs).drop_last()),
                label_wire(split_dots(bs).last()),
            );
        }
        write_label(enc, b, start, i);
        proof {
            lemma_overwrite_concat(
                old(enc).bytes(),
                old(enc).offset as int,
                labels_wire(split_dots(bs)),
                seq![0u8],
            );
        }
        enc.write_u8(0);
        Ok(())
    }

    /// Reads a name, following a compression pointer where one ends it.
    pub fn decode(dec: &mut Decoder) -> (r: Result<Name, Error>)
        requires
            old(dec).wf(),
        ensures
            final(dec).wf(),
            final(dec).bytes() == old(dec).bytes(),
            match parse_name(old(dec).bytes(), old(dec).pos() as int, old(dec).table()) {
                Ok((text, end, t)) => r matches Ok(n) && n@ == decode_utf8(text) && final(dec).pos()
                    == end && final(dec).table() == t,
                Err(e) => r == Err::<Name, Error>(e) && final(dec).table() == old(dec).table(),
            },
    {
        let name = dec.read_name()?;
        Ok(Name(name))
    }
}

/// Writes the bytes `start .. end` of `b` as one label: a length byte and the bytes, or
/// nothing when the range is empty.
fn write_label(enc: &mut Encoder, b: &[u8], start: usize, end: usize)
    requires
        old(enc).wf(),
        start <= end <= b@.len(),
        old(enc).offset + label_wire(b@.subrange(start as int, end as int)).len() <= usize::MAX,
    ensures
        final(enc).wrote(old(enc), label_wire(b@.subrange(start as int, end as int))),
        *final(final(enc).buf) == *final(old(enc).buf),
{
    if end > start {
        enc.write_u8((end - start) as u8);
        let label = &b[start..end];
        proof {
            lemma_overwrite_concat(
                old(enc).bytes(),
                old(enc).offset as int,
                seq![(end - start) as u8],
                label@,
            );
        }
        enc.write_slice(label);
    } else {
        proof {
            lemma_overwrite_empty(old(enc).bytes(), old(enc).offset as int);
        }
    }
}

/// Reading two bytes at `o` of `buf` as a number, most significant first.
pub open spec fn read16(buf: Seq<u8>, o: int) -> Result<u16, Error> {
    match slice_outcome(buf, o, 2) {
        Ok(s) => Ok(from_be16(s)),
        Err(e) => Err(e),
    }
}

/// Reading four bytes at `o` of `buf` as a number, most significant first.
pub open spec fn read32(buf: Seq<u8>, o: int) -> Result<u32, Error> {
    match slice_outcome(buf, o, 4) {
        Ok(s) => Ok(from_be32(s)),
        Err(e) => Err(e),
    }
}

/// The type of a resource record or of a question.
#[allow(clippy::upper_case_acronyms)]
#[derive(Debug, Clone, Copy, Default, PartialEq, Eq)]
pub enum Type {
    /// A host address.
    #[default]
    A,
    /// An authoritative name server.
    NS,
    /// A mail destination (obsolete).
    MD,
    /// A mail forwarder (obsolete).
    MF,
    /// The canonical name for an alias.
    CNAME,
    /// The start of a zone of authority.
    SOA,
    /// A mailbox domain name.
    MB,
    /// A mail group member.
    MG,
    /// A mail rename domain name.
    MR,
    /// A null record.
    NULL,
    /// A well known service description.
    WKS,
    /// A domain name pointer.
    PTR,
    /// Host information.
    HINFO,
    /// Mailbox or mail list information.
    MINFO,
    /// Mail exchange.
    MX,
    /// Text strings.
    TXT,
    /// A request for a transfer of an entire zone.
    AXFR,
    /// A request for mailbox-related records.
    MAILB,
    /// A request for mail agent records.
    MAILA,
    /// A request for all records.
    ANY,
    /// A code with no name of its own.
    UNKNOWN(u16),
}

/// The numeric code of a type.
pub open spec fn type_code(t: Type) -> u16 {
    match t {
        Type::A => 1,
        Type::NS => 2,
        Type::MD => 3,
        Type::MF => 4,
        Type::CNAME => 5,
        Type::SOA => 6,
        Type::MB => 7,
        Type::MG => 8,
        Type::MR => 9,
        Type::NULL => 10,
        Type::WKS => 11,
        Type::PTR => 12,
        Type::HINFO => 13,
        Type::MINFO => 14,
        Type::MX => 15,
        Type::TXT => 16,
        Type::AXFR => 252,
        Type::MAILB => 253,
        Type::MAILA => 254,
        Type::ANY => 255,
        Type::UNKNOWN(v) => v,
    }
}

/// The type that a numeric code names; a code with no name gives `UNKNOWN`.
pub open spec fn type_of_code(v: u16) -> Type {
    if v == 1 {
        Type::A
    } else if v == 2 {
        Type::NS
    } else if v == 3 {
        Type::MD
    } else if v == 4 {
        Type::MF
    } else if v == 5 {
        Type::CNAME
    } else if v == 6 {
        Type::SOA
    } else if v == 7 {
        Type::MB
    } else if v == 8 {
        Type::MG
    } else if v == 9 {
        Type::MR
    } else if v == 10 {
        Type::NULL
    } else if v == 11 {
        Type::WKS
    } else if v == 12 {
        Type::PTR
    } else if v == 13 {
        Type::HINFO
    } else if v == 14 {
        Type::MINFO
    } else if v == 15 {
        Type::MX
    } else if v == 16 {
        Type::TXT
    } else if v == 252 {
        Type::AXFR
    } else if v == 253 {
        Type::MAILB
    } else if v == 254 {
        Type::MAILA
    } else if v == 255 {
        Type::ANY
    } else {
        Type::UNKNOWN(v)
    }
}

impl Type {
    /// Writes the numeric code of the type.
    pub fn encode(&self, enc: &mut Encoder)
        requires
            old(enc).wf(),
            old(enc).offset + 2 <= usize::MAX,
        ensures
            final(enc).wrote(old(enc), be16(type_code(*self))),
            *final(final(enc).buf) == *final(old(enc).buf),
    {
        let v: u16 = match self {
            Type::A => 1,
            Type::NS => 2,
            Type::MD => 3,
            Type::MF => 4,
            Type::CNAME => 5,
            Type::SOA => 6,
            Type::MB => 7,
            Type::MG => 8,
            Type::MR => 9,
            Type::NULL => 10,
            Type::WKS => 11,
            Type::PTR => 12,
            Type::HINFO => 13,
            Type::MINFO => 14,
            Type::MX => 15,
            Type::TXT => 16,
            Type::AXFR => 252,
            Type::MAILB => 253,
            Type::MAILA => 254,
            Type::ANY => 255,
            Type::UNKNOWN(v) => *v,
        };
        enc.write_u16(v)
    }

    /// Reads a numeric code and gives the type it names; an unnamed code is kept in
    /// `UNKNOWN`.
    pub fn decode(dec: &mut Decoder) -> (r: Result<Type, Error>)
        ensures
            final(dec).bytes() == old(dec).bytes(),
            final(dec).table() == old(dec).table(),
            match read16(old(dec).bytes(), old(dec).pos() as int) {
                Ok(v) => r == Ok::<Type, Error>(type_of_code(v)) && final(dec).pos() == old(dec).pos()
                    + 2,
                Err(e) => r == Err::<Type, Error>(e),
            },
    {
        let value = dec.read_u16()?;
        let t = match value {
            1 => Type::A,
            2 => Type::NS,
            3 => Type::MD,
            4 => Type::MF,
            5 => Type::CNAME,
            6 => Type::SOA,
            7 => Type::MB,
            8 => Type::MG,
            9 => Type::MR,
            10 => Type::NULL,
            11 => Type::WKS,
            12 => Type::PTR,
            13 => Type::HINFO,
            14 => Type::MINFO,
            15 => Type::MX,
            16 => Type::TXT,
            252 => Type::AXFR,
            253 => Type::MAILB,
            254 => Type::MAILA,
            255 => Type::ANY,
            _ => Type::UNKNOWN(value),
        };
        Ok(t)
    }
}

/// The class of a resource record or of a question.
#[allow(clippy::upper_case_acronyms)]
#[derive(Debug, Clone, Copy, Default, PartialEq, Eq)]
pub enum Class {
    /// The Internet.
    #[default]
    IN,
    /// The CSNET class (obsolete).
    CS,
    /// The CHAOS class.
    CH,
    /// Hesiod.
    HS,
    /// A code with no name of its own.
    UNKNOWN(u16),
}

/// The numeric code of a class.
pub open spec fn class_code(c: Class) -> u16 {
    match c {
        Class::IN => 1,
        Class::CS => 2,
        Class::CH => 3,
        Class::HS => 4,
        Class::UNKNOWN(v) => v,
    }
}

/// The class that a numeric code names; a code with no name gives `UNKNOWN`.
pub open spec fn class_of_code(v: u16) -> Class {
    if v == 1 {
        Class::IN
    } else if v == 2 {
        Class::CS
    } else if v == 3 {
        Class::CH
    } else if v == 4 {
        Class::HS
    } else {
        Class::UNKNOWN(v)
    }
}

impl Class {
    /// Writes the numeric code of the class.
    pub fn encode(&self, enc: &mut Encoder)
        requires
            old(enc).wf(),
            old(enc).offset + 2 <= usize::MAX,
        ensures
            final(enc).wrote(old(enc), be16(class_code(*self))),
            *final(final(enc).buf) == *final(old(enc).buf),
    {
        let v: u16 = match self {
            Class::IN => 1,
            Class::CS => 2,
            Class::CH => 3,
            Class::HS => 4,
            Class::UNKNOWN(v) => *v,
        };
        enc.write_u16(v)
    }

    /// Reads a numeric code and gives the class it names; an unnamed code is kept in
    /// `UNKNOWN`.
    pub fn decode(dec: &mut Decoder) -> (r: Result<Class, Error>)
        ensures
            final(dec).bytes() == old(dec).bytes(),
            final(dec).table() == old(dec).table(),
            match read16(old(dec).bytes(), old(dec).pos() as int) {
                Ok(v) => r == Ok::<Class, Error>(class_of_code(v)) && final(dec).pos() == old(dec).pos() + 2,
                Err(e) => r == Err::<Class, Error>(e),
            },
    {
        let value = dec.read_u16()?;
        let c = match value {
            1 => Class::IN,
            2 => Class::CS,
            3 => Class::CH,
            4 => Class::HS,
            _ => Class::UNKNOWN(value),
        };
        Ok(c)
    }
}

/// What a question holds, as values.
pub struct QuestionView {
    pub name: Seq<char>,
    pub qtype: Type,
    pub class: Class,
}

/// A question: a name with the type and class asked for.
#[derive(Debug, Default, PartialEq, Clone)]
pub struct Question {
    pub name: Name,
    pub qtype: Type,
    pub class: Class,
}

impl View for Question {
    type V = QuestionView;

    open spec fn view(&self) -> QuestionView {
        QuestionView { name: self.name@, qtype: self.qtype, class: self.class }
    }
}

/// The wire form of a question: its name, type and class.
pub open spec fn question_wire(q: QuestionView) -> Result<Seq<u8>, Error> {
    match name_wire(encode_utf8(q.name)) {
        Err(e) => Err(e),
        Ok(w) => Ok(w + be16(type_code(q.qtype)) + be16(class_code(q.class))),
    }
}

/// Decoding a question at `o` of `buf`: its name, type and class.
pub open spec fn parse_question(buf: Seq<u8>, o: int, table: Map<usize, Seq<u8>>) -> Result<
    (QuestionView, int, Map<usize, Seq<u8>>),
    Error,
> {
    match parse_name(buf, o, table) {
        Err(e) => Err(e),
        Ok((text, o1, t1)) => match read16(buf, o1) {
            Err(e) => Err(e),
            Ok(ty) => match read16(buf, o1 + 2) {
                Err(e) => Err(e),
                Ok(cl) => Ok(
                    (
                        QuestionView {
                            name: decode_utf8(text),
                            qtype: type_of_code(ty),
                            class: class_of_code(cl),
                        },
                        o1 + 4,
                        t1,
                    ),
                ),
            },
        },
    }
}

impl Question {
    /// Writes the name, the type and the class.
    pub fn encode(&self, enc: &mut Encoder) -> (r: Result<(), Error>)
        requires
            old(enc).wf(),
            old(enc).offset + encode_utf8(self.name@).len() + 6 <= usize::MAX,
        ensures
            final(enc).wf(),
            *final(final(enc).buf) == *final(old(enc).buf),
            match question_wire(self@) {
                Ok(w) => r is Ok && final(enc).wrote(old(enc), w),
                Err(e) => r == Err::<(), Error>(e) && final(enc).bytes() == old(enc).bytes()
                    && final(enc).offset == old(enc).offset,
            },
    {
        self.name.encode(enc)?;
        let ghost w = name_wire(encode_utf8(self.name@))->Ok_0;
        proof {
            lemma_labels_wire_len(encode_utf8(self.name@));
            lemma_overwrite_concat(
                old(enc).bytes(),
                old(enc).offset as int,
                w,
                be16(type_code(self.qtype)),
            );
        }
        self.qtype.encode(enc);
        proof {
            lemma_overwrite_concat(
                old(enc).bytes(),
                old(enc).offset as int,
                w + be16(type_code(self.qtype)),
                be16(class_code(self.class)),
            );
        }
        self.class.encode(enc);
        Ok(())
    }

    /// Reads the name, the type and the class.
    pub fn decode(dec: &mut Decoder) -> (r: Result<Question, Error>)
        requires
            old(dec).wf(),
        ensures
            final(dec).wf(),
            final(dec).bytes() == old(dec).bytes(),
            match parse_question(old(dec).bytes(), old(dec).pos() as int, old(dec).table()) {
                Ok((q, end, t)) => r matches Ok(x) && x@ == q && final(dec).pos() == end && final(dec).table() == t,
                Err(e) => r == Err::<Question, Error>(e),
            },
    {
        let name = Name::decode(dec)?;
        let qtype = Type::decode(dec)?;
        let class = Class::decode(dec)?;
        Ok(Question { name, qtype, class })
    }
}

/// What a resource record holds, as values.
pub struct RecordView {
    pub name: Seq<char>,
    pub rtype: Type,
    pub class: Class,
    pub ttl: u32,
    pub rdata: Seq<u8>,
}

/// A resource record. Its data length on the wire is always the length of `rdata`.
#[derive(Debug, Default, PartialEq, Clone)]
pub struct Record {
    pub name: Name,
    pub rtype: Type,
    pub class: Class,
    pub ttl: u32,
    pub rdata: Vec<u8>,
}

impl View for Record {
    type V = RecordView;

    open spec fn view(&self) -> RecordView {
        RecordView {
            name: self.name@,
            rtype: self.rtype,
            class: self.class,
            ttl: self.ttl,
            rdata: self.rdata@,
        }
    }
}

/// The wire form of a record: name, type, class, time to live, data length and data.
pub open spec fn record_wire(r: RecordView) -> Result<Seq<u8>, Error> {
    match name_wire(encode_utf8(r.name)) {
        Err(e) => Err(e),
        Ok(w) => Ok(
            w + be16(type_code(r.rtype)) + be16(class_code(r.class)) + be32(r.ttl) + be16(
                r.rdata.len() as u16,
            ) + r.rdata,
        ),
    }
}

/// Decoding a record at `o` of `buf`: name, type, class, time to live, data length, and
/// that many bytes of data.
pub open spec fn parse_record(buf: Seq<u8>, o: int, table: Map<usize, Seq<u8>>) -> Result<
    (RecordView, int, Map<usize, Seq<u8>>),
    Error,
> {
    match parse_name(buf, o, table) {
        Err(e) => Err(e),
        Ok((text, o1, t1)) => match read16(buf, o1) {
            Err(e) => Err(e),
            Ok(ty) => match read16(buf, o1 + 2) {
                Err(e) => Err(e),
                Ok(cl) => match read32(buf, o1 + 4) {
                    Err(e) => Err(e),
                    Ok(ttl) => match read16(buf, o1 + 8) {
                        Err(e) => Err(e),
                        Ok(len) => match slice_outcome(buf, o1 + 10, len as int) {
                            Err(e) => Err(e),
                            Ok(data) => Ok(
                                (
                                    RecordView {
                                        name: decode_utf8(text),
                                        rtype: type_of_code(ty),
                                        class: class_of_code(cl),
                                        ttl,
                                        rdata: data,
                                    },
                                    o1 + 10 + len,
                                    t1,
                                ),
                            ),
                        },
                    },
                },
            },
        },
    }
}

impl Record {
    /// Writes the name, type, class, time to live, the length of the data and the data.
    pub fn encode(&self, enc: &mut Encoder) -> (r: Result<(), Error>)
        requires
            old(enc).wf(),
            self.rdata@.len() <= 0xFFFF,
            old(enc).offset + encode_utf8(self.name@).len() + 12 + self.rdata@.len() <= usize::MAX,
        ensures
            final(enc).wf(),
            *final(final(enc).buf) == *final(old(enc).buf),
            match record_wire(self@) {
                Ok(w) => r is Ok && final(enc).wrote(old(enc), w),
                Err(e) => r == Err::<(), Error>(e) && final(enc).bytes() == old(enc).bytes()
                    && final(enc).offset == old(enc).offset,
            },
    {
        self.name.encode(enc)?;
        let ghost b = old(enc).bytes();
        let ghost o = old(enc).offset as int;
        let ghost w0 = name_wire(encode_utf8(self.name@))->Ok_0;
        let ghost w1 = w0 + be16(type_code(self.rtype));
        let ghost w2 = w1 + be16(class_code(self.class));
        let ghost w3 = w2 + be32(self.ttl);
        let ghost w4 = w3 + be16(self.rdata@.len() as u16);
        proof {
            lemma_labels_wire_len(encode_utf8(self.name@));
            lemma_overwrite_concat(b, o, w0, be16(type_code(self.rtype)));
            lemma_overwrite_concat(b, o, w1, be16(class_code(self.class)));
            lemma_overwrite_concat(b, o, w2, be32(self.ttl));
            lemma_overwrite_concat(b, o, w3, be16(self.rdata@.len() as u16));
            lemma_overwrite_concat(b, o, w4, self.rdata@);
        }
        self.rtype.encode(enc);
        self.class.encode(enc);
        enc.write_u32(self.ttl);
        enc.write_u16(self.rdata.len() as u16);
        enc.write_slice(self.rdata.as_slice());
        Ok(())
    }

    /// Reads the name, type, class, time to live, data length, and that many bytes of data.
    pub fn decode(dec: &mut Decoder) -> (r: Result<Record, Error>)
        requires
            old(dec).wf(),
        ensures
            final(dec).wf(),
            final(dec).bytes() == old(dec).bytes(),
            match parse_record(old(dec).bytes(), old(dec).pos() as int, old(dec).table()) {
                Ok((x, end, t)) => r matches Ok(v) && v@ == x && final(dec).pos() == end && final(dec).table() == t,
                Err(e) => r == Err::<Record, Error>(e),
            },
    {
        let name = Name::decode(dec)?;
        let rtype = Type::decode(dec)?;
        let class = Class::decode(dec)?;
        let ttl = dec.read_u32()?;
        let rdlength = dec.read_u16()?;
        let data = dec.read_slice(rdlength as usize)?;
        let rdata = slice_to_vec(data);
        Ok(Record { name, rtype, class, ttl, rdata })
    }
}

/// What a message holds, as values.
pub struct MessageView {
    pub id: u16,
    pub qr: u8,
    pub opcode: u8,
    pub aa: u8,
    pub tc: u8,
    pub rd: u8,
    pub ra: u8,
    pub z: u8,
    pub rcode: u8,
    pub nscount: u16,
    pub arcount: u16,
    pub questions: Seq<QuestionView>,
    pub answers: Seq<RecordView>,
}

/// A DNS message: the header fields, the questions and the answer records. The question
/// and answer counts on the wire are the lengths of `questions` and `answers`.
#[derive(Debug, Default, PartialEq, Clone)]
pub struct Message {
    /// Transaction id, echoed from query to reply.
    pub id: u16,
    /// 1 bit: 0 for a query, 1 for a response.
    pub qr: u8,
    /// 4 bits: the kind of query.
    pub opcode: u8,
    /// 1 bit: authoritative answer.
    pub aa: u8,
    /// 1 bit: truncated.
    pub tc: u8,
    /// 1 bit: recursion desired.
    pub rd: u8,
    /// 1 bit: recursion available.
    pub ra: u8,
    /// 3 reserved bits, kept as written.
    pub z: u8,
    /// 4 bits: response code, 0 for no error.
    pub rcode: u8,
    /// Count of authority records, carried through as is.
    pub nscount: u16,
    /// Count of additional records, carried through as is.
    pub arcount: u16,
    pub questions: Vec<Question>,
    pub answers: Vec<Record>,
}

impl View for Message {
    type V = MessageView;

    open spec fn view(&self) -> MessageView {
        MessageView {
            id: self.id,
            qr: self.qr,
            opcode: self.opcode,
            aa: self.aa,
            tc: self.tc,
            rd: self.rd,
            ra: self.ra,
            z: self.z,
            rcode: self.rcode,
            nscount: self.nscount,
            arcount: self.arcount,
            questions: self.questions@.map_values(|q: Question| q@),
            answers: self.answers@.map_values(|a: Record| a@),
        }
    }
}

/// The fields of the first flag byte: qr, opcode, aa, tc, rd, with their widths.
pub open spec fn flags_first(m: MessageView) -> Seq<(u8, u8)> {
    seq![(m.qr, 1u8), (m.opcode, 4u8), (m.aa, 1u8), (m.tc, 1u8), (m.rd, 1u8)]
}

/// The fields of the second flag byte: ra, z, rcode, with their widths.
pub open spec fn flags_second(m: MessageView) -> Seq<(u8, u8)> {
    seq![(m.ra, 1u8), (m.z, 3u8), (m.rcode, 4u8)]
}

/// The widths of the fields of the first flag byte.
pub open spec fn widths_first() -> Seq<u8> {
    seq![1u8, 4u8, 1u8, 1u8, 1u8]
}

/// The widths of the fields of the second flag byte.
pub open spec fn widths_second() -> Seq<u8> {
    seq![1u8, 3u8, 4u8]
}

/// The twelve header bytes: id, the two flag bytes, and the four counts.
pub open spec fn header_wire(m: MessageView) -> Seq<u8> {
    be16(m.id) + seq![
        pack_fields(0, 0, flags_first(m))->Ok_0.0,
        pack_fields(0, 0, flags_second(m))->Ok_0.0,
    ] + be16(m.questions.len() as u16) + be16(m.answers.len() as u16) + be16(m.nscount) + be16(
        m.arcount,
    )
}

/// The questions on the wire, in order; or the error of the first that cannot be written.
pub open spec fn questions_wire(qs: Seq<QuestionView>) -> Result<Seq<u8>, Error>
    decreases qs.len(),
{
    if qs.len() == 0 {
        Ok(Seq::empty())
    } else {
        match questions_wire(qs.drop_last()) {
            Err(e) => Err(e),
            Ok(w) => match question_wire(qs.last()) {
                Err(e) => Err(e),
                Ok(x) => Ok(w + x),
            },
        }
    }
}

/// The records on the wire, in order; or the error of the first that cannot be written.
pub open spec fn records_wire(rs: Seq<RecordView>) -> Result<Seq<u8>, Error>
    decreases rs.len(),
{
    if rs.len() == 0 {
        Ok(Seq::empty())
    } else {
        match records_wire(rs.drop_last()) {
            Err(e) => Err(e),
            Ok(w) => match record_wire(rs.last()) {
                Err(e) => Err(e),
                Ok(x) => Ok(w + x),
            },
        }
    }
}

/// The wire form of a message: header, questions, answers.
pub open spec fn message_wire(m: MessageView) -> Result<Seq<u8>, Error> {
    match questions_wire(m.questions) {
        Err(e) => Err(e),
        Ok(qw) => match records_wire(m.answers) {
            Err(e) => Err(e),
            Ok(rw) => Ok(header_wire(m) + qw + rw),
        },
    }
}

/// A bound on the bytes that the questions take on the wire.
pub open spec fn questions_size(qs: Seq<QuestionView>) -> int
    decreases qs.len(),
{
    if qs.len() == 0 {
        0
    } else {
        encode_utf8(qs[0].name).len() + 6 + questions_size(qs.drop_first())
    }
}

/// A bound on the bytes that the records take on the wire.
pub open spec fn records_size(rs: Seq<RecordView>) -> int
    decreases rs.len(),
{
    if rs.len() == 0 {
        0
    } else {
        encode_utf8(rs[0].name).len() + 12 + rs[0].rdata.len() + records_size(rs.drop_first())
    }
}

/// Decoding `n` questions one after another from `o` of `buf`.
pub open spec fn parse_questions(buf: Seq<u8>, o: int, table: Map<usize, Seq<u8>>, n: nat) -> Result<
    (Seq<QuestionView>, int, Map<usize, Seq<u8>>),
    Error,
>
    decreases n,
{
    if n == 0 {
        Ok((Seq::empty(), o, table))
    } else {
        match parse_questions(buf, o, table, (n - 1) as nat) {
            Err(e) => Err(e),
            Ok((qs, o1, t1)) => match parse_question(buf, o1, t1) {
                Err(e) => Err(e),
                Ok((q, o2, t2)) => Ok((qs.push(q), o2, t2)),
            },
        }
    }
}

/// Decoding `n` records one after another from `o` of `buf`.
pub open spec fn parse_records(buf: Seq<u8>, o: int, table: Map<usize, Seq<u8>>, n: nat) -> Result<
    (Seq<RecordView>, int, Map<usize, Seq<u8>>),
    Error,
>
    decreases n,
{
    if n == 0 {
        Ok((Seq::empty(), o, table))
    } else {
        match parse_records(buf, o, table, (n - 1) as nat) {
            Err(e) => Err(e),
            Ok((rs, o1, t1)) => match parse_record(buf, o1, t1) {
                Err(e) => Err(e),
                Ok((r, o2, t2)) => Ok((rs.push(r), o2, t2)),
            },
        }
    }
}

/// Decoding a message at `o` of `buf`: the header, then as many questions and answer
/// records as its counts give; or the first error.
pub open spec fn parse_message(buf: Seq<u8>, o: int, table: Map<usize, Seq<u8>>) -> Result<
    (MessageView, int, Map<usize, Seq<u8>>),
    Error,
> {
    match read16(buf, o) {
        Err(e) => Err(e),
        Ok(id) => match slice_outcome(buf, o + 2, 1) {
            Err(e) => Err(e),
            Ok(b1) => match unpack_fields(b1[0], 0, widths_first()) {
                Err(e) => Err(e),
                Ok(f1) => match slice_outcome(buf, o + 3, 1) {
                    Err(e) => Err(e),
                    Ok(b2) => match unpack_fields(b2[0], 0, widths_second()) {
                        Err(e) => Err(e),
                        Ok(f2) => match read16(buf, o + 4) {
                            Err(e) => Err(e),
                            Ok(qd) => match read16(buf, o + 6) {
                                Err(e) => Err(e),
                                Ok(an) => match read16(buf, o + 8) {
                                    Err(e) => Err(e),
                                    Ok(ns) => match read16(buf, o + 10) {
                                        Err(e) => Err(e),
                                        Ok(ar) => match parse_questions(
                                            buf,
                                            o + 12,
                                            table,
                                            qd as nat,
                                        ) {
                                            Err(e) => Err(e),
                                            Ok((qs, o1, t1)) => match parse_records(
                                                buf,
                                                o1,
                                                t1,
                                                an as nat,
                                            ) {
                                                Err(e) => Err(e),
                                                Ok((rs, o2, t2)) => Ok(
                                                    (
                                                        MessageView {
                                                            id,
                                                            qr: f1[0],
                                                            opcode: f1[1],
                                                            aa: f1[2],
                                                            tc: f1[3],
                                                            rd: f1[4],
                                                            ra: f2[0],
                                                            z: f2[1],
                                                            rcode: f2[2],
                                                            nscount: ns,
                                                            arcount: ar,
                                                            questions: qs,
                                                            answers: rs,
                                                        },
                                                        o2,
                                                        t2,
                                                    ),
                                                ),
                                            },
                                        },
                                    },
                                },
                            },
                        },
                    },
                },
            },
        },
    }
}

proof fn lemma_questions_wire_err(qs: Seq<QuestionView>, k: int, e: Error)
    requires
        0 <= k <= qs.len(),
        questions_wire(qs.take(k)) == Err::<Seq<u8>, Error>(e),
    ensures
        questions_wire(qs) == Err::<Seq<u8>, Error>(e),
    decreases qs.len() - k,
{
    if k == qs.len() {
        assert(qs.take(k) =~= qs);
    } else {
        assert(qs.take(k + 1).drop_last() =~= qs.take(k));
        lemma_questions_wire_err(qs, k + 1, e);
    }
}

proof fn lemma_records_wire_err(rs: Seq<RecordView>, k: int, e: Error)
    requires
        0 <= k <= rs.len(),
        records_wire(rs.take(k)) == Err::<Seq<u8>, Error>(e),
    ensures
        records_wire(rs) == Err::<Seq<u8>, Error>(e),
    decreases rs.len() - k,
{
    if k == rs.len() {
        assert(rs.take(k) =~= rs);
    } else {
        assert(rs.take(k + 1).drop_last() =~= rs.take(k));
        lemma_records_wire_err(rs, k + 1, e);
    }
}

proof fn lemma_parse_questions_err(
    buf: Seq<u8>,
    o: int,
    table: Map<usize, Seq<u8>>,
    k: nat,
    n: nat,
    e: Error,
)
    requires
        k <= n,
        parse_questions(buf, o, table, k) == Err::<
            (Seq<QuestionView>, int, Map<usize, Seq<u8>>),
            Error,
        >(e),
    ensures
        parse_questions(buf, o, table, n) == Err::<
            (Seq<QuestionView>, int, Map<usize, Seq<u8>>),
            Error,
        >(e),
    decreases n - k,
{
    if k < n {
        lemma_parse_questions_err(buf, o, table, k + 1, n, e);
    }
}

proof fn lemma_parse_records_err(
    buf: Seq<u8>,
    o: int,
    table: Map<usize, Seq<u8>>,
    k: nat,
    n: nat,
    e: Error,
)
    requires
        k <= n,
        parse_records(buf, o, table, k) == Err::<
            (Seq<RecordView>, int, Map<usize, Seq<u8>>),
            Error,
        >(e),
    ensures
        parse_records(buf, o, table, n) == Err::<
            (Seq<RecordView>, int, Map<usize, Seq<u8>>),
            Error,
        >(e),
    decreases n - k,
{
    if k < n {
        lemma_parse_records_err(buf, o, table, k + 1, n, e);
    }
}

/// A name's wire form takes at most two bytes more than its text.
proof fn lemma_name_wire_len(n: Seq<char>)
    ensures
        name_wire(encode_utf8(n)) matches Ok(w) ==> w.len() <= encode_utf8(n).len() + 2,
{
    lemma_labels_wire_len(encode_utf8(n));
}

impl Message {
    /// Writes the header, every question and every answer record. The counts written are
    /// the lengths of `questions` and `answers`.
    pub fn encode(&self, enc: &mut Encoder) -> (r: Result<(), Error>)
        requires
            old(enc).wf(),
            self.questions@.len() <= 0xFFFF,
            self.answers@.len() <= 0xFFFF,
            forall|i: int|
                0 <= i < self.answers@.len() ==> (#[trigger] self.answers@[i]).rdata@.len()
                    <= 0xFFFF,
            old(enc).offset + 12 + questions_size(self@.questions) + records_size(self@.answers)
                <= usize::MAX,
        ensures
            final(enc).wf(),
            *final(final(enc).buf) == *final(old(enc).buf),
            match message_wire(self@) {
                Ok(w) => r is Ok && final(enc).wrote(old(enc), w),
                Err(e) => r == Err::<(), Error>(e),
            },
    {
        let ghost m = self@;
        let ghost b = old(enc).bytes();
        let ghost o = old(enc).offset as int;
        proof {
            lemma_questions_size_nonneg(m.questions);
            lemma_records_size_nonneg(m.answers);
        }
        let f1 = vec![(self.qr, 1u8), (self.opcode, 4u8), (self.aa, 1u8), (self.tc, 1u8), (self.rd, 1u8)];
        let f2 = vec![(self.ra, 1u8), (self.z, 3u8), (self.rcode, 4u8)];
        assert(f1@ =~= flags_first(m));
        assert(f2@ =~= flags_second(m));
        assert(pack_fields(0, 0, f1@) is Ok) by {
            reveal_with_fuel(pack_fields, 6);
        }
        assert(pack_fields(0, 0, f2@) is Ok) by {
            reveal_with_fuel(pack_fields, 4);
        }
        let ghost byte1 = pack_fields(0, 0, f1@)->Ok_0.0;
        let ghost byte2 = pack_fields(0, 0, f2@)->Ok_0.0;
        let qd: u16 = self.questions.len() as u16;
        let an: u16 = self.answers.len() as u16;
        let ghost h1 = be16(self.id);
        let ghost h2 = h1 + seq![byte1];
        let ghost h3 = h2 + seq![byte2];
        let ghost h4 = h3 + be16(qd);
        let ghost h5 = h4 + be16(an);
        let ghost h6 = h5 + be16(self.nscount);
        let ghost h7 = h6 + be16(self.arcount);
        proof {
            lemma_overwrite_concat(b, o, h1, seq![byte1]);
            lemma_overwrite_concat(b, o, h2, seq![byte2]);
            lemma_overwrite_concat(b, o, h3, be16(qd));
            lemma_overwrite_concat(b, o, h4, be16(an));
            lemma_overwrite_concat(b, o, h5, be16(self.nscount));
            lemma_overwrite_concat(b, o, h6, be16(self.arcount));
            assert(h7 =~= header_wire(m));
        }
        enc.write_u16(self.id);
        enc.write_bits(f1.as_slice())?;
        enc.write_bits(f2.as_slice())?;
        enc.write_u16(qd);
        enc.write_u16(an);
        enc.write_u16(self.nscount);
        enc.write_u16(self.arcount);
        let ghost hw = header_wire(m);
        let res = encode_questions(&self.questions, enc);
        let ghost after_questions = enc.offset;
        match res {
            Err(e) => {
                return Err(e);
            },
            Ok(()) => {},
        }
        let ghost qw = questions_wire(m.questions)->Ok_0;
        proof {
            lemma_questions_wire_len(m.questions);
            lemma_records_size_nonneg(m.answers);
            lemma_overwrite_concat(b, o, hw, qw);
        }
        let res = encode_records(&self.answers, enc);
        match res {
            Err(e) => {
                return Err(e);
            },
            Ok(()) => {},
        }
        proof {
            lemma_overwrite_concat(b, o, hw + qw, records_wire(m.answers)->Ok_0);
        }
        Ok(())
    }

    /// Reads the header, then exactly as many questions and answer records as its counts
    /// give. Fails with the first error met; nothing is returned from a failed read.
    pub fn decode(dec: &mut Decoder) -> (r: Result<Message, Error>)
        requires
            old(dec).wf(),
        ensures
            final(dec).wf(),
            final(dec).bytes() == old(dec).bytes(),
            match parse_message(old(dec).bytes(), old(dec).pos() as int, old(dec).table()) {
                Ok((m, end, t)) => r matches Ok(x) && x@ == m && final(dec).pos() == end
                    && final(dec).table() == t,
                Err(e) => r == Err::<Message, Error>(e),
            },
    {
        let id = dec.read_u16()?;
        let w1 = vec![1u8, 4u8, 1u8, 1u8, 1u8];
        assert(w1@ =~= widths_first());
        let f1 = dec.read_bits(w1.as_slice())?;
        let w2 = vec![1u8, 3u8, 4u8];
        assert(w2@ =~= widths_second());
        let f2 = dec.read_bits(w2.as_slice())?;
        proof {
            reveal_with_fuel(unpack_fields, 6);
        }
        let qdcount = dec.read_u16()?;
        let ancount = dec.read_u16()?;
        let nscount = dec.read_u16()?;
        let arcount = dec.read_u16()?;
        let questions = decode_questions(dec, qdcount)?;
        let answers = decode_records(dec, ancount)?;
        Ok(
            Message {
                id,
                qr: f1[0],
                opcode: f1[1],
                aa: f1[2],
                tc: f1[3],
                rd: f1[4],
                ra: f2[0],
                z: f2[1],
                rcode: f2[2],
                nscount,
                arcount,
                questions,
                answers,
            },
        )
    }

    /// The wire form of the message in a new buffer.
    pub fn to_bytes(&self) -> (r: Result<Vec<u8>, Error>)
        requires
            self.questions@.len() <= 0xFFFF,
            self.answers@.len() <= 0xFFFF,
            forall|i: int|
                0 <= i < self.answers@.len() ==> (#[trigger] self.answers@[i]).rdata@.len()
                    <= 0xFFFF,
            12 + questions_size(self@.questions) + records_size(self@.answers) <= usize::MAX,
        ensures
            match message_wire(self@) {
                Ok(w) => r matches Ok(v) && v@ == w,
                Err(e) => r == Err::<Vec<u8>, Error>(e),
            },
    {
        let mut buf: Vec<u8> = Vec::with_capacity(512);
        let mut enc = Encoder::new(&mut buf);
        self.encode(&mut enc)?;
        proof {
            let w = message_wire(self@)->Ok_0;
            assert(overwrite(Seq::<u8>::empty(), 0, w) =~= w);
        }
        Ok(buf)
    }

    /// Decodes the message at the start of `buf`.
    pub fn from_bytes(buf: &[u8]) -> (r: Result<Message, Error>)
        ensures
            match parse_message(buf@, 0, Map::empty()) {
                Ok((m, _, _)) => r matches Ok(x) && x@ == m,
                Err(e) => r == Err::<Message, Error>(e),
            },
    {
        let mut dec = Decoder::new(buf);
        let msg = Message::decode(&mut dec)?;
        Ok(msg)
    }
}

/// Reads `n` questions one after another.
fn decode_questions(dec: &mut Decoder, n: u16) -> (r: Result<Vec<Question>, Error>)
    requires
        old(dec).wf(),
    ensures
        final(dec).wf(),
        final(dec).bytes() == old(dec).bytes(),
        match parse_questions(old(dec).bytes(), old(dec).pos() as int, old(dec).table(), n as nat) {
            Ok((qs, end, t)) => r matches Ok(v) && v@.map_values(|q: Question| q@) == qs
                && final(dec).pos() == end && final(dec).table() == t,
            Err(e) => r == Err::<Vec<Question>, Error>(e),
        },
{
    let ghost b = old(dec).bytes();
    let ghost o = old(dec).pos() as int;
    let ghost t = old(dec).table();
    let mut out: Vec<Question> = Vec::new();
    let mut i: u16 = 0;
    assert(out@.map_values(|q: Question| q@) =~= Seq::<QuestionView>::empty());
    while i < n
        invariant
            dec.wf(),
            dec.bytes() == b,
            b == old(dec).bytes(),
            o == old(dec).pos() as int,
            t == old(dec).table(),
            0 <= i <= n,
            parse_questions(b, o, t, i as nat) == Ok::<
                (Seq<QuestionView>, int, Map<usize, Seq<u8>>),
                Error,
            >((out@.map_values(|q: Question| q@), dec.pos() as int, dec.table())),
        decreases n - i,
    {
        let res = Question::decode(dec);
        match res {
            Err(e) => {
                proof {
                    lemma_parse_questions_err(b, o, t, (i + 1) as nat, n as nat, e);
                }
                return Err(e);
            },
            Ok(q) => {
                let ghost before = out@;
                out.push(q);
                assert(out@.map_values(|x: Question| x@) =~= before.map_values(|x: Question| x@).push(
                    q@,
                ));
            },
        }
        i = i + 1;
    }
    Ok(out)
}

/// Reads `n` records one after another.
fn decode_records(dec: &mut Decoder, n: u16) -> (r: Result<Vec<Record>, Error>)
    requires
        old(dec).wf(),
    ensures
        final(dec).wf(),
        final(dec).bytes() == old(dec).bytes(),
        match parse_records(old(dec).bytes(), old(dec).pos() as int, old(dec).table(), n as nat) {
            Ok((rs, end, t)) => r matches Ok(v) && v@.map_values(|a: Record| a@) == rs
                && final(dec).pos() == end && final(dec).table() == t,
            Err(e) => r == Err::<Vec<Record>, Error>(e),
        },
{
    let ghost b = old(dec).bytes();
    let ghost o = old(dec).pos() as int;
    let ghost t = old(dec).table();
    let mut out: Vec<Record> = Vec::new();
    let mut i: u16 = 0;
    assert(out@.map_values(|a: Record| a@) =~= Seq::<RecordView>::empty());
    while i < n
        invariant
            dec.wf(),
            dec.bytes() == b,
            b == old(dec).bytes(),
            o == old(dec).pos() as int,
            t == old(dec).table(),
            0 <= i <= n,
            parse_records(b, o, t, i as nat) == Ok::<
                (Seq<RecordView>, int, Map<usize, Seq<u8>>),
                Error,
            >((out@.map_values(|a: Record| a@), dec.pos() as int, dec.table())),
        decreases n - i,
    {
        let res = Record::decode(dec);
        match res {
            Err(e) => {
                proof {
                    lemma_parse_records_err(b, o, t, (i + 1) as nat, n as nat, e);
                }
                return Err(e);
            },
            Ok(a) => {
                let ghost before = out@;
                out.push(a);
                assert(out@.map_values(|x: Record| x@) =~= before.map_values(|x: Record| x@).push(
                    a@,
                ));
            },
        }
        i = i + 1;
    }
    Ok(out)
}

proof fn lemma_questions_size_nonneg(qs: Seq<QuestionView>)
    ensures
        questions_size(qs) >= 0,
    decreases qs.len(),
{
    if qs.len() > 0 {
        lemma_questions_size_nonneg(qs.drop_first());
    }
}

proof fn lemma_records_size_nonneg(rs: Seq<RecordView>)
    ensures
        records_size(rs) >= 0,
    decreases rs.len(),
{
    if rs.len() > 0 {
        lemma_records_size_nonneg(rs.drop_first());
    }
}

/// The questions take no more room on the wire than `questions_size` says.
proof fn lemma_questions_wire_len(qs: Seq<QuestionView>)
    ensures
        questions_wire(qs) matches Ok(w) ==> w.len() <= questions_size(qs),
    decreases qs.len(),
{
    if qs.len() > 0 {
        lemma_questions_wire_len(qs.drop_last());
        lemma_name_wire_len(qs.last().name);
        lemma_questions_size_split(qs);
    }
}

/// `questions_size` of a sequence is that of all but the last, plus the last one's.
proof fn lemma_questions_size_split(qs: Seq<QuestionView>)
    requires
        qs.len() > 0,
    ensures
        questions_size(qs) == questions_size(qs.drop_last()) + encode_utf8(qs.last().name).len()
            + 6,
    decreases qs.len(),
{
    if qs.len() > 1 {
        lemma_questions_size_split(qs.drop_first());
        assert(qs.drop_first().drop_last() =~= qs.drop_last().drop_first());
    } else {
        assert(qs.drop_first() =~= Seq::<QuestionView>::empty());
        assert(qs.drop_last() =~= Seq::<QuestionView>::empty());
    }
}

/// Writes the questions one after another; stops at the first that cannot be written.
fn encode_questions(questions: &Vec<Question>, enc: &mut Encoder) -> (r: Result<(), Error>)
    requires
        old(enc).wf(),
        old(enc).offset + questions_size(questions@.map_values(|q: Question| q@)) <= usize::MAX,
    ensures
        final(enc).wf(),
        *final(final(enc).buf) == *final(old(enc).buf),
        match questions_wire(questions@.map_values(|q: Question| q@)) {
            Ok(w) => r is Ok && final(enc).wrote(old(enc), w),
            Err(e) => r == Err::<(), Error>(e),
        },
{
    let ghost qs = questions@.map_values(|q: Question| q@);
    let ghost b = old(enc).bytes();
    let ghost o = old(enc).offset as int;
    let mut i: usize = 0;
    assert(qs.take(0) =~= Seq::<QuestionView>::empty());
    assert(qs.skip(0) =~= qs);
    proof {
        lemma_overwrite_empty(b, o);
    }
    while i < questions.len()
        invariant
            qs == questions@.map_values(|q: Question| q@),
            b == old(enc).bytes(),
            o == old(enc).offset,
            0 <= o <= b.len(),
            0 <= i <= qs.len(),
            questions_wire(qs.take(i as int)) is Ok,
            enc.wrote(old(enc), questions_wire(qs.take(i as int))->Ok_0),
            enc.offset + questions_size(qs.skip(i as int)) <= usize::MAX,
            *final(enc.buf) == *final(old(enc).buf),
        decreases qs.len() - i,
    {
        let ghost pre = questions_wire(qs.take(i as int))->Ok_0;
        let q = &questions[i];
        assert(q@ == qs[i as int]);
        assert(qs.skip(i as int)[0] == qs[i as int]);
        assert(qs.skip(i as int).drop_first() =~= qs.skip(i + 1 as int));
        assert(qs.take(i + 1 as int).drop_last() =~= qs.take(i as int));
        proof {
            lemma_questions_size_nonneg(qs.skip(i + 1 as int));
        }
        let res = q.encode(enc);
        match res {
            Err(e) => {
                proof {
                    lemma_questions_wire_err(qs, i + 1, e);
                }
                return Err(e);
            },
            Ok(()) => {},
        }
        proof {
            lemma_name_wire_len(q.name@);
            lemma_overwrite_concat(b, o, pre, question_wire(q@)->Ok_0);
        }
        i = i + 1;
    }
    assert(qs.take(i as int) =~= qs);
    Ok(())
}

/// Writes the records one after another; stops at the first that cannot be written.
fn encode_records(records: &Vec<Record>, enc: &mut Encoder) -> (r: Result<(), Error>)
    requires
        old(enc).wf(),
        forall|i: int| 0 <= i < records@.len() ==> (#[trigger] records@[i]).rdata@.len() <= 0xFFFF,
        old(enc).offset + records_size(records@.map_values(|a: Record| a@)) <= usize::MAX,
    ensures
        final(enc).wf(),
        *final(final(enc).buf) == *final(old(enc).buf),
        match records_wire(records@.map_values(|a: Record| a@)) {
            Ok(w) => r is Ok && final(enc).wrote(old(enc), w),
            Err(e) => r == Err::<(), Error>(e),
        },
{
    let ghost rs = records@.map_values(|a: Record| a@);
    let ghost b = old(enc).bytes();
    let ghost o = old(enc).offset as int;
    let mut j: usize = 0;
    assert(rs.take(0) =~= Seq::<RecordView>::empty());
    assert(rs.skip(0) =~= rs);
    proof {
        lemma_overwrite_empty(b, o);
    }
    while j < records.len()
        invariant
            rs == records@.map_values(|a: Record| a@),
            b == old(enc).bytes(),
            o == old(enc).offset,
            0 <= o <= b.len(),
            0 <= j <= rs.len(),
            forall|k: int| 0 <= k < records@.len() ==> (#[trigger] records@[k]).rdata@.len() <= 0xFFFF,
            records_wire(rs.take(j as int)) is Ok,
            enc.wrote(old(enc), records_wire(rs.take(j as int))->Ok_0),
            enc.offset + records_size(rs.skip(j as int)) <= usize::MAX,
            *final(enc.buf) == *final(old(enc).buf),
        decreases rs.len() - j,
    {
        let ghost pre = records_wire(rs.take(j as int))->Ok_0;
        let a = &records[j];
        assert(a@ == rs[j as int]);
        assert(rs.skip(j as int)[0] == rs[j as int]);
        assert(rs.skip(j as int).drop_first() =~= rs.skip(j + 1 as int));
        assert(rs.take(j + 1 as int).drop_last() =~= rs.take(j as int));
        proof {
            lemma_records_size_nonneg(rs.skip(j + 1 as int));
        }
        let res = a.encode(enc);
        match res {
            Err(e) => {
                proof {
                    lemma_records_wire_err(rs, j + 1, e);
                }
                return Err(e);
            },
            Ok(()) => {},
        }
        proof {
            lemma_name_wire_len(a.name@);
            lemma_overwrite_concat(b, o, pre, record_wire(a@)->Ok_0);
        }
        j = j + 1;
    }
    assert(rs.take(j as int) =~= rs);
    Ok(())
}

} // verus!
