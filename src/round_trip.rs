//! Decoding what was encoded gives back what was written: for questions, records and whole
//! messages.
use vstd::prelude::*;
use vstd::utf8::{encode_utf8, encode_utf8_decode_utf8};

use crate::bits::{fits, lemma_fields_round_trip, total_width, values_of, widths_of};
use crate::encoder::{be16, be32, lemma_be16_round_trip, lemma_be32_round_trip, slice_outcome};
use crate::name::{lemma_name_decodes_in_place, name_wire, well_formed_name};
use crate::proto::{
    class_code, class_of_code, flags_first, flags_second, header_wire, message_wire,
    parse_message, parse_question, parse_questions, parse_record, parse_records, question_wire,
    questions_wire, record_wire, records_wire, type_code, type_of_code, widths_first,
    widths_second, Class, MessageView, QuestionView, RecordView, Type,
};

verus! {

/// The type is the one its own code names: `UNKNOWN` never carries a code that has a name.
pub open spec fn canonical_type(t: Type) -> bool {
    type_of_code(type_code(t)) == t
}

/// The class is the one its own code names: `UNKNOWN` never carries a code that has a name.
pub open spec fn canonical_class(c: Class) -> bool {
    class_of_code(class_code(c)) == c
}

/// A question that its wire form describes exactly.
pub open spec fn valid_question(q: QuestionView) -> bool {
    &&& well_formed_name(q.name)
    &&& canonical_type(q.qtype)
    &&& canonical_class(q.class)
}

/// A record that its wire form describes exactly.
pub open spec fn valid_record(r: RecordView) -> bool {
    &&& well_formed_name(r.name)
    &&& canonical_type(r.rtype)
    &&& canonical_class(r.class)
    &&& r.rdata.len() <= 0xFFFF
}

/// A message that its wire form describes exactly: counts that fit in 16 bits, flag fields
/// that fit their widths, and valid questions and records.
pub open spec fn valid_message(m: MessageView) -> bool {
    &&& m.questions.len() <= 0xFFFF
    &&& m.answers.len() <= 0xFFFF
    &&& m.qr <= 1
    &&& m.opcode <= 15
    &&& m.aa <= 1
    &&& m.tc <= 1
    &&& m.rd <= 1
    &&& m.ra <= 1
    &&& m.z <= 7
    &&& m.rcode <= 15
    &&& forall|i: int| 0 <= i < m.questions.len() ==> valid_question(#[trigger] m.questions[i])
    &&& forall|i: int| 0 <= i < m.answers.len() ==> valid_record(#[trigger] m.answers[i])
}

proof fn lemma_sub_split(buf: Seq<u8>, a: int, x: Seq<u8>, y: Seq<u8>)
    requires
        0 <= a,
        a + x.len() + y.len() <= buf.len(),
        buf.subrange(a, a + x.len() + y.len()) == x + y,
    ensures
        buf.subrange(a, a + x.len()) == x,
        buf.subrange(a + x.len(), a + x.len() + y.len()) == y,
{
    assert forall|k: int| 0 <= k < x.len() implies buf.subrange(a, a + x.len())[k] == x[k] by {
        assert(buf.subrange(a, a + x.len() + y.len())[k] == (x + y)[k]);
    }
    assert forall|k: int| 0 <= k < y.len() implies buf.subrange(
        a + x.len(),
        a + x.len() + y.len(),
    )[k] == y[k] by {
        assert(buf.subrange(a, a + x.len() + y.len())[x.len() + k] == (x + y)[x.len() + k]);
        assert(buf.subrange(a, a + x.len() + y.len())[x.len() + k] == buf[a + x.len() + k]);
        assert(buf.subrange(a + x.len(), a + x.len() + y.len())[k] == buf[a + x.len() + k]);
    }
    assert(buf.subrange(a, a + x.len()) =~= x);
    assert(buf.subrange(a + x.len(), a + x.len() + y.len()) =~= y);
}

/// A valid question written at `o` of `buf` decodes to itself and ends just past its wire
/// form.
pub proof fn lemma_question_decodes_in_place(
    buf: Seq<u8>,
    o: int,
    table: Map<usize, Seq<u8>>,
    q: QuestionView,
)
    requires
        valid_question(q),
    ensures
        question_wire(q) is Ok,
        ({
            let w = question_wire(q)->Ok_0;
            0 <= o && o + w.len() <= buf.len() && buf.subrange(o, o + w.len()) == w ==> (
            parse_question(buf, o, table) matches Ok((q2, end, _)) && q2 == q && end == o
                + w.len())
        }),
{
    lemma_name_decodes_in_place(q.name, buf, o, table);
    let nw = name_wire(encode_utf8(q.name))->Ok_0;
    let tw = be16(type_code(q.qtype));
    let cw = be16(class_code(q.class));
    let w = question_wire(q)->Ok_0;
    if 0 <= o && o + w.len() <= buf.len() && buf.subrange(o, o + w.len()) == w {
        lemma_sub_split(buf, o, nw + tw, cw);
        lemma_sub_split(buf, o, nw, tw);
        let o1 = o + nw.len();
        lemma_be16_round_trip(type_code(q.qtype));
        lemma_be16_round_trip(class_code(q.class));
        encode_utf8_decode_utf8(q.name);
        assert(slice_outcome(buf, o1, 2) == Ok::<Seq<u8>, crate::error::Error>(tw));
        assert(slice_outcome(buf, o1 + 2, 2) == Ok::<Seq<u8>, crate::error::Error>(cw));
    }
}

/// A valid record written at `o` of `buf` decodes to itself and ends just past its wire
/// form.
pub proof fn lemma_record_decodes_in_place(
    buf: Seq<u8>,
    o: int,
    table: Map<usize, Seq<u8>>,
    r: RecordView,
)
    requires
        valid_record(r),
    ensures
        record_wire(r) is Ok,
        ({
            let w = record_wire(r)->Ok_0;
            0 <= o && o + w.len() <= buf.len() && buf.subrange(o, o + w.len()) == w ==> (
            parse_record(buf, o, table) matches Ok((r2, end, _)) && r2 == r && end == o
                + w.len())
        }),
{
    lemma_name_decodes_in_place(r.name, buf, o, table);
    let nw = name_wire(encode_utf8(r.name))->Ok_0;
    let tw = be16(type_code(r.rtype));
    let cw = be16(class_code(r.class));
    let lw = be32(r.ttl);
    let dw = be16(r.rdata.len() as u16);
    let w = record_wire(r)->Ok_0;
    if 0 <= o && o + w.len() <= buf.len() && buf.subrange(o, o + w.len()) == w {
        lemma_sub_split(buf, o, nw + tw + cw + lw + dw, r.rdata);
        lemma_sub_split(buf, o, nw + tw + cw + lw, dw);
        lemma_sub_split(buf, o, nw + tw + cw, lw);
        lemma_sub_split(buf, o, nw + tw, cw);
        lemma_sub_split(buf, o, nw, tw);
        let o1 = o + nw.len();
        lemma_be16_round_trip(type_code(r.rtype));
        lemma_be16_round_trip(class_code(r.class));
        lemma_be32_round_trip(r.ttl);
        lemma_be16_round_trip(r.rdata.len() as u16);
        encode_utf8_decode_utf8(r.name);
        assert(slice_outcome(buf, o1, 2) == Ok::<Seq<u8>, crate::error::Error>(tw));
        assert(slice_outcome(buf, o1 + 2, 2) == Ok::<Seq<u8>, crate::error::Error>(cw));
        assert(slice_outcome(buf, o1 + 4, 4) == Ok::<Seq<u8>, crate::error::Error>(lw));
        assert(slice_outcome(buf, o1 + 8, 2) == Ok::<Seq<u8>, crate::error::Error>(dw));
        assert(slice_outcome(buf, o1 + 10, r.rdata.len() as int) == Ok::<
            Seq<u8>,
            crate::error::Error,
        >(r.rdata));
    }
}

/// Valid questions written one after another at `o` of `buf` decode to themselves.
pub proof fn lemma_questions_decode_in_place(
    buf: Seq<u8>,
    o: int,
    table: Map<usize, Seq<u8>>,
    qs: Seq<QuestionView>,
)
    requires
        forall|i: int| 0 <= i < qs.len() ==> valid_question(#[trigger] qs[i]),
    ensures
        questions_wire(qs) is Ok,
        ({
            let w = questions_wire(qs)->Ok_0;
            0 <= o && o + w.len() <= buf.len() && buf.subrange(o, o + w.len()) == w ==> (
            parse_questions(buf, o, table, qs.len()) matches Ok((qs2, end, _)) && qs2 == qs
                && end == o + w.len())
        }),
    decreases qs.len(),
{
    if qs.len() > 0 {
        let pre = qs.drop_last();
        assert forall|i: int| 0 <= i < pre.len() implies valid_question(#[trigger] pre[i]) by {
            assert(pre[i] == qs[i]);
        }
        lemma_questions_decode_in_place(buf, o, table, pre);
        let pw = questions_wire(pre)->Ok_0;
        lemma_question_decodes_in_place(buf, o + pw.len(), table, qs.last());
        let w = questions_wire(qs)->Ok_0;
        if 0 <= o && o + w.len() <= buf.len() && buf.subrange(o, o + w.len()) == w {
            let x = question_wire(qs.last())->Ok_0;
            lemma_sub_split(buf, o, pw, x);
            let (done, o1, t1) = parse_questions(buf, o, table, pre.len())->Ok_0;
            lemma_question_decodes_in_place(buf, o1, t1, qs.last());
            assert(done.push(qs.last()) =~= qs);
        }
    } else {
        assert(Seq::<QuestionView>::empty() =~= qs);
    }
}

/// Valid records written one after another at `o` of `buf` decode to themselves.
pub proof fn lemma_records_decode_in_place(
    buf: Seq<u8>,
    o: int,
    table: Map<usize, Seq<u8>>,
    rs: Seq<RecordView>,
)
    requires
        forall|i: int| 0 <= i < rs.len() ==> valid_record(#[trigger] rs[i]),
    ensures
        records_wire(rs) is Ok,
        ({
            let w = records_wire(rs)->Ok_0;
            0 <= o && o + w.len() <= buf.len() && buf.subrange(o, o + w.len()) == w ==> (
            parse_records(buf, o, table, rs.len()) matches Ok((rs2, end, _)) && rs2 == rs && end
                == o + w.len())
        }),
    decreases rs.len(),
{
    if rs.len() > 0 {
        let pre = rs.drop_last();
        assert forall|i: int| 0 <= i < pre.len() implies valid_record(#[trigger] pre[i]) by {
            assert(pre[i] == rs[i]);
        }
        lemma_records_decode_in_place(buf, o, table, pre);
        let pw = records_wire(pre)->Ok_0;
        lemma_record_decodes_in_place(buf, o + pw.len(), table, rs.last());
        let w = records_wire(rs)->Ok_0;
        if 0 <= o && o + w.len() <= buf.len() && buf.subrange(o, o + w.len()) == w {
            let x = record_wire(rs.last())->Ok_0;
            lemma_sub_split(buf, o, pw, x);
            let (done, o1, t1) = parse_records(buf, o, table, pre.len())->Ok_0;
            lemma_record_decodes_in_place(buf, o1, t1, rs.last());
            assert(done.push(rs.last()) =~= rs);
        }
    } else {
        assert(Seq::<RecordView>::empty() =~= rs);
    }
}

proof fn lemma_flags_round_trip(m: MessageView)
    requires
        valid_message(m),
    ensures
        crate::bits::pack_fields(0, 0, flags_first(m)) is Ok,
        crate::bits::unpack_fields(
            crate::bits::pack_fields(0, 0, flags_first(m))->Ok_0.0,
            0,
            widths_first(),
        ) == Ok::<Seq<u8>, crate::error::Error>(seq![m.qr, m.opcode, m.aa, m.tc, m.rd]),
        crate::bits::pack_fields(0, 0, flags_second(m)) is Ok,
        crate::bits::unpack_fields(
            crate::bits::pack_fields(0, 0, flags_second(m))->Ok_0.0,
            0,
            widths_second(),
        ) == Ok::<Seq<u8>, crate::error::Error>(seq![m.ra, m.z, m.rcode]),
{
    let (qr, opcode, aa, tc, rd, ra, z, rcode) = (m.qr, m.opcode, m.aa, m.tc, m.rd, m.ra, m.z, m.rcode);
    assert(fits(qr, 1) && fits(opcode, 4) && fits(aa, 1) && fits(tc, 1) && fits(rd, 1) && fits(ra, 1)
        && fits(z, 3) && fits(rcode, 4)) by (bit_vector)
        requires
            qr <= 1,
            opcode <= 15,
            aa <= 1,
            tc <= 1,
            rd <= 1,
            ra <= 1,
            z <= 7,
            rcode <= 15,
    ;
    let f1 = flags_first(m);
    let f2 = flags_second(m);
    assert(total_width(f1) == 8) by {
        reveal_with_fuel(total_width, 6);
    }
    assert(total_width(f2) == 8) by {
        reveal_with_fuel(total_width, 4);
    }
    lemma_fields_round_trip(0, f1);
    lemma_fields_round_trip(0, f2);
    assert(widths_of(f1) =~= widths_first());
    assert(values_of(f1) =~= seq![m.qr, m.opcode, m.aa, m.tc, m.rd]);
    assert(widths_of(f2) =~= widths_second());
    assert(values_of(f2) =~= seq![m.ra, m.z, m.rcode]);
}

/// The twelve header bytes of `m` at the start of `buf` read back as its id, flag bytes
/// and counts.
proof fn lemma_header_reads(buf: Seq<u8>, m: MessageView)
    requires
        buf.len() >= 12,
        buf.subrange(0, 12) == header_wire(m),
    ensures
        crate::proto::read16(buf, 0) == Ok::<u16, crate::error::Error>(m.id),
        slice_outcome(buf, 2, 1) == Ok::<Seq<u8>, crate::error::Error>(
            seq![crate::bits::pack_fields(0, 0, flags_first(m))->Ok_0.0],
        ),
        slice_outcome(buf, 3, 1) == Ok::<Seq<u8>, crate::error::Error>(
            seq![crate::bits::pack_fields(0, 0, flags_second(m))->Ok_0.0],
        ),
        crate::proto::read16(buf, 4) == Ok::<u16, crate::error::Error>(m.questions.len() as u16),
        crate::proto::read16(buf, 6) == Ok::<u16, crate::error::Error>(m.answers.len() as u16),
        crate::proto::read16(buf, 8) == Ok::<u16, crate::error::Error>(m.nscount),
        crate::proto::read16(buf, 10) == Ok::<u16, crate::error::Error>(m.arcount),
{
    let h = header_wire(m);
    let qd = m.questions.len() as u16;
    let an = m.answers.len() as u16;
    lemma_be16_round_trip(m.id);
    lemma_be16_round_trip(qd);
    lemma_be16_round_trip(an);
    lemma_be16_round_trip(m.nscount);
    lemma_be16_round_trip(m.arcount);
    assert forall|k: int| 0 <= k < 12 implies buf[k] == h[k] by {
        assert(buf.subrange(0, 12)[k] == buf[k]);
    }
    assert(buf.subrange(0, 2) =~= be16(m.id));
    assert(buf.subrange(2, 3) =~= seq![h[2]]);
    assert(buf.subrange(3, 4) =~= seq![h[3]]);
    assert(buf.subrange(4, 6) =~= be16(qd));
    assert(buf.subrange(6, 8) =~= be16(an));
    assert(buf.subrange(8, 10) =~= be16(m.nscount));
    assert(buf.subrange(10, 12) =~= be16(m.arcount));
}

/// `parse_message` when every step of it succeeds with the given results.
proof fn lemma_parse_message_steps(
    buf: Seq<u8>,
    m: MessageView,
    o1: int,
    t1: Map<usize, Seq<u8>>,
    o2: int,
    t2: Map<usize, Seq<u8>>,
)
    requires
        crate::proto::read16(buf, 0) == Ok::<u16, crate::error::Error>(m.id),
        slice_outcome(buf, 2, 1) matches Ok(b1) && crate::bits::unpack_fields(
            b1[0],
            0,
            widths_first(),
        ) == Ok::<Seq<u8>, crate::error::Error>(seq![m.qr, m.opcode, m.aa, m.tc, m.rd]),
        slice_outcome(buf, 3, 1) matches Ok(b2) && crate::bits::unpack_fields(
            b2[0],
            0,
            widths_second(),
        ) == Ok::<Seq<u8>, crate::error::Error>(seq![m.ra, m.z, m.rcode]),
        crate::proto::read16(buf, 4) == Ok::<u16, crate::error::Error>(m.questions.len() as u16),
        crate::proto::read16(buf, 6) == Ok::<u16, crate::error::Error>(m.answers.len() as u16),
        crate::proto::read16(buf, 8) == Ok::<u16, crate::error::Error>(m.nscount),
        crate::proto::read16(buf, 10) == Ok::<u16, crate::error::Error>(m.arcount),
        m.questions.len() <= 0xFFFF,
        m.answers.len() <= 0xFFFF,
        parse_questions(buf, 12, Map::empty(), m.questions.len()) == Ok::<
            (Seq<QuestionView>, int, Map<usize, Seq<u8>>),
            crate::error::Error,
        >((m.questions, o1, t1)),
        parse_records(buf, o1, t1, m.answers.len()) == Ok::<
            (Seq<RecordView>, int, Map<usize, Seq<u8>>),
            crate::error::Error,
        >((m.answers, o2, t2)),
    ensures
        parse_message(buf, 0, Map::empty()) == Ok::<
            (MessageView, int, Map<usize, Seq<u8>>),
            crate::error::Error,
        >((m, o2, t2)),
{
    assert(m.questions.len() as u16 as nat == m.questions.len());
    assert(m.answers.len() as u16 as nat == m.answers.len());
}

/// A valid message, encoded and then decoded by a reader that remembers no names yet, comes
/// back unchanged: every header field, every question and every answer record, with the
/// counts on the wire equal to the numbers of questions and answers.
#[verifier::rlimit(100)]
pub proof fn lemma_message_round_trip(m: MessageView)
    requires
        valid_message(m),
    ensures
        message_wire(m) matches Ok(w) && parse_message(w, 0, Map::empty()) matches Ok(
            (m2, end, _),
        ) && m2 == m && end == w.len(),
{
    let t0 = Map::<usize, Seq<u8>>::empty();
    lemma_questions_decode_in_place(Seq::empty(), 0, t0, m.questions);
    lemma_records_decode_in_place(Seq::empty(), 0, t0, m.answers);
    let h = header_wire(m);
    let qw = questions_wire(m.questions)->Ok_0;
    let rw = records_wire(m.answers)->Ok_0;
    let w = message_wire(m)->Ok_0;
    assert(w == h + qw + rw);
    assert(h.len() == 12);
    assert(w.subrange(0, w.len() as int) =~= h + qw + rw);
    lemma_sub_split(w, 0, h + qw, rw);
    lemma_sub_split(w, 0, h, qw);
    lemma_header_reads(w, m);
    lemma_flags_round_trip(m);
    lemma_questions_decode_in_place(w, 12, t0, m.questions);
    let (qs, o1, t1) = parse_questions(w, 12, t0, m.questions.len())->Ok_0;
    lemma_records_decode_in_place(w, o1, t1, m.answers);
    let (rs, o2, t2) = parse_records(w, o1, t1, m.answers.len())->Ok_0;
    lemma_parse_message_steps(w, m, o1, t1, o2, t2);
}

} // verus!
