//! Decoding a buffer cut short: the first read that runs past the cut fails, and reports it.
use vstd::prelude::*;

use crate::encoder::slice_outcome;
use crate::error::Error;
use crate::name::parse_name;
use crate::proto::{
    parse_message, parse_question, parse_questions, parse_record, parse_records, read16, read32,
};

verus! {

/// `r` is the out-of-bounds error of a read that starts within the first `k` bytes of a
/// buffer of `k` bytes and runs past its end.
pub open spec fn cut_short<T>(r: Result<T, Error>, k: int) -> bool {
    r matches Err(Error::Read { offset, read_len, buf_len }) && buf_len == k && offset <= k
        && offset + read_len > k
}

proof fn lemma_slice_cut(buf: Seq<u8>, a: int, l: int, k: int)
    requires
        0 <= a <= k <= buf.len(),
        0 <= l <= 0xFFFF,
        k <= usize::MAX,
        a + l <= buf.len(),
    ensures
        a + l <= k ==> slice_outcome(buf.subrange(0, k), a, l) == slice_outcome(buf, a, l),
        a + l > k ==> cut_short(slice_outcome(buf.subrange(0, k), a, l), k),
{
    if a + l <= k {
        assert(buf.subrange(0, k).subrange(a, a + l) =~= buf.subrange(a, a + l));
    }
}

proof fn lemma_name_end(buf: Seq<u8>, o: int, t: Map<usize, Seq<u8>>)
    requires
        parse_name(buf, o, t) is Ok,
    ensures
        parse_name(buf, o, t)->Ok_0.1 > o,
    decreases buf.len() - o,
{
    let len = slice_outcome(buf, o, 1)->Ok_0[0];
    if len != 0 && len < 0xC0 {
        lemma_name_end(buf, o + 1 + len, t);
    }
}

proof fn lemma_question_end(buf: Seq<u8>, o: int, t: Map<usize, Seq<u8>>)
    requires
        parse_question(buf, o, t) is Ok,
    ensures
        parse_question(buf, o, t)->Ok_0.1 > o,
{
    lemma_name_end(buf, o, t);
}

proof fn lemma_record_end(buf: Seq<u8>, o: int, t: Map<usize, Seq<u8>>)
    requires
        parse_record(buf, o, t) is Ok,
    ensures
        parse_record(buf, o, t)->Ok_0.1 > o,
{
    lemma_name_end(buf, o, t);
}

proof fn lemma_name_cut(buf: Seq<u8>, o: int, t: Map<usize, Seq<u8>>, k: int)
    requires
        0 <= o <= k <= buf.len(),
        k <= usize::MAX,
        parse_name(buf, o, t) is Ok,
    ensures
        parse_name(buf, o, t) matches Ok((_, end, _)) && end > o && (if end <= k {
            parse_name(buf.subrange(0, k), o, t) == parse_name(buf, o, t)
        } else {
            cut_short(parse_name(buf.subrange(0, k), o, t), k)
        }),
    decreases buf.len() - o,
{
    let p = buf.subrange(0, k);
    let head = slice_outcome(buf, o, 1);
    lemma_name_end(buf, o, t);
    lemma_slice_cut(buf, o, 1, k);
    if o + 1 <= k {
        let len = head->Ok_0[0];
        assert(slice_outcome(p, o, 1) == head);
        if len == 0 {
        } else if len >= 0xC0 {
            lemma_slice_cut(buf, o + 1, 1, k);
        } else {
            lemma_slice_cut(buf, o + 1, len as int, k);
            lemma_name_end(buf, o + 1 + len, t);
            if o + 1 + len <= k {
                lemma_name_cut(buf, o + 1 + len, t, k);
                assert(slice_outcome(p, o + 1, len as int) == slice_outcome(buf, o + 1, len as int));
            } else {
                assert(cut_short(slice_outcome(p, o + 1, len as int), k));
            }
        }
    } else {
        assert(cut_short(slice_outcome(p, o, 1), k));
    }
}

proof fn lemma_read16_cut(buf: Seq<u8>, a: int, k: int)
    requires
        0 <= a <= k <= buf.len(),
        k <= usize::MAX,
        read16(buf, a) is Ok,
    ensures
        a + 2 <= k ==> read16(buf.subrange(0, k), a) == read16(buf, a),
        a + 2 > k ==> cut_short(read16(buf.subrange(0, k), a), k),
{
    lemma_slice_cut(buf, a, 2, k);
}

proof fn lemma_read32_cut(buf: Seq<u8>, a: int, k: int)
    requires
        0 <= a <= k <= buf.len(),
        k <= usize::MAX,
        read32(buf, a) is Ok,
    ensures
        a + 4 <= k ==> read32(buf.subrange(0, k), a) == read32(buf, a),
        a + 4 > k ==> cut_short(read32(buf.subrange(0, k), a), k),
{
    lemma_slice_cut(buf, a, 4, k);
}

proof fn lemma_question_cut(buf: Seq<u8>, o: int, t: Map<usize, Seq<u8>>, k: int)
    requires
        0 <= o <= k <= buf.len(),
        k <= usize::MAX,
        parse_question(buf, o, t) is Ok,
    ensures
        parse_question(buf, o, t) matches Ok((_, end, _)) && end > o && (if end <= k {
            parse_question(buf.subrange(0, k), o, t) == parse_question(buf, o, t)
        } else {
            cut_short(parse_question(buf.subrange(0, k), o, t), k)
        }),
{
    lemma_name_cut(buf, o, t, k);
    let (text, o1, t1) = parse_name(buf, o, t)->Ok_0;
    if o1 <= k {
        lemma_read16_cut(buf, o1, k);
        if o1 + 2 <= k {
            lemma_read16_cut(buf, o1 + 2, k);
        }
    }
}

proof fn lemma_record_cut(buf: Seq<u8>, o: int, t: Map<usize, Seq<u8>>, k: int)
    requires
        0 <= o <= k <= buf.len(),
        k <= usize::MAX,
        parse_record(buf, o, t) is Ok,
    ensures
        parse_record(buf, o, t) matches Ok((_, end, _)) && end > o && (if end <= k {
            parse_record(buf.subrange(0, k), o, t) == parse_record(buf, o, t)
        } else {
            cut_short(parse_record(buf.subrange(0, k), o, t), k)
        }),
{
    lemma_name_cut(buf, o, t, k);
    let (text, o1, t1) = parse_name(buf, o, t)->Ok_0;
    if o1 <= k {
        lemma_read16_cut(buf, o1, k);
        if o1 + 2 <= k {
            lemma_read16_cut(buf, o1 + 2, k);
            if o1 + 4 <= k {
                lemma_read32_cut(buf, o1 + 4, k);
                if o1 + 8 <= k {
                    lemma_read16_cut(buf, o1 + 8, k);
                    if o1 + 10 <= k {
                        let len = read16(buf, o1 + 8)->Ok_0;
                        lemma_slice_cut(buf, o1 + 10, len as int, k);
                    }
                }
            }
        }
    }
}

proof fn lemma_questions_cut(buf: Seq<u8>, o: int, t: Map<usize, Seq<u8>>, n: nat, k: int)
    requires
        0 <= o <= k <= buf.len(),
        k <= usize::MAX,
        parse_questions(buf, o, t, n) is Ok,
    ensures
        parse_questions(buf, o, t, n) matches Ok((_, end, _)) && end >= o && (if end <= k {
            parse_questions(buf.subrange(0, k), o, t, n) == parse_questions(buf, o, t, n)
        } else {
            cut_short(parse_questions(buf.subrange(0, k), o, t, n), k)
        }),
    decreases n,
{
    if n > 0 {
        let m = (n - 1) as nat;
        lemma_questions_cut(buf, o, t, m, k);
        let (qs, o1, t1) = parse_questions(buf, o, t, m)->Ok_0;
        lemma_question_end(buf, o1, t1);
        if o1 <= k {
            lemma_question_cut(buf, o1, t1, k);
            assert(parse_questions(buf.subrange(0, k), o, t, m) == parse_questions(buf, o, t, m));
        } else {
            assert(cut_short(parse_questions(buf.subrange(0, k), o, t, m), k));
        }
    }
}

proof fn lemma_records_cut(buf: Seq<u8>, o: int, t: Map<usize, Seq<u8>>, n: nat, k: int)
    requires
        0 <= o <= k <= buf.len(),
        k <= usize::MAX,
        parse_records(buf, o, t, n) is Ok,
    ensures
        parse_records(buf, o, t, n) matches Ok((_, end, _)) && end >= o && (if end <= k {
            parse_records(buf.subrange(0, k), o, t, n) == parse_records(buf, o, t, n)
        } else {
            cut_short(parse_records(buf.subrange(0, k), o, t, n), k)
        }),
    decreases n,
{
    if n > 0 {
        let m = (n - 1) as nat;
        lemma_records_cut(buf, o, t, m, k);
        let (rs, o1, t1) = parse_records(buf, o, t, m)->Ok_0;
        lemma_record_end(buf, o1, t1);
        if o1 <= k {
            lemma_record_cut(buf, o1, t1, k);
            assert(parse_records(buf.subrange(0, k), o, t, m) == parse_records(buf, o, t, m));
        } else {
            assert(cut_short(parse_records(buf.subrange(0, k), o, t, m), k));
        }
    }
}

/// A buffer that holds a whole message, cut short anywhere before the message ends, fails
/// to decode with the out-of-bounds error of the first read that runs past the cut: the
/// error gives the cut length as the buffer length, and a read that starts within the
/// buffer and overruns it. No message, whole or partial, comes back.
#[verifier::rlimit(100)]
pub proof fn lemma_truncated_message(buf: Seq<u8>, k: int)
    requires
        buf.len() <= usize::MAX,
        parse_message(buf, 0, Map::empty()) matches Ok((_, end, _)) && 0 <= k < end,
    ensures
        cut_short(parse_message(buf.subrange(0, k), 0, Map::empty()), k),
{
    let t0 = Map::<usize, Seq<u8>>::empty();
    let p = buf.subrange(0, k);
    lemma_read16_cut(buf, 0, k);
    if k >= 2 {
        lemma_slice_cut(buf, 2, 1, k);
        if k >= 3 {
            lemma_slice_cut(buf, 3, 1, k);
            if k >= 4 {
                lemma_read16_cut(buf, 4, k);
                if k >= 6 {
                    lemma_read16_cut(buf, 6, k);
                    if k >= 8 {
                        lemma_read16_cut(buf, 8, k);
                        if k >= 10 {
                            lemma_read16_cut(buf, 10, k);
                            if k >= 12 {
                                let qd = read16(buf, 4)->Ok_0;
                                let an = read16(buf, 6)->Ok_0;
                                lemma_questions_cut(buf, 12, t0, qd as nat, k);
                                let (qs, o1, t1) = parse_questions(buf, 12, t0, qd as nat)->Ok_0;
                                if o1 <= k {
                                    lemma_records_cut(buf, o1, t1, an as nat, k);
                                }
                            }
                        }
                    }
                }
            }
        }
    }
}

} // verus!
