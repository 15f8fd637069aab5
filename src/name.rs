//! The wire form of domain names: length-prefixed labels ended by a zero byte, or by a
//! two-byte pointer back to a name suffix read earlier.
use vstd::prelude::*;
use vstd::utf8::{
    decode_utf8, encode_utf8, encode_utf8_decode_utf8, encode_utf8_valid_utf8,
    is_char_boundary_iff_not_is_continuation_byte, valid_utf8, valid_utf8_split,
};

use crate::encoder::slice_outcome;
use crate::error::Error;

verus! {

/// The byte that separates labels in the text of a name.
pub const DOT: u8 = 46;

/// The longest label a length byte can carry.
pub const MAX_LABEL_LEN: usize = 63;

/// The pieces of `b` between dots, empty ones included: `"a..b"` gives `"a"`, `""`, `"b"`.
pub open spec fn split_dots(b: Seq<u8>) -> Seq<Seq<u8>>
    decreases b.len(),
{
    if b.len() == 0 {
        seq![Seq::empty()]
    } else {
        let pieces = split_dots(b.drop_last());
        if b.last() == DOT {
            pieces.push(Seq::empty())
        } else {
            pieces.update(pieces.len() - 1, pieces.last().push(b.last()))
        }
    }
}

/// One label on the wire: its length byte, then its bytes. An empty piece writes nothing.
pub open spec fn label_wire(piece: Seq<u8>) -> Seq<u8> {
    if piece.len() == 0 {
        Seq::empty()
    } else {
        seq![piece.len() as u8] + piece
    }
}

/// The labels of `pieces` on the wire, in order, without the closing zero byte.
pub open spec fn labels_wire(pieces: Seq<Seq<u8>>) -> Seq<u8>
    decreases pieces.len(),
{
    if pieces.len() == 0 {
        Seq::empty()
    } else {
        labels_wire(pieces.drop_last()) + label_wire(pieces.last())
    }
}

/// The length of the first piece longer than a label may be, if there is one.
pub open spec fn first_long_label(pieces: Seq<Seq<u8>>) -> Option<nat>
    decreases pieces.len(),
{
    if pieces.len() == 0 {
        None
    } else {
        match first_long_label(pieces.drop_last()) {
            Some(n) => Some(n),
            None => if pieces.last().len() > MAX_LABEL_LEN {
                Some(pieces.last().len())
            } else {
                None
            },
        }
    }
}

/// The wire form of the name whose text has the UTF-8 bytes `b`: every non-empty piece
/// between dots as a label, then a zero byte; or the error for the first label that is too
/// long.
pub open spec fn name_wire(b: Seq<u8>) -> Result<Seq<u8>, Error> {
    let pieces = split_dots(b);
    match first_long_label(pieces) {
        Some(n) => Err(Error::LabelTooLong(n as usize)),
        None => Ok(labels_wire(pieces) + seq![0u8]),
    }
}

/// Decoding the name at offset `o` of `buf`, with `table` holding the texts read before by
/// offset. The result is the text of the name as bytes (labels joined by dots), the offset
/// just past it, and the table with the text from each label of this name on recorded at
/// that label's offset; or the first error.
///
/// A length byte of zero ends the name. One whose top two bits are set starts a pointer:
/// its low six bits and the next byte give the offset of an earlier text, which ends the
/// name (an offset with no text adds nothing). Any other length byte is followed by that
/// many bytes of label, which must be valid UTF-8.
pub open spec fn parse_name(buf: Seq<u8>, o: int, table: Map<usize, Seq<u8>>) -> Result<
    (Seq<u8>, int, Map<usize, Seq<u8>>),
    Error,
>
    decreases buf.len() - o,
{
    match slice_outcome(buf, o, 1) {
        Err(e) => Err(e),
        Ok(head) => {
            let len = head[0];
            if len == 0 {
                Ok((Seq::empty(), o + 1, table))
            } else if len >= 0xC0 {
                match slice_outcome(buf, o + 1, 1) {
                    Err(e) => Err(e),
                    Ok(low) => {
                        let target = ((len - 0xC0) * 256 + low[0]) as usize;
                        let text = if table.contains_key(target) {
                            table[target]
                        } else {
                            Seq::empty()
                        };
                        Ok((text, o + 2, table))
                    },
                }
            } else {
                match slice_outcome(buf, o + 1, len as int) {
                    Err(e) => Err(e),
                    Ok(label) => if !valid_utf8(label) {
                        Err(Error::DecodeUtf8)
                    } else {
                        match parse_name(buf, o + 1 + len, table) {
                            Err(e) => Err(e),
                            Ok((rest, end, t)) => {
                                let text = if rest.len() == 0 {
                                    label
                                } else {
                                    label + seq![DOT] + rest
                                };
                                Ok((text, end, t.insert(o as usize, text)))
                            },
                        }
                    },
                }
            }
        },
    }
}

/// Once a piece that ends before `i` is too long, every longer prefix reports the same one.
pub proof fn lemma_long_label_stays(b: Seq<u8>, i: int, n: nat)
    requires
        0 <= i <= b.len(),
        first_long_label(split_dots(b.subrange(0, i)).drop_last()) == Some(n),
    ensures
        first_long_label(split_dots(b)) == Some(n),
    decreases b.len() - i,
{
    let pre = b.subrange(0, i);
    lemma_labels_wire_len(pre);
    if i == b.len() {
        assert(pre =~= b);
        assert(split_dots(b).len() >= 1);
    } else {
        let next = b.subrange(0, i + 1);
        assert(next.drop_last() =~= pre);
        lemma_labels_wire_len(pre);
        let s = split_dots(pre);
        if next.last() == DOT {
            assert(split_dots(next).drop_last() =~= s);
            assert(first_long_label(s) == Some(n));
        } else {
            assert(split_dots(next).drop_last() =~= s.drop_last());
        }
        lemma_long_label_stays(b, i + 1, n);
    }
}

/// The wire form of the labels of `b` takes at most one byte more than `b` itself (one
/// byte less when the last piece is still empty).
pub proof fn lemma_labels_wire_len(b: Seq<u8>)
    ensures
        split_dots(b).len() >= 1,
        labels_wire(split_dots(b)).len() + (if split_dots(b).last().len() == 0 {
            1int
        } else {
            0int
        }) <= b.len() + 1,
    decreases b.len(),
{
    if b.len() == 0 {
        assert(split_dots(b).drop_last() =~= Seq::<Seq<u8>>::empty());
        assert(labels_wire(split_dots(b)) == labels_wire(Seq::<Seq<u8>>::empty()) + label_wire(
            Seq::<u8>::empty(),
        ));
    } else {
        let pre = b.drop_last();
        lemma_labels_wire_len(pre);
        let s = split_dots(pre);
        let t = split_dots(b);
        if b.last() == DOT {
            assert(t.drop_last() =~= s);
            assert(t.last().len() == 0);
            assert(labels_wire(t) == labels_wire(s) + label_wire(t.last()));
        } else {
            assert(t.drop_last() =~= s.drop_last());
            assert(t.last() == s.last().push(b.last()));
            assert(label_wire(t.last()).len() == s.last().len() + 2);
            assert(labels_wire(t) == labels_wire(s.drop_last()) + label_wire(t.last()));
            assert(labels_wire(s) == labels_wire(s.drop_last()) + label_wire(s.last()));
        }
    }
}

/// The pieces joined back together with a dot between each two.
pub open spec fn join_dots(pieces: Seq<Seq<u8>>) -> Seq<u8>
    decreases pieces.len(),
{
    if pieces.len() == 0 {
        Seq::empty()
    } else if pieces.len() == 1 {
        pieces[0]
    } else {
        join_dots(pieces.drop_last()) + seq![DOT] + pieces.last()
    }
}

/// A name whose text is empty, or whose every piece between dots is a label of 1 to 63
/// bytes.
pub open spec fn well_formed_name(n: Seq<char>) -> bool {
    let b = encode_utf8(n);
    b.len() == 0 || forall|i: int|
        0 <= i < split_dots(b).len() ==> 1 <= #[trigger] split_dots(b)[i].len() <= MAX_LABEL_LEN
}

proof fn lemma_join_split(b: Seq<u8>)
    ensures
        join_dots(split_dots(b)) == b,
    decreases b.len(),
{
    if b.len() > 0 {
        let pre = b.drop_last();
        lemma_join_split(pre);
        lemma_labels_wire_len(pre);
        let s = split_dots(pre);
        let t = split_dots(b);
        if b.last() == DOT {
            assert(t.drop_last() =~= s);
            assert(join_dots(t) =~= b);
        } else {
            assert(t.last() == s.last().push(b.last()));
            assert(b =~= pre.push(b.last()));
            if s.len() == 1 {
                assert(join_dots(t) =~= b);
            } else {
                assert(t.drop_last() =~= s.drop_last());
                assert(join_dots(s) == join_dots(s.drop_last()) + seq![DOT] + s.last());
                assert(join_dots(t) == join_dots(t.drop_last()) + seq![DOT] + t.last());
                assert(join_dots(t) =~= b);
            }
        }
    }
}

proof fn lemma_join_front(pieces: Seq<Seq<u8>>)
    requires
        pieces.len() >= 2,
    ensures
        join_dots(pieces) == pieces[0] + seq![DOT] + join_dots(pieces.drop_first()),
    decreases pieces.len(),
{
    if pieces.len() == 2 {
        assert(pieces.drop_last() =~= seq![pieces[0]]);
        assert(pieces.drop_first() =~= seq![pieces[1]]);
        assert(join_dots(pieces) =~= pieces[0] + seq![DOT] + join_dots(pieces.drop_first()));
    } else {
        lemma_join_front(pieces.drop_last());
        let rest = pieces.drop_first();
        assert(rest.drop_last() =~= pieces.drop_last().drop_first());
        assert(rest.last() == pieces.last());
        assert(join_dots(rest) == join_dots(rest.drop_last()) + seq![DOT] + rest.last());
        assert(join_dots(pieces) == join_dots(pieces.drop_last()) + seq![DOT] + pieces.last());
        assert(join_dots(pieces) =~= pieces[0] + seq![DOT] + join_dots(pieces.drop_first()));
    }
}

proof fn lemma_wire_front(pieces: Seq<Seq<u8>>)
    requires
        pieces.len() >= 1,
    ensures
        labels_wire(pieces) == label_wire(pieces[0]) + labels_wire(pieces.drop_first()),
    decreases pieces.len(),
{
    if pieces.len() == 1 {
        assert(pieces.drop_last() =~= Seq::<Seq<u8>>::empty());
        assert(pieces.drop_first() =~= Seq::<Seq<u8>>::empty());
        assert(labels_wire(pieces) =~= label_wire(pieces[0]) + labels_wire(pieces.drop_first()));
    } else {
        lemma_wire_front(pieces.drop_last());
        assert(pieces.drop_first().drop_last() =~= pieces.drop_last().drop_first());
        assert(labels_wire(pieces) =~= label_wire(pieces[0]) + labels_wire(pieces.drop_first()));
    }
}

/// Every piece of valid UTF-8 text cut at its dots is valid UTF-8.
proof fn lemma_pieces_utf8(pieces: Seq<Seq<u8>>)
    requires
        pieces.len() >= 1,
        valid_utf8(join_dots(pieces)),
    ensures
        forall|i: int| 0 <= i < pieces.len() ==> valid_utf8(#[trigger] pieces[i]),
    decreases pieces.len(),
{
    if pieces.len() >= 2 {
        let head = join_dots(pieces.drop_last());
        let last = pieces.last();
        let b = join_dots(pieces);
        let k = head.len() as int;
        assert(b[k] == DOT);
        is_char_boundary_iff_not_is_continuation_byte(b, k);
        valid_utf8_split(b, k);
        assert(b.subrange(0, k) =~= head);
        let tail = b.subrange(k, b.len() as int);
        assert(tail =~= seq![DOT] + last);
        assert(tail.subrange(1, tail.len() as int) =~= last);
        lemma_pieces_utf8(pieces.drop_last());
        assert forall|i: int| 0 <= i < pieces.len() implies valid_utf8(#[trigger] pieces[i]) by {
            if i < pieces.len() - 1 {
                assert(pieces[i] == pieces.drop_last()[i]);
            }
        }
    }
}

proof fn lemma_short_labels(pieces: Seq<Seq<u8>>)
    requires
        forall|i: int| 0 <= i < pieces.len() ==> (#[trigger] pieces[i]).len() <= MAX_LABEL_LEN,
    ensures
        first_long_label(pieces) is None,
    decreases pieces.len(),
{
    if pieces.len() > 0 {
        let pre = pieces.drop_last();
        assert forall|i: int| 0 <= i < pre.len() implies (#[trigger] pre[i]).len()
            <= MAX_LABEL_LEN by {
            assert(pre[i] == pieces[i]);
        }
        lemma_short_labels(pre);
    }
}

/// Labels of 1 to 63 valid UTF-8 bytes each, laid out at offset `o` of `buf` with the
/// closing zero byte, decode to their text joined by dots.
proof fn lemma_parse_labels(
    buf: Seq<u8>,
    o: int,
    table: Map<usize, Seq<u8>>,
    pieces: Seq<Seq<u8>>,
)
    requires
        pieces.len() >= 1,
        forall|i: int|
            0 <= i < pieces.len() ==> 1 <= (#[trigger] pieces[i]).len() <= MAX_LABEL_LEN
                && valid_utf8(pieces[i]),
        0 <= o,
        o + labels_wire(pieces).len() + 1 <= buf.len(),
        buf.subrange(o, o + labels_wire(pieces).len() + 1) == labels_wire(pieces) + seq![0u8],
    ensures
        parse_name(buf, o, table) matches Ok((text, end, _)) && text == join_dots(pieces) && end
            == o + labels_wire(pieces).len() + 1,
    decreases pieces.len(),
{
    let w = labels_wire(pieces) + seq![0u8];
    let p = pieces[0];
    let rest = pieces.drop_first();
    lemma_wire_front(pieces);
    let len = p.len();
    assert(w[0] == len as u8);
    assert(buf[o] == w[0]) by {
        assert(buf.subrange(o, o + w.len())[0] == buf[o]);
    }
    assert(buf.subrange(o, o + 1)[0] == buf[o]);
    assert(buf.subrange(o + 1, o + 1 + len) =~= p) by {
        assert forall|j: int| 0 <= j < len implies buf.subrange(o + 1, o + 1 + len)[j] == p[j] by {
            assert(buf.subrange(o, o + w.len())[1 + j] == w[1 + j]);
        }
    }
    let o2 = o + 1 + len;
    let w2 = labels_wire(rest) + seq![0u8];
    assert(buf.subrange(o2, o2 + w2.len()) =~= w2) by {
        assert forall|j: int| 0 <= j < w2.len() implies buf.subrange(o2, o2 + w2.len())[j]
            == w2[j] by {
            assert(buf.subrange(o, o + w.len())[1 + len + j] == w[1 + len + j]);
        }
    }
    if rest.len() == 0 {
        assert(labels_wire(rest) =~= Seq::<u8>::empty());
        assert(buf[o2] == 0u8) by {
            assert(buf.subrange(o2, o2 + w2.len())[0] == buf[o2]);
        }
        assert(buf.subrange(o2, o2 + 1)[0] == buf[o2]);
    } else {
        assert forall|i: int|
            0 <= i < rest.len() implies 1 <= (#[trigger] rest[i]).len() <= MAX_LABEL_LEN
            && valid_utf8(rest[i]) by {
            assert(rest[i] == pieces[i + 1]);
        }
        lemma_parse_labels(buf, o2, table, rest);
        lemma_join_front(pieces);
        if rest.len() >= 2 {
            lemma_join_front(rest);
        }
        assert(join_dots(rest).len() >= 1);
    }
}

/// A well-formed name has a wire form, and wherever that wire form stands in a buffer,
/// decoding from its first byte gives back the UTF-8 bytes of the name and ends just past it,
/// whatever texts the reader remembers.
pub proof fn lemma_name_decodes_in_place(
    n: Seq<char>,
    buf: Seq<u8>,
    o: int,
    table: Map<usize, Seq<u8>>,
)
    requires
        well_formed_name(n),
    ensures
        name_wire(encode_utf8(n)) is Ok,
        ({
            let w = name_wire(encode_utf8(n))->Ok_0;
            0 <= o && o + w.len() <= buf.len() && buf.subrange(o, o + w.len()) == w ==> (parse_name(
                buf,
                o,
                table,
            ) matches Ok((text, end, _)) && text == encode_utf8(n) && end == o + w.len())
        }),
{
    let b = encode_utf8(n);
    let pieces = split_dots(b);
    lemma_labels_wire_len(b);
    lemma_join_split(b);
    if b.len() == 0 {
        assert(pieces =~= seq![Seq::<u8>::empty()]);
    }
    lemma_short_labels(pieces);
    if b.len() == 0 {
        assert(pieces.drop_last() =~= Seq::<Seq<u8>>::empty());
        assert(labels_wire(pieces) =~= Seq::<u8>::empty());
        let w = labels_wire(pieces) + seq![0u8];
        if 0 <= o && o + w.len() <= buf.len() && buf.subrange(o, o + w.len()) == w {
            assert(buf.subrange(o, o + 1)[0] == buf[o]);
            assert(buf.subrange(o, o + w.len())[0] == buf[o]);
            assert(Seq::<u8>::empty() =~= b);
        }
    } else {
        encode_utf8_valid_utf8(n);
        lemma_pieces_utf8(pieces);
        let w = labels_wire(pieces) + seq![0u8];
        if 0 <= o && o + w.len() <= buf.len() && buf.subrange(o, o + w.len()) == w {
            lemma_parse_labels(buf, o, table, pieces);
        }
    }
}

/// A well-formed name, written in its wire form and read back by a reader that remembers
/// nothing yet, gives back its own text.
pub proof fn lemma_name_round_trip(n: Seq<char>)
    requires
        well_formed_name(n),
    ensures
        name_wire(encode_utf8(n)) matches Ok(w) && parse_name(
            w,
            0,
            Map::empty(),
        ) matches Ok((text, end, _)) && decode_utf8(text) == n && end == w.len(),
{
    let w = name_wire(encode_utf8(n))->Ok_0;
    lemma_name_decodes_in_place(n, w, 0, Map::empty());
    assert(w.subrange(0, w.len() as int) =~= w);
    encode_utf8_decode_utf8(n);
}

/// A name read at `k` that starts with a label leaves its whole text recorded at `k`.
pub proof fn lemma_name_is_recorded(buf: Seq<u8>, k: int, table: Map<usize, Seq<u8>>)
    requires
        0 <= k < buf.len(),
        0 < buf[k] < 0xC0,
        parse_name(buf, k, table) is Ok,
    ensures
        parse_name(buf, k, table) matches Ok((text, _, t)) && t.contains_key(k as usize) && t[k
            as usize] == text,
{
}

/// A second occurrence of a name, replaced on the wire by the two-byte pointer
/// `0xC0 | (k >> 8), k & 0xFF` to the offset `k` at which the name was read the first time,
/// decodes to the full text of that name, as long as the reader still remembers what it
/// recorded at `k`.
pub proof fn lemma_pointer_to_earlier_name(
    buf: Seq<u8>,
    k: int,
    table: Map<usize, Seq<u8>>,
    o: int,
    later: Map<usize, Seq<u8>>,
)
    requires
        0 <= k < 0x4000,
        k < buf.len(),
        0 < buf[k] < 0xC0,
        parse_name(buf, k, table) is Ok,
        0 <= o,
        o + 2 <= buf.len(),
        buf[o] == 0xC0 + k / 256,
        buf[o + 1] == k % 256,
        later.contains_key(k as usize),
        later[k as usize] == parse_name(buf, k, table)->Ok_0.2[k as usize],
    ensures
        parse_name(buf, o, later) == Ok::<(Seq<u8>, int, Map<usize, Seq<u8>>), Error>(
            (parse_name(buf, k, table)->Ok_0.0, o + 2, later),
        ),
{
    lemma_name_is_recorded(buf, k, table);
    assert(buf.subrange(o, o + 1)[0] == buf[o]);
    assert(buf.subrange(o + 1, o + 2)[0] == buf[o + 1]);
    assert(((buf[o] - 0xC0) * 256 + buf[o + 1]) as usize == k as usize);
}

} // verus!
