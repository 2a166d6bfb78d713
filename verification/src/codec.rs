//! The persisted model image.
//!
//! A model is serialized into a self-describing byte stream — every scalar
//! a little-endian 64-bit word, every list preceded by its count, symbols
//! as UTF-8 bytes — and the stream is gzip-compressed.  The encoding is
//! paired with a parser over the same byte sequences, and decoding an
//! encoded image gives back the encoded collections exactly
//! (`lemma_image_round_trip`).

use vstd::prelude::*;
use vstd::bytes::spec_u64_to_le_bytes;
use vstd::bytes::spec_u64_from_le_bytes;
use vstd::bytes::lemma_auto_spec_u64_to_from_le_bytes;
use vstd::utf8::decode_utf8;
use vstd::utf8::encode_utf8;
use vstd::utf8::valid_utf8;
use crate::model::Unigram;
use crate::model::Bigram;
use crate::model::Trigram;

verus! {

// ---------------------------------------------------------------------
// encoders
// ---------------------------------------------------------------------
pub open spec fn enc_u64(v: u64) -> Seq<u8> {
    spec_u64_to_le_bytes(v)
}

pub open spec fn enc_i64(v: i64) -> Seq<u8> {
    enc_u64(v as u64)
}

/// A symbol: its UTF-8 byte count, then its UTF-8 bytes.
pub open spec fn enc_symbol(s: Seq<char>) -> Seq<u8> {
    enc_u64(encode_utf8(s).len() as u64) + encode_utf8(s)
}

pub open spec fn enc_symbols(ss: Seq<Seq<char>>) -> Seq<u8>
    decreases ss.len(),
{
    if ss.len() == 0 {
        Seq::<u8>::empty()
    } else {
        enc_symbol(ss[0]) + enc_symbols(ss.drop_first())
    }
}

pub open spec fn enc_unigram(u: Unigram) -> Seq<u8> {
    enc_i64(u.log_prob) + enc_u64(u.child_offset as u64) + enc_u64(u.child_count as u64)
}

pub open spec fn enc_unigrams(us: Seq<Unigram>) -> Seq<u8>
    decreases us.len(),
{
    if us.len() == 0 {
        Seq::<u8>::empty()
    } else {
        enc_unigram(us[0]) + enc_unigrams(us.drop_first())
    }
}

pub open spec fn enc_bigram(b: Bigram) -> Seq<u8> {
    enc_u64(b.dest_label as u64) + enc_i64(b.log_prob) + enc_u64(b.child_offset as u64) + enc_u64(
        b.child_count as u64,
    )
}

pub open spec fn enc_bigrams(bs: Seq<Bigram>) -> Seq<u8>
    decreases bs.len(),
{
    if bs.len() == 0 {
        Seq::<u8>::empty()
    } else {
        enc_bigram(bs[0]) + enc_bigrams(bs.drop_first())
    }
}

pub open spec fn enc_trigram(t: Trigram) -> Seq<u8> {
    enc_u64(t.dest_label as u64) + enc_i64(t.log_prob) + enc_u64(t.suffix_ref as u64)
}

pub open spec fn enc_trigrams(ts: Seq<Trigram>) -> Seq<u8>
    decreases ts.len(),
{
    if ts.len() == 0 {
        Seq::<u8>::empty()
    } else {
        enc_trigram(ts[0]) + enc_trigrams(ts.drop_first())
    }
}

/// The uncompressed image: the four collections, each behind its count.
pub open spec fn spec_image(
    symbols: Seq<Seq<char>>,
    us: Seq<Unigram>,
    bs: Seq<Bigram>,
    ts: Seq<Trigram>,
) -> Seq<u8> {
    enc_u64(symbols.len() as u64) + enc_symbols(symbols) + enc_u64(us.len() as u64) + enc_unigrams(
        us,
    ) + enc_u64(bs.len() as u64) + enc_bigrams(bs) + enc_u64(ts.len() as u64) + enc_trigrams(ts)
}

/// The sizes any model held in memory respects; the round-trip statement
/// assumes them, and `encode` establishes them of its own model.
pub open spec fn image_encodable(symbols: Seq<Seq<char>>) -> bool {
    &&& symbols.len() <= usize::MAX
    &&& forall|i: int|
        0 <= i < symbols.len() ==> (#[trigger] encode_utf8(symbols[i])).len() <= usize::MAX
}

// ---------------------------------------------------------------------
// parsers
// ---------------------------------------------------------------------
pub open spec fn parse_u64(bytes: Seq<u8>, pos: int) -> Option<(u64, int)> {
    if 0 <= pos && pos + 8 <= bytes.len() {
        Some((spec_u64_from_le_bytes(bytes.subrange(pos, pos + 8)), pos + 8))
    } else {
        None
    }
}

pub open spec fn parse_symbol(bytes: Seq<u8>, pos: int) -> Option<(Seq<char>, int)> {
    match parse_u64(bytes, pos) {
        None => None,
        Some((n, p)) => if n <= usize::MAX && p + n <= bytes.len() && valid_utf8(
            bytes.subrange(p, p + n),
        ) {
            Some((decode_utf8(bytes.subrange(p, p + n)), p + n))
        } else {
            None
        },
    }
}

pub open spec fn parse_symbols(bytes: Seq<u8>, pos: int, n: nat) -> Option<(Seq<Seq<char>>, int)>
    decreases n,
{
    if n == 0 {
        Some((Seq::<Seq<char>>::empty(), pos))
    } else {
        match parse_symbol(bytes, pos) {
            None => None,
            Some((s, p)) => match parse_symbols(bytes, p, (n - 1) as nat) {
                None => None,
                Some((ss, p2)) => Some((seq![s] + ss, p2)),
            },
        }
    }
}

pub open spec fn parse_unigram(bytes: Seq<u8>, pos: int) -> Option<(Unigram, int)> {
    match parse_u64(bytes, pos) {
        None => None,
        Some((lp, p0)) => match parse_u64(bytes, p0) {
            None => None,
            Some((off, p1)) => match parse_u64(bytes, p1) {
                None => None,
                Some((cnt, p2)) => if off <= u32::MAX && cnt <= u16::MAX {
                    Some(
                        (
                            Unigram {
                                log_prob: lp as i64,
                                child_offset: off as u32,
                                child_count: cnt as u16,
                            },
                            p2,
                        ),
                    )
                } else {
                    None
                },
            },
        },
    }
}

pub open spec fn parse_unigrams(bytes: Seq<u8>, pos: int, n: nat) -> Option<(Seq<Unigram>, int)>
    decreases n,
{
    if n == 0 {
        Some((Seq::<Unigram>::empty(), pos))
    } else {
        match parse_unigram(bytes, pos) {
            None => None,
            Some((u, p)) => match parse_unigrams(bytes, p, (n - 1) as nat) {
                None => None,
                Some((us, p2)) => Some((seq![u] + us, p2)),
            },
        }
    }
}

pub open spec fn parse_bigram(bytes: Seq<u8>, pos: int) -> Option<(Bigram, int)> {
    match parse_u64(bytes, pos) {
        None => None,
        Some((dest, p0)) => match parse_u64(bytes, p0) {
            None => None,
            Some((lp, p1)) => match parse_u64(bytes, p1) {
                None => None,
                Some((off, p2)) => match parse_u64(bytes, p2) {
                    None => None,
                    Some((cnt, p3)) => if dest <= u32::MAX && off <= u32::MAX && cnt
                        <= u16::MAX {
                        Some(
                            (
                                Bigram {
                                    dest_label: dest as u32,
                                    log_prob: lp as i64,
                                    child_offset: off as u32,
                                    child_count: cnt as u16,
                                },
                                p3,
                            ),
                        )
                    } else {
                        None
                    },
                },
            },
        },
    }
}

pub open spec fn parse_bigrams(bytes: Seq<u8>, pos: int, n: nat) -> Option<(Seq<Bigram>, int)>
    decreases n,
{
    if n == 0 {
        Some((Seq::<Bigram>::empty(), pos))
    } else {
        match parse_bigram(bytes, pos) {
            None => None,
            Some((b, p)) => match parse_bigrams(bytes, p, (n - 1) as nat) {
                None => None,
                Some((bs, p2)) => Some((seq![b] + bs, p2)),
            },
        }
    }
}

pub open spec fn parse_trigram(bytes: Seq<u8>, pos: int) -> Option<(Trigram, int)> {
    match parse_u64(bytes, pos) {
        None => None,
        Some((dest, p0)) => match parse_u64(bytes, p0) {
            None => None,
            Some((lp, p1)) => match parse_u64(bytes, p1) {
                None => None,
                Some((sref, p2)) => if dest <= u32::MAX && sref <= u32::MAX {
                    Some(
                        (
                            Trigram {
                                dest_label: dest as u32,
                                log_prob: lp as i64,
                                suffix_ref: sref as u32,
                            },
                            p2,
                        ),
                    )
                } else {
                    None
                },
            },
        },
    }
}

pub open spec fn parse_trigrams(bytes: Seq<u8>, pos: int, n: nat) -> Option<(Seq<Trigram>, int)>
    decreases n,
{
    if n == 0 {
        Some((Seq::<Trigram>::empty(), pos))
    } else {
        match parse_trigram(bytes, pos) {
            None => None,
            Some((t, p)) => match parse_trigrams(bytes, p, (n - 1) as nat) {
                None => None,
                Some((ts, p2)) => Some((seq![t] + ts, p2)),
            },
        }
    }
}

/// Parse a whole uncompressed image; the image must hold nothing else.
pub open spec fn parse_image(bytes: Seq<u8>) -> Option<
    (Seq<Seq<char>>, Seq<Unigram>, Seq<Bigram>, Seq<Trigram>),
> {
    match parse_u64(bytes, 0) {
        None => None,
        Some((nsym, q0)) => if nsym <= usize::MAX {
            match parse_symbols(bytes, q0, nsym as nat) {
                None => None,
                Some((symbols, q1)) => match parse_u64(bytes, q1) {
                    None => None,
                    Some((nu, q2)) => if nu <= usize::MAX {
                        match parse_unigrams(bytes, q2, nu as nat) {
                            None => None,
                            Some((us, q3)) => match parse_u64(bytes, q3) {
                                None => None,
                                Some((nb, q4)) => if nb <= usize::MAX {
                                    match parse_bigrams(bytes, q4, nb as nat) {
                                        None => None,
                                        Some((bs, q5)) => match parse_u64(bytes, q5) {
                                            None => None,
                                            Some((nt, q6)) => if nt <= usize::MAX {
                                                match parse_trigrams(bytes, q6, nt as nat) {
                                                    None => None,
                                                    Some((ts, q7)) => if q7 == bytes.len() {
                                                        Some((symbols, us, bs, ts))
                                                    } else {
                                                        None
                                                    },
                                                }
                                            } else {
                                                None
                                            },
                                        },
                                    }
                                } else {
                                    None
                                },
                            },
                        }
                    } else {
                        None
                    },
                },
            }
        } else {
            None
        },
    }
}

// ---------------------------------------------------------------------
// decoding an encoding gives back what was encoded
// ---------------------------------------------------------------------
/// The stream holds `piece` at offset `pos`.
pub open spec fn holds_at(bytes: Seq<u8>, pos: int, piece: Seq<u8>) -> bool {
    &&& 0 <= pos
    &&& pos + piece.len() <= bytes.len()
    &&& bytes.subrange(pos, pos + piece.len()) == piece
}

proof fn lemma_holds_at_split(bytes: Seq<u8>, pos: int, a: Seq<u8>, b: Seq<u8>)
    requires
        holds_at(bytes, pos, a + b),
    ensures
        holds_at(bytes, pos, a),
        holds_at(bytes, pos + a.len(), b),
{
    let whole = bytes.subrange(pos, pos + (a + b).len());
    assert(bytes.subrange(pos, pos + a.len()) =~= a) by {
        assert forall|i: int| 0 <= i < a.len() implies bytes.subrange(pos, pos + a.len())[i]
            == a[i] by {
            assert(whole[i] == (a + b)[i]);
        }
    }
    assert(bytes.subrange(pos + a.len(), pos + a.len() + b.len()) =~= b) by {
        assert forall|i: int|
            0 <= i < b.len() implies bytes.subrange(pos + a.len(), pos + a.len() + b.len())[i]
            == b[i] by {
            assert(whole[a.len() + i] == (a + b)[a.len() + i]);
        }
    }
}

proof fn lemma_parse_u64_at(bytes: Seq<u8>, pos: int, v: u64)
    requires
        holds_at(bytes, pos, enc_u64(v)),
    ensures
        parse_u64(bytes, pos) == Some((v, pos + 8)),
{
    lemma_auto_spec_u64_to_from_le_bytes();
}

proof fn lemma_parse_symbol_at(bytes: Seq<u8>, pos: int, s: Seq<char>)
    requires
        holds_at(bytes, pos, enc_symbol(s)),
        encode_utf8(s).len() <= usize::MAX,
    ensures
        parse_symbol(bytes, pos) == Some((s, pos + enc_symbol(s).len())),
{
    broadcast use vstd::utf8::encode_utf8_valid_utf8;
    broadcast use vstd::utf8::encode_utf8_decode_utf8;

    let eb = encode_utf8(s);
    lemma_holds_at_split(bytes, pos, enc_u64(eb.len() as u64), eb);
    lemma_auto_spec_u64_to_from_le_bytes();
    lemma_parse_u64_at(bytes, pos, eb.len() as u64);
}

proof fn lemma_parse_symbols_at(bytes: Seq<u8>, pos: int, ss: Seq<Seq<char>>)
    requires
        holds_at(bytes, pos, enc_symbols(ss)),
        forall|i: int|
            0 <= i < ss.len() ==> (#[trigger] encode_utf8(ss[i])).len() <= usize::MAX,
    ensures
        parse_symbols(bytes, pos, ss.len()) == Some((ss, pos + enc_symbols(ss).len())),
    decreases ss.len(),
{
    if ss.len() == 0 {
        assert(ss =~= Seq::<Seq<char>>::empty());
    } else {
        lemma_holds_at_split(bytes, pos, enc_symbol(ss[0]), enc_symbols(ss.drop_first()));
        lemma_parse_symbol_at(bytes, pos, ss[0]);
        assert forall|i: int|
            0 <= i < ss.drop_first().len() implies (#[trigger] encode_utf8(
            ss.drop_first()[i],
        )).len() <= usize::MAX by {
            assert(ss.drop_first()[i] == ss[i + 1]);
        }
        lemma_parse_symbols_at(bytes, pos + enc_symbol(ss[0]).len(), ss.drop_first());
        assert(seq![ss[0]] + ss.drop_first() =~= ss);
    }
}

proof fn lemma_parse_unigram_at(bytes: Seq<u8>, pos: int, u: Unigram)
    requires
        holds_at(bytes, pos, enc_unigram(u)),
    ensures
        parse_unigram(bytes, pos) == Some((u, pos + 24)),
{
    lemma_holds_at_split(
        bytes,
        pos,
        enc_i64(u.log_prob) + enc_u64(u.child_offset as u64),
        enc_u64(u.child_count as u64),
    );
    lemma_holds_at_split(bytes, pos, enc_i64(u.log_prob), enc_u64(u.child_offset as u64));
    lemma_auto_spec_u64_to_from_le_bytes();
    lemma_parse_u64_at(bytes, pos, u.log_prob as u64);
    lemma_parse_u64_at(bytes, pos + 8, u.child_offset as u64);
    lemma_parse_u64_at(bytes, pos + 16, u.child_count as u64);
    let x = u.log_prob;
    assert(((x as u64) as i64) == x) by (bit_vector);
}

proof fn lemma_parse_unigrams_at(bytes: Seq<u8>, pos: int, us: Seq<Unigram>)
    requires
        holds_at(bytes, pos, enc_unigrams(us)),
    ensures
        parse_unigrams(bytes, pos, us.len()) == Some((us, pos + enc_unigrams(us).len())),
    decreases us.len(),
{
    lemma_auto_spec_u64_to_from_le_bytes();
    if us.len() == 0 {
        assert(us =~= Seq::<Unigram>::empty());
    } else {
        lemma_holds_at_split(bytes, pos, enc_unigram(us[0]), enc_unigrams(us.drop_first()));
        lemma_parse_unigram_at(bytes, pos, us[0]);
        lemma_parse_unigrams_at(bytes, pos + 24, us.drop_first());
        assert(seq![us[0]] + us.drop_first() =~= us);
    }
}

proof fn lemma_parse_bigram_at(bytes: Seq<u8>, pos: int, b: Bigram)
    requires
        holds_at(bytes, pos, enc_bigram(b)),
    ensures
        parse_bigram(bytes, pos) == Some((b, pos + 32)),
{
    lemma_holds_at_split(
        bytes,
        pos,
        enc_u64(b.dest_label as u64) + enc_i64(b.log_prob) + enc_u64(b.child_offset as u64),
        enc_u64(b.child_count as u64),
    );
    lemma_holds_at_split(
        bytes,
        pos,
        enc_u64(b.dest_label as u64) + enc_i64(b.log_prob),
        enc_u64(b.child_offset as u64),
    );
    lemma_holds_at_split(bytes, pos, enc_u64(b.dest_label as u64), enc_i64(b.log_prob));
    lemma_auto_spec_u64_to_from_le_bytes();
    lemma_parse_u64_at(bytes, pos, b.dest_label as u64);
    lemma_parse_u64_at(bytes, pos + 8, b.log_prob as u64);
    lemma_parse_u64_at(bytes, pos + 16, b.child_offset as u64);
    lemma_parse_u64_at(bytes, pos + 24, b.child_count as u64);
    let x = b.log_prob;
    assert(((x as u64) as i64) == x) by (bit_vector);
}

proof fn lemma_parse_bigrams_at(bytes: Seq<u8>, pos: int, bs: Seq<Bigram>)
    requires
        holds_at(bytes, pos, enc_bigrams(bs)),
    ensures
        parse_bigrams(bytes, pos, bs.len()) == Some((bs, pos + enc_bigrams(bs).len())),
    decreases bs.len(),
{
    lemma_auto_spec_u64_to_from_le_bytes();
    if bs.len() == 0 {
        assert(bs =~= Seq::<Bigram>::empty());
    } else {
        lemma_holds_at_split(bytes, pos, enc_bigram(bs[0]), enc_bigrams(bs.drop_first()));
        lemma_parse_bigram_at(bytes, pos, bs[0]);
        lemma_parse_bigrams_at(bytes, pos + 32, bs.drop_first());
        assert(seq![bs[0]] + bs.drop_first() =~= bs);
    }
}

proof fn lemma_parse_trigram_at(bytes: Seq<u8>, pos: int, t: Trigram)
    requires
        holds_at(bytes, pos, enc_trigram(t)),
    ensures
        parse_trigram(bytes, pos) == Some((t, pos + 24)),
{
    lemma_holds_at_split(
        bytes,
        pos,
        enc_u64(t.dest_label as u64) + enc_i64(t.log_prob),
        enc_u64(t.suffix_ref as u64),
    );
    lemma_holds_at_split(bytes, pos, enc_u64(t.dest_label as u64), enc_i64(t.log_prob));
    lemma_auto_spec_u64_to_from_le_bytes();
    lemma_parse_u64_at(bytes, pos, t.dest_label as u64);
    lemma_parse_u64_at(bytes, pos + 8, t.log_prob as u64);
    lemma_parse_u64_at(bytes, pos + 16, t.suffix_ref as u64);
    let x = t.log_prob;
    assert(((x as u64) as i64) == x) by (bit_vector);
}

proof fn lemma_parse_trigrams_at(bytes: Seq<u8>, pos: int, ts: Seq<Trigram>)
    requires
        holds_at(bytes, pos, enc_trigrams(ts)),
    ensures
        parse_trigrams(bytes, pos, ts.len()) == Some((ts, pos + enc_trigrams(ts).len())),
    decreases ts.len(),
{
    lemma_auto_spec_u64_to_from_le_bytes();
    if ts.len() == 0 {
        assert(ts =~= Seq::<Trigram>::empty());
    } else {
        lemma_holds_at_split(bytes, pos, enc_trigram(ts[0]), enc_trigrams(ts.drop_first()));
        lemma_parse_trigram_at(bytes, pos, ts[0]);
        lemma_parse_trigrams_at(bytes, pos + 24, ts.drop_first());
        assert(seq![ts[0]] + ts.drop_first() =~= ts);
    }
}

/// Round trip: parsing an encoded image gives back exactly the collections
/// that were encoded, whatever they hold.
pub proof fn lemma_image_round_trip(
    symbols: Seq<Seq<char>>,
    us: Seq<Unigram>,
    bs: Seq<Bigram>,
    ts: Seq<Trigram>,
)
    requires
        image_encodable(symbols),
        us.len() <= usize::MAX,
        bs.len() <= usize::MAX,
        ts.len() <= usize::MAX,
    ensures
        parse_image(spec_image(symbols, us, bs, ts)) == Some((symbols, us, bs, ts)),
{
    let bytes = spec_image(symbols, us, bs, ts);
    let p0 = enc_u64(symbols.len() as u64);
    let p1 = enc_symbols(symbols);
    let p2 = enc_u64(us.len() as u64);
    let p3 = enc_unigrams(us);
    let p4 = enc_u64(bs.len() as u64);
    let p5 = enc_bigrams(bs);
    let p6 = enc_u64(ts.len() as u64);
    let p7 = enc_trigrams(ts);
    lemma_auto_spec_u64_to_from_le_bytes();
    assert(holds_at(bytes, 0, bytes)) by {
        assert(bytes.subrange(0, bytes.len() as int) =~= bytes);
    }
    assert(bytes == (p0 + p1 + p2 + p3 + p4 + p5 + p6) + p7) by {
        assert(bytes =~= (p0 + p1 + p2 + p3 + p4 + p5 + p6) + p7);
    }
    lemma_holds_at_split(bytes, 0, p0 + p1 + p2 + p3 + p4 + p5 + p6, p7);
    let o6 = (p0 + p1 + p2 + p3 + p4 + p5 + p6).len() as int;
    assert(p0 + p1 + p2 + p3 + p4 + p5 + p6 == (p0 + p1 + p2 + p3 + p4 + p5) + p6) by {
        assert(p0 + p1 + p2 + p3 + p4 + p5 + p6 =~= (p0 + p1 + p2 + p3 + p4 + p5) + p6);
    }
    lemma_holds_at_split(bytes, 0, p0 + p1 + p2 + p3 + p4 + p5, p6);
    let o5 = (p0 + p1 + p2 + p3 + p4 + p5).len() as int;
    assert(p0 + p1 + p2 + p3 + p4 + p5 == (p0 + p1 + p2 + p3 + p4) + p5) by {
        assert(p0 + p1 + p2 + p3 + p4 + p5 =~= (p0 + p1 + p2 + p3 + p4) + p5);
    }
    lemma_holds_at_split(bytes, 0, p0 + p1 + p2 + p3 + p4, p5);
    let o4 = (p0 + p1 + p2 + p3 + p4).len() as int;
    assert(p0 + p1 + p2 + p3 + p4 == (p0 + p1 + p2 + p3) + p4) by {
        assert(p0 + p1 + p2 + p3 + p4 =~= (p0 + p1 + p2 + p3) + p4);
    }
    lemma_holds_at_split(bytes, 0, p0 + p1 + p2 + p3, p4);
    let o3 = (p0 + p1 + p2 + p3).len() as int;
    assert(p0 + p1 + p2 + p3 == (p0 + p1 + p2) + p3) by {
        assert(p0 + p1 + p2 + p3 =~= (p0 + p1 + p2) + p3);
    }
    lemma_holds_at_split(bytes, 0, p0 + p1 + p2, p3);
    let o2 = (p0 + p1 + p2).len() as int;
    assert(p0 + p1 + p2 == (p0 + p1) + p2) by {
        assert(p0 + p1 + p2 =~= (p0 + p1) + p2);
    }
    lemma_holds_at_split(bytes, 0, p0 + p1, p2);
    let o1 = (p0 + p1).len() as int;
    lemma_holds_at_split(bytes, 0, p0, p1);

    lemma_parse_u64_at(bytes, 0, symbols.len() as u64);
    lemma_parse_symbols_at(bytes, 8, symbols);
    lemma_parse_u64_at(bytes, o1, us.len() as u64);
    lemma_parse_unigrams_at(bytes, o2, us);
    lemma_parse_u64_at(bytes, o3, bs.len() as u64);
    lemma_parse_bigrams_at(bytes, o4, bs);
    lemma_parse_u64_at(bytes, o5, ts.len() as u64);
    lemma_parse_trigrams_at(bytes, o6, ts);
}

// ---------------------------------------------------------------------
// appending one element extends a list encoding at its end
// ---------------------------------------------------------------------
pub proof fn lemma_enc_symbols_push(ss: Seq<Seq<char>>, s: Seq<char>)
    ensures
        enc_symbols(ss.push(s)) == enc_symbols(ss) + enc_symbol(s),
    decreases ss.len(),
{
    if ss.len() == 0 {
        assert(ss.push(s)[0] == s);
        assert(ss.push(s).drop_first() =~= Seq::<Seq<char>>::empty());
        assert(enc_symbols(ss) == Seq::<u8>::empty());
        assert(enc_symbols(ss.push(s)) == enc_symbol(s) + enc_symbols(ss.push(s).drop_first()));
        assert(enc_symbols(ss.push(s).drop_first()) == Seq::<u8>::empty());
        assert(enc_symbol(s) + Seq::<u8>::empty() =~= Seq::<u8>::empty() + enc_symbol(s));
    } else {
        assert(ss.push(s)[0] == ss[0]);
        assert(ss.push(s).drop_first() =~= ss.drop_first().push(s));
        lemma_enc_symbols_push(ss.drop_first(), s);
        assert(enc_symbol(ss[0]) + (enc_symbols(ss.drop_first()) + enc_symbol(s)) =~= (enc_symbol(
            ss[0],
        ) + enc_symbols(ss.drop_first())) + enc_symbol(s));
    }
}

pub proof fn lemma_enc_unigrams_push(us: Seq<Unigram>, u: Unigram)
    ensures
        enc_unigrams(us.push(u)) == enc_unigrams(us) + enc_unigram(u),
    decreases us.len(),
{
    if us.len() == 0 {
        assert(us.push(u)[0] == u);
        assert(us.push(u).drop_first() =~= Seq::<Unigram>::empty());
        assert(enc_unigrams(us) == Seq::<u8>::empty());
        assert(enc_unigrams(us.push(u)) == enc_unigram(u) + enc_unigrams(us.push(u).drop_first()));
        assert(enc_unigrams(us.push(u).drop_first()) == Seq::<u8>::empty());
        assert(enc_unigram(u) + Seq::<u8>::empty() =~= Seq::<u8>::empty() + enc_unigram(u));
    } else {
        assert(us.push(u)[0] == us[0]);
        assert(us.push(u).drop_first() =~= us.drop_first().push(u));
        lemma_enc_unigrams_push(us.drop_first(), u);
        assert(enc_unigram(us[0]) + (enc_unigrams(us.drop_first()) + enc_unigram(u)) =~= (
        enc_unigram(us[0]) + enc_unigrams(us.drop_first())) + enc_unigram(u));
    }
}

pub proof fn lemma_enc_bigrams_push(bs: Seq<Bigram>, b: Bigram)
    ensures
        enc_bigrams(bs.push(b)) == enc_bigrams(bs) + enc_bigram(b),
    decreases bs.len(),
{
    if bs.len() == 0 {
        assert(bs.push(b)[0] == b);
        assert(bs.push(b).drop_first() =~= Seq::<Bigram>::empty());
        assert(enc_bigrams(bs) == Seq::<u8>::empty());
        assert(enc_bigrams(bs.push(b)) == enc_bigram(b) + enc_bigrams(bs.push(b).drop_first()));
        assert(enc_bigrams(bs.push(b).drop_first()) == Seq::<u8>::empty());
        assert(enc_bigram(b) + Seq::<u8>::empty() =~= Seq::<u8>::empty() + enc_bigram(b));
    } else {
        assert(bs.push(b)[0] == bs[0]);
        assert(bs.push(b).drop_first() =~= bs.drop_first().push(b));
        lemma_enc_bigrams_push(bs.drop_first(), b);
        assert(enc_bigram(bs[0]) + (enc_bigrams(bs.drop_first()) + enc_bigram(b)) =~= (enc_bigram(
            bs[0],
        ) + enc_bigrams(bs.drop_first())) + enc_bigram(b));
    }
}

pub proof fn lemma_enc_trigrams_push(ts: Seq<Trigram>, t: Trigram)
    ensures
        enc_trigrams(ts.push(t)) == enc_trigrams(ts) + enc_trigram(t),
    decreases ts.len(),
{
    if ts.len() == 0 {
        assert(ts.push(t)[0] == t);
        assert(ts.push(t).drop_first() =~= Seq::<Trigram>::empty());
        assert(enc_trigrams(ts) == Seq::<u8>::empty());
        assert(enc_trigrams(ts.push(t)) == enc_trigram(t) + enc_trigrams(ts.push(t).drop_first()));
        assert(enc_trigrams(ts.push(t).drop_first()) == Seq::<u8>::empty());
        assert(enc_trigram(t) + Seq::<u8>::empty() =~= Seq::<u8>::empty() + enc_trigram(t));
    } else {
        assert(ts.push(t)[0] == ts[0]);
        assert(ts.push(t).drop_first() =~= ts.drop_first().push(t));
        lemma_enc_trigrams_push(ts.drop_first(), t);
        assert(enc_trigram(ts[0]) + (enc_trigrams(ts.drop_first()) + enc_trigram(t)) =~= (
        enc_trigram(ts[0]) + enc_trigrams(ts.drop_first())) + enc_trigram(t));
    }
}

} // verus!
