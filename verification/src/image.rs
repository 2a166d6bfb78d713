//! Writing and reading the compressed model image.
//!
//! `write_image` serializes the model (see `codec`) and gzip-compresses
//! the stream; `read_image` decompresses and parses it back.  The byte
//! codec is verified; compression goes through flate2 behind the trusted
//! wrappers below.

use std::io::Read;
use std::io::Write;
use vstd::prelude::*;
use vstd::utf8::encode_utf8;
use vstd::utf8::valid_utf8;
use crate::codec::enc_u64;
use crate::codec::enc_symbol;
use crate::codec::enc_symbols;
use crate::codec::enc_unigram;
use crate::codec::enc_unigrams;
use crate::codec::enc_bigram;
use crate::codec::enc_bigrams;
use crate::codec::enc_trigram;
use crate::codec::enc_trigrams;
use crate::codec::image_encodable;
use crate::codec::lemma_enc_symbols_push;
use crate::codec::lemma_enc_unigrams_push;
use crate::codec::lemma_enc_bigrams_push;
use crate::codec::lemma_enc_trigrams_push;
use crate::codec::parse_u64;
use crate::codec::parse_symbol;
use crate::codec::parse_symbols;
use crate::codec::parse_unigram;
use crate::codec::parse_unigrams;
use crate::codec::parse_bigram;
use crate::codec::parse_bigrams;
use crate::codec::parse_trigram;
use crate::codec::parse_trigrams;
use crate::codec::parse_image;
use crate::codec::spec_image;
use crate::model::LanguageModel;
use crate::model::Unigram;
use crate::model::Bigram;
use crate::model::Trigram;
use crate::symt::SymbolTable;

verus! {

/// What flate2's gzip encoder produces for the given bytes.  The encoder
/// is used with the default level and the default (fixed, timestamp-free)
/// header, so its output depends on the input bytes alone.
pub uninterp spec fn gzip_of(data: Seq<u8>) -> Seq<u8>;

/// Relies on flate2::write::GzEncoder (default level, default header):
/// compresses the bytes; writing into a `Vec` cannot fail.
#[verifier::external_body]
fn gzip_compress(data: &Vec<u8>) -> (r: Vec<u8>)
    ensures
        r@ == gzip_of(data@),
{
    let mut enc = flate2::write::GzEncoder::new(Vec::new(), flate2::Compression::default());
    enc.write_all(data).unwrap();
    enc.finish().unwrap()
}

/// Relies on flate2::read::GzDecoder: gzip is lossless, so decoding a
/// stream the encoder produced gives back exactly the bytes that were
/// encoded; a corrupt stream is reported as an error.
#[verifier::external_body]
fn gzip_decompress(data: &Vec<u8>) -> (r: Option<Vec<u8>>)
    ensures
        forall|orig: Seq<u8>|
            data@ == gzip_of(orig) ==> match r {
                Some(v) => v@ == orig,
                None => false,
            },
{
    let mut out = Vec::new();
    let mut dec = flate2::read::GzDecoder::new(data.as_slice());
    match dec.read_to_end(&mut out) {
        Ok(_) => Some(out),
        Err(_) => None,
    }
}

/// Relies on String::from_utf8: builds the string holding exactly the
/// given bytes when they are valid UTF-8, and fails exactly otherwise.
#[verifier::external_body]
fn string_from_utf8(v: Vec<u8>) -> (r: Option<String>)
    ensures
        match r {
            Some(s) => encode_utf8(s@) == v@,
            None => !valid_utf8(v@),
        },
{
    String::from_utf8(v).ok()
}

/// Append one little-endian 64-bit word.
fn push_u64(out: &mut Vec<u8>, v: u64)
    ensures
        final(out)@ == old(out)@ + enc_u64(v),
{
    let mut b = vstd::bytes::u64_to_le_bytes(v);
    out.append(&mut b);
}

/// Read one little-endian 64-bit word.
fn read_u64_at(data: &Vec<u8>, pos: usize) -> (r: Option<(u64, usize)>)
    ensures
        match (r, parse_u64(data@, pos as int)) {
            (Some(rp), Some(sp)) => rp.0 == sp.0 && rp.1 as int == sp.1,
            (None, None) => true,
            _ => false,
        },
{
    let n = data.len();
    if n >= 8 && pos <= n - 8 {
        let s = vstd::slice::slice_subrange(data.as_slice(), pos, pos + 8);
        let v = vstd::bytes::u64_from_le_bytes(s);
        Some((v, pos + 8))
    } else {
        None
    }
}

/// Read one length-prefixed UTF-8 symbol.
fn read_symbol_at(data: &Vec<u8>, pos: usize) -> (r: Option<(String, usize)>)
    ensures
        match (r, parse_symbol(data@, pos as int)) {
            (Some(rp), Some(sp)) => rp.0@ == sp.0 && rp.1 as int == sp.1,
            (None, None) => true,
            _ => false,
        },
{
    broadcast use vstd::utf8::encode_utf8_decode_utf8;
    broadcast use vstd::utf8::encode_utf8_valid_utf8;

    match read_u64_at(data, pos) {
        None => None,
        Some((n, p)) => {
            if n > usize::MAX as u64 {
                return None;
            }
            let nu = n as usize;
            let dl = data.len();
            if nu > dl || p > dl - nu {
                return None;
            }
            let sl = vstd::slice::slice_subrange(data.as_slice(), p, p + nu);
            let bv = vstd::slice::slice_to_vec(sl);
            match string_from_utf8(bv) {
                Some(s) => Some((s, p + nu)),
                None => None,
            }
        },
    }
}

/// Read one unigram record.
fn read_unigram_at(data: &Vec<u8>, pos: usize) -> (r: Option<(Unigram, usize)>)
    ensures
        match (r, parse_unigram(data@, pos as int)) {
            (Some(rp), Some(sp)) => rp.0 == sp.0 && rp.1 as int == sp.1,
            (None, None) => true,
            _ => false,
        },
{
    match read_u64_at(data, pos) {
        None => None,
        Some((lp, p0)) => match read_u64_at(data, p0) {
            None => None,
            Some((off, p1)) => match read_u64_at(data, p1) {
                None => None,
                Some((cnt, p2)) => {
                    if off > u32::MAX as u64 || cnt > u16::MAX as u64 {
                        return None;
                    }
                    Some(
                        (
                            Unigram {
                                log_prob: #[verifier::truncate] (lp as i64),
                                child_offset: #[verifier::truncate] (off as u32),
                                child_count: #[verifier::truncate] (cnt as u16),
                            },
                            p2,
                        ),
                    )
                },
            },
        },
    }
}

/// Read one bigram record.
fn read_bigram_at(data: &Vec<u8>, pos: usize) -> (r: Option<(Bigram, usize)>)
    ensures
        match (r, parse_bigram(data@, pos as int)) {
            (Some(rp), Some(sp)) => rp.0 == sp.0 && rp.1 as int == sp.1,
            (None, None) => true,
            _ => false,
        },
{
    match read_u64_at(data, pos) {
        None => None,
        Some((dest, p0)) => match read_u64_at(data, p0) {
            None => None,
            Some((lp, p1)) => match read_u64_at(data, p1) {
                None => None,
                Some((off, p2)) => match read_u64_at(data, p2) {
                    None => None,
                    Some((cnt, p3)) => {
                        if dest > u32::MAX as u64 || off > u32::MAX as u64 || cnt > u16::MAX
                            as u64 {
                            return None;
                        }
                        Some(
                            (
                                Bigram {
                                    dest_label: #[verifier::truncate] (dest as u32),
                                    log_prob: #[verifier::truncate] (lp as i64),
                                    child_offset: #[verifier::truncate] (off as u32),
                                    child_count: #[verifier::truncate] (cnt as u16),
                                },
                                p3,
                            ),
                        )
                    },
                },
            },
        },
    }
}

/// Read one trigram record.
fn read_trigram_at(data: &Vec<u8>, pos: usize) -> (r: Option<(Trigram, usize)>)
    ensures
        match (r, parse_trigram(data@, pos as int)) {
            (Some(rp), Some(sp)) => rp.0 == sp.0 && rp.1 as int == sp.1,
            (None, None) => true,
            _ => false,
        },
{
    match read_u64_at(data, pos) {
        None => None,
        Some((dest, p0)) => match read_u64_at(data, p0) {
            None => None,
            Some((lp, p1)) => match read_u64_at(data, p1) {
                None => None,
                Some((sref, p2)) => {
                    if dest > u32::MAX as u64 || sref > u32::MAX as u64 {
                        return None;
                    }
                    Some(
                        (
                            Trigram {
                                dest_label: #[verifier::truncate] (dest as u32),
                                log_prob: #[verifier::truncate] (lp as i64),
                                suffix_ref: #[verifier::truncate] (sref as u32),
                            },
                            p2,
                        ),
                    )
                },
            },
        },
    }
}

/// No two symbols of the list are the same string.
pub open spec fn symbols_distinct(ss: Seq<Seq<char>>) -> bool {
    forall|i: int, j: int| 0 <= i < j < ss.len() ==> ss[i] != ss[j]
}

impl LanguageModel {
    /// Serialize the model into the uncompressed image.
    #[verifier::loop_isolation(false)]
    fn encode(&self) -> (r: Vec<u8>)
        ensures
            r@ == spec_image(self.symt@, self.unigrams@, self.bigrams@, self.trigrams@),
            image_encodable(self.symt@),
            self.unigrams@.len() <= usize::MAX,
            self.bigrams@.len() <= usize::MAX,
            self.trigrams@.len() <= usize::MAX,
    {
        let mut out: Vec<u8> = Vec::new();
        let syms = self.symt.to_vec();
        let nsym = syms.len();
        push_u64(&mut out, nsym as u64);
        let ghost g0 = enc_u64(self.symt@.len() as u64);
        proof {
            assert(self.symt@.take(0) =~= Seq::<Seq<char>>::empty());
            assert(enc_symbols(self.symt@.take(0)) == Seq::<u8>::empty());
            assert(out@ =~= g0 + enc_symbols(self.symt@.take(0)));
        }
        let mut i: usize = 0;
        while i < nsym
            invariant
                i <= nsym,
                out@ == g0 + enc_symbols(self.symt@.take(i as int)),
                forall|t: int|
                    0 <= t < i ==> (#[trigger] encode_utf8(self.symt@[t])).len() <= usize::MAX,
            decreases nsym - i,
        {
            let sb = syms[i].as_str().as_bytes();
            let blen = sb.len();
            push_u64(&mut out, blen as u64);
            out.extend_from_slice(sb);
            proof {
                assert(syms@[i as int]@ == self.symt@[i as int]);
                lemma_enc_symbols_push(self.symt@.take(i as int), self.symt@[i as int]);
                assert(self.symt@.take(i + 1) =~= self.symt@.take(i as int).push(
                    self.symt@[i as int],
                ));
                assert(out@ =~= g0 + enc_symbols(self.symt@.take(i + 1)));
            }
            i += 1;
        }
        proof {
            assert(self.symt@.take(nsym as int) =~= self.symt@);
        }
        let ghost g1 = g0 + enc_symbols(self.symt@);

        let nu = self.unigrams.len();
        push_u64(&mut out, nu as u64);
        let ghost g2 = g1 + enc_u64(self.unigrams@.len() as u64);
        proof {
            assert(self.unigrams@.take(0) =~= Seq::<Unigram>::empty());
            assert(enc_unigrams(self.unigrams@.take(0)) == Seq::<u8>::empty());
            assert(out@ =~= g2 + enc_unigrams(self.unigrams@.take(0)));
        }
        let mut i: usize = 0;
        while i < nu
            invariant
                i <= nu,
                out@ == g2 + enc_unigrams(self.unigrams@.take(i as int)),
            decreases nu - i,
        {
            let u = self.unigrams[i];
            push_u64(&mut out, #[verifier::truncate] (u.log_prob as u64));
            push_u64(&mut out, u.child_offset as u64);
            push_u64(&mut out, u.child_count as u64);
            proof {
                lemma_enc_unigrams_push(self.unigrams@.take(i as int), self.unigrams@[i as int]);
                assert(self.unigrams@.take(i + 1) =~= self.unigrams@.take(i as int).push(
                    self.unigrams@[i as int],
                ));
                assert(out@ =~= g2 + enc_unigrams(self.unigrams@.take(i + 1)));
            }
            i += 1;
        }
        proof {
            assert(self.unigrams@.take(nu as int) =~= self.unigrams@);
        }
        let ghost g3 = g2 + enc_unigrams(self.unigrams@);

        let nb = self.bigrams.len();
        push_u64(&mut out, nb as u64);
        let ghost g4 = g3 + enc_u64(self.bigrams@.len() as u64);
        proof {
            assert(self.bigrams@.take(0) =~= Seq::<Bigram>::empty());
            assert(enc_bigrams(self.bigrams@.take(0)) == Seq::<u8>::empty());
            assert(out@ =~= g4 + enc_bigrams(self.bigrams@.take(0)));
        }
        let mut i: usize = 0;
        while i < nb
            invariant
                i <= nb,
                out@ == g4 + enc_bigrams(self.bigrams@.take(i as int)),
            decreases nb - i,
        {
            let b = self.bigrams[i];
            push_u64(&mut out, b.dest_label as u64);
            push_u64(&mut out, #[verifier::truncate] (b.log_prob as u64));
            push_u64(&mut out, b.child_offset as u64);
            push_u64(&mut out, b.child_count as u64);
            proof {
                lemma_enc_bigrams_push(self.bigrams@.take(i as int), self.bigrams@[i as int]);
                assert(self.bigrams@.take(i + 1) =~= self.bigrams@.take(i as int).push(
                    self.bigrams@[i as int],
                ));
                assert(out@ =~= g4 + enc_bigrams(self.bigrams@.take(i + 1)));
            }
            i += 1;
        }
        proof {
            assert(self.bigrams@.take(nb as int) =~= self.bigrams@);
        }
        let ghost g5 = g4 + enc_bigrams(self.bigrams@);

        let nt = self.trigrams.len();
        push_u64(&mut out, nt as u64);
        let ghost g6 = g5 + enc_u64(self.trigrams@.len() as u64);
        proof {
            assert(self.trigrams@.take(0) =~= Seq::<Trigram>::empty());
            assert(enc_trigrams(self.trigrams@.take(0)) == Seq::<u8>::empty());
            assert(out@ =~= g6 + enc_trigrams(self.trigrams@.take(0)));
        }
        let mut i: usize = 0;
        while i < nt
            invariant
                i <= nt,
                out@ == g6 + enc_trigrams(self.trigrams@.take(i as int)),
            decreases nt - i,
        {
            let t = self.trigrams[i];
            push_u64(&mut out, t.dest_label as u64);
            push_u64(&mut out, #[verifier::truncate] (t.log_prob as u64));
            push_u64(&mut out, t.suffix_ref as u64);
            proof {
                lemma_enc_trigrams_push(self.trigrams@.take(i as int), self.trigrams@[i as int]);
                assert(self.trigrams@.take(i + 1) =~= self.trigrams@.take(i as int).push(
                    self.trigrams@[i as int],
                ));
                assert(out@ =~= g6 + enc_trigrams(self.trigrams@.take(i + 1)));
            }
            i += 1;
        }
        proof {
            assert(self.trigrams@.take(nt as int) =~= self.trigrams@);
            assert(out@ =~= spec_image(self.symt@, self.unigrams@, self.bigrams@, self.trigrams@));
        }
        out
    }

    /// Parse an uncompressed image (see `codec::parse_image`).  An image
    /// whose symbol list holds a duplicate cannot come from a model and is
    /// rejected.
    #[verifier::loop_isolation(false)]
    #[verifier::rlimit(100)]
    fn decode(data: &Vec<u8>) -> (r: Option<LanguageModel>)
        ensures
            match (r, parse_image(data@)) {
                (Some(m), Some(v)) => m.symt@ == v.0 && m.symt.wf() && m.unigrams@ == v.1
                    && m.bigrams@ == v.2 && m.trigrams@ == v.3,
                (None, Some(v)) => !symbols_distinct(v.0),
                (None, None) => true,
                (Some(_), None) => false,
            },
    {
        let (nsym64, p1) = match read_u64_at(data, 0) {
            None => {
                return None;
            },
            Some(x) => x,
        };
        if nsym64 > usize::MAX as u64 {
            return None;
        }
        let nsym = nsym64 as usize;

        let mut syms: Vec<String> = Vec::new();
        let mut pos: usize = p1;
        let ghost start1 = p1 as int;
        let mut j: usize = 0;
        while j < nsym
            invariant
                j <= nsym,
                syms@.len() == j,
                ({
                    let full = parse_symbols(data@, start1, nsym as nat);
                    let rest = parse_symbols(data@, pos as int, (nsym - j) as nat);
                    match (full, rest) {
                        (Some(f), Some(rr)) => f.0 == syms@.map_values(|s: String| s@) + rr.0
                            && f.1 == rr.1,
                        (None, None) => true,
                        _ => false,
                    }
                }),
            decreases nsym - j,
        {
            match read_symbol_at(data, pos) {
                None => {
                    return None;
                },
                Some((s, p)) => {
                    let ghost pre = syms@;
                    syms.push(s);
                    pos = p;
                    proof {
                        assert(syms@.map_values(|q: String| q@) =~= pre.map_values(
                            |q: String| q@,
                        ).push(s@));
                        let rest2 = parse_symbols(data@, pos as int, (nsym - j - 1) as nat);
                        if rest2 is Some {
                            assert(pre.map_values(|q: String| q@).push(s@) + rest2.unwrap().0
                                =~= pre.map_values(|q: String| q@) + (seq![s@]
                                + rest2.unwrap().0));
                        }
                    }
                },
            }
            j += 1;
        }
        let ghost v0 = parse_symbols(data@, start1, nsym as nat).unwrap().0;
        proof {
            assert(syms@.map_values(|s: String| s@) + Seq::<Seq<char>>::empty() =~= syms@
                .map_values(|s: String| s@));
        }

        let (nu64, pu) = match read_u64_at(data, pos) {
            None => {
                return None;
            },
            Some(x) => x,
        };
        if nu64 > usize::MAX as u64 {
            return None;
        }
        let nuni = nu64 as usize;
        let mut unis: Vec<Unigram> = Vec::new();
        let ghost start2 = pu as int;
        pos = pu;
        let mut j: usize = 0;
        while j < nuni
            invariant
                j <= nuni,
                unis@.len() == j,
                ({
                    let full = parse_unigrams(data@, start2, nuni as nat);
                    let rest = parse_unigrams(data@, pos as int, (nuni - j) as nat);
                    match (full, rest) {
                        (Some(f), Some(rr)) => f.0 == unis@ + rr.0 && f.1 == rr.1,
                        (None, None) => true,
                        _ => false,
                    }
                }),
            decreases nuni - j,
        {
            match read_unigram_at(data, pos) {
                None => {
                    return None;
                },
                Some((u, p)) => {
                    let ghost pre = unis@;
                    unis.push(u);
                    pos = p;
                    proof {
                        let rest2 = parse_unigrams(data@, pos as int, (nuni - j - 1) as nat);
                        if rest2 is Some {
                            assert(pre.push(u) + rest2.unwrap().0 =~= pre + (seq![u]
                                + rest2.unwrap().0));
                        }
                    }
                },
            }
            j += 1;
        }
        proof {
            assert(unis@ + Seq::<Unigram>::empty() =~= unis@);
        }

        let (nb64, pb) = match read_u64_at(data, pos) {
            None => {
                return None;
            },
            Some(x) => x,
        };
        if nb64 > usize::MAX as u64 {
            return None;
        }
        let nbi = nb64 as usize;
        let mut bis: Vec<Bigram> = Vec::new();
        let ghost start3 = pb as int;
        pos = pb;
        let mut j: usize = 0;
        while j < nbi
            invariant
                j <= nbi,
                bis@.len() == j,
                ({
                    let full = parse_bigrams(data@, start3, nbi as nat);
                    let rest = parse_bigrams(data@, pos as int, (nbi - j) as nat);
                    match (full, rest) {
                        (Some(f), Some(rr)) => f.0 == bis@ + rr.0 && f.1 == rr.1,
                        (None, None) => true,
                        _ => false,
                    }
                }),
            decreases nbi - j,
        {
            match read_bigram_at(data, pos) {
                None => {
                    return None;
                },
                Some((b, p)) => {
                    let ghost pre = bis@;
                    bis.push(b);
                    pos = p;
                    proof {
                        let rest2 = parse_bigrams(data@, pos as int, (nbi - j - 1) as nat);
                        if rest2 is Some {
                            assert(pre.push(b) + rest2.unwrap().0 =~= pre + (seq![b]
                                + rest2.unwrap().0));
                        }
                    }
                },
            }
            j += 1;
        }
        proof {
            assert(bis@ + Seq::<Bigram>::empty() =~= bis@);
        }

        let (nt64, pt) = match read_u64_at(data, pos) {
            None => {
                return None;
            },
            Some(x) => x,
        };
        if nt64 > usize::MAX as u64 {
            return None;
        }
        let ntr = nt64 as usize;
        let mut tris: Vec<Trigram> = Vec::new();
        let ghost start4 = pt as int;
        pos = pt;
        let mut j: usize = 0;
        while j < ntr
            invariant
                j <= ntr,
                tris@.len() == j,
                ({
                    let full = parse_trigrams(data@, start4, ntr as nat);
                    let rest = parse_trigrams(data@, pos as int, (ntr - j) as nat);
                    match (full, rest) {
                        (Some(f), Some(rr)) => f.0 == tris@ + rr.0 && f.1 == rr.1,
                        (None, None) => true,
                        _ => false,
                    }
                }),
            decreases ntr - j,
        {
            match read_trigram_at(data, pos) {
                None => {
                    return None;
                },
                Some((t, p)) => {
                    let ghost pre = tris@;
                    tris.push(t);
                    pos = p;
                    proof {
                        let rest2 = parse_trigrams(data@, pos as int, (ntr - j - 1) as nat);
                        if rest2 is Some {
                            assert(pre.push(t) + rest2.unwrap().0 =~= pre + (seq![t]
                                + rest2.unwrap().0));
                        }
                    }
                },
            }
            j += 1;
        }
        proof {
            assert(tris@ + Seq::<Trigram>::empty() =~= tris@);
        }

        if pos != data.len() {
            return None;
        }

        // Rebuild the symbol table; a duplicate symbol is rejected.
        let mut table = SymbolTable::new();
        let n2 = syms.len();
        let mut k: usize = 0;
        while k < n2
            invariant
                k <= n2,
                table.wf(),
                table@ == syms@.map_values(|s: String| s@).take(k as int),
            decreases n2 - k,
        {
            let fresh = table.insert(syms[k].clone());
            if !fresh {
                proof {
                    let mv = syms@.map_values(|s: String| s@);
                    assert(mv.take(k as int).contains(mv[k as int]));
                    let w = choose|w: int|
                        0 <= w < k && mv.take(k as int)[w] == mv[k as int];
                    assert(v0[w] == v0[k as int]);
                }
                return None;
            }
            proof {
                let mv = syms@.map_values(|s: String| s@);
                assert(mv.take(k + 1) =~= mv.take(k as int).push(mv[k as int]));
            }
            k += 1;
        }
        proof {
            let mv = syms@.map_values(|s: String| s@);
            assert(mv.take(n2 as int) =~= mv);
        }
        Some(LanguageModel { symt: table, unigrams: unis, bigrams: bis, trigrams: tris })
    }

    /// Round trip: the image a model writes parses back, once
    /// decompressed, to exactly the model's own four collections, and its
    /// symbol list is distinct, so `read_image` rebuilds an equal model.
    /// The size bounds hold of every model held in memory, and
    /// `write_image` ensures them of its own model.
    pub proof fn lemma_model_image_round_trip(m: &LanguageModel)
        requires
            m.symt.wf(),
            image_encodable(m.symt@),
            m.unigrams@.len() <= usize::MAX,
            m.bigrams@.len() <= usize::MAX,
            m.trigrams@.len() <= usize::MAX,
        ensures
            parse_image(spec_image(m.symt@, m.unigrams@, m.bigrams@, m.trigrams@)) == Some(
                (m.symt@, m.unigrams@, m.bigrams@, m.trigrams@),
            ),
            symbols_distinct(m.symt@),
    {
        crate::codec::lemma_image_round_trip(m.symt@, m.unigrams@, m.bigrams@, m.trigrams@);
    }

    /// Serialize the model, compress the stream, and return the image.
    /// With `read_image` this round-trips: see `lemma_model_image_round_trip`.
    pub fn write_image(&self) -> (r: Vec<u8>)
        ensures
            r@ == gzip_of(spec_image(self.symt@, self.unigrams@, self.bigrams@, self.trigrams@)),
            image_encodable(self.symt@),
            self.unigrams@.len() <= usize::MAX,
            self.bigrams@.len() <= usize::MAX,
            self.trigrams@.len() <= usize::MAX,
    {
        let plain = self.encode();
        gzip_compress(&plain)
    }

    /// Decompress a model image and parse it back into a model.  A corrupt
    /// or truncated image gives `None`.
    pub fn read_image(data: &Vec<u8>) -> (r: Option<LanguageModel>)
        ensures
            forall|plain: Seq<u8>|
                data@ == gzip_of(plain) ==> match (r, parse_image(plain)) {
                    (Some(m), Some(v)) => m.symt@ == v.0 && m.symt.wf() && m.unigrams@ == v.1
                        && m.bigrams@ == v.2 && m.trigrams@ == v.3,
                    (None, Some(v)) => !symbols_distinct(v.0),
                    (None, None) => true,
                    (Some(_), None) => false,
                },
    {
        match gzip_decompress(data) {
            None => None,
            Some(plain) => Self::decode(&plain),
        }
    }
}

} // verus!
