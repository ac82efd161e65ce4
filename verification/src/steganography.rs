//! Embedding and extraction.
//!
//! The payload is encoded as base-9 digits, three per byte, preceded by a
//! five-digit length prefix. Each digit is hidden in one pixel pair: the
//! pair's red channels, read from the carrier, name a matrix coordinate,
//! and the search replaces them with a nearby coordinate whose cell holds
//! the digit. Extraction reads the red channels back and looks the digits
//! up directly.

use vstd::prelude::*;
use vstd::arithmetic::div_mod::{
    lemma_div_denominator, lemma_div_is_ordered, lemma_fundamental_div_mod, lemma_mod_bound,
    lemma_small_mod,
};
use vstd::utf8::{decode_utf8, valid_utf8};
use crate::pixel::{Pixel, PixelGrid};
use crate::random_matrix::{
    is_built_from, lemma_search_hit_cell, lemma_search_hits_without_row_wrap, matrix_wf,
    search_hit, search_spec, start_idx, RandMatrix,
};
use crate::StegError;

verus! {

/// Largest digit-stream length the five-digit prefix can name.
pub const MAX_STREAM_LEN: usize = 59048;

/// The `j`-th base-9 digit of a byte, most significant first.
pub open spec fn digit_of(b: u8, j: int) -> u8 {
    if j == 0 {
        b / 81
    } else if j == 1 {
        (b / 9) % 9
    } else {
        b % 9
    }
}

/// The base-9 encoding of a byte sequence: three digits per byte, most
/// significant first.
pub open spec fn encoded_digits(bs: Seq<u8>) -> Seq<u8> {
    Seq::new(3 * bs.len(), |i: int| digit_of(bs[i / 3], i % 3))
}

/// The five-digit base-9 length prefix for `n`, most significant first.
/// Values of `n` are reduced modulo 9^5.
pub open spec fn prefix_digits(n: int) -> Seq<u8> {
    seq![
        ((n / 6561) % 9) as u8,
        ((n / 729) % 9) as u8,
        ((n / 81) % 9) as u8,
        ((n / 9) % 9) as u8,
        (n % 9) as u8,
    ]
}

/// The value a five-digit prefix names.
pub open spec fn prefix_val(s: Seq<u8>) -> int {
    s[0] * 6561 + s[1] * 729 + s[2] * 81 + s[3] * 9 + s[4]
}

/// The byte a group of one to three digits decodes to; each scaled digit
/// and the final sum wrap modulo 256.
pub open spec fn chunk_byte(s: Seq<u8>) -> u8 {
    if s.len() >= 3 {
        (((s[0] * 81) % 256 + (s[1] * 9) % 256 + s[2]) % 256) as u8
    } else if s.len() == 2 {
        (((s[0] * 9) % 256 + s[1]) % 256) as u8
    } else {
        s[0]
    }
}

/// The `i`-th group of up to three digits.
pub open spec fn chunk_of(s: Seq<u8>, i: int) -> Seq<u8> {
    s.subrange(3 * i, if 3 * i + 3 <= s.len() { 3 * i + 3 } else { s.len() as int })
}

/// The bytes a digit sequence decodes to, group by group.
pub open spec fn decoded_bytes(s: Seq<u8>) -> Seq<u8> {
    Seq::new((s.len() + 2) / 3, |i: int| chunk_byte(chunk_of(s, i)))
}

/// The full wire stream for a payload: length prefix, then the encoded
/// payload.
pub open spec fn digit_stream(payload: Seq<u8>) -> Seq<u8> {
    prefix_digits(3 * payload.len() as int) + encoded_digits(payload)
}

/// The capacity rule: a digit stream of payload length `digits` fits a
/// carrier of the given dimensions.
pub open spec fn fits(digits: int, w: int, h: int) -> bool {
    (w - 1) * (h - 1) / 2 > digits + 5
}

/// Embedding succeeds exactly when the capacity rule holds and the digit
/// stream length is representable in the five-digit prefix.
pub open spec fn can_hide(payload_len: int, w: int, h: int) -> bool {
    &&& fits(3 * payload_len, w, h)
    &&& 3 * payload_len <= MAX_STREAM_LEN
}

/// The `i`-th output pixel of an embedding: within the stream, red channels
/// carry the searched coordinates; beyond it, the carrier pixel unchanged.
pub open spec fn stego_pixel(m: Seq<Seq<u8>>, carrier: Seq<Pixel>, s: Seq<u8>, i: int) -> Pixel {
    if i < 2 * s.len() {
        let k = i / 2;
        let nn = search_spec(m, carrier[2 * k].r as int, carrier[2 * k + 1].r as int, s[k]);
        if i % 2 == 0 {
            Pixel { r: nn.0, g: carrier[i].g, b: carrier[i].b, a: carrier[i].a }
        } else {
            Pixel { r: nn.1, g: carrier[i].g, b: carrier[i].b, a: carrier[i].a }
        }
    } else {
        carrier[i]
    }
}

/// The pixels of the stego image for a carrier and a digit stream.
pub open spec fn embedded_pixels(m: Seq<Seq<u8>>, carrier: Seq<Pixel>, s: Seq<u8>) -> Seq<Pixel> {
    Seq::new(carrier.len(), |i: int| stego_pixel(m, carrier, s, i))
}

/// The digit each pixel pair of a grid names: the matrix cell at the two
/// red channels.
pub open spec fn grid_digits(m: Seq<Seq<u8>>, pixels: Seq<Pixel>) -> Seq<u8> {
    Seq::new(pixels.len() / 2, |k: int| m[pixels[2 * k].r as int][pixels[2 * k + 1].r as int])
}

/// The digits extraction accumulates: all pair digits while fewer than
/// five exist; otherwise the five-digit prefix is decoded and that many
/// digits follow it, cut short when the grid runs out of pairs.
pub open spec fn extracted_digits(m: Seq<Seq<u8>>, pixels: Seq<Pixel>) -> Seq<u8> {
    let d = grid_digits(m, pixels);
    if d.len() < 5 {
        d
    } else {
        let l = prefix_val(d.take(5));
        let avail = d.len() - 5;
        d.skip(5).take(if l <= avail { l } else { avail as int })
    }
}

/// The bytes extraction yields from a grid.
pub open spec fn extracted_bytes(m: Seq<Seq<u8>>, pixels: Seq<Pixel>) -> Seq<u8> {
    decoded_bytes(extracted_digits(m, pixels))
}

/// The embedding and extraction engine: a substitution matrix and the seed
/// it was built from.
#[derive(Debug)]
pub struct RMSteg {
    pub random_matrix: RandMatrix,
    pub seed: u64,
}

impl RMSteg {
    pub open spec fn wf(self) -> bool {
        self.random_matrix.wf()
    }

    /// The matrix view the contracts speak of.
    pub open spec fn mat(self) -> Seq<Seq<u8>> {
        self.random_matrix@
    }

    /// Build the engine for a seed.
    pub fn new(seed: u64) -> (r: Self)
        ensures
            r.wf(),
            r.seed == seed,
            is_built_from(seed, r.mat()),
    {
        let random_matrix = RandMatrix::from_seed_u64(seed);
        RMSteg { random_matrix, seed }
    }

    /// Encode bytes as base-9 digits, three per byte, most significant
    /// first.
    pub fn transform(cipher_text: &[u8]) -> (r: Vec<u8>)
        ensures
            r@ == encoded_digits(cipher_text@),
    {
        let mut cipher_text_9: Vec<u8> = Vec::new();
        let mut i: usize = 0;
        while i < cipher_text.len()
            invariant
                i <= cipher_text@.len(),
                cipher_text_9@.len() == 3 * i,
                forall|j: int|
                    0 <= j < 3 * i ==> #[trigger] cipher_text_9@[j] == digit_of(
                        cipher_text@[j / 3],
                        j % 3,
                    ),
            decreases cipher_text@.len() - i,
        {
            let mut raw_byte = cipher_text[i];
            let ghost b = raw_byte;
            let low = raw_byte % 9;
            raw_byte = raw_byte / 9;
            let middle = raw_byte % 9;
            raw_byte = raw_byte / 9;
            let high = raw_byte % 9;
            proof {
                lemma_div_denominator(b as int, 9, 9);
                assert(b / 9 / 9 == b / 81);
                lemma_small_mod((b / 81) as nat, 9);
                assert(high == digit_of(b, 0));
                assert(middle == digit_of(b, 1));
                assert(low == digit_of(b, 2));
                assert((3 * i as int) / 3 == i as int && (3 * i as int) % 3 == 0);
                assert((3 * i as int + 1) / 3 == i as int && (3 * i as int + 1) % 3 == 1);
                assert((3 * i as int + 2) / 3 == i as int && (3 * i as int + 2) % 3 == 2);
            }
            cipher_text_9.push(high);
            cipher_text_9.push(middle);
            cipher_text_9.push(low);
            i = i + 1;
        }
        proof {
            assert(cipher_text_9@ =~= encoded_digits(cipher_text@));
        }
        cipher_text_9
    }

    /// Decode base-9 digits back to bytes, in groups of three, most
    /// significant first; a final short group decodes with the same rule.
    pub fn re_transform(cipher_text_in_9: Vec<u8>) -> (r: Vec<u8>)
        ensures
            r@ == decoded_bytes(cipher_text_in_9@),
    {
        let v = cipher_text_in_9;
        let mut cipher_text: Vec<u8> = Vec::new();
        let mut i: usize = 0;
        while i < v.len()
            invariant
                i <= v@.len(),
                i % 3 == 0 || i == v@.len(),
                cipher_text@.len() == (i + 2) / 3,
                forall|ci: int|
                    0 <= ci < cipher_text@.len() ==> #[trigger] cipher_text@[ci] == chunk_byte(
                        chunk_of(v@, ci),
                    ),
            decreases v@.len() - i,
        {
            let remaining = v.len() - i;
            let byte: u32 = if remaining >= 3 {
                ((v[i] as u32 * 81) % 256 + (v[i + 1] as u32 * 9) % 256 + v[i + 2] as u32) % 256
            } else if remaining == 2 {
                ((v[i] as u32 * 9) % 256 + v[i + 1] as u32) % 256
            } else {
                v[i] as u32
            };
            let ghost ci = i as int / 3;
            proof {
                assert(i as int % 3 == 0);
                assert(3 * ci == i as int);
                assert(chunk_of(v@, ci) == v@.subrange(
                    3 * ci,
                    if 3 * ci + 3 <= v@.len() { 3 * ci + 3 } else { v@.len() as int },
                ));
                assert(byte == chunk_byte(chunk_of(v@, ci)));
                assert(byte < 256);
                assert((i as int + 2) / 3 == ci);
            }
            cipher_text.push(byte as u8);
            let step = if remaining >= 3 {
                3
            } else {
                remaining
            };
            proof {
                if remaining >= 3 {
                    assert((i + 3) as int % 3 == 0);
                    assert((i as int + 3 + 2) / 3 == ci + 1);
                } else {
                    assert((i + remaining) as int == v@.len());
                    assert((v@.len() as int + 2) / 3 == ci + 1);
                }
            }
            i = i + step;
        }
        proof {
            assert(cipher_text@ =~= decoded_bytes(v@));
        }
        cipher_text
    }

    /// Encode a length as the five-digit base-9 prefix, most significant
    /// first; values above 9^5 - 1 wrap.
    pub fn transform_length_prefix(len: usize) -> (r: Vec<u8>)
        ensures
            r@ == prefix_digits(len as int),
    {
        let mut length_prefix: Vec<u8> = Vec::new();
        let mut len_tmp = len;
        let prefix_4 = (len_tmp % 9) as u8;
        len_tmp = len_tmp / 9;
        let prefix_3 = (len_tmp % 9) as u8;
        len_tmp = len_tmp / 9;
        let prefix_2 = (len_tmp % 9) as u8;
        len_tmp = len_tmp / 9;
        let prefix_1 = (len_tmp % 9) as u8;
        len_tmp = len_tmp / 9;
        let prefix_0 = (len_tmp % 9) as u8;
        proof {
            lemma_div_denominator(len as int, 9, 9);
            lemma_div_denominator(len as int, 81, 9);
            lemma_div_denominator(len as int, 729, 9);
            assert(len as int / 9 / 9 == len as int / 81);
            assert(len as int / 81 / 9 == len as int / 729);
            assert(len as int / 729 / 9 == len as int / 6561);
        }
        length_prefix.push(prefix_0);
        length_prefix.push(prefix_1);
        length_prefix.push(prefix_2);
        length_prefix.push(prefix_3);
        length_prefix.push(prefix_4);
        proof {
            assert(length_prefix@ =~= prefix_digits(len as int));
        }
        length_prefix
    }

    /// Decode the five-digit prefix to the length it names, and empty the
    /// accumulator for the digits that follow.
    pub fn re_transform_length_prefix(prefix_length: &mut Vec<u8>) -> (r: u32)
        requires
            old(prefix_length)@.len() == 5,
        ensures
            r as int == prefix_val(old(prefix_length)@),
            final(prefix_length)@.len() == 0,
    {
        let len: u32 = prefix_length[0] as u32 * 6561 + prefix_length[1] as u32 * 729
            + prefix_length[2] as u32 * 81 + prefix_length[3] as u32 * 9 + prefix_length[4] as u32;
        prefix_length.clear();
        len
    }

    /// Embed a payload into a carrier: each digit of the length-prefixed
    /// stream turns one pixel pair's red channels into matrix coordinates
    /// of a cell holding the digit; every later pixel is copied unchanged.
    /// Fails exactly when the capacity rule fails or the stream is too long
    /// for the prefix.
    pub fn embed(&self, carrier: &PixelGrid, cipher_text: &[u8]) -> (r: Result<
        PixelGrid,
        StegError,
    >)
        requires
            self.wf(),
            carrier.wf(),
        ensures
            ({
                let s = digit_stream(cipher_text@);
                let ok = can_hide(
                    cipher_text@.len() as int,
                    carrier.width as int,
                    carrier.height as int,
                );
                match r {
                    Ok(out) => ok && out.wf() && out.width == carrier.width && out.height
                        == carrier.height && out.pixels@ == embedded_pixels(
                        self.mat(),
                        carrier.pixels@,
                        s,
                    ),
                    Err(e) => e == StegError::CapacityExceeded && !ok,
                }
            }),
    {
        let cipher_text_9 = Self::transform(cipher_text);
        let payload_len = cipher_text_9.len();
        if payload_len > MAX_STREAM_LEN {
            return Err(StegError::CapacityExceeded);
        }
        let w = carrier.width;
        let h = carrier.height;
        let npix = carrier.pixels.len();
        proof {
            assert(npix == carrier.pixels@.len());
            assert(w * h == carrier.pixels@.len());
            assert((w - 1) * (h - 1) <= w * h) by (nonlinear_arith)
                requires
                    w >= 1,
                    h >= 1,
            ;
        }
        if Self::is_payload_to_large(payload_len, w, h) {
            return Err(StegError::CapacityExceeded);
        }
        let mut payload = Self::transform_length_prefix(payload_len);
        let mut j: usize = 0;
        while j < cipher_text_9.len()
            invariant
                j <= cipher_text_9@.len(),
                payload@ == prefix_digits(payload_len as int) + cipher_text_9@.take(j as int),
            decreases cipher_text_9@.len() - j,
        {
            payload.push(cipher_text_9[j]);
            proof {
                assert(payload@ =~= prefix_digits(payload_len as int) + cipher_text_9@.take(
                    j as int + 1,
                ));
            }
            j = j + 1;
        }
        let ghost s = digit_stream(cipher_text@);
        proof {
            assert(cipher_text_9@.take(cipher_text_9@.len() as int) =~= cipher_text_9@);
            assert(payload@ =~= s);
        }
        let m_len = payload.len();
        proof {
            let t = (w - 1) as int * (h - 1) as int;
            lemma_fundamental_div_mod(t, 2);
            lemma_mod_bound(t, 2);
            assert(t >= 2 * (m_len as int) + 2);
            assert(2 * m_len + 2 <= carrier.pixels@.len());
        }
        let mut out_pixels: Vec<Pixel> = Vec::new();
        let mut kk: usize = 0;
        while kk < m_len
            invariant
                self.wf(),
                carrier.wf(),
                payload@ == s,
                m_len == s.len(),
                m_len == payload@.len(),
                npix == carrier.pixels@.len(),
                2 * m_len <= carrier.pixels@.len(),
                kk <= m_len,
                out_pixels@.len() == 2 * kk,
                forall|ii: int|
                    0 <= ii < 2 * kk ==> #[trigger] out_pixels@[ii] == stego_pixel(
                        self.mat(),
                        carrier.pixels@,
                        s,
                        ii,
                    ),
            decreases m_len - kk,
        {
            let pa = carrier.pixels[2 * kk];
            let pb = carrier.pixels[2 * kk + 1];
            let d = payload[kk];
            let nn = self.random_matrix.search_val(pa.r as usize, pb.r as usize, d);
            proof {
                let ii0 = 2 * kk as int;
                assert(ii0 / 2 == kk as int && ii0 % 2 == 0);
                assert((ii0 + 1) / 2 == kk as int && (ii0 + 1) % 2 == 1);
                assert(nn == search_spec(self.mat(), pa.r as int, pb.r as int, s[kk as int]));
            }
            out_pixels.push(Pixel { r: nn.0, g: pa.g, b: pa.b, a: pa.a });
            out_pixels.push(Pixel { r: nn.1, g: pb.g, b: pb.b, a: pb.a });
            kk = kk + 1;
        }
        let mut idx: usize = out_pixels.len();
        while idx < carrier.pixels.len()
            invariant
                carrier.wf(),
                self.wf(),
                m_len == s.len(),
                idx == out_pixels@.len(),
                2 * m_len <= idx <= carrier.pixels@.len(),
                forall|ii: int|
                    0 <= ii < idx ==> #[trigger] out_pixels@[ii] == stego_pixel(
                        self.mat(),
                        carrier.pixels@,
                        s,
                        ii,
                    ),
            decreases carrier.pixels@.len() - idx,
        {
            out_pixels.push(carrier.pixels[idx]);
            proof {
                assert(idx as int >= 2 * s.len());
            }
            idx = idx + 1;
        }
        let out = PixelGrid { width: w, height: h, pixels: out_pixels };
        proof {
            assert(out.pixels@ =~= embedded_pixels(self.mat(), carrier.pixels@, s));
        }
        Ok(out)
    }

    /// Extract the raw payload bytes from a grid: read each pair's digit,
    /// decode the five-digit prefix once available, collect the declared
    /// number of digits (cut short if the grid runs out), and decode them.
    pub fn extract_bytes(&self, grid: &PixelGrid) -> (r: Vec<u8>)
        requires
            self.wf(),
            grid.wf(),
        ensures
            r@ == extracted_bytes(self.mat(), grid.pixels@),
    {
        let ghost m = self.mat();
        let ghost dall = grid_digits(m, grid.pixels@);
        let p = grid.pixels.len() / 2;
        let mut cipher_text_in_9: Vec<u8> = Vec::new();
        let mut cipher_text_length: usize = p;
        let mut k: usize = 0;
        proof {
            lemma_fundamental_div_mod(grid.pixels@.len() as int, 2);
        }
        while k < p
            invariant_except_break
                self.wf(),
                grid.wf(),
                m == self.mat(),
                dall == grid_digits(m, grid.pixels@),
                p == grid.pixels@.len() / 2,
                2 * p <= grid.pixels@.len(),
                dall.len() == p,
                k <= p,
                k < 5 ==> cipher_text_length == p && cipher_text_in_9@ == dall.take(k as int),
                k >= 5 ==> cipher_text_length as int == prefix_val(dall.take(5))
                    && cipher_text_in_9@ == dall.skip(5).take(k as int - 5) && k - 5
                    < cipher_text_length,
            ensures
                cipher_text_in_9@ == extracted_digits(m, grid.pixels@),
            decreases p - k,
        {
            let pa = grid.pixels[2 * k];
            let pb = grid.pixels[2 * k + 1];
            let dg = self.random_matrix.get_val_from_random_matrix(pa.r as usize, pb.r as usize);
            proof {
                assert(dg == dall[k as int]);
            }
            cipher_text_in_9.push(dg);
            proof {
                if k < 5 {
                    assert(cipher_text_in_9@ =~= dall.take(k as int + 1));
                } else {
                    assert(dall.skip(5)[k as int - 5] == dall[k as int]);
                    assert(cipher_text_in_9@ =~= dall.skip(5).take(k as int - 5 + 1));
                }
            }
            if k + 1 == 5 {
                proof {
                    assert(cipher_text_in_9@ == dall.take(5));
                }
                cipher_text_length = Self::re_transform_length_prefix(&mut cipher_text_in_9)
                    as usize;
                proof {
                    assert(cipher_text_in_9@ =~= dall.skip(5).take(0));
                }
            }
            if cipher_text_in_9.len() == cipher_text_length {
                proof {
                    let d = dall;
                    if k as int + 1 < 5 {
                        assert(cipher_text_in_9@.len() == k + 1);
                        assert(k as int + 1 == p);
                        assert(d.take(p as int) =~= d);
                        assert(cipher_text_in_9@ == extracted_digits(m, grid.pixels@));
                    } else {
                        let l = prefix_val(d.take(5));
                        assert(cipher_text_length as int == l);
                        assert(cipher_text_in_9@.len() == k as int + 1 - 5);
                        assert(l <= d.len() - 5);
                        assert(cipher_text_in_9@ =~= d.skip(5).take(l));
                        assert(cipher_text_in_9@ == extracted_digits(m, grid.pixels@));
                    }
                }
                break ;
            }
            k = k + 1;
        }
        proof {
            assert(cipher_text_in_9@ == extracted_digits(m, grid.pixels@));
        }
        let cipher_text = Self::re_transform(cipher_text_in_9);
        cipher_text
    }

    /// Extract the payload and interpret it as UTF-8 text; a payload that
    /// is not valid UTF-8 is a malformed-payload error.
    pub fn extract(&self, grid: &PixelGrid) -> (r: Result<String, StegError>)
        requires
            self.wf(),
            grid.wf(),
        ensures
            ({
                let bytes = extracted_bytes(self.mat(), grid.pixels@);
                match r {
                    Ok(s) => valid_utf8(bytes) && s@ == decode_utf8(bytes),
                    Err(e) => e == StegError::MalformedPayload && !valid_utf8(bytes),
                }
            }),
    {
        let cipher_text = self.extract_bytes(grid);
        match bytes_to_string(&cipher_text) {
            Option::Some(s) => Ok(s),
            Option::None => Err(StegError::MalformedPayload),
        }
    }

    /// The capacity rule, negated: the payload's digits do not fit the
    /// carrier.
    pub fn is_payload_to_large(payload_len: usize, carrier_x: usize, carrier_y: usize) -> (r: bool)
        requires
            carrier_x >= 1,
            carrier_y >= 1,
            (carrier_x - 1) * (carrier_y - 1) <= usize::MAX,
            payload_len + 5 <= usize::MAX,
        ensures
            r == !fits(payload_len as int, carrier_x as int, carrier_y as int),
    {
        let carrier_total_bytes = (carrier_x - 1) * (carrier_y - 1);
        if carrier_total_bytes / 2 > payload_len + 5 {
            false
        } else {
            true
        }
    }
}

/// Encoding a byte sequence to base-9 digits and decoding them again gives
/// back the original bytes.
pub proof fn lemma_digits_roundtrip(bs: Seq<u8>)
    ensures
        decoded_bytes(encoded_digits(bs)) == bs,
{
    let e = encoded_digits(bs);
    assert(e.len() == 3 * bs.len());
    assert((e.len() + 2) as int / 3 == bs.len());
    assert forall|i: int| 0 <= i < bs.len() implies #[trigger] decoded_bytes(e)[i] == bs[i] by {
        let ch = chunk_of(e, i);
        assert(ch.len() == 3);
        let b = bs[i];
        assert((3 * i) / 3 == i && (3 * i) % 3 == 0);
        assert((3 * i + 1) / 3 == i && (3 * i + 1) % 3 == 1);
        assert((3 * i + 2) / 3 == i && (3 * i + 2) % 3 == 2);
        assert(ch[0] == b / 81 && ch[1] == (b / 9) % 9 && ch[2] == b % 9);
        lemma_fundamental_div_mod(b as int, 9);
        lemma_fundamental_div_mod(b as int / 9, 9);
        lemma_div_denominator(b as int, 9, 9);
        lemma_mod_bound(b as int / 9, 9);
        lemma_mod_bound(b as int, 9);
        assert(b / 81 <= 3);
        lemma_small_mod((b / 81 * 81) as nat, 256);
        lemma_small_mod(((b / 9) % 9 * 9) as nat, 256);
        assert(b / 81 * 81 + (b / 9) % 9 * 9 + b % 9 == b);
        lemma_small_mod(b as nat, 256);
        assert(chunk_byte(ch) == b);
    }
    assert(decoded_bytes(e) =~= bs);
}

/// Encoding a representable length as the five-digit prefix and decoding
/// the prefix gives back the length.
pub proof fn lemma_prefix_roundtrip(n: int)
    requires
        0 <= n <= MAX_STREAM_LEN,
    ensures
        prefix_val(prefix_digits(n)) == n,
{
    lemma_fundamental_div_mod(n, 9);
    lemma_fundamental_div_mod(n / 9, 9);
    lemma_fundamental_div_mod(n / 81, 9);
    lemma_fundamental_div_mod(n / 729, 9);
    lemma_div_denominator(n, 9, 9);
    lemma_div_denominator(n, 81, 9);
    lemma_div_denominator(n, 729, 9);
    assert(n / 9 / 9 == n / 81 && n / 81 / 9 == n / 729 && n / 729 / 9 == n / 6561);
    assert(n / 6561 < 9);
    lemma_small_mod((n / 6561) as nat, 9);
}

/// The embed/extract round trip: when the capacity rule holds and every
/// digit of the stream is found by the neighborhood search at its pixel
/// pair, extracting from the embedded grid returns exactly the payload.
pub proof fn lemma_embed_extract_roundtrip(
    m: Seq<Seq<u8>>,
    carrier: Seq<Pixel>,
    w: int,
    h: int,
    payload: Seq<u8>,
)
    requires
        matrix_wf(m),
        w >= 2,
        h >= 2,
        carrier.len() == w * h,
        can_hide(payload.len() as int, w, h),
        forall|k: int|
            0 <= k < digit_stream(payload).len() ==> search_hit(
                m,
                carrier[2 * k].r as int,
                carrier[2 * k + 1].r as int,
                digit_stream(payload)[k],
            ),
    ensures
        extracted_bytes(m, embedded_pixels(m, carrier, digit_stream(payload))) == payload,
{
    let s = digit_stream(payload);
    let n = payload.len() as int;
    assert(s.len() == 5 + 3 * n);
    let stego = embedded_pixels(m, carrier, s);
    assert(stego.len() == carrier.len());
    let t = (w - 1) * (h - 1);
    lemma_fundamental_div_mod(t, 2);
    lemma_mod_bound(t, 2);
    assert(t >= 2 * s.len() + 2);
    assert((w - 1) * (h - 1) <= w * h) by (nonlinear_arith)
        requires
            w >= 1,
            h >= 1,
    ;
    assert(2 * s.len() + 2 <= carrier.len());
    let p = stego.len() / 2;
    lemma_div_is_ordered(2 * s.len() as int + 2, carrier.len() as int, 2);
    assert((2 * s.len() + 2) / 2 == s.len() + 1);
    assert(p >= s.len() + 1);
    let d = grid_digits(m, stego);
    assert(d.len() == p);
    assert forall|k: int| 0 <= k < s.len() implies #[trigger] d[k] == s[k] by {
        let i0 = 2 * k;
        let i1 = 2 * k + 1;
        assert(i0 / 2 == k && i0 % 2 == 0);
        assert(i1 / 2 == k && i1 % 2 == 1);
        assert(stego[i0] == stego_pixel(m, carrier, s, i0));
        assert(stego[i1] == stego_pixel(m, carrier, s, i1));
        let nn = search_spec(m, carrier[i0].r as int, carrier[i1].r as int, s[k]);
        assert(stego[i0].r == nn.0 && stego[i1].r == nn.1);
        lemma_search_hit_cell(m, carrier[i0].r as int, carrier[i1].r as int, s[k]);
        assert(m[nn.0 as int][nn.1 as int] == s[k]);
    }
    assert(d.take(5) =~= s.take(5));
    assert(s.take(5) =~= prefix_digits(3 * n));
    lemma_prefix_roundtrip(3 * n);
    assert(prefix_val(d.take(5)) == 3 * n);
    let avail = d.len() - 5;
    assert(avail >= 3 * n + 1);
    let ed = extracted_digits(m, stego);
    assert(ed == d.skip(5).take(3 * n));
    assert forall|j: int| 0 <= j < 3 * n implies #[trigger] d.skip(5).take(3 * n)[j]
        == encoded_digits(payload)[j] by {
        assert(d.skip(5)[j] == d[5 + j]);
        assert(d[5 + j] == s[5 + j]);
        assert(s[5 + j] == encoded_digits(payload)[j]);
    }
    assert(ed =~= encoded_digits(payload));
    lemma_digits_roundtrip(payload);
    assert(extracted_bytes(m, stego) == payload);
}

/// Every digit of a wire stream is below 9.
proof fn lemma_stream_digits_bounded(payload: Seq<u8>)
    ensures
        forall|k: int|
            0 <= k < digit_stream(payload).len() ==> #[trigger] digit_stream(payload)[k] < 9,
{
    let s = digit_stream(payload);
    let n = 3 * payload.len() as int;
    assert forall|k: int| 0 <= k < s.len() implies #[trigger] s[k] < 9 by {
        if k < 5 {
            assert(s[k] == prefix_digits(n)[k]);
            lemma_mod_bound(n / 6561, 9);
            lemma_mod_bound(n / 729, 9);
            lemma_mod_bound(n / 81, 9);
            lemma_mod_bound(n / 9, 9);
            lemma_mod_bound(n, 9);
        } else {
            let j = k - 5;
            assert(s[k] == encoded_digits(payload)[j]);
            let b = payload[j / 3];
            lemma_mod_bound(b as int, 9);
            lemma_mod_bound(b as int / 9, 9);
            assert(b / 81 <= 3);
        }
    }
}

/// The round trip for a matrix built from a seed, with the hypothesis on
/// the carrier alone: it holds whenever no pair-leading red value is 249,
/// 250, 252 or 253. Those four values start the search's row scan at rows
/// 248, 249, 251 or 252, where a three-row group of the scan straddles the
/// wrap at row 256 and can miss a digit.
pub proof fn lemma_roundtrip_for_carrier(
    seed: u64,
    m: Seq<Seq<u8>>,
    carrier: Seq<Pixel>,
    w: int,
    h: int,
    payload: Seq<u8>,
)
    requires
        is_built_from(seed, m),
        matrix_wf(m),
        w >= 2,
        h >= 2,
        carrier.len() == w * h,
        can_hide(payload.len() as int, w, h),
        forall|k: int|
            0 <= k < digit_stream(payload).len() ==> ((#[trigger] carrier[2 * k]).r != 249
                && carrier[2 * k].r != 250 && carrier[2 * k].r != 252 && carrier[2 * k].r != 253),
    ensures
        extracted_bytes(m, embedded_pixels(m, carrier, digit_stream(payload))) == payload,
{
    lemma_stream_digits_bounded(payload);
    let s = digit_stream(payload);
    assert forall|k: int| 0 <= k < s.len() implies search_hit(
        m,
        (#[trigger] carrier[2 * k]).r as int,
        carrier[2 * k + 1].r as int,
        s[k],
    ) by {
        let g1 = carrier[2 * k].r as int;
        let g2 = carrier[2 * k + 1].r as int;
        assert(start_idx(g1) != 248 && start_idx(g1) != 249 && start_idx(g1) != 251 && start_idx(
            g1,
        ) != 252);
        lemma_search_hits_without_row_wrap(seed, m, g1, g2, s[k]);
    }
    lemma_embed_extract_roundtrip(m, carrier, w, h, payload);
}

/// Relies on `String::from_utf8`: it succeeds exactly on valid UTF-8 input
/// and returns the string those bytes encode.
#[verifier::external_body]
fn bytes_to_string(b: &Vec<u8>) -> (r: Option<String>)
    ensures
        r is Some <==> valid_utf8(b@),
        r matches Some(s) ==> s@ == decode_utf8(b@),
{
    String::from_utf8(b.clone()).ok()
}

} // verus!
