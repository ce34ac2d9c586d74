//! The encode session: frames a payload with its `{{length}}` header and
//! writes the bits into the carrier's least-significant-bit plane, one bit
//! per generator coordinate.

use crate::bits::{
    bit_of, byte_bits, bytes_bits, dec_digits, header_bytes, lemma_bytes_bits_concat, record_bits,
};
use crate::errors::StegoError;
use crate::generator::{
    fresh_view, gen_after, gen_step, lemma_gen_after, lemma_gen_after_add,
    lemma_steps_ok_concat, step_ok, steps_ok, GenView, PixelGenerator,
};
use crate::plane::{embed, lemma_embed_concat, lemma_gen_after_one, put_lsb, set_lsb};
use crate::surface::Carrier;
use vstd::prelude::*;
use vstd::string::StringSliceAdditionalSpecFns;
use vstd::string::StrSliceExecFns;

verus! {

/// Writes the digits of `n` in decimal onto `out`, most significant first.
pub fn push_dec(n: u64, out: &mut Vec<u8>)
    ensures
        final(out)@ == old(out)@ + dec_digits(n as nat),
    decreases n,
{
    if n < 10 {
        out.push(48 + (n as u8));
    } else {
        push_dec(n / 10, out);
        out.push(48 + ((n % 10) as u8));
        proof {
            assert(old(out)@ + dec_digits((n / 10) as nat) + seq![(48 + (n % 10) as nat) as u8]
                =~= old(out)@ + dec_digits(n as nat));
        }
    }
}

/// Builds the `{{n}}` header bytes.
pub fn header_vec(n: u64) -> (r: Vec<u8>)
    ensures
        r@ == header_bytes(n as nat),
{
    let mut v: Vec<u8> = Vec::new();
    v.push(123);
    v.push(123);
    push_dec(n, &mut v);
    v.push(125);
    v.push(125);
    proof {
        assert(v@ =~= header_bytes(n as nat));
    }
    v
}

/// An encode session: the carrier, the coordinate generator, and the count
/// of bits written so far.
pub struct ImageEncoder {
    img: Carrier,
    gen: PixelGenerator,
    bit_written: usize,
}

impl ImageEncoder {
    /// The channel bytes of the carrier as they stand.
    pub closed spec fn surface(self) -> Seq<u8> {
        self.img@
    }

    /// The generator's mathematical state.
    pub closed spec fn gen_view(self) -> GenView {
        self.gen@
    }

    /// Bits written in this session.
    pub closed spec fn written(self) -> int {
        self.bit_written as int
    }

    /// The carrier and the generator agree on the grid, and the bit count
    /// equals the number of coordinates consumed.
    pub closed spec fn wf(self) -> bool {
        &&& self.img.wf()
        &&& self.gen.wf()
        &&& self.gen@.width == self.img.spec_width()
        &&& self.gen@.height == self.img.spec_height()
        &&& self.gen@.emitted.len() == self.bit_written
    }

    pub fn new(img: Carrier, seed: u64) -> (r: ImageEncoder)
        requires
            img.wf(),
        ensures
            r.wf(),
            r.surface() == img@,
            r.gen_view() == fresh_view(seed, img.spec_width(), img.spec_height()),
            r.written() == 0,
    {
        let (width, height) = img.dimensions();
        let gen = PixelGenerator::new(seed, width, height);
        ImageEncoder { img, gen, bit_written: 0 }
    }

    /// Whether `8 * |s|` payload bits still fit in the unused coordinates.
    fn check_available_space(&self, s: &str) -> (r: bool)
        requires
            self.wf(),
            s.spec_bytes().len() <= usize::MAX,
        ensures
            r == (8 * s.spec_bytes().len() <= self.gen_view().area() - self.written()),
    {
        proof {
            self.gen.lemma_wf();
        }
        let (width, height) = self.img.dimensions();
        let payload_len: u128 = (s.len() as u128) * 8;
        let available_space: u128 = (width as u128) * (height as u128) - (self.bit_written
            as u128);
        available_space >= payload_len
    }

    /// Writes one bit into the least-significant bit of the channel at the
    /// next generator coordinate.
    fn write_bit(&mut self, bit: bool)
        requires
            old(self).wf(),
            old(self).written() < old(self).gen_view().area(),
        ensures
            final(self).wf(),
            final(self).surface() == put_lsb(old(self).surface(), old(self).gen_view(), bit),
            final(self).gen_view() == gen_step(old(self).gen_view()),
            final(self).written() == old(self).written() + 1,
            step_ok(old(self).gen_view()),
    {
        let r = self.gen.next();
        match r {
            Ok((x, y)) => {
                let v = self.img.get_channel(x, y);
                let nv = (v & 0xfe) | (if bit {
                    1
                } else {
                    0
                });
                proof {
                    assert(nv == set_lsb(v, bit));
                    crate::surface::lemma_pix_at_bound(x, y, self.img.spec_width(), self.img.spec_height());
                }
                self.img.set_channel(x, y, nv);
                self.bit_written = self.bit_written + 1;
            },
            Err(_) => {
                proof {
                    assert(false);
                }
            },
        }
    }

    /// Writes the eight bits of `b`, most significant first.
    fn write_byte(&mut self, b: u8)
        requires
            old(self).wf(),
            old(self).written() + 8 <= old(self).gen_view().area(),
        ensures
            final(self).wf(),
            final(self).surface() == embed(old(self).surface(), old(self).gen_view(), byte_bits(b)),
            final(self).gen_view() == gen_after(old(self).gen_view(), 8),
            final(self).written() == old(self).written() + 8,
            steps_ok(old(self).gen_view(), 8),
    {
        let ghost s0 = self.surface();
        let ghost g0 = self.gen_view();
        let ghost w0 = self.written();
        let mut j: usize = 0;
        while j < 8
            invariant
                j <= 8,
                self.wf(),
                s0 == old(self).surface(),
                g0 == old(self).gen_view(),
                w0 == old(self).written(),
                w0 + 8 <= g0.area(),
                self.surface() == embed(s0, g0, byte_bits(b).take(j as int)),
                self.gen_view() == gen_after(g0, j as nat),
                self.written() == w0 + j,
                steps_ok(g0, j as nat),
            decreases 8 - j,
        {
            let bit = ((b >> ((7 - j) as u32)) & 1) == 1;
            proof {
                assert(bit == bit_of(b, j as int));
                lemma_gen_after(g0, j as nat);
                assert(self.gen_view().area() == g0.area());
                lemma_embed_concat(s0, g0, byte_bits(b).take(j as int), seq![bit_of(b, j as int)]);
                assert(byte_bits(b).take(j as int) + seq![bit_of(b, j as int)] =~= byte_bits(
                    b,
                ).take(j as int + 1));
            }
            let ghost gj = self.gen_view();
            self.write_bit(bit);
            proof {
                assert(embed(self.surface(), gj, Seq::<bool>::empty()) == self.surface());
                assert(embed(put_lsb(embed(s0, g0, byte_bits(b).take(j as int)), gj, bit), gen_step(gj), seq![bit_of(b, j as int)].subrange(1, 1)) == self.surface());
                assert(seq![bit_of(b, j as int)].subrange(1, 1) =~= Seq::<bool>::empty());
                assert(embed(embed(s0, g0, byte_bits(b).take(j as int)), gj, seq![bit_of(b, j as int)]) == self.surface());
                assert(self.surface() == embed(s0, g0, byte_bits(b).take(j as int + 1)));
                lemma_gen_after_one(gj, 1);
                lemma_gen_after_add(g0, j as nat, 1);
                assert(self.gen_view() == gen_after(g0, (j + 1) as nat));
                assert forall|i: nat| i < j + 1 implies step_ok(#[trigger] gen_after(g0, i)) by {
                    if i == j {
                        assert(gen_after(g0, i) == gj);
                    }
                };
            }
            j = j + 1;
        }
        proof {
            assert(byte_bits(b).take(8) =~= byte_bits(b));
        }
    }

    /// Writes a byte string, each byte most significant bit first.
    fn write_bytes(&mut self, bytes: &Vec<u8>)
        requires
            old(self).wf(),
            old(self).written() + 8 * bytes@.len() <= old(self).gen_view().area(),
        ensures
            final(self).wf(),
            final(self).surface() == embed(
                old(self).surface(),
                old(self).gen_view(),
                bytes_bits(bytes@),
            ),
            final(self).gen_view() == gen_after(old(self).gen_view(), 8 * bytes@.len()),
            final(self).written() == old(self).written() + 8 * bytes@.len(),
            steps_ok(old(self).gen_view(), 8 * bytes@.len()),
    {
        let ghost s0 = self.surface();
        let ghost g0 = self.gen_view();
        let ghost w0 = self.written();
        let mut k: usize = 0;
        while k < bytes.len()
            invariant
                k <= bytes@.len(),
                self.wf(),
                s0 == old(self).surface(),
                g0 == old(self).gen_view(),
                w0 == old(self).written(),
                w0 + 8 * bytes@.len() <= g0.area(),
                self.surface() == embed(s0, g0, bytes_bits(bytes@.take(k as int))),
                self.gen_view() == gen_after(g0, (8 * k) as nat),
                self.written() == w0 + 8 * k,
                steps_ok(g0, (8 * k) as nat),
            decreases bytes@.len() - k,
        {
            proof {
                lemma_gen_after(g0, (8 * k) as nat);
                assert(self.gen_view().area() == g0.area());
            }
            let ghost gk = self.gen_view();
            let b = bytes[k];
            self.write_byte(b);
            proof {
                lemma_bytes_bits_concat(bytes@.take(k as int), seq![b]);
                assert(bytes@.take(k as int) + seq![b] =~= bytes@.take(k as int + 1));
                assert(bytes_bits(seq![b]) =~= byte_bits(b)) by {
                    assert forall|i: int| 0 <= i < 8 implies bytes_bits(seq![b])[i] == byte_bits(
                        b,
                    )[i] by {
                        crate::bits::lemma_div8(0, i);
                    };
                };
                lemma_embed_concat(s0, g0, bytes_bits(bytes@.take(k as int)), byte_bits(b));
                assert(bytes_bits(bytes@.take(k as int)).len() == 8 * k);
                assert(self.surface() == embed(s0, g0, bytes_bits(bytes@.take(k as int + 1))));
                lemma_gen_after_add(g0, (8 * k) as nat, 8);
                lemma_steps_ok_concat(g0, (8 * k) as nat, 8);
            }
            k = k + 1;
        }
        proof {
            assert(bytes@.take(bytes@.len() as int) =~= bytes@);
        }
    }

    /// Writes the `{{length}}` header for `s`.
    fn write_metadata(&mut self, s: &str)
        requires
            old(self).wf(),
            s.spec_bytes().len() <= usize::MAX,
            old(self).written() + 8 * header_bytes(s.spec_bytes().len()).len() <= old(
                self,
            ).gen_view().area(),
        ensures
            final(self).wf(),
            final(self).surface() == embed(
                old(self).surface(),
                old(self).gen_view(),
                bytes_bits(header_bytes(s.spec_bytes().len())),
            ),
            final(self).gen_view() == gen_after(
                old(self).gen_view(),
                8 * header_bytes(s.spec_bytes().len()).len(),
            ),
            final(self).written() == old(self).written() + 8 * header_bytes(
                s.spec_bytes().len(),
            ).len(),
            steps_ok(old(self).gen_view(), 8 * header_bytes(s.spec_bytes().len()).len()),
    {
        let hv = header_vec(s.len() as u64);
        proof {
            assert(s.len() == s.spec_bytes().len());
        }
        self.write_bytes(&hv);
    }

    /// Frames `s` as a record and writes it after what was written before,
    /// provided header and payload together still fit; on a shortfall the
    /// carrier is left untouched.
    pub fn write_str(&mut self, s: &str) -> (r: Result<(), StegoError>)
        requires
            old(self).wf(),
        ensures
            final(self).wf(),
            final(self).gen_view().seed == old(self).gen_view().seed,
            final(self).gen_view().width == old(self).gen_view().width,
            final(self).gen_view().height == old(self).gen_view().height,
            ({
                let pb = s.spec_bytes();
                let need = record_bits(pb).len();
                if need <= old(self).gen_view().area() - old(self).written() {
                    &&& r == Ok::<(), StegoError>(())
                    &&& final(self).surface() == embed(
                        old(self).surface(),
                        old(self).gen_view(),
                        record_bits(pb),
                    )
                    &&& final(self).gen_view() == gen_after(old(self).gen_view(), need)
                    &&& final(self).written() == old(self).written() + need
                    &&& steps_ok(old(self).gen_view(), need)
                } else {
                    &&& r == Err::<(), StegoError>(StegoError::InsufficientCapacity)
                    &&& final(self).surface() == old(self).surface()
                    &&& final(self).gen_view() == old(self).gen_view()
                    &&& final(self).written() == old(self).written()
                }
            }),
    {
        let ghost s0 = self.surface();
        let ghost g0 = self.gen_view();
        proof {
            self.gen.lemma_wf();
        }
        let pb = s.as_bytes_vec();
        let plen = pb.len();
        proof {
            assert(s.spec_bytes().len() <= usize::MAX);
            assert(s.len() == s.spec_bytes().len());
            assert(record_bits(pb@).len() == 8 * (header_bytes(s.spec_bytes().len()).len()
                + pb@.len()));
        }
        let hv = header_vec(plen as u64);
        let (width, height) = self.img.dimensions();
        let available: u128 = (width as u128) * (height as u128) - (self.bit_written as u128);
        if !self.check_available_space(s) {
            return Err(StegoError::InsufficientCapacity);
        }
        let header_bits: u128 = (hv.len() as u128) * 8;
        if header_bits > available {
            return Err(StegoError::InsufficientCapacity);
        }
        let payload_bits: u128 = (plen as u128) * 8;
        if header_bits + payload_bits > available {
            return Err(StegoError::InsufficientCapacity);
        }
        self.write_metadata(s);
        proof {
            assert(g0.area() == width * height);
            assert(8 * header_bytes(s.spec_bytes().len()).len() + 8 * pb@.len() <= g0.area()
                - old(self).written());
            assert(self.written() + 8 * pb@.len() <= self.gen_view().area()) by {
                lemma_gen_after(g0, (8 * header_bytes(s.spec_bytes().len()).len()) as nat);
            };
        }
        self.write_bytes(&pb);
        proof {
            let hb = header_bytes(s.spec_bytes().len());
            let need = record_bits(pb@).len();
            lemma_bytes_bits_concat(hb, pb@);
            assert(record_bits(pb@) =~= bytes_bits(hb) + bytes_bits(pb@));
            lemma_embed_concat(s0, g0, bytes_bits(hb), bytes_bits(pb@));
            lemma_gen_after_add(g0, (8 * hb.len()) as nat, (8 * pb@.len()) as nat);
            lemma_steps_ok_concat(g0, (8 * hb.len()) as nat, (8 * pb@.len()) as nat);
            lemma_gen_after(g0, need);
        }
        Ok(())
    }

    /// Hands the mutated carrier back, ending the session.
    pub fn get_back_image(self) -> (r: Carrier)
        requires
            self.wf(),
        ensures
            r.wf(),
            r@ == self.surface(),
            r.spec_width() == self.gen_view().width,
            r.spec_height() == self.gen_view().height,
    {
        self.img
    }
}

} // verus!
