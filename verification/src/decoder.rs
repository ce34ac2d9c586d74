//! The decode session: replays the encoder's coordinate sequence with the
//! same seed, reads the least-significant bits back, and parses framed
//! records out of the stream.

use crate::bits::{
    all_digits, bits_value, dec_value, is_terminal, lemma_bits_value_bound, lemma_dec_value_prefix,
    lemma_div8, lemma_scan_found, lemma_scan_none, pack_bytes, scan_header, HeaderScan,
};
use crate::errors::StegoError;
use crate::generator::{
    fresh_view, gen_after, gen_step, lemma_coord_at_add, lemma_gen_after, lemma_gen_after_add,
    lemma_steps_ok_concat, step_ok, steps_ok, GenView, PixelGenerator,
};
use crate::plane::{extract, lemma_gen_after_one, lemma_stream_byte, lemma_stream_slice, lsb, touch_at};
use crate::surface::Carrier;
use vstd::prelude::*;
use vstd::string::StringExecFns;

verus! {

/// Each byte of the payload as one character, code point equal to the byte
/// value.  This round-trips only for seven-bit payloads; the wire format
/// itself carries raw bytes.
pub open spec fn chars_of(bs: Seq<u8>) -> Seq<char> {
    bs.map_values(|b: u8| b as char)
}

/// Relies on `String::push`: appends exactly the one character.
#[verifier::external_body]
fn push_char(s: &mut String, c: char)
    ensures
        final(s)@ == old(s)@.push(c),
{
    s.push(c);
}

/// What one `read` call yields on a surface from a generator state: the
/// decoded characters and the state after, or nothing when the stream holds
/// no whole record.
pub open spec fn decode_step(data: Seq<u8>, g: GenView) -> Option<(Seq<char>, GenView)> {
    let r = (g.area() - g.emitted.len()) as nat;
    let bs = pack_bytes(extract(data, g, r));
    match scan_header(bs) {
        HeaderScan::Found { len, nbytes } => if nbytes + len <= bs.len() {
            Some(
                (
                    chars_of(bs.subrange(nbytes as int, (nbytes + len) as int)),
                    gen_after(g, (8 * (nbytes + len)) as nat),
                ),
            )
        } else {
            None
        },
        _ => None,
    }
}

/// `n` consecutive `read` calls: the concatenated characters, the state
/// after, and whether all `n` found a record.
pub open spec fn decode_iter(data: Seq<u8>, g: GenView, n: nat) -> (Seq<char>, GenView, bool)
    decreases n,
{
    if n == 0 {
        (Seq::empty(), g, true)
    } else {
        let t = decode_iter(data, g, (n - 1) as nat);
        if !t.2 {
            (t.0, t.1, false)
        } else {
            match decode_step(data, t.1) {
                Some(p) => (t.0 + p.0, p.1, true),
                None => (t.0, t.1, false),
            }
        }
    }
}

/// `r` is what reading every record of the stream yields: `n` records were
/// found, the next read finds none, and `r` is their concatenation, or the
/// distinct empty signal when there was no record at all.
pub open spec fn decodes_to(data: Seq<u8>, g: GenView, n: nat, r: Option<Seq<char>>) -> bool {
    let t = decode_iter(data, g, n);
    &&& t.2
    &&& decode_step(data, t.1) is None
    &&& match r {
        Some(cs) => n >= 1 && cs == t.0,
        None => n == 0,
    }
}

/// What `read_all` may return on a surface from a generator state: either
/// some number of records were found and their characters concatenated, or
/// the very first read found none.
pub open spec fn read_all_post(data: Seq<u8>, g: GenView, r: Option<Seq<char>>) -> bool {
    match r {
        Some(cs) => exists|n: nat| #[trigger] decodes_to(data, g, n, Some(cs)),
        None => decodes_to(data, g, 0, None::<Seq<char>>),
    }
}

/// A decode session: the carrier and a generator seeded as the encoder's.
pub struct ImageDecoder {
    img: Carrier,
    gen: PixelGenerator,
}

impl ImageDecoder {
    /// The channel bytes of the carrier.
    pub closed spec fn surface(self) -> Seq<u8> {
        self.img@
    }

    /// The generator's mathematical state.
    pub closed spec fn gen_view(self) -> GenView {
        self.gen@
    }

    /// Bits not yet consumed.
    pub open spec fn remaining(self) -> int {
        self.gen_view().area() - self.gen_view().emitted.len()
    }

    /// The unread part of the bit stream.
    pub open spec fn stream(self) -> Seq<bool> {
        extract(self.surface(), self.gen_view(), self.remaining() as nat)
    }

    pub closed spec fn wf(self) -> bool {
        &&& self.img.wf()
        &&& self.gen.wf()
        &&& self.gen@.width == self.img.spec_width()
        &&& self.gen@.height == self.img.spec_height()
    }

    pub fn new(img: Carrier, seed: u64) -> (r: ImageDecoder)
        requires
            img.wf(),
        ensures
            r.wf(),
            r.surface() == img@,
            r.gen_view() == fresh_view(seed, img.spec_width(), img.spec_height()),
    {
        let (width, height) = img.dimensions();
        let gen = PixelGenerator::new(seed, width, height);
        ImageDecoder { img, gen }
    }

    /// Reads the least-significant bit of the channel at the next generator
    /// coordinate.
    fn read_bit(&mut self) -> (r: Result<bool, StegoError>)
        requires
            old(self).wf(),
        ensures
            final(self).wf(),
            final(self).surface() == old(self).surface(),
            final(self).gen_view().seed == old(self).gen_view().seed,
            final(self).gen_view().width == old(self).gen_view().width,
            final(self).gen_view().height == old(self).gen_view().height,
            match r {
                Ok(b) => {
                    &&& old(self).remaining() >= 1
                    &&& b == lsb(old(self).surface()[touch_at(old(self).gen_view(), 0)])
                    &&& final(self).gen_view() == gen_step(old(self).gen_view())
                    &&& step_ok(old(self).gen_view())
                },
                Err(e) => {
                    &&& e == StegoError::CapacityExhausted
                    &&& old(self).remaining() == 0
                    &&& final(self).gen_view() == old(self).gen_view()
                },
            },
    {
        let r = self.gen.next();
        match r {
            Ok((x, y)) => {
                let v = self.img.get_channel(x, y);
                proof {
                    assert(gen_after(old(self).gen_view(), 0) == old(self).gen_view());
                }
                Ok(v & 1 == 1)
            },
            Err(e) => Err(e),
        }
    }

    /// Reads eight bits and packs them into one byte, most significant bit
    /// first.
    fn read_byte(&mut self) -> (r: Result<u8, StegoError>)
        requires
            old(self).wf(),
        ensures
            final(self).wf(),
            final(self).surface() == old(self).surface(),
            final(self).gen_view().seed == old(self).gen_view().seed,
            final(self).gen_view().width == old(self).gen_view().width,
            final(self).gen_view().height == old(self).gen_view().height,
            match r {
                Ok(b) => {
                    &&& old(self).remaining() >= 8
                    &&& b == bits_value(extract(old(self).surface(), old(self).gen_view(), 8)) as u8
                    &&& final(self).gen_view() == gen_after(old(self).gen_view(), 8)
                    &&& steps_ok(old(self).gen_view(), 8)
                },
                Err(e) => {
                    &&& e == StegoError::CapacityExhausted
                    &&& old(self).remaining() < 8
                    &&& final(self).gen_view().emitted.len() == final(self).gen_view().area()
                },
            },
    {
        let ghost s0 = self.surface();
        let ghost g0 = self.gen_view();
        proof {
            self.gen.lemma_wf();
        }
        let mut acc: u8 = 0;
        let mut j: usize = 0;
        while j < 8
            invariant
                j <= 8,
                self.wf(),
                s0 == old(self).surface(),
                g0 == old(self).gen_view(),
                self.surface() == s0,
                self.gen_view() == gen_after(g0, j as nat),
                self.gen_view().seed == g0.seed,
                self.gen_view().width == g0.width,
                self.gen_view().height == g0.height,
                steps_ok(g0, j as nat),
                g0.emitted.len() + j <= g0.area(),
                acc == bits_value(extract(s0, g0, 8).take(j as int)),
            decreases 8 - j,
        {
            proof {
                lemma_gen_after(g0, j as nat);
                lemma_bits_value_bound(extract(s0, g0, 8).take(j as int));
                vstd::arithmetic::power2::lemma2_to64();
                if (j as int) < 7 {
                    vstd::arithmetic::power2::lemma_pow2_strictly_increases(j as nat, 7);
                }
            }
            let rb = self.read_bit();
            match rb {
                Ok(bit) => {
                    proof {
                        lemma_coord_at_add(g0, j as nat, 0);
                        assert(gen_after(gen_after(g0, j as nat), 0) == gen_after(g0, j as nat));
                        assert(bit == extract(s0, g0, 8)[j as int]);
                        assert(extract(s0, g0, 8).take(j as int + 1).drop_last() =~= extract(
                            s0,
                            g0,
                            8,
                        ).take(j as int));
                        lemma_gen_after_one(gen_after(g0, j as nat), 1);
                        lemma_gen_after_add(g0, j as nat, 1);
                        self.gen.lemma_wf();
                        lemma_gen_after(g0, (j + 1) as nat);
                        assert forall|i: nat|
                            i < j + 1 implies step_ok(#[trigger] gen_after(g0, i)) by {
                            if i == j {
                                assert(gen_after(g0, i) == gen_after(g0, j as nat));
                            }
                        };
                    }
                    acc = acc * 2 + (if bit {
                        1
                    } else {
                        0
                    });
                    j = j + 1;
                },
                Err(e) => {
                    proof {
                        self.gen.lemma_wf();
                        lemma_gen_after(g0, j as nat);
                    }
                    return Err(e);
                },
            }
        }
        proof {
            assert(extract(s0, g0, 8).take(8) =~= extract(s0, g0, 8));
            lemma_bits_value_bound(extract(s0, g0, 8));
            vstd::arithmetic::power2::lemma2_to64();
            lemma_gen_after(g0, 8);
        }
        Ok(acc)
    }

    /// Runs the header state machine: collects whole bytes until the buffer
    /// is exactly long enough to be a complete `{{length}}` header, then
    /// parses the digits between the braces.
    #[verifier::loop_isolation(false)]
    #[verifier::rlimit(60)]
    pub fn read_header(&mut self) -> (r: Result<u64, StegoError>)
        requires
            old(self).wf(),
        ensures
            final(self).wf(),
            final(self).surface() == old(self).surface(),
            final(self).gen_view().seed == old(self).gen_view().seed,
            final(self).gen_view().width == old(self).gen_view().width,
            final(self).gen_view().height == old(self).gen_view().height,
            ({
                let bs = pack_bytes(old(self).stream());
                match scan_header(bs) {
                    HeaderScan::Found { len, nbytes } => {
                        &&& r == Ok::<u64, StegoError>(len as u64)
                        &&& final(self).gen_view() == gen_after(
                            old(self).gen_view(),
                            (8 * nbytes) as nat,
                        )
                        &&& steps_ok(old(self).gen_view(), (8 * nbytes) as nat)
                    },
                    HeaderScan::Malformed { nbytes } => {
                        &&& r == Err::<u64, StegoError>(StegoError::MalformedLength)
                        &&& final(self).gen_view() == gen_after(
                            old(self).gen_view(),
                            (8 * nbytes) as nat,
                        )
                    },
                    HeaderScan::BadPrefix => {
                        &&& r == Err::<u64, StegoError>(StegoError::NoRecord)
                        &&& final(self).gen_view() == gen_after(old(self).gen_view(), 16)
                    },
                    HeaderScan::Exhausted => {
                        &&& r == Err::<u64, StegoError>(StegoError::NoRecord)
                        &&& final(self).gen_view().emitted.len() == final(self).gen_view().area()
                    },
                }
            }),
    {
        let ghost g0 = self.gen_view();
        let ghost s0 = self.surface();
        let ghost r0 = self.remaining() as nat;
        let ghost bs = pack_bytes(extract(s0, g0, r0));
        proof {
            self.gen.lemma_wf();
        }
        let mut buf: Vec<u8> = Vec::new();
        loop
            invariant
                self.wf(),
                g0 == old(self).gen_view(),
                s0 == old(self).surface(),
                r0 == old(self).remaining(),
                bs == pack_bytes(extract(s0, g0, r0)),
                self.surface() == s0,
                self.gen_view() == gen_after(g0, (8 * buf@.len()) as nat),
                self.gen_view().seed == g0.seed,
                self.gen_view().width == g0.width,
                self.gen_view().height == g0.height,
                steps_ok(g0, (8 * buf@.len()) as nat),
                g0.emitted.len() + 8 * buf@.len() <= g0.area(),
                buf@.len() <= bs.len(),
                buf@ =~= bs.take(buf@.len() as int),
                forall|m: int| 0 <= m <= buf@.len() ==> !is_terminal(#[trigger] bs.take(m)),
                buf@.len() >= 2 ==> bs[0] == 123 && bs[1] == 123,
            decreases bs.len() - buf@.len(),
        {
            let ghost k = buf@.len();
            let rb = self.read_byte();
            match rb {
                Err(_) => {
                    proof {
                        // fewer than eight bits were left: the stream holds
                        // exactly the bytes scanned so far
                        lemma_gen_after(g0, (8 * k) as nat);
                        assert(r0 - 8 * k < 8);
                        assert(r0 == 8 * k + (r0 - 8 * k));
                        lemma_div8(k as int, r0 - 8 * (k as int));
                        assert(bs.len() == k);
                        assert(bs.take(bs.len() as int) =~= bs);
                        lemma_scan_none(bs);
                        self.gen.lemma_wf();
                    }
                    return Err(StegoError::NoRecord);
                },
                Ok(b) => {
                    proof {
                        lemma_gen_after(g0, (8 * k) as nat);
                        lemma_stream_byte(s0, g0, r0, k);
                        vstd::arithmetic::div_mod::lemma_div_is_ordered(
                            8 * (k as int + 1),
                            r0 as int,
                            8,
                        );
                        lemma_div8(k as int + 1, 0);
                        assert(b == bs[k as int]);
                        lemma_gen_after_add(g0, (8 * k) as nat, 8);
                        lemma_steps_ok_concat(g0, (8 * k) as nat, 8);
                        self.gen.lemma_wf();
                        lemma_gen_after(g0, (8 * k + 8) as nat);
                    }
                    buf.push(b);
                    proof {
                        assert(buf@ =~= bs.take(k as int + 1));
                    }
                    if buf.len() == 2 {
                        if !(buf[0] == 123 && buf[1] == 123) {
                            proof {
                                assert(bs[0] == buf@[0] && bs[1] == buf@[1]);
                            }
                            return Err(StegoError::NoRecord);
                        }
                    }
                    let blen = buf.len();
                    if blen >= 4 && buf[blen - 2] == 125 && buf[blen - 1] == 125 {
                        // the buffer first completes here: parse the digits
                        proof {
                            assert(is_terminal(bs.take(k as int + 1)));
                            lemma_scan_found(bs, (k + 1) as nat);
                        }
                        let ghost m0 = k + 1;
                        let ghost body = bs.subrange(2, m0 as int - 2);
                        proof {
                            assert(body =~= buf@.subrange(2, buf@.len() - 2));
                        }
                        if blen == 4 {
                            // nothing between the braces
                            return Err(StegoError::MalformedLength);
                        }
                        let mut acc: u64 = 0;
                        let mut i: usize = 2;
                        while i < blen - 2
                            invariant
                                2 <= i <= blen - 2,
                                blen == buf@.len(),
                                4 < blen,
                                body == bs.subrange(2, blen - 2),
                                buf@ == bs.take(blen as int),
                                blen <= bs.len(),
                                body.len() == blen - 4,
                                forall|q: int| 0 <= q < i - 2 ==> crate::bits::is_digit(#[trigger] body[q]),
                                acc == dec_value(body.take(i - 2)),
                            decreases blen - i,
                        {
                            let d = buf[i];
                            proof {
                                assert(d == body[i - 2]);
                                assert(body.take(i - 2 + 1).drop_last() =~= body.take(i - 2));
                            }
                            if !(48 <= d && d <= 57) {
                                proof {
                                    assert(!all_digits(body));
                                }
                                return Err(StegoError::MalformedLength);
                            }
                            let step = match acc.checked_mul(10) {
                                Some(t) => t.checked_add((d - 48) as u64),
                                None => None,
                            };
                            match step {
                                Some(t) => {
                                    acc = t;
                                },
                                None => {
                                    proof {
                                        lemma_dec_value_prefix(body, i - 2 + 1);
                                        assert(dec_value(body.take(i - 2 + 1)) > u64::MAX);
                                    }
                                    return Err(StegoError::MalformedLength);
                                },
                            }
                            i = i + 1;
                        }
                        proof {
                            assert(body.take(body.len() as int) =~= body);
                            assert(all_digits(body));
                            assert(dec_value(body) == acc);
                        }
                        return Ok(acc);
                    }
                },
            }
        }
    }

    /// Reads exactly `str_len` bytes of payload, each one becoming one
    /// character.
    pub fn read_str(&mut self, str_len: u64) -> (r: Result<String, StegoError>)
        requires
            old(self).wf(),
        ensures
            final(self).wf(),
            final(self).surface() == old(self).surface(),
            final(self).gen_view().seed == old(self).gen_view().seed,
            final(self).gen_view().width == old(self).gen_view().width,
            final(self).gen_view().height == old(self).gen_view().height,
            ({
                if 8 * str_len <= old(self).remaining() {
                    match r {
                        Ok(s) => {
                            &&& s@ == chars_of(
                                pack_bytes(
                                    extract(
                                        old(self).surface(),
                                        old(self).gen_view(),
                                        (8 * str_len) as nat,
                                    ),
                                ),
                            )
                            &&& final(self).gen_view() == gen_after(
                                old(self).gen_view(),
                                (8 * str_len) as nat,
                            )
                            &&& steps_ok(old(self).gen_view(), (8 * str_len) as nat)
                        },
                        Err(_) => false,
                    }
                } else {
                    match r {
                        Ok(_) => false,
                        Err(e) => e == StegoError::CapacityExhausted,
                    }
                }
            }),
    {
        let ghost g0 = self.gen_view();
        let ghost s0 = self.surface();
        let ghost r0 = self.remaining();
        let ghost want = pack_bytes(extract(s0, g0, (8 * str_len) as nat));
        proof {
            self.gen.lemma_wf();
        }
        let mut out = String::new();
        let mut k: u64 = 0;
        while k < str_len
            invariant
                k <= str_len,
                self.wf(),
                g0 == old(self).gen_view(),
                s0 == old(self).surface(),
                r0 == old(self).remaining(),
                want == pack_bytes(extract(s0, g0, (8 * str_len) as nat)),
                self.surface() == s0,
                self.gen_view() == gen_after(g0, (8 * k) as nat),
                self.gen_view().seed == g0.seed,
                self.gen_view().width == g0.width,
                self.gen_view().height == g0.height,
                steps_ok(g0, (8 * k) as nat),
                g0.emitted.len() + 8 * k <= g0.area(),
                out@ =~= chars_of(want.take(k as int)),
                8 * str_len <= r0 ==> 8 * k <= r0,
            decreases str_len - k,
        {
            let ghost kk = k as nat;
            let rb = self.read_byte();
            match rb {
                Ok(b) => {
                    proof {
                        lemma_stream_byte(s0, g0, (8 * str_len) as nat, kk);
                        assert(b == want[k as int]);
                        lemma_gen_after_add(g0, (8 * kk) as nat, 8);
                        lemma_steps_ok_concat(g0, (8 * kk) as nat, 8);
                        self.gen.lemma_wf();
                        lemma_gen_after(g0, (8 * kk + 8) as nat);
                        assert(want.take(k as int + 1) =~= want.take(k as int).push(b));
                    }
                    push_char(&mut out, b as char);
                    proof {
                        assert(out@ =~= chars_of(want.take(k as int + 1)));
                    }
                    k = k + 1;
                },
                Err(e) => {
                    proof {
                        self.gen.lemma_wf();
                        lemma_gen_after(g0, (8 * kk) as nat);
                        assert(r0 - 8 * k < 8);
                        assert(8 * str_len > r0);
                    }
                    return Err(e);
                },
            }
        }
        proof {
            assert(want.take(str_len as int) =~= want);
            lemma_div8(str_len as int, 0);
            assert(8 * str_len <= r0) by {
                lemma_gen_after(g0, (8 * str_len) as nat);
                self.gen.lemma_wf();
            };
        }
        Ok(out)
    }

    /// Reads one record: header, then exactly the announced payload.
    pub fn read(&mut self) -> (r: Option<String>)
        requires
            old(self).wf(),
        ensures
            final(self).wf(),
            final(self).surface() == old(self).surface(),
            final(self).gen_view().seed == old(self).gen_view().seed,
            final(self).gen_view().width == old(self).gen_view().width,
            final(self).gen_view().height == old(self).gen_view().height,
            match decode_step(old(self).surface(), old(self).gen_view()) {
                Some(p) => match r {
                    Some(s) => s@ == p.0 && final(self).gen_view() == p.1,
                    None => false,
                },
                None => r is None,
            },
    {
        let ghost g0 = self.gen_view();
        let ghost s0 = self.surface();
        let ghost r0 = self.remaining() as nat;
        let ghost bs = pack_bytes(extract(s0, g0, r0));
        proof {
            self.gen.lemma_wf();
        }
        let h = self.read_header();
        match h {
            Ok(len) => {
                proof {
                    let nb = (match scan_header(bs) {
                        HeaderScan::Found { nbytes, .. } => nbytes,
                        _ => 0,
                    }) as nat;
                    crate::bits::lemma_scan_found_le(bs);
                    lemma_gen_after(g0, (8 * nb) as nat);
                }
                let rs = self.read_str(len);
                match rs {
                    Ok(s) => {
                        proof {
                            let nb = (match scan_header(bs) {
                                HeaderScan::Found { nbytes, .. } => nbytes,
                                _ => 0,
                            }) as nat;
                            vstd::arithmetic::div_mod::lemma_fundamental_div_mod(r0 as int, 8);
                            lemma_stream_slice(s0, g0, r0, nb, len as nat);
                            lemma_gen_after_add(g0, (8 * nb) as nat, (8 * len) as nat);
                            vstd::arithmetic::div_mod::lemma_div_is_ordered(
                                8 * (nb as int + len as int),
                                r0 as int,
                                8,
                            );
                            lemma_div8(nb as int + len as int, 0);
                        }
                        Some(s)
                    },
                    Err(_) => {
                        proof {
                            let nb = (match scan_header(bs) {
                                HeaderScan::Found { nbytes, .. } => nbytes,
                                _ => 0,
                            }) as nat;
                            let plen = (match scan_header(bs) {
                                HeaderScan::Found { len, .. } => len,
                                _ => 0,
                            }) as nat;
                            lemma_gen_after(g0, (8 * nb) as nat);
                            if nb + plen <= bs.len() {
                                vstd::arithmetic::div_mod::lemma_fundamental_div_mod(r0 as int, 8);
                                assert(8 * (nb + plen) <= 8 * bs.len() <= r0);
                            }
                        }
                        None
                    },
                }
            },
            Err(_) => None,
        }
    }

    /// Reads records until none is found, concatenating every payload, or
    /// signals that not even one record was present.
    pub fn read_all(&mut self) -> (r: Option<String>)
        requires
            old(self).wf(),
        ensures
            final(self).wf(),
            final(self).surface() == old(self).surface(),
            read_all_post(
                old(self).surface(),
                old(self).gen_view(),
                match r {
                    Some(s) => Some(s@),
                    None => None::<Seq<char>>,
                },
            ),
    {
        let ghost g0 = self.gen_view();
        let ghost s0 = self.surface();
        proof {
            self.gen.lemma_wf();
        }
        let mut acc = String::new();
        let mut has_any: bool = false;
        let ghost mut n: nat = 0;
        loop
            invariant
                self.wf(),
                g0 == old(self).gen_view(),
                s0 == old(self).surface(),
                self.surface() == s0,
                decode_iter(s0, g0, n).0 == acc@,
                decode_iter(s0, g0, n).1 == self.gen_view(),
                decode_iter(s0, g0, n).2,
                has_any == (n >= 1),
                self.gen_view().emitted.len() <= self.gen_view().area(),
                self.gen_view().area() == g0.area(),
            decreases g0.area() - self.gen_view().emitted.len(),
        {
            let ghost gcur = self.gen_view();
            let got = self.read();
            proof {
                self.gen.lemma_wf();
            }
            match got {
                Some(s) => {
                    acc.append(s.as_str());
                    has_any = true;
                    proof {
                        n = n + 1;
                        let bs = pack_bytes(extract(s0, gcur, (gcur.area()
                            - gcur.emitted.len()) as nat));
                        let nb = (match scan_header(bs) {
                            HeaderScan::Found { nbytes, .. } => nbytes,
                            _ => 0,
                        }) as nat;
                        crate::bits::lemma_scan_found_le(bs);
                        lemma_gen_after(gcur, (8 * (nb + (match scan_header(bs) {
                            HeaderScan::Found { len, .. } => len,
                            _ => 0,
                        }) as nat)) as nat);
                    }
                },
                None => {
                    proof {
                        assert(decode_step(s0, gcur) is None);
                        if has_any {
                            assert(decodes_to(s0, g0, n, Some(acc@)));
                            assert(read_all_post(s0, g0, Some(acc@)));
                        } else {
                            assert(decodes_to(s0, g0, 0, None::<Seq<char>>));
                            assert(read_all_post(s0, g0, None::<Seq<char>>));
                        }
                    }
                    if has_any {
                        return Some(acc);
                    } else {
                        return None;
                    }
                },
            }
        }
    }
}

} // verus!
