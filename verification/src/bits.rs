//! The pure model of the wire format: bytes as bit sequences (most
//! significant bit first), decimal length fields, and the `{{length}}`
//! header that frames each record.

use vstd::arithmetic::div_mod::lemma_fundamental_div_mod_converse;
use vstd::arithmetic::power2::pow2;
use vstd::prelude::*;

verus! {

/// Bit `i` of byte `b`, counting the most significant bit as bit 0.
pub open spec fn bit_of(b: u8, i: int) -> bool {
    (b >> ((7 - i) as u32)) & 1 == 1
}

/// The eight bits of `b`, most significant first.
pub open spec fn byte_bits(b: u8) -> Seq<bool> {
    Seq::new(8, |i: int| bit_of(b, i))
}

/// The bits of a byte string, each byte most significant bit first.
pub open spec fn bytes_bits(bs: Seq<u8>) -> Seq<bool> {
    Seq::new(bs.len() * 8, |i: int| bit_of(bs[i / 8], i % 8))
}

/// Numeric value of a bit string read most significant bit first.
pub open spec fn bits_value(s: Seq<bool>) -> nat
    decreases s.len(),
{
    if s.len() == 0 {
        0
    } else {
        bits_value(s.drop_last()) * 2 + (if s.last() {
            1nat
        } else {
            0nat
        })
    }
}

/// Regroups a bit string into whole bytes; a trailing fragment of fewer
/// than eight bits is dropped.
pub open spec fn pack_bytes(bits: Seq<bool>) -> Seq<u8> {
    Seq::new(bits.len() / 8, |k: int| bits_value(bits.subrange(8 * k, 8 * k + 8)) as u8)
}

pub proof fn lemma_div8(k: int, a: int)
    requires
        0 <= a < 8,
    ensures
        (8 * k + a) / 8 == k,
        (8 * k + a) % 8 == a,
{
    lemma_fundamental_div_mod_converse(8 * k + a, 8, k, a);
}

pub proof fn lemma_bits_value_bound(s: Seq<bool>)
    ensures
        bits_value(s) < pow2(s.len()),
    decreases s.len(),
{
    if s.len() == 0 {
        vstd::arithmetic::power2::lemma2_to64();
    } else {
        vstd::arithmetic::power2::lemma_pow2_unfold(s.len() as nat);
        lemma_bits_value_bound(s.drop_last());
    }
}

/// The value of the first `k` bits of `byte_bits(b)` is `b` shifted right
/// by the remaining positions.
proof fn lemma_byte_bits_prefix(b: u8, k: u32)
    requires
        1 <= k <= 8,
    ensures
        bits_value(byte_bits(b).take(k as int)) == (b >> ((8 - k) as u32)) as nat,
    decreases k,
{
    let s = byte_bits(b);
    if k == 1 {
        let t = s.take(1);
        assert(t.drop_last() =~= Seq::<bool>::empty());
        assert(bits_value(t.drop_last()) == 0);
        assert(t.last() == bit_of(b, 0));
        assert(bits_value(t) == (if bit_of(b, 0) {
            1nat
        } else {
            0nat
        }));
        assert((if (b >> 7u32) & 1 == 1 {
            1u8
        } else {
            0u8
        }) == b >> 7u32) by (bit_vector);
        assert((8 - k) as u32 == 7u32);
    } else {
        lemma_byte_bits_prefix(b, (k - 1) as u32);
        assert(s.take(k as int).drop_last() =~= s.take(k as int - 1));
        assert(s.take(k as int).last() == bit_of(b, k as int - 1));
        let k8: u32 = (8 - k) as u32;
        assert(((b >> (k8 + 1)) as nat) * 2 + (if (b >> k8) & 1 == 1 {
            1nat
        } else {
            0nat
        }) == (b >> k8) as nat) by (bit_vector)
            requires
                k8 < 8,
        ;
    }
}

pub proof fn lemma_byte_bits_value(b: u8)
    ensures
        bits_value(byte_bits(b)) == b,
{
    lemma_byte_bits_prefix(b, 8);
    assert(byte_bits(b).take(8) =~= byte_bits(b));
    assert(b >> 0u32 == b) by (bit_vector);
}

pub proof fn lemma_bytes_bits_concat(a: Seq<u8>, b: Seq<u8>)
    ensures
        bytes_bits(a + b) =~= bytes_bits(a) + bytes_bits(b),
{
    let la = a.len() as int;
    assert forall|i: int| 0 <= i < (la + b.len()) * 8 implies bytes_bits(a + b)[i] == (bytes_bits(a)
        + bytes_bits(b))[i] by {
        if i < la * 8 {
            lemma_div8(i / 8, i % 8);
            assert(0 <= i / 8 < la) by {
                lemma_div8(i / 8, i % 8);
            };
        } else {
            let j = i - la * 8;
            lemma_div8(j / 8, j % 8);
            assert(i == 8 * (la + j / 8) + j % 8);
            lemma_div8(la + j / 8, j % 8);
        }
    };
}

/// A whole byte of `bytes_bits(bs)` packs back to the byte it came from.
pub proof fn lemma_bytes_bits_chunk(bs: Seq<u8>, k: int)
    requires
        0 <= k < bs.len(),
    ensures
        bytes_bits(bs).subrange(8 * k, 8 * k + 8) =~= byte_bits(bs[k]),
{
    assert forall|i: int| 0 <= i < 8 implies bytes_bits(bs).subrange(8 * k, 8 * k + 8)[i]
        == byte_bits(bs[k])[i] by {
        lemma_div8(k, i);
    };
}

pub proof fn lemma_pack_bytes_of_bytes(bs: Seq<u8>)
    ensures
        pack_bytes(bytes_bits(bs)) =~= bs,
{
    lemma_div8(bs.len() as int, 0);
    assert forall|k: int| 0 <= k < bs.len() implies pack_bytes(bytes_bits(bs))[k] == bs[k] by {
        lemma_bytes_bits_chunk(bs, k);
        lemma_byte_bits_value(bs[k]);
    };
}

/// Packing distributes over concatenation at a byte boundary.
pub proof fn lemma_pack_bytes_concat(a: Seq<bool>, b: Seq<bool>)
    requires
        a.len() % 8 == 0,
    ensures
        pack_bytes(a + b) =~= pack_bytes(a) + pack_bytes(b),
{
    let la = a.len() as int;
    let ka = la / 8;
    assert(la == 8 * ka + 0);
    lemma_div8(ka, 0);
    assert((a + b).len() as int == 8 * (ka + b.len() / 8) + b.len() % 8);
    lemma_div8(ka + (b.len() / 8) as int, (b.len() % 8) as int);
    assert(pack_bytes(a + b).len() == ka + b.len() / 8);
    assert forall|k: int| 0 <= k < ka + b.len() / 8 implies pack_bytes(a + b)[k] == (pack_bytes(a)
        + pack_bytes(b))[k] by {
        if k < ka {
            assert((a + b).subrange(8 * k, 8 * k + 8) =~= a.subrange(8 * k, 8 * k + 8));
        } else {
            assert((a + b).subrange(8 * k, 8 * k + 8) =~= b.subrange(
                8 * (k - ka),
                8 * (k - ka) + 8,
            ));
        }
    };
}

pub open spec fn is_digit(d: u8) -> bool {
    48 <= d && d <= 57
}

pub open spec fn digit_val(d: u8) -> nat {
    if is_digit(d) {
        (d - 48) as nat
    } else {
        0
    }
}

pub open spec fn all_digits(ds: Seq<u8>) -> bool {
    forall|i: int| 0 <= i < ds.len() ==> is_digit(#[trigger] ds[i])
}

/// Value of a decimal digit string, most significant digit first.
pub open spec fn dec_value(ds: Seq<u8>) -> nat
    decreases ds.len(),
{
    if ds.len() == 0 {
        0
    } else {
        dec_value(ds.drop_last()) * 10 + digit_val(ds.last())
    }
}

/// The shortest decimal rendering of `n`, as ASCII digit bytes.
pub open spec fn dec_digits(n: nat) -> Seq<u8>
    decreases n,
{
    if n < 10 {
        seq![(48 + n) as u8]
    } else {
        dec_digits(n / 10) + seq![(48 + n % 10) as u8]
    }
}

pub proof fn lemma_dec_digits(n: nat)
    ensures
        all_digits(dec_digits(n)),
        dec_digits(n).len() >= 1,
        dec_value(dec_digits(n)) == n,
    decreases n,
{
    if n < 10 {
        assert(dec_digits(n).drop_last() =~= Seq::<u8>::empty());
        assert(dec_value(Seq::<u8>::empty()) == 0);
        assert(dec_digits(n).last() == (48 + n) as u8);
    } else {
        lemma_dec_digits(n / 10);
        let d = dec_digits(n);
        assert(d.drop_last() =~= dec_digits(n / 10));
        assert(d.last() == (48 + n % 10) as u8);
        vstd::arithmetic::div_mod::lemma_fundamental_div_mod(n as int, 10);
    }
}

/// Appending digits never lowers the value of the string.
pub proof fn lemma_dec_value_prefix(ds: Seq<u8>, i: int)
    requires
        0 <= i <= ds.len(),
    ensures
        dec_value(ds.take(i)) <= dec_value(ds),
    decreases ds.len() - i,
{
    if i == ds.len() {
        assert(ds.take(i) =~= ds);
    } else {
        assert(ds.take(i + 1).drop_last() =~= ds.take(i));
        lemma_dec_value_prefix(ds, i + 1);
    }
}

/// The framing header: `{{`, the payload length in decimal, `}}`.
pub open spec fn header_bytes(n: nat) -> Seq<u8> {
    seq![123u8, 123u8] + dec_digits(n) + seq![125u8, 125u8]
}

/// One framed record on the wire: the header bytes followed by the payload
/// bytes, each sent most significant bit first.
pub open spec fn record_bits(payload: Seq<u8>) -> Seq<bool> {
    bytes_bits(header_bytes(payload.len()) + payload)
}

/// A header buffer is complete once it has at least four characters and
/// ends with the two closing braces.
pub open spec fn is_terminal(buf: Seq<u8>) -> bool {
    buf.len() >= 4 && buf[buf.len() - 2] == 125 && buf[buf.len() - 1] == 125
}

/// The first prefix length `m >= k` at which the header buffer is complete,
/// if the stream reaches one.
pub open spec fn scan_from(bs: Seq<u8>, k: nat) -> Option<nat>
    decreases bs.len() + 1 - k,
{
    if k > bs.len() {
        Option::None
    } else if is_terminal(bs.take(k as int)) {
        Option::Some(k)
    } else {
        scan_from(bs, k + 1)
    }
}

/// What the header state machine yields on a byte stream: a payload length
/// and the number of header bytes consumed, a malformed length field, a
/// wrong opening pair, or exhaustion of the stream.
pub enum HeaderScan {
    Found { len: nat, nbytes: nat },
    Malformed { nbytes: nat },
    BadPrefix,
    Exhausted,
}

/// The header state machine over a byte stream.
pub open spec fn scan_header(bs: Seq<u8>) -> HeaderScan {
    if bs.len() < 2 {
        HeaderScan::Exhausted
    } else if !(bs[0] == 123 && bs[1] == 123) {
        HeaderScan::BadPrefix
    } else {
        match scan_from(bs, 4) {
            Option::None => HeaderScan::Exhausted,
            Option::Some(m) => {
                let body = bs.subrange(2, m - 2);
                if body.len() >= 1 && all_digits(body) && dec_value(body) <= u64::MAX {
                    HeaderScan::Found { len: dec_value(body), nbytes: m }
                } else {
                    HeaderScan::Malformed { nbytes: m }
                }
            },
        }
    }
}

proof fn lemma_scan_found_from(bs: Seq<u8>, k: nat, m: nat)
    requires
        k <= m <= bs.len(),
        is_terminal(bs.take(m as int)),
        forall|j: int| k <= j < m ==> !is_terminal(#[trigger] bs.take(j)),
    ensures
        scan_from(bs, k) == Option::Some(m),
    decreases m - k,
{
    if k < m {
        lemma_scan_found_from(bs, k + 1, m);
    }
}

/// If the buffer first completes at `m`, the scan finds exactly `m`.
pub proof fn lemma_scan_found(bs: Seq<u8>, m: nat)
    requires
        4 <= m <= bs.len(),
        is_terminal(bs.take(m as int)),
        forall|j: int| 0 <= j < m ==> !is_terminal(#[trigger] bs.take(j)),
    ensures
        scan_from(bs, 4) == Option::Some(m),
{
    lemma_scan_found_from(bs, 4, m);
}

proof fn lemma_scan_none_from(bs: Seq<u8>, k: nat)
    requires
        forall|j: int| 0 <= j <= bs.len() ==> !is_terminal(#[trigger] bs.take(j)),
    ensures
        scan_from(bs, k) == Option::<nat>::None,
    decreases bs.len() + 1 - k,
{
    if k <= bs.len() {
        lemma_scan_none_from(bs, k + 1);
    }
}

/// If the buffer never completes within the stream, the scan finds nothing.
pub proof fn lemma_scan_none(bs: Seq<u8>)
    requires
        forall|j: int| 0 <= j <= bs.len() ==> !is_terminal(#[trigger] bs.take(j)),
    ensures
        scan_from(bs, 4) == Option::<nat>::None,
{
    lemma_scan_none_from(bs, 4);
}

pub proof fn lemma_bits_value_zero(s: Seq<bool>)
    requires
        forall|i: int| 0 <= i < s.len() ==> !s[i],
    ensures
        bits_value(s) == 0,
    decreases s.len(),
{
    if s.len() > 0 {
        lemma_bits_value_zero(s.drop_last());
    }
}

proof fn lemma_scan_from_le(bs: Seq<u8>, k: nat)
    ensures
        match scan_from(bs, k) {
            Option::Some(m) => k <= m <= bs.len() && is_terminal(bs.take(m as int)),
            Option::None => true,
        },
    decreases bs.len() + 1 - k,
{
    if k <= bs.len() && !is_terminal(bs.take(k as int)) {
        lemma_scan_from_le(bs, k + 1);
    }
}

/// A found or malformed header occupies between four bytes and the whole
/// stream.
pub proof fn lemma_scan_found_le(bs: Seq<u8>)
    ensures
        match scan_header(bs) {
            HeaderScan::Found { nbytes, .. } => 4 <= nbytes <= bs.len(),
            HeaderScan::Malformed { nbytes } => 4 <= nbytes <= bs.len(),
            _ => true,
        },
{
    lemma_scan_from_le(bs, 4);
}

/// A stream whose bits are all clear holds no record: its bytes are zero,
/// so the opening pair can never appear.
pub proof fn lemma_scan_of_zeros(bits: Seq<bool>)
    requires
        forall|i: int| 0 <= i < bits.len() ==> !bits[i],
    ensures
        scan_header(pack_bytes(bits)) == HeaderScan::Exhausted || scan_header(pack_bytes(bits))
            == HeaderScan::BadPrefix,
{
    let bs = pack_bytes(bits);
    if bs.len() >= 2 {
        lemma_bits_value_zero(bits.subrange(0, 8));
        assert(bs[0] == 0);
    }
}

/// No proper prefix of the header ends in the closing pair: every byte
/// between the markers is a decimal digit.
proof fn lemma_header_no_early_terminal(n: nat, j: int)
    requires
        0 <= j < header_bytes(n).len(),
    ensures
        !is_terminal(header_bytes(n).take(j)),
{
    lemma_dec_digits(n);
    let hb = header_bytes(n);
    let d = dec_digits(n).len() as int;
    if j >= 4 {
        if j - 1 == 2 + d {
            assert(hb.take(j)[j - 2] == hb[j - 2]);
            assert(hb[j - 2] == dec_digits(n)[d - 1]);
            assert(is_digit(dec_digits(n)[d - 1]));
        } else {
            assert(hb.take(j)[j - 1] == hb[j - 1]);
            assert(hb[j - 1] == dec_digits(n)[j - 3]);
            assert(is_digit(dec_digits(n)[j - 3]));
        }
    }
}

/// The central framing fact: a record followed by anything scans back to
/// exactly its own length field, and the payload bytes follow the header.
pub proof fn lemma_scan_of_record(p: Seq<u8>, rest: Seq<bool>)
    requires
        p.len() <= u64::MAX,
    ensures
        ({
            let hb = header_bytes(p.len());
            let bs = pack_bytes(record_bits(p) + rest);
            &&& scan_header(bs) == (HeaderScan::Found { len: p.len(), nbytes: hb.len() })
            &&& bs.len() >= hb.len() + p.len()
            &&& bs.subrange(hb.len() as int, (hb.len() + p.len()) as int) =~= p
        }),
{
    let hb = header_bytes(p.len());
    let m0 = hb.len() as int;
    lemma_dec_digits(p.len());
    let wire = hb + p;
    lemma_div8(wire.len() as int, 0);
    assert(bytes_bits(wire).len() % 8 == 0);
    lemma_pack_bytes_concat(bytes_bits(wire), rest);
    lemma_pack_bytes_of_bytes(wire);
    let bs = pack_bytes(record_bits(p) + rest);
    assert(bs =~= wire + pack_bytes(rest));
    assert(bs[0] == 123 && bs[1] == 123);
    // the first complete buffer is the whole header
    assert(bs.take(m0) =~= hb);
    assert(hb[m0 - 2] == 125 && hb[m0 - 1] == 125);
    assert(is_terminal(bs.take(m0)));
    assert forall|j: int| 0 <= j < m0 implies !is_terminal(#[trigger] bs.take(j)) by {
        assert(bs.take(j) =~= hb.take(j));
        lemma_header_no_early_terminal(p.len(), j);
    };
    lemma_scan_found(bs, m0 as nat);
    let body = bs.subrange(2, m0 - 2);
    assert(body =~= dec_digits(p.len()));
    assert(bs.subrange(m0, m0 + p.len()) =~= p);
}

} // verus!
