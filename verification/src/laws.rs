//! The library's global guarantees, proved from the contracts of the parts:
//! determinism of the coordinate sequence, full grid coverage at
//! exhaustion, record round trips, order of multiple records, and the
//! behaviour of reads beyond the written records.

use crate::bits::record_bits;
use crate::decoder::{chars_of, decode_step};
use crate::generator::{
    gen_after, grid_set, lemma_gen_after, lemma_gen_after_add, lemma_grid_set_size,
    lemma_trace_fresh, steps_ok, trace, GenView,
};
use crate::plane::{
    embed, extract, lemma_embed_concat, lemma_embed_len, lemma_embed_lsb_only,
    lemma_embed_untouched, lemma_extract_embed, lemma_extract_split, lsb, touch_at,
};
use crate::surface::{lemma_pix_at_bound, lemma_pix_at_injective};
use vstd::prelude::*;
use vstd::string::StringSliceAdditionalSpecFns;
use vstd::utf8::is_ascii_chars;

verus! {

/// The coordinate sequence is a function of the seed, the width and the
/// height alone: two generator states that agree on them (and on their
/// progress) yield the same coordinates in the same order, position for
/// position.  Together with the contract of `PixelGenerator::next`, whose
/// result is pinned to `gen_coord` of the prior state, two generators
/// constructed with the same parameters emit identical sequences.
pub proof fn lemma_generator_deterministic(g1: GenView, g2: GenView, n: nat)
    requires
        g1.seed == g2.seed,
        g1.width == g2.width,
        g1.height == g2.height,
        g1.hist == g2.hist,
        g1.emitted == g2.emitted,
    ensures
        trace(g1, n) == trace(g2, n),
        gen_after(g1, n) == gen_after(g2, n),
{
    assert(g1 =~= g2);
}

/// After `width * height` successful draws the emitted coordinates are
/// exactly the grid: every coordinate appears, and none appears twice.
/// That a further draw fails with `CapacityExhausted` is the contract of
/// `PixelGenerator::next` at this state.
pub proof fn lemma_exhausted_generator_covers_grid(g: GenView)
    requires
        g.wf(),
        g.emitted.len() == g.area(),
    ensures
        g.emitted.to_set() =~= grid_set(g.width, g.height),
        forall|c: (u32, u32)| c.0 < g.width && c.1 < g.height ==> g.emitted.contains(c),
        g.emitted.no_duplicates(),
{
    broadcast use vstd::seq_lib::seq_to_set_is_finite;

    assert(g.emitted.no_duplicates());
    g.emitted.unique_seq_to_set();
    lemma_grid_set_size(g.width, g.height);
    let es = g.emitted.to_set();
    let grid = grid_set(g.width, g.height);
    assert(es.subset_of(grid));
    vstd::set_lib::lemma_subset_equality(es, grid);
    assert forall|c: (u32, u32)| c.0 < g.width && c.1 < g.height implies g.emitted.contains(c) by {
        assert(es.contains(c));
    };
}

/// A stream that starts with one whole framed record decodes to exactly
/// that record's payload, whatever follows it: the reader stops right
/// after the record.
pub proof fn lemma_decode_next_record(data2: Seq<u8>, g: GenView, p: Seq<u8>)
    requires
        data2.len() == g.area(),
        p.len() <= u64::MAX,
        record_bits(p).len() <= g.area() - g.emitted.len(),
        extract(data2, g, record_bits(p).len()) =~= record_bits(p),
    ensures
        decode_step(data2, g) == Some(
            (chars_of(p), gen_after(g, record_bits(p).len())),
        ),
{
    let n = record_bits(p).len();
    let r = (g.area() - g.emitted.len()) as nat;
    let rest = extract(data2, gen_after(g, n), (r - n) as nat);
    lemma_extract_split(data2, g, n, (r - n) as nat);
    assert(extract(data2, g, r) =~= record_bits(p) + rest);
    crate::bits::lemma_scan_of_record(p, rest);
    let hb = crate::bits::header_bytes(p.len());
    let bs = crate::bits::pack_bytes(extract(data2, g, r));
    vstd::arithmetic::div_mod::lemma_div_is_ordered(
        8 * (hb.len() as int + p.len() as int),
        r as int,
        8,
    );
    crate::bits::lemma_div8(hb.len() as int + p.len() as int, 0);
}

/// Round trip: embedding a framed record and then reading with a generator
/// in the same state yields the payload back, and leaves the reader
/// exactly past the record.  With the decoder seeded as the encoder was,
/// their generator states coincide, so `read` after `write_str` returns
/// the written payload.
pub proof fn lemma_record_roundtrip(data: Seq<u8>, g: GenView, p: Seq<u8>)
    requires
        data.len() == g.area(),
        p.len() <= u64::MAX,
        steps_ok(g, record_bits(p).len()),
        record_bits(p).len() <= g.area() - g.emitted.len(),
    ensures
        decode_step(embed(data, g, record_bits(p)), g) == Some(
            (chars_of(p), gen_after(g, record_bits(p).len())),
        ),
{
    let bits = record_bits(p);
    lemma_extract_embed(data, g, bits);
    lemma_embed_len(data, g, bits);
    lemma_decode_next_record(embed(data, g, bits), g, p);
}

/// Two records written back to back in one session are read back in the
/// same order: the first read yields the first payload and stops exactly
/// where the second record begins, which the second read then yields.
/// Applied repeatedly this covers any number of records in one session.
pub proof fn lemma_records_read_in_order(data: Seq<u8>, g: GenView, p1: Seq<u8>, p2: Seq<u8>)
    requires
        data.len() == g.area(),
        p1.len() <= u64::MAX,
        p2.len() <= u64::MAX,
        steps_ok(g, record_bits(p1).len() + record_bits(p2).len()),
        record_bits(p1).len() + record_bits(p2).len() <= g.area() - g.emitted.len(),
    ensures
        ({
            let n1 = record_bits(p1).len();
            let n2 = record_bits(p2).len();
            let data2 = embed(
                embed(data, g, record_bits(p1)),
                gen_after(g, n1),
                record_bits(p2),
            );
            &&& decode_step(data2, g) == Some((chars_of(p1), gen_after(g, n1)))
            &&& decode_step(data2, gen_after(g, n1)) == Some(
                (chars_of(p2), gen_after(g, (n1 + n2) as nat)),
            )
        }),
{
    let n1 = record_bits(p1).len();
    let n2 = record_bits(p2).len();
    let both = record_bits(p1) + record_bits(p2);
    lemma_embed_concat(data, g, record_bits(p1), record_bits(p2));
    let data2 = embed(data, g, both);
    lemma_embed_len(data, g, both);
    lemma_extract_embed(data, g, both);
    lemma_extract_split(data2, g, n1, n2);
    lemma_gen_after(g, n1);
    assert(extract(data2, g, n1) =~= record_bits(p1)) by {
        assert(extract(data2, g, (n1 + n2) as nat) =~= both);
        assert forall|i: int| 0 <= i < n1 implies extract(data2, g, n1)[i] == record_bits(p1)[i] by {
            assert(extract(data2, g, (n1 + n2) as nat)[i] == both[i]);
        };
    };
    lemma_decode_next_record(data2, g, p1);
    assert(extract(data2, gen_after(g, n1), n2) =~= record_bits(p2)) by {
        assert(extract(data2, g, (n1 + n2) as nat) =~= both);
        assert((extract(data2, g, n1) + extract(data2, gen_after(g, n1), n2)) =~= both);
        assert forall|i: int|
            0 <= i < n2 implies extract(data2, gen_after(g, n1), n2)[i] == record_bits(p2)[i] by {
            assert(both[n1 + i] == record_bits(p2)[i]);
        };
    };
    lemma_gen_after_add(g, n1, n2);
    lemma_decode_next_record(data2, gen_after(g, n1), p2);
}

/// Reading more records than were written finds none: on a carrier whose
/// free least-significant bits are all clear, the reader positioned after
/// the written region sees only clear bits, and the header state machine
/// signals `NoRecord` rather than failing.
pub proof fn lemma_excess_read_finds_nothing(data: Seq<u8>, g: GenView, bits: Seq<bool>)
    requires
        data.len() == g.area(),
        forall|j: int| 0 <= j < data.len() ==> !lsb(#[trigger] data[j]),
        steps_ok(g, (g.area() - g.emitted.len()) as nat),
        bits.len() <= g.area() - g.emitted.len(),
    ensures
        decode_step(embed(data, g, bits), gen_after(g, bits.len())) is None,
{
    let n = bits.len();
    let remaining = (g.area() - g.emitted.len()) as nat;
    let data2 = embed(data, g, bits);
    let g1 = gen_after(g, n);
    lemma_gen_after(g, n);
    lemma_embed_len(data, g, bits);
    let r1 = (g1.area() - g1.emitted.len()) as nat;
    assert(r1 == remaining - n);
    let tail = extract(data2, g1, r1);
    lemma_trace_fresh(g, remaining);
    assert forall|i: int| 0 <= i < r1 implies !tail[i] by {
        crate::generator::lemma_coord_at_add(g, n, i as nat);
        let c = crate::generator::coord_at(g, (n + i) as nat);
        lemma_pix_at_bound(c.0, c.1, g.width, g.height);
        assert forall|q: nat| q < n implies #[trigger] touch_at(g, q) != crate::surface::pix_at(
            c.0,
            c.1,
            g.width,
        ) by {
            let cq = crate::generator::coord_at(g, q);
            assert(cq != c);
            if touch_at(g, q) == crate::surface::pix_at(c.0, c.1, g.width) {
                lemma_pix_at_injective(cq.0, cq.1, c.0, c.1, g.width);
            }
        };
        lemma_embed_untouched(data, g, bits, crate::surface::pix_at(c.0, c.1, g.width));
        assert(tail[i] == lsb(data2[touch_at(g1, i as nat)]));
        assert(touch_at(g1, i as nat) == crate::surface::pix_at(c.0, c.1, g.width));
    };
    crate::bits::lemma_scan_of_zeros(tail);
}

/// For a seven-bit payload the decoded characters are exactly the written
/// string: each payload byte decodes to the character whose code point it
/// is.  Wider text does not round-trip; the wire format carries raw bytes.
pub proof fn lemma_ascii_payload_decodes_to_itself(s: &str)
    requires
        vstd::string::is_ascii(s),
    ensures
        chars_of(s.spec_bytes()) =~= s@,
{
    broadcast use vstd::string::is_ascii_spec_bytes;
    broadcast use vstd::utf8::is_ascii_chars_nat_bound;

    assert(is_ascii_chars(s@));
    assert forall|i: int| 0 <= i < s@.len() implies chars_of(s.spec_bytes())[i] == s@[i] by {
        assert(s.spec_bytes()[i] == s@[i] as u8);
        assert('\0' <= s@[i] <= '\u{7f}');
    };
}

/// Writing changes nothing but the least-significant bit plane: every
/// other bit of every channel byte keeps its value.  Together with the
/// refusal branch of `write_str`, which leaves the carrier untouched
/// entirely, a session never alters the carrier beyond the embedded bits.
pub proof fn lemma_only_lsb_plane_changes(data: Seq<u8>, g: GenView, bits: Seq<bool>)
    ensures
        embed(data, g, bits).len() == data.len(),
        forall|j: int|
            0 <= j < data.len() ==> (#[trigger] embed(data, g, bits)[j] & 0xfe) == (data[j] & 0xfe),
{
    lemma_embed_len(data, g, bits);
    assert forall|j: int|
        0 <= j < data.len() implies (#[trigger] embed(data, g, bits)[j] & 0xfe) == (data[j]
        & 0xfe) by {
        lemma_embed_lsb_only(data, g, bits, j);
    };
}

} // verus!
