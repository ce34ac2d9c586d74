//! The least-significant-bit plane along a generator's trace: what a write
//! session does to the carrier bytes, and what a read session sees.

use crate::bits::{bits_value, lemma_div8, pack_bytes};
use crate::generator::{
    coord_at, gen_after, gen_coord, gen_step, lemma_coord_at_add, lemma_gen_after,
    lemma_gen_after_add, lemma_trace_fresh, step_ok, steps_ok, GenView,
};
use crate::surface::{lemma_pix_at_injective, pix_at};
use vstd::prelude::*;

verus! {

/// `b` with its least-significant bit forced to `bit`.
pub open spec fn set_lsb(b: u8, bit: bool) -> u8 {
    (b & 0xfe) | (if bit {
        1u8
    } else {
        0u8
    })
}

/// The least-significant bit of `b`.
pub open spec fn lsb(b: u8) -> bool {
    b & 1 == 1
}

/// The flat index that the `i`th coordinate of the trace from `g` touches.
pub open spec fn touch_at(g: GenView, i: nat) -> int {
    pix_at(coord_at(g, i).0, coord_at(g, i).1, g.width)
}

/// The surface bytes after writing `bits` one per trace coordinate,
/// replacing only the least-significant bit of each touched byte.
pub open spec fn embed(data: Seq<u8>, g: GenView, bits: Seq<bool>) -> Seq<u8>
    decreases bits.len(),
{
    if bits.len() == 0 {
        data
    } else {
        embed(put_lsb(data, g, bits[0]), gen_step(g), bits.subrange(1, bits.len() as int))
    }
}

/// One bit written at the next trace coordinate; out-of-range coordinates
/// (which a well-formed session never produces) leave the surface alone.
pub open spec fn put_lsb(data: Seq<u8>, g: GenView, bit: bool) -> Seq<u8> {
    let j = pix_at(gen_coord(g).0, gen_coord(g).1, g.width);
    if 0 <= j < data.len() {
        data.update(j, set_lsb(data[j], bit))
    } else {
        data
    }
}

/// The `n` least-significant bits read along the trace from `g`.
pub open spec fn extract(data: Seq<u8>, g: GenView, n: nat) -> Seq<bool> {
    Seq::new(n, |i: int| lsb(data[touch_at(g, i as nat)]))
}

pub proof fn lemma_set_lsb(b: u8, bit: bool)
    ensures
        lsb(set_lsb(b, bit)) == bit,
        set_lsb(b, bit) & 0xfe == b & 0xfe,
{
    assert(((b & 0xfe) | 1) & 1 == 1 && ((b & 0xfe) | 0) & 1 == 0 && ((b & 0xfe) | 1) & 0xfe == b
        & 0xfe && ((b & 0xfe) | 0) & 0xfe == b & 0xfe) by (bit_vector);
}

pub proof fn lemma_embed_len(data: Seq<u8>, g: GenView, bits: Seq<bool>)
    ensures
        embed(data, g, bits).len() == data.len(),
    decreases bits.len(),
{
    if bits.len() > 0 {
        lemma_embed_len(put_lsb(data, g, bits[0]), gen_step(g), bits.subrange(1, bits.len() as int));
    }
}

/// One step of the trace, then the rest.
pub proof fn lemma_gen_after_one(g: GenView, n: nat)
    ensures
        gen_after(g, 1) == gen_step(g),
        n >= 1 ==> gen_after(g, n) == gen_after(gen_step(g), (n - 1) as nat),
{
    assert(gen_after(g, 1) == gen_step(gen_after(g, 0)));
    if n >= 1 {
        lemma_gen_after_add(g, 1, (n - 1) as nat);
    }
}

/// Freshness carries over to the successor state.
pub proof fn lemma_steps_ok_tail(g: GenView, n: nat)
    requires
        steps_ok(g, n),
        n >= 1,
    ensures
        steps_ok(gen_step(g), (n - 1) as nat),
{
    assert forall|i: nat| i < n - 1 implies step_ok(#[trigger] gen_after(gen_step(g), i)) by {
        lemma_gen_after_one(g, (i + 1) as nat);
        assert(gen_after(g, i + 1) == gen_after(gen_step(g), i));
        assert(step_ok(gen_after(g, i + 1)));
    };
}

/// Writing a concatenation is writing the halves in turn.
pub proof fn lemma_embed_concat(data: Seq<u8>, g: GenView, b1: Seq<bool>, b2: Seq<bool>)
    ensures
        embed(data, g, b1 + b2) == embed(embed(data, g, b1), gen_after(g, b1.len()), b2),
    decreases b1.len(),
{
    if b1.len() == 0 {
        assert(b1 + b2 =~= b2);
        assert(gen_after(g, 0) == g);
    } else {
        let data1 = put_lsb(data, g, b1[0]);
        assert((b1 + b2)[0] == b1[0]);
        assert((b1 + b2).subrange(1, (b1 + b2).len() as int) =~= b1.subrange(
            1,
            b1.len() as int,
        ) + b2);
        lemma_embed_concat(data1, gen_step(g), b1.subrange(1, b1.len() as int), b2);
        lemma_gen_after_one(g, b1.len());
    }
}

/// A byte whose index no trace coordinate touches is left unchanged.
pub proof fn lemma_embed_untouched(data: Seq<u8>, g: GenView, bits: Seq<bool>, j: int)
    requires
        0 <= j < data.len(),
        forall|i: nat| i < bits.len() ==> #[trigger] touch_at(g, i) != j,
    ensures
        embed(data, g, bits)[j] == data[j],
    decreases bits.len(),
{
    if bits.len() > 0 {
        let j0 = pix_at(gen_coord(g).0, gen_coord(g).1, g.width);
        assert(gen_after(g, 0) == g);
        assert(touch_at(g, 0) == j0);
        let data1 = put_lsb(data, g, bits[0]);
        assert(data1.len() == data.len());
        assert(data1[j] == data[j]);
        assert forall|i: nat| i < bits.len() - 1 implies #[trigger] touch_at(gen_step(g), i)
            != j by {
            lemma_gen_after_one(g, (i + 1) as nat);
            assert(coord_at(gen_step(g), i) == coord_at(g, (i + 1) as nat));
            assert(touch_at(g, (i + 1) as nat) != j);
        };
        lemma_embed_untouched(data1, gen_step(g), bits.subrange(1, bits.len() as int), j);
    }
}

/// Embedding changes only least-significant bits.
pub proof fn lemma_embed_lsb_only(data: Seq<u8>, g: GenView, bits: Seq<bool>, j: int)
    requires
        0 <= j < data.len(),
    ensures
        embed(data, g, bits)[j] & 0xfe == data[j] & 0xfe,
    decreases bits.len(),
{
    if bits.len() > 0 {
        let j0 = pix_at(gen_coord(g).0, gen_coord(g).1, g.width);
        let data1 = put_lsb(data, g, bits[0]);
        if j0 == j {
            lemma_set_lsb(data[j0], bits[0]);
        }
        lemma_embed_lsb_only(data1, gen_step(g), bits.subrange(1, bits.len() as int), j);
    }
}

/// Reading a long stretch is reading two shorter ones in turn.
pub proof fn lemma_extract_split(data: Seq<u8>, g: GenView, m: nat, n: nat)
    ensures
        extract(data, g, m + n) =~= extract(data, g, m) + extract(data, gen_after(g, m), n),
{
    lemma_gen_after(g, m);
    assert forall|i: int| 0 <= i < m + n implies extract(data, g, m + n)[i] == (extract(data, g, m)
        + extract(data, gen_after(g, m), n))[i] by {
        if i >= m {
            lemma_coord_at_add(g, m, (i - m) as nat);
        }
    };
}

/// Byte `k` of the packed stream is the value of the eight bits that start
/// `8 * k` coordinates into the trace.
pub proof fn lemma_stream_byte(data: Seq<u8>, g: GenView, r: nat, k: nat)
    requires
        8 * k + 8 <= r,
    ensures
        0 <= k < pack_bytes(extract(data, g, r)).len(),
        pack_bytes(extract(data, g, r))[k as int] == bits_value(
            extract(data, gen_after(g, (8 * k) as nat), 8),
        ) as u8,
{
    let st = extract(data, g, r);
    vstd::arithmetic::div_mod::lemma_div_is_ordered(8 * (k as int + 1), r as int, 8);
    lemma_div8(k as int + 1, 0);
    lemma_gen_after(g, (8 * k) as nat);
    assert(st.subrange(8 * (k as int), 8 * (k as int) + 8) =~= extract(
        data,
        gen_after(g, (8 * k) as nat),
        8,
    )) by {
        assert forall|i: int| 0 <= i < 8 implies st.subrange(8 * (k as int), 8 * (k as int) + 8)[i]
            == #[trigger] extract(data, gen_after(g, (8 * k) as nat), 8)[i] by {
            lemma_coord_at_add(g, (8 * k) as nat, i as nat);
        };
    };
}

/// A packed stretch of the stream starting `8 * m` coordinates in equals
/// the corresponding slice of the whole packed stream.
pub proof fn lemma_stream_slice(data: Seq<u8>, g: GenView, r: nat, m: nat, n: nat)
    requires
        8 * (m + n) <= r,
    ensures
        pack_bytes(extract(data, gen_after(g, (8 * m) as nat), (8 * n) as nat)) =~= pack_bytes(
            extract(data, g, r),
        ).subrange(m as int, (m + n) as int),
{
    let gm = gen_after(g, (8 * m) as nat);
    lemma_div8(n as int, 0);
    vstd::arithmetic::div_mod::lemma_div_is_ordered(8 * (m as int + n as int), r as int, 8);
    lemma_div8(m as int + n as int, 0);
    assert forall|k: int| 0 <= k < n implies #[trigger] pack_bytes(
        extract(data, gm, (8 * n) as nat),
    )[k] == pack_bytes(extract(data, g, r)).subrange(m as int, (m + n) as int)[k] by {
        lemma_stream_byte(data, gm, (8 * n) as nat, k as nat);
        lemma_stream_byte(data, g, r, (m + k) as nat);
        lemma_gen_after_add(g, (8 * m) as nat, (8 * k) as nat);
        assert(gen_after(gm, (8 * k) as nat) == gen_after(g, (8 * m + 8 * k) as nat));
    };
}

/// Reading back what was just written yields the written bits: the trace
/// never touches a byte twice, so later writes do not clobber earlier bits.
pub proof fn lemma_extract_embed(data: Seq<u8>, g: GenView, bits: Seq<bool>)
    requires
        steps_ok(g, bits.len()),
        data.len() == g.area(),
    ensures
        extract(embed(data, g, bits), g, bits.len()) =~= bits,
    decreases bits.len(),
{
    let n = bits.len();
    if n > 0 {
        lemma_trace_fresh(g, n);
        let c = gen_coord(g);
        assert(gen_after(g, 0) == g);
        assert(step_ok(g));
        let j0 = pix_at(c.0, c.1, g.width);
        crate::surface::lemma_pix_at_bound(c.0, c.1, g.width, g.height);
        let data1 = put_lsb(data, g, bits[0]);
        assert(data1 == data.update(j0, set_lsb(data[j0], bits[0])));
        let g1 = gen_step(g);
        let bits1 = bits.subrange(1, n as int);
        lemma_steps_ok_tail(g, n);
        lemma_gen_after(g, 1);
        assert(gen_after(g, 1).area() == g.area());
        lemma_gen_after_one(g, 1);
        assert(g1.area() == g.area());
        lemma_extract_embed(data1, g1, bits1);
        let emb = embed(data, g, bits);
        assert(emb == embed(data1, g1, bits1));
        // position 0: untouched by the remaining trace
        assert forall|i: nat| i < bits1.len() implies #[trigger] touch_at(g1, i) != j0 by {
            lemma_gen_after_one(g, (i + 1) as nat);
            assert(coord_at(g1, i) == coord_at(g, (i + 1) as nat));
            assert(coord_at(g, (i + 1) as nat) != coord_at(g, 0));
            assert(coord_at(g, 0) == c);
            if touch_at(g1, i) == j0 {
                lemma_pix_at_injective(
                    coord_at(g, (i + 1) as nat).0,
                    coord_at(g, (i + 1) as nat).1,
                    c.0,
                    c.1,
                    g.width,
                );
            }
        };
        lemma_embed_untouched(data1, g1, bits1, j0);
        lemma_set_lsb(data[j0], bits[0]);
        assert(extract(emb, g, n)[0] == lsb(emb[touch_at(g, 0)]));
        assert(emb[j0] == data1[j0]);
        assert forall|i: int| 0 <= i < n implies extract(emb, g, n)[i] == bits[i] by {
            if i >= 1 {
                lemma_gen_after_one(g, i as nat);
                assert(coord_at(g1, (i - 1) as nat) == coord_at(g, i as nat));
                assert(extract(emb, g1, bits1.len())[i - 1] == bits1[i - 1]);
            }
        };
    }
}

} // verus!
