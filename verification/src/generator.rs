//! The coordinate generator: a deterministic, exhaustible, non-repeating
//! sequence of grid coordinates, drawn by rejection sampling from a seeded
//! pseudo-random source.

use crate::errors::StegoError;
use crate::rng::{rng_next, SeededRng};
use std::collections::HashSet;
use vstd::prelude::*;

verus! {

broadcast use vstd::std_specs::hash::group_hash_axioms, vstd::arithmetic::mul::lemma_mul_is_commutative;

/// The mathematical state of a generator: everything its behaviour is a
/// function of.
#[verifier::ext_equal]
pub struct GenView {
    pub seed: u64,
    pub hist: Seq<u32>,
    pub width: u32,
    pub height: u32,
    pub emitted: Seq<(u32, u32)>,
}

impl GenView {
    pub open spec fn area(self) -> int {
        self.width * self.height
    }

    /// Every emitted coordinate lies on the grid and none repeats.
    pub open spec fn wf(self) -> bool {
        &&& forall|i: int|
            0 <= i < self.emitted.len() ==> (#[trigger] self.emitted[i]).0 < self.width
                && self.emitted[i].1 < self.height
        &&& forall|i: int, j: int|
            0 <= i < j < self.emitted.len() ==> self.emitted[i] != self.emitted[j]
    }
}

/// The state of a generator as constructed, before any draw.
pub open spec fn fresh_view(seed: u64, width: u32, height: u32) -> GenView {
    GenView { seed, hist: Seq::empty(), width, height, emitted: Seq::empty() }
}

/// The draw history after `k` whole rejection rounds from state `g`: each
/// round draws one value bounded by the width, then one by the height.
pub open spec fn hist_at(g: GenView, k: nat) -> Seq<u32>
    decreases k,
{
    if k == 0 {
        g.hist
    } else {
        hist_at(g, (k - 1) as nat).push(g.width).push(g.height)
    }
}

/// The coordinate pair drawn by rejection round `k`.
pub open spec fn draw_at(g: GenView, k: nat) -> (u32, u32) {
    (
        rng_next(g.seed, hist_at(g, k), g.width),
        rng_next(g.seed, hist_at(g, k).push(g.width), g.height),
    )
}

/// Round `k` is accepted when its pair has not been emitted before.
pub open spec fn accepts(g: GenView, k: nat) -> bool {
    !g.emitted.contains(draw_at(g, k))
}

/// Round `k` is the first accepted round, within the round budget.
pub open spec fn min_accept(g: GenView, k: nat) -> bool {
    k < u64::MAX && accepts(g, k) && forall|j: nat| j < k ==> !(#[trigger] accepts(g, j))
}

/// Some round within the budget is accepted.
pub open spec fn has_accept(g: GenView) -> bool {
    exists|k: nat| min_accept(g, k)
}

/// The first accepted rejection round, when one exists.
pub open spec fn first_free(g: GenView) -> nat {
    choose|k: nat| min_accept(g, k)
}

/// Grid position of a coordinate as a single flat key, row by row.
pub open spec fn coord_key(c: (u32, u32), height: u32) -> int {
    c.0 * height + c.1
}

/// The coordinate whose flat key is `k`.
pub open spec fn unkey(k: int, height: u32) -> (u32, u32) {
    ((k / (height as int)) as u32, (k % (height as int)) as u32)
}

/// The first unused coordinate at or after flat key `k`.
pub open spec fn scan_free_from(g: GenView, k: int) -> (u32, u32)
    decreases g.area() - k,
{
    if k < 0 || k >= g.area() {
        (0u32, 0u32)
    } else if !g.emitted.contains(unkey(k, g.height)) {
        unkey(k, g.height)
    } else {
        scan_free_from(g, k + 1)
    }
}

/// The coordinate the generator yields next: the pair of the first accepted
/// rejection round or, should the whole round budget repeat used pairs, the
/// first unused grid cell.
pub open spec fn gen_coord(g: GenView) -> (u32, u32) {
    if has_accept(g) {
        draw_at(g, first_free(g))
    } else {
        scan_free_from(g, 0)
    }
}

/// The generator state after yielding one coordinate.
pub open spec fn gen_step(g: GenView) -> GenView {
    GenView {
        hist: if has_accept(g) {
            hist_at(g, first_free(g) + 1)
        } else {
            hist_at(g, u64::MAX as nat)
        },
        emitted: g.emitted.push(gen_coord(g)),
        ..g
    }
}

/// The generator state after `n` yielded coordinates.
pub open spec fn gen_after(g: GenView, n: nat) -> GenView
    decreases n,
{
    if n == 0 {
        g
    } else {
        gen_step(gen_after(g, (n - 1) as nat))
    }
}

/// The `i`th coordinate yielded from state `g` on.
pub open spec fn coord_at(g: GenView, i: nat) -> (u32, u32) {
    gen_coord(gen_after(g, i))
}

/// The next `n` coordinates yielded from state `g` on.
pub open spec fn trace(g: GenView, n: nat) -> Seq<(u32, u32)> {
    Seq::new(n, |i: int| coord_at(g, i as nat))
}

/// The next step from `g` yields a fresh, on-grid coordinate.  Exec draws
/// establish this; it does not follow from the draw model alone.
pub open spec fn step_ok(g: GenView) -> bool {
    &&& gen_coord(g).0 < g.width
    &&& gen_coord(g).1 < g.height
    &&& !g.emitted.contains(gen_coord(g))
}

/// The next `n` steps from `g` each yield a fresh, on-grid coordinate.
pub open spec fn steps_ok(g: GenView, n: nat) -> bool {
    forall|i: nat| i < n ==> step_ok(#[trigger] gen_after(g, i))
}

pub proof fn lemma_first_free(g: GenView, k: nat)
    requires
        min_accept(g, k),
    ensures
        has_accept(g),
        first_free(g) == k,
{
    assert(exists|k2: nat| min_accept(g, k2));
    let kk = first_free(g);
    assert(min_accept(g, kk));
    if kk < k {
        assert(!accepts(g, kk));
    } else if k < kk {
        assert(!accepts(g, k));
    }
}

/// Stepping preserves the grid and the seed, and appends exactly the trace.
pub proof fn lemma_gen_after(g: GenView, n: nat)
    ensures
        gen_after(g, n).seed == g.seed,
        gen_after(g, n).width == g.width,
        gen_after(g, n).height == g.height,
        gen_after(g, n).emitted =~= g.emitted + trace(g, n),
    decreases n,
{
    if n == 0 {
    } else {
        lemma_gen_after(g, (n - 1) as nat);
    }
}

/// Iterated stepping composes.
pub proof fn lemma_gen_after_add(g: GenView, m: nat, n: nat)
    ensures
        gen_after(g, m + n) == gen_after(gen_after(g, m), n),
    decreases n,
{
    if n == 0 {
    } else {
        lemma_gen_after_add(g, m, (n - 1) as nat);
        assert(gen_after(g, m + n) == gen_step(gen_after(g, (m + n - 1) as nat)));
    }
}

/// Shifting the start of the trace shifts its indices.
pub proof fn lemma_coord_at_add(g: GenView, m: nat, i: nat)
    ensures
        coord_at(gen_after(g, m), i) == coord_at(g, m + i),
{
    lemma_gen_after_add(g, m, i);
}

pub proof fn lemma_steps_ok_concat(g: GenView, m: nat, n: nat)
    requires
        steps_ok(g, m),
        steps_ok(gen_after(g, m), n),
    ensures
        steps_ok(g, m + n),
{
    assert forall|i: nat| i < m + n implies step_ok(#[trigger] gen_after(g, i)) by {
        if i >= m {
            lemma_gen_after_add(g, m, (i - m) as nat);
            assert(step_ok(gen_after(gen_after(g, m), (i - m) as nat)));
        }
    };
}

/// Along an all-fresh trace no coordinate repeats, none was emitted before,
/// and all lie on the grid.
pub proof fn lemma_trace_fresh(g: GenView, n: nat)
    requires
        steps_ok(g, n),
    ensures
        forall|i: nat, j: nat| i < j < n ==> coord_at(g, i) != coord_at(g, j),
        forall|i: nat| i < n ==> !g.emitted.contains(#[trigger] coord_at(g, i)),
        forall|i: nat|
            i < n ==> (#[trigger] coord_at(g, i)).0 < g.width && coord_at(g, i).1 < g.height,
{
    assert forall|i: nat, j: nat| i < j < n implies coord_at(g, i) != coord_at(g, j) by {
        lemma_gen_after(g, j);
        assert(step_ok(gen_after(g, j)));
        assert(gen_after(g, j).emitted[(g.emitted.len() + i) as int] == coord_at(g, i));
        assert(gen_after(g, j).emitted.contains(coord_at(g, i)));
    };
    assert forall|i: nat| i < n implies !g.emitted.contains(#[trigger] coord_at(g, i)) by {
        lemma_gen_after(g, i);
        assert(step_ok(gen_after(g, i)));
        if g.emitted.contains(coord_at(g, i)) {
            let x = choose|x: int| 0 <= x < g.emitted.len() && g.emitted[x] == coord_at(g, i);
            assert(gen_after(g, i).emitted[x] == coord_at(g, i));
            assert(gen_after(g, i).emitted.contains(coord_at(g, i)));
        }
    };
    assert forall|i: nat| i < n implies (#[trigger] coord_at(g, i)).0 < g.width && coord_at(
        g,
        i,
    ).1 < g.height by {
        lemma_gen_after(g, i);
        assert(step_ok(gen_after(g, i)));
    };
}

pub proof fn lemma_coord_key_bound(c: (u32, u32), height: u32)
    ensures
        0 <= coord_key(c, height) <= u64::MAX,
{
    assert(c.0 * height <= 0xffff_ffff * 0xffff_ffff) by (nonlinear_arith)
        requires
            c.0 <= 0xffff_ffffu32,
            height <= 0xffff_ffffu32,
    ;
}

pub proof fn lemma_unkey_key(c: (u32, u32), height: u32)
    requires
        c.1 < height,
    ensures
        unkey(coord_key(c, height), height) == c,
        0 <= coord_key(c, height),
{
    vstd::arithmetic::div_mod::lemma_fundamental_div_mod_converse(
        coord_key(c, height),
        height as int,
        c.0 as int,
        c.1 as int,
    );
}

pub proof fn lemma_key_in_area(c: (u32, u32), width: u32, height: u32)
    requires
        c.0 < width,
        c.1 < height,
    ensures
        0 <= coord_key(c, height) < width * height,
{
    assert(c.0 * height + c.1 < width * height) by (nonlinear_arith)
        requires
            c.0 < width,
            c.1 < height,
    ;
}

pub proof fn lemma_coord_key_injective(c1: (u32, u32), c2: (u32, u32), height: u32)
    requires
        c1.1 < height,
        c2.1 < height,
        coord_key(c1, height) == coord_key(c2, height),
    ensures
        c1 == c2,
{
    let k = coord_key(c1, height);
    vstd::arithmetic::div_mod::lemma_fundamental_div_mod_converse(
        k,
        height as int,
        c1.0 as int,
        c1.1 as int,
    );
    vstd::arithmetic::div_mod::lemma_fundamental_div_mod_converse(
        k,
        height as int,
        c2.0 as int,
        c2.1 as int,
    );
}

/// The whole coordinate space of a grid.
pub open spec fn grid_set(width: u32, height: u32) -> Set<(u32, u32)> {
    Set::new(|c: (u32, u32)| c.0 < width && c.1 < height)
}

/// The grid is finite and holds exactly `width * height` coordinates.
pub proof fn lemma_grid_set_size(width: u32, height: u32)
    ensures
        grid_set(width, height).finite(),
        grid_set(width, height).len() == width * height,
{
    broadcast use vstd::arithmetic::div_mod::lemma_multiply_divide_lt;

    let area = (width * height) as int;
    let keys = vstd::set_lib::set_int_range(0, area);
    let f = |k: int| unkey(k, height);
    vstd::set_lib::lemma_int_range(0, area);
    if area == 0 {
        assert(width == 0 || height == 0) by (nonlinear_arith)
            requires
                width * height == 0,
        ;
        assert(grid_set(width, height) =~= Set::<(u32, u32)>::empty());
        assert(keys.map(f) =~= Set::<(u32, u32)>::empty());
        vstd::set_lib::lemma_map_size(keys, grid_set(width, height), f);
    } else {
        assert(height > 0);
        assert(vstd::relations::injective_on(f, keys)) by {
            assert forall|k1: int, k2: int|
                #![trigger f(k1), f(k2)]
                keys.contains(k1) && keys.contains(k2) && f(k1) == f(k2) implies k1 == k2 by {
                vstd::arithmetic::div_mod::lemma_multiply_divide_lt(k1, height as int, width as int);
                vstd::arithmetic::div_mod::lemma_multiply_divide_lt(k2, height as int, width as int);
                vstd::arithmetic::div_mod::lemma_fundamental_div_mod(k1, height as int);
                vstd::arithmetic::div_mod::lemma_fundamental_div_mod(k2, height as int);
            };
        };
        assert(keys.map(f) =~= grid_set(width, height)) by {
            assert forall|c: (u32, u32)| grid_set(width, height).contains(c) implies keys.map(
                f,
            ).contains(c) by {
                lemma_key_in_area(c, width, height);
                lemma_unkey_key(c, height);
                assert(keys.contains(coord_key(c, height)) && f(coord_key(c, height)) == c);
            };
            assert forall|c: (u32, u32)| keys.map(f).contains(c) implies grid_set(
                width,
                height,
            ).contains(c) by {
                let k = choose|k: int| keys.contains(k) && f(k) == c;
                vstd::arithmetic::div_mod::lemma_multiply_divide_lt(k, height as int, width as int);
                assert(k / (height as int) < width);
            };
        };
        vstd::set_lib::lemma_map_size(keys, grid_set(width, height), f);
    }
}

/// If every flat key below the area is emitted, the grid is full.
pub proof fn lemma_emitted_covers(g: GenView)
    requires
        forall|j: int| 0 <= j < g.area() ==> g.emitted.contains(#[trigger] unkey(j, g.height)),
    ensures
        g.emitted.len() >= g.area(),
{
    let grid = grid_set(g.width, g.height);
    lemma_grid_set_size(g.width, g.height);
    if g.area() > 0 {
        assert(grid.subset_of(g.emitted.to_set())) by {
            assert forall|c: (u32, u32)| grid.contains(c) implies g.emitted.to_set().contains(
                c,
            ) by {
                lemma_key_in_area(c, g.width, g.height);
                lemma_unkey_key(c, g.height);
                assert(g.emitted.contains(unkey(coord_key(c, g.height), g.height)));
            };
        };
        broadcast use vstd::seq_lib::seq_to_set_is_finite;

        vstd::set_lib::lemma_len_subset(grid, g.emitted.to_set());
        g.emitted.lemma_cardinality_of_set();
    }
}

/// Skipping a prefix of used cells does not change the scan's answer.
proof fn lemma_scan_free_skip(g: GenView, k: int)
    requires
        0 <= k <= g.area(),
        forall|j: int| 0 <= j < k ==> g.emitted.contains(#[trigger] unkey(j, g.height)),
    ensures
        scan_free_from(g, 0) == scan_free_from(g, k),
    decreases k,
{
    if k > 0 {
        lemma_scan_free_skip(g, k - 1);
    }
}

/// Generates unused random grid coordinates: a deterministic, seed-derived
/// permutation of the `width * height` grid, emitted one pair at a time.
pub struct PixelGenerator {
    rng: SeededRng,
    width: u32,
    height: u32,
    track: HashSet<u64>,
    emitted: Ghost<Seq<(u32, u32)>>,
}

impl View for PixelGenerator {
    type V = GenView;

    closed spec fn view(&self) -> GenView {
        GenView {
            seed: self.rng.seed(),
            hist: self.rng.history(),
            width: self.width,
            height: self.height,
            emitted: self.emitted@,
        }
    }
}

impl PixelGenerator {
    /// The tracking set holds exactly the keys of the emitted coordinates.
    pub closed spec fn wf(self) -> bool {
        &&& self@.wf()
        &&& self@.emitted.len() <= self@.area()
        &&& self@.area() <= usize::MAX
        &&& self.track@.finite()
        &&& self.track@.len() == self@.emitted.len()
        &&& forall|i: int|
            0 <= i < self@.emitted.len() ==> self.track@.contains(
                coord_key(#[trigger] self@.emitted[i], self.height) as u64,
            )
        &&& forall|k: u64|
            self.track@.contains(k) ==> exists|i: int|
                0 <= i < self@.emitted.len() && coord_key(self@.emitted[i], self.height) == k
    }

    pub fn new(seed: u64, width: u32, height: u32) -> (r: PixelGenerator)
        requires
            width * height <= usize::MAX,
        ensures
            r.wf(),
            r@ == fresh_view(seed, width, height),
    {
        let r = PixelGenerator {
            rng: SeededRng::new(seed),
            width,
            height,
            track: HashSet::new(),
            emitted: Ghost(Seq::empty()),
        };
        proof {
            assert(r@ =~= fresh_view(seed, width, height));
        }
        r
    }

    /// What well-formedness guarantees about the visible state.
    pub proof fn lemma_wf(&self)
        requires
            self.wf(),
        ensures
            self@.wf(),
            self@.emitted.len() <= self@.area(),
            self@.area() <= usize::MAX,
    {
    }

    /// How many coordinates have been emitted so far.
    pub fn emitted_count(&self) -> (r: usize)
        requires
            self.wf(),
        ensures
            r == self@.emitted.len(),
    {
        self.track.len()
    }

    /// Record a freshly found coordinate under its key.
    fn commit(&mut self, x: u32, y: u32, key: u64)
        requires
            old(self).wf(),
            coord_key((x, y), old(self).height) == key,
            x < old(self).width,
            y < old(self).height,
            !old(self)@.emitted.contains((x, y)),
            !old(self).track@.contains(key),
            old(self)@.emitted.len() < old(self)@.area(),
        ensures
            final(self).wf(),
            final(self)@ == (GenView { emitted: old(self)@.emitted.push((x, y)), ..old(self)@ }),
            final(self).width == old(self).width,
            final(self).height == old(self).height,
    {
        let ghost g0 = self@;
        self.track.insert(key);
        proof {
            self.emitted@ = g0.emitted.push((x, y));
            assert(self@ =~= (GenView { emitted: g0.emitted.push((x, y)), ..g0 }));
            assert forall|i: int, j: int|
                0 <= i < j < self@.emitted.len() implies self@.emitted[i] != self@.emitted[j] by {
                if j == g0.emitted.len() && self@.emitted[i] == (x, y) {
                    assert(g0.emitted[i] == (x, y));
                    assert(g0.emitted.contains((x, y)));
                }
            };
            assert forall|i: int|
                0 <= i < self@.emitted.len() implies self.track@.contains(
                coord_key(#[trigger] self@.emitted[i], self.height) as u64,
            ) by {
                if i < g0.emitted.len() {
                    assert(self@.emitted[i] == g0.emitted[i]);
                }
            };
            assert forall|kk: u64| self.track@.contains(kk) implies exists|i: int|
                0 <= i < self@.emitted.len() && coord_key(self@.emitted[i], self.height) == kk by {
                if kk == key {
                    assert(coord_key(self@.emitted[g0.emitted.len() as int], self.height) == kk);
                } else {
                    let i = choose|i: int|
                        0 <= i < g0.emitted.len() && coord_key(g0.emitted[i], self.height) == kk;
                    assert(coord_key(self@.emitted[i], self.height) == kk);
                }
            };
        }
    }

    /// Draws grid coordinates until an unused pair appears, records it, and
    /// returns it; fails once the whole grid has been emitted.  Should the
    /// (astronomically large) budget of random rounds pass without a fresh
    /// pair, the first unused grid cell is taken, deterministically.
    pub fn next(&mut self) -> (r: Result<(u32, u32), StegoError>)
        requires
            old(self).wf(),
        ensures
            final(self).wf(),
            final(self)@.seed == old(self)@.seed,
            final(self)@.width == old(self)@.width,
            final(self)@.height == old(self)@.height,
            match r {
                Ok(c) => {
                    &&& old(self)@.emitted.len() < old(self)@.area()
                    &&& step_ok(old(self)@)
                    &&& c == gen_coord(old(self)@)
                    &&& final(self)@ == gen_step(old(self)@)
                },
                Err(e) => {
                    &&& e == StegoError::CapacityExhausted
                    &&& old(self)@.emitted.len() == old(self)@.area()
                    &&& final(self)@ == old(self)@
                },
            },
    {
        let area = (self.width as u64) * (self.height as u64);
        if self.track.len() as u64 == area {
            return Err(StegoError::CapacityExhausted);
        }
        let ghost g0 = self@;
        proof {
            assert(g0.width > 0 && g0.height > 0) by (nonlinear_arith)
                requires
                    g0.emitted.len() < g0.width * g0.height,
            ;
        }
        let mut rounds: u64 = 0;
        while rounds < u64::MAX
            invariant
                g0 == old(self)@,
                self.wf(),
                self@.emitted == g0.emitted,
                self@.seed == g0.seed,
                self.width == g0.width,
                self.height == g0.height,
                self@.hist == hist_at(g0, rounds as nat),
                forall|j: nat| j < rounds ==> !(#[trigger] accepts(g0, j)),
                g0.emitted.len() < g0.area(),
                area == g0.area(),
                g0.width > 0,
                g0.height > 0,
            decreases u64::MAX - rounds,
        {
            let x = self.rng.gen_below(self.width);
            let y = self.rng.gen_below(self.height);
            proof {
                assert((x, y) == draw_at(g0, rounds as nat));
                lemma_coord_key_bound((x, y), self.height);
            }
            let key = (x as u64) * (self.height as u64) + (y as u64);
            proof {
                assert(key == coord_key((x, y), self.height));
            }
            if !self.track.contains(&key) {
                proof {
                    if g0.emitted.contains((x, y)) {
                        let i = choose|i: int|
                            0 <= i < g0.emitted.len() && g0.emitted[i] == (x, y);
                        assert(self.track@.contains(coord_key(g0.emitted[i], self.height) as u64));
                    }
                    assert(accepts(g0, rounds as nat));
                    assert(min_accept(g0, rounds as nat));
                    lemma_first_free(g0, rounds as nat);
                    assert(gen_coord(g0) == (x, y));
                }
                self.commit(x, y, key);
                proof {
                    assert(self@ =~= gen_step(g0));
                }
                return Ok((x, y));
            }
            proof {
                let i = choose|i: int|
                    0 <= i < g0.emitted.len() && coord_key(g0.emitted[i], self.height) == key;
                lemma_coord_key_injective(g0.emitted[i], (x, y), self.height);
                assert(g0.emitted.contains((x, y)));
                assert(!accepts(g0, rounds as nat));
            }
            rounds = rounds + 1;
        }
        proof {
            if has_accept(g0) {
                let k = choose|k: nat| min_accept(g0, k);
                assert(!accepts(g0, k));
            }
        }
        // every random round repeated a used pair; take the first unused
        // cell, which a decoder with the same seed reaches identically
        let mut key: u64 = 0;
        while key < area
            invariant
                g0 == old(self)@,
                self.wf(),
                self@.emitted == g0.emitted,
                self@.seed == g0.seed,
                self.width == g0.width,
                self.height == g0.height,
                self@.hist == hist_at(g0, u64::MAX as nat),
                !has_accept(g0),
                forall|j: int| 0 <= j < key ==> g0.emitted.contains(#[trigger] unkey(j, g0.height)),
                g0.emitted.len() < g0.area(),
                area == g0.area(),
                g0.width > 0,
                g0.height > 0,
            decreases area - key,
        {
            if !self.track.contains(&key) {
                proof {
                    vstd::arithmetic::div_mod::lemma_multiply_divide_lt(
                        key as int,
                        self.height as int,
                        self.width as int,
                    );
                }
                let x = (key / (self.height as u64)) as u32;
                let y = (key % (self.height as u64)) as u32;
                proof {
                    vstd::arithmetic::div_mod::lemma_fundamental_div_mod(
                        key as int,
                        self.height as int,
                    );
                    assert((x, y) == unkey(key as int, g0.height));
                    assert(key == coord_key((x, y), self.height));
                    if g0.emitted.contains((x, y)) {
                        let i = choose|i: int|
                            0 <= i < g0.emitted.len() && g0.emitted[i] == (x, y);
                        assert(self.track@.contains(coord_key(g0.emitted[i], self.height) as u64));
                    }
                    lemma_scan_free_skip(g0, key as int);
                    assert(scan_free_from(g0, key as int) == (x, y));
                    assert(gen_coord(g0) == (x, y));
                }
                self.commit(x, y, key);
                proof {
                    assert(self@ =~= gen_step(g0));
                }
                return Ok((x, y));
            }
            proof {
                assert(self.track@.contains(key));
                let i = choose|i: int|
                    0 <= i < g0.emitted.len() && coord_key(g0.emitted[i], self.height) == key;
                lemma_unkey_key(g0.emitted[i], self.height);
                assert(g0.emitted.contains(unkey(key as int, g0.height)));
            }
            key = key + 1;
        }
        // the scan covered every cell of a grid that is not yet full
        proof {
            lemma_emitted_covers(g0);
            assert(false);
        }
        Err(StegoError::CapacityExhausted)
    }
}

} // verus!
