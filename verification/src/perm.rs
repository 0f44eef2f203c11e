//! The permutation table behind the gradient noise, and its lattice lookups.
use vstd::prelude::*;

verus! {

/// Multiplier of the table shuffle's linear congruential generator.
pub const LCG_MUL: u64 = 6364136223846793005;

/// Increment of the table shuffle's linear congruential generator.
pub const LCG_INC: u64 = 1442695040888963407;

/// One step of the shuffle's generator, modulo 2^64.
pub open spec fn lcg_step(r: u64) -> u64 {
    vstd::wrapping::u64_specs::wrapping_add(vstd::wrapping::u64_specs::wrapping_mul(r, LCG_MUL), LCG_INC)
}

/// The byte values 0, 1, ..., 255 in order.
pub open spec fn identity_bytes() -> Seq<u8> {
    Seq::new(256, |i: int| i as u8)
}

/// `s` with the entries at `i` and `j` exchanged.
pub open spec fn swap_at(s: Seq<u8>, i: int, j: int) -> Seq<u8> {
    s.update(i, s[j]).update(j, s[i])
}

/// Index that the step shuffling position `i` swaps with, given the generator's new state.
pub open spec fn swap_partner(r: u64, i: int) -> int {
    ((r >> 33u64) as int) % (i + 1)
}

/// The table and the generator state after the first `k` steps of the
/// Fisher-Yates shuffle, which visits positions 255, 254, ..., 1 in turn.
pub open spec fn shuffle_state(seed: u64, k: nat) -> (Seq<u8>, u64)
    decreases k,
{
    if k == 0 {
        (identity_bytes(), seed)
    } else {
        let (p, r) = shuffle_state(seed, (k - 1) as nat);
        let i: int = 256 - k;
        let r2 = lcg_step(r);
        (swap_at(p, i, swap_partner(r2, i)), r2)
    }
}

/// The 256 shuffled byte values for `seed`.
pub open spec fn shuffled(seed: u64) -> Seq<u8> {
    shuffle_state(seed, 255).0
}

/// The permutation table: the shuffled values, written twice.
pub open spec fn spec_perm_table(seed: u64) -> Seq<u8> {
    shuffled(seed) + shuffled(seed)
}

/// Every byte value occurs in `s`, and none twice.
pub open spec fn is_byte_permutation(s: Seq<u8>) -> bool {
    &&& s.len() == 256
    &&& forall|i: int, j: int| 0 <= i < j < 256 ==> s[i] != s[j]
    &&& forall|v: u8| #[trigger] s.contains(v)
}

proof fn lemma_swap_keeps_permutation(s: Seq<u8>, i: int, j: int)
    requires
        is_byte_permutation(s),
        0 <= i < 256,
        0 <= j < 256,
    ensures
        is_byte_permutation(swap_at(s, i, j)),
{
    let t = swap_at(s, i, j);
    assert forall|a: int, b: int| 0 <= a < b < 256 implies t[a] != t[b] by {
        let sa = if a == j { i } else if a == i { j } else { a };
        let sb = if b == j { i } else if b == i { j } else { b };
        assert(t[a] == s[sa]);
        assert(t[b] == s[sb]);
        assert(sa != sb);
        if sa < sb {
        } else {
        }
    }
    assert forall|v: u8| #[trigger] t.contains(v) by {
        assert(s.contains(v));
        let k0 = choose|k: int| 0 <= k < 256 && s[k] == v;
        let k1 = if k0 == i { j } else if k0 == j { i } else { k0 };
        assert(t[k1] == v);
    }
}

proof fn lemma_shuffle_state_permutation(seed: u64, k: nat)
    requires
        k <= 255,
    ensures
        is_byte_permutation(shuffle_state(seed, k).0),
    decreases k,
{
    if k == 0 {
        let s = identity_bytes();
        assert forall|v: u8| #[trigger] s.contains(v) by {
            assert(s[v as int] == v);
        }
    } else {
        lemma_shuffle_state_permutation(seed, (k - 1) as nat);
        let (p, r) = shuffle_state(seed, (k - 1) as nat);
        let i: int = 256 - k;
        let r2 = lcg_step(r);
        lemma_swap_keeps_permutation(p, i, swap_partner(r2, i));
    }
}

/// The table holds each byte value exactly once in its first half, and its
/// second half repeats the first, so that lookups may run past index 255.
pub proof fn lemma_perm_table_is_doubled_permutation(seed: u64)
    ensures
        spec_perm_table(seed).len() == 512,
        is_byte_permutation(spec_perm_table(seed).take(256)),
        forall|i: int| 0 <= i < 256 ==> #[trigger] spec_perm_table(seed)[i + 256] == spec_perm_table(seed)[i],
{
    lemma_shuffle_state_permutation(seed, 255);
    assert(spec_perm_table(seed).take(256) =~= shuffled(seed));
}

/// Builds the noise permutation table for `seed`: the bytes 0..=255 shuffled
/// by Fisher-Yates driven by a 64-bit LCG, then written twice.
pub fn build_perm(seed: u64) -> (perm: [u8; 512])
    ensures
        perm@ == spec_perm_table(seed),
        is_byte_permutation(perm@.take(256)),
        forall|i: int| 0 <= i < 256 ==> #[trigger] perm@[i + 256] == perm@[i],
{
    let mut p: [u8; 256] = [0u8; 256];
    let mut k: usize = 0;
    while k < 256
        invariant
            0 <= k <= 256,
            p@.len() == 256,
            forall|m: int| 0 <= m < k ==> p@[m] == m as u8,
        decreases 256 - k,
    {
        p[k] = k as u8;
        k = k + 1;
    }
    assert(p@ =~= shuffle_state(seed, 0).0);
    let mut rng = seed;
    let mut i: usize = 255;
    while i >= 1
        invariant
            0 <= i <= 255,
            p@.len() == 256,
            (p@, rng) == shuffle_state(seed, (255 - i) as nat),
        decreases i,
    {
        let ghost prev = p@;
        let ghost k1 = (256 - i) as nat;
        rng = rng.wrapping_mul(6364136223846793005).wrapping_add(1442695040888963407);
        assert(rng >> 33u64 <= 0xffff_ffffu64) by (bit_vector);
        let j = ((rng >> 33) as usize) % (i + 1);
        let a = p[i];
        let b = p[j];
        p[i] = b;
        p[j] = a;
        proof {
            assert((k1 - 1) as nat == (255 - i) as nat);
            assert(256 - k1 == i as int);
            assert(j as int == swap_partner(rng, i as int));
            assert(p@ =~= swap_at(prev, i as int, j as int));
            assert(shuffle_state(seed, k1) == (swap_at(prev, i as int, j as int), rng));
        }
        i = i - 1;
    }
    assert(p@ == shuffled(seed));
    let mut perm: [u8; 512] = [0u8; 512];
    let mut m: usize = 0;
    while m < 256
        invariant
            0 <= m <= 256,
            perm@.len() == 512,
            p@.len() == 256,
            forall|n: int| 0 <= n < m ==> perm@[n] == p@[n] && perm@[n + 256] == p@[n],
        decreases 256 - m,
    {
        perm[m] = p[m];
        perm[m + 256] = p[m];
        m = m + 1;
    }
    assert(perm@ =~= spec_perm_table(seed));
    proof {
        lemma_perm_table_is_doubled_permutation(seed);
    }
    perm
}

/// Hashes of the four lattice corners around cell `(cx, cy)`, in the order
/// (cx, cy), (cx, cy + 1), (cx + 1, cy), (cx + 1, cy + 1), cell coordinates
/// taken modulo 256.
pub open spec fn spec_lattice_hashes(cx: int, cy: int, perm: Seq<u8>) -> (u8, u8, u8, u8) {
    let xi = cx % 256;
    let yi = cy % 256;
    let row0 = perm[xi] as int;
    let row1 = perm[(xi + 1) % 256] as int;
    (
        perm[(row0 + yi) % 256],
        perm[(row0 + yi + 1) % 256],
        perm[(row1 + yi) % 256],
        perm[(row1 + yi + 1) % 256],
    )
}

proof fn lemma_low_byte_is_mod(x: i32)
    ensures
        (x & 255) as int == x as int % 256,
        0 <= x & 255 < 256,
{
    assert(0 <= x & 255 < 256) by (bit_vector);
    assert(x as int == (x >> 8u32) as int * 256 + (x & 255) as int) by (bit_vector);
    vstd::arithmetic::div_mod::lemma_fundamental_div_mod_converse(
        x as int,
        256,
        (x >> 8u32) as int,
        (x & 255) as int,
    );
}

proof fn lemma_usize_low_byte(a: usize)
    ensures
        a & 255 == a % 256,
        a & 255 < 256,
{
    assert(a & 255 == a % 256 && a & 255 < 256) by (bit_vector);
}

/// Looks up the hashes of the four lattice corners of the noise cell whose
/// lower corner is `(cell_x, cell_y)` (the floors of the sample point).
pub fn lattice_hashes(cell_x: i32, cell_y: i32, perm: &[u8; 512]) -> (h: (u8, u8, u8, u8))
    ensures
        h == spec_lattice_hashes(cell_x as int, cell_y as int, perm@),
{
    let xi = cell_x & 255;
    let yi = cell_y & 255;
    proof {
        lemma_low_byte_is_mod(cell_x);
        lemma_low_byte_is_mod(cell_y);
    }
    let row0 = perm[xi as usize] as i32;
    let a = (xi + 1) as usize;
    proof { lemma_usize_low_byte(a); }
    let row1 = perm[a & 255] as i32;
    let b = (row0 + yi) as usize;
    let c = (row0 + yi + 1) as usize;
    let d = (row1 + yi) as usize;
    let e = (row1 + yi + 1) as usize;
    proof {
        lemma_usize_low_byte(b);
        lemma_usize_low_byte(c);
        lemma_usize_low_byte(d);
        lemma_usize_low_byte(e);
    }
    let aa = perm[b & 255];
    let ab = perm[c & 255];
    let ba = perm[d & 255];
    let bb = perm[e & 255];
    (aa, ab, ba, bb)
}

/// The corner hashes repeat every 256 cells along either axis.
pub proof fn lemma_lattice_hashes_periodic(cx: int, cy: int, perm: Seq<u8>)
    ensures
        spec_lattice_hashes(cx + 256, cy, perm) == spec_lattice_hashes(cx, cy, perm),
        spec_lattice_hashes(cx, cy + 256, perm) == spec_lattice_hashes(cx, cy, perm),
{
    assert((cx + 256) % 256 == cx % 256);
    assert((cy + 256) % 256 == cy % 256);
}

/// Each corner hash is the table lookup of its own lattice point: the corner
/// `(x, y)` hashes to `perm[(perm[x mod 256] + y mod 256) mod 256]`, and the
/// four results are the corners `(cx, cy)`, `(cx, cy + 1)`, `(cx + 1, cy)` and
/// `(cx + 1, cy + 1)` in that order.
pub proof fn lemma_lattice_hashes_are_corner_hashes(cx: int, cy: int, perm: Seq<u8>)
    ensures
        spec_lattice_hashes(cx, cy, perm).0 == perm[(perm[cx % 256] as int + cy % 256) % 256],
        spec_lattice_hashes(cx, cy, perm).1 == perm[(perm[cx % 256] as int + (cy + 1) % 256) % 256],
        spec_lattice_hashes(cx, cy, perm).2 == perm[(perm[(cx + 1) % 256] as int + cy % 256) % 256],
        spec_lattice_hashes(cx, cy, perm).3 == perm[(perm[(cx + 1) % 256] as int + (cy + 1) % 256) % 256],
{
    let yi = cy % 256;
    vstd::arithmetic::div_mod::lemma_add_mod_noop(cx, 1, 256);
    vstd::arithmetic::div_mod::lemma_add_mod_noop(cy, 1, 256);
    assert((cx % 256 + 1) % 256 == (cx + 1) % 256);
    assert((yi + 1) % 256 == (cy + 1) % 256);
    let r0 = perm[cx % 256] as int;
    let r1 = perm[(cx + 1) % 256] as int;
    vstd::arithmetic::div_mod::lemma_add_mod_noop(r0, yi + 1, 256);
    vstd::arithmetic::div_mod::lemma_add_mod_noop(r0, (cy + 1) % 256, 256);
    vstd::arithmetic::div_mod::lemma_add_mod_noop(r1, yi + 1, 256);
    vstd::arithmetic::div_mod::lemma_add_mod_noop(r1, (cy + 1) % 256, 256);
}

} // verus!
