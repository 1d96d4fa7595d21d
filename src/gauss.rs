//! Gaussian elimination over GF(2) on systems of at most 63 unknowns, and
//! the pooled solver that takes the bitwise majority of many solutions.
use vstd::prelude::*;
use crate::bits::{
    bit, encode, encode_upto, inner, lemma_mask, lemma_xor_facts, lemma_xor_fits, low_mask, parity,
};
use crate::oracle::{LpnOracle, Sample};
use crate::vector::{lemma_push_bit, BinVector};
use crate::bkw::{
    count_true, lemma_count_true_all_false, lemma_count_true_all_true, lemma_count_true_bound,
    lemma_count_true_full, lemma_count_true_update,
};

verus! {

/// A word whose low 63 bits are an equation's coefficients and whose top bit
/// is its right-hand side is satisfied by `s`.
pub open spec fn satisfied(x: u64, s: u64) -> bool {
    (x >> 63u64) == parity(x & low_mask(63) & s)
}

proof fn lemma_encode_step_xor(e1: u64, e2: u64, c1: u64, c2: u64, g: u64, i: u64)
    by (bit_vector)
    requires
        i < 64,
    ensures
        (e1 ^ e2) ^ (if bit(c1 ^ c2, i) {
            g
        } else {
            0u64
        }) == (e1 ^ (if bit(c1, i) {
            g
        } else {
            0u64
        })) ^ (e2 ^ (if bit(c2, i) {
            g
        } else {
            0u64
        })),
{
}

/// Selecting rows is linear in the selection.
proof fn lemma_encode_xor(rows: Seq<u64>, c1: u64, c2: u64, n: nat)
    requires
        n <= rows.len(),
        n <= 64,
    ensures
        encode_upto(rows, c1 ^ c2, n) == encode_upto(rows, c1, n) ^ encode_upto(rows, c2, n),
    decreases n,
{
    if n == 0 {
        lemma_xor_facts();
        assert(0u64 ^ 0u64 == 0u64);
    } else {
        lemma_encode_xor(rows, c1, c2, (n - 1) as nat);
        lemma_encode_step_xor(
            encode_upto(rows, c1, (n - 1) as nat),
            encode_upto(rows, c2, (n - 1) as nat),
            c1,
            c2,
            rows[n - 1],
            (n - 1) as u64,
        );
    }
}

/// Selecting the single row `p`.
proof fn lemma_encode_unit(rows: Seq<u64>, p: nat, n: nat)
    requires
        n <= rows.len(),
        n <= 64,
        p < 64,
    ensures
        encode_upto(rows, 1u64 << (p as u64), n) == if p < n {
            rows[p as int]
        } else {
            0u64
        },
    decreases n,
{
    if n > 0 {
        lemma_encode_unit(rows, p, (n - 1) as nat);
        let i = (n - 1) as u64;
        let pp = p as u64;
        assert(bit(1u64 << pp, i) == (i == pp)) by (bit_vector)
            requires
                i < 64,
                pp < 64,
        ;
        let e = encode_upto(rows, 1u64 << pp, (n - 1) as nat);
        let g = rows[n - 1];
        lemma_xor_facts();
        assert(e ^ 0u64 == e && 0u64 ^ g == g);
    }
}

/// Changing row `r` to `x` changes a selection that holds `r` by `rows[r] ⊕ x`.
proof fn lemma_encode_update(rows: Seq<u64>, r: int, x: u64, c: u64, n: nat)
    requires
        n <= rows.len(),
        n <= 64,
        0 <= r < rows.len(),
    ensures
        encode_upto(rows.update(r, x), c, n) == encode_upto(rows, c, n) ^ (if r < n && bit(
            c,
            r as u64,
        ) {
            rows[r] ^ x
        } else {
            0u64
        }),
    decreases n,
{
    if n == 0 {
        lemma_xor_facts();
        assert(0u64 ^ 0u64 == 0u64);
    } else {
        lemma_encode_update(rows, r, x, c, (n - 1) as nat);
        let e = encode_upto(rows, c, (n - 1) as nat);
        let i = (n - 1) as u64;
        let g = rows[n - 1];
        let gr = rows[r];
        let b = bit(c, i);
        let br = bit(c, r as u64);
        if r == n - 1 {
            assert((e ^ 0u64) ^ (if b {
                x
            } else {
                0u64
            }) == (e ^ (if b {
                g
            } else {
                0u64
            })) ^ (if b {
                g ^ x
            } else {
                0u64
            })) by (bit_vector)
                requires
                    g == gr,
            ;
        } else {
            let d = if r < n - 1 && br {
                gr ^ x
            } else {
                0u64
            };
            assert((e ^ d) ^ (if b {
                g
            } else {
                0u64
            }) == (e ^ (if b {
                g
            } else {
                0u64
            })) ^ d) by (bit_vector);
        }
    }
}

/// Masking commutes with selection.
proof fn lemma_encode_mask(rows: Seq<u64>, masked: Seq<u64>, m: u64, c: u64, n: nat)
    requires
        n <= rows.len(),
        rows.len() == masked.len(),
        forall|i: int| 0 <= i < rows.len() ==> #[trigger] masked[i] == rows[i] & m,
    ensures
        encode_upto(rows, c, n) & m == encode_upto(masked, c, n),
    decreases n,
{
    if n == 0 {
        lemma_xor_facts();
        assert(0u64 & m == 0u64);
    } else {
        lemma_encode_mask(rows, masked, m, c, (n - 1) as nat);
        let e = encode_upto(rows, c, (n - 1) as nat);
        let g = rows[n - 1];
        let b = bit(c, (n - 1) as u64);
        assert((e ^ (if b {
            g
        } else {
            0u64
        })) & m == (e & m) ^ (if b {
            g & m
        } else {
            0u64
        })) by (bit_vector);
    }
}

proof fn lemma_satisfied_step(e: u64, g: u64, s: u64, b: bool)
    by (bit_vector)
    requires
        satisfied(e, s),
        satisfied(g, s),
    ensures
        satisfied(
            e ^ (if b {
                g
            } else {
                0u64
            }),
            s,
        ),
{
}

/// Sums of satisfied equations are satisfied.
proof fn lemma_encode_satisfied(rows: Seq<u64>, c: u64, s: u64, n: nat)
    requires
        n <= rows.len(),
        forall|i: int| 0 <= i < rows.len() ==> satisfied(#[trigger] rows[i], s),
    ensures
        satisfied(encode_upto(rows, c, n), s),
    decreases n,
{
    if n == 0 {
        assert(satisfied(0u64, s)) by (bit_vector);
    } else {
        lemma_encode_satisfied(rows, c, s, (n - 1) as nat);
        lemma_satisfied_step(
            encode_upto(rows, c, (n - 1) as nat),
            rows[n - 1],
            s,
            bit(c, (n - 1) as u64),
        );
    }
}

/// The equation of row `x` of a system, its right-hand side in the top bit.
pub open spec fn equation(rows: Seq<u64>, y: u64, x: int) -> u64 {
    rows[x] | (((y >> (x as u64)) & 1u64) << 63u64)
}

proof fn lemma_equation(r: u64, y: u64, x: u64, k: u64, s: u64)
    by (bit_vector)
    requires
        k <= 63,
        x < k,
        r <= low_mask(k),
    ensures
        (r | (((y >> x) & 1u64) << 63u64)) & low_mask(63u64) == r,
        (r | (((y >> x) & 1u64) << 63u64)) >> 63u64 == (y >> x) & 1u64,
        (y >> x) & 1u64 <= 1u64,
        (1u64 << x) & low_mask(k) == 1u64 << x,
        (1u64 << x) <= low_mask(k),
        bit(low_mask(k), x),
        !bit(0u64, x),
{
}

/// One row `w` eliminated by the pivot row `pr` at column `j`.
proof fn lemma_eliminate(w: u64, pr: u64, j: u64, cols: u64, q: u64, k: u64)
    by (bit_vector)
    requires
        j < k,
        k <= 63,
        bit(pr, j),
        pr & low_mask(j) == 0u64,
        cols <= low_mask(j),
        pr & low_mask(63u64) <= low_mask(k),
    ensures
        pr & cols == 0u64,
        !bit(
            if bit(w, j) {
                w ^ pr
            } else {
                w
            },
            j,
        ),
        w & low_mask(j) == 0u64 ==> (if bit(w, j) {
            w ^ pr
        } else {
            w
        }) & low_mask((j + 1) as u64) == 0u64,
        w & cols == q ==> (if bit(w, j) {
            w ^ pr
        } else {
            w
        }) & (cols | (1u64 << j)) == q,
        w & low_mask(63u64) <= low_mask(k) ==> (if bit(w, j) {
            w ^ pr
        } else {
            w
        }) & low_mask(63u64) <= low_mask(k),
        pr & (cols | (1u64 << j)) == 1u64 << j,
        cols | (1u64 << j) <= low_mask((j + 1) as u64),
        cols == low_mask(j) ==> cols | (1u64 << j) == low_mask((j + 1) as u64),
{
}

/// A column with no pivot.
proof fn lemma_no_pivot(w: u64, j: u64, cols: u64)
    by (bit_vector)
    requires
        j < 63,
    ensures
        w & low_mask(j) == 0u64 && !bit(w, j) ==> w & low_mask((j + 1) as u64) == 0u64,
        cols <= low_mask(j) ==> cols <= low_mask((j + 1) as u64),
        w & low_mask(0u64) == 0u64,
{
}

/// The selections of the rows that are not pivots yet.
proof fn lemma_selection(c: u64, pc: u64, u: u64, x: u64, p: u64)
    by (bit_vector)
    requires
        x < 64,
        p < 64,
        pc & u == 1u64 << p,
    ensures
        !bit(u & !(1u64 << p), p),
        x != p ==> bit(u & !(1u64 << p), x) == bit(u, x),
        x != p && c & u == 1u64 << x ==> (c ^ pc) & (u & !(1u64 << p)) == 1u64 << x && c & (u
            & !(1u64 << p)) == 1u64 << x,
{
}

/// The end of elimination: a row with no coefficient left is zero, and a
/// pivot row holds its pivot alone; a pivot row is satisfied by a word whose
/// bit at the pivot is the row's right-hand side.
proof fn lemma_final_row(w: u64, k: u64, p: u64, s: u64, c: u64, u: u64)
    by (bit_vector)
    requires
        k <= 63,
        p < k,
        w & low_mask(63u64) <= low_mask(k),
    ensures
        c & u == 1u64 << p ==> c != 0u64,
        w & low_mask(k) == 0u64 ==> w & low_mask(63u64) == 0u64,
        w & low_mask(k) == 1u64 << p ==> w & low_mask(63u64) == 1u64 << p,
        w & low_mask(63u64) == 1u64 << p && bit(s, p) == (w >> 63u64 == 1u64) ==> satisfied(w, s),
        s <= low_mask(k) ==> (s | (1u64 << p)) <= low_mask(k),
        bit(s | (1u64 << p), p),
        forall|c: u64| c < 64 && c != p ==> #[trigger] bit(s | (1u64 << p), c) == bit(s, c),
{
}

/// The equations of `A · s = y`: row `x`'s coefficients, with its
/// right-hand side in the top bit.
pub open spec fn equations(rows: Seq<u64>, y: u64) -> Seq<u64> {
    Seq::new(rows.len(), |x: int| equation(rows, y, x))
}

/// Some pivot row among the used ones has pivot `c`.
pub open spec fn pivot_row_in(piv: Seq<u64>, used: Seq<bool>, c: u64) -> bool {
    exists|x: int| 0 <= x < used.len() && #[trigger] used[x] && piv[x] == c
}

/// Some row has pivot `c`.
pub open spec fn has_pivot_row(piv: Seq<u64>, c: u64) -> bool {
    exists|x: int| 0 <= x < piv.len() && #[trigger] piv[x] == c
}

/// The outcome of a complete elimination: each reduced row is a selection
/// `comb[x]` of the equations and holds the unknown `piv[x]` alone, the
/// pivots are distinct and cover every unknown, and each equation is the
/// selection `d[x]` of the reduced rows.
pub open spec fn reduced(
    rows: Seq<u64>,
    y: u64,
    aug: Seq<u64>,
    comb: Seq<u64>,
    piv: Seq<u64>,
    d: Seq<u64>,
) -> bool {
    let k = rows.len();
    &&& aug.len() == k
    &&& comb.len() == k
    &&& piv.len() == k
    &&& d.len() == k
    &&& forall|x: int|
        0 <= x < k ==> #[trigger] aug[x] == encode_upto(equations(rows, y), comb[x], k)
            && comb[x] <= low_mask(k as u64)
    &&& forall|x: int| 0 <= x < k ==> equations(rows, y)[x] == encode_upto(aug, #[trigger] d[x], k)
    &&& forall|x: int|
        0 <= x < k ==> aug[x] & low_mask(63) == 1u64 << #[trigger] piv[x] && piv[x] < k
    &&& forall|x: int, z: int|
        0 <= x < k && 0 <= z < k && x != z ==> #[trigger] piv[x] != #[trigger] piv[z]
    &&& forall|c: u64| c < k ==> #[trigger] has_pivot_row(piv, c)
}

/// Gauss–Jordan elimination on the equations of `A · s = y`: either every
/// row ends up holding one unknown alone, or a nonzero selection of rows of `A`
/// sums to zero.
fn eliminate(rows: &Vec<u64>, y: u64) -> (r: Result<(Vec<u64>, Vec<u64>, Vec<u64>, Ghost<Seq<u64>>), u64>)
    requires
        rows@.len() <= 63,
        forall|i: int|
            0 <= i < rows@.len() ==> #[trigger] rows@[i] <= low_mask(rows@.len() as u64),
    ensures
        r matches Ok(t) ==> reduced(rows@, y, t.0@, t.1@, t.2@, t.3@),
        r matches Err(c) ==> c != 0u64 && c <= low_mask(rows@.len() as u64) && encode(rows@, c)
            == 0u64,
{
    let k = rows.len();
    let kk = k as u64;
    let mut aug: Vec<u64> = Vec::new();
    let mut comb: Vec<u64> = Vec::new();
    let mut used: Vec<bool> = Vec::new();
    let mut piv: Vec<u64> = Vec::new();
    let mut t: usize = 0;
    while t < k
        invariant
            k == rows@.len(),
            k <= 63,
            t <= k,
            aug@.len() == t,
            comb@.len() == t,
            used@.len() == t,
            piv@.len() == t,
            forall|x: int|
                0 <= x < t ==> #[trigger] aug@[x] == equation(rows@, y, x),
            forall|x: int| 0 <= x < t ==> #[trigger] comb@[x] == 1u64 << (x as u64),
            forall|x: int| 0 <= x < t ==> !#[trigger] used@[x],
        decreases k - t,
    {
        aug.push(rows[t] | (((y >> (t as u64)) & 1u64) << 63u64));
        comb.push(1u64 << (t as u64));
        used.push(false);
        piv.push(0);
        t = t + 1;
    }
    let ghost orig = aug@;
    let ghost mut d: Seq<u64> = Seq::new(k as nat, |x: int| 1u64 << (x as u64));
    let ghost mut unused: u64 = low_mask(kk);
    proof {
        lemma_mask(0, 0, 0);
        lemma_count_true_all_false(used@);
        assert forall|x: int| 0 <= x < k implies #[trigger] aug@[x] == encode_upto(
            orig,
            comb@[x],
            k as nat,
        ) && orig[x] == encode_upto(aug@, d[x], k as nat) && aug@[x] & low_mask(63) <= low_mask(
            kk,
        ) && comb@[x] <= low_mask(kk) && comb@[x] & unused == 1u64 << (x as u64) && aug@[x]
            & low_mask(0) == 0u64 && bit(unused, x as u64) by {
            assert(((x as nat) as u64) == x as u64);
            lemma_encode_unit(orig, x as nat, k as nat);
            lemma_equation(rows@[x], y, x as u64, kk, 0);
            lemma_no_pivot(aug@[x], 0, 0);
        }
        assert forall|x: int| 0 <= x < k implies (#[trigger] used@[x] || (comb@[x] & unused == 1u64
            << (x as u64) && aug@[x] & low_mask(0) == 0u64)) && bit(unused, x as u64)
            == !used@[x] by {
            lemma_equation(rows@[x], y, x as u64, kk, 0);
            lemma_no_pivot(aug@[x], 0, 0);
        }
    }
    let mut pivcols: u64 = 0;
    let mut nused: usize = 0;
    proof {
        lemma_xor_facts();
    }
    let mut j: usize = 0;
    while j < k
        invariant
            k == rows@.len(),
            k <= 63,
            kk == k,
            j <= k,
            aug@.len() == k,
            comb@.len() == k,
            used@.len() == k,
            piv@.len() == k,
            orig.len() == k,
            d.len() == k,
            forall|x: int| 0 <= x < k ==> #[trigger] orig[x] == equation(rows@, y, x),
            forall|x: int|
                0 <= x < k ==> #[trigger] aug@[x] == encode_upto(orig, comb@[x], k as nat),
            forall|x: int| 0 <= x < k ==> #[trigger] orig[x] == encode_upto(aug@, d[x], k as nat),
            forall|x: int|
                0 <= x < k ==> #[trigger] aug@[x] & low_mask(63) <= low_mask(kk) && comb@[x]
                    <= low_mask(kk),
            forall|x: int|
                0 <= x < k ==> (#[trigger] used@[x] || (comb@[x] & unused == 1u64 << (x as u64)
                    && aug@[x] & low_mask(j as u64) == 0u64)),
            forall|x: int| 0 <= x < k ==> bit(unused, x as u64) == !#[trigger] used@[x],
            forall|x: int|
                0 <= x < k && #[trigger] used@[x] ==> piv@[x] < j && aug@[x] & pivcols == 1u64
                    << piv@[x],
            forall|x: int, z: int|
                0 <= x < k && 0 <= z < k && x != z && #[trigger] used@[x] && #[trigger] used@[z]
                    ==> piv@[x] != piv@[z],
            pivcols <= low_mask(j as u64),
            forall|c: u64|
                c < 64 && bit(pivcols, c) ==> #[trigger] pivot_row_in(piv@, used@, c),
            nused == count_true(used@),
            nused <= j,
            nused == j ==> pivcols == low_mask(j as u64),
        decreases k - j,
    {
        let jj = j as u64;
        let mut p: usize = k;
        let mut t: usize = 0;
        while t < k
            invariant
                t <= k,
                jj < 63,
                k == aug@.len(),
                k == used@.len(),
                p == k || (p < t && !used@[p as int] && bit(aug@[p as int], jj)),
                p == k ==> forall|x: int| 0 <= x < t ==> (#[trigger] used@[x] || !bit(aug@[x], jj)),
            decreases k - t,
        {
            if p == k && !used[t] && (aug[t] >> jj) & 1u64 == 1u64 {
                p = t;
            }
            t = t + 1;
        }
        if p < k {
            let pr = aug[p];
            let pc = comb[p];
            let ghost a0 = aug@;
            let ghost c0 = comb@;
            let mut r: usize = 0;
            while r < k
                invariant
                    k == rows@.len(),
                    k <= 63,
                    jj < 63,
                    p < k,
                    r <= k,
                    aug@.len() == k,
                    comb@.len() == k,
                    a0.len() == k,
                    c0.len() == k,
                    orig.len() == k,
                    d.len() == k,
                    a0[p as int] == pr,
                    c0[p as int] == pc,
                    forall|x: int|
                        0 <= x < k ==> #[trigger] orig[x] == encode_upto(aug@, d[x], k as nat),
                    forall|x: int|
                        0 <= x < r && x != p ==> #[trigger] aug@[x] == (if bit(a0[x], jj) {
                            a0[x] ^ pr
                        } else {
                            a0[x]
                        }),
                    forall|x: int|
                        0 <= x < r && x != p ==> #[trigger] comb@[x] == (if bit(a0[x], jj) {
                            c0[x] ^ pc
                        } else {
                            c0[x]
                        }),
                    forall|x: int|
                        0 <= x < k && (r <= x || x == p) ==> #[trigger] aug@[x] == a0[x],
                    forall|x: int|
                        0 <= x < k && (r <= x || x == p) ==> #[trigger] comb@[x] == c0[x],
                decreases k - r,
            {
                if r != p && (aug[r] >> jj) & 1u64 == 1u64 {
                    let ghost before = aug@;
                    let ghost d_before = d;
                    let nr = aug[r] ^ pr;
                    let ghost cbefore = comb@;
                    aug.set(r, nr);
                    comb.set(r, comb[r] ^ pc);
                    proof {
                        assert(forall|x: int| 0 <= x < k && x != r ==> aug@[x] == before[x]);
                        assert(forall|x: int| 0 <= x < k && x != r ==> comb@[x] == cbefore[x]);
                        d = Seq::new(
                            k as nat,
                            |x: int|
                                if bit(d_before[x], r as u64) {
                                    d_before[x] ^ (1u64 << (p as u64))
                                } else {
                                    d_before[x]
                                },
                        );
                        assert(aug@ == before.update(r as int, nr));
                        assert forall|x: int| 0 <= x < k implies #[trigger] orig[x] == encode_upto(
                            aug@,
                            d[x],
                            k as nat,
                        ) by {
                            lemma_encode_update(before, r as int, nr, d_before[x], k as nat);
                            lemma_encode_xor(aug@, d_before[x], 1u64 << (p as u64), k as nat);
                            assert(((p as nat) as u64) == p as u64);
                            lemma_encode_unit(aug@, p as nat, k as nat);
                            lemma_xor_facts();
                            assert(before[r as int] ^ nr == pr);
                        }
                    }
                }
                assert(r != p ==> aug@[r as int] == (if bit(a0[r as int], jj) {
                    a0[r as int] ^ pr
                } else {
                    a0[r as int]
                }));
                assert(r != p ==> comb@[r as int] == (if bit(a0[r as int], jj) {
                    c0[r as int] ^ pc
                } else {
                    c0[r as int]
                }));
                r = r + 1;
            }
            let ghost used0 = used@;
            let ghost piv0 = piv@;
            let ghost u0 = unused;
            let ghost cols0 = pivcols;
            proof {
                lemma_count_true_update(used0, p as int);
                lemma_count_true_bound(used0.update(p as int, true));
                assert(bit(pr, jj));
                assert(!used0[p as int]);
                assert(pr & low_mask(jj) == 0u64);
                assert(c0[p as int] & u0 == 1u64 << (p as u64));
                assert(pr & low_mask(63) <= low_mask(kk));
                assert(jj + 1 == (j + 1) as u64);
                lemma_eliminate(pr, pr, jj, cols0, 0, kk);
            }
            used.set(p, true);
            piv.set(p, jj);
            proof {
                unused = u0 & !(1u64 << (p as u64));
            }
            pivcols = pivcols | (1u64 << jj);
            nused = nused + 1;
            proof {
                assert forall|x: int| 0 <= x < k implies #[trigger] aug@[x] == encode_upto(
                    orig,
                    comb@[x],
                    k as nat,
                ) && aug@[x] & low_mask(63) <= low_mask(kk) && comb@[x] <= low_mask(kk) by {
                    lemma_eliminate(a0[x], pr, jj, cols0, 0, kk);
                    if x != p as int && bit(a0[x], jj) {
                        lemma_encode_xor(orig, c0[x], pc, k as nat);
                        lemma_xor_fits(c0[x], pc, kk);
                    }
                }
                assert forall|x: int| 0 <= x < k implies (#[trigger] used@[x] || (comb@[x] & unused
                    == 1u64 << (x as u64) && aug@[x] & low_mask((j + 1) as u64) == 0u64)) && bit(
                    unused,
                    x as u64,
                ) == !used@[x] by {
                    lemma_eliminate(a0[x], pr, jj, cols0, 0, kk);
                    lemma_selection(c0[x], pc, u0, x as u64, p as u64);
                    if x != p as int {
                        assert(used@[x] == used0[x]);
                        if !used0[x] {
                            assert(c0[x] & u0 == 1u64 << (x as u64));
                            assert(a0[x] & low_mask(jj) == 0u64);
                            assert(comb@[x] & unused == 1u64 << (x as u64));
                            assert(aug@[x] & low_mask((jj + 1) as u64) == 0u64);
                        }
                        assert(bit(unused, x as u64) == bit(u0, x as u64));
                    } else {
                        assert(!bit(unused, x as u64));
                    }
                }
                assert forall|c: u64| c < 64 && bit(pivcols, c) implies #[trigger] pivot_row_in(
                    piv@,
                    used@,
                    c,
                ) by {
                    lemma_xor_facts();
                    lemma_final_row(0, kk, jj, cols0, 0, 0);
                    if c == jj {
                        assert(used@[p as int] && piv@[p as int] == c);
                    } else {
                        assert(bit(cols0, c));
                        assert(pivot_row_in(piv0, used0, c));
                        let x = choose|x: int| 0 <= x < used0.len() && #[trigger] used0[x] && piv0[x] == c;
                        assert(used@[x] && piv@[x] == c);
                    }
                }
                assert forall|x: int| 0 <= x < k && #[trigger] used@[x] implies piv@[x] < j + 1
                    && aug@[x] & pivcols == 1u64 << piv@[x] by {
                    if x == p as int {
                        lemma_eliminate(a0[x], pr, jj, cols0, 0, kk);
                    } else {
                        assert(used0[x]);
                        lemma_eliminate(a0[x], pr, jj, cols0, 1u64 << piv@[x], kk);
                    }
                }
            }
        } else {
            proof {
                assert forall|x: int| 0 <= x < k implies (#[trigger] used@[x] || (comb@[x]
                    & unused == 1u64 << (x as u64) && aug@[x] & low_mask((j + 1) as u64) == 0u64))
                    by {
                    lemma_no_pivot(aug@[x], jj, pivcols);
                }
                lemma_no_pivot(0, jj, pivcols);
            }
        }
        j = j + 1;
    }
    proof {
        lemma_count_true_full(used@);
        lemma_count_true_bound(used@);
    }
    if nused < k {
        let mut r: usize = 0;
        while r < k && used[r]
            invariant
                r <= k,
                used@.len() == k,
                forall|x: int| 0 <= x < r ==> #[trigger] used@[x],
            decreases k - r,
        {
            r = r + 1;
        }
        proof {
            if r == k {
                assert(forall|x: int| 0 <= x < k ==> #[trigger] used@[x]);
                lemma_count_true_all_true(used@);
            }
            let c = comb@[r as int];
            lemma_final_row(aug@[r as int], kk, r as u64, 0, c, unused);
            let masked = Seq::new(k as nat, |x: int| orig[x] & low_mask(63));
            assert forall|x: int| 0 <= x < k implies #[trigger] masked[x] == rows@[x] by {
                lemma_equation(rows@[x], y, x as u64, kk, 0);
            }
            assert(masked =~= rows@);
            lemma_encode_mask(orig, masked, low_mask(63), c, k as nat);
        }
        return Err(comb[r]);
    }
    proof {
        lemma_count_true_all_true(used@);
        assert(pivcols == low_mask(kk));
        assert(orig =~= equations(rows@, y));
        assert forall|x: int| 0 <= x < k implies aug@[x] & low_mask(63) == 1u64 << #[trigger] piv@[x]
            && piv@[x] < kk by {
            assert(used@[x]);
            lemma_final_row(aug@[x], kk, piv@[x], 0, 0, 0);
        }
        assert forall|x: int, z: int| 0 <= x < k && 0 <= z < k && x != z implies #[trigger] piv@[x]
            != #[trigger] piv@[z] by {
            assert(used@[x] && used@[z]);
        }
        assert forall|c: u64| c < kk implies #[trigger] has_pivot_row(piv@, c) by {
            lemma_equation(0, 0, c, kk, 0);
            assert(pivot_row_in(piv@, used@, c));
        }
    }
    Ok((aug, comb, piv, Ghost(d)))
}

/// Solves `A · s = y` over GF(2) for a square system of at most 63
/// unknowns, by Gauss–Jordan elimination. Row `i` of `A` is `rows[i]`, its bit
/// `j` the coefficient of unknown `j`; bit `i` of `y` is the right-hand side of
/// row `i`. The result is the solution, or a nonzero selection of rows whose
/// sum is zero, which shows that `A` is singular.
pub fn solve(rows: &Vec<u64>, y: u64) -> (r: Result<u64, u64>)
    requires
        rows@.len() <= 63,
        forall|i: int|
            0 <= i < rows@.len() ==> #[trigger] rows@[i] <= low_mask(rows@.len() as u64),
    ensures
        r matches Ok(s) ==> s <= low_mask(rows@.len() as u64) && forall|i: int|
            0 <= i < rows@.len() ==> #[trigger] inner(rows@[i], s) == bit(y, i as u64),
        r matches Err(c) ==> c != 0u64 && c <= low_mask(rows@.len() as u64) && encode(rows@, c)
            == 0u64,
{
    let (aug, comb, piv, Ghost(d)) = match eliminate(rows, y) {
        Ok(t) => t,
        Err(c) => return Err(c),
    };
    let k = rows.len();
    let kk = k as u64;
    let ghost orig = equations(rows@, y);
    let mut s: u64 = 0;
    let mut r: usize = 0;
    proof {
        assert forall|x: int| 0 <= x < k implies !bit(0u64, #[trigger] piv@[x]) by {
            lemma_equation(0, 0, piv@[x], kk, 0);
        }
    }
    while r < k
        invariant
            k == rows@.len(),
            k <= 63,
            kk == k,
            r <= k,
            reduced(rows@, y, aug@, comb@, piv@, d),
            s <= low_mask(kk),
            forall|x: int|
                0 <= x < r ==> bit(s, #[trigger] piv@[x]) == (aug@[x] >> 63u64 == 1u64),
            forall|x: int| r <= x < k ==> !bit(s, #[trigger] piv@[x]),
        decreases k - r,
    {
        let q = piv[r];
        if (aug[r] >> 63u64) == 1u64 {
            proof {
                lemma_xor_facts();
                lemma_final_row(0, kk, q, s, 0, 0);
                assert forall|x: int| 0 <= x < k && x != r implies bit(
                    s | (1u64 << q),
                    #[trigger] piv@[x],
                ) == bit(s, piv@[x]) by {
                    assert(piv@[x] != piv@[r as int]);
                }
            }
            s = s | (1u64 << q);
        }
        r = r + 1;
    }
    proof {
        assert forall|x: int| 0 <= x < k implies satisfied(#[trigger] aug@[x], s) by {
            assert(aug@[x] & low_mask(63) == 1u64 << piv@[x]);
            lemma_equation(0, 0, piv@[x], kk, 0);
            lemma_final_row(aug@[x], kk, piv@[x], s, 0, 0);
        }
        assert forall|i: int| 0 <= i < k implies #[trigger] inner(rows@[i], s) == bit(
            y,
            i as u64,
        ) by {
            assert(orig[i] == encode_upto(aug@, d[i], k as nat));
            lemma_encode_satisfied(aug@, d[i], s, k as nat);
            lemma_equation(rows@[i], y, i as u64, kk, s);
            assert(satisfied(orig[i], s));
        }
    }
    Ok(s)
}

/// The inverse of `A`, by its columns: for each unknown `j`, the selection
/// of rows of `A` whose sum is the unit vector `e_j`; or, where `A` is
/// singular, a nonzero selection of rows whose sum is zero.
pub fn invert(rows: &Vec<u64>) -> (r: Result<Vec<u64>, u64>)
    requires
        rows@.len() <= 63,
        forall|i: int|
            0 <= i < rows@.len() ==> #[trigger] rows@[i] <= low_mask(rows@.len() as u64),
    ensures
        r matches Ok(inv) ==> inv@.len() == rows@.len() && forall|j: int|
            0 <= j < rows@.len() ==> encode(rows@, #[trigger] inv@[j]) == 1u64 << (j as u64)
                && inv@[j] <= low_mask(rows@.len() as u64),
        r matches Err(c) ==> c != 0u64 && c <= low_mask(rows@.len() as u64) && encode(rows@, c)
            == 0u64,
{
    let (aug, comb, piv, Ghost(d)) = match eliminate(rows, 0) {
        Ok(t) => t,
        Err(c) => return Err(c),
    };
    let k = rows.len();
    let kk = k as u64;
    let mut inv: Vec<u64> = Vec::new();
    while inv.len() < k
        invariant
            inv@.len() <= k,
        decreases k - inv@.len(),
    {
        inv.push(0);
    }
    let mut x: usize = 0;
    while x < k
        invariant
            k == rows@.len(),
            k <= 63,
            x <= k,
            inv@.len() == k,
            reduced(rows@, 0, aug@, comb@, piv@, d),
            forall|z: int| 0 <= z < x ==> inv@[#[trigger] piv@[z] as int] == comb@[z],
        decreases k - x,
    {
        let q = piv[x] as usize;
        inv.set(q, comb[x]);
        proof {
            assert forall|z: int| 0 <= z < x + 1 implies inv@[#[trigger] piv@[z] as int]
                == comb@[z] by {
                if z != x {
                    assert(piv@[z] != piv@[x as int]);
                }
            }
        }
        x = x + 1;
    }
    proof {
        let eqs = equations(rows@, 0);
        assert forall|i: int| 0 <= i < k implies #[trigger] rows@[i] == eqs[i] & low_mask(63) by {
            lemma_equation(rows@[i], 0, i as u64, kk, 0);
        }
        assert forall|j: int| 0 <= j < k implies encode(rows@, #[trigger] inv@[j]) == 1u64 << (
        j as u64) && inv@[j] <= low_mask(kk) by {
            assert(has_pivot_row(piv@, j as u64));
            let z = choose|z: int| 0 <= z < piv@.len() && #[trigger] piv@[z] == j as u64;
            assert(inv@[j] == comb@[z]);
            lemma_encode_mask(eqs, rows@, low_mask(63), comb@[z], k as nat);
        }
    }
    Ok(inv)
}

/// Selecting nothing gives zero.
proof fn lemma_encode_zero(rows: Seq<u64>, n: nat)
    requires
        n <= rows.len(),
    ensures
        encode_upto(rows, 0u64, n) == 0u64,
    decreases n,
{
    lemma_xor_facts();
    if n > 0 {
        lemma_encode_zero(rows, (n - 1) as nat);
    }
}

/// Applying the inverse: where `inv[j]` selects the rows of `A` that sum to
/// `e_j`, the selection `encode(inv, a)` selects rows of `A` that sum to `a`.
pub proof fn lemma_apply_inverse(rows: Seq<u64>, inv: Seq<u64>, a: u64, t: nat)
    requires
        rows.len() <= 63,
        inv.len() == rows.len(),
        t <= rows.len(),
        forall|j: int| 0 <= j < rows.len() ==> encode(rows, #[trigger] inv[j]) == 1u64 << (j as u64),
    ensures
        encode(rows, encode_upto(inv, a, t)) == a & low_mask(t as u64),
    decreases t,
{
    lemma_mask(a, 0, 0);
    lemma_xor_facts();
    if t == 0 {
        lemma_encode_zero(rows, rows.len());
    } else {
        let i = (t - 1) as nat;
        let iu = i as u64;
        lemma_apply_inverse(rows, inv, a, i);
        let e = encode_upto(inv, a, i);
        let g = if bit(a, iu) {
            inv[i as int]
        } else {
            0u64
        };
        assert(encode_upto(inv, a, t) == e ^ g);
        lemma_encode_xor(rows, e, g, rows.len());
        lemma_encode_zero(rows, rows.len());
        let u = 1u64 << iu;
        assert(((i as int) as u64) == iu);
        assert(encode(rows, inv[i as int]) == u);
        let lo = a & low_mask(iu);
        assert(encode(rows, e) == lo);
        let h = if bit(a, iu) {
            u
        } else {
            0u64
        };
        assert(encode(rows, g) == h);
        assert(encode(rows, e ^ g) == lo ^ h);
        lemma_mask(lo, 64, 0);
        lemma_mask(u, 64, 0);
        crate::code::lemma_encode_step(lo, u, a, iu, 64);
        lemma_mask(lo ^ h, 64, 0);
        assert((lo ^ h) & low_mask(64) == a & low_mask((iu + 1) as u64));
        assert(t as u64 == (iu + 1) as u64);
    }
}

/// Why the pooled solver gives no secret.
#[derive(Clone, Copy, Debug, PartialEq, Eq, Structural)]
pub enum GaussError {
    /// More than 63 unknowns, or a draw that does not name `k` samples of
    /// the pool.
    Configuration,
    /// No draw gave a system of full rank.
    InsufficientSamples,
}

/// A draw names `k` samples of the pool.
pub open spec fn valid_draw(pool: Seq<Sample>, k: nat, draw: Seq<usize>) -> bool {
    &&& draw.len() == k
    &&& forall|i: int| 0 <= i < k ==> #[trigger] draw[i] < pool.len()
}

/// The vectors of the drawn samples, as the rows of a system.
pub open spec fn drawn_rows(pool: Seq<Sample>, draw: Seq<usize>) -> Seq<u64> {
    Seq::new(draw.len(), |i: int| pool[draw[i] as int].a)
}

/// `s` agrees with the product of every drawn sample.
pub open spec fn solves(pool: Seq<Sample>, draw: Seq<usize>, s: u64) -> bool {
    forall|i: int|
        0 <= i < draw.len() ==> #[trigger] inner(pool[draw[i] as int].a, s)
            == pool[draw[i] as int].product
}

/// The drawn vectors are linearly dependent.
pub open spec fn dependent(pool: Seq<Sample>, draw: Seq<usize>) -> bool {
    exists|c: u64| c != 0u64 && #[trigger] encode(drawn_rows(pool, draw), c) == 0u64
}

/// The candidate secret of one draw of `k` samples: the solution of the
/// system they form, or `None` where their vectors are dependent.
pub fn candidate(oracle: &LpnOracle, draw: &Vec<usize>) -> (r: Option<u64>)
    requires
        oracle.wf(),
        oracle.k <= 63,
        valid_draw(oracle.samples@, oracle.k as nat, draw@),
    ensures
        r matches Some(s) ==> s <= low_mask(oracle.k as u64) && solves(
            oracle.samples@,
            draw@,
            s,
        ),
        r is None ==> dependent(oracle.samples@, draw@),
{
    let k = oracle.k;
    let ghost pool = oracle.samples@;
    let mut rows: Vec<u64> = Vec::new();
    let mut y: u64 = 0;
    let mut i: usize = 0;
    while i < k
        invariant
            k == oracle.k,
            k <= 63,
            i <= k,
            pool == oracle.samples@,
            oracle.wf(),
            valid_draw(pool, k as nat, draw@),
            rows@.len() == i,
            y <= low_mask(i as u64),
            forall|x: int| 0 <= x < i ==> #[trigger] rows@[x] == pool[draw@[x] as int].a,
            forall|x: int| 0 <= x < i ==> bit(y, x as u64) == #[trigger] pool[draw@[x] as int].product,
        decreases k - i,
    {
        let q = oracle.samples[draw[i]];
        let b: u64 = if q.product {
            1
        } else {
            0
        };
        proof {
            assert forall|x: int| 0 <= x <= i implies #[trigger] bit(y | (b << (i as u64)), x as u64) == (if x
                < i {
                bit(y, x as u64)
            } else {
                b == 1u64
            }) by {
                lemma_push_bit(y, i as u64, b, x as u64);
            }
            lemma_push_bit(y, i as u64, b, 0);
        }
        rows.push(q.a);
        y = y | (b << (i as u64));
        i = i + 1;
    }
    proof {
        assert(rows@ =~= drawn_rows(pool, draw@));
        assert forall|x: int| 0 <= x < k implies #[trigger] rows@[x] <= low_mask(k as u64) by {
            assert(crate::oracle::sample_fits(pool[draw@[x] as int], k as nat));
        }
    }
    match solve(&rows, y) {
        Ok(s) => {
            proof {
                assert forall|x: int| 0 <= x < draw@.len() implies #[trigger] inner(
                    pool[draw@[x] as int].a,
                    s,
                ) == pool[draw@[x] as int].product by {
                    assert(inner(rows@[x], s) == bit(y, x as u64));
                }
            }
            Some(s)
        },
        Err(c) => {
            proof {
                assert(encode(drawn_rows(pool, draw@), c) == 0u64);
            }
            None
        },
    }
}

/// Draw `d` is one of those listed in `src`.
pub open spec fn listed(src: Seq<int>, d: int) -> bool {
    exists|t: int| 0 <= t < src.len() && #[trigger] src[t] == d
}

/// `cands` are the candidates of the draws: `cands[t]` solves draw `src[t]`,
/// the listed draws come in increasing order, and every draw not listed is
/// dependent.
pub open spec fn candidates_of(
    pool: Seq<Sample>,
    draws: Seq<Vec<usize>>,
    cands: Seq<u64>,
    src: Seq<int>,
) -> bool {
    &&& cands.len() == src.len()
    &&& forall|t: int|
        0 <= t < src.len() ==> 0 <= #[trigger] src[t] < draws.len() && solves(
            pool,
            draws[src[t]]@,
            cands[t],
        )
    &&& forall|t: int, u: int| 0 <= t < u < src.len() ==> #[trigger] src[t] < #[trigger] src[u]
    &&& forall|d: int|
        0 <= d < draws.len() && !#[trigger] listed(src, d) ==> dependent(pool, draws[d]@)
}

/// The number of the first `t` candidates with bit `i` set.
pub open spec fn votes_for(cands: Seq<u64>, i: u64, t: nat) -> nat
    decreases t,
{
    if t == 0 {
        0
    } else {
        votes_for(cands, i, (t - 1) as nat) + if bit(cands[t - 1], i) {
            1nat
        } else {
            0nat
        }
    }
}

/// The bitwise majority of the candidates: bit `i` is set where more than
/// half of them have it set.
pub open spec fn bitwise_majority(cands: Seq<u64>, k: nat) -> Seq<bool> {
    Seq::new(k, |i: int| 2 * votes_for(cands, i as u64, cands.len()) > cands.len())
}

/// The pooled Gauss solver on the draws `draws`, each naming `k` samples of
/// the pool: every draw of full rank gives a candidate secret, and the
/// result is their bitwise majority.
pub fn pooled_gauss_solve(oracle: &LpnOracle, draws: &Vec<Vec<usize>>) -> (r: Result<
    BinVector,
    GaussError,
>)
    requires
        oracle.wf(),
    ensures
        r == Err::<BinVector, GaussError>(GaussError::Configuration) <==> (oracle.k > 63
            || exists|d: int|
            0 <= d < draws@.len() && !valid_draw(
                oracle.samples@,
                oracle.k as nat,
                #[trigger] draws@[d]@,
            )),
        r == Err::<BinVector, GaussError>(GaussError::InsufficientSamples) ==> forall|d: int|
            0 <= d < draws@.len() ==> dependent(oracle.samples@, #[trigger] draws@[d]@),
        r matches Ok(v) ==> v.wf() && exists|cands: Seq<u64>, src: Seq<int>|
            cands.len() > 0 && #[trigger] candidates_of(oracle.samples@, draws@, cands, src) && v@
                == #[trigger] bitwise_majority(cands, oracle.k as nat),
{
    let k = oracle.k;
    if k > 63 {
        return Err(GaussError::Configuration);
    }
    let ghost pool = oracle.samples@;
    let n = oracle.samples.len();
    let mut d: usize = 0;
    while d < draws.len()
        invariant
            d <= draws@.len(),
            k == oracle.k,
            n == pool.len(),
            pool == oracle.samples@,
            forall|e: int| 0 <= e < d ==> valid_draw(pool, k as nat, #[trigger] draws@[e]@),
        decreases draws@.len() - d,
    {
        let draw = &draws[d];
        if draw.len() != k {
            assert(!valid_draw(oracle.samples@, oracle.k as nat, draws@[d as int]@));
            return Err(GaussError::Configuration);
        }
        let mut i: usize = 0;
        while i < k
            invariant
                i <= k,
                draw@.len() == k,
                draw@ == draws@[d as int]@,
                d < draws@.len(),
                k == oracle.k,
                pool == oracle.samples@,
                n == pool.len(),
                forall|x: int| 0 <= x < i ==> #[trigger] draw@[x] < n,
            decreases k - i,
        {
            if draw[i] >= n {
                assert(!valid_draw(oracle.samples@, oracle.k as nat, draws@[d as int]@)) by {
                    assert(draws@[d as int]@[i as int] >= oracle.samples@.len());
                }
                return Err(GaussError::Configuration);
            }
            i = i + 1;
        }
        d = d + 1;
    }
    let mut cands: Vec<u64> = Vec::new();
    let ghost mut src: Seq<int> = Seq::empty();
    let mut d: usize = 0;
    while d < draws.len()
        invariant
            d <= draws@.len(),
            k <= 63,
            k == oracle.k,
            pool == oracle.samples@,
            oracle.wf(),
            forall|e: int| 0 <= e < draws@.len() ==> valid_draw(pool, k as nat, #[trigger] draws@[e]@),
            src.len() == cands@.len(),
            forall|t: int|
                0 <= t < cands@.len() ==> 0 <= #[trigger] src[t] < d && solves(
                    pool,
                    draws@[src[t]]@,
                    cands@[t],
                ),
            forall|t: int, u: int| 0 <= t < u < src.len() ==> #[trigger] src[t] < #[trigger] src[u],
            forall|e: int| 0 <= e < d && !#[trigger] listed(src, e) ==> dependent(pool, draws@[e]@),
            forall|t: int| 0 <= t < cands@.len() ==> #[trigger] cands@[t] <= low_mask(k as u64),
            cands@.len() <= d,
        decreases draws@.len() - d,
    {
        let ghost src0 = src;
        match candidate(oracle, &draws[d]) {
            Some(s) => {
                cands.push(s);
                proof {
                    src = src.push(d as int);
                    assert forall|e: int| 0 <= e < d + 1 && !#[trigger] listed(src, e) implies dependent(
                        pool,
                        draws@[e]@,
                    ) by {
                        if e == d {
                            assert(src[src.len() - 1] == e);
                        } else if listed(src0, e) {
                            let t = choose|t: int| 0 <= t < src0.len() && #[trigger] src0[t] == e;
                            assert(src[t] == e);
                        }
                    }
                }
            },
            None => {
                proof {
                    assert forall|e: int| 0 <= e < d + 1 && !#[trigger] listed(src, e) implies dependent(
                        pool,
                        draws@[e]@,
                    ) by {
                    }
                }
            },
        }
        d = d + 1;
    }
    if cands.len() == 0 {
        proof {
            assert forall|e: int| 0 <= e < draws@.len() implies dependent(pool, #[trigger] draws@[e]@) by {
                assert(!listed(src, e));
            }
        }
        return Err(GaussError::InsufficientSamples);
    }
    let m = cands.len();
    let mut result = BinVector::with_capacity(k);
    let mut i: usize = 0;
    while i < k
        invariant
            k <= 63,
            i <= k,
            m == cands@.len(),
            m > 0,
            result.wf(),
            result.len_spec() == i,
            result@ == Seq::new(i as nat, |x: int| 2 * votes_for(cands@, x as u64, m as nat) > m),
        decreases k - i,
    {
        let mut count: usize = 0;
        let mut t: usize = 0;
        while t < m
            invariant
                t <= m,
                m == cands@.len(),
                i < k,
                k <= 63,
                count == votes_for(cands@, i as u64, t as nat),
                count <= t,
            decreases m - t,
        {
            if (cands[t] >> (i as u64)) & 1u64 == 1u64 {
                count = count + 1;
            }
            t = t + 1;
        }
        let more = count > m - count;
        result.push(more);
        assert(result@ =~= Seq::new(
            (i + 1) as nat,
            |x: int| 2 * votes_for(cands@, x as u64, m as nat) > m,
        ));
        i = i + 1;
    }
    proof {
        assert(result@ =~= bitwise_majority(cands@, k as nat));
        assert(candidates_of(pool, draws@, cands@, src));
    }
    Ok(result)
}

} // verus!
