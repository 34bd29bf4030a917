use rand::rngs::StdRng;
use rand::Rng;
use vstd::prelude::*;
use vstd::seq_lib::*;

verus! {

/// `rand::rngs::StdRng`, the seedable generator each caller owns, carried
/// through unopened.
#[verifier::external_type_specification]
#[verifier::external_body]
pub struct ExStdRng(StdRng);

/// Relies on `rand::Rng::gen_range` over `StdRng`: it returns a value of the
/// half-open range `0..bound`, and panics only when that range is empty.
#[verifier::external_body]
fn random_below(rng: &mut StdRng, bound: usize) -> (r: usize)
    requires
        bound > 0,
    ensures
        r < bound,
{
    rng.gen_range(0..bound)
}

/// Number of lattice points along each axis of a permutation table.
pub const POINT_COUNT: usize = 256;

/// The lattice points in order: `0, 1, ..., 255`.
pub open spec fn lattice_points() -> Seq<u32> {
    Seq::new(POINT_COUNT as nat, |i: int| i as u32)
}

/// `p` holds each lattice point exactly once.
pub open spec fn is_permutation(p: Seq<u32>) -> bool {
    p.to_multiset() == lattice_points().to_multiset()
}

/// Lattice coordinate `i` taken around the table, as `i & 255` does.
pub open spec fn wrap(i: i32) -> int {
    i as int % (POINT_COUNT as int)
}

/// `s` with the values at positions `i` and `j` exchanged.
pub open spec fn swap_at(s: Seq<u32>, i: int, j: int) -> Seq<u32> {
    s.update(i, s[j]).update(j, s[i])
}

/// Draws for shuffling `n` values: one per position, each position from the
/// second on drawing a position strictly below it (the first is not used).
pub open spec fn valid_draws(targets: Seq<usize>, n: int) -> bool {
    &&& targets.len() == n
    &&& forall|k: int| 1 <= k < n ==> #[trigger] targets[k] < k
}

/// `s` after each position from `i` down to 1 is swapped, in that order,
/// with the position drawn for it.
pub open spec fn swapped_down(s: Seq<u32>, targets: Seq<usize>, i: int) -> Seq<u32>
    decreases i,
{
    if i <= 0 {
        s
    } else {
        swapped_down(swap_at(s, i, targets[i] as int), targets, i - 1)
    }
}

/// `p` is the lattice points shuffled by some valid draws.
pub open spec fn is_shuffled_points(p: Seq<u32>) -> bool {
    exists|targets: Seq<usize>|
        #[trigger] valid_draws(targets, POINT_COUNT as int) && p == swapped_down(
            lattice_points(),
            targets,
            POINT_COUNT - 1,
        )
}

/// Swaps each position of `perm`, from the last down to the second, with the
/// position `targets` holds for it.
pub fn swap_down(perm: &mut Vec<u32>, targets: &Vec<usize>)
    requires
        valid_draws(targets@, old(perm)@.len() as int),
    ensures
        final(perm)@ == swapped_down(old(perm)@, targets@, old(perm)@.len() - 1),
        final(perm)@.len() == old(perm)@.len(),
        final(perm)@.to_multiset() == old(perm)@.to_multiset(),
{
    let n = perm.len();
    if n == 0 {
        return;
    }
    let mut i: usize = n - 1;
    while i > 0
        invariant
            i < n,
            perm@.len() == n,
            valid_draws(targets@, n as int),
            swapped_down(perm@, targets@, i as int) == swapped_down(old(perm)@, targets@, n - 1),
            perm@.to_multiset() == old(perm)@.to_multiset(),
        decreases i,
    {
        let target = targets[i];
        assert(targets@[i as int] < i);
        let a = perm[i];
        let b = perm[target];
        proof {
            broadcast use vstd::multiset::group_multiset_axioms;
            let s0 = perm@;
            let s1 = s0.update(i as int, b);
            to_multiset_update(s0, i as int, b);
            to_multiset_update(s1, target as int, a);
            assert(s1[target as int] == b);
            assert(s0.to_multiset().count(a) > 0) by {
                to_multiset_contains(s0, a);
                assert(s0[i as int] == a);
            }
            assert(s1.update(target as int, a).to_multiset() =~= s0.to_multiset());
            assert(s1.update(target as int, a) == swap_at(s0, i as int, target as int));
        }
        perm.set(i, b);
        perm.set(target, a);
        i = i - 1;
    }
}

/// Shuffles `perm` in place: for each position from the last down to the
/// second, draws a position strictly below it, then swaps each position with
/// its draw, from the last down.
pub fn permute(perm: &mut Vec<u32>, rng: &mut StdRng)
    ensures
        final(perm)@.len() == old(perm)@.len(),
        final(perm)@.to_multiset() == old(perm)@.to_multiset(),
        exists|targets: Seq<usize>|
            #[trigger] valid_draws(targets, old(perm)@.len() as int) && final(perm)@ == swapped_down(
                old(perm)@,
                targets,
                old(perm)@.len() - 1,
            ),
{
    let n = perm.len();
    let mut targets: Vec<usize> = Vec::new();
    let mut k: usize = 0;
    while k < n
        invariant
            k <= n,
            targets@.len() == k,
        decreases n - k,
    {
        targets.push(0);
        k = k + 1;
    }
    let mut i: usize = n;
    while i > 1
        invariant
            i <= n,
            targets@.len() == n,
            forall|j: int| i <= j < n ==> #[trigger] targets@[j] < j,
        decreases i,
    {
        i = i - 1;
        let target = random_below(rng, i);
        targets.set(i, target);
    }
    assert(valid_draws(targets@, n as int));
    swap_down(perm, &targets);
}

/// A table holding each lattice point once, in shuffled order.
pub fn generate_permutation(rng: &mut StdRng) -> (r: Vec<u32>)
    ensures
        r@.len() == POINT_COUNT,
        is_permutation(r@),
        is_shuffled_points(r@),
{
    let mut perm: Vec<u32> = Vec::new();
    let mut i: usize = 0;
    while i < POINT_COUNT
        invariant
            i <= POINT_COUNT,
            perm@ == lattice_points().take(i as int),
        decreases POINT_COUNT - i,
    {
        proof {
            assert(lattice_points().take(i as int).push(i as u32) =~= lattice_points().take(i + 1));
        }
        perm.push(i as u32);
        i = i + 1;
    }
    proof {
        assert(lattice_points().take(POINT_COUNT as int) =~= lattice_points());
    }
    permute(&mut perm, rng);
    perm
}

/// A shuffle by valid draws leaves no lattice point where it started.
pub proof fn lemma_shuffle_moves_every_point(targets: Seq<usize>)
    requires
        valid_draws(targets, POINT_COUNT as int),
    ensures
        forall|p: int|
            0 <= p < POINT_COUNT ==> #[trigger] swapped_down(lattice_points(), targets, POINT_COUNT - 1)[p]
                != p,
{
    lemma_swapped_down_moves(lattice_points(), targets, POINT_COUNT - 1);
}

/// Positions above `i` are settled and hold no value equal to their
/// position; a position at or below `i` holds its own value or one above
/// `i`; and once only position 0 is left, it does not hold 0. Then the
/// remaining swaps leave every position without its own value.
proof fn lemma_swapped_down_moves(c: Seq<u32>, targets: Seq<usize>, i: int)
    requires
        c.len() >= 2,
        valid_draws(targets, c.len() as int),
        0 <= i < c.len(),
        forall|p: int| i < p < c.len() ==> c[p] != p,
        forall|p: int| 0 <= p <= i ==> c[p] == p || c[p] > i,
        i == 0 ==> c[0] != 0,
    ensures
        forall|p: int| 0 <= p < c.len() ==> #[trigger] swapped_down(c, targets, i)[p] != p,
    decreases i,
{
    if i > 0 {
        let j = targets[i] as int;
        assert(j < i);
        let d = swap_at(c, i, j);
        assert(d[i] == c[j]);
        assert(d[j] == c[i]);
        assert forall|p: int| i - 1 < p < d.len() implies d[p] != p by {
            if p != i {
                assert(d[p] == c[p]);
            }
        }
        assert forall|p: int| 0 <= p <= i - 1 implies d[p] == p || d[p] > i - 1 by {
            if p != j {
                assert(d[p] == c[p]);
            }
        }
        assert(d.len() == c.len());
        lemma_swapped_down_moves(d, targets, i - 1);
        assert(swapped_down(c, targets, i) == swapped_down(d, targets, i - 1));
    } else {
        assert(swapped_down(c, targets, i) == c);
    }
}

/// Lattice coordinate `i` as an index into a table.
fn wrap_index(i: i32) -> (r: usize)
    ensures
        r == wrap(i),
        r < POINT_COUNT,
{
    let m = i & 255i32;
    proof {
        assert(0 <= m < 256) by (bit_vector)
            requires
                m == i & 255i32,
        ;
        assert(i == 256 * (i >> 8u32) + (i & 255i32)) by (bit_vector);
        let q = (i >> 8u32) as int;
        vstd::arithmetic::div_mod::lemma_fundamental_div_mod_converse(i as int, 256, q, m as int);
    }
    m as usize
}


/// Each value of a permutation table is a lattice point.
proof fn lemma_permutation_values(p: Seq<u32>)
    requires
        is_permutation(p),
    ensures
        forall|i: int| 0 <= i < p.len() ==> p[i] < POINT_COUNT,
{
    assert forall|i: int| 0 <= i < p.len() implies p[i] < POINT_COUNT by {
        to_multiset_contains(p, p[i]);
        to_multiset_contains(lattice_points(), p[i]);
        assert(p.contains(p[i]));
    }
}

/// Three values below 256 combine by `^` into a value below 256.
proof fn lemma_xor_below(a: u32, b: u32, c: u32)
    requires
        a < 256,
        b < 256,
        c < 256,
    ensures
        a ^ b ^ c < 256,
{
    assert(a ^ b ^ c < 256) by (bit_vector)
        requires
            a < 256,
            b < 256,
            c < 256,
    ;
}

/// The lattice of a Perlin noise generator: one shuffled table of the
/// lattice points per axis. Gradient `hash(i, j, k)` belongs to lattice cell
/// corner `(i, j, k)`.
pub struct PerlinLattice {
    perm_x: Vec<u32>,
    perm_y: Vec<u32>,
    perm_z: Vec<u32>,
}

impl PerlinLattice {
    pub closed spec fn table_x(self) -> Seq<u32> {
        self.perm_x@
    }

    pub closed spec fn table_y(self) -> Seq<u32> {
        self.perm_y@
    }

    pub closed spec fn table_z(self) -> Seq<u32> {
        self.perm_z@
    }

    pub open spec fn wf(self) -> bool {
        &&& self.table_x().len() == POINT_COUNT
        &&& self.table_y().len() == POINT_COUNT
        &&& self.table_z().len() == POINT_COUNT
        &&& is_permutation(self.table_x())
        &&& is_permutation(self.table_y())
        &&& is_permutation(self.table_z())
    }

    /// The gradient index of corner `(i, j, k)`: the three axis tables,
    /// each read at its coordinate taken around the table, combined by `^`.
    pub open spec fn spec_hash(self, i: i32, j: i32, k: i32) -> int {
        (self.table_x()[wrap(i)] ^ self.table_y()[wrap(j)] ^ self.table_z()[wrap(k)]) as int
    }

    /// Three independently shuffled tables, drawn from `rng`.
    pub fn new(rng: &mut StdRng) -> (r: PerlinLattice)
        ensures
            r.wf(),
            is_shuffled_points(r.table_x()),
            is_shuffled_points(r.table_y()),
            is_shuffled_points(r.table_z()),
    {
        let perm_x = generate_permutation(rng);
        let perm_y = generate_permutation(rng);
        let perm_z = generate_permutation(rng);
        PerlinLattice { perm_x, perm_y, perm_z }
    }

    /// The gradient index of lattice corner `(i, j, k)`.
    pub fn hash(&self, i: i32, j: i32, k: i32) -> (r: usize)
        requires
            self.wf(),
        ensures
            r == self.spec_hash(i, j, k),
            r < POINT_COUNT,
    {
        let x = self.perm_x[wrap_index(i)];
        let y = self.perm_y[wrap_index(j)];
        let z = self.perm_z[wrap_index(k)];
        proof {
            lemma_permutation_values(self.perm_x@);
            lemma_permutation_values(self.perm_y@);
            lemma_permutation_values(self.perm_z@);
            lemma_xor_below(x, y, z);
        }
        (x ^ y ^ z) as usize
    }
}

} // verus!
