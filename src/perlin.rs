//! The integer lattice behind Perlin noise.
//!
//! Noise at a point is interpolated from gradients stored at the eight
//! corners of the unit lattice cell around it. Which of the 256 gradients a
//! corner uses is decided here, by hashing the corner's coordinates through
//! three permutations of `0 .. 256`, one per axis. The tables are drawn once
//! when the lattice is made and only read afterwards, so a lattice value can
//! be shared freely.
use vstd::prelude::*;

verus! {

broadcast use vstd::seq_lib::group_to_multiset_ensures;

/// The number of entries in each table, and the period of the lattice.
pub const TABLE_SIZE: usize = 256;

/// Permutation tables of a Perlin lattice.
#[derive(Debug)]
pub struct Lattice {
    pub perm_x: Vec<u8>,
    pub perm_y: Vec<u8>,
    pub perm_z: Vec<u8>,
}

/// The bytes `0, 1, .., 255` in order.
pub open spec fn identity_table() -> Seq<u8> {
    Seq::new(TABLE_SIZE as nat, |i: int| i as u8)
}

/// `t` holds every byte exactly once.
pub open spec fn is_permutation(t: Seq<u8>) -> bool {
    t.to_multiset() == identity_table().to_multiset()
}

/// The table entry that a lattice coordinate selects: coordinates repeat
/// with period 256.
pub open spec fn entry(t: Seq<u8>, c: int) -> u8 {
    t[c % (TABLE_SIZE as int)]
}

impl Lattice {
    pub open spec fn wf(&self) -> bool {
        &&& self.perm_x.len() == TABLE_SIZE
        &&& self.perm_y.len() == TABLE_SIZE
        &&& self.perm_z.len() == TABLE_SIZE
    }

    /// The gradient index of the lattice corner `(i, j, k)`.
    pub open spec fn corner_spec(&self, i: int, j: int, k: int) -> u8 {
        entry(self.perm_x@, i) ^ entry(self.perm_y@, j) ^ entry(self.perm_z@, k)
    }
}

/// Noise is a function of the lattice: two lattices with the same tables give
/// every corner the same gradient index, and the index of a corner repeats
/// when any coordinate moves by a multiple of 256.
pub proof fn lemma_corner_deterministic(
    a: Lattice,
    b: Lattice,
    i: int,
    j: int,
    k: int,
    mi: int,
    mj: int,
    mk: int,
)
    requires
        a.perm_x@ == b.perm_x@,
        a.perm_y@ == b.perm_y@,
        a.perm_z@ == b.perm_z@,
    ensures
        a.corner_spec(i, j, k) == b.corner_spec(i, j, k),
        a.corner_spec(i + 256 * mi, j + 256 * mj, k + 256 * mk) == a.corner_spec(i, j, k),
{
    vstd::arithmetic::div_mod::lemma_mod_multiples_vanish(mi, i, 256);
    vstd::arithmetic::div_mod::lemma_mod_multiples_vanish(mj, j, 256);
    vstd::arithmetic::div_mod::lemma_mod_multiples_vanish(mk, k, 256);
}

/// Relies on rand's `SliceRandom::shuffle` with the thread-local generator:
/// it reorders the bytes in place, by swaps only, so the same bytes remain.
#[verifier::external_body]
fn shuffle_bytes(t: &mut Vec<u8>)
    ensures
        final(t)@.to_multiset() == old(t)@.to_multiset(),
{
    rand::seq::SliceRandom::shuffle(t.as_mut_slice(), &mut rand::thread_rng())
}

/// A random permutation of `0 .. 256`.
pub fn generate_perm() -> (r: Vec<u8>)
    ensures
        r.len() == TABLE_SIZE,
        is_permutation(r@),
        forall|b: u8| r@.contains(b),
{
    let mut t: Vec<u8> = Vec::new();
    let mut i: usize = 0;
    while i < TABLE_SIZE
        invariant
            i <= TABLE_SIZE,
            t@ == identity_table().subrange(0, i as int),
        decreases TABLE_SIZE - i,
    {
        t.push(i as u8);
        i = i + 1;
        assert(t@ =~= identity_table().subrange(0, i as int));
    }
    assert(t@ =~= identity_table());
    shuffle_bytes(&mut t);
    proof {
        assert forall|b: u8| t@.contains(b) by {
            assert(identity_table()[b as int] == b);
            assert(identity_table().to_multiset().count(b) > 0);
            assert(t@.to_multiset().count(b) > 0);
        }
        t@.to_multiset_ensures();
    }
    t
}

/// The index into a table of coordinate `c` moved by `d`, wrapping at 256.
fn wrap_index(c: i32, d: u32) -> (r: usize)
    requires
        d <= 1,
    ensures
        r < TABLE_SIZE,
        r as int == (c + d) % (TABLE_SIZE as int),
{
    let x: u32 = if c >= 0 {
        (c % 256) as u32
    } else {
        let q: i32 = -(c + 1);
        proof {
            let qm = q as int % 256;
            assert(c as int == -(q as int) - 1);
            assert((c as int) % 256 == 255 - qm) by {
                assert(q as int == (q as int / 256) * 256 + qm);
                assert(c as int == (-(q as int / 256) - 1) * 256 + (255 - qm));
                vstd::arithmetic::div_mod::lemma_fundamental_div_mod_converse(
                    c as int,
                    256,
                    -(q as int / 256) - 1,
                    255 - qm,
                );
            }
        }
        (255 - q % 256) as u32
    };
    ((x + d) % 256) as usize
}

impl Lattice {
    /// A lattice with freshly drawn tables.
    pub fn new() -> (r: Lattice)
        ensures
            r.wf(),
            is_permutation(r.perm_x@),
            is_permutation(r.perm_y@),
            is_permutation(r.perm_z@),
    {
        Lattice { perm_x: generate_perm(), perm_y: generate_perm(), perm_z: generate_perm() }
    }

    /// A lattice with the given tables, when each has 256 entries.
    pub fn from_tables(perm_x: Vec<u8>, perm_y: Vec<u8>, perm_z: Vec<u8>) -> (r: Option<Lattice>)
        ensures
            r is Some <==> (perm_x.len() == TABLE_SIZE && perm_y.len() == TABLE_SIZE
                && perm_z.len() == TABLE_SIZE),
            r matches Some(l) ==> l.wf() && l.perm_x@ == perm_x@ && l.perm_y@ == perm_y@
                && l.perm_z@ == perm_z@,
    {
        if perm_x.len() == TABLE_SIZE && perm_y.len() == TABLE_SIZE && perm_z.len() == TABLE_SIZE {
            Some(Lattice { perm_x, perm_y, perm_z })
        } else {
            None
        }
    }

    /// The gradient index of the lattice corner `(i + di, j + dj, k + dk)`.
    fn corner_at(&self, i: i32, j: i32, k: i32, di: u32, dj: u32, dk: u32) -> (r: u8)
        requires
            self.wf(),
            di <= 1,
            dj <= 1,
            dk <= 1,
        ensures
            r == self.corner_spec(i + di, j + dj, k + dk),
    {
        self.perm_x[wrap_index(i, di)] ^ self.perm_y[wrap_index(j, dj)] ^ self.perm_z[wrap_index(k, dk)]
    }

    /// The gradient index of the lattice corner `(i, j, k)`.
    pub fn corner(&self, i: i32, j: i32, k: i32) -> (r: u8)
        requires
            self.wf(),
        ensures
            r == self.corner_spec(i as int, j as int, k as int),
    {
        self.corner_at(i, j, k, 0, 0, 0)
    }

    /// The gradient indices of the eight corners of the cell whose lowest
    /// corner is `(i, j, k)`: entry `4 di + 2 dj + dk` is that of corner
    /// `(i + di, j + dj, k + dk)`.
    pub fn cell(&self, i: i32, j: i32, k: i32) -> (r: Vec<u8>)
        requires
            self.wf(),
        ensures
            r.len() == 8,
            forall|di: int, dj: int, dk: int|
                0 <= di <= 1 && 0 <= dj <= 1 && 0 <= dk <= 1 ==> #[trigger] r[4 * di + 2 * dj + dk]
                    == self.corner_spec(i + di, j + dj, k + dk),
    {
        let mut r: Vec<u8> = Vec::new();
        let mut di: u32 = 0;
        while di < 2
            invariant
                self.wf(),
                di <= 2,
                r.len() == 4 * di,
                forall|a: int, b: int, c: int|
                    0 <= a < di && 0 <= b <= 1 && 0 <= c <= 1 ==> #[trigger] r[4 * a + 2 * b + c]
                        == self.corner_spec(i + a, j + b, k + c),
            decreases 2 - di,
        {
            let mut dj: u32 = 0;
            while dj < 2
                invariant
                    self.wf(),
                    di < 2,
                    dj <= 2,
                    r.len() == 4 * di + 2 * dj,
                    forall|a: int, b: int, c: int|
                        0 <= a < di && 0 <= b <= 1 && 0 <= c <= 1 ==> #[trigger] r[4 * a + 2 * b + c]
                            == self.corner_spec(i + a, j + b, k + c),
                    forall|b: int, c: int|
                        0 <= b < dj && 0 <= c <= 1 ==> #[trigger] r[4 * di + 2 * b + c]
                            == self.corner_spec(i + di, j + b, k + c),
                decreases 2 - dj,
            {
                let c0 = self.corner_at(i, j, k, di, dj, 0);
                let c1 = self.corner_at(i, j, k, di, dj, 1);
                r.push(c0);
                r.push(c1);
                dj = dj + 1;
            }
            di = di + 1;
        }
        r
    }
}

} // verus!
