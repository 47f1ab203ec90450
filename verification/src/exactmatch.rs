//! The ExactMatch private-set-intersection protocol: sparse occupancy
//! tables over hashed identifiers, per-position first-form encryptions
//! of one under two public keys, the server-side multiplication on
//! common positions, and the client-side count.

use vstd::prelude::*;

verus! {

use std::collections::HashMap;
use vstd::arithmetic::div_mod::lemma_mod_bound;
use crate::bignum::{big_add, big_from_u64, big_rem, big_to_usize, big_val, rand_below};
use crate::cf::{cf_mul, cf_mul_dec, cf_mul_spec, sub_mod};
use crate::paillier::{dec_residue, dec_value, is_encryption_of, p_encrypt, KeyPair, PublicKey,
    SecretKey};

/// The hash width of the occupancy table, in bits.
pub const HASH_BITS: usize = 30;

/// The number of table positions, `2^HASH_BITS`.
pub const TABLE_SIZE: usize = 0x4000_0000;

/// A first-form Catalano–Fiore ciphertext `(c₀, c₁)`.
pub type CfFst = (num_bigint::BigUint, num_bigint::BigUint);

/// A second-form Catalano–Fiore triple `(c₀'', c₁'', c₂'')`.
pub type CfSnd = (num_bigint::BigUint, num_bigint::BigUint, num_bigint::BigUint);

/// The 32-bit mixing hash folded over the characters of a string:
/// each step shifts the accumulator left by seven, subtracts the old
/// accumulator and adds the next character, all modulo `2^32`.
pub open spec fn hash32(s: Seq<char>) -> nat
    decreases s.len(),
{
    if s.len() == 0 {
        0
    } else {
        let h = hash32(s.drop_last());
        let shifted = (h * 128) % 0x100000000;
        let diff = ((shifted + 0x100000000 - h) as nat) % 0x100000000;
        (diff + s.last() as nat) % 0x100000000
    }
}

/// The table position of a string: its 32-bit hash reduced to the
/// table width.
pub open spec fn hash_of(s: Seq<char>) -> nat {
    hash32(s) % (TABLE_SIZE as nat)
}

/// Hashes a string to a table position.
pub fn simple_hash(s: &str) -> (r: usize)
    ensures
        r as nat == hash_of(s@),
        r < TABLE_SIZE,
{
    let len = s.unicode_len();
    let mut h: u64 = 0;
    let mut i: usize = 0;
    proof {
        assert(s@.subrange(0, 0) =~= Seq::<char>::empty());
    }
    while i < len
        invariant
            i <= len,
            len == s@.len(),
            h == hash32(s@.subrange(0, i as int)),
            h < 0x100000000,
        decreases len - i,
    {
        let c = s.get_char(i);
        let cv = c as u64;
        let shifted = (h * 128) % 0x100000000;
        let diff = (shifted + 0x100000000 - h) % 0x100000000;
        let next = (diff + cv) % 0x100000000;
        proof {
            let pre = s@.subrange(0, i as int + 1);
            assert(pre.drop_last() =~= s@.subrange(0, i as int));
            assert(pre.last() == s@[i as int]);
            assert((cv as nat) < 0x110000);
            lemma_mod_bound((diff + cv) as int, 0x100000000);
        }
        h = next;
        i = i + 1;
    }
    proof {
        assert(s@.subrange(0, len as int) =~= s@);
        lemma_mod_bound(h as int, TABLE_SIZE as int);
    }
    (h % (TABLE_SIZE as u64)) as usize
}

/// A sparse occupancy table: the set of active positions, each held
/// once.
pub struct SparseTable {
    pub active: Vec<usize>,
}

impl SparseTable {
    /// Each position appears at most once.
    pub open spec fn wf(self) -> bool {
        forall|i: int, j: int|
            0 <= i < j < self.active@.len() ==> self.active@[i] != self.active@[j]
    }

    /// Whether a position is active.
    pub open spec fn contains_pos(self, p: usize) -> bool {
        self.active@.contains(p)
    }

    /// Builds the table of a list of identifiers: the set of their
    /// hash positions.
    pub fn build(nss_list: &[String]) -> (r: Self)
        ensures
            r.wf(),
            forall|p: usize|
                #[trigger] r.contains_pos(p) <==> exists|i: int|
                    0 <= i < nss_list@.len() && p as nat == hash_of(nss_list@[i]@),
    {
        let mut active: Vec<usize> = Vec::new();
        let n = nss_list.len();
        let mut i: usize = 0;
        while i < n
            invariant
                i <= n,
                n == nss_list@.len(),
                forall|a: int, b: int|
                    0 <= a < b < active@.len() ==> active@[a] != active@[b],
                forall|p: usize|
                    #[trigger] active@.contains(p) <==> exists|j: int|
                        0 <= j < i && p as nat == hash_of(nss_list@[j]@),
            decreases n - i,
        {
            let h = simple_hash(nss_list[i].as_str());
            let mut found = false;
            let mut k: usize = 0;
            while k < active.len()
                invariant
                    k <= active@.len(),
                    found <==> exists|j: int| 0 <= j < k && active@[j] == h,
                decreases active@.len() - k,
            {
                if active[k] == h {
                    found = true;
                }
                k = k + 1;
            }
            let ghost old_active = active@;
            if !found {
                active.push(h);
            }
            proof {
                assert forall|p: usize| #[trigger] active@.contains(p) implies exists|j: int|
                    0 <= j < i + 1 && p as nat == hash_of(nss_list@[j]@) by {
                    if old_active.contains(p) {
                        let j = choose|j: int| 0 <= j < i && p as nat == hash_of(nss_list@[j]@);
                        assert(0 <= j < i + 1 && p as nat == hash_of(nss_list@[j]@));
                    } else {
                        assert(p == h);
                        assert(p as nat == hash_of(nss_list@[i as int]@));
                    }
                }
                assert forall|p: usize|
                    exists|j: int| 0 <= j < i + 1 && p as nat == hash_of(nss_list@[j]@) implies
                    #[trigger] active@.contains(p) by {
                    let j = choose|j: int| 0 <= j < i + 1 && p as nat == hash_of(nss_list@[j]@);
                    if j < i {
                        assert(old_active.contains(p));
                        if !found {
                            let idx = choose|idx: int|
                                0 <= idx < old_active.len() && old_active[idx] == p;
                            assert(active@[idx] == p);
                        }
                    } else {
                        assert(p as nat == hash_of(nss_list@[i as int]@));
                        assert(p == h);
                        if found {
                            let idx = choose|idx: int| 0 <= idx < old_active.len()
                                && old_active[idx] == h;
                            assert(active@[idx] == p);
                        } else {
                            assert(active@[active@.len() - 1] == p);
                        }
                    }
                }
            }
            i = i + 1;
        }
        SparseTable { active }
    }

    /// Whether the table holds a position.
    pub fn contains(&self, pos: usize) -> (r: bool)
        ensures
            r == self.contains_pos(pos),
    {
        let mut k: usize = 0;
        while k < self.active.len()
            invariant
                k <= self.active@.len(),
                forall|j: int| 0 <= j < k ==> self.active@[j] != pos,
            decreases self.active@.len() - k,
        {
            if self.active[k] == pos {
                return true;
            }
            k = k + 1;
        }
        false
    }

    /// The number of active positions.
    pub fn len(&self) -> (r: usize)
        ensures
            r == self.active@.len(),
    {
        self.active.len()
    }

    /// The positions active in both tables, walking the smaller one.
    pub fn common_positions(&self, other: &SparseTable) -> (r: Vec<usize>)
        requires
            self.wf(),
            other.wf(),
        ensures
            forall|a: int, b: int| 0 <= a < b < r@.len() ==> r@[a] != r@[b],
            forall|p: usize|
                #[trigger] r@.contains(p) <==> self.contains_pos(p) && other.contains_pos(p),
    {
        let (small, big) = if self.active.len() <= other.active.len() {
            (self, other)
        } else {
            (other, self)
        };
        let mut res: Vec<usize> = Vec::new();
        let mut k: usize = 0;
        while k < small.active.len()
            invariant
                k <= small.active@.len(),
                small.wf(),
                big.wf(),
                forall|a: int, b: int| 0 <= a < b < res@.len() ==> res@[a] != res@[b],
                forall|p: usize|
                    #[trigger] res@.contains(p) <==> (exists|j: int|
                        0 <= j < k && small.active@[j] == p) && big.contains_pos(p),
            decreases small.active@.len() - k,
        {
            let pos = small.active[k];
            let ghost old_res = res@;
            if big.contains(pos) {
                res.push(pos);
            }
            proof {
                assert forall|p: usize| #[trigger] res@.contains(p) implies (exists|j: int|
                    0 <= j < k + 1 && small.active@[j] == p) && big.contains_pos(p) by {
                    if old_res.contains(p) {
                        let j = choose|j: int| 0 <= j < k && small.active@[j] == p;
                        assert(0 <= j < k + 1 && small.active@[j] == p);
                    } else {
                        assert(p == pos);
                        assert(small.active@[k as int] == p);
                    }
                }
                assert forall|p: usize|
                    (exists|j: int| 0 <= j < k + 1 && small.active@[j] == p)
                        && big.contains_pos(p) implies #[trigger] res@.contains(p) by {
                    let j = choose|j: int| 0 <= j < k + 1 && small.active@[j] == p;
                    if j < k {
                        assert(old_res.contains(p));
                        let idx = choose|idx: int| 0 <= idx < old_res.len() && old_res[idx] == p;
                        assert(res@[idx] == p);
                    } else {
                        assert(p == pos);
                        assert(res@[res@.len() - 1] == p);
                    }
                }
                // a fresh push cannot duplicate: the pushed position was
                // not collected before, by well-formedness of the walk
                assert forall|a: int, b: int|
                    0 <= a < b < res@.len() implies res@[a] != res@[b] by {
                    if b == res@.len() - 1 && res@.len() > old_res.len() {
                        if res@[a] == pos {
                            assert(old_res.contains(pos));
                            let j = choose|j: int| 0 <= j < k && small.active@[j] == pos;
                            assert(small.active@[j] == small.active@[k as int]);
                        }
                    }
                }
            }
            k = k + 1;
        }
        res
    }
}

/// Builds the occupancy table of one database's identifiers: the
/// first protocol phase.
pub fn phase1_build_table(nss_list: &[String]) -> (r: SparseTable)
    ensures
        r.wf(),
        forall|p: usize|
            #[trigger] r.contains_pos(p) <==> exists|i: int|
                0 <= i < nss_list@.len() && p as nat == hash_of(nss_list@[i]@),
{
    SparseTable::build(nss_list)
}

/// A bundle of first-form encryptions of one, keyed by table
/// position.
pub struct FtBundle {
    pub ft_by_pos: HashMap<usize, CfFst>,
}

/// One bundle under each of the two public keys, because the masks
/// live modulo two different `n`.
pub struct DualFtBundle {
    pub under_pk1: FtBundle,
    pub under_pk2: FtBundle,
}

/// A first-form encryption of one: an offset `(1 − b) mod n` beside
/// an encryption of the mask `b`.
pub open spec fn ft_of_one(pk: PublicKey, c: CfFst) -> bool {
    exists|b: nat|
        b < big_val(pk.n) && big_val(c.0) == sub_mod(1, b, big_val(pk.n))
            && #[trigger] is_encryption_of(pk, b, big_val(c.1))
}

/// Builds the first form of the constant one for a freshly drawn
/// mask, without the mask ever leaving in clear.
fn make_ft_for_one(mask_b: &num_bigint::BigUint, kp: &KeyPair) -> (r: CfFst)
    requires
        big_val(kp.public_key.n) > 1,
        big_val(kp.public_key.n_squared) > 1,
        big_val(*mask_b) < big_val(kp.public_key.n),
    ensures
        big_val(r.0) == sub_mod(1, big_val(*mask_b), big_val(kp.public_key.n)),
        is_encryption_of(kp.public_key, big_val(*mask_b), big_val(r.1)),
        ft_of_one(kp.public_key, r),
{
    let ghost nv = big_val(kp.public_key.n);
    let one = big_from_u64(1);
    let b_mod = big_rem(mask_b, &kp.public_key.n);
    proof {
        vstd::arithmetic::div_mod::lemma_small_mod(big_val(*mask_b), nv);
    }
    let shifted = big_add(&one, &kp.public_key.n);
    let diff = crate::bignum::big_sub(&shifted, &b_mod);
    let c0 = big_rem(&diff, &kp.public_key.n);

    let c1 = match p_encrypt(mask_b, &kp.public_key) {
        Ok(c) => c,
        Err(_) => {
            proof {
                assert(false);
            }
            (big_from_u64(0))
        },
    };
    (c0, c1)
}

/// What the mask-bundle phase promises: each bundle is keyed by
/// exactly the active positions, and every entry is a first form of
/// one under its key.
pub open spec fn dual_ft_spec(
    table: SparseTable,
    kp1: KeyPair,
    kp2: KeyPair,
    r: DualFtBundle,
) -> bool {
    &&& forall|p: usize|
        #[trigger] r.under_pk1.ft_by_pos@.contains_key(p) <==> table.contains_pos(p)
    &&& forall|p: usize|
        #[trigger] r.under_pk2.ft_by_pos@.contains_key(p) <==> table.contains_pos(p)
    &&& forall|p: usize|
        #[trigger] r.under_pk1.ft_by_pos@.contains_key(p) ==> ft_of_one(
            kp1.public_key,
            r.under_pk1.ft_by_pos@[p],
        )
    &&& forall|p: usize|
        #[trigger] r.under_pk2.ft_by_pos@.contains_key(p) ==> ft_of_one(
            kp2.public_key,
            r.under_pk2.ft_by_pos@[p],
        )
}

/// Prepares, for every active position, a first-form encryption of
/// one under each public key, with independent fresh masks below each
/// modulus.
pub fn phase2_prepare_dual_ft(table: &SparseTable, kp1: &KeyPair, kp2: &KeyPair) -> (r:
    DualFtBundle)
    requires
        big_val(kp1.public_key.n) > 1,
        big_val(kp1.public_key.n_squared) > 1,
        big_val(kp2.public_key.n) > 1,
        big_val(kp2.public_key.n_squared) > 1,
    ensures
        dual_ft_spec(*table, *kp1, *kp2, r),
{
    let mut ft_pk1: HashMap<usize, CfFst> = HashMap::new();
    let mut ft_pk2: HashMap<usize, CfFst> = HashMap::new();

    let n = table.active.len();
    let mut i: usize = 0;
    while i < n
        invariant
            i <= n,
            n == table.active@.len(),
            big_val(kp1.public_key.n) > 1,
            big_val(kp1.public_key.n_squared) > 1,
            big_val(kp2.public_key.n) > 1,
            big_val(kp2.public_key.n_squared) > 1,
            forall|p: usize|
                #[trigger] ft_pk1@.contains_key(p) <==> table.active@.subrange(0, i as int)
                    .contains(p),
            forall|p: usize|
                #[trigger] ft_pk2@.contains_key(p) <==> table.active@.subrange(0, i as int)
                    .contains(p),
            forall|p: usize|
                #[trigger] ft_pk1@.contains_key(p) ==> ft_of_one(kp1.public_key, ft_pk1@[p]),
            forall|p: usize|
                #[trigger] ft_pk2@.contains_key(p) ==> ft_of_one(kp2.public_key, ft_pk2@[p]),
        decreases n - i,
    {
        let pos = table.active[i];

        let b1 = rand_below(&kp1.public_key.n);
        let ft1 = make_ft_for_one(&b1, kp1);
        let ghost old1 = ft_pk1@;
        ft_pk1.insert(pos, ft1);

        let b2 = rand_below(&kp2.public_key.n);
        let ft2 = make_ft_for_one(&b2, kp2);
        let ghost old2 = ft_pk2@;
        ft_pk2.insert(pos, ft2);

        proof {
            let pre = table.active@.subrange(0, i as int);
            let post = table.active@.subrange(0, i as int + 1);
            assert(post =~= pre.push(pos));
            assert forall|p: usize| #[trigger] post.contains(p) implies ft_pk1@.contains_key(p)
                && ft_pk2@.contains_key(p) by {
                if p == pos {
                } else {
                    let j = choose|j: int| 0 <= j < post.len() && post[j] == p;
                    assert(pre[j] == p);
                    assert(pre.contains(p));
                }
            }
            assert forall|p: usize| #[trigger] ft_pk1@.contains_key(p) implies post.contains(
                p,
            ) by {
                if p == pos {
                    assert(post[post.len() - 1] == p);
                } else {
                    assert(old1.contains_key(p));
                    let j = choose|j: int| 0 <= j < pre.len() && pre[j] == p;
                    assert(post[j] == p);
                }
            }
            assert forall|p: usize| #[trigger] ft_pk2@.contains_key(p) implies post.contains(
                p,
            ) by {
                if p == pos {
                    assert(post[post.len() - 1] == p);
                } else {
                    assert(old2.contains_key(p));
                    let j = choose|j: int| 0 <= j < pre.len() && pre[j] == p;
                    assert(post[j] == p);
                }
            }
        }
        i = i + 1;
    }

    proof {
        assert(table.active@.subrange(0, n as int) =~= table.active@);
    }
    DualFtBundle { under_pk1: FtBundle { ft_by_pos: ft_pk1 }, under_pk2: FtBundle {
        ft_by_pos: ft_pk2,
    } }
}

/// What the server phase promises: both output lists pair up, entry
/// by entry, with one duplicate-free sequence of positions active in
/// both tables — so both lists have exactly one entry per common
/// position — and each entry is the Catalano–Fiore product of the two
/// bundles' first forms at that position under the respective key.
pub open spec fn server_compute_spec(
    table1: SparseTable,
    table2: SparseTable,
    bd1: DualFtBundle,
    bd2: DualFtBundle,
    kp1: KeyPair,
    kp2: KeyPair,
    out1: Seq<CfSnd>,
    out2: Seq<CfSnd>,
) -> bool {
    exists|ps: Seq<usize>|
        #![trigger ps.len()]
        {
            &&& ps.len() == out1.len()
            &&& ps.len() == out2.len()
            &&& forall|i: int, j: int| 0 <= i < j < ps.len() ==> ps[i] != ps[j]
            &&& forall|p: usize|
                #[trigger] ps.contains(p) <==> table1.contains_pos(p) && table2.contains_pos(p)
            &&& forall|i: int|
                0 <= i < ps.len() ==> cf_mul_spec(
                    bd1.under_pk1.ft_by_pos@[ps[i]],
                    bd2.under_pk1.ft_by_pos@[ps[i]],
                    kp1.public_key,
                    #[trigger] out1[i],
                )
            &&& forall|i: int|
                0 <= i < ps.len() ==> cf_mul_spec(
                    bd1.under_pk2.ft_by_pos@[ps[i]],
                    bd2.under_pk2.ft_by_pos@[ps[i]],
                    kp2.public_key,
                    #[trigger] out2[i],
                )
        }
}

/// The server's phase: finds the positions active in both tables and
/// multiplies, for each, the two parties' first forms under each
/// public key, returning the two lists of triples without positions
/// attached.
pub fn phase3_server_compute(
    table1: &SparseTable,
    table2: &SparseTable,
    bd1: &DualFtBundle,
    bd2: &DualFtBundle,
    kp1: &KeyPair,
    kp2: &KeyPair,
) -> (r: (Vec<CfSnd>, Vec<CfSnd>))
    requires
        table1.wf(),
        table2.wf(),
        big_val(kp1.public_key.n) > 1,
        big_val(kp1.public_key.n_squared) > 1,
        big_val(kp2.public_key.n) > 1,
        big_val(kp2.public_key.n_squared) > 1,
        forall|p: usize|
            table1.contains_pos(p) && table2.contains_pos(p) ==> #[trigger] bd1.under_pk1
                .ft_by_pos@.contains_key(p) && bd1.under_pk2.ft_by_pos@.contains_key(p)
                && bd2.under_pk1.ft_by_pos@.contains_key(p) && bd2.under_pk2.ft_by_pos@
                .contains_key(p),
    ensures
        server_compute_spec(*table1, *table2, *bd1, *bd2, *kp1, *kp2, r.0@, r.1@),
{
    let common = table1.common_positions(table2);

    let mut out_pk1: Vec<CfSnd> = Vec::new();
    let mut out_pk2: Vec<CfSnd> = Vec::new();

    let m = common.len();
    let mut i: usize = 0;
    while i < m
        invariant
            i <= m,
            m == common@.len(),
            out_pk1@.len() == i,
            out_pk2@.len() == i,
            big_val(kp1.public_key.n) > 1,
            big_val(kp1.public_key.n_squared) > 1,
            big_val(kp2.public_key.n) > 1,
            big_val(kp2.public_key.n_squared) > 1,
            forall|p: usize|
                #[trigger] common@.contains(p) <==> table1.contains_pos(p) && table2.contains_pos(
                    p,
                ),
            forall|p: usize|
                common@.contains(p) ==> #[trigger] bd1.under_pk1.ft_by_pos@.contains_key(p)
                    && bd1.under_pk2.ft_by_pos@.contains_key(p) && bd2.under_pk1.ft_by_pos@
                    .contains_key(p) && bd2.under_pk2.ft_by_pos@.contains_key(p),
            forall|j: int|
                0 <= j < i ==> cf_mul_spec(
                    bd1.under_pk1.ft_by_pos@[common@[j]],
                    bd2.under_pk1.ft_by_pos@[common@[j]],
                    kp1.public_key,
                    #[trigger] out_pk1@[j],
                ),
            forall|j: int|
                0 <= j < i ==> cf_mul_spec(
                    bd1.under_pk2.ft_by_pos@[common@[j]],
                    bd2.under_pk2.ft_by_pos@[common@[j]],
                    kp2.public_key,
                    #[trigger] out_pk2@[j],
                ),
        decreases m - i,
    {
        let pos = common[i];
        proof {
            assert(common@[i as int] == pos);
            assert(common@.contains(pos));
        }

        let ft1 = match bd1.under_pk1.ft_by_pos.get(&pos) {
            Some(f) => f,
            None => {
                proof {
                    assert(false);
                }
                return (out_pk1, out_pk2);
            },
        };
        let ft1p = match bd2.under_pk1.ft_by_pos.get(&pos) {
            Some(f) => f,
            None => {
                proof {
                    assert(false);
                }
                return (out_pk1, out_pk2);
            },
        };
        let sf1 = match cf_mul(ft1, ft1p, &kp1.public_key) {
            Ok(t) => t,
            Err(_) => {
                proof {
                    assert(false);
                }
                return (out_pk1, out_pk2);
            },
        };
        out_pk1.push(sf1);

        let ft2 = match bd1.under_pk2.ft_by_pos.get(&pos) {
            Some(f) => f,
            None => {
                proof {
                    assert(false);
                }
                return (out_pk1, out_pk2);
            },
        };
        let ft2p = match bd2.under_pk2.ft_by_pos.get(&pos) {
            Some(f) => f,
            None => {
                proof {
                    assert(false);
                }
                return (out_pk1, out_pk2);
            },
        };
        let sf2 = match cf_mul(ft2, ft2p, &kp2.public_key) {
            Ok(t) => t,
            Err(_) => {
                proof {
                    assert(false);
                }
                return (out_pk1, out_pk2);
            },
        };
        out_pk2.push(sf2);

        i = i + 1;
    }

    proof {
        assert(server_compute_spec(
            *table1,
            *table2,
            *bd1,
            *bd2,
            *kp1,
            *kp2,
            out_pk1@,
            out_pk2@,
        )) by {
            assert(common@.len() == out_pk1@.len() && common@.len() == out_pk2@.len());
        }
    }
    (out_pk1, out_pk2)
}

/// Whether every slot of a second-form triple can be decrypted under
/// the key: below `n²` with a non-vanishing residue.
pub open spec fn triple_decryptable(pk: PublicKey, sk: SecretKey, t: CfSnd) -> bool {
    &&& big_val(t.0) < big_val(pk.n_squared)
    &&& big_val(t.1) < big_val(pk.n_squared)
    &&& big_val(t.2) < big_val(pk.n_squared)
    &&& dec_residue(big_val(t.0), big_val(sk.lambda), big_val(pk.n_squared)) >= 1
    &&& dec_residue(big_val(t.1), big_val(sk.lambda), big_val(pk.n_squared)) >= 1
    &&& dec_residue(big_val(t.2), big_val(sk.lambda), big_val(pk.n_squared)) >= 1
}

/// The value a second-form triple decrypts to: `dec₀ + dec₁·dec₂`
/// modulo `n`.
pub open spec fn dec2_of(pk: PublicKey, sk: SecretKey, t: CfSnd) -> int {
    (dec_value(big_val(t.0), big_val(sk.lambda), big_val(sk.mu), big_val(pk.n), big_val(
        pk.n_squared,
    )) + dec_value(big_val(t.1), big_val(sk.lambda), big_val(sk.mu), big_val(pk.n), big_val(
        pk.n_squared,
    )) * dec_value(big_val(t.2), big_val(sk.lambda), big_val(sk.mu), big_val(pk.n), big_val(
        pk.n_squared,
    ))) % (big_val(pk.n) as int)
}

/// The sum of the decrypted values of a list of triples.
pub open spec fn sum_dec2(pk: PublicKey, sk: SecretKey, s: Seq<CfSnd>) -> int
    decreases s.len(),
{
    if s.len() == 0 {
        0
    } else {
        sum_dec2(pk, sk, s.drop_last()) + dec2_of(pk, sk, s.last())
    }
}

/// The client's phase: decrypts every returned triple with the own
/// secret key and sums the plaintexts, which are zero or one each, to
/// the intersection cardinality. A sum beyond the machine word, which
/// a run of the protocol cannot produce, counts as zero.
pub fn phase4_decrypt_and_count(cts: &[CfSnd], kp: &KeyPair) -> (r: usize)
    requires
        big_val(kp.public_key.n) > 0,
        big_val(kp.public_key.n_squared) > 1,
        forall|i: int|
            0 <= i < cts@.len() ==> triple_decryptable(
                kp.public_key,
                kp.secret_key,
                #[trigger] cts@[i],
            ),
    ensures
        sum_dec2(kp.public_key, kp.secret_key, cts@) <= usize::MAX ==> r == sum_dec2(
            kp.public_key,
            kp.secret_key,
            cts@,
        ),
        sum_dec2(kp.public_key, kp.secret_key, cts@) > usize::MAX ==> r == 0,
{
    let mut sum = big_from_u64(0);
    let n = cts.len();
    let mut i: usize = 0;
    proof {
        assert(cts@.subrange(0, 0) =~= Seq::<CfSnd>::empty());
    }
    while i < n
        invariant
            i <= n,
            n == cts@.len(),
            big_val(kp.public_key.n) > 0,
            big_val(kp.public_key.n_squared) > 1,
            forall|j: int|
                0 <= j < cts@.len() ==> triple_decryptable(
                    kp.public_key,
                    kp.secret_key,
                    #[trigger] cts@[j],
                ),
            big_val(sum) == sum_dec2(kp.public_key, kp.secret_key, cts@.subrange(0, i as int)),
        decreases n - i,
    {
        let ct = &cts[i];
        let m = match cf_mul_dec(ct, &kp.public_key, &kp.secret_key) {
            Ok(m) => m,
            Err(_) => {
                proof {
                    assert(false);
                }
                return 0;
            },
        };
        proof {
            let pre = cts@.subrange(0, i as int + 1);
            assert(pre.drop_last() =~= cts@.subrange(0, i as int));
            assert(pre.last() == cts@[i as int]);
            lemma_mod_bound(
                (dec_value(
                    big_val(cts@[i as int].0),
                    big_val(kp.secret_key.lambda),
                    big_val(kp.secret_key.mu),
                    big_val(kp.public_key.n),
                    big_val(kp.public_key.n_squared),
                ) + dec_value(
                    big_val(cts@[i as int].1),
                    big_val(kp.secret_key.lambda),
                    big_val(kp.secret_key.mu),
                    big_val(kp.public_key.n),
                    big_val(kp.public_key.n_squared),
                ) * dec_value(
                    big_val(cts@[i as int].2),
                    big_val(kp.secret_key.lambda),
                    big_val(kp.secret_key.mu),
                    big_val(kp.public_key.n),
                    big_val(kp.public_key.n_squared),
                )) as int,
                big_val(kp.public_key.n) as int,
            );
        }
        sum = big_add(&sum, &m);
        i = i + 1;
    }
    proof {
        assert(cts@.subrange(0, n as int) =~= cts@);
    }
    match big_to_usize(&sum) {
        Some(c) => c,
        None => 0,
    }
}

} // verus!
