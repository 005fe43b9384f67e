//! A Merkle commitment scheme over byte-string leaves, hashed with SHA3-256.
//!
//! The tree is implicit: committing, opening and verifying recompute hashes
//! over ranges of the leaf sequence, and nothing is retained between calls.
//! The leaf count must be a power of two.

use vstd::prelude::*;

verus! {

use vstd::arithmetic::div_mod::*;
use vstd::arithmetic::power2::*;
use digest::Digest;

/// What SHA3-256 returns on the given input; a function of the input alone.
pub uninterp spec fn sha3_256_of(input: Seq<u8>) -> Seq<u8>;

/// Relies on sha3's SHA3-256 (through the `digest` traits): one 32-byte
/// digest, a function of the input bytes alone.
#[verifier::external_body]
fn sha3_256(input: &Vec<u8>) -> (r: Vec<u8>)
    ensures
        r@ == sha3_256_of(input@),
        r@.len() == 32,
{
    let digest = sha3::Sha3_256::digest(input.as_slice());
    digest.to_vec()
}

/// The views of a list of byte vectors.
pub open spec fn views(s: Seq<Vec<u8>>) -> Seq<Seq<u8>> {
    s.map_values(|v: Vec<u8>| v@)
}

/// The digests of a list of byte strings: the leaf layer of the tree.
pub open spec fn leaf_hashes(s: Seq<Seq<u8>>) -> Seq<Seq<u8>> {
    s.map_values(|b: Seq<u8>| sha3_256_of(b))
}

/// The root of the implicit binary tree over the given leaf layer: pairs of
/// subtree roots are concatenated and hashed, bottom up.
pub open spec fn merkle_root(leafs: Seq<Seq<u8>>) -> Seq<u8>
    decreases leafs.len(),
{
    if leafs.len() == 0 {
        Seq::empty()
    } else if leafs.len() == 1 {
        leafs[0]
    } else {
        sha3_256_of(
            merkle_root(leafs.take(leafs.len() as int / 2)) + merkle_root(
                leafs.skip(leafs.len() as int / 2),
            ),
        )
    }
}

/// Recomputes a root from a leaf hash and an authentication path, using the
/// index's bits to order each pair.
pub open spec fn path_fold(h: Seq<u8>, index: nat, path: Seq<Seq<u8>>) -> Seq<u8>
    decreases path.len(),
{
    if path.len() == 0 {
        h
    } else {
        path_fold(
            if index % 2 == 0 {
                sha3_256_of(h + path[0])
            } else {
                sha3_256_of(path[0] + h)
            },
            index / 2,
            path.drop_first(),
        )
    }
}

/// The authentication path for the leaf at `index`: the sibling subtree
/// roots from the leaf up to the root.
pub open spec fn open_spec(leafs: Seq<Seq<u8>>, index: nat) -> Seq<Seq<u8>>
    decreases leafs.len(),
{
    if leafs.len() <= 1 {
        Seq::empty()
    } else {
        let mid = leafs.len() as int / 2;
        if index < mid {
            open_spec(leafs.take(mid), index).push(merkle_root(leafs.skip(mid)))
        } else {
            open_spec(leafs.skip(mid), (index - mid) as nat).push(merkle_root(leafs.take(mid)))
        }
    }
}

/// `i` shifted right by `n` bits.
pub open spec fn idx_shr(i: nat, n: nat) -> nat
    decreases n,
{
    if n == 0 {
        i
    } else {
        idx_shr(i / 2, (n - 1) as nat)
    }
}

/// A path of length `n` over leaves `2^n` apart: the authentication path of
/// a tree with `2^k` leaves has length `k`.
pub(crate) proof fn lemma_open_len(leafs: Seq<Seq<u8>>, index: nat, k: nat)
    requires
        leafs.len() == pow2(k),
        index < leafs.len(),
    ensures
        open_spec(leafs, index).len() == k,
    decreases k,
{
    lemma_pow2_pos(k);
    if k == 0 {
        assert(pow2(0) == 1) by {
            lemma2_to64();
        }
    } else {
        lemma_pow2_unfold(k);
        let mid = leafs.len() as int / 2;
        assert(mid == pow2((k - 1) as nat)) by {
            lemma_div_multiples_vanish(pow2((k - 1) as nat) as int, 2);
        }
        lemma_pow2_pos((k - 1) as nat);
        assert(leafs.len() > 1);
        if index < mid {
            lemma_open_len(leafs.take(mid), index, (k - 1) as nat);
        } else {
            lemma_open_len(leafs.skip(mid), (index - mid) as nat, (k - 1) as nat);
        }
    }
}

/// Shifting a small index all the way down gives zero.
pub(crate) proof fn lemma_idx_shr_small(i: nat, n: nat)
    requires
        i < pow2(n),
    ensures
        idx_shr(i, n) == 0,
    decreases n,
{
    if n == 0 {
        assert(pow2(0) == 1) by {
            lemma2_to64();
        }
    } else {
        lemma_pow2_unfold(n);
        lemma_pow2_pos((n - 1) as nat);
        assert(i / 2 < pow2((n - 1) as nat)) by {
            lemma_fundamental_div_mod(i as int, 2);
            lemma_mod_bound(i as int, 2);
        }
        lemma_idx_shr_small(i / 2, (n - 1) as nat);
    }
}

/// Shifting is division by the matching power of two.
pub(crate) proof fn lemma_idx_shr_div(i: nat, n: nat)
    ensures
        idx_shr(i, n) == i / pow2(n),
    decreases n,
{
    lemma_pow2_pos(n);
    if n == 0 {
        assert(pow2(0) == 1) by {
            lemma2_to64();
        }
        lemma_div_multiples_vanish(i as int, 1);
        assert(i as int / 1 == i as int) by {
            lemma_div_by_self(1);
            lemma_fundamental_div_mod(i as int, 1);
            lemma_mod_bound(i as int, 1);
        }
    } else {
        lemma_pow2_unfold(n);
        lemma_pow2_pos((n - 1) as nat);
        lemma_idx_shr_div(i / 2, (n - 1) as nat);
        lemma_div_denominator(i as int, 2, pow2((n - 1) as nat) as int);
        assert((i as int / 2) / pow2((n - 1) as nat) as int == i as int / (2 * pow2(
            (n - 1) as nat,
        ) as int));
    }
}

/// Appending one sibling to a path adds one folding step at the top.
pub(crate) proof fn lemma_path_fold_push(h: Seq<u8>, i: nat, p: Seq<Seq<u8>>, s: Seq<u8>)
    ensures
        path_fold(h, i, p.push(s)) == (if idx_shr(i, p.len()) % 2 == 0 {
            sha3_256_of(path_fold(h, i, p) + s)
        } else {
            sha3_256_of(s + path_fold(h, i, p))
        }),
    decreases p.len(),
{
    let step = if i % 2 == 0 {
        sha3_256_of(h + p.push(s)[0])
    } else {
        sha3_256_of(p.push(s)[0] + h)
    };
    assert(path_fold(h, i, p.push(s)) == path_fold(step, i / 2, p.push(s).drop_first()));
    if p.len() == 0 {
        assert(p.push(s).drop_first() =~= Seq::<Seq<u8>>::empty());
        assert(p.push(s)[0] == s);
        assert(path_fold(step, i / 2, p.push(s).drop_first()) == step);
        assert(idx_shr(i, 0) == i);
        assert(path_fold(h, i, p) == h);
    } else {
        assert(p.push(s).drop_first() =~= p.drop_first().push(s));
        assert(p.push(s)[0] == p[0]);
        let inner = if i % 2 == 0 {
            sha3_256_of(h + p[0])
        } else {
            sha3_256_of(p[0] + h)
        };
        lemma_path_fold_push(inner, i / 2, p.drop_first(), s);
        assert(path_fold(h, i, p) == path_fold(inner, i / 2, p.drop_first()));
        assert(idx_shr(i, p.len()) == idx_shr(i / 2, (p.len() - 1) as nat));
    }
}

/// Folding depends on the index only through its low bits, as many as the
/// path is long.
pub(crate) proof fn lemma_path_fold_mod(h: Seq<u8>, i1: nat, i2: nat, p: Seq<Seq<u8>>)
    requires
        i1 % pow2(p.len()) == i2 % pow2(p.len()),
    ensures
        path_fold(h, i1, p) == path_fold(h, i2, p),
    decreases p.len(),
{
    if p.len() > 0 {
        let n = p.len();
        lemma_pow2_unfold(n);
        lemma_pow2_pos((n - 1) as nat);
        let m = pow2((n - 1) as nat) as int;
        lemma_mod_breakdown(i1 as int, 2, m);
        lemma_mod_breakdown(i2 as int, 2, m);
        assert(i1 as int % (2 * m) == 2 * ((i1 as int / 2) % m) + i1 as int % 2);
        assert(i2 as int % (2 * m) == 2 * ((i2 as int / 2) % m) + i2 as int % 2);
        lemma_mod_bound(i1 as int, 2);
        lemma_mod_bound(i2 as int, 2);
        assert(i1 % 2 == i2 % 2 && (i1 / 2) % pow2((n - 1) as nat) == (i2 / 2) % pow2(
            (n - 1) as nat,
        )) by {
            assert(2 * ((i1 as int / 2) % m) + i1 as int % 2 == 2 * ((i2 as int / 2) % m)
                + i2 as int % 2);
        }
        lemma_path_fold_mod(
            if i1 % 2 == 0 {
                sha3_256_of(h + p[0])
            } else {
                sha3_256_of(p[0] + h)
            },
            i1 / 2,
            i2 / 2,
            p.drop_first(),
        );
    }
}

/// The Merkle round trip: for a power-of-two leaf layer and a valid index,
/// folding the leaf at that index along its authentication path recomputes
/// the root. This is what makes a verified opening against a commitment
/// sound.
pub proof fn lemma_merkle_round_trip(leafs: Seq<Seq<u8>>, index: nat, k: nat)
    requires
        leafs.len() == pow2(k),
        index < leafs.len(),
    ensures
        path_fold(leafs[index as int], index, open_spec(leafs, index)) == merkle_root(leafs),
    decreases k,
{
    lemma_pow2_pos(k);
    if k == 0 {
        assert(pow2(0) == 1) by {
            lemma2_to64();
        }
    } else {
        lemma_pow2_unfold(k);
        let mid = leafs.len() as int / 2;
        assert(mid == pow2((k - 1) as nat)) by {
            lemma_div_multiples_vanish(pow2((k - 1) as nat) as int, 2);
        }
        lemma_pow2_pos((k - 1) as nat);
        let left = leafs.take(mid);
        let right = leafs.skip(mid);
        if index < mid {
            lemma_merkle_round_trip(left, index, (k - 1) as nat);
            lemma_open_len(left, index, (k - 1) as nat);
            lemma_path_fold_push(leafs[index as int], index, open_spec(left, index), merkle_root(right));
            lemma_idx_shr_small(index, (k - 1) as nat);
            assert(left[index as int] == leafs[index as int]);
        } else {
            let j = (index - mid) as nat;
            lemma_merkle_round_trip(right, j, (k - 1) as nat);
            lemma_open_len(right, j, (k - 1) as nat);
            assert(right[j as int] == leafs[index as int]);
            // The fold over the subtree path agrees whether driven by the
            // relative or the absolute index: their low bits agree.
            lemma_mod_sub_multiples_vanish(index as int, mid);
            lemma_small_mod(j, mid as nat);
            assert(index % pow2((k - 1) as nat) == j % pow2((k - 1) as nat));
            lemma_path_fold_mod(leafs[index as int], index, j, open_spec(right, j));
            lemma_path_fold_push(leafs[index as int], index, open_spec(right, j), merkle_root(left));
            // The top bit of the index is one: the running hash is the right
            // operand at the last step.
            lemma_idx_shr_div(index, (k - 1) as nat);
            assert(idx_shr(index, (k - 1) as nat) == 1) by {
                assert(index as int / mid == 1) by {
                    lemma_fundamental_div_mod_converse(index as int, mid, 1, index as int - mid);
                }
            }
        }
    }
}

/// Compares two byte vectors.
fn bytes_eq(a: &Vec<u8>, b: &Vec<u8>) -> (r: bool)
    ensures
        r == (a@ == b@),
{
    if a.len() != b.len() {
        proof {
            assert(a@ != b@);
        }
        return false;
    }
    let mut i: usize = 0;
    while i < a.len()
        invariant
            a@.len() == b@.len(),
            i <= a@.len(),
            forall|j: int| 0 <= j < i ==> a@[j] == b@[j],
        decreases a@.len() - i,
    {
        if a[i] != b[i] {
            proof {
                assert(a@ != b@);
            }
            return false;
        }
        i = i + 1;
    }
    proof {
        assert(a@ =~= b@);
    }
    true
}

/// Copies a byte vector.
fn copy_bytes(v: &Vec<u8>) -> (r: Vec<u8>)
    ensures
        r@ == v@,
{
    let mut out: Vec<u8> = Vec::new();
    let mut i: usize = 0;
    while i < v.len()
        invariant
            i <= v@.len(),
            out@ == v@.take(i as int),
        decreases v@.len() - i,
    {
        out.push(v[i]);
        proof {
            assert(out@ =~= v@.take(i as int + 1));
        }
        i = i + 1;
    }
    proof {
        assert(out@ =~= v@);
    }
    out
}

/// Concatenates two byte vectors.
fn cat_bytes(a: &Vec<u8>, b: &Vec<u8>) -> (r: Vec<u8>)
    ensures
        r@ == a@ + b@,
{
    let mut out = copy_bytes(a);
    let mut i: usize = 0;
    while i < b.len()
        invariant
            i <= b@.len(),
            out@ == a@ + b@.take(i as int),
        decreases b@.len() - i,
    {
        out.push(b[i]);
        proof {
            assert(out@ =~= a@ + b@.take(i as int + 1));
        }
        i = i + 1;
    }
    proof {
        assert(out@ =~= a@ + b@);
    }
    out
}

/// Hashes the concatenation of two subtree roots.
fn hash_pair(left: &Vec<u8>, right: &Vec<u8>) -> (r: Vec<u8>)
    ensures
        r@ == sha3_256_of(left@ + right@),
        r@.len() == 32,
{
    let cat = cat_bytes(left, right);
    sha3_256(&cat)
}

/// Hashes every data item once, making the leaf layer.
fn hash_data(data_array: &Vec<Vec<u8>>) -> (r: Vec<Vec<u8>>)
    ensures
        views(r@) == leaf_hashes(views(data_array@)),
        r@.len() == data_array@.len(),
{
    let mut out: Vec<Vec<u8>> = Vec::new();
    let mut i: usize = 0;
    while i < data_array.len()
        invariant
            i <= data_array@.len(),
            out@.len() == i,
            forall|j: int| 0 <= j < i ==> (#[trigger] out@[j])@ == sha3_256_of(data_array@[j]@),
        decreases data_array@.len() - i,
    {
        let h = sha3_256(&data_array[i]);
        out.push(h);
        i = i + 1;
    }
    proof {
        assert(views(out@) =~= leaf_hashes(views(data_array@)));
    }
    out
}

/// Computes the root over the leaf range `[lo, hi)`, which must span a power
/// of two.
fn commit_range(leafs: &Vec<Vec<u8>>, lo: usize, hi: usize) -> (r: Vec<u8>)
    requires
        lo < hi <= leafs@.len(),
        exists|k: nat| hi - lo == pow2(k),
    ensures
        r@ == merkle_root(views(leafs@).subrange(lo as int, hi as int)),
    decreases hi - lo,
{
    let ghost sub = views(leafs@).subrange(lo as int, hi as int);
    if hi - lo == 1 {
        let r = copy_bytes(&leafs[lo]);
        proof {
            assert(sub.len() == 1 && sub[0] == leafs@[lo as int]@);
        }
        r
    } else {
        let ghost k = choose|k: nat| hi - lo == pow2(k);
        proof {
            lemma_pow2_pos(k);
            if k == 0 {
                lemma2_to64();
                assert(false);
            }
            lemma_pow2_unfold(k);
            lemma_pow2_pos((k - 1) as nat);
            lemma_div_multiples_vanish(pow2((k - 1) as nat) as int, 2);
            assert((hi - lo) / 2 == pow2((k - 1) as nat));
        }
        let half = (hi - lo) / 2;
        let mid = lo + half;
        let left = commit_range(leafs, lo, mid);
        let right = commit_range(leafs, mid, hi);
        let r = hash_pair(&left, &right);
        proof {
            assert(sub.take(sub.len() as int / 2) =~= views(leafs@).subrange(
                lo as int,
                mid as int,
            ));
            assert(sub.skip(sub.len() as int / 2) =~= views(leafs@).subrange(
                mid as int,
                hi as int,
            ));
        }
        r
    }
}

/// Collects the authentication path for the relative index within the leaf
/// range `[lo, hi)`.
fn open_range(leafs: &Vec<Vec<u8>>, lo: usize, hi: usize, idx: usize) -> (r: Vec<Vec<u8>>)
    requires
        lo < hi <= leafs@.len(),
        idx < hi - lo,
        exists|k: nat| hi - lo == pow2(k),
    ensures
        views(r@) == open_spec(views(leafs@).subrange(lo as int, hi as int), idx as nat),
    decreases hi - lo,
{
    let ghost sub = views(leafs@).subrange(lo as int, hi as int);
    if hi - lo == 1 {
        let r: Vec<Vec<u8>> = Vec::new();
        proof {
            assert(views(r@) =~= open_spec(sub, idx as nat));
        }
        r
    } else {
        let ghost k = choose|k: nat| hi - lo == pow2(k);
        proof {
            lemma_pow2_pos(k);
            if k == 0 {
                lemma2_to64();
                assert(false);
            }
            lemma_pow2_unfold(k);
            lemma_pow2_pos((k - 1) as nat);
            lemma_div_multiples_vanish(pow2((k - 1) as nat) as int, 2);
            assert((hi - lo) / 2 == pow2((k - 1) as nat));
        }
        let half = (hi - lo) / 2;
        let mid = lo + half;
        proof {
            assert(sub.take(sub.len() as int / 2) =~= views(leafs@).subrange(
                lo as int,
                mid as int,
            ));
            assert(sub.skip(sub.len() as int / 2) =~= views(leafs@).subrange(
                mid as int,
                hi as int,
            ));
        }
        if idx < half {
            let mut path = open_range(leafs, lo, mid, idx);
            let sibling = commit_range(leafs, mid, hi);
            let ghost path0 = path@;
            path.push(sibling);
            proof {
                assert(views(path@) =~= views(path0).push(sibling@));
            }
            path
        } else {
            let mut path = open_range(leafs, mid, hi, idx - half);
            let sibling = commit_range(leafs, lo, mid);
            let ghost path0 = path@;
            path.push(sibling);
            proof {
                assert(views(path@) =~= views(path0).push(sibling@));
            }
            path
        }
    }
}

/// A stateless Merkle tree over byte-string data items.
pub struct MerkleTree;

impl MerkleTree {
    /// Commits to the data: hashes every item once and returns the root of
    /// the implicit binary tree over those leaf hashes.
    pub fn commit(data_array: &Vec<Vec<u8>>) -> (r: Vec<u8>)
        requires
            data_array@.len() >= 1,
            exists|k: nat| data_array@.len() == pow2(k),
        ensures
            r@ == merkle_root(leaf_hashes(views(data_array@))),
    {
        let leafs = hash_data(data_array);
        let r = commit_range(&leafs, 0, leafs.len());
        proof {
            assert(views(leafs@).subrange(0, leafs@.len() as int) =~= views(leafs@));
        }
        r
    }

    /// Opens the leaf at `index`: returns its authentication path, the
    /// sibling subtree roots from the leaf up to the root.
    pub fn open(index: usize, data_array: &Vec<Vec<u8>>) -> (r: Vec<Vec<u8>>)
        requires
            data_array@.len() >= 1,
            index < data_array@.len(),
            exists|k: nat| data_array@.len() == pow2(k),
        ensures
            views(r@) == open_spec(leaf_hashes(views(data_array@)), index as nat),
    {
        let leafs = hash_data(data_array);
        let r = open_range(&leafs, 0, leafs.len(), index);
        proof {
            assert(views(leafs@).subrange(0, leafs@.len() as int) =~= views(leafs@));
        }
        r
    }

    /// Verifies an opening: hashes the claimed element, folds it up along
    /// the path as directed by the index's bits, and compares with the root.
    pub fn verify(
        root: &Vec<u8>,
        index: usize,
        data_element: &Vec<u8>,
        path: &Vec<Vec<u8>>,
    ) -> (r: bool)
        requires
            index < pow2(path@.len()),
        ensures
            r == (path_fold(sha3_256_of(data_element@), index as nat, views(path@)) == root@),
    {
        let mut current = sha3_256(data_element);
        let mut i = index;
        let mut j: usize = 0;
        proof {
            assert(views(path@).skip(0) =~= views(path@));
        }
        while j < path.len()
            invariant
                j <= path@.len(),
                path_fold(sha3_256_of(data_element@), index as nat, views(path@)) == path_fold(
                    current@,
                    i as nat,
                    views(path@).skip(j as int),
                ),
            decreases path@.len() - j,
        {
            let ghost cur0 = current@;
            let ghost i0 = i as nat;
            if i % 2 == 0 {
                current = hash_pair(&current, &path[j]);
            } else {
                current = hash_pair(&path[j], &current);
            }
            i = i / 2;
            proof {
                let rest = views(path@).skip(j as int);
                assert(rest.drop_first() =~= views(path@).skip(j as int + 1));
                assert(rest[0] == path@[j as int]@);
                assert(path_fold(cur0, i0, rest) == path_fold(current@, i as nat, rest.drop_first()));
            }
            j = j + 1;
        }
        proof {
            assert(views(path@).skip(path@.len() as int) =~= Seq::<Seq<u8>>::empty());
        }
        bytes_eq(&current, root)
    }
}

} // verus!
