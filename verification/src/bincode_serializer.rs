//! The transcript wire format: byte-for-byte the encoding that bincode's
//! default configuration gives a list of byte strings. A 64-bit
//! little-endian count, then each item as a 64-bit little-endian length
//! followed by its raw bytes.
//!
//! The codec is verified: serializing always succeeds and produces exactly
//! the encoding of the object list, and deserializing accepts a byte string
//! if and only if it is such an encoding, returning the one object list it
//! encodes.

use vstd::prelude::*;

verus! {

use vstd::arithmetic::div_mod::*;
use vstd::arithmetic::mul::*;
use vstd::arithmetic::power::*;
use crate::merkle::views;

/// A byte string that could not be decoded.
#[derive(Clone, Copy, Debug, PartialEq, Eq)]
pub enum EncodingError {
    Malformed,
}

/// The 8-byte little-endian encoding of `n`.
pub open spec fn u64_le(n: nat) -> Seq<u8> {
    Seq::new(8, |i: int| ((n as int / pow(256, i as nat)) % 256) as u8)
}

/// One encoded item: its length, then its bytes.
pub open spec fn encode_item(b: Seq<u8>) -> Seq<u8> {
    u64_le(b.len()) + b
}

/// The encoded items, in order.
pub open spec fn encode_items(objs: Seq<Seq<u8>>) -> Seq<u8>
    decreases objs.len(),
{
    if objs.len() == 0 {
        Seq::empty()
    } else {
        encode_item(objs[0]) + encode_items(objs.drop_first())
    }
}

/// The encoded object list: the count, then the items.
pub open spec fn encode_stream(objs: Seq<Seq<u8>>) -> Seq<u8> {
    u64_le(objs.len()) + encode_items(objs)
}

/// The value of the first `k` bytes of `s` read as a little-endian integer.
pub open spec fn le8_val(s: Seq<u8>, k: int) -> nat
    decreases k,
{
    if k <= 0 {
        0
    } else {
        (le8_val(s, k - 1) + s[k - 1] * pow(256, (k - 1) as nat)) as nat
    }
}

/// The value of the bytes of `s` from position `i` on, little endian.
pub open spec fn hi_val(s: Seq<u8>, i: int) -> nat
    decreases 8 - i,
{
    if i >= 8 || i >= s.len() {
        0
    } else {
        (s[i] + 256 * hi_val(s, i + 1)) as nat
    }
}

/// The concrete values of the powers of 256 up to the eighth.
pub(crate) proof fn lemma_pow256()
    ensures
        pow(256, 0) == 1,
        pow(256, 1) == 0x100,
        pow(256, 2) == 0x10000,
        pow(256, 3) == 0x1000000,
        pow(256, 4) == 0x100000000,
        pow(256, 5) == 0x10000000000,
        pow(256, 6) == 0x1000000000000,
        pow(256, 7) == 0x100000000000000,
        pow(256, 8) == 0x10000000000000000,
{
    lemma_pow0(256);
    lemma_pow1(256);
    lemma_pow_adds(256, 1, 1);
    lemma_pow_adds(256, 2, 1);
    lemma_pow_adds(256, 3, 1);
    lemma_pow_adds(256, 4, 1);
    lemma_pow_adds(256, 5, 1);
    lemma_pow_adds(256, 6, 1);
    lemma_pow_adds(256, 7, 1);
}

/// A `k`-byte little-endian value is below the `k`-th power of 256.
pub(crate) proof fn lemma_le8_bound(s: Seq<u8>, k: int)
    requires
        0 <= k <= s.len(),
    ensures
        le8_val(s, k) < pow(256, k as nat),
    decreases k,
{
    lemma_pow_positive(256, k as nat);
    if k == 0 {
        lemma_pow0(256);
    } else {
        lemma_le8_bound(s, k - 1);
        lemma_pow1(256);
        lemma_pow_adds(256, (k - 1) as nat, 1);
        assert(s[k - 1] * pow(256, (k - 1) as nat) <= 255 * pow(256, (k - 1) as nat)) by {
            lemma_mul_inequality(s[k - 1] as int, 255, pow(256, (k - 1) as nat));
        }
        assert(pow(256, (k - 1) as nat) + 255 * pow(256, (k - 1) as nat) == 256 * pow(
            256,
            (k - 1) as nat,
        )) by (nonlinear_arith);
    }
}

/// Reading back the little-endian encoding of `n` recovers `n` modulo the
/// matching power of 256.
pub(crate) proof fn lemma_u64_le_recover(n: nat, k: int)
    requires
        0 <= k <= 8,
    ensures
        le8_val(u64_le(n), k) as int == n as int % pow(256, k as nat),
    decreases k,
{
    lemma_pow_positive(256, k as nat);
    if k == 0 {
        lemma_pow0(256);
        lemma_mod_bound(n as int, 1);
        lemma_mod_one(n as int);
    } else {
        lemma_u64_le_recover(n, k - 1);
        lemma_pow_positive(256, (k - 1) as nat);
        lemma_pow1(256);
        lemma_pow_adds(256, (k - 1) as nat, 1);
        lemma_mod_breakdown(n as int, pow(256, (k - 1) as nat), 256);
        assert(u64_le(n)[k - 1] as int == (n as int / pow(256, (k - 1) as nat)) % 256);
        lemma_mul_is_commutative(
            pow(256, (k - 1) as nat),
            (n as int / pow(256, (k - 1) as nat)) % 256,
        );
    }
}

/// Everything is congruent to zero modulo one.
proof fn lemma_mod_one(x: int)
    requires
        x >= 0,
    ensures
        x % 1 == 0,
{
    lemma_mod_bound(x, 1);
}

/// Splitting a little-endian value at position `i`.
pub(crate) proof fn lemma_le8_split(s: Seq<u8>, i: int)
    requires
        s.len() == 8,
        0 <= i <= 8,
    ensures
        le8_val(s, 8) == le8_val(s, i) + pow(256, i as nat) * hi_val(s, i),
    decreases 8 - i,
{
    if i == 8 {
        assert(hi_val(s, 8) == 0);
        assert(pow(256, 8) * 0 == 0);
    } else {
        lemma_le8_split(s, i + 1);
        lemma_pow1(256);
        lemma_pow_adds(256, i as nat, 1);
        assert(hi_val(s, i) == s[i] + 256 * hi_val(s, i + 1));
        lemma_pow_positive(256, i as nat);
        lemma_mul_nonnegative(s[i] as int, pow(256, i as nat));
        assert(le8_val(s, i + 1) == le8_val(s, i) + s[i] * pow(256, i as nat));
        assert(le8_val(s, i) + s[i] * pow(256, i as nat) + (pow(256, i as nat) * 256) * hi_val(
            s,
            i + 1,
        ) == le8_val(s, i) + pow(256, i as nat) * (s[i] + 256 * hi_val(s, i + 1)))
            by (nonlinear_arith);
    }
}

/// An 8-byte string is the little-endian encoding of its own value.
pub(crate) proof fn lemma_le8_inverse(s: Seq<u8>)
    requires
        s.len() == 8,
    ensures
        u64_le(le8_val(s, 8)) == s,
{
    let v = le8_val(s, 8);
    assert forall|i: int| 0 <= i < 8 implies u64_le(v)[i] == s[i] by {
        lemma_le8_split(s, i);
        lemma_le8_bound(s, i);
        lemma_pow_positive(256, i as nat);
        let p = pow(256, i as nat);
        // v = low + p * hi, with low below p: dividing by p leaves hi.
        lemma_div_multiples_vanish_fancy(hi_val(s, i) as int, le8_val(s, i) as int, p);
        assert(v as int / p == hi_val(s, i)) by {
            lemma_mul_is_commutative(p, hi_val(s, i) as int);
        }
        // hi modulo 256 is the byte at i.
        assert(hi_val(s, i) == s[i] + 256 * hi_val(s, i + 1));
        lemma_mod_multiples_vanish(hi_val(s, i + 1) as int, s[i] as int, 256);
        lemma_small_mod(s[i] as nat, 256);
        assert((s[i] + 256 * hi_val(s, i + 1)) % 256 == s[i] as int % 256) by {
            lemma_mul_is_commutative(256, hi_val(s, i + 1) as int);
        }
    }
    assert(u64_le(v) =~= s);
}

/// Appending one object extends the item encoding at the end.
pub(crate) proof fn lemma_encode_items_push(objs: Seq<Seq<u8>>, x: Seq<u8>)
    ensures
        encode_items(objs.push(x)) == encode_items(objs) + encode_item(x),
    decreases objs.len(),
{
    if objs.len() == 0 {
        assert(objs.push(x).drop_first() =~= Seq::<Seq<u8>>::empty());
        assert(objs.push(x)[0] == x);
        assert(encode_items(objs.push(x).drop_first()) == Seq::<u8>::empty());
        assert(encode_items(objs.push(x)) == encode_item(objs.push(x)[0]) + encode_items(
            objs.push(x).drop_first(),
        ));
        assert(encode_item(x) + Seq::<u8>::empty() =~= Seq::<u8>::empty() + encode_item(x));
    } else {
        assert(objs.push(x).drop_first() =~= objs.drop_first().push(x));
        assert(objs.push(x)[0] == objs[0]);
        lemma_encode_items_push(objs.drop_first(), x);
        assert(encode_item(objs[0]) + (encode_items(objs.drop_first()) + encode_item(x)) =~= (
        encode_item(objs[0]) + encode_items(objs.drop_first())) + encode_item(x));
    }
}

/// The item encoding takes at least eight bytes per object.
pub(crate) proof fn lemma_encode_items_len(objs: Seq<Seq<u8>>)
    ensures
        encode_items(objs).len() >= 8 * objs.len(),
    decreases objs.len(),
{
    if objs.len() > 0 {
        lemma_encode_items_len(objs.drop_first());
    }
}

/// Reads the 8-byte little-endian integer at `pos`.
fn read_u64(bytes: &Vec<u8>, pos: usize) -> (r: u128)
    requires
        pos + 8 <= bytes@.len(),
    ensures
        r as nat == le8_val(bytes@.subrange(pos as int, pos as int + 8), 8),
        r < 0x10000000000000000,
{
    let ghost s = bytes@.subrange(pos as int, pos as int + 8);
    let blen = bytes.len();
    let mut v: u128 = 0;
    let mut mult: u128 = 1;
    let mut i: usize = 0;
    proof {
        lemma_pow0(256);
        lemma_pow256();
    }
    while i < 8
        invariant
            blen == bytes@.len(),
            pos + 8 <= bytes@.len(),
            s == bytes@.subrange(pos as int, pos as int + 8),
            i <= 8,
            mult as nat == pow(256, i as nat),
            mult <= 0x10000000000000000,
            v as nat == le8_val(s, i as int),
            v < mult,
        decreases 8 - i,
    {
        let b = bytes[pos + i];
        proof {
            assert(s[i as int] == bytes@[pos as int + i]);
            lemma_pow256();
            lemma_pow1(256);
            lemma_pow_adds(256, i as nat, 1);
            assert(b as int * mult as int <= 255 * mult as int) by {
                lemma_mul_inequality(b as int, 255, mult as int);
            }
            assert(mult as int + 255 * mult as int == 256 * mult as int) by (nonlinear_arith);
            assert(pow(256, (i + 1) as nat) <= pow(256, 8)) by {
                if i + 1 < 8 {
                    lemma_pow_increases(256, (i + 1) as nat, 8);
                }
            }
        }
        v = v + (b as u128) * mult;
        mult = mult * 256;
        i = i + 1;
    }
    proof {
        lemma_le8_bound(s, 8);
        lemma_pow256();
    }
    v
}

/// Appends the 8-byte little-endian encoding of `n`.
fn push_u64(out: &mut Vec<u8>, n: u64)
    ensures
        final(out)@ == old(out)@ + u64_le(n as nat),
{
    let ghost base = out@;
    let mut x: u64 = n;
    let mut i: usize = 0;
    proof {
        lemma_pow0(256);
    }
    while i < 8
        invariant
            i <= 8,
            out@.len() == base.len() + i,
            out@.take(base.len() as int) == base,
            x as int == n as int / pow(256, i as nat),
            forall|j: int| 0 <= j < i ==> out@[base.len() + j] == u64_le(n as nat)[j],
        decreases 8 - i,
    {
        let b = (x % 256) as u8;
        proof {
            assert(b as int == (n as int / pow(256, i as nat)) % 256);
            lemma_pow_adds(256, i as nat, 1);
            lemma_pow1(256);
            lemma_pow_positive(256, i as nat);
            lemma_div_denominator(n as int, pow(256, i as nat), 256);
        }
        let ghost out0 = out@;
        out.push(b);
        proof {
            assert(out@.take(base.len() as int) =~= base);
        }
        x = x / 256;
        i = i + 1;
    }
    proof {
        assert(out@ =~= base + u64_le(n as nat));
    }
}

/// The pluggable transcript serializer in its reference configuration:
/// bincode's default encoding of a list of byte strings.
pub struct BincodeSerializer;

impl BincodeSerializer {
    /// Encodes the object list; this cannot fail.
    pub fn serialize(objects: &Vec<Vec<u8>>) -> (r: Vec<u8>)
        ensures
            r@ == encode_stream(views(objects@)),
    {
        let mut out: Vec<u8> = Vec::new();
        push_u64(&mut out, objects.len() as u64);
        let ghost head = u64_le(objects@.len() as nat);
        proof {
            assert(out@ =~= head + encode_items(views(objects@).take(0)));
        }
        let mut i: usize = 0;
        while i < objects.len()
            invariant
                head == u64_le(objects@.len() as nat),
                i <= objects@.len(),
                out@ == head + encode_items(views(objects@).take(i as int)),
            decreases objects@.len() - i,
        {
            let ghost before = out@;
            push_u64(&mut out, objects[i].len() as u64);
            let item = &objects[i];
            let mut j: usize = 0;
            while j < item.len()
                invariant
                    item@ == objects@[i as int]@,
                    i < objects@.len(),
                    j <= item@.len(),
                    out@ == before + u64_le(item@.len() as nat) + item@.take(j as int),
                decreases item@.len() - j,
            {
                out.push(item[j]);
                proof {
                    assert(out@ =~= before + u64_le(item@.len() as nat) + item@.take(
                        j as int + 1,
                    ));
                }
                j = j + 1;
            }
            proof {
                assert(views(objects@).take(i as int + 1) =~= views(objects@).take(i as int).push(
                    objects@[i as int]@,
                ));
                lemma_encode_items_push(views(objects@).take(i as int), objects@[i as int]@);
                assert(item@.take(item@.len() as int) =~= item@);
                assert(out@ =~= head + encode_items(views(objects@).take(i as int + 1)));
            }
            i = i + 1;
        }
        proof {
            assert(views(objects@).take(objects@.len() as int) =~= views(objects@));
        }
        out
    }

    /// Decodes a byte string. It succeeds exactly on the encodings that
    /// [`BincodeSerializer::serialize`] produces, and returns the one object
    /// list whose encoding the input is.
    pub fn deserialize(bytes: &Vec<u8>) -> (r: Result<Vec<Vec<u8>>, EncodingError>)
        ensures
            r is Ok ==> bytes@ == encode_stream(views(r->Ok_0@)),
            forall|objs: Seq<Seq<u8>>| bytes@ == #[trigger] encode_stream(objs) ==> r is Ok,
    {
        let ghost valid = exists|objs: Seq<Seq<u8>>| bytes@ == #[trigger] encode_stream(objs);
        let ghost gobjs = if valid {
            choose|objs: Seq<Seq<u8>>| bytes@ == #[trigger] encode_stream(objs)
        } else {
            Seq::empty()
        };
        if bytes.len() < 8 {
            proof {
                if valid {
                    assert(bytes@ == encode_stream(gobjs));
                    assert(encode_stream(gobjs).len() >= 8);
                    assert(false);
                }
            }
            return Err(EncodingError::Malformed);
        }
        let cnt_u = read_u64(bytes, 0);
        proof {
            if valid {
                assert(bytes@.subrange(0, 8) =~= u64_le(gobjs.len()));
                lemma_encode_items_len(gobjs);
                assert(gobjs.len() * 8 == 8 * gobjs.len()) by (nonlinear_arith);
                assert(gobjs.len() <= bytes@.len());
                lemma_u64_le_recover(gobjs.len(), 8);
                lemma_pow256();
                lemma_small_mod(gobjs.len(), 0x10000000000000000nat);
                assert(cnt_u as nat == gobjs.len());
            }
        }
        if cnt_u > (usize::MAX as u128) {
            proof {
                if valid {
                    assert(false);
                }
            }
            return Err(EncodingError::Malformed);
        }
        let count = cnt_u as usize;
        let blen = bytes.len();
        let mut pos: usize = 8;
        let mut out: Vec<Vec<u8>> = Vec::new();
        let mut c: usize = 0;
        proof {
            lemma_le8_inverse(bytes@.subrange(0, 8));
            assert(bytes@.subrange(0, 8) == u64_le(le8_val(bytes@.subrange(0, 8), 8)));
            assert(views(out@) =~= Seq::<Seq<u8>>::empty());
            assert(bytes@.subrange(8, 8) =~= encode_items(views(out@)));
            if valid {
                assert(gobjs.take(0) =~= Seq::<Seq<u8>>::empty());
                assert(gobjs.skip(0) =~= gobjs);
                assert(bytes@.skip(8) =~= encode_items(gobjs)) by {
                    assert(bytes@ == u64_le(gobjs.len()) + encode_items(gobjs));
                }
            }
        }
        while c < count
            invariant
                blen == bytes@.len(),
                bytes@.len() >= 8,
                count == cnt_u,
                cnt_u as nat == le8_val(bytes@.subrange(0, 8), 8),
                bytes@.subrange(0, 8) == u64_le(count as nat),
                8 <= pos <= bytes@.len(),
                c <= count,
                out@.len() == c,
                bytes@.subrange(8, pos as int) == encode_items(views(out@)),
                valid == exists|objs: Seq<Seq<u8>>| bytes@ == #[trigger] encode_stream(objs),
                valid ==> bytes@ == encode_stream(gobjs) && cnt_u as nat == gobjs.len()
                    && views(out@) == gobjs.take(c as int) && bytes@.skip(pos as int)
                    == encode_items(gobjs.skip(c as int)),
            decreases count - c,
        {
            if bytes.len() - pos < 8 {
                proof {
                    if valid {
                        assert(gobjs.skip(c as int).len() > 0);
                        lemma_encode_items_len(gobjs.skip(c as int));
                        assert(bytes@.skip(pos as int).len() >= 8);
                        assert(false);
                    }
                }
                return Err(EncodingError::Malformed);
            }
            let len_u = read_u64(bytes, pos);
            proof {
                if valid {
                    let rest = gobjs.skip(c as int);
                    assert(rest.len() > 0);
                    let item = rest[0];
                    assert(encode_items(rest) == encode_item(item) + encode_items(
                        rest.drop_first(),
                    ));
                    assert(bytes@.subrange(pos as int, pos as int + 8) =~= u64_le(item.len()));
                    lemma_u64_le_recover(item.len(), 8);
                    lemma_pow256();
                    assert(encode_items(rest).len() <= bytes@.len());
                    lemma_encode_items_len(rest.drop_first());
                    assert(item.len() <= bytes@.len());
                    lemma_small_mod(item.len(), 0x10000000000000000nat);
                    assert(len_u as nat == item.len());
                }
            }
            if (len_u as u128) > ((bytes.len() - pos - 8) as u128) {
                proof {
                    if valid {
                        let rest = gobjs.skip(c as int);
                        let item = rest[0];
                        assert(bytes@.skip(pos as int).len() == 8 + item.len() + encode_items(
                            rest.drop_first(),
                        ).len());
                        assert(false);
                    }
                }
                return Err(EncodingError::Malformed);
            }
            proof {
                assert(len_u <= (bytes@.len() - pos as int - 8));
            }
            let l = len_u as usize;
            proof {
                assert(pos + 8 + l <= bytes@.len());
            }
            let mut item: Vec<u8> = Vec::new();
            let mut j: usize = 0;
            while j < l
                invariant
                    blen == bytes@.len(),
                    pos + 8 + l <= bytes@.len(),
                    j <= l,
                    item@ == bytes@.subrange(pos as int + 8, pos as int + 8 + j as int),
                decreases l - j,
            {
                item.push(bytes[pos + 8 + j]);
                proof {
                    assert(item@ =~= bytes@.subrange(pos as int + 8, pos as int + 8 + j as int + 1));
                }
                j = j + 1;
            }
            let ghost out0 = out@;
            let ghost pos0 = pos as int;
            out.push(item);
            pos = pos + 8 + l;
            proof {
                assert(views(out@) =~= views(out0).push(bytes@.subrange(pos0 + 8, pos0 + 8 + l)));
                lemma_encode_items_push(views(out0), bytes@.subrange(pos0 + 8, pos0 + 8 + l));
                lemma_le8_inverse(bytes@.subrange(pos0, pos0 + 8));
                assert(bytes@.subrange(pos0, pos0 + 8) == u64_le(
                    le8_val(bytes@.subrange(pos0, pos0 + 8), 8),
                ));
                assert(bytes@.subrange(8, pos as int) =~= bytes@.subrange(8, pos0) + (
                bytes@.subrange(pos0, pos0 + 8) + bytes@.subrange(pos0 + 8, pos0 + 8 + l)));
                assert(encode_item(bytes@.subrange(pos0 + 8, pos0 + 8 + l)) =~= bytes@.subrange(
                    pos0,
                    pos0 + 8,
                ) + bytes@.subrange(pos0 + 8, pos0 + 8 + l));
                assert(bytes@.subrange(8, pos as int) == encode_items(views(out@)));
                if valid {
                    let rest = gobjs.skip(c as int);
                    let item_g = rest[0];
                    assert(bytes@.skip(pos0) == encode_items(rest));
                    assert(encode_items(rest) == encode_item(item_g) + encode_items(
                        rest.drop_first(),
                    ));
                    assert(item_g.len() == l);
                    assert(encode_item(item_g) == u64_le(item_g.len()) + item_g);
                    assert forall|q: int| 0 <= q < l implies bytes@[pos0 + 8 + q] == item_g[q] by {
                        assert(bytes@.skip(pos0)[8 + q] == bytes@[pos0 + 8 + q]);
                        assert(encode_items(rest)[8 + q] == item_g[q]);
                    }
                    assert(bytes@.subrange(pos0 + 8, pos0 + 8 + l) =~= item_g);
                    assert(views(out@) =~= gobjs.take(c as int + 1));
                    assert(bytes@.skip(pos0).len() == encode_items(rest).len());
                    assert forall|q: int|
                        0 <= q < encode_items(rest.drop_first()).len() implies bytes@.skip(
                        pos as int,
                    )[q] == encode_items(rest.drop_first())[q] by {
                        assert(bytes@.skip(pos as int)[q] == bytes@[pos0 + 8 + l + q]);
                        assert(bytes@.skip(pos0)[8 + l + q] == bytes@[pos0 + 8 + l + q]);
                        assert(encode_items(rest)[8 + l + q] == encode_items(
                            rest.drop_first(),
                        )[q]);
                    }
                    assert(bytes@.skip(pos as int) =~= encode_items(rest.drop_first()));
                    assert(rest.drop_first() =~= gobjs.skip(c as int + 1));
                }
            }
            c = c + 1;
        }
        if pos != bytes.len() {
            proof {
                if valid {
                    assert(gobjs.skip(count as int) =~= Seq::<Seq<u8>>::empty());
                    assert(bytes@.skip(pos as int).len() == 0);
                    assert(false);
                }
            }
            return Err(EncodingError::Malformed);
        }
        proof {
            assert(bytes@ =~= bytes@.subrange(0, 8) + bytes@.subrange(8, pos as int));
            assert(views(out@).len() == count as nat);
            assert(bytes@ == encode_stream(views(out@)));
        }
        Ok(out)
    }
}

} // verus!
