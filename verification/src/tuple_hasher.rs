//! A hasher for keys made of a few small integers: each integer written shifts the state
//! left by 16 bits and adds the integer, so distinct small tuples get distinct hashes.

use std::marker::PhantomData;

use vstd::prelude::*;

verus! {

/// The state after writing `n` (taken as its 64-bit two's complement pattern) to `h`.
pub open spec fn mix(h: u64, n: int) -> int {
    (h as int * 0x1_0000) % 0x1_0000_0000_0000_0000 + n
}

/// The unsigned 64-bit pattern of a signed integer.
pub open spec fn bits64(n: int) -> int {
    if n >= 0 { n } else { n + 0x1_0000_0000_0000_0000 }
}

pub struct TupleIntHasher<T> {
    state: u64,
    marker: PhantomData<T>,
}

impl<T> TupleIntHasher<T> {
    /// The hash so far.
    pub closed spec fn value(self) -> u64 {
        self.state
    }

    fn write_bits(&mut self, n: u64)
        requires
            mix(old(self).value(), n as int) <= u64::MAX,
        ensures
            final(self).value() == mix(old(self).value(), n as int),
    {
        let h = self.state;
        proof {
            assert(h << 16 == ((h as int * 0x1_0000) % 0x1_0000_0000_0000_0000) as u64) by (bit_vector);
        }
        self.state = (self.state << 16) + n;
    }

    pub fn write_u8(&mut self, n: u8)
        requires
            mix(old(self).value(), n as int) <= u64::MAX,
        ensures
            final(self).value() == mix(old(self).value(), n as int),
    {
        self.write_bits(u64::from(n));
    }

    pub fn write_u16(&mut self, n: u16)
        requires
            mix(old(self).value(), n as int) <= u64::MAX,
        ensures
            final(self).value() == mix(old(self).value(), n as int),
    {
        self.write_bits(u64::from(n));
    }

    pub fn write_u32(&mut self, n: u32)
        requires
            mix(old(self).value(), n as int) <= u64::MAX,
        ensures
            final(self).value() == mix(old(self).value(), n as int),
    {
        self.write_bits(u64::from(n));
    }

    pub fn write_u64(&mut self, n: u64)
        requires
            mix(old(self).value(), n as int) <= u64::MAX,
        ensures
            final(self).value() == mix(old(self).value(), n as int),
    {
        self.write_bits(n);
    }

    pub fn write_usize(&mut self, n: usize)
        requires
            mix(old(self).value(), n as int) <= u64::MAX,
        ensures
            final(self).value() == mix(old(self).value(), n as int),
    {
        self.write_bits(n as u64);
    }

    pub fn write_i8(&mut self, n: i8)
        requires
            mix(old(self).value(), bits64(n as int)) <= u64::MAX,
        ensures
            final(self).value() == mix(old(self).value(), bits64(n as int)),
    {
        proof {
            assert((n as u64) as int == bits64(n as int)) by (bit_vector);
        }
        self.write_bits(n as u64);
    }

    pub fn write_i16(&mut self, n: i16)
        requires
            mix(old(self).value(), bits64(n as int)) <= u64::MAX,
        ensures
            final(self).value() == mix(old(self).value(), bits64(n as int)),
    {
        proof {
            assert((n as u64) as int == bits64(n as int)) by (bit_vector);
        }
        self.write_bits(n as u64);
    }

    pub fn write_i32(&mut self, n: i32)
        requires
            mix(old(self).value(), bits64(n as int)) <= u64::MAX,
        ensures
            final(self).value() == mix(old(self).value(), bits64(n as int)),
    {
        proof {
            assert((n as u64) as int == bits64(n as int)) by (bit_vector);
        }
        self.write_bits(n as u64);
    }

    pub fn write_i64(&mut self, n: i64)
        requires
            mix(old(self).value(), bits64(n as int)) <= u64::MAX,
        ensures
            final(self).value() == mix(old(self).value(), bits64(n as int)),
    {
        proof {
            assert((n as u64) as int == bits64(n as int)) by (bit_vector);
        }
        self.write_bits(n as u64);
    }

    pub fn write_isize(&mut self, n: isize)
        requires
            mix(old(self).value(), bits64(n as int)) <= u64::MAX,
        ensures
            final(self).value() == mix(old(self).value(), bits64(n as int)),
    {
        proof {
            assert((n as u64) as int == bits64(n as int)) by (bit_vector);
        }
        self.write_bits(n as u64);
    }

    pub fn finish(&self) -> (r: u64)
        ensures
            r == self.value(),
    {
        self.state
    }
}

impl<T> Default for TupleIntHasher<T> {
    fn default() -> (r: Self)
        ensures
            r.value() == 0,
    {
        TupleIntHasher { state: 0, marker: PhantomData }
    }
}

/// Two small integers written in turn hash to `a * 2^16 + b`: the hash of a pair is
/// the pair itself, packed.
pub proof fn law_pair_hash(a: u64, b: u64)
    requires
        a < 0x1_0000_0000_0000,
        b < 0x1_0000,
    ensures
        mix(0, a as int) == a,
        mix(a, b as int) == a * 0x1_0000 + b,
        mix(a, b as int) <= u64::MAX,
{
    assert(a * 0x1_0000 < 0x1_0000_0000_0000_0000) by (nonlinear_arith)
        requires a < 0x1_0000_0000_0000;
}

/// The hash of `xs` written in turn into a fresh hasher.
pub open spec fn hash_of_writes(xs: Seq<u16>) -> int
    decreases xs.len(),
{
    if xs.len() == 0 {
        0
    } else {
        mix(hash_of_writes(xs.drop_last()) as u64, xs.last() as int)
    }
}

/// `xs` packed into one integer, 16 bits each, the first highest.
pub open spec fn packed(xs: Seq<u16>) -> int
    decreases xs.len(),
{
    if xs.len() == 0 {
        0
    } else {
        packed(xs.drop_last()) * 0x1_0000 + xs.last() as int
    }
}

/// `0x1_0000` to the power `k`.
pub open spec fn radix_pow(k: nat) -> int
    decreases k,
{
    if k == 0 { 1 } else { radix_pow((k - 1) as nat) * 0x1_0000 }
}

proof fn lemma_packed_bound(xs: Seq<u16>)
    ensures
        0 <= packed(xs) < radix_pow(xs.len()),
    decreases xs.len(),
{
    if xs.len() > 0 {
        lemma_packed_bound(xs.drop_last());
        let p = packed(xs.drop_last());
        let r = radix_pow((xs.len() - 1) as nat);
        assert(p * 0x1_0000 + xs.last() < r * 0x1_0000) by (nonlinear_arith)
            requires 0 <= p < r, 0 <= xs.last() < 0x1_0000;
    }
}

/// Up to four 16-bit integers written in turn into a fresh hasher hash to the integers packed
/// 16 bits each, with no write overflowing; so tuples of the same length hash alike only when
/// they are equal.
pub proof fn law_tuple_hash(xs: Seq<u16>, ys: Seq<u16>)
    requires
        xs.len() <= 4,
        ys.len() == xs.len(),
    ensures
        hash_of_writes(xs) == packed(xs),
        packed(xs) <= u64::MAX,
        hash_of_writes(xs) == hash_of_writes(ys) ==> xs == ys,
    decreases xs.len(),
{
    lemma_packed_bound(xs);
    lemma_packed_bound(ys);
    assert(radix_pow(0) == 1);
    assert(radix_pow(1) == 0x1_0000);
    assert(radix_pow(2) == 0x1_0000_0000);
    assert(radix_pow(3) == 0x1_0000_0000_0000);
    assert(radix_pow(4) == 0x1_0000_0000_0000_0000);
    if xs.len() > 0 {
        let (dx, dy) = (xs.drop_last(), ys.drop_last());
        law_tuple_hash(dx, dy);
        law_tuple_hash(dy, dx);
        lemma_packed_bound(dx);
        lemma_packed_bound(dy);
        let px = packed(dx);
        let py = packed(dy);
        assert(px < 0x1_0000_0000_0000 && py < 0x1_0000_0000_0000);
        assert((px * 0x1_0000) % 0x1_0000_0000_0000_0000 == px * 0x1_0000) by (nonlinear_arith)
            requires 0 <= px < 0x1_0000_0000_0000;
        assert((py * 0x1_0000) % 0x1_0000_0000_0000_0000 == py * 0x1_0000) by (nonlinear_arith)
            requires 0 <= py < 0x1_0000_0000_0000;
        assert((px as u64) as int == px);
        assert((py as u64) as int == py);
        assert(hash_of_writes(xs) == mix(px as u64, xs.last() as int));
        assert(hash_of_writes(ys) == mix(py as u64, ys.last() as int));
        assert(hash_of_writes(xs) == px * 0x1_0000 + xs.last());
        assert(hash_of_writes(ys) == py * 0x1_0000 + ys.last());
        if hash_of_writes(xs) == hash_of_writes(ys) {
            assert(px == py && xs.last() == ys.last()) by (nonlinear_arith)
                requires
                    px * 0x1_0000 + xs.last() == py * 0x1_0000 + ys.last(),
                    0 <= xs.last() < 0x1_0000,
                    0 <= ys.last() < 0x1_0000,
                    0 <= px, 0 <= py;
            assert(xs =~= dx.push(xs.last()));
            assert(ys =~= dy.push(ys.last()));
        }
    } else {
        assert(xs =~= ys);
    }
}

} // verus!
