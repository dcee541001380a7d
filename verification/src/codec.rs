use vstd::prelude::*;

verus! {

pub open spec fn pow256(n: int) -> int
    decreases n,
{
    if n <= 0 {
        1
    } else {
        256 * pow256(n - 1)
    }
}

/// `n` little-endian bytes of `v`.
pub open spec fn le_bytes_of(v: int, n: int) -> Seq<u8>
    decreases n,
{
    if n <= 0 {
        Seq::empty()
    } else {
        seq![(v % 256) as u8] + le_bytes_of(v / 256, n - 1)
    }
}

/// The unsigned number the little-endian bytes `s` hold.
pub open spec fn le_value(s: Seq<u8>) -> int
    decreases s.len(),
{
    if s.len() == 0 {
        0
    } else {
        s[0] + 256 * le_value(s.skip(1))
    }
}

/// Two's-complement reading of the unsigned value `u` in `n` bytes.
pub open spec fn sign_of(u: int, n: int) -> int {
    if u >= pow256(n) / 2 {
        u - pow256(n)
    } else {
        u
    }
}

pub proof fn lemma_pow256_pos(n: int)
    ensures
        pow256(n) >= 1,
    decreases (if n < 0 { 0 } else { n }),
{
    if n > 0 {
        lemma_pow256_pos(n - 1);
    }
}

/// The powers of 256 up to a word, evaluated once for every caller that
/// bounds byte-width arithmetic.
pub proof fn lemma_pow256_values()
    ensures
        pow256(0) == 1,
        pow256(1) == 0x100,
        pow256(2) == 0x10000,
        pow256(3) == 0x1000000,
        pow256(4) == 0x100000000,
        pow256(5) == 0x10000000000,
        pow256(6) == 0x1000000000000,
        pow256(7) == 0x100000000000000,
        pow256(8) == 0x10000000000000000,
{
    assert(pow256(0) == 1);
    assert(pow256(1) == 0x100);
    assert(pow256(2) == 0x10000);
    assert(pow256(3) == 0x1000000);
    assert(pow256(4) == 0x100000000);
    assert(pow256(5) == 0x10000000000);
    assert(pow256(6) == 0x1000000000000);
    assert(pow256(7) == 0x100000000000000);
    assert(pow256(8) == 0x10000000000000000);
}

/// Encoding then decoding hands the value back: the law behind the
/// `set`-then-`print` round trip for every scalar width.
pub proof fn lemma_le_roundtrip(v: int, n: int)
    requires
        0 <= v < pow256(n),
    ensures
        le_value(le_bytes_of(v, n)) == v,
    decreases (if n < 0 { 0 } else { n }),
{
    if n <= 0 {
    } else {
        lemma_pow256_pos(n - 1);
        lemma_le_roundtrip(v / 256, n - 1);
        let s = le_bytes_of(v, n);
        assert(s.skip(1) =~= le_bytes_of(v / 256, n - 1));
        assert(v / 256 < pow256(n - 1)) by (nonlinear_arith)
            requires
                0 <= v < 256 * pow256(n - 1),
        {}
        assert(s[0] == v % 256);
        assert(le_value(s) == v % 256 + 256 * (v / 256));
    }
}

pub proof fn lemma_le_value_bound(s: Seq<u8>)
    ensures
        0 <= le_value(s) < pow256(s.len() as int),
    decreases s.len(),
{
    if s.len() > 0 {
        lemma_le_value_bound(s.skip(1));
        assert(le_value(s) == s[0] + 256 * le_value(s.skip(1)));
        assert(s[0] < 256);
        assert(pow256(s.len() as int) == 256 * pow256(s.len() - 1));
    }
}

/// The `size` low bytes of `v`, little endian.
#[verifier::loop_isolation(false)]
pub fn encode_u64_le(v: u64, size: usize) -> (r: Vec<u8>)
    requires
        size <= 8,
        (v as int) < pow256(size as int),
    ensures
        r@ == le_bytes_of(v as int, size as int),
        r@.len() == size,
        le_value(r@) == v as int,
{
    let mut r: Vec<u8> = Vec::new();
    let mut x = v;
    let mut i: usize = 0;
    while i < size
        invariant
            i <= size,
            r@.len() == i,
            le_bytes_of(v as int, size as int) == r@ + le_bytes_of(x as int, (size - i) as int),
            x as int == (v as int) / pow256(i as int),
        decreases size - i,
    {
        let b = (x % 256) as u8;
        proof {
            lemma_pow256_pos(i as int);
            let rest = le_bytes_of(x as int, (size - i) as int);
            assert(rest == seq![(x as int % 256) as u8] + le_bytes_of(
                x as int / 256,
                (size - i - 1) as int,
            ));
            assert(r@ + rest =~= (r@ + seq![b]) + le_bytes_of(
                x as int / 256,
                (size - i - 1) as int,
            ));
            assert((v as int) / pow256(i as int) / 256 == (v as int) / pow256(i + 1)) by (
            nonlinear_arith)
                requires
                    pow256(i + 1) == 256 * pow256(i as int),
                    v >= 0,
                    pow256(i as int) >= 1,
            {}
            assert(pow256(i + 1) == 256 * pow256(i as int));
        }
        r.push(b);
        x = x / 256;
        i = i + 1;
    }
    proof {
        assert(le_bytes_of(x as int, 0) =~= Seq::<u8>::empty());
        assert(r@ + Seq::<u8>::empty() =~= r@);
        lemma_le_roundtrip(v as int, size as int);
    }
    r
}

/// The unsigned value of `size` bytes at `offset` in `buf`.
#[verifier::loop_isolation(false)]
pub fn decode_u64_le(buf: &Vec<u8>, offset: usize, size: usize) -> (r: u64)
    requires
        size <= 8,
        offset + size <= buf@.len(),
    ensures
        r as int == le_value(buf@.subrange(offset as int, offset + size)),
{
    let n = buf.len();
    proof {
        assert(offset + size <= n);
    }
    let mut r: u64 = 0;
    let mut i: usize = size;
    proof {
        lemma_le_value_bound(buf@.subrange(offset as int, offset + size));
    }
    while i > 0
        invariant
            i <= size,
            r as int == le_value(buf@.subrange(offset + i, offset + size)),
            (r as int) < pow256((size - i) as int),
        decreases i,
    {
        i = i - 1;
        let b = buf[offset + i];
        proof {
            let s = buf@.subrange(offset + i, offset + size);
            assert(s[0] == b);
            assert(s.skip(1) =~= buf@.subrange(offset + i + 1, offset + size));
            assert(le_value(s) == b + 256 * le_value(s.skip(1)));
            assert(256 * (r as int) + b < pow256((size - i) as int)) by (nonlinear_arith)
                requires
                    (r as int) < pow256((size - i - 1) as int),
                    pow256((size - i) as int) == 256 * pow256((size - i - 1) as int),
                    b < 256,
                    r >= 0,
            {}
            assert(pow256((size - i) as int) == 256 * pow256((size - i - 1) as int));
            lemma_pow256_values();
            lemma_pow256_mono((size - i) as int, 8);
        }
        r = r * 256 + (b as u64);
    }
    proof {
        assert(buf@.subrange(offset as int, offset + size) == buf@.subrange(
            offset + 0,
            offset + size,
        ));
    }
    r
}

/// Decoding then encoding hands the bytes back.
pub proof fn lemma_le_bytes_roundtrip(s: Seq<u8>)
    ensures
        le_bytes_of(le_value(s), s.len() as int) == s,
    decreases s.len(),
{
    if s.len() > 0 {
        lemma_le_bytes_roundtrip(s.skip(1));
        lemma_le_value_bound(s.skip(1));
        let v = le_value(s);
        assert(v == s[0] + 256 * le_value(s.skip(1)));
        assert(v % 256 == s[0] && v / 256 == le_value(s.skip(1))) by (nonlinear_arith)
            requires
                v == s[0] + 256 * le_value(s.skip(1)),
                0 <= s[0] < 256,
                le_value(s.skip(1)) >= 0,
        {}
        assert(le_bytes_of(v, s.len() as int) == seq![(v % 256) as u8] + le_bytes_of(
            v / 256,
            s.len() - 1,
        ));
        assert(le_bytes_of(v, s.len() as int) =~= s);
    }
}

pub proof fn lemma_pow256_mono(a: int, b: int)
    requires
        a <= b,
    ensures
        pow256(a) <= pow256(b),
    decreases b - a,
{
    if a < b && b > 0 {
        lemma_pow256_mono(a, b - 1);
        lemma_pow256_pos(b - 1);
        assert(pow256(b) == 256 * pow256(b - 1));
    }
}

/// The signed value of `size` bytes at `offset` in `buf`, two's
/// complement.
pub fn decode_i64_le(buf: &Vec<u8>, offset: usize, size: usize) -> (r: i64)
    requires
        1 <= size <= 8,
        offset + size <= buf@.len(),
    ensures
        r as int == sign_of(le_value(buf@.subrange(offset as int, offset + size)), size as int),
{
    let u = decode_u64_le(buf, offset, size);
    proof {
        lemma_le_value_bound(buf@.subrange(offset as int, offset + size));
        lemma_pow256_values();
    }
    if size == 8 {
        if u >= 0x8000000000000000 {
            // u - 2^64, computed without leaving the i64 range
            -((u64::MAX - u) as i64) - 1
        } else {
            u as i64
        }
    } else {
        let full: u64 = match size {
            1 => 0x100,
            2 => 0x10000,
            3 => 0x1000000,
            4 => 0x100000000,
            5 => 0x10000000000,
            6 => 0x1000000000000,
            _ => 0x100000000000000,
        };
        let half = full / 2;
        if u >= half {
            (u as i64) - (full as i64)
        } else {
            u as i64
        }
    }
}

/// Encode a signed value into `size` bytes, two's complement.
pub fn encode_i64_le(v: i64, size: usize) -> (r: Vec<u8>)
    requires
        1 <= size <= 8,
        -(pow256(size as int) / 2) <= (v as int) && (v as int) < pow256(size as int) / 2,
    ensures
        r@.len() == size,
        sign_of(le_value(r@), size as int) == v as int,
{
    proof {
        lemma_pow256_values();
    }
    let u: u64 = if v >= 0 {
        v as u64
    } else if size == 8 {
        // v + 2^64, computed without leaving the u64 range
        let m = (-(v + 1)) as u64;
        u64::MAX - m
    } else {
        let full: u64 = match size {
            1 => 0x100,
            2 => 0x10000,
            3 => 0x1000000,
            4 => 0x100000000,
            5 => 0x10000000000,
            6 => 0x1000000000000,
            _ => 0x100000000000000,
        };
        ((full as i64) + v) as u64
    };
    let r = encode_u64_le(u, size);
    r
}

} // verus!
