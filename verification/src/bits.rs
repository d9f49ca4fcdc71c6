//! The 135-bit payload (128 data bits followed by 7 checksum bits), its three
//! 45-bit chunks, and the five dictionary indices inside each chunk.
//!
//! The payload is held as a `u128` data word and a checksum below 128; the
//! chunks are `u64` values below 2^45.
use vstd::arithmetic::div_mod::lemma_fundamental_div_mod_converse;
use vstd::prelude::*;

verus! {

/// 256 to the power `n`.
pub open spec fn pow256(n: nat) -> nat
    decreases n,
{
    if n == 0 {
        1
    } else {
        256 * pow256((n - 1) as nat)
    }
}

/// The unsigned big-endian value of the bytes `b`.
pub open spec fn be_value(b: Seq<u8>) -> nat
    decreases b.len(),
{
    if b.len() == 0 {
        0
    } else {
        be_value(b.drop_last()) * 256 + b.last() as nat
    }
}

/// The `n`-byte big-endian representation of `v` (high bytes dropped when
/// `v` does not fit).
pub open spec fn be_bytes(v: nat, n: nat) -> Seq<u8>
    decreases n,
{
    if n == 0 {
        Seq::empty()
    } else {
        be_bytes(v / 256, (n - 1) as nat).push((v % 256) as u8)
    }
}

/// The 135-bit payload: data shifted left by 7 bits, checksum in the low bits.
pub open spec fn payload(data: nat, checksum: nat) -> nat {
    data * 128 + checksum
}

/// 2^45, the number of distinct chunk values.
pub open spec fn chunk_modulus() -> nat {
    0x2000_0000_0000
}

/// Chunk `i` (0, 1 or 2) of the payload `n`, counting from the most
/// significant 45 bits.
pub open spec fn chunk_of(n: nat, i: int) -> nat {
    if i == 0 {
        (n / 0x400_0000_0000_0000_0000_0000) % 0x2000_0000_0000
    } else if i == 1 {
        (n / 0x2000_0000_0000) % 0x2000_0000_0000
    } else {
        n % 0x2000_0000_0000
    }
}

/// The payload whose chunks, most significant first, are `c0`, `c1`, `c2`.
pub open spec fn join_chunks(c0: nat, c1: nat, c2: nat) -> nat {
    c0 * 0x400_0000_0000_0000_0000_0000 + c1 * 0x2000_0000_0000 + c2
}

/// The number of entries in each of the five dictionaries, in sentence
/// order: character, setting, action, object, outcome.
pub open spec fn dictionary_sizes() -> Seq<int> {
    seq![1024int, 1024, 256, 512, 256]
}

/// The five indices held by a 45-bit chunk: 10, 10, 8, 9 and 8 bits, most
/// significant first.
pub open spec fn components(ch: nat) -> Seq<int> {
    seq![
        (ch / 0x8_0000_0000) as int,
        ((ch / 0x200_0000) % 1024) as int,
        ((ch / 0x2_0000) % 256) as int,
        ((ch / 0x100) % 512) as int,
        (ch % 256) as int,
    ]
}

/// The chunk that holds the five indices `t`.
pub open spec fn chunk_value(t: Seq<int>) -> int {
    t[0] * 0x8_0000_0000 + t[1] * 0x200_0000 + t[2] * 0x2_0000 + t[3] * 0x100 + t[4]
}

/// Whether `t` is five indices, each within its dictionary.
pub open spec fn indices_in_bounds(t: Seq<int>) -> bool {
    &&& t.len() == 5
    &&& forall|k: int| 0 <= k < 5 ==> 0 <= #[trigger] t[k] < dictionary_sizes()[k]
}

pub proof fn lemma_be_value_bound(b: Seq<u8>)
    ensures
        be_value(b) < pow256(b.len()),
    decreases b.len(),
{
    if b.len() > 0 {
        lemma_be_value_bound(b.drop_last());
        assert(pow256(b.len()) == 256 * pow256(b.drop_last().len()));
    }
}

/// Reading the big-endian bytes of a value back gives the value.
pub proof fn lemma_be_bytes_of_value(b: Seq<u8>)
    ensures
        be_bytes(be_value(b), b.len()) == b,
    decreases b.len(),
{
    if b.len() > 0 {
        let v = be_value(b);
        let p = be_value(b.drop_last());
        lemma_fundamental_div_mod_converse(v as int, 256, p as int, b.last() as int);
        lemma_be_bytes_of_value(b.drop_last());
        assert(be_bytes(v, b.len()) =~= b.drop_last().push(b.last()));
    }
}

/// The big-endian bytes of a value that fits read back as the value.
pub proof fn lemma_be_value_of_bytes(v: nat, n: nat)
    requires
        v < pow256(n),
    ensures
        be_value(be_bytes(v, n)) == v,
        be_bytes(v, n).len() == n,
    decreases n,
{
    if n > 0 {
        let q = v / 256;
        let r = v % 256;
        assert(q < pow256((n - 1) as nat)) by (nonlinear_arith)
            requires
                v < 256 * pow256((n - 1) as nat),
                q == v / 256,
        ;
        lemma_be_value_of_bytes(q, (n - 1) as nat);
        let s = be_bytes(v, n);
        assert(s.drop_last() =~= be_bytes(q, (n - 1) as nat));
        assert(v == q * 256 + r) by (nonlinear_arith)
            requires
                q == v / 256,
                r == v % 256,
        ;
    } else {
        assert(v == 0);
    }
}

/// The chunks of a joined payload are the chunks it was joined from.
pub proof fn lemma_chunks_of_join(c0: nat, c1: nat, c2: nat)
    requires
        c0 < chunk_modulus(),
        c1 < chunk_modulus(),
        c2 < chunk_modulus(),
    ensures
        chunk_of(join_chunks(c0, c1, c2), 0) == c0,
        chunk_of(join_chunks(c0, c1, c2), 1) == c1,
        chunk_of(join_chunks(c0, c1, c2), 2) == c2,
{
    let n = join_chunks(c0, c1, c2) as int;
    let m: int = 0x2000_0000_0000;
    let hi = c0 * m + c1;
    assert(n == hi * m + c2);
    lemma_fundamental_div_mod_converse(n, m, hi, c2 as int);
    lemma_fundamental_div_mod_converse(hi, m, c0 as int, c1 as int);
    assert(c1 * m + c2 < 0x400_0000_0000_0000_0000_0000) by (nonlinear_arith)
        requires
            c1 < m,
            c2 < m,
            m == 0x2000_0000_0000,
    ;
    lemma_fundamental_div_mod_converse(
        n,
        0x400_0000_0000_0000_0000_0000,
        c0 as int,
        c1 * m + c2,
    );
    lemma_fundamental_div_mod_converse(c0 as int, m, 0, c0 as int);
}

/// A payload below 2^135 is the join of its own chunks.
pub proof fn lemma_join_of_chunks(n: nat)
    requires
        n < 0x80_0000_0000_0000_0000_0000_0000_0000_0000,
    ensures
        join_chunks(chunk_of(n, 0), chunk_of(n, 1), chunk_of(n, 2)) == n,
        chunk_of(n, 0) < chunk_modulus(),
        chunk_of(n, 1) < chunk_modulus(),
        chunk_of(n, 2) < chunk_modulus(),
{
    let m: int = 0x2000_0000_0000;
    let q = n as int / m;
    let r = n as int % m;
    let q0 = q / m;
    let q1 = q % m;
    assert(n == q * m + r && 0 <= r < m) by (nonlinear_arith)
        requires
            q == n as int / m,
            r == n as int % m,
            m > 0,
    ;
    assert(q == q0 * m + q1 && 0 <= q1 < m) by (nonlinear_arith)
        requires
            q0 == q / m,
            q1 == q % m,
            m > 0,
    ;
    assert(0 <= q0 < m) by (nonlinear_arith)
        requires
            n < 0x80_0000_0000_0000_0000_0000_0000_0000_0000,
            n == q * m + r,
            q == q0 * m + q1,
            0 <= r < m,
            0 <= q1 < m,
            m == 0x2000_0000_0000,
    ;
    lemma_chunks_of_join(q0 as nat, q1 as nat, r as nat);
    assert(join_chunks(q0 as nat, q1 as nat, r as nat) == n);
}

/// The indices read from a chunk built from in-bounds indices are those
/// indices, and such a chunk is below 2^45.
pub proof fn lemma_components_of_chunk(t: Seq<int>)
    requires
        indices_in_bounds(t),
    ensures
        0 <= chunk_value(t) < chunk_modulus(),
        components(chunk_value(t) as nat) =~= t,
{
    let t0 = t[0] as u64;
    let t1 = t[1] as u64;
    let t2 = t[2] as u64;
    let t3 = t[3] as u64;
    let t4 = t[4] as u64;
    assert(t[0] < dictionary_sizes()[0]);
    assert(t[1] < dictionary_sizes()[1]);
    assert(t[2] < dictionary_sizes()[2]);
    assert(t[3] < dictionary_sizes()[3]);
    assert(t[4] < dictionary_sizes()[4]);
    assert({
        let ch = t0 * 0x8_0000_0000 + t1 * 0x200_0000 + t2 * 0x2_0000 + t3 * 0x100 + t4;
        &&& ch < 0x2000_0000_0000
        &&& ch / 0x8_0000_0000 == t0
        &&& (ch / 0x200_0000) % 1024 == t1
        &&& (ch / 0x2_0000) % 256 == t2
        &&& (ch / 0x100) % 512 == t3
        &&& ch % 256 == t4
    }) by (bit_vector)
        requires
            t0 < 1024,
            t1 < 1024,
            t2 < 256,
            t3 < 512,
            t4 < 256,
    ;
}

/// A chunk below 2^45 is rebuilt from its indices, which are in bounds.
pub proof fn lemma_chunk_of_components(ch: nat)
    requires
        ch < chunk_modulus(),
    ensures
        indices_in_bounds(components(ch)),
        chunk_value(components(ch)) == ch,
{
    let c = ch as u64;
    assert({
        &&& c / 0x8_0000_0000 < 1024
        &&& c == (c / 0x8_0000_0000) * 0x8_0000_0000 + ((c / 0x200_0000) % 1024) * 0x200_0000 + ((
        c / 0x2_0000) % 256) * 0x2_0000 + ((c / 0x100) % 512) * 0x100 + c % 256
    }) by (bit_vector)
        requires
            c < 0x2000_0000_0000,
    ;
    let t = components(ch);
    assert forall|k: int| 0 <= k < 5 implies 0 <= #[trigger] t[k] < dictionary_sizes()[k] by {}
}

/// Splits the payload `data * 128 + checksum` into its three chunks.
pub fn split_payload(data: u128, checksum: u8) -> (r: (u64, u64, u64))
    requires
        checksum < 128,
    ensures
        r.0 == chunk_of(payload(data as nat, checksum as nat), 0),
        r.1 == chunk_of(payload(data as nat, checksum as nat), 1),
        r.2 == chunk_of(payload(data as nat, checksum as nat), 2),
{
    let cs = checksum as u128;
    let hi = data >> 83u32;
    let mid = (data >> 38u32) & 0x1fff_ffff_ffffu128;
    let lo = ((data & 0x3f_ffff_ffffu128) << 7u32) | cs;
    assert({
        &&& hi < 0x2000_0000_0000
        &&& mid < 0x2000_0000_0000
        &&& lo < 0x2000_0000_0000
        &&& data * 128 + cs == hi * 0x400_0000_0000_0000_0000_0000 + mid * 0x2000_0000_0000 + lo
    }) by (bit_vector)
        requires
            cs < 128,
            hi == data >> 83u32,
            mid == (data >> 38u32) & 0x1fff_ffff_ffffu128,
            lo == ((data & 0x3f_ffff_ffffu128) << 7u32) | cs,
    ;
    proof {
        lemma_chunks_of_join(hi as nat, mid as nat, lo as nat);
    }
    (hi as u64, mid as u64, lo as u64)
}

/// Joins three chunks below 2^45 into a payload, returned as its data word
/// and its checksum.
pub fn join_payload(c0: u64, c1: u64, c2: u64) -> (r: (u128, u8))
    requires
        c0 < chunk_modulus(),
        c1 < chunk_modulus(),
        c2 < chunk_modulus(),
    ensures
        r.1 < 128,
        payload(r.0 as nat, r.1 as nat) == join_chunks(c0 as nat, c1 as nat, c2 as nat),
        r.0 == join_chunks(c0 as nat, c1 as nat, c2 as nat) / 128,
        r.1 == join_chunks(c0 as nat, c1 as nat, c2 as nat) % 128,
{
    let a = c0 as u128;
    let b = c1 as u128;
    let c = c2 as u128;
    let data = (a << 83u32) | (b << 38u32) | (c >> 7u32);
    let cs = c & 0x7f;
    assert({
        &&& cs < 128
        &&& data * 128 + cs == a * 0x400_0000_0000_0000_0000_0000 + b * 0x2000_0000_0000 + c
    }) by (bit_vector)
        requires
            a < 0x2000_0000_0000,
            b < 0x2000_0000_0000,
            c < 0x2000_0000_0000,
            data == (a << 83u32) | (b << 38u32) | (c >> 7u32),
            cs == c & 0x7f,
    ;
    proof {
        lemma_fundamental_div_mod_converse(
            join_chunks(c0 as nat, c1 as nat, c2 as nat) as int,
            128,
            data as int,
            cs as int,
        );
    }
    (data, cs as u8)
}

/// The five indices held by the chunk `ch`.
pub fn chunk_components(ch: u64) -> (r: (usize, usize, usize, usize, usize))
    requires
        ch < chunk_modulus(),
    ensures
        seq![r.0 as int, r.1 as int, r.2 as int, r.3 as int, r.4 as int] == components(ch as nat),
        indices_in_bounds(components(ch as nat)),
{
    let c = ch >> 35u32;
    let s = (ch >> 25u32) & 1023;
    let a = (ch >> 17u32) & 255;
    let o = (ch >> 8u32) & 511;
    let k = ch & 255;
    assert({
        &&& c == ch / 0x8_0000_0000
        &&& c < 1024
        &&& s == (ch / 0x200_0000) % 1024
        &&& a == (ch / 0x2_0000) % 256
        &&& o == (ch / 0x100) % 512
        &&& k == ch % 256
    }) by (bit_vector)
        requires
            ch < 0x2000_0000_0000,
            c == ch >> 35u32,
            s == (ch >> 25u32) & 1023,
            a == (ch >> 17u32) & 255,
            o == (ch >> 8u32) & 511,
            k == ch & 255,
    ;
    proof {
        lemma_chunk_of_components(ch as nat);
    }
    (c as usize, s as usize, a as usize, o as usize, k as usize)
}

/// The chunk holding the five in-bounds indices `t`.
pub fn chunk_from_components(t: (usize, usize, usize, usize, usize)) -> (r: u64)
    requires
        indices_in_bounds(seq![t.0 as int, t.1 as int, t.2 as int, t.3 as int, t.4 as int]),
    ensures
        r == chunk_value(seq![t.0 as int, t.1 as int, t.2 as int, t.3 as int, t.4 as int]),
        r < chunk_modulus(),
{
    let ghost ts = seq![t.0 as int, t.1 as int, t.2 as int, t.3 as int, t.4 as int];
    assert(ts[0] < 1024 && ts[1] < 1024 && ts[2] < 256 && ts[3] < 512 && ts[4] < 256) by {
        assert(ts[0] < dictionary_sizes()[0]);
        assert(ts[1] < dictionary_sizes()[1]);
        assert(ts[2] < dictionary_sizes()[2]);
        assert(ts[3] < dictionary_sizes()[3]);
        assert(ts[4] < dictionary_sizes()[4]);
    }
    let c = t.0 as u64;
    let s = t.1 as u64;
    let a = t.2 as u64;
    let o = t.3 as u64;
    let k = t.4 as u64;
    let r = (c << 35u32) | (s << 25u32) | (a << 17u32) | (o << 8u32) | k;
    assert({
        &&& r == c * 0x8_0000_0000 + s * 0x200_0000 + a * 0x2_0000 + o * 0x100 + k
        &&& r < 0x2000_0000_0000
    }) by (bit_vector)
        requires
            c < 1024,
            s < 1024,
            a < 256,
            o < 512,
            k < 256,
            r == (c << 35u32) | (s << 25u32) | (a << 17u32) | (o << 8u32) | k,
    ;
    r
}

/// The 16-byte big-endian representation of `v`.
pub fn u128_to_be_bytes(v: u128) -> (r: Vec<u8>)
    ensures
        r@ == be_bytes(v as nat, 16),
{
    let mut out: Vec<u8> = vec![0u8; 16];
    let mut x = v;
    let mut k: usize = 0;
    assert(be_bytes(v as nat, 16) =~= be_bytes(x as nat, 16) + out@.subrange(16, 16));
    while k < 16
        invariant
            k <= 16,
            out@.len() == 16,
            be_bytes(v as nat, 16) == be_bytes(x as nat, (16 - k) as nat) + out@.subrange(
                16 - k,
                16,
            ),
        decreases 16 - k,
    {
        let ghost old_out = out@;
        let ghost xx = x as nat;
        let byte = (x % 256) as u8;
        out.set(15 - k, byte);
        x = x / 256;
        proof {
            let m = (16 - k) as nat;
            assert(be_bytes(xx, m) == be_bytes(xx / 256, (m - 1) as nat).push((xx % 256) as u8));
            assert(out@.subrange(16 - (k + 1), 16) =~= seq![byte] + old_out.subrange(16 - k, 16));
            assert(be_bytes(xx, m) + old_out.subrange(16 - k, 16) =~= be_bytes(
                x as nat,
                (m - 1) as nat,
            ) + out@.subrange(16 - (k + 1), 16));
        }
        k = k + 1;
    }
    assert(be_bytes(x as nat, 0) =~= Seq::<u8>::empty());
    assert(out@.subrange(0, 16) =~= out@);
    out
}

/// The unsigned big-endian value of at most 16 bytes.
pub fn be_bytes_to_u128(b: &[u8]) -> (r: u128)
    requires
        b@.len() <= 16,
    ensures
        r == be_value(b@),
{
    let n = b.len();
    let mut acc: u128 = 0;
    let mut i: usize = 0;
    assert(b@.take(0) =~= Seq::<u8>::empty());
    while i < n
        invariant
            n == b@.len() <= 16,
            i <= n,
            acc == be_value(b@.take(i as int)),
        decreases n - i,
    {
        proof {
            lemma_be_value_bound(b@.take(i as int));
            assert(pow256(15) == 0x0100_0000_0000_0000_0000_0000_0000_0000) by {
                reveal_with_fuel(pow256, 16);
            }
            lemma_pow256_mono(i as nat, 15);
            assert(b@.take(i + 1).drop_last() =~= b@.take(i as int));
        }
        acc = acc * 256 + b[i] as u128;
        i = i + 1;
    }
    assert(b@.take(n as int) =~= b@);
    acc
}

proof fn lemma_pow256_mono(a: nat, b: nat)
    requires
        a <= b,
    ensures
        pow256(a) <= pow256(b),
    decreases b,
{
    if a < b {
        lemma_pow256_mono(a, (b - 1) as nat);
        assert(pow256(b) == 256 * pow256((b - 1) as nat));
    }
}

} // verus!
