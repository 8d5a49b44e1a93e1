use vstd::prelude::*;

verus! {

/// The `k` low bytes of `x`, least significant first.
pub open spec fn le_bytes(x: nat, k: nat) -> Seq<u8>
    decreases k,
{
    if k == 0 {
        Seq::empty()
    } else {
        seq![(x % 256) as u8] + le_bytes(x / 256, (k - 1) as nat)
    }
}

/// The number that little-endian bytes `s` spell.
pub open spec fn le_value(s: Seq<u8>) -> nat
    decreases s.len(),
{
    if s.len() == 0 {
        0
    } else {
        s[0] as nat + 256 * le_value(s.drop_first())
    }
}

/// 256 to the power `k`.
pub open spec fn byte_base(k: nat) -> nat
    decreases k,
{
    if k == 0 {
        1
    } else {
        256 * byte_base((k - 1) as nat)
    }
}

/// Encoding `k` bytes has `k` of them, and reading them back gives `x`
/// modulo 256^k.
pub proof fn lemma_le_roundtrip(x: nat, k: nat)
    ensures
        le_bytes(x, k).len() == k,
        le_value(le_bytes(x, k)) == x % byte_base(k),
    decreases k,
{
    if k > 0 {
        lemma_le_roundtrip(x / 256, (k - 1) as nat);
        let s = le_bytes(x, k);
        assert(s.drop_first() =~= le_bytes(x / 256, (k - 1) as nat));
        let b = byte_base((k - 1) as nat);
        assert(b > 0) by {
            lemma_byte_base_pos((k - 1) as nat);
        }
        assert((x % 256) + 256 * ((x / 256) % b) == x % (256 * b)) by {
            vstd::arithmetic::div_mod::lemma_breakdown(x as int, 256, b as int);
        }
    }
}

proof fn lemma_byte_base_pos(k: nat)
    ensures
        byte_base(k) > 0,
    decreases k,
{
    if k > 0 {
        lemma_byte_base_pos((k - 1) as nat);
    }
}

/// Writes the `k` low bytes of `x`, least significant first.
fn push_le(out: &mut Vec<u8>, x: u64, k: usize)
    requires
        k <= 8,
        old(out)@.len() + k <= usize::MAX,
    ensures
        final(out)@ == old(out)@ + le_bytes(x as nat, k as nat),
        final(out)@.len() == old(out)@.len() + k,
{
    let mut v = x;
    let mut i: usize = 0;
    while i < k
        invariant
            0 <= i <= k,
            k <= 8,
            old(out)@.len() + k <= usize::MAX,
            out@.len() == old(out)@.len() + i,
            old(out)@ + le_bytes(x as nat, k as nat) == out@ + le_bytes(v as nat, (k - i) as nat),
        decreases k - i,
    {
        let ghost before = out@;
        out.push((v % 256) as u8);
        proof {
            let rest = le_bytes(v as nat, (k - i) as nat);
            assert(rest == seq![(v as nat % 256) as u8] + le_bytes(v as nat / 256, (k - i - 1) as nat));
            assert(out@ + le_bytes((v / 256) as nat, (k - i - 1) as nat) =~= before + rest);
        }
        v = v / 256;
        i += 1;
    }
    proof {
        assert(out@ + le_bytes(v as nat, 0) =~= out@);
    }
}

/// Appends `src` to `out`.
fn push_all(out: &mut Vec<u8>, src: &[u8])
    requires
        old(out)@.len() + src@.len() <= usize::MAX,
    ensures
        final(out)@ == old(out)@ + src@,
{
    let mut i: usize = 0;
    while i < src.len()
        invariant
            0 <= i <= src@.len(),
            old(out)@.len() + src@.len() <= usize::MAX,
            out@ == old(out)@ + src@.take(i as int),
        decreases src@.len() - i,
    {
        out.push(src[i]);
        proof {
            assert(src@.take(i + 1) =~= src@.take(i as int).push(src@[i as int]));
        }
        i += 1;
    }
    proof {
        assert(src@.take(src@.len() as int) =~= src@);
    }
}

/// The statistics a frame carries after the fields. Each `*_bits` is the
/// IEEE-754 bit pattern of a single-precision value.
pub struct FrameStats {
    pub total_energy_bits: u32,
    pub plus_fraction_bits: u32,
    pub minus_fraction_bits: u32,
    pub neutral_fraction_bits: u32,
    pub domain_wall_edges: u32,
    pub symmetry_broken: bool,
    pub max_stability: u32,
    pub kinetic_fraction_bits: u32,
    pub energy_variance_bits: u32,
}

/// Bytes before the field data.
pub const HEADER_LEN: usize = 16;

/// Bytes after the field data.
pub const STATS_LEN: usize = 33;

/// The statistics block.
pub open spec fn stats_bytes(s: FrameStats) -> Seq<u8> {
    le_bytes(s.total_energy_bits as nat, 4) + le_bytes(s.plus_fraction_bits as nat, 4)
        + le_bytes(s.minus_fraction_bits as nat, 4) + le_bytes(s.neutral_fraction_bits as nat, 4)
        + le_bytes(s.domain_wall_edges as nat, 4) + seq![if s.symmetry_broken { 1u8 } else { 0u8 }]
        + le_bytes(s.max_stability as nat, 4) + le_bytes(s.kinetic_fraction_bits as nat, 4)
        + le_bytes(s.energy_variance_bits as nat, 4)
}

/// A whole frame: tick, width and height little-endian, the three quantized
/// fields one byte per node, then the statistics.
pub open spec fn frame_bytes(
    tick: u64,
    width: u32,
    height: u32,
    psi: Seq<u8>,
    chi: Seq<u8>,
    omega: Seq<u8>,
    stats: FrameStats,
) -> Seq<u8> {
    le_bytes(tick as nat, 8) + le_bytes(width as nat, 4) + le_bytes(height as nat, 4) + psi + chi + omega
        + stats_bytes(stats)
}

/// Lays out one frame for the browser.
pub fn encode_frame(
    tick: u64,
    width: u32,
    height: u32,
    psi: &[u8],
    chi: &[u8],
    omega: &[u8],
    stats: &FrameStats,
) -> (frame: Vec<u8>)
    requires
        psi@.len() == chi@.len(),
        psi@.len() == omega@.len(),
        HEADER_LEN + 3 * psi@.len() + STATS_LEN <= usize::MAX,
    ensures
        frame@ == frame_bytes(tick, width, height, psi@, chi@, omega@, *stats),
{
    let mut out: Vec<u8> = Vec::new();
    proof {
        lemma_le_roundtrip(tick as nat, 8);
        lemma_le_roundtrip(width as nat, 4);
        lemma_le_roundtrip(height as nat, 4);
    }
    push_le(&mut out, tick, 8);
    push_le(&mut out, width as u64, 4);
    push_le(&mut out, height as u64, 4);
    push_all(&mut out, psi);
    push_all(&mut out, chi);
    push_all(&mut out, omega);
    push_le(&mut out, stats.total_energy_bits as u64, 4);
    push_le(&mut out, stats.plus_fraction_bits as u64, 4);
    push_le(&mut out, stats.minus_fraction_bits as u64, 4);
    push_le(&mut out, stats.neutral_fraction_bits as u64, 4);
    push_le(&mut out, stats.domain_wall_edges as u64, 4);
    out.push(if stats.symmetry_broken { 1u8 } else { 0u8 });
    push_le(&mut out, stats.max_stability as u64, 4);
    push_le(&mut out, stats.kinetic_fraction_bits as u64, 4);
    push_le(&mut out, stats.energy_variance_bits as u64, 4);
    proof {
        assert(out@ =~= frame_bytes(tick, width, height, psi@, chi@, omega@, *stats));
    }
    out
}

/// Reading a frame back: its length, where each field lies, and that the
/// little-endian words read back as the values written.
pub proof fn lemma_frame_readback(
    tick: u64,
    width: u32,
    height: u32,
    psi: Seq<u8>,
    chi: Seq<u8>,
    omega: Seq<u8>,
    stats: FrameStats,
)
    requires
        psi.len() == chi.len(),
        psi.len() == omega.len(),
    ensures
        ({
            let f = frame_bytes(tick, width, height, psi, chi, omega, stats);
            let n = psi.len() as int;
            let so = HEADER_LEN + 3 * n;
            &&& f.len() == HEADER_LEN + 3 * n + STATS_LEN
            &&& le_value(f.subrange(0, 8)) == tick
            &&& le_value(f.subrange(8, 12)) == width
            &&& le_value(f.subrange(12, 16)) == height
            &&& f.subrange(16, 16 + n) == psi
            &&& f.subrange(16 + n, 16 + 2 * n) == chi
            &&& f.subrange(16 + 2 * n, 16 + 3 * n) == omega
            &&& le_value(f.subrange(so, so + 4)) == stats.total_energy_bits
            &&& le_value(f.subrange(so + 4, so + 8)) == stats.plus_fraction_bits
            &&& le_value(f.subrange(so + 8, so + 12)) == stats.minus_fraction_bits
            &&& le_value(f.subrange(so + 12, so + 16)) == stats.neutral_fraction_bits
            &&& le_value(f.subrange(so + 16, so + 20)) == stats.domain_wall_edges
            &&& f[so + 20] == if stats.symmetry_broken { 1u8 } else { 0u8 }
            &&& le_value(f.subrange(so + 21, so + 25)) == stats.max_stability
            &&& le_value(f.subrange(so + 25, so + 29)) == stats.kinetic_fraction_bits
            &&& le_value(f.subrange(so + 29, so + 33)) == stats.energy_variance_bits
        }),
{
    reveal_with_fuel(byte_base, 9);
    assert(byte_base(4) == 0x1_0000_0000);
    assert(byte_base(8) == 0x1_0000_0000_0000_0000);
    lemma_le_roundtrip(tick as nat, 8);
    lemma_le_roundtrip(width as nat, 4);
    lemma_le_roundtrip(height as nat, 4);
    lemma_le_roundtrip(stats.total_energy_bits as nat, 4);
    lemma_le_roundtrip(stats.plus_fraction_bits as nat, 4);
    lemma_le_roundtrip(stats.minus_fraction_bits as nat, 4);
    lemma_le_roundtrip(stats.neutral_fraction_bits as nat, 4);
    lemma_le_roundtrip(stats.domain_wall_edges as nat, 4);
    lemma_le_roundtrip(stats.max_stability as nat, 4);
    lemma_le_roundtrip(stats.kinetic_fraction_bits as nat, 4);
    lemma_le_roundtrip(stats.energy_variance_bits as nat, 4);
    let f = frame_bytes(tick, width, height, psi, chi, omega, stats);
    let n = psi.len() as int;
    let so = 16 + 3 * n;
    assert(f.subrange(0, 8) =~= le_bytes(tick as nat, 8));
    assert(f.subrange(8, 12) =~= le_bytes(width as nat, 4));
    assert(f.subrange(12, 16) =~= le_bytes(height as nat, 4));
    assert(f.subrange(16, 16 + n) =~= psi);
    assert(f.subrange(16 + n, 16 + 2 * n) =~= chi);
    assert(f.subrange(16 + 2 * n, 16 + 3 * n) =~= omega);
    assert(f.subrange(so, so + 4) =~= le_bytes(stats.total_energy_bits as nat, 4));
    assert(f.subrange(so + 4, so + 8) =~= le_bytes(stats.plus_fraction_bits as nat, 4));
    assert(f.subrange(so + 8, so + 12) =~= le_bytes(stats.minus_fraction_bits as nat, 4));
    assert(f.subrange(so + 12, so + 16) =~= le_bytes(stats.neutral_fraction_bits as nat, 4));
    assert(f.subrange(so + 16, so + 20) =~= le_bytes(stats.domain_wall_edges as nat, 4));
    assert(f.subrange(so + 21, so + 25) =~= le_bytes(stats.max_stability as nat, 4));
    assert(f.subrange(so + 25, so + 29) =~= le_bytes(stats.kinetic_fraction_bits as nat, 4));
    assert(f.subrange(so + 29, so + 33) =~= le_bytes(stats.energy_variance_bits as nat, 4));
}

} // verus!
