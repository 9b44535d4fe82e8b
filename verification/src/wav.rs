//! The WAV container around 16-bit mono PCM samples.
use vstd::prelude::*;

verus! {

/// The `n` lowest bytes of `v`, lowest first.
pub open spec fn le_bytes(v: nat, n: nat) -> Seq<u8>
    decreases n,
{
    if n == 0 {
        seq![]
    } else {
        seq![(v % 256) as u8] + le_bytes(v / 256, (n - 1) as nat)
    }
}

/// The 16-bit two's-complement word of a sample.
pub open spec fn sample_word(s: i16) -> nat {
    if s < 0 {
        (s + 65536) as nat
    } else {
        s as nat
    }
}

/// The samples as little-endian 16-bit words, in order.
pub open spec fn pcm_bytes(s: Seq<i16>) -> Seq<u8>
    decreases s.len(),
{
    if s.len() == 0 {
        seq![]
    } else {
        pcm_bytes(s.drop_last()) + le_bytes(sample_word(s.last()), 2)
    }
}

/// The 44-byte header of a mono, 16-bit PCM WAV file with `n` data bytes at
/// `rate` samples per second: "RIFF", the size of what follows, "WAVE", a
/// 16-byte "fmt " chunk (PCM, one channel, the rate, the byte rate, block
/// align 2, 16 bits) and the "data" chunk's size.
pub open spec fn wav_header(n: nat, rate: nat) -> Seq<u8> {
    seq![82u8, 73u8, 70u8, 70u8] + le_bytes(36 + n, 4) + seq![87u8, 65u8, 86u8, 69u8, 102u8, 109u8, 116u8, 32u8]
        + le_bytes(16, 4) + le_bytes(1, 2) + le_bytes(1, 2) + le_bytes(rate, 4) + le_bytes(rate * 2, 4) + le_bytes(2, 2)
        + le_bytes(16, 2) + seq![100u8, 97u8, 116u8, 97u8] + le_bytes(n, 4)
}

/// A complete WAV file holding `samples` at `rate` samples per second.
pub open spec fn wav_file(samples: Seq<i16>, rate: nat) -> Seq<u8> {
    wav_header(2 * samples.len(), rate) + pcm_bytes(samples)
}

/// Appends the `n` lowest bytes of `v`, lowest first.
fn push_le(out: &mut Vec<u8>, v: u32, n: usize)
    requires
        n <= 4,
    ensures
        final(out)@ == old(out)@ + le_bytes(v as nat, n as nat),
    decreases n,
{
    if n > 0 {
        let ghost o0 = out@;
        out.push((v % 256) as u8);
        push_le(out, v / 256, n - 1);
        assert(out@ =~= o0 + le_bytes(v as nat, n as nat));
    } else {
        assert(out@ =~= old(out)@ + le_bytes(v as nat, n as nat));
    }
}

/// Appends the given bytes.
fn push_all(out: &mut Vec<u8>, bytes: &[u8])
    ensures
        final(out)@ == old(out)@ + bytes@,
{
    let mut i: usize = 0;
    while i < bytes.len()
        invariant
            i <= bytes@.len(),
            out@ == old(out)@ + bytes@.take(i as int),
        decreases bytes@.len() - i,
    {
        out.push(bytes[i]);
        assert(bytes@.take(i + 1) =~= bytes@.take(i as int).push(bytes@[i as int]));
        i += 1;
    }
    assert(bytes@.take(bytes@.len() as int) =~= bytes@);
}

/// The WAV file holding `samples` (16-bit mono PCM) at `rate` samples per
/// second.
pub fn wav_bytes(samples: &[i16], rate: u32) -> (r: Vec<u8>)
    requires
        36 + 2 * samples@.len() <= u32::MAX,
        2 * rate <= u32::MAX,
    ensures
        r@ == wav_file(samples@, rate as nat),
{
    let n: u32 = (samples.len() as u32) * 2;
    let mut w: Vec<u8> = Vec::new();
    push_all(&mut w, &[82u8, 73u8, 70u8, 70u8]);
    push_le(&mut w, 36 + n, 4);
    push_all(&mut w, &[87u8, 65u8, 86u8, 69u8, 102u8, 109u8, 116u8, 32u8]);
    push_le(&mut w, 16, 4);
    push_le(&mut w, 1, 2);
    push_le(&mut w, 1, 2);
    push_le(&mut w, rate, 4);
    push_le(&mut w, rate * 2, 4);
    push_le(&mut w, 2, 2);
    push_le(&mut w, 16, 2);
    push_all(&mut w, &[100u8, 97u8, 116u8, 97u8]);
    push_le(&mut w, n, 4);
    let ghost head = w@;
    proof {
        assert(head =~= wav_header(2 * samples@.len(), rate as nat));
    }
    let mut i: usize = 0;
    while i < samples.len()
        invariant
            i <= samples@.len(),
            head == wav_header(2 * samples@.len(), rate as nat),
            w@ == head + pcm_bytes(samples@.take(i as int)),
        decreases samples@.len() - i,
    {
        let s = samples[i];
        let word: u32 = if s < 0 {
            (s as i32 + 65536) as u32
        } else {
            s as u32
        };
        let ghost wb = w@;
        push_le(&mut w, word, 2);
        proof {
            assert(samples@.take(i + 1).drop_last() =~= samples@.take(i as int));
            assert(w@ =~= head + pcm_bytes(samples@.take(i + 1)));
        }
        i += 1;
    }
    proof {
        assert(samples@.take(samples@.len() as int) =~= samples@);
    }
    w
}

} // verus!
