//! Packed `0x00RRGGBB` pixels.
use vstd::prelude::*;

verus! {

/// The packed value of a pixel with the given channels.
pub open spec fn packed(r: u8, g: u8, b: u8) -> nat {
    (r as nat) * 65536 + (g as nat) * 256 + (b as nat)
}

/// Packs three 8-bit channels into one `0x00RRGGBB` word.
pub fn color(r: u8, g: u8, b: u8) -> (c: u32)
    ensures
        c as nat == packed(r, g, b),
{
    let c = (r as u32) << 16 | (g as u32) << 8 | (b as u32);
    assert(c == (r as u32) * 65536 + (g as u32) * 256 + (b as u32)) by (bit_vector)
        requires
            c == (r as u32) << 16 | (g as u32) << 8 | (b as u32),
    ;
    c
}

/// One sample's colour, as 8-bit red, green and blue.
pub type Rgb = (u8, u8, u8);

/// Channel `k` of a sample: 0 is red, 1 green, anything else blue.
pub open spec fn channel(c: Rgb, k: int) -> nat {
    if k == 0 {
        c.0 as nat
    } else if k == 1 {
        c.1 as nat
    } else {
        c.2 as nat
    }
}

/// Sum of channel `k` over a run of samples.
pub open spec fn channel_sum(s: Seq<Rgb>, k: int) -> nat
    decreases s.len(),
{
    if s.len() == 0 {
        0
    } else {
        channel_sum(s.drop_last(), k) + channel(s.last(), k)
    }
}

/// Channel `k` of the average of a non-empty run of samples, truncated.
pub open spec fn channel_mean(s: Seq<Rgb>, k: int) -> nat {
    channel_sum(s, k) / s.len()
}

/// The packed pixel that a non-empty run of samples averages to.
pub open spec fn averaged(s: Seq<Rgb>) -> nat {
    packed(channel_mean(s, 0) as u8, channel_mean(s, 1) as u8, channel_mean(s, 2) as u8)
}

proof fn lemma_channel_sum_bound(s: Seq<Rgb>, k: int)
    ensures
        channel_sum(s, k) <= 255 * s.len(),
    decreases s.len(),
{
    if s.len() > 0 {
        lemma_channel_sum_bound(s.drop_last(), k);
    }
}

proof fn lemma_mean_bound(sum: nat, n: nat)
    requires
        n > 0,
        sum <= 255 * n,
    ensures
        sum / n <= 255,
{
    assert(sum / n <= 255) by (nonlinear_arith)
        requires
            n > 0,
            sum <= 255 * n,
    ;
}

/// Averages `count` consecutive samples from `start` into one packed pixel:
/// each channel is summed and divided by `count`, truncating.
pub fn average_pixel(samples: &Vec<Rgb>, start: usize, count: u32) -> (c: u32)
    requires
        count > 0,
        start + count <= samples@.len(),
    ensures
        c as nat == averaged(samples@.subrange(start as int, start + count)),
{
    let ghost s = samples@;
    let mut sum_r: u64 = 0;
    let mut sum_g: u64 = 0;
    let mut sum_b: u64 = 0;
    let len = samples.len();
    assert(start + count <= len);
    let end = start + count as usize;
    let mut i: usize = start;
    while i < end
        invariant
            start <= i <= end,
            end == start + count,
            end <= s.len(),
            count <= u32::MAX,
            s == samples@,
            sum_r as nat == channel_sum(s.subrange(start as int, i as int), 0),
            sum_g as nat == channel_sum(s.subrange(start as int, i as int), 1),
            sum_b as nat == channel_sum(s.subrange(start as int, i as int), 2),
        decreases end - i,
    {
        proof {
            let run = s.subrange(start as int, i + 1);
            assert(i - start < count);
            assert(run.drop_last() =~= s.subrange(start as int, i as int));
            lemma_channel_sum_bound(s.subrange(start as int, i as int), 0);
            lemma_channel_sum_bound(s.subrange(start as int, i as int), 1);
            lemma_channel_sum_bound(s.subrange(start as int, i as int), 2);
            assert(s.subrange(start as int, i as int).len() == i - start);
        }
        let (r, g, b) = samples[i];
        sum_r = sum_r + r as u64;
        sum_g = sum_g + g as u64;
        sum_b = sum_b + b as u64;
        i = i + 1;
    }
    let ghost run = s.subrange(start as int, end as int);
    proof {
        lemma_channel_sum_bound(run, 0);
        lemma_channel_sum_bound(run, 1);
        lemma_channel_sum_bound(run, 2);
        lemma_mean_bound(sum_r as nat, count as nat);
        lemma_mean_bound(sum_g as nat, count as nat);
        lemma_mean_bound(sum_b as nat, count as nat);
    }
    let n = count as u64;
    color((sum_r / n) as u8, (sum_g / n) as u8, (sum_b / n) as u8)
}

/// Red channel of a packed pixel.
pub open spec fn red_of(c: u32) -> u8 {
    ((c as nat / 65536) % 256) as u8
}

/// Green channel of a packed pixel.
pub open spec fn green_of(c: u32) -> u8 {
    ((c as nat / 256) % 256) as u8
}

/// Blue channel of a packed pixel.
pub open spec fn blue_of(c: u32) -> u8 {
    (c as nat % 256) as u8
}

/// Lays packed pixels out as consecutive red, green and blue bytes, in the
/// order of the pixels, as an 8-bit RGB image encoder expects them.
pub fn rgb_bytes(pixels: &Vec<u32>) -> (bytes: Vec<u8>)
    requires
        3 * pixels@.len() <= usize::MAX,
    ensures
        bytes@.len() == 3 * pixels@.len(),
        forall|i: int|
            0 <= i < pixels@.len() ==> {
                &&& #[trigger] bytes@[3 * i] == red_of(pixels@[i])
                &&& bytes@[3 * i + 1] == green_of(pixels@[i])
                &&& bytes@[3 * i + 2] == blue_of(pixels@[i])
            },
{
    let mut bytes: Vec<u8> = Vec::with_capacity(3 * pixels.len());
    let mut i: usize = 0;
    while i < pixels.len()
        invariant
            i <= pixels@.len(),
            3 * pixels@.len() <= usize::MAX,
            bytes@.len() == 3 * i,
            forall|j: int|
                0 <= j < i ==> {
                    &&& #[trigger] bytes@[3 * j] == red_of(pixels@[j])
                    &&& bytes@[3 * j + 1] == green_of(pixels@[j])
                    &&& bytes@[3 * j + 2] == blue_of(pixels@[j])
                },
        decreases pixels@.len() - i,
    {
        let value = pixels[i];
        let r32 = (value & 0x00FF0000) >> 16;
        let g32 = (value & 0x0000FF00) >> 8;
        let b32 = value & 0x000000FF;
        assert(r32 < 256 && r32 == (value / 65536) % 256) by (bit_vector)
            requires
                r32 == (value & 0x00FF0000) >> 16,
        ;
        assert(g32 < 256 && g32 == (value / 256) % 256) by (bit_vector)
            requires
                g32 == (value & 0x0000FF00) >> 8,
        ;
        assert(b32 < 256 && b32 == value % 256) by (bit_vector)
            requires
                b32 == value & 0x000000FF,
        ;
        let ghost before = bytes@;
        bytes.push(r32 as u8);
        bytes.push(g32 as u8);
        bytes.push(b32 as u8);
        proof {
            assert forall|j: int| 0 <= j <= i implies {
                &&& #[trigger] bytes@[3 * j] == red_of(pixels@[j])
                &&& bytes@[3 * j + 1] == green_of(pixels@[j])
                &&& bytes@[3 * j + 2] == blue_of(pixels@[j])
            } by {
                if j < i {
                    assert(bytes@[3 * j] == before[3 * j]);
                    assert(bytes@[3 * j + 1] == before[3 * j + 1]);
                    assert(bytes@[3 * j + 2] == before[3 * j + 2]);
                }
            }
        }
        i = i + 1;
    }
    bytes
}

} // verus!
