//! The entropy profile: the buffer is partitioned into about a thousand
//! chunks and a 256-bucket byte-value histogram is computed for each. The
//! external presentation layer derives the Shannon entropy of each chunk
//! from its histogram; this component computes the chunking and the
//! histograms.
//!
//! Chunking policy: the chunk size is the buffer length divided by the
//! target chunk count, raised to one byte for shorter buffers so the
//! division never degenerates; the bytes after the last full chunk form a
//! final shorter chunk.
use vstd::prelude::*;

use vstd::arithmetic::div_mod::lemma_fundamental_div_mod;
use vstd::arithmetic::div_mod::lemma_fundamental_div_mod_converse;
use vstd::arithmetic::div_mod::lemma_mod_bound;
use vstd::arithmetic::mul::lemma_mul_inequality;

use crate::tally::{lemma_sum_update, lemma_sum_zero, sum_counts};
use crate::Event;

verus! {

/// The number of chunks the profile aims for.
pub const TARGET_CHUNK_COUNT: usize = 1000;

/// The width of a chunk: the buffer length divided by the target chunk
/// count, at least one byte.
pub open spec fn chunk_size_spec(len: nat) -> nat {
    if len / 1000 == 0 {
        1
    } else {
        len / 1000
    }
}

/// The number of chunks of a buffer: zero for an empty buffer, else the
/// number of chunk-size slices needed to cover it, the last one possibly
/// shorter.
pub open spec fn chunk_count_spec(len: nat) -> nat {
    if len == 0 {
        0
    } else {
        (len - 1) as nat / chunk_size_spec(len) + 1
    }
}

/// The bytes of chunk `c`: the slice starting at `c` chunk sizes, one chunk
/// size wide, clipped at the end of the buffer.
pub open spec fn chunk_range(s: Seq<u8>, c: int) -> Seq<u8> {
    let cs = chunk_size_spec(s.len()) as int;
    let start = c * cs;
    let end = if start + cs <= s.len() {
        start + cs
    } else {
        s.len() as int
    };
    s.subrange(start, end)
}

/// How many bytes of `s` equal `v`.
pub open spec fn count_byte(s: Seq<u8>, v: u8) -> nat
    decreases s.len(),
{
    if s.len() == 0 {
        0
    } else {
        count_byte(s.drop_last(), v) + if s.last() == v {
            1nat
        } else {
            0nat
        }
    }
}

/// A byte occurs at most once per position.
proof fn lemma_count_le_len(s: Seq<u8>, v: u8)
    ensures
        count_byte(s, v) <= s.len(),
    decreases s.len(),
{
    if s.len() > 0 {
        lemma_count_le_len(s.drop_last(), v);
    }
}

/// `h` is the 256-bucket byte-value histogram of `s`.
pub open spec fn histogram_of(h: Seq<u64>, s: Seq<u8>) -> bool {
    &&& h.len() == 256
    &&& forall|v: u8| #[trigger] h[v as int] == count_byte(s, v)
}

/// A histogram totals the length of the bytes it counts: the bucket counts
/// of a chunk are a probability distribution over the chunk, which is what
/// bounds the chunk's entropy between zero and eight bits.
pub proof fn lemma_histogram_total(h: Seq<u64>, s: Seq<u8>)
    requires
        histogram_of(h, s),
    ensures
        sum_counts(h) == s.len(),
    decreases s.len(),
{
    if s.len() == 0 {
        assert forall|k: int| 0 <= k < h.len() implies h[k] == 0 by {
            let v = k as u8;
            assert(h[v as int] == count_byte(s, v));
        }
        lemma_sum_zero(h);
    } else {
        let b = s.last();
        let sd = s.drop_last();
        assert(count_byte(s, b) == count_byte(sd, b) + 1);
        let h2 = h.update(b as int, (h[b as int] - 1) as u64);
        assert(histogram_of(h2, sd)) by {
            assert forall|v: u8| #[trigger] h2[v as int] == count_byte(sd, v) by {
                assert(h[v as int] == count_byte(s, v));
                if v != b {
                    assert(count_byte(s, v) == count_byte(sd, v));
                }
            }
        }
        lemma_histogram_total(h2, sd);
        lemma_sum_update(h, b as int, (h[b as int] - 1) as u64);
    }
}

/// A buffer of a single repeated byte value concentrates its histogram in
/// one bucket: that byte's count is the whole length and every other count
/// is zero. This is why such a buffer profiles to entropy zero everywhere.
pub proof fn lemma_uniform_histogram(s: Seq<u8>, b: u8)
    requires
        forall|j: int| 0 <= j < s.len() ==> s[j] == b,
    ensures
        count_byte(s, b) == s.len(),
        forall|v: u8| v != b ==> count_byte(s, v) == 0,
    decreases s.len(),
{
    if s.len() > 0 {
        lemma_uniform_histogram(s.drop_last(), b);
        assert forall|v: u8| v != b implies count_byte(s, v) == 0 by {
            assert(count_byte(s.drop_last(), v) == 0);
        }
    }
}

/// The 256-bucket byte-value histogram of `file[start..end)`.
pub fn byte_histogram(file: &[u8], start: usize, end: usize) -> (h: Vec<u64>)
    requires
        start <= end <= file@.len(),
    ensures
        histogram_of(h@, file@.subrange(start as int, end as int)),
{
    let mut h: Vec<u64> = vec![0u64; 256];
    let mut i: usize = start;
    while i < end
        invariant
            start <= i <= end <= file@.len(),
            h@.len() == 256,
            forall|v: u8| #[trigger] h@[v as int] == count_byte(
                file@.subrange(start as int, i as int),
                v,
            ),
        decreases end - i,
    {
        let b = file[i];
        let ghost pre = h@;
        proof {
            lemma_count_le_len(file@.subrange(start as int, i as int), b);
        }
        let cur = h[b as usize];
        h[b as usize] = cur + 1;
        proof {
            assert(file@.subrange(start as int, i + 1).drop_last() =~= file@.subrange(
                start as int,
                i as int,
            ));
            assert forall|v: u8| #[trigger] h@[v as int] == count_byte(
                file@.subrange(start as int, i + 1),
                v,
            ) by {
                assert(pre[v as int] == count_byte(file@.subrange(start as int, i as int), v));
                assert(file@.subrange(start as int, i + 1).last() == file@[i as int]);
            }
        }
        i = i + 1;
    }
    h
}

/// The entropy-profile analyzer: owns one histogram per chunk, recomputed
/// from the buffer on every change notification.
pub struct EntropyPlot {
    /// One 256-bucket histogram per chunk, in chunk order.
    pub chunks: Vec<Vec<u64>>,
}

/// `chunks` is the chunk-histogram profile the analyzer owes for buffer `s`.
pub open spec fn profile_computed(chunks: Seq<Vec<u64>>, s: Seq<u8>) -> bool {
    &&& chunks.len() == chunk_count_spec(s.len())
    &&& forall|c: int| 0 <= c < chunks.len() ==> histogram_of((#[trigger] chunks[c])@, chunk_range(s, c))
}

impl EntropyPlot {
    /// Creates the analyzer, fully initialized against the buffer's current
    /// contents.
    pub fn new(file: &[u8]) -> (r: Self)
        ensures
            profile_computed(r.chunks@, file@),
    {
        let mut this = EntropyPlot { chunks: Vec::new() };
        this.regenerate_plot(file);
        this
    }

    /// Executable chunk size.
    fn chunk_size(len: usize) -> (r: usize)
        ensures
            r == chunk_size_spec(len as nat),
            r >= 1,
    {
        let q = len / TARGET_CHUNK_COUNT;
        if q == 0 {
            1
        } else {
            q
        }
    }

    /// Recomputes the chunk histograms from the buffer.
    pub fn regenerate_plot(&mut self, file: &[u8])
        ensures
            profile_computed(final(self).chunks@, file@),
    {
        let len = file.len();
        let cs = Self::chunk_size(len);
        let n: usize = if len == 0 {
            0
        } else {
            (len - 1) / cs + 1
        };
        let ghost lenn = len as nat;
        proof {
            if len > 0 {
                lemma_fundamental_div_mod((len - 1) as int, cs as int);
                lemma_mod_bound((len - 1) as int, cs as int);
                assert(n - 1 == (len - 1) as int / cs as int);
                assert((len - 1) as int == cs * ((len - 1) as int / cs as int) + (len - 1) as int
                    % cs as int);
                assert(cs * ((len - 1) as int / cs as int) <= len - 1);
                assert((n - 1) * cs == cs * ((len - 1) as int / cs as int)) by (nonlinear_arith)
                    requires
                        n - 1 == (len - 1) as int / cs as int,
                ;
            }
        }
        let mut chunks: Vec<Vec<u64>> = Vec::new();
        let mut c: usize = 0;
        while c < n
            invariant
                cs == chunk_size_spec(lenn),
                cs >= 1,
                lenn == file@.len(),
                n == chunk_count_spec(lenn),
                len == lenn,
                n >= 1 ==> (n - 1) * cs <= lenn - 1,
                c <= n,
                chunks@.len() == c,
                forall|k: int|
                    0 <= k < c ==> histogram_of((#[trigger] chunks@[k])@, chunk_range(file@, k)),
            decreases n - c,
        {
            proof {
                lemma_mul_inequality(c as int, (n - 1) as int, cs as int);
            }
            let start = c * cs;
            let end = if len - start > cs {
                start + cs
            } else {
                len
            };
            let h = byte_histogram(file, start, end);
            chunks.push(h);
            proof {
                assert(chunk_range(file@, c as int) =~= file@.subrange(start as int, end as int));
            }
            c = c + 1;
        }
        self.chunks = chunks;
    }

    /// Display name of the analyzer.
    pub fn title(&self) -> (r: String)
        ensures
            r@ == "Entropy Plot"@,
    {
        "Entropy Plot".to_owned()
    }

    /// Recomputes the derived state in response to a buffer-changed event.
    pub fn notify(&mut self, event: Event, file: &[u8])
        ensures
            profile_computed(final(self).chunks@, file@),
    {
        match event {
            Event::FileChanged => {
                self.regenerate_plot(file);
            },
        }
    }
}

} // verus!
