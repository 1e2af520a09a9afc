//! The adjacent byte-pair frequency matrix: a dense 256 by 256 table counting
//! every pair `(buffer[i], buffer[i+1])`, recomputed wholesale on every
//! buffer change. The external presentation layer turns the counts into a
//! greyscale intensity image; this component only computes the counts and
//! their maximum.
use vstd::prelude::*;

use crate::tally::{lemma_elem_le_sum, lemma_sum_update, lemma_sum_zero, sum_counts};
use crate::Event;

verus! {

/// How many adjacent pairs of `s` equal `(a, b)`.
pub open spec fn pair_count(s: Seq<u8>, a: u8, b: u8) -> nat
    decreases s.len(),
{
    if s.len() < 2 {
        0
    } else {
        pair_count(s.drop_last(), a, b) + if s[s.len() - 2] == a && s[s.len() - 1] == b {
            1nat
        } else {
            0nat
        }
    }
}

/// `counts` is the byte-pair frequency matrix of buffer `s`, row-major with
/// 256 columns, `max_count` its largest entry, and the total of all entries
/// is the number of adjacent pairs of `s`.
pub open spec fn matrix_computed(counts: Seq<u64>, max_count: u64, s: Seq<u8>) -> bool {
    &&& counts.len() == 65536
    &&& forall|a: u8, b: u8| #[trigger] counts[a as int * 256 + b as int] == pair_count(s, a, b)
    &&& forall|k: int| 0 <= k < counts.len() ==> #[trigger] counts[k] <= max_count
    &&& exists|k: int| 0 <= k < counts.len() && #[trigger] counts[k] == max_count
    &&& sum_counts(counts) == if s.len() == 0 {
        0int
    } else {
        s.len() - 1
    }
}

/// The byte-pair frequency analyzer: owns the counts matrix and its largest
/// entry, recomputed from the buffer on every change notification.
pub struct FrequencyImage {
    /// Row-major 256 by 256 matrix: entry `a * 256 + b` counts the adjacent
    /// pairs `(a, b)` of the buffer.
    pub counts: Vec<u64>,
    /// The largest entry of `counts`.
    pub max_count: u64,
}

impl FrequencyImage {
    /// Creates the analyzer, fully initialized against the buffer's current
    /// contents.
    pub fn new(file: &[u8]) -> (r: Self)
        ensures
            matrix_computed(r.counts@, r.max_count, file@),
    {
        let mut this = FrequencyImage { counts: Vec::new(), max_count: 0 };
        this.reload_image(file);
        this
    }

    /// Recomputes the counts matrix and its maximum from the buffer: one pass
    /// over all adjacent byte pairs, then a maximum scan. The total of all
    /// counts equals the number of adjacent pairs of the buffer.
    pub fn reload_image(&mut self, file: &[u8])
        ensures
            matrix_computed(final(self).counts@, final(self).max_count, file@),
    {
        let mut counts: Vec<u64> = vec![0u64; 65536];
        proof {
            lemma_sum_zero(counts@);
        }
        if file.len() >= 1 {
            let mut j: usize = 0;
            while j < file.len() - 1
                invariant
                    counts@.len() == 65536,
                    file@.len() >= 1,
                    j + 1 <= file@.len(),
                    forall|a: u8, b: u8| #[trigger] counts@[a as int * 256 + b as int]
                        == pair_count(file@.take(j + 1), a, b),
                    sum_counts(counts@) == j,
                decreases file@.len() - j,
            {
                let a = file[j];
                let b = file[j + 1];
                let idx: usize = (a as usize) * 256 + (b as usize);
                let ghost pre = counts@;
                proof {
                    lemma_elem_le_sum(pre, idx as int);
                }
                let cur = counts[idx];
                let next = cur + 1;
                counts[idx] = next;
                proof {
                    lemma_sum_update(pre, idx as int, next);
                    assert(file@.take(j + 2).drop_last() =~= file@.take(j + 1));
                    assert forall|x: u8, y: u8| #[trigger] counts@[x as int * 256 + y as int]
                        == pair_count(file@.take(j + 2), x, y) by {
                        assert(pre[x as int * 256 + y as int] == pair_count(
                            file@.take(j + 1),
                            x,
                            y,
                        ));
                        assert(file@.take(j + 2)[j as int] == file@[j as int]);
                        assert(file@.take(j + 2)[j + 1] == file@[j + 1]);
                        if x == a && y == b {
                            assert(counts@[x as int * 256 + y as int] == pre[x as int * 256
                                + y as int] + 1);
                        } else {
                            assert(x as int * 256 + y as int != a as int * 256 + b as int);
                            assert(counts@[x as int * 256 + y as int] == pre[x as int * 256
                                + y as int]);
                        }
                    }
                }
                j = j + 1;
            }
            proof {
                assert(j + 1 == file@.len());
                assert(file@.take(j + 1) =~= file@);
            }
        } else {
            proof {
                assert forall|a: u8, b: u8| #[trigger] counts@[a as int * 256 + b as int]
                    == pair_count(file@, a, b) by {
                    assert(pair_count(file@, a, b) == 0);
                }
            }
        }
        let mut max_count: u64 = counts[0];
        let mut k: usize = 1;
        while k < counts.len()
            invariant
                counts@.len() == 65536,
                1 <= k <= counts@.len(),
                forall|m: int| 0 <= m < k ==> #[trigger] counts@[m] <= max_count,
                exists|m: int| 0 <= m < k && #[trigger] counts@[m] == max_count,
            decreases counts@.len() - k,
        {
            let c = counts[k];
            if c > max_count {
                max_count = c;
            }
            k = k + 1;
        }
        self.counts = counts;
        self.max_count = max_count;
    }

    /// Display name of the analyzer.
    pub fn title(&self) -> (r: String)
        ensures
            r@ == "Byte pairs frequency"@,
    {
        "Byte pairs frequency".to_owned()
    }

    /// Recomputes the derived state in response to a buffer-changed event.
    pub fn notify(&mut self, event: Event, file: &[u8])
        ensures
            matrix_computed(final(self).counts@, final(self).max_count, file@),
    {
        match event {
            Event::FileChanged => {
                self.reload_image(file);
            },
        }
    }
}

} // verus!
