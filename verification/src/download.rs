//! Accounting for one download: the declared content length, the bytes
//! received so far, and the coarse progress percentage to show.

use vstd::prelude::*;
use vstd::arithmetic::div_mod::{
    lemma_div_is_ordered, lemma_div_multiples_vanish, lemma_div_pos_is_pos,
};

verus! {

/// Why a download was refused or declared failed by the accounting.
#[derive(Debug, PartialEq, Eq, Structural, Clone, Copy)]
pub enum DownloadError {
    /// The response carried no content length.
    MissingLength,
    /// More bytes arrived than the declared content length.
    Overrun,
    /// The stream ended before the declared content length was reached.
    Incomplete,
}

/// The progress percentage shown for `downloaded` bytes out of `total`.
pub open spec fn percent(downloaded: u64, total: u64) -> int {
    if total == 0 {
        100
    } else {
        (downloaded * 100) / (total as int)
    }
}

proof fn lemma_percent_bounds(downloaded: u64, total: u64)
    requires
        downloaded <= total,
    ensures
        0 <= percent(downloaded, total) <= 100,
{
    if total > 0 {
        lemma_div_pos_is_pos(downloaded * 100, total as int);
        lemma_div_is_ordered(downloaded * 100, total * 100, total as int);
        lemma_div_multiples_vanish(100, total as int);
    }
}

/// Byte accounting of one download against its declared content length.
pub struct ProgressTracker {
    pub total: u64,
    pub downloaded: u64,
    pub last_emitted: u64,
}

impl ProgressTracker {
    /// The tracker is consistent: no more bytes than declared, and the last
    /// emitted percentage is a percentage.
    pub open spec fn wf(self) -> bool {
        self.downloaded <= self.total && self.last_emitted <= 100
    }

    /// Starts the accounting for a response; refuses a response that
    /// declares no content length, before any byte is handled.
    pub fn new(content_length: Option<u64>) -> (r: Result<ProgressTracker, DownloadError>)
        ensures
            match content_length {
                None => r == Err::<ProgressTracker, DownloadError>(DownloadError::MissingLength),
                Some(l) => r matches Ok(t) && t.total == l && t.downloaded == 0
                    && t.last_emitted == 0 && t.wf(),
            },
    {
        match content_length {
            None => Err(DownloadError::MissingLength),
            Some(l) => Ok(ProgressTracker { total: l, downloaded: 0, last_emitted: 0 }),
        }
    }

    /// Accounts for one received chunk. Refuses, and leaves the state as it
    /// was, a chunk that would push the byte count past the declared length;
    /// otherwise counts it and yields the new percentage exactly when it has
    /// advanced by more than 10 points since the last emission.
    pub fn record_chunk(&mut self, len: u64) -> (r: Result<Option<u64>, DownloadError>)
        requires
            old(self).wf(),
        ensures
            final(self).wf(),
            final(self).total == old(self).total,
            old(self).downloaded + len > old(self).total ==> r == Err::<
                Option<u64>,
                DownloadError,
            >(DownloadError::Overrun) && *final(self) == *old(self),
            old(self).downloaded + len <= old(self).total ==> {
                let p = percent((old(self).downloaded + len) as u64, old(self).total);
                &&& final(self).downloaded == old(self).downloaded + len
                &&& (p - old(self).last_emitted > 10 ==> r == Ok::<Option<u64>, DownloadError>(
                    Some(p as u64),
                ) && final(self).last_emitted == p)
                &&& (p - old(self).last_emitted <= 10 ==> r == Ok::<Option<u64>, DownloadError>(
                    None,
                ) && final(self).last_emitted == old(self).last_emitted)
            },
    {
        if len > self.total - self.downloaded {
            return Err(DownloadError::Overrun);
        }
        self.downloaded = self.downloaded + len;
        proof {
            lemma_percent_bounds(self.downloaded, self.total);
        }
        let p: u64 = if self.total == 0 {
            100
        } else {
            let wide: u128 = (self.downloaded as u128) * 100 / (self.total as u128);
            wide as u64
        };
        if p > self.last_emitted + 10 {
            self.last_emitted = p;
            Ok(Some(p))
        } else {
            Ok(None)
        }
    }

    /// The download succeeded exactly when the bytes received match the
    /// declared content length.
    pub fn finish(&self) -> (r: Result<(), DownloadError>)
        ensures
            r is Ok <==> self.downloaded == self.total,
            self.downloaded != self.total ==> r == Err::<(), DownloadError>(
                DownloadError::Incomplete,
            ),
    {
        if self.downloaded == self.total {
            Ok(())
        } else {
            Err(DownloadError::Incomplete)
        }
    }
}

/// The byte count of a whole chunk sequence.
pub open spec fn byte_sum(s: Seq<u64>) -> int
    decreases s.len(),
{
    if s.len() == 0 {
        0int
    } else {
        byte_sum(s.drop_last()) + s.last()
    }
}

proof fn lemma_byte_sum_take_le(s: Seq<u64>, i: int)
    requires
        0 <= i <= s.len(),
    ensures
        byte_sum(s.take(i)) <= byte_sum(s),
    decreases s.len() - i,
{
    if i < s.len() {
        lemma_byte_sum_take_le(s, i + 1);
        assert(s.take(i + 1).drop_last() =~= s.take(i));
        assert(byte_sum(s.take(i)) <= byte_sum(s.take(i + 1)));
    } else {
        assert(s.take(i) =~= s);
    }
}

/// Replays a whole transfer against a declared content length: a response
/// without a length fails before any byte is counted; otherwise the outcome
/// is success with exactly the declared byte count, an overrun when the
/// chunks carry more, or an incomplete transfer when they carry less.
pub fn replay_transfer(content_length: Option<u64>, chunks: &Vec<u64>) -> (r: Result<
    u64,
    DownloadError,
>)
    ensures
        match content_length {
            None => r == Err::<u64, DownloadError>(DownloadError::MissingLength),
            Some(l) => {
                &&& byte_sum(chunks@) == l ==> r == Ok::<u64, DownloadError>(l)
                &&& byte_sum(chunks@) > l ==> r == Err::<u64, DownloadError>(
                    DownloadError::Overrun,
                )
                &&& byte_sum(chunks@) < l ==> r == Err::<u64, DownloadError>(
                    DownloadError::Incomplete,
                )
            },
        },
{
    let mut tracker = match ProgressTracker::new(content_length) {
        Ok(t) => t,
        Err(e) => {
            return Err(e);
        },
    };
    let ghost l = tracker.total;
    let n = chunks.len();
    proof {
        assert(chunks@.take(0) =~= Seq::<u64>::empty());
    }
    let mut i: usize = 0;
    while i < n
        invariant
            n == chunks.len(),
            i <= n,
            tracker.wf(),
            tracker.total == l,
            content_length == Some(l),
            tracker.downloaded == byte_sum(chunks@.take(i as int)),
        decreases n - i,
    {
        proof {
            assert(chunks@.take(i + 1).drop_last() =~= chunks@.take(i as int));
            assert(chunks@.take(i + 1).last() == chunks@[i as int]);
        }
        match tracker.record_chunk(chunks[i]) {
            Ok(_) => {
            },
            Err(e) => {
                proof {
                    lemma_byte_sum_take_le(chunks@, i + 1);
                }
                return Err(e);
            },
        }
        i = i + 1;
    }
    proof {
        assert(chunks@.take(n as int) =~= chunks@);
    }
    match tracker.finish() {
        Ok(_) => Ok(tracker.downloaded),
        Err(e) => Err(e),
    }
}

} // verus!
