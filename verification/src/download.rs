//! The progress of a download.
use vstd::prelude::*;
use crate::outside;

verus! {

/// How long the rate of the transfer is measured before it is shown, in nanoseconds.
pub const SAMPLE_NANOS: u128 = 500_000_000;

/// What the progress bar of a download knows.
#[derive(Debug)]
pub struct DownloadProgress {
    /// How many bytes were there when the download started.
    pub local_size: u64,
    /// How many bytes there are in all.
    pub total_size: u64,
    /// Where the download stood when the rate was last measured.
    pub last: u64,
}

/// What the progress bar shows, and what the rate is measured from.
#[derive(Debug)]
pub struct DownloadStep {
    /// How many bytes are there.
    pub position: u64,
    /// How many came since the rate was last measured, where it is measured now.
    pub sample: Option<u64>,
    /// How many are missing.
    pub remaining: u64,
}

impl DownloadProgress {
    /// Where the download stands after so many bytes.
    pub open spec fn position(&self, offset: u64) -> int {
        if self.local_size + offset < self.total_size {
            self.local_size + offset
        } else {
            self.total_size as int
        }
    }

    /// A download of which some bytes are there already.
    pub fn new(local_size: u64, total_size: u64) -> (r: DownloadProgress)
        ensures
            r.local_size == local_size,
            r.total_size == total_size,
            r.last == local_size,
    {
        DownloadProgress { local_size, total_size, last: local_size }
    }

    /// Takes note of how many bytes came, and of how long ago the rate was last measured.
    pub fn advance(&mut self, offset: u64, elapsed_nanos: u128) -> (r: DownloadStep)
        ensures
            r.position == old(self).position(offset),
            r.sample is Some <==> elapsed_nanos >= SAMPLE_NANOS,
            r.sample matches Some(n) ==> n == if r.position > old(self).last {
                r.position - old(self).last
            } else {
                0
            },
            r.position <= old(self).total_size,
            r.position + r.remaining == old(self).total_size,
            final(self).local_size == old(self).local_size,
            final(self).total_size == old(self).total_size,
            final(self).last == if elapsed_nanos >= SAMPLE_NANOS {
                r.position
            } else {
                old(self).last
            },
    {
        let reached: u64 = self.local_size.saturating_add(offset);
        let position: u64 = if reached < self.total_size {
            reached
        } else {
            self.total_size
        };
        let sample = if elapsed_nanos >= SAMPLE_NANOS {
            let moved: u64 = position.saturating_sub(self.last);
            self.last = position;
            Some(moved)
        } else {
            None
        };
        DownloadStep { position, sample, remaining: self.total_size - position }
    }
}

/// The message of the bar, where `time` is the time left as it is shown.
pub fn time_left_of(time: &str) -> (s: String)
    ensures
        s@ == "("@ + time@ + " left)"@,
{
    let mut s = "(".to_string();
    s.append(time);
    s.append(" left)");
    s
}

/// The message of the bar. Of a time of more than `u32::MAX` seconds only the text around it is
/// fixed.
pub fn time_left(secs: u64, nanos: u32) -> (s: String)
    requires
        nanos < 1_000_000_000,
    ensures
        secs <= u32::MAX ==> s@ == "("@ + outside::human_duration_text(secs, nanos) + " left)"@,
        exists|time: Seq<char>| s@ == #[trigger] ("("@ + time) + " left)"@,
{
    let time = outside::human_duration(secs, nanos);
    let s = time_left_of(time.as_str());
    assert(s@ == ("("@ + time@) + " left)"@);
    s
}

/// The bar never moves back while the offsets grow, and it is full exactly when nothing is
/// missing.
pub proof fn law_position_grows(p: DownloadProgress, a: u64, b: u64)
    requires
        a <= b,
    ensures
        p.position(a) <= p.position(b) <= p.total_size,
        p.position(b) == p.total_size <==> p.local_size + b >= p.total_size,
{
}

/// The bar shows what was there and what came, and no more than there is.
pub proof fn law_position(p: DownloadProgress, offset: u64)
    ensures
        p.local_size + offset <= p.total_size ==> p.position(offset) == p.local_size + offset,
        p.local_size + offset >= p.total_size ==> p.position(offset) == p.total_size,
{
}

}
