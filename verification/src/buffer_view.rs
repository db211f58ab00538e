//! Multi-channel sample carriers used at the effect boundary. All
//! channels of a carrier share one length; the sample count is taken
//! from the first channel, and an empty channel list means zero
//! samples.

use vstd::prelude::*;

verus! {

/// Equal-length multi-channel data, with the shared sample count
/// alongside.
pub open spec fn channels_wf(chans: Seq<Seq<i64>>, num_samples: int) -> bool {
    forall|i: int| 0 <= i < chans.len() ==> #[trigger] chans[i].len() == num_samples
}

/// A read-only multi-channel sample carrier.
pub struct BufferView {
    pub channels: Vec<Vec<i64>>,
    pub num_samples: usize,
}

/// A mutable multi-channel sample carrier.
pub struct BufferViewMut {
    pub channels: Vec<Vec<i64>>,
    pub num_samples: usize,
}

impl BufferView {
    /// The channel data as a sequence of sample sequences.
    pub open spec fn chans(&self) -> Seq<Seq<i64>> {
        self.channels@.map_values(|c: Vec<i64>| c@)
    }

    /// The shared sample count.
    pub open spec fn samples_spec(&self) -> int {
        self.num_samples as int
    }

    pub open spec fn wf(&self) -> bool {
        &&& channels_wf(self.chans(), self.num_samples as int)
        &&& self.channels@.len() == 0 ==> self.num_samples == 0
    }

    /// Wraps channel data. All channels must share one length; the
    /// sample count is read off the first channel.
    pub fn new(channels: Vec<Vec<i64>>) -> (r: BufferView)
        requires
            forall|i: int|
                0 <= i < channels@.len() ==> #[trigger] channels@[i]@.len()
                    == channels@[0]@.len(),
        ensures
            r.wf(),
            r.chans() == channels@.map_values(|c: Vec<i64>| c@),
            r.samples_spec() == if channels@.len() == 0 {
                0int
            } else {
                channels@[0]@.len() as int
            },
    {
        let num_samples = if channels.len() == 0 {
            0
        } else {
            channels[0].len()
        };
        BufferView { channels, num_samples }
    }

    pub fn num_channels(&self) -> (r: usize)
        ensures
            r as int == self.chans().len(),
    {
        self.channels.len()
    }

    pub fn num_samples(&self) -> (r: usize)
        ensures
            r as int == self.samples_spec(),
    {
        self.num_samples
    }

    /// A channel's samples.
    pub fn channel(&self, index: usize) -> (r: &Vec<i64>)
        requires
            (index as int) < self.chans().len(),
        ensures
            r@ == self.chans()[index as int],
    {
        &self.channels[index]
    }

    /// All channels at once.
    pub fn channels(&self) -> (r: &Vec<Vec<i64>>)
        ensures
            r@.map_values(|c: Vec<i64>| c@) == self.chans(),
    {
        &self.channels
    }

    /// An owned copy of every channel.
    pub fn to_vec(&self) -> (r: Vec<Vec<i64>>)
        ensures
            r@.map_values(|c: Vec<i64>| c@) == self.chans(),
    {
        copy_channels(&self.channels)
    }
}

impl BufferViewMut {
    /// The channel data as a sequence of sample sequences.
    pub open spec fn chans(&self) -> Seq<Seq<i64>> {
        self.channels@.map_values(|c: Vec<i64>| c@)
    }

    /// The shared sample count.
    pub open spec fn samples_spec(&self) -> int {
        self.num_samples as int
    }

    pub open spec fn wf(&self) -> bool {
        &&& channels_wf(self.chans(), self.num_samples as int)
        &&& self.channels@.len() == 0 ==> self.num_samples == 0
    }

    /// Wraps channel data for in-place processing. All channels must
    /// share one length.
    pub fn new(channels: Vec<Vec<i64>>) -> (r: BufferViewMut)
        requires
            forall|i: int|
                0 <= i < channels@.len() ==> #[trigger] channels@[i]@.len()
                    == channels@[0]@.len(),
        ensures
            r.wf(),
            r.chans() == channels@.map_values(|c: Vec<i64>| c@),
            r.samples_spec() == if channels@.len() == 0 {
                0int
            } else {
                channels@[0]@.len() as int
            },
    {
        let num_samples = if channels.len() == 0 {
            0
        } else {
            channels[0].len()
        };
        BufferViewMut { channels, num_samples }
    }

    pub fn num_channels(&self) -> (r: usize)
        ensures
            r as int == self.chans().len(),
    {
        self.channels.len()
    }

    pub fn num_samples(&self) -> (r: usize)
        ensures
            r as int == self.samples_spec(),
    {
        self.num_samples
    }

    /// Mutable access to a channel's samples.
    pub fn channel_mut(&mut self, index: usize) -> (r: &mut Vec<i64>)
        requires
            (index as int) < old(self).chans().len(),
        ensures
            r@ == old(self).chans()[index as int],
            final(self).chans() == old(self).chans().update(index as int, final(r)@),
            final(self).samples_spec() == old(self).samples_spec(),
    {
        &mut self.channels[index]
    }

    /// Mutable access to all channels at once.
    pub fn channels_mut(&mut self) -> (r: &mut Vec<Vec<i64>>)
        ensures
            r@ == old(self).channels@,
            final(self).channels@ == final(r)@,
            final(self).samples_spec() == old(self).samples_spec(),
    {
        &mut self.channels
    }

    /// An owned copy of every channel.
    pub fn to_vec(&self) -> (r: Vec<Vec<i64>>)
        ensures
            r@.map_values(|c: Vec<i64>| c@) == self.chans(),
    {
        copy_channels(&self.channels)
    }
}

/// A deep copy of multi-channel data.
pub(crate) fn copy_channels(channels: &Vec<Vec<i64>>) -> (r: Vec<Vec<i64>>)
    ensures
        r@.map_values(|c: Vec<i64>| c@) == channels@.map_values(|c: Vec<i64>| c@),
        r@.len() == channels@.len(),
{
    let mut out: Vec<Vec<i64>> = Vec::new();
    let n = channels.len();
    let mut i: usize = 0;
    while i < n
        invariant
            out@.len() == i,
            i <= n,
            n == channels@.len(),
            forall|j: int| 0 <= j < i ==> #[trigger] out@[j]@ == channels@[j]@,
        decreases n - i,
    {
        let src = &channels[i];
        let m = src.len();
        let mut chan: Vec<i64> = Vec::new();
        let mut k: usize = 0;
        while k < m
            invariant
                chan@.len() == k,
                k <= m,
                m == src@.len(),
                forall|j: int| 0 <= j < k ==> chan@[j] == src@[j],
            decreases m - k,
        {
            chan.push(src[k]);
            k = k + 1;
        }
        assert(chan@ =~= src@);
        out.push(chan);
        i = i + 1;
    }
    proof {
        assert(out@.map_values(|c: Vec<i64>| c@) =~= channels@.map_values(|c: Vec<i64>| c@));
    }
    out
}

} // verus!
