//! Music data: joining the packets of a decoded stream into one, and
//! playing its samples into output buffers in an endless loop.

use vstd::prelude::*;
use vstd::arithmetic::div_mod::{lemma_add_mod_noop_right, lemma_small_mod};

verus! {

/// A run of decoded sound: interleaved samples and the format that they
/// are in.
#[derive(Debug)]
pub struct Packet {
    pub data: Vec<i16>,
    pub channels: u16,
    pub rate: u64,
    pub bitrate_upper: u64,
    pub bitrate_nominal: u64,
    pub bitrate_lower: u64,
    pub bitrate_window: u64,
}

/// The two packets are in the same format.
pub open spec fn same_format(a: Packet, b: Packet) -> bool {
    &&& a.channels == b.channels
    &&& a.rate == b.rate
    &&& a.bitrate_upper == b.bitrate_upper
    &&& a.bitrate_nominal == b.bitrate_nominal
    &&& a.bitrate_lower == b.bitrate_lower
    &&& a.bitrate_window == b.bitrate_window
}

/// The samples of all the packets, one packet after the other.
pub open spec fn joined(packets: Seq<Packet>) -> Seq<i16>
    decreases packets.len(),
{
    if packets.len() == 0 {
        Seq::empty()
    } else {
        joined(packets.drop_last()) + packets.last().data@
    }
}

/// Joins the packets of a stream into one packet that holds all their
/// samples in order. The packets must all be in the format of the first;
/// a stream without packets gives `None`.
pub fn read_consolidated_packet(packets: &Vec<Packet>) -> (r: Option<Packet>)
    requires
        forall|i: int| 0 <= i < packets.len() ==> same_format(packets[0], #[trigger] packets[i]),
    ensures
        packets.len() == 0 <==> r is None,
        r matches Some(p) ==> p.data@ == joined(packets@) && same_format(p, packets[0]),
{
    if packets.len() == 0 {
        return None;
    }
    let mut data: Vec<i16> = Vec::new();
    let mut i: usize = 0;
    proof {
        assert(packets@.take(0) =~= Seq::<Packet>::empty());
    }
    while i < packets.len()
        invariant
            i <= packets.len(),
            data@ == joined(packets@.take(i as int)),
        decreases packets.len() - i,
    {
        let packet = &packets[i];
        let ghost before = data@;
        let mut j: usize = 0;
        while j < packet.data.len()
            invariant
                j <= packet.data.len(),
                data@ == before + packet.data@.take(j as int),
            decreases packet.data.len() - j,
        {
            data.push(packet.data[j]);
            proof {
                assert(packet.data@.take(j + 1) =~= packet.data@.take(j as int).push(
                    packet.data@[j as int],
                ));
            }
            j += 1;
        }
        proof {
            assert(packet.data@.take(packet.data.len() as int) =~= packet.data@);
            assert(packets@.take(i + 1).drop_last() =~= packets@.take(i as int));
            assert(packets@.take(i + 1).last() == packets@[i as int]);
        }
        i += 1;
    }
    proof {
        assert(packets@.take(packets.len() as int) =~= packets@);
    }
    let first = &packets[0];
    Some(
        Packet {
            data,
            channels: first.channels,
            rate: first.rate,
            bitrate_upper: first.bitrate_upper,
            bitrate_nominal: first.bitrate_nominal,
            bitrate_lower: first.bitrate_lower,
            bitrate_window: first.bitrate_window,
        },
    )
}

/// The sample that comes `k` places after the place `start` when `data` is
/// played in a loop.
pub open spec fn looped(data: Seq<i16>, start: int, k: int) -> i16 {
    data[(start + k) % (data.len() as int)]
}

/// Writes `frames` frames of `channels` samples each into `buffer`, taken
/// from `data` from the place `data_idx` on and from its beginning again
/// when its end is reached. Gives the place at which the next buffer goes
/// on.
pub fn fill_buffer(
    buffer: &mut [i16],
    data: &Vec<i16>,
    data_idx: usize,
    frames: usize,
    channels: usize,
) -> (next: usize)
    requires
        data.len() > 0,
        data_idx < data.len(),
        data.len() + channels <= usize::MAX,
        frames * channels <= old(buffer)@.len(),
    ensures
        final(buffer)@.len() == old(buffer)@.len(),
        forall|k: int|
            0 <= k < frames * channels ==> #[trigger] final(buffer)@[k] == looped(
                data@,
                data_idx as int,
                k,
            ),
        forall|k: int|
            frames * channels <= k < old(buffer)@.len() ==> #[trigger] final(buffer)@[k] == old(
                buffer,
            )@[k],
        next == (data_idx + frames * channels) % (data.len() as int),
{
    let ghost len = data.len() as int;
    let size: usize = buffer.len();
    let mut data_idx = data_idx;
    let ghost start = data_idx as int;
    let mut buffer_idx: usize = 0;
    let mut frame: usize = 0;
    proof {
        lemma_small_mod(data_idx as nat, data.len() as nat);
    }
    while frame < frames
        invariant
            frame <= frames,
            len == data.len(),
            len > 0,
            data_idx < data.len(),
            data.len() + channels <= usize::MAX,
            frames * channels <= buffer@.len(),
            buffer@.len() == old(buffer)@.len(),
            buffer@.len() == size,
            buffer_idx == frame * channels,
            data_idx == (start + buffer_idx) % len,
            forall|k: int| 0 <= k < buffer_idx ==> #[trigger] buffer@[k] == looped(data@, start, k),
            forall|k: int| buffer_idx <= k < buffer@.len() ==> #[trigger] buffer@[k] == old(buffer)@[k],
        decreases frames - frame,
    {
        proof {
            assert((frame + 1) * channels == frame * channels + channels) by (nonlinear_arith);
            assert((frame + 1) * channels <= frames * channels) by (nonlinear_arith)
                requires
                    frame + 1 <= frames,
            ;
        }
        let mut channel: usize = 0;
        while channel < channels
            invariant
                channel <= channels,
                len == data.len(),
                len > 0,
                data_idx < data.len(),
                data.len() + channels <= usize::MAX,
                buffer_idx + channels <= buffer@.len(),
                buffer@.len() == old(buffer)@.len(),
                buffer@.len() == size,
                data_idx == (start + buffer_idx) % len,
                forall|k: int|
                    0 <= k < buffer_idx + channel ==> #[trigger] buffer@[k] == looped(
                        data@,
                        start,
                        k,
                    ),
                forall|k: int|
                    buffer_idx + channel <= k < buffer@.len() ==> #[trigger] buffer@[k] == old(
                        buffer,
                    )@[k],
            decreases channels - channel,
        {
            proof {
                lemma_add_mod_noop_right(channel as int, start + buffer_idx, len);
                assert((channel + (start + buffer_idx) % len) % len == (channel + (start
                    + buffer_idx)) % len);
            }
            buffer[buffer_idx + channel] = data[(data_idx + channel) % data.len()];
            channel += 1;
        }
        proof {
            lemma_add_mod_noop_right(channels as int, start + buffer_idx, len);
            assert((channels + (start + buffer_idx) % len) % len == (channels + (start
                + buffer_idx)) % len);
        }
        buffer_idx += channels;
        data_idx = (data_idx + channels) % data.len();
        frame += 1;
    }
    data_idx
}

} // verus!
