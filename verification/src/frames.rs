//! Frames and the channels in them.
//!
//! A frame is one sample of each channel, in the order of the channels. It takes `frame_size`
//! bytes, of which each sample takes `sample_size`.
use vstd::prelude::*;

verus! {

/// The samples of `channel` in the first `frames` frames of `data`.
pub open spec fn channel_samples(
    data: Seq<u8>,
    frame_size: int,
    sample_size: int,
    channel: int,
    frames: int,
) -> Seq<u8>
    decreases frames,
{
    if frames <= 0 {
        Seq::empty()
    } else {
        let at = (frames - 1) * frame_size + channel * sample_size;
        channel_samples(data, frame_size, sample_size, channel, frames - 1) + data.subrange(
            at,
            at + sample_size,
        )
    }
}

/// The samples of `channel` in the whole frames of `data`.
pub open spec fn channel_of(
    data: Seq<u8>,
    frame_size: int,
    sample_size: int,
    channel: int,
) -> Seq<u8> {
    let frames = if frame_size > 0 {
        data.len() as int / frame_size
    } else {
        0
    };
    channel_samples(data, frame_size, sample_size, channel, frames)
}

/// A frame stands within its data, and each of its samples within the frame.
pub proof fn lemma_sample_in_data(
    data_len: int,
    frame_size: int,
    sample_size: int,
    channels: int,
    channel: int,
    frame: int,
)
    requires
        0 < frame_size,
        0 <= sample_size,
        channels * sample_size <= frame_size,
        0 <= channel < channels,
        0 <= frame < data_len / frame_size,
    ensures
        0 <= channel * sample_size,
        channel * sample_size + sample_size <= frame_size,
        0 <= frame * frame_size,
        frame * frame_size + frame_size <= data_len,
{
    assert(0 <= channel * sample_size && channel * sample_size + sample_size <= channels
        * sample_size) by (nonlinear_arith)
        requires
            0 <= channel < channels,
            0 <= sample_size,
    ;
    assert(0 <= frame * frame_size && frame * frame_size + frame_size <= data_len)
        by (nonlinear_arith)
        requires
            0 < frame_size,
            0 <= frame < data_len / frame_size,
    ;
}

/// Each frame gives a channel one sample.
pub proof fn lemma_channel_samples_len(
    data: Seq<u8>,
    frame_size: int,
    sample_size: int,
    channels: int,
    channel: int,
    frames: int,
)
    requires
        0 < frame_size,
        0 <= sample_size,
        channels * sample_size <= frame_size,
        0 <= channel < channels,
        0 <= frames <= data.len() as int / frame_size,
    ensures
        channel_samples(data, frame_size, sample_size, channel, frames).len() == frames
            * sample_size,
    decreases frames,
{
    if frames > 0 {
        lemma_channel_samples_len(data, frame_size, sample_size, channels, channel, frames - 1);
        lemma_sample_in_data(
            data.len() as int,
            frame_size,
            sample_size,
            channels,
            channel,
            frames - 1,
        );
        assert(frames * sample_size == (frames - 1) * sample_size + sample_size)
            by (nonlinear_arith);
    } else {
        assert(frames * sample_size == 0) by (nonlinear_arith)
            requires
                frames == 0,
        ;
    }
}

/// The samples of a channel in frames that follow other frames follow its samples in those.
pub proof fn lemma_channel_samples_concat(
    a: Seq<u8>,
    b: Seq<u8>,
    frame_size: int,
    sample_size: int,
    channels: int,
    channel: int,
    a_frames: int,
    b_frames: int,
)
    requires
        0 < frame_size,
        0 <= sample_size,
        channels * sample_size <= frame_size,
        0 <= channel < channels,
        0 <= a_frames,
        a.len() == a_frames * frame_size,
        0 <= b_frames,
        b_frames * frame_size <= b.len(),
    ensures
        channel_samples(a + b, frame_size, sample_size, channel, a_frames + b_frames)
            == channel_samples(a, frame_size, sample_size, channel, a_frames) + channel_samples(
            b,
            frame_size,
            sample_size,
            channel,
            b_frames,
        ),
    decreases b_frames,
{
    if b_frames == 0 {
        lemma_channel_samples_prefix(
            a,
            b,
            frame_size,
            sample_size,
            channels,
            channel,
            a_frames,
        );
        assert(channel_samples(a, frame_size, sample_size, channel, a_frames) + Seq::<u8>::empty()
            =~= channel_samples(a, frame_size, sample_size, channel, a_frames));
    } else {
        let frame = b_frames - 1;
        assert(frame * frame_size + frame_size == b_frames * frame_size) by (nonlinear_arith)
            requires
                frame == b_frames - 1,
        ;
        lemma_channel_samples_concat(
            a,
            b,
            frame_size,
            sample_size,
            channels,
            channel,
            a_frames,
            frame,
        );
        assert(0 <= frame * frame_size) by (nonlinear_arith)
            requires
                0 <= frame,
                0 < frame_size,
        ;
        assert(0 <= channel * sample_size && channel * sample_size + sample_size <= channels
            * sample_size) by (nonlinear_arith)
            requires
                0 <= channel < channels,
                0 <= sample_size,
        ;
        assert((a_frames + b_frames - 1) * frame_size == a_frames * frame_size + frame
            * frame_size) by (nonlinear_arith)
            requires
                frame == b_frames - 1,
        ;
        let at = frame * frame_size + channel * sample_size;
        assert((a + b).subrange(a.len() + at, a.len() + at + sample_size) =~= b.subrange(
            at,
            at + sample_size,
        ));
        let head = channel_samples(a, frame_size, sample_size, channel, a_frames);
        let middle = channel_samples(b, frame_size, sample_size, channel, frame);
        let last = b.subrange(at, at + sample_size);
        assert(head + middle + last =~= head + (middle + last));
    }
}

/// What follows the frames does not matter.
pub proof fn lemma_channel_samples_prefix(
    a: Seq<u8>,
    b: Seq<u8>,
    frame_size: int,
    sample_size: int,
    channels: int,
    channel: int,
    frames: int,
)
    requires
        0 < frame_size,
        0 <= sample_size,
        channels * sample_size <= frame_size,
        0 <= channel < channels,
        0 <= frames,
        frames * frame_size <= a.len(),
    ensures
        channel_samples(a + b, frame_size, sample_size, channel, frames) == channel_samples(
            a,
            frame_size,
            sample_size,
            channel,
            frames,
        ),
    decreases frames,
{
    if frames > 0 {
        let frame = frames - 1;
        assert(frame * frame_size + frame_size == frames * frame_size && 0 <= frame * frame_size)
            by (nonlinear_arith)
            requires
                frame == frames - 1,
                0 <= frame,
                0 < frame_size,
        ;
        assert(0 <= channel * sample_size && channel * sample_size + sample_size <= channels
            * sample_size) by (nonlinear_arith)
            requires
                0 <= channel < channels,
                0 <= sample_size,
        ;
        lemma_channel_samples_prefix(a, b, frame_size, sample_size, channels, channel, frame);
        let at = frame * frame_size + channel * sample_size;
        assert((a + b).subrange(at, at + sample_size) =~= a.subrange(at, at + sample_size));
    }
}

/// Appends the bytes of `more`.
pub fn append_bytes(out: &mut Vec<u8>, more: &[u8])
    ensures
        final(out)@ == old(out)@ + more@,
{
    out.extend_from_slice(more);
    assert(out@ =~= old(out)@ + more@);
}

/// Splits the whole frames of `data` into one buffer for each of `channels` channels, in place of
/// what the buffers held.
pub fn split_frames(
    data: &[u8],
    channels: usize,
    frame_size: usize,
    sample_size: usize,
    channel_bufs: &mut Vec<Vec<u8>>,
)
    requires
        0 < frame_size,
        channels * sample_size <= frame_size,
        old(channel_bufs)@.len() == channels,
    ensures
        final(channel_bufs)@.len() == channels,
        forall|c: int|
            #![trigger final(channel_bufs)@[c]]
            0 <= c < channels ==> final(channel_bufs)@[c]@ == channel_of(
                data@,
                frame_size as int,
                sample_size as int,
                c,
            ),
{
    let len: usize = data.len();
    let frames: usize = len / frame_size;
    for c in 0..channels
        invariant
            channel_bufs@.len() == channels,
            forall|k: int| #![trigger channel_bufs@[k]] 0 <= k < c ==> channel_bufs@[k]@.len() == 0,
    {
        channel_bufs[c].clear();
    }
    for f in 0..frames
        invariant
            0 < frame_size,
            channels * sample_size <= frame_size,
            len == data@.len(),
            frames == len / frame_size,
            channel_bufs@.len() == channels,
            forall|k: int|
                #![trigger channel_bufs@[k]]
                0 <= k < channels ==> channel_bufs@[k]@ == channel_samples(
                    data@,
                    frame_size as int,
                    sample_size as int,
                    k,
                    f as int,
                ),
    {
        proof {
            if channels > 0 {
                lemma_sample_in_data(
                    data@.len() as int,
                    frame_size as int,
                    sample_size as int,
                    channels as int,
                    0,
                    f as int,
                );
            } else {
                assert(0 <= f * frame_size && f * frame_size + frame_size <= len)
                    by (nonlinear_arith)
                    requires
                        0 < frame_size,
                        0 <= f < len / frame_size,
                ;
            }
        }
        let frame_at: usize = f * frame_size;
        for c in 0..channels
            invariant
                0 < frame_size,
                channels * sample_size <= frame_size,
                len == data@.len(),
                frames == len / frame_size,
                f < frames,
                frame_at == f * frame_size,
                channel_bufs@.len() == channels,
                forall|k: int|
                    #![trigger channel_bufs@[k]]
                    0 <= k < channels ==> channel_bufs@[k]@ == channel_samples(
                        data@,
                        frame_size as int,
                        sample_size as int,
                        k,
                        if k < c {
                            f + 1
                        } else {
                            f as int
                        },
                    ),
        {
            proof {
                lemma_sample_in_data(
                    data@.len() as int,
                    frame_size as int,
                    sample_size as int,
                    channels as int,
                    c as int,
                    f as int,
                );
            }
            let from: usize = frame_at + c * sample_size;
            let sample = vstd::slice::slice_subrange(data, from, from + sample_size);
            append_bytes(&mut channel_bufs[c], sample);
        }
    }
}

} // verus!
