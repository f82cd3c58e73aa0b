//! Decoding of a compressed audio stream into interleaved 16-bit PCM.

use vstd::prelude::*;

use symphonia::default::{get_codecs, get_probe};

verus! {

/// Why a stream cannot be decoded.
#[derive(Clone, Copy, Debug, PartialEq, Eq, Structural)]
pub enum DecodeError {
    /// No container format could be probed, or the container holds no track.
    UnknownFormat,
    /// No decoder could be built for the track's codec parameters.
    UnsupportedCodec,
    /// A decoded packet carried this channel count, which is not two.
    UnsupportedChannels(usize),
}

/// One decoded packet as planar PCM: one sample vector per channel, in
/// source channel order.
pub struct AudioPacket {
    pub planes: Vec<Vec<i16>>,
}

impl AudioPacket {
    /// The number of frames the packet holds: the length of its first
    /// plane (zero when it has no plane at all).
    pub open spec fn frames(self) -> nat {
        if self.planes@.len() == 0 {
            0
        } else {
            self.planes@[0]@.len()
        }
    }

    /// Every plane of the packet holds the same number of frames.
    pub open spec fn wf(self) -> bool {
        forall |c: int| 0 <= c < self.planes@.len() ==> (#[trigger] self.planes@[c])@.len() == self.frames()
    }
}

/// The samples of `l` and `r` interleaved pairwise: `l[0], r[0], l[1],
/// r[1], ...`. Meaningful when both have the same length.
pub open spec fn zip_interleave(l: Seq<i16>, r: Seq<i16>) -> Seq<i16> {
    Seq::new(2 * l.len(), |i: int| if i % 2 == 0 { l[i / 2] } else { r[i / 2] })
}

/// Every packet of `ps` holds exactly two channels.
pub open spec fn stereo(ps: Seq<AudioPacket>) -> bool {
    forall |k: int| 0 <= k < ps.len() ==> (#[trigger] ps[k]).planes@.len() == 2
}

/// Every packet of `ps` is well formed.
pub open spec fn all_wf(ps: Seq<AudioPacket>) -> bool {
    forall |k: int| 0 <= k < ps.len() ==> (#[trigger] ps[k]).wf()
}

/// The packets of `ps` interleaved packet by packet, in stream order:
/// for each packet, its first plane zipped with its second.
pub open spec fn interleaved_all(ps: Seq<AudioPacket>) -> Seq<i16>
    decreases ps.len(),
{
    if ps.len() == 0 {
        Seq::empty()
    } else {
        interleaved_all(ps.drop_last()) + zip_interleave(ps.last().planes@[0]@, ps.last().planes@[1]@)
    }
}

/// The samples of channel `c` across all packets of `ps`, concatenated in
/// stream order.
pub open spec fn plane_stream(ps: Seq<AudioPacket>, c: int) -> Seq<i16>
    decreases ps.len(),
{
    if ps.len() == 0 {
        Seq::empty()
    } else {
        plane_stream(ps.drop_last(), c) + ps.last().planes@[c]@
    }
}

/// Appending one more sample pair extends the interleaving by that pair.
proof fn lemma_zip_take_step(l: Seq<i16>, r: Seq<i16>, i: int)
    requires
        0 <= i < l.len(),
        l.len() == r.len(),
    ensures
        zip_interleave(l.take(i + 1), r.take(i + 1))
            =~= zip_interleave(l.take(i), r.take(i)) + seq![l[i], r[i]],
{
}

/// Appends `l` and `r` to `out`, interleaved pairwise.
fn extend_interleaved(out: &mut Vec<i16>, l: &Vec<i16>, r: &Vec<i16>)
    requires
        l@.len() == r@.len(),
    ensures
        final(out)@ == old(out)@ + zip_interleave(l@, r@),
{
    let mut i: usize = 0;
    while i < l.len()
        invariant
            i <= l@.len(),
            l@.len() == r@.len(),
            out@ == old(out)@ + zip_interleave(l@.take(i as int), r@.take(i as int)),
        decreases l@.len() - i,
    {
        out.push(l[i]);
        out.push(r[i]);
        proof {
            lemma_zip_take_step(l@, r@, i as int);
            assert(out@ =~= old(out)@ + zip_interleave(l@.take(i + 1), r@.take(i + 1)));
        }
        i = i + 1;
    }
    proof {
        assert(l@.take(l@.len() as int) =~= l@);
        assert(r@.take(r@.len() as int) =~= r@);
    }
}

/// Turns a sequence of decoded packets into one interleaved buffer.
/// Succeeds exactly when every packet holds two channels, and then returns
/// the packets interleaved pairwise in stream order; otherwise reports the
/// channel count of the first packet that is not stereo.
pub fn interleave_packets(packets: &Vec<AudioPacket>) -> (r: Result<Vec<i16>, DecodeError>)
    requires
        all_wf(packets@),
    ensures
        r is Ok <==> stereo(packets@),
        r matches Ok(samples) ==> samples@ == interleaved_all(packets@),
        r matches Err(e) ==> e matches DecodeError::UnsupportedChannels(n) && n != 2,
        r matches Err(e) ==> exists |k: int|
            0 <= k < packets@.len()
            && (#[trigger] packets@[k]).planes@.len() != 2
            && e == DecodeError::UnsupportedChannels(packets@[k].planes@.len() as usize)
            && (forall |j: int| 0 <= j < k ==> (#[trigger] packets@[j]).planes@.len() == 2),
{
    let mut out: Vec<i16> = Vec::new();
    let n = packets.len();
    let mut k: usize = 0;
    while k < n
        invariant
            k <= n,
            n == packets@.len(),
            all_wf(packets@),
            forall |j: int| 0 <= j < k ==> (#[trigger] packets@[j]).planes@.len() == 2,
            out@ == interleaved_all(packets@.take(k as int)),
        decreases n - k,
    {
        let p = &packets[k];
        let nch = p.planes.len();
        if nch != 2 {
            return Err(DecodeError::UnsupportedChannels(nch));
        }
        proof {
            assert(packets@[k as int].wf());
            assert(packets@[k as int].planes@[0]@.len() == packets@[k as int].frames());
            assert(packets@[k as int].planes@[1]@.len() == packets@[k as int].frames());
        }
        extend_interleaved(&mut out, &p.planes[0], &p.planes[1]);
        proof {
            assert(packets@.take(k + 1).drop_last() =~= packets@.take(k as int));
            assert(packets@.take(k + 1).last() == packets@[k as int]);
        }
        k = k + 1;
    }
    proof {
        assert(packets@.take(packets@.len() as int) =~= packets@);
    }
    Ok(out)
}

/// Law: for a stream of well-formed stereo packets, the interleaved buffer
/// holds twice as many samples as the stream has frames, and each even
/// position `2*i` carries frame `i` of the first (left) channel while each
/// odd position `2*i + 1` carries frame `i` of the second (right) channel,
/// in temporal order of the stream.
pub proof fn lemma_stereo_interleave(ps: Seq<AudioPacket>)
    requires
        stereo(ps),
        all_wf(ps),
    ensures
        plane_stream(ps, 0).len() == plane_stream(ps, 1).len(),
        interleaved_all(ps).len() == 2 * plane_stream(ps, 0).len(),
        forall |i: int| 0 <= i < plane_stream(ps, 0).len() ==>
            #[trigger] interleaved_all(ps)[2 * i] == plane_stream(ps, 0)[i],
        forall |i: int| 0 <= i < plane_stream(ps, 1).len() ==>
            #[trigger] interleaved_all(ps)[2 * i + 1] == plane_stream(ps, 1)[i],
    decreases ps.len(),
{
    if ps.len() > 0 {
        let prev = ps.drop_last();
        let last = ps.last();
        assert forall |k: int| 0 <= k < prev.len() implies
            (#[trigger] prev[k]).planes@.len() == 2 && prev[k].wf() by {
            assert(prev[k] == ps[k]);
            assert(ps[k].planes@.len() == 2);
            assert(ps[k].wf());
        }
        lemma_stereo_interleave(prev);
        assert(ps[ps.len() - 1].wf());
        assert(ps[ps.len() - 1].planes@.len() == 2);
        let l = last.planes@[0]@;
        let r = last.planes@[1]@;
        assert(l.len() == last.frames());
        assert(r.len() == last.frames());
        let i0 = interleaved_all(prev);
        let l0 = plane_stream(prev, 0);
        let r0 = plane_stream(prev, 1);
        assert(interleaved_all(ps) == i0 + zip_interleave(l, r));
        assert(plane_stream(ps, 0) == l0 + l);
        assert(plane_stream(ps, 1) == r0 + r);
        assert forall |i: int| 0 <= i < plane_stream(ps, 0).len() implies
            #[trigger] interleaved_all(ps)[2 * i] == plane_stream(ps, 0)[i] by {
            if i < l0.len() {
                assert(interleaved_all(ps)[2 * i] == i0[2 * i]);
                assert(i0[2 * i] == l0[i]);
            } else {
                let j = i - l0.len();
                assert(interleaved_all(ps)[2 * i] == zip_interleave(l, r)[2 * j]);
                assert(zip_interleave(l, r)[2 * j] == l[j]);
                assert(plane_stream(ps, 0)[i] == l[j]);
            }
        }
        assert forall |i: int| 0 <= i < plane_stream(ps, 1).len() implies
            #[trigger] interleaved_all(ps)[2 * i + 1] == plane_stream(ps, 1)[i] by {
            if i < r0.len() {
                assert(interleaved_all(ps)[2 * i + 1] == i0[2 * i + 1]);
                assert(i0[2 * i + 1] == r0[i]);
            } else {
                let j = i - r0.len();
                assert(interleaved_all(ps)[2 * i + 1] == zip_interleave(l, r)[2 * j + 1]);
                assert(zip_interleave(l, r)[2 * j + 1] == r[j]);
                assert(plane_stream(ps, 1)[i] == r[j]);
            }
        }
    }
}

/// An opened compressed stream: a container reader and a decoder for its
/// first track. Both are trait objects of symphonia, which this library
/// cannot model, so the whole struct is opaque and is driven only through
/// the trusted functions below; its contents are spoken of through the
/// named functions `handle_packets` and `handle_pulls`.
#[verifier::external_body]
pub struct StreamHandle {
    reader: Box<dyn symphonia::core::formats::FormatReader>,
    decoder: Box<dyn symphonia::core::codecs::Decoder>,
}

/// Whether probing the container held in `data` and building a decoder
/// for its first track succeeds. Probing and decoder construction read
/// only the bytes of an in-memory stream, so this is a function of `data`
/// alone.
pub uninterp spec fn probe_ok(data: Seq<u8>) -> bool;

/// The packets of the stream held in `data` that decode successfully,
/// converted to planar 16-bit PCM, in stream order; packets that fail to
/// decode contribute nothing. Decoding an in-memory stream reads only its
/// bytes, so this is a function of `data` alone.
pub uninterp spec fn stream_packets(data: Seq<u8>) -> Seq<AudioPacket>;

/// The packets an opened stream will still decode successfully, in order:
/// what is left of `stream_packets` of the bytes it was opened on.
pub uninterp spec fn handle_packets(h: StreamHandle) -> Seq<AudioPacket>;

/// How many pulls the opened stream will still answer, decodable or not,
/// before its container reader first reports an error or the end of the
/// stream; finite, because the whole stream is held in memory and every
/// pull consumes part of it.
pub uninterp spec fn handle_pulls(h: StreamHandle) -> nat;

/// The outcome of pulling one packet from an opened stream.
enum PacketRead {
    /// The stream is exhausted; a container reader error is treated the
    /// same way, as the end of the stream.
    End,
    /// The packet could not be decoded and is skipped.
    Skipped,
    /// The packet decoded into these planes.
    Audio(AudioPacket),
}

/// Relies on symphonia's `get_probe`, `Probe::format`,
/// `FormatReader::tracks` and `get_codecs`, `CodecRegistry::make`: probes
/// the container held in `data` with no format hint and builds a decoder
/// for its first track. `UnknownFormat` stands for a failed probe or a
/// container without a track; `UnsupportedCodec` for a codec the registry
/// cannot build. Success is exactly `probe_ok` of the bytes, and a fresh
/// handle will yield exactly `stream_packets` of the bytes.
#[verifier::external_body]
fn open_stream(data: Vec<u8>) -> (r: Result<StreamHandle, DecodeError>)
    ensures
        r is Ok <==> probe_ok(data@),
        r matches Ok(h) ==> handle_packets(h) == stream_packets(data@),
        r matches Err(e) ==> e == DecodeError::UnknownFormat || e == DecodeError::UnsupportedCodec,
{
    let mss = symphonia::core::io::MediaSourceStream::new(Box::new(std::io::Cursor::new(data)), Default::default());
    let probed = match get_probe().format(&symphonia::core::probe::Hint::new(), mss, &Default::default(), &Default::default()) {
        Ok(p) => p,
        Err(_) => return Err(DecodeError::UnknownFormat),
    };
    let reader = probed.format;
    let track = match reader.tracks().first() {
        Some(t) => t,
        None => return Err(DecodeError::UnknownFormat),
    };
    match get_codecs().make(&track.codec_params, &Default::default()) {
        Ok(decoder) => Ok(StreamHandle { reader, decoder }),
        Err(_) => Err(DecodeError::UnsupportedCodec),
    }
}

/// Relies on symphonia's `FormatReader::next_packet`, `Decoder::decode`,
/// `AudioBufferRef::{spec, frames, convert}` and `Signal::chan`: pulls the
/// next packet, decodes it, converts its samples to signed 16-bit PCM and
/// copies out one plane per channel. Every plane of one symphonia audio
/// buffer is a slice of the same `n_frames` samples, so all returned
/// planes have equal length. A decoded packet is the head of the handle's
/// remaining packet sequence and leaves the rest; a skipped packet leaves
/// that sequence unchanged; the reader reports the end only once nothing
/// decodable is left, and a pull of either other kind consumes one of the
/// finitely many pulls the in-memory stream can answer.
#[verifier::external_body]
fn read_packet(h: &mut StreamHandle) -> (r: PacketRead)
    ensures
        r matches PacketRead::Audio(p) ==> p.wf()
            && handle_pulls(*old(h)) > 0
            && handle_pulls(*final(h)) == handle_pulls(*old(h)) - 1
            && handle_packets(*old(h)).len() > 0
            && p == handle_packets(*old(h))[0]
            && handle_packets(*final(h)) == handle_packets(*old(h)).drop_first(),
        r matches PacketRead::Skipped ==> handle_pulls(*old(h)) > 0
            && handle_pulls(*final(h)) == handle_pulls(*old(h)) - 1
            && handle_packets(*final(h)) == handle_packets(*old(h)),
        r matches PacketRead::End ==> handle_packets(*old(h)).len() == 0
            && handle_packets(*final(h)) == handle_packets(*old(h)),
{
    let packet = match h.reader.next_packet() {
        Ok(p) => p,
        Err(_) => return PacketRead::End,
    };
    let decoded = match h.decoder.decode(&packet) {
        Ok(d) => d,
        Err(_) => return PacketRead::Skipped,
    };
    let sig = *decoded.spec();
    let mut buf = symphonia::core::audio::AudioBuffer::<i16>::new(decoded.capacity() as u64, sig);
    decoded.convert(&mut buf);
    let planes = (0..sig.channels.count()).map(|c| symphonia::core::audio::Signal::chan(&buf, c).to_vec()).collect();
    PacketRead::Audio(AudioPacket { planes })
}

/// The interleaving of a packet sequence always has even length.
proof fn lemma_interleaved_all_even(ps: Seq<AudioPacket>)
    ensures
        interleaved_all(ps).len() % 2 == 0,
    decreases ps.len(),
{
    if ps.len() > 0 {
        lemma_interleaved_all_even(ps.drop_last());
    }
}

/// Decodes a whole compressed audio stream held in memory into one
/// interleaved buffer of signed 16-bit samples. The container and codec
/// are probed automatically; packets that fail to decode are skipped and
/// the rest of the stream is still decoded; a packet with a channel count
/// other than two aborts the decode with that count. The result is a
/// function of the bytes alone: it succeeds exactly when the probe
/// succeeds and every decodable packet is stereo, and then the buffer is
/// exactly the pairwise interleaving of those packets in stream order, so
/// its length is a multiple of two.
pub fn decode_to_pcm16(data: Vec<u8>) -> (r: Result<Vec<i16>, DecodeError>)
    ensures
        r is Ok <==> probe_ok(data@) && stereo(stream_packets(data@)),
        r matches Ok(samples) ==> samples@ == interleaved_all(stream_packets(data@))
            && samples@.len() % 2 == 0,
        !probe_ok(data@) ==> r == Err::<Vec<i16>, DecodeError>(DecodeError::UnknownFormat)
            || r == Err::<Vec<i16>, DecodeError>(DecodeError::UnsupportedCodec),
        probe_ok(data@) ==> (r matches Err(e) ==> exists |k: int|
            0 <= k < stream_packets(data@).len()
            && (#[trigger] stream_packets(data@)[k]).planes@.len() != 2
            && e == DecodeError::UnsupportedChannels(stream_packets(data@)[k].planes@.len() as usize)
            && (forall |j: int| 0 <= j < k ==> (#[trigger] stream_packets(data@)[j]).planes@.len() == 2)),
{
    let ghost dv = data@;
    let mut handle = match open_stream(data) {
        Ok(h) => h,
        Err(e) => return Err(e),
    };
    let mut packets: Vec<AudioPacket> = Vec::new();
    loop
        invariant_except_break
            all_wf(packets@),
            packets@ + handle_packets(handle) == stream_packets(dv),
        ensures
            all_wf(packets@),
            packets@ == stream_packets(dv),
        decreases handle_pulls(handle),
    {
        let ghost hp = handle_packets(handle);
        let ghost pp = packets@;
        match read_packet(&mut handle) {
            PacketRead::End => {
                proof {
                    assert(pp + hp =~= pp);
                }
                break;
            },
            PacketRead::Skipped => {},
            PacketRead::Audio(p) => {
                proof {
                    assert(p == hp[0]);
                }
                packets.push(p);
                proof {
                    assert(packets@ =~= pp.push(p));
                    assert(pp.push(p) + hp.drop_first() =~= pp + hp);
                    assert forall |k: int| 0 <= k < packets@.len() implies (#[trigger] packets@[k]).wf() by {
                        if k < pp.len() {
                            assert(pp[k].wf());
                        }
                    }
                }
            },
        }
    }
    match interleave_packets(&packets) {
        Ok(samples) => {
            proof {
                assert(stereo(stream_packets(dv)) && interleaved_all(stream_packets(dv)) == samples@);
                lemma_interleaved_all_even(packets@);
            }
            Ok(samples)
        },
        Err(e) => Err(e),
    }
}

} // verus!
