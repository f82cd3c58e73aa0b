use audiocore::decode::{decode_to_pcm16, interleave_packets, AudioPacket, DecodeError};

/// Builds a minimal PCM WAV file in memory: a 44-byte RIFF header followed
/// by the interleaved 16-bit samples, little endian.
fn wav_bytes(channels: u16, interleaved: &[i16]) -> Vec<u8> {
    let data_len = (interleaved.len() * 2) as u32;
    let block_align = (channels * 2) as u32;
    let mut v: Vec<u8> = Vec::new();
    v.extend_from_slice(b"RIFF");
    v.extend_from_slice(&(36 + data_len).to_le_bytes());
    v.extend_from_slice(b"WAVE");
    v.extend_from_slice(b"fmt ");
    v.extend_from_slice(&16u32.to_le_bytes());
    v.extend_from_slice(&1u16.to_le_bytes());
    v.extend_from_slice(&channels.to_le_bytes());
    v.extend_from_slice(&44100u32.to_le_bytes());
    v.extend_from_slice(&(44100 * block_align).to_le_bytes());
    v.extend_from_slice(&(block_align as u16).to_le_bytes());
    v.extend_from_slice(&16u16.to_le_bytes());
    v.extend_from_slice(b"data");
    v.extend_from_slice(&data_len.to_le_bytes());
    for s in interleaved {
        v.extend_from_slice(&s.to_le_bytes());
    }
    v
}

fn stereo_packet(left: &[i16], right: &[i16]) -> AudioPacket {
    AudioPacket { planes: vec![left.to_vec(), right.to_vec()] }
}

#[test]
fn stereo_wav_decodes_to_interleaved_pcm() {
    let frames: Vec<i16> = vec![100, -100, 200, -200, 300, -300, 32767, -32768];
    let wav = wav_bytes(2, &frames);
    assert_eq!(decode_to_pcm16(wav), Ok(frames));
}

#[test]
fn stereo_wav_of_n_frames_yields_2n_samples() {
    let n: usize = 1500;
    let mut frames: Vec<i16> = Vec::new();
    for i in 0..n {
        frames.push(i as i16);
        frames.push(-(i as i16));
    }
    let out = decode_to_pcm16(wav_bytes(2, &frames)).unwrap();
    assert_eq!(out.len(), 2 * n);
    assert_eq!(out, frames);
}

#[test]
fn decode_is_deterministic_on_the_same_bytes() {
    let frames: Vec<i16> = vec![5, -5, 6, -6, 7, -7];
    let wav = wav_bytes(2, &frames);
    assert_eq!(decode_to_pcm16(wav.clone()), decode_to_pcm16(wav));
}

#[test]
fn mono_wav_is_rejected_with_its_channel_count() {
    let wav = wav_bytes(1, &[1, 2, 3, 4]);
    assert_eq!(decode_to_pcm16(wav), Err(DecodeError::UnsupportedChannels(1)));
}

#[test]
fn six_channel_wav_is_rejected_with_its_channel_count() {
    let mut frames: Vec<i16> = Vec::new();
    for i in 0..12 {
        frames.push(i);
    }
    let wav = wav_bytes(6, &frames);
    assert_eq!(decode_to_pcm16(wav), Err(DecodeError::UnsupportedChannels(6)));
}

#[test]
fn garbage_bytes_are_an_unknown_format() {
    assert_eq!(decode_to_pcm16(vec![0u8; 512]), Err(DecodeError::UnknownFormat));
}

#[test]
fn empty_input_is_an_unknown_format() {
    assert_eq!(decode_to_pcm16(Vec::new()), Err(DecodeError::UnknownFormat));
}

#[test]
fn interleave_of_no_packets_is_empty() {
    assert_eq!(interleave_packets(&Vec::new()), Ok(Vec::new()));
}

#[test]
fn interleave_two_stereo_packets_in_stream_order() {
    let ps = vec![stereo_packet(&[1, 2], &[-1, -2]), stereo_packet(&[3], &[-3])];
    assert_eq!(interleave_packets(&ps), Ok(vec![1, -1, 2, -2, 3, -3]));
}

#[test]
fn interleave_of_empty_stereo_packet_is_empty() {
    let ps = vec![stereo_packet(&[], &[])];
    assert_eq!(interleave_packets(&ps), Ok(Vec::new()));
}

#[test]
fn interleave_rejects_a_mono_packet() {
    let ps = vec![AudioPacket { planes: vec![vec![1, 2, 3]] }];
    assert_eq!(interleave_packets(&ps), Err(DecodeError::UnsupportedChannels(1)));
}

#[test]
fn interleave_names_the_first_bad_packet() {
    let ps = vec![
        stereo_packet(&[1], &[-1]),
        AudioPacket { planes: vec![vec![1], vec![2], vec![3]] },
        AudioPacket { planes: vec![vec![9]] },
    ];
    assert_eq!(interleave_packets(&ps), Err(DecodeError::UnsupportedChannels(3)));
}
