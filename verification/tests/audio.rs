use lecturner::records::Boundary;
use lecturner::wav::{
    checked_merge_wavs, checked_parse_wav_header, checked_read_samples, merge_wavs,
    parse_wav_header, read_samples, silence_bytes, write_wav_header, MergeError, SampleError,
    Samples, WavError,
};

#[test]
fn silence_length_mono() {
    assert_eq!(silence_bytes(24000, 1, 16, 100).len(), 4800);
}

#[test]
fn silence_length_stereo() {
    assert_eq!(silence_bytes(24000, 2, 16, 100).len(), 9600);
}

#[test]
fn wav_header_roundtrip() {
    let pcm = vec![0u8; 200];
    let mut wav = Vec::new();
    write_wav_header(&mut wav, 1, 1, 24000, 16, pcm.len() as u32);
    wav.extend_from_slice(&pcm);
    let hdr = parse_wav_header(&wav).unwrap();
    assert_eq!(hdr.channels, 1);
    assert_eq!(hdr.sample_rate, 24000);
    assert_eq!(hdr.data_len, 200);
}

#[test]
fn wav_header_accepts_float32_format() {
    let pcm = vec![0u8; 200];
    let mut wav = Vec::new();
    write_wav_header(&mut wav, 3, 1, 24000, 32, pcm.len() as u32);
    wav[20] = 3;
    wav[21] = 0;
    wav.extend_from_slice(&pcm);
    let hdr = parse_wav_header(&wav).unwrap();
    assert_eq!(hdr.bits_per_sample, 32);
}

fn wav_file(tag: u16, ch: u16, sr: u32, bps: u16, pcm: &[u8]) -> Vec<u8> {
    let mut wav = Vec::new();
    write_wav_header(&mut wav, tag, ch, sr, bps, pcm.len() as u32);
    wav.extend_from_slice(pcm);
    wav
}

#[test]
fn header_bytes_are_exact() {
    let mut wav = Vec::new();
    write_wav_header(&mut wav, 1, 2, 24000, 16, 8);
    assert_eq!(wav.len(), 44);
    assert_eq!(&wav[0..4], "RIFF".as_bytes());
    assert_eq!(&wav[4..8], &44u32.to_le_bytes());
    assert_eq!(&wav[8..16], "WAVEfmt ".as_bytes());
    assert_eq!(&wav[28..32], &96000u32.to_le_bytes());
    assert_eq!(&wav[32..34], &4u16.to_le_bytes());
    assert_eq!(&wav[36..40], "data".as_bytes());
    assert_eq!(&wav[40..44], &8u32.to_le_bytes());
}

#[test]
fn each_header_error_comes_up() {
    let good = wav_file(1, 1, 24000, 16, &[0; 8]);
    assert_eq!(parse_wav_header(&good[..40]), Err(WavError::TooShort));
    let mut w = good.clone();
    w[0] = 0;
    assert_eq!(parse_wav_header(&w), Err(WavError::NotRiff));
    let mut w = good.clone();
    w[8] = 0;
    assert_eq!(parse_wav_header(&w), Err(WavError::NotWave));
    let mut w = good.clone();
    w[16] = 15;
    assert_eq!(parse_wav_header(&w), Err(WavError::FmtTooSmall));
    let mut w = good.clone();
    w[20] = 2;
    assert_eq!(parse_wav_header(&w), Err(WavError::UnsupportedFormat { fmt_tag: 2 }));
    let mut w = good.clone();
    w[12] = 0;
    assert_eq!(parse_wav_header(&w), Err(WavError::NoFmt));
    let mut w = good.clone();
    w[36] = 0;
    assert_eq!(parse_wav_header(&w), Err(WavError::NoData));
}

#[test]
fn other_chunks_are_skipped_with_their_padding() {
    let good = wav_file(1, 1, 24000, 16, &[1, 2, 3, 4]);
    let mut w = good[..12].to_vec();
    w.extend_from_slice("LIST".as_bytes());
    w.extend_from_slice(&3u32.to_le_bytes());
    w.extend_from_slice(&[9, 9, 9, 0]);
    w.extend_from_slice(&good[12..]);
    let hdr = parse_wav_header(&w).unwrap();
    assert_eq!(hdr.data_offset, 56);
    assert_eq!(hdr.data_len, 4);
}

#[test]
fn cut_off_format_chunk_gives_nothing() {
    let mut w = "RIFF....WAVE".as_bytes().to_vec();
    w.extend_from_slice("JUNK".as_bytes());
    w.extend_from_slice(&16u32.to_le_bytes());
    w.extend_from_slice(&[0; 16]);
    w.extend_from_slice("fmt ".as_bytes());
    w.extend_from_slice(&16u32.to_le_bytes());
    w.extend_from_slice(&[1, 0]);
    assert_eq!(checked_parse_wav_header(&w), None);
}

#[test]
fn merged_files_have_gaps_between_them() {
    let a = wav_file(1, 1, 1000, 16, &[1, 2]);
    let b = wav_file(1, 1, 1000, 16, &[3, 4]);
    let c = wav_file(1, 1, 1000, 16, &[5, 6]);
    let gaps = [Some(Boundary::Sentence), Some(Boundary::Paragraph), None];
    let merged = merge_wavs(&[a, b, c], &gaps, 1, 2).unwrap();
    assert_eq!(&merged[44..], &[1, 2, 0, 0, 3, 4, 0, 0, 0, 0, 5, 6]);
    let hdr = parse_wav_header(&merged).unwrap();
    assert_eq!(hdr.data_len, 12);
    assert_eq!(hdr.sample_rate, 1000);
}

#[test]
fn each_merge_error_comes_up() {
    let a = wav_file(1, 1, 1000, 16, &[1, 2]);
    let b = wav_file(1, 2, 2000, 16, &[3, 4, 5, 6]);
    assert_eq!(merge_wavs(&[], &[], 1, 1), Err(MergeError::NothingToMerge));
    assert_eq!(merge_wavs(&[a.clone()], &[], 1, 1), Err(MergeError::LengthsDiffer));
    let bad = merge_wavs(&[a.clone(), vec![0; 50]], &[None, None], 1, 1);
    assert_eq!(bad, Err(MergeError::BadWav { index: 1, error: WavError::NotRiff }));
    let odd = merge_wavs(&[a, b], &[None, None], 1, 1).unwrap_err();
    assert_eq!(odd.message(), "File 2 format mismatch: 2ch 2000Hz 16bit vs 1ch 1000Hz 16bit");
}

#[test]
fn merging_cut_off_samples_gives_nothing() {
    let mut a = wav_file(1, 1, 1000, 16, &[1, 2, 3, 4]);
    a.pop();
    assert_eq!(checked_merge_wavs(&[a], &[None], 1, 1), None);
}

#[test]
fn error_messages_are_exact() {
    assert_eq!(WavError::TooShort.message(), "Too short to be a WAV");
    assert_eq!(WavError::NotRiff.message(), "Not a RIFF file");
    assert_eq!(WavError::NotWave.message(), "Not a WAVE file");
    assert_eq!(WavError::FmtTooSmall.message(), "fmt chunk too small");
    let odd = WavError::UnsupportedFormat { fmt_tag: 65534 };
    assert_eq!(odd.message(), "Only PCM WAV supported (fmt_tag=65534)");
    assert_eq!(WavError::NoFmt.message(), "No fmt  chunk found in WAV");
    assert_eq!(WavError::NoData.message(), "No data chunk found in WAV");
    assert_eq!(MergeError::NothingToMerge.message(), "Nothing to merge");
    assert_eq!(MergeError::LengthsDiffer.message(), "Lengths must match");
    let text = "int16 WAV data length not a multiple of 2";
    assert_eq!(SampleError::UnevenInt16.message(), text);
    let text = "f32 WAV data length not a multiple of 4";
    assert_eq!(SampleError::UnevenFloat32.message(), text);
}

#[test]
fn integer_samples_are_signed() {
    let wav = wav_file(1, 1, 16000, 16, &[0, 0, 255, 127, 0, 128, 255, 255]);
    match read_samples(&wav) {
        Ok(Samples::Int16(v)) => assert_eq!(v, vec![0, 32767, -32768, -1]),
        other => panic!("{other:?}"),
    }
}

#[test]
fn float_samples_keep_their_bits() {
    let mut pcm = Vec::new();
    for x in [0.0f32, -0.5, 1.0] {
        pcm.extend_from_slice(&x.to_le_bytes());
    }
    match read_samples(&wav_file(3, 1, 16000, 32, &pcm)) {
        Ok(Samples::Float32(v)) => {
            let floats: Vec<f32> = v.into_iter().map(f32::from_bits).collect();
            assert_eq!(floats, vec![0.0, -0.5, 1.0]);
        }
        other => panic!("{other:?}"),
    }
}

#[test]
fn uneven_samples_are_errors() {
    let odd = read_samples(&wav_file(1, 1, 16000, 16, &[1, 2, 3]));
    assert!(matches!(odd, Err(SampleError::UnevenInt16)));
    let odd = read_samples(&wav_file(3, 1, 16000, 32, &[1, 2, 3, 4, 5, 6]));
    assert!(matches!(odd, Err(SampleError::UnevenFloat32)));
    assert!(matches!(read_samples(&[0; 50]), Err(SampleError::BadWav(WavError::NotRiff))));
    let mut cut = wav_file(1, 1, 16000, 16, &[1, 2, 3, 4]);
    cut.truncate(46);
    assert!(checked_read_samples(&cut).is_none());
}

#[test]
fn silence_is_measured_in_frames() {
    assert_eq!(silence_bytes(22050, 1, 16, 1), vec![0; 44]);
    assert_eq!(silence_bytes(48000, 2, 32, 100_000).len(), 38_400_000);
    assert!(silence_bytes(0, 2, 16, 500).is_empty());
}
