use thesia::format_info::{format_display_name, from_decoding_result, CodecDetail};

#[test]
fn format_names_join_container_and_codec() {
    assert_eq!(format_display_name("wave", "pcm_s16le"), "wav - pcm_s16le");
    assert_eq!(format_display_name("flac", "flac"), "flac");
    assert_eq!(format_display_name("wavewave", "x"), "wavwav - x");
    assert_eq!(format_display_name("mp3", "mp3"), "mp3");
    assert_eq!(format_display_name("ogg", "vorbis"), "ogg - vorbis");
}

#[test]
fn format_info_picks_the_detail_the_codec_allows() {
    let alac = from_decoding_result("isomp4", "alac", &CodecDetail::Unknown, 44100, "S24", 0, 0);
    assert_eq!((alac.name.as_str(), alac.sr, alac.bit_depth.as_str(), alac.bitrate.as_str()), ("isomp4 - alac", 44100, "S24", ""));

    let wav = from_decoding_result("wave", "pcm_s16le", &CodecDetail::BitsPerSample(16), 48000, "S16", 10, 10);
    assert_eq!((wav.name.as_str(), wav.bit_depth.as_str(), wav.bitrate.as_str()), ("wav - pcm_s16le", "", ""));

    let flac = from_decoding_result("flac", "flac", &CodecDetail::BitsPerSample(24), 96000, "S24", 10, 10);
    assert_eq!((flac.bit_depth.as_str(), flac.bitrate.as_str()), ("24 bit", ""));

    let fmt = from_decoding_result("ogg", "vorbis", &CodecDetail::SampleFormat("F32".to_string()), 48000, "F32", 10, 10);
    assert_eq!((fmt.bit_depth.as_str(), fmt.bitrate.as_str()), ("F32", ""));

    // 4 bits a sample at 44.1 kHz: 176.4 kbps
    let coded = from_decoding_result("isomp4", "aac", &CodecDetail::BitsPerCodedSample(4), 44100, "F32", 10, 10);
    assert_eq!((coded.bit_depth.as_str(), coded.bitrate.as_str()), ("", "176 kbps"));

    // 40000 bytes over 44100 samples at 44.1 kHz: 320 kbps
    let mp3 = from_decoding_result("mp3", "mp3", &CodecDetail::Unknown, 44100, "F32", 40000, 44100);
    assert_eq!((mp3.name.as_str(), mp3.bit_depth.as_str(), mp3.bitrate.as_str()), ("mp3", "", "320 kbps"));
}
