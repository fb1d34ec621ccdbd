use atom_modifier::{ColrAtom, DecodeError, EncodeError, GamaAtom, ProResFrame, Video};

fn put_be32(buf: &mut Vec<u8>, off: usize, v: u32) {
    buf[off..off + 4].copy_from_slice(&v.to_be_bytes());
}

fn put_be16(buf: &mut Vec<u8>, off: usize, v: u16) {
    buf[off..off + 2].copy_from_slice(&v.to_be_bytes());
}

fn put_tag(buf: &mut Vec<u8>, off: usize, tag: &[u8; 4]) {
    buf[off..off + 4].copy_from_slice(tag);
}

fn put_frame(buf: &mut Vec<u8>, off: usize, size: u32, header_size: u16, p: u8, t: u8, m: u8) {
    put_be32(buf, off, size);
    put_tag(buf, off + 4, b"icpf");
    put_be16(buf, off + 8, header_size);
    buf[off + 22] = p;
    buf[off + 23] = t;
    buf[off + 24] = m;
}

fn put_colr(buf: &mut Vec<u8>, off: usize, size: u32, p: u16, t: u16, m: u16) {
    put_be32(buf, off, size);
    put_tag(buf, off + 4, b"colr");
    put_tag(buf, off + 8, b"nclc");
    put_be16(buf, off + 12, p);
    put_be16(buf, off + 14, t);
    put_be16(buf, off + 16, m);
}

fn put_gama(buf: &mut Vec<u8>, off: usize, value: u32) {
    put_be32(buf, off, 12);
    put_tag(buf, off + 4, b"gama");
    put_be32(buf, off + 8, value);
}

/// A stream with the same records as the "1-1-1" two-frame footage: two
/// frames, one color atom with indices (1, 1, 1), no gamma atom.
fn one_one_one_footage() -> Vec<u8> {
    let mut buf = vec![0u8; 1234298];
    put_frame(&mut buf, 40, 616448, 148, 1, 1, 1);
    put_frame(&mut buf, 616488, 617195, 148, 1, 1, 1);
    put_colr(&mut buf, 1234280, 18, 1, 1, 1);
    buf
}

/// A stream with the same records as the "1-2-1" two-frame footage: two
/// frames, one gamma atom, one color atom with indices (1, 2, 1).
fn one_two_one_footage() -> Vec<u8> {
    let mut buf = vec![0u8; 1234310];
    put_frame(&mut buf, 40, 616448, 148, 1, 2, 1);
    put_frame(&mut buf, 616488, 617195, 148, 1, 2, 1);
    put_gama(&mut buf, 1234280, 157286);
    put_colr(&mut buf, 1234292, 18, 1, 2, 1);
    buf
}

#[test]
fn test_decode() {
    let mut video_111 = Video::default();

    video_111
        .decode(&one_one_one_footage())
        .expect("Some issue occur when decoding '1-1-1_2frames_prores422.mov'.");

    let expected_result_111 = Video {
        colr_atom: ColrAtom {
            size: 18,
            offset: 1234280,
            primary_index: 1,
            transfer_function_index: 1,
            matrix_index: 1,
            matched: true,
        },
        gama_atom: GamaAtom {
            size: 0,
            gama_value: 0,
            offsets: [].to_vec(),
            the_actual_gama_offset: 0,
            matched: false,
        },
        frames: [
            ProResFrame {
                offset: 40,
                frame_size: 616448,
                frame_header_size: 148,
                color_primaries: 1,
                transfer_characteristic: 1,
                matrix_coefficients: 1,
            },
            ProResFrame {
                offset: 616488,
                frame_size: 617195,
                frame_header_size: 148,
                color_primaries: 1,
                transfer_characteristic: 1,
                matrix_coefficients: 1,
            },
        ]
        .to_vec(),
        frame_count: 2,
    };

    let mut video_121 = Video::default();

    video_121
        .decode(&one_two_one_footage())
        .expect("Some issue occur when decoding '1-2-1_2frames_prores422.mov'.");

    let expected_result_121 = Video {
        colr_atom: ColrAtom {
            size: 18,
            offset: 1234292,
            primary_index: 1,
            transfer_function_index: 2,
            matrix_index: 1,
            matched: true,
        },
        gama_atom: GamaAtom {
            size: 12,
            gama_value: 157286,
            offsets: [1234280].to_vec(),
            the_actual_gama_offset: 1234280,
            matched: true,
        },
        frames: [
            ProResFrame {
                offset: 40,
                frame_size: 616448,
                frame_header_size: 148,
                color_primaries: 1,
                transfer_characteristic: 2,
                matrix_coefficients: 1,
            },
            ProResFrame {
                offset: 616488,
                frame_size: 617195,
                frame_header_size: 148,
                color_primaries: 1,
                transfer_characteristic: 2,
                matrix_coefficients: 1,
            },
        ]
        .to_vec(),
        frame_count: 2,
    };

    assert_eq!(video_111, expected_result_111);
    assert_eq!(video_121, expected_result_121);
}

#[test]
fn decode_reports_frames_in_offset_order_and_counts_them() {
    let mut video = Video::default();
    video.decode(&one_two_one_footage()).unwrap();
    assert_eq!(video.frame_count, video.frames.len() as i64);
    for pair in video.frames.windows(2) {
        assert!(pair[0].offset < pair[1].offset);
    }
}

#[test]
fn gamma_round_trip() {
    // 2.2 in 16.16 fixed point, truncated toward zero.
    let fixed = (2.2f32 * 65536.0) as i32 as u32;
    assert_eq!(fixed, 0x0002_3333);

    let mut bytes = one_two_one_footage();
    let mut video = Video::default();
    video.decode(&bytes).unwrap();
    video.encode(&mut bytes, 1, 2, 1, Some(fixed)).unwrap();
    assert_eq!(&bytes[1234288..1234292], &[0x00, 0x02, 0x33, 0x33]);

    let mut video2 = Video::default();
    video2.decode(&bytes).unwrap();
    assert_eq!(video2.gama_atom.gama_value, 0x0002_3333);

    // Decoding the payload back gives 2.2 after 2-decimal rounding.
    let back = (video2.gama_atom.gama_value as i32) as f32 / 65536.0;
    let rounded = (back * 100.0).round() / 100.0;
    assert_eq!(rounded, 2.2f32);
}

#[test]
fn encode_updates_color_fields_and_keeps_length() {
    let mut bytes = one_one_one_footage();
    let before_len = bytes.len();
    let mut video = Video::default();
    video.decode(&bytes).unwrap();

    video.encode(&mut bytes, 9, 16, 9, None).unwrap();
    assert_eq!(bytes.len(), before_len);

    let mut video2 = Video::default();
    video2.decode(&bytes).unwrap();
    assert_eq!(video2.colr_atom.offset, 1234280);
    assert_eq!(video2.colr_atom.primary_index, 9);
    assert_eq!(video2.colr_atom.transfer_function_index, 16);
    assert_eq!(video2.colr_atom.matrix_index, 9);
    assert_eq!(video2.frames.len(), 2);
    for frame in &video2.frames {
        assert_eq!(frame.color_primaries, 9);
        assert_eq!(frame.transfer_characteristic, 16);
        assert_eq!(frame.matrix_coefficients, 9);
    }
}

#[test]
fn encode_without_gamma_target_keeps_gamma_bytes() {
    let mut bytes = one_two_one_footage();
    let mut video = Video::default();
    video.decode(&bytes).unwrap();
    video.encode(&mut bytes, 1, 1, 1, None).unwrap();
    // The gamma payload is untouched when no target value is given.
    assert_eq!(&bytes[1234288..1234292], &157286u32.to_be_bytes());
}

#[test]
fn encode_ignores_gamma_target_when_gamma_unmatched() {
    // No gamma atom in this stream: a target gamma value changes nothing
    // beyond the color fields.
    let mut with_gamma_target = one_one_one_footage();
    let mut without_gamma_target = one_one_one_footage();
    let mut video = Video::default();
    video.decode(&with_gamma_target).unwrap();

    video
        .encode(&mut with_gamma_target, 2, 3, 4, Some(0x0002_6666))
        .unwrap();
    video.encode(&mut without_gamma_target, 2, 3, 4, None).unwrap();
    assert_eq!(with_gamma_target, without_gamma_target);
    assert!(!video.gama_atom.matched);
}

#[test]
fn encode_fails_without_colr_atom() {
    // A stream with frames but no colr atom: the model must refuse to patch.
    let mut buf = vec![0u8; 100];
    put_frame(&mut buf, 8, 50, 148, 1, 1, 1);
    let mut video = Video::default();
    video.decode(&buf).unwrap();
    assert!(!video.colr_atom.matched);

    let before = buf.clone();
    let r = video.encode(&mut buf, 1, 1, 1, None);
    assert_eq!(r, Err(EncodeError::MissingColrAtom));
    assert_eq!(buf, before);
}

#[test]
fn encode_fails_when_target_range_is_outside_the_stream() {
    let mut bytes = one_one_one_footage();
    let mut video = Video::default();
    video.decode(&bytes).unwrap();

    let mut short = vec![0u8; 16];
    let before = short.clone();
    let r = video.encode(&mut short, 1, 1, 1, None);
    assert_eq!(r, Err(EncodeError::RangeOutOfBounds));
    assert_eq!(short, before);
    assert_eq!(bytes.len(), 1234298);
}

#[test]
fn decode_fails_on_truncated_colr_atom() {
    // The colr tag is matched but the index fields lie beyond the end.
    let mut buf = vec![0u8; 16];
    put_be32(&mut buf, 4, 18);
    put_tag(&mut buf, 8, b"colr");
    let mut video = Video::default();
    assert_eq!(video.decode(&buf), Err(DecodeError::Truncated));
}

#[test]
fn decode_fails_on_tag_too_close_to_the_start() {
    // A tag in the first 4 bytes leaves no room for its size field.
    let mut buf = vec![0u8; 64];
    put_tag(&mut buf, 0, b"icpf");
    let mut video = Video::default();
    assert_eq!(video.decode(&buf), Err(DecodeError::Truncated));
}

#[test]
fn decode_rejects_accidental_gamma_tag() {
    // A gama tag whose size field is not 12 is a false positive: recorded as
    // a candidate, never verified.
    let mut buf = vec![0u8; 64];
    put_be32(&mut buf, 8, 999);
    put_tag(&mut buf, 12, b"gama");
    let mut video = Video::default();
    video.decode(&buf).unwrap();
    assert_eq!(video.gama_atom.offsets, vec![8u64]);
    assert!(!video.gama_atom.matched);
    assert_eq!(video.gama_atom.the_actual_gama_offset, 0);
    assert_eq!(video.gama_atom.gama_value, 0);
}

#[test]
fn decode_keeps_the_last_verified_gamma_candidate() {
    let mut buf = vec![0u8; 64];
    put_gama(&mut buf, 8, 111111);
    put_gama(&mut buf, 24, 222222);
    let mut video = Video::default();
    video.decode(&buf).unwrap();
    assert_eq!(video.gama_atom.offsets, vec![8u64, 24]);
    assert!(video.gama_atom.matched);
    assert_eq!(video.gama_atom.the_actual_gama_offset, 24);
    assert_eq!(video.gama_atom.gama_value, 222222);
}

#[test]
fn decode_finds_every_tag_through_the_scanner() {
    // One record of each kind; the match list drives the whole model.
    let mut buf = vec![0u8; 96];
    put_frame(&mut buf, 8, 40, 148, 5, 6, 7);
    put_gama(&mut buf, 40, 157286);
    put_colr(&mut buf, 56, 18, 9, 10, 11);
    let mut video = Video::default();
    video.decode(&buf).unwrap();
    assert!(video.colr_atom.matched);
    assert_eq!(video.colr_atom.offset, 56);
    assert_eq!(video.colr_atom.primary_index, 9);
    assert!(video.gama_atom.matched);
    assert_eq!(video.gama_atom.the_actual_gama_offset, 40);
    assert_eq!(video.frame_count, 1);
    assert_eq!(video.frames[0].offset, 8);
    assert_eq!(video.frames[0].frame_header_size, 148);
}
