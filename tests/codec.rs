use cdrle::{compress, decompress, Error, MAX_FF_RUN, MAX_ZERO_RUN};

fn rt(v: &[u8]) {
    let c = compress(v);
    let d = decompress(&c).unwrap();
    assert_eq!(v, d.as_slice(), "in:{:x?} cmp:{:x?} dec:{:x?}", v, c, d);
}

#[test]
fn empty() {
    rt(&[]);
}

#[test]
fn literals() {
    rt(&[1, 2, 3, 4, 5]);
}

#[test]
fn zeros() {
    rt(&vec![0x00; 1]);
    rt(&vec![0x00; 127]);
    rt(&vec![0x00; 128]);
    rt(&vec![0x00; 129]); // 128 + 1
}

#[test]
fn ffs() {
    rt(&vec![0xFF; 1]);
    rt(&vec![0xFF; 31]);
    rt(&vec![0xFF; 32]);
    rt(&vec![0xFF; 33]); // 32 + 1
}

#[test]
fn mixed() {
    rt(&[0, 0, 0, 0, 42, 0xFF, 0xFF, 0xFF, 1, 2, 3, 0, 0xFF, 0, 0xAA, 0xBB, 0, 0xFF]);
}

#[test]
fn err_run_marker_without_control() {
    let mut c = vec![0x00];
    for i in 0..c.len().min(4) {
        c[i] ^= 0xFF;
    }
    assert_eq!(decompress(&c), Err(Error::RunMarkerWithoutControl));
}

#[test]
fn err_invalid_ff_run_len() {
    let mut c = vec![0x00, 0xA0]; // ff=1, len-1=32 => len=33
    for i in 0..c.len().min(4) {
        c[i] ^= 0xFF;
    }
    assert_eq!(decompress(&c), Err(Error::InvalidRunLength { len: 33 }));
}

#[test]
fn run_bounds_are_fixed() {
    assert_eq!(MAX_ZERO_RUN, 128);
    assert_eq!(MAX_FF_RUN, 32);
}

#[test]
fn compress_empty_is_empty() {
    assert_eq!(compress(&[]), Vec::<u8>::new());
    assert_eq!(decompress(&[]), Ok(Vec::new()));
}

#[test]
fn compress_literals_exact_bytes() {
    assert_eq!(compress(&[1, 2, 3, 4, 5]), vec![0xFE, 0xFD, 0xFC, 0xFB, 5]);
}

#[test]
fn compress_short_stream_masks_every_byte() {
    // logical [0x00, 0x03, 42]
    assert_eq!(compress(&[0, 0, 0, 0, 42]), vec![0xFF, 0xFC, 0xD5]);
}

#[test]
fn compress_zero_run_split_at_bound() {
    // logical [0x00, 0x7F, 0x00, 0x00]
    assert_eq!(compress(&vec![0x00; 129]), vec![0xFF, 0x80, 0xFF, 0xFF]);
    // logical [0x00, 0x7F]
    assert_eq!(compress(&vec![0x00; 128]), vec![0xFF, 0x80]);
}

#[test]
fn compress_fill_run_split_at_bound() {
    // logical [0x00, 0x9F, 0x00, 0x80]
    assert_eq!(compress(&vec![0xFF; 33]), vec![0xFF, 0x60, 0xFF, 0x7F]);
}

#[test]
fn compress_switching_run_kinds() {
    // logical [0x00, 0x01, 0x00, 0x80, 0x00, 0x00, 7]
    assert_eq!(
        compress(&[0, 0, 0xFF, 0, 7]),
        vec![0xFF, 0xFE, 0xFF, 0x7F, 0x00, 0x00, 7]
    );
}

#[test]
fn mask_leaves_fifth_byte_on() {
    let c = compress(&[1, 2, 3, 4, 5, 6, 7]);
    assert_eq!(&c[..4], &[0xFE, 0xFD, 0xFC, 0xFB]);
    assert_eq!(&c[4..], &[5, 6, 7]);
}

#[test]
fn record_straddling_mask_boundary() {
    // logical [1, 2, 3, 0x00, 0x04]: the marker is masked, the control is not
    let c = compress(&[1, 2, 3, 0, 0, 0, 0, 0]);
    assert_eq!(c, vec![0xFE, 0xFD, 0xFC, 0xFF, 0x04]);
    assert_eq!(decompress(&c), Ok(vec![1, 2, 3, 0, 0, 0, 0, 0]));
}

#[test]
fn decompress_largest_runs() {
    assert_eq!(decompress(&[0xFF, 0x80]), Ok(vec![0x00; 128]));
    assert_eq!(decompress(&[0xFF, 0x60]), Ok(vec![0xFF; 32]));
}

#[test]
fn decompress_unmasked_marker_at_end() {
    // logical [1, 2, 3, 4, 0x00]
    assert_eq!(
        decompress(&[0xFE, 0xFD, 0xFC, 0xFB, 0x00]),
        Err(Error::RunMarkerWithoutControl)
    );
}

#[test]
fn decompress_largest_fill_control() {
    // logical [9, 0x00, 0xFF]: a run of 128 fill bytes
    assert_eq!(
        decompress(&[0xF6, 0xFF, 0x00]),
        Err(Error::InvalidRunLength { len: 128 })
    );
}

#[test]
fn decompress_first_error_decides() {
    // logical [0x00, 0xA1, 0x00]
    assert_eq!(
        decompress(&[0xFF, 0x5E, 0xFF]),
        Err(Error::InvalidRunLength { len: 34 })
    );
}

#[test]
fn round_trip_all_byte_values() {
    let v: Vec<u8> = (0..=255u8).chain((0..=255u8).rev()).collect();
    rt(&v);
    let mut long = vec![0u8; 300];
    long.extend(vec![0xFFu8; 70]);
    long.push(0);
    rt(&long);
}
