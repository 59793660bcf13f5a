use xrpl_amm::host::{decode_blob, encode_blob, field_payload};
use xrpl_amm::manager::{
    params_collect_protocol, params_initialize_pool, read_account, read_u16, read_u64, read_u8,
};

#[test]
fn blob_round_trip_short_and_long() {
    for n in [0usize, 1, 192, 193, 500, 12_480] {
        let data: Vec<u8> = (0..n).map(|i| (i % 251) as u8).collect();
        let blob = encode_blob(&data);
        assert_eq!(blob[0], 7);
        assert_eq!(decode_blob(&blob), Some(&data[..]));
    }
}

#[test]
fn blob_header_bytes() {
    assert_eq!(encode_blob(&[9, 8]), vec![7, 2, 9, 8]);
    let long = vec![0u8; 193];
    let blob = encode_blob(&long);
    assert_eq!(&blob[..3], &[7, 193, 0]);
}

#[test]
fn decode_blob_rejects_bad_frames() {
    assert_eq!(decode_blob(&[]), None);
    assert_eq!(decode_blob(&[8, 0]), None);
    assert_eq!(decode_blob(&[7]), None);
    assert_eq!(decode_blob(&[7, 3, 1, 2]), None);
}

#[test]
fn field_payload_strips_frames_only() {
    assert_eq!(field_payload(&[7, 2, 5, 6]), vec![5, 6]);
    assert_eq!(field_payload(&[1, 2, 3]), vec![1, 2, 3]);
}

#[test]
fn manager_params_read_back() {
    let sender = [3u8; 20];
    let p = params_initialize_pool(sender, 11, 22, 30, 500);
    assert_eq!(p.len(), 40);
    assert_eq!(read_account(&p, 0), sender);
    assert_eq!(read_u64(&p, 20), 11);
    assert_eq!(read_u64(&p, 28), 22);
    assert_eq!(read_u16(&p, 36), 30);
    assert_eq!(read_u16(&p, 38), 500);
    let c = params_collect_protocol(sender, 7, u64::MAX);
    assert_eq!(read_u64(&c, 20), 7);
    assert_eq!(read_u64(&c, 28), u64::MAX);
    // Reads past the end give zero.
    assert_eq!(read_u8(&c, 36), 0);
    assert_eq!(read_u64(&c, 30), 0);
}
