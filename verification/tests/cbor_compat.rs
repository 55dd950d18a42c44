//! The crate's CBOR framing against an independent CBOR implementation,
//! and decode/encode round trips.

use atomic_exec::cbor::{
    decode_bool, decode_bytes, decode_header, decode_u64, encode_bool, encode_bytes, encode_u64,
};
use atomic_exec::types::{decode_ctor_params, decode_params, encode_ctor_params, encode_params};
use atomic_exec::types::IpcAddress;

fn lib_u64(n: u64) -> Vec<u8> {
    let mut out = Vec::new();
    encode_u64(&mut out, n);
    out
}

#[test]
fn u64_encoding_matches_serde_cbor() {
    let cases: Vec<u64> = vec![
        0,
        1,
        23,
        24,
        255,
        256,
        65535,
        65536,
        0xffff_ffff,
        0x1_0000_0000,
        u64::MAX,
    ];
    for n in cases {
        let reference = serde_cbor::to_vec(&n).unwrap();
        assert_eq!(lib_u64(n), reference, "u64 encoding of {}", n);
    }
}

#[test]
fn bytes_encoding_matches_serde_cbor() {
    let payloads: Vec<Vec<u8>> = vec![vec![], vec![7], vec![0; 23], vec![1; 24], vec![2; 300]];
    for p in payloads {
        let mut out = Vec::new();
        encode_bytes(&mut out, &p);
        let reference = serde_cbor::to_vec(&serde_cbor::Value::Bytes(p.clone())).unwrap();
        assert_eq!(out, reference, "byte string of length {}", p.len());
    }
}

#[test]
fn bool_encoding_matches_serde_cbor() {
    let mut t = Vec::new();
    encode_bool(&mut t, true);
    assert_eq!(t, serde_cbor::to_vec(&true).unwrap());
    let mut f = Vec::new();
    encode_bool(&mut f, false);
    assert_eq!(f, serde_cbor::to_vec(&false).unwrap());
}

#[test]
fn header_decode_inverts_encode() {
    let cases: Vec<u64> = vec![0, 23, 24, 255, 256, 65535, 65536, 0xffff_ffff, u64::MAX];
    for n in cases {
        let buf = lib_u64(n);
        let (major, value, end) = decode_header(&buf, 0).unwrap();
        assert_eq!(major, 0);
        assert_eq!(value, n);
        assert_eq!(end, buf.len());
        assert_eq!(decode_u64(&buf, 0).unwrap(), (n, buf.len()));
    }
}

#[test]
fn header_decode_rejects_non_minimal() {
    // 24 encoded with a one-byte argument must use the short form.
    assert!(decode_header(&vec![0x18, 0x17], 0).is_none());
    // 255 encoded with a two-byte argument is non-minimal.
    assert!(decode_header(&vec![0x19, 0x00, 0xff], 0).is_none());
    // Reserved additional-information values parse to nothing.
    assert!(decode_header(&vec![0x1c], 0).is_none());
}

#[test]
fn bytes_decode_inverts_encode() {
    let p: Vec<u8> = vec![9, 8, 7, 6];
    let mut buf = Vec::new();
    encode_bytes(&mut buf, &p);
    let (b, end) = decode_bytes(&buf, 0).unwrap();
    assert_eq!(b, p);
    assert_eq!(end, buf.len());
}

#[test]
fn bool_decode_inverts_encode() {
    let mut buf = Vec::new();
    encode_bool(&mut buf, true);
    encode_bool(&mut buf, false);
    assert_eq!(decode_bool(&buf, 0).unwrap(), (true, 1));
    assert_eq!(decode_bool(&buf, 1).unwrap(), (false, 2));
    assert!(decode_bool(&vec![0x00], 0).is_none());
}

#[test]
fn params_decode_inverts_encode() {
    let a1 = IpcAddress::new(vec![1, 2, 3]);
    let a2 = IpcAddress::new(vec![4, 5]);
    let actors = vec![a1, a2];
    let exec_id = vec![0xaa; 32];
    let buf = encode_params(&actors, &exec_id, 77);
    let (dactors, deid, dm) = decode_params(&buf).unwrap();
    assert_eq!(dactors.len(), 2);
    assert_eq!(dactors[0].as_bytes(), &vec![1, 2, 3]);
    assert_eq!(dactors[1].as_bytes(), &vec![4, 5]);
    assert_eq!(deid, exec_id);
    assert_eq!(dm, 77);
}

#[test]
fn params_decode_rejects_garbage() {
    assert!(decode_params(&vec![]).is_none());
    assert!(decode_params(&vec![0x80]).is_none());
    // A valid encoding with a trailing byte is not a parameter blob.
    let buf = {
        let mut b = encode_params(&vec![IpcAddress::new(vec![1])], &vec![2], 3);
        b.push(0);
        b
    };
    assert!(decode_params(&buf).is_none());
}

#[test]
fn ctor_params_decode_inverts_encode() {
    let buf = encode_ctor_params(64);
    assert_eq!(decode_ctor_params(&buf), Some(64));
    assert!(decode_ctor_params(&vec![0x81]).is_none());
}
