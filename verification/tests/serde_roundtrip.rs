use expander_rs::bytes::ByteReader;
use expander_rs::m31::M31;
use expander_rs::simd_m31::AVXM31;

#[test]
fn m31_serialize_round_trip() {
    for v in [0u32, 1, 255, 256, 65535, 123456789, 0x7ffffffe] {
        let x = M31::from_u32(v);
        let mut buf: Vec<u8> = Vec::new();
        x.serialize_into(&mut buf);
        assert_eq!(buf.len(), M31::serialized_size());
        let recovered = u32::from_le_bytes([buf[0], buf[1], buf[2], buf[3]]);
        assert_eq!(recovered, x.v);
        assert_eq!(M31::from_u32(recovered), x);
    }
}

#[test]
fn simd_serialize_size_matches_bytes_written() {
    let mut xs = Vec::new();
    for i in 0..8u32 {
        xs.push(M31::from_u32(i * 1000 + 7));
    }
    let x = AVXM31::from_scalar_array(&xs);
    let mut buf: Vec<u8> = Vec::new();
    x.serialize_into(&mut buf);
    assert_eq!(buf.len(), AVXM31::serialized_size());
    // each lane occupies four little-endian bytes, in lane order
    for i in 0..8usize {
        let v = u32::from_le_bytes([buf[4 * i], buf[4 * i + 1], buf[4 * i + 2], buf[4 * i + 3]]);
        assert_eq!(v, xs[i].v);
    }
}

#[test]
fn simd_deserialize_round_trips() {
    let mut xs = Vec::new();
    for i in 0..8u32 {
        xs.push(M31::from_u32(i * 77777 + 3));
    }
    let x = AVXM31::from_scalar_array(&xs);
    let mut buf: Vec<u8> = Vec::new();
    x.serialize_into(&mut buf);
    let mut r = ByteReader::new(&buf);
    let y = AVXM31::deserialize_from(&mut r).expect("thirty-two bytes are present");
    assert_eq!(x, y);
    // a short stream is rejected
    let mut r2 = ByteReader::new(&buf[..31]);
    assert!(AVXM31::deserialize_from(&mut r2).is_err());
}
