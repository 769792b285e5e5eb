//! The carried-over round-trip test of the external FEC codec the library
//! calls through its trusted wrappers.

#[test]
fn test_fec_encode() {
    let a = [
        1, 41, 0, 0, 0, 182, 0, 20, 12, 2, 3, 190, 5, 0, 0, 0, 8, 0, 0, 0, 255, 0, 0, 1, 1, 0, 1,
        1, 0, 0, 0, 1, 0, 0, 1, 1, 0, 1, 0, 0, 1, 0, 0, 0, 0, 0, 0, 0, 0, 0, 0, 0, 0, 0, 0, 0, 0,
        0, 0, 0, 0, 0, 0, 0, 1, 41, 0, 0, 0, 182, 0, 20, 12, 2, 3, 190, 5, 0, 0, 0, 8, 0, 0, 0,
        255, 0, 0, 1, 1, 0, 1, 1, 0, 0, 0, 1, 0, 0, 1, 1, 0, 1, 0, 0, 1, 0, 0, 0, 0, 0, 0, 0, 0,
        0, 0, 0, 0, 0, 0, 0, 0, 0, 0, 0,
    ];

    let fec = zfec_rs::Fec::new(2, 6).unwrap();
    let (mut chunks, pad) = fec.encode(&a).unwrap();
    chunks.remove(2);
    chunks.remove(4);

    let decode = fec.decode(&chunks, pad).unwrap();
    for i in 0..decode.len() {
        assert_eq!(a[i], decode[i]);
    }
}
