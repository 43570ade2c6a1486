use anemoi::utf8::decode_utf8;

#[test]
fn utf8_decoding_matches_std_on_well_formed_and_ill_formed_bytes() {
    let cases: Vec<Vec<u8>> = vec![
        b"".to_vec(),
        b"data: {\"type\":\"modelStatus\"}".to_vec(),
        "héllo wörld — ✓ 𝄞".as_bytes().to_vec(),
        vec![0x7F],
        vec![0xC2, 0x80],
        vec![0xC0, 0x80],
        vec![0xC1, 0xBF],
        vec![0xDF, 0xBF],
        vec![0xE0, 0xA0, 0x80],
        vec![0xE0, 0x9F, 0xBF],
        vec![0xED, 0x9F, 0xBF],
        vec![0xED, 0xA0, 0x80],
        vec![0xEF, 0xBF, 0xBF],
        vec![0xF0, 0x90, 0x80, 0x80],
        vec![0xF0, 0x8F, 0xBF, 0xBF],
        vec![0xF4, 0x8F, 0xBF, 0xBF],
        vec![0xF4, 0x90, 0x80, 0x80],
        vec![0xF5, 0x80, 0x80, 0x80],
        vec![0xE2, 0x82],
        vec![0x80],
        vec![0x41, 0xFF, 0x42],
    ];
    for bytes in cases {
        let expected = std::str::from_utf8(&bytes).ok().map(String::from);
        assert_eq!(decode_utf8(&bytes), expected, "{bytes:?}");
    }
}
