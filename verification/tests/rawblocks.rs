use qtextract::error::Error;
use qtextract::rawblock::{
    compression_type_from_string, compression_type_string, u32_to_string, CompressionType,
    RawBlock,
};

/// The pass-through law on concrete values: the raw bytes handed back for
/// a block are identical whether or not decompression is additionally
/// requested, for the identity codec and for a compressed one alike.
#[test]
fn raw_bytes_independent_of_decode_request() {
    let payload = vec![1u8, 2, 3, 4, 5];
    let plain = RawBlock::new(
        64,
        5,
        "OSMData".to_string(),
        payload.clone(),
        CompressionType::Uncompressed,
    );
    let (raw_plainly, _) = plain.read_payload(false);
    let (raw_decoded, decoded) = plain.read_payload(true);
    assert_eq!(raw_plainly, payload);
    assert_eq!(raw_decoded, payload);
    assert_eq!(decoded, Some(payload.clone()));

    let packed = RawBlock::new(
        64,
        5,
        "OSMData".to_string(),
        payload.clone(),
        CompressionType::ZlibLevel(6),
    );
    let (raw_a, _) = packed.read_payload(false);
    let (raw_b, decoded_b) = packed.read_payload(true);
    assert_eq!(raw_a, payload);
    assert_eq!(raw_b, payload);
    assert!(decoded_b.is_none());
}

/// The identity codec hands the stored bytes back; a compressed payload is
/// a decode the library reports as a value error.
#[test]
fn data_decodes_identity_only() {
    let plain = RawBlock::new(0, 3, "OSMHeader".to_string(), vec![9, 8, 7], CompressionType::Uncompressed);
    assert_eq!(plain.data().unwrap(), vec![9, 8, 7]);
    assert_eq!(plain.raw_data(), vec![9, 8, 7]);

    let packed = RawBlock::new(0, 3, "OSMData".to_string(), vec![9, 8, 7], CompressionType::Brotli);
    assert_eq!(packed.data().unwrap_err(), Error::ValueError);
    assert_eq!(packed.raw_data(), vec![9, 8, 7]);
}

/// Codec names print exactly, the levelled forms with their level in
/// parentheses.
#[test]
fn codec_names() {
    assert_eq!(compression_type_string(CompressionType::Uncompressed), "Uncompressed");
    assert_eq!(compression_type_string(CompressionType::Zlib), "Zlib");
    assert_eq!(compression_type_string(CompressionType::Brotli), "Brotli");
    assert_eq!(compression_type_string(CompressionType::Lzma), "Lzma");
    assert_eq!(compression_type_string(CompressionType::ZlibLevel(6)), "ZlibLevel(6)");
    assert_eq!(compression_type_string(CompressionType::BrotliLevel(11)), "BrotliLevel(11)");
    assert_eq!(compression_type_string(CompressionType::LzmaLevel(0)), "LzmaLevel(0)");
}

/// Only the uncompressed codec and the levelled forms can be named at the
/// boundary, exactly as spelled; the bare scheme names are rejected.
#[test]
fn codec_parsing() {
    assert_eq!(
        compression_type_from_string(("Uncompressed", 0)),
        Ok(CompressionType::Uncompressed)
    );
    assert_eq!(
        compression_type_from_string(("ZlibLevel", 6)),
        Ok(CompressionType::ZlibLevel(6))
    );
    assert_eq!(
        compression_type_from_string(("BrotliLevel", 4)),
        Ok(CompressionType::BrotliLevel(4))
    );
    assert_eq!(
        compression_type_from_string(("LzmaLevel", 9)),
        Ok(CompressionType::LzmaLevel(9))
    );
    assert_eq!(compression_type_from_string(("Zlib", 6)), Err(Error::ValueError));
    assert_eq!(compression_type_from_string(("zliblevel", 6)), Err(Error::ValueError));
}

/// Decimal spelling of numbers, including zero and a many-digit value.
#[test]
fn decimal_spelling() {
    assert_eq!(u32_to_string(0), "0");
    assert_eq!(u32_to_string(7), "7");
    assert_eq!(u32_to_string(907), "907");
    assert_eq!(u32_to_string(4294967295), "4294967295");
}
