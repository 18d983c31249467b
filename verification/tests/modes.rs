use hdiffpatch::structs::{
    ChecksumMode, CompressionMode, CoverHeader, DataReferenceInfo, DiffChunkInfo, HeaderInfo,
    RleRefClip,
};

#[test]
fn compression_modes_by_name() {
    for (name, mode) in [
        ("", CompressionMode::Nocomp),
        ("nocomp", CompressionMode::Nocomp),
        ("zstd", CompressionMode::Zstd),
        ("ZSTD", CompressionMode::Zstd),
        ("Zlib", CompressionMode::Zlib),
        ("bz2", CompressionMode::Bz2),
        ("pbz2", CompressionMode::Bz2),
        ("lzma", CompressionMode::Lzma),
        ("lzma2", CompressionMode::Lzma2),
    ] {
        assert_eq!(CompressionMode::from_str(name), Ok(mode));
        assert_eq!(name.parse::<CompressionMode>(), Ok(mode));
    }
    assert_eq!(
        CompressionMode::from_str("LZ4"),
        Err("unknown compression mode: LZ4".to_string())
    );
}

#[test]
fn checksum_modes_by_name() {
    assert_eq!(ChecksumMode::from_str(""), Ok(ChecksumMode::Nochecksum));
    assert_eq!(ChecksumMode::from_str("nochecksum"), Ok(ChecksumMode::Nochecksum));
    assert_eq!(ChecksumMode::from_str("CRC32"), Ok(ChecksumMode::Crc32));
    assert_eq!(ChecksumMode::from_str("fadler64"), Ok(ChecksumMode::Fadler64));
    assert!(ChecksumMode::from_str("md5").is_err());
}

#[test]
fn defaults_say_nothing() {
    let header = HeaderInfo::default();
    assert_eq!(header.comp_mode, CompressionMode::Nocomp);
    assert_eq!(header.checksum_mode, ChecksumMode::Nochecksum);
    assert_eq!(header.header_magic, "");
    assert_eq!(header.chunk_info, DiffChunkInfo::default());
    assert_eq!(DataReferenceInfo::default().hdiff_data_offset, 0);
    assert_eq!(RleRefClip::default().mem_set_length, 0);
}

#[test]
fn covers_keep_what_they_are_made_of() {
    let cover = CoverHeader::new(1, 2, 3, 4);
    assert_eq!(cover.old_pos, 1);
    assert_eq!(cover.new_pos, 2);
    assert_eq!(cover.cover_length, 3);
    assert_eq!(cover.next_cover_index, 4);
}
