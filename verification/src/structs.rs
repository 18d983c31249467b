//! What the headers and lists of a patch hold.
use crate::text::{lowercase, same_text, text_lowercase};
use vstd::prelude::*;

verus! {

/// How the parts of a patch are compressed.
#[derive(Debug, Clone, Copy, PartialEq, Eq, Structural)]
pub enum CompressionMode {
    Nocomp,
    Zstd,
    Zlib,
    Bz2,
    Lzma,
    Lzma2,
}

impl Default for CompressionMode {
    fn default() -> (r: Self)
        ensures
            r == CompressionMode::Nocomp,
    {
        CompressionMode::Nocomp
    }
}

/// The compression mode with a name in lower case.
pub open spec fn compression_named(name: Seq<char>) -> Option<CompressionMode> {
    if name == ""@ || name == "nocomp"@ {
        Some(CompressionMode::Nocomp)
    } else if name == "zstd"@ {
        Some(CompressionMode::Zstd)
    } else if name == "zlib"@ {
        Some(CompressionMode::Zlib)
    } else if name == "bz2"@ || name == "pbz2"@ {
        Some(CompressionMode::Bz2)
    } else if name == "lzma"@ {
        Some(CompressionMode::Lzma)
    } else if name == "lzma2"@ {
        Some(CompressionMode::Lzma2)
    } else {
        None
    }
}

impl CompressionMode {
    /// The mode that a lower-case name stands for.
    pub fn named(name: &str) -> (r: Option<CompressionMode>)
        ensures
            r == compression_named(name@),
    {
        if same_text(name, "") || same_text(name, "nocomp") {
            Some(CompressionMode::Nocomp)
        } else if same_text(name, "zstd") {
            Some(CompressionMode::Zstd)
        } else if same_text(name, "zlib") {
            Some(CompressionMode::Zlib)
        } else if same_text(name, "bz2") || same_text(name, "pbz2") {
            Some(CompressionMode::Bz2)
        } else if same_text(name, "lzma") {
            Some(CompressionMode::Lzma)
        } else if same_text(name, "lzma2") {
            Some(CompressionMode::Lzma2)
        } else {
            None
        }
    }

    /// The mode that a name in any case stands for, or a message that there is
    /// none.
    pub fn from_str(s: &str) -> (r: Result<CompressionMode, String>)
        ensures
            match r {
                Ok(mode) => compression_named(lowercase(s@)) == Some(mode),
                Err(message) => compression_named(lowercase(s@)) is None && message@
                    == "unknown compression mode: "@ + s@,
            },
    {
        match CompressionMode::named(text_lowercase(s).as_str()) {
            Some(mode) => Ok(mode),
            None => Err("unknown compression mode: ".to_owned().concat(s)),
        }
    }
}

impl std::str::FromStr for CompressionMode {
    type Err = String;

    fn from_str(s: &str) -> (r: Result<CompressionMode, String>)
        ensures
            match r {
                Ok(mode) => compression_named(lowercase(s@)) == Some(mode),
                Err(message) => compression_named(lowercase(s@)) is None && message@
                    == "unknown compression mode: "@ + s@,
            },
    {
        CompressionMode::from_str(s)
    }
}

/// How a patch guards its parts against damage.
#[derive(Debug, Clone, Copy, PartialEq, Eq, Structural)]
pub enum ChecksumMode {
    Nochecksum,
    Crc32,
    Fadler64,
}

impl Default for ChecksumMode {
    fn default() -> (r: Self)
        ensures
            r == ChecksumMode::Nochecksum,
    {
        ChecksumMode::Nochecksum
    }
}

/// The checksum mode with a name in lower case.
pub open spec fn checksum_named(name: Seq<char>) -> Option<ChecksumMode> {
    if name == ""@ || name == "nochecksum"@ {
        Some(ChecksumMode::Nochecksum)
    } else if name == "crc32"@ {
        Some(ChecksumMode::Crc32)
    } else if name == "fadler64"@ {
        Some(ChecksumMode::Fadler64)
    } else {
        None
    }
}

impl ChecksumMode {
    /// The mode that a lower-case name stands for.
    pub fn named(name: &str) -> (r: Option<ChecksumMode>)
        ensures
            r == checksum_named(name@),
    {
        if same_text(name, "") || same_text(name, "nochecksum") {
            Some(ChecksumMode::Nochecksum)
        } else if same_text(name, "crc32") {
            Some(ChecksumMode::Crc32)
        } else if same_text(name, "fadler64") {
            Some(ChecksumMode::Fadler64)
        } else {
            None
        }
    }

    /// The mode that a name in any case stands for, or a message that there is
    /// none.
    pub fn from_str(s: &str) -> (r: Result<ChecksumMode, String>)
        ensures
            match r {
                Ok(mode) => checksum_named(lowercase(s@)) == Some(mode),
                Err(message) => checksum_named(lowercase(s@)) is None && message@
                    == "unknown checksum mode: "@ + s@,
            },
    {
        match ChecksumMode::named(text_lowercase(s).as_str()) {
            Some(mode) => Ok(mode),
            None => Err("unknown checksum mode: ".to_owned().concat(s)),
        }
    }
}

impl std::str::FromStr for ChecksumMode {
    type Err = String;

    fn from_str(s: &str) -> (r: Result<ChecksumMode, String>)
        ensures
            match r {
                Ok(mode) => checksum_named(lowercase(s@)) == Some(mode),
                Err(message) => checksum_named(lowercase(s@)) is None && message@
                    == "unknown checksum mode: "@ + s@,
            },
    {
        ChecksumMode::from_str(s)
    }
}

/// The counts and places that the head of a directory patch gives.
#[derive(Debug, Clone, Copy, PartialEq, Eq, Structural)]
pub struct DataReferenceInfo {
    pub input_dir_count: i64,
    pub input_ref_file_count: i64,
    pub input_ref_file_size: i64,
    pub input_sum_size: i64,
    pub output_dir_count: i64,
    pub output_ref_file_count: i64,
    pub output_ref_file_size: i64,
    pub output_sum_size: i64,
    pub same_file_pair_count: i64,
    pub same_file_size: i64,
    pub new_execute_count: i32,
    pub private_reserved_data_size: i64,
    pub private_extern_data_size: i64,
    pub private_extern_data_offset: i64,
    pub extern_data_offset: i64,
    pub extern_data_size: i64,
    pub compress_size_begin_pos: i64,
    pub checksum_byte_size: u8,
    pub checksum_offset: i64,
    pub head_data_size: i64,
    pub head_data_offset: i64,
    pub head_data_compressed_size: i64,
    pub hdiff_data_offset: i64,
    pub hdiff_data_size: i64,
}

impl DataReferenceInfo {
    /// The value with every number zero.
    pub open spec fn zero() -> Self {
        DataReferenceInfo {
            input_dir_count: 0,
            input_ref_file_count: 0,
            input_ref_file_size: 0,
            input_sum_size: 0,
            output_dir_count: 0,
            output_ref_file_count: 0,
            output_ref_file_size: 0,
            output_sum_size: 0,
            same_file_pair_count: 0,
            same_file_size: 0,
            new_execute_count: 0,
            private_reserved_data_size: 0,
            private_extern_data_size: 0,
            private_extern_data_offset: 0,
            extern_data_offset: 0,
            extern_data_size: 0,
            compress_size_begin_pos: 0,
            checksum_byte_size: 0,
            checksum_offset: 0,
            head_data_size: 0,
            head_data_offset: 0,
            head_data_compressed_size: 0,
            hdiff_data_offset: 0,
            hdiff_data_size: 0,
        }
    }
}

impl DeepView for DataReferenceInfo {
    type V = DataReferenceInfo;

    open spec fn deep_view(&self) -> DataReferenceInfo {
        *self
    }
}

impl Default for DataReferenceInfo {
    fn default() -> (r: Self)
        ensures
            r == DataReferenceInfo::zero(),
    {
        DataReferenceInfo {
            input_dir_count: 0,
            input_ref_file_count: 0,
            input_ref_file_size: 0,
            input_sum_size: 0,
            output_dir_count: 0,
            output_ref_file_count: 0,
            output_ref_file_size: 0,
            output_sum_size: 0,
            same_file_pair_count: 0,
            same_file_size: 0,
            new_execute_count: 0,
            private_reserved_data_size: 0,
            private_extern_data_size: 0,
            private_extern_data_offset: 0,
            extern_data_offset: 0,
            extern_data_size: 0,
            compress_size_begin_pos: 0,
            checksum_byte_size: 0,
            checksum_offset: 0,
            head_data_size: 0,
            head_data_offset: 0,
            head_data_compressed_size: 0,
            hdiff_data_offset: 0,
            hdiff_data_size: 0,
        }
    }
}

/// The one compressed chunk of a single-compressed patch.
#[derive(Debug, Clone, Copy, PartialEq, Eq, Structural)]
pub struct DiffSingleChunkInfo {
    pub uncompressed_size: i64,
    pub compressed_size: i64,
    pub diff_data_pos: i64,
}

impl DiffSingleChunkInfo {
    /// The value with every number zero.
    pub open spec fn zero() -> Self {
        DiffSingleChunkInfo {
            uncompressed_size: 0,
            compressed_size: 0,
            diff_data_pos: 0,
        }
    }
}

impl Default for DiffSingleChunkInfo {
    fn default() -> (r: Self)
        ensures
            r == DiffSingleChunkInfo::zero(),
    {
        DiffSingleChunkInfo {
            uncompressed_size: 0,
            compressed_size: 0,
            diff_data_pos: 0,
        }
    }
}

/// The four chunks of a patch whose parts are compressed apart.
#[derive(Debug, Clone, Copy, PartialEq, Eq, Structural)]
pub struct DiffChunkInfo {
    pub types_end_pos: i64,
    pub cover_count: i64,
    pub compress_size_begin_pos: i64,
    pub cover_buf_size: i64,
    pub compress_cover_buf_size: i64,
    pub rle_ctrl_buf_size: i64,
    pub compress_rle_ctrl_buf_size: i64,
    pub rle_code_buf_size: i64,
    pub compress_rle_code_buf_size: i64,
    pub new_data_diff_size: i64,
    pub compress_new_data_diff_size: i64,
    pub head_end_pos: i64,
    pub cover_end_pos: i64,
}

impl DiffChunkInfo {
    /// The value with every number zero.
    pub open spec fn zero() -> Self {
        DiffChunkInfo {
            types_end_pos: 0,
            cover_count: 0,
            compress_size_begin_pos: 0,
            cover_buf_size: 0,
            compress_cover_buf_size: 0,
            rle_ctrl_buf_size: 0,
            compress_rle_ctrl_buf_size: 0,
            rle_code_buf_size: 0,
            compress_rle_code_buf_size: 0,
            new_data_diff_size: 0,
            compress_new_data_diff_size: 0,
            head_end_pos: 0,
            cover_end_pos: 0,
        }
    }
}

impl DeepView for DiffChunkInfo {
    type V = DiffChunkInfo;

    open spec fn deep_view(&self) -> DiffChunkInfo {
        *self
    }
}

impl Default for DiffChunkInfo {
    fn default() -> (r: Self)
        ensures
            r == DiffChunkInfo::zero(),
    {
        DiffChunkInfo {
            types_end_pos: 0,
            cover_count: 0,
            compress_size_begin_pos: 0,
            cover_buf_size: 0,
            compress_cover_buf_size: 0,
            rle_ctrl_buf_size: 0,
            compress_rle_ctrl_buf_size: 0,
            rle_code_buf_size: 0,
            compress_rle_code_buf_size: 0,
            new_data_diff_size: 0,
            compress_new_data_diff_size: 0,
            head_end_pos: 0,
            cover_end_pos: 0,
        }
    }
}

/// What the header of a patch says.
#[derive(Debug, Clone)]
pub struct HeaderInfo {
    pub comp_mode: CompressionMode,
    pub checksum_mode: ChecksumMode,
    pub is_input_dir: bool,
    pub is_output_dir: bool,
    pub is_single_compressed_diff: bool,
    pub patch_path: String,
    pub header_magic: String,
    pub step_mem_size: i64,
    pub dir_data_is_compressed: bool,
    pub old_data_size: i64,
    pub new_data_size: i64,
    pub compressed_count: i64,
    pub single_chunk_info: DiffSingleChunkInfo,
    pub chunk_info: DiffChunkInfo,
}

/// A header as contracts speak of it, with its texts as characters.
pub struct HeaderModel {
    pub comp_mode: CompressionMode,
    pub checksum_mode: ChecksumMode,
    pub is_input_dir: bool,
    pub is_output_dir: bool,
    pub is_single_compressed_diff: bool,
    pub patch_path: Seq<char>,
    pub header_magic: Seq<char>,
    pub step_mem_size: i64,
    pub dir_data_is_compressed: bool,
    pub old_data_size: i64,
    pub new_data_size: i64,
    pub compressed_count: i64,
    pub single_chunk_info: DiffSingleChunkInfo,
    pub chunk_info: DiffChunkInfo,
}

impl DeepView for HeaderInfo {
    type V = HeaderModel;

    open spec fn deep_view(&self) -> HeaderModel {
        HeaderModel {
            comp_mode: self.comp_mode,
            checksum_mode: self.checksum_mode,
            is_input_dir: self.is_input_dir,
            is_output_dir: self.is_output_dir,
            is_single_compressed_diff: self.is_single_compressed_diff,
            patch_path: self.patch_path@,
            header_magic: self.header_magic@,
            step_mem_size: self.step_mem_size,
            dir_data_is_compressed: self.dir_data_is_compressed,
            old_data_size: self.old_data_size,
            new_data_size: self.new_data_size,
            compressed_count: self.compressed_count,
            single_chunk_info: self.single_chunk_info,
            chunk_info: self.chunk_info,
        }
    }
}

impl HeaderModel {
    /// The header that says nothing.
    pub open spec fn zero() -> Self {
        HeaderModel {
            comp_mode: CompressionMode::Nocomp,
            checksum_mode: ChecksumMode::Nochecksum,
            is_input_dir: false,
            is_output_dir: false,
            is_single_compressed_diff: false,
            patch_path: Seq::empty(),
            header_magic: Seq::empty(),
            step_mem_size: 0,
            dir_data_is_compressed: false,
            old_data_size: 0,
            new_data_size: 0,
            compressed_count: 0,
            single_chunk_info: DiffSingleChunkInfo::zero(),
            chunk_info: DiffChunkInfo::zero(),
        }
    }
}

impl Default for HeaderInfo {
    fn default() -> (r: Self)
        ensures
            r.deep_view() == HeaderModel::zero(),
    {
        HeaderInfo {
            comp_mode: CompressionMode::Nocomp,
            checksum_mode: ChecksumMode::Nochecksum,
            is_input_dir: false,
            is_output_dir: false,
            is_single_compressed_diff: false,
            patch_path: String::new(),
            header_magic: String::new(),
            step_mem_size: 0,
            dir_data_is_compressed: false,
            old_data_size: 0,
            new_data_size: 0,
            compressed_count: 0,
            single_chunk_info: DiffSingleChunkInfo::default(),
            chunk_info: DiffChunkInfo::default(),
        }
    }
}

/// A new file with the same contents as an old one, both by their place in the
/// lists of paths.
#[derive(Debug, Clone, Copy, PartialEq, Eq, Structural)]
pub struct PairIndexReference {
    pub new_index: i64,
    pub old_index: i64,
}

impl DeepView for PairIndexReference {
    type V = PairIndexReference;

    open spec fn deep_view(&self) -> PairIndexReference {
        *self
    }
}

/// What the head of a directory patch lists.
#[derive(Debug, Clone)]
pub struct DirectoryReferencePair {
    pub old_utf8_path_list: Vec<String>,
    pub new_utf8_path_list: Vec<String>,
    pub old_ref_list: Vec<i64>,
    pub new_ref_list: Vec<i64>,
    pub new_ref_size_list: Vec<i64>,
    pub data_same_pair_list: Vec<PairIndexReference>,
    pub new_execute_list: Vec<i64>,
}

/// The lists of a directory patch as contracts speak of them.
pub struct DirectoryModel {
    pub old_paths: Seq<Seq<char>>,
    pub new_paths: Seq<Seq<char>>,
    pub old_refs: Seq<i64>,
    pub new_refs: Seq<i64>,
    pub new_ref_sizes: Seq<i64>,
    pub same_pairs: Seq<PairIndexReference>,
    pub new_executes: Seq<i64>,
}

impl DeepView for DirectoryReferencePair {
    type V = DirectoryModel;

    open spec fn deep_view(&self) -> DirectoryModel {
        DirectoryModel {
            old_paths: self.old_utf8_path_list.deep_view(),
            new_paths: self.new_utf8_path_list.deep_view(),
            old_refs: self.old_ref_list@,
            new_refs: self.new_ref_list@,
            new_ref_sizes: self.new_ref_size_list@,
            same_pairs: self.data_same_pair_list@,
            new_executes: self.new_execute_list@,
        }
    }
}

/// What is left of the run that the difference bytes are in: first bytes of
/// one value, then bytes out of the code stream.
#[derive(Debug, Clone, Copy, PartialEq, Eq, Structural)]
pub struct RleRefClip {
    pub mem_copy_length: i64,
    pub mem_set_length: i64,
    pub mem_set_value: u8,
}

impl Default for RleRefClip {
    fn default() -> (r: Self)
        ensures
            r == (RleRefClip { mem_copy_length: 0, mem_set_length: 0, mem_set_value: 0 }),
    {
        RleRefClip { mem_copy_length: 0, mem_set_length: 0, mem_set_value: 0 }
    }
}

/// A stretch of old data that the new data takes over.
#[derive(Debug, Clone, Copy, PartialEq, Eq, Structural)]
pub struct CoverHeader {
    pub old_pos: i64,
    pub new_pos: i64,
    pub cover_length: i64,
    pub next_cover_index: i64,
}

impl CoverHeader {
    /// The cover with these places, this length and this many covers behind it.
    pub fn new(old_pos: i64, new_pos: i64, cover_length: i64, next_cover_index: i64) -> (r: Self)
        ensures
            r == (CoverHeader { old_pos, new_pos, cover_length, next_cover_index }),
    {
        CoverHeader { old_pos, new_pos, cover_length, next_cover_index }
    }
}

} // verus!
