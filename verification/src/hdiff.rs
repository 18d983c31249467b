//! Opening an HDiff patch, and applying it to one file.
use crate::clips::{decoder_used, padding_of};
use crate::error::PatchError;
use crate::header::{header_of, Header};
use crate::parser::ByteStream;
use crate::patch_core::holds_front;
use crate::patch_sf::{
    piece_of, sf_fails, whole_decodes, whole_patched, OldModel, PatchSF, SfStop,
};
use crate::patch_single::{chunks_patched, data_made, PatchSingle};
use crate::structs::{DataReferenceInfo, HeaderInfo, HeaderModel};
use crate::varint::{as_signed, to_signed};
use vstd::prelude::*;

verus! {

/// An HDiff patch whose header has been read.
pub struct HdiffPatch {
    /// Whether the patch is one of a directory to a directory.
    pub patches_dir: bool,
    pub header_info: HeaderInfo,
    pub reference_info: DataReferenceInfo,
}

/// A file's bytes as old data, with pieces of `piece` bytes.
pub open spec fn file_model(file: Seq<u8>, piece: u64) -> OldModel {
    OldModel {
        contents: file,
        last_position: i64::MAX as int,
        refusal: PatchError::InvalidSeek,
        piece: piece as int,
    }
}

/// Whether a file has the size that a header gives.
pub open spec fn size_matches(header: HeaderModel, file: Seq<u8>) -> bool {
    as_signed(file.len() as int) == header.old_data_size
}

/// The new data that a single-compressed patch with this header makes out of a file.
pub open spec fn file_patched_whole(patch: Seq<u8>, header: HeaderModel, file: Seq<u8>) -> Result<
    (Seq<u8>, Seq<u8>),
    SfStop,
> {
    whole_patched(
        patch,
        header.comp_mode,
        header.single_chunk_info,
        header.chunk_info.cover_count,
        file_model(file, piece_of(header.step_mem_size)),
    )
}

/// The new data that another patch with this header makes out of a file, and how much
/// of it is passed on each time.
pub open spec fn file_patched_in_chunks(
    patch: Seq<u8>,
    header: HeaderModel,
    file: Seq<u8>,
) -> Result<(Seq<u8>, Seq<i64>), PatchError> {
    chunks_patched(
        patch,
        header.comp_mode,
        header.chunk_info,
        header.new_data_size,
        padding_of(header.comp_mode),
        file,
        i64::MAX as int,
    )
}

/// The new data that a patch with this header makes out of a file. The file must
/// have the size that the header gives.
pub open spec fn file_patched(patch: Seq<u8>, header: HeaderModel, file: Seq<u8>) -> Result<
    Seq<u8>,
    PatchError,
> {
    if !size_matches(header, file) {
        Err(
            PatchError::OldSizeMismatch {
                expected: header.old_data_size,
                got: as_signed(file.len() as int),
            },
        )
    } else if header.is_single_compressed_diff {
        match file_patched_whole(patch, header, file) {
            Err(stop) => Err(stop.error),
            Ok((data, _)) => Ok(data),
        }
    } else {
        match file_patched_in_chunks(patch, header, file) {
            Err(e) => Err(e),
            Ok((data, _)) => Ok(data),
        }
    }
}

/// Whether a patch with this header is given to a decoder.
pub open spec fn file_decodes(patch: Seq<u8>, header: HeaderModel) -> bool {
    if header.is_single_compressed_diff {
        whole_decodes(patch, header.comp_mode, header.single_chunk_info)
    } else {
        decoder_used(patch, header.comp_mode, header.chunk_info, padding_of(header.comp_mode))
    }
}

/// What a patch of a file that fails with `e` leaves in the output, which held
/// `before`: all that a single-compressed patch made up to there, and of another one
/// no more than a front of the new data.
pub open spec fn file_fails(
    patch: Seq<u8>,
    header: HeaderModel,
    file: Seq<u8>,
    e: PatchError,
    before: Seq<u8>,
    after: Seq<u8>,
) -> bool {
    if !size_matches(header, file) {
        after == before
    } else if header.is_single_compressed_diff {
        sf_fails(
            file_patched_whole(patch, header, file),
            e,
            before,
            after,
            file_decodes(patch, header),
        )
    } else {
        holds_front(before, after, data_made(file_patched_in_chunks(patch, header, file)))
    }
}

impl HdiffPatch {
    /// Reads the header of a patch whose file is at `diff_path`.
    pub fn open(patch: &[u8], diff_path: &str) -> (r: Result<Self, PatchError>)
        ensures
            match r {
                Ok(opened) => header_of(patch@, 0, diff_path@) matches Ok((is_dir, header, info, _))
                    && {
                    &&& opened.header_info.deep_view() == header
                    &&& opened.reference_info == info
                    &&& opened.patches_dir == (is_dir && header.is_input_dir
                        && header.is_output_dir)
                },
                Err(e) => header_of(patch@, 0, diff_path@) matches Err(want_e) && e == want_e,
            },
    {
        let mut stream = ByteStream::new(patch);
        let mut header_info = HeaderInfo::default();
        let mut reference_info = DataReferenceInfo::default();
        let is_dir_patch = Header::try_parse_header_info(
            &mut stream,
            diff_path,
            &mut header_info,
            &mut reference_info,
        )?;
        let patches_dir = is_dir_patch && header_info.is_input_dir && header_info.is_output_dir;
        Ok(HdiffPatch { patches_dir, header_info, reference_info })
    }

    /// Appends the new data that the patch makes out of the bytes of an old file to
    /// `output`. Only a compressed patch can fail to be decompressed.
    pub fn patch_file(self, patch: &[u8], old_file: &[u8], output: &mut Vec<u8>) -> (r: Result<
        (),
        PatchError,
    >)
        ensures
            ({
                let header = self.header_info.deep_view();
                let want = file_patched(patch@, header, old_file@);
                match r {
                    Ok(_) => want matches Ok(data) && final(output)@ == old(output)@ + data,
                    Err(e) => {
                        &&& file_fails(
                            patch@,
                            header,
                            old_file@,
                            e,
                            old(output)@,
                            final(output)@,
                        )
                        &&& {
                            ||| want == Err::<Seq<u8>, PatchError>(e)
                            ||| e == PatchError::Decoder && size_matches(header, old_file@)
                                && file_decodes(patch@, header)
                        }
                    },
                }
            }),
    {
        let got = to_signed(old_file.len() as u64);
        if got != self.header_info.old_data_size {
            return Err(
                PatchError::OldSizeMismatch { expected: self.header_info.old_data_size, got },
            );
        }
        let mut input = ByteStream::new(old_file);
        if self.header_info.is_single_compressed_diff {
            PatchSF::new(self.header_info).patch(&mut input, output, patch)?;
        } else {
            PatchSingle::new(self.header_info).patch(&mut input, output, patch)?;
        }
        Ok(())
    }
}

} // verus!
