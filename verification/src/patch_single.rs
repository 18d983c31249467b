//! Patches of one file whose parts are compressed apart.
use crate::clips::{
    clips_of, decoder_used, is_padding, law_zlib_padding, open_clips, padding_for, padding_of,
};
use crate::error::PatchError;
use crate::patch_core::{holds_front, patch_reports, patched, ClipsModel, PatchCoreImpl};
use crate::streams::SeekableRead;
use crate::structs::{CompressionMode, DiffChunkInfo, HeaderInfo};
use vstd::prelude::*;

verus! {

/// The new data, and how much of it is passed on each time, that a patch with
/// this header makes out of old data.
pub open spec fn chunks_patched(
    patch: Seq<u8>,
    comp_mode: CompressionMode,
    info: DiffChunkInfo,
    new_data_size: i64,
    padding: int,
    contents: Seq<u8>,
    last_position: int,
) -> Result<(Seq<u8>, Seq<i64>), PatchError> {
    match clips_of(patch, comp_mode, info, padding) {
        Err(e) => Err(e),
        Ok(clips) => clips_patched(clips, info, new_data_size, contents, last_position),
    }
}

/// The new data, and how much of it is passed on each time, that the streams of
/// a patch make out of old data.
pub open spec fn clips_patched(
    clips: ClipsModel,
    info: DiffChunkInfo,
    new_data_size: i64,
    contents: Seq<u8>,
    last_position: int,
) -> Result<(Seq<u8>, Seq<i64>), PatchError> {
    match patched(
        clips,
        contents,
        last_position,
        info.cover_count as int,
        info.cover_buf_size as int,
        new_data_size as int,
    ) {
        None => Err(PatchError::Malformed),
        Some(data) => Ok(
            (
                data,
                patch_reports(
                    clips,
                    contents,
                    last_position,
                    info.cover_count as int,
                    info.cover_buf_size as int,
                    new_data_size as int,
                ),
            ),
        ),
    }
}

/// The new data that is made, where it is.
pub open spec fn data_made(made: Result<(Seq<u8>, Seq<i64>), PatchError>) -> Option<Seq<u8>> {
    match made {
        Ok((data, _)) => Some(data),
        Err(_) => None,
    }
}

/// How much of the new data is passed on each time, where it is made.
pub open spec fn reports_made(made: Result<(Seq<u8>, Seq<i64>), PatchError>) -> Option<Seq<i64>> {
    match made {
        Ok((_, reports)) => Some(reports),
        Err(_) => None,
    }
}

/// Two patches in zlib mode that differ only in the padding before their compressed
/// parts make the same new data out of the same old data, or are refused for the
/// same reason.
pub proof fn law_zlib_padding_patched(
    one: Seq<u8>,
    other: Seq<u8>,
    info: DiffChunkInfo,
    new_data_size: i64,
    contents: Seq<u8>,
    last_position: int,
)
    requires
        one.len() == other.len(),
        forall|i: int| 0 <= i < one.len() && !is_padding(info, i) ==> one[i] == other[i],
    ensures
        chunks_patched(
            one,
            CompressionMode::Zlib,
            info,
            new_data_size,
            padding_of(CompressionMode::Zlib),
            contents,
            last_position,
        ) == chunks_patched(
            other,
            CompressionMode::Zlib,
            info,
            new_data_size,
            padding_of(CompressionMode::Zlib),
            contents,
            last_position,
        ),
{
    law_zlib_padding(one, other, info);
}

/// A patch of one file whose parts are compressed apart.
pub struct PatchSingle {
    pub header_info: HeaderInfo,
}

impl PatchSingle {
    /// The patch with this header.
    pub fn new(header_info: HeaderInfo) -> (r: Self)
        ensures
            r.header_info == header_info,
    {
        Self { header_info }
    }

    /// Appends the new data that `patch` makes out of the old data to
    /// `output_stream`, and returns how much of it was passed on each time.
    /// Only a compressed part can fail to be decompressed.
    pub fn patch<I: SeekableRead>(
        &self,
        input_stream: &mut I,
        output_stream: &mut Vec<u8>,
        patch: &[u8],
    ) -> (r: Result<Vec<i64>, PatchError>)
        requires
            old(input_stream).well_formed(),
        ensures
            final(input_stream).well_formed(),
            final(input_stream).contents() == old(input_stream).contents(),
            final(input_stream).last_position() == old(input_stream).last_position(),
            ({
                let header = self.header_info;
                let padding = padding_of(header.comp_mode);
                let want = chunks_patched(
                    patch@,
                    header.comp_mode,
                    header.chunk_info,
                    header.new_data_size,
                    padding,
                    old(input_stream).contents(),
                    old(input_stream).last_position(),
                );
                match r {
                    Ok(reports) => want matches Ok((data, sizes)) && {
                        &&& reports@ == sizes
                        &&& final(output_stream)@ == old(output_stream)@ + data
                    },
                    Err(e) => {
                        &&& holds_front(
                            old(output_stream)@,
                            final(output_stream)@,
                            data_made(want),
                        )
                        &&& clips_of(patch@, header.comp_mode, header.chunk_info, padding) is Err
                            ==> final(output_stream)@ == old(output_stream)@
                        &&& {
                            ||| want matches Err(want_e) && e == want_e
                            ||| e == PatchError::Decoder && decoder_used(
                                patch@,
                                header.comp_mode,
                                header.chunk_info,
                                padding,
                            )
                        }
                    },
                }
            }),
    {
        let padding = padding_for(self.header_info.comp_mode);
        let mut core = PatchCoreImpl::new(
            self.header_info.new_data_size,
            String::new(),
            String::new(),
        );
        let done = self.start_patch_routine(
            input_stream,
            output_stream,
            &mut core,
            patch,
            padding,
        );
        match done {
            Ok(_) => {
                let reports = core.written;
                assert(reports@ =~= Seq::<i64>::empty() + reports@);
                Ok(reports)
            },
            Err(e) => Err(e),
        }
    }

    /// Opens the streams of a patch, and appends the new data that they make out of
    /// the old data to `output_stream`.
    pub fn start_patch_routine<I: SeekableRead>(
        &self,
        input_stream: &mut I,
        output_stream: &mut Vec<u8>,
        core: &mut PatchCoreImpl,
        patch: &[u8],
        padding: u64,
    ) -> (r: Result<(), PatchError>)
        requires
            old(input_stream).well_formed(),
        ensures
            final(core).same_but_for_reports(*old(core)),
            final(input_stream).well_formed(),
            final(input_stream).contents() == old(input_stream).contents(),
            final(input_stream).last_position() == old(input_stream).last_position(),
            ({
                let want = chunks_patched(
                    patch@,
                    self.header_info.comp_mode,
                    self.header_info.chunk_info,
                    self.header_info.new_data_size,
                    padding as int,
                    old(input_stream).contents(),
                    old(input_stream).last_position(),
                );
                match r {
                    Ok(_) => want matches Ok((data, sizes)) && {
                        &&& final(core).written@ == old(core).written@ + sizes
                        &&& final(output_stream)@ == old(output_stream)@ + data
                    },
                    Err(e) => {
                        &&& holds_front(
                            old(output_stream)@,
                            final(output_stream)@,
                            data_made(want),
                        )
                        &&& holds_front(
                            old(core).written@,
                            final(core).written@,
                            reports_made(want),
                        )
                        &&& clips_of(
                            patch@,
                            self.header_info.comp_mode,
                            self.header_info.chunk_info,
                            padding as int,
                        ) is Err ==> final(output_stream)@ == old(output_stream)@
                        &&& {
                            ||| want matches Err(want_e) && e == want_e
                            ||| e == PatchError::Decoder && decoder_used(
                                patch@,
                                self.header_info.comp_mode,
                                self.header_info.chunk_info,
                                padding as int,
                            )
                        }
                    },
                }
            }),
    {
        proof {
            let written = core.written@;
            assert(forall|all: Seq<i64>| written.is_prefix_of(#[trigger] (written + all)));
        }
        let mut clips = open_clips(patch, &self.header_info, padding)?;
        core.uncover_buffer_clips_stream(&mut clips, input_stream, output_stream, &self.header_info)
    }
}

} // verus!
