//! How the two headers of a KrDiff patch are written, and the laws that reading them
//! undoes writing them.
use crate::compression_utils::zstd_decoded;
use crate::error::PatchError;
use crate::kr_format::{
    hd13_of, hd19_of, head_data_of, head_lead_of, lead_of, second_lead_of, section_of, unsigned_of,
    KrCounts, KrCover, KrHd13Model, KrHd19Model,
};
use crate::parser::{bytes_from, longs_of};
use crate::streams::bytes_between;
use crate::structs::compression_named;
use crate::text::{lowercase, utf8_lossy};
use crate::varint::as_unsigned;
use crate::written::law_boolean_read_back;
use crate::written_kr::{kr_covers_written, law_kr_covers_read_back};
use crate::written_lists::{
    law_delimited_read_back, law_sizes_read_back, no_zero, sizes_written,
};
use vstd::prelude::*;

verus! {

/// Whether a text is short enough to be read and holds no `&`.
pub open spec fn is_name(text: Seq<u8>) -> bool {
    &&& text.len() < 10
    &&& forall|i: int| 0 <= i < text.len() ==> #[trigger] text[i] != 38u8
}

/// The numbers of the first header.
pub struct KrSizes {
    pub old_paths: u64,
    pub old_paths_size: u64,
    pub new_paths: u64,
    pub new_paths_size: u64,
    pub old_refs: u64,
    pub old_ref_size: u64,
    pub new_refs: u64,
    pub new_ref_size: u64,
    pub same_pairs: u64,
    pub same_size: u64,
    pub executes: u64,
    pub reserved_size: u64,
    pub private_size: u64,
    pub other_size: u64,
    pub head_size: u64,
    pub head_comp_size: u64,
    pub checksum_size: u64,
}

/// The numbers of the first header in their order.
pub open spec fn sizes_in_order(n: KrSizes) -> Seq<u64> {
    seq![
        n.old_paths,
        n.old_paths_size,
        n.new_paths,
        n.new_paths_size,
        n.old_refs,
        n.old_ref_size,
        n.new_refs,
        n.new_ref_size,
        n.same_pairs,
        n.same_size,
        n.executes,
        n.reserved_size,
        n.private_size,
        n.other_size,
        n.head_size,
        n.head_comp_size,
        n.checksum_size,
    ]
}

/// The first header before it is written: its signature, whose parts are a kind, the name of
/// a compression mode and the name of a checksum, whether old and new are directories, and
/// its numbers.
pub struct KrFront {
    pub kind: Seq<u8>,
    pub comp_name: Seq<u8>,
    pub sum_name: Seq<u8>,
    pub old_is_dir: u8,
    pub new_is_dir: u8,
    pub sizes: KrSizes,
}

impl KrFront {
    /// The header up to its checksums as it is written.
    pub open spec fn written(self) -> Seq<u8> {
        self.kind.push(38) + (self.comp_name.push(38) + (self.sum_name.push(0) + (seq![
            self.old_is_dir,
        ] + (seq![self.new_is_dir] + sizes_written(sizes_in_order(self.sizes))))))
    }

    /// Whether the parts of the signature can be told apart.
    pub open spec fn valid(self) -> bool {
        &&& is_name(self.kind)
        &&& is_name(self.comp_name)
        &&& self.sum_name.len() < 15
        &&& no_zero(self.sum_name)
    }
}

/// Reading undoes writing for the first header up to its checksums. One of another kind is
/// refused.
#[verifier::rlimit(40)]
pub proof fn law_kr_lead_read_back(front: KrFront, rest: Seq<u8>)
    requires
        front.valid(),
    ensures
        if utf8_lossy(front.kind) == "HDIFF19"@ {
            lead_of(front.written() + rest) matches Ok(((comp_name, n), left)) && {
                &&& comp_name == utf8_lossy(front.comp_name)
                &&& unsigned_of(n) == sizes_in_order(front.sizes)
                &&& n.len() == 17
                &&& left == rest
            }
        } else {
            lead_of(front.written() + rest) matches Err(e) && e == PatchError::ExpectedHdiff19
        },
{
    let s6 = sizes_written(sizes_in_order(front.sizes)) + rest;
    let s5 = seq![front.new_is_dir] + s6;
    let s4 = seq![front.old_is_dir] + s5;
    let s3 = front.sum_name.push(0) + s4;
    let s2 = front.comp_name.push(38) + s3;
    assert(front.written() + rest =~= front.kind.push(38) + s2);
    assert('&' as u8 == 38u8);
    law_delimited_read_back(front.kind, 38, 10, s2);
    law_delimited_read_back(front.comp_name, 38, 10, s3);
    law_delimited_read_back(front.sum_name, 0, 15, s4);
    law_boolean_read_back(front.old_is_dir, s5);
    law_boolean_read_back(front.new_is_dir, s6);
    law_sizes_read_back(sizes_in_order(front.sizes), rest);
    let n = (longs_of(s6, 17)->Ok_0).0;
    assert(unsigned_of(n).len() == n.len());
}

/// A section of a patch as it stands in the file: as it is, or compressed.
pub open spec fn section_holds(bytes: Seq<u8>, size: u64, comp_size: u64, clear: Seq<u8>) -> bool {
    if comp_size > 0 {
        bytes.len() == comp_size && zstd_decoded(bytes) == clear
    } else {
        bytes.len() == size && bytes == clear
    }
}

/// A section is found at its place, and decompressed where it has a compressed size.
pub proof fn law_section_found(
    front: Seq<u8>,
    bytes: Seq<u8>,
    rest: Seq<u8>,
    size: u64,
    comp_size: u64,
    clear: Seq<u8>,
)
    requires
        section_holds(bytes, size, comp_size, clear),
    ensures
        section_of(front + bytes + rest, front.len() as int, size, comp_size) == clear,
{
    let (start, end) = (front.len() as int, (front.len() + bytes.len()) as int);
    assert(bytes_between(front + bytes + rest, start, end) =~= bytes);
}

/// A patch as it stands in the file: what comes before it, the first header, the checksums,
/// the head, the private and the public bytes of others, and the rest.
pub struct KrPatch {
    pub before: Seq<u8>,
    pub front: KrFront,
    pub checksums: Seq<u8>,
    pub head: Seq<u8>,
    pub private_data: Seq<u8>,
    pub other_data: Seq<u8>,
    pub rest: Seq<u8>,
}

impl KrPatch {
    /// What stands before the head.
    pub open spec fn before_head(self) -> Seq<u8> {
        self.before + self.front.written() + self.checksums
    }

    /// What stands before the second header.
    pub open spec fn before_second(self) -> Seq<u8> {
        self.before_head() + self.head + self.private_data + self.other_data
    }

    /// All the bytes.
    pub open spec fn bytes(self) -> Seq<u8> {
        self.before_second() + self.rest
    }

    /// Whether the sizes are those of the parts, and the head stands for `clear`.
    pub open spec fn valid(self, clear: Seq<u8>) -> bool {
        let sizes = self.front.sizes;
        &&& self.front.valid()
        &&& utf8_lossy(self.front.kind) == "HDIFF19"@
        &&& self.checksums.len() == 4 * sizes.checksum_size
        &&& section_holds(self.head, sizes.head_size, sizes.head_comp_size, clear)
        &&& self.private_data.len() == sizes.private_size
        &&& self.other_data.len() == sizes.other_size
        &&& self.bytes().len() <= i64::MAX
    }
}

/// Where the parts of a patch stand.
#[verifier::rlimit(40)]
proof fn lemma_kr_parts_in_place(p: KrPatch)
    ensures
        ({
            let all = p.bytes();
            let front = p.before + p.front.written();
            &&& bytes_from(all, p.before.len() as int) == p.front.written() + all.skip(
                front.len() as int,
            )
            &&& all == p.before_head() + p.head + all.skip(
                (p.before_head().len() + p.head.len()) as int,
            )
            &&& all.len() == front.len() + p.checksums.len() + p.head.len()
                + p.private_data.len() + p.other_data.len() + p.rest.len()
        }),
{
    let all = p.bytes();
    let front = p.before + p.front.written();
    let more = p.checksums + p.head + p.private_data + p.other_data + p.rest;
    assert(all =~= front + more);
    assert(all.skip(front.len() as int) =~= more);
    assert(bytes_from(all, p.before.len() as int) =~= p.front.written() + more);
    let last = p.private_data + p.other_data + p.rest;
    assert(all =~= p.before_head() + p.head + last);
    assert(all.skip((p.before_head().len() + p.head.len()) as int) =~= last);
}

/// Reading undoes writing for the first header: its counts and sizes come back, the head is
/// read where it stands, and the second header stands behind the bytes of others.
#[verifier::rlimit(40)]
pub proof fn law_kr_first_header_read_back(p: KrPatch, clear: Seq<u8>)
    requires
        p.valid(clear),
    ensures
        ({
            let sizes = p.front.sizes;
            let counts = KrCounts {
                old_paths: sizes.old_paths,
                new_paths: sizes.new_paths,
                old_refs: sizes.old_refs,
                new_refs: sizes.new_refs,
            };
            head_lead_of(p.bytes(), p.before.len() as int) matches Ok(lead) && {
                &&& lead.counts == counts
                &&& lead.comp_name == utf8_lossy(p.front.comp_name)
                &&& lead.head_pos == p.before_head().len()
                &&& match head_data_of(clear, counts) {
                    Err(e) => hd19_of(p.bytes(), lead) == Err::<(KrHd19Model, int), PatchError>(e),
                    Ok((head, _)) => match compression_named(
                        lowercase(utf8_lossy(p.front.comp_name)),
                    ) {
                        None => hd19_of(p.bytes(), lead) == Err::<(KrHd19Model, int), PatchError>(
                            PatchError::UnknownCompression,
                        ),
                        Some(comp_mode) => hd19_of(p.bytes(), lead) == Ok::<
                            (KrHd19Model, int),
                            PatchError,
                        >(
                            (
                                KrHd19Model {
                                    comp_mode,
                                    old_ref_size: sizes.old_ref_size,
                                    new_ref_size: sizes.new_ref_size,
                                    head,
                                },
                                p.before_second().len() as int,
                            ),
                        ),
                    },
                }
            }
        }),
{
    let all = p.bytes();
    let sizes = p.front.sizes;
    let pos = p.before.len() as int;
    lemma_kr_parts_in_place(p);
    let front_len = (p.before + p.front.written()).len() as int;
    let behind = all.skip(front_len);
    law_kr_lead_read_back(p.front, behind);
    let ((_, n), _) = lead_of(p.front.written() + behind)->Ok_0;
    let order = sizes_in_order(sizes);
    assert forall|i: int| 0 <= i < 17 implies as_unsigned(#[trigger] n[i]) == order[i] by {
        assert(unsigned_of(n)[i] == as_unsigned(n[i]));
    }
    let lead = head_lead_of(all, pos)->Ok_0;
    assert(as_unsigned(n[16]) == sizes.checksum_size);
    assert(lead.head_pos == p.before_head().len());
    law_section_found(
        p.before_head(),
        p.head,
        all.skip((p.before_head().len() + p.head.len()) as int),
        sizes.head_size,
        sizes.head_comp_size,
        clear,
    );
}

/// The numbers of the second header.
pub struct KrSecondSizes {
    pub new_size: u64,
    pub old_size: u64,
    pub cover_count: u64,
    pub cover_size: u64,
    pub cover_comp_size: u64,
    pub ctrl_size: u64,
    pub ctrl_comp_size: u64,
    pub code_size: u64,
    pub code_comp_size: u64,
    pub diff_size: u64,
    pub diff_comp_size: u64,
}

/// The numbers of the second header in their order.
pub open spec fn second_sizes_in_order(n: KrSecondSizes) -> Seq<u64> {
    seq![
        n.new_size,
        n.old_size,
        n.cover_count,
        n.cover_size,
        n.cover_comp_size,
        n.ctrl_size,
        n.ctrl_comp_size,
        n.code_size,
        n.code_comp_size,
        n.diff_size,
        n.diff_comp_size,
    ]
}

/// The second header and what stands round it: what comes before it, its signature, whose
/// parts are a kind and the name of a compression mode, its numbers, the covers, the control
/// and the code stream, and the rest.
pub struct KrSecond {
    pub before: Seq<u8>,
    pub kind: Seq<u8>,
    pub comp_name: Seq<u8>,
    pub sizes: KrSecondSizes,
    pub cover: Seq<u8>,
    pub ctrl: Seq<u8>,
    pub code: Seq<u8>,
    pub rest: Seq<u8>,
}

impl KrSecond {
    /// The header up to its covers as it is written.
    pub open spec fn written(self) -> Seq<u8> {
        self.kind.push(38) + (self.comp_name.push(0) + sizes_written(
            second_sizes_in_order(self.sizes),
        ))
    }

    /// What stands before the covers.
    pub open spec fn before_cover(self) -> Seq<u8> {
        self.before + self.written()
    }

    /// What stands before the new bytes.
    pub open spec fn before_diff(self) -> Seq<u8> {
        self.before_cover() + self.cover + self.ctrl + self.code
    }

    /// All the bytes.
    pub open spec fn bytes(self) -> Seq<u8> {
        self.before_diff() + self.rest
    }

    /// Whether the sizes are those of the parts, and the covers stand for `clear`.
    pub open spec fn valid(self, clear: Seq<u8>) -> bool {
        let n = self.sizes;
        &&& is_name(self.kind)
        &&& utf8_lossy(self.kind) == "HDIFF13"@
        &&& self.comp_name.len() < 10
        &&& no_zero(self.comp_name)
        &&& section_holds(self.cover, n.cover_size, n.cover_comp_size, clear)
        &&& self.ctrl.len() == taken(n.ctrl_size, n.ctrl_comp_size)
        &&& self.code.len() == taken(n.code_size, n.code_comp_size)
        &&& self.bytes().len() <= i64::MAX
    }
}

/// How many bytes a part takes up.
pub open spec fn taken(size: u64, comp_size: u64) -> int {
    if comp_size > 0 {
        comp_size as int
    } else {
        size as int
    }
}

/// Reading undoes writing for the second header up to its covers. One of another kind is
/// refused.
pub proof fn law_kr_second_lead_read_back(s: KrSecond, rest: Seq<u8>)
    requires
        is_name(s.kind),
        s.comp_name.len() < 10,
        no_zero(s.comp_name),
    ensures
        if utf8_lossy(s.kind) == "HDIFF13"@ {
            second_lead_of(s.written() + rest) matches Ok(((comp_name, n), left)) && {
                &&& comp_name == utf8_lossy(s.comp_name)
                &&& unsigned_of(n) == second_sizes_in_order(s.sizes)
                &&& n.len() == 11
                &&& left == rest
            }
        } else {
            second_lead_of(s.written() + rest) matches Err(e) && e == PatchError::ExpectedHdiff13
        },
{
    let s3 = sizes_written(second_sizes_in_order(s.sizes)) + rest;
    let s2 = s.comp_name.push(0) + s3;
    assert(s.written() + rest =~= s.kind.push(38) + s2);
    assert('&' as u8 == 38u8);
    law_delimited_read_back(s.kind, 38, 10, s2);
    law_delimited_read_back(s.comp_name, 0, 10, s3);
    law_sizes_read_back(second_sizes_in_order(s.sizes), rest);
    let n = (longs_of(s3, 11)->Ok_0).0;
    assert(unsigned_of(n).len() == n.len());
}

/// Reading undoes writing for the second header: its covers come back, however they are
/// stored, and the new bytes are found behind the parts before them.
#[verifier::rlimit(40)]
pub proof fn law_kr_second_header_read_back(s: KrSecond, covers: Seq<KrCover>, tail: Seq<u8>)
    requires
        s.valid(kr_covers_written(covers) + tail),
        s.sizes.cover_count == covers.len(),
    ensures
        hd13_of(s.bytes(), s.before.len() as int) == match compression_named(
            lowercase(utf8_lossy(s.comp_name)),
        ) {
            None => Err::<KrHd13Model, PatchError>(PatchError::UnknownCompression),
            Some(comp_mode) => Ok(
                KrHd13Model {
                    covers,
                    new_data_size: s.sizes.new_size,
                    new_data_diff_offset: s.before_diff().len() as u64,
                    new_data_diff_size: s.sizes.diff_size,
                    new_data_diff_comp_size: s.sizes.diff_comp_size,
                    comp_mode,
                },
            ),
        },
{
    let all = s.bytes();
    let pos = s.before.len() as int;
    let behind = s.cover + s.ctrl + s.code + s.rest;
    let more = s.ctrl + s.code + s.rest;
    assert(bytes_from(all, pos) =~= s.written() + behind);
    assert(all =~= s.before_cover() + s.cover + more);
    law_kr_second_lead_read_back(s, behind);
    let ((_, n), _) = second_lead_of(s.written() + behind)->Ok_0;
    let order = second_sizes_in_order(s.sizes);
    assert forall|i: int| 0 <= i < 11 implies as_unsigned(#[trigger] n[i]) == order[i] by {
        assert(unsigned_of(n)[i] == as_unsigned(n[i]));
    }
    law_section_found(
        s.before_cover(),
        s.cover,
        more,
        s.sizes.cover_size,
        s.sizes.cover_comp_size,
        kr_covers_written(covers) + tail,
    );
    law_kr_covers_read_back(covers, tail);
    assert(as_unsigned(n[2]) == covers.len());
    assert(as_unsigned(n[3]) == s.sizes.cover_size);
    assert(as_unsigned(n[4]) == s.sizes.cover_comp_size);
}

} // verus!
