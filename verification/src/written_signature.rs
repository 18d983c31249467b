//! How the signature of a patch is written, and the laws that reading it undoes
//! writing it.
use crate::error::PatchError;
use crate::header::signature_of;
use crate::signature::{
    all_digits, decimal_of, first_at, from_first_digit, is_digit, parts_of, version_of, HDIFF_HEAD,
};
use crate::structs::{checksum_named, compression_named, HeaderModel};
use crate::text::lowercase;
use vstd::prelude::*;
use vstd::utf8::encode_utf8;

verus! {

/// Parts as they are written in one line, with an `&` between each two.
pub open spec fn line_of(parts: Seq<Seq<char>>) -> Seq<char>
    decreases parts.len(),
{
    if parts.len() == 0 {
        Seq::empty()
    } else if parts.len() == 1 {
        parts[0]
    } else {
        line_of(parts.drop_last()) + seq!['&'] + parts[parts.len() - 1]
    }
}

/// Whether a text holds no `&`.
pub open spec fn is_part(text: Seq<char>) -> bool {
    forall|i: int| 0 <= i < text.len() ==> #[trigger] text[i] != '&'
}

/// A text without `&` goes on with the last part.
proof fn lemma_part_goes_on(line: Seq<char>, text: Seq<char>)
    requires
        is_part(text),
    ensures
        parts_of(line).len() > 0,
        parts_of(line + text) == parts_of(line).update(
            parts_of(line).len() - 1,
            parts_of(line).last() + text,
        ),
    decreases line.len() + text.len(), text.len(),
{
    let parts = parts_of(line);
    if text.len() == 0 {
        assert(line + text =~= line);
        if line.len() > 0 {
            lemma_part_goes_on(line.drop_last(), Seq::empty());
        }
        assert(parts.last() + text =~= parts.last());
        assert(parts.update(parts.len() - 1, parts.last() + text) =~= parts);
    } else {
        let all = line + text;
        let shorter = text.drop_last();
        assert(all.drop_last() =~= line + shorter);
        assert(text[text.len() - 1] != '&');
        assert(is_part(shorter)) by {
            assert forall|i: int| 0 <= i < shorter.len() implies #[trigger] shorter[i] != '&' by {
                assert(text[i] != '&');
            }
        }
        lemma_part_goes_on(line, shorter);
        assert((parts.last() + shorter).push(text.last()) =~= parts.last() + text);
        assert(parts_of(all) =~= parts.update(parts.len() - 1, parts.last() + text));
    }
}

/// Reading undoes writing for the parts of a signature, however many there are.
pub proof fn law_signature_parts_read_back(parts: Seq<Seq<char>>)
    requires
        parts.len() > 0,
        forall|i: int| 0 <= i < parts.len() ==> is_part(#[trigger] parts[i]),
    ensures
        parts_of(line_of(parts)) == parts,
    decreases parts.len(),
{
    let last = parts[parts.len() - 1];
    assert(is_part(last));
    if parts.len() == 1 {
        let none = Seq::<char>::empty();
        lemma_part_goes_on(none, last);
        assert(none + last =~= last);
        assert(parts_of(none) =~= seq![none]);
        assert(parts_of(last) =~= parts);
    } else {
        let before = parts.drop_last();
        assert forall|i: int| 0 <= i < before.len() implies is_part(#[trigger] before[i]) by {
            assert(before[i] == parts[i]);
        }
        law_signature_parts_read_back(before);
        let opened = line_of(before) + seq!['&'];
        assert(opened.drop_last() =~= line_of(before));
        assert(parts_of(opened) == before.push(Seq::empty()));
        lemma_part_goes_on(opened, last);
        assert(Seq::<char>::empty() + last =~= last);
        assert(parts_of(line_of(parts)) =~= parts);
    }
}

/// The digits of `v`, the most significant first.
pub open spec fn decimal(v: int) -> Seq<char>
    decreases v,
{
    if v < 10 {
        seq![(48 + v) as u8 as char]
    } else {
        decimal(v / 10).push((48 + v % 10) as u8 as char)
    }
}

/// The digits of a number write it.
proof fn lemma_decimal(v: int)
    requires
        0 <= v,
    ensures
        decimal(v).len() > 0,
        all_digits(decimal(v)),
        decimal_of(decimal(v)) == v,
    decreases v,
{
    reveal_with_fuel(decimal_of, 2);
    if v >= 10 {
        lemma_decimal(v / 10);
        let digits = decimal(v);
        assert(digits.drop_last() =~= decimal(v / 10));
        assert forall|i: int| 0 <= i < digits.len() implies is_digit(#[trigger] digits[i]) by {
            if i < digits.len() - 1 {
                assert(digits[i] == decimal(v / 10)[i]);
            }
        }
    } else {
        let digits = decimal(v);
        assert(digits.drop_last() =~= Seq::<char>::empty());
        assert(digits.last() as u32 == 48 + v);
    }
}

/// Whether a text holds no digit.
pub open spec fn no_digits(text: Seq<char>) -> bool {
    forall|i: int| 0 <= i < text.len() ==> !('0' <= #[trigger] text[i] <= '9')
}

/// All before the first digit is passed over.
proof fn lemma_from_first_digit(between: Seq<char>, rest: Seq<char>)
    requires
        no_digits(between),
        rest.len() > 0 ==> is_digit(rest[0]),
    ensures
        from_first_digit(between + rest) == rest,
    decreases between.len(),
{
    let all = between + rest;
    if between.len() == 0 {
        assert(all =~= rest);
    } else {
        assert(all[0] == between[0]);
        assert(all.skip(1) =~= between.skip(1) + rest);
        assert(no_digits(between.skip(1))) by {
            assert forall|i: int| 0 <= i < between.skip(1).len() implies !('0'
                <= #[trigger] between.skip(1)[i] <= '9') by {
                assert(!('0' <= between[i + 1] <= '9'));
            }
        }
        lemma_from_first_digit(between.skip(1), rest);
    }
}

/// Where a text first holds a pattern there is one, and none before. Where no place is
/// given, the text holds it nowhere.
pub proof fn law_first_place(text: Seq<char>, pattern: Seq<char>, from: int)
    requires
        0 <= from,
    ensures
        match first_at(text, pattern, from) {
            Some(at) => {
                &&& from <= at <= text.len() - pattern.len()
                &&& text.subrange(at, at + pattern.len()) == pattern
                &&& forall|i: int|
                    from <= i < at ==> #[trigger] text.subrange(i, i + pattern.len()) != pattern
            },
            None => forall|i: int|
                from <= i <= text.len() - pattern.len() ==> #[trigger] text.subrange(
                    i,
                    i + pattern.len(),
                ) != pattern,
        },
    decreases text.len() + 1 - from,
{
    if from + pattern.len() <= text.len() && text.subrange(from, from + pattern.len()) != pattern {
        law_first_place(text, pattern, from + 1);
    }
}

/// Reading undoes writing for version numbers: the number behind `HDIFF`, and behind what
/// stands between that holds no digit, is read back where it fits. Where anything but
/// digits comes behind it, or no digit comes at all, the version is refused.
pub proof fn law_version_read_back(between: Seq<char>, v: int, other: char, rest: Seq<char>)
    requires
        no_digits(between),
        0 <= v,
    ensures
        version_of("HDIFF"@ + between + decimal(v)) == if v <= i64::MAX {
            Ok::<i64, PatchError>(v as i64)
        } else {
            Err(PatchError::InvalidVersion)
        },
        version_of("HDIFF"@ + between) == Err::<i64, PatchError>(PatchError::InvalidVersion),
        !('0' <= other <= '9') ==> version_of(
            "HDIFF"@ + between + (decimal(v) + seq![other] + rest),
        ) == Err::<i64, PatchError>(PatchError::InvalidVersion),
{
    let none = Seq::<char>::empty();
    let digits = decimal(v);
    lemma_decimal(v);
    lemma_version(between, digits);
    lemma_version(between, none);
    assert("HDIFF"@ + between + none =~= "HDIFF"@ + between);
    let more = digits + seq![other] + rest;
    assert(more[0] == digits[0]);
    lemma_version(between, more);
    if !('0' <= other <= '9') {
        assert(more[digits.len() as int] == other);
        assert(!is_digit(more[digits.len() as int]));
    }
    assert(is_digit(digits[0]));
}

/// The version is what the digits behind the head write.
proof fn lemma_version(between: Seq<char>, rest: Seq<char>)
    requires
        no_digits(between),
        rest.len() > 0 ==> is_digit(rest[0]),
    ensures
        version_of("HDIFF"@ + between + rest) == if rest.len() == 0 || !all_digits(rest)
            || decimal_of(rest) > i64::MAX {
            Err::<i64, PatchError>(PatchError::InvalidVersion)
        } else {
            Ok(decimal_of(rest) as i64)
        },
{
    let text = "HDIFF"@ + between + rest;
    let n = HDIFF_HEAD@.len() as int;
    assert(HDIFF_HEAD@ == "HDIFF"@);
    assert(text.subrange(0, n) =~= HDIFF_HEAD@);
    assert(first_at(text, HDIFF_HEAD@, 0) == Some(0int));
    assert(text.skip(n) =~= between + rest);
    lemma_from_first_digit(between, rest);
}

/// A text that does not hold `HDIFF` has no version.
pub proof fn law_version_missing(text: Seq<char>)
    ensures
        version_of(text) == Err::<i64, PatchError>(PatchError::VersionMissing) <==> forall|i: int|
            0 <= i <= text.len() - "HDIFF"@.len() ==> #[trigger] text.subrange(
                i,
                i + "HDIFF"@.len(),
            ) != "HDIFF"@,
{
    assert(HDIFF_HEAD@ == "HDIFF"@);
    law_first_place(text, HDIFF_HEAD@, 0);
}

/// The first part of a signature as it is written.
pub open spec fn magic(between: Seq<char>, version: int) -> Seq<char> {
    "HDIFF"@ + between + decimal(version)
}

/// What can stand between `HDIFF` and the version number.
pub open spec fn is_between(between: Seq<char>) -> bool {
    &&& no_digits(between)
    &&& is_part(between)
}

/// The first part of a signature holds no `&`, and its version is read back.
proof fn lemma_magic(between: Seq<char>, version: int)
    requires
        is_between(between),
        0 <= version <= i64::MAX,
    ensures
        is_part(magic(between, version)),
        version_of(magic(between, version)) == Ok::<i64, PatchError>(version as i64),
{
    reveal_strlit("HDIFF");
    lemma_decimal(version);
    law_version_read_back(between, version, ' ', Seq::empty());
    let text = magic(between, version);
    assert forall|i: int| 0 <= i < text.len() implies #[trigger] text[i] != '&' by {
        let n = "HDIFF"@.len() as int;
        if i >= n + between.len() {
            let digit = decimal(version)[i - n - between.len()];
            assert(is_digit(digit));
            assert(text[i] == digit);
        } else if i >= n {
            assert(text[i] == between[i - n]);
        }
    }
}

/// A line that starts with the first part of a signature starts with `HDIFF`.
proof fn lemma_starts(between: Seq<char>, version: int, rest: Seq<char>)
    ensures
        ({
            let line = magic(between, version) + rest;
            line.len() >= "HDIFF"@.len() && line.take("HDIFF"@.len() as int) == "HDIFF"@
        }),
{
    let line = magic(between, version) + rest;
    assert(line.take("HDIFF"@.len() as int) =~= "HDIFF"@);
}

/// Reading undoes writing for the signature of a file patch: of versions 13 and 20 alone,
/// the second of which is compressed as a whole, with the mode that the name stands for.
#[verifier::rlimit(40)]
pub proof fn law_file_signature_read_back(between: Seq<char>, version: int, name: Seq<char>)
    requires
        is_between(between),
        is_part(name),
        0 <= version <= i64::MAX,
        encode_utf8(line_of(seq![magic(between, version), name])).len() <= 64,
    ensures
        ({
            let read = signature_of(line_of(seq![magic(between, version), name]));
            if version == 13 || version == 20 {
                match compression_named(lowercase(name)) {
                    Some(mode) => read matches Ok((is_dir, header)) && {
                        &&& !is_dir
                        &&& header.comp_mode == mode
                        &&& header.is_single_compressed_diff <==> version == 20
                        &&& header.header_magic == magic(between, version)
                        &&& header == (HeaderModel {
                            comp_mode: header.comp_mode,
                            is_single_compressed_diff: header.is_single_compressed_diff,
                            header_magic: header.header_magic,
                            ..HeaderModel::zero()
                        })
                    },
                    None => read == Err::<(bool, HeaderModel), PatchError>(
                        PatchError::UnknownCompression,
                    ),
                }
            } else {
                read == Err::<(bool, HeaderModel), PatchError>(
                    PatchError::UnsupportedVersion { version: version as i64 },
                )
            }
        }),
{
    let head = magic(between, version);
    let parts = seq![head, name];
    lemma_magic(between, version);
    law_signature_parts_read_back(parts);
    assert(parts.drop_last() =~= seq![head]);
    reveal_with_fuel(line_of, 3);
    lemma_starts(between, version, seq!['&'] + name);
    assert(line_of(parts) =~= head + (seq!['&'] + name));
}

/// Reading undoes writing for the signature of a directory patch: of version 19 alone, with
/// the modes that the names stand for, where there are names.
#[verifier::rlimit(40)]
pub proof fn law_dir_signature_read_back(
    between: Seq<char>,
    version: int,
    name: Seq<char>,
    checksum: Seq<char>,
)
    requires
        is_between(between),
        is_part(name),
        is_part(checksum),
        0 <= version <= i64::MAX,
        encode_utf8(line_of(seq![magic(between, version), name, checksum])).len() <= 64,
    ensures
        ({
            let read = signature_of(line_of(seq![magic(between, version), name, checksum]));
            let mode = compression_named(lowercase(name));
            let sum = checksum_named(lowercase(checksum));
            if version != 19 {
                read == Err::<(bool, HeaderModel), PatchError>(
                    PatchError::UnsupportedDirVersion { version: version as i64 },
                )
            } else if name.len() > 0 && mode is None {
                read == Err::<(bool, HeaderModel), PatchError>(PatchError::UnknownCompression)
            } else if checksum.len() > 0 && sum is None {
                read == Err::<(bool, HeaderModel), PatchError>(PatchError::UnknownChecksum)
            } else {
                read matches Ok((is_dir, header)) && {
                    &&& is_dir
                    &&& name.len() > 0 ==> Some(header.comp_mode) == mode
                    &&& name.len() == 0 ==> header.comp_mode is Nocomp
                    &&& checksum.len() > 0 ==> Some(header.checksum_mode) == sum
                    &&& checksum.len() == 0 ==> header.checksum_mode is Nochecksum
                    &&& header == (HeaderModel {
                        comp_mode: header.comp_mode,
                        checksum_mode: header.checksum_mode,
                        ..HeaderModel::zero()
                    })
                }
            }
        }),
{
    let head = magic(between, version);
    let parts = seq![head, name, checksum];
    lemma_magic(between, version);
    law_signature_parts_read_back(parts);
    assert(parts.drop_last() =~= seq![head, name]);
    assert(seq![head, name].drop_last() =~= seq![head]);
    reveal_with_fuel(line_of, 4);
    lemma_starts(between, version, seq!['&'] + name + seq!['&'] + checksum);
    assert(line_of(parts) =~= head + (seq!['&'] + name + seq!['&'] + checksum));
}

/// A line that does not start with `HDIFF`, or is longer than 64 bytes, is no signature, and
/// one with neither two nor three parts is not complete.
pub proof fn law_signature_refused(line: Seq<char>)
    ensures
        signature_of(line) == Err::<(bool, HeaderModel), PatchError>(PatchError::NotHdiff) <==> (
        encode_utf8(line).len() > 64 || line.len() < "HDIFF"@.len() || line.take(
            "HDIFF"@.len() as int,
        ) != "HDIFF"@),
        encode_utf8(line).len() <= 64 && line.len() >= "HDIFF"@.len() && line.take(
            "HDIFF"@.len() as int,
        ) == "HDIFF"@ && parts_of(line).len() != 2 && parts_of(line).len() != 3 ==> signature_of(
            line,
        ) == Err::<(bool, HeaderModel), PatchError>(
            PatchError::IncompleteHeader { parts: parts_of(line).len() as usize },
        ),
{
    assert(HDIFF_HEAD@ == "HDIFF"@);
}

} // verus!
