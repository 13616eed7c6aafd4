//! The codec of a web container: the framing of its state, the decompression
//! of its archive and the search for a file in the archive.

use vstd::prelude::*;
use vstd::slice::slice_subrange;
use vstd::utf8::{encode_utf8, valid_utf8};

use crate::bytes::{bytes_equal, read_be_u64};
use crate::publication::{announced_metadata_size, announced_web_size, MAX_WEB_SIZE};
use crate::text::utf8_to_string;

verus! {

/// The most bytes that an archive may decompress to: 30 MiB.
pub const MAX_DECOMPRESS_BYTES: usize = 31457280;

/// The size of a block of a tar archive.
pub const TAR_BLOCK: usize = 512;

/// Whether a state has the shape of a web container: a metadata section of 1
/// to 1024 bytes and a web section of 1 byte to 100 MiB, each behind its
/// length, and nothing else.
pub open spec fn is_web_container(state: Seq<u8>) -> bool {
    let metadata = announced_metadata_size(state);
    let web = announced_web_size(state);
    &&& state.len() >= 16
    &&& 0 < metadata <= 1024
    &&& state.len() >= 16 + metadata
    &&& 0 < web <= MAX_WEB_SIZE
    &&& 16 + metadata + web == state.len()
}

/// Checks whether state bytes look like a web container.
pub fn detect_web_container(state: &[u8]) -> (found: bool)
    ensures
        found == is_web_container(state@),
{
    let len: usize = state.len();
    if len < 16 {
        return false;
    }
    let metadata_size: u64 = read_be_u64(state, 0);
    if metadata_size == 0 || metadata_size > 1024 {
        return false;
    }
    let web_offset: usize = 8 + metadata_size as usize;
    if len - 8 < web_offset {
        return false;
    }
    let web_size: u64 = read_be_u64(state, web_offset);
    if web_size == 0 || web_size > MAX_WEB_SIZE {
        return false;
    }
    web_size == (len - web_offset - 8) as u64
}

/// Whether a state holds a compressed archive: a metadata section of 1 to
/// 1024 bytes and behind it a web section of at least 1 byte that lies within
/// the state.
pub open spec fn has_archive(state: Seq<u8>) -> bool {
    let metadata = announced_metadata_size(state);
    let web = announced_web_size(state);
    &&& state.len() >= 16
    &&& 0 < metadata <= 1024
    &&& state.len() >= 16 + metadata
    &&& web > 0
    &&& 16 + metadata + web <= state.len()
}

/// The compressed archive of a state that holds one.
pub open spec fn archive_bytes(state: Seq<u8>) -> Seq<u8> {
    let start = 16 + announced_metadata_size(state);
    state.subrange(start, start + announced_web_size(state))
}

/// Finds the compressed archive in a state.
pub fn archive_section(state: &[u8]) -> (range: Option<(usize, usize)>)
    ensures
        range is Some <==> has_archive(state@),
        range is Some ==> ({
            let (start, end) = range->0;
            start <= end <= state@.len() && state@.subrange(start as int, end as int)
                == archive_bytes(state@)
        }),
{
    let len: usize = state.len();
    if len < 16 {
        return None;
    }
    let metadata_size: u64 = read_be_u64(state, 0);
    if metadata_size == 0 || metadata_size > 1024 {
        return None;
    }
    let web_offset: usize = 8 + metadata_size as usize;
    if len - 8 < web_offset {
        return None;
    }
    let web_size: u64 = read_be_u64(state, web_offset);
    let start: usize = web_offset + 8;
    if web_size == 0 || web_size > (len - start) as u64 {
        return None;
    }
    Some((start, start + web_size as usize))
}

/// Whether four bytes with all bits set stand at place `at` of the data.
pub open spec fn saturated_at(data: Seq<u8>, at: int) -> bool {
    &&& 0 <= at
    &&& at + 4 <= data.len()
    &&& forall|k: int| at <= k < at + 4 ==> data[k] == 0xFF
}

/// Whether the data hold four bytes in a row with all bits set. A stream
/// that holds none has no 32-bit field of the largest value, so no size in
/// its footer to which nothing can be added.
pub open spec fn has_saturated_word(data: Seq<u8>) -> bool {
    exists|at: int| saturated_at(data, at)
}

/// Looks for four bytes in a row with all bits set.
pub fn find_saturated_word(data: &[u8]) -> (found: bool)
    ensures
        found == has_saturated_word(data@),
{
    let n: usize = data.len();
    if n < 4 {
        assert forall|at: int| !saturated_at(data@, at) by {}
        return false;
    }
    let last: usize = n - 4;
    let mut i: usize = 0;
    while i <= last
        invariant
            4 <= n,
            n == data@.len(),
            last == n - 4,
            i <= last + 1,
            forall|at: int| 0 <= at < i ==> !saturated_at(data@, at),
        decreases last + 1 - i,
    {
        if data[i] == 0xFF && data[i + 1] == 0xFF && data[i + 2] == 0xFF && data[i + 3] == 0xFF {
            assert(saturated_at(data@, i as int));
            return true;
        }
        assert(!saturated_at(data@, i as int));
        i += 1;
    }
    assert forall|at: int| !saturated_at(data@, at) by {}
    false
}

/// What an XZ stream decompresses to when at most `limit` bytes of output are
/// taken: nothing where the stream is damaged or holds more.
pub uninterp spec fn xz_decoded(data: Seq<u8>, limit: usize) -> Option<Seq<u8>>;

/// Calls `xz_decompress` of the `lzma-rs` crate on `data`, writing into a
/// buffer of `limit` bytes, which is no more than `MAX_DECOMPRESS_BYTES`. The
/// call fails where the stream is damaged and where the buffer is full before
/// the stream ends; what was written is a function of the stream and the
/// limit. The decoder adds one to the 32-bit size that the footer of the
/// stream announces, before it has checked the footer; the data hold no such
/// field of the largest value, wherever the footer lies.
#[verifier::external_body]
fn xz_decompress_limited(data: &[u8], limit: usize) -> (out: Option<Vec<u8>>)
    requires
        limit <= MAX_DECOMPRESS_BYTES,
        !has_saturated_word(data@),
    ensures
        out is Some <==> xz_decoded(data@, limit) is Some,
        out is Some ==> out->0@ == xz_decoded(data@, limit)->0,
{
    let mut buffer: Vec<u8> = vec![0u8; limit];
    let mut writer = std::io::Cursor::new(&mut buffer[..]);
    let done = lzma_rs::xz_decompress(&mut std::io::Cursor::new(data), &mut writer);
    let written = writer.position() as usize;
    buffer.truncate(written);
    done.ok().map(|_| buffer)
}

/// What is kept of a decompression: an archive of at least one byte.
pub open spec fn kept_archive(decoded: Option<Seq<u8>>) -> Option<Seq<u8>> {
    match decoded {
        Some(data) => if data.len() > 0 {
            Some(data)
        } else {
            None
        },
        None => None,
    }
}

/// Decides what to make of a decompression: a failed or empty one gives nothing.
pub fn keep_archive(decoded: Option<Vec<u8>>) -> (kept: Option<Vec<u8>>)
    ensures
        kept is Some <==> decoded is Some && decoded->0@.len() > 0,
        kept is Some ==> kept->0@ == decoded->0@,
{
    match decoded {
        Some(data) => {
            if data.len() == 0 {
                None
            } else {
                Some(data)
            }
        },
        None => None,
    }
}

/// The decompressed archive of a web container, where there is one. An
/// archive that holds four bytes in a row with all bits set is not handed to
/// the decoder and gives nothing.
pub open spec fn decompressed_archive(state: Seq<u8>) -> Option<Seq<u8>> {
    if has_archive(state) && !has_saturated_word(archive_bytes(state)) {
        kept_archive(xz_decoded(archive_bytes(state), MAX_DECOMPRESS_BYTES))
    } else {
        None
    }
}

/// Parses the framing of a web container and decompresses its archive, of
/// which at most `MAX_DECOMPRESS_BYTES` bytes are taken.
pub fn decompress_web_container(state: &[u8]) -> (tar: Option<Vec<u8>>)
    ensures
        tar is Some <==> decompressed_archive(state@) is Some,
        tar is Some ==> tar->0@ == decompressed_archive(state@)->0,
{
    match archive_section(state) {
        Some((start, end)) => {
            let xz = slice_subrange(state, start, end);
            if find_saturated_word(xz) {
                return None;
            }
            keep_archive(xz_decompress_limited(xz, MAX_DECOMPRESS_BYTES))
        },
        None => None,
    }
}

/// Whether a byte pads a number field of a header: NUL or space.
pub open spec fn is_pad(b: u8) -> bool {
    b == 0 || b == 0x20
}

/// The field without the padding at its start.
pub open spec fn trim_start(s: Seq<u8>) -> Seq<u8>
    decreases s.len(),
{
    if s.len() > 0 && is_pad(s[0]) {
        trim_start(s.drop_first())
    } else {
        s
    }
}

/// The field without the padding at its end.
pub open spec fn trim_end(s: Seq<u8>) -> Seq<u8>
    decreases s.len(),
{
    if s.len() > 0 && is_pad(s.last()) {
        trim_end(s.drop_last())
    } else {
        s
    }
}

/// Whether every byte is an octal digit.
pub open spec fn all_octal(digits: Seq<u8>) -> bool {
    forall|i: int| 0 <= i < digits.len() ==> 0x30 <= #[trigger] digits[i] <= 0x37
}

/// The number that octal digits write.
pub open spec fn octal_value(digits: Seq<u8>) -> nat
    decreases digits.len(),
{
    if digits.len() == 0 {
        0
    } else {
        octal_value(digits.drop_last()) * 8 + (digits.last() - 0x30) as nat
    }
}

/// The digits of a number field: what stands between the padding, behind a
/// plus sign where there is one.
pub open spec fn octal_digits(field: Seq<u8>) -> Seq<u8> {
    let t = trim_end(trim_start(field));
    if t.len() > 0 && t[0] == 0x2B {
        t.drop_first()
    } else {
        t
    }
}

/// The size that a number field of a header states: its octal digits read as
/// a number, and 0 where they are none, are not all octal digits, or write a
/// number beyond the machine's.
pub open spec fn octal_field(field: Seq<u8>) -> nat {
    let digits = octal_digits(field);
    if digits.len() > 0 && all_octal(digits) && octal_value(digits) <= usize::MAX {
        octal_value(digits)
    } else {
        0
    }
}

/// Reads the size that a number field of a header states.
pub fn parse_octal_field(field: &[u8]) -> (size: usize)
    ensures
        size == octal_field(field@),
{
    let len: usize = field.len();
    let mut start: usize = 0;
    assert(field@.skip(0) =~= field@);
    while start < len && (field[start] == 0 || field[start] == 0x20)
        invariant
            start <= len,
            len == field@.len(),
            trim_start(field@) == trim_start(field@.skip(start as int)),
        decreases len - start,
    {
        proof {
            let rest = field@.skip(start as int);
            assert(rest.drop_first() =~= field@.skip(start + 1));
        }
        start += 1;
    }
    proof {
        let rest = field@.skip(start as int);
        if start == 0 {
            assert(rest =~= field@);
        }
        assert(trim_start(field@) == rest);
    }
    let mut end: usize = len;
    while end > start && (field[end - 1] == 0 || field[end - 1] == 0x20)
        invariant
            start <= end <= len,
            len == field@.len(),
            trim_end(field@.skip(start as int)) == trim_end(
                field@.subrange(start as int, end as int),
            ),
        decreases end - start,
    {
        proof {
            let part = field@.subrange(start as int, end as int);
            assert(part.drop_last() =~= field@.subrange(start as int, end - 1));
        }
        end -= 1;
    }
    let ghost trimmed = field@.subrange(start as int, end as int);
    proof {
        if end == len {
            assert(field@.skip(start as int) =~= trimmed);
        }
        assert(trim_end(trimmed) == trimmed);
        assert(trim_end(trim_start(field@)) == trimmed);
    }
    let mut at: usize = start;
    if at < end && field[at] == 0x2B {
        at += 1;
        assert(trimmed.drop_first() =~= field@.subrange(at as int, end as int));
    }
    let ghost digits = field@.subrange(at as int, end as int);
    assert(digits == octal_digits(field@));
    if at == end {
        return 0;
    }
    let mut value: usize = 0;
    let mut i: usize = at;
    assert(digits.subrange(0, 0) =~= Seq::<u8>::empty());
    while i < end
        invariant
            at <= i <= end <= len,
            at < end,
            len == field@.len(),
            digits == field@.subrange(at as int, end as int),
            digits == octal_digits(field@),
            all_octal(digits.subrange(0, i - at)),
            value == octal_value(digits.subrange(0, i - at)),
        decreases end - i,
    {
        let b: u8 = field[i];
        if b < 0x30 || b > 0x37 {
            assert(digits[i - at] == b);
            assert(!all_octal(digits));
            return 0;
        }
        let d: usize = (b - 0x30) as usize;
        proof {
            let next = digits.subrange(0, i - at + 1);
            assert(next.drop_last() =~= digits.subrange(0, i - at));
            assert(next.last() == b);
            assert(all_octal(next));
        }
        if value > (usize::MAX - d) / 8 {
            proof {
                let next = digits.subrange(0, i - at + 1);
                assert(octal_value(next) == value * 8 + d);
                lemma_octal_value_grows(digits, i - at + 1);
            }
            return 0;
        }
        value = value * 8 + d;
        i += 1;
    }
    assert(digits.subrange(0, end - at) =~= digits);
    value
}

/// The number that a prefix of digits writes is no greater than that of the whole.
proof fn lemma_octal_value_grows(digits: Seq<u8>, n: int)
    requires
        0 <= n <= digits.len(),
        all_octal(digits.subrange(0, n)),
    ensures
        all_octal(digits) ==> octal_value(digits.subrange(0, n)) <= octal_value(digits),
    decreases digits.len() - n,
{
    if n < digits.len() && all_octal(digits) {
        let next = digits.subrange(0, n + 1);
        assert(next.drop_last() =~= digits.subrange(0, n));
        assert(all_octal(next)) by {
            assert forall|i: int| 0 <= i < next.len() implies 0x30 <= #[trigger] next[i]
                <= 0x37 by {
                assert(next[i] == digits[i]);
            }
        }
        lemma_octal_value_grows(digits, n + 1);
    } else if n == digits.len() {
        assert(digits.subrange(0, n) =~= digits);
    }
}

/// The place of the first NUL among the first `limit` bytes, or `limit`.
pub open spec fn first_nul(s: Seq<u8>, limit: int) -> int
    decreases limit,
{
    if limit <= 0 {
        0
    } else {
        let before = first_nul(s, limit - 1);
        if before < limit - 1 || s[limit - 1] == 0 {
            before
        } else {
            limit
        }
    }
}

/// The bytes without the NULs at their end.
pub open spec fn strip_nuls(s: Seq<u8>) -> Seq<u8>
    decreases s.len(),
{
    if s.len() > 0 && s.last() == 0 {
        strip_nuls(s.drop_last())
    } else {
        s
    }
}

/// The name that a header gives: the bytes before the first NUL of its name
/// field, and the empty name where they are no text.
pub open spec fn header_name(header: Seq<u8>) -> Seq<u8> {
    let name = header.subrange(0, first_nul(header, 100));
    if valid_utf8(name) {
        name
    } else {
        Seq::empty()
    }
}

/// Whether `s` ends with `suffix`.
pub open spec fn ends_with(s: Seq<u8>, suffix: Seq<u8>) -> bool {
    s.len() >= suffix.len() && s.subrange(s.len() - suffix.len(), s.len() as int) == suffix
}

/// The size of an entry's data with its padding: the next multiple of the
/// block size.
pub open spec fn padded_size(size: nat) -> nat {
    ((size + 511) / 512) * 512
}

/// The long name that a name entry leaves for the entry behind it: its data
/// without trailing NULs where the data lie within the archive and are text;
/// nothing where they are no text; the name that was pending where they lie
/// beyond the archive.
pub open spec fn long_name_after(
    tar: Seq<u8>,
    data_start: int,
    data_end: int,
    pending: Option<Seq<u8>>,
) -> Option<Seq<u8>> {
    if data_end <= tar.len() {
        let data = tar.subrange(data_start, data_end);
        if valid_utf8(data) {
            Some(strip_nuls(data))
        } else {
            None
        }
    } else {
        pending
    }
}

/// The data of the first file at or behind `offset` whose name ends with
/// `filename`. Blocks are read until one is all zero or the archive ends. An
/// entry of type `L` names the entry behind it, entries of type `x` and `g`
/// are passed over, a directory drops a pending name. A file is named by the
/// pending long name or by its header, and it is found only where its data lie
/// within the archive.
pub open spec fn tar_find(tar: Seq<u8>, offset: int, pending: Option<Seq<u8>>, filename: Seq<u8>) -> Option<
    Seq<u8>,
>
    decreases
        (if offset <= tar.len() {
            tar.len() - offset
        } else {
            0
        }),
{
    if offset < 0 || offset + 512 > tar.len() {
        None
    } else {
        let header = tar.subrange(offset, offset + 512);
        let size = octal_field(header.subrange(124, 136));
        let data_start = offset + 512;
        let data_end = data_start + size;
        let next = data_start + padded_size(size);
        let flag = header[156];
        if all_nul(header) || size + 511 > usize::MAX || next > usize::MAX {
            None
        } else if flag == 0x4C {
            tar_find(tar, next, long_name_after(tar, data_start, data_end, pending), filename)
        } else if flag == 0x78 || flag == 0x67 {
            tar_find(tar, next, pending, filename)
        } else if flag == 0x35 {
            tar_find(tar, next, None, filename)
        } else {
            let name = match pending {
                Some(n) => n,
                None => header_name(header),
            };
            if ends_with(name, filename) && data_end <= tar.len() {
                Some(tar.subrange(data_start, data_end))
            } else {
                tar_find(tar, next, None, filename)
            }
        }
    }
}

/// Whether every byte is NUL.
pub open spec fn all_nul(s: Seq<u8>) -> bool {
    forall|i: int| 0 <= i < s.len() ==> s[i] == 0
}

/// The text of the first file of an archive whose name ends with `filename`,
/// where the file is found and its data are text.
pub open spec fn tar_file_text(tar: Seq<u8>, filename: Seq<u8>) -> Option<Seq<u8>> {
    match tar_find(tar, 0, None, filename) {
        Some(data) => if valid_utf8(data) {
            Some(data)
        } else {
            None
        },
        None => None,
    }
}

fn is_all_nul(data: &[u8]) -> (zero: bool)
    ensures
        zero == all_nul(data@),
{
    let mut i: usize = 0;
    while i < data.len()
        invariant
            i <= data@.len(),
            forall|j: int| 0 <= j < i ==> data@[j] == 0,
        decreases data@.len() - i,
    {
        if data[i] != 0 {
            return false;
        }
        i += 1;
    }
    true
}

fn name_end(header: &[u8]) -> (end: usize)
    requires
        header@.len() >= 100,
    ensures
        end == first_nul(header@, 100),
        end <= 100,
{
    let mut i: usize = 0;
    while i < 100
        invariant
            i <= 100,
            header@.len() >= 100,
            first_nul(header@, i as int) == i,
        decreases 100 - i,
    {
        if header[i] == 0 {
            proof {
                lemma_first_nul_stays(header@, i as int, 100);
            }
            return i;
        }
        i += 1;
    }
    100
}

/// Once a NUL is found at place `at`, no longer prefix finds another first.
proof fn lemma_first_nul_stays(s: Seq<u8>, at: int, limit: int)
    requires
        0 <= at < limit <= s.len(),
        first_nul(s, at) == at,
        s[at] == 0,
    ensures
        first_nul(s, limit) == at,
    decreases limit - at,
{
    if limit > at + 1 {
        lemma_first_nul_stays(s, at, limit - 1);
    }
}

fn strip_trailing_nuls(data: &[u8]) -> (stripped: Vec<u8>)
    ensures
        stripped@ == strip_nuls(data@),
{
    let mut end: usize = data.len();
    assert(data@.subrange(0, end as int) =~= data@);
    while end > 0 && data[end - 1] == 0
        invariant
            end <= data@.len(),
            strip_nuls(data@) == strip_nuls(data@.subrange(0, end as int)),
        decreases end,
    {
        proof {
            let part = data@.subrange(0, end as int);
            assert(part.drop_last() =~= data@.subrange(0, end - 1));
        }
        end -= 1;
    }
    vstd::slice::slice_to_vec(slice_subrange(data, 0, end))
}

fn has_suffix(name: &[u8], suffix: &[u8]) -> (found: bool)
    ensures
        found == ends_with(name@, suffix@),
{
    if name.len() < suffix.len() {
        return false;
    }
    let start: usize = name.len() - suffix.len();
    bytes_equal(slice_subrange(name, start, name.len()), suffix)
}

/// Finds a file in tar data by the end of its name and returns its content
/// as text.
pub fn find_file_in_tar(tar_data: &[u8], filename: &str) -> (content: Option<String>)
    ensures
        content is Some <==> tar_file_text(tar_data@, encode_utf8(filename@)) is Some,
        content is Some ==> encode_utf8(content->0@) == tar_file_text(
            tar_data@,
            encode_utf8(filename@),
        )->0,
{
    let wanted = filename.as_bytes();
    let len: usize = tar_data.len();
    let mut offset: usize = 0;
    let mut long_name: Option<Vec<u8>> = None;
    let ghost tar = tar_data@;
    let ghost goal = tar_find(tar, 0, None, wanted@);
    while offset <= len && len - offset >= 512
        invariant
            len == tar.len(),
            tar == tar_data@,
            wanted@ == encode_utf8(filename@),
            goal == tar_find(tar, 0, None, wanted@),
            goal == tar_find(
                tar,
                offset as int,
                match long_name {
                    Some(n) => Some(n@),
                    None => None,
                },
                wanted@,
            ),
        decreases
            (if offset <= len {
                len - offset
            } else {
                0
            }),
    {
        let header = slice_subrange(tar_data, offset, offset + 512);
        if is_all_nul(header) {
            return None;
        }
        let type_flag: u8 = header[156];
        let file_size: usize = parse_octal_field(slice_subrange(header, 124, 136));
        let data_start: usize = offset + 512;
        assert(padded_size(file_size as nat) >= file_size);
        if file_size > usize::MAX - data_start {
            return None;
        }
        let data_end: usize = data_start + file_size;
        if file_size > usize::MAX - 511 {
            return None;
        }
        let padded: usize = ((file_size + 511) / 512) * 512;
        if padded > usize::MAX - data_start {
            return None;
        }
        let next_offset: usize = data_start + padded;
        if type_flag == 0x4C {
            if data_end <= len {
                let name_data = slice_subrange(tar_data, data_start, data_end);
                long_name = match utf8_to_string(name_data) {
                    Some(_) => Some(strip_trailing_nuls(name_data)),
                    None => None,
                };
            }
            offset = next_offset;
            continue;
        }
        if type_flag == 0x78 || type_flag == 0x67 {
            offset = next_offset;
            continue;
        }
        if type_flag == 0x35 {
            long_name = None;
            offset = next_offset;
            continue;
        }
        let found: bool = match &long_name {
            Some(name) => has_suffix(name.as_slice(), wanted),
            None => {
                let raw = slice_subrange(header, 0, name_end(header));
                match utf8_to_string(raw) {
                    Some(_) => has_suffix(raw, wanted),
                    None => {
                        let empty: Vec<u8> = Vec::new();
                        has_suffix(empty.as_slice(), wanted)
                    },
                }
            },
        };
        if found && data_end <= len {
            return utf8_to_string(slice_subrange(tar_data, data_start, data_end));
        }
        long_name = None;
        offset = next_offset;
    }
    None
}

} // verus!
