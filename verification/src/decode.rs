//! Decoding of the sequential archive stream: fixed 512-byte header blocks,
//! each followed by a zero-padded payload.
//!
//! The stream is consumed strictly forward. Every record is decoded into a
//! [`TarEntry`] holding plain values (path bytes, size, kind, permission
//! bits, owner ids, modification time) together with the byte offset of its
//! payload in the stream, so that later byte-range reads can seek directly.
//! Malformed numeric fields, unsupported record kinds and truncation are
//! distinct, construction-fatal errors: a partial decode is never returned.

use vstd::prelude::*;

verus! {

/// The closed set of record kinds the index supports.
#[derive(Clone, Copy, PartialEq, Eq, Structural, Debug)]
pub enum FileKind {
    Regular,
    Directory,
    Symlink,
    CharDevice,
    BlockDevice,
    Fifo,
}

/// Construction-fatal errors: a malformed or truncated stream, an
/// unsupported record kind, or a record set that cannot form a tree.
#[derive(Clone, Copy, PartialEq, Eq, Structural, Debug)]
pub enum ArchiveError {
    /// The stream ended inside a header block or a payload.
    Truncated,
    /// A numeric header field is not a valid octal number.
    BadHeader,
    /// The record's type tag is outside the supported closed set.
    UnsupportedType,
    /// A record path steps outside the tree (a `..` component).
    BadPath,
    /// A record path runs through an existing non-directory record.
    InvalidParent,
    /// The stream holds more records than inode numbers.
    TooLarge,
}

/// One decoded archive record: its path exactly as stored, its metadata, and
/// where its payload bytes sit in the stream.
pub struct TarEntry {
    pub path: Vec<u8>,
    pub size: u64,
    pub kind: FileKind,
    pub mode: u64,
    pub uid: u64,
    pub gid: u64,
    pub mtime: u64,
    pub offset: usize,
}

/// Mathematical image of a [`TarEntry`].
#[verifier::ext_equal]
pub struct TarEntryV {
    pub path: Seq<u8>,
    pub size: u64,
    pub kind: FileKind,
    pub mode: u64,
    pub uid: u64,
    pub gid: u64,
    pub mtime: u64,
    pub offset: int,
}

impl Default for TarEntry {
    /// A blank directory record: empty path, no payload, zeroed ownership.
    fn default() -> (r: Self)
        ensures
            r.path@.len() == 0,
            r.size == 0,
            r.kind == FileKind::Directory,
            r.mode == 493,
            r.uid == 0 && r.gid == 0 && r.mtime == 0,
            r.offset == 0,
    {
        TarEntry {
            path: Vec::new(),
            size: 0,
            kind: FileKind::Directory,
            mode: 493,
            uid: 0,
            gid: 0,
            mtime: 0,
            offset: 0,
        }
    }
}

impl View for TarEntry {
    type V = TarEntryV;

    open spec fn view(&self) -> TarEntryV {
        TarEntryV {
            path: self.path@,
            size: self.size,
            kind: self.kind,
            mode: self.mode,
            uid: self.uid,
            gid: self.gid,
            mtime: self.mtime,
            offset: self.offset as int,
        }
    }
}

/// Copies the byte range `[lo, hi)` out of `data`.
pub fn copy_range(data: &Vec<u8>, lo: usize, hi: usize) -> (r: Vec<u8>)
    requires
        lo <= hi <= data@.len(),
    ensures
        r@ =~= data@.subrange(lo as int, hi as int),
{
    let mut r: Vec<u8> = Vec::new();
    let mut i: usize = lo;
    while i < hi
        invariant
            lo <= i <= hi <= data@.len(),
            r@ =~= data@.subrange(lo as int, i as int),
        decreases hi - i,
    {
        r.push(data[i]);
        i = i + 1;
    }
    r
}

/// True when the two byte vectors hold the same bytes.
pub fn bytes_eq(a: &Vec<u8>, b: &Vec<u8>) -> (r: bool)
    ensures
        r == (a@ =~= b@),
{
    if a.len() != b.len() {
        return false;
    }
    let mut i: usize = 0;
    while i < a.len()
        invariant
            0 <= i <= a@.len(),
            a@.len() == b@.len(),
            forall|j: int| 0 <= j < i ==> a@[j] == b@[j],
        decreases a@.len() - i,
    {
        if a[i] != b[i] {
            return false;
        }
        i = i + 1;
    }
    true
}

pub open spec fn is_octal_digit(b: u8) -> bool {
    48 <= b <= 55
}

/// First position at or after `lo` (and before `hi`) that is not a space.
pub open spec fn skip_spaces(s: Seq<u8>, lo: int, hi: int) -> int
    decreases hi - lo,
{
    if lo >= hi {
        lo
    } else if s[lo] == 32 {
        skip_spaces(s, lo + 1, hi)
    } else {
        lo
    }
}

/// First position at or after `lo` (and before `hi`) that is not an octal digit.
pub open spec fn digits_end(s: Seq<u8>, lo: int, hi: int) -> int
    decreases hi - lo,
{
    if lo >= hi {
        lo
    } else if is_octal_digit(s[lo]) {
        digits_end(s, lo + 1, hi)
    } else {
        lo
    }
}

/// First NUL byte at or after `lo` (and before `hi`), else `hi`.
pub open spec fn nul_end(s: Seq<u8>, lo: int, hi: int) -> int
    decreases hi - lo,
{
    if lo >= hi {
        lo
    } else if s[lo] == 0 {
        lo
    } else {
        nul_end(s, lo + 1, hi)
    }
}

/// Value of the octal digits in `[lo, hi)` (non-digits count as zero).
pub open spec fn octal_value(s: Seq<u8>, lo: int, hi: int) -> int
    decreases hi - lo,
{
    if lo >= hi {
        0
    } else {
        octal_value(s, lo, hi - 1) * 8 + (if is_octal_digit(s[hi - 1]) {
            s[hi - 1] - 48
        } else {
            0
        })
    }
}

pub open spec fn pow8(n: int) -> int
    decreases n,
{
    if n <= 0 {
        1
    } else {
        8 * pow8(n - 1)
    }
}

pub proof fn lemma_pow8_pos(n: int)
    ensures
        pow8(n) >= 1,
    decreases n,
{
    if n > 0 {
        lemma_pow8_pos(n - 1);
    }
}

pub proof fn lemma_pow8_le(m: int, n: int)
    requires
        m <= n,
    ensures
        pow8(m) <= pow8(n),
    decreases n - m,
{
    if m < n {
        lemma_pow8_le(m, n - 1);
        lemma_pow8_pos(n - 1);
    }
}

pub proof fn lemma_octal_value_bound(s: Seq<u8>, lo: int, hi: int)
    requires
        lo <= hi,
    ensures
        0 <= octal_value(s, lo, hi) < pow8(hi - lo),
    decreases hi - lo,
{
    if lo < hi {
        lemma_octal_value_bound(s, lo, hi - 1);
    }
}

pub proof fn lemma_skip_spaces_bounds(s: Seq<u8>, lo: int, hi: int)
    requires
        lo <= hi,
    ensures
        lo <= skip_spaces(s, lo, hi) <= hi,
    decreases hi - lo,
{
    if lo < hi && s[lo] == 32 {
        lemma_skip_spaces_bounds(s, lo + 1, hi);
    }
}

pub proof fn lemma_digits_end_bounds(s: Seq<u8>, lo: int, hi: int)
    requires
        lo <= hi,
    ensures
        lo <= digits_end(s, lo, hi) <= hi,
    decreases hi - lo,
{
    if lo < hi && is_octal_digit(s[lo]) {
        lemma_digits_end_bounds(s, lo + 1, hi);
    }
}

pub proof fn lemma_nul_end_bounds(s: Seq<u8>, lo: int, hi: int)
    requires
        lo <= hi,
    ensures
        lo <= nul_end(s, lo, hi) <= hi,
    decreases hi - lo,
{
    if lo < hi && s[lo] != 0 {
        lemma_nul_end_bounds(s, lo + 1, hi);
    }
}

/// A numeric field is optional leading spaces, then at least one octal
/// digit, then only NULs or spaces up to the end of the field.
pub open spec fn octal_field_valid(s: Seq<u8>, lo: int, hi: int) -> bool {
    let a = skip_spaces(s, lo, hi);
    let b = digits_end(s, a, hi);
    b > a && (forall|j: int| b <= j < hi ==> s[j] == 0 || s[j] == 32)
}

pub open spec fn octal_field_value(s: Seq<u8>, lo: int, hi: int) -> int {
    let a = skip_spaces(s, lo, hi);
    let b = digits_end(s, a, hi);
    octal_value(s, a, b)
}

/// A field at most 12 bytes wide holds a value below `8^12`.
pub proof fn lemma_octal_field_bound(s: Seq<u8>, lo: int, hi: int)
    requires
        lo <= hi,
        hi - lo <= 12,
    ensures
        0 <= octal_field_value(s, lo, hi) < 68719476736,
{
    let a = skip_spaces(s, lo, hi);
    lemma_skip_spaces_bounds(s, lo, hi);
    let b = digits_end(s, a, hi);
    lemma_digits_end_bounds(s, a, hi);
    lemma_octal_value_bound(s, a, b);
    lemma_pow8_le(b - a, 12);
    assert(pow8(12) == 68719476736) by {
        reveal_with_fuel(pow8, 13);
    }
}

/// Parses one numeric header field; `None` exactly when the field is
/// malformed.
pub fn parse_octal(data: &Vec<u8>, lo: usize, hi: usize) -> (r: Option<u64>)
    requires
        lo <= hi <= data@.len(),
        hi - lo <= 12,
    ensures
        match r {
            Some(v) => octal_field_valid(data@, lo as int, hi as int) && v == octal_field_value(
                data@,
                lo as int,
                hi as int,
            ),
            None => !octal_field_valid(data@, lo as int, hi as int),
        },
{
    let ghost s = data@;
    let mut a: usize = lo;
    while a < hi && data[a] == 32
        invariant
            lo <= a <= hi <= s.len(),
            s == data@,
            skip_spaces(s, lo as int, hi as int) == skip_spaces(s, a as int, hi as int),
        decreases hi - a,
    {
        a = a + 1;
    }
    proof {
        assert(skip_spaces(s, a as int, hi as int) == a as int);
    }
    let mut b: usize = a;
    let mut val: u64 = 0;
    while b < hi && 48 <= data[b] && data[b] <= 55
        invariant
            lo <= a <= b <= hi <= s.len(),
            hi - lo <= 12,
            s == data@,
            digits_end(s, a as int, hi as int) == digits_end(s, b as int, hi as int),
            val == octal_value(s, a as int, b as int),
        decreases hi - b,
    {
        proof {
            lemma_octal_value_bound(s, a as int, b as int);
            lemma_pow8_le(b - a, 12);
            assert(pow8(12) == 68719476736) by {
                reveal_with_fuel(pow8, 13);
            }
        }
        val = val * 8 + ((data[b] - 48) as u64);
        b = b + 1;
    }
    proof {
        assert(digits_end(s, b as int, hi as int) == b as int);
    }
    if b == a {
        return None;
    }
    let mut j: usize = b;
    while j < hi
        invariant
            lo <= a < b <= j <= hi <= s.len(),
            s == data@,
            skip_spaces(s, lo as int, hi as int) == a as int,
            digits_end(s, a as int, hi as int) == b as int,
            forall|k: int| b <= k < j ==> s[k] == 0 || s[k] == 32,
        decreases hi - j,
    {
        if data[j] != 0 && data[j] != 32 {
            return None;
        }
        j = j + 1;
    }
    Some(val)
}

/// Scans for the first NUL in `[lo, hi)`.
pub fn scan_nul(data: &Vec<u8>, lo: usize, hi: usize) -> (r: usize)
    requires
        lo <= hi <= data@.len(),
    ensures
        r == nul_end(data@, lo as int, hi as int),
        lo <= r <= hi,
{
    let ghost s = data@;
    let mut i: usize = lo;
    while i < hi
        invariant
            lo <= i <= hi <= s.len(),
            s == data@,
            nul_end(s, lo as int, hi as int) == nul_end(s, i as int, hi as int),
        decreases hi - i,
    {
        if data[i] == 0 {
            return i;
        }
        i = i + 1;
    }
    i
}

/// Maps the archive's type tag to the supported kind set; tags for hard
/// links, long-name extensions, sparse members and extended headers have no
/// image and are decode failures.
pub open spec fn spec_kind_of(flag: u8) -> Option<FileKind> {
    if flag == 48 || flag == 0 {
        Some(FileKind::Regular)
    } else if flag == 53 {
        Some(FileKind::Directory)
    } else if flag == 50 {
        Some(FileKind::Symlink)
    } else if flag == 51 {
        Some(FileKind::CharDevice)
    } else if flag == 52 {
        Some(FileKind::BlockDevice)
    } else if flag == 54 {
        Some(FileKind::Fifo)
    } else {
        None
    }
}

pub fn kind_of(flag: u8) -> (r: Option<FileKind>)
    ensures
        r == spec_kind_of(flag),
{
    if flag == 48 || flag == 0 {
        Some(FileKind::Regular)
    } else if flag == 53 {
        Some(FileKind::Directory)
    } else if flag == 50 {
        Some(FileKind::Symlink)
    } else if flag == 51 {
        Some(FileKind::CharDevice)
    } else if flag == 52 {
        Some(FileKind::BlockDevice)
    } else if flag == 54 {
        Some(FileKind::Fifo)
    } else {
        None
    }
}

/// All 512 bytes of the block starting at `base` are zero.
pub open spec fn is_zero_block(s: Seq<u8>, base: int) -> bool {
    forall|j: int| base <= j < base + 512 ==> s[j] == 0
}

pub fn check_zero_block(data: &Vec<u8>, base: usize) -> (r: bool)
    requires
        base + 512 <= data@.len(),
    ensures
        r == is_zero_block(data@, base as int),
{
    let n: usize = data.len();
    let end: usize = base + 512;
    let mut i: usize = base;
    while i < end
        invariant
            base <= i <= end <= data@.len(),
            end == base + 512,
            forall|j: int| base <= j < i ==> data@[j] == 0,
        decreases end - i,
    {
        if data[i] != 0 {
            return false;
        }
        i = i + 1;
    }
    true
}

/// Sum of the bytes in `[lo, hi)`.
pub open spec fn sum_range(s: Seq<u8>, lo: int, hi: int) -> int
    decreases hi - lo,
{
    if lo >= hi {
        0
    } else {
        sum_range(s, lo, hi - 1) + s[hi - 1]
    }
}

/// The header checksum: every byte of the block summed, with the checksum
/// field itself counted as eight spaces.
pub open spec fn spec_checksum(s: Seq<u8>, base: int) -> int {
    sum_range(s, base, base + 148) + 256 + sum_range(s, base + 156, base + 512)
}

/// Computes the checksum of the block at `base`.
fn checksum_of(data: &Vec<u8>, base: usize) -> (r: u64)
    requires
        base + 512 <= data@.len(),
    ensures
        r as int == spec_checksum(data@, base as int),
{
    let n: usize = data.len();
    let mut sum: u64 = 0;
    let mut i: usize = base;
    while i < base + 148
        invariant
            base <= i <= base + 148,
            base + 512 <= data@.len() <= usize::MAX,
            sum == sum_range(data@, base as int, i as int),
            sum <= (i - base) * 255,
        decreases base + 148 - i,
    {
        sum = sum + (data[i] as u64);
        i = i + 1;
    }
    sum = sum + 256;
    let mut j: usize = base + 156;
    while j < base + 512
        invariant
            base + 156 <= j <= base + 512,
            base + 512 <= data@.len() <= usize::MAX,
            sum == sum_range(data@, base as int, base + 148) + 256 + sum_range(
                data@,
                base + 156,
                j as int,
            ),
            sum <= 148 * 255 + 256 + (j - base - 156) * 255,
        decreases base + 512 - j,
    {
        sum = sum + (data[j] as u64);
        j = j + 1;
    }
    sum
}

/// The six numeric fields of a header block parse as octal numbers and the
/// checksum field matches the block's checksum.
pub open spec fn header_fields_valid(s: Seq<u8>, base: int) -> bool {
    &&& octal_field_valid(s, base + 100, base + 108)
    &&& octal_field_valid(s, base + 108, base + 116)
    &&& octal_field_valid(s, base + 116, base + 124)
    &&& octal_field_valid(s, base + 124, base + 136)
    &&& octal_field_valid(s, base + 136, base + 148)
    &&& octal_field_valid(s, base + 148, base + 156)
    &&& octal_field_value(s, base + 148, base + 156) == spec_checksum(s, base)
}

/// The record's path as stored: the name field, prefixed — when the prefix
/// field is in use — by the prefix and a slash.
pub open spec fn spec_header_path(s: Seq<u8>, base: int) -> Seq<u8> {
    let name = s.subrange(base, nul_end(s, base, base + 100));
    let prefix = s.subrange(base + 345, nul_end(s, base + 345, base + 500));
    if prefix.len() == 0 {
        name
    } else {
        prefix + seq![47u8] + name
    }
}

/// The record described by a valid, supported header block at `base`; its
/// payload starts right after the block.
pub open spec fn spec_header_entry(s: Seq<u8>, base: int) -> TarEntryV {
    TarEntryV {
        path: spec_header_path(s, base),
        size: octal_field_value(s, base + 124, base + 136) as u64,
        kind: spec_kind_of(s[base + 156])->Some_0,
        mode: octal_field_value(s, base + 100, base + 108) as u64,
        uid: octal_field_value(s, base + 108, base + 116) as u64,
        gid: octal_field_value(s, base + 116, base + 124) as u64,
        mtime: octal_field_value(s, base + 136, base + 148) as u64,
        offset: base + 512,
    }
}

/// Decodes the header block at `pos`.
fn parse_header(data: &Vec<u8>, pos: usize) -> (r: Result<TarEntry, ArchiveError>)
    requires
        pos + 512 <= data@.len(),
    ensures
        match r {
            Ok(e) => {
                &&& header_fields_valid(data@, pos as int)
                &&& spec_kind_of(data@[pos as int + 156]) is Some
                &&& e@ == spec_header_entry(data@, pos as int)
                &&& e.size < 68719476736
            },
            Err(er) => {
                &&& (er == ArchiveError::BadHeader || er == ArchiveError::UnsupportedType)
                &&& (er == ArchiveError::BadHeader <==> !header_fields_valid(data@, pos as int))
                &&& (er == ArchiveError::UnsupportedType ==> header_fields_valid(
                    data@,
                    pos as int,
                ) && spec_kind_of(data@[pos as int + 156]) is None)
            },
        },
{
    let ghost s = data@;
    let n: usize = data.len();
    let mode = parse_octal(data, pos + 100, pos + 108);
    let uid = parse_octal(data, pos + 108, pos + 116);
    let gid = parse_octal(data, pos + 116, pos + 124);
    let size = parse_octal(data, pos + 124, pos + 136);
    let mtime = parse_octal(data, pos + 136, pos + 148);
    let cksum = parse_octal(data, pos + 148, pos + 156);
    let (mode, uid, gid, size, mtime, cksum) = match (mode, uid, gid, size, mtime, cksum) {
        (Some(a), Some(b), Some(c), Some(d), Some(e), Some(f)) => (a, b, c, d, e, f),
        _ => {
            return Err(ArchiveError::BadHeader);
        },
    };
    let sum: u64 = checksum_of(data, pos);
    if cksum != sum {
        proof {
            lemma_octal_field_bound(s, pos + 148, pos + 156);
        }
        return Err(ArchiveError::BadHeader);
    }
    let kind = match kind_of(data[pos + 156]) {
        Some(k) => k,
        None => {
            return Err(ArchiveError::UnsupportedType);
        },
    };
    proof {
        lemma_nul_end_bounds(s, pos as int, pos + 100);
        lemma_nul_end_bounds(s, pos + 345, pos + 500);
    }
    let name_end = scan_nul(data, pos, pos + 100);
    let name = copy_range(data, pos, name_end);
    let prefix_end = scan_nul(data, pos + 345, pos + 500);
    let path: Vec<u8> = if prefix_end == pos + 345 {
        name
    } else {
        let mut p = copy_range(data, pos + 345, prefix_end);
        p.push(47);
        let mut i: usize = 0;
        while i < name.len()
            invariant
                0 <= i <= name@.len(),
                p@ =~= s.subrange(pos + 345, nul_end(s, pos + 345, pos + 500)) + seq![47u8]
                    + name@.subrange(0, i as int),
            decreases name@.len() - i,
        {
            p.push(name[i]);
            i = i + 1;
        }
        proof {
            assert(name@.subrange(0, name@.len() as int) =~= name@);
        }
        p
    };
    proof {
        lemma_octal_field_bound(s, pos + 124, pos + 136);
    }
    let e = TarEntry { path, size, kind, mode, uid, gid, mtime, offset: pos + 512 };
    proof {
        assert(e@ =~= spec_header_entry(s, pos as int));
    }
    Ok(e)
}

/// Payload lengths are rounded up to whole 512-byte blocks.
pub open spec fn spec_pad(size: int) -> int {
    if size <= 0 {
        0
    } else {
        ((size + 511) / 512) * 512
    }
}

/// The records of the stream from `pos` on: ends cleanly at the end of the
/// stream or at an all-zero block; anything else is one of the distinct
/// decode failures.
pub open spec fn spec_decode_from(s: Seq<u8>, pos: int) -> Result<
    Seq<TarEntryV>,
    ArchiveError,
>
    decreases s.len() - pos,
    when 0 <= pos <= s.len()
{
    if pos == s.len() {
        Ok(Seq::empty())
    } else if pos + 512 > s.len() {
        Err(ArchiveError::Truncated)
    } else if is_zero_block(s, pos) {
        Ok(Seq::empty())
    } else if !header_fields_valid(s, pos) {
        Err(ArchiveError::BadHeader)
    } else if spec_kind_of(s[pos + 156]) is None {
        Err(ArchiveError::UnsupportedType)
    } else {
        let size = octal_field_value(s, pos + 124, pos + 136);
        let pe = pos + 512 + spec_pad(size);
        if pe > s.len() {
            Err(ArchiveError::Truncated)
        } else {
            match spec_decode_from(s, pe) {
                Ok(rest) => Ok(seq![spec_header_entry(s, pos)] + rest),
                Err(e) => Err(e),
            }
        }
    }
}

pub open spec fn spec_decode(s: Seq<u8>) -> Result<Seq<TarEntryV>, ArchiveError> {
    spec_decode_from(s, 0)
}

/// The exec result is, element for element, the spec-level decode.
pub open spec fn entries_match(v: Seq<TarEntry>, s: Seq<TarEntryV>) -> bool {
    v.len() == s.len() && (forall|i: int| 0 <= i < v.len() ==> #[trigger] v[i]@ == s[i])
}

pub open spec fn decode_result_matches(
    r: Result<Vec<TarEntry>, ArchiveError>,
    s: Result<Seq<TarEntryV>, ArchiveError>,
) -> bool {
    match (r, s) {
        (Ok(v), Ok(sv)) => entries_match(v@, sv),
        (Err(e), Err(se)) => e == se,
        _ => false,
    }
}

/// Every decoded record's payload lies within the stream.
pub proof fn lemma_decode_bounds(s: Seq<u8>, pos: int)
    requires
        0 <= pos <= s.len(),
        spec_decode_from(s, pos) is Ok,
    ensures
        forall|i: int|
            0 <= i < spec_decode_from(s, pos)->Ok_0.len() ==> {
                let e = #[trigger] spec_decode_from(s, pos)->Ok_0[i];
                0 <= e.offset && e.offset + e.size <= s.len()
            },
    decreases s.len() - pos,
{
    if pos == s.len() {
    } else if pos + 512 > s.len() {
    } else if is_zero_block(s, pos) {
    } else if !header_fields_valid(s, pos) {
    } else if spec_kind_of(s[pos + 156]) is None {
    } else {
        let size = octal_field_value(s, pos + 124, pos + 136);
        let pe = pos + 512 + spec_pad(size);
        if pe <= s.len() {
            lemma_octal_field_bound(s, pos + 124, pos + 136);
            assert(size <= spec_pad(size)) by (nonlinear_arith)
                requires
                    size >= 0,
            ;
            lemma_decode_bounds(s, pe);
            let e0 = spec_header_entry(s, pos);
            assert(e0.offset + e0.size <= s.len());
        }
    }
}

/// Decodes the records of the stream from byte `pos` on.
pub fn decode_from(data: &Vec<u8>, pos: usize) -> (r: Result<Vec<TarEntry>, ArchiveError>)
    requires
        pos <= data@.len(),
    ensures
        decode_result_matches(r, spec_decode_from(data@, pos as int)),
    decreases data@.len() - pos,
{
    let ghost s = data@;
    if pos == data.len() {
        return Ok(Vec::new());
    }
    if data.len() - pos < 512 {
        return Err(ArchiveError::Truncated);
    }
    if check_zero_block(data, pos) {
        return Ok(Vec::new());
    }
    let entry = match parse_header(data, pos) {
        Ok(e) => e,
        Err(er) => {
            return Err(er);
        },
    };
    let pad: u64 = ((entry.size + 511) / 512) * 512;
    proof {
        let so = octal_field_value(s, pos + 124, pos + 136);
        lemma_octal_field_bound(s, pos + 124, pos + 136);
        assert(entry.size as int == so);
        assert(pad as int == spec_pad(so));
    }
    let rem: usize = data.len() - pos - 512;
    if pad > rem as u64 {
        proof {
            let so = octal_field_value(s, pos + 124, pos + 136);
            assert(pos + 512 + spec_pad(so) > s.len());
        }
        return Err(ArchiveError::Truncated);
    }
    let pe: usize = pos + 512 + (pad as usize);
    match decode_from(data, pe) {
        Ok(mut rest) => {
            proof {
                let so = octal_field_value(s, pos + 124, pos + 136);
                assert(pos + 512 + spec_pad(so) <= s.len());
            }
            let ghost sr = spec_decode_from(s, pos as int);
            let ghost srest = spec_decode_from(s, pe as int);
            let ghost old_rest = rest@;
            rest.insert(0, entry);
            proof {
                assert(sr is Ok);
                assert(sr->Ok_0 =~= seq![spec_header_entry(s, pos as int)] + srest->Ok_0);
                assert(rest@ =~= seq![entry] + old_rest);
                assert forall|i: int| 0 <= i < rest@.len() implies #[trigger] rest@[i]@
                    == sr->Ok_0[i] by {
                    if i == 0 {
                        assert(rest@[0] == entry);
                    } else {
                        assert(rest@[i] == old_rest[i - 1]);
                        assert(old_rest[i - 1]@ == srest->Ok_0[i - 1]);
                    }
                }
                assert(entries_match(rest@, sr->Ok_0));
            }
            Ok(rest)
        },
        Err(e) => Err(e),
    }
}

/// Decodes a whole archive stream into its records.
pub fn decode(data: &Vec<u8>) -> (r: Result<Vec<TarEntry>, ArchiveError>)
    ensures
        decode_result_matches(r, spec_decode(data@)),
{
    decode_from(data, 0)
}

} // verus!
