//! Header codec: encoding and decoding of the fixed 512-byte `ustar` member
//! header, with its octal text fields and its checksum.

use vstd::prelude::*;

verus! {

/// The errors of the archive engine.
#[derive(Debug, Clone, Copy, PartialEq, Eq, Structural)]
pub enum TarError {
    /// A header field value does not fit its fixed width.
    EncodingError,
    /// The stored checksum of a header block does not match the recomputed one.
    CorruptHeaderError,
    /// The archive is shorter than the blocks the operation expects.
    MalformedArchiveError,
    /// An update was requested for a member absent from the archive.
    MembershipError,
}

impl TarError {
    /// A short description, for reporting at the command boundary.
    pub fn message(&self) -> (r: &'static str)
    {
        match self {
            TarError::EncodingError => "a header field value does not fit its width",
            TarError::CorruptHeaderError => "header checksum mismatch: archive is corrupt",
            TarError::MalformedArchiveError => "archive is shorter than its end marker",
            TarError::MembershipError => "update: file does not exist in archive",
        }
    }
}

/// 8 to the power `n`: the number of values an `n`-digit octal field can hold.
pub open spec fn pow8(n: nat) -> nat
    decreases n,
{
    if n == 0 {
        1
    } else {
        8 * pow8((n - 1) as nat)
    }
}

/// An ASCII octal digit `'0'` ..= `'7'`.
pub open spec fn is_oct_digit(b: u8) -> bool {
    48 <= b <= 55
}

/// The value `v` written as exactly `w` ASCII octal digits, zero padded,
/// most significant digit first (the low digits of `v` come last).
pub open spec fn spec_octal(v: nat, w: nat) -> Seq<u8>
    decreases w,
{
    if w == 0 {
        Seq::empty()
    } else {
        spec_octal(v / 8, (w - 1) as nat).push((48 + v % 8) as u8)
    }
}

/// The numeric value of a run of ASCII octal digits (most significant first).
pub open spec fn val_of_digits(d: Seq<u8>) -> nat
    decreases d.len(),
{
    if d.len() == 0 {
        0
    } else {
        val_of_digits(d.drop_last()) * 8 + (if is_oct_digit(d.last()) {
            (d.last() - 48) as nat
        } else {
            0
        })
    }
}

/// The index of the first byte at or after `i` that is not an octal digit,
/// or `s.len()` if the digits run to the end.
pub open spec fn oct_end(s: Seq<u8>, i: nat) -> nat
    decreases s.len() - i,
{
    if i >= s.len() {
        s.len()
    } else if !is_oct_digit(s[i as int]) {
        i
    } else {
        oct_end(s, i + 1)
    }
}

/// An octal text field parses as the value of its leading digit run; the
/// run ends at the field's NUL or space terminator (or at its end).
pub open spec fn spec_parse_octal(s: Seq<u8>) -> nat {
    val_of_digits(s.take(oct_end(s, 0) as int))
}

pub proof fn lemma_oct_end_bounds(s: Seq<u8>, i: nat)
    requires
        i <= s.len(),
    ensures
        i <= oct_end(s, i) <= s.len(),
        forall|j: int| i <= j < oct_end(s, i) ==> is_oct_digit(s[j]),
        oct_end(s, i) < s.len() ==> !is_oct_digit(s[oct_end(s, i) as int]),
    decreases s.len() - i,
{
    if i < s.len() && is_oct_digit(s[i as int]) {
        lemma_oct_end_bounds(s, i + 1);
    }
}

/// What an octal field of width `w` parses to is below `pow8(w)`.
pub proof fn lemma_parse_octal_bound(s: Seq<u8>)
    ensures
        spec_parse_octal(s) < pow8(s.len()),
{
    lemma_oct_end_bounds(s, 0);
    let d = s.take(oct_end(s, 0) as int);
    lemma_val_of_digits_bound(d);
    lemma_pow8_increases(d.len(), s.len());
}

pub proof fn lemma_val_of_digits_bound(d: Seq<u8>)
    ensures
        val_of_digits(d) < pow8(d.len()),
    decreases d.len(),
{
    if d.len() > 0 {
        lemma_val_of_digits_bound(d.drop_last());
    }
}

pub proof fn lemma_spec_octal_len(v: nat, w: nat)
    ensures
        spec_octal(v, w).len() == w,
        forall|i: int| 0 <= i < w ==> is_oct_digit(#[trigger] spec_octal(v, w)[i]),
    decreases w,
{
    if w > 0 {
        lemma_spec_octal_len(v / 8, (w - 1) as nat);
    }
}

/// Parsing the digits written for `v` recovers `v`, as long as `v` fits.
pub proof fn lemma_val_of_octal(v: nat, w: nat)
    requires
        v < pow8(w),
    ensures
        val_of_digits(spec_octal(v, w)) == v,
    decreases w,
{
    if w == 0 {
    } else {
        let d = spec_octal(v, w);
        lemma_spec_octal_len(v / 8, (w - 1) as nat);
        assert(d.drop_last() =~= spec_octal(v / 8, (w - 1) as nat));
        lemma_val_of_octal(v / 8, (w - 1) as nat);
    }
}

/// A digit run followed by a non-digit (such as the NUL terminator) parses
/// back to the value that was written.
pub proof fn lemma_parse_octal_terminated(v: nat, w: nat, rest: Seq<u8>)
    requires
        v < pow8(w),
        rest.len() > 0,
        !is_oct_digit(rest[0]),
    ensures
        spec_parse_octal(spec_octal(v, w) + rest) == v,
{
    let d = spec_octal(v, w);
    let s = d + rest;
    lemma_spec_octal_len(v, w);
    lemma_oct_end_concat(d, rest);
    assert(s.take(w as int) =~= d);
    lemma_val_of_octal(v, w);
}

proof fn lemma_oct_end_concat(d: Seq<u8>, rest: Seq<u8>)
    requires
        forall|i: int| 0 <= i < d.len() ==> is_oct_digit(d[i]),
        rest.len() > 0,
        !is_oct_digit(rest[0]),
    ensures
        oct_end(d + rest, 0) == d.len(),
{
    lemma_oct_end_stops(d + rest, 0, d.len());
}

proof fn lemma_oct_end_stops(s: Seq<u8>, i: nat, stop: nat)
    requires
        i <= stop < s.len(),
        forall|j: int| i <= j < stop ==> is_oct_digit(s[j]),
        !is_oct_digit(s[stop as int]),
    ensures
        oct_end(s, i) == stop,
    decreases stop - i,
{
    if i < stop {
        lemma_oct_end_stops(s, i + 1, stop);
    }
}

/// Parses the octal text field of width `w` at offset `off` in `b`:
/// the value of the digit run that starts the field.
pub fn parse_octal_in(b: &Vec<u8>, off: usize, w: usize) -> (r: u64)
    requires
        off + w <= b@.len(),
        w <= 12,
    ensures
        r == spec_parse_octal(b@.subrange(off as int, (off + w) as int)),
        r < pow8(w as nat),
{
    let ghost s = b@.subrange(off as int, (off + w) as int);
    proof {
        lemma_oct_end_bounds(s, 0);
    }
    let n = b.len();
    // find the end of the digit run
    let mut e: usize = 0;
    while e < w && 48 <= b[off + e] && b[off + e] <= 55
        invariant
            off + w <= n == b@.len(),
            0 <= e <= w,
            s == b@.subrange(off as int, (off + w) as int),
            forall|j: int| 0 <= j < e ==> is_oct_digit(s[j]),
            oct_end(s, 0) >= e,
        decreases w - e,
    {
        proof {
            lemma_oct_end_stops_ge(s, 0, (e + 1) as nat);
        }
        e = e + 1;
    }
    proof {
        if e < w {
            lemma_oct_end_stops(s, 0, e as nat);
        }
        assert(oct_end(s, 0) == e);
    }
    // accumulate the value of the digit run
    let ghost d = s.take(e as int);
    let mut r: u64 = 0;
    let mut j: usize = 0;
    while j < e
        invariant
            off + w <= n == b@.len(),
            0 <= j <= e <= w <= 12,
            s == b@.subrange(off as int, (off + w) as int),
            d == s.take(e as int),
            forall|k: int| 0 <= k < e ==> is_oct_digit(s[k]),
            r == val_of_digits(d.take(j as int)),
            r < pow8(j as nat),
        decreases e - j,
    {
        proof {
            assert(d.take(j + 1).drop_last() =~= d.take(j as int));
            assert(d.take(j + 1).last() == s[j as int]);
            lemma_pow8_increases(j as nat, 11);
            assert(pow8(11) * 8 == pow8(12)) by {
                lemma_pow8_unfold(12);
            }
            assert(pow8(12) == 68719476736) by {
                lemma_pow8_value();
            }
        }
        r = r * 8 + ((b[off + j] - 48) as u64);
        j = j + 1;
    }
    proof {
        assert(d.take(e as int) =~= d);
        lemma_pow8_increases(e as nat, w as nat);
    }
    r
}

proof fn lemma_oct_end_stops_ge(s: Seq<u8>, i: nat, stop: nat)
    requires
        i <= stop <= s.len(),
        forall|j: int| i <= j < stop ==> is_oct_digit(s[j]),
    ensures
        oct_end(s, i) >= stop,
    decreases stop - i,
{
    lemma_oct_end_bounds(s, i);
    if i < stop {
        lemma_oct_end_stops_ge(s, i + 1, stop);
    }
}

proof fn lemma_pow8_unfold(w: nat)
    requires
        w > 0,
    ensures
        pow8(w) == pow8((w - 1) as nat) * 8,
{
}

/// `pow8` is monotone.
pub proof fn lemma_pow8_increases(a: nat, b: nat)
    requires
        a <= b,
    ensures
        pow8(a) <= pow8(b),
    decreases b,
{
    if a < b {
        lemma_pow8_increases(a, (b - 1) as nat);
        lemma_pow8_positive((b - 1) as nat);
    }
}

pub proof fn lemma_pow8_positive(n: nat)
    ensures
        pow8(n) >= 1,
    decreases n,
{
    if n > 0 {
        lemma_pow8_positive((n - 1) as nat);
    }
}

/// The field widths this format uses, as concrete powers of eight.
pub proof fn lemma_pow8_value()
    ensures
        pow8(6) == 262144,
        pow8(7) == 2097152,
        pow8(11) == 8589934592,
        pow8(12) == 68719476736,
{
    assert(pow8(12) == 68719476736 && pow8(11) == 8589934592 && pow8(7) == 2097152 && pow8(6)
        == 262144) by {
        reveal_with_fuel(pow8, 13);
    }
}

/// `n` copies of the byte `b`.
pub open spec fn rep_byte(b: u8, n: nat) -> Seq<u8> {
    Seq::new(n, |i| b)
}

/// A text field of width `w`: the data, NUL padded to the right.
pub open spec fn spec_text_field(d: Seq<u8>, w: nat) -> Seq<u8> {
    d + rep_byte(0, (w - d.len()) as nat)
}

/// The index of the first NUL byte at or after `i`, or `s.len()`.
pub open spec fn nul_pos(s: Seq<u8>, i: nat) -> nat
    decreases s.len() - i,
{
    if i >= s.len() {
        s.len()
    } else if s[i as int] == 0 {
        i
    } else {
        nul_pos(s, i + 1)
    }
}

/// The bytes of a NUL-padded text field up to its first NUL.
pub open spec fn spec_cstr(s: Seq<u8>) -> Seq<u8> {
    s.take(nul_pos(s, 0) as int)
}

pub proof fn lemma_nul_pos_bounds(s: Seq<u8>, i: nat)
    requires
        i <= s.len(),
    ensures
        i <= nul_pos(s, i) <= s.len(),
        forall|j: int| i <= j < nul_pos(s, i) ==> s[j] != 0,
        nul_pos(s, i) < s.len() ==> s[nul_pos(s, i) as int] == 0,
    decreases s.len() - i,
{
    if i < s.len() && s[i as int] != 0 {
        lemma_nul_pos_bounds(s, i + 1);
    }
}

proof fn lemma_nul_pos_stops(s: Seq<u8>, i: nat, stop: nat)
    requires
        i <= stop <= s.len(),
        forall|j: int| i <= j < stop ==> s[j] != 0,
        stop < s.len() ==> s[stop as int] == 0,
    ensures
        nul_pos(s, i) == stop,
    decreases stop - i,
{
    if i < stop {
        lemma_nul_pos_stops(s, i + 1, stop);
    }
}

/// Reading a NUL-padded text field back recovers the data that was written,
/// as long as the data itself holds no NUL byte.
pub proof fn lemma_cstr_of_field(d: Seq<u8>, w: nat)
    requires
        d.len() <= w,
        forall|i: int| 0 <= i < d.len() ==> d[i] != 0,
    ensures
        spec_cstr(spec_text_field(d, w)) == d,
{
    let f = spec_text_field(d, w);
    lemma_nul_pos_stops(f, 0, d.len());
    assert(f.take(d.len() as int) =~= d);
}

/// The unsigned sum of a byte sequence.
pub open spec fn spec_sum(s: Seq<u8>) -> nat
    decreases s.len(),
{
    if s.len() == 0 {
        0
    } else {
        spec_sum(s.drop_last()) + s.last() as nat
    }
}

pub proof fn lemma_spec_sum_bound(s: Seq<u8>)
    ensures
        spec_sum(s) <= 255 * s.len(),
    decreases s.len(),
{
    if s.len() > 0 {
        lemma_spec_sum_bound(s.drop_last());
    }
}

/// Changing one byte changes the sum by exactly the difference of the bytes.
pub proof fn lemma_spec_sum_update(s: Seq<u8>, i: int, v: u8)
    requires
        0 <= i < s.len(),
    ensures
        spec_sum(s.update(i, v)) == spec_sum(s) - s[i] + v,
    decreases s.len(),
{
    let t = s.update(i, v);
    if i == s.len() - 1 {
        assert(t.drop_last() =~= s.drop_last());
    } else {
        assert(t.drop_last() =~= s.drop_last().update(i, v));
        lemma_spec_sum_update(s.drop_last(), i, v);
    }
}

/// The input of the checksum computation: the block with its checksum field
/// (bytes 148 ..= 155) replaced by eight spaces.
pub open spec fn spec_checksum_input(b: Seq<u8>) -> Seq<u8> {
    b.take(148) + rep_byte(32, 8) + b.skip(156)
}

/// The checksum of a 512-byte header block: the unsigned sum of all its
/// bytes, the checksum field itself counted as eight spaces.
pub open spec fn spec_checksum(b: Seq<u8>) -> nat {
    spec_sum(spec_checksum_input(b))
}

/// Computes the checksum of a header block.
pub fn checksum_of(b: &Vec<u8>) -> (r: u32)
    requires
        b@.len() == 512,
    ensures
        r == spec_checksum(b@),
        r <= 130560,
{
    let ghost inp = spec_checksum_input(b@);
    proof {
        assert(inp.len() == 512);
        lemma_spec_sum_bound(inp);
    }
    let mut r: u32 = 0;
    let mut i: usize = 0;
    while i < 512
        invariant
            b@.len() == 512,
            0 <= i <= 512,
            inp == spec_checksum_input(b@),
            r == spec_sum(inp.take(i as int)),
            r <= 255 * i,
        decreases 512 - i,
    {
        let byte: u8 = if 148 <= i && i < 156 {
            32
        } else {
            b[i]
        };
        proof {
            assert(inp.take(i + 1).drop_last() =~= inp.take(i as int));
            assert(inp.take(i + 1).last() == inp[i as int]);
            assert(inp[i as int] == byte);
        }
        r = r + byte as u32;
        i = i + 1;
    }
    proof {
        assert(inp.take(512) =~= inp);
    }
    r
}

/// The metadata of one member, as plain values: what the header stores.
#[derive(Debug, Clone)]
pub struct FileMeta {
    /// The member's path, at most 100 bytes, no NUL byte.
    pub name: Vec<u8>,
    /// Permission bits.
    pub mode: u32,
    /// Numeric owner id.
    pub uid: u32,
    /// Numeric group id.
    pub gid: u32,
    /// Modification time, seconds since the epoch.
    pub mtime: u64,
    /// `'0'` for a regular file, `'5'` for a directory.
    pub typeflag: u8,
    /// Owner name, at most 32 bytes.
    pub uname: Vec<u8>,
    /// Group name, at most 32 bytes.
    pub gname: Vec<u8>,
    /// Major device number.
    pub devmajor: u32,
    /// Minor device number.
    pub devminor: u32,
}

/// The mathematical image of [`FileMeta`].
pub ghost struct FileMetaV {
    pub name: Seq<u8>,
    pub mode: u32,
    pub uid: u32,
    pub gid: u32,
    pub mtime: u64,
    pub typeflag: u8,
    pub uname: Seq<u8>,
    pub gname: Seq<u8>,
    pub devmajor: u32,
    pub devminor: u32,
}

impl View for FileMeta {
    type V = FileMetaV;

    open spec fn view(&self) -> FileMetaV {
        FileMetaV {
            name: self.name@,
            mode: self.mode,
            uid: self.uid,
            gid: self.gid,
            mtime: self.mtime,
            typeflag: self.typeflag,
            uname: self.uname@,
            gname: self.gname@,
            devmajor: self.devmajor,
            devminor: self.devminor,
        }
    }
}

/// When a member's metadata and content length fit the fixed header fields.
/// Encoding fails with [`TarError::EncodingError`] exactly otherwise.
pub open spec fn header_encodable(m: FileMetaV, size: nat) -> bool {
    &&& m.name.len() <= 100
    &&& (forall|i: int| 0 <= i < m.name.len() ==> m.name[i] != 0)
    &&& m.mode < pow8(7)
    &&& m.uid < pow8(7)
    &&& m.gid < pow8(7)
    &&& size < pow8(11)
    &&& m.mtime < pow8(11)
    &&& (m.typeflag == 48 || m.typeflag == 53)
    &&& m.uname.len() <= 32
    &&& m.gname.len() <= 32
    &&& m.devmajor < pow8(7)
    &&& m.devminor < pow8(7)
}

/// The header block before its checksum is filled in: every field at its
/// fixed offset, the checksum field held as eight spaces. Fields in order:
/// name, mode, uid, gid, size, mtime, checksum, typeflag, linkname,
/// magic `"ustar"`, version `"00"`, uname, gname, devmajor, devminor,
/// prefix, and padding to 512 bytes.
pub open spec fn spec_header_pre(m: FileMetaV, size: nat) -> Seq<u8> {
    spec_text_field(m.name, 100) + spec_octal(m.mode as nat, 7).push(0) + spec_octal(
        m.uid as nat,
        7,
    ).push(0) + spec_octal(m.gid as nat, 7).push(0) + spec_octal(size, 11).push(0) + spec_octal(
        m.mtime as nat,
        11,
    ).push(0) + rep_byte(32, 8) + seq![m.typeflag] + rep_byte(0, 100) + seq![
        117u8,
        115,
        116,
        97,
        114,
        0,
    ] + seq![48u8, 48] + spec_text_field(m.uname, 32) + spec_text_field(m.gname, 32) + spec_octal(
        m.devmajor as nat,
        7,
    ).push(0) + spec_octal(m.devminor as nat, 7).push(0) + rep_byte(0, 155) + rep_byte(0, 12)
}

/// The encoded header block: the pre-image with the checksum of its bytes
/// written into the checksum field as six octal digits, a NUL and a space.
pub open spec fn spec_encode_header(m: FileMetaV, size: nat) -> Seq<u8> {
    let pre = spec_header_pre(m, size);
    pre.take(148) + spec_octal(spec_sum(pre), 6) + seq![0u8, 32u8] + pre.skip(156)
}

/// Appends `n` copies of `b`.
pub(crate) fn push_repeat(out: &mut Vec<u8>, b: u8, n: usize)
    ensures
        final(out)@ == old(out)@ + rep_byte(b, n as nat),
{
    let mut k: usize = 0;
    while k < n
        invariant
            0 <= k <= n,
            out@ == old(out)@ + rep_byte(b, k as nat),
        decreases n - k,
    {
        proof {
            assert(rep_byte(b, k as nat).push(b) =~= rep_byte(b, (k + 1) as nat));
            assert(out@.push(b) =~= old(out)@ + rep_byte(b, (k + 1) as nat));
        }
        out.push(b);
        k = k + 1;
    }
    proof {
        assert(out@ =~= old(out)@ + rep_byte(b, n as nat));
    }
}

/// Appends a NUL-padded text field of width `w`.
fn push_text_field(out: &mut Vec<u8>, data: &Vec<u8>, w: usize)
    requires
        data@.len() <= w,
    ensures
        final(out)@ == old(out)@ + spec_text_field(data@, w as nat),
{
    let ghost mid = out@ + data@;
    out.extend_from_slice(data.as_slice());
    push_repeat(out, 0, w - data.len());
    proof {
        assert(out@ =~= old(out)@ + spec_text_field(data@, w as nat));
    }
}

/// Appends the value `v` as `w` zero-padded octal digits and a NUL.
fn push_octal_nul(out: &mut Vec<u8>, v: u64, w: usize)
    requires
        v < pow8(w as nat),
        w <= 11,
    ensures
        final(out)@ == old(out)@ + spec_octal(v as nat, w as nat).push(0),
{
    let mut tmp: Vec<u8> = Vec::new();
    push_repeat(&mut tmp, 0, w);
    proof {
        assert(tmp@ =~= rep_byte(0, w as nat));
        assert(spec_octal(v as nat, w as nat) =~= spec_octal(v as nat, w as nat) + tmp@.skip(
            w as int,
        ));
    }
    let mut idx: usize = w;
    let mut val: u64 = v;
    while idx > 0
        invariant
            0 <= idx <= w <= 11,
            tmp@.len() == w,
            val < pow8(idx as nat),
            spec_octal(v as nat, w as nat) == spec_octal(val as nat, idx as nat) + tmp@.skip(
                idx as int,
            ),
        decreases idx,
    {
        idx = idx - 1;
        let d: u8 = 48 + (val % 8) as u8;
        let ghost prev = tmp@;
        tmp.set(idx, d);
        proof {
            assert(tmp@.skip(idx as int) =~= seq![d] + prev.skip(idx + 1));
            assert(spec_octal(val as nat, (idx + 1) as nat) == spec_octal(
                (val / 8) as nat,
                idx as nat,
            ).push(d));
            assert(spec_octal((val / 8) as nat, idx as nat) + tmp@.skip(idx as int) =~= spec_octal(
                val as nat,
                (idx + 1) as nat,
            ) + prev.skip(idx + 1));
            assert(val / 8 < pow8(idx as nat)) by {
                lemma_pow8_unfold((idx + 1) as nat);
            }
        }
        val = val / 8;
    }
    proof {
        assert(tmp@.skip(0) =~= tmp@);
        assert(tmp@ == spec_octal(v as nat, w as nat));
    }
    out.extend_from_slice(tmp.as_slice());
    out.push(0);
    proof {
        assert(out@ =~= old(out)@ + spec_octal(v as nat, w as nat).push(0));
    }
}

/// Every field of the pre-image sits at its fixed offset.
#[verifier::rlimit(100)]
pub proof fn lemma_pre_fields(m: FileMetaV, size: nat)
    requires
        m.name.len() <= 100,
        m.uname.len() <= 32,
        m.gname.len() <= 32,
    ensures
        spec_header_pre(m, size).len() == 512,
        spec_header_pre(m, size).subrange(0, 100) == spec_text_field(m.name, 100),
        spec_header_pre(m, size).subrange(100, 108) == spec_octal(m.mode as nat, 7).push(0),
        spec_header_pre(m, size).subrange(108, 116) == spec_octal(m.uid as nat, 7).push(0),
        spec_header_pre(m, size).subrange(116, 124) == spec_octal(m.gid as nat, 7).push(0),
        spec_header_pre(m, size).subrange(124, 136) == spec_octal(size, 11).push(0),
        spec_header_pre(m, size).subrange(136, 148) == spec_octal(m.mtime as nat, 11).push(0),
        spec_header_pre(m, size).subrange(148, 156) == rep_byte(32, 8),
        spec_header_pre(m, size)[156] == m.typeflag,
        spec_header_pre(m, size).subrange(157, 257) == rep_byte(0, 100),
        spec_header_pre(m, size).subrange(257, 263) == seq![117u8, 115, 116, 97, 114, 0],
        spec_header_pre(m, size).subrange(263, 265) == seq![48u8, 48],
        spec_header_pre(m, size).subrange(265, 297) == spec_text_field(m.uname, 32),
        spec_header_pre(m, size).subrange(297, 329) == spec_text_field(m.gname, 32),
        spec_header_pre(m, size).subrange(329, 337) == spec_octal(m.devmajor as nat, 7).push(0),
        spec_header_pre(m, size).subrange(337, 345) == spec_octal(m.devminor as nat, 7).push(0),
        spec_header_pre(m, size).subrange(345, 500) == rep_byte(0, 155),
        spec_header_pre(m, size).subrange(500, 512) == rep_byte(0, 12),
{
    lemma_spec_octal_len(m.mode as nat, 7);
    lemma_spec_octal_len(m.uid as nat, 7);
    lemma_spec_octal_len(m.gid as nat, 7);
    lemma_spec_octal_len(size, 11);
    lemma_spec_octal_len(m.mtime as nat, 11);
    lemma_spec_octal_len(m.devmajor as nat, 7);
    lemma_spec_octal_len(m.devminor as nat, 7);
    let pre = spec_header_pre(m, size);
    assert(pre.len() == 512);
    assert(pre.subrange(0, 100) =~= spec_text_field(m.name, 100));
    assert(pre.subrange(100, 108) =~= spec_octal(m.mode as nat, 7).push(0));
    assert(pre.subrange(108, 116) =~= spec_octal(m.uid as nat, 7).push(0));
    assert(pre.subrange(116, 124) =~= spec_octal(m.gid as nat, 7).push(0));
    assert(pre.subrange(124, 136) =~= spec_octal(size, 11).push(0));
    assert(pre.subrange(136, 148) =~= spec_octal(m.mtime as nat, 11).push(0));
    assert(pre.subrange(148, 156) =~= rep_byte(32, 8));
    assert(pre.subrange(156, 157) =~= seq![m.typeflag]);
    assert(pre[156] == pre.subrange(156, 157)[0]);
    assert(pre.subrange(157, 257) =~= rep_byte(0, 100));
    assert(pre.subrange(257, 263) =~= seq![117u8, 115, 116, 97, 114, 0]);
    assert(pre.subrange(263, 265) =~= seq![48u8, 48]);
    assert(pre.subrange(265, 297) =~= spec_text_field(m.uname, 32));
    assert(pre.subrange(297, 329) =~= spec_text_field(m.gname, 32));
    assert(pre.subrange(329, 337) =~= spec_octal(m.devmajor as nat, 7).push(0));
    assert(pre.subrange(337, 345) =~= spec_octal(m.devminor as nat, 7).push(0));
    assert(pre.subrange(345, 500) =~= rep_byte(0, 155));
    assert(pre.subrange(500, 512) =~= rep_byte(0, 12));
}

/// The encoded block agrees with the pre-image everywhere but in the
/// checksum field, and its checksum recomputes to the value stored there.
#[verifier::rlimit(100)]
pub proof fn lemma_encode_fields(m: FileMetaV, size: nat)
    requires
        m.name.len() <= 100,
        m.uname.len() <= 32,
        m.gname.len() <= 32,
    ensures
        spec_encode_header(m, size).len() == 512,
        spec_encode_header(m, size).take(148) == spec_header_pre(m, size).take(148),
        spec_encode_header(m, size).skip(156) == spec_header_pre(m, size).skip(156),
        spec_encode_header(m, size).subrange(0, 100) == spec_text_field(m.name, 100),
        spec_encode_header(m, size).subrange(100, 108) == spec_octal(m.mode as nat, 7).push(0),
        spec_encode_header(m, size).subrange(108, 116) == spec_octal(m.uid as nat, 7).push(0),
        spec_encode_header(m, size).subrange(116, 124) == spec_octal(m.gid as nat, 7).push(0),
        spec_encode_header(m, size).subrange(124, 136) == spec_octal(size, 11).push(0),
        spec_encode_header(m, size).subrange(136, 148) == spec_octal(m.mtime as nat, 11).push(0),
        spec_encode_header(m, size).subrange(148, 156) == spec_octal(
            spec_sum(spec_header_pre(m, size)),
            6,
        ) + seq![0u8, 32u8],
        spec_encode_header(m, size)[156] == m.typeflag,
        spec_encode_header(m, size).subrange(345, 500) == rep_byte(0, 155),
        spec_encode_header(m, size)[257] == 117,
        spec_checksum(spec_encode_header(m, size)) == spec_sum(spec_header_pre(m, size)),
{
    lemma_pre_fields(m, size);
    lemma_spec_octal_len(spec_sum(spec_header_pre(m, size)), 6);
    let pre = spec_header_pre(m, size);
    let enc = spec_encode_header(m, size);
    assert(enc.len() == 512);
    assert(enc.take(148) =~= pre.take(148));
    assert(enc.skip(156) =~= pre.skip(156));
    assert(enc.subrange(0, 100) =~= pre.subrange(0, 100));
    assert(enc.subrange(100, 108) =~= pre.subrange(100, 108));
    assert(enc.subrange(108, 116) =~= pre.subrange(108, 116));
    assert(enc.subrange(116, 124) =~= pre.subrange(116, 124));
    assert(enc.subrange(124, 136) =~= pre.subrange(124, 136));
    assert(enc.subrange(136, 148) =~= pre.subrange(136, 148));
    assert(enc.subrange(148, 156) =~= spec_octal(spec_sum(pre), 6) + seq![0u8, 32u8]);
    assert(enc[156] == pre[156]);
    assert(enc.subrange(345, 500) =~= pre.subrange(345, 500));
    assert(enc[257] == pre[257]);
    assert(pre[257] == pre.subrange(257, 263)[0]);
    assert(spec_checksum_input(enc) =~= pre) by {
        assert(forall|j: int|
            148 <= j < 156 ==> pre[j] == #[trigger] pre.subrange(148, 156)[j - 148]);
    }
}

/// The decoded image of one member header.
#[derive(Debug, Clone)]
pub struct HeaderRecord {
    /// The member's path: the name field, prefixed by the prefix field when
    /// that is non-empty.
    pub name: Vec<u8>,
    pub mode: u64,
    pub uid: u64,
    pub gid: u64,
    /// The member's content length in bytes (not block-rounded).
    pub size: u64,
    pub mtime: u64,
    pub typeflag: u8,
}

/// The mathematical image of [`HeaderRecord`].
pub ghost struct HeaderRecordV {
    pub name: Seq<u8>,
    pub mode: u64,
    pub uid: u64,
    pub gid: u64,
    pub size: u64,
    pub mtime: u64,
    pub typeflag: u8,
}

impl View for HeaderRecord {
    type V = HeaderRecordV;

    open spec fn view(&self) -> HeaderRecordV {
        HeaderRecordV {
            name: self.name@,
            mode: self.mode,
            uid: self.uid,
            gid: self.gid,
            size: self.size,
            mtime: self.mtime,
            typeflag: self.typeflag,
        }
    }
}

/// The stored path of a header block: the NUL-terminated name field, with
/// the prefix field and a `'/'` put before it when the prefix is non-empty.
pub open spec fn spec_full_name(b: Seq<u8>) -> Seq<u8> {
    let n = spec_cstr(b.subrange(0, 100));
    let p = spec_cstr(b.subrange(345, 500));
    if p.len() == 0 {
        n
    } else {
        p + seq![47u8] + n
    }
}

/// Decoding a 512-byte header block: the block is rejected as corrupt when
/// the checksum recomputed over the bytes as received does not match the
/// stored checksum field; otherwise every field is read from its fixed
/// offset, the numeric ones as octal text.
pub open spec fn spec_decode(b: Seq<u8>) -> Result<HeaderRecordV, TarError> {
    if spec_checksum(b) == spec_parse_octal(b.subrange(148, 156)) {
        Ok(
            HeaderRecordV {
                name: spec_full_name(b),
                mode: spec_parse_octal(b.subrange(100, 108)) as u64,
                uid: spec_parse_octal(b.subrange(108, 116)) as u64,
                gid: spec_parse_octal(b.subrange(116, 124)) as u64,
                size: spec_parse_octal(b.subrange(124, 136)) as u64,
                mtime: spec_parse_octal(b.subrange(136, 148)) as u64,
                typeflag: b[156],
            },
        )
    } else {
        Err(TarError::CorruptHeaderError)
    }
}

/// Decoding an encoded header recovers the name, the size and every other
/// stored field of the member it was made from.
pub proof fn lemma_decode_encode(m: FileMetaV, size: nat)
    requires
        header_encodable(m, size),
    ensures
        spec_decode(spec_encode_header(m, size)) == Ok::<HeaderRecordV, TarError>(
            HeaderRecordV {
                name: m.name,
                mode: m.mode as u64,
                uid: m.uid as u64,
                gid: m.gid as u64,
                size: size as u64,
                mtime: m.mtime as u64,
                typeflag: m.typeflag,
            },
        ),
{
    lemma_encode_fields(m, size);
    let pre = spec_header_pre(m, size);
    let enc = spec_encode_header(m, size);
    let sum = spec_sum(pre);
    assert(sum < pow8(6)) by {
        lemma_pre_fields(m, size);
        lemma_spec_sum_bound(pre);
        lemma_pow8_value();
    }
    // the stored checksum parses back to the computed sum
    assert(spec_parse_octal(enc.subrange(148, 156)) == sum) by {
        assert(enc.subrange(148, 156) == spec_octal(sum, 6) + seq![0u8, 32u8]);
        lemma_parse_octal_terminated(sum, 6, seq![0u8, 32u8]);
    }
    // the name field reads back as the name; the prefix field is empty
    assert(spec_cstr(enc.subrange(0, 100)) == m.name) by {
        lemma_cstr_of_field(m.name, 100);
    }
    assert(spec_cstr(enc.subrange(345, 500)).len() == 0) by {
        assert(rep_byte(0, 155)[0] == 0);
        assert(nul_pos(rep_byte(0, 155), 0) == 0);
        assert(spec_cstr(rep_byte(0, 155)) =~= Seq::<u8>::empty());
    }
    // each octal field reads back as the value written into it
    lemma_parse_field(enc, 100, m.mode as nat, 7);
    lemma_parse_field(enc, 108, m.uid as nat, 7);
    lemma_parse_field(enc, 116, m.gid as nat, 7);
    lemma_parse_field(enc, 124, size, 11);
    lemma_parse_field(enc, 136, m.mtime as nat, 11);
}

proof fn lemma_parse_field(enc: Seq<u8>, off: int, v: nat, w: nat)
    requires
        0 <= off,
        off + w + 1 <= enc.len(),
        v < pow8(w),
        enc.subrange(off, off + w + 1) == spec_octal(v, w).push(0),
    ensures
        spec_parse_octal(enc.subrange(off, off + w + 1)) == v,
{
    assert(spec_octal(v, w).push(0) =~= spec_octal(v, w) + seq![0u8]);
    lemma_parse_octal_terminated(v, w, seq![0u8]);
}

/// Flipping any single byte of a decodable header block, anywhere outside
/// the checksum field itself, makes decoding fail with
/// [`TarError::CorruptHeaderError`].
pub proof fn lemma_flip_detected(b: Seq<u8>, i: int, v: u8)
    requires
        b.len() == 512,
        spec_decode(b) is Ok,
        0 <= i < 512,
        !(148 <= i < 156),
        v != b[i],
    ensures
        spec_decode(b.update(i, v)) == Err::<HeaderRecordV, TarError>(
            TarError::CorruptHeaderError,
        ),
{
    let c = b.update(i, v);
    assert(c.subrange(148, 156) =~= b.subrange(148, 156));
    let inp = spec_checksum_input(b);
    assert(spec_checksum_input(c) =~= inp.update(i, v));
    lemma_spec_sum_update(inp, i, v);
    assert(inp[i] == b[i]);
    assert(spec_checksum(c) != spec_checksum(b));
}

/// Decides whether a member fits the fixed header fields.
pub fn check_encodable(meta: &FileMeta, size: u64) -> (r: bool)
    ensures
        r == header_encodable(meta@, size as nat),
{
    proof {
        lemma_pow8_value();
    }
    let mut name_ok: bool = meta.name.len() <= 100;
    let mut i: usize = 0;
    while i < meta.name.len()
        invariant
            0 <= i <= meta.name@.len(),
            name_ok == (meta.name@.len() <= 100 && (forall|j: int|
                0 <= j < i ==> meta.name@[j] != 0)),
        decreases meta.name@.len() - i,
    {
        if meta.name[i] == 0 {
            name_ok = false;
        }
        i = i + 1;
    }
    name_ok && meta.mode < 0o10000000 && meta.uid < 0o10000000 && meta.gid < 0o10000000 && size
        < 0o100000000000 && meta.mtime < 0o100000000000 && (meta.typeflag == 48 || meta.typeflag
        == 53) && meta.uname.len() <= 32 && meta.gname.len() <= 32 && meta.devmajor < 0o10000000
        && meta.devminor < 0o10000000
}

/// Encodes one member's metadata and content length as a 512-byte header
/// block, or fails with [`TarError::EncodingError`] exactly when a value
/// does not fit its field.
pub fn encode_header(meta: &FileMeta, size: u64) -> (r: Result<Vec<u8>, TarError>)
    ensures
        match r {
            Ok(h) => header_encodable(meta@, size as nat) && h@ == spec_encode_header(
                meta@,
                size as nat,
            ),
            Err(e) => e == TarError::EncodingError && !header_encodable(meta@, size as nat),
        },
{
    if !check_encodable(meta, size) {
        return Err(TarError::EncodingError);
    }
    proof {
        lemma_pow8_value();
        lemma_pow8_increases(7, 11);
    }
    let ghost pre = spec_header_pre(meta@, size as nat);
    let mut h: Vec<u8> = Vec::new();
    push_text_field(&mut h, &meta.name, 100);
    proof {
        assert(h@ =~= spec_text_field(meta@.name, 100));
    }
    push_octal_nul(&mut h, meta.mode as u64, 7);
    push_octal_nul(&mut h, meta.uid as u64, 7);
    push_octal_nul(&mut h, meta.gid as u64, 7);
    push_octal_nul(&mut h, size, 11);
    push_octal_nul(&mut h, meta.mtime, 11);
    push_repeat(&mut h, 32, 8);
    h.push(meta.typeflag);
    push_repeat(&mut h, 0, 100);
    let magic: [u8; 6] = [117, 115, 116, 97, 114, 0];
    h.extend_from_slice(magic.as_slice());
    proof {
        assert(magic@ =~= seq![117u8, 115, 116, 97, 114, 0]);
    }
    let version: [u8; 2] = [48, 48];
    h.extend_from_slice(version.as_slice());
    proof {
        assert(version@ =~= seq![48u8, 48]);
    }
    push_text_field(&mut h, &meta.uname, 32);
    push_text_field(&mut h, &meta.gname, 32);
    push_octal_nul(&mut h, meta.devmajor as u64, 7);
    push_octal_nul(&mut h, meta.devminor as u64, 7);
    push_repeat(&mut h, 0, 155);
    push_repeat(&mut h, 0, 12);
    proof {
        lemma_pre_fields(meta@, size as nat);
        assert(h@ == pre);
    }
    // compute the checksum over the block as it stands (spaces in the
    // checksum field) and write it into bytes 148 ..= 155
    let sum = checksum_of(&h);
    proof {
        assert(spec_checksum_input(pre) =~= pre) by {
            assert(forall|j: int|
                148 <= j < 156 ==> pre[j] == #[trigger] pre.subrange(148, 156)[j - 148]);
        }
        assert(sum == spec_sum(pre));
        lemma_pow8_value();
    }
    let mut cf: Vec<u8> = Vec::new();
    push_octal_nul(&mut cf, sum as u64, 6);
    cf.push(32);
    proof {
        assert(cf@ =~= spec_octal(sum as nat, 6) + seq![0u8, 32u8]);
        lemma_spec_octal_len(sum as nat, 6);
    }
    let mut k: usize = 0;
    while k < 8
        invariant
            0 <= k <= 8,
            h@.len() == 512,
            pre.len() == 512,
            cf@ == spec_octal(spec_sum(pre), 6) + seq![0u8, 32u8],
            cf@.len() == 8,
            forall|j: int|
                0 <= j < 512 ==> h@[j] == (if 148 <= j < 148 + k {
                    cf@[j - 148]
                } else {
                    pre[j]
                }),
        decreases 8 - k,
    {
        h.set(148 + k, cf[k]);
        k = k + 1;
    }
    proof {
        assert(h@ =~= spec_encode_header(meta@, size as nat));
    }
    Ok(h)
}

/// Copies the NUL-terminated text of the field of width `w` at offset `off`.
fn cstr_in(b: &Vec<u8>, off: usize, w: usize) -> (r: Vec<u8>)
    requires
        off + w <= b@.len(),
    ensures
        r@ == spec_cstr(b@.subrange(off as int, (off + w) as int)),
{
    let ghost s = b@.subrange(off as int, (off + w) as int);
    proof {
        lemma_nul_pos_bounds(s, 0);
    }
    let n = b.len();
    let mut e: usize = 0;
    while e < w && b[off + e] != 0
        invariant
            off + w <= n == b@.len(),
            0 <= e <= w,
            s == b@.subrange(off as int, (off + w) as int),
            forall|j: int| 0 <= j < e ==> s[j] != 0,
        decreases w - e,
    {
        e = e + 1;
    }
    proof {
        lemma_nul_pos_stops(s, 0, e as nat);
    }
    let mut r: Vec<u8> = Vec::new();
    let mut j: usize = 0;
    while j < e
        invariant
            off + w <= n == b@.len(),
            0 <= j <= e <= w,
            s == b@.subrange(off as int, (off + w) as int),
            r@ == s.take(j as int),
        decreases e - j,
    {
        proof {
            assert(s.take(j as int).push(s[j as int]) =~= s.take(j + 1));
        }
        r.push(b[off + j]);
        j = j + 1;
    }
    r
}

/// Decodes a 512-byte header block into its record, verifying the stored
/// checksum against one recomputed over the bytes as received.
pub fn decode_header(b: &Vec<u8>) -> (r: Result<HeaderRecord, TarError>)
    requires
        b@.len() == 512,
    ensures
        match r {
            Ok(rec) => spec_decode(b@) == Ok::<HeaderRecordV, TarError>(rec@),
            Err(e) => spec_decode(b@) == Err::<HeaderRecordV, TarError>(e),
        },
{
    let computed = checksum_of(b);
    let stored = parse_octal_in(b, 148, 8);
    if stored != computed as u64 {
        return Err(TarError::CorruptHeaderError);
    }
    let name = cstr_in(b, 0, 100);
    let prefix = cstr_in(b, 345, 155);
    let full_name: Vec<u8> = if prefix.len() == 0 {
        name
    } else {
        let mut f = prefix;
        f.push(47);
        f.extend_from_slice(name.as_slice());
        proof {
            assert(f@ =~= spec_cstr(b@.subrange(345, 500)) + seq![47u8] + spec_cstr(
                b@.subrange(0, 100),
            ));
        }
        f
    };
    Ok(
        HeaderRecord {
            name: full_name,
            mode: parse_octal_in(b, 100, 8),
            uid: parse_octal_in(b, 108, 8),
            gid: parse_octal_in(b, 116, 8),
            size: parse_octal_in(b, 124, 12),
            mtime: parse_octal_in(b, 136, 12),
            typeflag: b[156],
        },
    )
}

} // verus!
