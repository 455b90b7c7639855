//! The archive operations: create, append, list, update and extract, stated
//! over the archive's byte image. An archive is a flat sequence of 512-byte
//! blocks: for each member a header block and its block-padded content,
//! then a 1024-byte all-zero end marker.

use vstd::prelude::*;

use crate::header::FileMeta;
use crate::header::FileMetaV;
use crate::header::HeaderRecord;
use crate::header::HeaderRecordV;
use crate::header::TarError;
use crate::header::encode_header;
use crate::header::decode_header;
use crate::header::header_encodable;
use crate::header::rep_byte;
use crate::header::spec_decode;
use crate::header::spec_encode_header;

verus! {

/// The validated command the dispatcher hands over: the verb, the archive
/// path, and the member file paths.
pub struct Config {
    pub command: String,
    pub archive_name: String,
    pub files: Vec<String>,
}

/// One member to be archived: its metadata and its content bytes.
#[derive(Debug, Clone)]
pub struct MemberFile {
    pub meta: FileMeta,
    pub content: Vec<u8>,
}

/// The mathematical image of [`MemberFile`].
pub ghost struct MemberFileV {
    pub meta: FileMetaV,
    pub content: Seq<u8>,
}

impl View for MemberFile {
    type V = MemberFileV;

    open spec fn view(&self) -> MemberFileV {
        MemberFileV { meta: self.meta@, content: self.content@ }
    }
}

/// One member recovered from an archive: its stored path and its content,
/// exactly the declared size, without block padding.
#[derive(Debug, Clone)]
pub struct ExtractedFile {
    pub name: Vec<u8>,
    pub content: Vec<u8>,
}

/// The mathematical image of [`ExtractedFile`].
pub ghost struct ExtractedFileV {
    pub name: Seq<u8>,
    pub content: Seq<u8>,
}

impl View for ExtractedFile {
    type V = ExtractedFileV;

    open spec fn view(&self) -> ExtractedFileV {
        ExtractedFileV { name: self.name@, content: self.content@ }
    }
}

/// The views of a sequence of members.
pub open spec fn members_view(fs: Seq<MemberFile>) -> Seq<MemberFileV> {
    fs.map_values(|f: MemberFile| f@)
}

/// Whether one member fits the header fields.
pub open spec fn member_encodable(f: MemberFileV) -> bool {
    header_encodable(f.meta, f.content.len())
}

/// Whether every member of a list fits the header fields. The writer fails
/// with [`TarError::EncodingError`] exactly when this does not hold.
pub open spec fn all_encodable(fs: Seq<MemberFileV>) -> bool {
    forall|i: int| 0 <= i < fs.len() ==> member_encodable(#[trigger] fs[i])
}

/// The zero padding that follows `size` content bytes, up to the next block
/// boundary; always 1 ..= 512 bytes, a full block when `size` is already a
/// multiple of 512, matching the writer's and the scanner's shared
/// convention.
pub open spec fn pad_len(size: nat) -> nat {
    (512 - size % 512) as nat
}

/// The byte image of one member: its header block, its content, and the
/// zero padding to the next block boundary.
pub open spec fn spec_member(f: MemberFileV) -> Seq<u8> {
    spec_encode_header(f.meta, f.content.len()) + f.content + rep_byte(0, pad_len(f.content.len()))
}

/// The byte image of a list of members, in order.
pub open spec fn spec_members(fs: Seq<MemberFileV>) -> Seq<u8>
    decreases fs.len(),
{
    if fs.len() == 0 {
        Seq::empty()
    } else {
        spec_members(fs.drop_last()) + spec_member(fs.last())
    }
}

/// Creating an archive: every member's image in caller order, then the
/// 1024-byte end marker.
pub open spec fn spec_create(fs: Seq<MemberFileV>) -> Result<Seq<u8>, TarError> {
    if all_encodable(fs) {
        Ok(spec_members(fs) + rep_byte(0, 1024))
    } else {
        Err(TarError::EncodingError)
    }
}

/// Appending to an archive: the trailing 1024-byte end marker is stripped,
/// the new members' images follow the kept bytes, and a fresh end marker
/// closes the archive. Fails with [`TarError::MalformedArchiveError`] when
/// the archive is shorter than the end marker itself.
pub open spec fn spec_append(a: Seq<u8>, fs: Seq<MemberFileV>) -> Result<Seq<u8>, TarError> {
    if a.len() < 1024 {
        Err(TarError::MalformedArchiveError)
    } else if all_encodable(fs) {
        Ok(a.take(a.len() - 1024) + spec_members(fs) + rep_byte(0, 1024))
    } else {
        Err(TarError::EncodingError)
    }
}

/// Strips the trailing 1024-byte end marker: the archive shortened by
/// exactly 1024 bytes, or [`TarError::MalformedArchiveError`] when it is
/// shorter than that.
pub fn remove_trailing_zeros(archive: &Vec<u8>) -> (r: Result<Vec<u8>, TarError>)
    ensures
        match r {
            Ok(v) => archive@.len() >= 1024 && v@ == archive@.take(archive@.len() - 1024),
            Err(e) => e == TarError::MalformedArchiveError && archive@.len() < 1024,
        },
{
    if archive.len() < 1024 {
        return Err(TarError::MalformedArchiveError);
    }
    let r = subvec(archive, 0, archive.len() - 1024);
    Ok(r)
}

/// Copies `len` bytes starting at `off`.
pub fn subvec(b: &Vec<u8>, off: usize, len: usize) -> (r: Vec<u8>)
    requires
        off + len <= b@.len(),
    ensures
        r@ == b@.subrange(off as int, off + len),
{
    let n = b.len();
    let mut r: Vec<u8> = Vec::new();
    let mut j: usize = 0;
    while j < len
        invariant
            off + len <= n == b@.len(),
            0 <= j <= len,
            r@ == b@.subrange(off as int, off + j),
        decreases len - j,
    {
        proof {
            assert(b@.subrange(off as int, off + j).push(b@[off + j]) =~= b@.subrange(
                off as int,
                off + j + 1,
            ));
        }
        r.push(b[off + j]);
        j = j + 1;
    }
    r
}

/// Appends every member's image to `base`, in input order, then the end
/// marker: for each member the encoded header, the content verbatim, and
/// zero padding to the next block boundary. Fails with
/// [`TarError::EncodingError`] exactly when some member does not fit the
/// header fields.
pub fn archiving_helper(base: Vec<u8>, files: &Vec<MemberFile>) -> (r: Result<Vec<u8>, TarError>)
    ensures
        match r {
            Ok(v) => all_encodable(members_view(files@)) && v@ == base@ + spec_members(
                members_view(files@),
            ) + rep_byte(0, 1024),
            Err(e) => e == TarError::EncodingError && !all_encodable(members_view(files@)),
        },
{
    let ghost base0 = base@;
    let ghost fv = members_view(files@);
    let mut out = base;
    let mut i: usize = 0;
    while i < files.len()
        invariant
            0 <= i <= files@.len(),
            fv == members_view(files@),
            fv.len() == files@.len(),
            all_encodable(fv.take(i as int)),
            out@ == base0 + spec_members(fv.take(i as int)),
        decreases files@.len() - i,
    {
        let f = &files[i];
        let size: u64 = f.content.len() as u64;
        let mut h = match encode_header(&f.meta, size) {
            Ok(h) => h,
            Err(e) => {
                proof {
                    assert(fv[i as int] == files@[i as int]@);
                    assert(!member_encodable(fv[i as int]));
                }
                return Err(e);
            },
        };
        out.append(&mut h);
        out.extend_from_slice(f.content.as_slice());
        let pad: usize = 512 - (f.content.len() % 512);
        crate::header::push_repeat(&mut out, 0, pad);
        proof {
            assert(fv[i as int] == files@[i as int]@);
            assert(fv.take(i + 1).drop_last() =~= fv.take(i as int));
            assert(fv.take(i + 1).last() == fv[i as int]);
            assert(spec_members(fv.take(i + 1)) == spec_members(fv.take(i as int)) + spec_member(
                fv[i as int],
            ));
            assert(out@ =~= base0 + spec_members(fv.take(i + 1)));
            assert(forall|j: int| 0 <= j < i + 1 ==> member_encodable(#[trigger] fv.take(i + 1)[j]));
        }
        i = i + 1;
    }
    proof {
        assert(fv.take(files@.len() as int) =~= fv);
    }
    crate::header::push_repeat(&mut out, 0, 1024);
    proof {
        assert(out@ =~= base0 + spec_members(fv) + rep_byte(0, 1024));
    }
    Ok(out)
}

/// Creates an archive from the members, in caller order: their images and
/// the end marker, discarding any prior archive content.
pub fn create_archive(files: &Vec<MemberFile>) -> (r: Result<Vec<u8>, TarError>)
    ensures
        match r {
            Ok(v) => spec_create(members_view(files@)) == Ok::<Seq<u8>, TarError>(v@),
            Err(e) => spec_create(members_view(files@)) == Err::<Seq<u8>, TarError>(e),
        },
{
    let out = archiving_helper(Vec::new(), files)?;
    proof {
        assert(Seq::<u8>::empty() + spec_members(members_view(files@)) + rep_byte(0, 1024)
            =~= spec_members(members_view(files@)) + rep_byte(0, 1024));
    }
    Ok(out)
}

/// Appends the members to an existing archive: strips its end marker,
/// writes the members' images, and closes with a fresh marker. Existing
/// member bytes are never touched.
pub fn append_to_archive(archive: &Vec<u8>, files: &Vec<MemberFile>) -> (r: Result<
    Vec<u8>,
    TarError,
>)
    ensures
        match r {
            Ok(v) => spec_append(archive@, members_view(files@)) == Ok::<Seq<u8>, TarError>(v@),
            Err(e) => spec_append(archive@, members_view(files@)) == Err::<Seq<u8>, TarError>(e),
        },
{
    let base = remove_trailing_zeros(archive)?;
    let out = archiving_helper(base, files)?;
    Ok(out)
}

/// An all-zero block: the end marker the scanner stops at.
pub open spec fn is_zero_block(b: Seq<u8>) -> bool {
    forall|i: int| 0 <= i < b.len() ==> b[i] == 0
}

/// How far a scanner moves past one member: its header block, its declared
/// content size, and the padding to the next boundary (a full extra block
/// when the size is an exact multiple of 512).
pub open spec fn skip_of(size: nat) -> nat {
    512 + size + pad_len(size)
}

/// The sequential scan of an archive's byte image from its start: each
/// member's decoded header and its `size` content bytes, in archive order,
/// up to (and not including) the first all-zero header block. The scan
/// fails with [`TarError::CorruptHeaderError`] on a checksum mismatch and
/// with [`TarError::MalformedArchiveError`] when it runs past the end
/// without meeting an end marker.
pub open spec fn spec_scan(a: Seq<u8>) -> Result<Seq<(HeaderRecordV, Seq<u8>)>, TarError>
    decreases a.len(),
{
    if a.len() < 512 {
        Err(TarError::MalformedArchiveError)
    } else if is_zero_block(a.take(512)) {
        Ok(Seq::empty())
    } else {
        match spec_decode(a.take(512)) {
            Err(e) => Err(e),
            Ok(h) => {
                let skip = skip_of(h.size as nat);
                if a.len() < skip {
                    Err(TarError::MalformedArchiveError)
                } else {
                    match spec_scan(a.skip(skip as int)) {
                        Err(e) => Err(e),
                        Ok(rest) => Ok(
                            seq![(h, a.subrange(512, 512 + h.size as int))] + rest,
                        ),
                    }
                }
            },
        }
    }
}

/// Listing an archive: the ordered member headers; an archive shorter than
/// one block lists as empty, a valid case rather than an error.
pub open spec fn spec_list(a: Seq<u8>) -> Result<Seq<HeaderRecordV>, TarError> {
    if a.len() < 512 {
        Ok(Seq::empty())
    } else {
        match spec_scan(a) {
            Ok(ms) => Ok(ms.map_values(|m: (HeaderRecordV, Seq<u8>)| m.0)),
            Err(e) => Err(e),
        }
    }
}

/// Extracting an archive: for each member, in archive order, its stored
/// path and exactly its declared `size` content bytes, the block padding
/// left behind.
pub open spec fn spec_extract(a: Seq<u8>) -> Result<Seq<ExtractedFileV>, TarError> {
    if a.len() < 512 {
        Ok(Seq::empty())
    } else {
        match spec_scan(a) {
            Ok(ms) => Ok(
                ms.map_values(
                    |m: (HeaderRecordV, Seq<u8>)| ExtractedFileV { name: m.0.name, content: m.1 },
                ),
            ),
            Err(e) => Err(e),
        }
    }
}

/// Decides whether the 512 bytes at `off` are all zero.
fn is_zero_block_at(b: &Vec<u8>, off: usize) -> (r: bool)
    requires
        off + 512 <= b@.len(),
    ensures
        r == is_zero_block(b@.subrange(off as int, off + 512)),
{
    let n = b.len();
    let mut j: usize = 0;
    while j < 512
        invariant
            off + 512 <= n == b@.len(),
            0 <= j <= 512,
            forall|k: int| 0 <= k < j ==> #[trigger] b@.subrange(off as int, off + 512)[k] == 0,
        decreases 512 - j,
    {
        if b[off + j] != 0 {
            proof {
                assert(b@.subrange(off as int, off + 512)[j as int] != 0);
            }
            return false;
        }
        j = j + 1;
    }
    true
}

/// Walks the archive from its start, one header at a time, skipping each
/// member's content region by its declared size, and returns the ordered
/// headers; stops before the first all-zero block. An archive shorter than
/// one block yields an empty list, not an error.
pub fn get_archive_files(archive: &Vec<u8>) -> (r: Result<Vec<HeaderRecord>, TarError>)
    ensures
        match r {
            Ok(v) => spec_list(archive@) == Ok::<Seq<HeaderRecordV>, TarError>(
                v@.map_values(|h: HeaderRecord| h@),
            ),
            Err(e) => spec_list(archive@) == Err::<Seq<HeaderRecordV>, TarError>(e),
        },
        archive@.len() < 512 ==> r is Ok && r->Ok_0@.len() == 0,
{
    let pairs = scan_archive(archive)?;
    let mut out: Vec<HeaderRecord> = Vec::new();
    let mut i: usize = 0;
    while i < pairs.len()
        invariant
            0 <= i <= pairs@.len(),
            out@.len() == i,
            forall|j: int| 0 <= j < i ==> out@[j]@ == #[trigger] pairs@[j].0@,
        decreases pairs@.len() - i,
    {
        out.push(
            HeaderRecord {
                name: subvec(&pairs[i].0.name, 0, pairs[i].0.name.len()),
                mode: pairs[i].0.mode,
                uid: pairs[i].0.uid,
                gid: pairs[i].0.gid,
                size: pairs[i].0.size,
                mtime: pairs[i].0.mtime,
                typeflag: pairs[i].0.typeflag,
            },
        );
        proof {
            assert(pairs@[i as int].0.name@.subrange(0, pairs@[i as int].0.name@.len() as int)
                =~= pairs@[i as int].0.name@);
            assert(out@[i as int]@ == pairs@[i as int].0@);
        }
        i = i + 1;
    }
    proof {
        lemma_scan_view(archive@, pairs@);
        assert(out@.map_values(|h: HeaderRecord| h@) =~= pairs@.map_values(
            |p: (HeaderRecord, Vec<u8>)| p.0@,
        ));
    }
    Ok(out)
}

/// The views of scanned pairs.
pub open spec fn pairs_view(ps: Seq<(HeaderRecord, Vec<u8>)>) -> Seq<(HeaderRecordV, Seq<u8>)> {
    ps.map_values(|p: (HeaderRecord, Vec<u8>)| (p.0@, p.1@))
}

proof fn lemma_scan_view(a: Seq<u8>, ps: Seq<(HeaderRecord, Vec<u8>)>)
    requires
        a.len() >= 512 ==> spec_scan(a) == Ok::<Seq<(HeaderRecordV, Seq<u8>)>, TarError>(
            pairs_view(ps),
        ),
        a.len() < 512 ==> ps.len() == 0,
    ensures
        spec_list(a) == Ok::<Seq<HeaderRecordV>, TarError>(
            ps.map_values(|p: (HeaderRecord, Vec<u8>)| p.0@),
        ),
        spec_extract(a) == Ok::<Seq<ExtractedFileV>, TarError>(
            ps.map_values(
                |p: (HeaderRecord, Vec<u8>)| ExtractedFileV { name: p.0.name@, content: p.1@ },
            ),
        ),
{
    if a.len() < 512 {
        assert(ps.map_values(|p: (HeaderRecord, Vec<u8>)| p.0@) =~= Seq::<HeaderRecordV>::empty());
        assert(ps.map_values(
            |p: (HeaderRecord, Vec<u8>)| ExtractedFileV { name: p.0.name@, content: p.1@ },
        ) =~= Seq::<ExtractedFileV>::empty());
    } else {
        assert(pairs_view(ps).map_values(|m: (HeaderRecordV, Seq<u8>)| m.0) =~= ps.map_values(
            |p: (HeaderRecord, Vec<u8>)| p.0@,
        ));
        assert(pairs_view(ps).map_values(
            |m: (HeaderRecordV, Seq<u8>)| ExtractedFileV { name: m.0.name, content: m.1 },
        ) =~= ps.map_values(
            |p: (HeaderRecord, Vec<u8>)| ExtractedFileV { name: p.0.name@, content: p.1@ },
        ));
    }
}

/// The shared walk of list and extract: each member's header record and its
/// content bytes, in archive order.
fn scan_archive(archive: &Vec<u8>) -> (r: Result<Vec<(HeaderRecord, Vec<u8>)>, TarError>)
    ensures
        match r {
            Ok(v) => (archive@.len() >= 512 ==> spec_scan(archive@) == Ok::<
                Seq<(HeaderRecordV, Seq<u8>)>,
                TarError,
            >(pairs_view(v@))) && (archive@.len() < 512 ==> v@.len() == 0),
            Err(e) => archive@.len() >= 512 && spec_scan(archive@) == Err::<
                Seq<(HeaderRecordV, Seq<u8>)>,
                TarError,
            >(e),
        },
{
    let n = archive.len();
    let mut out: Vec<(HeaderRecord, Vec<u8>)> = Vec::new();
    if n < 512 {
        return Ok(out);
    }
    let ghost a = archive@;
    let mut pos: usize = 0;
    proof {
        assert(a.skip(0) =~= a);
        assert(pairs_view(out@) =~= Seq::<(HeaderRecordV, Seq<u8>)>::empty());
        if spec_scan(a) is Ok {
            assert(pairs_view(out@) + spec_scan(a)->Ok_0 =~= spec_scan(a)->Ok_0);
        }
    }
    loop
        invariant
            n == a.len(),
            a == archive@,
            512 <= n,
            0 <= pos <= n,
            spec_scan(a) == (match spec_scan(a.skip(pos as int)) {
                Ok(rest) => Ok::<Seq<(HeaderRecordV, Seq<u8>)>, TarError>(pairs_view(out@) + rest),
                Err(e) => Err::<Seq<(HeaderRecordV, Seq<u8>)>, TarError>(e),
            }),
        decreases n - pos,
    {
        let ghost suf = a.skip(pos as int);
        if n - pos < 512 {
            proof {
                assert(suf.len() < 512);
            }
            return Err(TarError::MalformedArchiveError);
        }
        if is_zero_block_at(archive, pos) {
            proof {
                assert(suf.take(512) =~= a.subrange(pos as int, pos + 512));
                assert(spec_scan(suf) == Ok::<Seq<(HeaderRecordV, Seq<u8>)>, TarError>(
                    Seq::empty(),
                ));
                assert(pairs_view(out@) + Seq::<(HeaderRecordV, Seq<u8>)>::empty() =~= pairs_view(
                    out@,
                ));
            }
            return Ok(out);
        }
        let block = subvec(archive, pos, 512);
        proof {
            assert(block@ =~= suf.take(512));
        }
        let rec = match decode_header(&block) {
            Ok(rec) => rec,
            Err(e) => {
                return Err(e);
            },
        };
        let size: u64 = rec.size;
        proof {
            crate::header::lemma_parse_octal_bound(suf.take(512).subrange(124, 136));
            crate::header::lemma_pow8_value();
            assert(size < 68719476736);
        }
        let pad: u64 = 512 - size % 512;
        let need: u64 = 512 + size + pad;
        if ((n - pos) as u64) < need {
            proof {
                assert(suf.len() < skip_of(rec@.size as nat));
            }
            return Err(TarError::MalformedArchiveError);
        }
        let content = subvec(archive, pos + 512, size as usize);
        let ghost prev_out = out@;
        out.push((rec, content));
        pos = pos + (need as usize);
        proof {
            assert(content@ =~= suf.subrange(512, 512 + rec@.size as int));
            assert(a.skip(pos as int) =~= suf.skip(skip_of(rec@.size as nat) as int));
            assert(pairs_view(out@) =~= pairs_view(prev_out) + seq![(rec@, content@)]);
            assert(spec_scan(suf) == (match spec_scan(suf.skip(skip_of(rec@.size as nat) as int)) {
                Ok(rest) => Ok::<Seq<(HeaderRecordV, Seq<u8>)>, TarError>(
                    seq![(rec@, content@)] + rest,
                ),
                Err(e) => Err::<Seq<(HeaderRecordV, Seq<u8>)>, TarError>(e),
            }));
            if spec_scan(a.skip(pos as int)) is Ok {
                let rest = spec_scan(a.skip(pos as int))->Ok_0;
                assert(pairs_view(prev_out) + (seq![(rec@, content@)] + rest) =~= pairs_view(out@)
                    + rest);
            }
        }
    }
}

/// Extracts every member: the scan's ordered headers, each paired with
/// exactly its declared `size` content bytes from the region after its
/// header. An archive shorter than one block extracts as nothing.
pub fn extract_from_archive(archive: &Vec<u8>) -> (r: Result<Vec<ExtractedFile>, TarError>)
    ensures
        match r {
            Ok(v) => spec_extract(archive@) == Ok::<Seq<ExtractedFileV>, TarError>(
                v@.map_values(|f: ExtractedFile| f@),
            ),
            Err(e) => spec_extract(archive@) == Err::<Seq<ExtractedFileV>, TarError>(e),
        },
{
    let pairs = scan_archive(archive)?;
    let mut out: Vec<ExtractedFile> = Vec::new();
    let mut i: usize = 0;
    while i < pairs.len()
        invariant
            0 <= i <= pairs@.len(),
            out@.len() == i,
            forall|j: int|
                0 <= j < i ==> out@[j]@ == (ExtractedFileV {
                    name: #[trigger] pairs@[j].0.name@,
                    content: pairs@[j].1@,
                }),
        decreases pairs@.len() - i,
    {
        let p = &pairs[i];
        out.push(
            ExtractedFile {
                name: subvec(&p.0.name, 0, p.0.name.len()),
                content: subvec(&p.1, 0, p.1.len()),
            },
        );
        proof {
            assert(pairs@[i as int].0.name@.subrange(0, pairs@[i as int].0.name@.len() as int)
                =~= pairs@[i as int].0.name@);
            assert(pairs@[i as int].1@.subrange(0, pairs@[i as int].1@.len() as int)
                =~= pairs@[i as int].1@);
        }
        i = i + 1;
    }
    proof {
        lemma_scan_view(archive@, pairs@);
        assert(out@.map_values(|f: ExtractedFile| f@) =~= pairs@.map_values(
            |p: (HeaderRecord, Vec<u8>)| ExtractedFileV { name: p.0.name@, content: p.1@ },
        ));
    }
    Ok(out)
}

/// Whether a name is among the listed headers, by exact byte match.
pub open spec fn member_listed(hs: Seq<HeaderRecordV>, name: Seq<u8>) -> bool {
    exists|j: int| 0 <= j < hs.len() && hs[j].name == name
}

/// Updating an archive: every requested member must already be listed in it
/// by exact path match, else [`TarError::MembershipError`] and no write;
/// when all are present the members are appended as fresh trailing copies.
pub open spec fn spec_update(a: Seq<u8>, fs: Seq<MemberFileV>) -> Result<Seq<u8>, TarError> {
    match spec_list(a) {
        Err(e) => Err(e),
        Ok(hs) => {
            if forall|i: int| 0 <= i < fs.len() ==> member_listed(hs, (#[trigger] fs[i]).meta.name) {
                spec_append(a, fs)
            } else {
                Err(TarError::MembershipError)
            }
        },
    }
}

/// Byte-for-byte equality of two byte vectors.
fn bytes_eq(x: &Vec<u8>, y: &Vec<u8>) -> (r: bool)
    ensures
        r == (x@ == y@),
{
    if x.len() != y.len() {
        return false;
    }
    let n = x.len();
    let mut j: usize = 0;
    while j < n
        invariant
            n == x@.len() == y@.len(),
            0 <= j <= n,
            forall|k: int| 0 <= k < j ==> x@[k] == y@[k],
        decreases n - j,
    {
        if x[j] != y[j] {
            return false;
        }
        j = j + 1;
    }
    proof {
        assert(x@ =~= y@);
    }
    true
}

/// Verifies that every requested member is already present in the archive,
/// by exact path match against the listed headers, then appends them all as
/// fresh trailing copies; fails with [`TarError::MembershipError`] before
/// any write when one is absent.
pub fn update_archive(archive: &Vec<u8>, files: &Vec<MemberFile>) -> (r: Result<Vec<u8>, TarError>)
    ensures
        match r {
            Ok(v) => spec_update(archive@, members_view(files@)) == Ok::<Seq<u8>, TarError>(v@),
            Err(e) => spec_update(archive@, members_view(files@)) == Err::<Seq<u8>, TarError>(e),
        },
{
    let hdrs = get_archive_files(archive)?;
    let ghost hv = hdrs@.map_values(|h: HeaderRecord| h@);
    let ghost fv = members_view(files@);
    let mut i: usize = 0;
    while i < files.len()
        invariant
            0 <= i <= files@.len(),
            fv == members_view(files@),
            fv.len() == files@.len(),
            hv == hdrs@.map_values(|h: HeaderRecord| h@),
            hv.len() == hdrs@.len(),
            spec_list(archive@) == Ok::<Seq<HeaderRecordV>, TarError>(hv),
            forall|k: int| 0 <= k < i ==> member_listed(hv, (#[trigger] fv[k]).meta.name),
        decreases files@.len() - i,
    {
        let mut found: bool = false;
        let mut j: usize = 0;
        while j < hdrs.len()
            invariant
                0 <= j <= hdrs@.len(),
                i < files@.len(),
                fv == members_view(files@),
                fv.len() == files@.len(),
                hv == hdrs@.map_values(|h: HeaderRecord| h@),
                hv.len() == hdrs@.len(),
                found ==> member_listed(hv, fv[i as int].meta.name),
                !found ==> forall|k: int| 0 <= k < j ==> hv[k].name != fv[i as int].meta.name,
            decreases hdrs@.len() - j,
        {
            if !found && bytes_eq(&hdrs[j].name, &files[i].meta.name) {
                proof {
                    assert(hv[j as int].name == fv[i as int].meta.name);
                }
                found = true;
            }
            j = j + 1;
        }
        if !found {
            proof {
                assert(!member_listed(hv, fv[i as int].meta.name));
                assert(!(forall|k: int|
                    0 <= k < fv.len() ==> member_listed(hv, (#[trigger] fv[k]).meta.name))) by {
                    assert(0 <= i < fv.len() && !member_listed(hv, fv[i as int].meta.name));
                }
            }
            return Err(TarError::MembershipError);
        }
        i = i + 1;
    }
    let out = append_to_archive(archive, files)?;
    Ok(out)
}

/// The header record an encodable member is stored under: its own path,
/// numeric fields and type flag, with its content length as the size.
pub open spec fn spec_header_of(f: MemberFileV) -> HeaderRecordV {
    HeaderRecordV {
        name: f.meta.name,
        mode: f.meta.mode as u64,
        uid: f.meta.uid as u64,
        gid: f.meta.gid as u64,
        size: f.content.len() as u64,
        mtime: f.meta.mtime as u64,
        typeflag: f.meta.typeflag,
    }
}

proof fn lemma_member_len(f: MemberFileV)
    requires
        member_encodable(f),
    ensures
        spec_member(f).len() == skip_of(f.content.len()),
{
    crate::header::lemma_encode_fields(f.meta, f.content.len());
}

proof fn lemma_members_first(fs: Seq<MemberFileV>)
    requires
        fs.len() > 0,
    ensures
        spec_members(fs) == spec_member(fs[0]) + spec_members(fs.drop_first()),
    decreases fs.len(),
{
    if fs.len() == 1 {
        assert(fs.drop_last() =~= Seq::<MemberFileV>::empty());
        assert(fs.drop_first() =~= Seq::<MemberFileV>::empty());
        assert(Seq::<u8>::empty() + spec_member(fs[0]) =~= spec_member(fs[0]));
        assert(spec_member(fs[0]) + Seq::<u8>::empty() =~= spec_member(fs[0]));
    } else {
        let head = fs.drop_last();
        lemma_members_first(head);
        assert(fs.drop_first().drop_last() =~= head.drop_first());
        assert(fs.drop_first().last() == fs.last());
        assert(head[0] == fs[0]);
        assert((spec_member(fs[0]) + spec_members(head.drop_first())) + spec_member(fs.last())
            =~= spec_member(fs[0]) + (spec_members(head.drop_first()) + spec_member(fs.last())));
    }
}

/// A scan that meets one member's image consumes exactly that image and
/// yields its header and content before whatever the rest yields.
proof fn lemma_scan_prepend(f: MemberFileV, rest: Seq<u8>)
    requires
        member_encodable(f),
    ensures
        spec_scan(spec_member(f) + rest) == (match spec_scan(rest) {
            Ok(r) => Ok::<Seq<(HeaderRecordV, Seq<u8>)>, TarError>(
                seq![(spec_header_of(f), f.content)] + r,
            ),
            Err(e) => Err::<Seq<(HeaderRecordV, Seq<u8>)>, TarError>(e),
        }),
{
    let size = f.content.len();
    crate::header::lemma_encode_fields(f.meta, size);
    crate::header::lemma_decode_encode(f.meta, size);
    crate::header::lemma_pow8_value();
    let enc = spec_encode_header(f.meta, size);
    let mem = spec_member(f);
    let a = mem + rest;
    lemma_member_len(f);
    assert(a.take(512) =~= enc);
    assert(!is_zero_block(a.take(512))) by {
        assert(a.take(512)[257] == 117);
    }
    let h = spec_header_of(f);
    assert(spec_decode(a.take(512)) == Ok::<HeaderRecordV, TarError>(h));
    assert(h.size as nat == size);
    assert(a.len() >= skip_of(size));
    assert(a.skip(mem.len() as int) =~= rest);
    assert(a.subrange(512, 512 + size as int) =~= f.content);
}

/// Scanning the image of a member list followed by the end marker yields
/// exactly those members, in order.
#[verifier::rlimit(100)]
proof fn lemma_scan_members(fs: Seq<MemberFileV>)
    requires
        all_encodable(fs),
    ensures
        spec_scan(spec_members(fs) + rep_byte(0, 1024)) == Ok::<
            Seq<(HeaderRecordV, Seq<u8>)>,
            TarError,
        >(fs.map_values(|f: MemberFileV| (spec_header_of(f), f.content))),
    decreases fs.len(),
{
    let tail = rep_byte(0, 1024);
    if fs.len() == 0 {
        assert(spec_members(fs) + tail =~= tail);
        assert(is_zero_block(tail.take(512)));
        assert(fs.map_values(|f: MemberFileV| (spec_header_of(f), f.content)) =~= Seq::<
            (HeaderRecordV, Seq<u8>),
        >::empty());
    } else {
        let rest = fs.drop_first();
        assert(all_encodable(rest)) by {
            assert(forall|k: int| 0 <= k < rest.len() ==> #[trigger] rest[k] == fs[k + 1]);
        }
        assert(member_encodable(fs[0]));
        lemma_members_first(fs);
        lemma_scan_members(rest);
        lemma_scan_prepend(fs[0], spec_members(rest) + tail);
        assert(spec_member(fs[0]) + (spec_members(rest) + tail) =~= spec_members(fs) + tail);
        assert(seq![(spec_header_of(fs[0]), fs[0].content)] + rest.map_values(
            |f: MemberFileV| (spec_header_of(f), f.content),
        ) =~= fs.map_values(|f: MemberFileV| (spec_header_of(f), f.content)));
    }
}

/// Round-trip law: extracting an archive created from a member list
/// reproduces every member's path and exact content bytes, in order; the
/// block padding never leaks into the extracted contents.
pub proof fn lemma_extract_create(fs: Seq<MemberFileV>)
    requires
        all_encodable(fs),
    ensures
        spec_create(fs) is Ok,
        spec_extract(spec_create(fs)->Ok_0) == Ok::<Seq<ExtractedFileV>, TarError>(
            fs.map_values(|f: MemberFileV| ExtractedFileV { name: f.meta.name, content: f.content }),
        ),
{
    lemma_scan_members(fs);
    let a = spec_create(fs)->Ok_0;
    assert(a.len() >= 1024);
    let pairs = fs.map_values(|f: MemberFileV| (spec_header_of(f), f.content));
    assert(pairs.map_values(
        |m: (HeaderRecordV, Seq<u8>)| ExtractedFileV { name: m.0.name, content: m.1 },
    ) =~= fs.map_values(
        |f: MemberFileV| ExtractedFileV { name: f.meta.name, content: f.content },
    ));
}

proof fn lemma_members_concat(fs: Seq<MemberFileV>, gs: Seq<MemberFileV>)
    ensures
        spec_members(fs + gs) == spec_members(fs) + spec_members(gs),
    decreases gs.len(),
{
    if gs.len() == 0 {
        assert(fs + gs =~= fs);
        assert(spec_members(fs) + spec_members(gs) =~= spec_members(fs));
    } else {
        lemma_members_concat(fs, gs.drop_last());
        assert((fs + gs).drop_last() =~= fs + gs.drop_last());
        assert((fs + gs).last() == gs.last());
        assert((spec_members(fs) + spec_members(gs.drop_last())) + spec_member(gs.last())
            =~= spec_members(fs) + (spec_members(gs.drop_last()) + spec_member(gs.last())));
    }
}

/// Append law: appending members to a freshly created archive gives exactly
/// the archive created from the two member lists in order — the old marker
/// is replaced, existing member bytes are untouched, and the archive grows
/// by the appended members' images.
pub proof fn lemma_append_create(fs: Seq<MemberFileV>, gs: Seq<MemberFileV>)
    requires
        all_encodable(fs),
        all_encodable(gs),
    ensures
        spec_create(fs) is Ok,
        spec_create(fs + gs) is Ok,
        spec_append(spec_create(fs)->Ok_0, gs) == Ok::<Seq<u8>, TarError>(
            spec_create(fs + gs)->Ok_0,
        ),
{
    assert(all_encodable(fs + gs)) by {
        assert(forall|i: int|
            0 <= i < fs.len() + gs.len() ==> (#[trigger] (fs + gs)[i]) == (if i < fs.len() {
                fs[i]
            } else {
                gs[i - fs.len()]
            }));
    }
    let a = spec_create(fs)->Ok_0;
    lemma_members_concat(fs, gs);
    assert(a.take(a.len() - 1024) =~= spec_members(fs));
    assert((spec_members(fs) + spec_members(gs)) + rep_byte(0, 1024) =~= spec_members(fs) + (
    spec_members(gs) + rep_byte(0, 1024)));
    assert(spec_append(a, gs)->Ok_0 =~= spec_create(fs + gs)->Ok_0);
}

/// Order law: listing an archive created from a member list returns the
/// members' headers in exactly the order they were written.
pub proof fn lemma_list_create(fs: Seq<MemberFileV>)
    requires
        all_encodable(fs),
    ensures
        spec_create(fs) is Ok,
        spec_list(spec_create(fs)->Ok_0) == Ok::<Seq<HeaderRecordV>, TarError>(
            fs.map_values(|f: MemberFileV| spec_header_of(f)),
        ),
{
    lemma_scan_members(fs);
    let a = spec_create(fs)->Ok_0;
    assert(a.len() >= 1024);
    let pairs = fs.map_values(|f: MemberFileV| (spec_header_of(f), f.content));
    assert(pairs.map_values(|m: (HeaderRecordV, Seq<u8>)| m.0) =~= fs.map_values(
        |f: MemberFileV| spec_header_of(f),
    ));
}

} // verus!
