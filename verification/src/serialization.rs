//! Binary snapshot codec.
//!
//! All integers are big-endian 32-bit unsigned; all strings are
//! length-prefixed by a byte count followed by their UTF-8 bytes. The
//! encoding of a replica is the header (`last_timestamp`, `last_id`,
//! `site_id`, file count) followed by one record per tracked file, in the
//! file map's order. Decoding accepts records in any order and rebuilds the
//! lookup trie from each file's on-disk path.

use vstd::prelude::*;

verus! {

use vstd::string::*;
use vstd::utf8::{
    decode_utf8, encode_utf8, encode_utf8_decode_utf8, encode_utf8_valid_utf8, valid_utf8,
};
use crate::lookup::IDLookup;
use crate::text::{bytes_to_string, lossy_chars};
use crate::{
    has_key, keys_unique, lemma_val_at, lemma_wf_insert, val_of, FileID, FileMetadata, FileSet,
    FileSetError, FileUpdater,
};

/// Big-endian bytes of one integer.
pub open spec fn enc_u32(x: u32) -> Seq<u8> {
    seq![(x >> 24) as u8, (x >> 16) as u8, (x >> 8) as u8, x as u8]
}

/// Length-prefixed UTF-8 bytes of one string.
pub open spec fn enc_str(s: Seq<char>) -> Seq<u8> {
    enc_u32(encode_utf8(s).len() as u32) + encode_utf8(s)
}

/// One attribute record: key, stamp timestamp, value. The stamp's author is
/// not part of the format.
pub open spec fn enc_attr(a: (String, (u32, u32, String))) -> Seq<u8> {
    enc_str(a.0@) + enc_u32(a.1.0) + enc_str(a.1.2@)
}

pub open spec fn enc_attrs_from(s: Seq<(String, (u32, u32, String))>, j: int) -> Seq<u8>
    decreases s.len() - j,
{
    if 0 <= j < s.len() {
        enc_attr(s[j]) + enc_attrs_from(s, j + 1)
    } else {
        Seq::empty()
    }
}

pub open spec fn enc_comps_from(s: Seq<String>, j: int) -> Seq<u8>
    decreases s.len() - j,
{
    if 0 <= j < s.len() {
        enc_str(s[j]@) + enc_comps_from(s, j + 1)
    } else {
        Seq::empty()
    }
}

/// One file record.
pub open spec fn enc_file(e: (FileID, FileMetadata)) -> Seq<u8> {
    enc_u32(e.0.0) + enc_u32(e.0.1) + enc_u32(e.1.filename.0) + enc_u32(
        e.1.filename.1@.len() as u32,
    ) + enc_comps_from(e.1.filename.1@, 0) + enc_str(e.1.printed_filename@) + enc_u32(
        e.1.attributes@.len() as u32,
    ) + enc_attrs_from(e.1.attributes@, 0)
}

pub open spec fn enc_files_from(s: Seq<(FileID, FileMetadata)>, j: int) -> Seq<u8>
    decreases s.len() - j,
{
    if 0 <= j < s.len() {
        enc_file(s[j]) + enc_files_from(s, j + 1)
    } else {
        Seq::empty()
    }
}

/// The snapshot bytes of a replica.
pub open spec fn snapshot_bytes<FU: FileUpdater>(fs: FileSet<FU>) -> Seq<u8> {
    enc_u32(fs.last_timestamp) + enc_u32(fs.last_id) + enc_u32(fs.site_id) + enc_u32(
        fs.files@.len() as u32,
    ) + enc_files_from(fs.files@, 0)
}

/// A string short enough that its UTF-8 byte count fits the length prefix.
pub open spec fn str_fits(s: Seq<char>) -> bool {
    s.len() < 0x40000000
}

/// Every count and string of one file fits the format's 32-bit fields.
pub open spec fn meta_bounded(m: FileMetadata) -> bool {
    &&& m.filename.1@.len() < 0x100000000
    &&& forall|i: int| 0 <= i < m.filename.1@.len() ==> str_fits((#[trigger] m.filename.1@[i])@)
    &&& str_fits(m.printed_filename@)
    &&& m.attributes@.len() < 0x100000000
    &&& forall|i: int|
        0 <= i < m.attributes@.len() ==> str_fits((#[trigger] m.attributes@[i]).0@) && str_fits(
            m.attributes@[i].1.2@,
        )
}

/// Every count and string of the replica fits the format's 32-bit fields.
pub open spec fn snapshot_bounded<FU: FileUpdater>(fs: FileSet<FU>) -> bool {
    &&& fs.files@.len() < 0x100000000
    &&& forall|i: int| 0 <= i < fs.files@.len() ==> meta_bounded((#[trigger] fs.files@[i]).1)
}

/// A UTF-8 encoding spends at most four bytes per character.
proof fn lemma_encode_utf8_len(s: Seq<char>)
    ensures
        encode_utf8(s).len() <= 4 * s.len(),
    decreases s.len(),
{
    if s.len() > 0 {
        lemma_encode_utf8_len(s.drop_first());
    }
}

/// Appends the big-endian bytes of `x`.
fn push_u32(out: &mut Vec<u8>, x: u32)
    ensures
        final(out)@ == old(out)@ + enc_u32(x),
{
    out.push((x >> 24) as u8);
    out.push((x >> 16) as u8);
    out.push((x >> 8) as u8);
    out.push(x as u8);
    proof {
        assert((*out)@ =~= old(out)@ + enc_u32(x));
    }
}

/// Appends the length-prefixed UTF-8 bytes of `s`.
fn push_str(out: &mut Vec<u8>, s: &String)
    requires
        str_fits(s@),
    ensures
        final(out)@ == old(out)@ + enc_str(s@),
{
    let mut bytes = s.as_str().as_bytes_vec();
    proof {
        lemma_encode_utf8_len(s@);
    }
    let n = bytes.len();
    push_u32(out, n as u32);
    out.append(&mut bytes);
    proof {
        assert((*out)@ =~= old(out)@ + enc_str(s@));
    }
}

/// Appends one file record.
fn push_file(out: &mut Vec<u8>, id: FileID, m: &FileMetadata)
    requires
        meta_bounded(*m),
    ensures
        final(out)@ == old(out)@ + enc_file((id, *m)),
{
    push_u32(out, id.0);
    push_u32(out, id.1);
    push_u32(out, m.filename.0);
    push_u32(out, m.filename.1.len() as u32);
    let ghost header = old(out)@ + enc_u32(id.0) + enc_u32(id.1) + enc_u32(m.filename.0) + enc_u32(
        m.filename.1@.len() as u32,
    );
    let mut i: usize = 0;
    while i < m.filename.1.len()
        invariant
            meta_bounded(*m),
            i <= m.filename.1@.len(),
            (*out)@ + enc_comps_from(m.filename.1@, i as int) =~= header + enc_comps_from(
                m.filename.1@,
                0,
            ),
        decreases m.filename.1@.len() - i,
    {
        push_str(out, &m.filename.1[i]);
        i += 1;
    }
    push_str(out, &m.printed_filename);
    push_u32(out, m.attributes.len() as u32);
    let ghost header2 = header + enc_comps_from(m.filename.1@, 0) + enc_str(m.printed_filename@)
        + enc_u32(m.attributes@.len() as u32);
    let mut k: usize = 0;
    while k < m.attributes.len()
        invariant
            meta_bounded(*m),
            k <= m.attributes@.len(),
            (*out)@ + enc_attrs_from(m.attributes@, k as int) =~= header2 + enc_attrs_from(
                m.attributes@,
                0,
            ),
        decreases m.attributes@.len() - k,
    {
        push_str(out, &m.attributes[k].0);
        push_u32(out, m.attributes[k].1.0);
        push_str(out, &m.attributes[k].1.2);
        proof {
            assert(enc_attr(m.attributes@[k as int]) == enc_str(m.attributes@[k as int].0@)
                + enc_u32(m.attributes@[k as int].1.0) + enc_str(m.attributes@[k as int].1.2@));
            assert((*out)@ + enc_attrs_from(m.attributes@, k + 1) =~= header2 + enc_attrs_from(
                m.attributes@,
                0,
            ));
        }
        k += 1;
    }
    proof {
        assert((*out)@ =~= old(out)@ + enc_file((id, *m)));
    }
}

impl<FU: FileUpdater> FileSet<FU> {
    /// Encodes this replica's snapshot.
    pub fn compress_to(&self) -> (r: Vec<u8>)
        requires
            snapshot_bounded(*self),
        ensures
            r@ == snapshot_bytes(*self),
    {
        let mut out: Vec<u8> = Vec::new();
        push_u32(&mut out, self.last_timestamp);
        push_u32(&mut out, self.last_id);
        push_u32(&mut out, self.site_id);
        push_u32(&mut out, self.files.len() as u32);
        let ghost header = enc_u32(self.last_timestamp) + enc_u32(self.last_id) + enc_u32(
            self.site_id,
        ) + enc_u32(self.files@.len() as u32);
        let mut i: usize = 0;
        while i < self.files.len()
            invariant
                snapshot_bounded(*self),
                i <= self.files@.len(),
                out@ + enc_files_from(self.files@, i as int) =~= header + enc_files_from(
                    self.files@,
                    0,
                ),
            decreases self.files@.len() - i,
        {
            push_file(&mut out, self.files[i].0, &self.files[i].1);
            i += 1;
        }
        proof {
            assert(out@ =~= snapshot_bytes(*self));
        }
        out
    }
}

/// The integer read from four big-endian bytes.
pub open spec fn dec_u32(b: Seq<u8>) -> u32
    recommends
        b.len() == 4,
{
    (((b[0] as u32) << 24) | ((b[1] as u32) << 16) | ((b[2] as u32) << 8) | (b[3] as u32)) as u32
}

/// Reads one integer at `pos`; fails when fewer than four bytes remain.
pub open spec fn parse_u32(b: Seq<u8>, pos: int) -> Option<(u32, int)> {
    if 0 <= pos && pos + 4 <= b.len() {
        Some((dec_u32(b.subrange(pos, pos + 4)), pos + 4))
    } else {
        None
    }
}

/// Reads one length-prefixed byte string at `pos`.
pub open spec fn parse_str_raw(b: Seq<u8>, pos: int) -> Option<(Seq<u8>, int)> {
    match parse_u32(b, pos) {
        Some((n, p)) => if p + n <= b.len() {
            Some((b.subrange(p, p + n), p + n))
        } else {
            None
        },
        None => None,
    }
}

/// One file record as read from the wire, strings still as raw bytes.
pub ghost struct RawFile {
    pub site: u32,
    pub id: u32,
    pub ts: u32,
    pub comps: Seq<Seq<u8>>,
    pub printed: Seq<u8>,
    pub attrs: Seq<(Seq<u8>, u32, Seq<u8>)>,
}

pub open spec fn parse_comps(b: Seq<u8>, pos: int, count: int) -> Option<(Seq<Seq<u8>>, int)>
    decreases count,
{
    if count <= 0 {
        Some((Seq::empty(), pos))
    } else {
        match parse_str_raw(b, pos) {
            Some((s, p)) => match parse_comps(b, p, count - 1) {
                Some((rest, p2)) => Some((seq![s] + rest, p2)),
                None => None,
            },
            None => None,
        }
    }
}

pub open spec fn parse_attrs(b: Seq<u8>, pos: int, count: int) -> Option<
    (Seq<(Seq<u8>, u32, Seq<u8>)>, int),
>
    decreases count,
{
    if count <= 0 {
        Some((Seq::empty(), pos))
    } else {
        match parse_str_raw(b, pos) {
            Some((key, p1)) => match parse_u32(b, p1) {
                Some((ts, p2)) => match parse_str_raw(b, p2) {
                    Some((value, p3)) => match parse_attrs(b, p3, count - 1) {
                        Some((rest, p4)) => Some((seq![(key, ts, value)] + rest, p4)),
                        None => None,
                    },
                    None => None,
                },
                None => None,
            },
            None => None,
        }
    }
}

pub open spec fn parse_file(b: Seq<u8>, pos: int) -> Option<(RawFile, int)> {
    match parse_u32(b, pos) {
        Some((site, p1)) => match parse_u32(b, p1) {
            Some((id, p2)) => match parse_u32(b, p2) {
                Some((ts, p3)) => match parse_u32(b, p3) {
                    Some((ccount, p4)) => match parse_comps(b, p4, ccount as int) {
                        Some((comps, p5)) => match parse_str_raw(b, p5) {
                            Some((printed, p6)) => match parse_u32(b, p6) {
                                Some((acount, p7)) => match parse_attrs(b, p7, acount as int) {
                                    Some((attrs, p8)) => Some(
                                        (RawFile { site, id, ts, comps, printed, attrs }, p8),
                                    ),
                                    None => None,
                                },
                                None => None,
                            },
                            None => None,
                        },
                        None => None,
                    },
                    None => None,
                },
                None => None,
            },
            None => None,
        },
        None => None,
    }
}

pub open spec fn parse_files(b: Seq<u8>, pos: int, count: int) -> Option<(Seq<RawFile>, int)>
    decreases count,
{
    if count <= 0 {
        Some((Seq::empty(), pos))
    } else {
        match parse_file(b, pos) {
            Some((f, p)) => match parse_files(b, p, count - 1) {
                Some((rest, p2)) => Some((seq![f] + rest, p2)),
                None => None,
            },
            None => None,
        }
    }
}

/// Reads the whole snapshot: header then records. Trailing bytes are
/// ignored.
pub open spec fn parse_snapshot(b: Seq<u8>) -> Option<(u32, u32, u32, Seq<RawFile>)> {
    match parse_u32(b, 0) {
        Some((ts, p1)) => match parse_u32(b, p1) {
            Some((lid, p2)) => match parse_u32(b, p2) {
                Some((site, p3)) => match parse_u32(b, p3) {
                    Some((count, p4)) => match parse_files(b, p4, count as int) {
                        Some((files, _)) => Some((ts, lid, site, files)),
                        None => None,
                    },
                    None => None,
                },
                None => None,
            },
            None => None,
        },
        None => None,
    }
}

/// A decoded snapshot is accepted when it parses structurally and rebuilds a
/// replica that meets the invariant: at least one path component per file, no
/// duplicate identifiers, no identifier this site never issued, and distinct
/// attribute keys per file.
pub open spec fn snapshot_accepted(b: Seq<u8>) -> bool {
    match parse_snapshot(b) {
        Some(h) => {
            &&& (forall|i: int| 0 <= i < h.3.len() ==> (#[trigger] h.3[i]).comps.len() > 0)
            &&& (forall|i: int|
                0 <= i < h.3.len() ==> ((#[trigger] h.3[i]).site == h.2 ==> h.3[i].id < h.1))
            &&& (forall|i: int, a: int, c: int|
                #![trigger h.3[i].attrs[a], h.3[i].attrs[c]]
                0 <= i < h.3.len() && 0 <= a < c < h.3[i].attrs.len() ==> lossy_chars(
                    h.3[i].attrs[a].0,
                ) != lossy_chars(h.3[i].attrs[c].0))
            &&& (forall|i: int, j: int|
                0 <= i < j < h.3.len() ==> ((#[trigger] h.3[i]).site, h.3[i].id) != ((
                #[trigger] h.3[j]).site, h.3[j].id))
        },
        None => false,
    }
}

/// The decoded metadata a raw record yields, printed name aside. The format
/// carries no stamp authors, so a decoded stamp's author defaults to the
/// file's own site.
pub open spec fn file_matches(id: FileID, m: FileMetadata, rf: RawFile) -> bool {
    &&& id == (rf.site, rf.id)
    &&& m.filename.0 == rf.ts
    &&& m.filename_author == rf.site
    &&& m.filename.1@.len() == rf.comps.len()
    &&& forall|i: int|
        0 <= i < rf.comps.len() ==> ((#[trigger] m.filename.1@[i])@ == lossy_chars(rf.comps[i])
            && (valid_utf8(rf.comps[i]) ==> m.filename.1@[i]@ == decode_utf8(rf.comps[i])))
    &&& m.attributes@.len() == rf.attrs.len()
    &&& forall|i: int|
        0 <= i < rf.attrs.len() ==> {
            &&& ((#[trigger] m.attributes@[i]).0@ == lossy_chars(rf.attrs[i].0))
            &&& (valid_utf8(rf.attrs[i].0) ==> m.attributes@[i].0@ == decode_utf8(rf.attrs[i].0))
            &&& m.attributes@[i].1.0 == rf.attrs[i].1
            &&& m.attributes@[i].1.1 == rf.site
            &&& m.attributes@[i].1.2@ == lossy_chars(rf.attrs[i].2)
            &&& (valid_utf8(rf.attrs[i].2) ==> m.attributes@[i].1.2@ == decode_utf8(rf.attrs[i].2))
        }
}

/// The on-disk path a raw record asks for.
pub open spec fn raw_local_path(rf: RawFile) -> Seq<Seq<char>> {
    Seq::new(rf.comps.len() as nat, |i: int| lossy_chars(rf.comps[i])).drop_last().push(
        lossy_chars(rf.printed),
    )
}

/// Reads one big-endian integer at `pos`.
fn read_u32(b: &Vec<u8>, pos: usize) -> (r: Option<(u32, usize)>)
    ensures
        match r {
            Some((x, p)) => parse_u32(b@, pos as int) == Some((x, p as int)),
            None => parse_u32(b@, pos as int) is None,
        },
{
    if b.len() >= 4 && pos <= b.len() - 4 {
        let x = ((b[pos] as u32) << 24) | ((b[pos + 1] as u32) << 16) | ((b[pos + 2] as u32) << 8)
            | (b[pos + 3] as u32);
        proof {
            let sub = b@.subrange(pos as int, pos as int + 4);
            assert(sub[0] == b@[pos as int]);
            assert(sub[1] == b@[pos as int + 1]);
            assert(sub[2] == b@[pos as int + 2]);
            assert(sub[3] == b@[pos as int + 3]);
        }
        Some((x, pos + 4))
    } else {
        None
    }
}

/// Reads one length-prefixed string at `pos`, decoding its bytes lossily.
fn read_str(b: &Vec<u8>, pos: usize) -> (r: Option<(String, usize)>)
    ensures
        match r {
            Some((s, p)) => parse_str_raw(b@, pos as int) matches Some((raw, p2)) && p == p2 && s@
                == lossy_chars(raw) && (valid_utf8(raw) ==> s@ == decode_utf8(raw)),
            None => parse_str_raw(b@, pos as int) is None,
        },
{
    match read_u32(b, pos) {
        Some((n, p)) => {
            if n as usize <= b.len() - p {
                let raw = vstd::slice::slice_subrange(b.as_slice(), p, p + n as usize);
                let s = bytes_to_string(raw);
                Some((s, p + n as usize))
            } else {
                None
            }
        },
        None => None,
    }
}

/// Reads one file record at `pos`.
fn read_file(b: &Vec<u8>, pos: usize) -> (r: Option<(FileID, FileMetadata, usize)>)
    ensures
        match r {
            Some((id, m, p)) => parse_file(b@, pos as int) matches Some((rf, p2)) && p == p2
                && file_matches(id, m, rf) && m.printed_filename@ == lossy_chars(rf.printed) && (
            valid_utf8(rf.printed) ==> m.printed_filename@ == decode_utf8(rf.printed)),
            None => parse_file(b@, pos as int) is None,
        },
{
    let (site, p1) = match read_u32(b, pos) {
        Some(v) => v,
        None => {
            return None;
        },
    };
    let (fid, p2) = match read_u32(b, p1) {
        Some(v) => v,
        None => {
            return None;
        },
    };
    let (ts, p3) = match read_u32(b, p2) {
        Some(v) => v,
        None => {
            return None;
        },
    };
    let (ccount, p4) = match read_u32(b, p3) {
        Some(v) => v,
        None => {
            return None;
        },
    };
    let mut comps: Vec<String> = Vec::new();
    let ghost mut raws: Seq<Seq<u8>> = Seq::empty();
    let mut cur: usize = p4;
    let mut i: u32 = 0;
    while i < ccount
        invariant
            parse_u32(b@, pos as int) == Some((site, p1 as int)),
            parse_u32(b@, p1 as int) == Some((fid, p2 as int)),
            parse_u32(b@, p2 as int) == Some((ts, p3 as int)),
            parse_u32(b@, p3 as int) == Some((ccount, p4 as int)),
            i <= ccount,
            comps@.len() == i,
            raws.len() == i,
            forall|x: int|
                0 <= x < i as int ==> ((#[trigger] comps@[x])@ == lossy_chars(raws[x]) && (
                valid_utf8(raws[x]) ==> comps@[x]@ == decode_utf8(raws[x]))),
            parse_comps(b@, p4 as int, ccount as int) == (match parse_comps(
                b@,
                cur as int,
                ccount - i,
            ) {
                Some((rest, p)) => Some((raws + rest, p)),
                None => None::<(Seq<Seq<u8>>, int)>,
            }),
        decreases ccount - i,
    {
        match read_str(b, cur) {
            Some((s, p)) => {
                proof {
                    let raw = (parse_str_raw(b@, cur as int)->0).0;
                    assert forall|rest: Seq<Seq<u8>>| true implies raws + (seq![raw] + rest)
                        =~= raws.push(raw) + rest by {}
                    raws = raws.push(raw);
                }
                comps.push(s);
                cur = p;
                i += 1;
            },
            None => {
                return None;
            },
        }
    }
    proof {
        assert(parse_comps(b@, p4 as int, ccount as int) == Some((raws, cur as int))) by {
            assert(raws + Seq::<Seq<u8>>::empty() =~= raws);
        }
    }
    let c_end = cur;
    let (printed, p6) = match read_str(b, c_end) {
        Some(v) => v,
        None => {
            return None;
        },
    };
    let (acount, p7) = match read_u32(b, p6) {
        Some(v) => v,
        None => {
            return None;
        },
    };
    let mut attrs: Vec<(String, (u32, u32, String))> = Vec::new();
    let ghost mut rawattrs: Seq<(Seq<u8>, u32, Seq<u8>)> = Seq::empty();
    let mut acur: usize = p7;
    let mut k: u32 = 0;
    while k < acount
        invariant
            parse_u32(b@, pos as int) == Some((site, p1 as int)),
            parse_u32(b@, p1 as int) == Some((fid, p2 as int)),
            parse_u32(b@, p2 as int) == Some((ts, p3 as int)),
            parse_u32(b@, p3 as int) == Some((ccount, p4 as int)),
            parse_comps(b@, p4 as int, ccount as int) == Some((raws, c_end as int)),
            (parse_str_raw(b@, c_end as int) matches Some(pr) && printed@ == lossy_chars(pr.0)
                && pr.1 == p6 as int),
            parse_u32(b@, p6 as int) == Some((acount, p7 as int)),
            k <= acount,
            attrs@.len() == k,
            rawattrs.len() == k,
            forall|x: int|
                0 <= x < k as int ==> {
                    &&& ((#[trigger] attrs@[x]).0@ == lossy_chars(rawattrs[x].0))
                    &&& (valid_utf8(rawattrs[x].0) ==> attrs@[x].0@ == decode_utf8(rawattrs[x].0))
                    &&& attrs@[x].1.0 == rawattrs[x].1
                    &&& attrs@[x].1.1 == site
                    &&& attrs@[x].1.2@ == lossy_chars(rawattrs[x].2)
                    &&& (valid_utf8(rawattrs[x].2) ==> attrs@[x].1.2@ == decode_utf8(
                        rawattrs[x].2,
                    ))
                },
            parse_attrs(b@, p7 as int, acount as int) == (match parse_attrs(
                b@,
                acur as int,
                acount - k,
            ) {
                Some((rest, p)) => Some((rawattrs + rest, p)),
                None => None::<(Seq<(Seq<u8>, u32, Seq<u8>)>, int)>,
            }),
        decreases acount - k,
    {
        let (key, q1) = match read_str(b, acur) {
            Some(v) => v,
            None => {
                return None;
            },
        };
        let (ats, q2) = match read_u32(b, q1) {
            Some(v) => v,
            None => {
                return None;
            },
        };
        match read_str(b, q2) {
            Some((value, q3)) => {
                proof {
                    let kraw = (parse_str_raw(b@, acur as int)->0).0;
                    let vraw = (parse_str_raw(b@, q2 as int)->0).0;
                    let trip = (kraw, ats, vraw);
                    assert forall|rest: Seq<(Seq<u8>, u32, Seq<u8>)>| true implies rawattrs + (
                    seq![trip] + rest) =~= rawattrs.push(trip) + rest by {}
                    rawattrs = rawattrs.push(trip);
                }
                attrs.push((key, (ats, site, value)));
                acur = q3;
                k += 1;
            },
            None => {
                return None;
            },
        }
    }
    proof {
        assert(parse_attrs(b@, p7 as int, acount as int) == Some((rawattrs, acur as int))) by {
            assert(rawattrs + Seq::<(Seq<u8>, u32, Seq<u8>)>::empty() =~= rawattrs);
        }
    }
    let m = FileMetadata {
        filename: (ts, comps),
        filename_author: site,
        printed_filename: printed,
        attributes: attrs,
    };
    Some(((site, fid), m, acur))
}

/// The raw record a file entry encodes to.
pub open spec fn raw_file_of(e: (FileID, FileMetadata)) -> RawFile {
    RawFile {
        site: e.0.0,
        id: e.0.1,
        ts: e.1.filename.0,
        comps: Seq::new(e.1.filename.1@.len(), |i: int| encode_utf8(e.1.filename.1@[i]@)),
        printed: encode_utf8(e.1.printed_filename@),
        attrs: Seq::new(
            e.1.attributes@.len(),
            |i: int|
                (
                    encode_utf8(e.1.attributes@[i].0@),
                    e.1.attributes@[i].1.0,
                    encode_utf8(e.1.attributes@[i].1.2@),
                ),
        ),
    }
}

pub open spec fn raw_files_of(s: Seq<(FileID, FileMetadata)>) -> Seq<RawFile> {
    Seq::new(s.len(), |i: int| raw_file_of(s[i]))
}

/// Splits a known subrange of `b` at a concatenation boundary.
proof fn lemma_split_at(b: Seq<u8>, pos: int, x: Seq<u8>, y: Seq<u8>)
    requires
        0 <= pos,
        pos + x.len() + y.len() <= b.len(),
        b.subrange(pos, pos + x.len() + y.len()) == x + y,
    ensures
        b.subrange(pos, pos + x.len()) == x,
        b.subrange(pos + x.len(), pos + x.len() + y.len()) == y,
{
    let whole = b.subrange(pos, pos + x.len() + y.len());
    assert forall|i: int| 0 <= i < x.len() implies b.subrange(pos, pos + x.len())[i] == x[i] by {
        assert(whole[i] == (x + y)[i]);
    }
    assert(b.subrange(pos, pos + x.len()) =~= x);
    assert forall|i: int|
        0 <= i < y.len() implies b.subrange(pos + x.len(), pos + x.len() + y.len())[i] == y[i] by {
        assert(whole[x.len() + i] == (x + y)[x.len() + i]);
    }
    assert(b.subrange(pos + x.len(), pos + x.len() + y.len()) =~= y);
}

/// Reading four encoded bytes yields the encoded integer.
proof fn lemma_parse_u32_at(b: Seq<u8>, pos: int, x: u32)
    requires
        0 <= pos,
        pos + 4 <= b.len(),
        b.subrange(pos, pos + 4) == enc_u32(x),
    ensures
        parse_u32(b, pos) == Some((x, pos + 4)),
{
    let e = enc_u32(x);
    assert(dec_u32(e) == x) by {
        assert(((((x >> 24) as u8) as u32) << 24 | (((x >> 16) as u8) as u32) << 16 | (((x
            >> 8) as u8) as u32) << 8 | ((x as u8) as u32)) as u32 == x) by (bit_vector);
    }
}

/// Reading an encoded string yields its UTF-8 bytes.
proof fn lemma_parse_str_at(b: Seq<u8>, pos: int, s: Seq<char>)
    requires
        0 <= pos,
        str_fits(s),
        pos + enc_str(s).len() <= b.len(),
        b.subrange(pos, pos + enc_str(s).len()) == enc_str(s),
    ensures
        parse_str_raw(b, pos) == Some((encode_utf8(s), pos + enc_str(s).len())),
{
    lemma_encode_utf8_len(s);
    let raw = encode_utf8(s);
    let n: u32 = raw.len() as u32;
    lemma_split_at(b, pos, enc_u32(n), raw);
    lemma_parse_u32_at(b, pos, n);
}

pub open spec fn strings_fit(s: Seq<String>) -> bool {
    forall|i: int| 0 <= i < s.len() ==> str_fits((#[trigger] s[i])@)
}

/// Reading encoded components yields their UTF-8 byte strings.
proof fn lemma_parse_comps_at(b: Seq<u8>, pos: int, s: Seq<String>, j: int)
    requires
        0 <= pos,
        0 <= j <= s.len(),
        strings_fit(s),
        pos + enc_comps_from(s, j).len() <= b.len(),
        b.subrange(pos, pos + enc_comps_from(s, j).len()) == enc_comps_from(s, j),
    ensures
        parse_comps(b, pos, s.len() - j) == Some(
            (
                Seq::new((s.len() - j) as nat, |i: int| encode_utf8(s[j + i]@)),
                pos + enc_comps_from(s, j).len(),
            ),
        ),
    decreases s.len() - j,
{
    if j == s.len() {
        assert(parse_comps(b, pos, 0) == Some((Seq::<Seq<u8>>::empty(), pos)));
        assert(Seq::new(0, |i: int| encode_utf8(s[j + i]@)) =~= Seq::<Seq<u8>>::empty());
    } else {
        let head = enc_str(s[j]@);
        let tail = enc_comps_from(s, j + 1);
        lemma_split_at(b, pos, head, tail);
        lemma_parse_str_at(b, pos, s[j]@);
        lemma_parse_comps_at(b, pos + head.len(), s, j + 1);
        let rest = Seq::new((s.len() - j - 1) as nat, |i: int| encode_utf8(s[j + 1 + i]@));
        assert(seq![encode_utf8(s[j]@)] + rest =~= Seq::new(
            (s.len() - j) as nat,
            |i: int| encode_utf8(s[j + i]@),
        ));
    }
}

pub open spec fn attrs_fit(s: Seq<(String, (u32, u32, String))>) -> bool {
    forall|i: int|
        0 <= i < s.len() ==> str_fits((#[trigger] s[i]).0@) && str_fits(s[i].1.2@)
}

/// Reading encoded attributes yields their raw triples.
proof fn lemma_parse_attrs_at(b: Seq<u8>, pos: int, s: Seq<(String, (u32, u32, String))>, j: int)
    requires
        0 <= pos,
        0 <= j <= s.len(),
        attrs_fit(s),
        pos + enc_attrs_from(s, j).len() <= b.len(),
        b.subrange(pos, pos + enc_attrs_from(s, j).len()) == enc_attrs_from(s, j),
    ensures
        parse_attrs(b, pos, s.len() - j) == Some(
            (
                Seq::new(
                    (s.len() - j) as nat,
                    |i: int|
                        (
                            encode_utf8(s[j + i].0@),
                            s[j + i].1.0,
                            encode_utf8(s[j + i].1.2@),
                        ),
                ),
                pos + enc_attrs_from(s, j).len(),
            ),
        ),
    decreases s.len() - j,
{
    if j == s.len() {
        assert(Seq::new(
            0,
            |i: int| (encode_utf8(s[j + i].0@), s[j + i].1.0, encode_utf8(s[j + i].1.2@)),
        ) =~= Seq::<(Seq<u8>, u32, Seq<u8>)>::empty());
    } else {
        let e1 = enc_str(s[j].0@);
        let e2 = enc_u32(s[j].1.0);
        let e3 = enc_str(s[j].1.2@);
        let tail = enc_attrs_from(s, j + 1);
        assert(enc_attrs_from(s, j) =~= e1 + (e2 + (e3 + tail)));
        lemma_split_at(b, pos, e1, e2 + (e3 + tail));
        lemma_parse_str_at(b, pos, s[j].0@);
        let q1 = pos + e1.len();
        lemma_split_at(b, q1, e2, e3 + tail);
        lemma_parse_u32_at(b, q1, s[j].1.0);
        let q2 = q1 + 4;
        lemma_split_at(b, q2, e3, tail);
        lemma_parse_str_at(b, q2, s[j].1.2@);
        let q3 = q2 + e3.len();
        lemma_parse_attrs_at(b, q3, s, j + 1);
        let rest = Seq::new(
            (s.len() - j - 1) as nat,
            |i: int|
                (
                    encode_utf8(s[j + 1 + i].0@),
                    s[j + 1 + i].1.0,
                    encode_utf8(s[j + 1 + i].1.2@),
                ),
        );
        assert(seq![(encode_utf8(s[j].0@), s[j].1.0, encode_utf8(s[j].1.2@))] + rest =~= Seq::new(
            (s.len() - j) as nat,
            |i: int| (encode_utf8(s[j + i].0@), s[j + i].1.0, encode_utf8(s[j + i].1.2@)),
        ));
    }
}

/// Reading one encoded file record yields its raw record.
#[verifier::rlimit(100)]
#[verifier::spinoff_prover]
proof fn lemma_parse_file_at(b: Seq<u8>, pos: int, e: (FileID, FileMetadata))
    requires
        0 <= pos,
        meta_bounded(e.1),
        pos + enc_file(e).len() <= b.len(),
        b.subrange(pos, pos + enc_file(e).len()) == enc_file(e),
    ensures
        parse_file(b, pos) == Some((raw_file_of(e), pos + enc_file(e).len())),
{
    let m = e.1;
    let e1 = enc_u32(e.0.0);
    let e2 = enc_u32(e.0.1);
    let e3 = enc_u32(m.filename.0);
    let e4 = enc_u32(m.filename.1@.len() as u32);
    let e5 = enc_comps_from(m.filename.1@, 0);
    let e6 = enc_str(m.printed_filename@);
    let e7 = enc_u32(m.attributes@.len() as u32);
    let e8 = enc_attrs_from(m.attributes@, 0);
    assert(enc_file(e) =~= e1 + (e2 + (e3 + (e4 + (e5 + (e6 + (e7 + e8)))))));
    lemma_split_at(b, pos, e1, e2 + (e3 + (e4 + (e5 + (e6 + (e7 + e8))))));
    lemma_parse_u32_at(b, pos, e.0.0);
    let p1 = pos + 4;
    lemma_split_at(b, p1, e2, e3 + (e4 + (e5 + (e6 + (e7 + e8)))));
    lemma_parse_u32_at(b, p1, e.0.1);
    let p2 = p1 + 4;
    lemma_split_at(b, p2, e3, e4 + (e5 + (e6 + (e7 + e8))));
    lemma_parse_u32_at(b, p2, m.filename.0);
    let p3 = p2 + 4;
    lemma_split_at(b, p3, e4, e5 + (e6 + (e7 + e8)));
    lemma_parse_u32_at(b, p3, m.filename.1@.len() as u32);
    let p4 = p3 + 4;
    lemma_split_at(b, p4, e5, e6 + (e7 + e8));
    lemma_parse_comps_at(b, p4, m.filename.1@, 0);
    let p5 = p4 + e5.len();
    lemma_split_at(b, p5, e6, e7 + e8);
    lemma_parse_str_at(b, p5, m.printed_filename@);
    let p6 = p5 + e6.len();
    lemma_split_at(b, p6, e7, e8);
    lemma_parse_u32_at(b, p6, m.attributes@.len() as u32);
    let p7 = p6 + 4;
    lemma_parse_attrs_at(b, p7, m.attributes@, 0);
    assert(raw_file_of(e).comps =~= Seq::new(
        m.filename.1@.len(),
        |i: int| encode_utf8(m.filename.1@[0 + i]@),
    ));
    assert(raw_file_of(e).attrs =~= Seq::new(
        m.attributes@.len(),
        |i: int|
            (
                encode_utf8(m.attributes@[0 + i].0@),
                m.attributes@[0 + i].1.0,
                encode_utf8(m.attributes@[0 + i].1.2@),
            ),
    ));
}

/// Reading encoded file records yields their raw records.
#[verifier::rlimit(100)]
#[verifier::spinoff_prover]
proof fn lemma_parse_files_at(b: Seq<u8>, pos: int, s: Seq<(FileID, FileMetadata)>, j: int)
    requires
        0 <= pos,
        0 <= j <= s.len(),
        forall|i: int| 0 <= i < s.len() ==> meta_bounded((#[trigger] s[i]).1),
        pos + enc_files_from(s, j).len() <= b.len(),
        b.subrange(pos, pos + enc_files_from(s, j).len()) == enc_files_from(s, j),
    ensures
        parse_files(b, pos, s.len() - j) == Some(
            (
                Seq::new((s.len() - j) as nat, |i: int| raw_file_of(s[j + i])),
                pos + enc_files_from(s, j).len(),
            ),
        ),
    decreases s.len() - j,
{
    if j == s.len() {
        assert(Seq::new(0, |i: int| raw_file_of(s[j + i])) =~= Seq::<RawFile>::empty());
    } else {
        let head = enc_file(s[j]);
        let tail = enc_files_from(s, j + 1);
        lemma_split_at(b, pos, head, tail);
        lemma_parse_file_at(b, pos, s[j]);
        lemma_parse_files_at(b, pos + head.len(), s, j + 1);
        let rest = Seq::new((s.len() - j - 1) as nat, |i: int| raw_file_of(s[j + 1 + i]));
        assert(seq![raw_file_of(s[j])] + rest =~= Seq::new(
            (s.len() - j) as nat,
            |i: int| raw_file_of(s[j + i]),
        ));
    }
}

/// For any bounded replica, the snapshot parser reads the encoder's output
/// back exactly: the header fields and, file by file, the UTF-8 bytes of
/// every string.
#[verifier::rlimit(100)]
#[verifier::spinoff_prover]
pub proof fn lemma_parse_snapshot_enc<FU: FileUpdater>(fs: FileSet<FU>)
    requires
        snapshot_bounded(fs),
    ensures
        parse_snapshot(snapshot_bytes(fs)) == Some(
            (fs.last_timestamp, fs.last_id, fs.site_id, raw_files_of(fs.files@)),
        ),
{
    let b = snapshot_bytes(fs);
    let e1 = enc_u32(fs.last_timestamp);
    let e2 = enc_u32(fs.last_id);
    let e3 = enc_u32(fs.site_id);
    let e4 = enc_u32(fs.files@.len() as u32);
    let e5 = enc_files_from(fs.files@, 0);
    assert(b =~= e1 + (e2 + (e3 + (e4 + e5))));
    assert(b.subrange(0, b.len() as int) =~= b);
    lemma_split_at(b, 0, e1, e2 + (e3 + (e4 + e5)));
    lemma_parse_u32_at(b, 0, fs.last_timestamp);
    lemma_split_at(b, 4, e2, e3 + (e4 + e5));
    lemma_parse_u32_at(b, 4, fs.last_id);
    lemma_split_at(b, 8, e3, e4 + e5);
    lemma_parse_u32_at(b, 8, fs.site_id);
    lemma_split_at(b, 12, e4, e5);
    lemma_parse_u32_at(b, 12, fs.files@.len() as u32);
    lemma_parse_files_at(b, 16, fs.files@, 0);
    assert(raw_files_of(fs.files@) =~= Seq::new(
        fs.files@.len(),
        |i: int| raw_file_of(fs.files@[0 + i]),
    ));
}

/// Two replicas agree on everything observable: counters, per-file metadata
/// views, and every trie lookup.
pub open spec fn view_equiv<FU: FileUpdater>(a: FileSet<FU>, b: FileSet<FU>) -> bool {
    &&& a.last_timestamp == b.last_timestamp
    &&& a.last_id == b.last_id
    &&& a.site_id == b.site_id
    &&& a.files@.len() == b.files@.len()
    &&& forall|i: int|
        0 <= i < a.files@.len() ==> {
            &&& (#[trigger] a.files@[i]).0 == (#[trigger] b.files@[i]).0
            &&& a.files@[i].1.filename.0 == b.files@[i].1.filename.0
            &&& a.files@[i].1.filename.1.deep_view() == b.files@[i].1.filename.1.deep_view()
            &&& a.files@[i].1.printed_filename@ == b.files@[i].1.printed_filename@
            &&& a.files@[i].1.attr_stamps() == b.files@[i].1.attr_stamps()
        }
    &&& forall|q: Seq<Seq<char>>| #[trigger] a.path_id(q) == b.path_id(q)
}

/// The invariant pins the trie: two well-formed replicas whose files agree
/// index by index on identifier and on-disk path answer every lookup alike.
proof fn lemma_wf_trie_determined<FU: FileUpdater>(a: FileSet<FU>, b: FileSet<FU>)
    requires
        a.wf(),
        b.wf(),
        a.files@.len() == b.files@.len(),
        forall|i: int|
            0 <= i < a.files@.len() ==> (#[trigger] a.files@[i]).0 == (#[trigger] b.files@[i]).0
                && a.files@[i].1.local_path() == b.files@[i].1.local_path(),
    ensures
        forall|q: Seq<Seq<char>>| #[trigger] a.path_id(q) == b.path_id(q),
{
    assert forall|q: Seq<Seq<char>>| #[trigger] a.path_id(q) == b.path_id(q) by {
        if a.path_id(q) is Some {
            let i = choose|i: int|
                0 <= i < a.files@.len() && Some((#[trigger] a.files@[i]).0) == a.id_lookup.spec_get(
                    q,
                ) && a.files@[i].1.local_path() == q;
            assert(b.id_lookup.spec_get(b.files@[i].1.local_path()) == Some(b.files@[i].0));
            assert(b.path_id(q) == a.path_id(q));
        }
        if b.path_id(q) is Some {
            let i = choose|i: int|
                0 <= i < b.files@.len() && Some((#[trigger] b.files@[i]).0) == b.id_lookup.spec_get(
                    q,
                ) && b.files@[i].1.local_path() == q;
            assert(a.id_lookup.spec_get(a.files@[i].1.local_path()) == Some(a.files@[i].0));
            assert(a.path_id(q) == b.path_id(q));
        }
    }
}

/// Rebuilds a replica from decoded entries: each file is re-added to a fresh
/// trie under its parent components and printed name, with its own site as
/// the rename authority, so the trie and file map leave in lockstep. When the
/// entries' on-disk paths are distinct — as in every snapshot this codec
/// writes — no collision rename fires and every printed name is kept.
fn rebuild<FU: FileUpdater>(
    entries: Vec<(FileID, FileMetadata)>,
    ts: u32,
    lid: u32,
    site: u32,
    updater: FU,
) -> (r: FileSet<FU>)
    requires
        keys_unique(entries@),
        forall|i: int| 0 <= i < entries@.len() ==> (#[trigger] entries@[i]).1.wf(),
        forall|i: int|
            0 <= i < entries@.len() && (#[trigger] entries@[i]).0.0 == site ==> entries@[i].0.1
                < lid,
    ensures
        r.wf(),
        r.last_timestamp == ts,
        r.last_id == lid,
        r.site_id == site,
        r.updater == updater,
        r.files@.len() == entries@.len(),
        forall|i: int|
            0 <= i < entries@.len() ==> {
                &&& (#[trigger] r.files@[i]).0 == (#[trigger] entries@[i]).0
                &&& r.files@[i].1.filename == entries@[i].1.filename
                &&& r.files@[i].1.filename_author == entries@[i].1.filename_author
                &&& r.files@[i].1.attributes == entries@[i].1.attributes
            },
        (forall|i: int, j: int|
            0 <= i < j < entries@.len() ==> (#[trigger] entries@[i]).1.local_path() != (
            #[trigger] entries@[j]).1.local_path()) ==> forall|i: int|
            0 <= i < entries@.len() ==> (#[trigger] r.files@[i]).1.printed_filename@
                == entries@[i].1.printed_filename@,
{
    let ghost gf = entries@;
    let ghost distinct = forall|i: int, j: int|
        0 <= i < j < gf.len() ==> (#[trigger] gf[i]).1.local_path() != (
        #[trigger] gf[j]).1.local_path();
    let mut entries = entries;
    let mut fs = FileSet {
        files: Vec::new(),
        id_lookup: IDLookup::new(),
        updater,
        last_timestamp: ts,
        last_id: lid,
        site_id: site,
        tie_break_local: false,
    };
    proof {
        assert forall|q: Seq<Seq<char>>| fs.path_id(q) is None by {}
    }
    while entries.len() > 0
        invariant
            keys_unique(gf),
            forall|i: int| 0 <= i < gf.len() ==> (#[trigger] gf[i]).1.wf(),
            forall|i: int|
                0 <= i < gf.len() && (#[trigger] gf[i]).0.0 == site ==> gf[i].0.1 < lid,
            distinct == (forall|i: int, j: int|
                0 <= i < j < gf.len() ==> (#[trigger] gf[i]).1.local_path() != (
                #[trigger] gf[j]).1.local_path()),
            fs.files@.len() + entries@.len() == gf.len(),
            entries@ == gf.skip(fs.files@.len() as int),
            fs.wf(),
            fs.last_timestamp == ts,
            fs.last_id == lid,
            fs.site_id == site,
            fs.updater == updater,
            forall|i: int|
                0 <= i < fs.files@.len() ==> {
                    &&& (#[trigger] fs.files@[i]).0 == (#[trigger] gf[i]).0
                    &&& fs.files@[i].1.filename == gf[i].1.filename
                    &&& fs.files@[i].1.filename_author == gf[i].1.filename_author
                    &&& fs.files@[i].1.attributes == gf[i].1.attributes
                },
            distinct ==> forall|i: int|
                0 <= i < fs.files@.len() ==> (#[trigger] fs.files@[i]).1.printed_filename@ == (
                #[trigger] gf[i]).1.printed_filename@,
        decreases entries@.len(),
    {
        let ghost done = fs.files@.len() as int;
        let entry = entries.remove(0);
        proof {
            assert(entry == gf[done]);
            assert(entries@ =~= gf.skip(done + 1));
            assert(gf[done].1.wf());
        }
        let local = entry.1.get_local_filename();
        let ghost pref = fs;
        let printed2 = fs.id_lookup.add_file(&local, entry.0, entry.0.0);
        let m2 = FileMetadata {
            filename: entry.1.filename,
            filename_author: entry.1.filename_author,
            printed_filename: printed2,
            attributes: entry.1.attributes,
        };
        let ghost m2g = m2;
        fs.files.push((entry.0, m2));
        proof {
            let base = local.deep_view().last();
            let parent = local.deep_view().drop_last();
            let target = parent.push(printed2@);
            assert(local.deep_view() == gf[done].1.local_path());
            assert(parent =~= gf[done].1.path().drop_last());
            assert(base == gf[done].1.printed_filename@);
            assert(m2g.local_path() == target);
            assert(m2g.wf());
            assert(!has_key(pref.files@, entry.0)) by {
                if has_key(pref.files@, entry.0) {
                    let x = choose|x: int|
                        0 <= x < pref.files@.len() && (#[trigger] pref.files@[x]).0 == entry.0;
                    assert(pref.files@[x].0 == gf[x].0);
                    assert(gf[x].0 != gf[done].0);
                }
            }
            lemma_wf_insert(pref, fs, entry.0, m2g);
            if distinct {
                assert(pref.id_lookup.spec_get(gf[done].1.local_path()) is None) by {
                    if pref.id_lookup.spec_get(gf[done].1.local_path()) is Some {
                        let x = choose|x: int|
                            0 <= x < pref.files@.len() && Some((#[trigger] pref.files@[x]).0)
                                == pref.id_lookup.spec_get(gf[done].1.local_path())
                                && pref.files@[x].1.local_path() == gf[done].1.local_path();
                        assert(pref.files@[x].1.printed_filename@ == gf[x].1.printed_filename@);
                        assert(pref.files@[x].1.filename == gf[x].1.filename);
                        assert(gf[x].1.local_path() == pref.files@[x].1.local_path());
                        assert(gf[x].1.local_path() != gf[done].1.local_path());
                    }
                }
                assert(parent.push(base) =~= gf[done].1.local_path());
                crate::lookup::lemma_chosen_base(
                    pref.id_lookup.head,
                    parent,
                    base,
                    entry.0.0,
                    printed2@,
                );
                assert(printed2@ == gf[done].1.printed_filename@);
            }
        }
    }
    proof {
        assert(fs.files@.len() == gf.len());
    }
    fs
}

/// A structurally unreadable byte string encodes no bounded replica and is
/// not accepted.
proof fn lemma_structural_refuse<FU: FileUpdater>(b: Seq<u8>)
    requires
        parse_snapshot(b) is None,
    ensures
        !snapshot_accepted(b),
        forall|other: FileSet<FU>|
            !(other.wf() && snapshot_bounded(other) && b == #[trigger] snapshot_bytes(other)),
{
    assert forall|other: FileSet<FU>|
        !(other.wf() && snapshot_bounded(other) && b == #[trigger] snapshot_bytes(other)) by {
        if other.wf() && snapshot_bounded(other) && b == snapshot_bytes(other) {
            lemma_parse_snapshot_enc(other);
        }
    }
}

/// Attribute lists that agree on keys, timestamps and values — the author
/// column aside — yield the same stamped attribute map.
proof fn lemma_attr_stamps_congruent(
    s1: Seq<(String, (u32, u32, String))>,
    s2: Seq<(String, (u32, u32, String))>,
)
    requires
        s1.len() == s2.len(),
        forall|i: int|
            0 <= i < s1.len() ==> ((#[trigger] s1[i]).0@ == (#[trigger] s2[i]).0@ && s1[i].1.0
                == s2[i].1.0 && s1[i].1.2@ == s2[i].1.2@),
    ensures
        crate::attr_stamps_of(s1) == crate::attr_stamps_of(s2),
    decreases s1.len(),
{
    if s1.len() > 0 {
        assert forall|i: int|
            0 <= i < s1.drop_last().len() implies ((#[trigger] s1.drop_last()[i]).0@ == (
        #[trigger] s2.drop_last()[i]).0@ && s1.drop_last()[i].1.0 == s2.drop_last()[i].1.0
            && s1.drop_last()[i].1.2@ == s2.drop_last()[i].1.2@) by {
            assert(s1.drop_last()[i] == s1[i]);
            assert(s2.drop_last()[i] == s2[i]);
        }
        lemma_attr_stamps_congruent(s1.drop_last(), s2.drop_last());
        assert(s1.last() == s1[s1.len() - 1]);
        assert(s2.last() == s2[s1.len() - 1]);
    }
}

/// A decoded file's on-disk path is its raw record's decoded path.
proof fn lemma_raw_local(m: FileMetadata, rf: RawFile)
    requires
        m.filename.1@.len() == rf.comps.len(),
        rf.comps.len() > 0,
        forall|i: int|
            0 <= i < rf.comps.len() ==> ((#[trigger] m.filename.1@[i])@ == lossy_chars(
                rf.comps[i],
            )),
        m.printed_filename@ == lossy_chars(rf.printed),
    ensures
        m.local_path() == raw_local_path(rf),
{
    assert(m.path() =~= Seq::new(rf.comps.len() as nat, |i: int| lossy_chars(rf.comps[i])));
    assert(m.local_path() =~= raw_local_path(rf));
}

/// Every check the decoder makes passes on the encoder's own output.
proof fn lemma_encoded_checks_pass<FU: FileUpdater>(
    other: FileSet<FU>,
    b: Seq<u8>,
    files: Seq<(FileID, FileMetadata)>,
    raws: Seq<RawFile>,
)
    requires
        other.wf(),
        snapshot_bounded(other),
        b == snapshot_bytes(other),
        raws == raw_files_of(other.files@),
        files.len() == raws.len(),
        forall|y: int|
            0 <= y < files.len() ==> file_matches((#[trigger] files[y]).0, files[y].1, raws[y]),
    ensures
        snapshot_accepted(b),
{
    lemma_parse_snapshot_enc(other);
    broadcast use encode_utf8_valid_utf8;
    broadcast use encode_utf8_decode_utf8;

    assert forall|i: int|
        0 <= i < raws.len() implies (#[trigger] raws[i]).comps.len() > 0 && (raws[i].site
        == other.site_id ==> raws[i].id < other.last_id) by {
        let e = other.files@[i];
        assert(raws[i] == raw_file_of(e));
        assert(e.1.wf());
        assert(e.0.0 == other.site_id ==> e.0.1 < other.last_id);
    }
    assert forall|i: int, a: int, c: int|
        #![trigger raws[i].attrs[a], raws[i].attrs[c]]
        0 <= i < raws.len() && 0 <= a < c < raws[i].attrs.len() implies lossy_chars(
        raws[i].attrs[a].0,
    ) != lossy_chars(raws[i].attrs[c].0) by {
        let e = other.files@[i];
        assert(raws[i] == raw_file_of(e));
        assert(e.1.wf());
        assert(raws[i].attrs[a].0 == encode_utf8(e.1.attributes@[a].0@));
        assert(raws[i].attrs[c].0 == encode_utf8(e.1.attributes@[c].0@));
        assert(files[i].1.attributes@[a].0@ == lossy_chars(raws[i].attrs[a].0));
        assert(files[i].1.attributes@[a].0@ == decode_utf8(raws[i].attrs[a].0));
        assert(files[i].1.attributes@[c].0@ == lossy_chars(raws[i].attrs[c].0));
        assert(files[i].1.attributes@[c].0@ == decode_utf8(raws[i].attrs[c].0));
        assert(e.1.attributes@[a].0@ != e.1.attributes@[c].0@);
    }
    assert forall|i: int, j: int|
        0 <= i < j < raws.len() implies ((#[trigger] raws[i]).site, raws[i].id) != ((
    #[trigger] raws[j]).site, raws[j].id) by {
        assert(raws[i] == raw_file_of(other.files@[i]));
        assert(raws[j] == raw_file_of(other.files@[j]));
        assert(other.files@[i].0 != other.files@[j].0);
    }
}

/// The decoded replica of an encoded one agrees with it on every view.
proof fn lemma_view_equiv_from_decode<FU: FileUpdater>(
    fs: FileSet<FU>,
    other: FileSet<FU>,
    gfiles: Seq<(FileID, FileMetadata)>,
    raws: Seq<RawFile>,
)
    requires
        other.wf(),
        snapshot_bounded(other),
        raws == raw_files_of(other.files@),
        gfiles.len() == raws.len(),
        forall|y: int|
            0 <= y < gfiles.len() ==> file_matches((#[trigger] gfiles[y]).0, gfiles[y].1, raws[y])
                && gfiles[y].1.printed_filename@ == lossy_chars(raws[y].printed) && (valid_utf8(
                raws[y].printed,
            ) ==> gfiles[y].1.printed_filename@ == decode_utf8(raws[y].printed)),
        fs.wf(),
        fs.last_timestamp == other.last_timestamp,
        fs.last_id == other.last_id,
        fs.site_id == other.site_id,
        fs.files@.len() == gfiles.len(),
        forall|i: int|
            0 <= i < gfiles.len() ==> {
                &&& (#[trigger] fs.files@[i]).0 == (#[trigger] gfiles[i]).0
                &&& fs.files@[i].1.filename == gfiles[i].1.filename
                &&& fs.files@[i].1.attributes == gfiles[i].1.attributes
            },
        (forall|i: int, j: int|
            0 <= i < j < gfiles.len() ==> (#[trigger] gfiles[i]).1.local_path() != (
            #[trigger] gfiles[j]).1.local_path()) ==> forall|i: int|
            0 <= i < gfiles.len() ==> (#[trigger] fs.files@[i]).1.printed_filename@
                == gfiles[i].1.printed_filename@,
    ensures
        view_equiv(fs, other),
{
    broadcast use encode_utf8_valid_utf8;
    broadcast use encode_utf8_decode_utf8;

    assert forall|y: int|
        0 <= y < gfiles.len() implies {
        let e = #[trigger] other.files@[y];
        &&& (#[trigger] gfiles[y]).0 == e.0
        &&& gfiles[y].1.filename.0 == e.1.filename.0
        &&& gfiles[y].1.filename.1.deep_view() == e.1.filename.1.deep_view()
        &&& gfiles[y].1.printed_filename@ == e.1.printed_filename@
        &&& gfiles[y].1.local_path() == e.1.local_path()
        &&& gfiles[y].1.attr_stamps() == e.1.attr_stamps()
    } by {
        assert(raws[y] == raw_file_of(e_at(other, y)));
        let e = other.files@[y];
        assert forall|x: int|
            0 <= x < e.1.filename.1@.len() implies (#[trigger] gfiles[y].1.filename.1@[x])@
            == e.1.filename.1@[x]@ by {
            assert(raws[y].comps[x] == encode_utf8(e.1.filename.1@[x]@));
            assert(gfiles[y].1.filename.1@[x]@ == decode_utf8(raws[y].comps[x]));
        }
        assert(gfiles[y].1.filename.1.deep_view() =~= e.1.filename.1.deep_view());
        assert(raws[y].printed == encode_utf8(e.1.printed_filename@));
        assert(gfiles[y].1.printed_filename@ == e.1.printed_filename@);
        assert(gfiles[y].1.local_path() =~= e.1.local_path());
        assert forall|x: int|
            0 <= x < e.1.attributes@.len() implies ((#[trigger] gfiles[y].1.attributes@[x]).0@ == (
        #[trigger] e.1.attributes@[x]).0@ && gfiles[y].1.attributes@[x].1.0
            == e.1.attributes@[x].1.0 && gfiles[y].1.attributes@[x].1.2@
            == e.1.attributes@[x].1.2@) by {
            assert(raws[y].attrs[x] == (
                encode_utf8(e.1.attributes@[x].0@),
                e.1.attributes@[x].1.0,
                encode_utf8(e.1.attributes@[x].1.2@),
            ));
            assert(gfiles[y].1.attributes@[x].0@ == decode_utf8(raws[y].attrs[x].0));
            assert(gfiles[y].1.attributes@[x].1.2@ == decode_utf8(raws[y].attrs[x].2));
        }
        lemma_attr_stamps_congruent(gfiles[y].1.attributes@, e.1.attributes@);
    }
    // the encoder's paths are distinct, so no rename fired during rebuild
    assert forall|i: int, j: int|
        0 <= i < j < gfiles.len() implies (#[trigger] gfiles[i]).1.local_path() != (
    #[trigger] gfiles[j]).1.local_path() by {
        if gfiles[i].1.local_path() == gfiles[j].1.local_path() {
            assert(other.files@[i].1.local_path() == other.files@[j].1.local_path());
            assert(other.id_lookup.spec_get(other.files@[i].1.local_path()) == Some(
                other.files@[i].0,
            ));
            assert(other.id_lookup.spec_get(other.files@[j].1.local_path()) == Some(
                other.files@[j].0,
            ));
            assert(other.files@[i].0 != other.files@[j].0);
        }
    }
    assert forall|i: int|
        0 <= i < fs.files@.len() implies (#[trigger] fs.files@[i]).0 == (
    #[trigger] other.files@[i]).0 && fs.files@[i].1.local_path()
        == other.files@[i].1.local_path() by {
        assert(fs.files@[i].1.printed_filename@ == gfiles[i].1.printed_filename@);
        assert(fs.files@[i].1.local_path() =~= gfiles[i].1.local_path());
    }
    lemma_wf_trie_determined(fs, other);
    assert forall|i: int|
        0 <= i < fs.files@.len() implies {
        &&& (#[trigger] fs.files@[i]).0 == (#[trigger] other.files@[i]).0
        &&& fs.files@[i].1.filename.0 == other.files@[i].1.filename.0
        &&& fs.files@[i].1.filename.1.deep_view() == other.files@[i].1.filename.1.deep_view()
        &&& fs.files@[i].1.printed_filename@ == other.files@[i].1.printed_filename@
        &&& fs.files@[i].1.attr_stamps() == other.files@[i].1.attr_stamps()
    } by {
        assert(fs.files@[i].1.printed_filename@ == gfiles[i].1.printed_filename@);
        assert(fs.files@[i].1.attributes == gfiles[i].1.attributes);
        lemma_attr_stamps_congruent(fs.files@[i].1.attributes@, gfiles[i].1.attributes@);
    }
}

/// Naming helper: the entry of `other` at `y`.
spec fn e_at<FU: FileUpdater>(other: FileSet<FU>, y: int) -> (FileID, FileMetadata) {
    other.files@[y]
}

impl<FU: FileUpdater> FileSet<FU> {
    /// Decodes a snapshot into a fresh replica around `updater`.
    ///
    /// A snapshot is refused (`IOError`) when it is truncated, or when it
    /// would break the replica invariant: a file with no path components, a
    /// duplicate identifier, an identifier this site never issued, or
    /// duplicate attribute keys. Records are accepted in any order; the trie
    /// is rebuilt from each file's on-disk path with the file's own site as
    /// rename authority, and since the format carries no stamp authors, each
    /// loaded stamp's author defaults to the file's own site. Decoding the
    /// encoder's own output restores the replica exactly, to the view: that
    /// is the round-trip clause quantifying over every bounded well-formed
    /// replica.
    #[verifier::rlimit(100)]
    #[verifier::spinoff_prover]
    pub fn expand_from(bytes: &Vec<u8>, updater: FU) -> (r: Result<FileSet<FU>, FileSetError>)
        ensures
            r is Ok <==> snapshot_accepted(bytes@),
            r matches Err(e) ==> e matches FileSetError::IOError,
            (r matches Ok(fs) ==> fs.wf() && fs.updater == updater && (parse_snapshot(bytes@)
                matches Some(h) && {
                &&& fs.last_timestamp == h.0
                &&& fs.last_id == h.1
                &&& fs.site_id == h.2
                &&& fs.files@.len() == h.3.len()
                &&& forall|i: int|
                    0 <= i < h.3.len() ==> file_matches(
                        (#[trigger] fs.files@[i]).0,
                        fs.files@[i].1,
                        h.3[i],
                    )
                &&& ((forall|i: int, j: int|
                    0 <= i < j < h.3.len() ==> raw_local_path(#[trigger] h.3[i])
                        != raw_local_path(#[trigger] h.3[j])) ==> forall|i: int|
                    0 <= i < h.3.len() ==> (#[trigger] fs.files@[i]).1.printed_filename@
                        == lossy_chars(h.3[i].printed))
            })),
            forall|other: FileSet<FU>|
                (other.wf() && snapshot_bounded(other) && bytes@ == #[trigger] snapshot_bytes(
                    other,
                )) ==> (r matches Ok(fs) && view_equiv(fs, other)),
    {
        let (ts, p1) = match read_u32(bytes, 0) {
            Some(v) => v,
            None => {
                proof {
                    lemma_structural_refuse::<FU>(bytes@);
                }
                return Err(FileSetError::IOError);
            },
        };
        let (lid, p2) = match read_u32(bytes, p1) {
            Some(v) => v,
            None => {
                proof {
                    lemma_structural_refuse::<FU>(bytes@);
                }
                return Err(FileSetError::IOError);
            },
        };
        let (site, p3) = match read_u32(bytes, p2) {
            Some(v) => v,
            None => {
                proof {
                    lemma_structural_refuse::<FU>(bytes@);
                }
                return Err(FileSetError::IOError);
            },
        };
        let (count, p4) = match read_u32(bytes, p3) {
            Some(v) => v,
            None => {
                proof {
                    lemma_structural_refuse::<FU>(bytes@);
                }
                return Err(FileSetError::IOError);
            },
        };
        let mut files: Vec<(FileID, FileMetadata)> = Vec::new();
        let ghost mut raws: Seq<RawFile> = Seq::empty();
        let mut cur: usize = p4;
        let mut i: u32 = 0;
        while i < count
            invariant
                parse_u32(bytes@, 0) == Some((ts, p1 as int)),
                parse_u32(bytes@, p1 as int) == Some((lid, p2 as int)),
                parse_u32(bytes@, p2 as int) == Some((site, p3 as int)),
                parse_u32(bytes@, p3 as int) == Some((count, p4 as int)),
                i <= count,
                files@.len() == i,
                raws.len() == i,
                forall|x: int|
                    0 <= x < i as int ==> file_matches(
                        (#[trigger] files@[x]).0,
                        files@[x].1,
                        raws[x],
                    ) && files@[x].1.printed_filename@ == lossy_chars(raws[x].printed) && (
                    valid_utf8(raws[x].printed) ==> files@[x].1.printed_filename@ == decode_utf8(
                        raws[x].printed,
                    )),
                parse_files(bytes@, p4 as int, count as int) == (match parse_files(
                    bytes@,
                    cur as int,
                    count - i,
                ) {
                    Some((rest, p)) => Some((raws + rest, p)),
                    None => None::<(Seq<RawFile>, int)>,
                }),
            decreases count - i,
        {
            match read_file(bytes, cur) {
                Some((id, m, p)) => {
                    proof {
                        let rf = (parse_file(bytes@, cur as int)->0).0;
                        assert forall|rest: Seq<RawFile>| true implies raws + (seq![rf] + rest)
                            =~= raws.push(rf) + rest by {}
                        raws = raws.push(rf);
                    }
                    files.push((id, m));
                    cur = p;
                    i += 1;
                },
                None => {
                    proof {
                        lemma_structural_refuse::<FU>(bytes@);
                    }
                    return Err(FileSetError::IOError);
                },
            }
        }
        proof {
            assert(parse_files(bytes@, p4 as int, count as int) == Some((raws, cur as int))) by {
                assert(raws + Seq::<RawFile>::empty() =~= raws);
            }
            assert(parse_snapshot(bytes@) == Some((ts, lid, site, raws)));
            // any replica this byte string encodes would pass every check
            assert forall|other: FileSet<FU>|
                (other.wf() && snapshot_bounded(other) && bytes@ == #[trigger] snapshot_bytes(
                    other,
                )) implies snapshot_accepted(bytes@) && raws == raw_files_of(other.files@) && ts
                == other.last_timestamp && lid == other.last_id && site == other.site_id by {
                lemma_parse_snapshot_enc(other);
                lemma_encoded_checks_pass(other, bytes@, files@, raws);
            }
        }
        // refuse a snapshot that would break the replica invariant
        let mut x: usize = 0;
        while x < files.len()
            invariant
                parse_snapshot(bytes@) == Some((ts, lid, site, raws)),
                files@.len() == raws.len(),
                x <= files@.len(),
                forall|y: int|
                    0 <= y < files@.len() ==> file_matches(
                        (#[trigger] files@[y]).0,
                        files@[y].1,
                        raws[y],
                    ),
                forall|o: FileSet<FU>|
                    (o.wf() && snapshot_bounded(o) && bytes@ == #[trigger] snapshot_bytes(o))
                        ==> snapshot_accepted(bytes@),
                forall|y: int| 0 <= y < x as int ==> (#[trigger] raws[y]).comps.len() > 0,
                forall|y: int|
                    0 <= y < x as int ==> ((#[trigger] raws[y]).site == site ==> raws[y].id < lid),
                forall|y: int, a: int, c: int|
                    #![trigger raws[y].attrs[a], raws[y].attrs[c]]
                    0 <= y < x as int && 0 <= a < c < raws[y].attrs.len() ==> lossy_chars(
                        raws[y].attrs[a].0,
                    ) != lossy_chars(raws[y].attrs[c].0),
                forall|y2: int, y: int|
                    0 <= y2 < y < x as int ==> (#[trigger] files@[y2]).0 != (
                    #[trigger] files@[y]).0,
            decreases files@.len() - x,
        {
            if files[x].1.filename.1.len() == 0 {
                proof {
                    assert(file_matches(files@[x as int].0, files@[x as int].1, raws[x as int]));
                    assert(!snapshot_accepted(bytes@)) by {
                        assert(raws[x as int].comps.len() == 0);
                    }
                }
                return Err(FileSetError::IOError);
            }
            if files[x].0.0 == site && files[x].0.1 >= lid {
                proof {
                    assert(file_matches(files@[x as int].0, files@[x as int].1, raws[x as int]));
                    assert(!snapshot_accepted(bytes@)) by {
                        assert(raws[x as int].site == site && raws[x as int].id >= lid);
                    }
                }
                return Err(FileSetError::IOError);
            }
            let mut a: usize = 1;
            while a < files[x].1.attributes.len()
                invariant
                    parse_snapshot(bytes@) == Some((ts, lid, site, raws)),
                    files@.len() == raws.len(),
                    x < files@.len(),
                    forall|y: int|
                        0 <= y < files@.len() ==> file_matches(
                            (#[trigger] files@[y]).0,
                            files@[y].1,
                            raws[y],
                        ),
                    forall|o: FileSet<FU>|
                        (o.wf() && snapshot_bounded(o) && bytes@ == #[trigger] snapshot_bytes(o))
                            ==> snapshot_accepted(bytes@),
                    a >= 1,
                    forall|a2: int, c2: int|
                        0 <= c2 < a2 < a as int && a2 < files@[x as int].1.attributes@.len()
                            ==> (#[trigger] files@[x as int].1.attributes@[a2]).0@ != (
                        #[trigger] files@[x as int].1.attributes@[c2]).0@,
                decreases files@[x as int].1.attributes@.len() - a,
            {
                let mut c: usize = 0;
                while c < a
                    invariant
                        parse_snapshot(bytes@) == Some((ts, lid, site, raws)),
                        files@.len() == raws.len(),
                        x < files@.len(),
                        forall|y: int|
                            0 <= y < files@.len() ==> file_matches(
                                (#[trigger] files@[y]).0,
                                files@[y].1,
                                raws[y],
                            ),
                        forall|o: FileSet<FU>|
                        (o.wf() && snapshot_bounded(o) && bytes@ == #[trigger] snapshot_bytes(o))
                            ==> snapshot_accepted(bytes@),
                        a < files@[x as int].1.attributes@.len(),
                        c <= a,
                        forall|c2: int|
                            0 <= c2 < c as int ==> (#[trigger] files@[x as int].1.attributes@[c2]).0@
                                != files@[x as int].1.attributes@[a as int].0@,
                    decreases a - c,
                {
                    if files[x].1.attributes[c].0 == files[x].1.attributes[a].0 {
                        proof {
                            assert(file_matches(
                                files@[x as int].0,
                                files@[x as int].1,
                                raws[x as int],
                            ));
                            assert(!snapshot_accepted(bytes@)) by {
                                assert(files@[x as int].1.attributes@[c as int].0@ == lossy_chars(
                                    raws[x as int].attrs[c as int].0,
                                ));
                                assert(files@[x as int].1.attributes@[a as int].0@ == lossy_chars(
                                    raws[x as int].attrs[a as int].0,
                                ));
                                assert(lossy_chars(raws[x as int].attrs[c as int].0)
                                    == lossy_chars(raws[x as int].attrs[a as int].0));
                            }
                        }
                        return Err(FileSetError::IOError);
                    }
                    c += 1;
                }
                a += 1;
            }
            let mut y: usize = 0;
            while y < x
                invariant
                    parse_snapshot(bytes@) == Some((ts, lid, site, raws)),
                    files@.len() == raws.len(),
                    x < files@.len(),
                    forall|yy: int|
                        0 <= yy < files@.len() ==> file_matches(
                            (#[trigger] files@[yy]).0,
                            files@[yy].1,
                            raws[yy],
                        ),
                    forall|o: FileSet<FU>|
                        (o.wf() && snapshot_bounded(o) && bytes@ == #[trigger] snapshot_bytes(o))
                            ==> snapshot_accepted(bytes@),
                    y <= x,
                    forall|y2: int|
                        0 <= y2 < y as int ==> (#[trigger] files@[y2]).0 != files@[x as int].0,
                decreases x - y,
            {
                if files[y].0.0 == files[x].0.0 && files[y].0.1 == files[x].0.1 {
                    proof {
                        assert(file_matches(files@[x as int].0, files@[x as int].1, raws[x as int]));
                        assert(file_matches(files@[y as int].0, files@[y as int].1, raws[y as int]));
                        assert(!snapshot_accepted(bytes@)) by {
                            assert(files@[y as int].0 == (
                                raws[y as int].site,
                                raws[y as int].id,
                            ));
                            assert(files@[x as int].0 == (
                                raws[x as int].site,
                                raws[x as int].id,
                            ));
                            assert((raws[y as int].site, raws[y as int].id) == (
                                raws[x as int].site,
                                raws[x as int].id,
                            ));
                        }
                    }
                    return Err(FileSetError::IOError);
                }
                y += 1;
            }
            proof {
                assert(file_matches(files@[x as int].0, files@[x as int].1, raws[x as int]));
                assert forall|a2: int, c2: int|
                    #![trigger raws[x as int].attrs[a2], raws[x as int].attrs[c2]]
                    0 <= a2 < c2 < raws[x as int].attrs.len() implies lossy_chars(
                    raws[x as int].attrs[a2].0,
                ) != lossy_chars(raws[x as int].attrs[c2].0) by {
                    assert(files@[x as int].1.attributes@[c2].0@ != files@[x as int].1.attributes@[a2].0@);
                    assert(files@[x as int].1.attributes@[a2].0@ == lossy_chars(
                        raws[x as int].attrs[a2].0,
                    ));
                    assert(files@[x as int].1.attributes@[c2].0@ == lossy_chars(
                        raws[x as int].attrs[c2].0,
                    ));
                }
            }
            x += 1;
        }
        proof {
            assert(snapshot_accepted(bytes@)) by {
                assert forall|ii: int, jj: int|
                    0 <= ii < jj < raws.len() implies ((#[trigger] raws[ii]).site, raws[ii].id)
                    != ((#[trigger] raws[jj]).site, raws[jj].id) by {
                    assert(files@[ii].0 != files@[jj].0);
                    assert(files@[ii].0 == (raws[ii].site, raws[ii].id));
                    assert(files@[jj].0 == (raws[jj].site, raws[jj].id));
                }
                assert forall|y: int, a: int, c: int|
                    #![trigger raws[y].attrs[a], raws[y].attrs[c]]
                    0 <= y < raws.len() && 0 <= a < c < raws[y].attrs.len()
                    implies lossy_chars(raws[y].attrs[a].0) != lossy_chars(
                    raws[y].attrs[c].0,
                ) by {}
            }
            assert(keys_unique(files@)) by {
                assert forall|ii: int, jj: int|
                    0 <= ii < jj < files@.len() implies (#[trigger] files@[ii]).0 != (
                    #[trigger] files@[jj]).0 by {}
            }
            assert forall|y: int| 0 <= y < files@.len() implies (#[trigger] files@[y]).1.wf() by {
                assert(raws[y].comps.len() > 0);
                assert(files@[y].1.filename.1@.len() > 0);
                assert forall|a2: int, c2: int|
                    0 <= a2 < c2 < files@[y].1.attributes@.len() implies (
                #[trigger] files@[y].1.attributes@[a2]).0@ != (
                #[trigger] files@[y].1.attributes@[c2]).0@ by {
                    assert(files@[y].1.attributes@[a2].0@ == lossy_chars(raws[y].attrs[a2].0));
                    assert(files@[y].1.attributes@[c2].0@ == lossy_chars(raws[y].attrs[c2].0));
                    assert(lossy_chars(raws[y].attrs[a2].0) != lossy_chars(raws[y].attrs[c2].0));
                }
            }
        }
        let ghost gfiles = files@;
        let fs = rebuild(files, ts, lid, site, updater);
        proof {
            assert forall|ii: int, jj: int|
                0 <= ii < jj < raws.len() && raw_local_path(#[trigger] raws[ii])
                    != raw_local_path(#[trigger] raws[jj]) implies (
            #[trigger] gfiles[ii]).1.local_path() != (#[trigger] gfiles[jj]).1.local_path() by {
                lemma_raw_local(gfiles[ii].1, raws[ii]);
                lemma_raw_local(gfiles[jj].1, raws[jj]);
            }
            assert forall|other: FileSet<FU>|
                (other.wf() && snapshot_bounded(other) && bytes@ == #[trigger] snapshot_bytes(
                    other,
                )) implies view_equiv(fs, other) by {
                lemma_parse_snapshot_enc(other);
                lemma_view_equiv_from_decode(fs, other, gfiles, raws);
            }
            assert forall|i: int|
                0 <= i < raws.len() implies file_matches(
                (#[trigger] fs.files@[i]).0,
                fs.files@[i].1,
                raws[i],
            ) by {
                assert(file_matches(gfiles[i].0, gfiles[i].1, raws[i]));
                assert(fs.files@[i].0 == gfiles[i].0);
                assert(fs.files@[i].1.filename == gfiles[i].1.filename);
                assert(fs.files@[i].1.filename_author == gfiles[i].1.filename_author);
                assert(fs.files@[i].1.attributes == gfiles[i].1.attributes);
            }
            if forall|i: int, j: int|
                0 <= i < j < raws.len() ==> raw_local_path(#[trigger] raws[i]) != raw_local_path(
                    #[trigger] raws[j],
                ) {
                assert forall|i: int, j: int|
                    0 <= i < j < gfiles.len() implies (#[trigger] gfiles[i]).1.local_path() != (
                #[trigger] gfiles[j]).1.local_path() by {
                    assert(raw_local_path(raws[i]) != raw_local_path(raws[j]));
                }
                assert forall|i: int|
                    0 <= i < raws.len() implies (#[trigger] fs.files@[i]).1.printed_filename@
                    == lossy_chars(raws[i].printed) by {
                    assert(fs.files@[i].1.printed_filename@ == gfiles[i].1.printed_filename@);
                }
            }
        }
        Ok(fs)
    }
}

} // verus!
