use vstd::prelude::*;
use crate::buf::{be_at, copy_range, read_u32_at};
use crate::error::CacheError;

verus! {

/// What a gzip decoder makes of a whole gzip stream; `None` when it is malformed.
pub uninterp spec fn gunzip_of(s: Seq<u8>) -> Option<Seq<u8>>;

/// What a zlib decoder makes of a whole zlib stream; `None` when it is malformed.
pub uninterp spec fn inflate_of(s: Seq<u8>) -> Option<Seq<u8>>;

/// What a bzip2 decoder makes of a whole bzip2 stream; `None` when it is malformed.
pub uninterp spec fn bunzip_of(s: Seq<u8>) -> Option<Seq<u8>>;

/// What an LZMA decoder makes of a raw LZMA stream (properties header without
/// a size field) whose unpacked size is `size`; `None` when it is malformed.
pub uninterp spec fn unlzma_of(s: Seq<u8>, size: nat) -> Option<Seq<u8>>;

/// Relies on flate2's `read::GzDecoder`, read to its end: the decoded gzip
/// member at the start of `data`, or a failure; the outcome depends on the
/// bytes alone.
#[verifier::external_body]
fn gunzip(data: &[u8]) -> (r: Option<Vec<u8>>)
    ensures
        match r {
            Some(v) => gunzip_of(data@) == Some(v@),
            None => gunzip_of(data@) is None,
        },
{
    let mut out = Vec::new();
    match std::io::Read::read_to_end(&mut flate2::read::GzDecoder::new(data), &mut out) {
        Ok(_) => Some(out),
        Err(_) => None,
    }
}

/// Relies on flate2's `read::ZlibDecoder`, read to its end: the decoded zlib
/// stream at the start of `data`, or a failure; the outcome depends on the
/// bytes alone.
#[verifier::external_body]
fn inflate(data: &[u8]) -> (r: Option<Vec<u8>>)
    ensures
        match r {
            Some(v) => inflate_of(data@) == Some(v@),
            None => inflate_of(data@) is None,
        },
{
    let mut out = Vec::new();
    match std::io::Read::read_to_end(&mut flate2::read::ZlibDecoder::new(data), &mut out) {
        Ok(_) => Some(out),
        Err(_) => None,
    }
}

/// Relies on bzip2's `read::BzDecoder`, read to its end: the decoded bzip2
/// stream at the start of `data`, or a failure; the outcome depends on the
/// bytes alone.
#[verifier::external_body]
fn bunzip(data: &[u8]) -> (r: Option<Vec<u8>>)
    ensures
        match r {
            Some(v) => bunzip_of(data@) == Some(v@),
            None => bunzip_of(data@) is None,
        },
{
    let mut out = Vec::new();
    match std::io::Read::read_to_end(&mut bzip2::read::BzDecoder::new(data), &mut out) {
        Ok(_) => Some(out),
        Err(_) => None,
    }
}

/// Relies on lzma-rs's `lzma_decompress_with_options`, with the unpacked size
/// provided and no size field in the header: the decoded LZMA stream in
/// `data`, or a failure; the outcome depends on the bytes and the size alone.
#[verifier::external_body]
fn unlzma(data: &[u8], size: u32) -> (r: Option<Vec<u8>>)
    ensures
        match r {
            Some(v) => unlzma_of(data@, size as nat) == Some(v@),
            None => unlzma_of(data@, size as nat) is None,
        },
{
    let mut input = data;
    let mut out = Vec::new();
    let options = lzma_rs::decompress::Options {
        unpacked_size: lzma_rs::decompress::UnpackedSize::UseProvided(Some(size as u64)),
        memlimit: None,
        allow_incomplete: false,
    };
    match lzma_rs::lzma_decompress_with_options(&mut input, &mut out, &options) {
        Ok(()) => Some(out),
        Err(_) => None,
    }
}

/// The magic that opens a zlib container: `"ZLB"` and a `0x01`.
pub open spec fn is_zlb(s: Seq<u8>) -> bool {
    s.len() >= 4 && s[0] == 0x5A && s[1] == 0x4C && s[2] == 0x42 && s[3] == 0x01
}

/// The bzip2 stream header that the cache leaves out: `"BZh1"`.
pub open spec fn bzip2_magic() -> Seq<u8> {
    seq![0x42u8, 0x5Au8, 0x68u8, 0x31u8]
}

/// A decoded payload, kept only when its length is the declared one.
pub open spec fn sized(out: Option<Seq<u8>>, size: nat) -> Option<Seq<u8>> {
    match out {
        Some(o) => if o.len() == size {
            Some(o)
        } else {
            None
        },
        None => None,
    }
}

/// What a stored container decodes to, `None` when it is malformed.
///
/// A `"ZLB\x01"` container is a `u32` unpacked size and a zlib stream. Any
/// other is a tag byte (0 none, 1 bzip2, 2 gzip, 3 LZMA), a `u32` payload
/// length, for the compressed tags a `u32` unpacked size, and the payload.
/// Bytes after the payload are ignored.
pub open spec fn decompress_spec(s: Seq<u8>) -> Option<Seq<u8>> {
    if is_zlb(s) {
        if s.len() < 8 {
            None
        } else {
            sized(inflate_of(s.subrange(8, s.len() as int)), be_at(s, 4, 4))
        }
    } else if s.len() < 5 {
        None
    } else {
        let tag = s[0];
        let len = be_at(s, 1, 4) as int;
        if tag == 0 {
            if 5 + len <= s.len() {
                Some(s.subrange(5, 5 + len))
            } else {
                None
            }
        } else if tag > 3 || s.len() < 9 + len {
            None
        } else {
            let size = be_at(s, 5, 4);
            let body = s.subrange(9, 9 + len);
            if tag == 1 {
                sized(bunzip_of(bzip2_magic() + body), size)
            } else if tag == 2 {
                sized(gunzip_of(body), size)
            } else {
                sized(unlzma_of(body, size), size)
            }
        }
    }
}

fn keep_sized(out: Option<Vec<u8>>, size: u32) -> (r: Result<Vec<u8>, CacheError>)
    ensures
        match sized(
            match out {
                Some(v) => Some(v@),
                None => None,
            },
            size as nat,
        ) {
            Some(o) => r is Ok && r->Ok_0@ == o,
            None => r is Err && r->Err_0 is Decompression,
        },
{
    match out {
        Some(v) => if v.len() == size as usize {
            Ok(v)
        } else {
            Err(CacheError::Decompression)
        },
        None => Err(CacheError::Decompression),
    }
}

/// Decodes a stored container into raw bytes.
pub fn decompress(data: &[u8]) -> (r: Result<Vec<u8>, CacheError>)
    ensures
        match decompress_spec(data@) {
            Some(o) => r is Ok && r->Ok_0@ == o,
            None => r is Err && r->Err_0 is Decompression,
        },
{
    let n = data.len();
    if n >= 4 && data[0] == 0x5A && data[1] == 0x4C && data[2] == 0x42 && data[3] == 0x01 {
        if n < 8 {
            return Err(CacheError::Decompression);
        }
        let size = read_u32_at(data, 4);
        let body = copy_range(data, 8, n);
        return keep_sized(inflate(body.as_slice()), size);
    }
    if n < 5 {
        return Err(CacheError::Decompression);
    }
    let tag = data[0];
    let len = read_u32_at(data, 1);
    if tag == 0 {
        if len as usize > n - 5 {
            return Err(CacheError::Decompression);
        }
        return Ok(copy_range(data, 5, 5 + len as usize));
    }
    if tag > 3 || n < 9 || len as usize > n - 9 {
        return Err(CacheError::Decompression);
    }
    let size = read_u32_at(data, 5);
    let body = copy_range(data, 9, 9 + len as usize);
    if tag == 1 {
        let mut full: Vec<u8> = vec![0x42u8, 0x5Au8, 0x68u8, 0x31u8];
        let mut rest = body;
        full.append(&mut rest);
        assert(full@ =~= bzip2_magic() + body@);
        keep_sized(bunzip(full.as_slice()), size)
    } else if tag == 2 {
        keep_sized(gunzip(body.as_slice()), size)
    } else {
        keep_sized(unlzma(body.as_slice(), size), size)
    }
}

} // verus!
