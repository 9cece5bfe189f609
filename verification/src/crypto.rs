//! Modular encryption: what a reader without keys can still see.
//!
//! Parquet encrypts a file in **modules**: the footer, and for each encrypted column every page
//! header and every page, separately. Each module is written the same way:
//!
//! ```text
//! [length: u32, little-endian]   the bytes that follow
//! [nonce: 12 bytes]              never reused under one key
//! [ciphertext]                   the module, encrypted with AES
//! [tag: 16 bytes]                AES-GCM's check that nothing was changed
//! ```
//!
//! This module describes the modules; it does not decrypt, which needs AES and the keys.

use vstd::prelude::*;

use crate::bytes::{bytes_error_text, le_u32_value, span_text, ByteReader, BytesError, Span};
use crate::text::{dec, push_u64};

verus! {

/// The magic an encrypted-footer file starts and ends with.
pub const MAGIC_ENCRYPTED: [u8; 4] = [0x50, 0x41, 0x52, 0x45];

pub const NONCE_LEN: u64 = 12;

pub const TAG_LEN: u64 = 16;

/// One encrypted module, split into its parts.
#[derive(Clone, Copy, Debug, PartialEq, Eq, Structural)]
pub struct Module {
    pub span: Span,
    pub length: Span,
    pub nonce: Span,
    pub ciphertext: Span,
    pub tag: Span,
}

/// What reading a module at `pos` of `b`, whose first byte is at file offset `base`, gives:
/// the module and the position after it, or why there is none.
pub open spec fn module_at(b: Seq<u8>, base: u64, pos: int) -> Result<(Module, int), Seq<char>> {
    let start = base + pos;
    if pos + 4 > b.len() {
        Err(bytes_error_text(BytesError::UnexpectedEnd { offset: start as u64, wanted: 4 }))
    } else {
        let len = le_u32_value(b.subrange(pos, pos + 4));
        if len < NONCE_LEN + TAG_LEN {
            Err(
                "a module at offset "@ + dec(start as nat) + " claims "@ + dec(len as nat)
                    + " bytes, fewer than a nonce and a tag"@,
            )
        } else if pos + 4 + len > b.len() {
            Err(
                bytes_error_text(
                    BytesError::UnexpectedEnd { offset: (start + 4) as u64, wanted: len as u64 },
                ),
            )
        } else {
            let body_start = start + 4;
            let body_end = start + 4 + len;
            Ok(
                (
                    Module {
                        span: Span { start: start as u64, end: body_end as u64 },
                        length: Span { start: start as u64, end: (start + 4) as u64 },
                        nonce: Span { start: body_start as u64, end: (body_start + 12) as u64 },
                        ciphertext: Span {
                            start: (body_start + 12) as u64,
                            end: (body_end - 16) as u64,
                        },
                        tag: Span { start: (body_end - 16) as u64, end: body_end as u64 },
                    },
                    pos + 4 + len,
                ),
            )
        }
    }
}

/// Read the module that starts at `r`, from its length prefix alone.
pub fn read_module(r: &mut ByteReader) -> (res: Result<Module, String>)
    ensures
        final(r).bytes() == old(r).bytes(),
        final(r).base() == old(r).base(),
        match module_at(old(r).bytes(), old(r).base(), old(r).pos() as int) {
            Ok((m, next)) => res == Ok::<Module, String>(m) && final(r).pos() == next,
            Err(msg) => res matches Err(s) && s@ == msg,
        },
{
    proof {
        use_type_invariant(&*r);
        ByteReader::lemma_inv(*r);
    }
    let start = r.offset();
    let len = match r.read_le_u32() {
        Ok(v) => v as u64,
        Err(e) => {
            return Err(e.message());
        },
    };
    if len < NONCE_LEN + TAG_LEN {
        let mut s = String::new();
        s.append("a module at offset ");
        push_u64(&mut s, start);
        s.append(" claims ");
        push_u64(&mut s, len);
        s.append(" bytes, fewer than a nonce and a tag");
        return Err(s);
    }
    let body = match r.read_bytes(len as usize) {
        Ok((_, span)) => span,
        Err(e) => {
            return Err(e.message());
        },
    };
    Ok(
        Module {
            span: Span::new(start, body.end),
            length: Span::new(start, start + 4),
            nonce: Span::new(body.start, body.start + NONCE_LEN),
            ciphertext: Span::new(body.start + NONCE_LEN, body.end - TAG_LEN),
            tag: Span::new(body.end - TAG_LEN, body.end),
        },
    )
}

/// The modules from position `pos` to the end of `b`, one after another.
pub open spec fn modules_from(b: Seq<u8>, base: u64, pos: int) -> Result<Seq<Module>, Seq<char>>
    decreases b.len() - pos,
{
    if pos < 0 || pos >= b.len() {
        Ok(Seq::empty())
    } else {
        match module_at(b, base, pos) {
            Err(e) => Err(e),
            Ok((m, next)) => if next <= pos {
                Err(Seq::empty())
            } else {
                match modules_from(b, base, next) {
                    Ok(rest) => Ok(seq![m] + rest),
                    Err(e) => Err(e),
                }
            },
        }
    }
}

/// The modules of an encrypted column chunk: page headers and pages, alternating.
pub fn chunk_modules(file: &[u8], chunk: Span) -> (r: Result<Vec<Module>, String>)
    ensures
        chunk.start <= chunk.end <= file@.len() ==> match modules_from(
            file@.subrange(chunk.start as int, chunk.end as int),
            chunk.start,
            0,
        ) {
            Ok(ms) => r matches Ok(v) && v@ == ms,
            Err(msg) => r matches Err(s) && s@ == msg,
        },
        !(chunk.start <= chunk.end <= file@.len()) ==> (r matches Err(s) && s@ == "column chunk "@
            + span_text(chunk) + " is past the end of the file"@),
{
    if !(chunk.start <= chunk.end && chunk.end <= file.len() as u64) {
        let mut s = String::new();
        s.append("column chunk ");
        s.append("[");
        push_u64(&mut s, chunk.start);
        s.append(", ");
        push_u64(&mut s, chunk.end);
        s.append(")");
        s.append(" is past the end of the file");
        assert(s@ =~= "column chunk "@ + span_text(chunk) + " is past the end of the file"@);
        return Err(s);
    }
    let bytes = vstd::slice::slice_subrange(file, chunk.start as usize, chunk.end as usize);
    let mut r = ByteReader::new(bytes, chunk.start);
    let mut out: Vec<Module> = Vec::new();
    let ghost b = bytes@;
    while !r.is_at_end()
        invariant
            chunk.start <= chunk.end <= file@.len(),
            b == file@.subrange(chunk.start as int, chunk.end as int),
            r.bytes() == b,
            r.base() == chunk.start,
            r.pos() <= b.len(),
            modules_from(b, chunk.start, 0) == match modules_from(b, chunk.start, r.pos() as int) {
                Ok(rest) => Ok(out@ + rest),
                Err(e) => Err(e),
            },
        decreases b.len() - r.pos(),
    {
        let ghost pos = r.pos() as int;
        match read_module(&mut r) {
            Ok(m) => {
                proof {
                    use_type_invariant(&r);
                    ByteReader::lemma_inv(r);
                    let rest = modules_from(b, chunk.start, r.pos() as int);
                    match rest {
                        Ok(ms) => {
                            assert(out@.push(m) + ms =~= out@ + (seq![m] + ms));
                        },
                        Err(_) => {},
                    }
                }
                out.push(m);
            },
            Err(e) => {
                assert(modules_from(b, chunk.start, pos) matches Err(msg) && msg == e@);
                return Err(e);
            },
        }
    }
    proof {
        assert(out@ + Seq::<Module>::empty() =~= out@);
    }
    Ok(out)
}

} // verus!
