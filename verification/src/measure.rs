//! Building a measurement record: the compressed size of a file's
//! minified text is obtained from an outside compressor.

use crate::Weight;
use std::io::Write;
use vstd::prelude::*;
use vstd::utf8::encode_utf8;

verus! {

/// The byte length of the compressed form of a byte sequence, as the
/// outside compressor produces it at the fixed settings used here. The
/// compressed form is a function of the input bytes alone.
pub uninterp spec fn compressed_len(bytes: Seq<u8>) -> nat;

/// Relies on brotli::CompressorWriter (buffer 4096 bytes, quality 11,
/// window 22): writing the input bytes and dropping the writer leaves
/// their compressed form in the output buffer; what it writes depends on
/// the input bytes alone. Writing into a Vec cannot fail.
#[verifier::external_body]
fn measure_compressed(s: &str) -> (n: usize)
    ensures
        n as nat == compressed_len(encode_utf8(s@)),
{
    let mut compressed: Vec<u8> = Vec::new();
    {
        let mut writer = brotli::CompressorWriter::new(&mut compressed, 4096, 11, 22);
        writer.write_all(s.as_bytes()).expect("failed to compress");
    }
    compressed.len()
}

/// Builds the measurement record for one file from its canonical identity,
/// raw source text, import specifiers as written, and minified text; the
/// measured size is the byte length of the minified text after compression.
pub fn make_weight(path: String, source: String, imports: Vec<String>, minified: String) -> (w:
    Weight)
    ensures
        w@.path == path@,
        w@.source == source@,
        w@.imports == imports@.map_values(|s: String| s@),
        w@.minified == minified@,
        w@.size == compressed_len(encode_utf8(minified@)),
{
    let size = measure_compressed(minified.as_str());
    Weight { path, source, imports, minified, size }
}

} // verus!
