//! Sorted runs: a batch of entries is sorted, encoded and compressed into the
//! bytes of one spill file.

use crate::metadata::{lemma_decode_encode, lemma_order_is_strict_total, DecodeError, Metadata};
use lz4_flex::frame::{FrameDecoder, FrameEncoder};
use rayon::slice::ParallelSliceMut;
use std::io::{Read, Write};
use vstd::prelude::*;

verus! {

/// Why a batch could not be turned into the bytes of a spill file.
#[derive(Debug, Clone, Copy, PartialEq, Eq, Structural)]
pub enum SpillError {
    /// The frame compressor reported an error.
    Compression,
    /// The frame decompressor reported an error.
    Decompression,
    /// The decompressed bytes end inside an entry.
    Truncated,
}

/// No entry of the sequence comes after a later one.
pub open spec fn is_sorted(s: Seq<Metadata>) -> bool {
    forall|i: int, j: int| 0 <= i < j < s.len() ==> #[trigger] s[i].not_after(#[trigger] s[j])
}

/// `t` holds the entries of `s`, each as often as `s` does, in order.
pub open spec fn is_sorting_of(t: Seq<Metadata>, s: Seq<Metadata>) -> bool {
    is_sorted(t) && t.to_multiset() == s.to_multiset()
}

/// The entries of `s` in order.
pub open spec fn sorted(s: Seq<Metadata>) -> Seq<Metadata> {
    choose|t: Seq<Metadata>| is_sorting_of(t, s)
}

/// Two sorted sequences that hold the same entries equally often are equal:
/// the order of entries leaves no choice.
pub proof fn lemma_sorted_is_unique(a: Seq<Metadata>, b: Seq<Metadata>)
    requires
        is_sorted(a),
        is_sorted(b),
        a.to_multiset() == b.to_multiset(),
    ensures
        a == b,
    decreases a.len(),
{
    a.to_multiset_ensures();
    b.to_multiset_ensures();
    assert(a.len() == b.len());
    if a.len() > 0 {
        let x = a.last();
        let y = b.last();
        assert(a.contains(x));
        assert(b.contains(y));
        assert(b.to_multiset().count(x) > 0);
        assert(a.to_multiset().count(y) > 0);
        assert(b.contains(x));
        assert(a.contains(y));
        let i = choose|i: int| 0 <= i < b.len() && b[i] == x;
        let j = choose|j: int| 0 <= j < a.len() && a[j] == y;
        assert(x.not_after(y)) by {
            if i < b.len() - 1 {
                assert(b[i].not_after(b[b.len() - 1]));
            }
        }
        assert(y.not_after(x)) by {
            if j < a.len() - 1 {
                assert(a[j].not_after(a[a.len() - 1]));
            }
        }
        lemma_order_is_strict_total(x, y, x);
        assert(x == y);
        let a0 = a.drop_last();
        let b0 = b.drop_last();
        a0.to_multiset_ensures();
        b0.to_multiset_ensures();
        assert(a =~= a0.push(x));
        assert(b =~= b0.push(x));
        assert(a0.to_multiset() =~= a.to_multiset().remove(x));
        assert(b0.to_multiset() =~= b.to_multiset().remove(x));
        assert(is_sorted(a0)) by {
            assert forall|i: int, j: int| 0 <= i < j < a0.len() implies #[trigger] a0[i].not_after(
                #[trigger] a0[j],
            ) by {
                assert(a[i].not_after(a[j]));
            }
        }
        assert(is_sorted(b0)) by {
            assert forall|i: int, j: int| 0 <= i < j < b0.len() implies #[trigger] b0[i].not_after(
                #[trigger] b0[j],
            ) by {
                assert(b[i].not_after(b[j]));
            }
        }
        lemma_sorted_is_unique(a0, b0);
    } else {
        assert(a =~= b);
    }
}

/// Every sequence has its sorted arrangement, and entries that are the same
/// up to their order have the same one.
pub proof fn lemma_sorted(s: Seq<Metadata>, other: Seq<Metadata>)
    ensures
        is_sorting_of(sorted(s), s),
        s.to_multiset() == other.to_multiset() ==> sorted(s) == sorted(other),
{
    let leq = |a: Metadata, b: Metadata| a.not_after(b);
    assert(vstd::relations::total_ordering(leq)) by {
        assert forall|x: Metadata, y: Metadata| #[trigger] leq(x, y) && #[trigger] leq(y, x) implies x
            == y by {
            lemma_order_is_strict_total(x, y, x);
        }
        assert forall|x: Metadata, y: Metadata, z: Metadata| #[trigger]
            leq(x, y) && #[trigger] leq(y, z) implies leq(x, z) by {
            lemma_order_is_strict_total(x, y, z);
        }
        assert forall|x: Metadata, y: Metadata| #[trigger] leq(x, y) || #[trigger] leq(y, x) by {
            lemma_order_is_strict_total(x, y, x);
        }
    }
    s.lemma_sort_by_ensures(leq);
    let t = s.sort_by(leq);
    assert(is_sorted(t)) by {
        assert forall|i: int, j: int| 0 <= i < j < t.len() implies #[trigger] t[i].not_after(
            #[trigger] t[j],
        ) by {
            assert(leq(t[i], t[j]));
        }
    }
    assert(is_sorting_of(t, s));
    if s.to_multiset() == other.to_multiset() {
        assert(is_sorting_of(t, other));
        lemma_sorted_is_unique(sorted(s), sorted(other));
    }
}

/// The encodings of the entries of `s`, one after the other.
pub open spec fn encoding_of(s: Seq<Metadata>) -> Seq<u8>
    decreases s.len(),
{
    if s.len() == 0 {
        Seq::<u8>::empty()
    } else {
        encoding_of(s.drop_last()) + s.last().encoding()
    }
}

/// The encoding of `n` entries is 43 times `n` bytes long.
pub proof fn lemma_encoding_len(s: Seq<Metadata>)
    ensures
        encoding_of(s).len() == 43 * s.len(),
    decreases s.len(),
{
    if s.len() > 0 {
        lemma_encoding_len(s.drop_last());
        lemma_decode_encode(s.last(), Seq::<u8>::empty());
    }
}

/// Reading at the place of entry `i` in the encoding of a batch gives that
/// entry, and at the end of the encoding the end of the stream.
pub proof fn lemma_read_encoded(s: Seq<Metadata>, i: int)
    requires
        0 <= i <= s.len(),
    ensures
        encoding_of(s).len() == 43 * s.len(),
        Metadata::read_result(encoding_of(s).skip(43 * i)) == if i < s.len() {
            Ok::<Option<Metadata>, DecodeError>(Some(s[i]))
        } else {
            Ok::<Option<Metadata>, DecodeError>(None)
        },
    decreases s.len(),
{
    lemma_encoding_len(s);
    if i < s.len() {
        let head = s.drop_last();
        lemma_encoding_len(head);
        if i == s.len() - 1 {
            assert(encoding_of(s).skip(43 * i) =~= s.last().encoding() + Seq::<u8>::empty());
            lemma_decode_encode(s.last(), Seq::<u8>::empty());
        } else {
            lemma_read_encoded(head, i);
            let rest = encoding_of(head).skip(43 * i);
            let tail = s.last().encoding();
            lemma_decode_encode(s.last(), Seq::<u8>::empty());
            assert(encoding_of(s).skip(43 * i) =~= rest + tail);
            assert(rest.len() >= 43);
            lemma_decode_encode(s[i], Seq::<u8>::empty());
            crate::metadata::lemma_encode_decode(rest);
            assert(rest.take(43) == s[i].encoding()) by {
                assert(Metadata::decoding(rest) == s[i]);
            }
            assert(rest + tail =~= s[i].encoding() + (rest.skip(43) + tail));
            lemma_decode_encode(s[i], rest.skip(43) + tail);
        }
    }
}

/// Appends the encodings of the entries of a batch to `out`.
pub fn encode_batch(batch: &Vec<Metadata>, out: &mut Vec<u8>)
    ensures
        final(out)@ == old(out)@ + encoding_of(batch@),
{
    let mut i: usize = 0;
    proof {
        assert(batch@.take(0) =~= Seq::<Metadata>::empty());
        assert(out@ =~= old(out)@ + encoding_of(batch@.take(0)));
    }
    while i < batch.len()
        invariant
            0 <= i <= batch.len(),
            out@ == old(out)@ + encoding_of(batch@.take(i as int)),
        decreases batch.len() - i,
    {
        let ghost before = out@;
        batch[i].write_to(out);
        proof {
            assert(batch@.take(i + 1).drop_last() =~= batch@.take(i as int));
            assert(out@ =~= old(out)@ + encoding_of(batch@.take(i + 1)));
        }
        i = i + 1;
    }
    proof {
        assert(batch@.take(batch.len() as int) =~= batch@);
    }
}

/// Sorts a batch with rayon's `par_sort_unstable_by`, the comparator being
/// [`Metadata::compare`]. Believed of the outside sort: it leaves the batch
/// in the comparator's order and neither adds nor loses an entry.
#[verifier::external_body]
fn par_sort_unstable_by_order(batch: &mut Vec<Metadata>)
    ensures
        is_sorting_of(final(batch)@, old(batch)@),
{
    batch.par_sort_unstable_by(|a, b| a.compare(b));
}

/// Sorts a batch in place, on the worker pool.
pub fn sort_batch(batch: &mut Vec<Metadata>)
    ensures
        final(batch)@ == sorted(old(batch)@),
        is_sorting_of(final(batch)@, old(batch)@),
{
    par_sort_unstable_by_order(batch);
    proof {
        let t = sorted(old(batch)@);
        assert(is_sorting_of(batch@, old(batch)@));
        lemma_sorted_is_unique(batch@, t);
    }
}

/// The entries that reading a byte buffer entry by entry gives: all the
/// entries up to the end of the stream, or the error of the first entry that
/// cannot be read.
pub open spec fn decoded(raw: Seq<u8>) -> Result<Seq<Metadata>, DecodeError>
    decreases raw.len(),
{
    match Metadata::read_result(raw) {
        Err(e) => Err(e),
        Ok(None) => Ok(Seq::<Metadata>::empty()),
        Ok(Some(m)) => match decoded(raw.skip(43)) {
            Ok(rest) => Ok(seq![m] + rest),
            Err(e) => Err(e),
        },
    }
}

/// The encoding of a batch is read back as the batch, from any entry on.
pub proof fn lemma_decoded_encoding(s: Seq<Metadata>, i: int)
    requires
        0 <= i <= s.len(),
    ensures
        decoded(encoding_of(s).skip(43 * i)) == Ok::<Seq<Metadata>, DecodeError>(s.skip(i)),
        i == 0 ==> decoded(encoding_of(s)) == Ok::<Seq<Metadata>, DecodeError>(s),
    decreases s.len() - i,
{
    let raw = encoding_of(s).skip(43 * i);
    lemma_read_encoded(s, i);
    if i < s.len() {
        lemma_decoded_encoding(s, i + 1);
        assert(raw.skip(43) =~= encoding_of(s).skip(43 * (i + 1)));
        assert(seq![s[i]] + s.skip(i + 1) =~= s.skip(i));
    } else {
        assert(s.skip(i) =~= Seq::<Metadata>::empty());
    }
    if i == 0 {
        assert(encoding_of(s).skip(0) =~= encoding_of(s));
        assert(s.skip(0) =~= s);
    }
}

/// Reads a byte buffer entry by entry.
pub fn decode_batch(raw: &[u8]) -> (r: Result<Vec<Metadata>, DecodeError>)
    ensures
        match r {
            Ok(entries) => decoded(raw@) == Ok::<Seq<Metadata>, DecodeError>(entries@),
            Err(e) => decoded(raw@) == Err::<Seq<Metadata>, DecodeError>(e),
        },
{
    let mut entries: Vec<Metadata> = Vec::new();
    let mut at: usize = 0;
    proof {
        assert(raw@.skip(0) =~= raw@);
    }
    loop
        invariant
            0 <= at <= raw.len(),
            match decoded(raw@.skip(at as int)) {
                Ok(rest) => decoded(raw@) == Ok::<Seq<Metadata>, DecodeError>(entries@ + rest),
                Err(e) => decoded(raw@) == Err::<Seq<Metadata>, DecodeError>(e),
            },
        decreases raw.len() - at,
    {
        let rest = vstd::slice::slice_subrange(raw, at, raw.len());
        proof {
            assert(rest@ =~= raw@.skip(at as int));
        }
        match Metadata::read_from(rest) {
            Err(e) => {
                return Err(e);
            },
            Ok(None) => {
                proof {
                    assert(entries@ + Seq::<Metadata>::empty() =~= entries@);
                }
                return Ok(entries);
            },
            Ok(Some(m)) => {
                proof {
                    assert(raw@.skip(at as int).skip(43) =~= raw@.skip(at + 43));
                    match decoded(raw@.skip(at + 43)) {
                        Ok(tail) => {
                            assert(entries@.push(m) + tail =~= entries@ + (seq![m] + tail));
                        },
                        Err(e) => {},
                    }
                }
                entries.push(m);
                at = at + 43;
            },
        }
    }
}

/// `lz4_flex::frame::Error`, carried as an opaque value.
#[verifier::external_type_specification]
#[verifier::external_body]
pub struct ExFrameError(lz4_flex::frame::Error);

/// What `lz4_flex::frame::FrameDecoder` reads out of the bytes `frame` up to
/// their end, and nothing where it reports an error.
pub uninterp spec fn lz4_frame_content(frame: Seq<u8>) -> Option<Seq<u8>>;

/// Whether `lz4_flex::frame::FrameEncoder`, with its default settings and
/// over a vector, makes a frame of `data` given in one write, rather than
/// report an error. The bytes of the frame get no name: the encoder looks
/// for matches by words of the machine, so they may differ from one machine
/// to another.
pub uninterp spec fn lz4_frame_is_made(data: Seq<u8>) -> bool;

/// Compresses `data` into one LZ4 frame with `lz4_flex::frame::FrameEncoder`:
/// a new encoder over an empty vector, one `write_all`, then `finish`.
/// Believed of the encoder: whether it makes a frame depends on `data`
/// alone, and the decoder reads `data` out of the frame that it made.
#[verifier::external_body]
fn compress_frame(data: &[u8]) -> (r: Result<Vec<u8>, lz4_flex::frame::Error>)
    ensures
        match r {
            Ok(frame) => lz4_frame_is_made(data@) && lz4_frame_content(frame@) == Some(data@),
            Err(_) => !lz4_frame_is_made(data@),
        },
{
    let mut encoder = FrameEncoder::new(Vec::new());
    encoder.write_all(data)?;
    encoder.finish()
}

/// Decompresses `frame` with `lz4_flex::frame::FrameDecoder`: a new decoder
/// over the bytes, read to its end.
#[verifier::external_body]
fn decompress_frame(frame: &[u8]) -> (r: Result<Vec<u8>, lz4_flex::frame::Error>)
    ensures
        match r {
            Ok(data) => lz4_frame_content(frame@) == Some(data@),
            Err(_) => lz4_frame_content(frame@).is_none(),
        },
{
    let mut data = Vec::new();
    FrameDecoder::new(frame).read_to_end(&mut data)?;
    Ok(data)
}

/// What becomes of a batch once the compressor has answered: the frame
/// where it made one, an error where it did not.
pub fn spill_outcome(compressed: Result<Vec<u8>, lz4_flex::frame::Error>) -> (r: Result<
    Vec<u8>,
    SpillError,
>)
    ensures
        match compressed {
            Ok(frame) => r == Ok::<Vec<u8>, SpillError>(frame),
            Err(_) => r == Err::<Vec<u8>, SpillError>(SpillError::Compression),
        },
{
    match compressed {
        Ok(frame) => Ok(frame),
        Err(_) => Err(SpillError::Compression),
    }
}

/// What the decompressed bytes of a spill file give: an error where the
/// decompressor reported one or the bytes end inside an entry, the entries
/// otherwise.
pub open spec fn load_result(content: Option<Seq<u8>>) -> Result<Seq<Metadata>, SpillError> {
    match content {
        None => Err(SpillError::Decompression),
        Some(raw) => match decoded(raw) {
            Ok(entries) => Ok(entries),
            Err(_) => Err(SpillError::Truncated),
        },
    }
}

/// What becomes of a spill file once the decompressor has answered.
pub fn load_outcome(decompressed: Result<Vec<u8>, lz4_flex::frame::Error>) -> (r: Result<
    Vec<Metadata>,
    SpillError,
>)
    ensures
        match r {
            Ok(entries) => load_result(
                match decompressed {
                    Ok(raw) => Some(raw@),
                    Err(_) => None,
                },
            ) == Ok::<Seq<Metadata>, SpillError>(entries@),
            Err(e) => load_result(
                match decompressed {
                    Ok(raw) => Some(raw@),
                    Err(_) => None,
                },
            ) == Err::<Seq<Metadata>, SpillError>(e),
        },
{
    match decompressed {
        Err(_) => Err(SpillError::Decompression),
        Ok(raw) => match decode_batch(raw.as_slice()) {
            Ok(entries) => Ok(entries),
            Err(_) => Err(SpillError::Truncated),
        },
    }
}

/// Turns a batch into the bytes of its spill file: the entries are sorted on
/// the worker pool, encoded one after the other, and compressed into one
/// frame, out of which the decoder reads the encoding again. The spill
/// fails where the encoder makes no frame of the encoding, and only there.
pub fn save_chunk_parallel(chunk: Vec<Metadata>) -> (r: Result<Vec<u8>, SpillError>)
    ensures
        if lz4_frame_is_made(encoding_of(sorted(chunk@))) {
            &&& r matches Ok(bytes)
            &&& lz4_frame_content(bytes@) == Some(encoding_of(sorted(chunk@)))
            &&& load_result(lz4_frame_content(bytes@)) == Ok::<Seq<Metadata>, SpillError>(
                sorted(chunk@),
            )
        } else {
            r == Err::<Vec<u8>, SpillError>(SpillError::Compression)
        },
{
    let mut chunk = chunk;
    sort_batch(&mut chunk);
    let mut raw: Vec<u8> = Vec::new();
    encode_batch(&chunk, &mut raw);
    proof {
        assert(raw@ =~= encoding_of(chunk@));
        lemma_decoded_encoding(chunk@, 0);
    }
    spill_outcome(compress_frame(raw.as_slice()))
}

/// Reads the bytes of a spill file back into its entries.
pub fn load_chunk(bytes: &[u8]) -> (r: Result<Vec<Metadata>, SpillError>)
    ensures
        match r {
            Ok(entries) => load_result(lz4_frame_content(bytes@)) == Ok::<
                Seq<Metadata>,
                SpillError,
            >(entries@),
            Err(e) => load_result(lz4_frame_content(bytes@)) == Err::<Seq<Metadata>, SpillError>(
                e,
            ),
        },
{
    load_outcome(decompress_frame(bytes))
}

} // verus!
