//! The streaming CSV writer of the `csv` crate, held behind trusted
//! declarations, with an exact byte-level model of its default encoding:
//! comma-separated fields, records terminated by a line feed, a field quoted
//! exactly when it holds a comma, a double quote, a carriage return or a
//! line feed, and quotes escaped by doubling.

use vstd::prelude::*;

use vstd::string::StringSliceAdditionalSpecFns;

verus! {

/// A byte that forces the default writer to quote the field around it: the
/// comma delimiter, the double quote, carriage return or line feed.
pub open spec fn csv_special(b: u8) -> bool {
    b == 44u8 || b == 34u8 || b == 13u8 || b == 10u8
}

/// Whether the default writer puts the field data `f` in quotes.
pub open spec fn csv_needs_quotes(f: Seq<u8>) -> bool {
    exists|i: int| 0 <= i < f.len() && csv_special(f[i])
}

/// Field data as it stands between quotes: every double quote doubled.
pub open spec fn csv_doubled(f: Seq<u8>) -> Seq<u8>
    decreases f.len(),
{
    if f.len() == 0 {
        Seq::empty()
    } else {
        (if f[0] == 34u8 {
            seq![34u8, 34u8]
        } else {
            seq![f[0]]
        }) + csv_doubled(f.drop_first())
    }
}

/// One encoded field: quoted with doubled quotes when needed, verbatim
/// otherwise.
pub open spec fn csv_field(f: Seq<u8>) -> Seq<u8> {
    if csv_needs_quotes(f) {
        seq![34u8] + csv_doubled(f) + seq![34u8]
    } else {
        f
    }
}

/// One record of three fields: comma-separated, ended by a line feed.
pub open spec fn csv_row(a: Seq<u8>, b: Seq<u8>, c: Seq<u8>) -> Seq<u8> {
    csv_field(a) + seq![44u8] + csv_field(b) + seq![44u8] + csv_field(c) + seq![10u8]
}

/// The record `csv_row` of three fields given as character sequences.
pub open spec fn csv_row_str(a: Seq<char>, b: Seq<char>, c: Seq<char>) -> Seq<u8> {
    csv_row(
        vstd::utf8::encode_utf8(a),
        vstd::utf8::encode_utf8(b),
        vstd::utf8::encode_utf8(c),
    )
}

/// The streaming writer of the `csv` crate over an in-memory buffer. The
/// crate's own writer type cannot be declared to the verifier (its type
/// parameter carries an I/O bound), so it sits in a hidden field and is
/// spoken of through `writer_contents`.
///
/// Writing through this module cannot fail: `Vec`'s `Write` implementation
/// never errors, and every record written here has exactly three fields,
/// so the crate's only other error (unequal record lengths) is
/// unreachable.
#[verifier::external_body]
pub struct RowWriter {
    inner: csv::Writer<Vec<u8>>,
}

/// The bytes that the writer has accepted so far, its internal buffer
/// included.
pub uninterp spec fn writer_contents(w: RowWriter) -> Seq<u8>;

/// Relies on csv::Writer::from_writer: a fresh writer over an empty
/// in-memory buffer has taken no bytes yet.
#[verifier::external_body]
pub(crate) fn new_writer() -> (w: RowWriter)
    ensures
        writer_contents(w) == Seq::<u8>::empty(),
{
    RowWriter { inner: csv::Writer::from_writer(Vec::new()) }
}

/// Relies on csv::Writer::write_record under the default configuration:
/// the record of the three fields, encoded as `csv_row` says, stands
/// appended to the writer's bytes. The call returns Ok: the sink is a
/// `Vec`, whose writes are infallible, and the record has three fields
/// like every record of this module.
#[verifier::external_body]
pub(crate) fn write_row(w: &mut RowWriter, a: &str, b: &str, c: &str)
    ensures
        writer_contents(*final(w)) == writer_contents(*old(w)) + csv_row(
            a.spec_bytes(),
            b.spec_bytes(),
            c.spec_bytes(),
        ),
{
    w.inner.write_record(&[a, b, c]).expect("writing a record to an in-memory buffer cannot fail")
}

/// Relies on csv::Writer::into_inner: it flushes the internal buffer and
/// hands back the underlying buffer, so the returned bytes are exactly
/// what the writer has taken. The flush goes to a `Vec` and cannot fail.
#[verifier::external_body]
pub(crate) fn finish_writer(w: RowWriter) -> (r: Vec<u8>)
    ensures
        r@ == writer_contents(w),
{
    w.inner.into_inner().expect("flushing an in-memory buffer cannot fail")
}

} // verus!
