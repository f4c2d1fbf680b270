//! The export pipeline: turn each decrypt outcome into an entry and stream
//! it as one CSV row, failing fast on the first bad outcome.
//!
//! Decryption itself is an outside collaborator; it hands the library a
//! [`DecryptOutcome`] of plain values, and everything after that point is
//! verified.

use vstd::prelude::*;

use vstd::slice::slice_to_vec;
use vstd::utf8::{decode_utf8, valid_utf8};

use crate::csvout::{csv_row_str, finish_writer, new_writer, write_row, writer_contents, RowWriter};
use crate::entry::{spec_additional, spec_password, Entry, Pass2CSVError};
use crate::text::{spec_lines, spec_trim, trim_spaces};

verus! {

/// What the external decrypt collaborator reported for one path: whether it
/// succeeded, its output and diagnostic bytes, and its exit status if it
/// gave one.
#[derive(Debug)]
pub struct DecryptOutcome {
    pub success: bool,
    pub stdout: Vec<u8>,
    pub stderr: Vec<u8>,
    pub status: Option<i32>,
}

/// Every failure that aborts an export run. Encoding rows cannot fail (the
/// writer works over an in-memory buffer), so every fatal condition of the
/// library comes from one decrypt outcome; failures of the output file
/// itself belong to the caller that owns the file.
#[derive(Debug)]
pub enum FatalError {
    /// The decrypt collaborator reported non-success; carries its effective
    /// exit status and its diagnostic bytes, to be forwarded verbatim.
    Decrypt { status: i32, stderr: Vec<u8> },
    /// The decrypted bytes are not valid UTF-8.
    Encoding,
    /// The decrypted content could not be parsed into an entry.
    Parse(Pass2CSVError),
}

/// The exit status an aborting run adopts: the collaborator's, or 1 when it
/// reported none.
pub open spec fn effective_status(st: Option<i32>) -> i32 {
    match st {
        Some(v) => v,
        None => 1i32,
    }
}

/// The content an entry is parsed from: the decrypted bytes decoded as text
/// and trimmed of surrounding whitespace.
pub open spec fn loaded_content(stdout: Seq<u8>) -> Seq<char> {
    spec_trim(decode_utf8(stdout))
}

/// Whether one decrypt outcome yields an entry: the collaborator succeeded,
/// its output is text, and that text holds at least one line.
pub open spec fn load_ok(o: DecryptOutcome) -> bool {
    o.success && valid_utf8(o.stdout@) && spec_lines(loaded_content(o.stdout@)).len() > 0
}

/// Whether `e` is the error that loading `o` gives.
pub open spec fn load_err_matches(o: DecryptOutcome, e: FatalError) -> bool {
    if !o.success {
        &&& e matches FatalError::Decrypt { status, stderr }
        &&& status == effective_status(o.status)
        &&& stderr@ == o.stderr@
    } else if !valid_utf8(o.stdout@) {
        e matches FatalError::Encoding
    } else {
        e matches FatalError::Parse(pe) && pe == Pass2CSVError::NoPassword
    }
}

/// Relies on core::str::from_utf8: it succeeds exactly on valid UTF-8 and
/// yields the characters the bytes encode.
#[verifier::external_body]
fn decode_bytes(v: &[u8]) -> (r: Option<&str>)
    ensures
        r matches Some(s) ==> valid_utf8(v@) && s@ == decode_utf8(v@),
        r is None ==> !valid_utf8(v@),
{
    core::str::from_utf8(v).ok()
}

/// Loads one entry from a decrypt outcome: refuses a reported failure with
/// its status and diagnostics, decodes and trims the output, and parses it.
pub fn load_entry(outcome: &DecryptOutcome, path: &str, delimiter: &str) -> (r: Result<
    Entry,
    FatalError,
>)
    ensures
        !outcome.success ==> (r matches Err(e) && e matches FatalError::Decrypt { status, stderr }
            && status == effective_status(outcome.status) && stderr@ == outcome.stderr@),
        outcome.success && !valid_utf8(outcome.stdout@) ==> (r matches Err(e) && e matches
            FatalError::Encoding),
        outcome.success && valid_utf8(outcome.stdout@) && spec_lines(
            loaded_content(outcome.stdout@),
        ).len() == 0 ==> (r matches Err(e) && e matches FatalError::Parse(pe) && pe
            == Pass2CSVError::NoPassword),
        load_ok(*outcome) ==> (r matches Ok(en) && en.password@ == spec_password(
            loaded_content(outcome.stdout@),
        ) && en.additional@ == spec_additional(loaded_content(outcome.stdout@), delimiter@)
            && en.file_path@ == path@),
{
    if !outcome.success {
        let status: i32 = match outcome.status {
            Some(v) => v,
            None => 1,
        };
        return Err(
            FatalError::Decrypt { status, stderr: slice_to_vec(outcome.stderr.as_slice()) },
        );
    }
    match decode_bytes(outcome.stdout.as_slice()) {
        None => Err(FatalError::Encoding),
        Some(text) => {
            let content = trim_spaces(text);
            match Entry::new(content, path, delimiter) {
                Ok(en) => Ok(en),
                Err(pe) => Err(FatalError::Parse(pe)),
            }
        },
    }
}

/// The header row of every export.
pub open spec fn header_bytes() -> Seq<u8> {
    csv_row_str("password"@, "additional"@, "file_path"@)
}

/// The row that the outcome of one path contributes to the export.
pub open spec fn spec_row(stdout: Seq<u8>, path: Seq<char>, d: Seq<char>) -> Seq<u8> {
    csv_row_str(
        spec_password(loaded_content(stdout)),
        spec_additional(loaded_content(stdout), d),
        path,
    )
}

/// The whole export of the first `n` outcomes: the header row, then one row
/// per outcome, in the order given.
pub open spec fn document_bytes(
    outs: Seq<DecryptOutcome>,
    paths: Seq<Seq<char>>,
    d: Seq<char>,
    n: int,
) -> Seq<u8>
    decreases n,
{
    if n <= 0 {
        header_bytes()
    } else {
        document_bytes(outs, paths, d, n - 1) + spec_row(outs[n - 1].stdout@, paths[n - 1], d)
    }
}

/// The streaming export: a tabular writer whose bytes, seen through `@`,
/// grow by exactly one row for each entry taken.
pub struct Exporter {
    pub writer: RowWriter,
}

impl View for Exporter {
    type V = Seq<u8>;

    open spec fn view(&self) -> Seq<u8> {
        writer_contents(self.writer)
    }
}

impl Exporter {
    /// Opens the export and writes the fixed header row.
    pub fn new() -> (r: Exporter)
        ensures
            r@ == header_bytes(),
    {
        let mut w = new_writer();
        write_row(&mut w, "password", "additional", "file_path");
        proof {
            assert(writer_contents(w) =~= header_bytes());
        }
        Exporter { writer: w }
    }

    /// Takes one decrypt outcome: loads the entry and appends its row, or
    /// aborts with the load failure, leaving the export as it stood.
    pub fn add_entry(&mut self, outcome: &DecryptOutcome, path: &str, delimiter: &str) -> (r:
        Result<(), FatalError>)
        ensures
            load_ok(*outcome) ==> (r matches Ok(()) && final(self)@ == old(self)@ + spec_row(
                outcome.stdout@,
                path@,
                delimiter@,
            )),
            !load_ok(*outcome) ==> (r matches Err(e) && load_err_matches(*outcome, e)
                && final(self)@ == old(self)@),
    {
        let en = match load_entry(outcome, path, delimiter) {
            Ok(en) => en,
            Err(e) => {
                return Err(e);
            },
        };
        write_row(
            &mut self.writer,
            en.password.as_str(),
            en.additional.as_str(),
            en.file_path.as_str(),
        );
        Ok(())
    }

    /// Closes the export and hands back the encoded table.
    pub fn finish(self) -> (r: Vec<u8>)
        ensures
            r@ == self@,
    {
        finish_writer(self.writer)
    }
}

/// Exports every outcome, one row per path and in the order given, stopping
/// at the first bad outcome. It succeeds exactly when every outcome loads,
/// and the bytes are then the header row followed by the rows of all
/// outcomes, in order; otherwise the error is that of the first outcome
/// that does not load.
pub fn export_all(outcomes: &Vec<DecryptOutcome>, paths: &Vec<String>, delimiter: &str) -> (r:
    Result<Vec<u8>, FatalError>)
    requires
        outcomes@.len() == paths@.len(),
    ensures
        r matches Ok(bytes) ==> (forall|k: int|
            0 <= k < outcomes@.len() ==> load_ok(outcomes@[k])) && bytes@ == document_bytes(
            outcomes@,
            paths.deep_view(),
            delimiter@,
            outcomes@.len() as int,
        ),
        r matches Err(e) ==> (exists|i: int|
            0 <= i < outcomes@.len() && !load_ok(outcomes@[i]) && (forall|k: int|
                0 <= k < i ==> load_ok(outcomes@[k])) && load_err_matches(outcomes@[i], e)),
{
    let mut ex = Exporter::new();
    let mut i: usize = 0;
    while i < outcomes.len()
        invariant
            outcomes@.len() == paths@.len(),
            i <= outcomes@.len(),
            forall|k: int| 0 <= k < i ==> load_ok(outcomes@[k]),
            ex@ == document_bytes(outcomes@, paths.deep_view(), delimiter@, i as int),
        decreases outcomes@.len() - i,
    {
        match ex.add_entry(&outcomes[i], paths[i].as_str(), delimiter) {
            Ok(()) => {},
            Err(e) => {
                return Err(e);
            },
        }
        i = i + 1;
    }
    Ok(ex.finish())
}

} // verus!
