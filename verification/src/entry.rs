//! One parsed secret entry: the first line of the decrypted content, the
//! remaining lines flattened into one delimited field, and the source path.

use vstd::prelude::*;

use crate::text::{flatten_delim, spec_lines, split_lines};

verus! {

/// The terminal parsing error: the decrypted content held no line at all.
#[derive(Debug, PartialEq, Eq, Structural)]
pub enum Pass2CSVError {
    NoPassword,
}

/// One entry of the vault, ready to become a row of the export.
#[derive(Debug)]
pub struct Entry {
    pub password: String,
    pub additional: String,
    pub file_path: String,
}

/// The secret of content `c`: its first line. Meaningful only when `c` has
/// at least one line.
pub open spec fn spec_password(c: Seq<char>) -> Seq<char> {
    spec_lines(c)[0]
}

/// The auxiliary field of content `c`: every line after the first, each
/// suffixed with the delimiter `d`, in order.
pub open spec fn spec_additional(c: Seq<char>, d: Seq<char>) -> Seq<char> {
    flatten_delim(spec_lines(c).drop_first(), d)
}

impl Entry {
    /// Parses decrypted content into an entry: the first line is the
    /// password; every later line, suffixed with `delimiter`, joins the
    /// additional field. Content without a single line is refused.
    pub fn new(content: &str, file_path: &str, delimiter: &str) -> (r: Result<
        Entry,
        Pass2CSVError,
    >)
        ensures
            spec_lines(content@).len() == 0 ==> (r matches Err(e) && e
                == Pass2CSVError::NoPassword),
            spec_lines(content@).len() > 0 ==> (r matches Ok(e) && e.password@ == spec_password(
                content@,
            ) && e.additional@ == spec_additional(content@, delimiter@) && e.file_path@
                == file_path@),
    {
        let lines = split_lines(content);
        let password = match Self::parse_password(&lines) {
            Ok(p) => p,
            Err(e) => {
                return Err(e);
            },
        };
        let additional = Self::parse_additional(&lines, 1, delimiter);
        proof {
            assert(lines.deep_view().skip(1) =~= spec_lines(content@).drop_first());
        }
        Ok(Entry { password, file_path: file_path.to_owned(), additional })
    }

    /// Flattens the lines from index `from` on: each one, in order, with
    /// `delimiter` appended after it.
    pub fn parse_additional(lines: &Vec<String>, from: usize, delimiter: &str) -> (r: String)
        requires
            from <= lines@.len(),
        ensures
            r@ == flatten_delim(lines.deep_view().skip(from as int), delimiter@),
    {
        let ghost dv = lines.deep_view();
        let mut r = String::new();
        let mut i: usize = from;
        proof {
            assert(r@ + flatten_delim(dv.skip(from as int), delimiter@) =~= flatten_delim(
                dv.skip(from as int),
                delimiter@,
            ));
        }
        while i < lines.len()
            invariant
                from <= i <= lines@.len(),
                dv == lines.deep_view(),
                dv.len() == lines@.len(),
                r@ + flatten_delim(dv.skip(i as int), delimiter@) == flatten_delim(
                    dv.skip(from as int),
                    delimiter@,
                ),
            decreases lines@.len() - i,
        {
            r.append(lines[i].as_str());
            r.append(delimiter);
            proof {
                assert(dv.skip(i as int)[0] == dv[i as int]);
                assert(dv.skip(i as int).drop_first() =~= dv.skip(i + 1));
            }
            i = i + 1;
        }
        proof {
            assert(flatten_delim(dv.skip(i as int), delimiter@) =~= Seq::<char>::empty());
            assert(r@ + Seq::<char>::empty() =~= r@);
        }
        r
    }

    /// The password is the first line; without one the entry is refused.
    pub fn parse_password(lines: &Vec<String>) -> (r: Result<String, Pass2CSVError>)
        ensures
            lines@.len() > 0 ==> (r matches Ok(p) && p@ == lines.deep_view()[0]),
            lines@.len() == 0 ==> (r matches Err(e) && e == Pass2CSVError::NoPassword),
    {
        if lines.len() > 0 {
            Ok(lines[0].clone())
        } else {
            Err(Pass2CSVError::NoPassword)
        }
    }
}

} // verus!
