//! The general properties the library promises, each proved once for every
//! input it names.

use vstd::prelude::*;

use crate::entry::{spec_additional, spec_password};
use crate::text::{
    first_newline, flatten_delim, lemma_first_newline_bounds, lemma_first_newline_is, spec_lines,
    strip_trailing_cr,
};

verus! {

/// The given lines joined back into one text, with a line feed between
/// each neighbouring pair and none at the end.
pub open spec fn join_newline(ls: Seq<Seq<char>>) -> Seq<char>
    decreases ls.len(),
{
    if ls.len() == 0 {
        Seq::empty()
    } else if ls.len() == 1 {
        ls[0]
    } else {
        ls[0] + seq!['\n'] + join_newline(ls.drop_first())
    }
}

proof fn lemma_lines_of_join(ls: Seq<Seq<char>>)
    requires
        ls.len() > 0,
        forall|i: int| 0 <= i < ls.len() ==> !(#[trigger] ls[i]).contains('\n'),
        forall|i: int| 0 <= i < ls.len() - 1 ==> strip_trailing_cr(#[trigger] ls[i]) == ls[i],
        ls.last().len() > 0,
    ensures
        spec_lines(join_newline(ls)) == ls,
    decreases ls.len(),
{
    let s = join_newline(ls);
    if ls.len() == 1 {
        assert(s == ls[0]);
        assert(s.len() > 0);
        assert forall|k: int| 0 <= k < s.len() implies s[k] != '\n' by {
            if s[k] == '\n' {
                assert(ls[0].contains('\n'));
            }
        }
        lemma_first_newline_is(s, s.len() as int);
        assert(spec_lines(s) =~= ls);
    } else {
        let head = ls[0];
        let rest = ls.drop_first();
        let t = join_newline(rest);
        assert(s == head + seq!['\n'] + t);
        assert forall|k: int| 0 <= k < head.len() implies s[k] != '\n' by {
            assert(s[k] == head[k]);
            if head[k] == '\n' {
                assert(head.contains('\n'));
            }
        }
        assert(s[head.len() as int] == '\n');
        lemma_first_newline_is(s, head.len() as int);
        assert(s.subrange(0, head.len() as int) =~= head);
        assert(strip_trailing_cr(head) == head);
        assert(s.subrange(head.len() as int + 1, s.len() as int) =~= t);
        assert forall|i: int| 0 <= i < rest.len() implies !(#[trigger] rest[i]).contains('\n') by {
            assert(rest[i] == ls[i + 1]);
        }
        assert forall|i: int| 0 <= i < rest.len() - 1 implies strip_trailing_cr(#[trigger] rest[i])
            == rest[i] by {
            assert(rest[i] == ls[i + 1]);
        }
        assert(rest.last() == ls.last());
        lemma_lines_of_join(rest);
        assert(spec_lines(s) =~= ls);
    }
}

/// For every non-empty sequence of lines — none holding a line feed, none
/// but the last ending in a carriage return, the last one non-empty —
/// parsing their newline-joined text succeeds, takes the first line as the
/// password, and flattens the remaining lines, each suffixed with the
/// delimiter and in their original order, into the additional field.
pub proof fn lemma_parse_of_joined_lines(ls: Seq<Seq<char>>, d: Seq<char>)
    requires
        ls.len() > 0,
        forall|i: int| 0 <= i < ls.len() ==> !(#[trigger] ls[i]).contains('\n'),
        forall|i: int| 0 <= i < ls.len() - 1 ==> strip_trailing_cr(#[trigger] ls[i]) == ls[i],
        ls.last().len() > 0,
    ensures
        spec_lines(join_newline(ls)).len() > 0,
        spec_password(join_newline(ls)) == ls[0],
        spec_additional(join_newline(ls), d) == flatten_delim(ls.drop_first(), d),
{
    lemma_lines_of_join(ls);
}

/// The number of line feed bytes in `s`: the number of physical lines the
/// bytes span, counting by terminators.
pub open spec fn count_lf(s: Seq<u8>) -> int
    decreases s.len(),
{
    if s.len() == 0 {
        0
    } else {
        (if s[0] == 10u8 {
            1int
        } else {
            0int
        }) + count_lf(s.drop_first())
    }
}

proof fn lemma_count_lf_concat(a: Seq<u8>, b: Seq<u8>)
    ensures
        count_lf(a + b) == count_lf(a) + count_lf(b),
    decreases a.len(),
{
    if a.len() == 0 {
        assert(a + b =~= b);
    } else {
        assert((a + b).drop_first() =~= a.drop_first() + b);
        assert((a + b)[0] == a[0]);
        lemma_count_lf_concat(a.drop_first(), b);
    }
}

proof fn lemma_count_lf_none(s: Seq<u8>)
    requires
        forall|k: int| 0 <= k < s.len() ==> s[k] != 10u8,
    ensures
        count_lf(s) == 0,
    decreases s.len(),
{
    if s.len() > 0 {
        assert forall|k: int| 0 <= k < s.drop_first().len() implies s.drop_first()[k] != 10u8 by {
            assert(s.drop_first()[k] == s[k + 1]);
        }
        lemma_count_lf_none(s.drop_first());
    }
}

proof fn lemma_count_lf_single(b: u8)
    ensures
        count_lf(seq![b]) == if b == 10u8 {
            1int
        } else {
            0int
        },
{
    assert(seq![b][0] == b);
    assert(seq![b].drop_first() =~= Seq::<u8>::empty());
    assert(count_lf(Seq::<u8>::empty()) == 0);
}

proof fn lemma_count_lf_doubled(f: Seq<u8>)
    ensures
        count_lf(crate::csvout::csv_doubled(f)) == count_lf(f),
    decreases f.len(),
{
    if f.len() > 0 {
        lemma_count_lf_doubled(f.drop_first());
        let head: Seq<u8> = if f[0] == 34u8 {
            seq![34u8, 34u8]
        } else {
            seq![f[0]]
        };
        lemma_count_lf_concat(head, crate::csvout::csv_doubled(f.drop_first()));
        if f[0] == 34u8 {
            assert(head.drop_first() =~= seq![34u8]);
            lemma_count_lf_single(34u8);
        } else {
            lemma_count_lf_single(f[0]);
        }
    }
}

proof fn lemma_count_lf_field(f: Seq<u8>)
    ensures
        count_lf(crate::csvout::csv_field(f)) == count_lf(f),
{
    if crate::csvout::csv_needs_quotes(f) {
        let d = crate::csvout::csv_doubled(f);
        lemma_count_lf_doubled(f);
        lemma_count_lf_single(34u8);
        lemma_count_lf_concat(seq![34u8], d);
        lemma_count_lf_concat(seq![34u8] + d, seq![34u8]);
    }
}

/// One encoded record of three line-feed-free fields holds exactly one
/// line feed: its terminator.
pub proof fn lemma_row_single_lf(a: Seq<u8>, b: Seq<u8>, c: Seq<u8>)
    requires
        count_lf(a) == 0,
        count_lf(b) == 0,
        count_lf(c) == 0,
    ensures
        count_lf(crate::csvout::csv_row(a, b, c)) == 1,
{
    let fa = crate::csvout::csv_field(a);
    let fb = crate::csvout::csv_field(b);
    let fc = crate::csvout::csv_field(c);
    lemma_count_lf_field(a);
    lemma_count_lf_field(b);
    lemma_count_lf_field(c);
    lemma_count_lf_single(44u8);
    lemma_count_lf_single(10u8);
    lemma_count_lf_concat(fa, seq![44u8]);
    lemma_count_lf_concat(fa + seq![44u8], fb);
    lemma_count_lf_concat(fa + seq![44u8] + fb, seq![44u8]);
    lemma_count_lf_concat(fa + seq![44u8] + fb + seq![44u8], fc);
    lemma_count_lf_concat(fa + seq![44u8] + fb + seq![44u8] + fc, seq![10u8]);
}

proof fn lemma_encode_scalar_no_ascii(v: u32, b: u8)
    requires
        vstd::utf8::is_scalar(v),
        b < 0x80,
        v != b as u32,
    ensures
        forall|k: int|
            0 <= k < vstd::utf8::encode_scalar(v).len() ==> vstd::utf8::encode_scalar(v)[k] != b,
{
    let e = vstd::utf8::encode_scalar(v);
    if vstd::utf8::has_width_1_encoding(v) {
        assert(e[0] == (v & 0x7F) as u8);
        assert(v <= 0x7F && b < 0x80 && v != b as u32 ==> (v & 0x7F) as u8 != b) by (bit_vector);
    } else {
        assert(0xC0u8 | (((v >> 6) & 0x1F) as u8) >= 0x80) by (bit_vector);
        assert(0xE0u8 | (((v >> 12) & 0x0F) as u8) >= 0x80) by (bit_vector);
        assert(0xF0u8 | (((v >> 18) & 0x7) as u8) >= 0x80) by (bit_vector);
        assert(0x80u8 | ((v & 0x3F) as u8) >= 0x80) by (bit_vector);
        assert(0x80u8 | (((v >> 6) & 0x3F) as u8) >= 0x80) by (bit_vector);
        assert(0x80u8 | (((v >> 12) & 0x3F) as u8) >= 0x80) by (bit_vector);
    }
}

proof fn lemma_encode_no_ascii(s: Seq<char>, b: u8)
    requires
        b < 0x80,
        forall|i: int| 0 <= i < s.len() ==> (#[trigger] s[i]) as u32 != b as u32,
    ensures
        forall|k: int|
            0 <= k < vstd::utf8::encode_utf8(s).len() ==> vstd::utf8::encode_utf8(s)[k] != b,
    decreases s.len(),
{
    if s.len() > 0 {
        let first = vstd::utf8::encode_scalar(s[0] as u32);
        let rest = vstd::utf8::encode_utf8(s.drop_first());
        vstd::utf8::char_is_scalar(s[0]);
        lemma_encode_scalar_no_ascii(s[0] as u32, b);
        assert forall|i: int| 0 <= i < s.drop_first().len() implies (#[trigger] s.drop_first()[i])
            as u32 != b as u32 by {
            assert(s.drop_first()[i] == s[i + 1]);
        }
        lemma_encode_no_ascii(s.drop_first(), b);
        assert forall|k: int|
            0 <= k < vstd::utf8::encode_utf8(s).len() implies vstd::utf8::encode_utf8(s)[k]
            != b by {
            assert(vstd::utf8::encode_utf8(s) == first + rest);
            if k < first.len() {
                assert((first + rest)[k] == first[k]);
            } else {
                assert((first + rest)[k] == rest[k - first.len()]);
            }
        }
    }
}

/// A character sequence without `c` encodes, under UTF-8, to bytes without
/// the code of `c`, for any character of the ASCII range.
proof fn lemma_encode_no_char(s: Seq<char>, c: char)
    requires
        (c as u32) < 0x80,
        !s.contains(c),
    ensures
        forall|k: int|
            0 <= k < vstd::utf8::encode_utf8(s).len() ==> vstd::utf8::encode_utf8(s)[k] != (
            c as u32) as u8,
{
    let u = c as u32;
    let b = u as u8;
    assert(b as u32 == u) by (bit_vector)
        requires
            u < 0x80u32,
            b == u as u8,
    ;
    assert forall|i: int| 0 <= i < s.len() implies (#[trigger] s[i]) as u32 != b as u32 by {
        if s[i] as u32 == b as u32 {
            vstd::utf8::char_u32_cast(s[i], s[i] as u32);
            vstd::utf8::char_u32_cast(c, c as u32);
            assert(s[i] == c);
            assert(s.contains(c));
        }
    }
    lemma_encode_no_ascii(s, b);
}

/// No line that `spec_lines` yields holds a line feed.
pub proof fn lemma_lines_lf_free(s: Seq<char>)
    ensures
        forall|i: int| 0 <= i < spec_lines(s).len() ==> !(#[trigger] spec_lines(s)[i]).contains(
            '\n',
        ),
    decreases s.len(),
{
    if s.len() > 0 {
        lemma_first_newline_bounds(s);
        let fnl = first_newline(s);
        if 0 <= fnl < s.len() {
            let seg = s.subrange(0, fnl);
            let line = strip_trailing_cr(seg);
            assert forall|k: int| 0 <= k < line.len() implies line[k] != '\n' by {
                assert(line[k] == s[k]);
            }
            if line.contains('\n') {
                let k = choose|k: int| 0 <= k < line.len() && line[k] == '\n';
                assert(false);
            }
            let rest = s.subrange(fnl + 1, s.len() as int);
            lemma_lines_lf_free(rest);
            assert forall|i: int|
                0 <= i < spec_lines(s).len() implies !(#[trigger] spec_lines(s)[i]).contains(
                '\n',
            ) by {
                if i > 0 {
                    assert(spec_lines(s)[i] == spec_lines(rest)[i - 1]);
                }
            }
        } else {
            assert forall|k: int| 0 <= k < s.len() implies s[k] != '\n' by {}
            if s.contains('\n') {
                let k = choose|k: int| 0 <= k < s.len() && s[k] == '\n';
                assert(false);
            }
        }
    }
}

/// Flattening lines free of `c` with a delimiter free of `c` yields a
/// sequence free of `c`.
proof fn lemma_flatten_no_char(ls: Seq<Seq<char>>, d: Seq<char>, c: char)
    requires
        forall|i: int| 0 <= i < ls.len() ==> !(#[trigger] ls[i]).contains(c),
        !d.contains(c),
    ensures
        !flatten_delim(ls, d).contains(c),
    decreases ls.len(),
{
    if ls.len() > 0 {
        let rest = ls.drop_first();
        assert forall|i: int| 0 <= i < rest.len() implies !(#[trigger] rest[i]).contains(c) by {
            assert(rest[i] == ls[i + 1]);
        }
        lemma_flatten_no_char(rest, d, c);
        let f = flatten_delim(ls, d);
        assert(f == ls[0] + d + flatten_delim(rest, d));
        if f.contains(c) {
            let k = choose|k: int| 0 <= k < f.len() && f[k] == c;
            if k < ls[0].len() {
                assert(f[k] == ls[0][k]);
                assert(ls[0].contains(c));
            } else if k < ls[0].len() + d.len() {
                assert(f[k] == d[k - ls[0].len()]);
                assert(d.contains(c));
            } else {
                assert(f[k] == flatten_delim(rest, d)[k - ls[0].len() - d.len()]);
                assert(flatten_delim(rest, d).contains(c));
            }
        }
    }
}

/// Exporting `n` entries yields a table of exactly `n + 1` lines — the
/// header and one row per entry — whenever every outcome parses and
/// neither the delimiter nor any path holds a line feed.
pub proof fn lemma_document_line_count(
    outs: Seq<crate::pipeline::DecryptOutcome>,
    paths: Seq<Seq<char>>,
    d: Seq<char>,
    n: int,
)
    requires
        0 <= n,
        !d.contains('\n'),
        forall|k: int| 0 <= k < n ==> !(#[trigger] paths[k]).contains('\n'),
        forall|k: int|
            0 <= k < n ==> spec_lines(
                crate::pipeline::loaded_content((#[trigger] outs[k]).stdout@),
            ).len() > 0,
    ensures
        count_lf(crate::pipeline::document_bytes(outs, paths, d, n)) == n + 1,
    decreases n,
{
    if n == 0 {
        proof_header_single_lf();
    } else {
        lemma_document_line_count(outs, paths, d, n - 1);
        let lc = crate::pipeline::loaded_content(outs[n - 1].stdout@);
        lemma_lines_lf_free(lc);
        let pw = spec_password(lc);
        let lines_rest = spec_lines(lc).drop_first();
        assert(!pw.contains('\n')) by {
            assert(pw == spec_lines(lc)[0]);
        }
        assert forall|i: int|
            0 <= i < lines_rest.len() implies !(#[trigger] lines_rest[i]).contains('\n') by {
            assert(lines_rest[i] == spec_lines(lc)[i + 1]);
        }
        lemma_flatten_no_char(lines_rest, d, '\n');
        lemma_encode_no_char(pw, '\n');
        lemma_encode_no_char(spec_additional(lc, d), '\n');
        lemma_encode_no_char(paths[n - 1], '\n');
        assert(('\n' as u32) as u8 == 10u8);
        lemma_count_lf_none(vstd::utf8::encode_utf8(pw));
        lemma_count_lf_none(vstd::utf8::encode_utf8(spec_additional(lc, d)));
        lemma_count_lf_none(vstd::utf8::encode_utf8(paths[n - 1]));
        lemma_row_single_lf(
            vstd::utf8::encode_utf8(pw),
            vstd::utf8::encode_utf8(spec_additional(lc, d)),
            vstd::utf8::encode_utf8(paths[n - 1]),
        );
        lemma_count_lf_concat(
            crate::pipeline::document_bytes(outs, paths, d, n - 1),
            crate::pipeline::spec_row(outs[n - 1].stdout@, paths[n - 1], d),
        );
    }
}

/// The header row spans exactly one line.
proof fn proof_header_single_lf()
    ensures
        count_lf(crate::pipeline::header_bytes()) == 1,
{
    reveal_strlit("password");
    reveal_strlit("additional");
    reveal_strlit("file_path");
    lemma_encode_no_char("password"@, '\n');
    lemma_encode_no_char("additional"@, '\n');
    lemma_encode_no_char("file_path"@, '\n');
    lemma_count_lf_none(vstd::utf8::encode_utf8("password"@));
    lemma_count_lf_none(vstd::utf8::encode_utf8("additional"@));
    lemma_count_lf_none(vstd::utf8::encode_utf8("file_path"@));
    lemma_row_single_lf(
        vstd::utf8::encode_utf8("password"@),
        vstd::utf8::encode_utf8("additional"@),
        vstd::utf8::encode_utf8("file_path"@),
    );
}

/// The rows of the first `n` outcomes, in the order their paths were
/// discovered, with no header.
pub open spec fn rows_concat(
    outs: Seq<crate::pipeline::DecryptOutcome>,
    paths: Seq<Seq<char>>,
    d: Seq<char>,
    n: int,
) -> Seq<u8>
    decreases n,
{
    if n <= 0 {
        Seq::empty()
    } else {
        rows_concat(outs, paths, d, n - 1) + crate::pipeline::spec_row(
            outs[n - 1].stdout@,
            paths[n - 1],
            d,
        )
    }
}

/// Row order equals discovery order: the export is the header row followed
/// by one row per path, in exactly the order the paths were given.
pub proof fn lemma_document_ordered(
    outs: Seq<crate::pipeline::DecryptOutcome>,
    paths: Seq<Seq<char>>,
    d: Seq<char>,
    n: int,
)
    requires
        0 <= n,
    ensures
        crate::pipeline::document_bytes(outs, paths, d, n) == crate::pipeline::header_bytes()
            + rows_concat(outs, paths, d, n),
    decreases n,
{
    if n == 0 {
        assert(crate::pipeline::header_bytes() + Seq::<u8>::empty()
            =~= crate::pipeline::header_bytes());
    } else {
        lemma_document_ordered(outs, paths, d, n - 1);
        assert(crate::pipeline::header_bytes() + rows_concat(outs, paths, d, n - 1)
            + crate::pipeline::spec_row(outs[n - 1].stdout@, paths[n - 1], d)
            =~= crate::pipeline::header_bytes() + rows_concat(outs, paths, d, n));
    }
}

/// How a standard CSV reader takes one quoted field, entered after the
/// opening quote: bytes up to the closing quote, doubled quotes collapsed.
/// Yields the field data and what follows the closing quote.
pub open spec fn parse_quoted(s: Seq<u8>) -> Option<(Seq<u8>, Seq<u8>)>
    decreases s.len(),
{
    if s.len() == 0 {
        None
    } else if s[0] == 34u8 {
        if s.len() >= 2 && s[1] == 34u8 {
            match parse_quoted(s.skip(2)) {
                Some(p) => Some((seq![34u8] + p.0, p.1)),
                None => None,
            }
        } else {
            Some((Seq::empty(), s.drop_first()))
        }
    } else {
        match parse_quoted(s.drop_first()) {
            Some(p) => Some((seq![s[0]] + p.0, p.1)),
            None => None,
        }
    }
}

/// How a standard CSV reader takes one unquoted field: bytes up to the
/// next comma or line feed, which stays in the remainder.
pub open spec fn parse_unquoted(s: Seq<u8>) -> (Seq<u8>, Seq<u8>)
    decreases s.len(),
{
    if s.len() == 0 {
        (Seq::empty(), Seq::empty())
    } else if s[0] == 44u8 || s[0] == 10u8 {
        (Seq::empty(), s)
    } else {
        let p = parse_unquoted(s.drop_first());
        (seq![s[0]] + p.0, p.1)
    }
}

/// How a standard CSV reader takes one field, quoted or not.
pub open spec fn parse_field(s: Seq<u8>) -> Option<(Seq<u8>, Seq<u8>)> {
    if s.len() > 0 && s[0] == 34u8 {
        parse_quoted(s.drop_first())
    } else {
        Some(parse_unquoted(s))
    }
}

/// How a standard CSV reader takes one record of this export's schema:
/// three fields separated by commas and closed by a line feed. Yields the
/// three fields and what follows the line feed.
pub open spec fn parse_record(s: Seq<u8>) -> Option<(Seq<Seq<u8>>, Seq<u8>)> {
    match parse_field(s) {
        None => None,
        Some(pa) => if pa.1.len() > 0 && pa.1[0] == 44u8 {
            match parse_field(pa.1.drop_first()) {
                None => None,
                Some(pb) => if pb.1.len() > 0 && pb.1[0] == 44u8 {
                    match parse_field(pb.1.drop_first()) {
                        None => None,
                        Some(pc) => if pc.1.len() > 0 && pc.1[0] == 10u8 {
                            Some((seq![pa.0, pb.0, pc.0], pc.1.drop_first()))
                        } else {
                            None
                        },
                    }
                } else {
                    None
                },
            }
        } else {
            None
        },
    }
}

proof fn lemma_parse_quoted_doubled(f: Seq<u8>, rest: Seq<u8>)
    requires
        rest.len() > 0,
        rest[0] != 34u8,
    ensures
        parse_quoted(crate::csvout::csv_doubled(f) + seq![34u8] + rest) == Some((f, rest)),
    decreases f.len(),
{
    let s = crate::csvout::csv_doubled(f) + seq![34u8] + rest;
    if f.len() == 0 {
        assert(s =~= seq![34u8] + rest);
        assert(s[0] == 34u8);
        if s.len() >= 2 && s[1] == 34u8 {
            assert(rest[0] == 34u8);
        }
        assert(s.drop_first() =~= rest);
    } else {
        lemma_parse_quoted_doubled(f.drop_first(), rest);
        let tail = crate::csvout::csv_doubled(f.drop_first()) + seq![34u8] + rest;
        if f[0] == 34u8 {
            assert(s =~= seq![34u8, 34u8] + tail);
            assert(s[0] == 34u8 && s.len() >= 2 && s[1] == 34u8);
            assert(s.skip(2) =~= tail);
            assert(seq![34u8] + f.drop_first() =~= f);
        } else {
            assert(s =~= seq![f[0]] + tail);
            assert(s[0] == f[0]);
            assert(s.drop_first() =~= tail);
            assert(seq![f[0]] + f.drop_first() =~= f);
        }
    }
}

proof fn lemma_parse_unquoted_plain(f: Seq<u8>, rest: Seq<u8>)
    requires
        forall|k: int| 0 <= k < f.len() ==> f[k] != 44u8 && f[k] != 10u8,
        rest.len() > 0 ==> rest[0] == 44u8 || rest[0] == 10u8,
    ensures
        parse_unquoted(f + rest) == (f, rest),
    decreases f.len(),
{
    let s = f + rest;
    if f.len() == 0 {
        assert(s =~= rest);
        if rest.len() == 0 {
            assert(parse_unquoted(s) == (Seq::<u8>::empty(), Seq::<u8>::empty()));
            assert(f =~= Seq::<u8>::empty());
        }
    } else {
        assert forall|k: int|
            0 <= k < f.drop_first().len() implies f.drop_first()[k] != 44u8 && f.drop_first()[k]
            != 10u8 by {
            assert(f.drop_first()[k] == f[k + 1]);
        }
        lemma_parse_unquoted_plain(f.drop_first(), rest);
        assert(s[0] == f[0]);
        assert(s.drop_first() =~= f.drop_first() + rest);
        assert(seq![f[0]] + f.drop_first() =~= f);
    }
}

proof fn lemma_parse_field_encoded(f: Seq<u8>, rest: Seq<u8>)
    requires
        rest.len() > 0,
        rest[0] == 44u8 || rest[0] == 10u8,
    ensures
        parse_field(crate::csvout::csv_field(f) + rest) == Some((f, rest)),
{
    let enc = crate::csvout::csv_field(f);
    let s = enc + rest;
    if crate::csvout::csv_needs_quotes(f) {
        let d = crate::csvout::csv_doubled(f);
        assert(s =~= seq![34u8] + (d + seq![34u8] + rest));
        assert(s[0] == 34u8);
        assert(s.drop_first() =~= d + seq![34u8] + rest);
        lemma_parse_quoted_doubled(f, rest);
    } else {
        assert forall|k: int| 0 <= k < f.len() implies f[k] != 44u8 && f[k] != 10u8 by {
            if f[k] == 44u8 || f[k] == 10u8 {
                assert(crate::csvout::csv_special(f[k]));
                assert(crate::csvout::csv_needs_quotes(f));
            }
        }
        if s.len() > 0 && s[0] == 34u8 {
            if f.len() > 0 {
                assert(f[0] == 34u8);
                assert(crate::csvout::csv_special(f[0]));
                assert(crate::csvout::csv_needs_quotes(f));
            } else {
                assert(s =~= rest);
            }
            assert(false);
        }
        lemma_parse_unquoted_plain(f, rest);
        assert(s =~= f + rest);
    }
}

/// Round trip of one record: a standard CSV reader, fed the encoded record
/// and whatever follows it, recovers the three fields unchanged and stops
/// exactly after the record's line feed.
pub proof fn lemma_record_roundtrip(a: Seq<u8>, b: Seq<u8>, c: Seq<u8>, rest: Seq<u8>)
    ensures
        parse_record(crate::csvout::csv_row(a, b, c) + rest) == Some((seq![a, b, c], rest)),
{
    let fa = crate::csvout::csv_field(a);
    let fb = crate::csvout::csv_field(b);
    let fc = crate::csvout::csv_field(c);
    let s = crate::csvout::csv_row(a, b, c) + rest;
    let r1 = seq![44u8] + fb + seq![44u8] + fc + seq![10u8] + rest;
    let r2 = seq![44u8] + fc + seq![10u8] + rest;
    let r3 = seq![10u8] + rest;
    assert(s =~= fa + r1);
    assert(r1[0] == 44u8);
    lemma_parse_field_encoded(a, r1);
    assert(r1.drop_first() =~= fb + r2);
    assert(r2[0] == 44u8);
    lemma_parse_field_encoded(b, r2);
    assert(r2.drop_first() =~= fc + r3);
    assert(r3[0] == 10u8);
    lemma_parse_field_encoded(c, r3);
    assert(r3.drop_first() =~= rest);
}

/// The rows of outcomes `i..n`, in discovery order, front first.
pub open spec fn rows_from(
    outs: Seq<crate::pipeline::DecryptOutcome>,
    paths: Seq<Seq<char>>,
    d: Seq<char>,
    i: int,
    n: int,
) -> Seq<u8>
    decreases n - i,
{
    if i >= n {
        Seq::empty()
    } else {
        crate::pipeline::spec_row(outs[i].stdout@, paths[i], d) + rows_from(
            outs,
            paths,
            d,
            i + 1,
            n,
        )
    }
}

proof fn lemma_rows_from_snoc(
    outs: Seq<crate::pipeline::DecryptOutcome>,
    paths: Seq<Seq<char>>,
    d: Seq<char>,
    i: int,
    n: int,
)
    requires
        0 <= i <= n - 1,
    ensures
        rows_from(outs, paths, d, i, n) == rows_from(outs, paths, d, i, n - 1)
            + crate::pipeline::spec_row(outs[n - 1].stdout@, paths[n - 1], d),
    decreases n - i,
{
    let last = crate::pipeline::spec_row(outs[n - 1].stdout@, paths[n - 1], d);
    if i == n - 1 {
        assert(rows_from(outs, paths, d, n, n) == Seq::<u8>::empty());
        assert(rows_from(outs, paths, d, i, n) == last + Seq::<u8>::empty());
        assert(last + Seq::<u8>::empty() =~= last);
        assert(rows_from(outs, paths, d, i, n - 1) == Seq::<u8>::empty());
        assert(Seq::<u8>::empty() + last =~= last);
    } else {
        lemma_rows_from_snoc(outs, paths, d, i + 1, n);
        let head = crate::pipeline::spec_row(outs[i].stdout@, paths[i], d);
        assert(head + (rows_from(outs, paths, d, i + 1, n - 1) + last) =~= (head + rows_from(
            outs,
            paths,
            d,
            i + 1,
            n - 1,
        )) + last);
    }
}

proof fn lemma_rows_concat_is_rows_from(
    outs: Seq<crate::pipeline::DecryptOutcome>,
    paths: Seq<Seq<char>>,
    d: Seq<char>,
    n: int,
)
    requires
        0 <= n,
    ensures
        rows_concat(outs, paths, d, n) == rows_from(outs, paths, d, 0, n),
    decreases n,
{
    if n > 0 {
        lemma_rows_concat_is_rows_from(outs, paths, d, n - 1);
        lemma_rows_from_snoc(outs, paths, d, 0, n);
    } else {
        assert(rows_concat(outs, paths, d, 0) =~= rows_from(outs, paths, d, 0, 0));
    }
}

/// A standard CSV reader taking `m` records one after another.
pub open spec fn parse_records(s: Seq<u8>, m: int) -> Option<(Seq<Seq<Seq<u8>>>, Seq<u8>)>
    decreases m,
{
    if m <= 0 {
        Some((Seq::empty(), s))
    } else {
        match parse_record(s) {
            None => None,
            Some(p) => match parse_records(p.1, m - 1) {
                None => None,
                Some(q) => Some((seq![p.0] + q.0, q.1)),
            },
        }
    }
}

/// The three encoded fields of the row of outcome `k`.
pub open spec fn record_fields(
    outs: Seq<crate::pipeline::DecryptOutcome>,
    paths: Seq<Seq<char>>,
    d: Seq<char>,
    k: int,
) -> Seq<Seq<u8>> {
    let lc = crate::pipeline::loaded_content(outs[k].stdout@);
    seq![
        vstd::utf8::encode_utf8(spec_password(lc)),
        vstd::utf8::encode_utf8(spec_additional(lc, d)),
        vstd::utf8::encode_utf8(paths[k]),
    ]
}

proof fn lemma_parse_rows_from(
    outs: Seq<crate::pipeline::DecryptOutcome>,
    paths: Seq<Seq<char>>,
    d: Seq<char>,
    i: int,
    n: int,
)
    requires
        0 <= i <= n,
    ensures
        parse_records(rows_from(outs, paths, d, i, n), n - i) matches Some(q) && q.1
            == Seq::<u8>::empty() && q.0.len() == n - i && (forall|j: int|
            0 <= j < n - i ==> q.0[j] == record_fields(outs, paths, d, i + j)),
    decreases n - i,
{
    if i == n {
        assert(rows_from(outs, paths, d, n, n) == Seq::<u8>::empty());
    } else {
        lemma_parse_rows_from(outs, paths, d, i + 1, n);
        let fields = record_fields(outs, paths, d, i);
        let tail = rows_from(outs, paths, d, i + 1, n);
        assert(crate::pipeline::spec_row(outs[i].stdout@, paths[i], d)
            == crate::csvout::csv_row(fields[0], fields[1], fields[2]));
        lemma_record_roundtrip(fields[0], fields[1], fields[2], tail);
        assert(seq![fields[0], fields[1], fields[2]] =~= fields);
        let q_tail = parse_records(tail, n - i - 1).unwrap();
        assert forall|j: int|
            0 <= j < n - i implies (seq![fields] + q_tail.0)[j] == record_fields(
            outs,
            paths,
            d,
            i + j,
        ) by {
            if j > 0 {
                assert((seq![fields] + q_tail.0)[j] == q_tail.0[j - 1]);
            }
        }
    }
}

/// Round trip of the whole export: a standard CSV reader, fed the bytes of
/// an export of `n` entries, takes exactly `n + 1` records with nothing
/// left over — first the fixed header, then, for each entry in discovery
/// order, a record whose decoded fields are exactly the entry's password,
/// its additional field and its path.
pub proof fn lemma_export_roundtrip(
    outs: Seq<crate::pipeline::DecryptOutcome>,
    paths: Seq<Seq<char>>,
    d: Seq<char>,
    n: int,
)
    requires
        0 <= n,
    ensures
        parse_records(crate::pipeline::document_bytes(outs, paths, d, n), n + 1) matches Some(q)
            && q.1 == Seq::<u8>::empty() && q.0.len() == n + 1 && q.0[0] == seq![
            vstd::utf8::encode_utf8("password"@),
            vstd::utf8::encode_utf8("additional"@),
            vstd::utf8::encode_utf8("file_path"@),
        ] && (forall|k: int|
            0 <= k < n ==> #[trigger] q.0[k + 1] == record_fields(outs, paths, d, k)),
        forall|k: int|
            0 <= k < n ==> {
                let lc = crate::pipeline::loaded_content((#[trigger] outs[k]).stdout@);
                vstd::utf8::decode_utf8(record_fields(outs, paths, d, k)[0]) == spec_password(lc)
                    && vstd::utf8::decode_utf8(record_fields(outs, paths, d, k)[1])
                    == spec_additional(lc, d) && vstd::utf8::decode_utf8(
                    record_fields(outs, paths, d, k)[2],
                ) == paths[k]
            },
{
    let doc = crate::pipeline::document_bytes(outs, paths, d, n);
    let rows = rows_from(outs, paths, d, 0, n);
    lemma_document_ordered(outs, paths, d, n);
    lemma_rows_concat_is_rows_from(outs, paths, d, n);
    let ha = vstd::utf8::encode_utf8("password"@);
    let hb = vstd::utf8::encode_utf8("additional"@);
    let hc = vstd::utf8::encode_utf8("file_path"@);
    assert(crate::pipeline::header_bytes() == crate::csvout::csv_row(ha, hb, hc));
    lemma_record_roundtrip(ha, hb, hc, rows);
    lemma_parse_rows_from(outs, paths, d, 0, n);
    let q_rows = parse_records(rows, n).unwrap();
    let header_rec = seq![ha, hb, hc];
    let all = seq![header_rec] + q_rows.0;
    assert forall|k: int| 0 <= k < n implies #[trigger] all[k + 1] == record_fields(
        outs,
        paths,
        d,
        k,
    ) by {
        assert(all[k + 1] == q_rows.0[k]);
    }
    assert forall|k: int| 0 <= k < n implies {
        let lc = crate::pipeline::loaded_content((#[trigger] outs[k]).stdout@);
        vstd::utf8::decode_utf8(record_fields(outs, paths, d, k)[0]) == spec_password(lc)
            && vstd::utf8::decode_utf8(record_fields(outs, paths, d, k)[1]) == spec_additional(
            lc,
            d,
        ) && vstd::utf8::decode_utf8(record_fields(outs, paths, d, k)[2]) == paths[k]
    } by {
        let lc = crate::pipeline::loaded_content(outs[k].stdout@);
        vstd::utf8::encode_utf8_decode_utf8(spec_password(lc));
        vstd::utf8::encode_utf8_decode_utf8(spec_additional(lc, d));
        vstd::utf8::encode_utf8_decode_utf8(paths[k]);
    }
}

} // verus!
