//! Line splitting over character sequences, modelling `str::lines`.

use vstd::prelude::*;

verus! {

/// Index of the first line feed in `s`, or `s.len()` when `s` holds none.
pub open spec fn first_newline(s: Seq<char>) -> int
    decreases s.len(),
{
    if s.len() == 0 {
        0
    } else if s[0] == '\n' {
        0
    } else {
        1 + first_newline(s.drop_first())
    }
}

/// A carriage return directly before a line feed belongs to the line ending,
/// not to the line.
pub open spec fn strip_trailing_cr(s: Seq<char>) -> Seq<char> {
    if s.len() > 0 && s[s.len() - 1] == '\r' {
        s.drop_last()
    } else {
        s
    }
}

/// The lines of `s`, with `str::lines` semantics: lines end at `\n` or
/// `\r\n`, the final line ending is optional, and a lone trailing `\r`
/// stays part of its line.
pub open spec fn spec_lines(s: Seq<char>) -> Seq<Seq<char>>
    decreases s.len(),
{
    if s.len() == 0 {
        Seq::empty()
    } else {
        let i = first_newline(s);
        if 0 <= i < s.len() {
            seq![strip_trailing_cr(s.subrange(0, i))] + spec_lines(
                s.subrange(i + 1, s.len() as int),
            )
        } else {
            seq![s]
        }
    }
}

/// The lines flattened into one field: every line, in order, with the
/// delimiter appended after it (a trailing delimiter, not a separator).
pub open spec fn flatten_delim(ls: Seq<Seq<char>>, d: Seq<char>) -> Seq<char>
    decreases ls.len(),
{
    if ls.len() == 0 {
        Seq::empty()
    } else {
        ls[0] + d + flatten_delim(ls.drop_first(), d)
    }
}

pub proof fn lemma_first_newline_bounds(s: Seq<char>)
    ensures
        0 <= first_newline(s) <= s.len(),
        forall|k: int| 0 <= k < first_newline(s) ==> s[k] != '\n',
        first_newline(s) < s.len() ==> s[first_newline(s)] == '\n',
    decreases s.len(),
{
    if s.len() == 0 {
    } else if s[0] == '\n' {
    } else {
        lemma_first_newline_bounds(s.drop_first());
        assert forall|k: int| 0 <= k < first_newline(s) implies s[k] != '\n' by {
            if k > 0 {
                assert(s.drop_first()[k - 1] == s[k]);
            }
        }
    }
}

/// `first_newline` is the one index whose prefix is free of line feeds and
/// that is either a line feed or the end.
pub proof fn lemma_first_newline_is(s: Seq<char>, i: int)
    requires
        0 <= i <= s.len(),
        forall|k: int| 0 <= k < i ==> s[k] != '\n',
        i < s.len() ==> s[i] == '\n',
    ensures
        first_newline(s) == i,
    decreases s.len(),
{
    if s.len() == 0 {
    } else if s[0] == '\n' {
        assert(i == 0);
    } else {
        assert(i > 0);
        let t = s.drop_first();
        assert forall|k: int| 0 <= k < i - 1 implies t[k] != '\n' by {
            assert(t[k] == s[k + 1]);
        }
        lemma_first_newline_is(t, i - 1);
    }
}

/// Splits `s` into its lines, exactly as `str::lines` enumerates them.
pub fn split_lines(s: &str) -> (r: Vec<String>)
    ensures
        r.deep_view() == spec_lines(s@),
{
    let len = s.unicode_len();
    let mut res: Vec<String> = Vec::new();
    let mut start: usize = 0;
    let mut i: usize = 0;
    proof {
        assert(s@.subrange(0, len as int) =~= s@);
        assert(res.deep_view() + spec_lines(s@) =~= spec_lines(s@));
    }
    while i < len
        invariant
            len == s@.len(),
            start <= i <= len,
            forall|k: int| start <= k < i ==> s@[k] != '\n',
            spec_lines(s@) == res.deep_view() + spec_lines(s@.subrange(start as int, len as int)),
        decreases len - i,
    {
        if s.get_char(i) == '\n' {
            let end: usize = if i > start && s.get_char(i - 1) == '\r' {
                i - 1
            } else {
                i
            };
            let line = s.substring_char(start, end).to_owned();
            proof {
                let t = s@.subrange(start as int, len as int);
                assert forall|k: int| 0 <= k < i - start implies t[k] != '\n' by {
                    assert(t[k] == s@[start + k]);
                }
                lemma_first_newline_is(t, i - start);
                assert(t.subrange(0, i - start) =~= s@.subrange(start as int, i as int));
                assert(strip_trailing_cr(s@.subrange(start as int, i as int)) =~= line@);
                assert(t.subrange(i - start + 1, t.len() as int) =~= s@.subrange(
                    i + 1,
                    len as int,
                ));
            }
            let ghost old_res = res.deep_view();
            res.push(line);
            proof {
                assert(res.deep_view() =~= old_res + seq![line@]);
                assert(spec_lines(s@) =~= res.deep_view() + spec_lines(
                    s@.subrange(i + 1, len as int),
                ));
            }
            start = i + 1;
        }
        i = i + 1;
    }
    if start < len {
        let line = s.substring_char(start, len).to_owned();
        proof {
            let t = s@.subrange(start as int, len as int);
            assert forall|k: int| 0 <= k < t.len() implies t[k] != '\n' by {
                assert(t[k] == s@[start + k]);
            }
            lemma_first_newline_is(t, t.len() as int);
            assert(t =~= line@);
        }
        let ghost old_res = res.deep_view();
        res.push(line);
        proof {
            assert(res.deep_view() =~= old_res + seq![line@]);
            assert(spec_lines(s@) =~= res.deep_view());
        }
    } else {
        proof {
            assert(s@.subrange(start as int, len as int) =~= Seq::<char>::empty());
            assert(spec_lines(s@) =~= res.deep_view());
        }
    }
    res
}

/// The Unicode White_Space property, the set that `str::trim` removes:
/// the ASCII spacing characters and the spacing code points above them.
pub open spec fn char_is_whitespace(c: char) -> bool {
    let u = c as u32;
    (9 <= u && u <= 13) || u == 32 || u == 133 || u == 160 || u == 5760 || (8192 <= u && u
        <= 8202) || u == 8232 || u == 8233 || u == 8239 || u == 8287 || u == 12288
}

/// Whether `c` has the Unicode White_Space property.
pub fn is_whitespace_char(c: char) -> (r: bool)
    ensures
        r == char_is_whitespace(c),
{
    let u = c as u32;
    (9 <= u && u <= 13) || u == 32 || u == 133 || u == 160 || u == 5760 || (8192 <= u && u
        <= 8202) || u == 8232 || u == 8233 || u == 8239 || u == 8287 || u == 12288
}

/// `s` without its leading whitespace.
pub open spec fn trim_start_rec(s: Seq<char>) -> Seq<char>
    decreases s.len(),
{
    if s.len() > 0 && char_is_whitespace(s[0]) {
        trim_start_rec(s.drop_first())
    } else {
        s
    }
}

/// `s` without its trailing whitespace.
pub open spec fn trim_end_rec(s: Seq<char>) -> Seq<char>
    decreases s.len(),
{
    if s.len() > 0 && char_is_whitespace(s[s.len() - 1]) {
        trim_end_rec(s.drop_last())
    } else {
        s
    }
}

/// `s` without surrounding whitespace, as `str::trim` leaves it.
pub open spec fn spec_trim(s: Seq<char>) -> Seq<char> {
    trim_end_rec(trim_start_rec(s))
}

proof fn lemma_trim_start_at(s: Seq<char>, a: int)
    requires
        0 <= a <= s.len(),
        forall|k: int| 0 <= k < a ==> char_is_whitespace(s[k]),
        a < s.len() ==> !char_is_whitespace(s[a]),
    ensures
        trim_start_rec(s) == s.subrange(a, s.len() as int),
    decreases s.len(),
{
    if a == 0 {
        if s.len() > 0 && char_is_whitespace(s[0]) {
            assert(false);
        }
        assert(s.subrange(0, s.len() as int) =~= s);
    } else {
        let t = s.drop_first();
        assert forall|k: int| 0 <= k < a - 1 implies char_is_whitespace(t[k]) by {
            assert(t[k] == s[k + 1]);
        }
        lemma_trim_start_at(t, a - 1);
        assert(t.subrange(a - 1, t.len() as int) =~= s.subrange(a, s.len() as int));
    }
}

proof fn lemma_trim_end_at(t: Seq<char>, b: int)
    requires
        0 <= b <= t.len(),
        forall|k: int| b <= k < t.len() ==> char_is_whitespace(t[k]),
        b > 0 ==> !char_is_whitespace(t[b - 1]),
    ensures
        trim_end_rec(t) == t.subrange(0, b),
    decreases t.len(),
{
    if b == t.len() {
        if t.len() > 0 && char_is_whitespace(t[t.len() - 1]) {
            assert(false);
        }
        assert(t.subrange(0, t.len() as int) =~= t);
    } else {
        assert(char_is_whitespace(t[t.len() - 1]));
        let u = t.drop_last();
        lemma_trim_end_at(u, b);
        assert(u.subrange(0, b) =~= t.subrange(0, b));
    }
}

/// Strips surrounding whitespace, exactly as `str::trim` does.
pub fn trim_spaces<'a>(s: &'a str) -> (r: &'a str)
    ensures
        r@ == spec_trim(s@),
{
    let len = s.unicode_len();
    let mut a: usize = 0;
    while a < len && is_whitespace_char(s.get_char(a))
        invariant
            len == s@.len(),
            a <= len,
            forall|k: int| 0 <= k < a ==> char_is_whitespace(s@[k]),
        decreases len - a,
    {
        a = a + 1;
    }
    let mut b: usize = len;
    while b > a && is_whitespace_char(s.get_char(b - 1))
        invariant
            len == s@.len(),
            a <= b <= len,
            forall|k: int| b <= k < len ==> char_is_whitespace(s@[k]),
        decreases b,
    {
        b = b - 1;
    }
    proof {
        lemma_trim_start_at(s@, a as int);
        let t = s@.subrange(a as int, len as int);
        assert forall|k: int| (b - a) <= k < t.len() implies char_is_whitespace(t[k]) by {
            assert(t[k] == s@[a + k]);
        }
        if b > a {
            assert(t[b - a - 1] == s@[b - 1]);
        }
        lemma_trim_end_at(t, b - a);
        assert(t.subrange(0, b - a) =~= s@.subrange(a as int, b as int));
    }
    s.substring_char(a, b)
}

} // verus!
