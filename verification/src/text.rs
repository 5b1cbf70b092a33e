//! Character-level text primitives: the whitespace predicate, trimming,
//! line splitting (as `str::lines` does it), and character counting.

use vstd::prelude::*;

verus! {

/// The whitespace characters recognized by trimming and character counting:
/// the Unicode `White_Space` set, the same set `char::is_whitespace` uses.
pub open spec fn is_space(c: char) -> bool {
    ||| c == ' '
    ||| c == '\t'
    ||| c == '\n'
    ||| c == '\u{b}'
    ||| c == '\u{c}'
    ||| c == '\r'
    ||| c == '\u{85}'
    ||| c == '\u{a0}'
    ||| c == '\u{1680}'
    ||| (0x2000 <= c as u32 && c as u32 <= 0x200a)
    ||| c == '\u{2028}'
    ||| c == '\u{2029}'
    ||| c == '\u{202f}'
    ||| c == '\u{205f}'
    ||| c == '\u{3000}'
}

pub fn is_space_char(c: char) -> (r: bool)
    ensures
        r == is_space(c),
{
    c == ' ' || c == '\t' || c == '\n' || c == '\u{b}' || c == '\u{c}' || c == '\r'
        || c == '\u{85}' || c == '\u{a0}' || c == '\u{1680}'
        || (0x2000 <= c as u32 && c as u32 <= 0x200a) || c == '\u{2028}' || c == '\u{2029}'
        || c == '\u{202f}' || c == '\u{205f}' || c == '\u{3000}'
}

/// The sequence with its leading whitespace removed.
pub open spec fn trim_start_spec(s: Seq<char>) -> Seq<char>
    decreases s.len(),
{
    if s.len() > 0 && is_space(s[0]) {
        trim_start_spec(s.drop_first())
    } else {
        s
    }
}

/// The sequence with its trailing whitespace removed.
pub open spec fn trim_end_spec(s: Seq<char>) -> Seq<char>
    decreases s.len(),
{
    if s.len() > 0 && is_space(s.last()) {
        trim_end_spec(s.drop_last())
    } else {
        s
    }
}

/// The sequence with whitespace removed from both ends.
pub open spec fn trim_spec(s: Seq<char>) -> Seq<char> {
    trim_end_spec(trim_start_spec(s))
}

/// Trimming a sequence of nothing but whitespace leaves nothing.
pub proof fn lemma_all_space_trims_empty(s: Seq<char>)
    requires
        forall|i: int| 0 <= i < s.len() ==> is_space(s[i]),
    ensures
        trim_spec(s).len() == 0,
    decreases s.len(),
{
    if s.len() > 0 {
        assert(s.drop_first() =~= s.subrange(1, s.len() as int));
        lemma_all_space_trims_empty(s.drop_first());
    }
}

/// Removing trailing whitespace keeps a non-whitespace head in place.
proof fn lemma_trim_end_keeps_head(s: Seq<char>)
    requires
        s.len() > 0,
        !is_space(s[0]),
    ensures
        trim_end_spec(s).len() > 0,
        trim_end_spec(s)[0] == s[0],
    decreases s.len(),
{
    if is_space(s.last()) {
        lemma_trim_end_keeps_head(s.drop_last());
    }
}

/// A sequence trims to nothing only when every character is whitespace.
pub proof fn lemma_trim_empty_all_space(s: Seq<char>)
    requires
        trim_spec(s).len() == 0,
    ensures
        forall|i: int| 0 <= i < s.len() ==> is_space(s[i]),
    decreases s.len(),
{
    if s.len() > 0 {
        if is_space(s[0]) {
            assert(s.drop_first() =~= s.subrange(1, s.len() as int));
            lemma_trim_empty_all_space(s.drop_first());
            assert forall|i: int| 0 <= i < s.len() implies is_space(s[i]) by {
                if i > 0 {
                    assert(s.drop_first()[i - 1] == s[i]);
                }
            }
        } else {
            lemma_trim_end_keeps_head(s);
        }
    }
}

/// Trims a string of its leading and trailing whitespace.
pub fn trim_str(s: &str) -> (r: String)
    ensures
        r@ == trim_spec(s@),
{
    let n = s.unicode_len();
    proof {
        assert(s@.skip(0) =~= s@);
    }
    let mut a: usize = 0;
    while a < n && is_space_char(s.get_char(a))
        invariant
            0 <= a <= n,
            n == s@.len(),
            trim_start_spec(s@.skip(a as int)) == trim_start_spec(s@),
        decreases n - a,
    {
        proof {
            assert(s@.skip(a as int)[0] == s@[a as int]);
            assert(s@.skip(a as int).drop_first() =~= s@.skip(a as int + 1));
        }
        a += 1;
    }
    proof {
        assert(trim_start_spec(s@) == s@.skip(a as int));
    }
    let mut b: usize = n;
    while b > a && is_space_char(s.get_char(b - 1))
        invariant
            a <= b <= n,
            n == s@.len(),
            trim_start_spec(s@) == s@.skip(a as int),
            trim_end_spec(s@.subrange(a as int, b as int)) == trim_spec(s@),
        decreases b,
    {
        proof {
            let part = s@.subrange(a as int, b as int);
            assert(part.last() == s@[b - 1]);
            assert(part.drop_last() =~= s@.subrange(a as int, b as int - 1));
        }
        b -= 1;
    }
    proof {
        let part = s@.subrange(a as int, b as int);
        if b > a {
            assert(part.last() == s@[b - 1]);
        }
        assert(trim_end_spec(part) == part);
    }
    let out = s.substring_char(a, b);
    String::from_str(out)
}

/// Counts the characters of a sequence that are not whitespace.
pub open spec fn nonspace_count(s: Seq<char>) -> int
    decreases s.len(),
{
    if s.len() == 0 {
        0
    } else {
        nonspace_count(s.drop_last()) + if is_space(s.last()) {
            0int
        } else {
            1int
        }
    }
}

/// Counts the non-whitespace characters of a string.
pub fn count_nonspace(s: &str) -> (r: usize)
    ensures
        r == nonspace_count(s@),
{
    let n = s.unicode_len();
    let mut i: usize = 0;
    let mut r: usize = 0;
    while i < n
        invariant
            0 <= i <= n,
            n == s@.len(),
            r <= i,
            r == nonspace_count(s@.take(i as int)),
        decreases n - i,
    {
        proof {
            let t = s@.take(i as int + 1);
            assert(t.drop_last() =~= s@.take(i as int));
            assert(t.last() == s@[i as int]);
        }
        if !is_space_char(s.get_char(i)) {
            r += 1;
        }
        i += 1;
    }
    proof {
        assert(s@.take(n as int) =~= s@);
    }
    r
}

/// Whether two strings hold the same characters.
pub fn str_eq(a: &str, b: &str) -> (r: bool)
    ensures
        r == (a@ == b@),
{
    let na = a.unicode_len();
    let nb = b.unicode_len();
    if na != nb {
        return false;
    }
    let mut i: usize = 0;
    while i < na
        invariant
            0 <= i <= na,
            na == a@.len(),
            na == b@.len(),
            forall|j: int| 0 <= j < i ==> a@[j] == b@[j],
        decreases na - i,
    {
        if a.get_char(i) != b.get_char(i) {
            return false;
        }
        i += 1;
    }
    proof {
        assert(a@ =~= b@);
    }
    true
}

/// The index of the first newline of a sequence, or its length if it has none.
pub open spec fn first_nl(s: Seq<char>) -> nat
    decreases s.len(),
{
    if s.len() == 0 {
        0
    } else if s[0] == '\n' {
        0
    } else {
        1 + first_nl(s.drop_first())
    }
}

pub proof fn lemma_first_nl_at(s: Seq<char>, k: int)
    requires
        0 <= k <= s.len(),
        forall|j: int| 0 <= j < k ==> s[j] != '\n',
        k < s.len() ==> s[k] == '\n',
    ensures
        first_nl(s) == k,
    decreases s.len(),
{
    if k > 0 {
        assert forall|j: int| 0 <= j < k - 1 implies s.drop_first()[j] != '\n' by {
            assert(s.drop_first()[j] == s[j + 1]);
        }
        lemma_first_nl_at(s.drop_first(), k - 1);
    }
}

/// A line with its trailing carriage return removed, if it has one.
pub open spec fn strip_cr(l: Seq<char>) -> Seq<char> {
    if l.len() > 0 && l.last() == '\r' {
        l.drop_last()
    } else {
        l
    }
}

/// The lines of a text, split as `str::lines` splits them: at each newline,
/// with a carriage return before the newline dropped, and with no empty
/// final line when the text ends in a newline.
pub open spec fn spec_lines(s: Seq<char>) -> Seq<Seq<char>>
    decreases s.len(),
{
    if s.len() == 0 {
        Seq::empty()
    } else {
        let i = first_nl(s);
        if i >= s.len() {
            seq![s]
        } else {
            seq![strip_cr(s.subrange(0, i as int))] + spec_lines(s.skip(i as int + 1))
        }
    }
}

/// Splits a text into its lines.
pub fn split_lines(s: &str) -> (r: Vec<String>)
    ensures
        r.deep_view() == spec_lines(s@),
{
    let n = s.unicode_len();
    proof {
        assert(s@.skip(0) =~= s@);
    }
    let mut r: Vec<String> = Vec::new();
    let mut start: usize = 0;
    let mut i: usize = 0;
    while i < n
        invariant
            0 <= start <= i <= n,
            n == s@.len(),
            forall|j: int| start <= j < i ==> s@[j] != '\n',
            spec_lines(s@) == r.deep_view() + spec_lines(s@.skip(start as int)),
        decreases n - i,
    {
        if s.get_char(i) == '\n' {
            let ghost rest = s@.skip(start as int);
            proof {
                assert forall|j: int| 0 <= j < i - start implies rest[j] != '\n' by {
                    assert(rest[j] == s@[start + j]);
                }
                assert(rest[i - start] == s@[i as int]);
                lemma_first_nl_at(rest, i - start);
            }
            let line = if i > start && s.get_char(i - 1) == '\r' {
                s.substring_char(start, i - 1)
            } else {
                s.substring_char(start, i)
            };
            proof {
                let raw = rest.subrange(0, i - start);
                assert(raw =~= s@.subrange(start as int, i as int));
                if i > start && s@[i as int - 1] == '\r' {
                    assert(raw.last() == s@[i as int - 1]);
                    assert(strip_cr(raw) =~= s@.subrange(start as int, i as int - 1));
                } else {
                    if raw.len() > 0 {
                        assert(raw.last() == s@[i as int - 1]);
                    }
                    assert(strip_cr(raw) =~= s@.subrange(start as int, i as int));
                }
                assert(line@ == strip_cr(raw));
                assert(rest.skip(i - start + 1) =~= s@.skip(i as int + 1));
                assert(spec_lines(rest) == seq![strip_cr(raw)] + spec_lines(
                    s@.skip(i as int + 1),
                ));
            }
            let owned = String::from_str(line);
            let ghost old_dv = r.deep_view();
            r.push(owned);
            proof {
                assert(r.deep_view() =~= old_dv.push(line@));
                assert(old_dv.push(line@) =~= old_dv + seq![line@]);
                assert(r.deep_view() + spec_lines(s@.skip(i as int + 1)) =~= old_dv + (seq![
                    line@,
                ] + spec_lines(s@.skip(i as int + 1))));
            }
            start = i + 1;
        }
        i += 1;
    }
    if start < n {
        let ghost rest = s@.skip(start as int);
        proof {
            assert forall|j: int| 0 <= j < rest.len() implies rest[j] != '\n' by {
                assert(rest[j] == s@[start + j]);
            }
            lemma_first_nl_at(rest, rest.len() as int);
        }
        let line = s.substring_char(start, n);
        let ghost old_dv = r.deep_view();
        r.push(String::from_str(line));
        proof {
            assert(line@ =~= rest);
            assert(spec_lines(rest) == seq![rest]);
            assert(r.deep_view() =~= old_dv.push(rest));
            assert(old_dv.push(rest) =~= old_dv + seq![rest]);
            assert(r.deep_view() =~= spec_lines(s@));
        }
    } else {
        proof {
            assert(s@.skip(start as int).len() == 0);
            assert(r.deep_view() + spec_lines(s@.skip(start as int)) =~= r.deep_view());
        }
    }
    r
}

} // verus!
