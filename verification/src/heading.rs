//! The heading parser: classifies one line of text as an ATX-style
//! Markdown heading of level 1 to 6, or as not a heading.

use vstd::prelude::*;
use crate::text::{is_space, is_space_char, trim_start_spec, trim_spec, trim_str};

verus! {

/// The number of leading `#` characters of a sequence.
pub open spec fn leading_hashes(s: Seq<char>) -> int
    decreases s.len(),
{
    if s.len() > 0 && s[0] == '#' {
        1 + leading_hashes(s.drop_first())
    } else {
        0
    }
}

pub proof fn lemma_leading_hashes(s: Seq<char>)
    ensures
        0 <= leading_hashes(s) <= s.len(),
        forall|j: int| 0 <= j < leading_hashes(s) ==> s[j] == '#',
        leading_hashes(s) < s.len() ==> s[leading_hashes(s)] != '#',
    decreases s.len(),
{
    if s.len() > 0 && s[0] == '#' {
        lemma_leading_hashes(s.drop_first());
        assert forall|j: int| 0 <= j < leading_hashes(s) implies s[j] == '#' by {
            if j > 0 {
                assert(s.drop_first()[j - 1] == s[j]);
            }
        }
    }
}

/// What a line parses to as a heading: `None` when it is no heading, else
/// the heading level (1 to 6) and the heading text. The line's leading
/// whitespace is ignored; the `#` run gives the level; the rest, trimmed,
/// gives the text, which must not be empty.
pub open spec fn heading_of(line: Seq<char>) -> Option<(int, Seq<char>)> {
    let t = trim_start_spec(line);
    if t.len() == 0 || t[0] != '#' {
        None
    } else {
        let level = leading_hashes(t);
        if level > 6 {
            None
        } else {
            let text = trim_spec(t.skip(level));
            if text.len() == 0 {
                None
            } else {
                Some((level, text))
            }
        }
    }
}

/// Parses one line as a Markdown heading.
pub fn parse_heading_line(line: &str) -> (r: Option<(u8, String)>)
    ensures
        r is Some <==> heading_of(line@) is Some,
        r matches Some(p) ==> heading_of(line@) == Some((p.0 as int, p.1@)),
        r matches Some(p) ==> 1 <= p.0 <= 6,
{
    let n = line.unicode_len();
    proof {
        assert(line@.skip(0) =~= line@);
    }
    let mut a: usize = 0;
    while a < n && is_space_char(line.get_char(a))
        invariant
            0 <= a <= n,
            n == line@.len(),
            trim_start_spec(line@.skip(a as int)) == trim_start_spec(line@),
        decreases n - a,
    {
        proof {
            assert(line@.skip(a as int)[0] == line@[a as int]);
            assert(line@.skip(a as int).drop_first() =~= line@.skip(a as int + 1));
        }
        a += 1;
    }
    let ghost t = trim_start_spec(line@);
    proof {
        assert(t == line@.skip(a as int));
    }
    if a == n {
        return None;
    }
    proof {
        assert(t[0] == line@[a as int]);
    }
    if line.get_char(a) != '#' {
        return None;
    }
    let mut j = a;
    while j < n && line.get_char(j) == '#'
        invariant
            a <= j <= n,
            n == line@.len(),
            t == line@.skip(a as int),
            leading_hashes(t) == (j - a) + leading_hashes(line@.skip(j as int)),
        decreases n - j,
    {
        proof {
            assert(line@.skip(j as int)[0] == line@[j as int]);
            assert(line@.skip(j as int).drop_first() =~= line@.skip(j as int + 1));
        }
        j += 1;
    }
    proof {
        if j < n {
            assert(line@.skip(j as int)[0] == line@[j as int]);
        }
        assert(leading_hashes(line@.skip(j as int)) == 0);
        assert(leading_hashes(t) == j - a);
    }
    let level = j - a;
    if level > 6 {
        return None;
    }
    proof {
        lemma_leading_hashes(t.drop_first());
    }
    let rest = line.substring_char(j, n);
    proof {
        assert(rest@ =~= t.skip(level as int));
    }
    let text = trim_str(rest);
    if text.as_str().unicode_len() == 0 {
        return None;
    }
    Some((level as u8, text))
}

} // verus!
