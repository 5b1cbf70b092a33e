//! Title resolution for an imported document: the first heading's text
//! when the document has one, else the path's file stem, else a fixed
//! placeholder.

use vstd::prelude::*;
use crate::models::HeadData;

verus! {

/// The characters of a sequence after the last occurrence of `c`, or the
/// whole sequence when `c` does not occur.
pub open spec fn suffix_after(s: Seq<char>, c: char) -> Seq<char>
    decreases s.len(),
{
    if s.len() == 0 {
        s
    } else if s.last() == c {
        Seq::empty()
    } else {
        suffix_after(s.drop_last(), c).push(s.last())
    }
}

pub proof fn lemma_suffix_after_none(s: Seq<char>, c: char)
    requires
        forall|j: int| 0 <= j < s.len() ==> s[j] != c,
    ensures
        suffix_after(s, c) == s,
    decreases s.len(),
{
    if s.len() > 0 {
        lemma_suffix_after_none(s.drop_last(), c);
        assert(suffix_after(s, c) =~= s);
    }
}

pub proof fn lemma_suffix_after_at(s: Seq<char>, c: char, k: int)
    requires
        0 < k <= s.len(),
        s[k - 1] == c,
        forall|j: int| k <= j < s.len() ==> s[j] != c,
    ensures
        suffix_after(s, c) == s.skip(k),
    decreases s.len(),
{
    if k == s.len() {
        assert(s.last() == c);
        assert(suffix_after(s, c) =~= s.skip(k));
    } else {
        assert(s.last() != c);
        lemma_suffix_after_at(s.drop_last(), c, k);
        assert(s.drop_last().skip(k).push(s.last()) =~= s.skip(k));
    }
}

/// The stem of a file's base name: the part before the final dot, except
/// that a name with no dot, or with its only dot in front, is kept whole.
pub open spec fn stem_of_base(base: Seq<char>) -> Seq<char> {
    let ext = suffix_after(base, '.');
    if ext.len() == base.len() {
        base
    } else {
        let k = base.len() - 1 - ext.len();
        if k == 0 {
            base
        } else {
            base.take(k)
        }
    }
}

/// The file stem of a path: the stem of what follows the last `/`.
/// Empty when the path has no file name there (nothing after the last
/// `/`, or only `.` or `..`). Paths are taken as Unix paths: `/` is the
/// only separator recognized, so a backslash-separated path keeps its
/// directory prefix in the stem.
pub open spec fn stem_of_path(p: Seq<char>) -> Seq<char> {
    let base = suffix_after(p, '/');
    if base.len() == 0 || base == seq!['.'] || base == seq!['.', '.'] {
        Seq::empty()
    } else {
        stem_of_base(base)
    }
}

/// The title an imported document gets: the first heading's text if the
/// document has any heading, else the path's file stem, else `Untitled`.
pub open spec fn title_for(heads: Seq<HeadData>, p: Seq<char>) -> Seq<char> {
    if heads.len() > 0 {
        heads[0].text
    } else {
        let st = stem_of_path(p);
        if st.len() == 0 {
            "Untitled"@
        } else {
            st
        }
    }
}

/// The index where the suffix after the last occurrence of `c` begins:
/// just past the last occurrence, or zero when there is none.
fn suffix_start(s: &str, c: char) -> (k: usize)
    ensures
        k <= s@.len(),
        suffix_after(s@, c) == s@.skip(k as int),
        k > 0 ==> s@[k as int - 1] == c,
{
    let n = s.unicode_len();
    let mut i = n;
    while i > 0 && s.get_char(i - 1) != c
        invariant
            0 <= i <= n,
            n == s@.len(),
            forall|j: int| i <= j < n ==> s@[j] != c,
        decreases i,
    {
        i -= 1;
    }
    proof {
        if i > 0 {
            lemma_suffix_after_at(s@, c, i as int);
        } else {
            lemma_suffix_after_none(s@, c);
            assert(s@.skip(0) =~= s@);
        }
    }
    i
}

/// The file stem of a path, or the empty string when the path has no
/// file name.
pub fn file_stem_str(path: &str) -> (r: String)
    ensures
        r@ == stem_of_path(path@),
{
    let n = path.unicode_len();
    let b = suffix_start(path, '/');
    let base = path.substring_char(b, n);
    let m = base.unicode_len();
    if m == 0 {
        return String::new();
    }
    if m == 1 && base.get_char(0) == '.' {
        proof {
            assert(base@ =~= seq!['.']);
        }
        return String::new();
    }
    if m == 2 && base.get_char(0) == '.' && base.get_char(1) == '.' {
        proof {
            assert(base@ =~= seq!['.', '.']);
        }
        return String::new();
    }
    proof {
        if base@.len() == 1 {
            assert(base@[0] != '.');
            assert(base@ != seq!['.']);
        }
        if base@.len() == 2 {
            assert(base@ != seq!['.', '.']);
        }
    }
    let d = suffix_start(base, '.');
    if d == 0 || d == 1 {
        proof {
            if d == 0 {
                assert(suffix_after(base@, '.').len() == base@.len());
            }
        }
        String::from_str(base)
    } else {
        let out = base.substring_char(0, d - 1);
        proof {
            assert(out@ =~= base@.take(d as int - 1));
        }
        String::from_str(out)
    }
}

} // verus!
