//! Whitespace trimming of request parameters, as `str::trim` does it:
//! leading and trailing characters with the Unicode `White_Space` property
//! are removed.

use vstd::prelude::*;

verus! {

/// `c` has the Unicode `White_Space` property.
pub open spec fn is_white_space(c: char) -> bool {
    ||| ('\u{9}' <= c && c <= '\u{d}')
    ||| c == ' '
    ||| c == '\u{85}'
    ||| c == '\u{a0}'
    ||| c == '\u{1680}'
    ||| ('\u{2000}' <= c && c <= '\u{200a}')
    ||| c == '\u{2028}'
    ||| c == '\u{2029}'
    ||| c == '\u{202f}'
    ||| c == '\u{205f}'
    ||| c == '\u{3000}'
}

/// `s` without its leading white space.
pub open spec fn trim_start(s: Seq<char>) -> Seq<char>
    decreases s.len(),
{
    if s.len() > 0 && is_white_space(s[0]) {
        trim_start(s.drop_first())
    } else {
        s
    }
}

/// `s` without its trailing white space.
pub open spec fn trim_end(s: Seq<char>) -> Seq<char>
    decreases s.len(),
{
    if s.len() > 0 && is_white_space(s.last()) {
        trim_end(s.drop_last())
    } else {
        s
    }
}

/// `s` without its leading and trailing white space.
pub open spec fn trimmed(s: Seq<char>) -> Seq<char> {
    trim_end(trim_start(s))
}

fn white_space(c: char) -> (b: bool)
    ensures
        b == is_white_space(c),
{
    ('\u{9}' <= c && c <= '\u{d}') || c == ' ' || c == '\u{85}' || c == '\u{a0}' || c == '\u{1680}'
        || ('\u{2000}' <= c && c <= '\u{200a}') || c == '\u{2028}' || c == '\u{2029}' || c == '\u{202f}'
        || c == '\u{205f}' || c == '\u{3000}'
}

/// `s` with leading and trailing white space removed.
pub fn trim_text(s: &String) -> (t: String)
    ensures
        t@ == trimmed(s@),
{
    let mut cs: Vec<char> = Vec::new();
    for c in it: s.as_str().chars()
        invariant
            cs@ == it.seq().take(it.index() as int),
    {
        cs.push(c);
    }
    let ghost v = s@;
    proof {
        assert(v.skip(0) =~= v);
    }
    let mut i: usize = 0;
    while i < cs.len() && white_space(cs[i])
        invariant
            0 <= i <= cs@.len(),
            cs@ == v,
            trim_start(v) == trim_start(v.skip(i as int)),
        decreases cs@.len() - i,
    {
        proof {
            assert(v.skip(i + 1) =~= v.skip(i as int).drop_first());
        }
        i = i + 1;
    }
    proof {
        assert(trim_start(v) == v.skip(i as int));
    }
    let mut j: usize = cs.len();
    proof {
        assert(v.subrange(i as int, j as int) =~= v.skip(i as int));
    }
    while j > i && white_space(cs[j - 1])
        invariant
            i <= j <= cs@.len(),
            cs@ == v,
            trimmed(v) == trim_end(v.subrange(i as int, j as int)),
        decreases j,
    {
        proof {
            assert(v.subrange(i as int, j - 1) =~= v.subrange(i as int, j as int).drop_last());
        }
        j = j - 1;
    }
    proof {
        let r = v.subrange(i as int, j as int);
        if r.len() > 0 {
            assert(r.last() == cs@[j - 1]);
        }
        assert(trim_end(r) == r);
    }
    let piece = s.as_str().substring_char(i, j);
    piece.to_string()
}

} // verus!
