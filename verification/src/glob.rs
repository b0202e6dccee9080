//! Glob matching for splice-line file patterns: `*` stands for any
//! run of characters, `?` for exactly one, and every other character
//! for itself.

use vstd::prelude::*;

use crate::text::chars_of;

verus! {

/// Whether the glob `p` matches the whole of `s`.
pub open spec fn glob_matches(p: Seq<char>, s: Seq<char>) -> bool
    decreases p.len(), s.len(),
{
    if p.len() == 0 {
        s.len() == 0
    } else if p[0] == '*' {
        glob_matches(p.drop_first(), s) || (s.len() > 0 && glob_matches(p, s.drop_first()))
    } else {
        s.len() > 0 && (p[0] == '?' || p[0] == s[0]) && glob_matches(
            p.drop_first(),
            s.drop_first(),
        )
    }
}

fn glob_step(p: &Vec<char>, s: &Vec<char>, i: usize, j: usize) -> (r: bool)
    requires
        i <= p@.len(),
        j <= s@.len(),
    ensures
        r == glob_matches(p@.skip(i as int), s@.skip(j as int)),
    decreases p@.len() - i, s@.len() - j,
{
    proof {
        assert(p@.skip(i as int).len() == p@.len() - i);
        assert(s@.skip(j as int).len() == s@.len() - j);
        if i < p@.len() {
            assert(p@.skip(i as int)[0] == p@[i as int]);
            assert(p@.skip(i as int).drop_first() =~= p@.skip(i as int + 1));
        }
        if j < s@.len() {
            assert(s@.skip(j as int)[0] == s@[j as int]);
            assert(s@.skip(j as int).drop_first() =~= s@.skip(j as int + 1));
        }
    }
    if i == p.len() {
        j == s.len()
    } else if p[i] == '*' {
        if glob_step(p, s, i + 1, j) {
            true
        } else if j < s.len() {
            glob_step(p, s, i, j + 1)
        } else {
            false
        }
    } else if j < s.len() && (p[i] == '?' || p[i] == s[j]) {
        glob_step(p, s, i + 1, j + 1)
    } else {
        false
    }
}

/// Whether the glob `pattern` matches the whole of `name`.
pub fn glob_match(pattern: &str, name: &str) -> (r: bool)
    ensures
        r == glob_matches(pattern@, name@),
{
    let p = chars_of(pattern);
    let s = chars_of(name);
    let r = glob_step(&p, &s, 0, 0);
    proof {
        assert(p@.skip(0) =~= pattern@);
        assert(s@.skip(0) =~= name@);
    }
    r
}

} // verus!
