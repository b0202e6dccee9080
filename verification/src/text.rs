//! Characters, lower-casing, and the splitting of configuration text
//! into lines and whitespace-separated tokens.

use vstd::prelude::*;

verus! {

/// Characters that separate tokens on a configuration line.
pub open spec fn is_space(c: char) -> bool {
    c == ' ' || c == '\t' || c == '\r'
}

/// ASCII lower-casing of one character; all other characters are kept.
pub open spec fn lower_char(c: char) -> char {
    if 'A' <= c && c <= 'Z' {
        (((c as u8) + 32) as char)
    } else {
        c
    }
}

/// ASCII lower-casing of a character sequence.
pub open spec fn lower(s: Seq<char>) -> Seq<char> {
    s.map_values(|c: char| lower_char(c))
}

/// Letters and digits; anything else is a word boundary for fuzzy scoring.
pub open spec fn is_alnum(c: char) -> bool {
    ('a' <= c && c <= 'z') || ('A' <= c && c <= 'Z') || ('0' <= c && c <= '9')
}

pub fn to_lower(c: char) -> (r: char)
    ensures
        r == lower_char(c),
{
    if 'A' <= c && c <= 'Z' {
        (((c as u8) + 32) as char)
    } else {
        c
    }
}

pub fn is_space_char(c: char) -> (r: bool)
    ensures
        r == is_space(c),
{
    c == ' ' || c == '\t' || c == '\r'
}

pub fn is_alnum_char(c: char) -> (r: bool)
    ensures
        r == is_alnum(c),
{
    ('a' <= c && c <= 'z') || ('A' <= c && c <= 'Z') || ('0' <= c && c <= '9')
}

/// The views of a sequence of owned strings.
pub open spec fn views(ss: Seq<String>) -> Seq<Seq<char>> {
    ss.map_values(|s: String| s@)
}

/// Index of the first separator at or after `i`, or the end of the line.
pub open spec fn token_end(s: Seq<char>, i: int) -> int
    decreases s.len() - i,
{
    if i < 0 || i >= s.len() || is_space(s[i]) {
        i
    } else {
        token_end(s, i + 1)
    }
}

pub proof fn lemma_token_end(s: Seq<char>, i: int)
    requires
        0 <= i <= s.len(),
    ensures
        i <= token_end(s, i) <= s.len(),
        forall|k: int| i <= k < token_end(s, i) ==> !is_space(s[k]),
        token_end(s, i) < s.len() ==> is_space(s[token_end(s, i)]),
        i < s.len() && !is_space(s[i]) ==> token_end(s, i) > i,
    decreases s.len() - i,
{
    if i < s.len() && !is_space(s[i]) {
        lemma_token_end(s, i + 1);
    }
}

/// The whitespace-separated tokens of one line, scanning from index `i`.
pub open spec fn tokens_from(s: Seq<char>, i: int) -> Seq<Seq<char>>
    decreases s.len() - i,
{
    if i < 0 || i >= s.len() {
        seq![]
    } else if is_space(s[i]) {
        tokens_from(s, i + 1)
    } else {
        proof {
            lemma_token_end(s, i);
        }
        seq![s.subrange(i, token_end(s, i))] + tokens_from(s, token_end(s, i))
    }
}

/// The whitespace-separated tokens of one line.
pub open spec fn tokens(s: Seq<char>) -> Seq<Seq<char>> {
    tokens_from(s, 0)
}

/// Index of the first line break at or after `i`, or the end of the text.
pub open spec fn line_end(s: Seq<char>, i: int) -> int
    decreases s.len() - i,
{
    if i < 0 || i >= s.len() || s[i] == '\n' {
        i
    } else {
        line_end(s, i + 1)
    }
}

pub proof fn lemma_line_end(s: Seq<char>, i: int)
    requires
        0 <= i <= s.len(),
    ensures
        i <= line_end(s, i) <= s.len(),
        forall|k: int| i <= k < line_end(s, i) ==> s[k] != '\n',
        line_end(s, i) < s.len() ==> s[line_end(s, i)] == '\n',
    decreases s.len() - i,
{
    if i < s.len() && s[i] != '\n' {
        lemma_line_end(s, i + 1);
    }
}

/// The lines of a text, split at every line break; a trailing break
/// yields a final empty line, as an empty text does.
pub open spec fn lines_from(s: Seq<char>, i: int) -> Seq<Seq<char>>
    decreases s.len() - i,
{
    if i < 0 || i > s.len() {
        seq![]
    } else {
        let j = line_end(s, i);
        if j >= s.len() {
            seq![s.subrange(i, s.len() as int)]
        } else {
            proof {
                lemma_line_end(s, i);
            }
            seq![s.subrange(i, j)] + lines_from(s, j + 1)
        }
    }
}

/// The lines of a text.
pub open spec fn lines(s: Seq<char>) -> Seq<Seq<char>> {
    lines_from(s, 0)
}

/// The characters of a string slice, one by one.
pub fn chars_of(s: &str) -> (v: Vec<char>)
    ensures
        v@ == s@,
{
    let n: usize = s.unicode_len();
    let mut v: Vec<char> = Vec::new();
    let mut i: usize = 0;
    while i < n
        invariant
            n == s@.len(),
            i <= n,
            v@ == s@.subrange(0, i as int),
        decreases n - i,
    {
        let c = s.get_char(i);
        v.push(c);
        i = i + 1;
        proof {
            assert(v@ =~= s@.subrange(0, i as int));
        }
    }
    proof {
        assert(v@ =~= s@);
    }
    v
}

/// Splits a text into its lines, one per line break.
pub fn split_lines(text: &str) -> (ls: Vec<String>)
    ensures
        views(ls@) == lines(text@),
{
    let n: usize = text.unicode_len();
    let mut ls: Vec<String> = Vec::new();
    let mut i: usize = 0;
    let mut j: usize = 0;
    while j < n
        invariant
            n == text@.len(),
            i <= j <= n,
            line_end(text@, i as int) == line_end(text@, j as int),
            lines(text@) == views(ls@) + lines_from(text@, i as int),
        decreases n - j,
    {
        let c = text.get_char(j);
        if c == '\n' {
            proof {
                assert(line_end(text@, j as int) == j as int);
            }
            let ln: String = text.substring_char(i, j).to_owned();
            let ghost pre = ls@;
            ls.push(ln);
            proof {
                assert(views(ls@) =~= views(pre) + seq![ln@]);
                assert(lines(text@) =~= views(ls@) + lines_from(text@, j as int + 1));
            }
            i = j + 1;
        } else {
            proof {
                assert(line_end(text@, j as int) == line_end(text@, j as int + 1));
            }
        }
        j = j + 1;
    }
    proof {
        assert(line_end(text@, j as int) == j as int);
        assert(lines_from(text@, i as int) =~= seq![text@.subrange(i as int, n as int)]);
    }
    let last: String = text.substring_char(i, n).to_owned();
    let ghost pre = ls@;
    ls.push(last);
    proof {
        assert(views(ls@) =~= views(pre) + seq![last@]);
        assert(views(ls@) =~= lines(text@));
    }
    ls
}

/// Splits a line into its whitespace-separated tokens.
pub fn tokenize(line: &str) -> (toks: Vec<String>)
    ensures
        views(toks@) == tokens(line@),
{
    let n: usize = line.unicode_len();
    let mut toks: Vec<String> = Vec::new();
    let mut i: usize = 0;
    proof {
        assert(views(toks@) + tokens_from(line@, 0) =~= tokens_from(line@, 0));
    }
    while i < n
        invariant
            n == line@.len(),
            i <= n,
            tokens(line@) == views(toks@) + tokens_from(line@, i as int),
        decreases n - i,
    {
        let c = line.get_char(i);
        if is_space_char(c) {
            i = i + 1;
        } else {
            let start = i;
            let mut j = i + 1;
            proof {
                assert(token_end(line@, start as int) == token_end(line@, start as int + 1));
            }
            while j < n && !is_space_char(line.get_char(j))
                invariant
                    n == line@.len(),
                    start < j <= n,
                    token_end(line@, start as int) == token_end(line@, j as int),
                decreases n - j,
            {
                proof {
                    assert(token_end(line@, j as int) == token_end(line@, j as int + 1));
                }
                j = j + 1;
            }
            proof {
                // At exit the scan position is a separator or the line end,
                // so it is exactly the end of the token begun at `start`.
                assert(token_end(line@, j as int) == j as int);
            }
            let tok: String = line.substring_char(start, j).to_owned();
            let ghost pre = toks@;
            toks.push(tok);
            proof {
                assert(views(toks@) =~= views(pre) + seq![tok@]);
                assert(tokens(line@) =~= views(toks@) + tokens_from(line@, j as int));
            }
            i = j;
        }
    }
    toks
}

} // verus!
