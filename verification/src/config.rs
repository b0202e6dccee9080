//! The configuration grammar: line classification, alias collection,
//! and the resolver that walks a file together with the files its
//! splice directives pull in.
//!
//! The format is line-oriented. A line is split into whitespace
//! separated tokens; its first token is the keyword, compared without
//! regard to case. A `Host` line opens a block whose pattern tokens
//! are the alias candidates. The splice keyword (`Host`'s sibling
//! directive that reads other files in place) names a glob; the files
//! it matches are scanned at that point, in lexical order. Blank
//! lines, comment lines and unknown keywords are skipped without
//! error.

use vstd::prelude::*;

use crate::alias::{add_tokens, AliasSet, wf_aliases, lemma_add_tokens_absorbed, lemma_add_tokens_props};
use crate::text::{lines, lower, split_lines, tokenize, tokens, views};

verus! {

/// The keyword that opens a host block.
pub open spec fn kw_host() -> Seq<char> {
    seq!['h', 'o', 's', 't']
}

/// The keyword that splices other configuration files in place.
pub open spec fn kw_splice() -> Seq<char> {
    seq!['i', 'n', 'c', 'l', 'u', 'd', 'e']
}

/// A line that opens a host block: its first token is the host
/// keyword, in any case.
pub open spec fn host_line(line: Seq<char>) -> bool {
    tokens(line).len() > 0 && lower(tokens(line)[0]) == kw_host()
}

/// A line that splices other files: the splice keyword followed by a
/// glob. One without an argument is malformed and skipped.
pub open spec fn splice_line(line: Seq<char>) -> bool {
    tokens(line).len() >= 2 && lower(tokens(line)[0]) == kw_splice()
}

/// The glob named by a splice line.
pub open spec fn splice_glob(line: Seq<char>) -> Seq<char> {
    tokens(line)[1]
}

/// The pattern tokens of a host line.
pub open spec fn host_patterns(line: Seq<char>) -> Seq<Seq<char>> {
    tokens(line).drop_first()
}

/// The effect of one line on the collected aliases: a host line
/// absorbs its patterns; every other line leaves them alone.
pub open spec fn line_step(s: Seq<Seq<char>>, line: Seq<char>) -> Seq<Seq<char>> {
    if host_line(line) {
        add_tokens(s, host_patterns(line))
    } else {
        s
    }
}

/// The aliases collected from the lines `ls[i..]`, starting from `s`.
pub open spec fn absorb_lines(s: Seq<Seq<char>>, ls: Seq<Seq<char>>, i: int) -> Seq<Seq<char>>
    decreases ls.len() - i,
{
    if i < 0 || i >= ls.len() {
        s
    } else {
        absorb_lines(line_step(s, ls[i]), ls, i + 1)
    }
}

/// Whether every literal alias named by a host line of `ls[i..]` is
/// already present in `s`.
pub open spec fn saturated(s: Seq<Seq<char>>, ls: Seq<Seq<char>>, i: int) -> bool {
    forall|k: int, m: int|
        i <= k < ls.len() && host_line(#[trigger] ls[k]) && 0 <= m < host_patterns(ls[k]).len()
            && crate::alias::is_alias_token(#[trigger] host_patterns(ls[k])[m]) ==> s.contains(
            host_patterns(ls[k])[m],
        )
}

proof fn lemma_absorb_monotone(s: Seq<Seq<char>>, ls: Seq<Seq<char>>, i: int, x: Seq<char>)
    requires
        s.contains(x),
    ensures
        absorb_lines(s, ls, i).contains(x),
    decreases ls.len() - i,
{
    if 0 <= i < ls.len() {
        lemma_add_tokens_props(s, host_patterns(ls[i]));
        lemma_absorb_monotone(line_step(s, ls[i]), ls, i + 1, x);
    }
}

proof fn lemma_absorb_saturates(s: Seq<Seq<char>>, ls: Seq<Seq<char>>, i: int)
    requires
        0 <= i,
    ensures
        saturated(absorb_lines(s, ls, i), ls, i),
    decreases ls.len() - i,
{
    if 0 <= i < ls.len() {
        let s1 = line_step(s, ls[i]);
        lemma_absorb_saturates(s1, ls, i + 1);
        assert(absorb_lines(s, ls, i) == absorb_lines(s1, ls, i + 1));
        assert forall|k: int, m: int|
            i <= k < ls.len() && host_line(#[trigger] ls[k]) && 0 <= m < host_patterns(
                ls[k],
            ).len() && crate::alias::is_alias_token(
                #[trigger] host_patterns(ls[k])[m],
            ) implies absorb_lines(s, ls, i).contains(host_patterns(ls[k])[m]) by {
            if k == i {
                lemma_add_tokens_props(s, host_patterns(ls[i]));
                lemma_absorb_monotone(s1, ls, i + 1, host_patterns(ls[i])[m]);
            }
        }
    }
}

proof fn lemma_absorb_noop_when_saturated(s: Seq<Seq<char>>, ls: Seq<Seq<char>>, i: int)
    requires
        0 <= i,
        saturated(s, ls, i),
    ensures
        absorb_lines(s, ls, i) == s,
    decreases ls.len() - i,
{
    if 0 <= i < ls.len() {
        if host_line(ls[i]) {
            lemma_add_tokens_absorbed(s, host_patterns(ls[i]));
        }
        lemma_absorb_noop_when_saturated(s, ls, i + 1);
    }
}

/// Splicing the same lines twice in sequence collects the same
/// aliases as splicing them once: the second pass finds every one of
/// its literal aliases already present and adds nothing.
pub proof fn lemma_absorb_lines_idempotent(s: Seq<Seq<char>>, ls: Seq<Seq<char>>)
    ensures
        absorb_lines(absorb_lines(s, ls, 0), ls, 0) == absorb_lines(s, ls, 0),
{
    lemma_absorb_saturates(s, ls, 0);
    lemma_absorb_noop_when_saturated(absorb_lines(s, ls, 0), ls, 0);
}

/// What one configuration line means.
pub enum Directive {
    /// A host block opens; the pattern tokens follow the keyword.
    HostBlock(Vec<String>),
    /// Other files are spliced in here; the glob names them.
    Splice(String),
    /// A blank line, a comment, or any other keyword: skipped.
    Other,
}

fn token_is_kw_host(t: &String) -> (r: bool)
    ensures
        r == (lower(t@) == kw_host()),
{
    let s = t.as_str();
    if s.unicode_len() != 4 {
        proof {
            assert(lower(t@).len() == t@.len());
        }
        return false;
    }
    let c0 = crate::text::to_lower(s.get_char(0));
    let c1 = crate::text::to_lower(s.get_char(1));
    let c2 = crate::text::to_lower(s.get_char(2));
    let c3 = crate::text::to_lower(s.get_char(3));
    let r = c0 == 'h' && c1 == 'o' && c2 == 's' && c3 == 't';
    proof {
        assert(lower(t@)[0] == c0 && lower(t@)[1] == c1 && lower(t@)[2] == c2 && lower(t@)[3]
            == c3);
        if r {
            assert(lower(t@) =~= kw_host());
        }
    }
    r
}

fn token_is_kw_splice(t: &String) -> (r: bool)
    ensures
        r == (lower(t@) == kw_splice()),
{
    let s = t.as_str();
    if s.unicode_len() != 7 {
        proof {
            assert(lower(t@).len() == t@.len());
        }
        return false;
    }
    let c0 = crate::text::to_lower(s.get_char(0));
    let c1 = crate::text::to_lower(s.get_char(1));
    let c2 = crate::text::to_lower(s.get_char(2));
    let c3 = crate::text::to_lower(s.get_char(3));
    let c4 = crate::text::to_lower(s.get_char(4));
    let c5 = crate::text::to_lower(s.get_char(5));
    let c6 = crate::text::to_lower(s.get_char(6));
    let r = c0 == 'i' && c1 == 'n' && c2 == 'c' && c3 == 'l' && c4 == 'u' && c5 == 'd' && c6
        == 'e';
    proof {
        assert(lower(t@)[0] == c0 && lower(t@)[1] == c1 && lower(t@)[2] == c2 && lower(t@)[3] == c3
            && lower(t@)[4] == c4 && lower(t@)[5] == c5 && lower(t@)[6] == c6);
        if r {
            assert(lower(t@) =~= kw_splice());
        }
    }
    r
}

/// Reads one line of configuration text.
pub fn classify(line: &str) -> (d: Directive)
    ensures
        host_line(line@) ==> (d matches Directive::HostBlock(ps) && views(ps@) == host_patterns(
            line@,
        )),
        !host_line(line@) && splice_line(line@) ==> (d matches Directive::Splice(g) && g@
            == splice_glob(line@)),
        !host_line(line@) && !splice_line(line@) ==> d matches Directive::Other,
{
    let toks = tokenize(line);
    let n = toks.len();
    if n > 0 && token_is_kw_host(&toks[0]) {
        let mut ps: Vec<String> = Vec::new();
        let mut k: usize = 1;
        while k < n
            invariant
                n == toks@.len(),
                1 <= k <= n,
                views(ps@) == views(toks@).subrange(1, k as int),
            decreases n - k,
        {
            let ghost pre = ps@;
            ps.push(toks[k].clone());
            proof {
                assert(views(ps@) =~= views(pre) + seq![toks@[k as int]@]);
                assert(views(ps@) =~= views(toks@).subrange(1, k as int + 1));
            }
            k = k + 1;
        }
        proof {
            assert(views(ps@) =~= host_patterns(line@));
        }
        Directive::HostBlock(ps)
    } else if n >= 2 && token_is_kw_splice(&toks[0]) {
        Directive::Splice(toks[1].clone())
    } else {
        proof {
            if n == 0 {
                assert(!host_line(line@) && !splice_line(line@));
            }
        }
        Directive::Other
    }
}

/// Collects the aliases of a single text, with splice lines left
/// unexpanded (a glob that matches nothing is no error, and a text
/// taken on its own has nothing to match against).
pub fn aliases_of_text(text: &str) -> (r: AliasSet)
    ensures
        r.wf(),
        r@ == absorb_lines(Seq::<Seq<char>>::empty(), lines(text@), 0),
{
    let ls = split_lines(text);
    let mut set = AliasSet::new();
    let n = ls.len();
    let mut i: usize = 0;
    while i < n
        invariant
            n == ls@.len(),
            i <= n,
            set.wf(),
            views(ls@) == lines(text@),
            absorb_lines(Seq::<Seq<char>>::empty(), lines(text@), 0) == absorb_lines(
                set@,
                lines(text@),
                i as int,
            ),
        decreases n - i,
    {
        let ghost pre = set@;
        let ghost lv = lines(text@)[i as int];
        match classify(ls[i].as_str()) {
            Directive::HostBlock(ps) => {
                set.push_tokens(&ps, 0);
                proof {
                    assert(views(ps@).skip(0) =~= views(ps@));
                    assert(set@ == line_step(pre, lv));
                }
            },
            Directive::Splice(_) => {
                proof {
                    assert(set@ == line_step(pre, lv));
                }
            },
            Directive::Other => {
                proof {
                    assert(set@ == line_step(pre, lv));
                }
            },
        }
        i = i + 1;
    }
    set
}

/// Why a configuration could not be resolved.
#[derive(Clone, Copy, PartialEq, Eq, Structural, Debug)]
pub enum ConfigError {
    /// The configuration file does not exist.
    NotFound,
    /// The file exists but could not be read.
    ReadFailure,
    /// A file splices itself, directly or transitively, or the
    /// splice nesting exceeds its depth bound.
    SpliceCycle,
}

/// A file being scanned: its canonical path, its lines, and how many
/// of them have been consumed.
pub struct Frame {
    pub path: String,
    pub lines: Vec<String>,
    pub pos: usize,
}

/// A file the caller hands in for splicing: its canonical path and
/// its text.
pub struct SourceFile {
    pub path: String,
    pub text: String,
}

/// What one resolver step asks of its caller.
pub enum StepEvent {
    /// A line was consumed or a finished file was set aside.
    Progress,
    /// The current file splices others: resolve `glob` against the
    /// directory of `base` and hand the matched files back, in
    /// lexical order.
    NeedFiles { glob: String, base: String },
    /// Every line of every file has been consumed.
    Done,
}

/// How many files of a frame stack are being expanded: those that
/// have consumed at least one line and are not finished yet.
pub open spec fn active_count(fs: Seq<Frame>, k: int) -> int
    decreases fs.len() - k,
{
    if k < 0 || k >= fs.len() {
        0
    } else {
        (if fs[k].pos >= 1 {
            1int
        } else {
            0int
        }) + active_count(fs, k + 1)
    }
}

/// The deepest chain of files being expanded at once that the
/// resolver accepts; deeper nesting is reported as a cycle.
pub const SPLICE_DEPTH_LIMIT: usize = 16;

/// Frame stacks agree except that the top frame of the second has
/// consumed one more line.
pub open spec fn top_advanced(pre: Seq<Frame>, post: Seq<Frame>) -> bool {
    &&& pre.len() > 0
    &&& post.len() == pre.len()
    &&& forall|k: int| 0 <= k < pre.len() - 1 ==> post[k] == pre[k]
    &&& post.last().path == pre.last().path
    &&& post.last().lines == pre.last().lines
    &&& post.last().pos == pre.last().pos + 1
}

/// Scans a configuration file and the files its splice lines pull
/// in, collecting the literal host aliases in first-seen order.
///
/// The resolver holds a stack of files. Each `step` consumes one
/// line of the top file (or sets a finished file aside); when the
/// line splices other files, the caller resolves the glob and hands
/// the matched files to `provide_files`, which stacks them so that
/// they are scanned in place, in order, before the rest of the
/// current file.
pub struct Resolver {
    aliases: AliasSet,
    frames: Vec<Frame>,
}

impl Resolver {
    /// The aliases collected so far, in first-seen order.
    pub closed spec fn spec_aliases(&self) -> Seq<Seq<char>> {
        self.aliases@
    }

    /// The stack of files being scanned; the last is the current one.
    pub closed spec fn spec_frames(&self) -> Seq<Frame> {
        self.frames@
    }

    pub open spec fn wf(&self) -> bool {
        &&& wf_aliases(self.spec_aliases())
        &&& forall|k: int|
            0 <= k < self.spec_frames().len() ==> (#[trigger] self.spec_frames()[k]).pos
                <= self.spec_frames()[k].lines@.len()
    }

    /// Starts scanning one file, given its canonical path and text.
    pub fn new(path: String, text: &str) -> (r: Resolver)
        ensures
            r.wf(),
            r.spec_aliases() == Seq::<Seq<char>>::empty(),
            r.spec_frames().len() == 1,
            r.spec_frames()[0].path@ == path@,
            views(r.spec_frames()[0].lines@) == lines(text@),
            r.spec_frames()[0].pos == 0,
    {
        let ls = split_lines(text);
        let mut frames: Vec<Frame> = Vec::new();
        frames.push(Frame { path, lines: ls, pos: 0 });
        Resolver { aliases: AliasSet::new(), frames }
    }

    /// Whether every file has been fully scanned.
    pub fn finished(&self) -> (r: bool)
        ensures
            r == (self.spec_frames().len() == 0),
    {
        self.frames.len() == 0
    }

    /// Hands the collected aliases over.
    pub fn into_aliases(self) -> (r: AliasSet)
        requires
            self.wf(),
        ensures
            r.wf(),
            r@ == self.spec_aliases(),
    {
        self.aliases
    }

    /// Consumes one line of the current file, or sets the file aside
    /// when it is finished.
    pub fn step(&mut self) -> (ev: StepEvent)
        requires
            old(self).wf(),
        ensures
            final(self).wf(),
            ({
                let pre = old(self).spec_frames();
                let post = final(self).spec_frames();
                if pre.len() == 0 {
                    &&& ev == StepEvent::Done
                    &&& post == pre
                    &&& final(self).spec_aliases() == old(self).spec_aliases()
                } else if pre.last().pos == pre.last().lines@.len() {
                    &&& ev == StepEvent::Progress
                    &&& post == pre.drop_last()
                    &&& final(self).spec_aliases() == old(self).spec_aliases()
                } else {
                    let line = pre.last().lines@[pre.last().pos as int]@;
                    &&& top_advanced(pre, post)
                    &&& if host_line(line) {
                        &&& ev == StepEvent::Progress
                        &&& final(self).spec_aliases() == add_tokens(
                            old(self).spec_aliases(),
                            host_patterns(line),
                        )
                    } else if splice_line(line) {
                        &&& (ev matches StepEvent::NeedFiles { glob, base } && glob@
                            == splice_glob(line) && base@ == pre.last().path@)
                        &&& final(self).spec_aliases() == old(self).spec_aliases()
                    } else {
                        &&& ev == StepEvent::Progress
                        &&& final(self).spec_aliases() == old(self).spec_aliases()
                    }
                }
            }),
    {
        let flen = self.frames.len();
        if flen == 0 {
            return StepEvent::Done;
        }
        let ghost pre = self.spec_frames();
        let mut f = self.frames.pop().unwrap();
        proof {
            assert(f == pre[pre.len() - 1]);
            assert(f.pos <= f.lines@.len());
        }
        if f.pos == f.lines.len() {
            proof {
                assert(self.spec_frames() =~= pre.drop_last());
                assert forall|k: int|
                    0 <= k < self.spec_frames().len() implies (
                #[trigger] self.spec_frames()[k]).pos <= self.spec_frames()[k].lines@.len() by {
                    assert(self.spec_frames()[k] == pre[k]);
                }
            }
            return StepEvent::Progress;
        }
        let d = classify(f.lines[f.pos].as_str());
        let ghost line = f.lines@[f.pos as int]@;
        f.pos = f.pos + 1;
        let ev = match d {
            Directive::HostBlock(ps) => {
                self.aliases.push_tokens(&ps, 0);
                proof {
                    assert(views(ps@).skip(0) =~= views(ps@));
                }
                StepEvent::Progress
            },
            Directive::Splice(g) => StepEvent::NeedFiles { glob: g, base: f.path.clone() },
            Directive::Other => StepEvent::Progress,
        };
        self.frames.push(f);
        proof {
            assert(top_advanced(pre, self.spec_frames()));
            assert forall|k: int|
                0 <= k < self.spec_frames().len() implies (
            #[trigger] self.spec_frames()[k]).pos <= self.spec_frames()[k].lines@.len() by {
                if k < pre.len() - 1 {
                    assert(self.spec_frames()[k] == pre[k]);
                }
            }
        }
        ev
    }

    /// Stacks the files matched by a splice line so that the first
    /// one is scanned next, all of them before the rest of the
    /// current file. Refuses a file that is already being expanded
    /// (a splice cycle), and a chain of expansions deeper than
    /// `SPLICE_DEPTH_LIMIT`.
    pub fn provide_files(&mut self, files: Vec<SourceFile>) -> (r: Result<(), ConfigError>)
        requires
            old(self).wf(),
        ensures
            final(self).wf(),
            ({
                let pre = old(self).spec_frames();
                let cycle = exists|k: int, j: int|
                    0 <= k < pre.len() && 0 <= j < files@.len() && (#[trigger] pre[k]).pos >= 1
                        && pre[k].path@ == (#[trigger] files@[j]).path@;
                let deep = active_count(pre, 0) >= SPLICE_DEPTH_LIMIT as int;
                if cycle || deep {
                    &&& r == Err::<(), ConfigError>(ConfigError::SpliceCycle)
                    &&& final(self).spec_frames() == pre
                    &&& final(self).spec_aliases() == old(self).spec_aliases()
                } else {
                    &&& r == Ok::<(), ConfigError>(())
                    &&& final(self).spec_aliases() == old(self).spec_aliases()
                    &&& final(self).spec_frames().len() == pre.len() + files@.len()
                    &&& forall|k: int| 0 <= k < pre.len() ==> final(self).spec_frames()[k] == pre[k]
                    &&& forall|j: int|
                        0 <= j < files@.len() ==> {
                            let fr = #[trigger] final(self).spec_frames()[pre.len() + j];
                            &&& fr.path@ == files@[files@.len() - 1 - j].path@
                            &&& views(fr.lines@) == lines(files@[files@.len() - 1 - j].text@)
                            &&& fr.pos == 0
                        }
                }
            }),
    {
        let nf = self.frames.len();
        let mut active: usize = 0;
        let mut k: usize = 0;
        while k < nf
            invariant
                self.wf(),
                self.spec_frames() == old(self).spec_frames(),
                self.spec_aliases() == old(self).spec_aliases(),
                nf == self.spec_frames().len(),
                k <= nf,
                active <= k,
                active as int + active_count(self.spec_frames(), k as int) == active_count(
                    self.spec_frames(),
                    0,
                ),
            decreases nf - k,
        {
            if self.frames[k].pos >= 1 {
                active = active + 1;
            }
            k = k + 1;
        }
        if active >= SPLICE_DEPTH_LIMIT {
            return Err(ConfigError::SpliceCycle);
        }
        let mut k: usize = 0;
        while k < nf
            invariant
                self.wf(),
                self.spec_frames() == old(self).spec_frames(),
                self.spec_aliases() == old(self).spec_aliases(),
                nf == self.spec_frames().len(),
                k <= nf,
                forall|k2: int, j: int|
                    0 <= k2 < k && 0 <= j < files@.len() ==> !((#[trigger] self.spec_frames()[k2]).pos
                        >= 1 && self.spec_frames()[k2].path@ == (#[trigger] files@[j]).path@),
            decreases nf - k,
        {
            if self.frames[k].pos >= 1 {
                let mut j: usize = 0;
                let m = files.len();
                while j < m
                    invariant
                        self.wf(),
                        self.spec_frames() == old(self).spec_frames(),
                        self.spec_aliases() == old(self).spec_aliases(),
                        m == files@.len(),
                        j <= m,
                        k < nf == self.spec_frames().len(),
                        self.spec_frames()[k as int].pos >= 1,
                        forall|j2: int|
                            0 <= j2 < j ==> self.spec_frames()[k as int].path@ != (
                            #[trigger] files@[j2]).path@,
                    decreases m - j,
                {
                    if self.frames[k].path.eq(&files[j].path) {
                        return Err(ConfigError::SpliceCycle);
                    }
                    j = j + 1;
                }
            }
            k = k + 1;
        }
        let ghost base = self.spec_frames();
        let ghost orig = files@;
        let mut files = files;
        while files.len() > 0
            invariant
                self.wf(),
                self.spec_aliases() == old(self).spec_aliases(),
                files@.len() <= orig.len(),
                files@ == orig.subrange(0, files@.len() as int),
                self.spec_frames().len() == base.len() + orig.len() - files@.len(),
                forall|k2: int| 0 <= k2 < base.len() ==> self.spec_frames()[k2] == base[k2],
                forall|j: int|
                    0 <= j < orig.len() - files@.len() ==> {
                        let fr = #[trigger] self.spec_frames()[base.len() + j];
                        &&& fr.path@ == orig[orig.len() - 1 - j].path@
                        &&& views(fr.lines@) == lines(orig[orig.len() - 1 - j].text@)
                        &&& fr.pos == 0
                    },
            decreases files@.len(),
        {
            let ghost fpre = files@;
            let f = files.pop().unwrap();
            proof {
                assert(files@ =~= orig.subrange(0, files@.len() as int));
                assert(f == orig[files@.len() as int]);
            }
            let ls = split_lines(f.text.as_str());
            self.frames.push(Frame { path: f.path, lines: ls, pos: 0 });
        }
        Ok(())
    }
}

} // verus!
