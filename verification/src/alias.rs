//! The ordered, de-duplicated set of literal host aliases.
//!
//! A `Host` line's pattern token counts as an alias only when it is
//! literal: non-empty, free of the glob metacharacters `*` and `?`,
//! and not a negation (leading `!`). Aliases keep their first-seen
//! position; a later occurrence of the same alias is dropped.

use vstd::prelude::*;

use crate::text::views;

verus! {

/// A literal alias: non-empty, no glob metacharacter, not negated.
pub open spec fn is_alias_token(t: Seq<char>) -> bool {
    &&& t.len() > 0
    &&& t[0] != '!'
    &&& forall|i: int| 0 <= i < t.len() ==> t[i] != '*' && t[i] != '?'
}

/// One token absorbed into an alias sequence: appended at the end when
/// it is a literal alias not yet present, and dropped otherwise.
pub open spec fn add_token(s: Seq<Seq<char>>, t: Seq<char>) -> Seq<Seq<char>> {
    if is_alias_token(t) && !s.contains(t) {
        s.push(t)
    } else {
        s
    }
}

/// A whole pattern list absorbed, left to right.
pub open spec fn add_tokens(s: Seq<Seq<char>>, ts: Seq<Seq<char>>) -> Seq<Seq<char>>
    decreases ts.len(),
{
    if ts.len() == 0 {
        s
    } else {
        add_tokens(add_token(s, ts[0]), ts.drop_first())
    }
}

/// Well-formedness of an alias sequence: only literal aliases, no
/// duplicates.
pub open spec fn wf_aliases(s: Seq<Seq<char>>) -> bool {
    &&& forall|i: int| 0 <= i < s.len() ==> is_alias_token(#[trigger] s[i])
    &&& forall|i: int, j: int| 0 <= i < j < s.len() ==> s[i] != s[j]
}

pub proof fn lemma_add_token_props(s: Seq<Seq<char>>, t: Seq<char>)
    ensures
        forall|x: Seq<char>| s.contains(x) ==> add_token(s, t).contains(x),
        is_alias_token(t) ==> add_token(s, t).contains(t),
{
    let r = add_token(s, t);
    if is_alias_token(t) && !s.contains(t) {
        assert(forall|x: Seq<char>| s.contains(x) ==> r.contains(x)) by {
            assert(forall|k: int| 0 <= k < s.len() ==> r[k] == s[k]);
        }
        assert(r.contains(t)) by {
            assert(r[s.len() as int] == t);
        }
    } else if is_alias_token(t) {
        assert(r.contains(t));
    }
}

/// Absorbing never loses an alias, and every literal alias of the
/// absorbed pattern list ends up present.
pub proof fn lemma_add_tokens_props(s: Seq<Seq<char>>, ts: Seq<Seq<char>>)
    ensures
        forall|x: Seq<char>| s.contains(x) ==> add_tokens(s, ts).contains(x),
        forall|k: int|
            0 <= k < ts.len() && is_alias_token(ts[k]) ==> add_tokens(s, ts).contains(ts[k]),
    decreases ts.len(),
{
    if ts.len() > 0 {
        lemma_add_token_props(s, ts[0]);
        lemma_add_tokens_props(add_token(s, ts[0]), ts.drop_first());
        assert(forall|k: int|
            0 <= k < ts.len() && is_alias_token(ts[k]) ==> add_tokens(s, ts).contains(ts[k])) by {
            assert(forall|k: int| 1 <= k < ts.len() ==> ts.drop_first()[k - 1] == ts[k]);
        }
    }
}

pub proof fn lemma_add_token_wf(s: Seq<Seq<char>>, t: Seq<char>)
    requires
        wf_aliases(s),
    ensures
        wf_aliases(add_token(s, t)),
{
}

/// Absorbing a pattern list whose aliases are all present already
/// changes nothing.
pub proof fn lemma_add_tokens_absorbed(s: Seq<Seq<char>>, ts: Seq<Seq<char>>)
    requires
        forall|k: int| 0 <= k < ts.len() && is_alias_token(#[trigger] ts[k]) ==> s.contains(ts[k]),
    ensures
        add_tokens(s, ts) == s,
    decreases ts.len(),
{
    if ts.len() > 0 {
        assert(add_token(s, ts[0]) == s);
        assert(forall|k: int| 1 <= k < ts.len() ==> ts.drop_first()[k - 1] == ts[k]);
        lemma_add_tokens_absorbed(s, ts.drop_first());
    }
}

/// Every alias named by a pattern list that contains none is absorbed
/// without effect: a `Host` line whose patterns are all wildcards or
/// negations adds nothing.
pub proof fn lemma_no_alias_tokens_add_nothing(s: Seq<Seq<char>>, ts: Seq<Seq<char>>)
    requires
        forall|k: int| 0 <= k < ts.len() ==> !is_alias_token(#[trigger] ts[k]),
    ensures
        add_tokens(s, ts) == s,
{
    lemma_add_tokens_absorbed(s, ts);
}

/// Absorbing the same pattern list twice in a row is the same as
/// absorbing it once.
pub proof fn lemma_add_tokens_idempotent(s: Seq<Seq<char>>, ts: Seq<Seq<char>>)
    ensures
        add_tokens(add_tokens(s, ts), ts) == add_tokens(s, ts),
{
    lemma_add_tokens_props(s, ts);
    lemma_add_tokens_absorbed(add_tokens(s, ts), ts);
}

/// The ordered, de-duplicated sequence of literal host aliases,
/// in first-seen order.
pub struct AliasSet {
    items: Vec<String>,
}

impl AliasSet {
    pub closed spec fn view(&self) -> Seq<Seq<char>> {
        views(self.items@)
    }

    pub open spec fn wf(&self) -> bool {
        wf_aliases(self@)
    }

    pub fn new() -> (r: AliasSet)
        ensures
            r@ == Seq::<Seq<char>>::empty(),
            r.wf(),
    {
        let r = AliasSet { items: Vec::new() };
        proof {
            assert(r@ =~= Seq::<Seq<char>>::empty());
        }
        r
    }

    pub fn len(&self) -> (n: usize)
        ensures
            n == self@.len(),
    {
        self.items.len()
    }

    /// The alias at one position, in first-seen order.
    pub fn get(&self, i: usize) -> (r: &String)
        requires
            i < self@.len(),
        ensures
            r@ == self@[i as int],
    {
        &self.items[i]
    }

    /// All aliases, in first-seen order.
    pub fn items(&self) -> (r: &Vec<String>)
        ensures
            views(r@) == self@,
    {
        &self.items
    }

    /// Hands the aliases over, in first-seen order.
    pub fn into_items(self) -> (r: Vec<String>)
        ensures
            views(r@) == self@,
    {
        self.items
    }

    pub fn contains(&self, t: &String) -> (r: bool)
        ensures
            r == self@.contains(t@),
    {
        let n = self.items.len();
        let mut i: usize = 0;
        while i < n
            invariant
                n == self.items@.len(),
                i <= n,
                forall|k: int| 0 <= k < i ==> self@[k] != t@,
            decreases n - i,
        {
            if self.items[i].eq(t) {
                proof {
                    assert(self@[i as int] == t@);
                }
                return true;
            }
            i = i + 1;
        }
        proof {
            assert(forall|k: int| 0 <= k < self@.len() ==> self@[k] != t@);
        }
        false
    }

    /// Decides whether one pattern token is a literal alias.
    pub fn token_is_alias(t: &String) -> (r: bool)
        ensures
            r == is_alias_token(t@),
    {
        let n = t.as_str().unicode_len();
        if n == 0 {
            return false;
        }
        if t.as_str().get_char(0) == '!' {
            return false;
        }
        let mut i: usize = 0;
        while i < n
            invariant
                n == t@.len(),
                i <= n,
                forall|k: int| 0 <= k < i ==> t@[k] != '*' && t@[k] != '?',
            decreases n - i,
        {
            let c = t.as_str().get_char(i);
            if c == '*' || c == '?' {
                return false;
            }
            i = i + 1;
        }
        true
    }

    /// Absorbs one pattern token: appended when it is a literal alias
    /// seen for the first time, dropped otherwise.
    pub fn push_token(&mut self, t: &String)
        requires
            old(self).wf(),
        ensures
            final(self).wf(),
            final(self)@ == add_token(old(self)@, t@),
    {
        if Self::token_is_alias(t) && !self.contains(t) {
            let ghost pre = self@;
            self.items.push(t.clone());
            proof {
                assert(self@ =~= pre.push(t@));
                lemma_add_token_wf(pre, t@);
            }
        }
    }

    /// Absorbs the pattern tokens of one `Host` line, left to right.
    pub fn push_tokens(&mut self, ts: &Vec<String>, from: usize)
        requires
            old(self).wf(),
            from <= ts@.len(),
        ensures
            final(self).wf(),
            final(self)@ == add_tokens(old(self)@, views(ts@).skip(from as int)),
    {
        let n = ts.len();
        let mut i = from;
        while i < n
            invariant
                n == ts@.len(),
                from <= i <= n,
                self.wf(),
                add_tokens(old(self)@, views(ts@).skip(from as int)) == add_tokens(
                    self@,
                    views(ts@).skip(i as int),
                ),
            decreases n - i,
        {
            let ghost pre = self@;
            self.push_token(&ts[i]);
            proof {
                let vs = views(ts@);
                assert(vs.skip(i as int).drop_first() =~= vs.skip(i as int + 1));
                assert(vs.skip(i as int)[0] == ts@[i as int]@);
                assert(add_tokens(pre, vs.skip(i as int)) == add_tokens(
                    self@,
                    vs.skip(i as int + 1),
                ));
            }
            i = i + 1;
        }
        proof {
            assert(views(ts@).skip(n as int) =~= Seq::<Seq<char>>::empty());
        }
    }
}

} // verus!
