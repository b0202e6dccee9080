//! The interactive selection session: a query the operator edits, a
//! cursor over the ranked matches, and the confirm/abort outcome.
//!
//! The session itself is a pure state machine: the caller owns the
//! terminal, feeds one input event at a time, and redraws from the
//! session's query, ranked list and cursor after every step. The
//! ranked list is recomputed in full at every query change; the
//! cursor moves within the current list, clamped at both ends.

use vstd::prelude::*;

use crate::fuzzy::{rank_candidates, ranking_ok, ranked_entry_ok, Ranked};
use crate::text::views;

verus! {

/// One input event of the interactive loop.
#[derive(Clone, Copy, PartialEq, Eq, Structural, Debug)]
pub enum InputEvent {
    /// A character appended to the query.
    Insert(char),
    /// The last query character removed.
    Backspace,
    /// The cursor moved one entry up.
    MoveUp,
    /// The cursor moved one entry down.
    MoveDown,
    /// The entry under the cursor confirmed.
    Confirm,
    /// The session given up, whatever its state.
    Abort,
}

/// How a session ended.
#[derive(PartialEq, Eq, Debug)]
pub enum SelectionOutcome {
    /// The operator confirmed this candidate.
    Confirmed(String),
    /// The operator gave up; any partial query is discarded.
    Aborted,
}

/// Failure to run a session at all.
#[derive(Clone, Copy, PartialEq, Eq, Structural, Debug)]
pub enum SelectorError {
    /// No controlling terminal to run the interactive loop on.
    NoTerminal,
}

/// One interactive session over a fixed candidate list.
pub struct Session {
    candidates: Vec<String>,
    query: Vec<char>,
    cursor: usize,
    ranked: Vec<Ranked>,
}

impl Session {
    /// The fixed candidates, in their original order.
    pub closed spec fn spec_candidates(&self) -> Seq<Seq<char>> {
        views(self.candidates@)
    }

    /// The current query.
    pub closed spec fn spec_query(&self) -> Seq<char> {
        self.query@
    }

    /// The selected position within the ranked list.
    pub closed spec fn spec_cursor(&self) -> int {
        self.cursor as int
    }

    /// The current ranked list.
    pub closed spec fn spec_ranked(&self) -> Seq<Ranked> {
        self.ranked@
    }

    /// The ranked list always ranks the candidates against the
    /// current query, and the cursor stays within it.
    pub open spec fn wf(&self) -> bool {
        &&& ranking_ok(self.spec_candidates(), self.spec_query(), self.spec_ranked())
        &&& if self.spec_ranked().len() == 0 {
            self.spec_cursor() == 0
        } else {
            0 <= self.spec_cursor() < self.spec_ranked().len()
        }
    }

    /// Opens a session: empty query, so the ranked list is the whole
    /// candidate list in its original order, cursor on the first.
    pub fn new(candidates: Vec<String>) -> (r: Session)
        ensures
            r.wf(),
            r.spec_candidates() == views(candidates@),
            r.spec_query() == Seq::<char>::empty(),
            r.spec_cursor() == 0,
            r.spec_ranked().len() == candidates@.len(),
    {
        let q: Vec<char> = Vec::new();
        let ranked = rank_candidates(&candidates, &q);
        proof {
            assert(q@ =~= Seq::<char>::empty());
        }
        Session { candidates, query: q, cursor: 0, ranked }
    }

    pub fn query_chars(&self) -> (r: &Vec<char>)
        ensures
            r@ == self.spec_query(),
    {
        &self.query
    }

    pub fn cursor(&self) -> (r: usize)
        ensures
            r as int == self.spec_cursor(),
    {
        self.cursor
    }

    pub fn ranked_len(&self) -> (r: usize)
        ensures
            r == self.spec_ranked().len(),
    {
        self.ranked.len()
    }

    /// The ranked entry at one position.
    pub fn ranked_item(&self, k: usize) -> (r: &Ranked)
        requires
            k < self.spec_ranked().len(),
        ensures
            *r == self.spec_ranked()[k as int],
    {
        &self.ranked[k]
    }

    /// The candidate behind the ranked entry at one position.
    pub fn ranked_candidate(&self, k: usize) -> (r: &String)
        requires
            self.wf(),
            k < self.spec_ranked().len(),
        ensures
            r@ == self.spec_candidates()[self.spec_ranked()[k as int].idx as int],
    {
        proof {
            assert(ranked_entry_ok(
                self.spec_candidates(),
                self.spec_query(),
                self.spec_ranked()[k as int],
            ));
        }
        let i = self.ranked[k].idx;
        &self.candidates[i]
    }

    /// Feeds one input event. `Some` ends the session: `Aborted` on
    /// abort, whatever the state; `Confirmed` with the candidate
    /// under the cursor on confirm, unless the ranked list is empty,
    /// in which case confirm does nothing and the loop goes on.
    pub fn handle_event(&mut self, ev: InputEvent) -> (r: Option<SelectionOutcome>)
        requires
            old(self).wf(),
        ensures
            final(self).wf(),
            final(self).spec_candidates() == old(self).spec_candidates(),
            ({
                let pre_ranked = old(self).spec_ranked();
                let pre_cursor = old(self).spec_cursor();
                match ev {
                    InputEvent::Abort => r == Some(SelectionOutcome::Aborted) && *final(self)
                        == *old(self),
                    InputEvent::Confirm => {
                        if pre_ranked.len() == 0 {
                            r is None && *final(self) == *old(self)
                        } else {
                            (r matches Some(SelectionOutcome::Confirmed(s)) && s@ == old(
                                self,
                            ).spec_candidates()[pre_ranked[pre_cursor].idx as int]) && *final(self)
                                == *old(self)
                        }
                    },
                    InputEvent::MoveDown => {
                        &&& r is None
                        &&& final(self).spec_query() == old(self).spec_query()
                        &&& final(self).spec_ranked() == pre_ranked
                        &&& final(self).spec_cursor() == if pre_ranked.len() > 0 && pre_cursor + 1
                            < pre_ranked.len() {
                            pre_cursor + 1
                        } else {
                            pre_cursor
                        }
                    },
                    InputEvent::MoveUp => {
                        &&& r is None
                        &&& final(self).spec_query() == old(self).spec_query()
                        &&& final(self).spec_ranked() == pre_ranked
                        &&& final(self).spec_cursor() == if pre_cursor > 0 {
                            pre_cursor - 1
                        } else {
                            0
                        }
                    },
                    InputEvent::Insert(c) => {
                        &&& r is None
                        &&& final(self).spec_query() == old(self).spec_query().push(c)
                        &&& final(self).spec_cursor() == 0
                    },
                    InputEvent::Backspace => {
                        &&& r is None
                        &&& final(self).spec_query() == if old(self).spec_query().len() > 0 {
                            old(self).spec_query().drop_last()
                        } else {
                            old(self).spec_query()
                        }
                        &&& final(self).spec_cursor() == 0
                    },
                }
            }),
    {
        match ev {
            InputEvent::Abort => Some(SelectionOutcome::Aborted),
            InputEvent::Confirm => {
                if self.ranked.len() == 0 {
                    None
                } else {
                    proof {
                        assert(ranked_entry_ok(
                            self.spec_candidates(),
                            self.spec_query(),
                            self.spec_ranked()[self.spec_cursor()],
                        ));
                    }
                    let i = self.ranked[self.cursor].idx;
                    Some(SelectionOutcome::Confirmed(self.candidates[i].clone()))
                }
            },
            InputEvent::MoveDown => {
                if self.ranked.len() > 0 && self.cursor + 1 < self.ranked.len() {
                    self.cursor = self.cursor + 1;
                }
                None
            },
            InputEvent::MoveUp => {
                if self.cursor > 0 {
                    self.cursor = self.cursor - 1;
                }
                None
            },
            InputEvent::Insert(c) => {
                self.query.push(c);
                self.ranked = rank_candidates(&self.candidates, &self.query);
                self.cursor = 0;
                None
            },
            InputEvent::Backspace => {
                if self.query.len() > 0 {
                    self.query.pop();
                    proof {
                        assert(self.query@ =~= old(self).spec_query().drop_last());
                    }
                }
                self.ranked = rank_candidates(&self.candidates, &self.query);
                self.cursor = 0;
                None
            },
        }
    }
}

} // verus!
