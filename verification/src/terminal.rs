//! Terminals: the size they start with, and the sessions of the panes.

use crate::text;
use crate::text_laws;
use std::collections::HashMap;
use vstd::prelude::*;
use vstd::string::StringExecFns;

verus! {

// ── sizes ───────────────────────────────────────────────────────────────────────

/// The rows and columns of an editor's terminal where the request does not give them.
pub const EDITOR_ROWS: u16 = 40;

pub const EDITOR_COLS: u16 = 120;

/// The rows and columns of a floating shell where the request does not give them.
pub const SHELL_ROWS: u16 = 24;

pub const SHELL_COLS: u16 = 80;

/// A value, or another where there is none.
pub open spec fn given_or(value: Option<u16>, other: u16) -> u16 {
    match value {
        Some(v) => v,
        None => other,
    }
}

/// The rows and columns of an editor's terminal.
pub open spec fn is_editor_size(rows: Option<u16>, cols: Option<u16>, r: (u16, u16)) -> bool {
    r == (given_or(rows, EDITOR_ROWS), given_or(cols, EDITOR_COLS))
}

/// The rows and columns of a floating shell.
pub open spec fn is_shell_size(rows: Option<u16>, cols: Option<u16>, r: (u16, u16)) -> bool {
    r == (given_or(rows, SHELL_ROWS), given_or(cols, SHELL_COLS))
}

/// The rows and columns of an editor's terminal.
pub fn editor_size(rows: Option<u16>, cols: Option<u16>) -> (r: (u16, u16))
    ensures
        is_editor_size(rows, cols, r),
{
    (rows.unwrap_or(EDITOR_ROWS), cols.unwrap_or(EDITOR_COLS))
}

/// The rows and columns of a floating shell.
pub fn shell_size(rows: Option<u16>, cols: Option<u16>) -> (r: (u16, u16))
    ensures
        is_shell_size(rows, cols, r),
{
    (rows.unwrap_or(SHELL_ROWS), cols.unwrap_or(SHELL_COLS))
}

// ── sessions ────────────────────────────────────────────────────────────────────

/// The sessions of the panes, each under its number. Numbers start at one, so that zero
/// can stand for no session.
pub struct SessionTermState<S> {
    sessions: HashMap<u32, S>,
    last_id: u32,
}

impl<S> View for SessionTermState<S> {
    type V = Map<u32, S>;

    closed spec fn view(&self) -> Map<u32, S> {
        self.sessions@
    }
}

/// How an unknown session is refused.
pub open spec fn no_session(id: u32) -> Seq<char> {
    "no terminal session "@ + text::decimal(id as nat)
}

impl<S> SessionTermState<S> {
    /// The number that was given out last; zero where none was.
    pub closed spec fn last(&self) -> u32 {
        self.last_id
    }

    /// Every session has a number that was given out.
    pub open spec fn is_valid(&self) -> bool {
        forall|id: u32| #[trigger] self@.dom().contains(id) ==> 1 <= id <= self.last()
    }

    /// No sessions, and there never were any.
    pub open spec fn is_new(&self) -> bool {
        &&& self@ == Map::<u32, S>::empty()
        &&& self.last() == 0
        &&& self.is_valid()
    }

    /// No sessions.
    pub fn new() -> (r: SessionTermState<S>)
        ensures
            r.is_new(),
    {
        broadcast use vstd::std_specs::hash::group_hash_axioms;

        SessionTermState { sessions: HashMap::new(), last_id: 0 }
    }

    /// Whether a number is left for another session.
    pub fn has_room(&self) -> (r: bool)
        ensures
            r == (self.last() < u32::MAX),
    {
        self.last_id < u32::MAX
    }

    /// The number `id` was given out, to no session yet.
    pub open spec fn is_numbered(
        before: SessionTermState<S>,
        id: u32,
        after: SessionTermState<S>,
    ) -> bool {
        &&& id == before.last() + 1
        &&& id != 0
        &&& !before@.dom().contains(id)
        &&& after.last() == id
        &&& after@ == before@
        &&& after.is_valid()
    }

    /// A number for a session that is to be spawned: it was never given out before. It is
    /// used up even if the session does not come about.
    pub fn next_id(&mut self) -> (id: u32)
        requires
            old(self).is_valid(),
            old(self).last() < u32::MAX,
        ensures
            Self::is_numbered(*old(self), id, *final(self)),
    {
        self.last_id = self.last_id + 1;
        self.last_id
    }

    /// A session is kept under the number `id`.
    pub open spec fn is_inserted(
        before: SessionTermState<S>,
        id: u32,
        session: S,
        after: SessionTermState<S>,
    ) -> bool {
        &&& after@ == before@.insert(id, session)
        &&& after.last() == before.last()
        &&& after.is_valid()
    }

    /// Keep a session that was spawned under the number `id`.
    pub fn insert(&mut self, id: u32, session: S)
        requires
            old(self).is_valid(),
            1 <= id <= old(self).last(),
        ensures
            Self::is_inserted(*old(self), id, session, *final(self)),
    {
        broadcast use vstd::std_specs::hash::group_hash_axioms;

        let _ = self.sessions.insert(id, session);
        assert(self@ =~= old(self)@.insert(id, session));
        assert forall|k: u32| #[trigger] self@.dom().contains(k) implies 1 <= k <= self.last() by {
            if k != id {
                assert(old(self)@.dom().contains(k));
            }
        }
    }

    /// What is found under the number `id`.
    pub open spec fn is_found(&self, id: u32, r: Result<&S, String>) -> bool {
        match r {
            Ok(s) => self@.dom().contains(id) && *s == self@[id],
            Err(e) => !self@.dom().contains(id) && e@ == no_session(id),
        }
    }

    /// The session `id`, to write to it or resize it.
    pub fn session(&self, id: u32) -> (r: Result<&S, String>)
        ensures
            self.is_found(id, r),
    {
        broadcast use vstd::std_specs::hash::group_hash_axioms;

        match self.sessions.get(&id) {
            Some(s) => Ok(s),
            None => {
                let mut e = "no terminal session ".to_owned();
                e.append(text::decimal_text(id as u64).as_str());
                Err(e)
            },
        }
    }

    /// The session `id`, if there was one, is no longer kept.
    pub open spec fn is_removed(
        before: SessionTermState<S>,
        id: u32,
        r: Option<S>,
        after: SessionTermState<S>,
    ) -> bool {
        &&& match r {
            Some(s) => before@.dom().contains(id) && s == before@[id],
            None => !before@.dom().contains(id),
        }
        &&& after@ == before@.remove(id)
        &&& after.last() == before.last()
        &&& after.is_valid()
    }

    /// Drop the session `id` and hand it over, to be killed. There may be none.
    pub fn remove(&mut self, id: u32) -> (r: Option<S>)
        requires
            old(self).is_valid(),
        ensures
            Self::is_removed(*old(self), id, r, *final(self)),
    {
        broadcast use vstd::std_specs::hash::group_hash_axioms;

        let r = self.sessions.remove(&id);
        assert(self@ =~= old(self)@.remove(id));
        r
    }
}

/// Panes do not touch each other: keeping or dropping one session leaves every other as it
/// was.
pub proof fn law_sessions_are_independent<S>(
    sessions: Map<u32, S>,
    id: u32,
    session: S,
    other: u32,
)
    requires
        id != other,
    ensures
        sessions.insert(id, session).dom().contains(other) == sessions.dom().contains(other),
        sessions.remove(id).dom().contains(other) == sessions.dom().contains(other),
        sessions.dom().contains(other) ==> sessions.insert(id, session)[other] == sessions[other]
            && sessions.remove(id)[other] == sessions[other],
{
}

/// Zero is never the number of a session.
pub proof fn law_zero_is_no_session<S>(state: SessionTermState<S>)
    requires
        state.is_valid(),
    ensures
        !state@.dom().contains(0),
{
}

/// A size that is given is taken, and another only where there is none.
pub proof fn law_given_size(value: u16, other: u16)
    ensures
        given_or(Some(value), other) == value,
        given_or(None, other) == other,
{
}

/// An unknown session is refused by its number.
pub proof fn law_refusal_names_session(id: u32) -> (digits: Seq<char>)
    ensures
        no_session(id) == "no terminal session "@ + digits,
        text::is_number(digits),
        text::number(digits) == id,
        digits[0] == '0' ==> digits.len() == 1,
{
    text_laws::law_decimal(id as nat);
    text::decimal(id as nat)
}

/// Terminals start with the rows and the columns that are given, each by itself. Where one
/// is not, an editor takes 40 rows or 120 columns and a floating shell 24 or 80.
pub proof fn law_sizes(
    rows: Option<u16>,
    cols: Option<u16>,
    editor: (u16, u16),
    shell: (u16, u16),
)
    requires
        is_editor_size(rows, cols, editor),
        is_shell_size(rows, cols, shell),
    ensures
        rows is Some ==> editor.0 == rows->0 && shell.0 == rows->0,
        cols is Some ==> editor.1 == cols->0 && shell.1 == cols->0,
        rows is None ==> editor.0 == 40 && shell.0 == 24,
        cols is None ==> editor.1 == 120 && shell.1 == 80,
{
}

/// Numbers start at one and are never given out twice, whatever was kept or dropped in
/// between; giving one out touches no session.
pub proof fn law_numbers_are_new<S>(
    start: SessionTermState<S>,
    id: u32,
    numbered: SessionTermState<S>,
    session: S,
    kept: SessionTermState<S>,
    dropped: Option<S>,
    end: SessionTermState<S>,
    other: u32,
    again: SessionTermState<S>,
)
    requires
        SessionTermState::is_numbered(start, id, numbered),
        SessionTermState::is_inserted(numbered, id, session, kept),
        SessionTermState::is_removed(kept, id, dropped, end),
        SessionTermState::is_numbered(end, other, again) || SessionTermState::is_numbered(
            kept,
            other,
            again,
        ) || SessionTermState::is_numbered(numbered, other, again),
    ensures
        start.is_new() ==> id == 1 && other == 2,
        other > id,
        numbered@ == start@,
{
}

/// A session that was kept is found under its number, and dropping it hands it over. From
/// then on its number is refused, and the sessions are those that there were before.
pub proof fn law_kept_until_dropped<S>(
    before: SessionTermState<S>,
    id: u32,
    session: S,
    kept: SessionTermState<S>,
    found: Result<&S, String>,
    dropped: Option<S>,
    after: SessionTermState<S>,
    missed: Result<&S, String>,
    again: Option<S>,
    end: SessionTermState<S>,
)
    requires
        !before@.dom().contains(id),
        SessionTermState::is_inserted(before, id, session, kept),
        kept.is_found(id, found),
        SessionTermState::is_removed(kept, id, dropped, after),
        after.is_found(id, missed),
        SessionTermState::is_removed(after, id, again, end),
    ensures
        found is Ok && *found->Ok_0 == session,
        dropped == Some(session),
        after@ == before@,
        missed is Err && missed->Err_0@ == no_session(id),
        again is None,
        end@ == before@,
{
    assert(after@ =~= before@);
    assert(end@ =~= before@);
}

/// Keeping or dropping one session changes nothing for another: it is found, or refused, as
/// it was before.
pub proof fn law_others_stay<S>(
    before: SessionTermState<S>,
    id: u32,
    session: S,
    kept: SessionTermState<S>,
    dropped: Option<S>,
    after: SessionTermState<S>,
    other: u32,
    r: Result<&S, String>,
)
    requires
        other != id,
        SessionTermState::is_inserted(before, id, session, kept),
        SessionTermState::is_removed(before, id, dropped, after),
    ensures
        before.is_found(other, r) <==> kept.is_found(other, r),
        before.is_found(other, r) <==> after.is_found(other, r),
{
}

} // verus!
