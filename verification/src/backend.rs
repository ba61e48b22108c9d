//! The in-process backend: the complete engine running inside the
//! frontend itself, no shell required.
//!
//! One [`SessionArc`] lives in the backend, and every call is a direct,
//! synchronous call on it. Where the frontend keeps the backend and
//! where the seed for a fresh session comes from is the frontend's
//! business; everything that decides what a call answers is here.
use vstd::prelude::*;
use crate::action::Action;
use crate::chips::{ChipStack, Counts};
use crate::rules::spec_canonical;
use crate::session::{
    BackendError, SessionArc, SessionModel, SessionStatus, SessionView, between_rounds, conserved,
    fresh_session, human_action_answer, session_wf, shows,
};

verus! {

/// A backend running the engine in-process: the live session, if one
/// has been started.
pub struct InProcessBackend {
    session: Option<SessionArc>,
}

impl InProcessBackend {
    /// The model of the live session, if any.
    pub closed spec fn live(&self) -> Option<SessionModel> {
        match self.session {
            Some(s) => Some(s.model()),
            None => None,
        }
    }

    #[verifier::type_invariant]
    closed spec fn session_is_wf(self) -> bool {
        self.session matches Some(s) ==> session_wf(s.model())
    }

    /// A new backend with no session yet.
    pub fn new() -> (b: InProcessBackend)
        ensures
            b.live() is None,
    {
        InProcessBackend { session: None }
    }

    /// Start a fresh session seeded from `seed`, replacing any existing
    /// one. Events are empty: the player arrives at a table that simply
    /// is.
    pub fn start_session(&mut self, seed: u64) -> (r: Result<SessionView, BackendError>)
        ensures
            final(self).live() matches Some(m) && fresh_session(m),
            r matches Ok(v) && final(self).live() matches Some(m) && shows(m, v)
                && v.transition.events@.len() == 0,
    {
        let session = SessionArc::from_seed(seed);
        let v = session.view();
        self.session = Some(session);
        Ok(v)
    }

    /// Start a fresh session from `chips` at a table seeded from `seed`,
    /// after `warmup_rounds` AI-only rounds, replacing any existing one:
    /// for a poor player or a known table depth.
    pub fn start_session_with_buy_in(
        &mut self,
        seed: u64,
        chips: ChipStack,
        warmup_rounds: u32,
    ) -> (r: Result<SessionView, BackendError>)
        ensures
            final(self).live() matches Some(m) && m.status == SessionStatus::Playing && m.rack
                == chips@ && m.felt == Counts::empty() && m.life.table.rules == spec_canonical()
                && m.life.human_seat == spec_canonical().seats / 2 && !m.life.sitting_out,
            r matches Ok(v) && final(self).live() matches Some(m) && shows(m, v)
                && v.transition.events@.len() == 0,
    {
        let session = SessionArc::with_buy_in(seed, chips, warmup_rounds);
        let v = session.view();
        self.session = Some(session);
        Ok(v)
    }

    /// The current state, changing nothing (events empty), or
    /// [`BackendError::NoSession`].
    pub fn view(&self) -> (r: Result<SessionView, BackendError>)
        ensures
            self.live() is None ==> r == Err::<SessionView, BackendError>(BackendError::NoSession),
            self.live() matches Some(m) ==> r matches Ok(v) && shows(m, v)
                && v.transition.events@.len() == 0,
    {
        proof {
            use_type_invariant(self);
        }
        match &self.session {
            Some(s) => Ok(s.view()),
            None => Err(BackendError::NoSession),
        }
    }

    /// One engine beat on the live session, or
    /// [`BackendError::NoSession`].
    pub fn advance(&mut self) -> (r: Result<SessionView, BackendError>)
        ensures
            old(self).live() is None ==> r == Err::<SessionView, BackendError>(BackendError::NoSession)
                && final(self).live() is None,
            old(self).live() matches Some(m0) ==> final(self).live() matches Some(m1) && r matches Ok(
                v,
            ) && shows(m1, v) && conserved(m0, m1) && (m0.status == SessionStatus::Playing
                ==> crate::life::engine_beat(m0.life, m1.life)),
    {
        proof {
            use_type_invariant(&*self);
        }
        let mut current: Option<SessionArc> = None;
        std::mem::swap(&mut current, &mut self.session);
        match current {
            Some(mut s) => {
                let v = s.advance();
                self.session = Some(s);
                Ok(v)
            },
            None => Err(BackendError::NoSession),
        }
    }

    /// Submit one action for the human seat of the live session, or
    /// [`BackendError::NoSession`].
    pub fn human_action(&mut self, action: Action) -> (r: Result<SessionView, BackendError>)
        ensures
            old(self).live() is None ==> r == Err::<SessionView, BackendError>(BackendError::NoSession)
                && final(self).live() is None,
            old(self).live() matches Some(m0) ==> final(self).live() matches Some(m1) && (r is Err
                ==> m1 == m0) && (r matches Ok(v) ==> shows(m1, v) && conserved(m0, m1))
                && human_action_answer(m0, action, r),
    {
        proof {
            use_type_invariant(&*self);
        }
        let mut current: Option<SessionArc> = None;
        std::mem::swap(&mut current, &mut self.session);
        match current {
            Some(mut s) => {
                let r = s.human_action(action);
                self.session = Some(s);
                r
            },
            None => Err(BackendError::NoSession),
        }
    }

    /// Leave the table in the live session, or
    /// [`BackendError::NoSession`].
    pub fn walk_away(&mut self) -> (r: Result<SessionView, BackendError>)
        ensures
            old(self).live() is None ==> r == Err::<SessionView, BackendError>(BackendError::NoSession)
                && final(self).live() is None,
            old(self).live() matches Some(m0) ==> final(self).live() matches Some(m1) && (r is Err
                ==> m1 == m0) && (r matches Ok(v) ==> shows(m1, v) && m1.status
                == (SessionStatus::CashedOut { dollars: m0.rack.total() as u32 })) && (m0.status
                != SessionStatus::Playing ==> r == Err::<SessionView, BackendError>(
                BackendError::SessionOver,
            )) && (m0.status == SessionStatus::Playing && !between_rounds(m0) ==> r
                == Err::<SessionView, BackendError>(BackendError::NotBetweenRounds)) && (between_rounds(m0)
                ==> r is Ok),
    {
        proof {
            use_type_invariant(&*self);
        }
        let mut current: Option<SessionArc> = None;
        std::mem::swap(&mut current, &mut self.session);
        match current {
            Some(mut s) => {
                let r = s.walk_away();
                self.session = Some(s);
                r
            },
            None => Err(BackendError::NoSession),
        }
    }
}

} // verus!
