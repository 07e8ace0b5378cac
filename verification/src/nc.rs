//! The decisions of the NC cycle that do not touch the motion numbers: the
//! per-axis command-token ledger (rising edge, aborting buffer mode, the
//! safe-state guard, completion), the published axis state, and the fault
//! reaction over the engaged coupling subtree.

use vstd::prelude::*;
use crate::motion::{AxisState, CommandKind, Token, TokenState};
use crate::topology::{reachable, CouplingTopology};

verus! {

/// What the ledger makes of an incoming command.
#[derive(Clone, Copy, Debug, PartialEq, Eq, Structural)]
pub enum Intake {
    /// The token is the one already latched: not a rising edge, nothing to do.
    Ignore,
    /// A rising edge on an axis latched in `ErrorStop` for anything but
    /// `Power` or `Reset`: the token is recorded as `Error`, nothing runs.
    Rejected,
    /// A rising edge to carry out; settle it with [`TokenLedger::settle`].
    Proceed,
}

/// The per-axis command-token bookkeeping.
#[derive(Clone, Copy, Debug)]
pub struct TokenLedger {
    last_token: Token,
    token_state: TokenState,
    move_finite: bool,
    error_stop: bool,
    last_aborted: Option<Token>,
}

/// Whether `kind` re-arms an axis (and so passes the safe-state guard).
pub open spec fn rearms(kind: CommandKind) -> bool {
    kind == CommandKind::Power || kind == CommandKind::Reset
}

/// Whether a carried-out command of `kind` starts a finite (point-to-point)
/// move.
pub open spec fn is_finite_move(kind: CommandKind) -> bool {
    kind == CommandKind::MoveAbsolute || kind == CommandKind::MoveRelative
}

/// Whether a command of `kind` can run at all: `CamIn` and `FlyingSaw` cannot
/// be carried by a runtime command; `MoveAbsolute`, `MoveRelative`, `GearIn`
/// and `Superimpose` run only when `feasible` (the move was planned, a master
/// exists); the rest always run.
pub open spec fn runs(kind: CommandKind, feasible: bool) -> bool {
    match kind {
        CommandKind::CamIn | CommandKind::FlyingSaw => false,
        CommandKind::MoveAbsolute | CommandKind::MoveRelative | CommandKind::GearIn
        | CommandKind::Superimpose => feasible,
        _ => true,
    }
}

/// The published state of an axis: a latched safe-state reaction wins, an
/// enabled axis shows its motion state, any other is `Disabled`.
pub open spec fn shown_state(error_stop: bool, enabled: bool, nominal: AxisState) -> AxisState {
    if error_stop {
        AxisState::ErrorStop
    } else if enabled {
        nominal
    } else {
        AxisState::Disabled
    }
}

impl TokenLedger {
    /// The token latched last.
    pub closed spec fn spec_last_token(&self) -> Token {
        self.last_token
    }

    /// The lifecycle state of the latched token.
    pub closed spec fn spec_token_state(&self) -> TokenState {
        self.token_state
    }

    /// Whether a finite move is the active motion.
    pub closed spec fn spec_move_finite(&self) -> bool {
        self.move_finite
    }

    /// Whether the safe-state latch (`ErrorStop`) is set.
    pub closed spec fn spec_error_stop(&self) -> bool {
        self.error_stop
    }

    /// The token superseded on the latest rising edge while still `Active`.
    pub closed spec fn spec_last_aborted(&self) -> Option<Token> {
        self.last_aborted
    }

    /// A ledger with no command seen: token 0, `Idle`, no latch.
    pub fn new() -> (l: TokenLedger)
        ensures
            l.spec_last_token() == 0,
            l.spec_token_state() == TokenState::Idle,
            !l.spec_move_finite(),
            !l.spec_error_stop(),
            l.spec_last_aborted() is None,
    {
        TokenLedger {
            last_token: 0,
            token_state: TokenState::Idle,
            move_finite: false,
            error_stop: false,
            last_aborted: None,
        }
    }

    /// The token latched last.
    pub fn last_token(&self) -> (r: Token)
        ensures
            r == self.spec_last_token(),
    {
        self.last_token
    }

    /// The lifecycle state of the latched token.
    pub fn token_state(&self) -> (r: TokenState)
        ensures
            r == self.spec_token_state(),
    {
        self.token_state
    }

    /// Whether the safe-state latch is set.
    pub fn error_stop(&self) -> (r: bool)
        ensures
            r == self.spec_error_stop(),
    {
        self.error_stop
    }

    /// The token superseded on the latest rising edge while still `Active`.
    pub fn last_aborted_token(&self) -> (r: Option<Token>)
        ensures
            r == self.spec_last_aborted(),
    {
        self.last_aborted
    }

    /// Take in a command with `token` and `kind`. The same token as the one
    /// latched (once any command was seen) is ignored. Any other token is a
    /// rising edge: a still-`Active` predecessor is recorded as aborted, the
    /// token is latched, and on an axis in `ErrorStop` anything but `Power` or
    /// `Reset` is rejected with `Error`.
    pub fn intake(&mut self, token: Token, kind: CommandKind) -> (r: Intake)
        ensures
            intake_step(*old(self), *final(self), token, kind),
            r == intake_result(*old(self), token, kind),
    {
        if token == self.last_token && self.token_state != TokenState::Idle {
            return Intake::Ignore;
        }
        if self.token_state == TokenState::Active {
            self.last_aborted = Some(self.last_token);
        }
        self.last_token = token;
        let rearm = match kind {
            CommandKind::Power | CommandKind::Reset => true,
            _ => false,
        };
        if self.error_stop && !rearm {
            self.token_state = TokenState::Error;
            return Intake::Rejected;
        }
        Intake::Proceed
    }

    /// Settle a command of `kind` that [`TokenLedger::intake`] let through;
    /// `feasible` says whether the motion side could carry it out (the move was
    /// planned, a master exists). A command that runs makes the token `Active`;
    /// `Power` and `Reset` also lift the safe-state latch; a finite move is
    /// marked for completion, a continuous one clears that mark, a superimposed
    /// overlay leaves it. A command that cannot run makes the token `Error` and
    /// changes nothing else.
    pub fn settle(&mut self, kind: CommandKind, feasible: bool)
        ensures
            ({
                let o = *old(self);
                let f = *final(self);
                &&& f.spec_last_token() == o.spec_last_token()
                &&& f.spec_last_aborted() == o.spec_last_aborted()
                &&& if runs(kind, feasible) {
                    &&& f.spec_token_state() == TokenState::Active
                    &&& f.spec_error_stop() == (o.spec_error_stop() && !rearms(kind))
                    &&& f.spec_move_finite() == (if kind == CommandKind::Superimpose {
                        o.spec_move_finite()
                    } else {
                        is_finite_move(kind)
                    })
                } else {
                    &&& f.spec_token_state() == TokenState::Error
                    &&& f.spec_error_stop() == o.spec_error_stop()
                    &&& f.spec_move_finite() == o.spec_move_finite()
                }
            }),
    {
        match kind {
            CommandKind::Power | CommandKind::Reset => {
                self.error_stop = false;
                self.move_finite = false;
                self.token_state = TokenState::Active;
            },
            CommandKind::MoveVelocity | CommandKind::Stop | CommandKind::Halt => {
                self.move_finite = false;
                self.token_state = TokenState::Active;
            },
            CommandKind::MoveAbsolute | CommandKind::MoveRelative => {
                if feasible {
                    self.move_finite = true;
                    self.token_state = TokenState::Active;
                } else {
                    self.token_state = TokenState::Error;
                }
            },
            CommandKind::GearIn => {
                if feasible {
                    self.move_finite = false;
                    self.token_state = TokenState::Active;
                } else {
                    self.token_state = TokenState::Error;
                }
            },
            CommandKind::Superimpose => {
                if feasible {
                    self.token_state = TokenState::Active;
                } else {
                    self.token_state = TokenState::Error;
                }
            },
            CommandKind::CamIn | CommandKind::FlyingSaw => {
                self.token_state = TokenState::Error;
            },
        }
    }

    /// After a tick: an `Active` finite move whose profile has come to
    /// `standstill` is `Done`.
    pub fn complete(&mut self, standstill: bool)
        ensures
            ({
                let o = *old(self);
                let f = *final(self);
                if o.spec_move_finite() && o.spec_token_state() == TokenState::Active && standstill {
                    &&& f.spec_token_state() == TokenState::Done
                    &&& !f.spec_move_finite()
                    &&& f.spec_last_token() == o.spec_last_token()
                    &&& f.spec_last_aborted() == o.spec_last_aborted()
                    &&& f.spec_error_stop() == o.spec_error_stop()
                } else {
                    f == o
                }
            }),
    {
        if self.move_finite && self.token_state == TokenState::Active && standstill {
            self.token_state = TokenState::Done;
            self.move_finite = false;
        }
    }

    /// Lift the safe-state latch (the operator re-requested power).
    pub fn rearm(&mut self)
        ensures
            !final(self).spec_error_stop(),
            final(self).spec_token_state() == old(self).spec_token_state(),
            final(self).spec_last_token() == old(self).spec_last_token(),
            final(self).spec_last_aborted() == old(self).spec_last_aborted(),
            final(self).spec_move_finite() == old(self).spec_move_finite(),
    {
        self.error_stop = false;
    }

    /// Latch the safe-state reaction: the axis is published as `ErrorStop`
    /// until re-armed.
    pub fn force_error_stop(&mut self)
        ensures
            final(self).spec_error_stop(),
            final(self).spec_token_state() == old(self).spec_token_state(),
            final(self).spec_last_token() == old(self).spec_last_token(),
            final(self).spec_last_aborted() == old(self).spec_last_aborted(),
            final(self).spec_move_finite() == old(self).spec_move_finite(),
    {
        self.error_stop = true;
    }

    /// The state to publish for an axis whose drive is `enabled` and whose
    /// motion shows `nominal`.
    pub fn published_state(&self, enabled: bool, nominal: AxisState) -> (r: AxisState)
        ensures
            r == shown_state(self.spec_error_stop(), enabled, nominal),
    {
        if self.error_stop {
            AxisState::ErrorStop
        } else if enabled {
            nominal
        } else {
            AxisState::Disabled
        }
    }
}

/// Re-issuing the latched token is idempotent: once any command was seen,
/// taking in the same token again changes nothing.
pub proof fn law_same_token_is_idempotent(before: TokenLedger, after: TokenLedger, kind: CommandKind)
    requires
        before.spec_token_state() != TokenState::Idle,
        intake_step(before, after, before.spec_last_token(), kind),
    ensures
        after == before,
{
}

/// How [`TokenLedger::intake`] moves the ledger from `o` to `f`: the same
/// token (once any command was seen) changes nothing; any other token is
/// latched, a still-`Active` predecessor is recorded as aborted, and on an axis
/// latched in `ErrorStop` anything but `Power` or `Reset` turns the token to
/// `Error`.
pub open spec fn intake_step(o: TokenLedger, f: TokenLedger, token: Token, kind: CommandKind) -> bool {
    if token == o.spec_last_token() && o.spec_token_state() != TokenState::Idle {
        f == o
    } else {
        &&& f.spec_last_token() == token
        &&& f.spec_last_aborted() == (if o.spec_token_state() == TokenState::Active {
            Some(o.spec_last_token())
        } else {
            o.spec_last_aborted()
        })
        &&& f.spec_move_finite() == o.spec_move_finite()
        &&& f.spec_error_stop() == o.spec_error_stop()
        &&& if o.spec_error_stop() && !rearms(kind) {
            f.spec_token_state() == TokenState::Error
        } else {
            f.spec_token_state() == o.spec_token_state()
        }
    }
}

/// What [`TokenLedger::intake`] answers in state `o`.
pub open spec fn intake_result(o: TokenLedger, token: Token, kind: CommandKind) -> Intake {
    if token == o.spec_last_token() && o.spec_token_state() != TokenState::Idle {
        Intake::Ignore
    } else if o.spec_error_stop() && !rearms(kind) {
        Intake::Rejected
    } else {
        Intake::Proceed
    }
}

/// A command on an axis latched in `ErrorStop` never lifts the latch on its
/// way in, and unless it re-arms (`Power`, `Reset`) or repeats the latched
/// token it is answered with `Error`.
pub proof fn law_latched_axis_rejects_motion(before: TokenLedger, after: TokenLedger, token: Token, kind: CommandKind)
    requires
        before.spec_error_stop(),
        intake_step(before, after, token, kind),
    ensures
        after.spec_error_stop(),
        after.spec_move_finite() == before.spec_move_finite(),
        !rearms(kind) && intake_result(before, token, kind) != Intake::Ignore ==> after.spec_token_state()
            == TokenState::Error && intake_result(before, token, kind) == Intake::Rejected,
{
}

/// Whether axis `s` lies in the engaged subtree of some faulted axis.
pub open spec fn quick_stopped(engaged: Seq<u64>, faulted: Seq<bool>, s: int) -> bool {
    exists|a: int| 0 <= a < faulted.len() && #[trigger] faulted[a] && reachable(engaged, a, s)
}

/// The reaction to this cycle's faults: per axis, whether it is latched in
/// `ErrorStop` (it faulted itself, or lies in the engaged subtree of a faulted
/// axis) and whether it is driven to Quick Stop (it lies in such a subtree).
pub fn fault_reaction<const N: usize>(topology: &CouplingTopology<N>, faulted: &[bool]) -> (r: (Vec<bool>, Vec<bool>))
    requires
        topology.wf(),
        faulted@.len() == N,
    ensures
        r.0@.len() == N,
        r.1@.len() == N,
        forall|s: int|
            0 <= s < N ==> #[trigger] r.1@[s] == quick_stopped(topology.engaged_words(), faulted@, s),
        forall|s: int| 0 <= s < N ==> #[trigger] r.0@[s] == (faulted@[s] || r.1@[s]),
{
    let ghost e = topology.engaged_words();
    proof {
        topology.lemma_wf_lengths();
    }
    let mut stop: Vec<bool> = Vec::new();
    let mut quick: Vec<bool> = Vec::new();
    let mut i: usize = 0;
    while i < N
        invariant
            i <= N,
            stop@.len() == i,
            quick@.len() == i,
            forall|k: int| 0 <= k < i ==> !#[trigger] stop@[k],
            forall|k: int| 0 <= k < i ==> !#[trigger] quick@[k],
        decreases N - i,
    {
        stop.push(false);
        quick.push(false);
        i = i + 1;
    }
    let mut a: usize = 0;
    proof {
        assert forall|s: int| 0 <= s < N implies #[trigger] quick@[s] == exists|m: int|
            0 <= m < 0 && #[trigger] faulted@[m] && reachable(e, m, s) by {
            assert(!quick@[s]);
        }
    }
    while a < N
        invariant
            topology.wf(),
            e == topology.engaged_words(),
            N <= 64,
            faulted@.len() == N,
            a <= N,
            stop@.len() == N,
            quick@.len() == N,
            forall|s: int|
                0 <= s < N ==> #[trigger] quick@[s] == exists|m: int|
                    0 <= m < a && #[trigger] faulted@[m] && reachable(e, m, s),
            forall|s: int| 0 <= s < N ==> #[trigger] stop@[s] == ((s < a && faulted@[s]) || quick@[s]),
        decreases N - a,
    {
        if faulted[a] {
            let ghost q0 = quick@;
            let ghost s0 = stop@;
            stop.set(a, true);
            let ds = topology.engaged_downstream(a as u16);
            let mut k: usize = 0;
            while k < ds.len()
                invariant
                    k <= ds@.len(),
                    q0.len() == N,
                    s0.len() == N,
                    stop@.len() == N,
                    quick@.len() == N,
                    forall|i: int| 0 <= i < ds@.len() ==> (ds@[i] as int) < N,
                    forall|s: int|
                        0 <= s < N ==> #[trigger] quick@[s] == (q0[s] || exists|j: int|
                            0 <= j < k && ds@[j] == s),
                    forall|s: int|
                        0 <= s < N ==> #[trigger] stop@[s] == (s0[s] || s == a || exists|j: int|
                            0 <= j < k && ds@[j] == s),
                decreases ds@.len() - k,
            {
                let s = ds[k] as usize;
                quick.set(s, true);
                stop.set(s, true);
                proof {
                    assert(ds@[k as int] as int == s);
                }
                k = k + 1;
            }
            proof {
                assert forall|s: int| 0 <= s < N implies #[trigger] quick@[s] == exists|m: int|
                    0 <= m < a + 1 && #[trigger] faulted@[m] && reachable(e, m, s) by {
                    let in_ds = exists|j: int| 0 <= j < ds@.len() && ds@[j] == s;
                    assert(in_ds == ds@.contains(s as u16)) by {
                        if ds@.contains(s as u16) {
                            let j = choose|j: int| 0 <= j < ds@.len() && ds@[j] == s as u16;
                            assert(ds@[j] == s);
                        }
                        if in_ds {
                            let j = choose|j: int| 0 <= j < ds@.len() && ds@[j] == s;
                            assert(ds@[j] == s as u16);
                        }
                    }
                    if reachable(e, a as int, s) {
                        assert(faulted@[a as int]);
                    }
                    if exists|m: int| 0 <= m < a + 1 && #[trigger] faulted@[m] && reachable(e, m, s) {
                        let m = choose|m: int| 0 <= m < a + 1 && #[trigger] faulted@[m] && reachable(e, m, s);
                        if m < a {
                            assert(q0[s]);
                        }
                    }
                }
                assert forall|s: int| 0 <= s < N implies #[trigger] stop@[s] == ((s < a + 1 && faulted@[s])
                    || quick@[s]) by {
                    assert(s0[s] == ((s < a && faulted@[s]) || q0[s]));
                }
            }
        } else {
            proof {
                assert forall|s: int| 0 <= s < N implies #[trigger] quick@[s] == exists|m: int|
                    0 <= m < a + 1 && #[trigger] faulted@[m] && reachable(e, m, s) by {
                    if exists|m: int| 0 <= m < a + 1 && #[trigger] faulted@[m] && reachable(e, m, s) {
                        let m = choose|m: int| 0 <= m < a + 1 && #[trigger] faulted@[m] && reachable(e, m, s);
                        assert(m < a);
                    }
                }
            }
        }
        a = a + 1;
    }
    (stop, quick)
}

/// A latched safe-state reaction wins: while the latch is set the axis is
/// published as `ErrorStop`, whether or not its drive is enabled and whatever
/// its motion state; without the latch an enabled axis shows its motion state
/// and any other is `Disabled`.
pub proof fn law_latch_overrides_published_state(l: TokenLedger, enabled: bool, nominal: AxisState)
    ensures
        l.spec_error_stop() ==> shown_state(l.spec_error_stop(), enabled, nominal) == AxisState::ErrorStop,
        !l.spec_error_stop() && enabled ==> shown_state(l.spec_error_stop(), enabled, nominal) == nominal,
        !l.spec_error_stop() && !enabled ==> shown_state(l.spec_error_stop(), enabled, nominal)
            == AxisState::Disabled,
{
}

} // verus!
