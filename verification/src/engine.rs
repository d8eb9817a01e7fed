//! Decisions of the engine the host drives: how a turn request is
//! submitted, how a review answer becomes an operation, and what the host is
//! told back.

use vstd::prelude::*;
use crate::assoc::lemma_lookup_index;
use crate::assoc::lookup;
use crate::context_store::AdditionalContextEntry;
use crate::context_store::AdditionalContextKind;
use crate::describe::trim;
use crate::describe::trim_range;
use crate::text::chars_eq;
use crate::text::chars_of;
use crate::text::string_of;

verus! {

/// How a turn request is submitted.
#[derive(Debug, Clone, Copy, PartialEq, Eq, Structural)]
pub enum TurnMode {
    /// Start a turn, or steer the running one.
    StartOrSteer,
    /// Start a turn only when the thread is idle.
    StartIfIdle,
    /// Steer the running turn, which must be the expected one.
    Steer,
}

/// The mode of a turn request that names none.
pub fn default_turn_mode() -> (r: TurnMode)
    ensures
        r == TurnMode::StartOrSteer,
{
    TurnMode::StartOrSteer
}

/// One additional context value of a turn request, as the host sends it.
#[derive(Debug, Clone, PartialEq, Eq)]
pub struct ContextEntry {
    pub value: String,
    /// `untrusted` for user-side context; anything else, or nothing, for
    /// the application's own.
    pub kind: Option<String>,
}

pub open spec fn context_kind_spec(kind: Option<Seq<char>>) -> AdditionalContextKind {
    if kind == Some("untrusted"@) {
        AdditionalContextKind::Untrusted
    } else {
        AdditionalContextKind::Application
    }
}

pub open spec fn opt_view(o: Option<String>) -> Option<Seq<char>> {
    match o {
        Some(s) => Some(s@),
        None => None,
    }
}

impl ContextEntry {
    /// The entry as the thread stores it.
    pub fn into_entry(self) -> (r: AdditionalContextEntry)
        ensures
            r.value@ == self.value@,
            r.kind == context_kind_spec(opt_view(self.kind)),
    {
        let kind = match &self.kind {
            Some(k) => if chars_eq(&chars_of(k.as_str()), &chars_of("untrusted")) {
                AdditionalContextKind::Untrusted
            } else {
                AdditionalContextKind::Application
            },
            None => AdditionalContextKind::Application,
        };
        AdditionalContextEntry { value: self.value, kind }
    }
}

/// The additional context of a turn request as the thread stores it, key
/// by key.
pub fn into_context_entries(entries: Vec<(String, ContextEntry)>) -> (r: Vec<(String, AdditionalContextEntry)>)
    ensures
        r@.len() == entries@.len(),
        forall|i: int|
            0 <= i < r@.len() ==> (#[trigger] r@[i]).0@ == entries@[i].0@ && r@[i].1.value@ == entries@[i].1.value@
                && r@[i].1.kind == context_kind_spec(opt_view(entries@[i].1.kind)),
{
    let mut r: Vec<(String, AdditionalContextEntry)> = Vec::new();
    let mut i: usize = 0;
    while i < entries.len()
        invariant
            i <= entries.len(),
            r@.len() == i,
            forall|j: int|
                0 <= j < i ==> (#[trigger] r@[j]).0@ == entries@[j].0@ && r@[j].1.value@ == entries@[j].1.value@
                    && r@[j].1.kind == context_kind_spec(opt_view(entries@[j].1.kind)),
        decreases entries.len() - i,
    {
        let kind = match &entries[i].1.kind {
            Some(k) => Some(k.clone()),
            None => None,
        };
        let entry = ContextEntry { value: entries[i].1.value.clone(), kind };
        r.push((entries[i].0.clone(), entry.into_entry()));
        i = i + 1;
    }
    r
}

/// A host's answer to an approval request.
#[derive(Debug, Clone, PartialEq, Eq)]
pub struct ReviewRequest {
    /// `exec` for a command, `patch` for a patch.
    pub kind: String,
    pub id: String,
    pub turn_id: Option<String>,
    pub approved: bool,
    pub reason: Option<String>,
}

/// The decision sent to the thread.
#[derive(Debug, Clone, PartialEq, Eq)]
pub enum ReviewDecision {
    Approved,
    Denied { reason: String },
}

/// The operation that answers an approval request.
#[derive(Debug, Clone, PartialEq, Eq)]
pub enum ReviewOp {
    ExecApproval { id: String, turn_id: Option<String>, decision: ReviewDecision },
    PatchApproval { id: String, decision: ReviewDecision },
}

/// Why a host request is refused before it reaches a thread.
#[derive(Debug, Clone, PartialEq, Eq)]
pub enum EngineError {
    UnknownApprovalKind { kind: String },
    SteerWithoutTurnId,
    EmptyApiKey,
    UnknownThread { thread_id: String },
}

/// The text the host is shown for an [`EngineError`].
pub open spec fn engine_error_text(e: EngineError) -> Seq<char> {
    match e {
        EngineError::UnknownApprovalKind { kind } => "unknown approval kind: "@ + kind@,
        EngineError::SteerWithoutTurnId => "steer requires expected_turn_id"@,
        EngineError::EmptyApiKey => "api key is empty"@,
        EngineError::UnknownThread { thread_id } => "unknown thread "@ + thread_id@,
    }
}

impl EngineError {
    /// What the host is told.
    pub fn message(&self) -> (r: String)
        ensures
            r@ == engine_error_text(*self),
    {
        match self {
            EngineError::UnknownApprovalKind { kind } => {
                let mut r = "unknown approval kind: ".to_owned();
                crate::text::push_str(&mut r, kind.as_str());
                r
            },
            EngineError::SteerWithoutTurnId => "steer requires expected_turn_id".to_owned(),
            EngineError::EmptyApiKey => "api key is empty".to_owned(),
            EngineError::UnknownThread { thread_id } => {
                let mut r = "unknown thread ".to_owned();
                crate::text::push_str(&mut r, thread_id.as_str());
                r
            },
        }
    }
}

pub open spec fn decision_spec(approved: bool, reason: Option<Seq<char>>) -> Option<Seq<char>> {
    if approved {
        None
    } else {
        Some(
            match reason {
                Some(r) => r,
                None => "denied"@,
            },
        )
    }
}

pub open spec fn decision_view(d: ReviewDecision) -> Option<Seq<char>> {
    match d {
        ReviewDecision::Approved => None,
        ReviewDecision::Denied { reason } => Some(reason@),
    }
}

impl ReviewRequest {
    /// The operation answering the request: an exec approval (with its turn)
    /// for `exec`, a patch approval for `patch`; a denial without a reason
    /// says `denied`. Any other kind is refused.
    pub fn into_op(self) -> (r: Result<ReviewOp, EngineError>)
        ensures
            self.kind@ == "exec"@ ==> (r matches Ok(ReviewOp::ExecApproval { id, turn_id, decision }) && id@
                == self.id@ && opt_view(turn_id) == opt_view(self.turn_id) && decision_view(decision)
                == decision_spec(self.approved, opt_view(self.reason))),
            self.kind@ == "patch"@ ==> (r matches Ok(ReviewOp::PatchApproval { id, decision }) && id@ == self.id@
                && decision_view(decision) == decision_spec(self.approved, opt_view(self.reason))),
            self.kind@ != "exec"@ && self.kind@ != "patch"@ ==> (r matches Err(EngineError::UnknownApprovalKind { kind })
                && kind@ == self.kind@),
    {
        let decision = if self.approved {
            ReviewDecision::Approved
        } else {
            ReviewDecision::Denied {
                reason: match self.reason {
                    Some(r) => r,
                    None => string_of(&chars_of("denied")),
                },
            }
        };
        let k = chars_of(self.kind.as_str());
        proof {
            reveal_strlit("exec");
            reveal_strlit("patch");
            assert("exec"@.len() != "patch"@.len());
        }
        if chars_eq(&k, &chars_of("exec")) {
            Ok(ReviewOp::ExecApproval { id: self.id, turn_id: self.turn_id, decision })
        } else if chars_eq(&k, &chars_of("patch")) {
            Ok(ReviewOp::PatchApproval { id: self.id, decision })
        } else {
            Err(EngineError::UnknownApprovalKind { kind: self.kind })
        }
    }
}

/// How a turn is handed to the thread.
#[derive(Debug, Clone, PartialEq, Eq)]
pub enum SubmitPlan {
    StartOrSteer,
    StartIfIdle,
    Steer { expected_turn_id: String },
}

/// How a turn request is submitted; steering needs the turn it expects.
pub fn submit_plan(mode: TurnMode, expected_turn_id: Option<String>) -> (r: Result<SubmitPlan, EngineError>)
    ensures
        mode == TurnMode::StartOrSteer ==> r == Ok::<SubmitPlan, EngineError>(SubmitPlan::StartOrSteer),
        mode == TurnMode::StartIfIdle ==> r == Ok::<SubmitPlan, EngineError>(SubmitPlan::StartIfIdle),
        mode == TurnMode::Steer ==> match expected_turn_id {
            Some(t) => r matches Ok(SubmitPlan::Steer { expected_turn_id }) && expected_turn_id@ == t@,
            None => r == Err::<SubmitPlan, EngineError>(EngineError::SteerWithoutTurnId),
        },
{
    match mode {
        TurnMode::StartOrSteer => Ok(SubmitPlan::StartOrSteer),
        TurnMode::StartIfIdle => Ok(SubmitPlan::StartIfIdle),
        TurnMode::Steer => match expected_turn_id {
            Some(t) => Ok(SubmitPlan::Steer { expected_turn_id: t }),
            None => Err(EngineError::SteerWithoutTurnId),
        },
    }
}

/// What became of a submitted turn.
#[derive(Debug, Clone, PartialEq, Eq)]
pub enum TurnInputSubmission {
    Started { turn_id: String },
    Steered { turn_id: String },
    NotSubmitted { reason: String },
}

/// The reply the host gets: a status, and the turn id or the reason.
pub fn submission_reply(submission: &TurnInputSubmission) -> (r: (&'static str, String))
    ensures
        submission matches TurnInputSubmission::Started { turn_id } ==> r.0@ == "started"@ && r.1@ == turn_id@,
        submission matches TurnInputSubmission::Steered { turn_id } ==> r.0@ == "steered"@ && r.1@ == turn_id@,
        submission matches TurnInputSubmission::NotSubmitted { reason } ==> r.0@ == "not_submitted"@ && r.1@ == reason@,
{
    match submission {
        TurnInputSubmission::Started { turn_id } => ("started", turn_id.clone()),
        TurnInputSubmission::Steered { turn_id } => ("steered", turn_id.clone()),
        TurnInputSubmission::NotSubmitted { reason } => ("not_submitted", reason.clone()),
    }
}

/// Memory extraction starts in the background only when a new turn
/// started.
pub fn starts_memories(submission: &TurnInputSubmission) -> (r: bool)
    ensures
        r == (submission is Started),
{
    match submission {
        TurnInputSubmission::Started { .. } => true,
        _ => false,
    }
}

/// The working directory of a thread: the one asked for, else the engine's
/// home, never the host process's own.
pub fn thread_cwd(cwd: Option<String>, codex_home: &str) -> (r: String)
    ensures
        r@ == (match opt_view(cwd) {
            Some(c) => c,
            None => codex_home@,
        }),
{
    match cwd {
        Some(c) => c,
        None => string_of(&chars_of(codex_home)),
    }
}

/// An API key as it is saved: trimmed, and refused when nothing is left.
pub fn normalize_api_key(api_key: &str) -> (r: Result<String, EngineError>)
    ensures
        trim(api_key@).len() == 0 <==> r is Err,
        r matches Ok(k) ==> k@ == trim(api_key@),
        r matches Err(e) ==> e == EngineError::EmptyApiKey,
{
    let v = chars_of(api_key);
    let t = trim_range(&v, 0, v.len());
    assert(v@.subrange(0, v@.len() as int) =~= api_key@);
    if t.len() == 0 {
        Err(EngineError::EmptyApiKey)
    } else {
        Ok(string_of(&t))
    }
}

/// The client identity sent by default (`originator` header and
/// User-Agent).
pub const DEFAULT_ORIGINATOR: &'static str = "astrbot";

/// The client identity the engine sends: the one the host asks for (e.g.
/// `codex-tui`), else [`DEFAULT_ORIGINATOR`].
pub fn client_originator(requested: Option<&str>) -> (r: String)
    ensures
        r@ == (match requested {
            Some(o) => o@,
            None => DEFAULT_ORIGINATOR@,
        }),
{
    match requested {
        Some(o) => o.to_owned(),
        None => DEFAULT_ORIGINATOR.to_owned(),
    }
}

/// Where a device-code login stands.
#[derive(Debug, Clone, PartialEq, Eq)]
pub enum LoginState {
    Pending,
    Success,
    Failed { error: String },
}

/// What the host is told of a login: its status, and the error of a failed
/// one. A login that is not known (never started, or replaced) is
/// `unknown`.
pub fn login_status(state: Option<&LoginState>) -> (r: (&'static str, Option<String>))
    ensures
        state is None ==> r.0@ == "unknown"@ && r.1 is None,
        state matches Some(LoginState::Pending) ==> r.0@ == "pending"@ && r.1 is None,
        state matches Some(LoginState::Success) ==> r.0@ == "success"@ && r.1 is None,
        state matches Some(LoginState::Failed { error }) ==> r.0@ == "failed"@ && opt_view(r.1) == Some(error@),
{
    match state {
        None => ("unknown", None),
        Some(LoginState::Pending) => ("pending", None),
        Some(LoginState::Success) => ("success", None),
        Some(LoginState::Failed { error }) => ("failed", Some(error.clone())),
    }
}

pub open spec fn logins_view(logins: Seq<(String, LoginState)>) -> Seq<(Seq<char>, LoginState)> {
    logins.map_values(|l: (String, LoginState)| (l.0@, l.1))
}

pub open spec fn login_ids(logins: Seq<(String, LoginState)>) -> Seq<Seq<char>> {
    logins.map_values(|l: (String, LoginState)| l.0@)
}

/// The status of a login as [`login_status`] reports it: the status word,
/// and the error of a failed login.
pub open spec fn status_spec(state: Option<LoginState>) -> (Seq<char>, Option<Seq<char>>) {
    match state {
        None => ("unknown"@, None),
        Some(LoginState::Pending) => ("pending"@, None),
        Some(LoginState::Success) => ("success"@, None),
        Some(LoginState::Failed { error }) => ("failed"@, Some(error@)),
    }
}

/// No two logins share an id.
pub open spec fn ids_unique(logins: Seq<(String, LoginState)>) -> bool {
    forall|a: int, b: int| 0 <= a < b < logins.len() ==> #[trigger] logins[a].0@ != #[trigger] logins[b].0@
}

/// The device-code logins in flight, by id.
pub struct DeviceLogins {
    pub logins: Vec<(String, LoginState)>,
}

impl DeviceLogins {
    /// Each login is tracked under its own id.
    pub open spec fn wf(&self) -> bool {
        ids_unique(self.logins@)
    }

    pub fn new() -> (r: Self)
        ensures
            r.logins@.len() == 0,
            r.wf(),
    {
        DeviceLogins { logins: Vec::new() }
    }

    /// Starts tracking login `id`, pending. Only one login flow runs at a
    /// time: the others are dropped, and their ids returned so that their
    /// flows are stopped.
    pub fn start(&mut self, id: String) -> (dropped: Vec<String>)
        ensures
            logins_view(final(self).logins@) == seq![(id@, LoginState::Pending)],
            final(self).wf(),
            dropped@.map_values(|d: String| d@) == login_ids(old(self).logins@),
    {
        let mut dropped: Vec<String> = Vec::new();
        let mut i: usize = 0;
        while i < self.logins.len()
            invariant
                i <= self.logins.len(),
                dropped@.map_values(|d: String| d@) == login_ids(self.logins@).take(i as int),
            decreases self.logins.len() - i,
        {
            let ghost old_d = dropped@;
            dropped.push(self.logins[i].0.clone());
            proof {
                assert(dropped@.map_values(|d: String| d@) =~= old_d.map_values(|d: String| d@).push(self.logins@[i as int].0@));
                assert(login_ids(self.logins@).take(i + 1) =~= login_ids(self.logins@).take(i as int).push(self.logins@[i as int].0@));
            }
            i = i + 1;
        }
        assert(login_ids(self.logins@).take(self.logins.len() as int) =~= login_ids(self.logins@));
        self.logins = vec![(id, LoginState::Pending)];
        assert(logins_view(self.logins@) =~= seq![(id@, LoginState::Pending)]);
        dropped
    }

    fn position(&self, id: &str) -> (r: Option<usize>)
        ensures
            match r {
                Some(i) => i < self.logins@.len() && logins_view(self.logins@)[i as int].0 == id@ && lookup(
                    logins_view(self.logins@),
                    id@,
                ) == Some(self.logins@[i as int].1) && (forall|j: int|
                    0 <= j < i ==> #[trigger] logins_view(self.logins@)[j].0 != id@),
                None => lookup(logins_view(self.logins@), id@) is None,
            },
    {
        let want = chars_of(id);
        let mut i: usize = 0;
        while i < self.logins.len()
            invariant
                i <= self.logins.len(),
                want@ == id@,
                forall|j: int| 0 <= j < i ==> #[trigger] logins_view(self.logins@)[j].0 != id@,
            decreases self.logins.len() - i,
        {
            if chars_eq(&chars_of(self.logins[i].0.as_str()), &want) {
                proof {
                    lemma_lookup_index(logins_view(self.logins@), id@, i as int);
                }
                return Some(i);
            }
            i = i + 1;
        }
        proof {
            lemma_lookup_index(logins_view(self.logins@), id@, i as int);
        }
        None
    }

    /// Records how login `id` ended, if it is still tracked.
    pub fn finish(&mut self, id: &str, state: LoginState)
        ensures
            lookup(logins_view(old(self).logins@), id@) is Some ==> lookup(logins_view(final(self).logins@), id@) == Some(state),
            lookup(logins_view(old(self).logins@), id@) is None ==> final(self).logins@ == old(self).logins@,
            login_ids(final(self).logins@) == login_ids(old(self).logins@),
            old(self).wf() ==> final(self).wf(),
    {
        let ghost before = self.logins@;
        match self.position(id) {
            Some(i) => {
                let key = self.logins[i].0.clone();
                self.logins.set(i, (key, state));
                proof {
                    assert(login_ids(self.logins@) =~= login_ids(before));
                    assert forall|a: int, b: int| 0 <= a < b < self.logins@.len() && ids_unique(before) implies
                        #[trigger] self.logins@[a].0@ != #[trigger] self.logins@[b].0@ by {
                        assert(login_ids(self.logins@)[a] == login_ids(before)[a]);
                        assert(login_ids(self.logins@)[b] == login_ids(before)[b]);
                    }
                    assert forall|j: int| 0 <= j < i implies #[trigger] logins_view(self.logins@)[j].0 != id@ by {
                        assert(logins_view(self.logins@)[j] == logins_view(before)[j]);
                    }
                    lemma_lookup_index(logins_view(self.logins@), id@, i as int);
                }
            },
            None => {},
        }
    }

    /// What the host is told of login `id`: as [`login_status`] says for
    /// its state; `unknown` when it is not tracked.
    pub fn status(&self, id: &str) -> (r: (&'static str, Option<String>))
        ensures
            (r.0@, opt_view(r.1)) == status_spec(lookup(logins_view(self.logins@), id@)),
    {
        match self.position(id) {
            Some(i) => login_status(Some(&self.logins[i].1)),
            None => login_status(None),
        }
    }

    /// Stops tracking login `id`; whether it was tracked. A cancelled
    /// login then reads as unknown.
    pub fn cancel(&mut self, id: &str) -> (r: bool)
        ensures
            r == lookup(logins_view(old(self).logins@), id@) is Some,
            r ==> exists|i: int|
                0 <= i < old(self).logins@.len() && #[trigger] old(self).logins@[i].0@ == id@
                    && final(self).logins@ == old(self).logins@.remove(i),
            !r ==> final(self).logins@ == old(self).logins@,
            old(self).wf() ==> final(self).wf(),
            old(self).wf() ==> lookup(logins_view(final(self).logins@), id@) is None,
    {
        let ghost before = self.logins@;
        match self.position(id) {
            Some(i) => {
                self.logins.remove(i);
                proof {
                    assert(self.logins@ =~= before.remove(i as int));
                    if ids_unique(before) {
                        assert forall|a: int, b: int| 0 <= a < b < self.logins@.len() implies
                            #[trigger] self.logins@[a].0@ != #[trigger] self.logins@[b].0@ by {
                            let a2 = if a < i { a } else { a + 1 };
                            let b2 = if b < i { b } else { b + 1 };
                            assert(self.logins@[a] == before[a2]);
                            assert(self.logins@[b] == before[b2]);
                            assert(before[a2].0@ != before[b2].0@);
                        }
                        assert forall|j: int| 0 <= j < self.logins@.len() implies
                            #[trigger] logins_view(self.logins@)[j].0 != id@ by {
                            let j2 = if j < i { j } else { j + 1 };
                            assert(self.logins@[j] == before[j2]);
                            assert(before[i as int].0@ != before[j2].0@ || j2 == i);
                        }
                        lemma_lookup_index(logins_view(self.logins@), id@, self.logins@.len() as int);
                    }
                }
                true
            },
            None => false,
        }
    }
}

pub open spec fn hex_char(d: nat) -> char {
    if d < 10 {
        ((d + 48) as u32) as char
    } else {
        ((d + 87) as u32) as char
    }
}

/// Lowercase hexadecimal digits of `n`, without leading zeros.
pub open spec fn lower_hex(n: nat) -> Seq<char>
    decreases n,
{
    if n < 16 {
        seq![hex_char(n)]
    } else {
        lower_hex(n / 16).push(hex_char(n % 16))
    }
}

fn push_hex(out: &mut Vec<char>, n: u128)
    ensures
        final(out)@ == old(out)@ + lower_hex(n as nat),
    decreases n,
{
    if n >= 16 {
        push_hex(out, n / 16);
    }
    let d: u8 = (n % 16) as u8;
    let c = if d < 10 { (d + 48) as char } else { (d + 87) as char };
    out.push(c);
    assert(out@ =~= old(out)@ + lower_hex(n as nat));
}

/// The id of a device-code login started at `nanos` nanoseconds past the
/// Unix epoch: `login-` and the time in lowercase hex.
pub fn login_id(nanos: u128) -> (r: String)
    ensures
        r@ == "login-"@ + lower_hex(nanos as nat),
{
    let mut v = chars_of("login-");
    push_hex(&mut v, nanos);
    string_of(&v)
}

/// The indices below `n` of the models listed: those shown in the picker,
/// or all of them when hidden ones are asked for, in order.
pub open spec fn listed_upto(show_in_picker: Seq<bool>, include_hidden: bool, n: int) -> Seq<usize>
    decreases n,
{
    if n <= 0 {
        seq![]
    } else {
        let rest = listed_upto(show_in_picker, include_hidden, n - 1);
        if include_hidden || show_in_picker[n - 1] {
            rest.push((n - 1) as usize)
        } else {
            rest
        }
    }
}

/// Which models are listed, by index.
pub fn listed_models(show_in_picker: &Vec<bool>, include_hidden: bool) -> (r: Vec<usize>)
    ensures
        r@ == listed_upto(show_in_picker@, include_hidden, show_in_picker@.len() as int),
{
    let mut r: Vec<usize> = Vec::new();
    let mut i: usize = 0;
    while i < show_in_picker.len()
        invariant
            i <= show_in_picker.len(),
            r@ == listed_upto(show_in_picker@, include_hidden, i as int),
        decreases show_in_picker.len() - i,
    {
        if include_hidden || show_in_picker[i] {
            r.push(i);
        }
        i = i + 1;
    }
    r
}

} // verus!
