//! Claiming a puck for a bay: the sequence of serial commands and API calls,
//! as a state machine. The caller performs each action (a puck command, an
//! API call) and hands the outcome back as the next event; the machine
//! decides what comes next.

use vstd::prelude::*;
use crate::puck::{
    byte_len, device_id_from_info, info_field, info_value, normalize_bay_id, normalized_bay,
    opt_view, provision_reply, ClaimPuckResult, ProvisionReply,
};
use crate::secret::{hmac_hex, hmac_hex_result, is_secret_hex, random_secret_hex};
use crate::text::{
    chars_of, has_prefix, starts_with, lower_seq, push_str, seq_eq, split_ws, string_of, trim,
    trim_bounds, utf8_len_is, views, words, lower_chars,
};

verus! {

/// Where a claim stands.
#[derive(PartialEq, Eq, Structural)]
pub enum ClaimPhase {
    /// Waiting for the puck's answer to `INFO`.
    AwaitInfo,
    /// Waiting for ThermalTrace to start a claim for a device the puck already knew.
    AwaitStartKnown,
    /// Waiting for the puck to wipe itself after that was refused.
    AwaitWipe,
    /// Waiting for the puck's answer to `PROVISION`.
    AwaitProvision,
    /// Waiting for the puck's answer to `INFO` after provisioning.
    AwaitProvisionInfo,
    /// Waiting for ThermalTrace to register the new device.
    AwaitRegister,
    /// Waiting for ThermalTrace to start a claim for the new device.
    AwaitStartNew,
    /// Waiting for the puck's answer to the challenge (the user presses it).
    AwaitChallenge,
    /// Waiting for ThermalTrace to finish the claim.
    AwaitFinish,
    /// Waiting for the puck to take its bay and space.
    AwaitConfig,
    /// Waiting for the puck to show the first mood.
    AwaitMood,
    /// Done, or failed.
    Finished,
}

/// A claim in progress, as plain values.
pub struct ClaimState {
    pub phase: ClaimPhase,
    pub bay_id: Seq<char>,
    pub space_name: Seq<char>,
    pub device_id: Option<Seq<char>>,
    pub secret_hex: Option<Seq<char>>,
    pub nonce_hex: Option<Seq<char>>,
    pub response_hex: Option<Seq<char>>,
    pub claimed_bay: Seq<char>,
    pub claimed_space: Seq<char>,
}

/// What the caller is asked to do next, as plain values.
pub enum ActionSpec {
    Puck(Seq<char>, u64),
    Register(Seq<char>, Seq<char>),
    ClaimStart(Seq<char>, Seq<char>),
    ClaimFinish(Seq<char>, Seq<char>, Seq<char>, Seq<char>, Seq<char>),
    Done(Seq<char>, Seq<char>, Seq<char>, Seq<char>),
    Fail(Seq<char>),
}

/// What came of the last action, as plain values.
pub enum EventSpec {
    Puck(Result<Seq<char>, Seq<char>>),
    Registered(Result<(), Seq<char>>),
    Started(Result<Seq<char>, Seq<char>>),
    Finished(Result<(Seq<char>, Seq<char>), Seq<char>>),
}

/// What the caller is asked to do next.
pub enum ClaimAction {
    /// Send `line` to the puck and wait up to `timeout_secs` for its answer.
    Puck { line: String, timeout_secs: u64 },
    /// `POST /api/pucks/register` with the device id and its secret.
    Register { device_id: String, secret_hex: String },
    /// `POST /api/pucks/claim/start` for the device and bay; the answer is a nonce.
    ClaimStart { device_id: String, bay_id: String },
    /// `POST /api/pucks/claim/finish`; the answer is the bay and space as ThermalTrace has them.
    ClaimFinish {
        device_id: String,
        bay_id: String,
        nonce_hex: String,
        response_hex: String,
        space_name: String,
    },
    /// The claim is done.
    Done(ClaimPuckResult),
    /// The claim failed with this error.
    Fail(String),
}

/// What came of the last action.
pub enum ClaimEvent {
    /// The puck's answer (or the error of talking to it).
    Puck(Result<String, String>),
    /// The outcome of registering the device.
    Registered(Result<(), String>),
    /// The nonce of a started claim, or the error.
    Started(Result<String, String>),
    /// The bay id and space name of a finished claim, or the error.
    Finished(Result<(String, String), String>),
}

impl View for ClaimAction {
    type V = ActionSpec;

    open spec fn view(&self) -> ActionSpec {
        match self {
            ClaimAction::Puck { line, timeout_secs } => ActionSpec::Puck(line@, *timeout_secs),
            ClaimAction::Register { device_id, secret_hex } => ActionSpec::Register(
                device_id@,
                secret_hex@,
            ),
            ClaimAction::ClaimStart { device_id, bay_id } => ActionSpec::ClaimStart(
                device_id@,
                bay_id@,
            ),
            ClaimAction::ClaimFinish { device_id, bay_id, nonce_hex, response_hex, space_name } =>
                ActionSpec::ClaimFinish(
                device_id@,
                bay_id@,
                nonce_hex@,
                response_hex@,
                space_name@,
            ),
            ClaimAction::Done(r) => ActionSpec::Done(
                r.device_id@,
                r.bay_id@,
                r.space_name@,
                r.message@,
            ),
            ClaimAction::Fail(e) => ActionSpec::Fail(e@),
        }
    }
}

impl View for ClaimEvent {
    type V = EventSpec;

    open spec fn view(&self) -> EventSpec {
        match self {
            ClaimEvent::Puck(r) => EventSpec::Puck(
                match r {
                    Ok(s) => Ok(s@),
                    Err(e) => Err(e@),
                },
            ),
            ClaimEvent::Registered(r) => EventSpec::Registered(
                match r {
                    Ok(_) => Ok(()),
                    Err(e) => Err(e@),
                },
            ),
            ClaimEvent::Started(r) => EventSpec::Started(
                match r {
                    Ok(s) => Ok(s@),
                    Err(e) => Err(e@),
                },
            ),
            ClaimEvent::Finished(r) => EventSpec::Finished(
                match r {
                    Ok((b, s)) => Ok((b@, s@)),
                    Err(e) => Err(e@),
                },
            ),
        }
    }
}

/// The message of a finished claim.
pub open spec fn claimed_message() -> Seq<char> {
    "Claimed — press was accepted. Mood light set to cozy."@
}

/// The state after a failure, and the failure.
pub open spec fn fail_with(s: ClaimState, e: Seq<char>) -> (ClaimState, ActionSpec) {
    (ClaimState { phase: ClaimPhase::Finished, ..s }, ActionSpec::Fail(e))
}

/// Start provisioning the puck with the fresh secret `fresh`.
pub open spec fn provision_with(s: ClaimState, fresh: Seq<char>) -> (ClaimState, ActionSpec) {
    (
        ClaimState { phase: ClaimPhase::AwaitProvision, secret_hex: Some(fresh), ..s },
        ActionSpec::Puck("PROVISION "@ + fresh, 5),
    )
}

/// Register the device `id` (with the secret made for it).
pub open spec fn register_with(s: ClaimState, id: Seq<char>) -> (ClaimState, ActionSpec) {
    (
        ClaimState { phase: ClaimPhase::AwaitRegister, device_id: Some(id), ..s },
        ActionSpec::Register(id, s.secret_hex->0),
    )
}

/// Send the challenge `nonce` to the puck.
pub open spec fn challenge_with(s: ClaimState, nonce: Seq<char>) -> (ClaimState, ActionSpec) {
    (
        ClaimState { phase: ClaimPhase::AwaitChallenge, nonce_hex: Some(nonce), ..s },
        ActionSpec::Puck("CHALLENGE "@ + nonce, 35),
    )
}

/// A device id as the puck reports it in `INFO`, if it is 32 bytes long.
pub open spec fn info_device(info: Seq<char>) -> Option<Seq<char>> {
    match info_value(info, "device"@) {
        Some(d) => if byte_len(d) == 32 {
            Some(d)
        } else {
            None
        },
        None => None,
    }
}

/// The puck says it is provisioned.
pub open spec fn info_provisioned(info: Seq<char>) -> bool {
    info_value(info, "provisioned"@) == Some("yes"@)
}

/// After the answer to the challenge: the answer's second word, lower-cased,
/// checked against the expected HMAC when this claim made the secret.
pub open spec fn after_challenge(s: ClaimState, line: Seq<char>) -> (ClaimState, ActionSpec) {
    if !starts_with(line, "RESPONSE "@) {
        fail_with(s, line)
    } else if words(line).len() < 2 {
        fail_with(s, "empty RESPONSE"@)
    } else {
        let resp = lower_seq(words(line)[1]);
        let go = (
            ClaimState { phase: ClaimPhase::AwaitFinish, response_hex: Some(resp), ..s },
            ActionSpec::ClaimFinish(
                s.device_id->0,
                s.bay_id,
                s.nonce_hex->0,
                resp,
                s.space_name,
            ),
        );
        match s.secret_hex {
            Some(sec) => match hmac_hex_result(sec, s.nonce_hex->0) {
                Err(e) => fail_with(s, e),
                Ok(expect) => if expect != resp {
                    fail_with(s, "local verify failed expected="@ + expect)
                } else {
                    go
                },
            },
            None => go,
        }
    }
}

/// The next state and action of a claim in state `s` on event `e`; `fresh`
/// is the secret used when the step starts provisioning.
pub open spec fn claim_next(s: ClaimState, e: EventSpec, fresh: Seq<char>) -> (ClaimState, ActionSpec) {
    match (s.phase, e) {
        (ClaimPhase::AwaitInfo, EventSpec::Puck(Err(err))) => fail_with(s, err),
        (ClaimPhase::AwaitInfo, EventSpec::Puck(Ok(info))) => {
            match info_device(info) {
                Some(d) => if info_provisioned(info) {
                    (
                        ClaimState { phase: ClaimPhase::AwaitStartKnown, device_id: Some(d), ..s },
                        ActionSpec::ClaimStart(d, s.bay_id),
                    )
                } else {
                    provision_with(s, fresh)
                },
                None => provision_with(s, fresh),
            }
        },
        (ClaimPhase::AwaitStartKnown, EventSpec::Started(Ok(nonce))) => challenge_with(s, nonce),
        (ClaimPhase::AwaitStartKnown, EventSpec::Started(Err(_))) => (
            ClaimState { phase: ClaimPhase::AwaitWipe, ..s },
            ActionSpec::Puck("WIPE"@, 4),
        ),
        (ClaimPhase::AwaitWipe, EventSpec::Puck(_)) => provision_with(s, fresh),
        (ClaimPhase::AwaitProvision, EventSpec::Puck(Err(err))) => fail_with(s, err),
        (ClaimPhase::AwaitProvision, EventSpec::Puck(Ok(resp))) => {
            if !starts_with(resp, "OK"@) {
                fail_with(s, resp)
            } else {
                match info_device(resp) {
                    Some(d) => register_with(s, d),
                    None => (
                        ClaimState { phase: ClaimPhase::AwaitProvisionInfo, ..s },
                        ActionSpec::Puck("INFO"@, 4),
                    ),
                }
            }
        },
        (ClaimPhase::AwaitProvisionInfo, EventSpec::Puck(r)) => {
            let found = match r {
                Ok(info) => info_value(info, "device"@),
                Err(_) => None,
            };
            match found {
                None => fail_with(s, "provision ok but device id missing"@),
                Some(d) => if byte_len(d) == 32 {
                    register_with(s, d)
                } else {
                    fail_with(s, "bad device id from puck"@)
                },
            }
        },
        (ClaimPhase::AwaitRegister, EventSpec::Registered(Err(err))) => fail_with(s, err),
        (ClaimPhase::AwaitRegister, EventSpec::Registered(Ok(_))) => (
            ClaimState { phase: ClaimPhase::AwaitStartNew, ..s },
            ActionSpec::ClaimStart(s.device_id->0, s.bay_id),
        ),
        (ClaimPhase::AwaitStartNew, EventSpec::Started(Err(err))) => fail_with(s, err),
        (ClaimPhase::AwaitStartNew, EventSpec::Started(Ok(nonce))) => challenge_with(s, nonce),
        (ClaimPhase::AwaitChallenge, EventSpec::Puck(Err(err))) => fail_with(s, err),
        (ClaimPhase::AwaitChallenge, EventSpec::Puck(Ok(line))) => after_challenge(s, line),
        (ClaimPhase::AwaitFinish, EventSpec::Finished(Err(err))) => fail_with(s, err),
        (ClaimPhase::AwaitFinish, EventSpec::Finished(Ok((bay, space)))) => (
            ClaimState {
                phase: ClaimPhase::AwaitConfig,
                claimed_bay: bay,
                claimed_space: space,
                ..s
            },
            ActionSpec::Puck("CONFIG bay="@ + bay + " space="@ + space, 4),
        ),
        (ClaimPhase::AwaitConfig, EventSpec::Puck(Err(err))) => fail_with(s, err),
        (ClaimPhase::AwaitConfig, EventSpec::Puck(Ok(cfg))) => if !starts_with(cfg, "OK"@) {
            fail_with(s, cfg)
        } else {
            (ClaimState { phase: ClaimPhase::AwaitMood, ..s }, ActionSpec::Puck("MOOD cozy"@, 4))
        },
        (ClaimPhase::AwaitMood, EventSpec::Puck(Err(err))) => fail_with(s, err),
        (ClaimPhase::AwaitMood, EventSpec::Puck(Ok(m))) => if !starts_with(m, "OK"@) {
            fail_with(s, m)
        } else {
            (
                ClaimState { phase: ClaimPhase::Finished, ..s },
                ActionSpec::Done(s.device_id->0, s.claimed_bay, s.claimed_space, claimed_message()),
            )
        },
        _ => (s, ActionSpec::Fail(Seq::empty())),
    }
}

/// The event is the kind the claim waits for.
pub open spec fn accepts(phase: ClaimPhase, e: EventSpec) -> bool {
    match phase {
        ClaimPhase::AwaitInfo | ClaimPhase::AwaitWipe | ClaimPhase::AwaitProvision
        | ClaimPhase::AwaitProvisionInfo | ClaimPhase::AwaitChallenge | ClaimPhase::AwaitConfig
        | ClaimPhase::AwaitMood => e is Puck,
        ClaimPhase::AwaitStartKnown | ClaimPhase::AwaitStartNew => e is Started,
        ClaimPhase::AwaitRegister => e is Registered,
        ClaimPhase::AwaitFinish => e is Finished,
        ClaimPhase::Finished => false,
    }
}

/// The step from `s` on `e` makes a new secret.
pub open spec fn makes_secret(s: ClaimState, e: EventSpec) -> bool {
    claim_next(s, e, Seq::empty()).0.phase == ClaimPhase::AwaitProvision
}

/// The first state and action of a claim.
pub open spec fn claim_start(connected: bool, raw_bay: Seq<char>, space: Option<Seq<char>>) -> (ClaimState, ActionSpec) {
    let bay = normalized_bay(raw_bay);
    let s = ClaimState {
        phase: ClaimPhase::AwaitInfo,
        bay_id: bay,
        space_name: match space {
            Some(sp) => if trim(sp).len() > 0 {
                sp
            } else {
                bay
            },
            None => bay,
        },
        device_id: None,
        secret_hex: None,
        nonce_hex: None,
        response_hex: None,
        claimed_bay: Seq::empty(),
        claimed_space: Seq::empty(),
    };
    if !connected {
        fail_with(s, "Not connected"@)
    } else if bay.len() == 0 {
        fail_with(s, "bay id is empty"@)
    } else {
        (s, ActionSpec::Puck("INFO"@, 4))
    }
}

/// The parts a phase relies on are there: a device id once one is known, the
/// secret while provisioning, the nonce once the claim has started.
pub open spec fn well_formed(s: ClaimState) -> bool {
    &&& (s.phase == ClaimPhase::AwaitStartKnown || s.phase == ClaimPhase::AwaitRegister || s.phase
        == ClaimPhase::AwaitStartNew || s.phase == ClaimPhase::AwaitChallenge || s.phase
        == ClaimPhase::AwaitFinish || s.phase == ClaimPhase::AwaitConfig || s.phase
        == ClaimPhase::AwaitMood) ==> s.device_id is Some
    &&& (s.phase == ClaimPhase::AwaitProvision || s.phase == ClaimPhase::AwaitProvisionInfo
        || s.phase == ClaimPhase::AwaitRegister) ==> s.secret_hex is Some
    &&& (s.phase == ClaimPhase::AwaitChallenge || s.phase == ClaimPhase::AwaitFinish || s.phase
        == ClaimPhase::AwaitConfig || s.phase == ClaimPhase::AwaitMood) ==> s.nonce_hex is Some
}

/// Every device id the claim holds is 32 bytes long.
pub open spec fn device_ok(s: ClaimState) -> bool {
    s.device_id matches Some(d) ==> byte_len(d) == 32
}

/// The device id an action sends, if it sends one.
pub open spec fn action_device(a: ActionSpec) -> Option<Seq<char>> {
    match a {
        ActionSpec::Register(d, _) => Some(d),
        ActionSpec::ClaimStart(d, _) => Some(d),
        ActionSpec::ClaimFinish(d, _, _, _, _) => Some(d),
        ActionSpec::Done(d, _, _, _) => Some(d),
        _ => None,
    }
}

/// Each step keeps the parts each phase relies on.
pub proof fn lemma_claim_well_formed(s: ClaimState, e: EventSpec, fresh: Seq<char>)
    requires
        well_formed(s),
        accepts(s.phase, e),
    ensures
        well_formed(claim_next(s, e, fresh).0),
{
}

/// A claim ends exactly when the action is `Done` or `Fail`; otherwise it
/// waits for the outcome of the action.
pub proof fn lemma_claim_ends(s: ClaimState, e: EventSpec, fresh: Seq<char>)
    requires
        accepts(s.phase, e),
    ensures
        (claim_next(s, e, fresh).1 is Done || claim_next(s, e, fresh).1 is Fail) <==> claim_next(
            s,
            e,
            fresh,
        ).0.phase == ClaimPhase::Finished,
{
}

/// The bay and the space asked for stay as they were set when the claim began.
pub proof fn lemma_claim_keeps_bay(s: ClaimState, e: EventSpec, fresh: Seq<char>)
    requires
        accepts(s.phase, e),
    ensures
        claim_next(s, e, fresh).0.bay_id == s.bay_id,
        claim_next(s, e, fresh).0.space_name == s.space_name,
{
}

/// Every device id the claim holds or sends is 32 bytes long.
pub proof fn lemma_claim_device_ids(s: ClaimState, e: EventSpec, fresh: Seq<char>)
    requires
        well_formed(s),
        device_ok(s),
        accepts(s.phase, e),
    ensures
        device_ok(claim_next(s, e, fresh).0),
        action_device(claim_next(s, e, fresh).1) matches Some(d) ==> byte_len(d) == 32,
{
}

/// When this claim made the puck's secret, the claim is only finished with an
/// answer equal to the HMAC of the nonce under that secret: a puck that
/// answers wrongly is refused before ThermalTrace is asked.
pub proof fn lemma_claim_checks_answer(s: ClaimState, e: EventSpec, fresh: Seq<char>)
    requires
        accepts(s.phase, e),
    ensures
        claim_next(s, e, fresh).1 matches ActionSpec::ClaimFinish(_, _, nonce, resp, _) ==> (
        claim_next(s, e, fresh).0.secret_hex matches Some(sec) ==> hmac_hex_result(sec, nonce)
            == Ok::<Seq<char>, Seq<char>>(resp)),
{
}

/// ThermalTrace is asked about the claim's own bay: every claim start is for
/// the claim's bay id, and the claim is finished for that bay and for the
/// space asked for, whatever happened before.
pub proof fn lemma_claim_sends_bay(s: ClaimState, e: EventSpec, fresh: Seq<char>)
    requires
        accepts(s.phase, e),
    ensures
        claim_next(s, e, fresh).1 matches ActionSpec::ClaimStart(_, b) ==> b == s.bay_id,
        claim_next(s, e, fresh).1 matches ActionSpec::ClaimFinish(_, b, _, _, sp) ==> b == s.bay_id
            && sp == s.space_name,
{
}

/// A claim is for the normalized bay id, and for the space asked for unless
/// that is blank, in which case the space is named after the bay.
pub proof fn lemma_claim_begins_with_bay(connected: bool, raw_bay: Seq<char>, space: Option<Seq<char>>)
    ensures
        claim_start(connected, raw_bay, space).0.bay_id == normalized_bay(raw_bay),
        space is Some && trim(space->0).len() > 0 ==> claim_start(connected, raw_bay, space).0.space_name
            == space->0,
        !(space is Some && trim(space->0).len() > 0) ==> claim_start(connected, raw_bay, space).0.space_name
            == normalized_bay(raw_bay),
{
}

/// A claim in progress.
pub struct ClaimFlow {
    phase: ClaimPhase,
    bay_id: String,
    space_name: String,
    device_id: Option<String>,
    secret_hex: Option<String>,
    nonce_hex: Option<String>,
    response_hex: Option<String>,
    claimed_bay: String,
    claimed_space: String,
}

impl View for ClaimFlow {
    type V = ClaimState;

    closed spec fn view(&self) -> ClaimState {
        ClaimState {
            phase: self.phase,
            bay_id: self.bay_id@,
            space_name: self.space_name@,
            device_id: opt_view(self.device_id),
            secret_hex: opt_view(self.secret_hex),
            nonce_hex: opt_view(self.nonce_hex),
            response_hex: opt_view(self.response_hex),
            claimed_bay: self.claimed_bay@,
            claimed_space: self.claimed_space@,
        }
    }
}

fn concat(a: &str, b: &str) -> (r: String)
    ensures
        r@ == a@ + b@,
{
    let mut out = String::new();
    push_str(&mut out, a);
    push_str(&mut out, b);
    proof {
        assert(out@ =~= a@ + b@);
    }
    out
}

fn puck(line: String, timeout_secs: u64) -> (a: ClaimAction)
    ensures
        a@ == ActionSpec::Puck(line@, timeout_secs),
{
    ClaimAction::Puck { line, timeout_secs }
}

impl ClaimFlow {
    #[verifier::type_invariant]
    spec fn inv(self) -> bool {
        well_formed(self@)
    }

    /// The phase the claim is in.
    pub fn phase(&self) -> (p: ClaimPhase)
        ensures
            p == self@.phase,
    {
        match self.phase {
            ClaimPhase::AwaitInfo => ClaimPhase::AwaitInfo,
            ClaimPhase::AwaitStartKnown => ClaimPhase::AwaitStartKnown,
            ClaimPhase::AwaitWipe => ClaimPhase::AwaitWipe,
            ClaimPhase::AwaitProvision => ClaimPhase::AwaitProvision,
            ClaimPhase::AwaitProvisionInfo => ClaimPhase::AwaitProvisionInfo,
            ClaimPhase::AwaitRegister => ClaimPhase::AwaitRegister,
            ClaimPhase::AwaitStartNew => ClaimPhase::AwaitStartNew,
            ClaimPhase::AwaitChallenge => ClaimPhase::AwaitChallenge,
            ClaimPhase::AwaitFinish => ClaimPhase::AwaitFinish,
            ClaimPhase::AwaitConfig => ClaimPhase::AwaitConfig,
            ClaimPhase::AwaitMood => ClaimPhase::AwaitMood,
            ClaimPhase::Finished => ClaimPhase::Finished,
        }
    }

    /// Whether the claim waits for this kind of event.
    pub fn accepts_event(&self, event: &ClaimEvent) -> (b: bool)
        ensures
            b == accepts(self@.phase, event@),
    {
        match self.phase {
            ClaimPhase::AwaitInfo | ClaimPhase::AwaitWipe | ClaimPhase::AwaitProvision
            | ClaimPhase::AwaitProvisionInfo | ClaimPhase::AwaitChallenge | ClaimPhase::AwaitConfig
            | ClaimPhase::AwaitMood => matches!(event, ClaimEvent::Puck(_)),
            ClaimPhase::AwaitStartKnown | ClaimPhase::AwaitStartNew => matches!(event, ClaimEvent::Started(_)),
            ClaimPhase::AwaitRegister => matches!(event, ClaimEvent::Registered(_)),
            ClaimPhase::AwaitFinish => matches!(event, ClaimEvent::Finished(_)),
            ClaimPhase::Finished => false,
        }
    }

    /// Starts claiming the puck for `bay_id`: refused without a session or
    /// with a bay id that normalizes to nothing; the space is named
    /// `space_name` unless that is blank, else after the bay. The first action
    /// asks the puck for `INFO`.
    pub fn begin(connected: bool, bay_id: &str, space_name: Option<&str>) -> (r: (ClaimFlow, ClaimAction))
        ensures
            (r.0@, r.1@) == claim_start(connected, bay_id@, crate::clock::opt_chars(space_name)),
    {
        let (bay, bay_ok) = match normalize_bay_id(bay_id) {
            Ok(b) => (b, true),
            Err(_) => (String::new(), false),
        };
        assert(bay@ =~= normalized_bay(bay_id@));
        let space: String = match space_name {
            Some(sp) => {
                let c = chars_of(sp);
                let (a, b) = trim_bounds(&c);
                if a < b {
                    String::from_str(sp)
                } else {
                    bay.clone()
                }
            },
            None => bay.clone(),
        };
        let flow = ClaimFlow {
            phase: ClaimPhase::AwaitInfo,
            bay_id: bay,
            space_name: space,
            device_id: None,
            secret_hex: None,
            nonce_hex: None,
            response_hex: None,
            claimed_bay: String::new(),
            claimed_space: String::new(),
        };
        if !connected {
            let mut f = flow;
            f.phase = ClaimPhase::Finished;
            return (f, ClaimAction::Fail(String::from_str("Not connected")));
        }
        if !bay_ok {
            let mut f = flow;
            f.phase = ClaimPhase::Finished;
            return (f, ClaimAction::Fail(String::from_str("bay id is empty")));
        }
        (flow, puck(String::from_str("INFO"), 4))
    }

    /// Takes the outcome of the last action and decides the next one (see
    /// `claim_next`). When the step starts provisioning, the new secret is a
    /// fresh random one.
    pub fn step(&mut self, event: ClaimEvent) -> (a: ClaimAction)
        requires
            accepts(old(self)@.phase, event@),
        ensures
            (final(self)@, a@) == claim_next(old(self)@, event@, final(self)@.secret_hex->0),
            makes_secret(old(self)@, event@) ==> final(self)@.secret_hex is Some && is_secret_hex(
                final(self)@.secret_hex->0,
            ),
    {
        proof {
            use_type_invariant(&*self);
        }
        match self.phase {
            ClaimPhase::AwaitInfo => match event {
                ClaimEvent::Puck(Err(e)) => self.fail(e),
                ClaimEvent::Puck(Ok(info)) => {
                    let dev = match info_field(info.as_str(), "device") {
                        Some(d) => if utf8_len_is(&chars_of(d.as_str()), 32) {
                            Some(d)
                        } else {
                            None
                        },
                        None => None,
                    };
                    let provisioned = match info_field(info.as_str(), "provisioned") {
                        Some(p) => seq_eq(&chars_of(p.as_str()), &chars_of("yes")),
                        None => false,
                    };
                    match dev {
                        Some(d) => {
                            if provisioned {
                                let bay = self.bay_id.clone();
                                self.device_id = Some(d.clone());
                                self.phase = ClaimPhase::AwaitStartKnown;
                                ClaimAction::ClaimStart { device_id: d, bay_id: bay }
                            } else {
                                self.provision()
                            }
                        },
                        None => self.provision(),
                    }
                },
                _ => ClaimAction::Fail(String::new()),
            },
            ClaimPhase::AwaitStartKnown => match event {
                ClaimEvent::Started(Ok(nonce)) => self.challenge(nonce),
                ClaimEvent::Started(Err(_)) => {
                    self.phase = ClaimPhase::AwaitWipe;
                    puck(String::from_str("WIPE"), 4)
                },
                _ => ClaimAction::Fail(String::new()),
            },
            ClaimPhase::AwaitWipe => self.provision(),
            ClaimPhase::AwaitProvision => match event {
                ClaimEvent::Puck(Err(e)) => self.fail(e),
                ClaimEvent::Puck(Ok(resp)) => match provision_reply(resp.as_str()) {
                    ProvisionReply::Failed(r) => self.fail(r),
                    ProvisionReply::Provisioned(id) => self.register(id),
                    ProvisionReply::NeedInfo => {
                        self.phase = ClaimPhase::AwaitProvisionInfo;
                        puck(String::from_str("INFO"), 4)
                    },
                },
                _ => ClaimAction::Fail(String::new()),
            },
            ClaimPhase::AwaitProvisionInfo => match event {
                ClaimEvent::Puck(r) => {
                    let info: Option<&str> = match &r {
                        Ok(t) => Some(t.as_str()),
                        Err(_) => None,
                    };
                    match device_id_from_info(info) {
                        Ok(id) => self.register(id),
                        Err(m) => self.fail(m),
                    }
                },
                _ => ClaimAction::Fail(String::new()),
            },
            ClaimPhase::AwaitRegister => match event {
                ClaimEvent::Registered(Err(e)) => self.fail(e),
                ClaimEvent::Registered(Ok(_)) => {
                    let dev = match &self.device_id {
                        Some(d) => d.clone(),
                        None => String::new(),
                    };
                    let bay = self.bay_id.clone();
                    self.phase = ClaimPhase::AwaitStartNew;
                    ClaimAction::ClaimStart { device_id: dev, bay_id: bay }
                },
                _ => ClaimAction::Fail(String::new()),
            },
            ClaimPhase::AwaitStartNew => match event {
                ClaimEvent::Started(Err(e)) => self.fail(e),
                ClaimEvent::Started(Ok(nonce)) => self.challenge(nonce),
                _ => ClaimAction::Fail(String::new()),
            },
            ClaimPhase::AwaitChallenge => match event {
                ClaimEvent::Puck(Err(e)) => self.fail(e),
                ClaimEvent::Puck(Ok(line)) => self.answer(line),
                _ => ClaimAction::Fail(String::new()),
            },
            ClaimPhase::AwaitFinish => match event {
                ClaimEvent::Finished(Err(e)) => self.fail(e),
                ClaimEvent::Finished(Ok((bay, space))) => {
                    let mut line = String::new();
                    push_str(&mut line, "CONFIG bay=");
                    push_str(&mut line, bay.as_str());
                    push_str(&mut line, " space=");
                    push_str(&mut line, space.as_str());
                    self.claimed_bay = bay;
                    self.claimed_space = space;
                    self.phase = ClaimPhase::AwaitConfig;
                    proof {
                        assert(line@ =~= "CONFIG bay="@ + self.claimed_bay@ + " space="@ + self.claimed_space@);
                    }
                    puck(line, 4)
                },
                _ => ClaimAction::Fail(String::new()),
            },
            ClaimPhase::AwaitConfig => match event {
                ClaimEvent::Puck(Err(e)) => self.fail(e),
                ClaimEvent::Puck(Ok(cfg)) => {
                    if !has_prefix(&chars_of(cfg.as_str()), &chars_of("OK")) {
                        self.fail(cfg)
                    } else {
                        self.phase = ClaimPhase::AwaitMood;
                        puck(String::from_str("MOOD cozy"), 4)
                    }
                },
                _ => ClaimAction::Fail(String::new()),
            },
            ClaimPhase::AwaitMood => match event {
                ClaimEvent::Puck(Err(e)) => self.fail(e),
                ClaimEvent::Puck(Ok(m)) => {
                    if !has_prefix(&chars_of(m.as_str()), &chars_of("OK")) {
                        self.fail(m)
                    } else {
                        let dev = match &self.device_id {
                            Some(d) => d.clone(),
                            None => String::new(),
                        };
                        let result = ClaimPuckResult {
                            device_id: dev,
                            bay_id: self.claimed_bay.clone(),
                            space_name: self.claimed_space.clone(),
                            message: String::from_str(
                                "Claimed — press was accepted. Mood light set to cozy.",
                            ),
                        };
                        self.phase = ClaimPhase::Finished;
                        ClaimAction::Done(result)
                    }
                },
                _ => ClaimAction::Fail(String::new()),
            },
            ClaimPhase::Finished => ClaimAction::Fail(String::new()),
        }
    }

    fn answer(&mut self, line: String) -> (a: ClaimAction)
        requires
            old(self)@.phase == ClaimPhase::AwaitChallenge,
        ensures
            (final(self)@, a@) == after_challenge(old(self)@, line@),
    {
        proof {
            use_type_invariant(&*self);
        }
        let lc = chars_of(line.as_str());
        if !has_prefix(&lc, &chars_of("RESPONSE ")) {
            return self.fail(line);
        }
        let ws = split_ws(&lc);
        if ws.len() < 2 {
            return self.fail(String::from_str("empty RESPONSE"));
        }
        assert(views(ws@)[1] == ws@[1]@);
        let resp_chars = lower_chars(&ws[1]);
        let resp = string_of(&resp_chars);
        let nonce = match &self.nonce_hex {
            Some(n) => n.clone(),
            None => String::new(),
        };
        match &self.secret_hex {
            Some(sec) => match hmac_hex(sec.as_str(), nonce.as_str()) {
                Err(e) => {
                    return self.fail(e);
                },
                Ok(expect) => {
                    if !seq_eq(&chars_of(expect.as_str()), &resp_chars) {
                        let msg = concat("local verify failed expected=", expect.as_str());
                        return self.fail(msg);
                    }
                },
            },
            None => {},
        }
        let dev = match &self.device_id {
            Some(d) => d.clone(),
            None => String::new(),
        };
        self.response_hex = Some(resp.clone());
        self.phase = ClaimPhase::AwaitFinish;
        ClaimAction::ClaimFinish {
            device_id: dev,
            bay_id: self.bay_id.clone(),
            nonce_hex: nonce,
            response_hex: resp,
            space_name: self.space_name.clone(),
        }
    }

    fn fail(&mut self, e: String) -> (a: ClaimAction)
        ensures
            (final(self)@, a@) == fail_with(old(self)@, e@),
    {
        self.phase = ClaimPhase::Finished;
        ClaimAction::Fail(e)
    }

    fn provision(&mut self) -> (a: ClaimAction)
        ensures
            (final(self)@, a@) == provision_with(old(self)@, final(self)@.secret_hex->0),
            final(self)@.secret_hex is Some,
            is_secret_hex(final(self)@.secret_hex->0),
            final(self)@.secret_hex->0.len() == 64,
    {
        proof {
            use_type_invariant(&*self);
        }
        let f = random_secret_hex();
        self.secret_hex = Some(f.clone());
        self.phase = ClaimPhase::AwaitProvision;
        puck(concat("PROVISION ", f.as_str()), 5)
    }

    fn register(&mut self, id: String) -> (a: ClaimAction)
        requires
            old(self)@.secret_hex is Some,
        ensures
            (final(self)@, a@) == register_with(old(self)@, id@),
    {
        proof {
            use_type_invariant(&*self);
        }
        let sec = match &self.secret_hex {
            Some(s) => s.clone(),
            None => String::new(),
        };
        self.device_id = Some(id.clone());
        self.phase = ClaimPhase::AwaitRegister;
        ClaimAction::Register { device_id: id, secret_hex: sec }
    }

    fn challenge(&mut self, nonce: String) -> (a: ClaimAction)
        requires
            old(self)@.device_id is Some,
        ensures
            (final(self)@, a@) == challenge_with(old(self)@, nonce@),
    {
        proof {
            use_type_invariant(&*self);
        }
        self.nonce_hex = Some(nonce.clone());
        self.phase = ClaimPhase::AwaitChallenge;
        puck(concat("CHALLENGE ", nonce.as_str()), 35)
    }
}

} // verus!
