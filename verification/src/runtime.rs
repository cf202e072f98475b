//! How a node starts, what it knows of itself, and what it does with what its sessions hand it.

use std::sync::Arc;

use vstd::prelude::*;

use crate::decimal::{decimal, to_decimal};
use crate::pid::{
    hex_error_text, hex_error_to_string, hex_upper, is_random_uuid, padded, pid_from_text, pid_of,
    random_uuid, HexError, PeerId, PidError, PidErrorView, PID_MAX_SIZE,
};
use crate::tables::WhatAmI;

verus! {

/// A hybrid logical clock.
#[verifier::external_type_specification]
#[verifier::external_body]
pub struct ExHlc(uhlc::HLC);

/// A set of roles.
#[derive(Clone, Copy, PartialEq, Eq, Structural, Debug)]
pub struct WhatAmIMatcher {
    pub router: bool,
    pub peer: bool,
    pub client: bool,
}

impl WhatAmIMatcher {
    pub open spec fn has(self, w: WhatAmI) -> bool {
        match w {
            WhatAmI::Router => self.router,
            WhatAmI::Peer => self.peer,
            WhatAmI::Client => self.client,
        }
    }

    /// The role is in the set.
    pub fn matches(&self, w: WhatAmI) -> (r: bool)
        ensures
            r == self.has(w),
    {
        match w {
            WhatAmI::Router => self.router,
            WhatAmI::Peer => self.peer,
            WhatAmI::Client => self.client,
        }
    }
}

/// What the configuration of a node says about its start. What is left open has a default.
#[derive(Clone, Copy, PartialEq, Eq, Structural, Debug)]
pub struct Config {
    /// The version of the protocol.
    pub version: Option<u8>,
    /// The role of the node; a peer by default.
    pub mode: Option<WhatAmI>,
    /// Whether data without a timestamp gets one; no by default.
    pub add_timestamp: Option<bool>,
    /// Whether peers are connected to as they are heard of; yes by default.
    pub peers_autoconnect: Option<bool>,
    /// The roles that connect to nodes they learn of through gossip; none by default.
    pub gossip_autoconnect: Option<WhatAmIMatcher>,
    /// Whether the node takes part in the exchange of link states; yes by default.
    pub link_state: Option<bool>,
}

impl Config {
    pub open spec fn role(self) -> WhatAmI {
        match self.mode {
            Some(mode) => mode,
            None => WhatAmI::Peer,
        }
    }

    pub open spec fn stamps(self) -> bool {
        self.add_timestamp == Some(true)
    }

    /// The exchange of link states as it is to be set up. Clients take no part in it.
    pub open spec fn link_state_plan(self) -> Option<LinkStatePlan> {
        if self.role() != WhatAmI::Client && self.link_state != Some(false) {
            Some(
                LinkStatePlan {
                    peers_autoconnect: self.peers_autoconnect != Some(false),
                    routers_autoconnect_gossip: self.gossip_autoconnect matches Some(roles)
                        && roles.has(self.role()),
                },
            )
        } else {
            None
        }
    }
}

/// How the exchange of link states is set up.
#[derive(Clone, Copy, PartialEq, Eq, Structural, Debug)]
pub struct LinkStatePlan {
    pub peers_autoconnect: bool,
    pub routers_autoconnect_gossip: bool,
}

/// What has to be set up around a runtime when it starts.
#[derive(Clone, Copy, PartialEq, Eq, Debug)]
pub struct StartPlan {
    /// The version, the role and the identifier that transports are opened with.
    pub version: u8,
    pub whatami: WhatAmI,
    pub pid: PeerId,
    /// The exchange of link states, if there is one.
    pub link_state: Option<LinkStatePlan>,
}

/// Why a runtime refuses.
#[derive(Debug)]
pub enum ZError {
    /// The configuration did not take the version, for this reason.
    Version(String),
    /// The identifier given for the node is none.
    Pid(PidError),
    /// A transport came before the runtime was there.
    NotReady,
}

impl ZError {
    /// The words for the error.
    pub open spec fn text(self) -> Seq<char> {
        match self {
            ZError::Version(cause) => "Unable to set version: "@ + cause@,
            ZError::Pid(PidError::InvalidId { id, cause }) => {
                "Invalid id: "@ + id@ + " - "@ + hex_error_text(cause)
            },
            ZError::Pid(PidError::InvalidSize { size }) => {
                "Invalid id size: "@ + decimal(size as nat) + " ("@ + decimal(
                    PID_MAX_SIZE as nat,
                ) + " bytes max)"@
            },
            ZError::NotReady => "Runtime not yet ready!"@,
        }
    }

    /// The words for the error.
    pub fn descr(&self) -> (s: String)
        ensures
            s@ == self.text(),
    {
        match self {
            ZError::Version(cause) => {
                "Unable to set version: ".to_owned().concat(cause.as_str())
            },
            ZError::Pid(PidError::InvalidId { id, cause }) => {
                "Invalid id: ".to_owned().concat(id.as_str()).concat(" - ").concat(
                    hex_error_to_string(*cause).as_str(),
                )
            },
            ZError::Pid(PidError::InvalidSize { size }) => {
                "Invalid id size: ".to_owned().concat(to_decimal(*size as u64).as_str()).concat(
                    " (",
                ).concat(to_decimal(PID_MAX_SIZE as u64).as_str()).concat(" bytes max)")
            },
            ZError::NotReady => "Runtime not yet ready!".to_owned(),
        }
    }
}

/// A moment of a hybrid logical clock: its time in the 64-bit NTP format, and the identifier of
/// the node whose clock it is.
#[derive(PartialEq, Eq, Debug)]
pub struct Timestamp {
    pub time: u64,
    pub id: Vec<u8>,
}

/// The identifier that the moments of a clock carry. A clock keeps the one that it was made
/// with.
pub uninterp spec fn clock_id(hlc: uhlc::HLC) -> Seq<u8>;

/// `uhlc::HLC::with_system_time` on `uhlc::ID::new`: a clock that runs on the system time, and
/// whose moments carry the first `size` bytes of `id`. The call panics where the environment
/// sets a maximal drift that is no number of 64 bits, or more than the 64-bit NTP format holds.
#[verifier::external_body]
fn new_clock(size: usize, id: [u8; 16]) -> (hlc: uhlc::HLC)
    requires
        size <= 16,
    ensures
        clock_id(hlc) == id@.take(size as int),
{
    uhlc::HLC::with_system_time(uhlc::ID::new(size, id))
}

/// `uhlc::HLC::new_timestamp`: the next moment of the clock, which carries its identifier. Its
/// time lies behind zero, where the count of the clock starts; the count lasts until 2106. The
/// rest depends on the system time and on the moments before, so nothing more is said about it.
/// The call panics where the system time is before 1970 or later than the 64-bit NTP format holds.
#[verifier::external_body]
fn next_moment(hlc: &uhlc::HLC) -> (ts: Timestamp)
    requires
        clock_id(*hlc).len() <= 16,
    ensures
        ts.id@ == clock_id(*hlc),
        ts.time > 0,
{
    let ts = hlc.new_timestamp();
    Timestamp { time: ts.get_time().as_u64(), id: ts.get_id().as_slice().to_vec() }
}

/// What a running node knows of itself.
pub struct RuntimeState {
    pub pid: PeerId,
    pub whatami: WhatAmI,
    pub config: Config,
    pub hlc: Option<Arc<uhlc::HLC>>,
}

impl RuntimeState {
    /// The identifier is in order, the role is that of the configuration, and there is a clock
    /// under the identifier if the configuration asks for one.
    pub open spec fn wf(self) -> bool {
        &&& self.pid.wf()
        &&& self.whatami == self.config.role()
        &&& self.hlc is Some == self.config.stamps()
        &&& self.hlc matches Some(hlc) ==> clock_id(*hlc) == self.pid@
    }
}

/// A handle on a running node.
pub struct Runtime {
    pub state: Arc<RuntimeState>,
}

impl Clone for Runtime {
    fn clone(&self) -> (r: Self)
        ensures
            r == *self,
    {
        Runtime { state: self.state.clone() }
    }
}

impl std::ops::Deref for Runtime {
    type Target = RuntimeState;

    fn deref(&self) -> (state: &RuntimeState)
        ensures
            *state == *self.state,
    {
        &*self.state
    }
}

/// `runtime` and `plan` are those of a node with the identifier `pid` that starts on `config`.
pub open spec fn starts_as(
    version: u8,
    config: Config,
    pid: PeerId,
    runtime: Runtime,
    plan: StartPlan,
) -> bool {
    let state = *runtime.state;
    &&& state.wf()
    &&& state.pid == pid
    &&& state.config == (Config { version: Some(version), ..config })
    &&& plan == (StartPlan {
        version,
        whatami: config.role(),
        pid,
        link_state: config.link_state_plan(),
    })
}

impl Runtime {
    /// The runtime of a node and what has to be set up around it. `set_version` tells whether
    /// the configuration took the version, or why it did not; nothing else is looked at then.
    /// The node is identified by `id`, in hexadecimal digits with or without dashes, or else at
    /// random.
    pub fn new(
        version: u8,
        config: Config,
        id: Option<&str>,
        set_version: Result<(), String>,
    ) -> (r: Result<(Runtime, StartPlan), ZError>)
        ensures
            match set_version {
                Err(cause) => r matches Err(ZError::Version(c)) && c@ == cause@,
                Ok(_) => match (id, r) {
                    (Some(text), Ok((runtime, plan))) => {
                        let pid = runtime.state.pid;
                        &&& pid_of(text@) == Ok::<Seq<u8>, PidErrorView>(pid@)
                        &&& pid.id@ == padded(pid@)
                        &&& starts_as(version, config, pid, runtime, plan)
                    },
                    (Some(text), Err(ZError::Pid(e))) => pid_of(text@) == Err::<
                        Seq<u8>,
                        PidErrorView,
                    >(e@),
                    (None, Ok((runtime, plan))) => {
                        let pid = runtime.state.pid;
                        &&& pid.size == PID_MAX_SIZE
                        &&& is_random_uuid(pid@)
                        &&& starts_as(version, config, pid, runtime, plan)
                    },
                    _ => false,
                },
            },
    {
        if let Err(cause) = set_version {
            return Err(ZError::Version(cause));
        }
        let pid = match id {
            Some(text) => match pid_from_text(text) {
                Ok(pid) => pid,
                Err(e) => {
                    return Err(ZError::Pid(e));
                },
            },
            None => {
                let bytes = random_uuid();
                proof {
                    assert(bytes@.take(16) =~= bytes@);
                }
                PeerId::new(PID_MAX_SIZE, bytes)
            },
        };
        Ok(Runtime::with_pid(version, config, pid))
    }

    /// The runtime of a node with the identifier `pid` and what has to be set up around it.
    pub fn with_pid(version: u8, config: Config, pid: PeerId) -> (r: (Runtime, StartPlan))
        requires
            pid.wf(),
        ensures
            starts_as(version, config, pid, r.0, r.1),
            r.0.state.hlc is Some <==> config.add_timestamp == Some(true),
    {
        let mut config = config;
        config.version = Some(version);
        let whatami = config.mode.unwrap_or(WhatAmI::Peer);
        let hlc = if config.add_timestamp.unwrap_or(false) {
            Some(Arc::new(new_clock(pid.size, pid.id)))
        } else {
            None
        };
        let peers_autoconnect = config.peers_autoconnect.unwrap_or(true);
        let routers_autoconnect_gossip = match config.gossip_autoconnect {
            Some(roles) => roles.matches(whatami),
            None => false,
        };
        let use_link_state = whatami != WhatAmI::Client && config.link_state.unwrap_or(true);
        let plan = StartPlan {
            version,
            whatami,
            pid,
            link_state: if use_link_state {
                Some(LinkStatePlan { peers_autoconnect, routers_autoconnect_gossip })
            } else {
                None
            },
        };
        (Runtime { state: Arc::new(RuntimeState { pid, whatami, config, hlc }) }, plan)
    }

    /// The identifier of the node in upper-case hexadecimal digits.
    pub fn get_pid_str(&self) -> (s: String)
        requires
            self.state.wf(),
        ensures
            s@ == hex_upper(self.state.pid@),
    {
        self.state.pid.to_text()
    }

    /// A new timestamp of the node, if it has a clock.
    pub fn new_timestamp(&self) -> (r: Option<Timestamp>)
        requires
            self.state.wf(),
        ensures
            r is Some == self.state.config.stamps(),
            r is Some <==> self.state.config.add_timestamp == Some(true),
            r matches Some(ts) ==> ts.id@ == self.state.pid@ && ts.time > 0,
    {
        match &self.state.hlc {
            Some(hlc) => Some(next_moment(hlc)),
            None => None,
        }
    }

    /// Whether the news that `event` changed in the configuration calls for the peers to be
    /// looked up again.
    pub fn updates_peers(event: &str) -> (r: bool)
        ensures
            r == (event@ == "peers"@),
    {
        event.to_owned() == "peers".to_owned()
    }
}

/// Hands transports that are opened to the runtime, once there is one.
pub struct RuntimeTransportEventHandler {
    pub runtime: Option<Runtime>,
}

impl RuntimeTransportEventHandler {
    /// A handler without a runtime.
    pub fn new() -> (h: Self)
        ensures
            h.runtime is None,
    {
        RuntimeTransportEventHandler { runtime: None }
    }

    /// From now on transports go to `runtime`.
    pub fn set_runtime(&mut self, runtime: Runtime)
        ensures
            final(self).runtime == Some(runtime),
    {
        self.runtime = Some(runtime);
    }

    /// The session for a transport that was opened: one of the runtime, with no locator yet.
    pub fn new_unicast(&self) -> (r: Result<RuntimeSession, ZError>)
        ensures
            match r {
                Ok(session) => self.runtime == Some(session.runtime) && session.locator is None,
                Err(e) => self.runtime is None && e is NotReady,
            },
    {
        match &self.runtime {
            Some(runtime) => Ok(RuntimeSession { runtime: runtime.clone(), locator: None }),
            None => Err(ZError::NotReady),
        }
    }
}

/// The part of the runtime in one transport.
pub struct RuntimeSession {
    pub runtime: Runtime,
    pub locator: Option<String>,
}

/// The channel that a message takes.
#[derive(Clone, Copy, PartialEq, Eq, Structural, Debug)]
pub struct Channel {
    pub priority: u8,
    pub reliable: bool,
}

/// What becomes of a message for which there is no room.
#[derive(Clone, Copy, PartialEq, Eq, Structural, Debug)]
pub enum CongestionControl {
    Block,
    Drop,
}

/// The key of a resource: the number of a declared prefix, and what follows it.
#[derive(Debug)]
pub struct ResKey {
    pub rid: u64,
    pub suffix: String,
}

/// Data on its way. `R` is what a reply carries, `I` what is said about the data.
#[derive(Debug)]
pub struct Data<R, I> {
    pub key: ResKey,
    pub data_info: Option<I>,
    pub payload: Vec<u8>,
    pub congestion_control: CongestionControl,
    pub reply_context: Option<R>,
}

/// What a message holds: data, or anything else.
#[derive(Debug)]
pub enum ZenohBody<R, I, B> {
    Data(Data<R, I>),
    Other(B),
}

/// A message.
#[derive(Debug)]
pub struct ZenohMessage<R, I, B> {
    pub body: ZenohBody<R, I, B>,
    pub channel: Channel,
    pub routing_context: Option<u64>,
}

/// What is done with a message.
#[derive(Debug)]
pub enum MessageAction<R, I, B> {
    /// The data is routed right away.
    RouteData {
        rid: u64,
        suffix: String,
        channel: Channel,
        congestion_control: CongestionControl,
        data_info: Option<I>,
        payload: Vec<u8>,
        routing_context: Option<u64>,
    },
    /// The message goes to the handler behind the session as it came.
    HandOn(ZenohMessage<R, I, B>),
}

/// What is done with `msg`: data that is no reply is routed right away.
pub open spec fn action_for<R, I, B>(msg: ZenohMessage<R, I, B>) -> MessageAction<R, I, B> {
    match msg.body {
        ZenohBody::Data(data) if data.reply_context is None => MessageAction::RouteData {
            rid: data.key.rid,
            suffix: data.key.suffix,
            channel: msg.channel,
            congestion_control: data.congestion_control,
            data_info: data.data_info,
            payload: data.payload,
            routing_context: msg.routing_context,
        },
        _ => MessageAction::HandOn(msg),
    }
}

impl RuntimeSession {
    /// What is to be done with a message that came in.
    pub fn handle_message<R, I, B>(&self, msg: ZenohMessage<R, I, B>) -> (action: MessageAction<
        R,
        I,
        B,
    >)
        ensures
            action == action_for(msg),
    {
        let ZenohMessage { body, channel, routing_context } = msg;
        match body {
            ZenohBody::Data(data) => {
                if data.reply_context.is_none() {
                    MessageAction::RouteData {
                        rid: data.key.rid,
                        suffix: data.key.suffix,
                        channel,
                        congestion_control: data.congestion_control,
                        data_info: data.data_info,
                        payload: data.payload,
                        routing_context,
                    }
                } else {
                    MessageAction::HandOn(
                        ZenohMessage { body: ZenohBody::Data(data), channel, routing_context },
                    )
                }
            },
            ZenohBody::Other(body) => MessageAction::HandOn(
                ZenohMessage { body: ZenohBody::Other(body), channel, routing_context },
            ),
        }
    }
}

/// What comes next while what surrounds a runtime is set up.
#[derive(Debug)]
pub enum StartAction<E> {
    /// The configuration of the transports is to be read.
    Read,
    /// The manager of the transports is to be built.
    Build,
    /// The runtime is to be wired up and started.
    Start,
    /// The runtime runs.
    Done,
    /// The last attempt failed for this reason, and nothing more is tried.
    Fail(E),
}

/// How far the start of a runtime has come.
#[derive(Clone, Copy, PartialEq, Eq, Structural, Debug)]
pub enum Starting {
    Reading,
    Building,
    Launching,
    Over,
}

impl Starting {
    /// Where the start of a runtime stands once the attempt at hand ended as `outcome` says, and
    /// what comes next.
    pub open spec fn after<E>(self, outcome: Result<(), E>) -> (Starting, StartAction<E>) {
        match (outcome, self) {
            (Err(e), _) => (Starting::Over, StartAction::Fail(e)),
            (Ok(_), Starting::Reading) => (Starting::Building, StartAction::Build),
            (Ok(_), Starting::Building) => (Starting::Launching, StartAction::Start),
            (Ok(_), _) => (Starting::Over, StartAction::Done),
        }
    }

    /// The start of a runtime, and the first thing to do.
    pub fn start<E>() -> (r: (Starting, StartAction<E>))
        ensures
            r == (Starting::Reading, StartAction::<E>::Read),
    {
        (Starting::Reading, StartAction::Read)
    }

    /// The attempt at hand ended as `outcome` says: on success the next one comes, on failure
    /// nothing does.
    pub fn step<E>(&mut self, outcome: Result<(), E>) -> (action: StartAction<E>)
        requires
            *old(self) != Starting::Over,
        ensures
            (*final(self), action) == old(self).after(outcome),
    {
        match outcome {
            Err(e) => {
                *self = Starting::Over;
                StartAction::Fail(e)
            },
            Ok(_) => match *self {
                Starting::Reading => {
                    *self = Starting::Building;
                    StartAction::Build
                },
                Starting::Building => {
                    *self = Starting::Launching;
                    StartAction::Start
                },
                _ => {
                    *self = Starting::Over;
                    StartAction::Done
                },
            },
        }
    }
}

/// How a start ends whose attempts to read, to build and to launch end as given: well if all of
/// them do, else with the first that fails.
pub open spec fn start_result<E>(
    read: Result<(), E>,
    built: Result<(), E>,
    launched: Result<(), E>,
) -> StartAction<E> {
    match (read, built, launched) {
        (Err(e), _, _) => StartAction::Fail(e),
        (Ok(_), Err(e), _) => StartAction::Fail(e),
        (Ok(_), Ok(_), Err(e)) => StartAction::Fail(e),
        (Ok(_), Ok(_), Ok(_)) => StartAction::Done,
    }
}

/// A start reads, then builds, then launches, each only after the one before went well, and is
/// over with the first failure or when all went well.
pub proof fn law_start_ends_with_the_first_failure<E>(
    read: Result<(), E>,
    built: Result<(), E>,
    launched: Result<(), E>,
)
    ensures
        ({
            let (reading, first) = Starting::Reading.after(read);
            let (building, second) = reading.after(built);
            let (launching, third) = building.after(launched);
            let end = start_result(read, built, launched);
            if read is Err {
                first == end && reading == Starting::Over
            } else if built is Err {
                first is Build && second == end && building == Starting::Over
            } else {
                first is Build && second is Start && third == end && launching == Starting::Over
            }
        }),
{
}

/// What comes next while the transports of a node are closed.
#[derive(Debug)]
pub enum CloseAction<E> {
    /// The transport at this place is to be closed.
    Close(usize),
    /// All are closed.
    Done,
    /// One could not be closed, and the rest are left open.
    Fail(E),
}

/// How far the closing of `total` transports has come.
#[derive(Clone, Copy, PartialEq, Eq, Structural, Debug)]
pub struct Closing {
    pub closed: usize,
    pub total: usize,
}

impl Closing {
    pub open spec fn wf(self) -> bool {
        self.closed <= self.total
    }

    /// The closing of `total` transports, and the first thing to do.
    pub fn start<E>(total: usize) -> (r: (Closing, CloseAction<E>))
        ensures
            r.0 == (Closing { closed: 0, total }),
            r.0.wf(),
            r.1 == r.0.next_action::<E>(),
    {
        let closing = Closing { closed: 0, total };
        let action = if total == 0 {
            CloseAction::Done
        } else {
            CloseAction::Close(0)
        };
        (closing, action)
    }

    /// The transport to close next, or the end.
    pub open spec fn next_action<E>(self) -> CloseAction<E> {
        if self.closed < self.total {
            CloseAction::Close(self.closed)
        } else {
            CloseAction::Done
        }
    }

    /// How far the closing has come once the attempt to close the next transport ended as
    /// `outcome` says, and what comes next.
    pub open spec fn after<E>(self, outcome: Result<(), E>) -> (Closing, CloseAction<E>) {
        match outcome {
            Ok(_) => {
                let next = Closing { closed: (self.closed + 1) as usize, ..self };
                (next, next.next_action())
            },
            Err(e) => (self, CloseAction::Fail(e)),
        }
    }

    /// The attempt to close the next transport ended as `outcome` says: on success the one
    /// after it comes next, on failure nothing does.
    pub fn step<E>(&mut self, outcome: Result<(), E>) -> (action: CloseAction<E>)
        requires
            old(self).closed < old(self).total,
        ensures
            (*final(self), action) == old(self).after(outcome),
            final(self).wf(),
    {
        match outcome {
            Ok(_) => {
                self.closed = self.closed + 1;
                if self.closed < self.total {
                    CloseAction::Close(self.closed)
                } else {
                    CloseAction::Done
                }
            },
            Err(e) => CloseAction::Fail(e),
        }
    }
}

/// How far the closing of `total` transports has come, and what comes next, once the attempts to
/// close them one by one ended as `outcomes` say. What would follow the end is not tried.
pub open spec fn closing_after<E>(total: usize, outcomes: Seq<Result<(), E>>) -> (
    Closing,
    CloseAction<E>,
)
    decreases outcomes.len(),
{
    if outcomes.len() == 0 {
        let closing = Closing { closed: 0, total };
        (closing, closing.next_action())
    } else {
        let before = closing_after(total, outcomes.drop_last());
        if before.1 is Close {
            before.0.after(outcomes.last())
        } else {
            before
        }
    }
}

/// The first of the outcomes that is a failure is at `k`.
pub open spec fn fails_first_at<E>(outcomes: Seq<Result<(), E>>, k: int) -> bool {
    &&& 0 <= k < outcomes.len()
    &&& outcomes[k] is Err
    &&& forall|i: int| 0 <= i < k ==> (#[trigger] outcomes[i]) is Ok
}

/// Transports are closed in order: as long as all went well the next one follows, until all are
/// closed; with the first failure the closing ends, and the rest are left open.
pub proof fn law_closing_ends_with_the_first_failure<E>(
    total: usize,
    outcomes: Seq<Result<(), E>>,
)
    requires
        outcomes.len() <= total,
    ensures
        (forall|i: int| 0 <= i < outcomes.len() ==> (#[trigger] outcomes[i]) is Ok)
            ==> closing_after(total, outcomes) == (
            Closing { closed: outcomes.len() as usize, total },
            if outcomes.len() < total {
                CloseAction::<E>::Close(outcomes.len() as usize)
            } else {
                CloseAction::Done
            },
        ),
        forall|k: int| #[trigger]
            fails_first_at(outcomes, k) ==> closing_after(total, outcomes) == (
                Closing { closed: k as usize, total },
                CloseAction::Fail(outcomes[k]->Err_0),
            ),
    decreases outcomes.len(),
{
    if outcomes.len() > 0 {
        let rest = outcomes.drop_last();
        let last = outcomes.len() - 1;
        law_closing_ends_with_the_first_failure(total, rest);
        assert(outcomes[last] == outcomes.last());
        if forall|i: int| 0 <= i < outcomes.len() ==> (#[trigger] outcomes[i]) is Ok {
            assert forall|i: int| 0 <= i < rest.len() implies (#[trigger] rest[i]) is Ok by {
                assert(rest[i] == outcomes[i]);
            }
        }
        assert forall|k: int| #[trigger] fails_first_at(outcomes, k) implies closing_after(
            total,
            outcomes,
        ) == (Closing { closed: k as usize, total }, CloseAction::Fail(outcomes[k]->Err_0)) by {
            assert forall|i: int| 0 <= i < rest.len() && i < k implies (#[trigger] rest[i]) is Ok by {
                assert(rest[i] == outcomes[i]);
            }
            if k < last {
                assert(rest[k] == outcomes[k]);
                assert(fails_first_at(rest, k));
            }
        }
    }
}

/// A set of roles has those that it names.
pub proof fn law_matcher_has_its_roles(roles: WhatAmIMatcher)
    ensures
        roles.has(WhatAmI::Router) == roles.router,
        roles.has(WhatAmI::Peer) == roles.peer,
        roles.has(WhatAmI::Client) == roles.client,
{
}

/// A node that started has the given identifier and version, and everything else as its
/// configuration has it: the role that is set, or that of a peer; a clock under its identifier
/// exactly if timestamps are asked for, whatever else is set; an exchange of link states unless
/// it is a client or that is switched off, in which peers are connected to unless that is
/// switched off, and nodes heard of through gossip exactly if its own role is among those set.
pub proof fn law_node_starts_as_configured(
    version: u8,
    config: Config,
    pid: PeerId,
    runtime: Runtime,
    plan: StartPlan,
)
    requires
        starts_as(version, config, pid, runtime, plan),
    ensures
        runtime.state.pid == pid,
        pid.size <= 16,
        runtime.state.whatami == (match config.mode {
            Some(mode) => mode,
            None => WhatAmI::Peer,
        }),
        runtime.state.config.version == Some(version),
        runtime.state.config.mode == config.mode,
        runtime.state.config.add_timestamp == config.add_timestamp,
        runtime.state.config.peers_autoconnect == config.peers_autoconnect,
        runtime.state.config.gossip_autoconnect == config.gossip_autoconnect,
        runtime.state.config.link_state == config.link_state,
        runtime.state.hlc is Some <==> config.add_timestamp == Some(true),
        runtime.state.hlc matches Some(hlc) ==> clock_id(*hlc) == pid.id@.take(pid.size as int),
        plan.version == version,
        plan.whatami == runtime.state.whatami,
        plan.pid == pid,
        plan.link_state is Some <==> config.mode != Some(WhatAmI::Client) && config.link_state
            != Some(false),
        plan.link_state matches Some(p) ==> {
            &&& p.peers_autoconnect <==> config.peers_autoconnect != Some(false)
            &&& p.routers_autoconnect_gossip <==> (match config.gossip_autoconnect {
                Some(roles) => match config.mode {
                    Some(WhatAmI::Router) => roles.router,
                    _ => roles.peer,
                },
                None => false,
            })
        },
{
}

/// Data that is no reply is routed right away, with everything as it came in the message.
pub proof fn law_data_is_routed_as_it_came<R, I, B>(msg: ZenohMessage<R, I, B>)
    requires
        msg.body is Data,
        msg.body->Data_0.reply_context is None,
    ensures
        match action_for(msg) {
            MessageAction::RouteData {
                rid,
                suffix,
                channel,
                congestion_control,
                data_info,
                payload,
                routing_context,
            } => {
                let data = msg.body->Data_0;
                &&& rid == data.key.rid
                &&& suffix == data.key.suffix
                &&& channel == msg.channel
                &&& congestion_control == data.congestion_control
                &&& data_info == data.data_info
                &&& payload == data.payload
                &&& routing_context == msg.routing_context
            },
            MessageAction::HandOn(_) => false,
        },
{
}

/// Replies, and messages that are no data, are handed on as they came.
pub proof fn law_the_rest_is_handed_on<R, I, B>(msg: ZenohMessage<R, I, B>)
    requires
        msg.body is Other || msg.body->Data_0.reply_context is Some,
    ensures
        match action_for(msg) {
            MessageAction::HandOn(m) => m.body == msg.body && m.channel == msg.channel
                && m.routing_context == msg.routing_context,
            _ => false,
        },
{
}

/// Each refusal is told in its own words, with what it is about.
pub proof fn law_refusals_have_their_words(
    cause: String,
    id: String,
    hex: HexError,
    size: usize,
)
    ensures
        ZError::Version(cause).text() == "Unable to set version: "@ + cause@,
        ZError::Pid(PidError::InvalidId { id, cause: hex }).text() == "Invalid id: "@ + id@
            + " - "@ + hex_error_text(hex),
        ZError::Pid(PidError::InvalidSize { size }).text() == "Invalid id size: "@ + decimal(
            size as nat,
        ) + " ("@ + decimal(16) + " bytes max)"@,
        ZError::NotReady.text() == "Runtime not yet ready!"@,
{
}

/// Whatever is at hand, a failure ends the start and is handed back; a success leads from
/// reading to building, from there to launching, and from there to the end.
pub proof fn law_start_goes_step_by_step<E>(at: Starting, failure: E)
    ensures
        at.after(Err::<(), E>(failure)) == (Starting::Over, StartAction::Fail(failure)),
        Starting::Reading.after(Ok::<(), E>(())) == (Starting::Building, StartAction::<E>::Build),
        Starting::Building.after(Ok::<(), E>(())) == (
            Starting::Launching,
            StartAction::<E>::Start,
        ),
        Starting::Launching.after(Ok::<(), E>(())) == (Starting::Over, StartAction::<E>::Done),
{
}

/// A start succeeds exactly if reading, building and launching do, and else ends with the first
/// failure.
pub proof fn law_start_succeeds_if_all_do<E>(
    read: Result<(), E>,
    built: Result<(), E>,
    launched: Result<(), E>,
)
    ensures
        start_result(read, built, launched) is Done <==> read is Ok && built is Ok && launched is Ok,
        read is Err ==> start_result(read, built, launched) == StartAction::Fail(read->Err_0),
        read is Ok && built is Err ==> start_result(read, built, launched) == StartAction::Fail(
            built->Err_0,
        ),
        read is Ok && built is Ok && launched is Err ==> start_result(read, built, launched)
            == StartAction::Fail(launched->Err_0),
{
}

/// While transports are left the next one is closed. A success leads to the one behind it or to
/// the end, a failure ends the closing where it is and is handed back.
pub proof fn law_closing_goes_step_by_step<E>(closing: Closing, failure: E)
    requires
        closing.closed < closing.total,
    ensures
        closing.next_action::<E>() == CloseAction::<E>::Close(closing.closed),
        closing.after(Err::<(), E>(failure)) == (closing, CloseAction::Fail(failure)),
        closing.after(Ok::<(), E>(())).0.total == closing.total,
        closing.after(Ok::<(), E>(())).0.closed == closing.closed + 1,
        closing.closed + 1 < closing.total ==> closing.after(Ok::<(), E>(())).1
            == CloseAction::<E>::Close((closing.closed + 1) as usize),
        closing.closed + 1 == closing.total ==> closing.after(Ok::<(), E>(())).1
            == CloseAction::<E>::Done,
        (Closing { closed: closing.total, total: closing.total }).next_action::<E>()
            == CloseAction::<E>::Done,
{
}

/// With the first failure, at `k`, the closing ends: that many transports are closed, and the
/// failure is handed back.
pub proof fn law_closing_stops_at_a_failure<E>(
    total: usize,
    outcomes: Seq<Result<(), E>>,
    k: int,
)
    requires
        outcomes.len() <= total,
        0 <= k < outcomes.len(),
        outcomes[k] is Err,
        forall|i: int| 0 <= i < k ==> (#[trigger] outcomes[i]) is Ok,
    ensures
        closing_after(total, outcomes).0.closed == k,
        closing_after(total, outcomes).1 == CloseAction::Fail(outcomes[k]->Err_0),
{
    law_closing_ends_with_the_first_failure(total, outcomes);
    assert(fails_first_at(outcomes, k));
}

} // verus!
