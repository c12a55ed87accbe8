//! Starting and stopping a packet-monitor capture: which call comes next, and what
//! has to be given back when one fails.

use crate::pktmon;
use crate::pktmon::{CaptureMode, CaptureScope, ScopeOutcome};
use crate::text;
use vstd::prelude::*;

verus! {

/// The calls of a startup, in order. The data-source ones belong to a scoped start.
#[derive(Clone, Copy, Debug, PartialEq, Eq, Structural)]
pub enum ApiCall {
    Initialize,
    EnumerateAndJoin,
    CreateLiveSession,
    AddCaptureConstraint,
    AddSingleDataSource,
    CreateRealtimeStream,
    AttachOutputToSession,
    SetSessionActive,
}

/// What a call gives that has to be given back.
#[derive(Clone, Copy, Debug, PartialEq, Eq, Structural)]
pub enum Resource {
    Handle,
    Session,
    Stream,
}

/// The calls that give things back.
#[derive(Clone, Copy, Debug, PartialEq, Eq, Structural)]
pub enum Release {
    Deactivate,
    CloseStream,
    CloseSession,
    Uninitialize,
}

/// What comes after a call.
#[derive(Debug)]
pub enum StartAction {
    /// The next call.
    Call(ApiCall),
    /// Give back in this order, and fail.
    Fail { release: Vec<Release>, reason: String },
    /// The capture runs.
    Done,
}

/// The calls of a startup, in order.
pub open spec fn calls(scoped: bool) -> Seq<ApiCall> {
    if scoped {
        seq![
            ApiCall::Initialize,
            ApiCall::EnumerateAndJoin,
            ApiCall::CreateLiveSession,
            ApiCall::AddCaptureConstraint,
            ApiCall::AddSingleDataSource,
            ApiCall::CreateRealtimeStream,
            ApiCall::AttachOutputToSession,
            ApiCall::SetSessionActive,
        ]
    } else {
        seq![
            ApiCall::Initialize,
            ApiCall::CreateLiveSession,
            ApiCall::AddCaptureConstraint,
            ApiCall::CreateRealtimeStream,
            ApiCall::AttachOutputToSession,
            ApiCall::SetSessionActive,
        ]
    }
}

/// What a successful call gives.
pub open spec fn gives(call: ApiCall) -> Option<Resource> {
    match call {
        ApiCall::Initialize => Some(Resource::Handle),
        ApiCall::CreateLiveSession => Some(Resource::Session),
        ApiCall::CreateRealtimeStream => Some(Resource::Stream),
        _ => None,
    }
}

/// How a thing is given back.
pub open spec fn given_back_by(r: Resource) -> Release {
    match r {
        Resource::Handle => Release::Uninitialize,
        Resource::Session => Release::CloseSession,
        Resource::Stream => Release::CloseStream,
    }
}

/// Gives back what the first `n` calls gave, the last thing first.
pub open spec fn unwind(scoped: bool, n: int) -> Seq<Release>
    decreases n,
{
    if n <= 0 {
        Seq::empty()
    } else {
        let before = unwind(scoped, n - 1);
        match gives(calls(scoped)[n - 1]) {
            Some(r) => seq![given_back_by(r)] + before,
            None => before,
        }
    }
}

/// The name of a call in messages.
pub open spec fn call_name(call: ApiCall) -> Seq<char> {
    match call {
        ApiCall::Initialize => "PacketMonitorInitialize"@,
        ApiCall::EnumerateAndJoin => "PacketMonitorEnumDataSources"@,
        ApiCall::CreateLiveSession => "PacketMonitorCreateLiveSession"@,
        ApiCall::AddCaptureConstraint => "PacketMonitorAddCaptureConstraint"@,
        ApiCall::AddSingleDataSource => "PacketMonitorAddSingleDataSourceToSession"@,
        ApiCall::CreateRealtimeStream => "PacketMonitorCreateRealtimeStream"@,
        ApiCall::AttachOutputToSession => "PacketMonitorAttachOutputToSession"@,
        ApiCall::SetSessionActive => "PacketMonitorSetSessionActive"@,
    }
}

/// The name of a call in messages.
pub fn call_text(call: ApiCall) -> (r: &'static str)
    ensures
        r@ == call_name(call),
{
    match call {
        ApiCall::Initialize => "PacketMonitorInitialize",
        ApiCall::EnumerateAndJoin => "PacketMonitorEnumDataSources",
        ApiCall::CreateLiveSession => "PacketMonitorCreateLiveSession",
        ApiCall::AddCaptureConstraint => "PacketMonitorAddCaptureConstraint",
        ApiCall::AddSingleDataSource => "PacketMonitorAddSingleDataSourceToSession",
        ApiCall::CreateRealtimeStream => "PacketMonitorCreateRealtimeStream",
        ApiCall::AttachOutputToSession => "PacketMonitorAttachOutputToSession",
        ApiCall::SetSessionActive => "PacketMonitorSetSessionActive",
    }
}

/// `<call>: HRESULT 0x<code>`.
pub open spec fn failure_text(call: ApiCall, hr: i32) -> Seq<char> {
    call_name(call) + ": HRESULT 0x"@ + text::hex8(hr as u32)
}

/// `<call>: HRESULT 0x<code>`.
pub fn call_failure(call: ApiCall, hr: i32) -> (r: String)
    ensures
        r@ == failure_text(call, hr),
{
    let mut r = String::from_str(call_text(call));
    r.append(": HRESULT 0x");
    text::push_hex8(&mut r, hr as u32);
    r
}

/// `<call> failed: HRESULT 0x<code>`, as the availability probe says it.
pub fn probe_failure(call: ApiCall, hr: i32) -> (r: String)
    ensures
        r@ == call_name(call) + " failed: HRESULT 0x"@ + text::hex8(hr as u32),
{
    let mut r = String::from_str(call_text(call));
    r.append(" failed: HRESULT 0x");
    text::push_hex8(&mut r, hr as u32);
    r
}

/// Where a call stands in a startup.
pub open spec fn position(call: ApiCall, scoped: bool) -> int {
    calls(scoped).index_of(call)
}

fn release_after(call: ApiCall, scoped: bool) -> (r: Vec<Release>)
    requires
        calls(scoped).contains(call),
    ensures
        r@ == unwind(scoped, position(call, scoped)),
{
    let mut r: Vec<Release> = Vec::new();
    let stream = match call {
        ApiCall::AttachOutputToSession | ApiCall::SetSessionActive => true,
        _ => false,
    };
    let session = match call {
        ApiCall::Initialize | ApiCall::EnumerateAndJoin | ApiCall::CreateLiveSession => false,
        _ => true,
    };
    let handle = match call {
        ApiCall::Initialize => false,
        _ => true,
    };
    if stream {
        r.push(Release::CloseStream);
    }
    if session {
        r.push(Release::CloseSession);
    }
    if handle {
        r.push(Release::Uninitialize);
    }
    proof {
        lemma_positions(scoped);
        reveal_with_fuel(unwind, 9);
        assert(r@ =~= unwind(scoped, position(call, scoped)));
    }
    r
}

proof fn lemma_positions(scoped: bool)
    ensures
        forall|i: int| 0 <= i < calls(scoped).len() ==> #[trigger] position(calls(scoped)[i], scoped)
            == i,
{
    assert forall|i: int| 0 <= i < calls(scoped).len() implies #[trigger] position(
        calls(scoped)[i],
        scoped,
    ) == i by {
        let c = calls(scoped)[i];
        assert(calls(scoped).contains(c));
        let j = calls(scoped).index_of(c);
        assert(0 <= j < calls(scoped).len() && calls(scoped)[j] == c);
    }
}

/// What comes after a call returned `hr`.
pub fn after_call(call: ApiCall, scoped: bool, hr: i32) -> (r: StartAction)
    requires
        calls(scoped).contains(call),
        call != ApiCall::EnumerateAndJoin,
    ensures
        hr == 0 ==> next_call(call, scoped, r),
        hr != 0 ==> match r {
            StartAction::Fail { release, reason } => release@ == unwind(
                scoped,
                position(call, scoped),
            ) && reason@ == failure_text(call, hr),
            _ => false,
        },
{
    if hr != 0 {
        return StartAction::Fail {
            release: release_after(call, scoped),
            reason: call_failure(call, hr),
        };
    }
    following(call, scoped)
}

/// `r` is the call that follows `call`, or the end.
pub open spec fn next_call(call: ApiCall, scoped: bool, r: StartAction) -> bool {
    let i = position(call, scoped) + 1;
    if i < calls(scoped).len() {
        r == StartAction::Call(calls(scoped)[i])
    } else {
        r is Done
    }
}

fn following(call: ApiCall, scoped: bool) -> (r: StartAction)
    requires
        calls(scoped).contains(call),
    ensures
        next_call(call, scoped, r),
{
    proof {
        lemma_positions(scoped);
        let i = calls(scoped).index_of(call);
        assert(calls(scoped)[i] == call);
    }
    match call {
        ApiCall::Initialize => if scoped {
            StartAction::Call(ApiCall::EnumerateAndJoin)
        } else {
            StartAction::Call(ApiCall::CreateLiveSession)
        },
        ApiCall::EnumerateAndJoin => StartAction::Call(ApiCall::CreateLiveSession),
        ApiCall::CreateLiveSession => StartAction::Call(ApiCall::AddCaptureConstraint),
        ApiCall::AddCaptureConstraint => if scoped {
            StartAction::Call(ApiCall::AddSingleDataSource)
        } else {
            StartAction::Call(ApiCall::CreateRealtimeStream)
        },
        ApiCall::AddSingleDataSource => StartAction::Call(ApiCall::CreateRealtimeStream),
        ApiCall::CreateRealtimeStream => StartAction::Call(ApiCall::AttachOutputToSession),
        ApiCall::AttachOutputToSession => StartAction::Call(ApiCall::SetSessionActive),
        ApiCall::SetSessionActive => StartAction::Done,
    }
}

/// What comes after the data sources of a scoped start were listed and joined.
pub fn after_join(joined: Result<(usize, u32), String>) -> (r: StartAction)
    ensures
        match joined {
            Ok(_) => next_call(ApiCall::EnumerateAndJoin, true, r),
            Err(e) => match r {
                StartAction::Fail { release, reason } => reason == e && release@ == unwind(
                    true,
                    position(ApiCall::EnumerateAndJoin, true),
                ),
                _ => false,
            },
        },
{
    proof {
        assert(calls(true)[1] == ApiCall::EnumerateAndJoin);
    }
    match joined {
        Ok(_) => following(ApiCall::EnumerateAndJoin, true),
        Err(e) => StartAction::Fail {
            release: release_after(ApiCall::EnumerateAndJoin, true),
            reason: e,
        },
    }
}

/// Whatever call fails, each thing that the calls before it gave is given back once,
/// and nothing else is.
pub proof fn law_nothing_leaks(scoped: bool, n: int, r: Resource)
    requires
        0 <= n <= calls(scoped).len(),
    ensures
        unwind(scoped, n).no_duplicates(),
        unwind(scoped, n).contains(given_back_by(r)) <==> exists|i: int|
            0 <= i < n && gives(#[trigger] calls(scoped)[i]) == Some(r),
        forall|x: Release| #[trigger]
            unwind(scoped, n).contains(x) ==> exists|q: Resource| x == given_back_by(q),
{
    lemma_unwind_shape(scoped, n);
    let t = unwind(scoped, n);
    let c = calls(scoped);
    let (session, stream) = given_at(scoped);
    assert(c[0] == ApiCall::Initialize && c[session] == ApiCall::CreateLiveSession && c[stream]
        == ApiCall::CreateRealtimeStream);
    assert(forall|i: int|
        0 <= i < c.len() && i != 0 && i != session && i != stream ==> gives(#[trigger] c[i]) is None);
    if n > 0 {
        assert(t[t.len() - 1] == Release::Uninitialize);
        assert(gives(c[0]) == Some(Resource::Handle));
    }
    if n > session {
        assert(t[t.len() - 2] == Release::CloseSession);
        assert(gives(c[session]) == Some(Resource::Session));
    }
    if n > stream {
        assert(t[0] == Release::CloseStream);
        assert(gives(c[stream]) == Some(Resource::Stream));
    }
    assert forall|x: Release| #[trigger] t.contains(x) implies exists|q: Resource|
        x == given_back_by(q) by {
        let q = match x {
            Release::CloseStream => Resource::Stream,
            Release::CloseSession => Resource::Session,
            _ => Resource::Handle,
        };
        assert(x == given_back_by(q));
    }
}

/// Where the session and the stream are created.
spec fn given_at(scoped: bool) -> (int, int) {
    if scoped {
        (2, 5)
    } else {
        (1, 3)
    }
}

proof fn lemma_unwind_shape(scoped: bool, n: int)
    requires
        0 <= n <= calls(scoped).len(),
    ensures
        unwind(scoped, n) == if n <= 0 {
            seq![]
        } else if n <= given_at(scoped).0 {
            seq![Release::Uninitialize]
        } else if n <= given_at(scoped).1 {
            seq![Release::CloseSession, Release::Uninitialize]
        } else {
            seq![Release::CloseStream, Release::CloseSession, Release::Uninitialize]
        },
    decreases n,
{
    if n > 0 {
        lemma_unwind_shape(scoped, n - 1);
        let (session, stream) = given_at(scoped);
        if n == 1 {
            assert(unwind(scoped, n) =~= seq![Release::Uninitialize]);
        } else if n == session + 1 {
            assert(unwind(scoped, n) =~= seq![Release::CloseSession, Release::Uninitialize]);
        } else if n == stream + 1 {
            assert(unwind(scoped, n) =~= seq![
                Release::CloseStream,
                Release::CloseSession,
                Release::Uninitialize,
            ]);
        }
    } else {
        assert(unwind(scoped, n) =~= seq![]);
    }
}

/// How a running capture is stopped: it is deactivated, and then everything is given
/// back.
pub fn stop_sequence() -> (r: Vec<Release>)
    ensures
        r@ == seq![Release::Deactivate] + unwind(true, 8),
        r@ == seq![Release::Deactivate] + unwind(false, 6),
{
    let mut r: Vec<Release> = Vec::new();
    r.push(Release::Deactivate);
    r.push(Release::CloseStream);
    r.push(Release::CloseSession);
    r.push(Release::Uninitialize);
    proof {
        reveal_with_fuel(unwind, 9);
        assert(r@ =~= seq![Release::Deactivate] + unwind(true, 8));
        assert(r@ =~= seq![Release::Deactivate] + unwind(false, 6));
    }
    r
}

/// Why the size that the first listing call asked for is refused.
pub open spec fn size_fault(needed: usize, hr: i32) -> Option<Seq<char>> {
    if needed == 0 || needed > pktmon::DATA_SOURCE_ENUM_MAX_BYTES {
        Some(
            "PacketMonitorEnumDataSources size query returned "@ + text::dec(needed as nat)
                + " bytes (HRESULT 0x"@ + text::hex8(hr as u32) + ")"@,
        )
    } else {
        None
    }
}

/// Checks the size that the first listing call asked for.
pub fn check_list_size(needed: usize, hr: i32) -> (r: Result<(), String>)
    ensures
        match r {
            Ok(()) => size_fault(needed, hr) is None,
            Err(e) => size_fault(needed, hr) == Some(e@),
        },
{
    if needed == 0 || needed > pktmon::DATA_SOURCE_ENUM_MAX_BYTES {
        let mut e = String::from_str("PacketMonitorEnumDataSources size query returned ");
        text::push_dec(&mut e, needed as u64);
        e.append(" bytes (HRESULT 0x");
        text::push_hex8(&mut e, hr as u32);
        e.append(")");
        return Err(e);
    }
    Ok(())
}

/// Joins the adapter to the data sources that the second listing call wrote: gives
/// the offset and the id of the one that matches.
pub fn join_sources(buf: &[u8], base: u64, hr: i32, scope: &CaptureScope) -> (r: Result<
    (usize, u32),
    String,
>)
    requires
        base + buf@.len() <= u64::MAX,
    ensures
        match r {
            Ok((offset, id)) => {
                &&& hr == 0
                &&& pktmon::list_fault(buf@, base as int) is None
                &&& scope.mac is Some
                &&& exists|i: int| #![trigger pktmon::list_sources(buf@, base as int)[i]]
                    {
                        let s = pktmon::list_sources(buf@, base as int);
                        &&& 0 <= i < s.len()
                        &&& pktmon::source_matches(s[i], scope.mac->0@)
                        &&& pktmon::match_count(s, scope.mac->0@, s.len() as int) == 1
                        &&& offset == s[i].offset
                        &&& id == s[i].id
                    }
            },
            Err(e) => if hr != 0 {
                e@ == failure_text(ApiCall::EnumerateAndJoin, hr)
            } else {
                match pktmon::list_fault(buf@, base as int) {
                    Some(fault) => e@ == fault,
                    None => {
                        let s = pktmon::list_sources(buf@, base as int);
                        match scope.mac {
                            None => e@ == pktmon::JoinFailure::NoIdentity.text(),
                            Some(mac) => {
                                let n = pktmon::match_count(s, mac@, s.len() as int);
                                if n == 0 {
                                    e@ == pktmon::JoinFailure::NoMatch.text()
                                } else {
                                    n > 1 && e@ == pktmon::JoinFailure::Ambiguous(n as usize).text()
                                }
                            },
                        }
                    },
                }
            },
        },
{
    if hr != 0 {
        return Err(call_failure(ApiCall::EnumerateAndJoin, hr));
    }
    let entries = match pktmon::parse_data_source_list(buf, base) {
        Ok(entries) => entries,
        Err(e) => {
            return Err(e);
        },
    };
    match pktmon::select_scoped_source(&entries, scope) {
        Ok(i) => {
            proof {
                let s = pktmon::list_sources(buf@, base as int);
                assert(s[i as int] == entries@[i as int]@);
            }
            Ok((entries[i].offset, entries[i].id))
        },
        Err(e) => Err(e.message()),
    }
}

/// How a start goes on after an attempt.
#[derive(Debug)]
pub enum StartOutcome {
    /// The capture runs, scoped like this.
    Started(ScopeOutcome),
    /// The scoped attempt failed: try again, unscoped.
    RetryUnscoped { reason: String },
    /// Both attempts failed, or the only one.
    Failed(String),
}

/// Whether the first attempt is scoped.
pub fn first_attempt_scoped(mode: CaptureMode) -> (r: bool)
    ensures
        r == (mode == CaptureMode::PreferScoped),
{
    mode == CaptureMode::PreferScoped
}

/// How a start goes on after its first attempt, which gave the id of the data source
/// of a scoped capture, or failed.
pub fn after_first_attempt(mode: CaptureMode, result: Result<Option<u32>, String>) -> (r:
    StartOutcome)
    ensures
        match (mode, result, r) {
            (
                CaptureMode::PreferScoped,
                Ok(id),
                StartOutcome::Started(ScopeOutcome::SelectedInterface { source_id }),
            ) => source_id == id,
            (CaptureMode::PreferScoped, Err(e), StartOutcome::RetryUnscoped { reason }) => reason
                == e,
            (
                CaptureMode::ForcedUnscoped,
                Ok(_),
                StartOutcome::Started(ScopeOutcome::UnscopedFallback { reason }),
            ) => reason@ == "unscoped demanded by the capture-restart ladder"@,
            (CaptureMode::ForcedUnscoped, Err(e), StartOutcome::Failed(reason)) => reason == e,
            _ => false,
        },
{
    match (mode, result) {
        (CaptureMode::PreferScoped, Ok(id)) => StartOutcome::Started(
            ScopeOutcome::SelectedInterface { source_id: id },
        ),
        (CaptureMode::PreferScoped, Err(e)) => StartOutcome::RetryUnscoped { reason: e },
        (CaptureMode::ForcedUnscoped, Ok(_)) => StartOutcome::Started(
            ScopeOutcome::UnscopedFallback {
                reason: String::from_str("unscoped demanded by the capture-restart ladder"),
            },
        ),
        (CaptureMode::ForcedUnscoped, Err(e)) => StartOutcome::Failed(e),
    }
}

/// How a start ends after its unscoped retry, given why the scoped attempt failed.
pub fn after_retry(scoped_reason: String, result: Result<(), String>) -> (r: StartOutcome)
    ensures
        match (result, r) {
            (
                Ok(()),
                StartOutcome::Started(ScopeOutcome::UnscopedFallback { reason }),
            ) => reason == scoped_reason,
            (Err(e), StartOutcome::Failed(reason)) => reason@ == "scoped start failed ("@
                + scoped_reason@ + "); unscoped fallback also failed: "@ + e@,
            _ => false,
        },
{
    match result {
        Ok(()) => StartOutcome::Started(ScopeOutcome::UnscopedFallback { reason: scoped_reason }),
        Err(e) => {
            let mut r = String::from_str("scoped start failed (");
            r.append(scoped_reason.as_str());
            r.append("); unscoped fallback also failed: ");
            r.append(e.as_str());
            StartOutcome::Failed(r)
        },
    }
}

/// The calls of a start, in order. A start on all sources makes the same calls, but for
/// the two that find and add the one source.
pub proof fn law_the_calls_of_a_start()
    ensures
        calls(true) == seq![
            ApiCall::Initialize,
            ApiCall::EnumerateAndJoin,
            ApiCall::CreateLiveSession,
            ApiCall::AddCaptureConstraint,
            ApiCall::AddSingleDataSource,
            ApiCall::CreateRealtimeStream,
            ApiCall::AttachOutputToSession,
            ApiCall::SetSessionActive,
        ],
        calls(false) == calls(true).remove(4).remove(1),
{
    assert(calls(false) =~= calls(true).remove(4).remove(1));
}

/// What a start holds is given back in the reverse order: the stream, then the session,
/// then the handle; a call that gives nothing leaves nothing to give back.
pub proof fn law_what_is_given_back(scoped: bool)
    ensures
        unwind(scoped, calls(scoped).len() as int) == seq![
            Release::CloseStream,
            Release::CloseSession,
            Release::Uninitialize,
        ],
        unwind(scoped, 1) == seq![Release::Uninitialize],
        unwind(scoped, 0).len() == 0,
        given_back_by(Resource::Handle) == Release::Uninitialize,
        given_back_by(Resource::Session) == Release::CloseSession,
        given_back_by(Resource::Stream) == Release::CloseStream,
{
    reveal_with_fuel(unwind, 9);
    let c = calls(scoped);
    if scoped {
        assert(c[0] == ApiCall::Initialize && c[1] == ApiCall::EnumerateAndJoin && c[2]
            == ApiCall::CreateLiveSession && c[3] == ApiCall::AddCaptureConstraint && c[4]
            == ApiCall::AddSingleDataSource && c[5] == ApiCall::CreateRealtimeStream && c[6]
            == ApiCall::AttachOutputToSession && c[7] == ApiCall::SetSessionActive);
    } else {
        assert(c[0] == ApiCall::Initialize && c[1] == ApiCall::CreateLiveSession && c[2]
            == ApiCall::AddCaptureConstraint && c[3] == ApiCall::CreateRealtimeStream && c[4]
            == ApiCall::AttachOutputToSession && c[5] == ApiCall::SetSessionActive);
    }
    assert(unwind(scoped, 1) =~= seq![Release::Uninitialize]);
    assert(unwind(scoped, c.len() as int) =~= seq![
        Release::CloseStream,
        Release::CloseSession,
        Release::Uninitialize,
    ]);
}

/// Each call that worked is followed by the next one, and the last by the end.
pub proof fn law_calls_follow_each_other(scoped: bool, i: int, r: StartAction)
    requires
        0 <= i < calls(scoped).len(),
        next_call(calls(scoped)[i], scoped, r),
    ensures
        i + 1 < calls(scoped).len() ==> r == StartAction::Call(calls(scoped)[i + 1]),
        i + 1 == calls(scoped).len() ==> r is Done,
{
    lemma_positions(scoped);
    let c = calls(scoped);
    let k = c.index_of(c[i]);
    assert(c.contains(c[i]));
    assert(c[k] == c[i]);
    if scoped {
        assert(c[0] == ApiCall::Initialize && c[1] == ApiCall::EnumerateAndJoin && c[2]
            == ApiCall::CreateLiveSession && c[3] == ApiCall::AddCaptureConstraint && c[4]
            == ApiCall::AddSingleDataSource && c[5] == ApiCall::CreateRealtimeStream && c[6]
            == ApiCall::AttachOutputToSession && c[7] == ApiCall::SetSessionActive);
    } else {
        assert(c[0] == ApiCall::Initialize && c[1] == ApiCall::CreateLiveSession && c[2]
            == ApiCall::AddCaptureConstraint && c[3] == ApiCall::CreateRealtimeStream && c[4]
            == ApiCall::AttachOutputToSession && c[5] == ApiCall::SetSessionActive);
    }
    assert(k == i);
}

/// A list of sources is read exactly when it has 1 to 4194304 bytes.
pub proof fn law_which_lists_are_read(needed: usize, hr: i32)
    ensures
        size_fault(needed, hr) is None <==> 1 <= needed <= 4194304,
{
}

} // verus!
