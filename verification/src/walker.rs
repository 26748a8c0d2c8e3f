//! The NSEC walker: a state machine over the outcomes of NSEC queries.
//!
//! The walker owns the traversal state — the immutable start name and the
//! mutable cursor — and decides, from each query outcome its caller hands
//! back, whether to emit the next owner name, stop cleanly because the chain
//! wrapped back to the start, or fail. It performs no queries itself: while
//! it is active it names the next query target, the caller resolves it by
//! whatever means it has, and feeds the outcome to `advance`. A resolution
//! failure or an answer without a leading NSEC record ends the walk with
//! exactly one error; nothing is produced after that.
//!
//! Every transition is specified against a ghost model (`WalkModel`,
//! `model_step`), and the chain-level guarantees — termination on a closed
//! chain, immediate closure, failure propagation, the no-record case — are
//! proved over the same model.

use vstd::prelude::*;

use crate::name::DomainName;
use crate::name::NameSyntaxError;
use crate::name::canon_name;
use crate::name::parsed_labels;
use crate::name::text_valid;
use vstd::string::StringSliceAdditionalSpecFns;

verus! {

/// The three phases a walk can be in.
#[derive(Clone, Copy, Debug, PartialEq, Eq, Structural)]
pub enum Phase {
    /// Still walking: the next query target is the current name.
    Active,
    /// The chain wrapped back to the start; the walk succeeded.
    Closed,
    /// A step failed; the walk produces nothing further.
    Failed,
}

/// One resource record of a query answer, reduced to what the walk reads:
/// either an NSEC record carrying its next owner name, or a record of some
/// other kind.
#[derive(Debug, PartialEq, Eq)]
pub enum Record {
    Nsec { next_owner: DomainName },
    Other,
}

/// A query the resolution layer could not complete (timeout, transport
/// failure, server error), with its description.
#[derive(Debug, PartialEq, Eq)]
pub struct ResolutionFailure {
    pub message: String,
}

/// Why a walk stopped early.
#[derive(Debug, PartialEq, Eq)]
pub enum WalkError {
    /// The resolution layer failed; the cause is passed through unchanged.
    Resolution { message: String },
    /// The query succeeded but its answer held no NSEC record in front:
    /// the name is not NSEC-covered (unsigned zone, wrong name).
    NoNsecRecord,
}

/// Ghost model of the walker state.
pub struct WalkModel {
    pub start: Seq<Seq<u8>>,
    pub current: Seq<Seq<u8>>,
    pub phase: Phase,
}

/// Ghost model of one answer record.
pub enum RecModel {
    Nsec(Seq<Seq<u8>>),
    Other,
}

/// Ghost model of one query outcome.
pub enum RespModel {
    Records(Seq<RecModel>),
    Failed(Seq<char>),
}

/// Ghost model of a walk error.
pub enum ErrModel {
    Resolution(Seq<char>),
    NoNsecRecord,
}

/// Ghost model of what one step produced: an emitted name, the end of the
/// sequence, or the walk's single error.
pub enum StepModel {
    Item(Seq<Seq<u8>>),
    End,
    Error(ErrModel),
}

pub open spec fn record_model(r: Record) -> RecModel {
    match r {
        Record::Nsec { next_owner } => RecModel::Nsec(next_owner@),
        Record::Other => RecModel::Other,
    }
}

pub open spec fn response_model(r: Result<Vec<Record>, ResolutionFailure>) -> RespModel {
    match r {
        Result::Ok(records) => RespModel::Records(
            records@.map_values(|rec: Record| record_model(rec)),
        ),
        Result::Err(failure) => RespModel::Failed(failure.message@),
    }
}

pub open spec fn error_model(e: WalkError) -> ErrModel {
    match e {
        WalkError::Resolution { message } => ErrModel::Resolution(message@),
        WalkError::NoNsecRecord => ErrModel::NoNsecRecord,
    }
}

pub open spec fn output_model(r: Option<Result<DomainName, WalkError>>) -> StepModel {
    match r {
        Option::None => StepModel::End,
        Option::Some(Result::Ok(name)) => StepModel::Item(name@),
        Option::Some(Result::Err(e)) => StepModel::Error(error_model(e)),
    }
}

/// The state a freshly constructed walker is in: cursor at the start name,
/// walk active.
pub open spec fn init_model(start: Seq<Seq<u8>>) -> WalkModel {
    WalkModel { start: start, current: start, phase: Phase::Active }
}

/// The whole traversal rule, as one function from state and query outcome
/// to successor state and produced step.
///
/// Once a walk is closed or failed it stays so and produces only `End`.
/// While active: a failed query fails the walk with its cause; an answer
/// without a leading NSEC record fails it with `NoNsecRecord`; a next owner
/// name canonically equal to the start closes it silently; any other next
/// owner name becomes the new cursor and is emitted.
pub open spec fn model_step(m: WalkModel, resp: RespModel) -> (WalkModel, StepModel) {
    if m.phase != Phase::Active {
        (m, StepModel::End)
    } else {
        match resp {
            RespModel::Failed(msg) => (
                WalkModel { start: m.start, current: m.current, phase: Phase::Failed },
                StepModel::Error(ErrModel::Resolution(msg)),
            ),
            RespModel::Records(rs) => {
                if rs.len() == 0 || !(rs[0] is Nsec) {
                    (
                        WalkModel { start: m.start, current: m.current, phase: Phase::Failed },
                        StepModel::Error(ErrModel::NoNsecRecord),
                    )
                } else {
                    let next = rs[0]->Nsec_0;
                    if canon_name(next) == canon_name(m.start) {
                        (
                            WalkModel { start: m.start, current: m.current, phase: Phase::Closed },
                            StepModel::End,
                        )
                    } else {
                        (
                            WalkModel { start: m.start, current: next, phase: Phase::Active },
                            StepModel::Item(next),
                        )
                    }
                }
            },
        }
    }
}

/// What a zone answers while the chain is being walked: the zone maps the
/// canonical form of each covered name to that name's next owner name; a
/// query for anything else fails.
pub open spec fn zone_response(
    zone: Map<Seq<Seq<u8>>, Seq<Seq<u8>>>,
    cur: Seq<Seq<u8>>,
) -> RespModel {
    if zone.contains_key(canon_name(cur)) {
        RespModel::Records(seq![RecModel::Nsec(zone[canon_name(cur)])])
    } else {
        RespModel::Failed(Seq::empty())
    }
}

/// The walker driven `k` steps against a zone: the state it reaches and
/// the steps it produced, in order.
pub open spec fn run_steps(
    zone: Map<Seq<Seq<u8>>, Seq<Seq<u8>>>,
    m: WalkModel,
    k: nat,
) -> (WalkModel, Seq<StepModel>)
    decreases k,
{
    if k == 0 {
        (m, Seq::empty())
    } else {
        let prev = run_steps(zone, m, (k - 1) as nat);
        let step = model_step(prev.0, zone_response(zone, prev.0.current));
        (step.0, prev.1.push(step.1))
    }
}

/// `chain` lists a closed NSEC chain in a zone: pairwise canonically
/// distinct names, each mapped by the zone to its successor, the last one
/// mapped back to the first.
pub open spec fn closed_chain(zone: Map<Seq<Seq<u8>>, Seq<Seq<u8>>>, chain: Seq<Seq<Seq<u8>>>) -> bool {
    let n = chain.len() as int;
    &&& n >= 1
    &&& forall|i: int, j: int|
        0 <= i < j < n ==> canon_name(#[trigger] chain[i]) != canon_name(#[trigger] chain[j])
    &&& forall|i: int| 0 <= i < n ==> zone.contains_key(canon_name(#[trigger] chain[i]))
    &&& forall|i: int| 0 <= i < n - 1 ==> zone[canon_name(#[trigger] chain[i])] == chain[i + 1]
    &&& zone[canon_name(chain[n - 1])] == chain[0]
}

proof fn lemma_walk_prefix(zone: Map<Seq<Seq<u8>>, Seq<Seq<u8>>>, chain: Seq<Seq<Seq<u8>>>, k: int)
    requires
        closed_chain(zone, chain),
        0 <= k < chain.len(),
    ensures
        ({
            let r = run_steps(zone, init_model(chain[0]), k as nat);
            r.0 == WalkModel { start: chain[0], current: chain[k], phase: Phase::Active } && r.1
                == chain.subrange(1, k + 1).map_values(|name: Seq<Seq<u8>>| StepModel::Item(name))
        }),
    decreases k,
{
    let items = |hi: int| chain.subrange(1, hi).map_values(
        |name: Seq<Seq<u8>>| StepModel::Item(name),
    );
    if k == 0 {
        assert(items(1) =~= Seq::<StepModel>::empty());
    } else {
        lemma_walk_prefix(zone, chain, k - 1);
        let prev = run_steps(zone, init_model(chain[0]), (k - 1) as nat);
        assert(prev.0.current == chain[k - 1]);
        assert(zone.contains_key(canon_name(chain[k - 1])));
        assert(zone[canon_name(chain[k - 1])] == chain[k]);
        let resp = zone_response(zone, prev.0.current);
        assert(resp->Records_0.len() == 1);
        assert(resp->Records_0[0] == RecModel::Nsec(chain[k]));
        assert(canon_name(chain[0]) != canon_name(chain[k]));
        let step = model_step(prev.0, resp);
        assert(step.0 == WalkModel { start: chain[0], current: chain[k], phase: Phase::Active });
        assert(step.1 == StepModel::Item(chain[k]));
        assert(items(k).push(StepModel::Item(chain[k])) =~= items(k + 1));
    }
}

/// Termination on a closed chain: walking a zone whose NSEC records form a
/// closed chain of `n` canonically distinct names, starting at the first,
/// takes exactly `n` queries, emits the `n - 1` names after the start (the
/// closure edge is consumed, the start is not re-emitted), and then ends
/// cleanly, with no error, in the closed phase.
pub proof fn lemma_closed_chain_walk(zone: Map<Seq<Seq<u8>>, Seq<Seq<u8>>>, chain: Seq<Seq<Seq<u8>>>)
    requires
        closed_chain(zone, chain),
    ensures
        ({
            let n = chain.len() as int;
            let r = run_steps(zone, init_model(chain[0]), chain.len());
            r.0 == WalkModel { start: chain[0], current: chain[n - 1], phase: Phase::Closed } && r.1
                == chain.subrange(1, n).map_values(
                |name: Seq<Seq<u8>>| StepModel::Item(name),
            ).push(StepModel::End)
        }),
{
    let n = chain.len() as int;
    lemma_walk_prefix(zone, chain, n - 1);
    let prev = run_steps(zone, init_model(chain[0]), (n - 1) as nat);
    assert(prev.0.current == chain[n - 1]);
    assert(zone.contains_key(canon_name(chain[n - 1])));
    let resp = zone_response(zone, prev.0.current);
    assert(resp->Records_0[0] == RecModel::Nsec(chain[0]));
    let step = model_step(prev.0, resp);
    assert(step.0 == WalkModel { start: chain[0], current: chain[n - 1], phase: Phase::Closed });
    assert(step.1 == StepModel::End);
}

/// The anchor is immutable: no step, whatever the query outcome, changes
/// the start name the walk was bound to.
pub proof fn lemma_start_never_changes(m: WalkModel, resp: RespModel)
    ensures
        model_step(m, resp).0.start == m.start,
{
}

/// No revisiting: while walking a closed chain, the cursor stands on a
/// canonically different name after any two different numbers of steps
/// short of closure.
pub proof fn lemma_no_revisit(
    zone: Map<Seq<Seq<u8>>, Seq<Seq<u8>>>,
    chain: Seq<Seq<Seq<u8>>>,
    k1: int,
    k2: int,
)
    requires
        closed_chain(zone, chain),
        0 <= k1 < k2 < chain.len(),
    ensures
        canon_name(run_steps(zone, init_model(chain[0]), k1 as nat).0.current) != canon_name(
            run_steps(zone, init_model(chain[0]), k2 as nat).0.current,
        ),
{
    lemma_walk_prefix(zone, chain, k1);
    lemma_walk_prefix(zone, chain, k2);
}

/// Immediate closure: if the very first query's NSEC record already points
/// back (canonically) to the start name, the walk ends at once — no item,
/// no error.
pub proof fn lemma_immediate_closure(start: Seq<Seq<u8>>, next: Seq<Seq<u8>>)
    requires
        canon_name(next) == canon_name(start),
    ensures
        model_step(init_model(start), RespModel::Records(seq![RecModel::Nsec(next)])) == (
            WalkModel { start: start, current: start, phase: Phase::Closed },
            StepModel::End,
        ),
{
}

/// Failure propagation: after a first successful step emitting a name, a
/// failed second query surfaces that failure as the walk's single error —
/// the earlier success is not discarded — and every later step only ends
/// the sequence, leaving the state untouched.
pub proof fn lemma_failure_after_success(
    start: Seq<Seq<u8>>,
    middle: Seq<Seq<u8>>,
    msg: Seq<char>,
    later: RespModel,
)
    requires
        canon_name(middle) != canon_name(start),
    ensures
        ({
            let s1 = model_step(init_model(start), RespModel::Records(seq![RecModel::Nsec(middle)]));
            let s2 = model_step(s1.0, RespModel::Failed(msg));
            let s3 = model_step(s2.0, later);
            &&& s1.1 == StepModel::Item(middle)
            &&& s1.0 == WalkModel { start: start, current: middle, phase: Phase::Active }
            &&& s2.1 == StepModel::Error(ErrModel::Resolution(msg))
            &&& s2.0.phase == Phase::Failed
            &&& s3 == (s2.0, StepModel::End)
        }),
{
}

/// The no-record case: an answer with no records at all, or whose first
/// record is not an NSEC record, fails the walk with `NoNsecRecord` as its
/// single error; later steps only end the sequence and change nothing, and
/// the start and current names are left as they were.
pub proof fn lemma_no_nsec_record(m: WalkModel, rs: Seq<RecModel>, later: RespModel)
    requires
        m.phase == Phase::Active,
        rs.len() == 0 || !(rs[0] is Nsec),
    ensures
        ({
            let s1 = model_step(m, RespModel::Records(rs));
            let s2 = model_step(s1.0, later);
            &&& s1.0 == WalkModel { start: m.start, current: m.current, phase: Phase::Failed }
            &&& s1.1 == StepModel::Error(ErrModel::NoNsecRecord)
            &&& s2 == (s1.0, StepModel::End)
        }),
{
}

/// Walks a zone's NSEC chain from a start name, one query outcome at a
/// time. Single-pass and not restartable.
pub struct NsecWalker {
    start: DomainName,
    current: DomainName,
    phase: Phase,
}

impl View for NsecWalker {
    type V = WalkModel;

    closed spec fn view(&self) -> WalkModel {
        WalkModel { start: self.start@, current: self.current@, phase: self.phase }
    }
}

impl NsecWalker {
    /// Bind a walker to a start name given as dotted text.
    ///
    /// Fails exactly on text that does not read as a domain name; no query
    /// is involved. On success the cursor sits on the start name and the
    /// walk is active.
    pub fn new(start: &str) -> (r: Result<NsecWalker, NameSyntaxError>)
        ensures
            r is Ok <==> text_valid(start.spec_bytes()),
            r is Ok ==> r.unwrap()@ == init_model(parsed_labels(start.spec_bytes())),
    {
        match DomainName::parse(start) {
            Result::Err(e) => Err(e),
            Result::Ok(name) => {
                let current = name.clone();
                Ok(NsecWalker { start: name, current, phase: Phase::Active })
            },
        }
    }

    /// Bind a walker to an already validated start name.
    pub fn from_name(start: DomainName) -> (r: NsecWalker)
        ensures
            r@ == init_model(start@),
    {
        let current = start.clone();
        NsecWalker { start, current, phase: Phase::Active }
    }

    /// Which phase the walk is in.
    pub fn phase(&self) -> (r: Phase)
        ensures
            r == self@.phase,
    {
        self.phase
    }

    /// The name the caller should query for an NSEC record next, while the
    /// walk is active; nothing once it is closed or failed.
    pub fn query_target(&self) -> (r: Option<&DomainName>)
        ensures
            self@.phase == Phase::Active ==> r is Some && r.unwrap()@ == self@.current,
            self@.phase != Phase::Active ==> r is None,
    {
        match self.phase {
            Phase::Active => Some(&self.current),
            _ => None,
        }
    }

    /// Feed the outcome of the query for the current target and take one
    /// step: `Some(Ok(name))` emits the next owner name, `Some(Err(..))`
    /// reports the walk's single error, `None` means the sequence is over
    /// (closed chain, or a walk already ended).
    pub fn advance(&mut self, response: Result<Vec<Record>, ResolutionFailure>) -> (r: Option<
        Result<DomainName, WalkError>,
    >)
        ensures
            ({
                let (m, out) = model_step(old(self)@, response_model(response));
                final(self)@ == m && output_model(r) == out
            }),
    {
        match self.phase {
            Phase::Closed => None,
            Phase::Failed => None,
            Phase::Active => {
                match response {
                    Result::Err(failure) => {
                        self.phase = Phase::Failed;
                        Some(Err(WalkError::Resolution { message: failure.message }))
                    },
                    Result::Ok(mut records) => {
                        if records.len() == 0 {
                            self.phase = Phase::Failed;
                            return Some(Err(WalkError::NoNsecRecord));
                        }
                        let first = records.remove(0);
                        match first {
                            Record::Other => {
                                self.phase = Phase::Failed;
                                Some(Err(WalkError::NoNsecRecord))
                            },
                            Record::Nsec { next_owner } => {
                                if next_owner.canon_eq(&self.start) {
                                    self.phase = Phase::Closed;
                                    None
                                } else {
                                    self.current = next_owner.clone();
                                    Some(Ok(next_owner))
                                }
                            },
                        }
                    },
                }
            },
        }
    }
}

} // verus!
