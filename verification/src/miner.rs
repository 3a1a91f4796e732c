//! The miner's decisions: which block it works on, how it moves through
//! nonces, and when a hash is good enough to report.

use vstd::prelude::*;

use crate::block::{Block, BlockView, hash, difficulty, hash_of, difficulty_of, trailing_zero_bytes};

verus! {

/// What the node tells the miner.
#[derive(Debug, Clone, Copy)]
pub enum ToMiner {
    /// Start mining on top of this block.
    Start(Block),
    /// Drop the current work and mine on top of this block.
    Reset(Block),
    /// Stop mining.
    Stop,
}

/// The block the miner is searching for: the parent's hash, and the nonce
/// and time tried last.
#[derive(Debug, Clone, Copy)]
pub struct MiningJob {
    pub parent_hash: [u8; 32],
    pub nonce: u64,
    pub time: u64,
}

/// Where the miner is.
#[derive(Debug, Clone, Copy)]
pub enum MinerState {
    /// Not mining; only a `Start` starts it.
    Idle,
    /// Searching for a block.
    Mining(MiningJob),
    /// Reported a block; waits for the block to mine on next.
    Found,
}

/// The difficulty that a mined block must reach.
pub open spec fn mining_target() -> nat {
    1
}

/// A miner state by its contents: the job's parent hash, nonce and time.
pub enum MinerStateView {
    Idle,
    Mining { parent: Seq<u8>, nonce: u64, time: u64 },
    Found,
}

impl View for MinerState {
    type V = MinerStateView;

    open spec fn view(&self) -> MinerStateView {
        match self {
            MinerState::Idle => MinerStateView::Idle,
            MinerState::Mining(job) => MinerStateView::Mining {
                parent: job.parent_hash@,
                nonce: job.nonce,
                time: job.time,
            },
            MinerState::Found => MinerStateView::Found,
        }
    }
}

/// What the miner goes through: a message from the node (`None` when the
/// channel was closed) or, while mining, one more attempt, each with the
/// clock's reading in seconds; or the news that the block it reported could
/// not be handed to the node.
#[derive(Debug, Clone, Copy)]
pub enum MinerEvent {
    Message(Option<ToMiner>, u64),
    Attempt(u64),
    Undelivered,
}

/// The miner's next state and the block it reports, after one event; `None`
/// when the miner ends.
pub open spec fn miner_next(s: MinerStateView, miner_address: Seq<u8>, e: MinerEvent) -> Option<
    (MinerStateView, Option<BlockView>),
> {
    match e {
        MinerEvent::Message(None, _) => None,
        MinerEvent::Message(Some(ToMiner::Stop), _) => Some((MinerStateView::Idle, None)),
        MinerEvent::Message(Some(ToMiner::Start(p)), now) => Some(
            (MinerStateView::Mining { parent: hash_of(p@), nonce: 0, time: now }, None),
        ),
        MinerEvent::Message(Some(ToMiner::Reset(p)), now) => if s is Idle {
            Some((MinerStateView::Idle, None))
        } else {
            Some((MinerStateView::Mining { parent: hash_of(p@), nonce: 0, time: now }, None))
        },
        MinerEvent::Undelivered => Some((MinerStateView::Idle, None)),
        MinerEvent::Attempt(now) => match s {
            MinerStateView::Mining { parent, nonce, time } => {
                let next_nonce = if nonce < u64::MAX { (nonce + 1) as u64 } else { nonce };
                let next_time = if nonce < u64::MAX { time } else { now };
                let v = BlockView { parent_hash: parent, miner_address, nonce: next_nonce, time: next_time };
                if difficulty_of(v) >= mining_target() {
                    Some((MinerStateView::Found, Some(v)))
                } else {
                    Some((MinerStateView::Mining { parent, nonce: next_nonce, time: next_time }, None))
                }
            },
            _ => Some((s, None)),
        },
    }
}

/// The miner's state after the events of `es`, from idle; `None` once it
/// has ended.
pub open spec fn miner_state_after(miner_address: Seq<u8>, es: Seq<MinerEvent>) -> Option<MinerStateView>
    decreases es.len(),
{
    if es.len() == 0 {
        Some(MinerStateView::Idle)
    } else {
        match miner_state_after(miner_address, es.drop_last()) {
            None => None,
            Some(s) => match miner_next(s, miner_address, es.last()) {
                None => None,
                Some(r) => Some(r.0),
            },
        }
    }
}

/// The block the miner reports at event `i` of `es`, if any.
pub open spec fn reported_at(miner_address: Seq<u8>, es: Seq<MinerEvent>, i: int) -> Option<BlockView> {
    match miner_state_after(miner_address, es.take(i)) {
        None => None,
        Some(s) => match miner_next(s, miner_address, es[i]) {
            None => None,
            Some(r) => r.1,
        },
    }
}

/// Whether `e` hands the miner a block to mine on.
pub open spec fn restarts(e: MinerEvent) -> bool {
    e matches MinerEvent::Message(Some(m), _) && (m is Start || m is Reset)
}

/// The hash of the block of the last `Start` or `Reset` among `es`.
pub open spec fn last_parent(es: Seq<MinerEvent>) -> Option<Seq<u8>>
    decreases es.len(),
{
    if es.len() == 0 {
        None
    } else {
        match es.last() {
            MinerEvent::Message(Some(ToMiner::Start(p)), _) => Some(hash_of(p@)),
            MinerEvent::Message(Some(ToMiner::Reset(p)), _) => Some(hash_of(p@)),
            _ => last_parent(es.drop_last()),
        }
    }
}

impl MinerState {
    /// The state after the miner receives `message` (`None` when the channel
    /// was closed): `Start` always starts a fresh job (nonce 0, time `now`);
    /// `Reset` does so unless the miner is idle, where it is ignored; `Stop`
    /// makes it idle. `None` is returned when the miner ends, that is when
    /// the channel is closed.
    pub fn on_message(self, message: Option<ToMiner>, now: u64) -> (res: Option<MinerState>)
        ensures
            message is None ==> res is None,
            message matches Some(ToMiner::Stop) ==> res matches Some(MinerState::Idle),
            message matches Some(ToMiner::Start(parent)) ==> (res matches Some(MinerState::Mining(job))
                && job.parent_hash@ == hash_of(parent@) && job.nonce == 0 && job.time == now),
            message matches Some(ToMiner::Reset(parent)) ==> (self is Idle ==> res matches Some(MinerState::Idle)),
            message matches Some(ToMiner::Reset(parent)) ==> (!(self is Idle) ==> (res matches Some(
                MinerState::Mining(job),
            ) && job.parent_hash@ == hash_of(parent@) && job.nonce == 0 && job.time == now)),
    {
        match message {
            None => None,
            Some(ToMiner::Stop) => Some(MinerState::Idle),
            Some(ToMiner::Start(parent)) => Some(MinerState::Mining(MiningJob { parent_hash: *parent.hash(), nonce: 0, time: now })),
            Some(ToMiner::Reset(parent)) => match self {
                MinerState::Idle => Some(MinerState::Idle),
                _ => Some(MinerState::Mining(MiningJob { parent_hash: *parent.hash(), nonce: 0, time: now })),
            },
        }
    }

    /// One event of the miner's life: a message is taken as `on_message`
    /// takes it; an attempt while mining tries the next nonce, and when the
    /// block it gives reaches the target the miner reports it and waits for
    /// the next block to mine on; an attempt while not mining changes
    /// nothing; a report that could not be handed over makes the miner idle.
    /// `None` when the miner ends.
    pub fn step(self, miner_address: [u8; 32], event: MinerEvent) -> (res: Option<(MinerState, Option<Block>)>)
        ensures
            match miner_next(self@, miner_address@, event) {
                None => res is None,
                Some(r) => res matches Some(got) && got.0@ == r.0 && match r.1 {
                    None => got.1 is None,
                    Some(v) => got.1 matches Some(b) && b@ == v,
                },
            },
    {
        match event {
            MinerEvent::Message(message, now) => match self.on_message(message, now) {
                Some(next) => Some((next, None)),
                None => None,
            },
            MinerEvent::Undelivered => Some((MinerState::Idle, None)),
            MinerEvent::Attempt(now) => match self {
                MinerState::Mining(job) => {
                    let (next, found) = job.attempt(miner_address, now);
                    match found {
                        Some(block) => Some((MinerState::Found, Some(block))),
                        None => Some((MinerState::Mining(next), None)),
                    }
                },
                _ => Some((self, None)),
            },
        }
    }
}

impl MiningJob {
    /// One step of the search: the next nonce, or, when the nonces have run
    /// out, the same nonce with the time set to `now`; then the block with
    /// these fields, when its difficulty reaches the target.
    pub fn attempt(&self, miner_address: [u8; 32], now: u64) -> (res: (MiningJob, Option<Block>))
        ensures
            res.0.parent_hash == self.parent_hash,
            self.nonce < u64::MAX ==> res.0.nonce == self.nonce + 1 && res.0.time == self.time,
            self.nonce == u64::MAX ==> res.0.nonce == self.nonce && res.0.time == now,
            ({
                let v = BlockView {
                    parent_hash: self.parent_hash@,
                    miner_address: miner_address@,
                    nonce: res.0.nonce,
                    time: res.0.time,
                };
                &&& trailing_zero_bytes(hash_of(v)) >= mining_target() ==> (res.1 matches Some(b) && b@ == v)
                &&& trailing_zero_bytes(hash_of(v)) < mining_target() ==> res.1 is None
            }),
    {
        let mut nonce = self.nonce;
        let mut time = self.time;
        match nonce.checked_add(1) {
            Some(next) => {
                nonce = next;
            },
            None => {
                time = now;
            },
        }
        let difficulty_target: u8 = 1;
        let h = hash(self.parent_hash, miner_address, nonce, time);
        let job = MiningJob { parent_hash: self.parent_hash, nonce, time };
        if difficulty(&h) >= difficulty_target {
            (job, Some(Block::new(self.parent_hash, miner_address, nonce, time)))
        } else {
            (job, None)
        }
    }
}

/// Splits a number of seconds into hours, minutes and seconds.
pub fn duration_parts(total_seconds: u64) -> (res: (u64, u64, u64))
    ensures
        res.0 == total_seconds / 3600,
        res.1 == (total_seconds / 60) % 60,
        res.2 == total_seconds % 60,
        res.0 * 3600 + res.1 * 60 + res.2 == total_seconds,
{
    let seconds = total_seconds % 60;
    let minutes = (total_seconds / 60) % 60;
    let hours = (total_seconds / 60) / 60;
    assert((total_seconds / 60) / 60 == total_seconds / 3600) by (nonlinear_arith);
    assert(hours * 3600 + minutes * 60 + seconds == total_seconds) by (nonlinear_arith)
        requires
            seconds == total_seconds % 60,
            minutes == (total_seconds / 60) % 60,
            hours == total_seconds / 3600,
    ;
    (hours, minutes, seconds)
}


proof fn lemma_state_step(miner_address: Seq<u8>, es: Seq<MinerEvent>, m: int)
    requires
        0 <= m < es.len(),
    ensures
        miner_state_after(miner_address, es.take(m + 1)) == match miner_state_after(miner_address, es.take(m)) {
            None => None,
            Some(s) => match miner_next(s, miner_address, es[m]) {
                None => None,
                Some(r) => Some(r.0),
            },
        },
{
    assert(es.take(m + 1).drop_last() =~= es.take(m));
    assert(es.take(m + 1).last() == es[m]);
}

proof fn lemma_mining_on_last_parent(miner_address: Seq<u8>, es: Seq<MinerEvent>)
    ensures
        miner_state_after(miner_address, es) matches Some(MinerStateView::Mining { parent, .. }) ==> last_parent(es)
            == Some(parent),
    decreases es.len(),
{
    if es.len() > 0 {
        lemma_mining_on_last_parent(miner_address, es.drop_last());
    }
}

/// Every block the miner reports carries the miner's address, reaches the
/// mining target, and has as parent the block of the last `Start` or `Reset`
/// it received before.
pub proof fn lemma_reports_follow_last_start(miner_address: Seq<u8>, es: Seq<MinerEvent>, i: int)
    requires
        0 <= i < es.len(),
    ensures
        reported_at(miner_address, es, i) matches Some(b) ==> {
            &&& b.miner_address == miner_address
            &&& difficulty_of(b) >= mining_target()
            &&& last_parent(es.take(i)) == Some(b.parent_hash)
        },
{
    lemma_mining_on_last_parent(miner_address, es.take(i));
}

proof fn lemma_not_mining_until_restart(miner_address: Seq<u8>, es: Seq<MinerEvent>, i: int, m: int)
    requires
        0 <= i < m <= es.len(),
        miner_state_after(miner_address, es.take(i + 1)) matches Some(s) ==> !(s is Mining),
        forall|k: int| i < k < m ==> !restarts(#[trigger] es[k]),
    ensures
        miner_state_after(miner_address, es.take(m)) matches Some(s) ==> !(s is Mining),
    decreases m,
{
    if m > i + 1 {
        lemma_not_mining_until_restart(miner_address, es, i, m - 1);
        lemma_state_step(miner_address, es, m - 1);
        assert(!restarts(es[m - 1]));
    }
}

/// After the miner reports a block it reports no other until it is handed a
/// block to mine on by a `Start` or a `Reset`.
pub proof fn lemma_silent_after_report(miner_address: Seq<u8>, es: Seq<MinerEvent>, i: int, j: int)
    requires
        0 <= i < j < es.len(),
        reported_at(miner_address, es, i) is Some,
        forall|k: int| i < k < j ==> !restarts(#[trigger] es[k]),
    ensures
        reported_at(miner_address, es, j) is None,
{
    lemma_state_step(miner_address, es, i);
    lemma_not_mining_until_restart(miner_address, es, i, j);
}

proof fn lemma_idle_until_start(miner_address: Seq<u8>, es: Seq<MinerEvent>, i: int, m: int)
    requires
        0 <= i < m <= es.len(),
        miner_state_after(miner_address, es.take(i + 1)) matches Some(s) ==> s is Idle,
        forall|k: int| i < k < m ==> !(#[trigger] es[k] matches MinerEvent::Message(Some(ToMiner::Start(_)), _)),
    ensures
        miner_state_after(miner_address, es.take(m)) matches Some(s) ==> s is Idle,
    decreases m,
{
    if m > i + 1 {
        lemma_idle_until_start(miner_address, es, i, m - 1);
        lemma_state_step(miner_address, es, m - 1);
        assert(!(es[m - 1] matches MinerEvent::Message(Some(ToMiner::Start(_)), _)));
    }
}

/// After a `Stop` the miner reports nothing until a `Start`.
pub proof fn lemma_silent_after_stop(miner_address: Seq<u8>, es: Seq<MinerEvent>, i: int, j: int)
    requires
        0 <= i < j < es.len(),
        es[i] matches MinerEvent::Message(Some(ToMiner::Stop), _),
        forall|k: int| i < k < j ==> !(#[trigger] es[k] matches MinerEvent::Message(Some(ToMiner::Start(_)), _)),
    ensures
        reported_at(miner_address, es, j) is None,
{
    lemma_state_step(miner_address, es, i);
    lemma_idle_until_start(miner_address, es, i, j);
}

/// A `Stop` or a `Reset` that reaches an idle miner changes nothing.
pub proof fn lemma_idle_ignores(miner_address: Seq<u8>, message: ToMiner, now: u64)
    requires
        !(message is Start),
    ensures
        miner_next(MinerStateView::Idle, miner_address, MinerEvent::Message(Some(message), now)) == Some(
            (MinerStateView::Idle, None::<BlockView>),
        ),
{
}

proof fn lemma_ended_stays(miner_address: Seq<u8>, es: Seq<MinerEvent>, i: int, m: int)
    requires
        0 <= i < m <= es.len(),
        miner_state_after(miner_address, es.take(i + 1)) is None,
    ensures
        miner_state_after(miner_address, es.take(m)) is None,
    decreases m,
{
    if m > i + 1 {
        lemma_ended_stays(miner_address, es, i, m - 1);
        lemma_state_step(miner_address, es, m - 1);
    }
}

/// Once the channel is closed the miner has ended: it reports nothing more
/// whatever follows.
pub proof fn lemma_closed_channel_ends(miner_address: Seq<u8>, es: Seq<MinerEvent>, i: int, j: int)
    requires
        0 <= i < j <= es.len(),
        es[i] matches MinerEvent::Message(None, _),
    ensures
        miner_state_after(miner_address, es.take(j)) is None,
        j < es.len() ==> reported_at(miner_address, es, j) is None,
{
    lemma_state_step(miner_address, es, i);
    lemma_ended_stays(miner_address, es, i, j);
}

} // verus!
