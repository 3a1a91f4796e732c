use blockchain_node::block::Block;
use blockchain_node::miner::{duration_parts, MinerEvent, MinerState, MiningJob, ToMiner};

fn genesis() -> Block {
    Block::new([0; 32], [0; 32], 0, 1622999578)
}

#[test]
fn start_begins_a_fresh_job() {
    let g = genesis();
    match MinerState::Idle.on_message(Some(ToMiner::Start(g)), 77) {
        Some(MinerState::Mining(job)) => {
            assert_eq!(job.parent_hash, *g.hash());
            assert_eq!(job.nonce, 0);
            assert_eq!(job.time, 77);
        }
        other => panic!("unexpected {:?}", other),
    }
}

#[test]
fn reset_is_ignored_when_idle() {
    assert!(matches!(
        MinerState::Idle.on_message(Some(ToMiner::Reset(genesis())), 1),
        Some(MinerState::Idle)
    ));
    assert!(matches!(
        MinerState::Found.on_message(Some(ToMiner::Reset(genesis())), 1),
        Some(MinerState::Mining(_))
    ));
}

#[test]
fn stop_and_closed_channel() {
    let job = MiningJob { parent_hash: [0; 32], nonce: 5, time: 1 };
    assert!(matches!(MinerState::Mining(job).on_message(Some(ToMiner::Stop), 1), Some(MinerState::Idle)));
    assert!(MinerState::Mining(job).on_message(None, 1).is_none());
    assert!(MinerState::Idle.on_message(None, 1).is_none());
}

#[test]
fn attempt_finds_the_block_at_nonce_nine() {
    let g = genesis();
    let mut job = MiningJob { parent_hash: *g.hash(), nonce: 0, time: 1623000000 };
    let mut found = None;
    for _ in 0..9 {
        let (next, block) = job.attempt([7; 32], 0);
        job = next;
        if block.is_some() {
            found = block;
            break;
        }
    }
    let b = found.unwrap();
    assert_eq!(b.nonce(), 9);
    assert_eq!(job.nonce, 9);
    assert_eq!(b.difficulty(), 1);
}

#[test]
fn attempt_bumps_the_time_when_nonces_run_out() {
    let job = MiningJob { parent_hash: [0; 32], nonce: u64::MAX, time: 3 };
    let (next, _) = job.attempt([1; 32], 10);
    assert_eq!(next.nonce, u64::MAX);
    assert_eq!(next.time, 10);
    let job = MiningJob { parent_hash: [0; 32], nonce: 4, time: 3 };
    let (next, _) = job.attempt([1; 32], 10);
    assert_eq!((next.nonce, next.time), (5, 3));
}

#[test]
fn duration_split() {
    assert_eq!(duration_parts(0), (0, 0, 0));
    assert_eq!(duration_parts(59), (0, 0, 59));
    assert_eq!(duration_parts(3725), (1, 2, 5));
    assert_eq!(duration_parts(90061), (25, 1, 1));
}

#[test]
fn miner_reports_once_then_waits_for_the_next_block() {
    let g = genesis();
    let address = [7; 32];
    let mut state = MinerState::Idle;
    let mut reports = Vec::new();
    // A Reset while idle is ignored: attempts do nothing.
    for event in [MinerEvent::Message(Some(ToMiner::Reset(g)), 5), MinerEvent::Attempt(5)] {
        let (next, found) = state.step(address, event).unwrap();
        assert!(matches!(next, MinerState::Idle));
        assert!(found.is_none());
        state = next;
    }
    let (next, _) = state.step(address, MinerEvent::Message(Some(ToMiner::Start(g)), 1623000000)).unwrap();
    state = next;
    for _ in 0..20 {
        let (next, found) = state.step(address, MinerEvent::Attempt(0)).unwrap();
        state = next;
        if let Some(b) = found {
            reports.push(b);
        }
    }
    // One block, mined on the started parent with the miner's address, then silence.
    assert_eq!(reports.len(), 1);
    assert_eq!(reports[0].parent_hash(), *g.hash());
    assert_eq!(reports[0].miner_address(), address);
    assert_eq!(reports[0].nonce(), 9);
    assert!(reports[0].difficulty() >= 1);
    assert!(matches!(state, MinerState::Found));
    // A Reset onto the new block restarts the search there.
    let (next, _) = state.step(address, MinerEvent::Message(Some(ToMiner::Reset(reports[0])), 8)).unwrap();
    assert!(matches!(next, MinerState::Mining(job) if job.parent_hash == *reports[0].hash() && job.nonce == 0 && job.time == 8));
    // Stop idles it; a closed channel ends it.
    let (next, _) = next.step(address, MinerEvent::Message(Some(ToMiner::Stop), 9)).unwrap();
    assert!(matches!(next, MinerState::Idle));
    assert!(next.step(address, MinerEvent::Message(None, 9)).is_none());
}

#[test]
fn undelivered_report_leaves_the_miner_idle() {
    let g = genesis();
    let (idle, found) = MinerState::Found.step([7; 32], MinerEvent::Undelivered).unwrap();
    assert!(matches!(idle, MinerState::Idle));
    assert!(found.is_none());
    // Idle again: a Reset is ignored, a Start starts.
    let (still, _) = idle.step([7; 32], MinerEvent::Message(Some(ToMiner::Reset(g)), 3)).unwrap();
    assert!(matches!(still, MinerState::Idle));
    let (mining, _) = still.step([7; 32], MinerEvent::Message(Some(ToMiner::Start(g)), 3)).unwrap();
    assert!(matches!(mining, MinerState::Mining(_)));
}
