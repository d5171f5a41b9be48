//! Learning of new blocks.

use pivx_bridge::api::HashCache;
use pivx_bridge::json::Json;
use pivx_bridge::notify::{
    poll_new_blocks, should_poll, zmq_step, PollAction, PollEvent, ZmqAction, ZmqEvent,
};

fn block(next: Option<&str>) -> Json {
    let mut fields = vec![("hash".to_string(), Json::Text("h5".to_string()))];
    if let Some(next) = next {
        fields.push(("nextblockhash".to_string(), Json::Text(next.to_string())));
    }
    Json::Object(fields)
}

#[test]
fn zmq_subscribes_receives_and_retries() {
    for (event, active, action) in [
        (ZmqEvent::Start, None, ZmqAction::Subscribe),
        (ZmqEvent::Subscribed, Some(true), ZmqAction::Receive),
        (ZmqEvent::Refused, Some(false), ZmqAction::Wait(30)),
        (ZmqEvent::HashBlock, None, ZmqAction::Index),
        (ZmqEvent::OtherMessage, None, ZmqAction::Receive),
        (ZmqEvent::Indexed, None, ZmqAction::Receive),
        (ZmqEvent::Broken, Some(false), ZmqAction::Wait(5)),
        (ZmqEvent::Ended, None, ZmqAction::Wait(5)),
        (ZmqEvent::Waited, None, ZmqAction::Subscribe),
    ] {
        let step = zmq_step(event);
        assert_eq!(step.active, active);
        assert!(step.action == action);
    }
}

#[test]
fn polling_rests_while_zmq_works() {
    assert!(should_poll(false));
    assert!(!should_poll(true));
}

#[test]
fn a_poll_that_finds_a_block_caches_its_hash() {
    let mut hashes = HashCache::new(10);
    let mut poll = poll_new_blocks(5);
    assert!(matches!(poll.step(&mut hashes, PollEvent::Nothing), PollAction::AskHash(5)));
    let hash = PollEvent::Hash(Some("h5".to_string()));
    match poll.step(&mut hashes, hash) {
        PollAction::AskBlock(hash) => assert_eq!(hash, "h5"),
        _ => panic!("the block is asked for"),
    }
    let found = PollEvent::Block(Some(block(Some("h6"))));
    assert!(matches!(poll.step(&mut hashes, found), PollAction::AskCount));
    assert!(matches!(poll.step(&mut hashes, PollEvent::Count(Some(6))), PollAction::Index));
    assert_eq!(hashes.get(5), Some("h5"));
    assert_eq!(hashes.get(6), Some("h6"));
}

#[test]
fn a_poll_ends_where_there_is_nothing_new() {
    let mut hashes = HashCache::new(10);
    // The node is down
    let mut poll = poll_new_blocks(5);
    poll.step(&mut hashes, PollEvent::Nothing);
    assert!(matches!(poll.step(&mut hashes, PollEvent::Hash(None)), PollAction::Done));
    // There is no successor
    let mut poll = poll_new_blocks(5);
    poll.step(&mut hashes, PollEvent::Nothing);
    poll.step(&mut hashes, PollEvent::Hash(Some("h5".to_string())));
    assert!(matches!(poll.step(&mut hashes, PollEvent::Block(Some(block(None)))), PollAction::Done));
    // The chain is no higher
    let mut poll = poll_new_blocks(5);
    poll.step(&mut hashes, PollEvent::Nothing);
    poll.step(&mut hashes, PollEvent::Hash(Some("h5".to_string())));
    poll.step(&mut hashes, PollEvent::Block(Some(block(Some("h6")))));
    assert!(matches!(poll.step(&mut hashes, PollEvent::Count(Some(5))), PollAction::Done));
    assert_eq!(hashes.get(5), None);
}
