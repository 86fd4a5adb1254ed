use pickleback::address::LOCALHOST;
use pickleback::prelude::PeerAddr;
use pickleback::testing::{JitterPipeConfig, ProtocolTestHarness};
use pickleback::time::SECOND;

#[test]
fn protocol() {
    let mut harness = ProtocolTestHarness::new(JitterPipeConfig::disabled());
    harness.client.connect(PeerAddr::V4 { v4: LOCALHOST, port: 6000 });
    harness.advance(SECOND / 10).unwrap();
    harness.advance(SECOND / 10).unwrap();
    harness.advance(SECOND / 10).unwrap();
    harness.advance(SECOND / 10).unwrap();
    harness.advance(SECOND / 10).unwrap();
    harness.advance(SECOND / 10).unwrap();
    harness.advance(SECOND / 10).unwrap();
    println!("ADVANCING SERVERV ONLY FOR TIMEOUT TEST");
    for _ in 0..4 {
        let dt = 2 * SECOND;
        harness.client.update(-dt);
        harness.advance(dt).unwrap();
    }
    println!("ADVANCING CLIENT ONLY FOR TIMEOUT TEST");
    for _ in 0..4 {
        let dt = 2 * SECOND;
        harness.server.update(-dt);
        harness.advance(dt).unwrap();
    }
}
