use pickleback::jitter_pipe::{JitterPipe, JitterPipeConfig};

#[test]
fn jitter_pipe_disabled() {
    let mut jp = JitterPipe::<u32>::new(JitterPipeConfig::disabled());
    for i in 0..1000 {
        jp.insert(i);
    }
    for i in 0..1000 {
        assert_eq!(i, jp.take_next().unwrap());
    }
    assert!(jp.take_next().is_none());
}
