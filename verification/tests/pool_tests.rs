use litert_lm::pool::{assemble_response, ProcessPool};
use litert_lm::supervisor::{Action, Phase, Supervisor};
use litert_lm::spawn::{run_args, Backend, SpawnPlan};
use litert_lm::supervisor::ErrorKind;

#[test]
fn selection_on_empty_pool_fails() {
    let mut pool = ProcessPool::new("/cache/lit".to_string(), "gemma".to_string(), 2);
    assert_eq!(pool.select_process(), Err(ErrorKind::PoolNotInitialized));
}

#[test]
fn round_robin_visits_every_slot_once() {
    // Pool selection: three consecutive selections over three processes
    // visit the indices 0, 1, 2 in order, then wrap around.
    let mut pool = ProcessPool::new("/cache/lit".to_string(), "gemma".to_string(), 3);
    for _ in 0..3 {
        pool.note_spawned();
    }
    assert_eq!(pool.select_process(), Ok(0));
    assert_eq!(pool.select_process(), Ok(1));
    assert_eq!(pool.select_process(), Ok(2));
    assert_eq!(pool.select_process(), Ok(0));
}

#[test]
fn initialization_counts_up_to_capacity() {
    let mut pool = ProcessPool::new("/c".to_string(), "m".to_string(), 2);
    assert!(!pool.is_initialized());
    pool.note_spawned();
    assert!(!pool.is_initialized());
    pool.note_spawned();
    assert!(pool.is_initialized());
}

#[test]
fn response_joins_fragments_with_line_breaks() {
    let frags = vec![b"4".to_vec(), b"and more".to_vec()];
    assert_eq!(assemble_response(&frags), b"4\nand more\n".to_vec());
    let empty: Vec<Vec<u8>> = Vec::new();
    assert_eq!(assemble_response(&empty), Vec::<u8>::new());
}

#[test]
fn gpu_is_tried_first_then_cpu_once() {
    // Backend fallback: GPU first; one failure retries with CPU exactly
    // once; a second failure gives the spawn up.
    let mut plan = SpawnPlan::new();
    assert_eq!(plan.next_backend(), Some(Backend::Gpu));
    plan.record_failure();
    assert_eq!(plan.next_backend(), Some(Backend::Cpu));
    plan.record_failure();
    assert_eq!(plan.next_backend(), None);
}

#[test]
fn child_argument_list_is_exact() {
    let args = run_args("gemma-3n-E4B", Backend::Gpu);
    let texts: Vec<&str> = args.iter().map(|s| s.as_str()).collect();
    assert_eq!(texts, vec!["run", "gemma-3n-E4B", "--backend", "gpu"]);
    let args = run_args("gemma-3n-E4B", Backend::Cpu);
    assert_eq!(args[3].as_str(), "cpu");
}

#[test]
fn one_dead_process_does_not_fail_the_pool() {
    // Death propagation, pool side: one supervised process dying leaves the
    // pool and its other processes serving as before.
    let mut pool = ProcessPool::new("/c".to_string(), "m".to_string(), 2);
    pool.note_spawned();
    pool.note_spawned();
    let mut dead = Supervisor::new();
    dead.on_stdout(b">>>");
    dead.submit(1, b"a".to_vec());
    dead.on_stdout_eof();
    assert!(matches!(dead.phase, Phase::Terminated));
    // Selection is untouched by process state and still visits both slots.
    assert_eq!(pool.select_process(), Ok(0));
    assert_eq!(pool.select_process(), Ok(1));
    // The surviving process serves a whole round trip.
    let mut alive = Supervisor::new();
    alive.on_stdout(b">>>");
    let w = alive.submit(2, b"2+2".to_vec());
    assert!(matches!(w[0], Action::Write { id: 2, .. }));
    let acts = alive.on_stdout(b"4\n>>>");
    assert!(matches!(acts.last(), Some(Action::Complete { id: 2 })));
    assert!(matches!(alive.phase, Phase::Idle));
}
