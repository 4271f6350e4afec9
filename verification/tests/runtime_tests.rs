use ved::bytecode::{Constant, DomainBytecode, GoalBytecode, InvariantBytecode, OpCode, TransitionBytecode};
use ved::compiler::compile_source;
use ved::domain_registry::{DomainInstance, DomainRegistry};
use ved::goal_engine::GoalEngine;
use ved::interpreter::{Interpreter, SliceResult};
use ved::logical_clock::LogicalClock;
use ved::messaging::{Mailbox, Message};
use ved::persistence::{DomainSnapshot, SnapshotData, SnapshotManager};
use ved::rng::DeterministicRng;
use ved::scheduler::{CycleAction, ExecutionResult, Scheduler};
use ved::state::IsolatedState;
use ved::tracer::{TraceEvent, Tracer};

fn msg(target: &str, payload: &str, priority: u8, clock: u64) -> Message {
    Message {
        id: String::new(),
        source_domain: String::new(),
        target_domain: target.to_string(),
        payload: payload.to_string(),
        priority,
        clock,
    }
}

fn transition(name: &str, constants: Vec<Constant>, instructions: Vec<OpCode>) -> TransitionBytecode {
    TransitionBytecode {
        name: name.to_string(),
        scope: None,
        required_capabilities: vec![],
        constants,
        instructions,
    }
}

fn domain(name: &str, schema: Vec<&str>, transitions: Vec<TransitionBytecode>, goals: Vec<GoalBytecode>) -> DomainBytecode {
    DomainBytecode {
        name: name.to_string(),
        scope: None,
        capability_manifest: vec![],
        state_schema: schema.into_iter().map(|s| s.to_string()).collect(),
        transitions,
        goals,
        invariants: vec![],
    }
}

fn run_ved_program(source: &str, boot_messages: Vec<(&str, &str, u8)>, max_cycles: usize) -> ExecutionResult {
    let program = compile_source(source).unwrap();
    let mut registry = DomainRegistry::new();
    for d in program.domains {
        let instance = DomainInstance::new(d.name.clone(), d.state_schema.clone(), d.clone());
        registry.register(instance);
    }
    for (target, payload, priority) in boot_messages {
        let _ = registry.route_message(msg(target, payload, priority, 0));
    }
    let mut scheduler = Scheduler::new(registry);
    scheduler.execute_until_quiescent(max_cycles, 1000)
}

fn setup_registry() -> DomainRegistry {
    let mut registry = DomainRegistry::new();
    let prod_trans = transition(
        "send_ping",
        vec![
            Constant::Int(1),
            Constant::String("Consumer".to_string()),
            Constant::String("receive_ping".to_string()),
        ],
        vec![
            OpCode::LoadConst { const_idx: 0, dest_reg: 0 },
            OpCode::StoreState { src_reg: 0, field_idx: 0 },
            OpCode::SendMsg { target_const_idx: 1, msg_const_idx: 2 },
            OpCode::HaltSlice,
        ],
    );
    let prod_bc = domain("Producer", vec!["sent"], vec![prod_trans], vec![]);
    registry.register(DomainInstance::new("Producer".to_string(), prod_bc.state_schema.clone(), prod_bc));

    let cons_trans = transition(
        "receive_ping",
        vec![Constant::Int(1)],
        vec![
            OpCode::LoadState { field_idx: 0, dest_reg: 0 },
            OpCode::LoadConst { const_idx: 0, dest_reg: 1 },
            OpCode::AddInt { r1: 0, r2: 1, dest: 0 },
            OpCode::StoreState { src_reg: 0, field_idx: 0 },
            OpCode::HaltSlice,
        ],
    );
    let cons_bc = domain("Consumer", vec!["pings"], vec![cons_trans], vec![]);
    registry.register(DomainInstance::new("Consumer".to_string(), cons_bc.state_schema.clone(), cons_bc));
    registry
}

#[test]
fn resumed_slice_ends_as_one_longer_slice() {
    let fields = vec!["counter".to_string()];
    let trans = transition(
        "bump",
        vec![Constant::Int(1)],
        vec![
            OpCode::LoadState { field_idx: 0, dest_reg: 0 },
            OpCode::LoadConst { const_idx: 0, dest_reg: 1 },
            OpCode::AddInt { r1: 0, r2: 1, dest: 2 },
            OpCode::AddInt { r1: 2, r2: 1, dest: 2 },
            OpCode::StoreState { src_reg: 2, field_idx: 0 },
            OpCode::HaltSlice,
        ],
    );

    let mut whole = Interpreter::new(&fields);
    whole.state.set("counter", 10).unwrap();
    let r = whole.run_slice(&trans, &fields, 6, 0, vec![]);
    assert!(matches!(r, SliceResult::Completed(_)));

    let mut first = Interpreter::new(&fields);
    first.state.set("counter", 10).unwrap();
    let (pc, outbox) = match first.run_slice(&trans, &fields, 3, 0, vec![]) {
        SliceResult::Suspended { pc, outbox } => (pc, outbox),
        _ => panic!("a budget of 3 must suspend this slice"),
    };
    assert_eq!(pc, 3);
    assert_eq!(first.state.get("counter"), Some(10));
    let r2 = first.run_slice(&trans, &fields, 3, pc, outbox);
    assert!(matches!(r2, SliceResult::Completed(_)));
    assert_eq!(first.state.get("counter"), whole.state.get("counter"));
    assert_eq!(first.state.get("counter"), Some(12));
    assert_eq!(first.registers, whole.registers);
}

#[test]
fn test_execute_transition() {
    let fields = vec!["counter".to_string()];
    let mut interp = Interpreter::new(&fields);
    interp.state.set("counter", 10).unwrap();

    let trans = transition(
        "test",
        vec![Constant::Int(1)],
        vec![
            OpCode::LoadState { field_idx: 0, dest_reg: 0 },
            OpCode::LoadConst { const_idx: 0, dest_reg: 1 },
            OpCode::AddInt { r1: 0, r2: 1, dest: 2 },
            OpCode::StoreState { src_reg: 2, field_idx: 0 },
            OpCode::HaltSlice,
        ],
    );

    let res = interp.run_slice(&trans, &fields, 1000, 0, vec![]);
    assert!(matches!(res, SliceResult::Completed(_)));
    assert_eq!(interp.state.get("counter"), Some(11));
}

#[test]
fn test_priority_starvation_control() {
    let mut mb = Mailbox::new(10);

    mb.push(msg("A", "N", 0, 0)).unwrap();
    for i in 0..4 {
        mb.push(msg("A", "H", 1, i as u64)).unwrap();
    }

    assert_eq!(mb.pop().unwrap().payload, "H");
    assert_eq!(mb.pop().unwrap().payload, "H");
    assert_eq!(mb.pop().unwrap().payload, "H");

    assert_eq!(mb.pop().unwrap().payload, "N");
    assert_eq!(mb.pop().unwrap().payload, "H");
    assert!(mb.pop().is_none());
}

#[test]
fn test_1c_instruction_budgeting() {
    let schema: Vec<String> = vec![];
    let state = IsolatedState::new(&schema);
    let mut interpreter = Interpreter::with_state(state.snapshot());

    let trans = transition(
        "infinite_loop",
        vec![Constant::Int(42)],
        vec![
            OpCode::LoadConst { const_idx: 0, dest_reg: 0 },
            OpCode::Jump { target_offset: 0 },
        ],
    );

    let field_names: Vec<String> = vec![];
    let gas_limit = 50;

    let result = interpreter.run_slice(&trans, &field_names, gas_limit, 0, vec![]);

    match result {
        SliceResult::Suspended { .. } => {}
        SliceResult::Fault(msg) => panic!("Expected structural suspension yielding, not hard fault! {}", msg),
        SliceResult::Completed(_) => panic!("Expected slice to exhaust instruction budget and suspend!"),
    }
}

#[test]
fn test_3b_starvation_edge_cases() {
    let mut mailbox = Mailbox::new(100);

    for i in 0..5 {
        mailbox
            .push(Message {
                id: "".into(),
                source_domain: "SYSTEM".into(),
                target_domain: "Target".to_string(),
                payload: format!("high_{}", i),
                priority: 1,
                clock: 0,
            })
            .unwrap();
    }
    for i in 0..5 {
        mailbox
            .push(Message {
                id: "".into(),
                source_domain: "SYSTEM".into(),
                target_domain: "Target".to_string(),
                payload: format!("normal_{}", i),
                priority: 0,
                clock: 0,
            })
            .unwrap();
    }

    assert_eq!(mailbox.pop().unwrap().payload, "high_0");
    assert_eq!(mailbox.pop().unwrap().payload, "high_1");
    assert_eq!(mailbox.pop().unwrap().payload, "high_2");

    let forced_normal = mailbox.pop().unwrap();
    assert_eq!(forced_normal.payload, "normal_0", "Starvation logic failed: expected normal message round-robin.");

    assert_eq!(mailbox.pop().unwrap().payload, "high_3");
    assert_eq!(mailbox.pop().unwrap().payload, "high_4");

    assert_eq!(mailbox.pop().unwrap().payload, "normal_1");
}

#[test]
fn test_strict_determinism() {
    let mut first_trace = Vec::new();
    for i in 0..50 {
        let mut registry = setup_registry();
        let _ = registry.route_message(msg("Producer", "send_ping", 0, 0));
        let mut scheduler = Scheduler::new(registry);
        let trace = scheduler.execute_until_quiescent(1000, 1000).trace;
        if i == 0 {
            first_trace = trace;
        } else {
            assert_eq!(first_trace, trace, "Nondeterminism detected on {}!", i);
        }
    }
}

#[test]
fn test_backpressure_mailbox_overflow() {
    let mut registry = setup_registry();
    registry.get_mut("Consumer").unwrap().mailbox = Mailbox::new(2);

    for i in 0..3 {
        let res = registry.route_message(msg("Consumer", "receive_ping", 0, 0));
        if i < 2 {
            assert!(res.is_ok(), "First 2 messages should push fine");
        } else {
            assert!(res.is_err(), "3rd message should overflow and return error");
        }
    }
}

#[test]
fn test_adversarial_infinite_loop_gas_limit() {
    let mut registry = DomainRegistry::new();
    let trans = transition(
        "infinite_loop",
        vec![Constant::Int(1)],
        vec![
            OpCode::LoadConst { const_idx: 0, dest_reg: 0 },
            OpCode::Jump { target_offset: 1 },
        ],
    );
    let d = domain("Malicious", vec![], vec![trans], vec![]);
    registry.register(DomainInstance::new("Malicious".to_string(), vec![], d));

    let m = Message {
        id: "".into(),
        source_domain: "SYSTEM".into(),
        target_domain: "Malicious".to_string(),
        payload: "infinite_loop".to_string(),
        priority: 0,
        clock: 0,
    };
    registry.route_message(m).unwrap();

    let mut scheduler = Scheduler::new(registry);
    let trace = scheduler.execute_until_quiescent(10, 100);

    let found_gas_error = trace.trace.iter().any(|t| t.contains("exhausted gas slices, suspended at pc="));
    assert!(found_gas_error, "Scheduler should catch the infinite loop and prevent system freeze");
}

#[test]
fn test_scheduler_starvation_fairness_flood() {
    let mut registry = DomainRegistry::new();
    let trans1 = transition("consume_normal", vec![], vec![OpCode::HaltSlice]);
    let trans2 = transition("consume_high", vec![], vec![OpCode::HaltSlice]);
    let d = domain("Victim", vec![], vec![trans1, trans2], vec![]);
    registry.register(DomainInstance::new("Victim".to_string(), vec![], d));

    for i in 0..10 {
        registry
            .route_message(Message {
                id: "".into(),
                source_domain: "SYSTEM".into(),
                target_domain: "Victim".to_string(),
                payload: "consume_high".to_string(),
                priority: 1,
                clock: i as u64,
            })
            .unwrap();
    }
    for i in 0..10 {
        registry
            .route_message(Message {
                id: "".into(),
                source_domain: "SYSTEM".into(),
                target_domain: "Victim".to_string(),
                payload: "consume_normal".to_string(),
                priority: 0,
                clock: (i + 10) as u64,
            })
            .unwrap();
    }

    let mut scheduler = Scheduler::new(registry);
    let trace = scheduler.execute_until_quiescent(20, 100).trace;

    let mut _high_count = 0;
    let mut normal_count = 0;
    for t in trace {
        if t.contains("AFTER 'consume_high'") {
            _high_count += 1;
        } else if t.contains("AFTER 'consume_normal'") {
            normal_count += 1;
        }
    }
    assert!(normal_count > 0, "Normal priority messages must not be starved!");
}

#[test]
fn test_convergence() {
    let program = r#"
        domain Target {
            state { _x: int }
            transition stabilize {
                slice step { 
                    _x = 0
                }
            }
        }
    "#;

    let result = run_ved_program(program, vec![("Target", "stabilize", 0)], 200);

    assert!(result.converged, "System failed to converge onto structural targets securely.");
    assert!(!result.warning_detected, "Baseline convergence should not trip heuristic maximum bounds.");
}

#[test]
fn test_oscillation_detection() {
    let program = r#"
        domain Target {
            capability { messaging, send_to:Target }
            state { _x: int }
            transition oscillate {
                capability { messaging, send_to:Target }
                slice step {
                    send("Target", "oscillate")
                }
            }
        }
    "#;

    let result = run_ved_program(program, vec![("Target", "oscillate", 0)], 50);

    assert!(!result.converged, "Infinite recursion logic should actively prevent system quiescence natively.");
    assert!(result.warning_detected, "Linear recursion detection missed failure oscillation.");
}

#[test]
fn test_message_storm() {
    let program = r#"
        domain Ping {
            state { _x: int }
            transition run {
                slice step {
                    send("Ping", "run")
                    send("Ping", "run")
                }
            }
        }
    "#;

    let result = run_ved_program(program, vec![("Ping", "run", 0)], 1000);

    assert!(!result.converged, "Storm simulation shouldn't quiesce, it should cleanly overflow bounds limits.");
    assert!(result.warning_detected, "Warning should be tripped due to Max Cycles bound hit during storm.");
    assert!(result.steps > 0);
}

#[test]
fn test_no_starvation() {
    let program = r#"
        domain HighPriority {
            capability { messaging, send_to:HighPriority }
            state { counter: int }
            transition Spam {
                capability { messaging, send_to:HighPriority }
                slice step {
                    send_high("HighPriority", "Spam")
                }
            }
        }
        
        domain LowPriority {
            state { executed: int }
            transition RunOnce {
                slice step {
                    executed = 1
                }
            }
        }
    "#;

    let result = run_ved_program(
        program,
        vec![
            ("HighPriority", "Spam", 1),
            ("LowPriority", "RunOnce", 0),
        ],
        20,
    );

    assert!(result.low_priority_executed, "Low priority execution starvation detected across execution boundary.");
}

#[test]
fn scheduler_delivers_self_sends_at_end_of_cycle() {
    let program = r#"
        domain Loop {
            state { n: int }
            transition again {
                slice step {
                    n = n + 1
                    if n < 3 { send Loop again }
                }
            }
        }
    "#;
    let compiled = compile_source(program).unwrap();
    let mut registry = DomainRegistry::new();
    for d in compiled.domains {
        registry.register(DomainInstance::new(d.name.clone(), d.state_schema.clone(), d.clone()));
    }
    registry.route_message(msg("Loop", "again", 0, 0)).unwrap();
    let mut scheduler = Scheduler::new(registry);
    let r = scheduler.execute_until_quiescent(10, 1000);
    assert!(r.converged);
    assert_eq!(r.steps, 4);
    let routed = r.trace.iter().filter(|t| t.contains("Routing message -> [Target: Loop, Payload: again")).count();
    assert_eq!(routed, 2);
    let d = scheduler.get_registry().instances.get("Loop").unwrap();
    assert_eq!(d.state.get("n"), Some(3));
}

#[test]
fn scheduler_routes_sends_between_domains() {
    let mut registry = setup_registry();
    registry.route_message(msg("Producer", "send_ping", 0, 0)).unwrap();
    let mut scheduler = Scheduler::new(registry);
    let r = scheduler.execute_until_quiescent(10, 100);
    assert!(r.converged);
    assert_eq!(r.steps, 3);
    assert!(!r.trace.iter().any(|t| t.contains("Execution error")));
    assert!(r.trace.iter().any(|t| t.contains("Routing message -> [Target: Consumer, Payload: receive_ping, Priority: 0, Clock: 3]")));
    let c = scheduler.get_registry().instances.get("Consumer").unwrap();
    assert_eq!(c.state.get("pings"), Some(1));
    let p = scheduler.get_registry().instances.get("Producer").unwrap();
    assert_eq!(p.state.get("sent"), Some(1));
}

#[test]
fn replay_from_a_captured_snapshot_reaches_the_same_states() {
    let source = "
    domain CounterA {
        state {
            val: int
        }
        transition tick {
            slice step {
                val = val + 1
                send CounterB tock
            }
        }
    }
    domain CounterB {
        state {
            val: int
        }
        transition tock {
            slice step {
                val = val + 2
                if val < 6 {
                    send CounterA tick
                }
            }
        }
    }
    ";
    let fresh = || {
        let program = compile_source(source).unwrap();
        let mut registry = DomainRegistry::new();
        for d in program.domains {
            registry.register(DomainInstance::new(d.name.clone(), d.state_schema.clone(), d.clone()));
        }
        registry
    };
    let mut reg1 = fresh();
    reg1.route_message(msg("CounterA", "tick", 0, 0)).unwrap();
    let mut sched1 = Scheduler::new(reg1);
    let r1 = sched1.execute_until_quiescent(100, 1000);
    assert!(r1.converged);

    let mut reg2 = fresh();
    reg2.route_message(msg("CounterA", "tick", 0, 0)).unwrap();
    let mut sched2 = Scheduler::new(reg2);
    let r2 = sched2.execute_until_quiescent(2, 1000);
    assert!(!r2.converged);
    let data = SnapshotData::capture(r2.steps, sched2.get_registry());

    let mut reg3 = fresh();
    SnapshotManager::new("replay.snapshot.json").restore_into(data, &mut reg3).unwrap();
    let mut sched3 = Scheduler::new(reg3);
    let r3 = sched3.execute_until_quiescent(100, 1000);
    assert!(r3.converged);

    for name in ["CounterA", "CounterB"] {
        let a = sched1.get_registry().instances.get(name).unwrap();
        let b = sched3.get_registry().instances.get(name).unwrap();
        assert_eq!(a.state.get("val"), b.state.get("val"));
    }
    assert_eq!(sched1.get_registry().instances.get("CounterA").unwrap().state.get("val"), Some(3));
    assert_eq!(sched1.get_registry().instances.get("CounterB").unwrap().state.get("val"), Some(6));
    let last_a = |s: &Scheduler| {
        s.tracer
            .events()
            .iter()
            .filter(|e| e.domain == "CounterA" && e.action == "STATE_MUTATED")
            .last()
            .map(|e| e.details.clone())
            .unwrap()
    };
    assert_eq!(last_a(&sched1), last_a(&sched3), "2.A Replay state mismatch! (Fidelity breach)");
}

#[test]
fn two_runs_from_the_same_registry_agree() {
    let program = "
    domain Ping {
        state { n: int }
        transition go {
            slice step {
                n = n + 1
                if n < 4 { send Pong go }
            }
        }
    }
    domain Pong {
        state { n: int }
        transition go {
            slice step {
                n = n + 2
                send Ping go
            }
        }
    }
    ";
    let run = || {
        let compiled = compile_source(program).unwrap();
        let mut registry = DomainRegistry::new();
        for d in compiled.domains {
            registry.register(DomainInstance::new(d.name.clone(), d.state_schema.clone(), d.clone()));
        }
        registry.route_message(msg("Ping", "go", 0, 0)).unwrap();
        let mut scheduler = Scheduler::new(registry);
        let r = scheduler.execute_until_quiescent(50, 100);
        let ping = scheduler.get_registry().instances.get("Ping").unwrap();
        let pong = scheduler.get_registry().instances.get("Pong").unwrap();
        let events = Tracer::format_trace(scheduler.tracer.events());
        (r.steps, r.converged, r.trace, ping.state.get("n"), pong.state.get("n"), ping.logical_clock.tick, pong.logical_clock.tick,
            events, r.low_priority_executed)
    };
    let first = run();
    let second = run();
    assert_eq!(first, second);
    assert!(first.1);
    assert_eq!(first.3, Some(4));
    assert_eq!(first.4, Some(6));
    assert!(first.8);
    assert!(first.7.iter().any(|l| l.contains("STATE_MUTATED") && l.contains("\"n\": 4")));
}

#[test]
fn scheduler_logs_a_faulting_slice_and_drops_its_writes() {
    let mut registry = DomainRegistry::new();
    let bad = transition(
        "bad",
        vec![Constant::Int(7), Constant::Int(0)],
        vec![
            OpCode::LoadConst { const_idx: 0, dest_reg: 0 },
            OpCode::StoreState { src_reg: 0, field_idx: 0 },
            OpCode::LoadConst { const_idx: 1, dest_reg: 1 },
            OpCode::DivInt { r1: 0, r2: 1, dest: 2 },
            OpCode::HaltSlice,
        ],
    );
    let bc = domain("D", vec!["x"], vec![bad], vec![]);
    registry.register(DomainInstance::new("D".to_string(), bc.state_schema.clone(), bc));
    registry.route_message(msg("D", "bad", 0, 0)).unwrap();
    let mut scheduler = Scheduler::new(registry);
    let r = scheduler.execute_until_quiescent(10, 100);
    assert!(r.converged);
    let expected = vec![
        "[Scheduler] Starting execution loop...",
        "[Scheduler Cycle 1] Domain 'D' processing message: 'bad' (Priority 0, Clock: 0)",
        "[Scheduler Cycle 1] Execution error in 'D': Deterministic fault: Division by zero",
        "[Scheduler Cycle 1] Domain 'D' entered deterministic quiescent sleep state.",
        "[Scheduler] Quiescent state reached. Halting.",
    ];
    assert_eq!(r.trace, expected);
    assert_eq!(scheduler.get_registry().instances.get("D").unwrap().state.get("x"), Some(0));
}

#[test]
fn scheduler_reports_extreme_values_in_decimal() {
    let mut registry = DomainRegistry::new();
    let set = transition(
        "set",
        vec![Constant::Int(i64::MIN), Constant::Int(i64::MAX)],
        vec![
            OpCode::LoadConst { const_idx: 0, dest_reg: 0 },
            OpCode::StoreState { src_reg: 0, field_idx: 0 },
            OpCode::LoadConst { const_idx: 1, dest_reg: 1 },
            OpCode::StoreState { src_reg: 1, field_idx: 1 },
            OpCode::HaltSlice,
        ],
    );
    let bc = domain("E", vec!["lo", "hi"], vec![set], vec![]);
    registry.register(DomainInstance::new("E".to_string(), bc.state_schema.clone(), bc));
    registry.route_message(msg("E", "set", 0, 1234567890123)).unwrap();
    let mut scheduler = Scheduler::new(registry);
    let r = scheduler.execute_until_quiescent(10, 100);
    assert_eq!(r.trace[1], "[Scheduler Cycle 1] Domain 'E' processing message: 'set' (Priority 0, Clock: 1234567890123)");
    assert_eq!(
        r.trace[2],
        "[Scheduler Cycle 1] Domain 'E' state AFTER 'set': {\"hi\": 9223372036854775807, \"lo\": -9223372036854775808}"
    );
}

#[test]
fn scheduler_resumes_suspended_slice_with_its_registers() {
    let mut registry = DomainRegistry::new();
    let inc = transition(
        "inc",
        vec![Constant::Int(1)],
        vec![
            OpCode::LoadState { field_idx: 0, dest_reg: 0 },
            OpCode::LoadConst { const_idx: 0, dest_reg: 1 },
            OpCode::AddInt { r1: 0, r2: 1, dest: 2 },
            OpCode::StoreState { src_reg: 2, field_idx: 0 },
            OpCode::HaltSlice,
        ],
    );
    let bc = domain("Counter", vec!["val"], vec![inc], vec![]);
    registry.register(DomainInstance::new("Counter".to_string(), bc.state_schema.clone(), bc));
    registry.route_message(msg("Counter", "inc", 0, 0)).unwrap();
    let mut scheduler = Scheduler::new(registry);
    let r = scheduler.execute_until_quiescent(10, 3);
    assert!(r.converged);
    assert!(!r.warning_detected);
    assert_eq!(r.steps, 3);
    assert!(r.trace.iter().any(|t| t.contains("resuming suspended transition 'inc' at pc=3")));
    let c = scheduler.get_registry().instances.get("Counter").unwrap();
    assert_eq!(c.state.get("val"), Some(1));
}

#[test]
fn test_deterministic_execution() {
    let program = r#"
        domain Process {
            state { ticker: int }
            goal done { target ticker >= 10 }
            transition run {
                slice step { ticker = ticker + 1 }
            }
        }
    "#;

    let mut traces = Vec::new();
    for _ in 0..100 {
        let result = run_ved_program(program, vec![("Process", "run", 0)], 100);
        traces.push(result.trace);
    }

    let first_trace = &traces[0];
    for trace in traces.iter().skip(1) {
        assert_eq!(first_trace, trace, "Non-deterministic execution detected in Scheduler runtime trace");
    }
}

#[test]
fn scheduler_trace_of_a_converging_run() {
    let mut registry = setup_registry();
    registry.route_message(msg("Consumer", "receive_ping", 0, 0)).unwrap();
    let mut scheduler = Scheduler::new(registry);
    let r = scheduler.execute_until_quiescent(10, 100);
    assert!(r.converged);
    assert!(!r.warning_detected);
    assert!(r.low_priority_executed);
    assert_eq!(r.steps, 2);
    let expected = vec![
        "[Scheduler] Starting execution loop...",
        "[Scheduler Cycle 1] Domain 'Consumer' processing message: 'receive_ping' (Priority 0, Clock: 0)",
        "[Scheduler Cycle 1] Domain 'Consumer' state AFTER 'receive_ping': {\"pings\": 1}",
        "[Scheduler Cycle 1] Domain 'Consumer' entered deterministic quiescent sleep state.",
        "[Scheduler Cycle 1] Domain 'Producer' entered deterministic quiescent sleep state.",
        "[Scheduler] Quiescent state reached. Halting.",
    ];
    assert_eq!(r.trace, expected);
    let consumer = scheduler.get_registry().instances.get("Consumer").unwrap();
    assert_eq!(consumer.state.get("pings"), Some(1));
    assert_eq!(consumer.logical_clock.tick, 2);
}

#[test]
fn scheduler_halts_at_max_cycles() {
    // A goal that never holds, whose recovery keeps the domain busy.
    let goal = GoalBytecode {
        name: "never".to_string(),
        scope: None,
        required_capabilities: vec![],
        priority: 0,
        recovery_transitions: vec!["again".to_string()],
        constants: vec![Constant::Int(0)],
        instructions: vec![OpCode::LoadConst { const_idx: 0, dest_reg: 0 }],
    };
    let again = transition("again", vec![], vec![OpCode::HaltSlice]);
    let mut registry = DomainRegistry::new();
    registry.register(DomainInstance::new("Loop".to_string(), vec![], domain("Loop", vec![], vec![again], vec![goal])));
    let mut scheduler = Scheduler::new(registry);
    let r = scheduler.execute_until_quiescent(5, 100);
    assert!(!r.converged);
    assert!(r.warning_detected);
    assert_eq!(r.steps, 5);
    let n = r.trace.len();
    assert_eq!(r.trace[n - 2], "[Scheduler] HALT: Max cycles 5 reached. Stopping to prevent infinite loop.");
    assert_eq!(r.trace[n - 1], "[Scheduler] Quiescent state reached. Halting.");
}

#[test]
fn scheduler_orders_by_urgency_then_name() {
    let mut registry = DomainRegistry::new();
    registry.register(DomainInstance::new("b".to_string(), vec![], domain("b", vec![], vec![], vec![])));
    registry.register(DomainInstance::new("a".to_string(), vec![], domain("a", vec![], vec![], vec![])));
    registry.register(DomainInstance::new("c".to_string(), vec![], domain("c", vec![], vec![], vec![])).with_weight(3));
    registry.register(DomainInstance::new("d".to_string(), vec![], domain("d", vec![], vec![], vec![])));
    registry.route_message(msg("d", "x", 1, 0)).unwrap();
    registry.get_mut("b").unwrap().is_quiescent = true;
    let scheduler = Scheduler::new(registry);
    // c: 300; d: 100 + 1000 + 10 * 4; a: 100
    let order = scheduler.cycle_order(4);
    assert_eq!(order, vec!["d".to_string(), "c".to_string(), "a".to_string()]);
}

#[test]
fn scheduler_step_asks_for_snapshots() {
    let mut registry = setup_registry();
    registry.route_message(msg("Consumer", "receive_ping", 0, 0)).unwrap();
    let mut scheduler = Scheduler::new(registry);
    let mut run = scheduler.start_run();
    let a = scheduler.step(&mut run, 10, 100, true);
    assert!(matches!(a, CycleAction::SaveSnapshot(1)));
    Scheduler::note_snapshot(&mut run, 1, Ok(()));
    assert_eq!(run.result.trace.last().unwrap(), "[Scheduler Cycle 1] Snapshot saved successfully.");
    Scheduler::note_snapshot(&mut run, 1, Err("disk full".to_string()));
    assert_eq!(run.result.trace.last().unwrap(), "[Scheduler Cycle 1] SNAPSHOT ERROR: disk full");
    let a = scheduler.step(&mut run, 10, 100, true);
    assert!(matches!(a, CycleAction::Continue));
    let a = scheduler.step(&mut run, 10, 100, true);
    assert!(matches!(a, CycleAction::Finished));
    let r = Scheduler::finish(run);
    assert!(r.converged);
}

#[test]
fn goal_failure_queues_recovery_once() {
    let goal = GoalBytecode {
        name: "ready".to_string(),
        scope: None,
        required_capabilities: vec![],
        priority: 0,
        recovery_transitions: vec!["fix".to_string(), "fix".to_string()],
        constants: vec![Constant::Int(1)],
        instructions: vec![
            OpCode::LoadState { field_idx: 0, dest_reg: 0 },
            OpCode::LoadConst { const_idx: 0, dest_reg: 1 },
            OpCode::CmpEq { r1: 0, r2: 1, dest: 2 },
            OpCode::HaltSlice,
        ],
    };
    let fix = transition(
        "fix",
        vec![Constant::Int(1)],
        vec![
            OpCode::LoadConst { const_idx: 0, dest_reg: 0 },
            OpCode::StoreState { src_reg: 0, field_idx: 0 },
            OpCode::HaltSlice,
        ],
    );
    let d = domain("Svc", vec!["ok"], vec![fix], vec![goal]);
    let mut registry = DomainRegistry::new();
    registry.register(DomainInstance::new("Svc".to_string(), vec!["ok".to_string()], d));
    let mut scheduler = Scheduler::new(registry);
    let r = scheduler.execute_until_quiescent(10, 100);
    assert!(r.converged);
    let failed = r.trace.iter().filter(|t| t.contains("GOAL FAILED: 'ready'")).count();
    let processed = r.trace.iter().filter(|t| t.contains("processing message: 'fix' (Priority 1")).count();
    let met = r.trace.iter().filter(|t| t.contains("achieved GOAL: 'ready'")).count();
    assert_eq!(failed, 1);
    assert_eq!(processed, 1);
    assert!(met >= 1);
    let svc = scheduler.get_registry().instances.get("Svc").unwrap();
    assert_eq!(svc.state.get("ok"), Some(1));
}

#[test]
fn invariant_evaluates_as_goal_with_its_own_wording() {
    let cases: Vec<Vec<OpCode>> = vec![
        vec![OpCode::LoadState { field_idx: 0, dest_reg: 0 }, OpCode::LoadConst { const_idx: 0, dest_reg: 1 }, OpCode::CmpLt { r1: 0, r2: 1, dest: 2 }],
        vec![OpCode::LoadConst { const_idx: 0, dest_reg: 0 }, OpCode::StoreState { src_reg: 0, field_idx: 0 }],
        vec![OpCode::LoadConst { const_idx: 0, dest_reg: 0 }, OpCode::DivInt { r1: 0, r2: 1, dest: 2 }],
        vec![OpCode::HaltSlice],
        vec![OpCode::LoadConst { const_idx: 0, dest_reg: 0 }, OpCode::LoadConst { const_idx: 0, dest_reg: 0 }, OpCode::LoadConst { const_idx: 0, dest_reg: 0 }],
    ];
    let schema = vec!["n".to_string()];
    let st = IsolatedState::new(&schema);
    for code in cases {
        let goal = GoalBytecode {
            name: "g".to_string(),
            scope: None,
            required_capabilities: vec![],
            priority: 0,
            recovery_transitions: vec![],
            constants: vec![Constant::Int(5)],
            instructions: code.clone(),
        };
        let inv = InvariantBytecode { name: "i".to_string(), constants: vec![Constant::Int(5)], instructions: code };
        let g = GoalEngine::evaluate(&goal, &st, &schema, 2);
        let i = GoalEngine::evaluate_invariant(&inv, &st, &schema, 2);
        match (g, i) {
            (Ok(a), Ok(b)) => assert_eq!(a, b),
            (Err(a), Err(b)) => assert_eq!(a.replace("Goal", "Invariant"), b),
            _ => panic!("goal and invariant disagree"),
        }
    }
    let inv = InvariantBytecode {
        name: "i".to_string(),
        constants: vec![Constant::Int(5)],
        instructions: vec![OpCode::LoadConst { const_idx: 0, dest_reg: 0 }, OpCode::StoreState { src_reg: 0, field_idx: 0 }],
    };
    assert_eq!(
        GoalEngine::evaluate_invariant(&inv, &st, &schema, 10),
        Err("Illegal operation in Invariant context: Side effects are forbidden.".to_string())
    );
}

#[test]
fn goal_engine_evaluates_against_state() {
    let goal = GoalBytecode {
        name: "big".to_string(),
        scope: None,
        required_capabilities: vec![],
        priority: 0,
        recovery_transitions: vec![],
        constants: vec![Constant::Int(10)],
        instructions: vec![
            OpCode::LoadState { field_idx: 0, dest_reg: 0 },
            OpCode::LoadConst { const_idx: 0, dest_reg: 1 },
            OpCode::CmpGte { r1: 0, r2: 1, dest: 2 },
        ],
    };
    let schema = vec!["n".to_string()];
    let mut st = IsolatedState::new(&schema);
    assert_eq!(GoalEngine::evaluate(&goal, &st, &schema, 100), Ok(false));
    st.set("n", 12).unwrap();
    assert_eq!(GoalEngine::evaluate(&goal, &st, &schema, 100), Ok(true));
    assert_eq!(GoalEngine::try_evaluate(&goal, &st, &schema, 100), Some(Ok(true)));
    assert_eq!(
        GoalEngine::evaluate(&goal, &st, &schema, 2),
        Err("Goal evaluation exhausted gas boundary (Max 2 instructions)".to_string())
    );
}

#[test]
fn interpreter_reports_division_by_zero() {
    let fields: Vec<String> = vec![];
    let mut interp = Interpreter::new(&fields);
    let trans = transition(
        "div",
        vec![Constant::Int(7), Constant::Int(0)],
        vec![
            OpCode::LoadConst { const_idx: 0, dest_reg: 0 },
            OpCode::LoadConst { const_idx: 1, dest_reg: 1 },
            OpCode::DivInt { r1: 0, r2: 1, dest: 2 },
        ],
    );
    match interp.run_slice(&trans, &fields, 100, 0, vec![]) {
        SliceResult::Fault(e) => assert_eq!(e, "Deterministic fault: Division by zero"),
        _ => panic!("expected a fault"),
    }
}

#[test]
fn interpreter_checked_run_refuses_overflow() {
    let fields: Vec<String> = vec![];
    let mut interp = Interpreter::new(&fields);
    let trans = transition(
        "overflow",
        vec![Constant::Int(i64::MAX), Constant::Int(1)],
        vec![
            OpCode::LoadConst { const_idx: 0, dest_reg: 0 },
            OpCode::LoadConst { const_idx: 1, dest_reg: 1 },
            OpCode::AddInt { r1: 0, r2: 1, dest: 2 },
        ],
    );
    assert!(interp.try_run_slice(&trans, &fields, 100, 0, vec![]).is_none());
}

#[test]
fn interpreter_send_needs_capability() {
    let fields: Vec<String> = vec![];
    let trans = transition(
        "s",
        vec![Constant::String("Peer".to_string()), Constant::String("hello".to_string())],
        vec![OpCode::SendMsg { target_const_idx: 0, msg_const_idx: 1 }],
    );
    let mut interp = Interpreter::new(&fields);
    match interp.run_slice(&trans, &fields, 100, 0, vec![]) {
        SliceResult::Fault(e) => assert_eq!(e, "Authority/Scope breach: missing capability 'send_to:Peer'"),
        _ => panic!("expected a fault"),
    }
    let mut interp = Interpreter::new(&fields);
    interp.set_capabilities(vec!["send_to:Peer".to_string()]);
    match interp.run_slice(&trans, &fields, 100, 0, vec![]) {
        SliceResult::Completed(out) => {
            assert_eq!(out.len(), 1);
            assert_eq!(out[0].target_domain, "Peer");
            assert_eq!(out[0].payload, "hello");
            assert_eq!(out[0].priority, 0);
        }
        _ => panic!("expected completion"),
    }
}

#[test]
fn logical_clock_lamport_rules() {
    let mut c = LogicalClock::new();
    assert_eq!(c.tick(), 1);
    assert_eq!(c.tick(), 2);
    c.update(1);
    assert_eq!(c.tick, 2);
    c.update(2);
    assert_eq!(c.tick, 3);
    c.update(10);
    assert_eq!(c.tick, 11);
    assert!(c.tick() > 10);
    assert_eq!(LogicalClock::default().tick, 0);
}

#[test]
fn state_isolation_and_sorted_keys() {
    let schema = vec!["zeta".to_string(), "alpha".to_string(), "mid".to_string(), "alpha".to_string()];
    let mut st = IsolatedState::new(&schema);
    assert_eq!(st.get("alpha"), Some(0));
    assert_eq!(st.get("nope"), None);
    assert_eq!(
        st.set("nope", 3),
        Err("Memory violation: Attempted to write to undeclared schema field 'nope'".to_string())
    );
    st.set("mid", -4).unwrap();
    let snap = st.snapshot();
    st.set("mid", 9).unwrap();
    assert_eq!(snap.get("mid"), Some(-4));
    assert_eq!(st.get("mid"), Some(9));
    assert_eq!(st.keys_sorted(), vec!["alpha".to_string(), "mid".to_string(), "zeta".to_string()]);
}

#[test]
fn normal_message_not_starved_by_arriving_high_ones() {
    let mut mb = Mailbox::new(100);
    mb.push(msg("A", "h0", 1, 0)).unwrap();
    mb.push(msg("A", "normal", 0, 0)).unwrap();
    let mut delivered = Vec::new();
    for k in 0..4 {
        mb.push(msg("A", &format!("h{}", k + 1), 1, 0)).unwrap();
        mb.push(msg("A", &format!("x{}", k + 1), 1, 0)).unwrap();
        delivered.push(mb.pop().unwrap().payload);
    }
    assert_eq!(delivered, vec!["h0", "h1", "x1", "normal"]);
}

#[test]
fn third_normal_message_out_within_twelve_pops() {
    let mut mb = Mailbox::new(200);
    for k in 0..3 {
        mb.push(msg("A", &format!("n{}", k), 0, 0)).unwrap();
    }
    let mut delivered = Vec::new();
    for k in 0..12 {
        mb.push(msg("A", &format!("h{}", k), 1, 0)).unwrap();
        mb.push(msg("A", &format!("x{}", k), 1, 0)).unwrap();
        delivered.push(mb.pop().unwrap().payload);
    }
    let pos = delivered.iter().position(|p| p == "n2").unwrap();
    assert!(pos < 12);
    assert_eq!(pos, 11);
}

#[test]
fn mailbox_rejects_when_full() {
    let mut mb = Mailbox::new(1);
    assert!(mb.push(msg("A", "one", 0, 0)).is_ok());
    let back = mb.push(msg("A", "two", 1, 0)).unwrap_err();
    assert_eq!(back.payload, "two");
    assert!(!mb.is_empty());
    assert_eq!(mb.pop().unwrap().payload, "one");
    assert!(mb.is_empty());
    let d = Mailbox::default();
    assert_eq!(d.capacity, 100);
}

#[test]
fn registry_routes_and_wakes() {
    let mut registry = setup_registry();
    registry.get_mut("Consumer").unwrap().is_quiescent = true;
    let lost = registry.route_message(msg("Nobody", "x", 0, 0)).unwrap_err();
    assert_eq!(lost.target_domain, "Nobody");
    registry.route_message(msg("Consumer", "receive_ping", 0, 0)).unwrap();
    let c = registry.get_mut("Consumer").unwrap();
    assert!(!c.is_quiescent);
    assert_eq!(c.mailbox.normal.len(), 1);
    assert!(registry.get_mut("Nobody").is_none());
}

#[test]
fn domain_instance_defaults() {
    let d = DomainInstance::new("X".to_string(), vec!["f".to_string()], domain("X", vec!["f"], vec![], vec![]));
    assert_eq!(d.schedule_weight, 1);
    assert_eq!(d.mailbox.capacity, 100);
    assert!(!d.is_quiescent);
    assert!(d.suspended_context.is_none());
    assert_eq!(d.state.get("f"), Some(0));
    let d = d.with_weight(7);
    assert_eq!(d.schedule_weight, 7);
}

#[test]
fn snapshot_capture_and_restore_round_trip() {
    let mut registry = setup_registry();
    registry.get_mut("Consumer").unwrap().state.set("pings", 5).unwrap();
    registry.route_message(msg("Consumer", "receive_ping", 1, 3)).unwrap();
    let data = SnapshotData::capture(4, &registry);
    assert_eq!(data.cycle, 4);
    assert_eq!(data.domains.len(), 2);

    let mut fresh = setup_registry();
    let mgr = SnapshotManager::new("somewhere.snapshot.json");
    assert_eq!(mgr.filepath(), "somewhere.snapshot.json");
    mgr.restore_into(data, &mut fresh).unwrap();
    let c = fresh.get_mut("Consumer").unwrap();
    assert_eq!(c.state.get("pings"), Some(5));
    assert_eq!(c.mailbox.high.len(), 1);
    assert_eq!(c.mailbox.high[0].clock, 3);
}

#[test]
fn snapshot_restore_refuses_unknown_domain() {
    let mut registry = setup_registry();
    let schema = vec!["q".to_string()];
    let data = SnapshotData {
        cycle: 1,
        domains: vec![(
            "Ghost".to_string(),
            DomainSnapshot { state: IsolatedState::new(&schema), mailbox_high: vec![], mailbox_normal: vec![] },
        )],
    };
    let mgr = SnapshotManager::new("x.json");
    assert_eq!(mgr.restore_into(data, &mut registry), Err("Snapshot contains unknown domain 'Ghost'".to_string()));
}

#[test]
fn tracer_lines_match_std_formatting() {
    let mut t = Tracer::new();
    t.record(7, "Alpha", "GOAL_MET", "g1");
    t.record(1234, "AVeryLongDomainNameHere", "STATE_MUTATED_WITH_A_LONG_NAME", "");
    let events: &Vec<TraceEvent> = t.events();
    assert_eq!(events.len(), 2);
    let lines = Tracer::format_trace(events);
    assert_eq!(lines[0], "[Cycle 007] Alpha           | GOAL_MET           | g1");
    for (ev, line) in events.iter().zip(lines.iter()) {
        let expected = format!("[Cycle {:03}] {:-15} | {:-18} | {}", ev.cycle, ev.domain, ev.action, ev.details);
        assert_eq!(&expected, line);
    }
}

#[test]
fn deterministic_rng_replays() {
    let mut a = DeterministicRng::new(42);
    let mut b = DeterministicRng::new(42);
    for _ in 0..20 {
        let x = a.next_in_range(10);
        assert!(x < 10);
        assert_eq!(x, b.next_in_range(10));
        assert_eq!(a.next_bool(), b.next_bool());
    }
    assert_eq!(a.next_in_range(0), 0);
}

#[test]
fn slice_cannot_write_outside_the_schema() {
    let state_fields = vec!["a".to_string()];
    let mut interp = Interpreter::new(&state_fields);
    // The transition names a field that the domain's memory does not have.
    let names = vec!["a".to_string(), "ghost".to_string()];
    let trans = transition(
        "w",
        vec![Constant::Int(5)],
        vec![
            OpCode::LoadConst { const_idx: 0, dest_reg: 0 },
            OpCode::StoreState { src_reg: 0, field_idx: 0 },
            OpCode::StoreState { src_reg: 0, field_idx: 1 },
        ],
    );
    match interp.run_slice(&trans, &names, 100, 0, vec![]) {
        SliceResult::Fault(e) => {
            assert_eq!(e, "Memory violation: Attempted to write to undeclared schema field 'ghost'")
        }
        _ => panic!("expected a fault"),
    }
    assert_eq!(interp.state.get("a"), Some(5));
    assert_eq!(interp.state.get("ghost"), None);
    assert_eq!(interp.state.keys_sorted(), vec!["a".to_string()]);
}

#[test]
fn sleeping_domains_do_not_run() {
    let mut registry = setup_registry();
    registry.get_mut("Producer").unwrap().is_quiescent = true;
    registry.get_mut("Producer").unwrap().state.set("sent", 3).unwrap();
    registry.route_message(msg("Consumer", "receive_ping", 0, 0)).unwrap();
    let mut scheduler = Scheduler::new(registry);
    let mut run = scheduler.start_run();
    scheduler.step(&mut run, 10, 100, false);
    assert!(!run.result.trace.iter().any(|t| t.contains("Domain 'Producer'")));
    let p = scheduler.get_registry().instances.get("Producer").unwrap();
    assert!(p.is_quiescent);
    assert_eq!(p.state.get("sent"), Some(3));
    assert_eq!(p.logical_clock.tick, 0);
}
