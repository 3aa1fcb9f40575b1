use path_monitor::monitor::{
    select_command, Command, DeliveryDecision, MonitorState, OpenResult, OpenStatus, Status,
    INITIAL_BUFFER_UNITS, WAKE_KEY,
};
use path_monitor::records::parse_records;
use path_monitor::resolve::{resolve_all_links_multiple, FsModel, LinkEntry};
use path_monitor::wide::{path_eq, WidePath};

fn units(s: &str) -> Vec<u16> {
    s.encode_utf16().collect()
}

fn path(s: &str) -> WidePath {
    WidePath {
        components: s
            .split('\\')
            .filter(|c| !c.is_empty())
            .map(|c| c.encode_utf16().collect())
            .collect(),
    }
}

fn push_u16(out: &mut Vec<u8>, v: u16) {
    out.push((v & 0xFF) as u8);
    out.push((v >> 8) as u8);
}

fn push_u32(out: &mut Vec<u8>, v: u32) {
    out.push((v & 0xFF) as u8);
    out.push(((v >> 8) & 0xFF) as u8);
    out.push(((v >> 16) & 0xFF) as u8);
    out.push(((v >> 24) & 0xFF) as u8);
}

fn mount_buffer(target: &str) -> Vec<u8> {
    let name = units(target);
    let mut out = Vec::new();
    push_u32(&mut out, 0xA0000003);
    push_u16(&mut out, (4 + 2 * name.len()) as u16);
    push_u16(&mut out, 0);
    push_u16(&mut out, 0);
    push_u16(&mut out, (2 * name.len()) as u16);
    push_u16(&mut out, 0);
    push_u16(&mut out, 0);
    for u in name {
        push_u16(&mut out, u);
    }
    out
}

/// One delivered batch holding one change record per name.
fn record_batch(names: &[&str]) -> Vec<u8> {
    let mut out = Vec::new();
    for (i, name) in names.iter().enumerate() {
        let n = units(name);
        let record_len = 12 + 2 * n.len();
        let next = if i + 1 == names.len() { 0 } else { record_len as u32 };
        push_u32(&mut out, next);
        push_u32(&mut out, 1); // action
        push_u32(&mut out, (2 * n.len()) as u32);
        for u in n {
            push_u16(&mut out, u);
        }
    }
    out
}

fn open_all(state: &mut MonitorState, plan: &path_monitor::monitor::UpdatePlan) -> bool {
    let results: Vec<OpenResult> = plan
        .opens
        .iter()
        .map(|o| OpenResult {
            key: o.key,
            prefix: o.prefix.clone_path(),
            status: OpenStatus::Opened,
        })
        .collect();
    state.apply_open_results(&results)
}

#[test]
fn record_batch_parses_names_in_order() {
    let names = parse_records(&record_batch(&["B", "other"])).unwrap();
    assert_eq!(names, vec![units("B"), units("other")]);
    let mut bad = record_batch(&["B"]);
    bad.truncate(9);
    assert!(parse_records(&bad).is_err());
}

#[test]
fn junction_swap_emits_exactly_one_notification() {
    // Watching C:\A\B\file.txt while B is a junction to D:\Target.
    let watched = vec![path("C:\\A\\B\\file.txt")];
    let topology = FsModel {
        links: vec![LinkEntry {
            path: path("C:\\A\\B"),
            data: mount_buffer("\\??\\D:\\Target"),
        }],
    };
    let resolved = resolve_all_links_multiple(&watched, &topology);
    assert_eq!(resolved.len(), 2);

    let mut state = MonitorState::new();
    let plan = state.apply_set_paths(&watched, &resolved);
    assert!(plan.changed);
    assert!(!plan.notify);
    let mut prefixes: Vec<&WidePath> = plan.opens.iter().map(|o| &o.prefix).collect();
    assert_eq!(prefixes.len(), 2);
    prefixes.retain(|p| !path_eq(p, &path("C:\\A")) && !path_eq(p, &path("D:\\Target")));
    assert!(prefixes.is_empty());
    assert!(!open_all(&mut state, &plan));
    assert_eq!(state.contexts.len(), 2);

    // B becomes a plain directory; a rename record for B arrives under C:\A.
    let key_a = state
        .contexts
        .iter()
        .find(|c| path_eq(&c.prefix, &path("C:\\A")))
        .unwrap()
        .key;
    let batch = record_batch(&["B"]);
    match state.on_delivery(key_a, batch.len() as u32) {
        DeliveryDecision::Rearm { key, .. } => assert_eq!(key, key_a),
        DeliveryDecision::Ignored => panic!("delivery on a live context was ignored"),
    }
    assert!(state.delivery_relevant(key_a, &batch));

    let flat = FsModel { links: vec![] };
    let new_resolved = resolve_all_links_multiple(&watched, &flat);
    assert_eq!(new_resolved.len(), 1);
    assert!(path_eq(&new_resolved[0], &path("C:\\A\\B\\file.txt")));
    let plan2 = state.apply_resolution(&new_resolved);
    assert!(plan2.changed);
    assert!(plan2.notify); // exactly one notification is owed
    assert_eq!(plan2.opens.len(), 0); // C:\A is already watched
    assert_eq!(plan2.closed.len(), 1); // D:\Target's context is closed
    assert_eq!(state.contexts.len(), 1);
    assert!(path_eq(&state.contexts[0].prefix, &path("C:\\A")));
}

#[test]
fn unrelated_sibling_name_is_not_relevant() {
    let watched = vec![path("C:\\A\\B\\file.txt")];
    let resolved = resolve_all_links_multiple(&watched, &FsModel { links: vec![] });
    let mut state = MonitorState::new();
    let plan = state.apply_set_paths(&watched, &resolved);
    assert!(!open_all(&mut state, &plan));
    let key = state.contexts[0].key;

    let batch = record_batch(&["Z"]);
    match state.on_delivery(key, batch.len() as u32) {
        DeliveryDecision::Rearm { .. } => {}
        DeliveryDecision::Ignored => panic!("delivery on a live context was ignored"),
    }
    assert!(!state.delivery_relevant(key, &batch));
}

#[test]
fn repeated_set_paths_stabilize_silently() {
    let watched = vec![path("C:\\A\\B\\file.txt")];
    let topology = FsModel { links: vec![] };
    let resolved = resolve_all_links_multiple(&watched, &topology);
    let mut state = MonitorState::new();
    let first = state.apply_set_paths(&watched, &resolved);
    assert!(first.changed);
    assert!(!open_all(&mut state, &first));
    for _ in 0..3 {
        let again = resolve_all_links_multiple(&watched, &topology);
        let plan = state.apply_set_paths(&watched, &again);
        assert!(!plan.changed);
        assert!(!plan.notify);
        assert!(plan.opens.is_empty());
        assert!(plan.closed.is_empty());
    }
}

#[test]
fn zero_byte_delivery_doubles_the_buffer_and_keeps_the_context() {
    let watched = vec![path("C:\\A\\B\\file.txt")];
    let resolved = resolve_all_links_multiple(&watched, &FsModel { links: vec![] });
    let mut state = MonitorState::new();
    let plan = state.apply_set_paths(&watched, &resolved);
    assert!(!open_all(&mut state, &plan));
    let key = state.contexts[0].key;
    assert_eq!(state.contexts[0].buffer_units, INITIAL_BUFFER_UNITS);

    let empty = Vec::new();
    match state.on_delivery(key, 0) {
        DeliveryDecision::Rearm { key: k, buffer_units } => {
            assert_eq!(k, key);
            assert_eq!(buffer_units, 2 * INITIAL_BUFFER_UNITS);
        }
        DeliveryDecision::Ignored => panic!("zero-byte delivery removed the context"),
    }
    // a zero-byte delivery carries no records
    assert!(!state.delivery_relevant(key, &empty));
    // the context is still armed and watching
    assert_eq!(state.contexts.len(), 1);
    assert_eq!(state.contexts[0].key, key);
    assert_eq!(state.contexts[0].buffer_units, 2 * INITIAL_BUFFER_UNITS);
}

#[test]
fn wake_and_stale_keys_are_ignored() {
    let mut state = MonitorState::new();
    assert_eq!(state.on_delivery(WAKE_KEY, 0), DeliveryDecision::Ignored);
    assert_eq!(state.on_delivery(7, 16), DeliveryDecision::Ignored);
    let empty = Vec::new();
    assert!(!state.delivery_relevant(7, &empty));
}

#[test]
fn queued_shutdown_wins_over_queued_set_paths() {
    let cmds = vec![
        Command::SetPaths(vec![path("C:\\A\\B\\file.txt")]),
        Command::Shutdown,
    ];
    assert!(matches!(select_command(&cmds), Some(Command::Shutdown)));
    // the same holds when shutdown was queued first
    let cmds = vec![
        Command::Shutdown,
        Command::SetPaths(vec![path("C:\\A\\B\\file.txt")]),
    ];
    assert!(matches!(select_command(&cmds), Some(Command::Shutdown)));

    let mut state = MonitorState::new();
    state.shutdown_now();
    assert!(matches!(state.status, Status::ShuttingDown));
}

#[test]
fn fatal_open_failure_terminates_the_loop() {
    let watched = vec![path("C:\\A\\B\\file.txt")];
    let resolved = resolve_all_links_multiple(&watched, &FsModel { links: vec![] });
    let mut state = MonitorState::new();
    let plan = state.apply_set_paths(&watched, &resolved);
    assert_eq!(plan.opens.len(), 1);
    let results = vec![OpenResult {
        key: plan.opens[0].key,
        prefix: plan.opens[0].prefix.clone_path(),
        status: OpenStatus::Failed,
    }];
    assert!(state.apply_open_results(&results));
    assert!(matches!(state.status, Status::ShuttingDown));
}

#[test]
fn missing_directory_is_skipped_not_fatal() {
    let watched = vec![path("C:\\A\\B\\file.txt")];
    let resolved = resolve_all_links_multiple(&watched, &FsModel { links: vec![] });
    let mut state = MonitorState::new();
    let plan = state.apply_set_paths(&watched, &resolved);
    let results = vec![OpenResult {
        key: plan.opens[0].key,
        prefix: plan.opens[0].prefix.clone_path(),
        status: OpenStatus::NotFound,
    }];
    assert!(!state.apply_open_results(&results));
    assert!(matches!(state.status, Status::Running));
    assert_eq!(state.contexts.len(), 0);
}

#[test]
fn malformed_batch_is_never_relevant() {
    let watched = vec![path("C:\\A\\B\\file.txt")];
    let resolved = resolve_all_links_multiple(&watched, &FsModel { links: vec![] });
    let mut state = MonitorState::new();
    let plan = state.apply_set_paths(&watched, &resolved);
    assert!(!open_all(&mut state, &plan));
    let key = state.contexts[0].key;

    let mut batch = record_batch(&["B"]);
    batch.truncate(7); // no room for a record header
    match state.on_delivery(key, batch.len() as u32) {
        DeliveryDecision::Rearm { .. } => {}
        DeliveryDecision::Ignored => panic!("delivery on a live context was ignored"),
    }
    assert!(!state.delivery_relevant(key, &batch));
}
