use cinit::config::ProcessConfig;
use cinit::config::ProcessType;
use cinit::cron::Cron;
use cinit::datetime::DateTime;
use cinit::dependency_graph::DependencyManager;
use cinit::dependency_graph::Error;
use cinit::process::Process;
use cinit::process::ProcessState;
use cinit::process_builder::build_dependency_manager;
use cinit::process_builder::looks_like_tera_template;
use cinit::process_builder::map_gid;
use cinit::process_builder::map_uid;
use cinit::process_map::ProcessMap;
use cinit::startup_checks::kernel_release_too_old;
use cinit::supervisor::CHILD_CRASH_EXIT_CODE;
use cinit::supervisor::SIGNAL_INT;
use cinit::supervisor::SIGNAL_TERM;
use cinit::supervisor::Supervisor;
use cinit::supervisor::parse;

#[test]
pub fn single_runnable_process() {
    let config = vec![(0, ProcessConfig::new("first", vec![], vec![]))];

    let mut uut =
        DependencyManager::with_nodes(&config).expect("Failed to create dependency manager");

    assert!(uut.has_runnables());
    assert_eq!(Some(0), uut.pop_runnable());
    assert!(!uut.has_runnables());
    assert_eq!(None, uut.pop_runnable());
}

#[test]
pub fn cyclic_dependency() {
    let config = vec![
        (0, ProcessConfig::new("first", vec!["second"], vec![])),
        (1, ProcessConfig::new("second", vec!["first"], vec![])),
    ];

    let uut = DependencyManager::with_nodes(&config);

    assert!(uut.is_err());
    assert!(matches!(uut, Err(Error::Cycle(0)) | Err(Error::Cycle(1))));
}

#[test]
pub fn dependants_are_marked_runnable() {
    let config = vec![
        (0, ProcessConfig::new("first", vec!["second"], vec![])),
        (1, ProcessConfig::new("second", vec![], vec![])),
    ];
    let mut uut =
        DependencyManager::with_nodes(&config).expect("Failed to create dependency manager");
    uut.pop_runnable().expect("Assumption broken");
    uut.notify_process_finished(0);

    assert!(uut.has_runnables());
    assert_eq!(Some(1), uut.pop_runnable());
    assert!(!uut.has_runnables());
    assert_eq!(None, uut.pop_runnable());
}

#[test]
pub fn have_two_dependencies() {
    let config = vec![
        (0, ProcessConfig::new("first", vec![], vec![])),
        (1, ProcessConfig::new("second", vec!["third"], vec![])),
        (2, ProcessConfig::new("third", vec![], vec!["first"])),
    ];
    let mut uut =
        DependencyManager::with_nodes(&config).expect("Failed to create dependency manager");
    uut.pop_runnable().expect("Assumption broken");
    uut.pop_runnable().expect("Assumption broken");
    assert!(!uut.has_runnables());
    uut.notify_process_finished(0);
    assert!(!uut.has_runnables());
    uut.notify_process_finished(1);

    assert!(uut.has_runnables());
    assert_eq!(Some(2), uut.pop_runnable());
    assert!(!uut.has_runnables());
    assert_eq!(None, uut.pop_runnable());
}

#[test]
fn notifying_twice_changes_nothing() {
    let config = vec![
        (0, ProcessConfig::new("first", vec!["second"], vec![])),
        (1, ProcessConfig::new("second", vec![], vec![])),
    ];
    let mut uut =
        DependencyManager::with_nodes(&config).expect("Failed to create dependency manager");
    uut.pop_runnable().expect("Assumption broken");
    uut.notify_process_finished(0);
    uut.notify_process_finished(0);

    assert_eq!(Some(1), uut.pop_runnable());
    assert_eq!(None, uut.pop_runnable());
}

#[test]
fn unknown_after_reference_is_reported() {
    let config = vec![(0, ProcessConfig::new("first", vec![], vec!["ghost"]))];

    let uut = DependencyManager::with_nodes(&config);

    assert!(matches!(uut, Err(Error::UnknownAfterReference(0, 0))));
}

#[test]
fn unknown_before_reference_is_reported() {
    let config = vec![(0, ProcessConfig::new("first", vec!["ghost"], vec![]))];

    let uut = DependencyManager::with_nodes(&config);

    assert!(matches!(uut, Err(Error::UnknownBeforeReference(0, 0))));
}

#[test]
fn depending_on_a_cronjob_is_reported() {
    let mut job = ProcessConfig::new("job", vec![], vec![]);
    job.process_type = ProcessType::CronJob {
        timer: "* * * * *".to_owned(),
    };
    let config = vec![
        (0, job),
        (1, ProcessConfig::new("first", vec![], vec!["job"])),
    ];

    let uut = DependencyManager::with_nodes(&config);

    assert!(matches!(uut, Err(Error::CronjobDependency(1))));
}

#[test]
fn invalid_user_id_gives_error() {
    let result = map_uid(Some(54321), &None);

    assert!(result.is_err());
}

#[test]
fn invalid_group_id_gives_error() {
    let result = map_gid(Some(54321), &None);

    assert!(result.is_err());
}

#[test]
fn no_user_config_gives_root() {
    let result = map_uid(None, &None);

    assert!(result.is_ok());
    assert_eq!(0, result.unwrap().uid);
}

#[test]
fn both_user_config_gives_error() {
    let result = map_uid(Some(1000), &Some("builder".to_string()));

    assert!(result.is_err());
}

#[test]
fn unknown_user_gives_error() {
    let result = map_uid(None, &Some("unknownuser".to_string()));

    assert!(result.is_err());
}

#[test]
fn template_markers_are_recognised() {
    assert!(looks_like_tera_template("{{ X }}"));
    assert!(looks_like_tera_template("lone } brace"));
    assert!(!looks_like_tera_template("plain text"));
}

#[test]
fn old_kernels_are_refused() {
    assert!(kernel_release_too_old("4.2.0"));
    assert!(kernel_release_too_old("3.19.7-generic"));
    assert!(!kernel_release_too_old("4.3.0"));
    assert!(!kernel_release_too_old("6.1.0-x"));
    assert!(!kernel_release_too_old("mystery"));
}

fn oneshot(name: &str, before: Vec<&str>, after: Vec<&str>) -> ProcessConfig {
    let mut p = ProcessConfig::new(name, before, after);
    p.path = Some("/bin/true".to_owned());
    p
}

// 1970-06-15T12:30:00 local, a Monday.
fn mock_time() -> DateTime {
    DateTime {
        year: 1970,
        month: 6,
        day: 15,
        hour: 12,
        minute: 30,
        second: 0,
        nanosecond: 0,
        weekday: 1,
    }
}

fn build_supervisor(programs: Vec<ProcessConfig>) -> Supervisor {
    let no_env: Vec<(String, String)> = vec![];
    let mut records: Vec<Process> = Vec::new();
    for p in programs.iter() {
        records.push(Process::from(p, &no_env).expect("analysis must accept the program"));
    }
    let config = cinit::config::Config { programs };
    let dm = build_dependency_manager(&config).expect("graph must build");
    let cron_input: Vec<(usize, ProcessConfig)> = config
        .programs
        .iter()
        .cloned()
        .enumerate()
        .filter(|(_, p)| matches!(p.process_type, ProcessType::CronJob { .. }))
        .collect();
    let cron = Cron::with_jobs_at(&cron_input, mock_time()).expect("timers must parse");
    Supervisor::new(ProcessMap::from(records), dm, cron)
}

#[test]
fn simple_chain_starts_in_order() {
    let mut sup = build_supervisor(vec![
        oneshot("one", vec!["two"], vec![]),
        oneshot("two", vec![], vec![]),
    ]);

    let first = sup.next_startable().expect("one program must be ready");
    assert_eq!(0, first);
    assert!(sup.can_spawn(first));
    sup.record_spawn(first, 100, 3, 4);
    assert_eq!(None, sup.next_startable());

    let kill = sup.handle_finished_child(100, 0);
    assert_eq!(0, kill.len());
    assert_eq!(ProcessState::Done, sup.process_map.process(0).state);

    let second = sup.next_startable().expect("the dependant must be released");
    assert_eq!(1, second);
    sup.record_spawn(second, 101, 5, 6);
    let _ = sup.handle_finished_child(101, 0);
    assert_eq!(0, sup.exit_code);

    // The stdio descriptors leave the table on hang-up.
    sup.process_map.deregister_fd(3);
    sup.process_map.deregister_fd(4);
    sup.process_map.deregister_fd(5);
    sup.process_map.deregister_fd(6);
    assert!(!sup.has_running_processes());
}

#[test]
fn crash_blocks_dependants_and_sets_exit_code() {
    let mut sup = build_supervisor(vec![
        oneshot("one", vec![], vec![]),
        oneshot("two", vec![], vec!["one"]),
    ]);

    let first = sup.next_startable().expect("one program must be ready");
    assert_eq!(0, first);
    sup.record_spawn(first, 100, 3, 4);

    let _ = sup.handle_finished_child(100, 1);
    assert_eq!(ProcessState::Crashed(1), sup.process_map.process(0).state);
    assert_eq!(CHILD_CRASH_EXIT_CODE, sup.exit_code);
    assert!(!sup.keep_running);
    assert_eq!(ProcessState::Blocked, sup.process_map.process(1).state);
}

#[test]
fn readiness_unblocks_dependants_before_exit() {
    let mut notifier = oneshot("notifier", vec![], vec![]);
    notifier.process_type = ProcessType::Notify;
    let mut sup = build_supervisor(vec![notifier, oneshot("follower", vec![], vec!["notifier"])]);

    let first = sup.next_startable().expect("the notifier must be ready");
    assert_eq!(0, first);
    sup.record_spawn(first, 100, 3, 4);
    assert_eq!(ProcessState::Starting, sup.process_map.process(0).state);
    assert_eq!(None, sup.next_startable());

    sup.process_notification(100, "READY=1\n");
    assert_eq!(ProcessState::Running, sup.process_map.process(0).state);

    let second = sup.next_startable().expect("readiness must release the follower");
    assert_eq!(1, second);
}

#[test]
fn cronjob_fires_and_rearms() {
    let mut job = oneshot("job", vec![], vec![]);
    job.process_type = ProcessType::CronJob {
        timer: "* * * * *".to_owned(),
    };
    let mut sup = build_supervisor(vec![job]);
    while let Some(_) = sup.next_startable() {}

    let tick = DateTime {
        minute: 32,
        ..mock_time()
    };
    let (id, gate) = sup.pop_due_cronjob(tick).expect("the job must be due");
    assert_eq!(0, id);
    assert!(gate);
    assert!(sup.can_spawn(id));
    sup.record_spawn(id, 100, 3, 4);
    assert_eq!(ProcessState::Running, sup.process_map.process(0).state);

    let _ = sup.handle_finished_child(100, 0);
    assert_eq!(ProcessState::Sleeping, sup.process_map.process(0).state);

    let next_tick = DateTime {
        minute: 35,
        ..mock_time()
    };
    let (id2, gate2) = sup.pop_due_cronjob(next_tick).expect("the job must re-arm");
    assert_eq!(0, id2);
    assert!(gate2);
    assert!(sup.can_spawn(id2));
}

#[test]
fn unknown_pid_reaps_silently() {
    let mut sup = build_supervisor(vec![oneshot("one", vec![], vec![])]);
    let kill = sup.handle_finished_child(4242, 1);

    assert_eq!(0, kill.len());
    assert_eq!(0, sup.exit_code);
    assert!(sup.keep_running);
}

#[test]
fn terminate_request_becomes_interrupt() {
    let mut sup = build_supervisor(vec![oneshot("one", vec![], vec![])]);
    let first = sup.next_startable().unwrap();
    sup.record_spawn(first, 100, 3, 4);

    let (signal, pids) = sup.handle_signal(SIGNAL_TERM);

    assert_eq!(SIGNAL_INT, signal);
    assert_eq!(vec![100], pids);
    assert!(!sup.keep_running);
}

#[test]
fn notify_parse_keeps_known_keys() {
    let pairs = parse("READY=1\nSTATUS=loading=now\nNOISE=1\nplain\nMAINPID=42\n");

    assert_eq!(3, pairs.len());
    assert_eq!(("READY".to_owned(), "1".to_owned()), pairs[0]);
    assert_eq!(("STATUS".to_owned(), "loading=now".to_owned()), pairs[1]);
    assert_eq!(("MAINPID".to_owned(), "42".to_owned()), pairs[2]);
}

#[test]
fn notification_updates_status_and_mainpid() {
    let mut notifier = oneshot("notifier", vec![], vec![]);
    notifier.process_type = ProcessType::Notify;
    let mut sup = build_supervisor(vec![notifier]);
    let first = sup.next_startable().unwrap();
    sup.record_spawn(first, 100, 3, 4);

    sup.process_notification(100, "STATUS=warming up\nMAINPID=200\n");

    assert_eq!("warming up", sup.process_map.process(0).status);
    assert_eq!(200, sup.process_map.process(0).pid);
}

#[test]
fn notifications_from_strangers_are_ignored() {
    let mut sup = build_supervisor(vec![oneshot("one", vec![], vec![])]);
    let first = sup.next_startable().unwrap();
    sup.record_spawn(first, 100, 3, 4);

    sup.process_notification(100, "READY=1\n");
    sup.process_notification(4242, "READY=1\n");

    assert_eq!(ProcessState::Running, sup.process_map.process(0).state);
}

#[test]
fn deregistering_unknown_entries_changes_nothing() {
    let mut sup = build_supervisor(vec![oneshot("one", vec![], vec![])]);
    let first = sup.next_startable().unwrap();
    sup.record_spawn(first, 100, 3, 4);

    sup.process_map.deregister_pid(999);
    sup.process_map.deregister_fd(77);

    assert!(sup.process_map.has_running_processes());
    assert_eq!(Some(0), sup.process_map.process_id_for_pid(100));
    assert_eq!(Some(0), sup.process_map.process_for_fd(3));
    assert_eq!(Some(0), sup.process_map.process_for_fd(4));
    assert!(sup.process_map.is_stdout(3));
    assert!(!sup.process_map.is_stdout(4));
}

#[test]
fn rendered_arguments_read_the_environment() {
    let mut program = oneshot("one", vec![], vec![]);
    program.args = vec!["{{ SHELL }}".to_owned(), "plain".to_owned()];
    let no_env: Vec<(String, String)> = vec![];

    let record = Process::from(&program, &no_env).expect("analysis must accept the program");

    assert_eq!("/bin/true", record.args[0]);
    assert_eq!("/bin/sh", record.args[1]);
    assert_eq!("plain", record.args[2]);
}

#[test]
fn notify_sockets_are_forced_for_notify_processes() {
    let mut program = oneshot("one", vec![], vec![]);
    program.process_type = ProcessType::Notify;
    program.env = vec![vec![(
        "NOTIFY_SOCKET".to_owned(),
        Some("/tmp/elsewhere".to_owned()),
    )]];
    let no_env: Vec<(String, String)> = vec![];

    let record = Process::from(&program, &no_env).expect("analysis must accept the program");

    assert!(record
        .env
        .iter()
        .any(|e| e == "NOTIFY_SOCKET=/run/cinit-notify.socket"));
    assert!(!record.env.iter().any(|e| e == "NOTIFY_SOCKET=/tmp/elsewhere"));
}

#[test]
fn missing_path_is_reported() {
    let mut program = ProcessConfig::new("one", vec![], vec![]);
    program.path = None;
    let no_env: Vec<(String, String)> = vec![];

    let result = Process::from(&program, &no_env);

    assert!(matches!(result, Err(cinit::process_builder::Error::PathMissing)));
}

#[test]
fn cronjob_with_dependency_is_reported() {
    let mut program = ProcessConfig::new("one", vec!["other"], vec![]);
    program.process_type = ProcessType::CronJob {
        timer: "* * * * *".to_owned(),
    };
    let no_env: Vec<(String, String)> = vec![];

    let result = Process::from(&program, &no_env);

    assert!(matches!(
        result,
        Err(cinit::process_builder::Error::CronjobDependency)
    ));
}
