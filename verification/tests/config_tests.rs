use cinit::config::Config;
use cinit::config::MergeError;
use cinit::config::ProcessConfig;
use cinit::config::ProcessType;

fn get_default_config(name: &str) -> ProcessConfig {
    ProcessConfig {
        name: name.to_owned(),
        path: Some("test".to_owned()),
        args: vec![],
        workdir: None,
        process_type: ProcessType::Oneshot,
        uid: None,
        gid: None,
        user: None,
        group: None,
        before: vec![],
        after: vec![],
        emulate_pty: false,
        capabilities: vec![],
        env: vec![],
    }
}

#[test]
fn merging_with_two_paths_gives_error() {
    let primary = get_default_config("test");
    let mut dropin = get_default_config("test");
    dropin.path = Some("forbidden".to_owned());

    let output = primary.merge(dropin);

    assert_eq!(Err(MergeError::PathSpecified("test".to_owned())), output);
}

#[test]
fn merging_with_workdir_gives_error() {
    let mut primary = get_default_config("test");
    let mut dropin = get_default_config("test");
    primary.workdir = Some("forbidden".to_owned());
    dropin.workdir = Some("forbidden".to_owned());
    dropin.path = None;

    let output = primary.merge(dropin);

    assert_eq!(
        Err(MergeError::InvalidFieldSpecified(
            "test".to_owned(),
            "workdir".to_owned()
        )),
        output
    );
}

#[test]
fn merging_with_uid_gives_error() {
    let mut primary = get_default_config("test");
    let mut dropin = get_default_config("test");
    primary.uid = Some(1);
    dropin.uid = Some(1);
    dropin.path = None;

    let output = primary.merge(dropin);

    assert_eq!(
        Err(MergeError::InvalidFieldSpecified(
            "test".to_owned(),
            "uid".to_owned()
        )),
        output
    );
}

#[test]
fn merging_with_gid_gives_error() {
    let mut primary = get_default_config("test");
    let mut dropin = get_default_config("test");
    primary.gid = Some(1);
    dropin.gid = Some(1);
    dropin.path = None;

    let output = primary.merge(dropin);

    assert_eq!(
        Err(MergeError::InvalidFieldSpecified(
            "test".to_owned(),
            "gid".to_owned()
        )),
        output
    );
}

#[test]
fn merging_with_user_gives_error() {
    let mut primary = get_default_config("test");
    let mut dropin = get_default_config("test");
    primary.user = Some("forbidden".to_owned());
    dropin.user = Some("forbidden".to_owned());
    dropin.path = None;

    let output = primary.merge(dropin);

    assert_eq!(
        Err(MergeError::InvalidFieldSpecified(
            "test".to_owned(),
            "user".to_owned()
        )),
        output
    );
}

#[test]
fn merging_with_group_gives_error() {
    let mut primary = get_default_config("test");
    let mut dropin = get_default_config("test");
    primary.group = Some("forbidden".to_owned());
    dropin.group = Some("forbidden".to_owned());
    dropin.path = None;

    let output = primary.merge(dropin);

    assert_eq!(
        Err(MergeError::InvalidFieldSpecified(
            "test".to_owned(),
            "group".to_owned()
        )),
        output
    );
}

#[test]
fn merging_with_cronjob_gives_error() {
    let primary = get_default_config("test");
    let mut dropin = get_default_config("test");
    dropin.process_type = ProcessType::CronJob {
        timer: "".to_owned(),
    };
    dropin.path = None;

    let output = primary.merge(dropin);

    assert_eq!(Err(MergeError::CronjobSpecified("test".to_owned())), output);
}

#[test]
fn relevant_lists_are_merged_and_pruned() {
    let list = vec!["1".to_owned(), "2".to_owned()];
    let mut primary = get_default_config("test");
    let mut dropin = get_default_config("test");
    dropin.path = None;
    dropin.before = list.clone();
    dropin.after = list.clone();
    dropin.capabilities = list.clone();
    dropin.args = list.clone();
    dropin.env = vec![vec![]];
    primary.before = list.clone();
    primary.after = list.clone();
    primary.capabilities = list.clone();
    primary.args = list.clone();
    primary.env = vec![vec![]];

    let output = primary.merge(dropin);

    assert!(output.is_ok());
    let merged = output.unwrap();
    assert_eq!(2, merged.env.len());
    assert_eq!(
        vec![
            "1".to_owned(),
            "2".to_owned(),
            "1".to_owned(),
            "2".to_owned()
        ],
        merged.args
    );
    assert_eq!(list, merged.before);
    assert_eq!(list, merged.after);
    assert_eq!(list, merged.capabilities);
}

#[test]
fn args_of_primary_are_kept_first() {
    let mut primary = get_default_config("test");
    let mut dropin = get_default_config("test");
    dropin.path = None;
    dropin.args = vec!["1".to_owned()];
    primary.args = vec!["2".to_owned()];

    let output = primary.merge(dropin);

    assert!(output.is_ok());
    let merged = output.unwrap();
    assert_eq!(vec!["2".to_owned(), "1".to_owned()], merged.args);
}

#[test]
fn args_of_primary_are_kept_first_with_reverse_arguments() {
    let mut primary = get_default_config("test");
    let mut dropin = get_default_config("test");
    dropin.path = None;
    dropin.args = vec!["1".to_owned()];
    primary.args = vec!["2".to_owned()];

    let output = dropin.merge(primary);

    assert!(output.is_ok());
    let merged = output.unwrap();
    assert_eq!(vec!["2".to_owned(), "1".to_owned()], merged.args);
}

#[test]
fn merged_configs_concatenate_programs() {
    let a = Config {
        programs: vec![get_default_config("one")],
    };
    let b = Config {
        programs: vec![get_default_config("two")],
    };

    let merged = a.merge(b);

    assert_eq!(2, merged.programs.len());
    assert_eq!("one", merged.programs[0].name);
    assert_eq!("two", merged.programs[1].name);
}

#[test]
fn dropins_fold_by_name() {
    let mut first = get_default_config("a");
    first.args = vec!["x".to_owned()];
    let mut second = get_default_config("a");
    second.path = None;
    second.args = vec!["y".to_owned()];
    let other = get_default_config("b");
    let config = Config {
        programs: vec![first, other, second],
    };

    let output = cinit::config::merge_dropins(config).unwrap();

    assert_eq!(2, output.programs.len());
    assert_eq!("a", output.programs[0].name);
    assert_eq!(vec!["x".to_owned(), "y".to_owned()], output.programs[0].args);
    assert_eq!("b", output.programs[1].name);
}

#[test]
fn merge_error_messages_name_the_program() {
    let e = MergeError::PathSpecified("prog".to_owned());
    assert_eq!("Duplicate program found for name prog", e.message());
    let e = MergeError::InvalidFieldSpecified("prog".to_owned(), "uid".to_owned());
    assert_eq!(
        "Configuration drop-in for prog contains duplicate field uid",
        e.message()
    );
    let e = MergeError::CronjobSpecified("prog".to_owned());
    assert_eq!("Configuration drop-in for prog changes type to cronjob", e.message());
}
