use cinit::config::ProcessConfig;
use cinit::config::ProcessType;
use cinit::cron::Cron;
use cinit::cronjob::TimerDescription;
use cinit::cronjob::parse_element;
use cinit::datetime::DateTime;

#[test]
fn parse_star() {
    let result = parse_element(Some("*"), 5, 8);

    assert!(result.is_ok());
    let map = result.unwrap();
    assert_eq!(4, map.len());
    assert!(map.contains(&5));
    assert!(map.contains(&6));
    assert!(map.contains(&7));
    assert!(map.contains(&8));
}

#[test]
fn parse_single_number() {
    let result = parse_element(Some("4"), 0, 99);

    assert!(result.is_ok());
    let map = result.unwrap();
    assert_eq!(1, map.len());
    assert!(map.contains(&4));
}

#[test]
fn parse_interval() {
    let result = parse_element(Some("4-6"), 0, 99);

    assert!(result.is_ok());
    let map = result.unwrap();
    assert_eq!(3, map.len());
    assert!(map.contains(&4));
    assert!(map.contains(&5));
    assert!(map.contains(&6));
}

#[test]
fn parse_interval_with_stepping() {
    let result = parse_element(Some("1-15/3"), 0, 99);

    assert!(result.is_ok());
    let map = result.unwrap();
    assert_eq!(5, map.len());
    assert!(map.contains(&1));
    assert!(map.contains(&4));
    assert!(map.contains(&7));
    assert!(map.contains(&10));
    assert!(map.contains(&13));
}

#[test]
fn parse_star_with_stepping() {
    let result = parse_element(Some("*/3"), 0, 11);

    assert!(result.is_ok());
    let map = result.unwrap();
    assert_eq!(4, map.len());
    assert!(map.contains(&0));
    assert!(map.contains(&3));
    assert!(map.contains(&6));
    assert!(map.contains(&9));
}

#[test]
fn parse_enum() {
    let result = parse_element(Some("4,8,16,32,64"), 0, 99);

    assert!(result.is_ok());
    let map = result.unwrap();
    assert_eq!(5, map.len());
    assert!(map.contains(&4));
    assert!(map.contains(&8));
    assert!(map.contains(&16));
    assert!(map.contains(&32));
    assert!(map.contains(&64));
}

#[test]
fn parse_two_intervals() {
    let result = parse_element(Some("4-6,44-46"), 0, 99);

    assert!(result.is_ok());
    let map = result.unwrap();
    assert_eq!(6, map.len());
    assert!(map.contains(&4));
    assert!(map.contains(&5));
    assert!(map.contains(&4));
    assert!(map.contains(&44));
    assert!(map.contains(&45));
    assert!(map.contains(&46));
}

#[test]
fn parse_complex() {
    let result = parse_element(Some("4,77,44-46,3,95-99"), 0, 99);

    assert!(result.is_ok());
    let map = result.unwrap();
    assert_eq!(11, map.len());
    assert!(map.contains(&3));
    assert!(map.contains(&4));
    assert!(map.contains(&44));
    assert!(map.contains(&45));
    assert!(map.contains(&46));
    assert!(map.contains(&77));
    assert!(map.contains(&95));
    assert!(map.contains(&96));
    assert!(map.contains(&97));
    assert!(map.contains(&98));
    assert!(map.contains(&99));
}

#[test]
fn parse_none() {
    let result = parse_element(None, 0, 99);

    assert!(result.is_err());
    let message = result.unwrap_err();
    assert_eq!("Incomplete timer spec", message);
}

#[test]
fn parse_empty() {
    let result = parse_element(Some(""), 0, 99);

    assert!(result.is_err());
    let message = result.unwrap_err();
    assert_eq!("Incomplete timer spec", message);
}

#[test]
fn parse_out_of_range() {
    let result = parse_element(Some("4"), 0, 3);

    assert!(result.is_err());
    let message = result.unwrap_err();
    assert_eq!("Invalid range in timer spec", message);
}

#[test]
fn parse_invalid_interval() {
    let result = parse_element(Some("4-3"), 0, 99);

    assert!(result.is_err());
    let message = result.unwrap_err();
    assert_eq!("Interval end < begin", message);
}

#[test]
fn parse_interval_out_of_range_right_overlap() {
    let result = parse_element(Some("2-4"), 0, 3);

    assert!(result.is_err());
    let message = result.unwrap_err();
    assert_eq!("Invalid range in timer spec", message);
}

#[test]
fn parse_interval_out_of_range_complete_right() {
    let result = parse_element(Some("4-5"), 0, 3);

    assert!(result.is_err());
    let message = result.unwrap_err();
    assert_eq!("Invalid range in timer spec", message);
}

#[test]
fn parse_interval_out_of_range_left_overlap() {
    let result = parse_element(Some("4-6"), 5, 7);

    assert!(result.is_err());
    let message = result.unwrap_err();
    assert_eq!("Invalid range in timer spec", message);
}

#[test]
fn parse_interval_out_of_range_complete_left() {
    let result = parse_element(Some("3-4"), 5, 7);

    assert!(result.is_err());
    let message = result.unwrap_err();
    assert_eq!("Invalid range in timer spec", message);
}

#[test]
fn parse_invalid_range() {
    let result = parse_element(Some("*"), 9, 7);

    assert!(result.is_err());
    let message = result.unwrap_err();
    assert_eq!("Invalid range given", message);
}

#[test]
fn parse_invalid_digit() {
    let result = parse_element(Some("a"), 0, 99);

    assert!(result.is_err());
    let message = result.unwrap_err();
    assert_eq!("Invalid number", message);
}

#[test]
fn parse_invalid_digit_in_interval() {
    let result = parse_element(Some("5-a"), 0, 99);

    assert!(result.is_err());
    let message = result.unwrap_err();
    assert_eq!("Invalid number in end of interval", message);
}

#[test]
fn parse_invalid_interval_with_stepping() {
    let result = parse_element(Some("1-15/x"), 0, 99);

    assert!(result.is_err());
    let message = result.unwrap_err();
    assert_eq!("Invalid step number", message);
}

#[test]
fn parse_invalid_digit_in_enum() {
    let result = parse_element(Some("5,a"), 0, 99);

    assert!(result.is_err());
    let message = result.unwrap_err();
    assert_eq!("Invalid number", message);
}

#[test]
fn parse_entire_cron_expression() {
    let result = TimerDescription::parse("1 2 3 4 5");

    assert!(result.is_ok());
    let timer = result.unwrap();
    assert_eq!(1, timer.minute.len());
    assert!(timer.minute.contains(&1));
    assert_eq!(1, timer.hour.len());
    assert!(timer.hour.contains(&2));
    assert_eq!(1, timer.day.len());
    assert!(timer.day.contains(&3));
    assert_eq!(1, timer.month.len());
    assert!(timer.month.contains(&4));
    assert_eq!(1, timer.weekday.len());
    assert!(timer.weekday.contains(&5));
}

#[test]
fn parse_entire_cron_expression_with_whitespace() {
    let result = TimerDescription::parse("1 \n2 \t3   4   5");

    assert!(result.is_ok());
    let timer = result.unwrap();
    assert_eq!(1, timer.minute.len());
    assert!(timer.minute.contains(&1));
    assert_eq!(1, timer.hour.len());
    assert!(timer.hour.contains(&2));
    assert_eq!(1, timer.day.len());
    assert!(timer.day.contains(&3));
    assert_eq!(1, timer.month.len());
    assert!(timer.month.contains(&4));
    assert_eq!(1, timer.weekday.len());
    assert!(timer.weekday.contains(&5));
}

#[test]
fn parse_too_short_expr() {
    let result = TimerDescription::parse("1 2 3 4");

    assert!(result.is_err());
    let message = result.unwrap_err();
    assert_eq!("Incomplete timer spec", message);
}

#[test]
fn parse_too_long_expr() {
    let result = TimerDescription::parse("1 2 3 4 5 6");

    assert!(result.is_err());
    let message = result.unwrap_err();
    assert_eq!("Too many timer specs", message);
}

// 1970-06-15T12:30:00 local, a Monday.
fn mock_time() -> DateTime {
    DateTime {
        year: 1970,
        month: 6,
        day: 15,
        hour: 12,
        minute: 30,
        second: 0,
        nanosecond: 0,
        weekday: 1,
    }
}

fn at(year: i64, month: u32, day: u32, hour: u32, minute: u32, weekday: u32) -> DateTime {
    DateTime {
        year,
        month,
        day,
        hour,
        minute,
        second: 0,
        nanosecond: 0,
        weekday,
    }
}

#[test]
fn advance_by_one_minute() {
    let uut = TimerDescription::parse("* * * * *");

    let result = uut.unwrap().get_next_execution(mock_time());

    assert_eq!(at(1970, 6, 15, 12, 31, 1), result);
}

#[test]
fn advance_by_two_minutes() {
    let uut = TimerDescription::parse("32 * * * *");

    let result = uut.unwrap().get_next_execution(mock_time());

    assert_eq!(at(1970, 6, 15, 12, 32, 1), result);
}

#[test]
fn advance_wrap_around_minutes() {
    let uut = TimerDescription::parse("29 * * * *");

    let result = uut.unwrap().get_next_execution(mock_time());

    assert_eq!(at(1970, 6, 15, 13, 29, 1), result);
}

#[test]
fn advance_by_one_hour() {
    let uut = TimerDescription::parse("30 * * * *");

    let result = uut.unwrap().get_next_execution(mock_time());

    assert_eq!(at(1970, 6, 15, 13, 30, 1), result);
}

#[test]
fn advance_by_two_hours() {
    let uut = TimerDescription::parse("30 14 * * *");

    let result = uut.unwrap().get_next_execution(mock_time());

    assert_eq!(at(1970, 6, 15, 14, 30, 1), result);
}

#[test]
fn advance_wrap_around_hours() {
    let uut = TimerDescription::parse("30 11 * * *");

    let result = uut.unwrap().get_next_execution(mock_time());

    assert_eq!(at(1970, 6, 16, 11, 30, 2), result);
}

#[test]
fn advance_by_one_day() {
    let uut = TimerDescription::parse("30 12 * * *");

    let result = uut.unwrap().get_next_execution(mock_time());

    assert_eq!(at(1970, 6, 16, 12, 30, 2), result);
}

#[test]
fn advance_by_two_days() {
    let uut = TimerDescription::parse("30 12 17 * *");

    let result = uut.unwrap().get_next_execution(mock_time());

    assert_eq!(at(1970, 6, 17, 12, 30, 3), result);
}

#[test]
fn advance_wrap_around_days() {
    let uut = TimerDescription::parse("30 12 14 * *");

    let result = uut.unwrap().get_next_execution(mock_time());

    assert_eq!(at(1970, 7, 14, 12, 30, 2), result);
}

#[test]
fn advance_by_one_month() {
    let uut = TimerDescription::parse("30 12 15 * *");

    let result = uut.unwrap().get_next_execution(mock_time());

    assert_eq!(at(1970, 7, 15, 12, 30, 3), result);
}

#[test]
fn advance_by_two_months() {
    let uut = TimerDescription::parse("30 12 15 8 *");

    let result = uut.unwrap().get_next_execution(mock_time());

    assert_eq!(at(1970, 8, 15, 12, 30, 6), result);
}

#[test]
fn advance_wrap_around_months() {
    let uut = TimerDescription::parse("30 12 15 6 *");

    let result = uut.unwrap().get_next_execution(mock_time());

    assert_eq!(at(1971, 6, 15, 12, 30, 2), result);
}

#[test]
fn advance_by_one_weekday() {
    let uut = TimerDescription::parse("30 12 * * 2");

    let result = uut.unwrap().get_next_execution(mock_time());

    assert_eq!(at(1970, 6, 16, 12, 30, 2), result);
}

#[test]
fn advance_by_two_weekdays() {
    let uut = TimerDescription::parse("30 12 * * 3");

    let result = uut.unwrap().get_next_execution(mock_time());

    assert_eq!(at(1970, 6, 17, 12, 30, 3), result);
}

#[test]
fn advance_wrap_around_weekdays() {
    let uut = TimerDescription::parse("30 12 * * 0");

    let result = uut.unwrap().get_next_execution(mock_time());

    assert_eq!(at(1970, 6, 21, 12, 30, 0), result);
}

#[test]
fn advance_with_weekday_taking_precedence() {
    let uut = TimerDescription::parse("30 12 17 6 2");

    let result = uut.unwrap().get_next_execution(mock_time());

    assert_eq!(at(1970, 6, 16, 12, 30, 2), result);
}

#[test]
fn advance_with_date_taking_precedence() {
    let uut = TimerDescription::parse("30 12 16 6 3");

    let result = uut.unwrap().get_next_execution(mock_time());

    assert_eq!(at(1970, 6, 16, 12, 30, 2), result);
}

#[test]
fn full_domain_interval_matches_wildcard() {
    let explicit = TimerDescription::parse("0-59 * * * *").unwrap();
    let wildcard = TimerDescription::parse("* * * * *").unwrap();

    assert_eq!(explicit.minute, wildcard.minute);
    assert_eq!(explicit.hour, wildcard.hour);
    assert_eq!(explicit.day, wildcard.day);
    assert_eq!(explicit.month, wildcard.month);
    assert_eq!(explicit.weekday, wildcard.weekday);
    assert_eq!(
        explicit.get_next_execution(mock_time()),
        wildcard.get_next_execution(mock_time())
    );
}

fn cron_pair() -> Vec<(usize, ProcessConfig)> {
    let mut one = ProcessConfig::new("first", vec![], vec![]);
    one.process_type = ProcessType::CronJob {
        timer: "* * * * *".to_owned(),
    };
    let mut two = ProcessConfig::new("second", vec![], vec![]);
    two.process_type = ProcessType::CronJob {
        timer: "* * * * *".to_owned(),
    };
    vec![(1, one), (2, two)]
}

#[test]
fn cronjobs_at_same_time_are_both_executed() {
    // Both jobs land on the same minute; the second is nudged by a
    // nanosecond instead of being lost.
    let mut cron = Cron::with_jobs_at(&cron_pair(), mock_time()).expect("jobs must schedule");
    assert_eq!(2, cron.scheduled_len());

    let later = at(1970, 6, 15, 12, 33, 1);
    let first = cron.pop_runnable(later).expect("Job is missing");
    let second = cron.pop_runnable(later).expect("Job is missing");

    assert!(first == 1 || first == 2);
    assert!(second == 1 || second == 2);
    assert_ne!(first, second);
    assert_eq!(2, cron.scheduled_len());
}

#[test]
fn idle_scheduler_offers_nothing_early() {
    let mut cron = Cron::with_jobs_at(&cron_pair(), mock_time()).expect("jobs must schedule");

    assert_eq!(None, cron.pop_runnable(mock_time()));
    assert_eq!(2, cron.scheduled_len());
}

#[test]
fn bad_timer_reports_program_id() {
    let mut one = ProcessConfig::new("first", vec![], vec![]);
    one.process_type = ProcessType::CronJob {
        timer: "61 * * * *".to_owned(),
    };

    let result = Cron::with_jobs_at(&vec![(7, one)], mock_time());

    match result {
        Err(cinit::cron::Error::TimeParseError(message, id)) => {
            assert_eq!(7, id);
            assert_eq!("Invalid range in timer spec", message);
        }
        Ok(_) => panic!("expected a parse failure"),
    }
}

#[test]
fn printed_fields_parse_back() {
    let values = vec![3, 4, 44, 45];
    let printed = cinit::cronjob::format_element(&values);
    assert_eq!("3,4,44,45", printed);

    let parsed = parse_element(Some(&printed), 0, 99).unwrap();
    assert_eq!(values, parsed);

    // Duplicates and order collapse into the same explicit set.
    let printed = cinit::cronjob::format_element(&vec![5, 3, 5]);
    assert_eq!("5,3,5", printed);
    let parsed = parse_element(Some(&printed), 0, 99).unwrap();
    assert_eq!(vec![3, 5], parsed);
}
