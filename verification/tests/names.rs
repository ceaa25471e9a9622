use kvs::names::{log_path, parse_log_name, sorted_gen_list};

#[test]
fn log_path_is_the_generation_in_decimal_and_the_suffix() {
    assert_eq!(log_path(0), "0.log");
    assert_eq!(log_path(7), "7.log");
    assert_eq!(log_path(10), "10.log");
    assert_eq!(log_path(1234567890), "1234567890.log");
    assert_eq!(log_path(u64::MAX), "18446744073709551615.log");
}

#[test]
fn parse_log_name_reads_what_log_path_writes() {
    for gen in [0u64, 1, 9, 10, 99, 100, 4096, u64::MAX - 1, u64::MAX] {
        assert_eq!(parse_log_name(&log_path(gen)), Some(gen));
    }
}

#[test]
fn parse_log_name_refuses_other_names() {
    for name in [
        "", ".log", "log", "1", "1.txt", "1.log.log", "01.log", "+1.log", "-1.log", " 1.log",
        "1 .log", "1.LOG", "a.log", "1a.log", "engine", "18446744073709551616.log",
        "99999999999999999999999.log", "\u{661}.log", "1.lo\u{261}",
    ] {
        assert_eq!(parse_log_name(name), None);
    }
}

#[test]
fn sorted_gen_list_picks_the_segments_and_sorts_them() {
    let names: Vec<String> =
        ["3.log", "engine", "1.log", "10.log", "2.txt", "02.log", "1.log"].iter().map(
            |s| s.to_string(),
        ).collect();
    assert_eq!(sorted_gen_list(&names), vec![1, 1, 3, 10]);
    assert_eq!(sorted_gen_list(&Vec::new()), Vec::<u64>::new());
}
