use stakker::log::{LogFilter, LogLevel, LogLevelError};

fn check_conv(level: LogLevel, s1: &str, s2: &str, s3: &str) {
    assert_eq!(Ok(level), LogLevel::from_str(s1));
    assert_eq!(Ok(level), LogLevel::from_str(s2));
    assert_eq!(Ok(level), LogLevel::from_str(s3));
    assert_eq!(level.to_string(), s2);
    assert_eq!(level.name(), s2);
}

#[test]
fn loglevels() {
    check_conv(LogLevel::Trace, "trace", "TRACE", "Trace");
    check_conv(LogLevel::Debug, "debug", "DEBUG", "Debug");
    check_conv(LogLevel::Info, "info", "INFO", "Info");
    check_conv(LogLevel::Warn, "warn", "WARN", "Warn");
    check_conv(LogLevel::Error, "error", "ERROR", "Error");
    check_conv(LogLevel::Off, "off", "OFF", "Off");
    check_conv(LogLevel::Audit, "audit", "AUDIT", "Audit");
    check_conv(LogLevel::Open, "open", "OPEN", "Open");
    check_conv(LogLevel::Close, "close", "CLOSE", "Close");

    assert_eq!(Err(LogLevelError), LogLevel::from_str("zzzzz"));
    assert_eq!(LogLevelError.to_string(), "invalid logging level");

    for level in LogLevel::all_levels() {
        assert_eq!(LogLevel::from_str(level.name()), Ok(*level));
    }
}

fn check_filter(level: LogLevel, expect: &str) {
    assert_eq!(LogFilter::from(level).to_string(), expect);
}

fn check_fromstr(input: &str, expect: &str) {
    assert_eq!(LogFilter::from_str(input).unwrap().to_string(), expect);
}

fn check_all(all: &[LogLevel], expect: &str) {
    assert_eq!(LogFilter::all(all).to_string(), expect);
}

#[test]
fn logfilter() {
    check_filter(LogLevel::Trace, "LogFilter(TRACE,DEBUG,INFO,WARN,ERROR)");
    check_filter(LogLevel::Debug, "LogFilter(DEBUG,INFO,WARN,ERROR)");
    check_filter(LogLevel::Info, "LogFilter(INFO,WARN,ERROR)");
    check_filter(LogLevel::Warn, "LogFilter(WARN,ERROR)");
    check_filter(LogLevel::Error, "LogFilter(ERROR)");
    check_filter(LogLevel::Off, "LogFilter()");
    check_filter(LogLevel::Audit, "LogFilter(AUDIT)");
    check_filter(LogLevel::Open, "LogFilter(OPEN,CLOSE)");
    check_filter(LogLevel::Close, "LogFilter(OPEN,CLOSE)");

    check_fromstr("warn", "LogFilter(WARN,ERROR)");
    check_fromstr("info,audit", "LogFilter(INFO,WARN,ERROR,AUDIT)");
    check_fromstr("error,open,audit", "LogFilter(ERROR,AUDIT,OPEN,CLOSE)");

    check_all(&[LogLevel::Warn], "LogFilter(WARN,ERROR)");
    check_all(
        &[LogLevel::Info, LogLevel::Audit],
        "LogFilter(INFO,WARN,ERROR,AUDIT)",
    );
    check_all(
        &[LogLevel::Error, LogLevel::Open, LogLevel::Audit],
        "LogFilter(ERROR,AUDIT,OPEN,CLOSE)",
    );

    assert_eq!(
        LogFilter::new() | LogFilter::from(LogLevel::Audit) | LogFilter::from(LogLevel::Error),
        LogFilter::from_str("audit,error").unwrap()
    );

    assert_eq!(true, LogFilter::new().is_empty());
    assert_eq!(false, LogFilter::from(LogLevel::Audit).is_empty());
}

#[test]
fn level_parse_ignores_surrounding_white_space() {
    assert_eq!(Ok(LogLevel::Warn), LogLevel::from_str("  wArN\t"));
    assert_eq!(Ok(LogLevel::Open), LogLevel::from_str("\u{a0}open\u{3000}"));
    assert_eq!(Err(LogLevelError), LogLevel::from_str(""));
    assert_eq!(Err(LogLevelError), LogLevel::from_str("war n"));
    assert_eq!(Err(LogLevelError), LogLevel::from_str("offf"));
}

#[test]
fn filter_parse_errors() {
    assert_eq!(Err(LogLevelError), LogFilter::from_str(""));
    assert_eq!(Err(LogLevelError), LogFilter::from_str("warn,"));
    assert_eq!(Err(LogLevelError), LogFilter::from_str("warn,bogus,info"));
    assert_eq!(
        LogFilter::from_str(" info , audit ").unwrap().to_string(),
        "LogFilter(INFO,WARN,ERROR,AUDIT)"
    );
}

#[test]
fn filter_allows_and_union() {
    let f = LogFilter::from(LogLevel::Info);
    assert!(!f.allows(LogLevel::Trace));
    assert!(!f.allows(LogLevel::Debug));
    assert!(f.allows(LogLevel::Info));
    assert!(f.allows(LogLevel::Error));
    assert!(!f.allows(LogLevel::Audit));
    assert!(!f.allows(LogLevel::Off));
    let mut g = LogFilter::default();
    assert!(g.is_empty());
    g |= LogFilter::from(LogLevel::Close);
    assert!(g.allows(LogLevel::Open));
    assert!(g.allows(LogLevel::Close));
    assert_eq!((f | g).to_string(), "LogFilter(INFO,WARN,ERROR,OPEN,CLOSE)");
    assert!(LogFilter::from(LogLevel::Off).is_empty());
}

#[test]
fn level_numbers_are_filter_bits() {
    assert_eq!(LogLevel::Trace as u32, 0);
    assert_eq!(LogLevel::Error as u32, 4);
    assert_eq!(LogLevel::Audit as u32, 5);
    assert_eq!(LogLevel::Open as u32, 6);
    assert_eq!(LogLevel::Close as u32, 7);
    assert_eq!(LogLevel::Off as u32, 8);
    for level in LogLevel::all_levels() {
        let f = LogFilter::from(*level);
        if !f.is_empty() && *level != LogLevel::Open && *level != LogLevel::Close {
            assert!(f.allows(*level));
        }
    }
}
