use s2e::calendar::{
    civil, day_later, day_number, day_written, shift_date, window, ymd, Date, ShiftError,
};

#[test]
fn days_have_dates() {
    assert_eq!(ymd(0), "1970-01-01");
    assert_eq!(ymd(-1), "1969-12-31");
    assert_eq!(ymd(59), "1970-03-01");
    assert_eq!(ymd(11016), "2000-02-29");
    assert_eq!(ymd(19782), "2024-02-29");
    assert_eq!(ymd(20607), "2026-06-03");
    assert_eq!(ymd(-25509), "1900-02-28");
    assert_eq!(ymd(-25508), "1900-03-01");
    assert_eq!(ymd(-719528), "0000-01-01");
    assert_eq!(ymd(-719529), "-001-12-31");
    assert_eq!(ymd(2932897), "10000-01-01");
    assert_eq!(civil(19782), Date { year: 2024, month: 2, day: 29 });
}

#[test]
fn consecutive_days_have_consecutive_dates() {
    let mut last = civil(-800_000);
    for n in -799_999..-700_000 {
        let d = civil(n);
        let next_day = d.day == last.day + 1 && d.month == last.month && d.year == last.year;
        let next_month = d.day == 1 && d.month == last.month + 1 && d.year == last.year;
        let next_year = d.day == 1 && d.month == 1 && last.month == 12 && d.year == last.year + 1;
        assert!(next_day || next_month || next_year);
        last = d;
    }
}

#[test]
fn a_window_defaults_to_half_a_year() {
    let w = window(&None, &None, 20607);
    assert_eq!(w, ("2025-12-02".to_string(), "2026-06-03".to_string()));
    let w = window(&Some("a".to_string()), &Some("b".to_string()), 20607);
    assert_eq!(w, ("a".to_string(), "b".to_string()));
}

fn shifted(date: &str, days: i64) -> String {
    match shift_date(date, days) {
        Ok(d) => d,
        Err(_) => panic!("not shifted"),
    }
}

#[test]
fn dates_shift_by_days() {
    assert_eq!(shifted("2026-01-01", -1), "2025-12-31");
    assert_eq!(shifted("2024-02-28", 1), "2024-02-29");
    assert_eq!(shifted("2026-06-03", 0), "2026-06-03");
    assert_eq!(shifted("2026-6-3", 0), "2026-06-03");
    assert_eq!(shifted("9999-12-31", 1), "+10000-01-01");
    assert_eq!(shifted("+10000-01-01", -1), "9999-12-31");
    assert_eq!(shifted("0000-01-01", -1), "-0001-12-31");
    for n in [-400, -31, 1, 60, 365] {
        assert_eq!(shifted(&shifted("2026-06-03", n), -n), "2026-06-03");
    }
}

#[test]
fn a_date_that_cannot_be_read_is_named() {
    match shift_date("yesterday", 1) {
        Err(ShiftError::Unread(m)) => {
            assert_eq!(m, "date yesterday: input contains invalid characters")
        }
        _ => panic!("shifted"),
    }
    match shift_date("2026-02-30", 1) {
        Err(ShiftError::Unread(m)) => {
            assert_eq!(m, "date 2026-02-30: input is out of range")
        }
        _ => panic!("shifted"),
    }
}

#[test]
fn the_calendar_ends() {
    assert!(matches!(shift_date("2026-01-01", i64::MAX), Err(ShiftError::OutOfRange)));
    assert!(matches!(shift_date("2026-01-01", i64::MIN), Err(ShiftError::OutOfRange)));
    assert!(matches!(shift_date("2026-01-01", 100_000_000), Err(ShiftError::OutOfRange)));
    assert_eq!(day_written(100_000_000), None);
    assert_eq!(day_later(20607, -1).as_deref(), Some("2026-06-02"));
    assert_eq!(day_later(20607, i64::MAX), None);
    // the first and the last day that can be written
    assert_eq!(day_written(day_number("+262142-12-31").unwrap()).unwrap(), "+262142-12-31");
    assert_eq!(day_written(day_number("+262142-12-31").unwrap() + 1), None);
    assert_eq!(day_written(day_number("-262143-01-01").unwrap()).unwrap(), "-262143-01-01");
    assert_eq!(day_written(day_number("-262143-01-01").unwrap() - 1), None);
}

#[test]
fn days_count_as_dates_do() {
    assert_eq!(day_number("1970-01-01"), Ok(0));
    assert_eq!(day_number("2026-06-03"), Ok(20607));
    for n in [-719_528, -1, 0, 20607, 2_932_896] {
        assert_eq!(day_written(n).unwrap(), ymd(n));
        assert_eq!(day_number(&ymd(n)), Ok(n));
    }
    assert!(ymd(20607) < ymd(20608) && ymd(20453) < ymd(20607) && ymd(-1) < ymd(0));
}
