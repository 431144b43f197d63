use commit_clock::clock::{
    am_pm_of, am_pm_suffix, day_month_of, display_hour, format_day_month, format_time,
    format_time_of, format_year, two_digit, year_text, HourFormat, LocalTime, TimeFormat,
};

fn at(hour: u32, minute: u32, second: u32) -> LocalTime {
    LocalTime { year: 2024, month: 3, day: 7, hour, minute, second, timestamp: 0 }
}

#[test]
fn two_digit_padding() {
    assert_eq!(two_digit(7), "07");
    assert_eq!(two_digit(0), "00");
    assert_eq!(two_digit(42), "42");
    assert_eq!(two_digit(123), "123");
}

#[test]
fn twelve_hour_clock() {
    assert_eq!(display_hour(HourFormat::H12, 0), 12);
    assert_eq!(display_hour(HourFormat::H12, 12), 12);
    assert_eq!(display_hour(HourFormat::H12, 13), 1);
    assert_eq!(display_hour(HourFormat::H24, 13), 13);
    assert_eq!(display_hour(HourFormat::H24, 0), 0);
}

#[test]
fn time_texts() {
    let t = at(9, 5, 3);
    assert_eq!(format_time_of(HourFormat::H24, TimeFormat::HhMmSs, &t), "09:05:03");
    assert_eq!(format_time_of(HourFormat::H24, TimeFormat::HhMm, &t), "09:05");
    assert_eq!(format_time_of(HourFormat::H24, TimeFormat::MmSs, &t), "05:03");
    assert_eq!(format_time_of(HourFormat::H24, TimeFormat::IsoTime, &t), "09:05:03");
    let pm = at(23, 59, 59);
    assert_eq!(format_time_of(HourFormat::H12, TimeFormat::HhMmSs, &pm), "11:59:59");
    let midnight = at(0, 0, 0);
    assert_eq!(format_time_of(HourFormat::H12, TimeFormat::HhMm, &midnight), "12:00");
}

#[test]
fn am_and_pm() {
    assert_eq!(am_pm_of(HourFormat::H24, 15), None);
    assert_eq!(am_pm_of(HourFormat::H12, 0).as_deref(), Some("AM"));
    assert_eq!(am_pm_of(HourFormat::H12, 11).as_deref(), Some("AM"));
    assert_eq!(am_pm_of(HourFormat::H12, 12).as_deref(), Some("PM"));
    assert_eq!(am_pm_of(HourFormat::H12, 23).as_deref(), Some("PM"));
    assert_eq!(am_pm_suffix(HourFormat::H24), None);
}

#[test]
fn years() {
    assert_eq!(year_text(2024), "2024");
    assert_eq!(year_text(0), "0");
    assert_eq!(year_text(-44), "-44");
    assert_eq!(year_text(i32::MIN), i32::MIN.to_string());
    assert_eq!(year_text(i32::MAX), i32::MAX.to_string());
}

#[test]
fn days_and_months() {
    assert_eq!(day_month_of(7, 3), "07MAR");
    assert_eq!(day_month_of(31, 12), "31DEC");
    assert_eq!(day_month_of(1, 1), "01JAN");
    assert_eq!(day_month_of(15, 9), "15SEP");
    assert_eq!(day_month_of(2, 13), "02DEC");
}

#[test]
fn current_time_has_the_clock_shape() {
    let t = format_time(HourFormat::H24, TimeFormat::HhMmSs);
    let b = t.as_bytes();
    assert_eq!(b.len(), 8);
    assert_eq!((b[2], b[5]), (b':', b':'));
    let h: u32 = t[0..2].parse().unwrap();
    let m: u32 = t[3..5].parse().unwrap();
    let s: u32 = t[6..8].parse().unwrap();
    assert!(h < 24 && m < 60 && s < 60);
    let t12 = format_time(HourFormat::H12, TimeFormat::HhMm);
    let h12: u32 = t12[0..2].parse().unwrap();
    assert!((1..=12).contains(&h12));
    let suffix = am_pm_suffix(HourFormat::H12).unwrap();
    assert!(suffix == "AM" || suffix == "PM");
}

#[test]
fn current_date_texts() {
    let y = format_year();
    assert!(y.parse::<i32>().is_ok());
    assert!(y.parse::<i32>().unwrap() >= 2020);
    let dm = format_day_month();
    assert_eq!(dm.len(), 5);
    let d: u32 = dm[0..2].parse().unwrap();
    assert!((1..=31).contains(&d));
    let months = ["JAN", "FEB", "MAR", "APR", "MAY", "JUN", "JUL", "AUG", "SEP", "OCT", "NOV", "DEC"];
    assert!(months.contains(&&dm[2..]));
}
