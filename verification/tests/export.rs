use chord_tool::export::{export_filename, LocalTime, PROGRESSIONS_DIR};
use chrono::{Datelike, Local, TimeZone, Timelike};

/// Local time as chrono gives it.
fn local(year: i32, month: u32, day: u32, hour: u32, minute: u32, second: u32) -> LocalTime {
    let now = Local.with_ymd_and_hms(year, month, day, hour, minute, second).unwrap();
    LocalTime {
        year: now.year(),
        month: now.month(),
        day: now.day(),
        hour: now.hour(),
        minute: now.minute(),
        second: now.second(),
        nanosecond: now.nanosecond(),
    }
}

#[test]
fn filename_is_a_local_timestamp() {
    let now = local(2026, 9, 23, 18, 3, 45);
    assert_eq!(export_filename(now), "progression-2026-09-23_18-03-45.mid");
}

#[test]
fn filename_zero_pads_every_field() {
    let now = local(2026, 1, 2, 3, 4, 5);
    assert_eq!(export_filename(now), "progression-2026-01-02_03-04-05.mid");
}

#[test]
fn a_year_of_other_than_four_digits_has_its_own_form() {
    let now = local(2026, 1, 2, 3, 4, 5);
    assert_eq!(
        export_filename(LocalTime { year: 12345, ..now }),
        "progression-+12345-01-02_03-04-05.mid"
    );
    assert_eq!(
        export_filename(LocalTime { year: 7, ..now }),
        "progression-0007-01-02_03-04-05.mid"
    );
    assert_eq!(
        export_filename(LocalTime { year: -7, ..now }),
        "progression--0007-01-02_03-04-05.mid"
    );
}

#[test]
fn a_leap_second_is_second_60() {
    let now = LocalTime {
        year: 2016,
        month: 12,
        day: 31,
        hour: 23,
        minute: 59,
        second: 59,
        nanosecond: 1_500_000_000,
    };
    assert_eq!(export_filename(now), "progression-2016-12-31_23-59-60.mid");
    assert_eq!(
        export_filename(LocalTime { nanosecond: 999_999_999, ..now }),
        "progression-2016-12-31_23-59-59.mid"
    );
}

#[test]
fn later_exports_sort_after_earlier_ones() {
    let moments = [
        local(2026, 1, 2, 3, 4, 5),
        local(2026, 1, 2, 3, 4, 6),
        local(2026, 1, 2, 3, 10, 0),
        local(2026, 1, 11, 0, 0, 0),
        local(2026, 10, 1, 0, 0, 0),
        local(2027, 1, 1, 0, 0, 0),
    ];
    for pair in moments.windows(2) {
        assert!(export_filename(pair[0]) < export_filename(pair[1]));
    }
}

#[test]
fn exports_have_a_directory_of_their_own() {
    assert_eq!(PROGRESSIONS_DIR, "progressions");
}
