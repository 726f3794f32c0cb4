use chrono::{TimeZone, Utc};
use ravito_gpx::clock::{LocalTime, Weekday};
use ravito_gpx::hours::{
    intervals_status, parse_day, parse_days, parse_hm, parse_interval, rule_status,
    split_days_times, status_at, Openness,
};

fn t(y: i32, mo: u32, d: u32, h: u32, mi: u32) -> LocalTime {
    LocalTime::utc(Utc.with_ymd_and_hms(y, mo, d, h, mi, 0).unwrap().timestamp())
}

fn at(weekday: Weekday, hour: u32, minute: u32) -> LocalTime {
    LocalTime { weekday, hour, minute }
}

#[test]
fn open_weekday() {
    // 2026-04-24 is a Friday.
    let o = status_at("Mo-Fr 07:00-19:00", &t(2026, 4, 24, 10, 0));
    assert_eq!(o, Openness::Open);
}

#[test]
fn closed_saturday() {
    // 2026-04-25 is a Saturday.
    let o = status_at("Mo-Fr 07:00-19:00", &t(2026, 4, 25, 10, 0));
    assert_eq!(o, Openness::Closed);
}

#[test]
fn split_intervals() {
    let o = status_at("Mo-Sa 07:00-13:00,15:00-19:30", &t(2026, 4, 24, 14, 0));
    assert_eq!(o, Openness::Closed);
    let o = status_at("Mo-Sa 07:00-13:00,15:00-19:30", &t(2026, 4, 24, 15, 30));
    assert_eq!(o, Openness::Open);
}

#[test]
fn always_open() {
    assert_eq!(status_at("24/7", &t(2026, 4, 24, 3, 0)), Openness::Open);
}

#[test]
fn multi_rule() {
    // Fr 2026-04-24 at 18:00: the Mo-Fr rule matches.
    let spec = "Mo-Fr 07:00-20:00; Sa 08:00-18:00; Su 08:00-12:00";
    assert_eq!(status_at(spec, &t(2026, 4, 24, 18, 0)), Openness::Open);
    // Sa at 19:00: the Sa rule closes at 18:00.
    assert_eq!(status_at(spec, &t(2026, 4, 25, 19, 0)), Openness::Closed);
}

#[test]
fn unknown_on_ph() {
    // Public holidays are not handled: unknown instead of a guess.
    assert_eq!(
        status_at("PH off; Mo-Fr 08:00-12:00", &t(2026, 4, 24, 10, 0)),
        Openness::Unknown
    );
}

#[test]
fn words_in_any_case() {
    let friday = at(Weekday::Fri, 10, 0);
    for word in ["closed", "off", "CLOSED", "Off", " \tclosed\u{3000}"] {
        assert_eq!(status_at(word, &friday), Openness::Closed, "{word}");
    }
    assert_eq!(status_at("  24/7\n", &friday), Openness::Open);
    assert_eq!(status_at("24/7/365", &friday), Openness::Unknown);
}

#[test]
fn blank_is_unknown() {
    for blank in ["", " ", "\t\n\u{a0}\u{2003}"] {
        assert_eq!(status_at(blank, &at(Weekday::Mon, 0, 0)), Openness::Unknown);
    }
}

#[test]
fn blank_rules_are_skipped() {
    let monday = at(Weekday::Mon, 9, 0);
    assert_eq!(status_at(";; Mo 08:00-10:00 ;", &monday), Openness::Open);
    assert_eq!(status_at(";", &monday), Openness::Closed);
}

#[test]
fn intervals_are_half_open() {
    let spec = "Tu 07:00-19:00";
    assert_eq!(status_at(spec, &at(Weekday::Tue, 6, 59)), Openness::Closed);
    assert_eq!(status_at(spec, &at(Weekday::Tue, 7, 0)), Openness::Open);
    assert_eq!(status_at(spec, &at(Weekday::Tue, 18, 59)), Openness::Open);
    assert_eq!(status_at(spec, &at(Weekday::Tue, 19, 0)), Openness::Closed);
}

#[test]
fn times_alone_are_for_every_day() {
    for day in [Weekday::Mon, Weekday::Wed, Weekday::Sun] {
        assert_eq!(status_at("08:00-12:00", &at(day, 9, 0)), Openness::Open);
        assert_eq!(status_at("Mo-Su 08:00-12:00", &at(day, 9, 0)), Openness::Open);
        assert_eq!(status_at("08:00-12:00", &at(day, 13, 0)), Openness::Closed);
    }
}

#[test]
fn days_go_round_the_week() {
    let spec = "Fr-Mo 08:00-12:00";
    for day in [Weekday::Fri, Weekday::Sat, Weekday::Sun, Weekday::Mon] {
        assert_eq!(status_at(spec, &at(day, 9, 0)), Openness::Open);
    }
    for day in [Weekday::Tue, Weekday::Wed, Weekday::Thu] {
        assert_eq!(status_at(spec, &at(day, 9, 0)), Openness::Closed);
    }
}

#[test]
fn lists_of_days() {
    let spec = "Mo , We-Th,Sa 08:00-12:00";
    for day in [Weekday::Mon, Weekday::Wed, Weekday::Thu, Weekday::Sat] {
        assert_eq!(status_at(spec, &at(day, 9, 0)), Openness::Open);
    }
    for day in [Weekday::Tue, Weekday::Fri, Weekday::Sun] {
        assert_eq!(status_at(spec, &at(day, 9, 0)), Openness::Closed);
    }
}

#[test]
fn hours_beyond_midnight_stay_on_their_day() {
    let spec = "Sa 20:00-26:00";
    assert_eq!(status_at(spec, &at(Weekday::Sat, 23, 59)), Openness::Open);
    assert_eq!(status_at(spec, &at(Weekday::Sun, 1, 0)), Openness::Closed);
    assert_eq!(status_at("Sa 22:00-02:00", &at(Weekday::Sat, 23, 0)), Openness::Closed);
}

#[test]
fn a_rule_that_is_not_handled_makes_a_value_unknown() {
    for spec in [
        "Mo-Fr 07:00-19:00; PH off",
        "PH off; Mo-Fr 07:00-19:00",
        "Mo-Fr 07:00-19:00; PH 10:00-12:00",
        "Mo-Fr 07:00-19:00; Mo-Fr,PH 10:00-12:00",
        "Mo-Fr 07:00-19:00; Dec 25 off",
        "Mo-Fr 07:00-19:00; 2026 Apr 12 off",
        "Mo-Fr 07:00-19:00; sunrise-sunset",
        "Mo-Fr 07:00-19:00; week 10-20 Mo 08:00-12:00; Sa 08:00-12:00",
    ] {
        // 2026-04-24 is a Friday.
        assert_eq!(status_at(spec, &t(2026, 4, 24, 10, 0)), Openness::Unknown, "{spec}");
        assert_eq!(status_at(spec, &t(2026, 4, 24, 20, 0)), Openness::Unknown, "{spec}");
        assert_eq!(status_at(spec, &t(2026, 4, 25, 10, 0)), Openness::Unknown, "{spec}");
    }
}

#[test]
fn other_rules_that_cannot_be_read_come_in_order() {
    for spec in [
        "Mo-Fr 07:00-19:00; Su off",
        "Mo-Fr 07:00-19:00; Sa \"Market day\"",
        "Mo-Fr 07:00-19:00; SH off",
        "Mo-Fr 07:00-19:00; Mo-Fr 20:00+",
    ] {
        assert_eq!(status_at(spec, &t(2026, 4, 24, 10, 0)), Openness::Open, "{spec}");
        assert_eq!(status_at(spec, &t(2026, 4, 24, 19, 30)), Openness::Unknown, "{spec}");
    }
    let spec = "Su off; Mo-Fr 07:00-19:00";
    assert_eq!(status_at(spec, &t(2026, 4, 24, 10, 0)), Openness::Unknown);
    let spec = "Fr 07:00-12:00,13:00+";
    assert_eq!(status_at(spec, &t(2026, 4, 24, 10, 0)), Openness::Open);
    assert_eq!(status_at(spec, &t(2026, 4, 24, 12, 0)), Openness::Unknown);
    let spec = "Fr 13:00+,07:00-12:00";
    assert_eq!(status_at(spec, &t(2026, 4, 24, 10, 0)), Openness::Unknown);
}

#[test]
fn a_sunset_makes_its_days_unknown() {
    for spec in ["Mo 08:00-12:00,13:00-sunset", "Mo 13:00-sunset,08:00-12:00"] {
        assert_eq!(status_at(spec, &at(Weekday::Mon, 9, 0)), Openness::Unknown);
        assert_eq!(status_at(spec, &at(Weekday::Mon, 14, 0)), Openness::Unknown);
        assert_eq!(status_at(spec, &at(Weekday::Tue, 14, 0)), Openness::Closed);
    }
    let spec = "08:00-12:00,13:00-(sunset-01:00)";
    assert_eq!(status_at(spec, &at(Weekday::Sun, 9, 0)), Openness::Unknown);
    let spec = "Mo-Fr 08:00-12:00; Sa 08:00-sunset";
    assert_eq!(status_at(spec, &at(Weekday::Mon, 9, 0)), Openness::Open);
    assert_eq!(status_at(spec, &at(Weekday::Sat, 9, 0)), Openness::Unknown);
}

#[test]
fn the_order_of_rules_is_irrelevant() {
    let rules = ["Mo-Fr 08:00-12:00", "Mo 14:00-18:00", "Su 09:00-10:00"];
    for n in 0..7 {
        for hour in 0..24 {
            let moment = at(Weekday::from_monday(n), hour, 30);
            let there = status_at(&rules.join("; "), &moment);
            let back: Vec<&str> = rules.iter().rev().copied().collect();
            assert_eq!(there, status_at(&back.join(";"), &moment));
        }
    }
}

#[test]
fn unhandled_forms_are_unknown() {
    let monday = at(Weekday::Mon, 9, 0);
    for spec in [
        "Apr-Sep Mo-Fr 08:00-12:00",
        "week 10-20 Mo 08:00-12:00",
        "sunrise-sunset",
        "Mo-Fr off",
        "Mo 8-12",
        "Mo 08:00",
        "Mo 49:00-50:00",
        "Mo 08:60-09:00",
        "mo 08:00-12:00",
        "Mo 08:00-12:00+",
        "Lu 08:00-12:00",
    ] {
        assert_eq!(status_at(spec, &monday), Openness::Unknown, "{spec}");
    }
}

#[test]
fn written_times_are_read() {
    for hour in 0..=48 {
        for minute in 0..=59 {
            assert_eq!(parse_hm(&format!("{hour:02}:{minute:02}")), Some(hour * 60 + minute));
        }
    }
}

#[test]
fn odd_times() {
    assert_eq!(parse_hm("7:5"), Some(425));
    assert_eq!(parse_hm("+7:+05"), Some(425));
    assert_eq!(parse_hm("-0:00"), Some(0));
    assert_eq!(parse_hm("0000000000000000000007:30"), Some(450));
    assert_eq!(parse_hm("48:59"), Some(2939));
    for bad in [
        "", ":", "7", "7:", ":30", "49:00", "7:60", "-1:00", "7:-1", " 7:30", "7:30 ", "7:30:00",
        "+:30", "99999999999:00", "7\u{660}:00",
    ] {
        assert_eq!(parse_hm(bad), None, "{bad}");
    }
}

#[test]
fn intervals_are_read() {
    assert_eq!(parse_interval("07:00-19:00"), Some((420, 1140)));
    assert_eq!(parse_interval("07:00 - 19:00"), Some((420, 1140)));
    assert_eq!(parse_interval("07:00--0:30"), Some((420, 30)));
    assert_eq!(parse_interval("07:00"), None);
    assert_eq!(parse_interval("07:00-"), None);
    assert_eq!(parse_interval("07:00-19:00-20:00"), None);
}

#[test]
fn rules_are_cut_at_the_first_digit() {
    assert_eq!(split_days_times(" Mo-Fr  07:00-19:00 "), Some(("Mo-Fr", "07:00-19:00")));
    assert_eq!(split_days_times("07:00-19:00"), Some(("Mo-Su", "07:00-19:00")));
    assert_eq!(split_days_times("Caf\u{e9} 1"), Some(("Caf\u{e9}", "1")));
    assert_eq!(split_days_times("PH off"), None);
    assert_eq!(split_days_times("  "), None);
}

#[test]
fn days_are_read() {
    assert_eq!(parse_days("Mo-Fr"), Some(vec![Weekday::Mon, Weekday::Tue, Weekday::Wed, Weekday::Thu, Weekday::Fri]));
    assert_eq!(parse_days("Sa-Tu"), Some(vec![Weekday::Sat, Weekday::Sun, Weekday::Mon, Weekday::Tue]));
    assert_eq!(parse_days("We-We"), Some(vec![Weekday::Wed]));
    assert_eq!(parse_days("Tu-Mo"), Some((1..8).map(Weekday::from_monday).collect()));
    assert_eq!(parse_days("Mo, Mo"), Some(vec![Weekday::Mon, Weekday::Mon]));
    assert_eq!(parse_days(""), None);
    assert_eq!(parse_days("Mo,"), None);
    assert_eq!(parse_days("Mo-"), None);
    assert_eq!(parse_days("Mo-Fr-Sa"), None);
    assert_eq!(parse_day("Th"), Some(Weekday::Thu));
    assert_eq!(parse_day("th"), None);
}

#[test]
fn verdicts_of_parts() {
    assert_eq!(rule_status("Mo 08:00-10:00", Weekday::Mon, 540), Some(Openness::Open));
    assert_eq!(rule_status("Mo 08:00-10:00", Weekday::Tue, 540), None);
    assert_eq!(rule_status("", Weekday::Tue, 540), None);
    assert_eq!(rule_status("Xx 08:00-10:00", Weekday::Tue, 540), Some(Openness::Unknown));
    assert_eq!(intervals_status("08:00-10:00", 600), None);
    assert_eq!(intervals_status("08:00-10:00,nope", 600), Some(Openness::Unknown));
    assert_eq!(intervals_status("08:00-10:00,nope", 540), Some(Openness::Open));
    assert_eq!(intervals_status("nope,08:00-10:00", 540), Some(Openness::Unknown));
    assert_eq!(intervals_status("11:00-12:00,08:00-10:00", 540), Some(Openness::Open));
}

#[test]
fn a_written_schedule_is_read() {
    let spec = "Mo-Th 07:00-12:30,14:00-19:00; Fr 06:30-20:15; Su-Su 08:00-12:00";
    let open = |day: Weekday, m: u32| match day {
        Weekday::Mon | Weekday::Tue | Weekday::Wed | Weekday::Thu => {
            (420..750).contains(&m) || (840..1140).contains(&m)
        }
        Weekday::Fri => (390..1215).contains(&m),
        Weekday::Sat => false,
        Weekday::Sun => (480..720).contains(&m),
    };
    for n in 0..7 {
        let day = Weekday::from_monday(n);
        for m in 0..1440 {
            let expected = if open(day, m) { Openness::Open } else { Openness::Closed };
            assert_eq!(status_at(spec, &at(day, m / 60, m % 60)), expected);
        }
    }
}
