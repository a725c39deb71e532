use study_engine::composite::StudyMeanPcts;
use study_engine::error::StudyError;
use study_engine::label::parse_pct_label;
use study_engine::matrix::{fmt_pct, lat_pcts, StudyIoLatPcts};
use study_engine::mean::StudyMean;
use study_engine::pcts::StudyPcts;
use study_engine::report::Report;
use study_engine::select::sel_factory_iolat;
use study_engine::studies::{AnyStudy, SliceReportSource, Studies};
use study_engine::text::format_value;

fn report_with(io: &str, pct: &str, v: u32) -> Report {
    let mut r = Report::new();
    r.set(&io.to_string(), &"100".to_string(), 1);
    r.set(&io.to_string(), &pct.to_string(), v);
    r
}

fn feed_mean(values: &[u32]) -> StudyMean {
    let mut study = StudyMean::new(sel_factory_iolat("read", "50"));
    for &v in values {
        let rep = report_with("read", "50", v);
        study.study(&rep).unwrap();
    }
    study
}

fn feed_pcts(values: &[u32]) -> StudyPcts {
    let mut study = StudyPcts::new(sel_factory_iolat("read", "50"), None);
    for &v in values {
        let rep = report_with("read", "50", v);
        study.study(&rep).unwrap();
    }
    study
}

#[test]
fn mean_stdev_two_distinct() {
    let study = feed_mean(&[1, 2]);
    let (_, stdev, _, _) = study.result();
    assert!(stdev > 0);
    assert_eq!(stdev, 1);
}

#[test]
fn mean_stdev_single_sample() {
    let study = feed_mean(&[42]);
    let (mean, stdev, min, max) = study.result();
    assert_eq!(stdev, 0);
    assert_eq!(mean, 42);
    assert_eq!(min, 42);
    assert_eq!(max, 42);
}

#[test]
fn mean_stdev_all_equal() {
    let study = feed_mean(&[7, 7, 7]);
    let (mean, stdev, _, _) = study.result();
    assert_eq!(stdev, 0);
    assert_eq!(mean, 7);
}

#[test]
fn mean_between_min_and_max() {
    let study = feed_mean(&[2, 4, 9]);
    let (mean, _, min, max) = study.result();
    assert_eq!(mean, 5);
    assert_eq!(min, 2);
    assert_eq!(max, 9);
    assert!(u64::from(min) <= mean && mean <= u64::from(max));
}

#[test]
fn mean_skips_gapped_reports() {
    let mut study = StudyMean::new(sel_factory_iolat("read", "50"));
    // A report whose total percentile is zero is silently skipped.
    let mut gap = Report::new();
    gap.set(&"read".to_string(), &"100".to_string(), 0);
    gap.set(&"read".to_string(), &"50".to_string(), 123);
    study.study(&gap).unwrap();
    let rep = report_with("read", "50", 6);
    study.study(&rep).unwrap();
    let (mean, _, min, max) = study.result();
    assert_eq!((mean, min, max), (6, 6, 6));
}

#[test]
fn selector_gap_cases() {
    let sel = sel_factory_iolat("read", "50");
    let mut rep = Report::new();
    assert_eq!(sel.select(&rep), None);
    rep.set(&"read".to_string(), &"100".to_string(), 0);
    rep.set(&"read".to_string(), &"50".to_string(), 5);
    assert_eq!(sel.select(&rep), None);
    rep.set(&"read".to_string(), &"100".to_string(), 2);
    assert_eq!(sel.select(&rep), Some(5));
    let other = sel_factory_iolat("write", "50");
    assert_eq!(other.select(&rep), None);
}

#[test]
fn percentile_monotonicity() {
    let study = feed_pcts(&[5, 1, 9, 3, 7]);
    let p00 = study.query(&"00".to_string());
    let p50 = study.query(&"50".to_string());
    let p100 = study.query(&"100".to_string());
    assert!(p00 <= p50 && p50 <= p100);
    assert_eq!(p00, 1);
    assert_eq!(p50, 5);
    assert_eq!(p100, 9);
}

#[test]
fn percentile_error_bound_uniform() {
    let mut study = StudyPcts::new(sel_factory_iolat("read", "50"), None);
    for v in 1..=100000u32 {
        let rep = report_with("read", "50", v);
        study.study(&rep).unwrap();
    }
    let p50 = study.query(&"50".to_string());
    let p99 = study.query(&"99".to_string());
    // With the default 0.001 relative error over 100000 samples the
    // answer may stray 100 ranks; these answers are exact.
    assert!(49900 <= p50 && p50 <= 50100);
    assert!(98900 <= p99 && p99 <= 99100);
}

#[test]
fn percentile_fractional_label() {
    let study = feed_pcts(&(1..=1000u32).collect::<Vec<_>>());
    let p999 = study.query(&"99.9".to_string());
    assert_eq!(p999, 1000);
}

#[test]
fn parse_label_cases() {
    assert_eq!(parse_pct_label("00"), Some((0, 1)));
    assert_eq!(parse_pct_label("100"), Some((100, 1)));
    assert_eq!(parse_pct_label("99.9"), Some((999, 10)));
    assert_eq!(parse_pct_label("0.5"), Some((5, 10)));
    assert_eq!(parse_pct_label("101"), None);
    assert_eq!(parse_pct_label("100.1"), None);
    assert_eq!(parse_pct_label(""), None);
    assert_eq!(parse_pct_label("."), None);
    assert_eq!(parse_pct_label("5."), None);
    assert_eq!(parse_pct_label(".5"), None);
    assert_eq!(parse_pct_label("abc"), None);
    assert_eq!(parse_pct_label("9 9"), None);
}

#[test]
fn driver_all_missing_fails_coverage() {
    let mut reports: Vec<Option<Report>> = Vec::new();
    for _ in 0..10 {
        reports.push(None);
    }
    let src = SliceReportSource::new(reports);
    let mut studies = Studies::new();
    studies.add(AnyStudy::Mean(StudyMean::new(sel_factory_iolat("read", "50"))));
    let r = studies.run_fallible(&src, 0, 10);
    match r {
        Err(StudyError::Coverage { start, end }) => {
            assert_eq!((start, end), (0, 10));
        }
        _ => panic!("expected a coverage failure"),
    }
}

#[test]
fn driver_single_present_succeeds() {
    let mut reports: Vec<Option<Report>> = Vec::new();
    for i in 0..10 {
        if i == 5 {
            reports.push(Some(report_with("read", "50", 77)));
        } else {
            reports.push(None);
        }
    }
    let src = SliceReportSource::new(reports);
    let mut studies = Studies::new();
    studies.add(AnyStudy::Mean(StudyMean::new(sel_factory_iolat("read", "50"))));
    let missed = studies.run_fallible(&src, 0, 10).unwrap();
    assert_eq!(missed, 9);
    match &studies.studies()[0] {
        AnyStudy::Mean(m) => {
            let (mean, stdev, min, max) = m.result();
            assert_eq!((mean, stdev, min, max), (77, 0, 77, 77));
        }
        _ => panic!("wrong study kind"),
    }
}

#[test]
fn driver_empty_range_fails() {
    let src = SliceReportSource::new(Vec::new());
    let mut studies = Studies::new();
    let r = studies.run_fallible(&src, 3, 3);
    assert!(r.is_err());
}

#[test]
fn coverage_message_names_bounds() {
    let e = StudyError::Coverage { start: 0, end: 10 };
    assert_eq!(e.message(), "no report available between 0 and 10");
}

#[test]
fn composite_combines_mean_and_percentiles() {
    let mut study = StudyMeanPcts::new(sel_factory_iolat("read", "50"), None);
    for &v in &[10u32, 20, 30] {
        let rep = report_with("read", "50", v);
        study.study(&rep).unwrap();
    }
    let labels = vec!["00".to_string(), "50".to_string(), "100".to_string()];
    let (mean, stdev, pcts) = study.result(&labels);
    assert_eq!(mean, 20);
    // Sample variance of {10, 20, 30} is exactly 100.
    assert_eq!(stdev, 10);
    assert_eq!(pcts.get(&"00".to_string()), Some(10));
    assert_eq!(pcts.get(&"50".to_string()), Some(20));
    assert_eq!(pcts.get(&"100".to_string()), Some(30));
}

fn full_report(io: &str, values: &[u32]) -> Report {
    // One value per latency percentile label; the "100" (total) label is
    // among them and must be positive for the selectors to fire.
    let labels = lat_pcts();
    let mut rep = Report::new();
    for (i, lab) in labels.iter().enumerate() {
        rep.set(&io.to_string(), lab, values[i].max(1));
    }
    rep
}

#[test]
fn matrix_mean_column_is_arithmetic_mean() {
    let matrix = StudyIoLatPcts::new("read", None);
    let mut studies = Studies::new();
    studies.add(AnyStudy::IoLatPcts(matrix));
    let mut reports: Vec<Option<Report>> = Vec::new();
    for &base in &[10u32, 20, 30] {
        let values: Vec<u32> = (0..14).map(|_| base).collect();
        reports.push(Some(full_report("read", &values)));
    }
    let src = SliceReportSource::new(reports);
    let missed = studies.run_fallible(&src, 0, 3).unwrap();
    assert_eq!(missed, 0);

    let mut cum = Report::new();
    for lab in lat_pcts().iter() {
        cum.set(&"read".to_string(), lab, 500);
    }
    let cols = vec!["00".to_string(), "50".to_string(), "100".to_string()];
    match &studies.studies()[0] {
        AnyStudy::IoLatPcts(m) => {
            let table = m.result(&cum, Some(&cols));
            for row_label in ["50", "99"] {
                let row = table.get_row(&row_label.to_string()).unwrap();
                assert_eq!(row.get(&"mean".to_string()), Some(20));
                assert_eq!(row.get(&"cum".to_string()), Some(500));
                assert_eq!(row.get(&"00".to_string()), Some(10));
                assert_eq!(row.get(&"50".to_string()), Some(20));
                assert_eq!(row.get(&"100".to_string()), Some(30));
                assert!(row.get(&"stdev".to_string()).unwrap() > 0);
            }
        }
        _ => panic!("wrong study kind"),
    }
}

#[test]
fn label_rendering() {
    assert_eq!(fmt_pct(&"00".to_string()), "min");
    assert_eq!(fmt_pct(&"0.0".to_string()), "min");
    assert_eq!(fmt_pct(&"100".to_string()), "max");
    assert_eq!(fmt_pct(&"99.9".to_string()), "p99.9");
    assert_eq!(fmt_pct(&"50".to_string()), "p50");
    assert_eq!(fmt_pct(&"cum".to_string()), "cum");
    assert_eq!(fmt_pct(&"mean".to_string()), "mean");
    assert_eq!(fmt_pct(&"stdev".to_string()), "stdev");
}

#[test]
fn format_value_renders_decimal() {
    assert_eq!(format_value(0), "0");
    assert_eq!(format_value(7), "7");
    assert_eq!(format_value(1234), "1234");
    assert_eq!(format_value(1000000), "1000000");
}

#[test]
fn format_table_layout() {
    let matrix = StudyIoLatPcts::new("read", None);
    let mut studies = Studies::new();
    studies.add(AnyStudy::IoLatPcts(matrix));
    let mut reports: Vec<Option<Report>> = Vec::new();
    let values: Vec<u32> = (0..14).map(|i| 10 * (i + 1) as u32).collect();
    reports.push(Some(full_report("read", &values)));
    let src = SliceReportSource::new(reports);
    studies.run_fallible(&src, 0, 1).unwrap();

    let mut cum = Report::new();
    for lab in lat_pcts().iter() {
        cum.set(&"read".to_string(), lab, 5);
    }
    match &studies.studies()[0] {
        AnyStudy::IoLatPcts(m) => {
            let table = m.result(&cum, None);
            let mut out = String::new();
            StudyIoLatPcts::format_table(&mut out, &table, None);
            assert!(out.starts_with("       "));
            assert!(out.ends_with('\n'));
            // Header line, one line per latency label.
            assert_eq!(out.lines().count(), 1 + 14);
            let header = out.lines().next().unwrap();
            assert!(header.contains("min"));
            assert!(header.contains("max"));
            assert!(header.contains("p99.9"));
            assert!(header.contains("cum"));
            assert!(header.contains("mean"));
            assert!(header.contains("stdev"));
            let second = out.lines().nth(1).unwrap();
            assert!(second.starts_with("min    "));
        }
        _ => panic!("wrong study kind"),
    }
}

#[test]
fn table_set_replaces() {
    let mut m = study_engine::table::PctMap::new();
    m.set(&"a".to_string(), 1);
    m.set(&"a".to_string(), 2);
    m.set(&"b".to_string(), 3);
    assert_eq!(m.get(&"a".to_string()), Some(2));
    assert_eq!(m.get(&"b".to_string()), Some(3));
    assert_eq!(m.get(&"c".to_string()), None);
}

#[test]
fn add_multiple_drains() {
    let mut studies = Studies::new();
    let mut batch = vec![
        AnyStudy::Mean(StudyMean::new(sel_factory_iolat("read", "50"))),
        AnyStudy::Pcts(StudyPcts::new(sel_factory_iolat("read", "99"), Some(500))),
    ];
    studies.add_multiple(&mut batch);
    assert!(batch.is_empty());
    assert_eq!(studies.studies().len(), 2);
}
