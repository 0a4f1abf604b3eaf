use hen::output_parser::{parse_dot_separated_key_value, parse_geometry_dose, parse_simulation_output};

#[test]
fn test_parse_dot_separated_key_value() {
    let s = "configuration...linux64";
    assert_eq!(
        parse_dot_separated_key_value(s),
        Some(("configuration".to_string(), "linux64".to_string()))
    );
}

#[test]
fn test_parse_geometry_dose() {
    let line = "Block_                    0.0000e+00 +/- 100.000% \n";
    let score = parse_geometry_dose(&line).unwrap();
    assert_eq!(score.name, "Block_");
    assert_eq!(score.value, "0.0000e+00");
    assert_eq!(score.rstd_percent, "100.000");
    assert_eq!(score.value.parse::<f64>().unwrap(), 0.0);
    assert_eq!(score.rstd_percent.parse::<f64>().unwrap() / 100.0, 1.0);

    let line = "Block_                    2.1867e-16 +/- 54.499 % \n";
    let score = parse_geometry_dose(&line).unwrap();
    assert_eq!(score.name, "Block_");
    assert_eq!(score.value.parse::<f64>().unwrap(), 0.00000000000000021867);
    assert_eq!(score.rstd_percent.parse::<f64>().unwrap() / 100.0, 0.54499);
}

#[test]
fn test_parse_geometry_dose_rejects_plain_text() {
    let r = parse_geometry_dose("no markers here");
    assert!(r.is_err());
}

fn example_log(tail: &str) -> String {
    let mut s = String::new();
    s.push_str("================\n");
    s.push_str("================\n");
    s.push_str("configuration...linux64\n");
    s.push_str("================\n");
    s.push_str("Finished simulation\n");
    s.push_str("Total cpu time for this run: 1997.04 (sec.)\n");
    s.push_str("---------------------\n");
    s.push_str("PSS_Box                    0.0000e+00 +/- 100.000% \n");
    s.push_str("Messwelt_0                 5.6425e-13 +/- 0.955 % \n");
    s.push_str("\n");
    s.push_str(tail);
    s
}

#[test]
fn test_parse_simulation_output_finished() {
    // the marker line ends the text: the run counts as finished
    let log = example_log("egsrun finishSimulation(egs_chamber) 0\n");
    let out = parse_simulation_output(&log).unwrap();
    assert_eq!(out.total_cpu_time, Ok("1997.04".to_string()));
    assert_eq!(
        out.total_cpu_time.unwrap().parse::<f64>().unwrap(),
        1997.04
    );
    assert_eq!(out.simulation_finished, Ok(true));
    let dose = out.dose.unwrap();
    assert_eq!(dose.len(), 2);
    assert_eq!(dose[0].name, "PSS_Box");
    assert_eq!(dose[0].value, "0.0000e+00");
    assert_eq!(dose[1].name, "Messwelt_0");
    assert_eq!(dose[1].value.parse::<f64>().unwrap(), 5.6425e-13);
}

#[test]
fn test_parse_simulation_output_not_finished() {
    // trailing content after the marker: the run did not finish
    let log = example_log("egsrun finishSimulation(egs_chamber) 0\nkilled by timeout\n");
    let out = parse_simulation_output(&log).unwrap();
    assert_eq!(out.simulation_finished, Ok(false));
}

#[test]
fn test_parse_simulation_output_missing_fields() {
    let log = "================\n================\nconfiguration...linux64\n================\nnothing else\n";
    let out = parse_simulation_output(&log).unwrap();
    assert_eq!(
        out.total_cpu_time,
        Err("Cannot find Total cpu time for this run".to_string())
    );
    assert_eq!(out.dose, Err("Cannot find dose".to_string()));
    assert_eq!(
        out.simulation_finished,
        Err("Cannot find SingSimFinished".to_string())
    );
}

#[test]
fn test_parse_simulation_output_truncated_header() {
    let log = "================\n================\n";
    let r = parse_simulation_output(&log);
    assert_eq!(r, Err("Unexpected end of file".to_string()));
}

#[test]
fn test_parse_simulation_output_bad_dose_line() {
    // one malformed dose line fails the whole table, the other fields stay
    let mut s = String::new();
    s.push_str("================\n================\n");
    s.push_str("configuration...linux64\n");
    s.push_str("================\n");
    s.push_str("Finished simulation\n");
    s.push_str("Total cpu time for this run: 16.0 (sec.)\n");
    s.push_str("-----\n");
    s.push_str("geo  5.3408e-10 +/- 0.124 % \n");
    s.push_str("broken line without markers\n");
    s.push_str("\n");
    s.push_str("finishSimulation\n");
    let out = parse_simulation_output(&s).unwrap();
    assert_eq!(out.total_cpu_time, Ok("16.0".to_string()));
    assert!(out.dose.is_err());
    assert_eq!(out.simulation_finished, Ok(true));
}

#[test]
fn test_parse_simulation_output_bad_cpu_value() {
    let mut s = String::new();
    s.push_str("================\n================\n");
    s.push_str("configuration...linux64\n");
    s.push_str("================\n");
    s.push_str("Finished simulation\n");
    s.push_str("Total cpu time for this run: garbage (sec.)\n");
    s.push_str("-----\n");
    s.push_str("\n");
    s.push_str("finishSimulation\n");
    let out = parse_simulation_output(&s).unwrap();
    assert_eq!(
        out.total_cpu_time,
        Err(
            "Cannot parse total cpu time from Total cpu time for this run: garbage (sec.)\n"
                .to_string()
        )
    );
    assert_eq!(out.dose, Ok(vec![]));
    assert_eq!(out.simulation_finished, Ok(true));
}
