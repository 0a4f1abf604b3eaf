use hen::omittable::Omittable;
use hen::simulation::{
    ParSimFinished, ParSimInput, ParSimReport, RegionScore, SingSimFinished, SingSimInput,
    SingSimInputBuilder, SingSimReport,
};
use hen::util::has_unique_elements;

fn proto(content: &str) -> SingSimInput {
    SingSimInputBuilder::new()
        .application("egs_chamber")
        .content(content)
        .pegsfile("521icru")
        .filename("example.egsinp")
        .build()
        .unwrap()
}

fn plain_run(dose: Vec<RegionScore>, cpu: &str) -> SingSimReport {
    SingSimReport {
        input: Omittable::Omitted,
        stderr: Omittable::Omitted,
        stdout: Omittable::Omitted,
        exit_status: Omittable::Available(0),
        dose: Omittable::Available(dose),
        total_cpu_time: Omittable::Available(cpu.to_string()),
        simulation_finished: Omittable::Available(true),
    }
}

fn score(name: &str, value: &str, rstd_percent: &str) -> RegionScore {
    RegionScore {
        name: name.to_string(),
        value: value.to_string(),
        rstd_percent: rstd_percent.to_string(),
    }
}

#[test]
fn test_builder_checksum() {
    let sim = proto("abc");
    assert_eq!(sim.application, "egs_chamber");
    assert_eq!(sim.content, "abc");
    assert_eq!(
        sim.checksum,
        "3a985da74fe225b2045c172d6bd390bd855f086e3e9d525b46bfe24511431532"
    );
}

#[test]
fn test_builder_missing_fields() {
    let r = SingSimInputBuilder::new().application("a").build();
    assert_eq!(
        r,
        Err("Cannot compute checksum. Are all fields of builder set?".to_string())
    );
    let r = SingSimInputBuilder::new().content("c").build();
    assert_eq!(r, Err("All fields of builder should be set.".to_string()));
}

#[test]
fn test_validate() {
    let p = ParSimInput {
        prototype: proto("x = 1"),
        seeds: vec![(1, 2), (3, 4)],
        ncases: vec![10],
    };
    assert_eq!(p.validate(), Err("Got 2 seeds, but 1 ncases".to_string()));

    let p = ParSimInput {
        prototype: proto("x = 1"),
        seeds: vec![(1, 2), (1, 2)],
        ncases: vec![10, 10],
    };
    assert_eq!(p.validate(), Err("Duplicate seeds".to_string()));

    let p = ParSimInput {
        prototype: proto("x = 1"),
        seeds: vec![(1, 2), (3, 4)],
        ncases: vec![10, 10],
    };
    assert_eq!(p.validate(), Ok(()));
}

#[test]
fn test_split() {
    // splitting 1000 cases six ways: six distinct seeds, six equal shares,
    // at most six cases lost
    let sim = proto("ncase = 1000\ninitial seeds = 97 33\n");
    let p = sim.splitn(6).unwrap();
    assert_eq!(p.seeds.len(), 6);
    assert_eq!(p.ncases.len(), 6);
    assert!(has_unique_elements(&p.seeds));
    let total: u64 = p.ncases.iter().sum();
    assert!(total <= 1000);
    assert!(total >= 1000 - 6);
    for c in &p.ncases {
        assert_eq!(*c, 166);
    }
}

#[test]
fn test_splitn_ambiguous_ncase() {
    let sim = proto("ncase = 10\nncase = 20\ninitial seeds = 1 2\n");
    let r = sim.splitn(2);
    assert_eq!(r, Err("Ambiguous key ncase".to_string()));
}

#[test]
fn test_child_inputs() {
    let sim = proto(":start rng:\nncase = 100\ninitial seeds = 5 6\n:stop rng:\n");
    let parent_checksum = sim.checksum.clone();
    let p = sim.split_fancy(None, None, 2).unwrap();
    let children = p.child_inputs().unwrap();
    assert_eq!(children.len(), 2);
    assert!(children[0].content.contains("ncase = 50"));
    assert!(children[0].content.contains("initial seeds = 42 1"));
    assert!(children[1].content.contains("initial seeds = 42 2"));
    // each child is identified by its own content, not the prototype's
    assert_ne!(children[0].checksum, children[1].checksum);
    assert_ne!(children[0].checksum, parent_checksum);
    assert_eq!(children[0].application, "egs_chamber");
    assert_eq!(children[0].pegsfile, "521icru");
}

#[test]
fn test_combine_inputs() {
    let a = ParSimInput {
        prototype: proto("ncase = 10\ninitial seeds = 1 2\n"),
        seeds: vec![(1, 2)],
        ncases: vec![5],
    };
    let b = ParSimInput {
        prototype: proto("ncase = 10\ninitial seeds = 1 2\n"),
        seeds: vec![(3, 4)],
        ncases: vec![5],
    };
    let c = ParSimInput::combine(&[a.clone(), b]).unwrap();
    assert_eq!(c.seeds, vec![(1, 2), (3, 4)]);
    assert_eq!(c.ncases, vec![5, 5]);
    assert_eq!(c.prototype, a.prototype);

    let other = ParSimInput {
        prototype: proto("something = else\n"),
        seeds: vec![(9, 9)],
        ncases: vec![5],
    };
    let r = ParSimInput::combine(&[a, other]);
    assert_eq!(
        r,
        Err("Cannot combine simulations with different checksums".to_string())
    );

    let r = ParSimInput::combine(&[]);
    assert_eq!(
        r,
        Err("Cannot combine empty collection of simulations.".to_string())
    );
}

fn finished_log() -> String {
    let mut s = String::new();
    s.push_str("================\n================\n");
    s.push_str("configuration...linux64\n");
    s.push_str("================\n");
    s.push_str("Finished simulation\n");
    s.push_str("Total cpu time for this run: 16.0 (sec.)\n");
    s.push_str("-----\n");
    s.push_str("geo  5.3408e-10 +/- 0.124 % \n");
    s.push_str("\n");
    s.push_str("finishSimulation\n");
    s
}

#[test]
fn test_single_run_report_drops_diagnostics() {
    let fin = SingSimFinished {
        input: proto("ncase = 10\ninitial seeds = 1 2\n"),
        stderr: "warnings".to_string(),
        stdout: finished_log(),
        exit_status: 0,
    };
    let r = fin.report();
    assert_eq!(r.simulation_finished, Omittable::Available(true));
    assert_eq!(r.total_cpu_time, Omittable::Available("16.0".to_string()));
    assert_eq!(r.stdout, Omittable::Omitted);
    assert_eq!(r.stderr, Omittable::Omitted);
    assert_eq!(r.input, Omittable::Omitted);

    let full = fin.report_full();
    assert!(full.stdout.is_available());
    assert!(full.stderr.is_available());
    assert!(full.input.is_available());
}

#[test]
fn test_par_report_keeps_first_run_detailed() {
    let fin = SingSimFinished {
        input: proto("ncase = 10\ninitial seeds = 1 2\n"),
        stderr: String::new(),
        stdout: finished_log(),
        exit_status: 0,
    };
    let par = ParSimFinished {
        input: ParSimInput {
            prototype: proto("ncase = 10\ninitial seeds = 1 2\n"),
            seeds: vec![(1, 2), (3, 4)],
            ncases: vec![5, 5],
        },
        outputs: vec![fin.clone(), fin],
    };
    let rep = par.report();
    assert_eq!(rep.single_runs.len(), 2);
    assert!(rep.single_runs[0].stdout.is_available());
    assert_eq!(rep.single_runs[1].stdout, Omittable::Omitted);
    assert_eq!(rep.simulation_finished, Omittable::Available(true));
    assert_eq!(
        rep.total_cpu_time,
        Omittable::Available(vec!["16.0".to_string(), "16.0".to_string()])
    );
}

#[test]
fn test_recalculate_gathers_doses() {
    // eight runs of one region: the aggregate holds all eight scores in run
    // order; their mean and variance are then plain arithmetic
    let values = [
        "1.2027e-14", "1.1735e-14", "1.3713e-14", "1.3646e-14", "1.2904e-14", "1.2592e-14",
        "1.1982e-14", "1.2596e-14",
    ];
    let mut runs = Vec::new();
    for v in values.iter() {
        runs.push(plain_run(vec![score("the_region", v, "6.9")], "2.0"));
    }
    let rep = ParSimReport {
        input: ParSimInput {
            prototype: proto("ncase = 80\ninitial seeds = 1 2\n"),
            seeds: (1..9).map(|i| (42, i)).collect(),
            ncases: vec![10; 8],
        },
        single_runs: runs,
        total_cpu_time: Omittable::Omitted,
        simulation_finished: Omittable::Omitted,
        dose: Omittable::Omitted,
    }
    .recalculate();

    let dose = match rep.dose {
        Omittable::Available(d) => d,
        _ => panic!("dose should be available"),
    };
    assert_eq!(dose.len(), 1);
    assert_eq!(dose[0].name, "the_region");
    assert_eq!(dose[0].per_run.len(), 8);
    for (i, sc) in dose[0].per_run.iter().enumerate() {
        assert_eq!(sc.value, values[i]);
    }
    // the mean of the gathered values, and the averaged variance
    // (1/8)^2 * sum(var_i), are then plain arithmetic over the aggregate
    let parsed: Vec<f64> = dose[0]
        .per_run
        .iter()
        .map(|sc| sc.value.parse::<f64>().unwrap())
        .collect();
    let mean: f64 = parsed.iter().sum::<f64>() / 8.0;
    assert!((mean - 1.2649375e-14).abs() < 1e-20);
    let var_sum: f64 = dose[0]
        .per_run
        .iter()
        .map(|sc| {
            let v = sc.value.parse::<f64>().unwrap();
            let rstd = sc.rstd_percent.parse::<f64>().unwrap() / 100.0;
            (v * rstd) * (v * rstd)
        })
        .sum();
    let combined_var = var_sum / 64.0;
    assert!(combined_var > 0.0);
    assert!((combined_var - var_sum * 0.015625).abs() < 1e-40);

    let cpu = match rep.total_cpu_time {
        Omittable::Available(v) => v,
        _ => panic!("cpu should be available"),
    };
    assert_eq!(cpu.len(), 8);
    let total: f64 = cpu.iter().map(|t| t.parse::<f64>().unwrap()).sum();
    assert_eq!(total, 16.0);
}

#[test]
fn test_recalculate_region_mismatch() {
    // different region counts: the dose must fail, not truncate
    let a = plain_run(vec![score("r1", "1.0", "5.0")], "1.0");
    let b = plain_run(
        vec![score("r1", "1.0", "5.0"), score("r2", "2.0", "5.0")],
        "1.0",
    );
    let rep = ParSimReport {
        input: ParSimInput {
            prototype: proto("ncase = 10\ninitial seeds = 1 2\n"),
            seeds: vec![(1, 2), (3, 4)],
            ncases: vec![5, 5],
        },
        single_runs: vec![a, b],
        total_cpu_time: Omittable::Omitted,
        simulation_finished: Omittable::Omitted,
        dose: Omittable::Omitted,
    }
    .recalculate();
    assert_eq!(
        rep.dose,
        Omittable::Fail("Simulations have inconsistent numbers of scoring geometries.".to_string())
    );

    // same counts but renamed regions: also a failure
    let a = plain_run(vec![score("r1", "1.0", "5.0")], "1.0");
    let b = plain_run(vec![score("other", "1.0", "5.0")], "1.0");
    let rep = ParSimReport {
        input: ParSimInput {
            prototype: proto("ncase = 10\ninitial seeds = 1 2\n"),
            seeds: vec![(1, 2), (3, 4)],
            ncases: vec![5, 5],
        },
        single_runs: vec![a, b],
        total_cpu_time: Omittable::Omitted,
        simulation_finished: Omittable::Omitted,
        dose: Omittable::Omitted,
    }
    .recalculate();
    assert_eq!(
        rep.dose,
        Omittable::Fail("Simulations have inconsistent scoring regions".to_string())
    );
}

#[test]
fn test_recalculate_fail_precedence() {
    // a failed field outranks an omitted one, the first failure wins
    let mut a = plain_run(vec![score("r1", "1.0", "5.0")], "1.0");
    a.total_cpu_time = Omittable::Omitted;
    let mut b = plain_run(vec![score("r1", "1.0", "5.0")], "1.0");
    b.total_cpu_time = Omittable::Fail("lost".to_string());
    let rep = ParSimReport {
        input: ParSimInput {
            prototype: proto("ncase = 10\ninitial seeds = 1 2\n"),
            seeds: vec![(1, 2), (3, 4)],
            ncases: vec![5, 5],
        },
        single_runs: vec![a, b],
        total_cpu_time: Omittable::Omitted,
        simulation_finished: Omittable::Omitted,
        dose: Omittable::Omitted,
    }
    .recalculate();
    assert_eq!(rep.total_cpu_time, Omittable::Fail("lost".to_string()));
}

#[test]
fn test_combine_reports() {
    // two shards of the same prototype: runs concatenate in shard order and
    // the dose aggregates over all of them
    let make_shard = |seed: usize, value: &str| ParSimReport {
        input: ParSimInput {
            prototype: proto("ncase = 10\ninitial seeds = 1 2\n"),
            seeds: vec![(seed, 1)],
            ncases: vec![5],
        },
        single_runs: vec![plain_run(vec![score("geo", value, "5.0")], "1.5")],
        total_cpu_time: Omittable::Omitted,
        simulation_finished: Omittable::Omitted,
        dose: Omittable::Omitted,
    };
    let a = make_shard(1, "1.0");
    let b = make_shard(2, "3.0");
    let rep = ParSimReport::combine(&[a, b]).unwrap();
    assert_eq!(rep.input.seeds, vec![(1, 1), (2, 1)]);
    assert_eq!(rep.single_runs.len(), 2);
    let dose = match rep.dose {
        Omittable::Available(d) => d,
        _ => panic!("dose should be available"),
    };
    assert_eq!(dose.len(), 1);
    assert_eq!(dose[0].per_run.len(), 2);
    assert_eq!(dose[0].per_run[0].value, "1.0");
    assert_eq!(dose[0].per_run[1].value, "3.0");

    // shards of different prototypes cannot combine
    let a = make_shard(1, "1.0");
    let mut c = make_shard(2, "3.0");
    c.input.prototype = proto("entirely = different\n");
    let r = ParSimReport::combine(&[a, c]);
    assert_eq!(
        r,
        Err("Cannot combine simulations with different checksums".to_string())
    );
}

#[test]
fn test_run_umlauts() {
    // configuration text with non-ascii letters survives the whole
    // parse / split / rebuild pipeline
    let sim = proto(":start größe:\nncase = 10\ninitial seeds = 1 2\nmaß = grün\n:stop größe:\n");
    let p = sim.split_fancy(None, None, 2).unwrap();
    let children = p.child_inputs().unwrap();
    assert_eq!(children.len(), 2);
    assert!(children[0].content.contains("maß = grün"));
    assert!(children[0].content.contains(":start größe:"));
}
