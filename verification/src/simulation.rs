//! Simulation inputs, their splitting into independently seeded sub-runs,
//! and the aggregation of per-run results into one report.
//!
//! Numeric values read from the simulator — doses and CPU seconds — are kept
//! as the validated decimal texts the simulator printed.  Combining them into
//! floating-point aggregates is numeric work the caller performs; everything
//! structural — seed uniqueness, checksum matching, region-table agreement,
//! the precedence of failures — is decided and proved here.
use vstd::prelude::*;

use sha3::Digest;

use crate::omittable::Omittable;
use crate::tokenizer::{
    ambiguous_key, cannot_parse_msg, end_of_file_msg, lemma_const_sum, ncase_key,
    ncase_value, no_key, replaced_stream, seeds_key, spec_parse, sum_u64, ParseErrV, TokenStream,
    TokenV,
};
use vstd::string::StringExecFns;

verus! {

/// The two components of the simulator's random-seed pair.
pub type Seed = (usize, usize);

/// One complete single-run definition.
#[derive(Debug, Clone, PartialEq)]
pub struct SingSimInput {
    pub application: String,
    pub content: String,
    pub pegsfile: String,
    pub checksum: String,
    pub filename: String,
}

/// A `SingSimInput` under construction.
#[derive(Debug, Clone, PartialEq)]
pub struct SingSimInputBuilder {
    pub application: Option<String>,
    pub content: Option<String>,
    pub pegsfile: Option<String>,
    pub filename: Option<String>,
}

/// A split job: one prototype and the seed / case-count pair of every part.
#[derive(Debug, Clone, PartialEq)]
pub struct ParSimInput {
    pub prototype: SingSimInput,
    pub seeds: Vec<Seed>,
    pub ncases: Vec<u64>,
}

/// The raw outcome of one external run.
#[derive(Debug, Clone, PartialEq)]
pub struct SingSimFinished {
    pub input: SingSimInput,
    pub stderr: String,
    pub stdout: String,
    pub exit_status: i32,
}

/// One region's score exactly as the simulator printed it: the region name,
/// the dose value, and the relative standard deviation in percent.
#[derive(Debug, Clone, PartialEq)]
pub struct RegionScore {
    pub name: String,
    pub value: String,
    pub rstd_percent: String,
}

/// A region score in mathematical form: the three captured texts.
pub struct RegionScoreV {
    pub name: Seq<char>,
    pub value: Seq<char>,
    pub rstd_percent: Seq<char>,
}

impl View for RegionScore {
    type V = RegionScoreV;

    open spec fn view(&self) -> RegionScoreV {
        RegionScoreV { name: self.name@, value: self.value@, rstd_percent: self.rstd_percent@ }
    }
}

/// The three independently fallible fields read from one run's stdout.
#[derive(Debug, PartialEq)]
pub struct SingSimParsedOutput {
    pub dose: Result<Vec<RegionScore>, String>,
    pub total_cpu_time: Result<String, String>,
    pub simulation_finished: Result<bool, String>,
}

/// The report of one sub-run.
#[derive(Debug, Clone, PartialEq)]
pub struct SingSimReport {
    pub input: Omittable<SingSimInput>,
    pub stderr: Omittable<String>,
    pub stdout: Omittable<String>,
    pub exit_status: Omittable<i32>,
    pub dose: Omittable<Vec<RegionScore>>,
    pub total_cpu_time: Omittable<String>,
    pub simulation_finished: Omittable<bool>,
}

/// All raw outcomes of a split job, in input order.
#[derive(Debug, Clone, PartialEq)]
pub struct ParSimFinished {
    pub input: ParSimInput,
    pub outputs: Vec<SingSimFinished>,
}

/// One region across all runs: its name and every run's score for it, in
/// run order.
#[derive(Debug, Clone, PartialEq)]
pub struct RegionDose {
    pub name: String,
    pub per_run: Vec<RegionScore>,
}

/// The aggregate report of a split job.  The three aggregate fields are
/// always recomputed from `single_runs`; the CPU times and the dose table
/// are gathered as validated texts, their floating-point combination being
/// the caller's numeric work.
#[derive(Debug, Clone, PartialEq)]
pub struct ParSimReport {
    pub input: ParSimInput,
    pub single_runs: Vec<SingSimReport>,
    pub total_cpu_time: Omittable<Vec<String>>,
    pub simulation_finished: Omittable<bool>,
    pub dose: Omittable<Vec<RegionDose>>,
}

// ---------------------------------------------------------------------------
// content checksums

/// What SHA3-256 digests a text to; a function of the text alone.
pub uninterp spec fn sha3_256_of(s: Seq<char>) -> Seq<u8>;

/// Relies on sha3's `Sha3_256`: a 32-byte digest of the content's bytes.
#[verifier::external_body]
fn sha3_256(content: &str) -> (r: Vec<u8>)
    ensures
        r@ == sha3_256_of(content@),
        r@.len() == 32,
{
    sha3::Sha3_256::digest(content.as_bytes()).to_vec()
}

pub open spec fn hex_digit(d: int) -> char {
    if d == 0 {
        '0'
    } else if d == 1 {
        '1'
    } else if d == 2 {
        '2'
    } else if d == 3 {
        '3'
    } else if d == 4 {
        '4'
    } else if d == 5 {
        '5'
    } else if d == 6 {
        '6'
    } else if d == 7 {
        '7'
    } else if d == 8 {
        '8'
    } else if d == 9 {
        '9'
    } else if d == 10 {
        'a'
    } else if d == 11 {
        'b'
    } else if d == 12 {
        'c'
    } else if d == 13 {
        'd'
    } else if d == 14 {
        'e'
    } else {
        'f'
    }
}

/// The lower-case hex text of a byte string, two digits per byte.
pub open spec fn hex_of(bs: Seq<u8>) -> Seq<char>
    decreases bs.len(),
{
    if bs.len() == 0 {
        Seq::empty()
    } else {
        hex_of(bs.drop_last()) + seq![
            hex_digit(bs.last() as int / 16),
            hex_digit(bs.last() as int % 16),
        ]
    }
}

/// The checksum a configuration text is identified by: the lower-case hex
/// form of its SHA3-256 digest.
pub open spec fn checksum_of(content: Seq<char>) -> Seq<char> {
    hex_of(sha3_256_of(content))
}

fn hex_digit_exec(d: u8) -> (c: char)
    requires
        d <= 15,
    ensures
        c == hex_digit(d as int),
{
    match d {
        0 => '0',
        1 => '1',
        2 => '2',
        3 => '3',
        4 => '4',
        5 => '5',
        6 => '6',
        7 => '7',
        8 => '8',
        9 => '9',
        10 => 'a',
        11 => 'b',
        12 => 'c',
        13 => 'd',
        14 => 'e',
        _ => 'f',
    }
}

fn hex_string(bs: &Vec<u8>) -> (r: String)
    ensures
        r@ == hex_of(bs@),
{
    let mut out: Vec<char> = Vec::new();
    let mut i: usize = 0;
    proof {
        assert(bs@.take(0) =~= Seq::<u8>::empty());
    }
    while i < bs.len()
        invariant
            0 <= i <= bs@.len(),
            out@ == hex_of(bs@.take(i as int)),
        decreases bs@.len() - i,
    {
        let b = bs[i];
        out.push(hex_digit_exec(b / 16));
        out.push(hex_digit_exec(b % 16));
        i += 1;
        proof {
            assert(bs@.take(i as int).drop_last() =~= bs@.take(i - 1));
            assert(bs@.take(i as int).last() == bs@[i - 1]);
        }
    }
    proof {
        assert(bs@.take(bs@.len() as int) =~= bs@);
    }
    crate::text::string_from_chars(&out)
}

/// The checksum of a configuration text.
fn compute_checksum(content: &str) -> (r: String)
    ensures
        r@ == checksum_of(content@),
{
    hex_string(&sha3_256(content))
}

fn dup_sing_sim_input(s: &SingSimInput) -> (r: SingSimInput)
    ensures
        r == *s,
{
    SingSimInput {
        application: s.application.clone(),
        content: s.content.clone(),
        pegsfile: s.pegsfile.clone(),
        checksum: s.checksum.clone(),
        filename: s.filename.clone(),
    }
}

// ---------------------------------------------------------------------------
// building a single-run input

impl SingSimInputBuilder {
    pub fn new() -> (r: Self)
        ensures
            r.application is None,
            r.content is None,
            r.pegsfile is None,
            r.filename is None,
    {
        SingSimInputBuilder { application: None, content: None, pegsfile: None, filename: None }
    }

    pub fn application(self, app: &str) -> (r: Self)
        ensures
            r.application matches Some(s) && s@ == app@,
            r.content == self.content,
            r.pegsfile == self.pegsfile,
            r.filename == self.filename,
    {
        SingSimInputBuilder { application: Some(String::from_str(app)), ..self }
    }

    pub fn content(self, s: &str) -> (r: Self)
        ensures
            r.content matches Some(c) && c@ == s@,
            r.application == self.application,
            r.pegsfile == self.pegsfile,
            r.filename == self.filename,
    {
        SingSimInputBuilder { content: Some(String::from_str(s)), ..self }
    }

    pub fn filename(self, s: &str) -> (r: Self)
        ensures
            r.filename matches Some(c) && c@ == s@,
            r.application == self.application,
            r.content == self.content,
            r.pegsfile == self.pegsfile,
    {
        SingSimInputBuilder { filename: Some(String::from_str(s)), ..self }
    }

    pub fn pegsfile(self, s: &str) -> (r: Self)
        ensures
            r.pegsfile matches Some(c) && c@ == s@,
            r.application == self.application,
            r.content == self.content,
            r.filename == self.filename,
    {
        SingSimInputBuilder { pegsfile: Some(String::from_str(s)), ..self }
    }

    /// Finishes the build; the checksum is computed from the content.  Every
    /// field must have been set.
    pub fn build(self) -> (r: Result<SingSimInput, String>)
        ensures
            (self.application is Some && self.content is Some && self.pegsfile is Some
                && self.filename is Some) ==> (r matches Ok(sim) && sim.application
                == self.application->0 && sim.content == self.content->0 && sim.pegsfile
                == self.pegsfile->0 && sim.filename == self.filename->0 && sim.checksum@
                == checksum_of(self.content->0@)),
            self.content is None ==> (r matches Err(m) && m@
                == "Cannot compute checksum. Are all fields of builder set?"@),
            (self.content is Some && !(self.application is Some && self.pegsfile is Some
                && self.filename is Some)) ==> (r matches Err(m) && m@
                == "All fields of builder should be set."@),
    {
        let content = match self.content {
            Some(c) => c,
            None => {
                return Err(
                    String::from_str("Cannot compute checksum. Are all fields of builder set?"),
                );
            },
        };
        let checksum = compute_checksum(content.as_str());
        match (self.application, self.pegsfile, self.filename) {
            (Some(application), Some(pegsfile), Some(filename)) => Ok(
                SingSimInput { application, content, pegsfile, checksum, filename },
            ),
            _ => Err(String::from_str("All fields of builder should be set.")),
        }
    }
}

// ---------------------------------------------------------------------------
// validation and combination of split jobs

/// No two sub-runs share a seed pair.
pub open spec fn seeds_unique(seeds: Seq<Seed>) -> bool {
    forall|i: int, j: int| 0 <= i < j < seeds.len() ==> seeds[i] != seeds[j]
}

/// A split job is consistent: one case count per seed, all seeds distinct.
pub open spec fn par_input_valid(p: ParSimInput) -> bool {
    p.seeds@.len() == p.ncases@.len() && seeds_unique(p.seeds@)
}

pub open spec fn length_mismatch_msg(ns: int, nc: int) -> Seq<char> {
    "Got "@ + crate::numbers::dec_str(ns) + " seeds, but "@ + crate::numbers::dec_str(nc)
        + " ncases"@
}

pub open spec fn duplicate_seeds_msg() -> Seq<char> {
    "Duplicate seeds"@
}

impl ParSimInput {
    /// Checks the split-job invariant: as many case counts as seeds, and no
    /// seed pair used twice.
    pub fn validate(&self) -> (r: Result<(), String>)
        ensures
            r is Ok <==> par_input_valid(*self),
            self.seeds@.len() != self.ncases@.len() ==> (r matches Err(m) && m@
                == length_mismatch_msg(self.seeds@.len() as int, self.ncases@.len() as int)),
            (self.seeds@.len() == self.ncases@.len() && !seeds_unique(self.seeds@)) ==> (
            r matches Err(m) && m@ == duplicate_seeds_msg()),
    {
        if self.seeds.len() != self.ncases.len() {
            let a = crate::text::string_from_chars(
                &crate::numbers::u64_to_chars(self.seeds.len() as u64),
            );
            let b = crate::text::string_from_chars(
                &crate::numbers::u64_to_chars(self.ncases.len() as u64),
            );
            return Err(
                String::from_str("Got ").concat(a.as_str()).concat(" seeds, but ").concat(
                    b.as_str(),
                ).concat(" ncases"),
            );
        }
        let mut i: usize = 0;
        while i < self.seeds.len()
            invariant
                self.seeds@.len() == self.ncases@.len(),
                0 <= i <= self.seeds@.len(),
                forall|a: int, b: int| 0 <= a < b < self.seeds@.len() && a < i ==> self.seeds@[a]
                    != self.seeds@[b],
            decreases self.seeds@.len() - i,
        {
            let mut j: usize = i + 1;
            while j < self.seeds.len()
                invariant
                    self.seeds@.len() == self.ncases@.len(),
                    0 <= i < j <= self.seeds@.len(),
                    forall|b: int| i < b < j ==> self.seeds@[i as int] != self.seeds@[b],
                decreases self.seeds@.len() - j,
            {
                let a = self.seeds[i];
                let b = self.seeds[j];
                if a.0 == b.0 && a.1 == b.1 {
                    return Err(String::from_str("Duplicate seeds"));
                }
                j += 1;
            }
            i += 1;
        }
        Ok(())
    }
}

/// All prototypes of a set of split jobs carry the same checksum.
pub open spec fn checksums_agree(inps: Seq<ParSimInput>) -> bool {
    forall|i: int|
        0 <= i < inps.len() ==> (#[trigger] inps[i]).prototype.checksum@
            == inps[0].prototype.checksum@
}

/// The seeds of a set of split jobs, in order.
pub open spec fn concat_seeds(inps: Seq<ParSimInput>) -> Seq<Seed>
    decreases inps.len(),
{
    if inps.len() == 0 {
        Seq::empty()
    } else {
        concat_seeds(inps.drop_last()) + inps.last().seeds@
    }
}

/// The case counts of a set of split jobs, in order.
pub open spec fn concat_ncases(inps: Seq<ParSimInput>) -> Seq<u64>
    decreases inps.len(),
{
    if inps.len() == 0 {
        Seq::empty()
    } else {
        concat_ncases(inps.drop_last()) + inps.last().ncases@
    }
}

pub open spec fn combine_empty_msg() -> Seq<char> {
    "Cannot combine empty collection of simulations."@
}

pub open spec fn combine_checksum_msg() -> Seq<char> {
    "Cannot combine simulations with different checksums"@
}

/// What combining split jobs yields: the first prototype with all seeds and
/// case counts concatenated, when the checksums agree and the union is
/// itself a consistent job.
pub open spec fn combine_inputs_matches(inps: Seq<ParSimInput>, r: Result<
    ParSimInput,
    String,
>) -> bool {
    if inps.len() == 0 {
        r matches Err(m) && m@ == combine_empty_msg()
    } else if !checksums_agree(inps) {
        r matches Err(m) && m@ == combine_checksum_msg()
    } else {
        let seeds = concat_seeds(inps);
        let ncases = concat_ncases(inps);
        if seeds.len() != ncases.len() {
            r matches Err(m) && m@ == length_mismatch_msg(seeds.len() as int, ncases.len() as int)
        } else if !seeds_unique(seeds) {
            r matches Err(m) && m@ == duplicate_seeds_msg()
        } else {
            r matches Ok(p) && p.prototype == inps[0].prototype && p.seeds@ == seeds && p.ncases@
                == ncases
        }
    }
}

impl ParSimInput {
    fn validate_combine(inps: &[ParSimInput]) -> (r: Result<(), String>)
        ensures
            r is Ok <==> (inps@.len() > 0 && checksums_agree(inps@)),
            inps@.len() == 0 ==> (r matches Err(m) && m@ == combine_empty_msg()),
            (inps@.len() > 0 && !checksums_agree(inps@)) ==> (r matches Err(m) && m@
                == combine_checksum_msg()),
    {
        if inps.len() == 0 {
            return Err(String::from_str("Cannot combine empty collection of simulations."));
        }
        let mut i: usize = 0;
        while i < inps.len()
            invariant
                0 <= i <= inps@.len(),
                inps@.len() > 0,
                forall|k: int|
                    0 <= k < i ==> (#[trigger] inps@[k]).prototype.checksum@
                        == inps@[0].prototype.checksum@,
            decreases inps@.len() - i,
        {
            if !inps[i].prototype.checksum.eq(&inps[0].prototype.checksum) {
                return Err(
                    String::from_str("Cannot combine simulations with different checksums"),
                );
            }
            i += 1;
        }
        Ok(())
    }

    /// Merges independently built split jobs of one prototype into one job.
    pub fn combine(inps: &[ParSimInput]) -> (r: Result<ParSimInput, String>)
        ensures
            combine_inputs_matches(inps@, r),
    {
        match Self::validate_combine(inps) {
            Err(m) => {
                return Err(m);
            },
            Ok(()) => {},
        }
        let prototype = dup_sing_sim_input(&inps[0].prototype);
        let mut seeds: Vec<Seed> = Vec::new();
        let mut ncases: Vec<u64> = Vec::new();
        let mut i: usize = 0;
        proof {
            assert(inps@.take(0) =~= Seq::<ParSimInput>::empty());
        }
        while i < inps.len()
            invariant
                0 <= i <= inps@.len(),
                seeds@ == concat_seeds(inps@.take(i as int)),
                ncases@ == concat_ncases(inps@.take(i as int)),
            decreases inps@.len() - i,
        {
            let mut j: usize = 0;
            let ghost base_s = seeds@;
            let ghost base_n = ncases@;
            while j < inps[i].seeds.len()
                invariant
                    0 <= i < inps@.len(),
                    0 <= j <= inps@[i as int].seeds@.len(),
                    seeds@ == base_s + inps@[i as int].seeds@.take(j as int),
                decreases inps@[i as int].seeds@.len() - j,
            {
                seeds.push(inps[i].seeds[j]);
                j += 1;
                proof {
                    assert(base_s + inps@[i as int].seeds@.take(j as int) =~= seeds@);
                }
            }
            let mut j2: usize = 0;
            while j2 < inps[i].ncases.len()
                invariant
                    0 <= i < inps@.len(),
                    0 <= j2 <= inps@[i as int].ncases@.len(),
                    ncases@ == base_n + inps@[i as int].ncases@.take(j2 as int),
                decreases inps@[i as int].ncases@.len() - j2,
            {
                ncases.push(inps[i].ncases[j2]);
                j2 += 1;
                proof {
                    assert(base_n + inps@[i as int].ncases@.take(j2 as int) =~= ncases@);
                }
            }
            i += 1;
            proof {
                assert(inps@.take(i as int).drop_last() =~= inps@.take(i - 1));
                assert(inps@.take(i as int).last() == inps@[i - 1]);
                assert(base_s + inps@[i - 1].seeds@.take(inps@[i - 1].seeds@.len() as int)
                    =~= base_s + inps@[i - 1].seeds@);
                assert(base_n + inps@[i - 1].ncases@.take(inps@[i - 1].ncases@.len() as int)
                    =~= base_n + inps@[i - 1].ncases@);
            }
        }
        proof {
            assert(inps@.take(inps@.len() as int) =~= inps@);
        }
        let ret = ParSimInput { prototype, seeds, ncases };
        match ret.validate() {
            Ok(()) => Ok(ret),
            Err(m) => Err(m),
        }
    }
}

// ---------------------------------------------------------------------------
// splitting a single-run input

/// The default seeds of an `n`-way split: `(42, 1)` through `(42, n)`.
pub open spec fn default_seeds(n: int) -> Seq<Seed> {
    Seq::new(n as nat, |i: int| (42usize, (i + 1) as usize))
}

/// What `split_fancy` yields: the prototype kept whole, the given seeds and
/// case counts — or defaults generated from the configuration — paired up.
pub open spec fn split_fancy_matches(
    proto: SingSimInput,
    mncases: Option<Vec<u64>>,
    mseeds: Option<Vec<Seed>>,
    nthreads: int,
    r: Result<ParSimInput, String>,
) -> bool {
    match spec_parse(proto.content@) {
        Err(ParseErrV::CannotParse(l)) => r matches Err(m) && m@ == cannot_parse_msg(l),
        Err(ParseErrV::UnexpectedEnd) => r matches Err(m) && m@ == end_of_file_msg(),
        Ok(ts) => {
            let n: int = match mseeds {
                Some(s) => s@.len() as int,
                None => match mncases {
                    Some(c) => c@.len() as int,
                    None => nthreads,
                },
            };
            let seeds_v: Seq<Seed> = match mseeds {
                Some(s) => s@,
                None => default_seeds(n),
            };
            match mncases {
                Some(c) => r matches Ok(p) && p.prototype == proto && p.seeds@ == seeds_v
                    && p.ncases@ == c@,
                None => {
                    if no_key(ts, ncase_key()) {
                        r matches Err(m) && m@ == crate::tokenizer::missing_ncase_msg()
                    } else if ambiguous_key(ts, ncase_key()) {
                        r matches Err(m) && m@ == crate::tokenizer::ambiguous_ncase_msg()
                    } else if !crate::numbers::u64_parses(crate::tokenizer::ncase_text(ts)) {
                        r matches Err(m) && m@ == crate::tokenizer::bad_ncase_msg(
                            crate::tokenizer::ncase_text(ts),
                        )
                    } else if n == 0 {
                        r matches Err(m) && m@ == "Cannot split into zero parts"@
                    } else if ncase_value(ts) / n == 0 {
                        r matches Err(m) && m@ == "Cannot split: fewer cases than parts"@
                    } else {
                        r matches Ok(p) && p.prototype == proto && p.seeds@ == seeds_v
                            && p.ncases@.len() == n && (forall|j: int|
                            0 <= j < n ==> #[trigger] p.ncases@[j] == ncase_value(ts) / n)
                    }
                },
            }
        },
    }
}

impl SingSimInput {
    /// Pairs this input with explicit seeds and case counts.
    pub fn split(self, ncases: Vec<u64>, seeds: Vec<Seed>) -> (r: ParSimInput)
        ensures
            r.prototype == self,
            r.seeds == seeds,
            r.ncases == ncases,
    {
        ParSimInput { seeds, prototype: self, ncases }
    }

    /// Splits into `n` parts with generated seeds and case counts.
    pub fn splitn(self, n: usize) -> (r: Result<ParSimInput, String>)
        ensures
            split_fancy_matches(self, None, None, n as int, r),
    {
        self.split_fancy(None, None, n)
    }

    /// Splits with any combination of explicit seeds and case counts, the
    /// missing side generated: default seeds `(42, i)`, and case counts of
    /// `floor(ncase / n)` read from the configuration.
    pub fn split_fancy(
        self,
        mncases: Option<Vec<u64>>,
        mseeds: Option<Vec<Seed>>,
        nthreads: usize,
    ) -> (r: Result<ParSimInput, String>)
        ensures
            split_fancy_matches(self, mncases, mseeds, nthreads as int, r),
    {
        let stream = match TokenStream::parse_string(self.content.as_str()) {
            Ok(s) => s,
            Err(m) => {
                return Err(m);
            },
        };
        let n: usize = match &mseeds {
            Some(s) => s.len(),
            None => match &mncases {
                Some(c) => c.len(),
                None => nthreads,
            },
        };
        let seeds: Vec<Seed> = match mseeds {
            Some(s) => s,
            None => match stream.generate_seeds(n) {
                Ok(s) => {
                    proof {
                        assert(s@ =~= default_seeds(n as int));
                    }
                    s
                },
                Err(m) => {
                    return Err(m);
                },
            },
        };
        let ncases: Vec<u64> = match mncases {
            Some(c) => c,
            None => match stream.generate_ncases(n) {
                Ok(c) => c,
                Err(m) => {
                    return Err(m);
                },
            },
        };
        Ok(self.split(ncases, seeds))
    }
}

/// Default seeds are pairwise distinct, and default case counts lose at
/// most one case per part: a split of `total` cases into `n` parts keeps
/// more than `total - n` of them and invents none.
pub proof fn lemma_default_split_invariants(p: ParSimInput, total: int, n: int)
    requires
        1 <= n <= usize::MAX,
        0 <= total <= u64::MAX,
        p.seeds@ == default_seeds(n),
        p.ncases@.len() == n,
        forall|j: int| 0 <= j < n ==> #[trigger] p.ncases@[j] == total / n,
    ensures
        seeds_unique(p.seeds@),
        par_input_valid(p),
        total - n < sum_u64(p.ncases@) <= total,
{
    assert forall|i: int, j: int| 0 <= i < j < p.seeds@.len() implies p.seeds@[i]
        != p.seeds@[j] by {
        assert(p.seeds@[i] == (42usize, (i + 1) as usize));
        assert(p.seeds@[j] == (42usize, (j + 1) as usize));
        assert(p.seeds@[i].1 as int == i + 1);
        assert(p.seeds@[j].1 as int == j + 1);
    }
    let q = total / n;
    assert(0 <= q <= u64::MAX) by {
        vstd::arithmetic::div_mod::lemma_fundamental_div_mod(total, n);
        assert(total == n * q + total % n);
        if q > total {
            vstd::arithmetic::mul::lemma_mul_inequality(1, n, q);
            assert(n * q >= 1 * q);
        }
    }
    lemma_const_sum(p.ncases@, q as u64);
    assert(sum_u64(p.ncases@) == n * q);
    vstd::arithmetic::div_mod::lemma_fundamental_div_mod(total, n);
    assert(total == n * q + total % n);
}

// ---------------------------------------------------------------------------
// per-run reports

pub open spec fn views_rs(v: Seq<RegionScore>) -> Seq<RegionScoreV> {
    Seq::new(v.len(), |i: int| v[i]@)
}

/// The three fields a run's stdout yields, a hard scan failure widening to
/// all of them.
pub open spec fn parsed_fields(stdout: Seq<char>) -> (Result<Seq<RegionScoreV>, Seq<char>>, Result<
    Seq<char>,
    Seq<char>,
>, Result<bool, Seq<char>>) {
    match crate::output_parser::spec_parse_output(stdout) {
        Ok(o) => (o.dose, o.total_cpu_time, o.simulation_finished),
        Err(m) => (Err(m), Err(m), Err(m)),
    }
}

/// What `parse_output` yields for a finished run.
pub open spec fn parse_output_matches(stdout: Seq<char>, out: SingSimParsedOutput) -> bool {
    let f = parsed_fields(stdout);
    &&& (match (f.0, out.dose) {
        (Ok(ds), Ok(dv)) => dv@.len() == ds.len() && (forall|i: int|
            0 <= i < ds.len() ==> (#[trigger] dv@[i])@ == ds[i]),
        (Err(m), Err(e)) => e@ == m,
        _ => false,
    })
    &&& (match (f.1, out.total_cpu_time) {
        (Ok(v), Ok(sv)) => sv@ == v,
        (Err(m), Err(e)) => e@ == m,
        _ => false,
    })
    &&& (match (f.2, out.simulation_finished) {
        (Ok(b), Ok(c)) => b == c,
        (Err(m), Err(e)) => e@ == m,
        _ => false,
    })
}

/// What a per-run report holds: the three parsed fields wrapped, the exit
/// status kept, and — unless the run plainly finished, or the full variant
/// was asked for — the diagnostic texts dropped.
pub open spec fn report_matches(fin: SingSimFinished, full: bool, r: SingSimReport) -> bool {
    let f = parsed_fields(fin.stdout@);
    let fin_true = f.2 == Ok::<bool, Seq<char>>(true);
    &&& r.exit_status == Omittable::Available(fin.exit_status)
    &&& (match (f.0, r.dose) {
        (Ok(ds), Omittable::Available(dv)) => dv@.len() == ds.len() && (forall|i: int|
            0 <= i < ds.len() ==> (#[trigger] dv@[i])@ == ds[i]),
        (Err(m), Omittable::Fail(e)) => e@ == m,
        _ => false,
    })
    &&& (match (f.1, r.total_cpu_time) {
        (Ok(v), Omittable::Available(sv)) => sv@ == v,
        (Err(m), Omittable::Fail(e)) => e@ == m,
        _ => false,
    })
    &&& (match (f.2, r.simulation_finished) {
        (Ok(b), Omittable::Available(c)) => b == c,
        (Err(m), Omittable::Fail(e)) => e@ == m,
        _ => false,
    })
    &&& (if !full && fin_true {
        r.stdout is Omitted && r.stderr is Omitted && r.input is Omitted
    } else {
        r.stdout == Omittable::Available(fin.stdout) && r.stderr == Omittable::Available(
            fin.stderr,
        ) && r.input == Omittable::Available(fin.input)
    })
}

impl SingSimFinished {
    /// Parses this run's stdout; a hard scan failure fails all three
    /// fields with the same message.
    pub fn parse_output(&self) -> (out: SingSimParsedOutput)
        ensures
            parse_output_matches(self.stdout@, out),
    {
        match crate::output_parser::parse_simulation_output(self.stdout.as_str()) {
            Ok(out) => out,
            Err(m) => SingSimParsedOutput {
                dose: Err(m.clone()),
                total_cpu_time: Err(m.clone()),
                simulation_finished: Err(m),
            },
        }
    }

    fn report_with(&self, full: bool) -> (r: SingSimReport)
        ensures
            report_matches(*self, full, r),
    {
        let out = self.parse_output();
        let exit_status = Omittable::Available(self.exit_status);
        let dose = Omittable::from_result(out.dose);
        let total_cpu_time = Omittable::from_result(out.total_cpu_time);
        let simulation_finished = Omittable::from_result(out.simulation_finished);
        let fin_true = match &simulation_finished {
            Omittable::Available(b) => *b,
            _ => false,
        };
        if !full && fin_true {
            SingSimReport {
                input: Omittable::Omitted,
                stderr: Omittable::Omitted,
                stdout: Omittable::Omitted,
                exit_status,
                dose,
                total_cpu_time,
                simulation_finished,
            }
        } else {
            SingSimReport {
                input: Omittable::Available(dup_sing_sim_input(&self.input)),
                stderr: Omittable::Available(self.stderr.clone()),
                stdout: Omittable::Available(self.stdout.clone()),
                exit_status,
                dose,
                total_cpu_time,
                simulation_finished,
            }
        }
    }

    /// The report of one sub-run; diagnostics are dropped when the run
    /// plainly finished.
    pub fn report(&self) -> (r: SingSimReport)
        ensures
            report_matches(*self, false, r),
    {
        self.report_with(false)
    }

    /// The report of one sub-run with all diagnostics kept, whatever the
    /// outcome.
    pub fn report_full(&self) -> (r: SingSimReport)
        ensures
            report_matches(*self, true, r),
    {
        self.report_with(true)
    }
}

// ---------------------------------------------------------------------------
// aggregation

/// The first run whose finished flag failed.
pub open spec fn first_fin_fail(runs: Seq<SingSimReport>, i: int) -> int
    decreases runs.len() - i,
{
    if i < 0 || i >= runs.len() {
        runs.len() as int
    } else if runs[i].simulation_finished is Fail {
        i
    } else {
        first_fin_fail(runs, i + 1)
    }
}

pub open spec fn fin_has_omitted(runs: Seq<SingSimReport>) -> bool {
    exists|i: int| 0 <= i < runs.len() && (#[trigger] runs[i]).simulation_finished is Omitted
}

pub open spec fn fin_all_true(runs: Seq<SingSimReport>) -> bool {
    forall|i: int|
        0 <= i < runs.len() ==> (#[trigger] runs[i]).simulation_finished == Omittable::Available(
            true,
        )
}

/// The finished flag of the whole job: the first failure wins, an omission
/// outranks values, and otherwise the logical AND of every run.
pub open spec fn computed_finished(runs: Seq<SingSimReport>, r: Omittable<bool>) -> bool {
    let k = first_fin_fail(runs, 0);
    if k < runs.len() {
        r == runs[k].simulation_finished
    } else if fin_has_omitted(runs) {
        r is Omitted
    } else {
        r matches Omittable::Available(b) && b == fin_all_true(runs)
    }
}

/// The first run whose CPU time failed.
pub open spec fn first_cpu_fail(runs: Seq<SingSimReport>, i: int) -> int
    decreases runs.len() - i,
{
    if i < 0 || i >= runs.len() {
        runs.len() as int
    } else if runs[i].total_cpu_time is Fail {
        i
    } else {
        first_cpu_fail(runs, i + 1)
    }
}

pub open spec fn cpu_has_omitted(runs: Seq<SingSimReport>) -> bool {
    exists|i: int| 0 <= i < runs.len() && (#[trigger] runs[i]).total_cpu_time is Omitted
}

/// The job's CPU times: the first failure wins, an omission outranks
/// values, and otherwise every run's seconds text, in run order — their sum
/// being the caller's numeric work.
pub open spec fn computed_cpu(runs: Seq<SingSimReport>, r: Omittable<Vec<String>>) -> bool {
    let k = first_cpu_fail(runs, 0);
    if k < runs.len() {
        match runs[k].total_cpu_time {
            Omittable::Fail(m) => r == Omittable::<Vec<String>>::Fail(m),
            _ => false,
        }
    } else if cpu_has_omitted(runs) {
        r is Omitted
    } else {
        r matches Omittable::Available(v) && v@.len() == runs.len() && (forall|i: int|
            0 <= i < runs.len() ==> (#[trigger] runs[i]).total_cpu_time == Omittable::Available(
                v@[i],
            ))
    }
}

/// The first run whose dose table is not present.
pub open spec fn first_dose_gap(runs: Seq<SingSimReport>, i: int) -> int
    decreases runs.len() - i,
{
    if i < 0 || i >= runs.len() {
        runs.len() as int
    } else if !(runs[i].dose is Available) {
        i
    } else {
        first_dose_gap(runs, i + 1)
    }
}

/// The message a missing dose table reads as: its failure, or `Omitted`.
pub open spec fn dose_gap_msg(o: Omittable<Vec<RegionScore>>) -> Seq<char> {
    match o {
        Omittable::Fail(m) => m@,
        _ => "Omitted"@,
    }
}

pub open spec fn dose_table(r: SingSimReport) -> Seq<RegionScoreV> {
    match r.dose {
        Omittable::Available(v) => views_rs(v@),
        _ => Seq::empty(),
    }
}

pub open spec fn geom_count_msg() -> Seq<char> {
    "Simulations have inconsistent numbers of scoring geometries."@
}

pub open spec fn geom_names_msg() -> Seq<char> {
    "Simulations have inconsistent scoring regions"@
}

/// How a run's dose table disagrees with the first run's: 1 for a
/// different region count, 2 for a renamed region, 0 for agreement.
pub open spec fn dose_bad_kind(runs: Seq<SingSimReport>, i: int) -> int {
    if dose_table(runs[i]).len() != dose_table(runs[0]).len() {
        1
    } else if exists|j: int|
        0 <= j < dose_table(runs[0]).len() && (#[trigger] dose_table(runs[i])[j]).name
            != dose_table(runs[0])[j].name {
        2
    } else {
        0
    }
}

/// The first run disagreeing with the first run's table.
pub open spec fn first_bad_dose_run(runs: Seq<SingSimReport>, i: int) -> int
    decreases runs.len() - i,
{
    if i < 1 || i >= runs.len() {
        runs.len() as int
    } else if dose_bad_kind(runs, i) != 0 {
        i
    } else {
        first_bad_dose_run(runs, i + 1)
    }
}

/// The aggregated dose: every run present, every table naming the same
/// regions in the same order; the result is, per region, every run's score
/// in run order — summing and averaging them is the caller's numeric work.
pub open spec fn computed_dose(runs: Seq<SingSimReport>, r: Omittable<Vec<RegionDose>>) -> bool {
    let k = first_dose_gap(runs, 0);
    if k < runs.len() {
        r matches Omittable::Fail(m) && m@ == dose_gap_msg(runs[k].dose)
    } else if runs.len() == 0 {
        r matches Omittable::Available(v) && v@.len() == 0
    } else {
        let b = first_bad_dose_run(runs, 1);
        if b < runs.len() {
            r matches Omittable::Fail(m) && m@ == (if dose_bad_kind(runs, b) == 1 {
                geom_count_msg()
            } else {
                geom_names_msg()
            })
        } else {
            r matches Omittable::Available(mat) && mat@.len() == dose_table(runs[0]).len() && (
            forall|j: int|
                0 <= j < mat@.len() ==> {
                    let row = #[trigger] mat@[j];
                    &&& row.name@ == dose_table(runs[0])[j].name
                    &&& row.per_run@.len() == runs.len()
                    &&& forall|k2: int|
                        0 <= k2 < runs.len() ==> (#[trigger] row.per_run@[k2])@ == dose_table(
                            runs[k2],
                        )[j]
                })
        }
    }
}

/// A report whose three aggregate fields are exactly the recomputation from
/// its per-run reports.
pub open spec fn recalculated(r: ParSimReport) -> bool {
    &&& computed_finished(r.single_runs@, r.simulation_finished)
    &&& computed_cpu(r.single_runs@, r.total_cpu_time)
    &&& computed_dose(r.single_runs@, r.dose)
}

proof fn lemma_first_fin_fail(runs: Seq<SingSimReport>, i: int)
    requires
        0 <= i <= runs.len(),
    ensures
        i <= first_fin_fail(runs, i) <= runs.len(),
        first_fin_fail(runs, i) < runs.len() ==> runs[first_fin_fail(runs, i)].simulation_finished
            is Fail,
        forall|j: int|
            i <= j < first_fin_fail(runs, i) ==> !((#[trigger] runs[j]).simulation_finished
                is Fail),
    decreases runs.len() - i,
{
    if i < runs.len() && !(runs[i].simulation_finished is Fail) {
        lemma_first_fin_fail(runs, i + 1);
    }
}

proof fn lemma_first_cpu_fail(runs: Seq<SingSimReport>, i: int)
    requires
        0 <= i <= runs.len(),
    ensures
        i <= first_cpu_fail(runs, i) <= runs.len(),
        first_cpu_fail(runs, i) < runs.len() ==> runs[first_cpu_fail(runs, i)].total_cpu_time
            is Fail,
        forall|j: int|
            i <= j < first_cpu_fail(runs, i) ==> !((#[trigger] runs[j]).total_cpu_time is Fail),
    decreases runs.len() - i,
{
    if i < runs.len() && !(runs[i].total_cpu_time is Fail) {
        lemma_first_cpu_fail(runs, i + 1);
    }
}

proof fn lemma_first_dose_gap(runs: Seq<SingSimReport>, i: int)
    requires
        0 <= i <= runs.len(),
    ensures
        i <= first_dose_gap(runs, i) <= runs.len(),
        first_dose_gap(runs, i) < runs.len() ==> !(runs[first_dose_gap(runs, i)].dose
            is Available),
        forall|j: int| i <= j < first_dose_gap(runs, i) ==> (#[trigger] runs[j]).dose is Available,
    decreases runs.len() - i,
{
    if i < runs.len() && runs[i].dose is Available {
        lemma_first_dose_gap(runs, i + 1);
    }
}

proof fn lemma_first_bad_dose_run(runs: Seq<SingSimReport>, i: int)
    requires
        1 <= i <= runs.len(),
    ensures
        i <= first_bad_dose_run(runs, i) <= runs.len(),
        first_bad_dose_run(runs, i) < runs.len() ==> dose_bad_kind(
            runs,
            first_bad_dose_run(runs, i),
        ) != 0,
        forall|j: int| i <= j < first_bad_dose_run(runs, i) ==> dose_bad_kind(runs, j) == 0,
    decreases runs.len() - i,
{
    if i < runs.len() && dose_bad_kind(runs, i) == 0 {
        lemma_first_bad_dose_run(runs, i + 1);
    }
}

fn compute_simulation_finished(runs: &Vec<SingSimReport>) -> (r: Omittable<bool>)
    ensures
        computed_finished(runs@, r),
{
    proof {
        lemma_first_fin_fail(runs@, 0);
    }
    let mut acc = true;
    let mut omitted = false;
    let mut i: usize = 0;
    while i < runs.len()
        invariant
            0 <= i <= runs@.len(),
            first_fin_fail(runs@, 0) >= i,
            omitted == exists|j: int|
                0 <= j < i && (#[trigger] runs@[j]).simulation_finished is Omitted,
            acc == forall|j: int|
                0 <= j < i ==> (#[trigger] runs@[j]).simulation_finished == Omittable::Available(
                    true,
                ) || runs@[j].simulation_finished is Omitted,
            forall|j: int| 0 <= j < i ==> !((#[trigger] runs@[j]).simulation_finished is Fail),
            first_fin_fail(runs@, 0) <= runs@.len(),
            first_fin_fail(runs@, 0) < runs@.len() ==> runs@[first_fin_fail(
                runs@,
                0,
            )].simulation_finished is Fail,
            forall|j: int|
                0 <= j < first_fin_fail(runs@, 0) ==> !((#[trigger] runs@[j]).simulation_finished
                    is Fail),
        decreases runs@.len() - i,
    {
        match &runs[i].simulation_finished {
            Omittable::Fail(m) => {
                proof {
                    if first_fin_fail(runs@, 0) != i as int {
                        assert(!(runs@[first_fin_fail(runs@, 0)].simulation_finished is Fail));
                    }
                }
                return Omittable::Fail(m.clone());
            },
            Omittable::Omitted => {
                omitted = true;
            },
            Omittable::Available(b) => {
                acc = acc && *b;
            },
        }
        i += 1;
    }
    proof {
        assert(first_fin_fail(runs@, 0) == runs@.len());
        if !omitted {
            assert(acc == fin_all_true(runs@));
        }
    }
    if omitted {
        Omittable::Omitted
    } else {
        Omittable::Available(acc)
    }
}

fn gather_cpu_times(runs: &Vec<SingSimReport>) -> (r: Omittable<Vec<String>>)
    ensures
        computed_cpu(runs@, r),
{
    proof {
        lemma_first_cpu_fail(runs@, 0);
    }
    let mut acc: Vec<String> = Vec::new();
    let mut omitted = false;
    let mut i: usize = 0;
    while i < runs.len()
        invariant
            0 <= i <= runs@.len(),
            first_cpu_fail(runs@, 0) >= i,
            omitted == exists|j: int|
                0 <= j < i && (#[trigger] runs@[j]).total_cpu_time is Omitted,
            !omitted ==> acc@.len() == i && forall|j: int|
                0 <= j < i ==> (#[trigger] runs@[j]).total_cpu_time == Omittable::Available(
                    acc@[j],
                ),
            forall|j: int| 0 <= j < i ==> !((#[trigger] runs@[j]).total_cpu_time is Fail),
            first_cpu_fail(runs@, 0) <= runs@.len(),
            first_cpu_fail(runs@, 0) < runs@.len() ==> runs@[first_cpu_fail(
                runs@,
                0,
            )].total_cpu_time is Fail,
            forall|j: int|
                0 <= j < first_cpu_fail(runs@, 0) ==> !((#[trigger] runs@[j]).total_cpu_time
                    is Fail),
        decreases runs@.len() - i,
    {
        match &runs[i].total_cpu_time {
            Omittable::Fail(m) => {
                proof {
                    if first_cpu_fail(runs@, 0) != i as int {
                        assert(!(runs@[first_cpu_fail(runs@, 0)].total_cpu_time is Fail));
                    }
                }
                return Omittable::Fail(m.clone());
            },
            Omittable::Omitted => {
                omitted = true;
            },
            Omittable::Available(s) => {
                acc.push(s.clone());
            },
        }
        i += 1;
    }
    proof {
        assert(first_cpu_fail(runs@, 0) == runs@.len());
    }
    if omitted {
        Omittable::Omitted
    } else {
        Omittable::Available(acc)
    }
}

fn dup_region_score(s: &RegionScore) -> (r: RegionScore)
    ensures
        r == *s,
{
    RegionScore {
        name: s.name.clone(),
        value: s.value.clone(),
        rstd_percent: s.rstd_percent.clone(),
    }
}

fn compute_dose(runs: &Vec<SingSimReport>) -> (r: Omittable<Vec<RegionDose>>)
    ensures
        computed_dose(runs@, r),
{
    proof {
        lemma_first_dose_gap(runs@, 0);
    }
    // every run must have its table
    let mut i: usize = 0;
    while i < runs.len()
        invariant
            0 <= i <= runs@.len(),
            forall|j: int| 0 <= j < i ==> (#[trigger] runs@[j]).dose is Available,
            first_dose_gap(runs@, 0) >= i,
            first_dose_gap(runs@, 0) <= runs@.len(),
            first_dose_gap(runs@, 0) < runs@.len() ==> !(runs@[first_dose_gap(runs@, 0)].dose
                is Available),
            forall|j: int| 0 <= j < first_dose_gap(runs@, 0) ==> (#[trigger] runs@[j]).dose
                is Available,
        decreases runs@.len() - i,
    {
        match &runs[i].dose {
            Omittable::Available(_) => {},
            Omittable::Fail(m) => {
                proof {
                    if first_dose_gap(runs@, 0) != i as int {
                        assert(runs@[first_dose_gap(runs@, 0)].dose is Available);
                    }
                }
                return Omittable::Fail(m.clone());
            },
            Omittable::Omitted => {
                proof {
                    if first_dose_gap(runs@, 0) != i as int {
                        assert(runs@[first_dose_gap(runs@, 0)].dose is Available);
                    }
                }
                return Omittable::Fail(String::from_str("Omitted"));
            },
        }
        i += 1;
    }
    proof {
        assert(first_dose_gap(runs@, 0) == runs@.len());
    }
    if runs.len() == 0 {
        let empty: Vec<RegionDose> = Vec::new();
        return Omittable::Available(empty);
    }
    let d0_len = match &runs[0].dose {
        Omittable::Available(v) => v.len(),
        _ => 0,
    };
    proof {
        lemma_first_bad_dose_run(runs@, 1);
        assert(d0_len == dose_table(runs@[0]).len());
    }
    // every later run must agree with the first run's table
    let mut i2: usize = 1;
    while i2 < runs.len()
        invariant
            1 <= i2 <= runs@.len(),
            runs@.len() > 0,
            first_dose_gap(runs@, 0) == runs@.len(),
            forall|j: int| 0 <= j < runs@.len() ==> (#[trigger] runs@[j]).dose is Available,
            d0_len == dose_table(runs@[0]).len(),
            forall|j: int| 1 <= j < i2 ==> dose_bad_kind(runs@, j) == 0,
            first_bad_dose_run(runs@, 1) >= i2,
            first_bad_dose_run(runs@, 1) <= runs@.len(),
            first_bad_dose_run(runs@, 1) < runs@.len() ==> dose_bad_kind(
                runs@,
                first_bad_dose_run(runs@, 1),
            ) != 0,
            forall|j: int| 1 <= j < first_bad_dose_run(runs@, 1) ==> dose_bad_kind(runs@, j) == 0,
        decreases runs@.len() - i2,
    {
        let vi_len = match &runs[i2].dose {
            Omittable::Available(v) => v.len(),
            _ => 0,
        };
        proof {
            assert(vi_len == dose_table(runs@[i2 as int]).len());
        }
        if vi_len != d0_len {
            proof {
                assert(dose_bad_kind(runs@, i2 as int) == 1);
                if first_bad_dose_run(runs@, 1) != i2 as int {
                    assert(dose_bad_kind(runs@, first_bad_dose_run(runs@, 1)) == 0);
                }
            }
            return Omittable::Fail(
                String::from_str("Simulations have inconsistent numbers of scoring geometries."),
            );
        }
        let mut j: usize = 0;
        while j < d0_len
            invariant
                0 <= j <= d0_len,
                1 <= i2 < runs@.len(),
                first_dose_gap(runs@, 0) == runs@.len(),
                first_bad_dose_run(runs@, 1) >= i2,
                first_bad_dose_run(runs@, 1) <= runs@.len(),
                first_bad_dose_run(runs@, 1) < runs@.len() ==> dose_bad_kind(
                    runs@,
                    first_bad_dose_run(runs@, 1),
                ) != 0,
                forall|k: int|
                    1 <= k < first_bad_dose_run(runs@, 1) ==> dose_bad_kind(runs@, k) == 0,
                forall|k: int| 0 <= k < runs@.len() ==> (#[trigger] runs@[k]).dose is Available,
                d0_len == dose_table(runs@[0]).len(),
                d0_len == dose_table(runs@[i2 as int]).len(),
                forall|k: int|
                    0 <= k < j ==> (#[trigger] dose_table(runs@[i2 as int])[k]).name == dose_table(
                        runs@[0],
                    )[k].name,
            decreases d0_len - j,
        {
            let same = match (&runs[0].dose, &runs[i2].dose) {
                (Omittable::Available(v0), Omittable::Available(vi)) => vi[j].name.eq(&v0[j].name),
                _ => false,
            };
            proof {
                assert(same == ((dose_table(runs@[i2 as int])[j as int]).name == dose_table(
                    runs@[0],
                )[j as int].name));
            }
            if !same {
                proof {
                    assert(dose_bad_kind(runs@, i2 as int) == 2);
                    if first_bad_dose_run(runs@, 1) != i2 as int {
                        assert(dose_bad_kind(runs@, first_bad_dose_run(runs@, 1)) == 0);
                    }
                    assert(dose_bad_kind(runs@, first_bad_dose_run(runs@, 1)) != 1);
                }
                return Omittable::Fail(
                    String::from_str("Simulations have inconsistent scoring regions"),
                );
            }
            j += 1;
        }
        proof {
            assert(dose_bad_kind(runs@, i2 as int) == 0);
        }
        i2 += 1;
    }
    proof {
        assert(first_bad_dose_run(runs@, 1) == runs@.len());
    }
    // gather: per region, every run's score in run order
    let mut mat: Vec<RegionDose> = Vec::new();
    let mut j: usize = 0;
    while j < d0_len
        invariant
            0 <= j <= d0_len,
            runs@.len() > 0,
            first_dose_gap(runs@, 0) == runs@.len(),
            first_bad_dose_run(runs@, 1) == runs@.len(),
            forall|k: int| 0 <= k < runs@.len() ==> (#[trigger] runs@[k]).dose is Available,
            d0_len == dose_table(runs@[0]).len(),
            forall|k: int| 1 <= k < runs@.len() ==> dose_bad_kind(runs@, k) == 0,
            mat@.len() == j,
            forall|x: int|
                0 <= x < j ==> {
                    let row = #[trigger] mat@[x];
                    &&& row.name@ == dose_table(runs@[0])[x].name
                    &&& row.per_run@.len() == runs@.len()
                    &&& forall|k2: int|
                        0 <= k2 < runs@.len() ==> (#[trigger] row.per_run@[k2])@ == dose_table(
                            runs@[k2],
                        )[x]
                },
        decreases d0_len - j,
    {
        let name = match &runs[0].dose {
            Omittable::Available(v0) => v0[j].name.clone(),
            _ => String::new(),
        };
        let mut per_run: Vec<RegionScore> = Vec::new();
        let mut k: usize = 0;
        while k < runs.len()
            invariant
                0 <= k <= runs@.len(),
                0 <= j < d0_len,
                forall|x: int| 0 <= x < runs@.len() ==> (#[trigger] runs@[x]).dose is Available,
                d0_len == dose_table(runs@[0]).len(),
                forall|x: int| 1 <= x < runs@.len() ==> dose_bad_kind(runs@, x) == 0,
                per_run@.len() == k,
                forall|k2: int|
                    0 <= k2 < k ==> (#[trigger] per_run@[k2])@ == dose_table(runs@[k2])[j as int],
            decreases runs@.len() - k,
        {
            proof {
                if k > 0 {
                    assert(dose_bad_kind(runs@, k as int) == 0);
                    assert(dose_table(runs@[k as int]).len() == d0_len);
                }
            }
            let sc = match &runs[k].dose {
                Omittable::Available(vk) => dup_region_score(&vk[j]),
                _ => RegionScore {
                    name: String::new(),
                    value: String::new(),
                    rstd_percent: String::new(),
                },
            };
            per_run.push(sc);
            k += 1;
        }
        mat.push(RegionDose { name, per_run });
        j += 1;
    }
    Omittable::Available(mat)
}

impl ParSimReport {
    /// Recomputes the three aggregate fields purely from the per-run
    /// reports, discarding whatever they held.
    pub fn recalculate(self) -> (r: ParSimReport)
        ensures
            r.input == self.input,
            r.single_runs == self.single_runs,
            recalculated(r),
    {
        let ParSimReport { input, single_runs, total_cpu_time, simulation_finished, dose } = self;
        let dose = compute_dose(&single_runs);
        let total_cpu_time = gather_cpu_times(&single_runs);
        let simulation_finished = compute_simulation_finished(&single_runs);
        ParSimReport { input, single_runs, total_cpu_time, simulation_finished, dose }
    }
}

// ---------------------------------------------------------------------------
// reporting a finished split job

fn dup_omittable_string(o: &Omittable<String>) -> (r: Omittable<String>)
    ensures
        r == *o,
{
    match o {
        Omittable::Omitted => Omittable::Omitted,
        Omittable::Fail(m) => Omittable::Fail(m.clone()),
        Omittable::Available(s) => Omittable::Available(s.clone()),
    }
}

fn dup_omittable_bool(o: &Omittable<bool>) -> (r: Omittable<bool>)
    ensures
        r == *o,
{
    match o {
        Omittable::Omitted => Omittable::Omitted,
        Omittable::Fail(m) => Omittable::Fail(m.clone()),
        Omittable::Available(b) => Omittable::Available(*b),
    }
}

fn dup_omittable_i32(o: &Omittable<i32>) -> (r: Omittable<i32>)
    ensures
        r == *o,
{
    match o {
        Omittable::Omitted => Omittable::Omitted,
        Omittable::Fail(m) => Omittable::Fail(m.clone()),
        Omittable::Available(x) => Omittable::Available(*x),
    }
}

fn dup_omittable_input(o: &Omittable<SingSimInput>) -> (r: Omittable<SingSimInput>)
    ensures
        r == *o,
{
    match o {
        Omittable::Omitted => Omittable::Omitted,
        Omittable::Fail(m) => Omittable::Fail(m.clone()),
        Omittable::Available(s) => Omittable::Available(dup_sing_sim_input(s)),
    }
}

fn dup_scores(v: &Vec<RegionScore>) -> (r: Vec<RegionScore>)
    ensures
        r@ == v@,
{
    let mut out: Vec<RegionScore> = Vec::new();
    let mut i: usize = 0;
    while i < v.len()
        invariant
            0 <= i <= v@.len(),
            out@ == v@.take(i as int),
        decreases v@.len() - i,
    {
        out.push(dup_region_score(&v[i]));
        i += 1;
        proof {
            assert(out@ =~= v@.take(i as int));
        }
    }
    proof {
        assert(v@.take(v@.len() as int) =~= v@);
    }
    out
}

/// Two dose fields carrying the same table, the vectors compared by
/// contents.
pub open spec fn dose_field_equiv(a: Omittable<Vec<RegionScore>>, b: Omittable<
    Vec<RegionScore>,
>) -> bool {
    match (a, b) {
        (Omittable::Available(x), Omittable::Available(y)) => x@ == y@,
        _ => a == b,
    }
}

/// Two per-run reports carrying the same fields, dose tables compared by
/// contents.
pub open spec fn report_equiv(a: SingSimReport, b: SingSimReport) -> bool {
    &&& a.input == b.input
    &&& a.stderr == b.stderr
    &&& a.stdout == b.stdout
    &&& a.exit_status == b.exit_status
    &&& a.total_cpu_time == b.total_cpu_time
    &&& a.simulation_finished == b.simulation_finished
    &&& dose_field_equiv(a.dose, b.dose)
}

pub open spec fn runs_equiv(x: Seq<SingSimReport>, y: Seq<SingSimReport>) -> bool {
    x.len() == y.len() && forall|i: int| 0 <= i < x.len() ==> report_equiv(x[i], y[i])
}

fn dup_omittable_dose(o: &Omittable<Vec<RegionScore>>) -> (r: Omittable<Vec<RegionScore>>)
    ensures
        dose_field_equiv(r, *o),
{
    match o {
        Omittable::Omitted => Omittable::Omitted,
        Omittable::Fail(m) => Omittable::Fail(m.clone()),
        Omittable::Available(v) => Omittable::Available(dup_scores(v)),
    }
}

fn dup_sing_sim_report(r0: &SingSimReport) -> (r: SingSimReport)
    ensures
        report_equiv(r, *r0),
{
    SingSimReport {
        input: dup_omittable_input(&r0.input),
        stderr: dup_omittable_string(&r0.stderr),
        stdout: dup_omittable_string(&r0.stdout),
        exit_status: dup_omittable_i32(&r0.exit_status),
        dose: dup_omittable_dose(&r0.dose),
        total_cpu_time: dup_omittable_string(&r0.total_cpu_time),
        simulation_finished: dup_omittable_bool(&r0.simulation_finished),
    }
}

fn dup_seeds(v: &Vec<Seed>) -> (r: Vec<Seed>)
    ensures
        r@ == v@,
{
    let mut out: Vec<Seed> = Vec::new();
    let mut i: usize = 0;
    while i < v.len()
        invariant
            0 <= i <= v@.len(),
            out@ == v@.take(i as int),
        decreases v@.len() - i,
    {
        out.push(v[i]);
        i += 1;
        proof {
            assert(out@ =~= v@.take(i as int));
        }
    }
    proof {
        assert(v@.take(v@.len() as int) =~= v@);
    }
    out
}

fn dup_ncases(v: &Vec<u64>) -> (r: Vec<u64>)
    ensures
        r@ == v@,
{
    let mut out: Vec<u64> = Vec::new();
    let mut i: usize = 0;
    while i < v.len()
        invariant
            0 <= i <= v@.len(),
            out@ == v@.take(i as int),
        decreases v@.len() - i,
    {
        out.push(v[i]);
        i += 1;
        proof {
            assert(out@ =~= v@.take(i as int));
        }
    }
    proof {
        assert(v@.take(v@.len() as int) =~= v@);
    }
    out
}

/// Two split jobs naming the same prototype, seeds and case counts.
pub open spec fn par_input_equiv(a: ParSimInput, b: ParSimInput) -> bool {
    a.prototype == b.prototype && a.seeds@ == b.seeds@ && a.ncases@ == b.ncases@
}

fn dup_par_sim_input(p: &ParSimInput) -> (r: ParSimInput)
    ensures
        par_input_equiv(r, *p),
{
    ParSimInput {
        prototype: dup_sing_sim_input(&p.prototype),
        seeds: dup_seeds(&p.seeds),
        ncases: dup_ncases(&p.ncases),
    }
}

impl ParSimFinished {
    /// Folds all raw outcomes into one aggregate report.  The first run's
    /// report keeps every diagnostic, so the whole report retains one fully
    /// detailed example.
    pub fn report(&self) -> (r: ParSimReport)
        requires
            self.outputs@.len() >= 1,
        ensures
            par_input_equiv(r.input, self.input),
            r.single_runs@.len() == self.outputs@.len(),
            report_matches(self.outputs@[0], true, r.single_runs@[0]),
            forall|i: int|
                1 <= i < self.outputs@.len() ==> report_matches(
                    self.outputs@[i],
                    false,
                    #[trigger] r.single_runs@[i],
                ),
            recalculated(r),
    {
        let mut single_runs: Vec<SingSimReport> = Vec::new();
        single_runs.push(self.outputs[0].report_full());
        let mut i: usize = 1;
        while i < self.outputs.len()
            invariant
                1 <= i <= self.outputs@.len(),
                self.outputs@.len() >= 1,
                single_runs@.len() == i,
                report_matches(self.outputs@[0], true, single_runs@[0]),
                forall|j: int|
                    1 <= j < i ==> report_matches(
                        self.outputs@[j],
                        false,
                        #[trigger] single_runs@[j],
                    ),
            decreases self.outputs@.len() - i,
        {
            single_runs.push(self.outputs[i].report());
            i += 1;
        }
        let ret = ParSimReport {
            input: dup_par_sim_input(&self.input),
            single_runs,
            total_cpu_time: Omittable::Omitted,
            simulation_finished: Omittable::Omitted,
            dose: Omittable::Omitted,
        };
        ret.recalculate()
    }
}

// ---------------------------------------------------------------------------
// combining independently run reports

/// The split jobs a set of reports came from.
pub open spec fn inputs_of(sims: Seq<ParSimReport>) -> Seq<ParSimInput> {
    Seq::new(sims.len(), |i: int| sims[i].input)
}

/// All per-run reports of a set of aggregate reports, in order.
pub open spec fn concat_runs(sims: Seq<ParSimReport>) -> Seq<SingSimReport>
    decreases sims.len(),
{
    if sims.len() == 0 {
        Seq::empty()
    } else {
        concat_runs(sims.drop_last()) + sims.last().single_runs@
    }
}

/// What combining reports yields: the combined split job, every per-run
/// report carried over in order, and the aggregates recomputed — so the
/// combination of shards aggregates exactly the runs their union holds.
pub open spec fn combine_reports_matches(sims: Seq<ParSimReport>, r: Result<
    ParSimReport,
    String,
>) -> bool {
    match r {
        Ok(rep) => combine_inputs_matches(inputs_of(sims), Ok(rep.input)) && runs_equiv(
            rep.single_runs@,
            concat_runs(sims),
        ) && recalculated(rep),
        Err(m) => combine_inputs_matches(inputs_of(sims), Err(m)),
    }
}

proof fn lemma_concat_equiv(a: Seq<ParSimInput>, b: Seq<ParSimInput>)
    requires
        a.len() == b.len(),
        forall|i: int| 0 <= i < a.len() ==> par_input_equiv(#[trigger] a[i], b[i]),
    ensures
        concat_seeds(a) == concat_seeds(b),
        concat_ncases(a) == concat_ncases(b),
    decreases a.len(),
{
    if a.len() > 0 {
        assert(forall|i: int|
            0 <= i < a.len() - 1 ==> par_input_equiv(#[trigger] a.drop_last()[i], b.drop_last()[i]));
        lemma_concat_equiv(a.drop_last(), b.drop_last());
        assert(par_input_equiv(a.last(), b.last()));
    }
}

/// The outcome of combining split jobs depends only on their prototypes,
/// seeds and case counts.
proof fn lemma_combine_inputs_transfer(
    a: Seq<ParSimInput>,
    b: Seq<ParSimInput>,
    r: Result<ParSimInput, String>,
)
    requires
        a.len() == b.len(),
        forall|i: int| 0 <= i < a.len() ==> par_input_equiv(#[trigger] a[i], b[i]),
        combine_inputs_matches(a, r),
    ensures
        combine_inputs_matches(b, r),
{
    if a.len() > 0 {
        assert(par_input_equiv(a[0], b[0]));
        assert(checksums_agree(a) == checksums_agree(b)) by {
            if checksums_agree(a) {
                assert forall|i: int|
                    0 <= i < b.len() implies (#[trigger] b[i]).prototype.checksum@
                    == b[0].prototype.checksum@ by {
                    assert(par_input_equiv(a[i], b[i]));
                }
            }
            if checksums_agree(b) {
                assert forall|i: int|
                    0 <= i < a.len() implies (#[trigger] a[i]).prototype.checksum@
                    == a[0].prototype.checksum@ by {
                    assert(par_input_equiv(a[i], b[i]));
                }
            }
        }
        lemma_concat_equiv(a, b);
    }
}

impl ParSimReport {
    /// Merges reports of separately executed shards of one prototype into
    /// one aggregate report, recomputed over the union of their runs.
    pub fn combine(sims: &[ParSimReport]) -> (r: Result<ParSimReport, String>)
        ensures
            combine_reports_matches(sims@, r),
    {
        let mut inputs: Vec<ParSimInput> = Vec::new();
        let mut single_runs: Vec<SingSimReport> = Vec::new();
        let mut i: usize = 0;
        proof {
            assert(inputs_of(sims@.take(0)) =~= Seq::<ParSimInput>::empty());
            assert(inputs@ =~= Seq::<ParSimInput>::empty());
            assert(concat_runs(sims@.take(0)) =~= Seq::<SingSimReport>::empty());
        }
        while i < sims.len()
            invariant
                0 <= i <= sims@.len(),
                inputs@.len() == i,
                forall|k: int|
                    0 <= k < i ==> par_input_equiv(#[trigger] inputs@[k], sims@[k].input),
                runs_equiv(single_runs@, concat_runs(sims@.take(i as int))),
            decreases sims@.len() - i,
        {
            inputs.push(dup_par_sim_input(&sims[i].input));
            let mut j: usize = 0;
            let ghost base = concat_runs(sims@.take(i as int));
            while j < sims[i].single_runs.len()
                invariant
                    0 <= i < sims@.len(),
                    0 <= j <= sims@[i as int].single_runs@.len(),
                    base == concat_runs(sims@.take(i as int)),
                    runs_equiv(single_runs@, base + sims@[i as int].single_runs@.take(j as int)),
                decreases sims@[i as int].single_runs@.len() - j,
            {
                let ghost prev_target = base + sims@[i as int].single_runs@.take(j as int);
                single_runs.push(dup_sing_sim_report(&sims[i].single_runs[j]));
                j += 1;
                proof {
                    let target = base + sims@[i as int].single_runs@.take(j as int);
                    assert(target =~= prev_target.push(sims@[i as int].single_runs@[j - 1]));
                    assert forall|k: int| 0 <= k < single_runs@.len() implies report_equiv(
                        #[trigger] single_runs@[k],
                        target[k],
                    ) by {
                        if k < prev_target.len() {
                            assert(target[k] == prev_target[k]);
                        } else {
                            assert(target[k] == sims@[i as int].single_runs@[j - 1]);
                        }
                    }
                }
            }
            i += 1;
            proof {
                assert(sims@.take(i as int).drop_last() =~= sims@.take(i - 1));
                assert(sims@.take(i as int).last() == sims@[i - 1]);
                assert(concat_runs(sims@.take(i as int)) =~= base + sims@[i - 1].single_runs@);
                assert(base + sims@[i - 1].single_runs@.take(
                    sims@[i - 1].single_runs@.len() as int,
                ) =~= base + sims@[i - 1].single_runs@);
            }
        }
        proof {
            assert(sims@.take(sims@.len() as int) =~= sims@);
        }
        let input = match ParSimInput::combine(inputs.as_slice()) {
            Ok(inp) => inp,
            Err(m) => {
                proof {
                    assert(inputs_of(sims@).len() == inputs@.len());
                    assert forall|k: int| 0 <= k < inputs@.len() implies par_input_equiv(
                        #[trigger] inputs@[k],
                        inputs_of(sims@)[k],
                    ) by {
                        assert(inputs_of(sims@)[k] == sims@[k].input);
                    }
                    lemma_combine_inputs_transfer(inputs@, inputs_of(sims@), Err(m));
                }
                return Err(m);
            },
        };
        proof {
            assert(inputs_of(sims@).len() == inputs@.len());
            assert forall|k: int| 0 <= k < inputs@.len() implies par_input_equiv(
                #[trigger] inputs@[k],
                inputs_of(sims@)[k],
            ) by {
                assert(inputs_of(sims@)[k] == sims@[k].input);
            }
            lemma_combine_inputs_transfer(inputs@, inputs_of(sims@), Ok(input));
        }
        let ret = ParSimReport {
            input,
            single_runs,
            dose: Omittable::Omitted,
            total_cpu_time: Omittable::Omitted,
            simulation_finished: Omittable::Omitted,
        };
        Ok(ret.recalculate())
    }
}

// ---------------------------------------------------------------------------
// preparing the runs of a split job

/// The configuration text of one child of a split: the prototype's tokens
/// with the child's case count and seed written in, rendered.
pub open spec fn child_content(ts: Seq<TokenV>, seed: Seed, ncase: u64) -> Seq<char> {
    crate::tokenizer::render(replaced_stream(ts, seed, ncase), 0)
}

/// What preparing a split job's runs yields: one complete single-run input
/// per part, each carrying its own rendered configuration and the checksum
/// of that configuration; or the first validation, parse or key failure.
pub open spec fn child_inputs_matches(p: ParSimInput, r: Result<Vec<SingSimInput>, String>) -> bool {
    if p.seeds@.len() != p.ncases@.len() {
        r matches Err(m) && m@ == length_mismatch_msg(
            p.seeds@.len() as int,
            p.ncases@.len() as int,
        )
    } else if !seeds_unique(p.seeds@) {
        r matches Err(m) && m@ == duplicate_seeds_msg()
    } else {
        match spec_parse(p.prototype.content@) {
            Err(ParseErrV::CannotParse(l)) => r matches Err(m) && m@ == cannot_parse_msg(l),
            Err(ParseErrV::UnexpectedEnd) => r matches Err(m) && m@ == end_of_file_msg(),
            Ok(ts) => {
                let n = p.seeds@.len();
                if n == 0 {
                    r matches Ok(v) && v@.len() == 0
                } else if no_key(ts, ncase_key()) {
                    r matches Err(m) && m@ == crate::tokenizer::missing_ncase_msg()
                } else if ambiguous_key(ts, ncase_key()) {
                    r matches Err(m) && m@ == crate::tokenizer::ambiguous_ncase_msg()
                } else if no_key(ts, seeds_key()) {
                    r matches Err(m) && m@ == crate::tokenizer::missing_seeds_msg()
                } else if ambiguous_key(ts, seeds_key()) {
                    r matches Err(m) && m@ == crate::tokenizer::ambiguous_seeds_msg()
                } else {
                    r matches Ok(v) && v@.len() == n && (forall|i: int|
                        0 <= i < n ==> {
                            let c = #[trigger] v@[i];
                            &&& c.application@ == p.prototype.application@
                            &&& c.pegsfile@ == p.prototype.pegsfile@
                            &&& c.filename@ == p.prototype.filename@
                            &&& c.content@ == child_content(ts, p.seeds@[i], p.ncases@[i])
                            &&& c.checksum@ == checksum_of(
                                child_content(ts, p.seeds@[i], p.ncases@[i]),
                            )
                        })
                }
            },
        }
    }
}

impl ParSimInput {
    /// Builds the complete single-run input of every part of this split
    /// job: the prototype's configuration with each part's seed and case
    /// count written in.  Running them, concurrently or not, is the
    /// caller's work; the order here is the order their outcomes must keep.
    pub fn child_inputs(&self) -> (r: Result<Vec<SingSimInput>, String>)
        ensures
            child_inputs_matches(*self, r),
    {
        match self.validate() {
            Err(m) => {
                return Err(m);
            },
            Ok(()) => {},
        }
        let stream = match TokenStream::parse_string(self.prototype.content.as_str()) {
            Ok(s) => s,
            Err(m) => {
                return Err(m);
            },
        };
        let streams = match stream.split(&self.seeds, &self.ncases) {
            Ok(v) => v,
            Err(m) => {
                return Err(m);
            },
        };
        let ghost ts = match spec_parse(self.prototype.content@) {
            Ok(ts) => ts,
            Err(_) => Seq::empty(),
        };
        let mut out: Vec<SingSimInput> = Vec::new();
        let mut i: usize = 0;
        while i < streams.len()
            invariant
                0 <= i <= streams@.len(),
                streams@.len() == self.seeds@.len(),
                self.seeds@.len() == self.ncases@.len(),
                spec_parse(self.prototype.content@) == Ok::<Seq<TokenV>, ParseErrV>(ts),
                forall|k: int|
                    0 <= k < streams@.len() ==> (#[trigger] streams@[k])@ == replaced_stream(
                        ts,
                        self.seeds@[k],
                        self.ncases@[k],
                    ),
                out@.len() == i,
                forall|k: int|
                    0 <= k < i ==> {
                        let c = #[trigger] out@[k];
                        &&& c.application@ == self.prototype.application@
                        &&& c.pegsfile@ == self.prototype.pegsfile@
                        &&& c.filename@ == self.prototype.filename@
                        &&& c.content@ == child_content(ts, self.seeds@[k], self.ncases@[k])
                        &&& c.checksum@ == checksum_of(
                            child_content(ts, self.seeds@[k], self.ncases@[k]),
                        )
                    },
            decreases streams@.len() - i,
        {
            let content = streams[i].to_string();
            let built = SingSimInputBuilder::new().application(
                self.prototype.application.as_str(),
            ).content(content.as_str()).pegsfile(self.prototype.pegsfile.as_str()).filename(
                self.prototype.filename.as_str(),
            ).build();
            match built {
                Ok(sim) => {
                    out.push(sim);
                },
                Err(_) => {
                    proof {
                        assert(false);
                    }
                },
            }
            i += 1;
        }
        Ok(out)
    }
}

// ---------------------------------------------------------------------------
// stated laws

/// Region-mismatch law: in a recalculated report whose runs all carry a
/// dose table, any disagreement in region count or region names between a
/// run and the first run fails the aggregate dose outright — the tables are
/// never truncated or silently reconciled.
pub proof fn lemma_region_mismatch_fails(rep: ParSimReport, i: int)
    requires
        recalculated(rep),
        forall|j: int|
            0 <= j < rep.single_runs@.len() ==> (#[trigger] rep.single_runs@[j]).dose
                is Available,
        0 < i < rep.single_runs@.len(),
        dose_bad_kind(rep.single_runs@, i) != 0,
    ensures
        rep.dose is Fail,
{
    let runs = rep.single_runs@;
    lemma_first_dose_gap(runs, 0);
    if first_dose_gap(runs, 0) < runs.len() {
        assert(runs[first_dose_gap(runs, 0)].dose is Available);
    }
    assert(first_dose_gap(runs, 0) == runs.len());
    lemma_first_bad_dose_run(runs, 1);
    if first_bad_dose_run(runs, 1) >= runs.len() {
        assert(dose_bad_kind(runs, i) == 0);
    }
}

} // verus!
