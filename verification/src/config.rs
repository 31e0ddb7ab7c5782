use vstd::prelude::*;

use crate::text::owned;

verus! {

/// Which languages a scan keeps.
#[derive(Clone, Copy, Debug, PartialEq, Eq, Structural)]
pub enum LanguageFilter {
    All,
    Rust,
    TypeScript,
    Haskell,
    Daml,
}

impl Default for LanguageFilter {
    fn default() -> (r: Self)
        ensures
            r == LanguageFilter::All,
    {
        LanguageFilter::All
    }
}

/// How a report is printed.
#[derive(Clone, Copy, Debug, PartialEq, Eq, Structural)]
pub enum OutputFormat {
    Text,
    Json,
    Sarif,
}

impl Default for OutputFormat {
    fn default() -> (r: Self)
        ensures
            r == OutputFormat::Text,
    {
        OutputFormat::Text
    }
}

/// How much of an identifier's name survives normalization.
#[derive(Clone, Copy, Debug, PartialEq, Eq, Structural)]
pub enum NameMode {
    Loose,
    Balanced,
    Strict,
}

impl Default for NameMode {
    fn default() -> (r: Self)
        ensures
            r == NameMode::Balanced,
    {
        NameMode::Balanced
    }
}

/// Options of the normalization step.
#[derive(Clone, Copy, Debug, PartialEq, Eq, Structural)]
pub struct NormalizationConfig {
    pub name_mode: NameMode,
    pub preserve_call_names: bool,
    pub preserve_property_names: bool,
    pub preserve_type_names: bool,
}

impl Default for NormalizationConfig {
    fn default() -> (r: Self)
        ensures
            r == (NormalizationConfig {
                name_mode: NameMode::Balanced,
                preserve_call_names: false,
                preserve_property_names: false,
                preserve_type_names: false,
            }),
    {
        NormalizationConfig {
            name_mode: NameMode::Balanced,
            preserve_call_names: false,
            preserve_property_names: false,
            preserve_type_names: false,
        }
    }
}

/// A similarity threshold, held exactly as the fraction
/// `numerator / denominator`. A threshold at or below zero is held as zero:
/// every comparison against it comes out as against zero.
#[derive(Clone, Copy, Debug, PartialEq, Eq, Structural)]
pub struct Threshold {
    pub numerator: u64,
    pub denominator: u64,
}

impl Threshold {
    pub open spec fn wf(self) -> bool {
        self.denominator > 0
    }

    /// The default threshold, 0.82.
    pub fn default_threshold() -> (r: Threshold)
        ensures
            r.numerator == 82 && r.denominator == 100,
    {
        Threshold { numerator: 82, denominator: 100 }
    }
}

/// Every setting of a scan.
#[derive(Debug)]
pub struct Config {
    pub paths: Vec<String>,
    pub threshold: Threshold,
    pub min_lines: usize,
    pub min_nodes: usize,
    pub language: LanguageFilter,
    pub format: OutputFormat,
    pub includes: Vec<String>,
    pub exclude: Vec<String>,
    pub cross_language: bool,
    pub max_candidates: Option<usize>,
    pub normalization: NormalizationConfig,
}

/// The settings a `dryer.toml` may give; each one left out keeps its value.
#[derive(Debug)]
pub struct ConfigFile {
    pub threshold: Option<Threshold>,
    pub min_lines: Option<usize>,
    pub min_nodes: Option<usize>,
    pub language: Option<LanguageFilter>,
    pub format: Option<OutputFormat>,
    pub includes: Option<Vec<String>>,
    pub exclude: Option<Vec<String>>,
    pub cross_language: Option<bool>,
    pub max_candidates: Option<usize>,
    pub normalization: Option<NormalizationConfig>,
}

impl Default for ConfigFile {
    fn default() -> (r: Self)
        ensures
            r.threshold is None,
            r.min_lines is None,
            r.min_nodes is None,
            r.language is None,
            r.format is None,
            r.includes is None,
            r.exclude is None,
            r.cross_language is None,
            r.max_candidates is None,
            r.normalization is None,
    {
        ConfigFile {
            threshold: None,
            min_lines: None,
            min_nodes: None,
            language: None,
            format: None,
            includes: None,
            exclude: None,
            cross_language: None,
            max_candidates: None,
            normalization: None,
        }
    }
}

/// The views of a list of strings.
pub open spec fn string_views(v: Seq<String>) -> Seq<Seq<char>> {
    v.map_values(|s: String| s@)
}

/// The glob patterns left out of every scan unless the configuration says otherwise.
pub open spec fn spec_default_excludes() -> Seq<Seq<char>> {
    seq![
        "**/.git/**"@,
        "**/target/**"@,
        "**/node_modules/**"@,
        "**/dist/**"@,
        "**/build/**"@,
        "**/.next/**"@,
        "**/coverage/**"@,
        "**/*.generated.ts"@,
        "**/*.generated.tsx"@,
        "**/*.gen.ts"@,
        "**/*.gen.tsx"@,
    ]
}

/// The glob patterns left out of every scan unless the configuration says otherwise.
pub fn default_excludes() -> (r: Vec<String>)
    ensures
        string_views(r@) == spec_default_excludes(),
{
    let mut v: Vec<String> = Vec::new();
    v.push(owned("**/.git/**"));
    v.push(owned("**/target/**"));
    v.push(owned("**/node_modules/**"));
    v.push(owned("**/dist/**"));
    v.push(owned("**/build/**"));
    v.push(owned("**/.next/**"));
    v.push(owned("**/coverage/**"));
    v.push(owned("**/*.generated.ts"));
    v.push(owned("**/*.generated.tsx"));
    v.push(owned("**/*.gen.ts"));
    v.push(owned("**/*.gen.tsx"));
    assert(string_views(v@) =~= spec_default_excludes());
    v
}

impl Default for Config {
    fn default() -> (r: Self)
        ensures
            string_views(r.paths@) == seq!["."@],
            r.threshold.numerator == 82 && r.threshold.denominator == 100,
            r.min_lines == 6,
            r.min_nodes == 35,
            r.language == LanguageFilter::All,
            r.format == OutputFormat::Text,
            r.includes@.len() == 0,
            string_views(r.exclude@) == spec_default_excludes(),
            !r.cross_language,
            r.max_candidates is None,
            r.normalization == (NormalizationConfig {
                name_mode: NameMode::Balanced,
                preserve_call_names: false,
                preserve_property_names: false,
                preserve_type_names: false,
            }),
    {
        let mut paths: Vec<String> = Vec::new();
        paths.push(owned("."));
        assert(string_views(paths@) =~= seq!["."@]);
        Config {
            paths,
            threshold: Threshold::default_threshold(),
            min_lines: 6,
            min_nodes: 35,
            language: LanguageFilter::All,
            format: OutputFormat::Text,
            includes: Vec::new(),
            exclude: default_excludes(),
            cross_language: false,
            max_candidates: None,
            normalization: NormalizationConfig::default(),
        }
    }
}

impl Config {
    /// This configuration with every setting that `file` gives put in place
    /// of its own.
    pub fn merge_file(self, file: ConfigFile) -> (r: Config)
        ensures
            r.paths == self.paths,
            r.threshold == (match file.threshold { Some(t) => t, None => self.threshold }),
            r.min_lines == (match file.min_lines { Some(v) => v, None => self.min_lines }),
            r.min_nodes == (match file.min_nodes { Some(v) => v, None => self.min_nodes }),
            r.language == (match file.language { Some(v) => v, None => self.language }),
            r.format == (match file.format { Some(v) => v, None => self.format }),
            r.includes == (match file.includes { Some(v) => v, None => self.includes }),
            r.exclude == (match file.exclude { Some(v) => v, None => self.exclude }),
            r.cross_language == (match file.cross_language { Some(v) => v, None => self.cross_language }),
            r.max_candidates == (match file.max_candidates { Some(v) => Some(v), None => self.max_candidates }),
            r.normalization == (match file.normalization { Some(v) => v, None => self.normalization }),
    {
        let mut merged = self;
        if let Some(threshold) = file.threshold {
            merged.threshold = threshold;
        }
        if let Some(min_lines) = file.min_lines {
            merged.min_lines = min_lines;
        }
        if let Some(min_nodes) = file.min_nodes {
            merged.min_nodes = min_nodes;
        }
        if let Some(language) = file.language {
            merged.language = language;
        }
        if let Some(format) = file.format {
            merged.format = format;
        }
        if let Some(includes) = file.includes {
            merged.includes = includes;
        }
        if let Some(exclude) = file.exclude {
            merged.exclude = exclude;
        }
        if let Some(cross_language) = file.cross_language {
            merged.cross_language = cross_language;
        }
        if let Some(max_candidates) = file.max_candidates {
            merged.max_candidates = Some(max_candidates);
        }
        if let Some(normalization) = file.normalization {
            merged.normalization = normalization;
        }
        merged
    }
}

/// The settings given on the command line; each one left out keeps the
/// configured value.
#[derive(Debug)]
pub struct CliOverrides {
    pub paths: Vec<String>,
    pub threshold: Option<Threshold>,
    pub min_lines: Option<usize>,
    pub min_nodes: Option<usize>,
    pub language: Option<LanguageFilter>,
    pub format: Option<OutputFormat>,
    pub json: bool,
    pub sarif: bool,
    pub includes: Vec<String>,
    pub exclude: Vec<String>,
    pub cross_language: bool,
    pub max_candidates: Option<usize>,
}

/// The output format that the command line leaves: `--sarif` wins over
/// `--json`, which wins over `--format`.
pub open spec fn spec_cli_format(base: OutputFormat, cli: CliOverrides) -> OutputFormat {
    if cli.sarif {
        OutputFormat::Sarif
    } else if cli.json {
        OutputFormat::Json
    } else {
        match cli.format {
            Some(f) => f,
            None => base,
        }
    }
}

/// The configuration with the command line put over it: paths given replace
/// the configured ones, include and exclude patterns given are added after
/// the configured ones, and each other setting given replaces the configured
/// one.
pub fn build_config(config: Config, cli: CliOverrides) -> (r: Config)
    ensures
        r.paths@ == (if cli.paths@.len() > 0 { cli.paths@ } else { config.paths@ }),
        r.threshold == (match cli.threshold { Some(t) => t, None => config.threshold }),
        r.min_lines == (match cli.min_lines { Some(v) => v, None => config.min_lines }),
        r.min_nodes == (match cli.min_nodes { Some(v) => v, None => config.min_nodes }),
        r.language == (match cli.language { Some(v) => v, None => config.language }),
        r.format == spec_cli_format(config.format, cli),
        r.includes@ == config.includes@ + cli.includes@,
        r.exclude@ == config.exclude@ + cli.exclude@,
        r.cross_language == (config.cross_language || cli.cross_language),
        r.max_candidates == (match cli.max_candidates { Some(v) => Some(v), None => config.max_candidates }),
        r.normalization == config.normalization,
{
    let mut config = config;
    let mut cli = cli;
    if cli.paths.len() > 0 {
        config.paths = cli.paths;
    }
    if let Some(threshold) = cli.threshold {
        config.threshold = threshold;
    }
    if let Some(min_lines) = cli.min_lines {
        config.min_lines = min_lines;
    }
    if let Some(min_nodes) = cli.min_nodes {
        config.min_nodes = min_nodes;
    }
    if let Some(language) = cli.language {
        config.language = language;
    }
    if let Some(format) = cli.format {
        config.format = format;
    }
    if cli.json {
        config.format = OutputFormat::Json;
    }
    if cli.sarif {
        config.format = OutputFormat::Sarif;
    }
    config.includes.append(&mut cli.includes);
    config.exclude.append(&mut cli.exclude);
    if cli.cross_language {
        config.cross_language = true;
    }
    if let Some(max_candidates) = cli.max_candidates {
        config.max_candidates = Some(max_candidates);
    }
    config
}

} // verus!

verus! {

pub open spec fn is_digit(c: char) -> bool {
    '0' <= c && c <= '9'
}

pub open spec fn all_digits(s: Seq<char>) -> bool {
    forall|i: int| 0 <= i < s.len() ==> is_digit(#[trigger] s[i])
}

/// The number that a run of decimal digits spells.
pub open spec fn digits_value(s: Seq<char>) -> nat
    decreases s.len(),
{
    if s.len() == 0 {
        0
    } else {
        digits_value(s.drop_last()) * 10 + ((s.last() as nat) - ('0' as nat)) as nat
    }
}

pub open spec fn pow10(k: nat) -> nat
    decreases k,
{
    if k == 0 {
        1
    } else {
        10 * pow10((k - 1) as nat)
    }
}

/// Index of the first `.` in `s`, or -1.
pub open spec fn first_dot(s: Seq<char>) -> int
    decreases s.len(),
{
    if s.len() == 0 {
        -1
    } else if s[0] == '.' {
        0
    } else if first_dot(s.drop_first()) == -1 {
        -1
    } else {
        first_dot(s.drop_first()) + 1
    }
}

/// A decimal number written as an optional `-`, one or more digits, and an
/// optional `.` followed by one or more digits: its sign, its integer digits
/// and its fraction digits.
pub open spec fn decimal_parts(text: Seq<char>) -> Option<(bool, Seq<char>, Seq<char>)> {
    let negative = text.len() > 0 && text[0] == '-';
    let body = if negative { text.drop_first() } else { text };
    let dot = first_dot(body);
    let int_part = if dot == -1 { body } else { body.take(dot) };
    let frac_part = if dot == -1 { Seq::empty() } else { body.skip(dot + 1) };
    if int_part.len() > 0 && all_digits(int_part) && all_digits(frac_part) && (dot == -1 || frac_part.len() > 0) {
        Some((negative, int_part, frac_part))
    } else {
        None
    }
}

/// Reads the digits `cs[from..to]`: whether all are digits, and their value
/// when it fits in `u64`.
fn read_digits(cs: &Vec<char>, from: usize, to: usize) -> (r: (bool, Option<u64>))
    requires
        from <= to <= cs@.len(),
    ensures
        r.0 == all_digits(cs@.subrange(from as int, to as int)),
        r.0 ==> r.1 == (if digits_value(cs@.subrange(from as int, to as int)) <= u64::MAX {
            Some(digits_value(cs@.subrange(from as int, to as int)) as u64)
        } else {
            None
        }),
{
    let mut value: Option<u64> = Some(0);
    let mut i: usize = from;
    while i < to
        invariant
            from <= i <= to <= cs@.len(),
            all_digits(cs@.subrange(from as int, i as int)),
            value == (if digits_value(cs@.subrange(from as int, i as int)) <= u64::MAX {
                Some(digits_value(cs@.subrange(from as int, i as int)) as u64)
            } else {
                None
            }),
        decreases to - i,
    {
        let c = cs[i];
        let ghost pre = cs@.subrange(from as int, i as int);
        let ghost next = cs@.subrange(from as int, i + 1);
        proof {
            assert(next.drop_last() =~= pre);
            assert(next.last() == c);
        }
        if !('0' <= c && c <= '9') {
            assert(!all_digits(cs@.subrange(from as int, to as int))) by {
                assert(cs@.subrange(from as int, to as int)[i - from] == c);
            }
            return (false, None);
        }
        let d = (c as u32 - '0' as u32) as u64;
        value = match value {
            Some(v) => match v.checked_mul(10) {
                Some(m) => m.checked_add(d),
                None => None,
            },
            None => None,
        };
        i = i + 1;
        assert(all_digits(next));
    }
    (true, value)
}

/// `10^k` when it fits in `u64`.
fn pow10_u64(k: usize) -> (r: Option<u64>)
    ensures
        r == (if pow10(k as nat) <= u64::MAX { Some(pow10(k as nat) as u64) } else { None }),
{
    let mut p: Option<u64> = Some(1);
    let mut i: usize = 0;
    while i < k
        invariant
            0 <= i <= k,
            p == (if pow10(i as nat) <= u64::MAX { Some(pow10(i as nat) as u64) } else { None }),
        decreases k - i,
    {
        proof {
            lemma_pow10_grow(i as nat);
        }
        p = match p {
            Some(v) => v.checked_mul(10),
            None => None,
        };
        i = i + 1;
    }
    p
}

/// The first index at or after `from` that holds a `.`, or `cs.len()`.
fn find_dot(cs: &Vec<char>, from: usize) -> (r: usize)
    requires
        from <= cs@.len(),
    ensures
        from <= r <= cs@.len(),
        forall|k: int| from <= k < r ==> cs@[k] != '.',
        r < cs@.len() ==> cs@[r as int] == '.',
{
    let mut dot: usize = from;
    while dot < cs.len() && cs[dot] != '.'
        invariant
            from <= dot <= cs@.len(),
            forall|k: int| from <= k < dot ==> cs@[k] != '.',
        decreases cs@.len() - dot,
    {
        dot = dot + 1;
    }
    dot
}

impl Threshold {
    /// The threshold that the decimal `text` writes, held exactly: a negative
    /// value is held as zero. `None` when `text` is no decimal number of that
    /// form, or when its fraction does not fit in `u64` parts.
    pub fn from_decimal(text: &str) -> (r: Option<Threshold>)
        ensures
            match decimal_parts(text@) {
                None => r is None,
                Some((negative, int_part, frac_part)) => if negative {
                    r == Some(Threshold { numerator: 0, denominator: 1 })
                } else {
                    let den = pow10(frac_part.len());
                    let num = digits_value(int_part) * den + digits_value(frac_part);
                    if den <= u64::MAX && num <= u64::MAX {
                        r == Some(Threshold { numerator: num as u64, denominator: den as u64 })
                    } else {
                        r is None
                    }
                },
            },
    {
        let cs = crate::text::chars_of(text);
        let negative = cs.len() > 0 && cs[0] == '-';
        let start: usize = if negative { 1 } else { 0 };
        let dot = find_dot(&cs, start);
        let ghost body = if negative { cs@.drop_first() } else { cs@ };
        proof {
            assert(body =~= cs@.subrange(start as int, cs@.len() as int));
            lemma_first_dot(body, dot - start);
            if dot < cs@.len() {
                assert(body.take(dot - start) =~= cs@.subrange(start as int, dot as int));
                assert(body.skip(dot - start + 1) =~= cs@.subrange(dot + 1, cs@.len() as int));
            } else {
                assert(body =~= cs@.subrange(start as int, dot as int));
            }
        }
        if dot == start {
            return None;
        }
        let (int_ok, int_v) = read_digits(&cs, start, dot);
        if !int_ok {
            return None;
        }
        let mut frac_v: Option<u64> = Some(0);
        let mut k: usize = 0;
        if dot < cs.len() {
            if dot + 1 == cs.len() {
                return None;
            }
            let (frac_ok, v) = read_digits(&cs, dot + 1, cs.len());
            if !frac_ok {
                return None;
            }
            frac_v = v;
            k = cs.len() - dot - 1;
        } else {
            assert(digits_value(Seq::<char>::empty()) == 0);
        }
        if negative {
            return Some(Threshold { numerator: 0, denominator: 1 });
        }
        let ghost frac_part = decimal_parts(text@).unwrap().2;
        let ghost int_part = decimal_parts(text@).unwrap().1;
        assert(frac_part.len() == k);
        let den = pow10_u64(k);
        proof {
            lemma_pow10_grow(k as nat);
            lemma_combined_bound(digits_value(int_part), pow10(k as nat), digits_value(frac_part));
        }
        match (int_v, frac_v, den) {
            (Some(a), Some(b), Some(d)) => match a.checked_mul(d) {
                Some(m) => match m.checked_add(b) {
                    Some(n) => Some(Threshold { numerator: n, denominator: d }),
                    None => None,
                },
                None => None,
            },
            _ => None,
        }
    }
}

proof fn lemma_first_dot(body: Seq<char>, d: int)
    requires
        0 <= d <= body.len(),
        forall|k: int| 0 <= k < d ==> body[k] != '.',
        d < body.len() ==> body[d] == '.',
    ensures
        first_dot(body) == if d == body.len() { -1 } else { d },
    decreases body.len(),
{
    if body.len() > 0 && d > 0 {
        lemma_first_dot(body.drop_first(), d - 1);
    }
}

proof fn lemma_pow10_grow(k: nat)
    ensures
        pow10(k + 1) >= pow10(k),
        pow10(k) >= 1,
    decreases k,
{
    if k > 0 {
        lemma_pow10_grow((k - 1) as nat);
    }
}

proof fn lemma_combined_bound(a: nat, b: nat, c: nat)
    requires
        b >= 1,
    ensures
        a * b + c >= a,
        a * b + c >= c,
{
    assert(a * b >= a) by (nonlinear_arith)
        requires
            b >= 1;
}

} // verus!
