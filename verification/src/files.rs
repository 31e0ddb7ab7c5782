use vstd::prelude::*;

use crate::config::{Config, LanguageFilter, string_views};
use crate::language::{Language, spec_detect};
use crate::paths::{path_lt, path_eq, path_parts, parts_view, parts_of, parts_less, parts_equal, lemma_path_order, lemma_path_defs};
use crate::DryerError;

verus! {

broadcast use vstd::seq_lib::group_seq_properties;

/// A file to scan and the language it is written in.
#[derive(Debug)]
pub struct SourceFile {
    pub path: String,
    pub language: Language,
}

/// The path and language of a file to scan.
pub open spec fn file_view(f: SourceFile) -> (Seq<char>, Language) {
    (f.path@, f.language)
}

/// The paths and languages of files to scan.
pub open spec fn files_view(fs: Seq<SourceFile>) -> Seq<(Seq<char>, Language)> {
    fs.map_values(|f: SourceFile| file_view(f))
}

#[verifier::external_type_specification]
#[verifier::external_body]
pub struct ExGlob(globset::Glob);

#[verifier::external_type_specification]
#[verifier::external_body]
pub struct ExGlobSet(globset::GlobSet);

#[verifier::external_type_specification]
#[verifier::external_body]
pub struct ExGlobError(globset::Error);

/// Whether `globset::Glob::new` accepts a pattern.
pub uninterp spec fn glob_parses(pattern: Seq<char>) -> bool;

/// Whether the glob of a pattern matches a path, as globset matches it.
pub uninterp spec fn glob_matches(pattern: Seq<char>, path: Seq<char>) -> bool;

/// A glob pattern that parsed, kept with the text it came from.
pub struct ParsedGlob {
    pattern: String,
    glob: globset::Glob,
}

impl ParsedGlob {
    /// The pattern the glob was parsed from.
    pub closed spec fn source(self) -> Seq<char> {
        self.pattern@
    }
}

/// Parses a glob pattern with `globset::Glob::new`. Claims that it succeeds
/// exactly on the patterns that parse, and that the glob keeps its pattern;
/// the error says nothing that the library reads. A `ParsedGlob` is built
/// here and nowhere else, so its glob is always the one its pattern gives.
#[verifier::external_body]
fn parse_glob(pattern: &String) -> (r: Result<ParsedGlob, globset::Error>)
    ensures
        r is Ok <==> glob_parses(pattern@),
        r matches Ok(g) ==> g.source() == pattern@,
{
    match globset::Glob::new(pattern.as_str()) {
        Ok(glob) => Ok(ParsedGlob { pattern: pattern.clone(), glob }),
        Err(e) => Err(e),
    }
}

/// A set of compiled globs, kept with the patterns they came from.
pub struct GlobFilter {
    patterns: Vec<String>,
    set: globset::GlobSet,
}

impl GlobFilter {
    /// The patterns of the set, in the order given.
    pub closed spec fn patterns(self) -> Seq<Seq<char>> {
        string_views(self.patterns@)
    }

    /// Whether any glob of the set matches `path`, by
    /// `globset::GlobSet::is_match`, which its documentation describes as
    /// "true if any glob in this set matches the path given". A `GlobFilter`
    /// is only built by `build_glob_set`, from the globs of its patterns.
    #[verifier::external_body]
    pub fn is_match(&self, path: &str) -> (r: bool)
        ensures
            r == (exists|i: int| 0 <= i < self.patterns().len() && glob_matches(#[trigger] self.patterns()[i], path@)),
    {
        self.set.is_match(path)
    }
}

/// Some pattern of `patterns` matches `path`.
pub open spec fn any_glob_matches(patterns: Seq<Seq<char>>, path: Seq<char>) -> bool {
    exists|i: int| 0 <= i < patterns.len() && glob_matches(#[trigger] patterns[i], path)
}

/// Whether `globset::GlobSet::new` builds a set from the globs of these
/// patterns: it fails only when their regular expressions grow past globset's
/// fixed size limits.
pub uninterp spec fn glob_set_builds(patterns: Seq<Seq<char>>) -> bool;

/// Builds a `globset::GlobSet` from parsed globs with `GlobSet::new`. Claims
/// that it succeeds exactly when the set of their patterns builds, and that a
/// set that is built keeps the patterns of the globs, in order.
#[verifier::external_body]
fn build_glob_set(globs: &Vec<ParsedGlob>) -> (r: Result<GlobFilter, globset::Error>)
    ensures
        r is Ok <==> glob_set_builds(globs@.map_values(|g: ParsedGlob| g.source())),
        r matches Ok(f) ==> f.patterns() == globs@.map_values(|g: ParsedGlob| g.source()),
{
    match globset::GlobSet::new(globs.iter().map(|g| &g.glob)) {
        Ok(set) => Ok(GlobFilter { patterns: globs.iter().map(|g| g.pattern.clone()).collect(), set }),
        Err(e) => Err(e),
    }
}

/// The patterns joined by `, `.
pub open spec fn joined(patterns: Seq<Seq<char>>) -> Seq<char>
    decreases patterns.len(),
{
    if patterns.len() == 0 {
        Seq::empty()
    } else if patterns.len() == 1 {
        patterns[0]
    } else {
        joined(patterns.drop_last()) + ", "@ + patterns.last()
    }
}

/// The index of the first pattern that does not parse, if any.
pub open spec fn first_bad_glob(patterns: Seq<Seq<char>>) -> Option<int> {
    if exists|i: int| 0 <= i < patterns.len() && !glob_parses(#[trigger] patterns[i]) {
        Some(choose|i: int| 0 <= i < patterns.len() && !glob_parses(#[trigger] patterns[i])
            && forall|j: int| 0 <= j < i ==> glob_parses(#[trigger] patterns[j]))
    } else {
        None
    }
}

fn joined_text(patterns: &Vec<String>) -> (r: String)
    ensures
        r@ == joined(string_views(patterns@)),
{
    let ghost ps = string_views(patterns@);
    let mut out = String::new();
    let mut i: usize = 0;
    assert(ps.take(0) =~= Seq::<Seq<char>>::empty());
    while i < patterns.len()
        invariant
            ps == string_views(patterns@),
            0 <= i <= ps.len(),
            out@ == joined(ps.take(i as int)),
        decreases ps.len() - i,
    {
        proof {
            assert(ps.take(i + 1).drop_last() =~= ps.take(i as int));
            assert(ps.take(i + 1).last() == patterns@[i as int]@);
        }
        if i > 0 {
            out.append(", ");
        }
        out.append(patterns[i].as_str());
        proof {
            if i == 0 {
                assert(out@ =~= joined(ps.take(1)));
            }
        }
        i = i + 1;
    }
    assert(ps.take(i as int) =~= ps);
    out
}

/// Compiles glob patterns into one set. Fails on the first pattern that does
/// not parse, with that pattern, or, when the set itself cannot be built,
/// with all the patterns joined by `, `.
pub fn compile_globs(patterns: &Vec<String>) -> (r: Result<GlobFilter, DryerError>)
    ensures
        r matches Ok(f) ==> f.patterns() == string_views(patterns@)
            && forall|i: int| 0 <= i < patterns@.len() ==> glob_parses(#[trigger] patterns@[i]@),
        r matches Err(e) ==> e matches DryerError::Glob { pattern, .. } && glob_error_pattern(string_views(patterns@), pattern@),
        r is Ok <==> globs_compile(string_views(patterns@)),
{
    let ghost ps = string_views(patterns@);
    let mut globs: Vec<ParsedGlob> = Vec::new();
    let mut i: usize = 0;
    while i < patterns.len()
        invariant
            ps == string_views(patterns@),
            0 <= i <= ps.len(),
            globs@.len() == i,
            forall|k: int| 0 <= k < i ==> glob_parses(#[trigger] ps[k]),
            forall|k: int| 0 <= k < i ==> (#[trigger] globs@[k]).source() == ps[k],
        decreases ps.len() - i,
    {
        match parse_glob(&patterns[i]) {
            Ok(g) => {
                globs.push(g);
            },
            Err(source) => {
                proof {
                    assert(!glob_parses(ps[i as int]));
                    let b = first_bad_glob(ps);
                    assert(b is Some);
                    let w = b->Some_0;
                    assert(!glob_parses(ps[w]));
                    if w < i {
                        assert(glob_parses(ps[w]));
                    }
                    if w > i {
                        assert(glob_parses(ps[i as int]));
                    }
                    assert(ps[i as int] == patterns@[i as int]@);
                }
                return Err(DryerError::Glob { pattern: patterns[i].clone(), source });
            },
        }
        i = i + 1;
    }
    proof {
        assert(first_bad_glob(ps) is None);
    }
    proof {
        assert(globs@.map_values(|g: ParsedGlob| g.source()) =~= ps);
    }
    match build_glob_set(&globs) {
        Ok(f) => {
            assert(f.patterns() =~= ps);
            assert forall|k: int| 0 <= k < patterns@.len() implies glob_parses(#[trigger] patterns@[k]@) by {
                assert(ps[k] == patterns@[k]@);
            }
            Ok(f)
        },
        Err(source) => Err(DryerError::Glob { pattern: joined_text(patterns), source }),
    }
}

/// Whether a language passes the configured language filter.
pub open spec fn spec_matches_filter(language: Language, filter: LanguageFilter) -> bool {
    match filter {
        LanguageFilter::All => true,
        LanguageFilter::Rust => language == Language::Rust,
        LanguageFilter::TypeScript => language == Language::TypeScript || language == Language::Tsx,
        LanguageFilter::Haskell => language == Language::Haskell,
        LanguageFilter::Daml => language == Language::Daml,
    }
}

/// Each filter keeps exactly its languages: `all` every language, `rust`
/// only Rust, `typescript` TypeScript and TSX, `haskell` only Haskell, and
/// `daml` only Daml.
pub proof fn lemma_filter_keeps_its_languages(language: Language)
    ensures
        spec_matches_filter(language, LanguageFilter::All),
        spec_matches_filter(language, LanguageFilter::Rust) <==> language == Language::Rust,
        spec_matches_filter(language, LanguageFilter::TypeScript) <==> (language == Language::TypeScript || language == Language::Tsx),
        spec_matches_filter(language, LanguageFilter::Haskell) <==> language == Language::Haskell,
        spec_matches_filter(language, LanguageFilter::Daml) <==> language == Language::Daml,
{
}

/// A kept path keeps the language detected from it, and under a
/// single-language filter that is the filter's language.
pub proof fn lemma_kept_language_is_detected(config: Config, path: Seq<char>)
    ensures
        spec_kept_language(config, path) matches Some(l) ==> spec_detect(path) == Some(l),
        config.language == LanguageFilter::Rust && spec_kept_language(config, path) is Some
            ==> spec_kept_language(config, path) == Some(Language::Rust),
        config.language == LanguageFilter::Haskell && spec_kept_language(config, path) is Some
            ==> spec_kept_language(config, path) == Some(Language::Haskell),
        config.language == LanguageFilter::Daml && spec_kept_language(config, path) is Some
            ==> spec_kept_language(config, path) == Some(Language::Daml),
        config.language == LanguageFilter::TypeScript && spec_kept_language(config, path) is Some
            ==> spec_kept_language(config, path) == Some(Language::TypeScript)
                || spec_kept_language(config, path) == Some(Language::Tsx),
        config.language == LanguageFilter::Daml && spec_detect(path) == Some(Language::Haskell)
            ==> spec_kept_language(config, path) is None,
{
}

/// Whether a language passes the configured language filter.
pub fn matches_filter(language: Language, filter: &LanguageFilter) -> (r: bool)
    ensures
        r == spec_matches_filter(language, *filter),
{
    match filter {
        LanguageFilter::All => true,
        LanguageFilter::Rust => language == Language::Rust,
        LanguageFilter::TypeScript => language == Language::TypeScript || language == Language::Tsx,
        LanguageFilter::Haskell => language == Language::Haskell,
        LanguageFilter::Daml => language == Language::Daml,
    }
}

/// The language of a found path, if the scan keeps it: it matches an include
/// pattern when there are any, matches no exclude pattern, is in a known
/// language and passes the language filter.
pub open spec fn spec_kept_language(config: Config, path: Seq<char>) -> Option<Language> {
    if string_views(config.includes@).len() > 0 && !any_glob_matches(string_views(config.includes@), path) {
        None
    } else if any_glob_matches(string_views(config.exclude@), path) {
        None
    } else {
        match spec_detect(path) {
            Some(language) => if spec_matches_filter(language, config.language) {
                Some(language)
            } else {
                None
            },
            None => None,
        }
    }
}

/// The language of a found path, if the scan keeps it.
pub fn kept_language(path: &str, config: &Config, includes: &GlobFilter, excludes: &GlobFilter) -> (r: Option<Language>)
    requires
        includes.patterns() == string_views(config.includes@),
        excludes.patterns() == string_views(config.exclude@),
    ensures
        r == spec_kept_language(*config, path@),
{
    if config.includes.len() != 0 && !includes.is_match(path) {
        return None;
    }
    if excludes.is_match(path) {
        return None;
    }
    match Language::detect(path) {
        Some(language) => if matches_filter(language, &config.language) {
            Some(language)
        } else {
            None
        },
        None => None,
    }
}

/// Every pattern parses and the set of them builds.
pub open spec fn globs_compile(patterns: Seq<Seq<char>>) -> bool {
    first_bad_glob(patterns) is None && glob_set_builds(patterns)
}

/// `pattern` is the one a failed compile of `patterns` reports: the first
/// that does not parse, or, when they all parse but the set does not build,
/// all of them joined by `, `.
pub open spec fn glob_error_pattern(patterns: Seq<Seq<char>>, pattern: Seq<char>) -> bool {
    match first_bad_glob(patterns) {
        Some(i) => pattern == patterns[i],
        None => pattern == joined(patterns) && !glob_set_builds(patterns),
    }
}

/// The files a scan keeps of the found paths, with their languages, in the
/// order found.
pub open spec fn kept_files(config: Config, found: Seq<Seq<char>>) -> Seq<(Seq<char>, Language)>
    decreases found.len(),
{
    if found.len() == 0 {
        Seq::empty()
    } else {
        kept_files(config, found.drop_last()) + match spec_kept_language(config, found.last()) {
            Some(language) => seq![(found.last(), language)],
            None => Seq::empty(),
        }
    }
}

/// `kept[i]` is the first of the kept files with its path.
pub open spec fn first_with_path(kept: Seq<(Seq<char>, Language)>, i: int) -> bool {
    forall|j: int| 0 <= j < i ==> !path_eq(#[trigger] kept[j].0, kept[i].0)
}

/// `e` is a kept file that is the first kept with its path.
pub open spec fn first_kept_as(kept: Seq<(Seq<char>, Language)>, e: (Seq<char>, Language)) -> bool {
    exists|i: int| 0 <= i < kept.len() && #[trigger] kept[i] == e && first_with_path(kept, i)
}

/// `out` holds a file with the path `path`.
pub open spec fn has_file_at(out: Seq<(Seq<char>, Language)>, path: Seq<char>) -> bool {
    exists|k: int| 0 <= k < out.len() && path_eq(#[trigger] out[k].0, path)
}

/// `out` holds one file for each path among `kept`, the first kept with that
/// path, in the order of paths.
pub open spec fn sorted_unique(kept: Seq<(Seq<char>, Language)>, out: Seq<(Seq<char>, Language)>) -> bool {
    &&& forall|a: int, b: int| 0 <= a < b < out.len() ==> path_lt(#[trigger] out[a].0, #[trigger] out[b].0)
    &&& forall|k: int| 0 <= k < out.len() ==> #[trigger] first_kept_as(kept, out[k])
    &&& forall|i: int| 0 <= i < kept.len() ==> #[trigger] has_file_at(out, kept[i].0)
}

proof fn lemma_first_kept_push(kp: Seq<(Seq<char>, Language)>, x: (Seq<char>, Language), e: (Seq<char>, Language))
    requires
        first_kept_as(kp, e),
    ensures
        first_kept_as(kp.push(x), e),
{
    let kp2 = kp.push(x);
    let a = choose|a: int| 0 <= a < kp.len() && #[trigger] kp[a] == e && first_with_path(kp, a);
    assert(kp2[a] == e);
    assert forall|j: int| 0 <= j < a implies !path_eq(#[trigger] kp2[j].0, kp2[a].0) by {
        assert(kp2[j] == kp[j]);
    }
}

proof fn lemma_unique_skip(kp: Seq<(Seq<char>, Language)>, out: Seq<(Seq<char>, Language)>, x: (Seq<char>, Language), p: int)
    requires
        sorted_unique(kp, out),
        0 <= p < out.len(),
        path_eq(out[p].0, x.0),
    ensures
        sorted_unique(kp.push(x), out),
{
    let kp2 = kp.push(x);
    assert forall|a: int| 0 <= a < kp2.len() implies #[trigger] has_file_at(out, kp2[a].0) by {
        if a == kp.len() {
            assert(path_eq(out[p].0, kp2[a].0));
        } else {
            assert(kp2[a] == kp[a]);
            assert(has_file_at(out, kp[a].0));
        }
    }
    assert forall|k: int| 0 <= k < out.len() implies #[trigger] first_kept_as(kp2, out[k]) by {
        assert(first_kept_as(kp, out[k]));
        lemma_first_kept_push(kp, x, out[k]);
    }
}

proof fn lemma_unique_insert(kp: Seq<(Seq<char>, Language)>, out: Seq<(Seq<char>, Language)>, x: (Seq<char>, Language), p: int)
    requires
        sorted_unique(kp, out),
        0 <= p <= out.len(),
        forall|k: int| 0 <= k < p ==> path_lt(#[trigger] out[k].0, x.0),
        p < out.len() ==> path_lt(x.0, out[p].0),
    ensures
        sorted_unique(kp.push(x), out.insert(p, x)),
{
    let kp2 = kp.push(x);
    let out2 = out.insert(p, x);
    assert forall|a: int| 0 <= a < kp.len() implies !path_eq(#[trigger] kp[a].0, x.0) by {
        assert(has_file_at(out, kp[a].0));
        let k = choose|k: int| 0 <= k < out.len() && path_eq(#[trigger] out[k].0, kp[a].0);
        lemma_path_order(out[k].0, kp[a].0, x.0);
        lemma_path_order(kp[a].0, out[k].0, x.0);
        lemma_path_order(x.0, out[k].0, kp[a].0);
        lemma_path_order(out[k].0, x.0, x.0);
        if k < p {
            assert(path_lt(out[k].0, x.0));
            lemma_path_order(out[k].0, x.0, x.0);
        } else {
            if k > p {
                assert(path_lt(out[p].0, out[k].0));
                lemma_path_order(x.0, out[p].0, out[k].0);
            }
            lemma_path_order(x.0, out[k].0, x.0);
        }
    }
    assert forall|a: int, b: int| 0 <= a < b < out2.len() implies path_lt(#[trigger] out2[a].0, #[trigger] out2[b].0) by {
        if a < p && b < p {
            assert(path_lt(out[a].0, out[b].0));
        } else if a < p && b == p {
            assert(path_lt(out[a].0, x.0));
        } else if a < p && b > p {
            assert(path_lt(out[a].0, out[b - 1].0));
        } else if a == p {
            if b - 1 > p {
                assert(path_lt(out[p].0, out[b - 1].0));
                lemma_path_order(x.0, out[p].0, out[b - 1].0);
            }
        } else {
            assert(path_lt(out[a - 1].0, out[b - 1].0));
        }
    }
    assert forall|k: int| 0 <= k < out2.len() implies #[trigger] first_kept_as(kp2, out2[k]) by {
        if k == p {
            assert(kp2[kp.len() as int] == out2[k]);
            assert forall|j: int| 0 <= j < kp.len() implies !path_eq(#[trigger] kp2[j].0, kp2[kp.len() as int].0) by {
                assert(kp2[j] == kp[j]);
            }
        } else {
            let k0 = if k < p { k } else { k - 1 };
            assert(out2[k] == out[k0]);
            assert(first_kept_as(kp, out[k0]));
            lemma_first_kept_push(kp, x, out[k0]);
        }
    }
    assert forall|a: int| 0 <= a < kp2.len() implies #[trigger] has_file_at(out2, kp2[a].0) by {
        if a == kp.len() {
            lemma_path_order(x.0, x.0, x.0);
            assert(path_eq(out2[p].0, kp2[a].0));
        } else {
            assert(kp2[a] == kp[a]);
            assert(has_file_at(out, kp[a].0));
            let k = choose|k: int| 0 <= k < out.len() && path_eq(#[trigger] out[k].0, kp[a].0);
            let k2 = if k < p { k } else { k + 1 };
            assert(out2[k2] == out[k]);
            assert(path_eq(out2[k2].0, kp2[a].0));
        }
    }
}

/// The keys of `keys` are the components of the paths of `files`.
pub open spec fn keyed(files: Seq<SourceFile>, keys: Seq<Vec<(u8, Vec<char>)>>) -> bool {
    &&& keys.len() == files.len()
    &&& forall|k: int| 0 <= k < keys.len() ==> parts_view((#[trigger] keys[k])@) == path_parts(files[k].path@)
}

/// Adds a kept file in path order, unless a file with the same path is
/// already there.
fn insert_unique(
    files: &mut Vec<SourceFile>,
    keys: &mut Vec<Vec<(u8, Vec<char>)>>,
    path: &String,
    language: Language,
    Ghost(kp): Ghost<Seq<(Seq<char>, Language)>>,
)
    requires
        keyed(old(files)@, old(keys)@),
        sorted_unique(kp, files_view(old(files)@)),
    ensures
        keyed(final(files)@, final(keys)@),
        sorted_unique(kp.push((path@, language)), files_view(final(files)@)),
{
    let ghost x = (path@, language);
    let ghost out = files_view(files@);
    let key = parts_of(path.as_str());
    let mut p: usize = 0;
    while p < keys.len()
        invariant
            0 <= p <= keys@.len(),
            keyed(files@, keys@),
            out == files_view(files@),
            x == (path@, language),
            forall|k: int| 0 <= k < p ==> path_lt(#[trigger] out[k].0, x.0),
            parts_view(key@) == path_parts(path@),
        ensures
            0 <= p <= keys@.len(),
            forall|k: int| 0 <= k < p ==> path_lt(#[trigger] out[k].0, x.0),
            p < keys@.len() ==> !path_lt(out[p as int].0, x.0),
        decreases keys@.len() - p,
    {
        proof {
            assert(out[p as int].0 == files@[p as int].path@);
            assert(parts_view(keys@[p as int]@) == path_parts(files@[p as int].path@));
            lemma_path_defs(out[p as int].0, x.0);
        }
        let less = parts_less(&keys[p], &key);
        proof {
            assert(less == path_lt(out[p as int].0, x.0));
        }
        if !less {
            break;
        }
        p = p + 1;
    }
    if p < keys.len() && parts_equal(&keys[p], &key) {
        proof {
            lemma_path_defs(out[p as int].0, x.0);
            lemma_unique_skip(kp, out, x, p as int);
        }
        return;
    }
    proof {
        if p < keys@.len() {
            lemma_path_defs(out[p as int].0, x.0);
            lemma_path_order(out[p as int].0, x.0, x.0);
        }
        lemma_unique_insert(kp, out, x, p as int);
    }
    let ghost old_keys = keys@;
    files.insert(p, SourceFile { path: path.clone(), language });
    keys.insert(p, key);
    proof {
        assert(files_view(files@) =~= out.insert(p as int, x));
        assert forall|k: int| 0 <= k < keys@.len() implies parts_view((#[trigger] keys@[k])@) == path_parts(files@[k].path@) by {
            if k > p {
                assert(keys@[k] == old_keys[k - 1]);
            }
        }
    }
}

/// The files to scan among the paths found on disk, each with its language:
/// those the configuration keeps, sorted by path and each path once (the
/// first found). Fails when a glob pattern cannot be compiled.
pub fn discover_files(config: &Config, found: &Vec<String>) -> (r: Result<Vec<SourceFile>, DryerError>)
    ensures
        r matches Ok(files) ==> sorted_unique(kept_files(*config, string_views(found@)), files_view(files@)),
        r is Ok <==> globs_compile(string_views(config.includes@)) && globs_compile(string_views(config.exclude@)),
        r matches Err(e) ==> e matches DryerError::Glob { pattern, .. } && if !globs_compile(string_views(config.includes@)) {
            glob_error_pattern(string_views(config.includes@), pattern@)
        } else {
            glob_error_pattern(string_views(config.exclude@), pattern@)
        },
{
    let includes = match compile_globs(&config.includes) {
        Ok(f) => f,
        Err(e) => return Err(e),
    };
    let excludes = match compile_globs(&config.exclude) {
        Ok(f) => f,
        Err(e) => return Err(e),
    };
    let ghost fv = string_views(found@);
    let mut files: Vec<SourceFile> = Vec::new();
    let mut keys: Vec<Vec<(u8, Vec<char>)>> = Vec::new();
    let mut i: usize = 0;
    while i < found.len()
        invariant
            fv == string_views(found@),
            includes.patterns() == string_views(config.includes@),
            excludes.patterns() == string_views(config.exclude@),
            0 <= i <= fv.len(),
            keyed(files@, keys@),
            sorted_unique(kept_files(*config, fv.take(i as int)), files_view(files@)),
        decreases fv.len() - i,
    {
        let ghost kp = kept_files(*config, fv.take(i as int));
        proof {
            assert(fv.take(i + 1).drop_last() =~= fv.take(i as int));
            assert(fv.take(i + 1).last() == found@[i as int]@);
        }
        let path = &found[i];
        match kept_language(path.as_str(), config, &includes, &excludes) {
            None => {
                assert(kept_files(*config, fv.take(i + 1)) =~= kp);
            },
            Some(language) => {
                assert(kept_files(*config, fv.take(i + 1)) =~= kp.push((path@, language)));
                insert_unique(&mut files, &mut keys, path, language, Ghost(kp));
            },
        }
        i = i + 1;
    }
    proof {
        assert(fv.take(i as int) =~= fv);
    }
    Ok(files)
}

} // verus!
