use vstd::prelude::*;

use crate::text::{chars_of, seq_ends_with};

verus! {

/// A source language that the scanner knows how to read.
#[derive(Clone, Copy, Debug, PartialEq, Eq, Structural, PartialOrd, Ord, Hash)]
pub enum Language {
    Rust,
    TypeScript,
    Tsx,
    Haskell,
    Daml,
}

/// The path split at every `/`, one entry per segment (empty segments included).
pub open spec fn path_segments(p: Seq<char>) -> Seq<Seq<char>>
    decreases p.len(),
{
    if p.len() == 0 {
        seq![Seq::empty()]
    } else {
        let prev = path_segments(p.drop_last());
        if p.last() == '/' {
            prev.push(Seq::empty())
        } else {
            prev.update(prev.len() - 1, prev.last().push(p.last()))
        }
    }
}

/// A segment that names something: neither empty nor the current directory `.`.
pub open spec fn is_normal_segment(s: Seq<char>) -> bool {
    s.len() != 0 && s != seq!['.']
}

/// The last segment that names something, if any.
pub open spec fn last_normal_segment(segs: Seq<Seq<char>>) -> Option<Seq<char>>
    decreases segs.len(),
{
    if segs.len() == 0 {
        None
    } else if is_normal_segment(segs.last()) {
        Some(segs.last())
    } else {
        last_normal_segment(segs.drop_last())
    }
}

/// The final component of a path, as `Path::file_name` reads it: trailing
/// separators and `.` components are skipped, and a final `..` names no file.
pub open spec fn spec_file_name(path: Seq<char>) -> Option<Seq<char>> {
    match last_normal_segment(path_segments(path)) {
        Some(s) => if s == seq!['.', '.'] {
            None
        } else {
            Some(s)
        },
        None => None,
    }
}

/// Index of the last occurrence of `c` in `s`, or -1.
pub open spec fn last_index_of(s: Seq<char>, c: char) -> int
    decreases s.len(),
{
    if s.len() == 0 {
        -1
    } else if s.last() == c {
        s.len() - 1
    } else {
        last_index_of(s.drop_last(), c)
    }
}

/// The extension of a file name, as `Path::extension` reads it: the text after
/// the final `.`, unless there is no `.` or the only `.` starts the name.
pub open spec fn spec_name_extension(name: Seq<char>) -> Option<Seq<char>> {
    let dot = last_index_of(name, '.');
    if dot <= 0 {
        None
    } else {
        Some(name.subrange(dot + 1, name.len() as int))
    }
}

pub open spec fn spec_extension(path: Seq<char>) -> Option<Seq<char>> {
    match spec_file_name(path) {
        Some(name) => spec_name_extension(name),
        None => None,
    }
}

/// The language a file is written in, judged by its extension. TypeScript
/// declaration files (`*.d.ts`) are not source to scan.
pub open spec fn spec_detect(path: Seq<char>) -> Option<Language> {
    match spec_extension(path) {
        Some(ext) => if ext == "rs"@ {
            Some(Language::Rust)
        } else if ext == "ts"@ {
            if seq_ends_with(spec_file_name(path).unwrap(), ".d.ts"@) {
                None
            } else {
                Some(Language::TypeScript)
            }
        } else if ext == "tsx"@ {
            Some(Language::Tsx)
        } else if ext == "hs"@ || ext == "lhs"@ {
            Some(Language::Haskell)
        } else if ext == "daml"@ {
            Some(Language::Daml)
        } else {
            None
        }
        None => None,
    }
}

pub open spec fn spec_report_name(language: Language) -> Seq<char> {
    match language {
        Language::Rust => "rust"@,
        Language::TypeScript => "typescript"@,
        Language::Tsx => "tsx"@,
        Language::Haskell => "haskell"@,
        Language::Daml => "daml"@,
    }
}

pub open spec fn spec_family(language: Language) -> Seq<char> {
    match language {
        Language::Rust => spec_report_name(Language::Rust),
        Language::TypeScript | Language::Tsx => spec_report_name(Language::TypeScript),
        Language::Haskell | Language::Daml => spec_report_name(Language::Haskell),
    }
}

pub proof fn lemma_segments_nonempty(p: Seq<char>)
    ensures
        path_segments(p).len() >= 1,
    decreases p.len(),
{
    if p.len() > 0 {
        lemma_segments_nonempty(p.drop_last());
    }
}

/// The final component of `path`.
pub fn file_name(path: &str) -> (r: Option<Vec<char>>)
    ensures
        match r {
            Some(v) => spec_file_name(path@) == Some(v@),
            None => spec_file_name(path@) is None,
        },
{
    let cs = chars_of(path);
    let mut cur: Vec<char> = Vec::new();
    let mut last: Option<Vec<char>> = None;
    let mut i: usize = 0;
    while i < cs.len()
        invariant
            cs@ == path@,
            0 <= i <= cs@.len(),
            path_segments(cs@.take(i as int)).len() >= 1,
            cur@ == path_segments(cs@.take(i as int)).last(),
            match last {
                Some(v) => last_normal_segment(path_segments(cs@.take(i as int)).drop_last()) == Some(v@),
                None => last_normal_segment(path_segments(cs@.take(i as int)).drop_last()) is None,
            },
        decreases cs@.len() - i,
    {
        let ghost pre = cs@.take(i as int);
        let ghost segs = path_segments(pre);
        let c = cs[i];
        proof {
            assert(cs@.take(i + 1).drop_last() =~= pre);
            assert(cs@.take(i + 1).last() == c);
        }
        if c == '/' {
            proof {
                assert(path_segments(cs@.take(i + 1)) == segs.push(Seq::empty()));
                assert(segs.push(Seq::empty()).drop_last() =~= segs);
                assert(segs =~= segs.drop_last().push(segs.last()));
            }
            if cur.len() != 0 && !(cur.len() == 1 && cur[0] == '.') {
                proof {
                    assert(cur@ != seq!['.']) by {
                        if cur@ == seq!['.'] {
                            assert(cur@.len() == 1 && cur@[0] == '.');
                        }
                    }
                }
                last = Some(cur);
            } else {
                proof {
                    if cur@.len() != 0 {
                        assert(cur@ =~= seq!['.']);
                    }
                }
            }
            cur = Vec::new();
        } else {
            proof {
                assert(path_segments(cs@.take(i + 1)) == segs.update(segs.len() - 1, segs.last().push(c)));
                assert(segs.update(segs.len() - 1, segs.last().push(c)).drop_last() =~= segs.drop_last());
            }
            cur.push(c);
        }
        i = i + 1;
    }
    proof {
        assert(cs@.take(cs@.len() as int) =~= cs@);
        let segs = path_segments(cs@);
        assert(segs =~= segs.drop_last().push(segs.last()));
        assert(segs.drop_last().push(segs.last()).drop_last() =~= segs.drop_last());
    }
    let named = if cur.len() != 0 && !(cur.len() == 1 && cur[0] == '.') {
        proof {
            assert(cur@ != seq!['.']) by {
                if cur@ == seq!['.'] {
                    assert(cur@.len() == 1 && cur@[0] == '.');
                }
            }
        }
        Some(cur)
    } else {
        proof {
            if cur@.len() != 0 {
                assert(cur@ =~= seq!['.']);
            }
        }
        last
    };
    match named {
        Some(v) => {
            if v.len() == 2 && v[0] == '.' && v[1] == '.' {
                assert(v@ =~= seq!['.', '.']);
                None
            } else {
                assert(v@ != seq!['.', '.']) by {
                    if v@ == seq!['.', '.'] {
                        assert(v@.len() == 2 && v@[0] == '.' && v@[1] == '.');
                    }
                }
                Some(v)
            }
        },
        None => None,
    }
}

} // verus!

verus! {

/// Index of the last occurrence of `c` in `v`, or `None`.
fn last_index_of_exec(v: &Vec<char>, c: char) -> (r: Option<usize>)
    ensures
        match r {
            Some(i) => last_index_of(v@, c) == i as int,
            None => last_index_of(v@, c) == -1,
        },
{
    let mut i: usize = v.len();
    assert(v@.take(v@.len() as int) =~= v@);
    while i > 0
        invariant
            0 <= i <= v@.len(),
            last_index_of(v@, c) == last_index_of(v@.take(i as int), c),
        decreases i,
    {
        proof {
            assert(v@.take(i as int).drop_last() =~= v@.take(i - 1));
        }
        if v[i - 1] == c {
            return Some(i - 1);
        }
        i = i - 1;
    }
    None
}

proof fn lemma_last_index_bounds(s: Seq<char>, c: char)
    ensures
        -1 <= last_index_of(s, c) < s.len(),
        last_index_of(s, c) >= 0 ==> s[last_index_of(s, c)] == c,
    decreases s.len(),
{
    if s.len() > 0 {
        lemma_last_index_bounds(s.drop_last(), c);
    }
}

/// The extension of a file name.
fn name_extension(name: &Vec<char>) -> (r: Option<Vec<char>>)
    ensures
        match r {
            Some(e) => spec_name_extension(name@) == Some(e@),
            None => spec_name_extension(name@) is None,
        },
{
    let name_len = name.len();
    proof {
        lemma_last_index_bounds(name@, '.');
    }
    match last_index_of_exec(name, '.') {
        Some(dot) => {
            if dot == 0 {
                None
            } else {
                let mut ext: Vec<char> = Vec::new();
                let mut k: usize = dot + 1;
                while k < name.len()
                    invariant
                        dot < name@.len(),
                        dot + 1 <= k <= name@.len(),
                        ext@ == name@.subrange(dot + 1, k as int),
                    decreases name@.len() - k,
                {
                    ext.push(name[k]);
                    k = k + 1;
                    assert(ext@ =~= name@.subrange(dot + 1, k as int));
                }
                Some(ext)
            }
        },
        None => None,
    }
}

impl Language {
    /// The language of the file at `path`, judged by its extension.
    pub fn detect(path: &str) -> (r: Option<Language>)
        ensures
            r == spec_detect(path@),
    {
        let name = match file_name(path) {
            Some(n) => n,
            None => return None,
        };
        let ext = match name_extension(&name) {
            Some(e) => e,
            None => return None,
        };
        if crate::text::chars_eq_str(&ext, "rs") {
            Some(Language::Rust)
        } else if crate::text::chars_eq_str(&ext, "ts") {
            if crate::text::chars_end_with(&name, ".d.ts") {
                None
            } else {
                Some(Language::TypeScript)
            }
        } else if crate::text::chars_eq_str(&ext, "tsx") {
            Some(Language::Tsx)
        } else if crate::text::chars_eq_str(&ext, "hs") || crate::text::chars_eq_str(&ext, "lhs") {
            Some(Language::Haskell)
        } else if crate::text::chars_eq_str(&ext, "daml") {
            Some(Language::Daml)
        } else {
            None
        }
    }

    /// The name under which reports show this language.
    pub fn report_name(self) -> (r: &'static str)
        ensures
            r@ == spec_report_name(self),
    {
        match self {
            Language::Rust => "rust",
            Language::TypeScript => "typescript",
            Language::Tsx => "tsx",
            Language::Haskell => "haskell",
            Language::Daml => "daml",
        }
    }

    /// The family whose members are compared with each other by default.
    pub fn family(self) -> (r: &'static str)
        ensures
            r@ == spec_family(self),
    {
        match self {
            Language::Rust => "rust",
            Language::TypeScript | Language::Tsx => "typescript",
            Language::Haskell | Language::Daml => "haskell",
        }
    }
}

proof fn lemma_last_dot_before_extension(stem: Seq<char>, ext: Seq<char>)
    requires
        !ext.contains('.'),
    ensures
        last_index_of(stem + seq!['.'] + ext, '.') == stem.len(),
    decreases ext.len(),
{
    let name = stem + seq!['.'] + ext;
    if ext.len() == 0 {
        assert(name =~= stem.push('.'));
    } else {
        assert(ext.last() != '.') by {
            if ext.last() == '.' {
                assert(ext.contains(ext[ext.len() - 1]));
            }
        }
        assert(!ext.drop_last().contains('.')) by {
            if ext.drop_last().contains('.') {
                let i = choose|i: int| 0 <= i < ext.drop_last().len() && ext.drop_last()[i] == '.';
                assert(ext[i] == '.');
            }
        }
        lemma_last_dot_before_extension(stem, ext.drop_last());
        assert(name.drop_last() =~= stem + seq!['.'] + ext.drop_last());
    }
}

/// The extension of a file name is the text after its last `.`, whatever
/// dots come before it: for a non-empty stem and an extension without a
/// `.`, the name `stem.ext` has the extension `ext`.
pub proof fn lemma_extension_after_last_dot(stem: Seq<char>, ext: Seq<char>)
    requires
        stem.len() > 0,
        !ext.contains('.'),
    ensures
        spec_name_extension(stem + seq!['.'] + ext) == Some(ext),
{
    lemma_last_dot_before_extension(stem, ext);
    let name = stem + seq!['.'] + ext;
    assert(name.subrange(stem.len() as int + 1, name.len() as int) =~= ext);
}

proof fn lemma_no_dot_after_start(name: Seq<char>)
    requires
        forall|i: int| 0 < i < name.len() ==> name[i] != '.',
    ensures
        last_index_of(name, '.') <= 0,
    decreases name.len(),
{
    if name.len() > 1 {
        assert forall|i: int| 0 < i < name.drop_last().len() implies name.drop_last()[i] != '.' by {
            assert(name.drop_last()[i] == name[i]);
        }
        assert(name.last() == name[name.len() - 1]);
        lemma_no_dot_after_start(name.drop_last());
    } else if name.len() == 1 {
        assert(last_index_of(name.drop_last(), '.') == -1);
    }
}

/// A file name without a `.` after its first character has no extension:
/// `Makefile` has none, and neither has `.gitignore`.
pub proof fn lemma_no_extension_without_dot(name: Seq<char>)
    requires
        forall|i: int| 0 < i < name.len() ==> name[i] != '.',
    ensures
        spec_name_extension(name) is None,
{
    lemma_no_dot_after_start(name);
}

proof fn lemma_segments_after_separator(dir: Seq<char>, name: Seq<char>)
    requires
        !name.contains('/'),
    ensures
        path_segments(dir + seq!['/'] + name) == path_segments(dir).push(name),
    decreases name.len(),
{
    let p = dir + seq!['/'] + name;
    if name.len() == 0 {
        assert(p =~= dir.push('/'));
        assert(p.drop_last() =~= dir);
        assert(name =~= Seq::<char>::empty());
    } else {
        assert(!name.drop_last().contains('/')) by {
            if name.drop_last().contains('/') {
                let i = choose|i: int| 0 <= i < name.drop_last().len() && name.drop_last()[i] == '/';
                assert(name[i] == '/');
            }
        }
        assert(name.last() != '/') by {
            if name.last() == '/' {
                assert(name.contains(name[name.len() - 1]));
            }
        }
        lemma_segments_after_separator(dir, name.drop_last());
        assert(p.drop_last() =~= dir + seq!['/'] + name.drop_last());
        let prev = path_segments(dir).push(name.drop_last());
        assert(name.drop_last().push(name.last()) =~= name);
        assert(prev.update(prev.len() - 1, prev.last().push(name.last())) =~= path_segments(dir).push(name));
    }
}

/// A file's language comes from the extension after the last `.` of its
/// name, whatever dots the name holds before it and whatever directory holds
/// it: `dir/stem.rs` is Rust, `dir/stem.tsx` is TSX, and `dir/stem.ts` is
/// TypeScript unless the name ends in `.d.ts`.
pub proof fn lemma_detect_by_last_extension(dir: Seq<char>, stem: Seq<char>)
    requires
        stem.len() > 0,
        !stem.contains('/'),
    ensures
        spec_detect(dir + seq!['/'] + stem + ".rs"@) == Some(Language::Rust),
        spec_detect(dir + seq!['/'] + stem + ".tsx"@) == Some(Language::Tsx),
        !seq_ends_with(stem + ".ts"@, ".d.ts"@) ==> spec_detect(dir + seq!['/'] + stem + ".ts"@) == Some(Language::TypeScript),
{
    reveal_strlit(".rs");
    reveal_strlit(".ts");
    reveal_strlit(".tsx");
    reveal_strlit("rs");
    reveal_strlit("ts");
    reveal_strlit("tsx");
    reveal_strlit("hs");
    reveal_strlit("lhs");
    reveal_strlit("daml");
    lemma_one_name(dir, stem, "rs"@);
    lemma_one_name(dir, stem, "ts"@);
    lemma_one_name(dir, stem, "tsx"@);
    assert(stem + ".rs"@ =~= stem + seq!['.'] + "rs"@);
    assert(stem + ".ts"@ =~= stem + seq!['.'] + "ts"@);
    assert(stem + ".tsx"@ =~= stem + seq!['.'] + "tsx"@);
    assert(dir + seq!['/'] + stem + ".rs"@ =~= dir + seq!['/'] + (stem + ".rs"@));
    assert(dir + seq!['/'] + stem + ".ts"@ =~= dir + seq!['/'] + (stem + ".ts"@));
    assert(dir + seq!['/'] + stem + ".tsx"@ =~= dir + seq!['/'] + (stem + ".tsx"@));
    assert("rs"@ != "ts"@) by { assert("rs"@[0] != "ts"@[0]); }
    assert("tsx"@ != "rs"@) by { assert("tsx"@.len() != "rs"@.len()); }
    assert("tsx"@ != "ts"@) by { assert("tsx"@.len() != "ts"@.len()); }
}

proof fn lemma_one_name(dir: Seq<char>, stem: Seq<char>, ext: Seq<char>)
    requires
        stem.len() > 0,
        !stem.contains('/'),
        !ext.contains('.'),
        !ext.contains('/'),
        ext.len() > 0,
    ensures
        spec_file_name(dir + seq!['/'] + (stem + seq!['.'] + ext)) == Some(stem + seq!['.'] + ext),
        spec_extension(dir + seq!['/'] + (stem + seq!['.'] + ext)) == Some(ext),
{
    let name = stem + seq!['.'] + ext;
    assert(!name.contains('/')) by {
        if name.contains('/') {
            let i = choose|i: int| 0 <= i < name.len() && name[i] == '/';
            if i < stem.len() {
                assert(stem[i] == '/');
            } else if i > stem.len() {
                assert(ext[i - stem.len() - 1] == '/');
            }
        }
    }
    lemma_segments_after_separator(dir, name);
    assert(is_normal_segment(name)) by {
        assert(name.len() >= 3);
    }
    assert(path_segments(dir).push(name).last() == name);
    assert(name != seq!['.', '.']) by {
        assert(name.len() >= 3);
    }
    lemma_extension_after_last_dot(stem, ext);
}

} // verus!
