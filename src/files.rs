//! Locale files: which names are eligible, the language of each, and the
//! index from language to file.
use vstd::prelude::*;
use crate::strmap::StrMap;

verus! {

/// The syntax a locale file is written in.
#[derive(PartialEq, Eq, Structural, Clone, Copy, Debug)]
pub enum SourceFormat {
    Json,
    Ron,
}

/// Fatal errors of a run: no report is produced.
#[derive(Debug)]
pub enum LintError {
    NoLocaleFilesFound,
    BaseLanguageNotFound { base: String },
    ParseError { file: String, cause: String },
    UnsupportedExtension { file: String },
}

/// Position of the last `.` in `s`, or -1.
pub open spec fn last_dot(s: Seq<char>) -> int
    decreases s.len(),
{
    if s.len() == 0 {
        -1
    } else if s.last() == '.' {
        s.len() - 1
    } else {
        last_dot(s.drop_last())
    }
}

/// The stem of a file name: the part before the last `.`, unless that dot
/// is the first character or there is none, where it is the whole name.
pub open spec fn stem(s: Seq<char>) -> Seq<char> {
    if last_dot(s) <= 0 {
        s
    } else {
        s.subrange(0, last_dot(s))
    }
}

/// The extension: what follows a last `.` that is not the first character.
pub open spec fn extension(s: Seq<char>) -> Option<Seq<char>> {
    if last_dot(s) <= 0 {
        None
    } else {
        Some(s.subrange(last_dot(s) + 1, s.len() as int))
    }
}

pub open spec fn format_of(name: Seq<char>) -> Option<SourceFormat> {
    if extension(name) == Some("json"@) {
        Some(SourceFormat::Json)
    } else if extension(name) == Some("ron"@) {
        Some(SourceFormat::Ron)
    } else {
        None
    }
}

proof fn lemma_last_dot_bounds(s: Seq<char>)
    ensures
        -1 <= last_dot(s) < s.len(),
        last_dot(s) >= 0 ==> s[last_dot(s)] == '.',
        forall|k: int| last_dot(s) < k < s.len() ==> s[k] != '.',
    decreases s.len(),
{
    if s.len() > 0 && s.last() != '.' {
        lemma_last_dot_bounds(s.drop_last());
        assert forall|k: int| last_dot(s) < k < s.len() implies s[k] != '.' by {
            if k < s.len() - 1 {
                assert(s.drop_last()[k] == s[k]);
            }
        }
    }
}

fn find_last_dot(s: &str) -> (r: Option<usize>)
    ensures
        r is None <==> last_dot(s@) < 0,
        r is Some ==> r->0 as int == last_dot(s@),
{
    let n = s.unicode_len();
    let mut i: usize = n;
    assert(s@.subrange(0, n as int) =~= s@);
    while i > 0
        invariant
            n == s@.len(),
            i <= n,
            last_dot(s@) == last_dot(s@.subrange(0, i as int)),
        decreases i,
    {
        let ghost pre = s@.subrange(0, i as int);
        assert(pre.drop_last() =~= s@.subrange(0, i - 1));
        if s.get_char(i - 1) == '.' {
            return Some(i - 1);
        }
        i = i - 1;
    }
    assert(s@.subrange(0, 0) =~= Seq::<char>::empty());
    None
}

/// The language of a locale file: its name's stem, or `None` when the stem
/// is empty.
pub fn lang_from_filename(name: &str) -> (r: Option<String>)
    ensures
        r.is_some() == (stem(name@).len() > 0),
        r.is_some() ==> r.unwrap()@ == stem(name@),
{
    proof {
        assert(name@.subrange(0, name@.len() as int) =~= name@);
        lemma_last_dot_bounds(name@);
    }
    let d = match find_last_dot(name) {
        Some(d) => d,
        None => 0,
    };
    if d == 0 {
        if name.unicode_len() == 0 {
            None
        } else {
            Some(name.to_string())
        }
    } else {
        let st = name.substring_char(0, d);
        Some(st.to_string())
    }
}

/// The format of an eligible locale file name (`.json` or `.ron`).
pub fn locale_format(name: &str) -> (r: Option<SourceFormat>)
    ensures
        r == format_of(name@),
{
    proof {
        assert(name@.subrange(0, name@.len() as int) =~= name@);
        lemma_last_dot_bounds(name@);
    }
    let d = match find_last_dot(name) {
        Some(d) => d,
        None => 0,
    };
    if d == 0 {
        return None;
    }
    let n = name.unicode_len();
    let ext = name.substring_char(d + 1, n);
    if crate::strmap::compare_keys(ext, "json") == 0 {
        Some(SourceFormat::Json)
    } else if crate::strmap::compare_keys(ext, "ron") == 0 {
        Some(SourceFormat::Ron)
    } else {
        None
    }
}

/// A discovered file: its displayed path and its file name.
pub struct LocaleFile {
    pub path: String,
    pub name: String,
}

/// The language index after the first `n` files: each file with a non-empty
/// stem maps its stem to its path, a later file replacing an earlier one.
pub open spec fn index_after(files: Seq<LocaleFile>, n: int) -> Map<Seq<char>, Seq<char>>
    decreases n,
{
    if n <= 0 || n > files.len() {
        Map::empty()
    } else {
        let prev = index_after(files, n - 1);
        let f = files[n - 1];
        if stem(f.name@).len() > 0 {
            prev.insert(stem(f.name@), f.path@)
        } else {
            prev
        }
    }
}

/// Indexes the files by language (sorted), then checks that there was at
/// least one file and that the base language is among them.
pub fn index_by_lang(files: &Vec<LocaleFile>, base: &str) -> (r: Result<StrMap, LintError>)
    ensures
        files@.len() == 0 ==> r is Err && r->Err_0 is NoLocaleFilesFound,
        files@.len() > 0 && !index_after(files@, files@.len() as int).contains_key(base@) ==> r is Err
            && r->Err_0 is BaseLanguageNotFound,
        files@.len() > 0 && index_after(files@, files@.len() as int).contains_key(base@) ==> r is Ok
            && r->Ok_0.wf() && r->Ok_0.view() == index_after(files@, files@.len() as int),
{
    if files.len() == 0 {
        return Err(LintError::NoLocaleFilesFound);
    }
    let mut m = StrMap::new();
    let mut i: usize = 0;
    while i < files.len()
        invariant
            i <= files@.len(),
            m.wf(),
            m.view() == index_after(files@, i as int),
        decreases files@.len() - i,
    {
        let f = &files[i];
        match lang_from_filename(f.name.as_str()) {
            Some(lang) => {
                m.insert(lang, f.path.clone());
            },
            None => {},
        }
        i = i + 1;
    }
    if m.contains(base) {
        Ok(m)
    } else {
        Err(LintError::BaseLanguageNotFound { base: base.to_string() })
    }
}

} // verus!
