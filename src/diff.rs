//! The diff of every language against the base language.
use vstd::prelude::*;
use crate::placeholders::{
    extract_placeholders, lemma_extracted_keys, names_text, names_text_of, placeholders, same_names, sorted_names,
};
use crate::strmap::{compare_keys, StrMap};

verus! {

/// One detected issue of a language against the base language.
pub struct Finding {
    pub kind: String,
    pub lang: String,
    pub key: String,
    pub file: String,
    pub message: String,
}

/// A finding as character sequences.
pub struct FindingView {
    pub kind: Seq<char>,
    pub lang: Seq<char>,
    pub key: Seq<char>,
    pub file: Seq<char>,
    pub message: Seq<char>,
}

impl Finding {
    pub open spec fn view(&self) -> FindingView {
        FindingView { kind: self.kind@, lang: self.lang@, key: self.key@, file: self.file@, message: self.message@ }
    }
}

pub struct Totals {
    pub missing: usize,
    pub extra: usize,
    pub placeholder_mismatch: usize,
}

/// Everything one run found.
pub struct Report {
    pub base: String,
    pub langs: Vec<String>,
    pub missing: Vec<Finding>,
    pub extra: Vec<Finding>,
    pub placeholder_mismatch: Vec<Finding>,
    pub totals: Totals,
}

/// A language's flattened document and the file it came from.
pub struct Locale {
    pub lang: String,
    pub file: String,
    pub map: StrMap,
}

pub open spec fn texts(v: Seq<String>) -> Seq<Seq<char>> {
    v.map_values(|s: String| s@)
}

pub open spec fn locale_langs(v: Seq<Locale>) -> Seq<Seq<char>> {
    v.map_values(|l: Locale| l.lang@)
}

pub open spec fn views(v: Seq<Finding>) -> Seq<FindingView> {
    v.map_values(|f: Finding| f.view())
}

pub open spec fn finding(
    kind: Seq<char>,
    lang: Seq<char>,
    key: Seq<char>,
    file: Seq<char>,
    message: Seq<char>,
) -> FindingView {
    FindingView { kind, lang, key, file, message }
}

/// Base keys (in the order of `base`) that the candidate lacks.
pub open spec fn missing_for(
    base_lang: Seq<char>,
    base: Seq<(Seq<char>, Seq<char>)>,
    cand: Map<Seq<char>, Seq<char>>,
    lang: Seq<char>,
    file: Seq<char>,
) -> Seq<FindingView>
    decreases base.len(),
{
    if base.len() == 0 {
        seq![]
    } else {
        let prev = missing_for(base_lang, base.drop_last(), cand, lang, file);
        let k = base.last().0;
        if cand.contains_key(k) {
            prev
        } else {
            prev.push(finding("missing_key"@, lang, k, file, missing_message(k, base_lang)))
        }
    }
}

/// Keys present on both sides whose placeholder sets differ.
pub open spec fn mismatch_for(
    base_lang: Seq<char>,
    base: Seq<(Seq<char>, Seq<char>)>,
    cand: Map<Seq<char>, Seq<char>>,
    lang: Seq<char>,
    file: Seq<char>,
) -> Seq<FindingView>
    decreases base.len(),
{
    if base.len() == 0 {
        seq![]
    } else {
        let prev = mismatch_for(base_lang, base.drop_last(), cand, lang, file);
        let k = base.last().0;
        if cand.contains_key(k) && placeholders(base.last().1) != placeholders(cand[k]) {
            prev.push(finding("placeholder_mismatch"@, lang, k, file, mismatch_message(k, lang, base.last().1, cand[k])))
        } else {
            prev
        }
    }
}

/// Candidate keys (in the order of `cand`) that the base lacks.
pub open spec fn extra_for(
    base_lang: Seq<char>,
    cand: Seq<(Seq<char>, Seq<char>)>,
    base: Map<Seq<char>, Seq<char>>,
    lang: Seq<char>,
    file: Seq<char>,
) -> Seq<FindingView>
    decreases cand.len(),
{
    if cand.len() == 0 {
        seq![]
    } else {
        let prev = extra_for(base_lang, cand.drop_last(), base, lang, file);
        let k = cand.last().0;
        if base.contains_key(k) {
            prev
        } else {
            prev.push(finding("extra_key"@, lang, k, file, extra_message(k, lang, base_lang)))
        }
    }
}

pub open spec fn all_missing(base_lang: Seq<char>, base: StrMap, locs: Seq<Locale>) -> Seq<FindingView>
    decreases locs.len(),
{
    if locs.len() == 0 {
        seq![]
    } else {
        let l = locs.last();
        let prev = all_missing(base_lang, base, locs.drop_last());
        if l.lang@ == base_lang {
            prev
        } else {
            prev + missing_for(base_lang, base.pairs(), l.map.view(), l.lang@, l.file@)
        }
    }
}

pub open spec fn all_mismatch(base_lang: Seq<char>, base: StrMap, locs: Seq<Locale>) -> Seq<FindingView>
    decreases locs.len(),
{
    if locs.len() == 0 {
        seq![]
    } else {
        let l = locs.last();
        let prev = all_mismatch(base_lang, base, locs.drop_last());
        if l.lang@ == base_lang {
            prev
        } else {
            prev + mismatch_for(base_lang, base.pairs(), l.map.view(), l.lang@, l.file@)
        }
    }
}

pub open spec fn all_extra(base_lang: Seq<char>, base: StrMap, locs: Seq<Locale>) -> Seq<FindingView>
    decreases locs.len(),
{
    if locs.len() == 0 {
        seq![]
    } else {
        let l = locs.last();
        let prev = all_extra(base_lang, base, locs.drop_last());
        if l.lang@ == base_lang {
            prev
        } else {
            prev + extra_for(base_lang, l.map.pairs(), base.view(), l.lang@, l.file@)
        }
    }
}

pub open spec fn missing_message(key: Seq<char>, base_lang: Seq<char>) -> Seq<char> {
    "key '"@ + key + "' is missing (base: "@ + base_lang + ")"@
}

pub open spec fn extra_message(key: Seq<char>, lang: Seq<char>, base_lang: Seq<char>) -> Seq<char> {
    "key '"@ + key + "' exists in "@ + lang + ", but not in base "@ + base_lang
}

pub open spec fn mismatch_message(key: Seq<char>, lang: Seq<char>, base_text: Seq<char>, text: Seq<char>) -> Seq<char> {
    "placeholders mismatch for key '"@ + key + "': base="@ + names_text(sorted_names(base_text)) + ", "@ + lang + "="@
        + names_text(sorted_names(text))
}

/// What `diff` returns: the base language, every language in input order,
/// the three finding lists in language-then-key order, and their counts.
pub open spec fn is_diff_of(r: Report, base_lang: Seq<char>, base: StrMap, locs: Seq<Locale>) -> bool {
    &&& r.base@ == base_lang
    &&& texts(r.langs@) == locale_langs(locs)
    &&& views(r.missing@) == all_missing(base_lang, base, locs)
    &&& views(r.extra@) == all_extra(base_lang, base, locs)
    &&& views(r.placeholder_mismatch@) == all_mismatch(base_lang, base, locs)
    &&& r.totals.missing == r.missing@.len()
    &&& r.totals.extra == r.extra@.len()
    &&& r.totals.placeholder_mismatch == r.placeholder_mismatch@.len()
}

pub open spec fn locales_wf(locs: Seq<Locale>) -> bool {
    forall|i: int| 0 <= i < locs.len() ==> (#[trigger] locs[i]).map.wf()
}


fn make_finding(kind: &str, lang: &String, key: &String, file: &String, message: String) -> (r: Finding)
    ensures
        r.view() == finding(kind@, lang@, key@, file@, message@),
{
    Finding { kind: kind.to_string(), lang: lang.clone(), key: key.clone(), file: file.clone(), message }
}

proof fn lemma_views_push(v: Seq<Finding>, f: Finding)
    ensures
        views(v.push(f)) == views(v).push(f.view()),
{
    assert(views(v.push(f)) =~= views(v).push(f.view()));
}

/// Appends the missing-key and placeholder-mismatch findings of one locale.
fn diff_base_keys(
    base_lang: &str,
    base: &StrMap,
    l: &Locale,
    missing: &mut Vec<Finding>,
    mismatch: &mut Vec<Finding>,
)
    requires
        base.wf(),
        l.map.wf(),
    ensures
        views(final(missing)@) == views(old(missing)@) + missing_for(base_lang@, base.pairs(), l.map.view(), l.lang@, l.file@),
        views(final(mismatch)@) == views(old(mismatch)@) + mismatch_for(base_lang@, base.pairs(), l.map.view(), l.lang@, l.file@),
{
    let ghost m0 = missing@;
    let ghost p0 = mismatch@;
    let ghost pairs = base.pairs();
    let ghost cand = l.map.view();
    let mut j: usize = 0;
    assert(pairs.take(0) =~= Seq::<(Seq<char>, Seq<char>)>::empty());
    assert(views(m0) + missing_for(base_lang@, pairs.take(0), cand, l.lang@, l.file@) =~= views(m0));
    assert(views(p0) + mismatch_for(base_lang@, pairs.take(0), cand, l.lang@, l.file@) =~= views(p0));
    while j < base.len()
        invariant
            base.wf(),
            l.map.wf(),
            pairs == base.pairs(),
            cand == l.map.view(),
            j <= base.entries@.len(),
            views(missing@) == views(m0) + missing_for(base_lang@, pairs.take(j as int), cand, l.lang@, l.file@),
            views(mismatch@) == views(p0) + mismatch_for(base_lang@, pairs.take(j as int), cand, l.lang@, l.file@),
        decreases base.entries@.len() - j,
    {
        let k = base.key(j);
        let bv = base.value(j);
        proof {
            assert(pairs.take(j + 1).drop_last() =~= pairs.take(j as int));
            assert(pairs.take(j + 1).last() == pairs[j as int]);
            assert(pairs[j as int] == (k@, bv@));
        }
        match l.map.get(k.as_str()) {
            None => {
                let msg = "key '".to_string().concat(k.as_str()).concat("' is missing (base: ").concat(
                    base_lang,
                ).concat(")");
                let f = make_finding("missing_key", &l.lang, k, &l.file, msg);
                let ghost before = missing@;
                missing.push(f);
                proof {
                    lemma_views_push(before, f);
                }
            },
            Some(cv) => {
                let bp = extract_placeholders(bv.as_str());
                let cp = extract_placeholders(cv.as_str());
                if !same_names(&bp, &cp) {
                    proof {
                        lemma_extracted_keys(bv@, bp);
                        lemma_extracted_keys(cv@, cp);
                    }
                    let msg = "placeholders mismatch for key '".to_string().concat(k.as_str()).concat(
                        "': base=",
                    ).concat(names_text_of(&bp).as_str()).concat(", ").concat(l.lang.as_str()).concat("=").concat(
                        names_text_of(&cp).as_str(),
                    );
                    let f = make_finding("placeholder_mismatch", &l.lang, k, &l.file, msg);
                    let ghost before = mismatch@;
                    mismatch.push(f);
                    proof {
                        lemma_views_push(before, f);
                    }
                }
            },
        }
        proof {
            assert(views(m0) + missing_for(base_lang@, pairs.take(j + 1), cand, l.lang@, l.file@) =~= views(missing@));
            assert(views(p0) + mismatch_for(base_lang@, pairs.take(j + 1), cand, l.lang@, l.file@) =~= views(mismatch@));
        }
        j = j + 1;
    }
    proof {
        assert(pairs.take(j as int) =~= pairs);
    }
}


/// Appends the extra-key findings of one locale.
fn diff_extra_keys(base_lang: &str, base: &StrMap, l: &Locale, extra: &mut Vec<Finding>)
    requires
        base.wf(),
        l.map.wf(),
    ensures
        views(final(extra)@) == views(old(extra)@) + extra_for(base_lang@, l.map.pairs(), base.view(), l.lang@, l.file@),
{
    let ghost e0 = extra@;
    let ghost pairs = l.map.pairs();
    let ghost bm = base.view();
    let mut j: usize = 0;
    assert(pairs.take(0) =~= Seq::<(Seq<char>, Seq<char>)>::empty());
    assert(views(e0) + extra_for(base_lang@, pairs.take(0), bm, l.lang@, l.file@) =~= views(e0));
    while j < l.map.len()
        invariant
            base.wf(),
            l.map.wf(),
            pairs == l.map.pairs(),
            bm == base.view(),
            j <= l.map.entries@.len(),
            views(extra@) == views(e0) + extra_for(base_lang@, pairs.take(j as int), bm, l.lang@, l.file@),
        decreases l.map.entries@.len() - j,
    {
        let k = l.map.key(j);
        proof {
            assert(pairs.take(j + 1).drop_last() =~= pairs.take(j as int));
            assert(pairs.take(j + 1).last() == pairs[j as int]);
            assert(pairs[j as int].0 == k@);
        }
        if !base.contains(k.as_str()) {
            let msg = "key '".to_string().concat(k.as_str()).concat("' exists in ").concat(
                l.lang.as_str(),
            ).concat(", but not in base ").concat(base_lang);
            let f = make_finding("extra_key", &l.lang, k, &l.file, msg);
            let ghost before = extra@;
            extra.push(f);
            proof {
                lemma_views_push(before, f);
            }
        }
        proof {
            assert(views(e0) + extra_for(base_lang@, pairs.take(j + 1), bm, l.lang@, l.file@) =~= views(extra@));
        }
        j = j + 1;
    }
    proof {
        assert(pairs.take(j as int) =~= pairs);
    }
}

/// Diffs every locale other than `base_lang` against `base`, in the order
/// of `locales`.
pub fn diff(base_lang: &str, base: &StrMap, locales: &Vec<Locale>) -> (r: Report)
    requires
        base.wf(),
        locales_wf(locales@),
    ensures
        is_diff_of(r, base_lang@, *base, locales@),
{
    let mut langs: Vec<String> = Vec::new();
    let mut missing: Vec<Finding> = Vec::new();
    let mut extra: Vec<Finding> = Vec::new();
    let mut mismatch: Vec<Finding> = Vec::new();
    let mut i: usize = 0;
    let ghost locs = locales@;
    assert(locs.take(0) =~= Seq::<Locale>::empty());
    assert(views(missing@) =~= Seq::<FindingView>::empty());
    assert(views(extra@) =~= Seq::<FindingView>::empty());
    assert(views(mismatch@) =~= Seq::<FindingView>::empty());
    while i < locales.len()
        invariant
            base.wf(),
            locales_wf(locales@),
            locs == locales@,
            i <= locs.len(),
            texts(langs@) == locale_langs(locs.take(i as int)),
            views(missing@) == all_missing(base_lang@, *base, locs.take(i as int)),
            views(extra@) == all_extra(base_lang@, *base, locs.take(i as int)),
            views(mismatch@) == all_mismatch(base_lang@, *base, locs.take(i as int)),
        decreases locs.len() - i,
    {
        let l = &locales[i];
        proof {
            assert(locs.take(i + 1).drop_last() =~= locs.take(i as int));
            assert(locs.take(i + 1).last() == locs[i as int]);
        }
        let ghost lv = langs@;
        assert(texts(lv).len() == lv.len());
        assert(locale_langs(locs.take(i as int)).len() == i);
        langs.push(l.lang.clone());
        proof {
            assert(langs@[i as int]@ == l.lang@);
            assert(langs@.drop_last() == lv);
            assert(texts(lv).len() == i);
            assert forall|t: int| 0 <= t < i implies texts(langs@)[t] == locale_langs(locs.take(i + 1))[t] by {
                assert(langs@[t] == lv[t]);
                assert(texts(lv)[t] == locale_langs(locs.take(i as int))[t]);
            }
            assert(texts(langs@) =~= locale_langs(locs.take(i + 1)));
        }
        if compare_keys(l.lang.as_str(), base_lang) != 0 {
            diff_base_keys(base_lang, base, l, &mut missing, &mut mismatch);
            diff_extra_keys(base_lang, base, l, &mut extra);
        }
        i = i + 1;
    }
    proof {
        assert(locs.take(i as int) =~= locs);
    }
    let tm = missing.len();
    let te = extra.len();
    let tp = mismatch.len();
    Report {
        base: base_lang.to_string(),
        langs,
        missing,
        extra,
        placeholder_mismatch: mismatch,
        totals: Totals { missing: tm, extra: te, placeholder_mismatch: tp },
    }
}

/// Some finding of `s` is about key `k`.
pub open spec fn names_key(s: Seq<FindingView>, k: Seq<char>) -> bool {
    exists|i: int| 0 <= i < s.len() && (#[trigger] s[i]).key == k
}

pub open spec fn pairs_have(pairs: Seq<(Seq<char>, Seq<char>)>, k: Seq<char>) -> bool {
    exists|t: int| 0 <= t < pairs.len() && (#[trigger] pairs[t]).0 == k
}

proof fn lemma_names_key_push(s: Seq<FindingView>, f: FindingView, k: Seq<char>)
    ensures
        names_key(s.push(f), k) == (names_key(s, k) || f.key == k),
{
    if names_key(s, k) {
        let i = choose|i: int| 0 <= i < s.len() && (#[trigger] s[i]).key == k;
        assert(s.push(f)[i] == s[i]);
    }
    if f.key == k {
        assert(s.push(f)[s.len() as int] == f);
    }
    if names_key(s.push(f), k) {
        let i = choose|i: int| 0 <= i < s.len() + 1 && (#[trigger] s.push(f)[i]).key == k;
        if i < s.len() {
            assert(s[i] == s.push(f)[i]);
        }
    }
}

proof fn lemma_pairs_have_last(pairs: Seq<(Seq<char>, Seq<char>)>, k: Seq<char>)
    requires
        pairs.len() > 0,
    ensures
        pairs_have(pairs, k) == (pairs_have(pairs.drop_last(), k) || pairs.last().0 == k),
{
    let d = pairs.drop_last();
    if pairs_have(d, k) {
        let t = choose|t: int| 0 <= t < d.len() && (#[trigger] d[t]).0 == k;
        assert(pairs[t] == d[t]);
    }
    if pairs.last().0 == k {
        assert(pairs[pairs.len() - 1].0 == k);
    }
    if pairs_have(pairs, k) {
        let t = choose|t: int| 0 <= t < pairs.len() && (#[trigger] pairs[t]).0 == k;
        if t < d.len() {
            assert(d[t] == pairs[t]);
        }
    }
}

proof fn lemma_missing_for_key(
    base_lang: Seq<char>,
    base: Seq<(Seq<char>, Seq<char>)>,
    cand: Map<Seq<char>, Seq<char>>,
    lang: Seq<char>,
    file: Seq<char>,
    k: Seq<char>,
)
    ensures
        names_key(missing_for(base_lang, base, cand, lang, file), k) == (pairs_have(base, k) && !cand.contains_key(k)),
    decreases base.len(),
{
    if base.len() == 0 {
    } else {
        lemma_missing_for_key(base_lang, base.drop_last(), cand, lang, file, k);
        lemma_pairs_have_last(base, k);
        let prev = missing_for(base_lang, base.drop_last(), cand, lang, file);
        let kl = base.last().0;
        if !cand.contains_key(kl) {
            lemma_names_key_push(prev, finding("missing_key"@, lang, kl, file, missing_message(kl, base_lang)), k);
        }
    }
}

proof fn lemma_extra_for_key(
    base_lang: Seq<char>,
    cand: Seq<(Seq<char>, Seq<char>)>,
    base: Map<Seq<char>, Seq<char>>,
    lang: Seq<char>,
    file: Seq<char>,
    k: Seq<char>,
)
    ensures
        names_key(extra_for(base_lang, cand, base, lang, file), k) == (pairs_have(cand, k) && !base.contains_key(k)),
    decreases cand.len(),
{
    if cand.len() > 0 {
        lemma_extra_for_key(base_lang, cand.drop_last(), base, lang, file, k);
        lemma_pairs_have_last(cand, k);
        let prev = extra_for(base_lang, cand.drop_last(), base, lang, file);
        let kl = cand.last().0;
        if !base.contains_key(kl) {
            lemma_names_key_push(prev, finding("extra_key"@, lang, kl, file, extra_message(kl, lang, base_lang)), k);
        }
    }
}

proof fn lemma_mismatch_for_key(
    base_lang: Seq<char>,
    b: StrMap,
    n: int,
    cand: Map<Seq<char>, Seq<char>>,
    lang: Seq<char>,
    file: Seq<char>,
    k: Seq<char>,
)
    requires
        b.wf(),
        0 <= n <= b.entries@.len(),
    ensures
        names_key(mismatch_for(base_lang, b.pairs().take(n), cand, lang, file), k) == (pairs_have(b.pairs().take(n), k)
            && cand.contains_key(k) && placeholders(b.view()[k]) != placeholders(cand[k])),
    decreases n,
{
    let base = b.pairs().take(n);
    if n == 0 {
    } else {
        assert(base.drop_last() =~= b.pairs().take(n - 1));
        lemma_mismatch_for_key(base_lang, b, n - 1, cand, lang, file, k);
        lemma_pairs_have_last(base, k);
        let prev = mismatch_for(base_lang, base.drop_last(), cand, lang, file);
        let kl = base.last().0;
        b.lemma_view_at(n - 1);
        assert(base.last() == (b.key_at(n - 1), b.value_at(n - 1)));
        if cand.contains_key(kl) && placeholders(base.last().1) != placeholders(cand[kl]) {
            lemma_names_key_push(prev, finding("placeholder_mismatch"@, lang, kl, file, mismatch_message(kl, lang, base.last().1, cand[kl])), k);
        }
    }
}

proof fn lemma_pairs_have_view(m: StrMap, k: Seq<char>)
    requires
        m.wf(),
    ensures
        pairs_have(m.pairs(), k) == m.view().contains_key(k),
{
    if m.has_key(k) {
        let i = choose|i: int| 0 <= i < m.entries@.len() && #[trigger] m.key_at(i) == k;
        assert(m.pairs()[i].0 == k);
    }
    if pairs_have(m.pairs(), k) {
        let t = choose|t: int| 0 <= t < m.pairs().len() && (#[trigger] m.pairs()[t]).0 == k;
        assert(m.key_at(t) == k);
    }
}

/// For a base map `b` and a candidate map `c`: a key of `b` gets a
/// missing-key finding exactly when `c` lacks it; a key of `c` gets an
/// extra-key finding exactly when `b` lacks it; a key of both gets a
/// placeholder-mismatch finding exactly when the placeholder sets of its two
/// values differ.
pub proof fn law_findings_per_key(base_lang: Seq<char>, b: StrMap, c: StrMap, lang: Seq<char>, file: Seq<char>, k: Seq<char>)
    requires
        b.wf(),
        c.wf(),
    ensures
        names_key(missing_for(base_lang, b.pairs(), c.view(), lang, file), k) == (b.view().contains_key(k)
            && !c.view().contains_key(k)),
        names_key(extra_for(base_lang, c.pairs(), b.view(), lang, file), k) == (c.view().contains_key(k)
            && !b.view().contains_key(k)),
        names_key(mismatch_for(base_lang, b.pairs(), c.view(), lang, file), k) == (b.view().contains_key(k)
            && c.view().contains_key(k) && placeholders(b.view()[k]) != placeholders(c.view()[k])),
{
    lemma_missing_for_key(base_lang, b.pairs(), c.view(), lang, file, k);
    lemma_extra_for_key(base_lang, c.pairs(), b.view(), lang, file, k);
    lemma_mismatch_for_key(base_lang, b, b.entries@.len() as int, c.view(), lang, file, k);
    assert(b.pairs().take(b.entries@.len() as int) =~= b.pairs());
    lemma_pairs_have_view(b, k);
    lemma_pairs_have_view(c, k);
}


/// Diffing the same inputs twice gives the same report, field for field and
/// finding for finding, in the same order.
pub proof fn law_diff_deterministic(r1: Report, r2: Report, base_lang: Seq<char>, base: StrMap, locs: Seq<Locale>)
    requires
        is_diff_of(r1, base_lang, base, locs),
        is_diff_of(r2, base_lang, base, locs),
    ensures
        r1.base@ == r2.base@,
        texts(r1.langs@) == texts(r2.langs@),
        views(r1.missing@) == views(r2.missing@),
        views(r1.extra@) == views(r2.extra@),
        views(r1.placeholder_mismatch@) == views(r2.placeholder_mismatch@),
        r1.totals == r2.totals,
{
    assert(views(r1.missing@).len() == r1.missing@.len() && views(r2.missing@).len() == r2.missing@.len());
    assert(views(r1.extra@).len() == r1.extra@.len() && views(r2.extra@).len() == r2.extra@.len());
    assert(views(r1.placeholder_mismatch@).len() == r1.placeholder_mismatch@.len());
    assert(views(r2.placeholder_mismatch@).len() == r2.placeholder_mismatch@.len());
}

} // verus!
