//! Renderings of a report as lines of text.
use vstd::prelude::*;
use crate::diff::{texts, Finding, Report, Totals};

verus! {

pub open spec fn digit_char(d: nat) -> char {
    "0123456789"@[d as int]
}

/// Decimal text of a number.
pub open spec fn decimal(n: nat) -> Seq<char>
    decreases n,
{
    if n < 10 {
        seq![digit_char(n)]
    } else {
        decimal(n / 10).push(digit_char(n % 10))
    }
}

pub fn decimal_text(n: usize) -> (r: String)
    ensures
        r@ == decimal(n as nat),
    decreases n,
{
    proof {
        reveal_strlit("0123456789");
    }
    let digits = "0123456789";
    let d = n % 10;
    let ds = digits.substring_char(d, d + 1);
    assert(ds@ =~= seq![digit_char(d as nat)]);
    if n < 10 {
        ds.to_string()
    } else {
        let r = decimal_text(n / 10).concat(ds);
        assert(r@ =~= decimal((n / 10) as nat).push(digit_char((n % 10) as nat)));
        r
    }
}

/// `s` with each line break or carriage return turned into a space.
pub open spec fn one_line(s: Seq<char>) -> Seq<char> {
    s.map_values(|c: char| if c == '\n' || c == '\r' { ' ' } else { c })
}

fn one_line_text(s: &str) -> (r: String)
    ensures
        r@ == one_line(s@),
{
    proof {
        reveal_strlit(" ");
    }
    let n = s.unicode_len();
    let mut r = String::new();
    let mut i: usize = 0;
    while i < n
        invariant
            n == s@.len(),
            i <= n,
            r@ == one_line(s@.subrange(0, i as int)),
        decreases n - i,
    {
        let c = s.get_char(i);
        let ghost prev = r@;
        if c == '\n' || c == '\r' {
            proof {
                reveal_strlit(" ");
                assert(" "@ =~= seq![' ']);
            }
            r.append(" ");
            assert(r@ =~= prev.push(' '));
        } else {
            let one = s.substring_char(i, i + 1);
            assert(one@ =~= seq![c]);
            r.append(one);
            assert(r@ =~= prev.push(c));
        }
        assert(s@.subrange(0, i + 1) =~= s@.subrange(0, i as int).push(c));
        assert(one_line(s@.subrange(0, i as int).push(c)) =~= one_line(s@.subrange(0, i as int)).push(
            if c == '\n' || c == '\r' { ' ' } else { c },
        ));
        assert(r@ =~= one_line(s@.subrange(0, i + 1)));
        i = i + 1;
    }
    assert(s@.subrange(0, n as int) =~= s@);
    r
}

/// The annotation line of one finding.
pub open spec fn annotation(f: Finding) -> Seq<char> {
    "::error file="@ + f.file@ + ",line=1,col=1::"@ + one_line(f.message@)
}

pub open spec fn annotations(v: Seq<Finding>) -> Seq<Seq<char>> {
    v.map_values(|f: Finding| annotation(f))
}

pub open spec fn totals_text(t: Totals) -> Seq<char> {
    "missing="@ + decimal(t.missing as nat) + ", extra="@ + decimal(t.extra as nat) + ", placeholder_mismatch="@
        + decimal(t.placeholder_mismatch as nat)
}

fn totals_line(t: &Totals) -> (r: String)
    ensures
        r@ == totals_text(*t),
{
    "missing=".to_string().concat(decimal_text(t.missing).as_str()).concat(", extra=").concat(
        decimal_text(t.extra).as_str(),
    ).concat(", placeholder_mismatch=").concat(decimal_text(t.placeholder_mismatch).as_str())
}

fn push_annotations(v: &Vec<Finding>, out: &mut Vec<String>)
    ensures
        texts(final(out)@) == texts(old(out)@) + annotations(v@),
{
    let ghost o = out@;
    let mut i: usize = 0;
    assert(annotations(v@.take(0)) =~= Seq::<Seq<char>>::empty());
    assert(texts(o) + annotations(v@.take(0)) =~= texts(o));
    while i < v.len()
        invariant
            i <= v@.len(),
            texts(out@) == texts(o) + annotations(v@.take(i as int)),
        decreases v@.len() - i,
    {
        let f = &v[i];
        let line = "::error file=".to_string().concat(f.file.as_str()).concat(",line=1,col=1::").concat(
            one_line_text(f.message.as_str()).as_str(),
        );
        let ghost before = out@;
        out.push(line);
        proof {
            assert(texts(out@) =~= texts(before).push(line@));
            assert(annotations(v@.take(i + 1)) =~= annotations(v@.take(i as int)).push(annotation(v@[i as int])));
            assert(texts(out@) =~= texts(o) + annotations(v@.take(i + 1)));
        }
        i = i + 1;
    }
    assert(v@.take(i as int) =~= v@);
}

pub open spec fn github_spec(r: Report) -> Seq<Seq<char>> {
    annotations(r.missing@) + annotations(r.extra@) + annotations(r.placeholder_mismatch@) + seq![
        "bevy-i18n-lint: "@ + totals_text(r.totals),
    ]
}

/// CI annotation lines: one per finding (missing, then extra, then
/// placeholder mismatches), then a line with the totals.
pub fn github_lines(r: &Report) -> (out: Vec<String>)
    ensures
        texts(out@) == github_spec(*r),
{
    let mut out: Vec<String> = Vec::new();
    assert(texts(out@) =~= Seq::<Seq<char>>::empty());
    push_annotations(&r.missing, &mut out);
    push_annotations(&r.extra, &mut out);
    push_annotations(&r.placeholder_mismatch, &mut out);
    let last = "bevy-i18n-lint: ".to_string().concat(totals_line(&r.totals).as_str());
    let ghost before = out@;
    out.push(last);
    assert(texts(out@) =~= texts(before).push(last@));
    assert(texts(out@) =~= github_spec(*r));
    out
}


/// `v` joined with `, `.
pub open spec fn joined(v: Seq<Seq<char>>) -> Seq<char>
    decreases v.len(),
{
    if v.len() == 0 {
        Seq::empty()
    } else if v.len() == 1 {
        v[0]
    } else {
        joined(v.drop_last()) + ", "@ + v.last()
    }
}

fn join_text(v: &Vec<String>) -> (r: String)
    ensures
        r@ == joined(texts(v@)),
{
    let mut r = String::new();
    let mut i: usize = 0;
    assert(texts(v@.take(0)) =~= Seq::<Seq<char>>::empty());
    while i < v.len()
        invariant
            i <= v@.len(),
            r@ == joined(texts(v@.take(i as int))),
        decreases v@.len() - i,
    {
        let ghost t = texts(v@.take(i + 1));
        assert(t.drop_last() =~= texts(v@.take(i as int)));
        assert(t.last() == v@[i as int]@);
        if i > 0 {
            r.append(", ");
        }
        r.append(v[i].as_str());
        proof {
            if i == 0 {
                assert(t.len() == 1);
                assert(r@ =~= t[0]);
            }
        }
        i = i + 1;
    }
    assert(v@.take(i as int) =~= v@);
    r
}

/// The line of one finding in a text section.
pub open spec fn entry_line(f: Finding) -> Seq<char> {
    "  ["@ + f.lang@ + "] "@ + f.key@ + " -> "@ + f.file@
}

pub open spec fn section(title: Seq<char>, v: Seq<Finding>) -> Seq<Seq<char>> {
    if v.len() == 0 {
        seq![]
    } else {
        seq![Seq::empty(), title + decimal(v.len())] + v.map_values(|f: Finding| entry_line(f))
    }
}

pub open spec fn text_spec(r: Report) -> Seq<Seq<char>> {
    let header = "bevy-i18n-lint: base="@ + r.base@ + ", langs="@ + joined(texts(r.langs@));
    if r.missing@.len() == 0 && r.extra@.len() == 0 && r.placeholder_mismatch@.len() == 0 {
        seq![header, "ok: no issues found"@]
    } else {
        seq![header] + section("missing keys: "@, r.missing@) + section("extra keys: "@, r.extra@) + section(
            "placeholder mismatches: "@,
            r.placeholder_mismatch@,
        ) + seq![Seq::empty(), "summary: "@ + totals_text(r.totals)]
    }
}

fn push_section(title: &str, v: &Vec<Finding>, out: &mut Vec<String>)
    ensures
        texts(final(out)@) == texts(old(out)@) + section(title@, v@),
{
    let ghost o = texts(out@);
    if v.len() == 0 {
        assert(texts(out@) =~= o + section(title@, v@));
        return;
    }
    out.push(String::new());
    out.push(title.to_string().concat(decimal_text(v.len()).as_str()));
    let ghost head = texts(out@);
    assert(head =~= o + seq![Seq::<char>::empty(), title@ + decimal(v@.len())]);
    let mut i: usize = 0;
    assert(v@.take(0).map_values(|f: Finding| entry_line(f)) =~= Seq::<Seq<char>>::empty());
    assert(head + v@.take(0).map_values(|f: Finding| entry_line(f)) =~= head);
    while i < v.len()
        invariant
            i <= v@.len(),
            texts(out@) == head + v@.take(i as int).map_values(|f: Finding| entry_line(f)),
        decreases v@.len() - i,
    {
        let f = &v[i];
        let line = "  [".to_string().concat(f.lang.as_str()).concat("] ").concat(f.key.as_str()).concat(
            " -> ",
        ).concat(f.file.as_str());
        let ghost before = out@;
        out.push(line);
        proof {
            assert(texts(out@) =~= texts(before).push(line@));
            assert(v@.take(i + 1).map_values(|f: Finding| entry_line(f)) =~= v@.take(i as int).map_values(
                |f: Finding| entry_line(f),
            ).push(entry_line(v@[i as int])));
        }
        i = i + 1;
    }
    assert(v@.take(i as int) =~= v@);
    assert(texts(out@) =~= o + section(title@, v@));
}

/// Human-readable lines: a header, then either a confirmation or one section
/// per non-empty category and a totals line.
pub fn text_lines(r: &Report) -> (out: Vec<String>)
    ensures
        texts(out@) == text_spec(*r),
{
    let header = "bevy-i18n-lint: base=".to_string().concat(r.base.as_str()).concat(", langs=").concat(
        join_text(&r.langs).as_str(),
    );
    let mut out: Vec<String> = Vec::new();
    out.push(header);
    if r.missing.len() == 0 && r.extra.len() == 0 && r.placeholder_mismatch.len() == 0 {
        out.push("ok: no issues found".to_string());
        assert(texts(out@) =~= text_spec(*r));
        return out;
    }
    assert(texts(out@) =~= seq![header@]);
    push_section("missing keys: ", &r.missing, &mut out);
    push_section("extra keys: ", &r.extra, &mut out);
    push_section("placeholder mismatches: ", &r.placeholder_mismatch, &mut out);
    let ghost before = texts(out@);
    out.push(String::new());
    out.push("summary: ".to_string().concat(totals_line(&r.totals).as_str()));
    assert(texts(out@) =~= before + seq![Seq::<char>::empty(), "summary: "@ + totals_text(r.totals)]);
    assert(texts(out@) =~= text_spec(*r));
    out
}

} // verus!
