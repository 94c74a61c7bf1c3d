use bevy_i18n_lint::diff::{diff, Locale, Report, Totals};
use bevy_i18n_lint::files::{index_by_lang, lang_from_filename, locale_format, LintError, LocaleFile, SourceFormat};
use bevy_i18n_lint::flatten::{flatten, Doc};
use bevy_i18n_lint::placeholders::{extract_placeholders, placeholders_match};
use bevy_i18n_lint::policy::{exit_code, CliOptions};
use bevy_i18n_lint::render::{decimal_text, github_lines, text_lines};
use bevy_i18n_lint::strmap::{compare_keys, StrMap};

fn s(x: &str) -> String {
    x.to_string()
}

fn obj(fields: Vec<(&str, Doc)>) -> Doc {
    Doc::Object(fields.into_iter().map(|(k, v)| (s(k), v)).collect())
}

fn text(x: &str) -> Doc {
    Doc::Str(s(x))
}

fn entries(m: &StrMap) -> Vec<(String, String)> {
    (0..m.len()).map(|i| (m.key(i).clone(), m.value(i).clone())).collect()
}

fn names(x: &str) -> Vec<String> {
    let m = extract_placeholders(x);
    (0..m.len()).map(|i| m.key(i).clone()).collect()
}

fn locale(lang: &str, doc: &Doc) -> Locale {
    Locale { lang: s(lang), file: format!("{}.json", lang), map: flatten(doc) }
}

fn run_diff(base: &Doc, other_lang: &str, other: &Doc) -> Report {
    let locales = vec![locale("en", base), locale(other_lang, other)];
    diff("en", &flatten(base), &locales)
}

fn opts(strict: bool, fail_on_extra: bool, fail_on_placeholder: bool) -> CliOptions {
    CliOptions {
        dir: s("assets/i18n"),
        base: s("en"),
        strict,
        format: s("text"),
        fail_on_extra,
        fail_on_placeholder,
    }
}

fn keys_of(v: &[bevy_i18n_lint::diff::Finding]) -> Vec<String> {
    v.iter().map(|f| f.key.clone()).collect()
}

fn scenario_a() -> (Doc, Doc) {
    let base = obj(vec![(
        "ui",
        obj(vec![
            ("buttons", obj(vec![("save", text("Save {item}")), ("cancel", text("Cancel"))])),
            ("messages", obj(vec![("welcome", text("Welcome {user}"))])),
        ]),
    )]);
    let other = obj(vec![(
        "ui",
        obj(vec![
            ("buttons", obj(vec![("save", text("Зберегти"))])),
            ("messages", obj(vec![("welcome", text("Ласкаво просимо {username}"))])),
        ]),
    )]);
    (base, other)
}

#[test]
fn flat_document_flattens_to_itself() {
    let d = obj(vec![("a", text("x")), ("b", text("y"))]);
    assert_eq!(entries(&flatten(&d)), vec![(s("a"), s("x")), (s("b"), s("y"))]);
}

#[test]
fn nested_document_flattens_to_dotted_paths() {
    let d = obj(vec![("ui", obj(vec![("buttons", obj(vec![("save", text("Save {item}"))]))]))]);
    assert_eq!(entries(&flatten(&d)), vec![(s("ui.buttons.save"), s("Save {item}"))]);
}

#[test]
fn flatten_keeps_scalars_and_drops_arrays_and_null() {
    let d = obj(vec![
        ("n", Doc::Num(s("42"))),
        ("t", Doc::Bool(true)),
        ("f", Doc::Bool(false)),
        ("z", Doc::Null),
        ("arr", Doc::Array),
        ("o", obj(vec![])),
    ]);
    assert_eq!(
        entries(&flatten(&d)),
        vec![(s("f"), s("false")), (s("n"), s("42")), (s("t"), s("true"))]
    );
}

#[test]
fn flatten_ignores_a_bare_root_scalar() {
    assert_eq!(flatten(&text("hello")).len(), 0);
}

#[test]
fn flatten_later_entry_wins_and_keys_are_sorted() {
    let d = obj(vec![("b", text("1")), ("a.b", text("old")), ("a", obj(vec![("b", text("new"))]))]);
    assert_eq!(entries(&flatten(&d)), vec![(s("a.b"), s("new")), (s("b"), s("1"))]);
}

#[test]
fn placeholders_are_a_set() {
    assert_eq!(names("{a} {b} {a}"), vec![s("a"), s("b")]);
    assert_eq!(names("{b} {a}"), vec![s("a"), s("b")]);
    assert!(placeholders_match("{a} {b} {a}", "{b} {a}"));
}

#[test]
fn malformed_braces_are_not_placeholders() {
    assert_eq!(names("{} { x} {a-b} {ok_1} {{nested}} {open"), vec![s("nested"), s("ok_1")]);
    assert!(names("").is_empty());
    assert!(!placeholders_match("Welcome {user}", "Welcome {username}"));
}

#[test]
fn detects_missing_key_and_placeholder_mismatch_json_nested() {
    let (base, other) = scenario_a();
    let r = run_diff(&base, "uk", &other);
    assert_eq!(keys_of(&r.missing), vec![s("ui.buttons.cancel")]);
    assert!(keys_of(&r.placeholder_mismatch).contains(&s("ui.messages.welcome")));
    assert_eq!(keys_of(&r.placeholder_mismatch), vec![s("ui.buttons.save"), s("ui.messages.welcome")]);
    assert!(r.extra.is_empty());
    assert_eq!(r.missing[0].kind, "missing_key");
    assert_eq!(r.missing[0].lang, "uk");
    assert_eq!(r.missing[0].file, "uk.json");
    assert_eq!(r.missing[0].message, "key 'ui.buttons.cancel' is missing (base: en)");
    assert_eq!(r.placeholder_mismatch[0].kind, "placeholder_mismatch");
    assert_eq!(
        r.placeholder_mismatch[1].message,
        "placeholders mismatch for key 'ui.messages.welcome': base={\"user\"}, uk={\"username\"}"
    );
    assert_eq!(
        r.placeholder_mismatch[0].message,
        "placeholders mismatch for key 'ui.buttons.save': base={\"item\"}, uk={}"
    );
    assert_eq!(r.langs, vec![s("en"), s("uk")]);
    assert_eq!(exit_code(&opts(false, false, false), &r.totals), 1);
}

#[test]
fn detects_extra_keys_and_ron_flattening() {
    let base = obj(vec![("ui", obj(vec![("buttons", obj(vec![("save", text("Save")), ("cancel", text("Cancel"))]))]))]);
    let other = obj(vec![(
        "ui",
        obj(vec![(
            "buttons",
            obj(vec![("save", text("Зберегти")), ("cancel", text("Скасувати")), ("delete", text("Видалити"))]),
        )]),
    )]);
    let r = run_diff(&base, "uk", &other);
    assert_eq!(keys_of(&r.extra), vec![s("ui.buttons.delete")]);
    assert_eq!(r.extra[0].kind, "extra_key");
    assert_eq!(r.extra[0].message, "key 'ui.buttons.delete' exists in uk, but not in base en");
    assert!(r.missing.is_empty());
    assert!(r.placeholder_mismatch.is_empty());
    assert_eq!(exit_code(&opts(false, false, false), &r.totals), 0);
    assert_eq!(exit_code(&opts(false, true, false), &r.totals), 1);
    assert_eq!(exit_code(&opts(true, false, false), &r.totals), 1);
}

#[test]
fn ok_when_all_languages_match() {
    let base = obj(vec![("save", text("Save {item}")), ("cancel", text("Cancel"))]);
    let other = obj(vec![("save", text("Зберегти {item}")), ("cancel", text("Скасувати"))]);
    let r = run_diff(&base, "uk", &other);
    assert_eq!(r.totals.missing + r.totals.extra + r.totals.placeholder_mismatch, 0);
    assert_eq!(exit_code(&opts(true, false, false), &r.totals), 0);
    assert_eq!(text_lines(&r), vec![s("bevy-i18n-lint: base=en, langs=en, uk"), s("ok: no issues found")]);
}

#[test]
fn cli_github_format_emits_annotations() {
    let base = obj(vec![("ui", obj(vec![("play", text("Play"))]))]);
    let other = obj(vec![("ui", obj(vec![]))]);
    let r = run_diff(&base, "uk", &other);
    assert_eq!(keys_of(&r.missing), vec![s("ui.play")]);
    assert_eq!(
        github_lines(&r),
        vec![
            s("::error file=uk.json,line=1,col=1::key 'ui.play' is missing (base: en)"),
            s("bevy-i18n-lint: missing=1, extra=0, placeholder_mismatch=0"),
        ]
    );
    assert_eq!(exit_code(&opts(false, false, false), &r.totals), 1);
}

#[test]
fn cli_fails_on_missing_key() {
    let base = obj(vec![("ui", obj(vec![("play", text("Play")), ("hello", text("Hello {name}"))]))]);
    let other = obj(vec![("ui", obj(vec![("hello", text("Привіт {name}"))]))]);
    let r = run_diff(&base, "uk", &other);
    assert_ne!(exit_code(&opts(false, false, false), &r.totals), 0);
    let lines = text_lines(&r);
    assert!(lines.iter().any(|l| l.contains("missing keys")));
    assert_eq!(
        lines,
        vec![
            s("bevy-i18n-lint: base=en, langs=en, uk"),
            s(""),
            s("missing keys: 1"),
            s("  [uk] ui.play -> uk.json"),
            s(""),
            s("summary: missing=1, extra=0, placeholder_mismatch=0"),
        ]
    );
}

#[test]
fn cli_ok_when_all_match() {
    let base = obj(vec![("ui", obj(vec![("play", text("Play")), ("hello", text("Hello {name}"))]))]);
    let other = obj(vec![("ui", obj(vec![("play", text("Грати")), ("hello", text("Привіт {name}"))]))]);
    let r = run_diff(&base, "uk", &other);
    assert_eq!(exit_code(&opts(false, false, false), &r.totals), 0);
}

#[test]
fn placeholder_escalation_and_strict_mode() {
    let (base, other) = scenario_a();
    let r = run_diff(&base, "uk", &other);
    let only_mismatch = Totals { missing: 0, extra: 0, placeholder_mismatch: r.totals.placeholder_mismatch };
    assert_eq!(exit_code(&opts(false, false, false), &only_mismatch), 0);
    assert_eq!(exit_code(&opts(false, false, true), &only_mismatch), 1);
    assert_eq!(exit_code(&opts(true, false, false), &only_mismatch), 1);
}

#[test]
fn diff_is_deterministic() {
    let (base, other) = scenario_a();
    let a = run_diff(&base, "uk", &other);
    let b = run_diff(&base, "uk", &other);
    assert_eq!(github_lines(&a), github_lines(&b));
    assert_eq!(text_lines(&a), text_lines(&b));
}

#[test]
fn findings_follow_language_then_key_order() {
    let base = obj(vec![("b", text("B")), ("a", text("A"))]);
    let empty = obj(vec![]);
    let locales = vec![locale("de", &empty), locale("en", &base), locale("uk", &empty)];
    let r = diff("en", &flatten(&base), &locales);
    let got: Vec<(String, String)> = r.missing.iter().map(|f| (f.lang.clone(), f.key.clone())).collect();
    assert_eq!(got, vec![(s("de"), s("a")), (s("de"), s("b")), (s("uk"), s("a")), (s("uk"), s("b"))]);
    assert_eq!(r.totals.missing, 4);
}

#[test]
fn github_annotation_flattens_line_breaks() {
    let base = obj(vec![("a", text("{x}"))]);
    let locales = vec![locale("en", &base), Locale { lang: s("u\nk"), file: s("f"), map: flatten(&obj(vec![])) }];
    let r = diff("en", &flatten(&base), &locales);
    assert_eq!(github_lines(&r)[0], "::error file=f,line=1,col=1::key 'a' is missing (base: en)");
    let locales = vec![locale("en", &base), Locale { lang: s("uk"), file: s("f"), map: flatten(&obj(vec![("a", text("x")), ("z", text("z"))])) }];
    let r = diff("en", &flatten(&base), &locales);
    assert_eq!(github_lines(&r)[0], "::error file=f,line=1,col=1::key 'z' exists in uk, but not in base en");
}

#[test]
fn lang_is_the_file_stem() {
    assert_eq!(lang_from_filename("en.json"), Some(s("en")));
    assert_eq!(lang_from_filename("pt.BR.ron"), Some(s("pt.BR")));
    assert_eq!(lang_from_filename(".json"), Some(s(".json")));
    assert_eq!(lang_from_filename("README"), Some(s("README")));
    assert_eq!(lang_from_filename(""), None);
}

#[test]
fn eligible_extensions() {
    assert_eq!(locale_format("en.json"), Some(SourceFormat::Json));
    assert_eq!(locale_format("uk.ron"), Some(SourceFormat::Ron));
    assert_eq!(locale_format("notes.txt"), None);
    assert_eq!(locale_format(".json"), None);
    assert_eq!(locale_format("json"), None);
}

#[test]
fn no_locale_files_is_fatal() {
    let r = index_by_lang(&vec![], "en");
    assert!(matches!(r, Err(LintError::NoLocaleFilesFound)));
}

#[test]
fn missing_base_language_is_fatal() {
    let files = vec![LocaleFile { path: s("d/uk.json"), name: s("uk.json") }];
    let r = index_by_lang(&files, "en");
    assert!(matches!(r, Err(LintError::BaseLanguageNotFound { .. })));
}

#[test]
fn index_is_sorted_and_later_file_wins() {
    let files = vec![
        LocaleFile { path: s("d/uk.json"), name: s("uk.json") },
        LocaleFile { path: s("d/en.json"), name: s("en.json") },
        LocaleFile { path: s("d/en.ron"), name: s("en.ron") },
    ];
    let m = index_by_lang(&files, "en").ok().unwrap();
    assert_eq!(entries(&m), vec![(s("en"), s("d/en.ron")), (s("uk"), s("d/uk.json"))]);
}

#[test]
fn string_map_basics() {
    let mut m = StrMap::new();
    m.insert(s("b"), s("2"));
    m.insert(s("a"), s("1"));
    m.insert(s("b"), s("3"));
    assert_eq!(entries(&m), vec![(s("a"), s("1")), (s("b"), s("3"))]);
    assert_eq!(m.get("b"), Some(&s("3")));
    assert!(!m.contains("c"));
    assert!(compare_keys("a", "ab") < 0);
    assert!(compare_keys("b", "ab") > 0);
    assert_eq!(compare_keys("é", "é"), 0);
}

#[test]
fn decimal_rendering() {
    assert_eq!(decimal_text(0), "0");
    assert_eq!(decimal_text(1907), "1907");
}
