use at_runner::sweep::{
    case_file_root, case_tier, chain_steps, classify_case, contains_text, detect_models, models_in_makefile,
    pipeline_verdict, run_verdict, runner_for, runner_targets, split_commas, tally, any_with_extension, trim_text, Verdict,
};

fn chars(s: &str) -> Vec<char> {
    s.chars().collect()
}

fn names(v: &[&str]) -> Vec<String> {
    v.iter().map(|s| s.to_string()).collect()
}

#[test]
fn substring_search() {
    assert!(contains_text(&chars("run kraken.exe now"), &chars("kraken.exe")));
    assert!(contains_text(&chars("abc"), &chars("")));
    assert!(contains_text(&chars("abc"), &chars("abc")));
    assert!(!contains_text(&chars("ab"), &chars("abc")));
    assert!(!contains_text(&chars("aab"), &chars("abb")));
}

#[test]
fn makefile_models_in_known_order() {
    let ms = models_in_makefile("field.exe pekeris\nkraken pekeris\n");
    assert_eq!(ms, vec!["kraken", "field"]);
    // "krakenc" does not make "kraken" count, nor the other way round
    assert_eq!(models_in_makefile("krakenc.exe x"), vec!["krakenc"]);
    assert!(models_in_makefile("all:\n\techo done").is_empty());
}

#[test]
fn models_fall_back_on_the_files() {
    assert_eq!(detect_models(Some("BELLHOP.EXE MunkB"), false), vec!["bellhop"]);
    assert_eq!(detect_models(Some("nothing here"), true), vec!["kraken", "field"]);
    assert_eq!(detect_models(None, false), vec!["kraken"]);
    assert_eq!(detect_models(None, true), vec!["kraken", "field"]);
}

#[test]
fn tiers() {
    assert_eq!(case_tier(2, 0), 3);
    assert_eq!(case_tier(1, 1_000_001), 2);
    assert_eq!(case_tier(1, 1_000_000), 1);
    let c = classify_case("pekeris".into(), true, names(&["kraken"]), 10).unwrap();
    assert_eq!((c.name.as_str(), c.tier), ("pekeris", 1));
    assert!(classify_case("x".into(), false, names(&["kraken"]), 10).is_none());
    assert!(classify_case("x".into(), true, vec![], 10).is_none());
}

#[test]
fn file_root_is_the_first_env_stem() {
    assert_eq!(case_file_root(&names(&["Makefile", "pekeris.flp", "pekeris.env", "other.env"])), "pekeris");
    assert_eq!(case_file_root(&names(&[".env", "a.txt"])), "");
    assert!(any_with_extension(&names(&["a.flp"]), "flp"));
    assert!(!any_with_extension(&names(&["a.flpx", "flp"]), "flp"));
}

#[test]
fn multi_model_cases_chain_their_steps() {
    let inputs = vec![("pekeris.env".to_string(), b"e".to_vec()), ("pekeris.flp".to_string(), b"f".to_vec())];
    let steps = chain_steps(&names(&["kraken", "field"]), "pekeris", &inputs);
    assert_eq!(steps.len(), 2);
    assert_eq!(steps[0].id, "kraken_0");
    assert_eq!(steps[0].model, "kraken");
    assert_eq!(steps[0].file_root, "pekeris");
    assert_eq!(steps[0].inputs, inputs);
    assert!(steps[0].depends_on.is_empty());
    assert_eq!(steps[1].id, "field_1");
    assert!(steps[1].inputs.is_empty());
    assert_eq!(steps[1].depends_on, vec!["kraken_0"]);
}

#[test]
fn verdicts_and_totals() {
    assert_eq!(run_verdict(0), Verdict::Pass);
    assert_eq!(run_verdict(1), Verdict::Fail);
    assert_eq!(pipeline_verdict(true), Verdict::Pass);
    assert_eq!(pipeline_verdict(false), Verdict::Fail);
    assert_eq!(Verdict::Error.name(), "error");
    assert_eq!(Verdict::Skip.name(), "skip");
    let t = tally(&vec![Verdict::Pass, Verdict::Fail, Verdict::Pass, Verdict::Skip, Verdict::Error]);
    assert_eq!((t.passed, t.failed, t.errors), (2, 1, 1));
    assert!(t.failed_any());
    let t = tally(&vec![Verdict::Pass, Verdict::Skip]);
    assert!(!t.failed_any());
}

#[test]
fn runners_take_turns() {
    assert_eq!(runner_for(0, 3), 0);
    assert_eq!(runner_for(4, 3), 1);
    assert_eq!(runner_targets("runner-1:50051, runner-2:50051 ,"), vec!["runner-1:50051", "runner-2:50051", ""]);
    assert_eq!(runner_targets("localhost:50051"), vec!["localhost:50051"]);
    assert_eq!(split_commas(""), vec![""]);
    assert_eq!(split_commas(",a,,"), vec!["", "a", "", ""]);
}

#[test]
fn trimming_matches_str_trim() {
    for s in ["", "  a b \t\n", "\u{3000}x\u{a0}", "\u{85}\u{2028} y", "z\u{200b}", " \u{1680}\u{180e} "] {
        assert_eq!(trim_text(s), s.trim(), "{s:?}");
    }
    assert_eq!(trim_text("  a b \t\n"), "a b");
}
