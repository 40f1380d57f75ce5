//! The summaries on given pattern results, apart from the regular expressions.

use rtk::cdk_cmd::{summarize_deploy, summarize_diff, summarize_synth, DeployMarks};
use rtk::grouping::{insert_grouped, sorted_set_of};
use rtk::terraform_cmd::{summarize_destroy, summarize_plan, summarize_state_list};
use rtk::text::{split_lines, str_chars, trim_chars};

fn cs(s: &str) -> Vec<char> {
    s.chars().collect()
}

fn text(v: &[char]) -> String {
    v.iter().collect()
}

fn marks(progress: bool, result: bool, arn: bool, header: bool, output: bool) -> DeployMarks {
    DeployMarks {
        progress,
        result,
        stack_arn: arn,
        outputs_header: header,
        output_line: output,
    }
}

#[test]
fn lines_follow_str_lines() {
    let input = "a\r\nb\n\nc\r";
    let got: Vec<String> = split_lines(&str_chars(input)).iter().map(|l| text(l)).collect();
    let want: Vec<String> = input.lines().map(|l| l.to_string()).collect();
    assert_eq!(got, want);
    assert_eq!(split_lines(&cs("x\n")).len(), 1);
    assert_eq!(split_lines(&cs("")).len(), 0);
}

#[test]
fn trim_follows_str_trim() {
    for s in ["  a b \t", "\u{3000}x\u{a0}", "   ", "", "\u{85}y"] {
        assert_eq!(text(&trim_chars(&cs(s))), s.trim());
    }
}

#[test]
fn deploy_summary_from_marks() {
    let lines = vec![cs(" progress ✅ "), cs(" ok "), cs("Outputs:"), cs("A.B = 1"), cs(""), cs("C.D = 2")];
    let m = vec![
        marks(true, true, false, false, false),
        marks(false, true, false, false, false),
        marks(false, false, false, true, false),
        marks(false, false, false, false, true),
        marks(false, false, false, false, false),
        marks(false, false, false, false, true),
    ];
    assert_eq!(text(&summarize_deploy(&lines, &m).unwrap()), "ok\nOutputs:\nA.B = 1");
    let none = vec![marks(true, true, true, true, true)];
    assert!(summarize_deploy(&vec![cs("x")], &none).is_none());
}

#[test]
fn diff_summary_from_changes() {
    let lines = vec![cs("Stack S"), cs("──"), cs("c1"), cs("c2"), cs("c3")];
    let seps = vec![false, true, false, false, false];
    let changes = vec![
        None,
        None,
        Some((cs("+"), cs("T1"), cs("B/x"))),
        Some((cs("-"), cs("T2"), cs("A"))),
        Some((cs("~"), cs("T3"), cs("B/y"))),
    ];
    let r = summarize_diff(&cs(""), &lines, &seps, &changes).unwrap();
    assert_eq!(text(&r), "Stack S\n[-] A (T2)\n[+] T1 B +1 more");
    let r = summarize_diff(&cs("no differences"), &vec![], &vec![], &vec![]).unwrap();
    assert_eq!(text(&r), "cdk diff: no changes");
    assert!(summarize_diff(&cs("nothing"), &vec![], &vec![], &vec![]).is_none());
}

#[test]
fn synth_summary_from_count() {
    assert!(summarize_synth(0, &vec![cs("[Warning] x")]).is_none());
    let r = summarize_synth(12, &vec![cs("  [Warning] x  "), cs("fine")]).unwrap();
    assert_eq!(text(&r), "cdk synth: stack — 12 resources\n  [Warning] x");
}

#[test]
fn plan_summary_from_changes() {
    let lines = vec![cs("l1"), cs("l2"), cs("  Plan: 2 to add  ")];
    let wills = vec![
        Some((cs("module.m.a.b"), cs("created"))),
        Some((cs("c.d"), cs("gone"))),
        None,
    ];
    let modules = vec![Some(cs("module.m")), None, None];
    let summaries = vec![false, false, true];
    let r = summarize_plan(&lines, &wills, &modules, &summaries).unwrap();
    assert_eq!(text(&r), "root:\n  [?] c.d\nmodule.m:\n  [+] module.m.a.b\nPlan: 2 to add");
}

#[test]
fn destroy_summary_from_marks() {
    let lines = vec![cs(" a "), cs("b")];
    assert_eq!(text(&summarize_destroy(&lines, &vec![true, false]).unwrap()), "a");
    assert!(summarize_destroy(&lines, &vec![false, false]).is_none());
}

#[test]
fn state_list_summary_from_modules() {
    let lines = vec![cs("module.m.t2.x"), cs("module.m.t1.y"), cs("r.z"), cs("module.m.t2.w")];
    let modules = vec![Some(cs("module.m")), Some(cs("module.m")), None, Some(cs("module.m"))];
    let r = summarize_state_list(&lines, &modules).unwrap();
    assert_eq!(text(&r), "root: r\nmodule.m: t1, t2");
}

#[test]
fn grouping_keeps_key_order() {
    let mut gs: Vec<(Vec<char>, Vec<Vec<char>>)> = Vec::new();
    insert_grouped(&mut gs, cs("b"), cs("1"));
    insert_grouped(&mut gs, cs("a"), cs("2"));
    insert_grouped(&mut gs, cs("b"), cs("3"));
    let keys: Vec<String> = gs.iter().map(|g| text(&g.0)).collect();
    assert_eq!(keys, vec!["a", "b"]);
    assert_eq!(gs[1].1.len(), 2);
    let set = sorted_set_of(&vec![cs("z"), cs("a"), cs("z"), cs("é"), cs("b")]);
    let got: Vec<String> = set.iter().map(|x| text(x)).collect();
    assert_eq!(got, vec!["a", "b", "z", "é"]);
}
