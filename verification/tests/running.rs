use rtk::cdk_cmd::{self, CdkHandler};
use rtk::terraform_cmd::{self, TerraformHandler};

fn strings(xs: &[&str]) -> Vec<String> {
    xs.iter().map(|s| s.to_string()).collect()
}

#[test]
fn cdk_run_dispatches_subcommands() {
    let args = strings(&["--all", "-q"]);
    assert!(cdk_cmd::run("synth", &args, 0).0 == CdkHandler::Synth);
    assert!(cdk_cmd::run("diff", &args, 0).0 == CdkHandler::Diff);
    assert!(cdk_cmd::run("deploy", &args, 0).0 == CdkHandler::Deploy);
    assert!(cdk_cmd::run("destroy", &args, 0).0 == CdkHandler::Destroy);
    assert!(cdk_cmd::run("ls", &args, 0).0 == CdkHandler::Passthrough);
    assert!(cdk_cmd::run("list", &args, 0).0 == CdkHandler::Passthrough);
    assert!(cdk_cmd::run("bootstrap", &args, 0).0 == CdkHandler::Passthrough);
}

#[test]
fn cdk_run_builds_the_command() {
    let args = strings(&["--all", "-q"]);
    let (_, quiet) = cdk_cmd::run("synth", &args, 0);
    assert_eq!(quiet.program, "cdk");
    assert_eq!(quiet.args, strings(&["synth", "--all", "-q"]));
    assert!(quiet.announce.is_none());
    let (_, loud) = cdk_cmd::run("synth", &args, 2);
    assert_eq!(loud.announce.as_deref(), Some("Running: cdk synth --all -q"));
    let (_, bare) = cdk_cmd::run("ls", &[], 1);
    assert_eq!(bare.announce.as_deref(), Some("Running: cdk ls "));
}

#[test]
fn cdk_failure_exits_with_code() {
    let r = cdk_cmd::respond(CdkHandler::Synth, "", "  boom  \n", false, Some(3));
    assert_eq!(r.stdout, "");
    assert_eq!(r.stderr, "boom\nboom\n");
    assert_eq!(r.exit_code, Some(3));
    let r = cdk_cmd::respond(CdkHandler::Deploy, "", "x", false, None);
    assert_eq!(r.exit_code, Some(1));
}

#[test]
fn cdk_unsummarized_output_passes_through() {
    let r = cdk_cmd::respond(CdkHandler::Synth, "{}", "", true, Some(0));
    assert_eq!(r.stdout, "{}");
    assert_eq!(r.stderr, "");
    assert_eq!(r.exit_code, None);
}

#[test]
fn cdk_summary_is_printed_on_its_own_line() {
    let r = cdk_cmd::respond(CdkHandler::Deploy, "✅  MyStack\n", "", true, Some(0));
    assert_eq!(r.stdout, "✅  MyStack\n");
    let r = cdk_cmd::respond(CdkHandler::Destroy, " ✅  S\n", "Stack ARN:\n", true, Some(0));
    assert_eq!(r.stdout, "✅  S\nStack ARN:\n");
}

#[test]
fn cdk_diff_differences_exit_nonzero() {
    let r = cdk_cmd::respond(CdkHandler::Diff, "", "", true, Some(0));
    assert_eq!(r.stdout, "cdk diff: no changes\n");
    assert_eq!(r.exit_code, None);
    let r = cdk_cmd::respond(CdkHandler::Diff, "", "", false, Some(2));
    assert_eq!(r.stdout, "");
    assert_eq!(r.stderr, "\n");
    assert_eq!(r.exit_code, Some(2));
    let r = cdk_cmd::respond(
        CdkHandler::Diff,
        "",
        "Stack S\n[+] AWS::SQS::Queue Q Q1\n",
        false,
        Some(1),
    );
    assert_eq!(r.stdout, "Stack S\n[+] Q (AWS::SQS::Queue)\n");
    assert_eq!(r.stderr, "Stack S\n[+] AWS::SQS::Queue Q Q1\n");
    assert_eq!(r.exit_code, Some(1));
}

#[test]
fn cdk_passthrough_prints_output_as_is() {
    let r = cdk_cmd::respond(CdkHandler::Passthrough, "Stack1\nStack2\n", "warn\n", false, None);
    assert_eq!(r.stdout, "Stack1\nStack2\n");
    assert_eq!(r.stderr, "warn\n");
    assert_eq!(r.exit_code, Some(1));
}

#[test]
fn terraform_run_dispatches_subcommands() {
    assert!(terraform_cmd::run("plan", &[], 0).0 == TerraformHandler::Plan);
    assert!(terraform_cmd::run("apply", &[], 0).0 == TerraformHandler::Apply);
    assert!(terraform_cmd::run("destroy", &[], 0).0 == TerraformHandler::Destroy);
    assert!(terraform_cmd::run("state", &strings(&["list"]), 0).0 == TerraformHandler::StateList);
    assert!(terraform_cmd::run("state", &strings(&["show", "x"]), 0).0 == TerraformHandler::State);
    assert!(terraform_cmd::run("state", &[], 0).0 == TerraformHandler::State);
    assert!(terraform_cmd::run("init", &[], 0).0 == TerraformHandler::Passthrough);
    let (_, inv) = terraform_cmd::run("state", &strings(&["list"]), 1);
    assert_eq!(inv.program, "terraform");
    assert_eq!(inv.args, strings(&["state", "list"]));
    assert_eq!(inv.announce.as_deref(), Some("Running: terraform state list"));
}

#[test]
fn terraform_responses() {
    let r = terraform_cmd::respond(TerraformHandler::Apply, "", " err ", false, Some(5));
    assert_eq!(r.stderr, "err\nerr\n");
    assert_eq!(r.exit_code, Some(5));
    let r = terraform_cmd::respond(
        TerraformHandler::StateList,
        "aws_vpc.main\n",
        "",
        true,
        Some(0),
    );
    assert_eq!(r.stdout, "root: aws_vpc\n");
    let r = terraform_cmd::respond(TerraformHandler::State, "aws_vpc.main\n", "", true, Some(0));
    assert_eq!(r.stdout, "aws_vpc.main\n");
    let r = terraform_cmd::respond(TerraformHandler::Plan, "No changes.\n", "", true, Some(0));
    assert_eq!(r.stdout, "No changes.\n");
    assert_eq!(r.exit_code, None);
}
