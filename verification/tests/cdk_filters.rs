use rtk::cdk_cmd::{filter_deploy, filter_diff, filter_synth};

#[test]
fn test_filter_synth_basic() {
    let input = r#"{
  "Resources": {
    "MyServiceTaskDef": {
      "Type": "AWS::ECS::TaskDefinition",
      "Properties": {}
    },
    "MyServiceService": {
      "Type": "AWS::ECS::Service",
      "Properties": {}
    },
    "MyApiRestApi": {
      "Type": "AWS::ApiGateway::RestApi",
      "Properties": {}
    }
  }
}"#;
    let result = filter_synth(input).unwrap();
    assert!(result.contains("3 resources"));
    assert!(!result.contains("TaskDefinition"));
    assert!(!result.contains("Properties"));
}

#[test]
fn test_filter_synth_no_resources() {
    let result = filter_synth("{}");
    assert!(result.is_none());
}

#[test]
fn test_filter_diff_basic() {
    let input = r#"Stack MyStack
Resources
[+] AWS::ECS::Service MyService/Service MyServiceServiceABCD1234
[-] AWS::SQS::Queue OldQueue OldQueueXYZ9876
[~] AWS::ApiGateway::Stage MyApi/Stage MyApiStageEFGH5678
"#;
    let result = filter_diff(input).unwrap();
    assert!(result.contains("[+]"));
    assert!(result.contains("MyService"));
    assert!(result.contains("[-]"));
    assert!(result.contains("OldQueue"));
}

#[test]
fn test_filter_diff_no_changes() {
    let input = "There were no differences";
    let result = filter_diff(input).unwrap();
    assert_eq!(result, "cdk diff: no changes");
}

#[test]
fn test_filter_diff_strips_borders() {
    let input = r#"Stack MyStack
────────────────────────────────
[+] AWS::ECS::Service MyService MyServiceABC
────────────────────────────────
"#;
    let result = filter_diff(input).unwrap();
    assert!(!result.contains("────"));
}

#[test]
fn test_filter_deploy_basic() {
    let input = r#"MyStack: deploying...
 ✅  MyStack

Stack ARN:
arn:aws:cloudformation:us-east-1:123456789012:stack/MyStack/abc123

Outputs:
MyStack.ApiUrl = https://abc123.execute-api.us-east-1.amazonaws.com/prod
MyStack.BucketName = my-bucket-abc123
"#;
    let result = filter_deploy(input).unwrap();
    assert!(result.contains("✅"));
    assert!(result.contains("Stack ARN:"));
    assert!(result.contains("Outputs:"));
    assert!(result.contains("MyStack.ApiUrl"));
    assert!(!result.contains("deploying..."));
}

#[test]
fn test_filter_deploy_strips_progress() {
    let input = r#"│ Creating MyBucket (AWS::S3::Bucket)
│ UPDATE_IN_PROGRESS MyStack
✅  MyStack
"#;
    let result = filter_deploy(input).unwrap();
    assert!(result.contains("✅"));
    assert!(!result.contains("Creating"));
    assert!(!result.contains("UPDATE_IN_PROGRESS"));
}

#[test]
fn test_filter_deploy_empty() {
    let result = filter_deploy("some random noise\nmore noise\n");
    assert!(result.is_none());
}

#[test]
fn diff_groups_constructs_in_order() {
    let input = "Stack MyStack\n[+] AWS::ECS::Service MyService/Service A\n[-] AWS::SQS::Queue OldQueue B\n[~] AWS::ApiGateway::Stage MyApi/Stage C\n[+] AWS::ECS::TaskDefinition MyService/TaskDef D\n";
    let result = filter_diff(input).unwrap();
    assert_eq!(
        result,
        "Stack MyStack\n[~] MyApi (AWS::ApiGateway::Stage)\n[+] AWS::ECS::Service MyService +1 more\n[-] OldQueue (AWS::SQS::Queue)"
    );
}

#[test]
fn synth_exact_summary_with_warnings() {
    let input = "\"Type\": \"AWS::S3::Bucket\"\n  [Warning] a\n[Error] b\nsome error here\n[Warning] c\n[Warning] d\n[Warning] e\n";
    let result = filter_synth(input).unwrap();
    assert_eq!(
        result,
        "cdk synth: stack — 1 resources\n  [Warning] a\n  [Error] b\n  some error here\n  [Warning] c\n  [Warning] d"
    );
}

#[test]
fn deploy_exact_summary() {
    let input = "Outputs:\nA.B = 1\nnot an output\n\nC.D = 2\n";
    assert_eq!(filter_deploy(input).unwrap(), "Outputs:\nA.B = 1");
}

#[test]
fn diff_border_lines_change_nothing() {
    let with_borders = "Stack MyStack\n┌───┬───┐\nResources\n├───┼───┤\n[+] AWS::SQS::Queue Q Q1\n└───┴───┘\n[~] AWS::S3::Bucket B/x B1\n";
    let without: String = with_borders
        .lines()
        .filter(|l| !l.trim().starts_with(['┌', '├', '└']))
        .collect::<Vec<_>>()
        .join("\n");
    assert_eq!(filter_diff(with_borders), filter_diff(&without));
    assert_eq!(
        filter_diff(with_borders).unwrap(),
        "Stack MyStack\nResources\n[~] B (AWS::S3::Bucket)\n[+] Q (AWS::SQS::Queue)"
    );
}
