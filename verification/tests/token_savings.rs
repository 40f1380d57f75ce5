//! Savings of the summaries on longer, realistic command output.

use rtk::cdk_cmd::{filter_deploy, filter_diff, filter_synth};
use rtk::terraform_cmd::{filter_plan, filter_state_list};

fn count_tokens(text: &str) -> usize {
    text.split_whitespace().count()
}

fn savings(input: &str, result: &str) -> f64 {
    100.0 - (count_tokens(result) as f64 / count_tokens(input) as f64 * 100.0)
}

fn cdk_synth_raw() -> String {
    let mut s = String::from("{\n  \"Description\": \"Service stack\",\n  \"Resources\": {\n");
    let kinds = [
        ("Vpc", "AWS::EC2::VPC"),
        ("Subnet", "AWS::EC2::Subnet"),
        ("Cluster", "AWS::ECS::Cluster"),
        ("TaskDef", "AWS::ECS::TaskDefinition"),
        ("Service", "AWS::ECS::Service"),
        ("Role", "AWS::IAM::Role"),
        ("Policy", "AWS::IAM::Policy"),
        ("Bucket", "AWS::S3::Bucket"),
    ];
    for (i, (name, ty)) in kinds.iter().enumerate() {
        s.push_str(&format!(
            "    \"My{name}{i}\": {{\n      \"Type\": \"{ty}\",\n      \"Properties\": {{\n        \"Tags\": [\n          {{ \"Key\": \"Name\", \"Value\": \"my-service/{name}\" }},\n          {{ \"Key\": \"Environment\", \"Value\": \"production\" }}\n        ],\n        \"DeletionPolicy\": \"Retain\"\n      }},\n      \"Metadata\": {{ \"aws:cdk:path\": \"MyStack/{name}/Resource\" }}\n    }},\n"
        ));
    }
    s.push_str("  }\n}\n");
    s
}

fn cdk_diff_raw() -> String {
    let mut s = String::from("Stack MyStack\nIAM Statement Changes\n");
    s.push_str("┌───┬──────────────────────┬────────┬────────────────┬───────────────────┐\n");
    s.push_str("│   │ Resource             │ Effect │ Action         │ Principal         │\n");
    s.push_str("├───┼──────────────────────┼────────┼────────────────┼───────────────────┤\n");
    s.push_str("│ + │ ${MyService/Role.Arn} │ Allow  │ sts:AssumeRole │ Service:ecs-tasks │\n");
    s.push_str("└───┴──────────────────────┴────────┴────────────────┴───────────────────┘\n");
    s.push_str("(NOTE: There may be security-related changes not in this list.)\n\nResources\n");
    for i in 0..6 {
        s.push_str(&format!("[+] AWS::ECS::TaskDefinition MyService/TaskDef{i} MyServiceTaskDef{i}ABCD1234 \n"));
        s.push_str(&format!(" └─ [+] ContainerDefinitions\n     └─ [+] Image: nginx:1.{i} with memory 512 and cpu 256\n"));
        s.push_str(&format!("[~] AWS::Lambda::Function Api/Handler{i} ApiHandler{i}EFGH5678 \n"));
        s.push_str(" └─ [~] Code\n     ├─ [-] S3Key: old-asset-hash.zip for the previous deployment\n     └─ [+] S3Key: new-asset-hash.zip for the next deployment\n");
    }
    s
}

fn cdk_deploy_raw() -> String {
    let mut s = String::from("✨  Synthesis time: 5.12s\n\nMyStack: building assets...\n\n");
    for i in 0..10 {
        s.push_str(&format!("MyStack | {i}/10 | 10:00:0{i} AM | CREATE_IN_PROGRESS   | AWS::S3::Bucket | MyBucket{i} Resource creation Initiated\n"));
        s.push_str(&format!("│ Creating MyBucket{i} (AWS::S3::Bucket) with policy and encryption settings\n"));
    }
    s.push_str("\n ✅  MyStack\n\n✨  Deployment time: 62.3s\n\nOutputs:\nMyStack.ApiUrl = https://abc123.execute-api.us-east-1.amazonaws.com/prod\n\nStack ARN:\narn:aws:cloudformation:us-east-1:123456789012:stack/MyStack/abc123\n\n✨  Total time: 67.4s\n");
    s
}

fn terraform_plan_raw() -> String {
    let mut s = String::from("Terraform used the selected providers to generate the following execution\nplan. Resource actions are indicated with the following symbols:\n  + create\n  ~ update in-place\n\nTerraform will perform the following actions:\n\n");
    for i in 0..5 {
        s.push_str(&format!("  # module.app.aws_instance.web[{i}] will be created\n  + resource \"aws_instance\" \"web\" {{\n      + ami                          = \"ami-0c55b159cbfafe1f0\"\n      + arn                          = (known after apply)\n      + instance_type                = \"t3.micro\"\n      + tags                         = {{\n          + \"Name\" = \"web-{i}\"\n        }}\n    }}\n\n"));
    }
    s.push_str("  # aws_s3_bucket.logs will be updated in-place\n  ~ resource \"aws_s3_bucket\" \"logs\" {\n        id     = \"my-logs\"\n      ~ tags   = {\n          + \"Team\" = \"platform\"\n        }\n    }\n\nPlan: 5 to add, 1 to change, 0 to destroy.\n");
    s
}

fn terraform_state_list_raw() -> String {
    let mut s = String::new();
    for i in 0..6 {
        s.push_str(&format!("aws_security_group_rule.ingress_rule_number_{i}\n"));
        s.push_str(&format!("module.network.aws_subnet.private_subnet_zone_{i}\n"));
        s.push_str(&format!("module.network.aws_route_table_association.private_assoc_{i}\n"));
        s.push_str(&format!("module.compute.aws_instance.application_server_{i}\n"));
    }
    s.push_str("aws_vpc.main\n");
    s
}

#[test]
fn test_synth_token_savings() {
    let input = cdk_synth_raw();
    let result = filter_synth(&input).unwrap();
    let savings = savings(&input, &result);
    assert!(savings >= 60.0, "CDK synth filter: expected >=60% savings, got {:.1}%", savings);
}

#[test]
fn test_diff_token_savings() {
    let input = cdk_diff_raw();
    let result = filter_diff(&input).unwrap();
    let savings = savings(&input, &result);
    assert!(savings >= 60.0, "CDK diff filter: expected >=60% savings, got {:.1}%", savings);
}

#[test]
fn test_deploy_token_savings() {
    let input = cdk_deploy_raw();
    let result = filter_deploy(&input).unwrap();
    let savings = savings(&input, &result);
    assert!(savings >= 60.0, "CDK deploy filter: expected >=60% savings, got {:.1}%", savings);
}

#[test]
fn test_plan_token_savings() {
    let input = terraform_plan_raw();
    let result = filter_plan(&input).unwrap();
    let savings = savings(&input, &result);
    assert!(savings >= 60.0, "Terraform plan filter: expected >=60% savings, got {:.1}%", savings);
}

#[test]
fn test_state_list_token_savings() {
    let input = terraform_state_list_raw();
    let result = filter_state_list(&input).unwrap();
    let savings = savings(&input, &result);
    assert!(
        savings >= 60.0,
        "Terraform state list filter: expected >=60% savings, got {:.1}%",
        savings
    );
}
