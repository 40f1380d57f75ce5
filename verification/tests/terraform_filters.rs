use rtk::terraform_cmd::{
    filter_apply, filter_destroy, filter_plan, filter_state_list, has_bare_module_line,
};

#[test]
fn test_filter_plan_basic() {
    let input = r#"
Terraform will perform the following actions:

  # aws_vpc.main will be created
  + resource "aws_vpc" "main" {
      + cidr_block = "10.0.0.0/16"
    }

  # module.ecs.aws_ecs_cluster.main will be created
  + resource "aws_ecs_cluster" "main" {
      + name = "my-cluster"
    }

  # module.ecs.aws_ecs_task_definition.api will be updated in-place
  ~ resource "aws_ecs_task_definition" "api" {
      ~ cpu = "256" -> "512"
    }

  # module.rds.aws_rds_cluster.main will be created
  + resource "aws_rds_cluster" "main" {
      + cluster_identifier = "mydb"
    }

Plan: 3 to add, 1 to change, 0 to destroy.
"#;
    let result = filter_plan(input).unwrap();
    assert!(result.contains("root:"));
    assert!(result.contains("[+] aws_vpc.main"));
    assert!(result.contains("module.ecs:"));
    assert!(result.contains("[+] module.ecs.aws_ecs_cluster.main"));
    assert!(result.contains("[~] module.ecs.aws_ecs_task_definition.api"));
    assert!(result.contains("module.rds:"));
    assert!(result.contains("Plan: 3 to add, 1 to change, 0 to destroy."));
}

#[test]
fn test_filter_plan_no_changes() {
    let input = "No changes. Your infrastructure matches the configuration.";
    let result = filter_plan(input);
    assert!(result.is_none());
}

#[test]
fn test_filter_plan_destroy() {
    let input = r#"
  # aws_s3_bucket.old will be destroyed
  - resource "aws_s3_bucket" "old" {
      - bucket = "my-old-bucket"
    }

Plan: 0 to add, 0 to change, 1 to destroy.
"#;
    let result = filter_plan(input).unwrap();
    assert!(result.contains("[-] aws_s3_bucket.old"));
    assert!(result.contains("Plan:"));
}

#[test]
fn test_filter_apply_with_outputs() {
    let input = r#"
aws_vpc.main: Creating...
aws_vpc.main: Creation complete after 2s [id=vpc-abc123]

Apply complete! Resources: 1 added, 0 changed, 0 destroyed.

Outputs:

vpc_id = "vpc-abc123"
region = "us-east-1"
"#;
    let result = filter_apply(input).unwrap();
    assert!(result.contains("Apply complete!"));
    assert!(result.contains("Outputs:"));
    assert!(result.contains("vpc_id = \"vpc-abc123\""));
    assert!(!result.contains("Creating..."));
    assert!(!result.contains("Creation complete"));
}

#[test]
fn test_filter_apply_no_outputs() {
    let input = r#"
aws_vpc.main: Creating...
aws_vpc.main: Creation complete after 2s

Apply complete! Resources: 1 added, 0 changed, 0 destroyed.
"#;
    let result = filter_apply(input).unwrap();
    assert!(result.contains("Apply complete!"));
    assert!(!result.contains("Creating..."));
}

#[test]
fn test_filter_apply_empty() {
    let result = filter_apply("no useful output here");
    assert!(result.is_none());
}

#[test]
fn test_filter_destroy_basic() {
    let input = r#"
aws_s3_bucket.old: Destroying...
aws_s3_bucket.old: Destruction complete after 1s

Destroy complete! Resources: 1 destroyed.
"#;
    let result = filter_destroy(input).unwrap();
    assert!(result.contains("Destroy complete!"));
    assert!(!result.contains("Destroying..."));
}

#[test]
fn test_filter_state_list_basic() {
    let input = r#"aws_vpc.main
aws_subnet.public
module.ecs.aws_ecs_cluster.main
module.ecs.aws_ecs_service.api
module.rds.aws_rds_cluster.main
"#;
    let result = filter_state_list(input).unwrap();
    assert!(result.contains("root:"));
    assert!(result.contains("aws_vpc"));
    assert!(result.contains("module.ecs:"));
    assert!(result.contains("aws_ecs_cluster"));
    assert!(result.contains("module.rds:"));
    assert!(result.contains("aws_rds_cluster"));
    // Must not contain the resource instance names (savings come from dropping ".main")
    assert!(!result.contains("aws_vpc.main"));
}

#[test]
fn test_filter_state_list_deduplicates_types() {
    let input = "module.big.aws_resource_a.item1\nmodule.big.aws_resource_a.item2\nmodule.big.aws_resource_b.item3\n";
    let result = filter_state_list(input).unwrap();
    // Type "aws_resource_a" should appear only once
    let count = result.matches("aws_resource_a").count();
    assert_eq!(count, 1, "duplicate type should be deduplicated");
    assert!(result.contains("aws_resource_b"));
}

#[test]
fn test_filter_state_list_empty() {
    let result = filter_state_list("");
    assert!(result.is_none());
}

#[test]
fn plan_exact_summary() {
    let input = "  # module.b.x.y will be replaced\n  # a.b will be created\n  # module.a.z.w will be destroyed\nPlan: 1 to add, 0 to change, 2 to destroy.\n";
    assert_eq!(
        filter_plan(input).unwrap(),
        "root:\n  [+] a.b\nmodule.a:\n  [-] module.a.z.w\nmodule.b:\n  [+/-] module.b.x.y\nPlan: 1 to add, 0 to change, 2 to destroy."
    );
}

#[test]
fn apply_outputs_end_after_blank_line() {
    let input = "Apply complete! Resources: 0 added.\nOutputs:\n\na = 1\n\nb = 2\n";
    assert_eq!(
        filter_apply(input).unwrap(),
        "Apply complete! Resources: 0 added.\nOutputs:\na = 1"
    );
}

#[test]
fn destroy_keeps_plan_line() {
    let input = "Plan: 0 to add, 0 to change, 2 to destroy.\nx: Destroying...\nDestroy complete! Resources: 2 destroyed.\n";
    assert_eq!(
        filter_destroy(input).unwrap(),
        "Plan: 0 to add, 0 to change, 2 to destroy.\nDestroy complete! Resources: 2 destroyed."
    );
}

#[test]
fn state_list_exact_summary() {
    let input = "  aws_vpc.main\naws_vpc.other\naws_subnet.a\n\nmodule.z.aws_b.x\nmodule.z.aws_a.y\nmodule.a.aws_c.q\n";
    assert_eq!(
        filter_state_list(input).unwrap(),
        "root: aws_vpc, aws_subnet\nmodule.a: aws_c\nmodule.z: aws_a, aws_b"
    );
}

#[test]
fn bare_module_lines_are_detected() {
    assert!(has_bare_module_line("aws_vpc.main\n  module.ecs  \n"));
    assert!(!has_bare_module_line("module.ecs.aws_x.y\nmodule.\n"));
}
