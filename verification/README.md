# rtk

Compact summaries of AWS CDK and Terraform command-line output, verified with
Verus.

- `src/cdk_cmd.rs`, `src/terraform_cmd.rs`: for each command, the filter that
  turns its output into a short summary (`filter_*`), the same summary computed
  from given pattern results (`summarize_*`), and the decisions around a run:
  `run` (which command to start, and how its output will be handled) and
  `respond` (what to print and exit with once it has run). The laws of each
  module are the `law_*` proof functions at its end.
- `src/text.rs`: text as `char` sequences: lines, trimming, searching, order.
- `src/pattern.rs`: regular expressions, matched by the `regex` crate; what a
  pattern matches is named, not stated.
- `src/grouping.rs`: values grouped under ordered text keys, and sorted sets.
- `src/command.rs`: the command to start and the response once it has run.
- `app/main.rs`: the program: starts the command, prints, exits.
