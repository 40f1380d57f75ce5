//! AWS CDK output, summarized.
//!
//! `cdk synth` becomes a resource count and its warnings, `cdk diff` one line
//! per top-level construct, `cdk deploy` and `cdk destroy` their result
//! lines, stack ARN and outputs.

use vstd::prelude::*;
use crate::text::{
    lines, trim, trim_end, trimmed_from, join, before, has_prefix, has_infix, decimal, str_chars,
    split_lines, trim_chars, trim_end_chars, join_chars, chars_to_string, before_char,
    starts_with_str, contains_str, has_char, same_chars, push_str, push_chars, push_decimal,
    lemma_before_excludes, lemma_join_holds_parts, lemma_infix_extend, lemma_trim_end_keeps,
    lemma_occurs_in_concat, occurs_at, is_space, lemma_trim_bounds,
};
use crate::pattern::{
    compiled_from, hits, groups, match_count, Pattern, pattern_hits, pattern_groups, pattern_count,
};
use crate::command::{
    Invocation, Response, shown, push_shown, error_line, exit_code_of, announcement, invocation,
    error_line_chars, exit_code, response,
};
use crate::grouping::{
    keys_increase, groups_nonempty, group_of, values_of, law_grouped, grouped, insert_grouped,
    lemma_grouped_nonempty, lemma_grouped_members_nonempty, lemma_grouped_keys_from_entries,
};

verus! {

/// A stack result: a line holding ✅, ❌ or ✨.
pub const STACK_RESULT: &'static str = "✅|❌|✨";

/// An output of the stack: `Stack.Name = value`.
pub const OUTPUT_LINE: &'static str = r"^[A-Za-z0-9]+\.[A-Za-z0-9]+ = ";

/// A progress line of a deployment.
pub const PROGRESS_LINE: &'static str =
    r"│\s*(Creating|Deleting|Updating|UPDATE_IN_PROGRESS|CREATE_IN_PROGRESS|DELETE_IN_PROGRESS|ROLLBACK)";

/// The line that introduces the stack's ARN.
pub const STACK_ARN: &'static str = r"Stack ARN:";

/// The header of the outputs section.
pub const OUTPUTS_SECTION: &'static str = r"^Outputs:$";

/// A resource in a synthesized CloudFormation template.
pub const SYNTH_RESOURCE: &'static str = r#""Type":\s*"AWS::"#;

/// A resource change of `cdk diff`: action, resource type, logical id.
pub const RESOURCE_CHANGE: &'static str = r"^\[([+\-~])\] (\S+) (\S+)";

/// A line of table borders.
pub const SEPARATOR: &'static str = r"^[─┌┐└┘│├┤┬┴┼═╔╗╚╝║╠╣╦╩╬+\-|]+$";

// ---------------------------------------------------------------------------
// cdk synth
// ---------------------------------------------------------------------------

/// A trimmed line worth reporting from `cdk synth`.
pub open spec fn is_warning(t: Seq<char>) -> bool {
    has_prefix(t, "[Warning]"@) || has_prefix(t, "[Error]"@) || has_infix(t, "error"@)
}

/// The trimmed warning lines of `lines`, in order.
pub open spec fn warnings(lines: Seq<Seq<char>>) -> Seq<Seq<char>>
    decreases lines.len(),
{
    if lines.len() == 0 {
        seq![]
    } else {
        let ws = warnings(lines.drop_last());
        if is_warning(trim(lines.last())) {
            ws.push(trim(lines.last()))
        } else {
            ws
        }
    }
}

/// Each of `ws` indented by two spaces, on a line of its own.
pub open spec fn indented(ws: Seq<Seq<char>>) -> Seq<char>
    decreases ws.len(),
{
    if ws.len() == 0 {
        seq![]
    } else {
        indented(ws.drop_last()) + "  "@ + ws.last() + "\n"@
    }
}

/// The summary of a synthesized template with `count` resources and the
/// given warnings: `cdk synth: stack — N resources`, then the first five
/// warnings; `None` when there is no resource.
pub open spec fn synth_summary(count: nat, ws: Seq<Seq<char>>) -> Option<Seq<char>> {
    if count == 0 {
        None
    } else {
        let head = "cdk synth: stack — "@ + decimal(count) + " resources"@;
        let listed = if ws.len() > 5 {
            ws.take(5)
        } else {
            ws
        };
        if ws.len() == 0 {
            Some(trim_end(head))
        } else {
            Some(trim_end(head + "\n"@ + indented(listed)))
        }
    }
}

/// What `filter_synth` makes of `output`.
pub open spec fn synth_filtered(output: Seq<char>) -> Option<Seq<char>> {
    synth_summary(match_count(SYNTH_RESOURCE@, output), warnings(lines(output)))
}

/// The summary of a synthesized template with `count` resources, whose
/// output has the given lines.
pub fn summarize_synth(count: usize, lines: &Vec<Vec<char>>) -> (r: Option<Vec<char>>)
    ensures
        r.deep_view() == synth_summary(count as nat, warnings(lines.deep_view())),
{
    if count == 0 {
        return None;
    }
    let ghost ls = lines.deep_view();
    let mut ws: Vec<Vec<char>> = Vec::new();
    let mut i: usize = 0;
    assert(ls.take(0) =~= Seq::<Seq<char>>::empty());
    assert(ws.deep_view() =~= Seq::<Seq<char>>::empty());
    while i < lines.len()
        invariant
            i <= lines.len(),
            ls == lines.deep_view(),
            ws.deep_view() == warnings(ls.take(i as int)),
        decreases lines.len() - i,
    {
        assert(ls.take(i + 1).drop_last() =~= ls.take(i as int));
        assert(ls[i as int] == lines[i as int]@);
        let t = trim_chars(lines[i].as_slice());
        if starts_with_str(t.as_slice(), "[Warning]") || starts_with_str(t.as_slice(), "[Error]")
            || contains_str(t.as_slice(), "error") {
            let ghost w0 = ws.deep_view();
            assert(t.deep_view() =~= t@);
            ws.push(t);
            assert(ws.deep_view() =~= w0.push(t@));
        }
        i = i + 1;
    }
    assert(ls.take(lines.len() as int) =~= ls);
    let ghost all = ws.deep_view();
    let mut out: Vec<char> = Vec::new();
    push_str(&mut out, "cdk synth: stack — ");
    push_decimal(&mut out, count);
    push_str(&mut out, " resources");
    let ghost head = out@;
    if ws.len() > 0 {
        push_str(&mut out, "\n");
        let n: usize = if ws.len() > 5 {
            5
        } else {
            ws.len()
        };
        let ghost listed = all.take(n as int);
        assert(listed == (if all.len() > 5 {
            all.take(5)
        } else {
            all
        })) by {
            assert(all.take(all.len() as int) =~= all);
        }
        let mut k: usize = 0;
        assert(listed.take(0) =~= Seq::<Seq<char>>::empty());
        while k < n
            invariant
                k <= n <= ws.len(),
                all == ws.deep_view(),
                listed == all.take(n as int),
                out@ == head + "\n"@ + indented(listed.take(k as int)),
            decreases n - k,
        {
            assert(listed.take(k + 1).drop_last() =~= listed.take(k as int));
            assert(listed[k as int] == ws@[k as int]@);
            push_str(&mut out, "  ");
            push_chars(&mut out, ws[k].as_slice());
            push_str(&mut out, "\n");
            k = k + 1;
            assert(out@ =~= head + "\n"@ + indented(listed.take(k as int)));
        }
        assert(listed.take(n as int) =~= listed);
    }
    let r = trim_end_chars(out.as_slice());
    assert(r.deep_view() =~= r@);
    Some(r)
}

/// Summarizes `cdk synth` output: the number of resources in the template
/// and up to five warning or error lines, with the template left out;
/// `None` when the template has no resource.
pub fn filter_synth(output: &str) -> (r: Option<String>)
    ensures
        r.deep_view() == synth_filtered(output@),
{
    let res = Pattern::compile(SYNTH_RESOURCE);
    let cs = str_chars(output);
    let count = pattern_count(&res, cs.as_slice());
    let ls = split_lines(cs.as_slice());
    match summarize_synth(count, &ls) {
        Some(v) => Some(chars_to_string(v.as_slice())),
        None => None,
    }
}

// ---------------------------------------------------------------------------
// cdk diff
// ---------------------------------------------------------------------------

/// A resource change (action, resource type, logical id) read from the
/// capture groups of `RESOURCE_CHANGE`; `None` when the pattern did not
/// match or one of the three groups is missing.
pub open spec fn change_of(g: Option<Seq<Option<Seq<char>>>>) -> Option<
    (Seq<char>, Seq<char>, Seq<char>),
> {
    match g {
        Some(gs) => if gs.len() >= 4 && gs[1] is Some && gs[2] is Some && gs[3] is Some {
            Some((gs[1]->0, gs[2]->0, gs[3]->0))
        } else {
            None
        },
        None => None,
    }
}

/// A stack header line of `cdk diff` (`Stack ...`, or a `Resources` line
/// without `{`).
pub open spec fn is_diff_header(l: Seq<char>) -> bool {
    has_prefix(l, "Stack "@) || (has_infix(l, "Resources"@) && !l.contains('{'))
}

/// One line of a diff read. The state is the non-empty trimmed header lines
/// and the changes so far, each as (top-level construct, (action, type)).
pub open spec fn diff_step(
    st: (Seq<Seq<char>>, Seq<(Seq<char>, (Seq<char>, Seq<char>))>),
    line: Seq<char>,
    separator: bool,
    change: Option<(Seq<char>, Seq<char>, Seq<char>)>,
) -> (Seq<Seq<char>>, Seq<(Seq<char>, (Seq<char>, Seq<char>))>) {
    if separator {
        st
    } else if change is Some {
        let (a, t, id) = change->0;
        (st.0, st.1.push((before(id, '/'), (a, t))))
    } else if is_diff_header(line) && trim(line).len() > 0 {
        (st.0.push(trim(line)), st.1)
    } else {
        st
    }
}

/// The state after reading all of `lines`.
pub open spec fn diff_scan(
    lines: Seq<Seq<char>>,
    separators: Seq<bool>,
    changes: Seq<Option<(Seq<char>, Seq<char>, Seq<char>)>>,
) -> (Seq<Seq<char>>, Seq<(Seq<char>, (Seq<char>, Seq<char>))>)
    decreases lines.len(),
{
    if lines.len() == 0 {
        (seq![], seq![])
    } else {
        diff_step(
            diff_scan(lines.drop_last(), separators.drop_last(), changes.drop_last()),
            lines.last(),
            separators.last(),
            changes.last(),
        )
    }
}

/// The line for one construct and its changes: `[a] Construct (Type)` for a
/// single change, `[a] Type Construct +n more` for several (the first
/// change's action and type).
pub open spec fn construct_line(g: (Seq<char>, Seq<(Seq<char>, Seq<char>)>)) -> Seq<char> {
    let (c, rs) = g;
    if rs.len() == 1 {
        "["@ + rs[0].0 + "] "@ + c + " ("@ + rs[0].1 + ")"@
    } else {
        "["@ + rs[0].0 + "] "@ + rs[0].1 + " "@ + c + " +"@ + decimal((rs.len() - 1) as nat)
            + " more"@
    }
}

/// The summary of a diff: the headers, then one line per construct in
/// construct order; when there is no change, `cdk diff: no changes` if the
/// output says there were no differences, else `None`.
pub open spec fn diff_summary(
    output: Seq<char>,
    lines: Seq<Seq<char>>,
    separators: Seq<bool>,
    changes: Seq<Option<(Seq<char>, Seq<char>, Seq<char>)>>,
) -> Option<Seq<char>> {
    let (headers, entries) = diff_scan(lines, separators, changes);
    if entries.len() == 0 {
        if has_infix(output, "There were no differences"@) || has_infix(output, "no differences"@) {
            Some("cdk diff: no changes"@)
        } else {
            None
        }
    } else {
        Some(
            join(
                headers + grouped(entries).map_values(
                    |g: (Seq<char>, Seq<(Seq<char>, Seq<char>)>)| construct_line(g),
                ),
                "\n"@,
            ),
        )
    }
}

/// What `filter_diff` makes of `output`.
pub open spec fn diff_filtered(output: Seq<char>) -> Option<Seq<char>> {
    let ls = lines(output);
    diff_summary(
        output,
        ls,
        ls.map_values(|l: Seq<char>| hits(SEPARATOR@, trim(l))),
        ls.map_values(|l: Seq<char>| change_of(groups(RESOURCE_CHANGE@, l))),
    )
}

/// The change read from capture groups.
pub fn change_from(g: &Option<Vec<Option<Vec<char>>>>) -> (r: Option<
    (Vec<char>, Vec<char>, Vec<char>),
>)
    ensures
        r.deep_view() == change_of(g.deep_view()),
{
    match g {
        Some(gs) => {
            if gs.len() >= 4 {
                assert(gs.deep_view()[1] == gs@[1].deep_view());
                assert(gs.deep_view()[2] == gs@[2].deep_view());
                assert(gs.deep_view()[3] == gs@[3].deep_view());
                match (&gs[1], &gs[2], &gs[3]) {
                    (Some(a), Some(t), Some(id)) => {
                        let r = (a.clone(), t.clone(), id.clone());
                        assert(r.0.deep_view() =~= a.deep_view());
                        assert(r.1.deep_view() =~= t.deep_view());
                        assert(r.2.deep_view() =~= id.deep_view());
                        Some(r)
                    },
                    _ => None,
                }
            } else {
                None
            }
        },
        None => None,
    }
}

/// Appends the line for one construct and its changes.
fn push_construct_line(out: &mut Vec<char>, g: &(Vec<char>, Vec<(Vec<char>, Vec<char>)>))
    requires
        g.1.len() >= 1,
    ensures
        final(out)@ == old(out)@ + construct_line(g.deep_view()),
{
    let (c, rs) = g;
    assert(rs.deep_view()[0] == rs@[0].deep_view());
    assert(rs@[0].0.deep_view() =~= rs@[0].0@);
    assert(rs@[0].1.deep_view() =~= rs@[0].1@);
    assert(c.deep_view() =~= c@);
    push_str(out, "[");
    push_chars(out, rs[0].0.as_slice());
    push_str(out, "] ");
    if rs.len() == 1 {
        push_chars(out, c.as_slice());
        push_str(out, " (");
        push_chars(out, rs[0].1.as_slice());
        push_str(out, ")");
    } else {
        push_chars(out, rs[0].1.as_slice());
        push_str(out, " ");
        push_chars(out, c.as_slice());
        push_str(out, " +");
        push_decimal(out, rs.len() - 1);
        push_str(out, " more");
    }
    assert(out@ =~= old(out)@ + construct_line(g.deep_view()));
}

/// The summary of a diff whose lines carry the given pattern results.
pub fn summarize_diff(
    output: &[char],
    lines: &Vec<Vec<char>>,
    separators: &Vec<bool>,
    changes: &Vec<Option<(Vec<char>, Vec<char>, Vec<char>)>>,
) -> (r: Option<Vec<char>>)
    requires
        lines.len() == separators.len() == changes.len(),
    ensures
        r.deep_view() == diff_summary(output@, lines.deep_view(), separators@, changes.deep_view()),
{
    let ghost ls = lines.deep_view();
    let ghost cs = changes.deep_view();
    let mut headers: Vec<Vec<char>> = Vec::new();
    let mut groups: Vec<(Vec<char>, Vec<(Vec<char>, Vec<char>)>)> = Vec::new();
    let ghost mut entries: Seq<(Seq<char>, (Seq<char>, Seq<char>))> = seq![];
    let mut i: usize = 0;
    assert(ls.take(0) =~= Seq::<Seq<char>>::empty());
    assert(separators@.take(0) =~= Seq::<bool>::empty());
    assert(cs.take(0) =~= Seq::<Option<(Seq<char>, Seq<char>, Seq<char>)>>::empty());
    assert(headers.deep_view() =~= Seq::<Seq<char>>::empty());
    assert(groups.deep_view() =~= Seq::<(Seq<char>, Seq<(Seq<char>, Seq<char>)>)>::empty());
    while i < lines.len()
        invariant
            i <= lines.len() == separators.len() == changes.len(),
            ls == lines.deep_view(),
            cs == changes.deep_view(),
            (headers.deep_view(), entries) == diff_scan(
                ls.take(i as int),
                separators@.take(i as int),
                cs.take(i as int),
            ),
            groups.deep_view() == grouped(entries),
        decreases lines.len() - i,
    {
        assert(ls.take(i + 1).drop_last() =~= ls.take(i as int));
        assert(separators@.take(i + 1).drop_last() =~= separators@.take(i as int));
        assert(cs.take(i + 1).drop_last() =~= cs.take(i as int));
        assert(ls[i as int] == lines[i as int]@);
        assert(cs[i as int] == changes@[i as int].deep_view());
        let line = lines[i].as_slice();
        if separators[i] {
        } else if let Some((a0, t0, id0)) = &changes[i] {
            let a = a0.clone();
            let t = t0.clone();
            assert(a.deep_view() =~= a@);
            assert(t.deep_view() =~= t@);
            assert(id0.deep_view() =~= id0@);
            let c = before_char(id0.as_slice(), '/');
            let ghost e = (c@, (a@, t@));
            let ghost e0 = entries;
            let item = (a, t);
            assert(item.deep_view() == (a@, t@));
            insert_grouped(&mut groups, c, item);
            proof {
                entries = entries.push(e);
                assert(entries.drop_last() =~= e0);
            }
        } else if starts_with_str(line, "Stack ") || (contains_str(line, "Resources") && !has_char(
            line,
            '{',
        )) {
            let h = trim_chars(line);
            if h.len() > 0 {
                let ghost h0 = headers.deep_view();
                assert(h.deep_view() =~= h@);
                headers.push(h);
                assert(headers.deep_view() =~= h0.push(h@));
            }
        }
        i = i + 1;
    }
    assert(ls.take(lines.len() as int) =~= ls);
    assert(separators@.take(lines.len() as int) =~= separators@);
    assert(cs.take(lines.len() as int) =~= cs);
    if groups.len() == 0 {
        assert(entries.len() == 0) by {
            if entries.len() > 0 {
                lemma_grouped_nonempty(entries);
            }
        }
        if contains_str(output, "There were no differences") || contains_str(output, "no differences") {
            let v = str_chars("cdk diff: no changes");
            assert(v.deep_view() =~= v@);
            return Some(v);
        } else {
            return None;
        }
    }
    assert(entries.len() > 0);
    let mut out_lines: Vec<Vec<char>> = Vec::new();
    let mut k: usize = 0;
    while k < headers.len()
        invariant
            k <= headers.len(),
            out_lines.deep_view() == headers.deep_view().take(k as int),
        decreases headers.len() - k,
    {
        let ghost o0 = out_lines.deep_view();
        out_lines.push(headers[k].clone());
        assert(headers.deep_view()[k as int] == headers@[k as int]@);
        assert(headers.deep_view().take(k + 1) =~= o0.push(headers@[k as int]@));
        assert(out_lines.deep_view() =~= o0.push(headers@[k as int]@));
        k = k + 1;
    }
    let ghost gl = groups.deep_view().map_values(
        |g: (Seq<char>, Seq<(Seq<char>, Seq<char>)>)| construct_line(g),
    );
    let mut j: usize = 0;
    assert(headers.deep_view().take(headers.len() as int) =~= headers.deep_view());
    assert(gl.take(0) =~= Seq::<Seq<char>>::empty());
    while j < groups.len()
        invariant
            j <= groups.len(),
            groups.deep_view() == grouped(entries),
            gl == groups.deep_view().map_values(
                |g: (Seq<char>, Seq<(Seq<char>, Seq<char>)>)| construct_line(g),
            ),
            out_lines.deep_view() == headers.deep_view() + gl.take(j as int),
        decreases groups.len() - j,
    {
        proof {
            lemma_grouped_members_nonempty(entries, j as int);
        }
        assert(groups.deep_view()[j as int] == groups@[j as int].deep_view());
        let mut l: Vec<char> = Vec::new();
        push_construct_line(&mut l, &groups[j]);
        assert(l@ =~= gl[j as int]);
        let ghost o0 = out_lines.deep_view();
        assert(l.deep_view() =~= l@);
        out_lines.push(l);
        assert(out_lines.deep_view() =~= o0.push(gl[j as int]));
        assert(gl.take(j + 1) =~= gl.take(j as int).push(gl[j as int]));
        j = j + 1;
    }
    assert(gl.take(groups.len() as int) =~= gl);
    Some(join_chars(&out_lines, "\n"))
}

/// Summarizes `cdk diff` output: the stack headers, then one line per
/// top-level construct (the part of the logical id before its first `/`),
/// in construct order, with table borders dropped; `cdk diff: no changes`
/// when there is no change and the output says so, else `None`.
pub fn filter_diff(output: &str) -> (r: Option<String>)
    ensures
        r.deep_view() == diff_filtered(output@),
{
    let sep = Pattern::compile(SEPARATOR);
    let chg = Pattern::compile(RESOURCE_CHANGE);
    let cs = str_chars(output);
    let ls = split_lines(cs.as_slice());
    let mut separators: Vec<bool> = Vec::new();
    let mut changes: Vec<Option<(Vec<char>, Vec<char>, Vec<char>)>> = Vec::new();
    let mut i: usize = 0;
    while i < ls.len()
        invariant
            compiled_from(sep, SEPARATOR@),
            compiled_from(chg, RESOURCE_CHANGE@),
            i <= ls.len(),
            ls.deep_view() == lines(output@),
            separators.len() == i,
            changes.len() == i,
            forall|j: int|
                0 <= j < i ==> separators@[j] == hits(SEPARATOR@, trim(#[trigger] ls.deep_view()[j])),
            forall|j: int|
                0 <= j < i ==> changes@[j].deep_view() == change_of(
                    groups(RESOURCE_CHANGE@, #[trigger] ls.deep_view()[j]),
                ),
        decreases ls.len() - i,
    {
        assert(ls.deep_view()[i as int] == ls[i as int]@);
        let t = trim_chars(ls[i].as_slice());
        separators.push(pattern_hits(&sep, t.as_slice()));
        let g = pattern_groups(&chg, ls[i].as_slice());
        changes.push(change_from(&g));
        i = i + 1;
    }
    assert(separators@ =~= ls.deep_view().map_values(|l: Seq<char>| hits(SEPARATOR@, trim(l))));
    assert(changes.deep_view() =~= ls.deep_view().map_values(
        |l: Seq<char>| change_of(groups(RESOURCE_CHANGE@, l)),
    ));
    match summarize_diff(cs.as_slice(), &ls, &separators, &changes) {
        Some(v) => Some(chars_to_string(v.as_slice())),
        None => None,
    }
}

// ---------------------------------------------------------------------------
// cdk deploy / cdk destroy
// ---------------------------------------------------------------------------

/// What the patterns of a deployment log say of one line.
#[derive(Clone, Copy)]
pub struct DeployMarks {
    /// The line is a progress line.
    pub progress: bool,
    /// The line holds a stack result.
    pub result: bool,
    /// The line holds `Stack ARN:`.
    pub stack_arn: bool,
    /// The trimmed line is `Outputs:`.
    pub outputs_header: bool,
    /// The trimmed line is a stack output.
    pub output_line: bool,
}

/// The marks of `line`, as the patterns decide them.
pub open spec fn deploy_marks_of(line: Seq<char>) -> DeployMarks {
    DeployMarks {
        progress: hits(PROGRESS_LINE@, line),
        result: hits(STACK_RESULT@, line),
        stack_arn: hits(STACK_ARN@, line),
        outputs_header: hits(OUTPUTS_SECTION@, trim(line)),
        output_line: hits(OUTPUT_LINE@, trim(line)),
    }
}

/// One line of a deployment log read: the trimmed lines kept so far, and
/// whether the outputs section is open.
pub open spec fn deploy_step(st: (Seq<Seq<char>>, bool), line: Seq<char>, m: DeployMarks) -> (
    Seq<Seq<char>>,
    bool,
) {
    let t = trim(line);
    if m.progress {
        st
    } else if m.result || m.stack_arn {
        (st.0.push(t), st.1)
    } else if m.outputs_header {
        (st.0.push(t), true)
    } else if st.1 {
        if t.len() == 0 {
            (st.0, false)
        } else if m.output_line {
            (st.0.push(t), true)
        } else {
            st
        }
    } else {
        st
    }
}

/// The state after reading all of `lines`, each with its marks.
pub open spec fn deploy_scan(lines: Seq<Seq<char>>, marks: Seq<DeployMarks>) -> (
    Seq<Seq<char>>,
    bool,
)
    decreases lines.len(),
{
    if lines.len() == 0 {
        (seq![], false)
    } else {
        deploy_step(
            deploy_scan(lines.drop_last(), marks.drop_last()),
            lines.last(),
            marks.last(),
        )
    }
}

/// The summary of a deployment log: the kept lines joined by newlines, or
/// `None` when no line was kept.
pub open spec fn deploy_summary(lines: Seq<Seq<char>>, marks: Seq<DeployMarks>) -> Option<
    Seq<char>,
> {
    let kept = deploy_scan(lines, marks).0;
    if kept.len() == 0 {
        None
    } else {
        Some(join(kept, "\n"@))
    }
}

/// What `filter_deploy` makes of `output`.
pub open spec fn deploy_filtered(output: Seq<char>) -> Option<Seq<char>> {
    let ls = lines(output);
    deploy_summary(ls, ls.map_values(|l: Seq<char>| deploy_marks_of(l)))
}

/// The compiled patterns of a deployment log.
pub struct DeployPatterns {
    pub progress: Option<Pattern>,
    pub result: Option<Pattern>,
    pub stack_arn: Option<Pattern>,
    pub outputs_header: Option<Pattern>,
    pub output_line: Option<Pattern>,
}

impl DeployPatterns {
    pub open spec fn wf(&self) -> bool {
        &&& compiled_from(self.progress, PROGRESS_LINE@)
        &&& compiled_from(self.result, STACK_RESULT@)
        &&& compiled_from(self.stack_arn, STACK_ARN@)
        &&& compiled_from(self.outputs_header, OUTPUTS_SECTION@)
        &&& compiled_from(self.output_line, OUTPUT_LINE@)
    }

    pub fn new() -> (r: DeployPatterns)
        ensures
            r.wf(),
    {
        DeployPatterns {
            progress: Pattern::compile(PROGRESS_LINE),
            result: Pattern::compile(STACK_RESULT),
            stack_arn: Pattern::compile(STACK_ARN),
            outputs_header: Pattern::compile(OUTPUTS_SECTION),
            output_line: Pattern::compile(OUTPUT_LINE),
        }
    }

    /// The marks of `line`.
    pub fn marks(&self, line: &[char]) -> (m: DeployMarks)
        requires
            self.wf(),
        ensures
            m == deploy_marks_of(line@),
    {
        let t = trim_chars(line);
        DeployMarks {
            progress: pattern_hits(&self.progress, line),
            result: pattern_hits(&self.result, line),
            stack_arn: pattern_hits(&self.stack_arn, line),
            outputs_header: pattern_hits(&self.outputs_header, t.as_slice()),
            output_line: pattern_hits(&self.output_line, t.as_slice()),
        }
    }
}

/// The summary of a deployment log whose lines carry the given marks.
pub fn summarize_deploy(lines: &Vec<Vec<char>>, marks: &Vec<DeployMarks>) -> (r: Option<Vec<char>>)
    requires
        lines.len() == marks.len(),
    ensures
        r.deep_view() == deploy_summary(lines.deep_view(), marks@),
{
    let ghost ls = lines.deep_view();
    let mut kept: Vec<Vec<char>> = Vec::new();
    let mut in_outputs = false;
    let mut i: usize = 0;
    assert(ls.take(0) =~= Seq::<Seq<char>>::empty());
    assert(marks@.take(0) =~= Seq::<DeployMarks>::empty());
    assert(kept.deep_view() =~= Seq::<Seq<char>>::empty());
    while i < lines.len()
        invariant
            i <= lines.len() == marks.len(),
            ls == lines.deep_view(),
            (kept.deep_view(), in_outputs) == deploy_scan(ls.take(i as int), marks@.take(i as int)),
        decreases lines.len() - i,
    {
        assert(ls.take(i + 1).drop_last() =~= ls.take(i as int));
        assert(marks@.take(i + 1).drop_last() =~= marks@.take(i as int));
        assert(ls[i as int] == lines[i as int]@);
        let m = marks[i];
        let t = trim_chars(lines[i].as_slice());
        let ghost k0 = kept.deep_view();
        assert(t.deep_view() =~= t@);
        if m.progress {
        } else if m.result || m.stack_arn {
            kept.push(t);
            assert(kept.deep_view() =~= k0.push(t@));
        } else if m.outputs_header {
            kept.push(t);
            assert(kept.deep_view() =~= k0.push(t@));
            in_outputs = true;
        } else if in_outputs {
            if t.len() == 0 {
                in_outputs = false;
            } else if m.output_line {
                kept.push(t);
                assert(kept.deep_view() =~= k0.push(t@));
            }
        }
        i = i + 1;
    }
    assert(ls.take(lines.len() as int) =~= ls);
    assert(marks@.take(lines.len() as int) =~= marks@);
    if kept.len() == 0 {
        None
    } else {
        Some(join_chars(&kept, "\n"))
    }
}

/// Summarizes `cdk deploy` / `cdk destroy` output: the stack result lines
/// (✅, ❌, ✨), the `Stack ARN:` line and the `Outputs:` section, each
/// trimmed, with progress lines dropped; `None` when none is there.
pub fn filter_deploy(output: &str) -> (r: Option<String>)
    ensures
        r.deep_view() == deploy_filtered(output@),
{
    let pats = DeployPatterns::new();
    let cs = str_chars(output);
    let ls = split_lines(cs.as_slice());
    let mut marks: Vec<DeployMarks> = Vec::new();
    let mut i: usize = 0;
    while i < ls.len()
        invariant
            pats.wf(),
            i <= ls.len(),
            ls.deep_view() == lines(output@),
            marks.len() == i,
            forall|j: int| 0 <= j < i ==> marks@[j] == deploy_marks_of(#[trigger] ls.deep_view()[j]),
        decreases ls.len() - i,
    {
        assert(ls.deep_view()[i as int] == ls[i as int]@);
        marks.push(pats.marks(ls[i].as_slice()));
        i = i + 1;
    }
    assert(marks@ =~= ls.deep_view().map_values(|l: Seq<char>| deploy_marks_of(l)));
    match summarize_deploy(&ls, &marks) {
        Some(v) => Some(chars_to_string(v.as_slice())),
        None => None,
    }
}

// ---------------------------------------------------------------------------
// Running cdk
// ---------------------------------------------------------------------------

/// How the output of a cdk subcommand is handled.
#[derive(Clone, Copy, PartialEq, Eq, Structural)]
pub enum CdkHandler {
    Synth,
    Diff,
    Deploy,
    Destroy,
    /// Printed as it comes (`ls`, `list` and every other subcommand).
    Passthrough,
}

/// The handler of `subcommand`.
pub open spec fn cdk_handler_of(sub: Seq<char>) -> CdkHandler {
    if sub == "synth"@ {
        CdkHandler::Synth
    } else if sub == "diff"@ {
        CdkHandler::Diff
    } else if sub == "deploy"@ {
        CdkHandler::Deploy
    } else if sub == "destroy"@ {
        CdkHandler::Destroy
    } else {
        CdkHandler::Passthrough
    }
}

/// Starts `cdk subcommand args...`: the handler for its output, and the
/// command to run (announced on standard error when `verbose > 0`).
pub fn run(subcommand: &str, args: &[String], verbose: u8) -> (r: (CdkHandler, Invocation))
    ensures
        r.0 == cdk_handler_of(subcommand@),
        r.1.program@ == "cdk"@,
        r.1.args.deep_view() == seq![subcommand@] + args.deep_view(),
        r.1.announce.deep_view() == (if verbose > 0 {
            Some(announcement("cdk"@, subcommand@, args.deep_view()))
        } else {
            None
        }),
{
    let sub = str_chars(subcommand);
    let handler = if same_chars(sub.as_slice(), str_chars("synth").as_slice()) {
        CdkHandler::Synth
    } else if same_chars(sub.as_slice(), str_chars("diff").as_slice()) {
        CdkHandler::Diff
    } else if same_chars(sub.as_slice(), str_chars("deploy").as_slice()) {
        CdkHandler::Deploy
    } else if same_chars(sub.as_slice(), str_chars("destroy").as_slice()) {
        CdkHandler::Destroy
    } else {
        CdkHandler::Passthrough
    };
    (handler, invocation("cdk", subcommand, args, verbose))
}

/// What to print (standard output, standard error) and exit with once
/// `cdk` has run with handler `h`, given what it wrote and how it ended.
pub open spec fn cdk_outcome(
    h: CdkHandler,
    out: Seq<char>,
    err: Seq<char>,
    success: bool,
    code: Option<i32>,
) -> (Seq<char>, Seq<char>, Option<i32>) {
    let exit = exit_code_of(success, code);
    match h {
        CdkHandler::Synth => if !success {
            (seq![], error_line(err) + error_line(err), exit)
        } else {
            (shown(synth_filtered(out), out), seq![], exit)
        },
        CdkHandler::Diff => {
            let errs = if success {
                seq![]
            } else {
                error_line(err)
            };
            if out.len() == 0 && err.len() == 0 {
                if success {
                    ("cdk diff: no changes\n"@, errs, exit)
                } else {
                    (seq![], errs, exit)
                }
            } else {
                let combined = if out.len() > 0 {
                    out
                } else {
                    err
                };
                (shown(diff_filtered(combined), combined), errs, exit)
            }
        },
        CdkHandler::Deploy | CdkHandler::Destroy => if !success {
            (seq![], error_line(err) + error_line(err), exit)
        } else {
            (shown(deploy_filtered(out + err), out + err), seq![], exit)
        },
        CdkHandler::Passthrough => (
            out,
            if success {
                seq![]
            } else {
                error_line(err)
            },
            exit,
        ),
    }
}

/// What to print and exit with once `cdk` has run with handler `h`:
/// `stdout` and `stderr` are what it wrote, `success` whether it exited
/// successfully, `code` its exit code when it has one.
pub fn respond(h: CdkHandler, stdout: &str, stderr: &str, success: bool, code: Option<i32>) -> (r:
    Response)
    ensures
        (r.stdout@, r.stderr@, r.exit_code) == cdk_outcome(h, stdout@, stderr@, success, code),
{
    let exit = exit_code(success, code);
    let err = str_chars(stderr);
    let mut o: Vec<char> = Vec::new();
    let mut e: Vec<char> = Vec::new();
    match h {
        CdkHandler::Synth => {
            if !success {
                let l = error_line_chars(err.as_slice());
                push_chars(&mut e, l.as_slice());
                push_chars(&mut e, l.as_slice());
            } else {
                push_shown(&mut o, filter_synth(stdout), stdout);
            }
        },
        CdkHandler::Diff => {
            if !success {
                let l = error_line_chars(err.as_slice());
                push_chars(&mut e, l.as_slice());
            }
            if stdout.is_empty() && stderr.is_empty() {
                if success {
                    push_str(&mut o, "cdk diff: no changes\n");
                }
            } else {
                let combined: &str = if !stdout.is_empty() {
                    stdout
                } else {
                    stderr
                };
                push_shown(&mut o, filter_diff(combined), combined);
            }
        },
        CdkHandler::Deploy | CdkHandler::Destroy => {
            if !success {
                let l = error_line_chars(err.as_slice());
                push_chars(&mut e, l.as_slice());
                push_chars(&mut e, l.as_slice());
            } else {
                let mut c = str_chars(stdout);
                push_chars(&mut c, err.as_slice());
                let combined = chars_to_string(c.as_slice());
                push_shown(&mut o, filter_deploy(combined.as_str()), combined.as_str());
            }
        },
        CdkHandler::Passthrough => {
            push_str(&mut o, stdout);
            if !success {
                let l = error_line_chars(err.as_slice());
                push_chars(&mut e, l.as_slice());
            }
        },
    }
    assert(o@ =~= cdk_outcome(h, stdout@, stderr@, success, code).0);
    assert(e@ =~= cdk_outcome(h, stdout@, stderr@, success, code).1);
    response(o.as_slice(), e.as_slice(), exit)
}

// ---------------------------------------------------------------------------
// Laws
// ---------------------------------------------------------------------------

/// `t` is one of `lines`, trimmed, that is not a progress line.
pub open spec fn kept_deploy_line(t: Seq<char>, lines: Seq<Seq<char>>, marks: Seq<DeployMarks>) -> bool {
    exists|i: int| 0 <= i < lines.len() && !marks[i].progress && #[trigger] trimmed_from(t, lines[i])
}

/// Law: a deployment summary only keeps input lines, trimmed, and never a
/// progress line.
pub proof fn law_deploy_keeps_no_progress(lines: Seq<Seq<char>>, marks: Seq<DeployMarks>)
    requires
        lines.len() == marks.len(),
    ensures
        forall|k: int|
            0 <= k < deploy_scan(lines, marks).0.len() ==> kept_deploy_line(
                #[trigger] deploy_scan(lines, marks).0[k],
                lines,
                marks,
            ),
    decreases lines.len(),
{
    if lines.len() > 0 {
        let pl = lines.drop_last();
        let pm = marks.drop_last();
        law_deploy_keeps_no_progress(pl, pm);
        let prev = deploy_scan(pl, pm).0;
        let cur = deploy_scan(lines, marks).0;
        assert forall|k: int| 0 <= k < cur.len() implies kept_deploy_line(
            #[trigger] cur[k],
            lines,
            marks,
        ) by {
            if k < prev.len() {
                assert(cur[k] == prev[k]);
                assert(kept_deploy_line(prev[k], pl, pm));
                let i = choose|i: int|
                    0 <= i < pl.len() && !pm[i].progress && #[trigger] trimmed_from(prev[k], pl[i]);
                assert(lines[i] == pl[i] && marks[i] == pm[i]);
                assert(trimmed_from(cur[k], lines[i]));
            } else {
                let i = lines.len() - 1;
                assert(trimmed_from(cur[k], lines[i]));
            }
        }
    }
}

/// `t` is one of `lines`, trimmed, a header and not a line of borders.
pub open spec fn kept_header_line(t: Seq<char>, lines: Seq<Seq<char>>, separators: Seq<bool>) -> bool {
    exists|i: int|
        0 <= i < lines.len() && !separators[i] && is_diff_header(lines[i]) && #[trigger] trimmed_from(
            t,
            lines[i],
        )
}

/// Law: the headers of a diff summary are trimmed input lines, none of
/// them a line of table borders.
pub proof fn law_diff_headers_not_borders(
    lines: Seq<Seq<char>>,
    separators: Seq<bool>,
    changes: Seq<Option<(Seq<char>, Seq<char>, Seq<char>)>>,
)
    requires
        lines.len() == separators.len() == changes.len(),
    ensures
        forall|k: int|
            0 <= k < diff_scan(lines, separators, changes).0.len() ==> kept_header_line(
                #[trigger] diff_scan(lines, separators, changes).0[k],
                lines,
                separators,
            ),
    decreases lines.len(),
{
    if lines.len() > 0 {
        let pl = lines.drop_last();
        let ps = separators.drop_last();
        let pc = changes.drop_last();
        law_diff_headers_not_borders(pl, ps, pc);
        let prev = diff_scan(pl, ps, pc).0;
        let cur = diff_scan(lines, separators, changes).0;
        assert forall|k: int| 0 <= k < cur.len() implies kept_header_line(
            #[trigger] cur[k],
            lines,
            separators,
        ) by {
            if k < prev.len() {
                assert(cur[k] == prev[k]);
                assert(kept_header_line(prev[k], pl, ps));
                let i = choose|i: int|
                    0 <= i < pl.len() && !ps[i] && is_diff_header(pl[i]) && #[trigger] trimmed_from(
                        prev[k],
                        pl[i],
                    );
                assert(lines[i] == pl[i] && separators[i] == ps[i]);
                assert(trimmed_from(cur[k], lines[i]));
            } else {
                let i = lines.len() - 1;
                assert(trimmed_from(cur[k], lines[i]));
            }
        }
    }
}

/// Law: the constructs of a diff summary come in strictly increasing order
/// (so each once), each listing exactly its own changes, as (action, type),
/// in the order of the diff; no construct is listed without a change.
pub proof fn law_diff_constructs(
    lines: Seq<Seq<char>>,
    separators: Seq<bool>,
    changes: Seq<Option<(Seq<char>, Seq<char>, Seq<char>)>>,
)
    ensures
        ({
            let es = diff_scan(lines, separators, changes).1;
            &&& keys_increase(grouped(es))
            &&& groups_nonempty(grouped(es))
            &&& forall|c: Seq<char>| #[trigger] group_of(grouped(es), c) == values_of(es, c)
        }),
{
    law_grouped(diff_scan(lines, separators, changes).1);
}

/// Law: once cdk has run, the process exits with the command's failure,
/// and only then: with its exit code, or 1 when it has none; and a
/// successful run whose output the filter cannot summarize prints that
/// output unchanged.
pub proof fn law_cdk_outcome(
    h: CdkHandler,
    out: Seq<char>,
    err: Seq<char>,
    success: bool,
    code: Option<i32>,
)
    ensures
        cdk_outcome(h, out, err, success, code).2 == exit_code_of(success, code),
        cdk_outcome(h, out, err, success, code).2 is None <==> success,
        !success && code is Some ==> cdk_outcome(h, out, err, success, code).2 == code,
        success && h == CdkHandler::Synth && synth_filtered(out) is None ==> cdk_outcome(
            h,
            out,
            err,
            success,
            code,
        ).0 == out,
        success && (h == CdkHandler::Deploy || h == CdkHandler::Destroy) && deploy_filtered(
            out + err,
        ) is None ==> cdk_outcome(h, out, err, success, code).0 == out + err,
        h == CdkHandler::Passthrough ==> cdk_outcome(h, out, err, success, code).0 == out,
{
}

/// The items of `xs` whose mark is not set, in order.
pub open spec fn unmarked<T>(xs: Seq<T>, marks: Seq<bool>) -> Seq<T>
    decreases xs.len(),
{
    if xs.len() == 0 {
        seq![]
    } else if marks.last() {
        unmarked(xs.drop_last(), marks.drop_last())
    } else {
        unmarked(xs.drop_last(), marks.drop_last()).push(xs.last())
    }
}

proof fn lemma_unmarked_len<T, U>(xs: Seq<T>, ys: Seq<U>, marks: Seq<bool>)
    requires
        xs.len() == ys.len() == marks.len(),
    ensures
        unmarked(xs, marks).len() == unmarked(ys, marks).len(),
    decreases xs.len(),
{
    if xs.len() > 0 {
        lemma_unmarked_len(xs.drop_last(), ys.drop_last(), marks.drop_last());
    }
}

proof fn lemma_unmarked_marks_unset(marks: Seq<bool>)
    ensures
        forall|i: int|
            0 <= i < unmarked(marks, marks).len() ==> !#[trigger] unmarked(marks, marks)[i],
    decreases marks.len(),
{
    if marks.len() > 0 {
        let prev = unmarked(marks.drop_last(), marks.drop_last());
        lemma_unmarked_marks_unset(marks.drop_last());
        let cur = unmarked(marks, marks);
        assert forall|i: int| 0 <= i < cur.len() implies !#[trigger] cur[i] by {
            if i < prev.len() {
                assert(cur[i] == prev[i]);
            }
        }
    }
}

/// Law: table-border lines have no effect on a diff summary: reading the
/// diff with the lines marked as borders removed (so no line left is
/// marked) gives the same summary.
pub proof fn law_diff_borders_ignored(
    output: Seq<char>,
    lines: Seq<Seq<char>>,
    separators: Seq<bool>,
    changes: Seq<Option<(Seq<char>, Seq<char>, Seq<char>)>>,
)
    requires
        lines.len() == separators.len() == changes.len(),
    ensures
        diff_summary(output, lines, separators, changes) == diff_summary(
            output,
            unmarked(lines, separators),
            unmarked(separators, separators),
            unmarked(changes, separators),
        ),
        forall|i: int|
            0 <= i < unmarked(separators, separators).len() ==> !#[trigger] unmarked(
                separators,
                separators,
            )[i],
{
    lemma_diff_scan_borders_ignored(lines, separators, changes);
    lemma_unmarked_marks_unset(separators);
}

proof fn lemma_diff_scan_borders_ignored(
    lines: Seq<Seq<char>>,
    separators: Seq<bool>,
    changes: Seq<Option<(Seq<char>, Seq<char>, Seq<char>)>>,
)
    requires
        lines.len() == separators.len() == changes.len(),
    ensures
        diff_scan(lines, separators, changes) == diff_scan(
            unmarked(lines, separators),
            unmarked(separators, separators),
            unmarked(changes, separators),
        ),
    decreases lines.len(),
{
    if lines.len() > 0 {
        let pl = lines.drop_last();
        let ps = separators.drop_last();
        let pc = changes.drop_last();
        lemma_diff_scan_borders_ignored(pl, ps, pc);
        if !separators.last() {
            let fl = unmarked(pl, ps);
            let fs = unmarked(ps, ps);
            let fc = unmarked(pc, ps);
            lemma_unmarked_len(pl, ps, ps);
            lemma_unmarked_len(pl, pc, ps);
            let gl = unmarked(lines, separators);
            let gs = unmarked(separators, separators);
            let gc = unmarked(changes, separators);
            assert(gl == fl.push(lines.last()));
            assert(gs == fs.push(separators.last()));
            assert(gc == fc.push(changes.last()));
            assert(gl.drop_last() =~= fl);
            assert(gs.drop_last() =~= fs);
            assert(gc.drop_last() =~= fc);
        }
    }
}

/// Line `i` of a diff is a resource change (and not a line of borders).
pub open spec fn is_change_line(
    separators: Seq<bool>,
    changes: Seq<Option<(Seq<char>, Seq<char>, Seq<char>)>>,
    i: int,
) -> bool {
    !separators[i] && changes[i] is Some
}

/// The number of the first `n` lines of a diff that are resource changes.
pub open spec fn change_count(
    separators: Seq<bool>,
    changes: Seq<Option<(Seq<char>, Seq<char>, Seq<char>)>>,
    n: int,
) -> nat
    decreases n,
{
    if n <= 0 {
        0
    } else {
        change_count(separators, changes, n - 1) + if is_change_line(separators, changes, n - 1) {
            1nat
        } else {
            0nat
        }
    }
}

proof fn lemma_change_count_monotone(
    separators: Seq<bool>,
    changes: Seq<Option<(Seq<char>, Seq<char>, Seq<char>)>>,
    a: int,
    b: int,
)
    requires
        a <= b,
    ensures
        change_count(separators, changes, a) <= change_count(separators, changes, b),
    decreases b - a,
{
    if a < b {
        lemma_change_count_monotone(separators, changes, a, b - 1);
    }
}

proof fn lemma_diff_entries_prefix(
    lines: Seq<Seq<char>>,
    separators: Seq<bool>,
    changes: Seq<Option<(Seq<char>, Seq<char>, Seq<char>)>>,
    n: int,
)
    requires
        lines.len() == separators.len() == changes.len(),
        0 <= n <= lines.len(),
    ensures
        ({
            let es = diff_scan(lines.take(n), separators.take(n), changes.take(n)).1;
            &&& es.len() == change_count(separators, changes, n)
            &&& forall|i: int|
                0 <= i < n && is_change_line(separators, changes, i) ==> es[change_count(
                    separators,
                    changes,
                    i,
                ) as int] == (before((changes[i]->0).2, '/'), ((changes[i]->0).0, (changes[i]->0).1))
        }),
    decreases n,
{
    if n > 0 {
        lemma_diff_entries_prefix(lines, separators, changes, n - 1);
        assert(lines.take(n).drop_last() =~= lines.take(n - 1));
        assert(separators.take(n).drop_last() =~= separators.take(n - 1));
        assert(changes.take(n).drop_last() =~= changes.take(n - 1));
        assert(separators.take(n).last() == separators[n - 1]);
        assert(changes.take(n).last() == changes[n - 1]);
        let prev = diff_scan(lines.take(n - 1), separators.take(n - 1), changes.take(n - 1)).1;
        let es = diff_scan(lines.take(n), separators.take(n), changes.take(n)).1;
        assert forall|i: int|
            0 <= i < n && is_change_line(separators, changes, i) implies es[change_count(
            separators,
            changes,
            i,
        ) as int] == (before((changes[i]->0).2, '/'), ((changes[i]->0).0, (changes[i]->0).1)) by {
            if i < n - 1 {
                lemma_change_count_monotone(separators, changes, i + 1, n - 1);
                assert(es[change_count(separators, changes, i) as int] == prev[change_count(
                    separators,
                    changes,
                    i,
                ) as int]);
            }
        }
    }
}

/// Law: the changes of a diff are exactly its resource-change lines, in
/// input order, each under the top-level construct of its path (the part
/// of the logical id before the first `/`, at any depth): one entry for
/// each such line, the change of the k-th such line at position k. So no
/// construct of the summary holds a `/`.
pub proof fn law_diff_changes_by_top_construct(
    lines: Seq<Seq<char>>,
    separators: Seq<bool>,
    changes: Seq<Option<(Seq<char>, Seq<char>, Seq<char>)>>,
)
    requires
        lines.len() == separators.len() == changes.len(),
    ensures
        ({
            let es = diff_scan(lines, separators, changes).1;
            &&& es.len() == change_count(separators, changes, lines.len() as int)
            &&& forall|i: int|
                0 <= i < lines.len() && is_change_line(separators, changes, i) ==> es[change_count(
                    separators,
                    changes,
                    i,
                ) as int] == (before((changes[i]->0).2, '/'), ((changes[i]->0).0, (changes[i]->0).1))
            &&& forall|j: int|
                0 <= j < grouped(es).len() ==> !(#[trigger] grouped(es)[j]).0.contains('/')
        }),
{
    let n = lines.len() as int;
    lemma_diff_entries_prefix(lines, separators, changes, n);
    assert(lines.take(n) =~= lines);
    assert(separators.take(n) =~= separators);
    assert(changes.take(n) =~= changes);
    let es = diff_scan(lines, separators, changes).1;
    lemma_grouped_keys_from_entries(es);
    assert forall|j: int| 0 <= j < grouped(es).len() implies !(
    #[trigger] grouped(es)[j]).0.contains('/') by {
        let i = choose|i: int| 0 <= i < es.len() && es[i].0 == grouped(es)[j].0;
        lemma_diff_entry_keys(lines, separators, changes, i);
    }
}

proof fn lemma_diff_entry_keys(
    lines: Seq<Seq<char>>,
    separators: Seq<bool>,
    changes: Seq<Option<(Seq<char>, Seq<char>, Seq<char>)>>,
    i: int,
)
    requires
        lines.len() == separators.len() == changes.len(),
        0 <= i < diff_scan(lines, separators, changes).1.len(),
    ensures
        !diff_scan(lines, separators, changes).1[i].0.contains('/'),
    decreases lines.len(),
{
    let prev = diff_scan(lines.drop_last(), separators.drop_last(), changes.drop_last()).1;
    if i < prev.len() {
        lemma_diff_entry_keys(lines.drop_last(), separators.drop_last(), changes.drop_last(), i);
    } else {
        lemma_before_excludes((changes.last()->0).2, '/');
    }
}

proof fn lemma_deploy_scan_step(lines: Seq<Seq<char>>, marks: Seq<DeployMarks>, n: int)
    requires
        lines.len() == marks.len(),
        0 <= n < lines.len(),
    ensures
        deploy_scan(lines.take(n + 1), marks.take(n + 1)) == deploy_step(
            deploy_scan(lines.take(n), marks.take(n)),
            lines[n],
            marks[n],
        ),
{
    assert(lines.take(n + 1).drop_last() =~= lines.take(n));
    assert(marks.take(n + 1).drop_last() =~= marks.take(n));
}

/// The lines kept after `n` lines stay kept after any later line.
proof fn lemma_deploy_kept_grows(lines: Seq<Seq<char>>, marks: Seq<DeployMarks>, n: int, m: int)
    requires
        lines.len() == marks.len(),
        0 <= n <= m <= lines.len(),
    ensures
        deploy_scan(lines.take(n), marks.take(n)).0 == deploy_scan(
            lines.take(m),
            marks.take(m),
        ).0.take(deploy_scan(lines.take(n), marks.take(n)).0.len() as int),
        deploy_scan(lines.take(n), marks.take(n)).0.len() <= deploy_scan(
            lines.take(m),
            marks.take(m),
        ).0.len(),
    decreases m - n,
{
    if n < m {
        lemma_deploy_kept_grows(lines, marks, n, m - 1);
        lemma_deploy_scan_step(lines, marks, m - 1);
        let a = deploy_scan(lines.take(n), marks.take(n)).0;
        let b = deploy_scan(lines.take(m - 1), marks.take(m - 1)).0;
        let c = deploy_scan(lines.take(m), marks.take(m)).0;
        assert(c.take(b.len() as int) =~= b);
        assert(c.take(a.len() as int) =~= b.take(a.len() as int));
    } else {
        let a = deploy_scan(lines.take(n), marks.take(n)).0;
        assert(a.take(a.len() as int) =~= a);
    }
}

proof fn lemma_deploy_outputs_open(
    lines: Seq<Seq<char>>,
    marks: Seq<DeployMarks>,
    j: int,
    n: int,
)
    requires
        lines.len() == marks.len(),
        0 <= j < n <= lines.len(),
        marks[j].outputs_header,
        !marks[j].progress,
        !marks[j].result,
        !marks[j].stack_arn,
        forall|k: int| j < k < n ==> trim(#[trigger] lines[k]).len() > 0,
    ensures
        deploy_scan(lines.take(n), marks.take(n)).1,
    decreases n - j,
{
    lemma_deploy_scan_step(lines, marks, n - 1);
    if n - 1 > j {
        lemma_deploy_outputs_open(lines, marks, j, n - 1);
        assert(trim(lines[n - 1]).len() > 0);
    }
}

/// Law: in a deployment log, every stack-output line (not a progress line,
/// not empty once trimmed) that follows an `Outputs:` header with no line
/// empty once trimmed in between is in the summary, trimmed: every output
/// of the section is listed, not only the first.
pub proof fn law_deploy_lists_every_output(
    lines: Seq<Seq<char>>,
    marks: Seq<DeployMarks>,
    j: int,
    i: int,
)
    requires
        lines.len() == marks.len(),
        0 <= j < i < lines.len(),
        marks[j].outputs_header,
        !marks[j].progress,
        !marks[j].result,
        !marks[j].stack_arn,
        forall|k: int| j < k < i ==> trim(#[trigger] lines[k]).len() > 0,
        marks[i].output_line,
        !marks[i].progress,
        trim(lines[i]).len() > 0,
    ensures
        deploy_summary(lines, marks) matches Some(s) && has_infix(s, trim(lines[i])),
{
    lemma_deploy_outputs_open(lines, marks, j, i);
    lemma_deploy_scan_step(lines, marks, i);
    lemma_deploy_kept_in_summary(lines, marks, i);
}

/// A line kept when it is read is in the summary.
proof fn lemma_deploy_kept_in_summary(lines: Seq<Seq<char>>, marks: Seq<DeployMarks>, i: int)
    requires
        lines.len() == marks.len(),
        0 <= i < lines.len(),
        deploy_scan(lines.take(i + 1), marks.take(i + 1)).0 == deploy_scan(
            lines.take(i),
            marks.take(i),
        ).0.push(trim(lines[i])),
    ensures
        deploy_summary(lines, marks) matches Some(s) && has_infix(s, trim(lines[i])),
{
    let before_i = deploy_scan(lines.take(i), marks.take(i)).0;
    let after_i = deploy_scan(lines.take(i + 1), marks.take(i + 1)).0;
    let n = lines.len() as int;
    lemma_deploy_kept_grows(lines, marks, i + 1, n);
    assert(lines.take(n) =~= lines);
    assert(marks.take(n) =~= marks);
    let kept = deploy_scan(lines, marks).0;
    assert(kept[before_i.len() as int] == after_i[before_i.len() as int]);
    assert(kept.contains(trim(lines[i])));
    lemma_join_holds_parts(kept, "\n"@, trim(lines[i]));
}

/// Law: every stack-result line (✅, ❌, ✨) and every `Stack ARN:` line of a
/// deployment log that is not a progress line is in the summary, trimmed,
/// wherever it stands.
pub proof fn law_deploy_lists_results(lines: Seq<Seq<char>>, marks: Seq<DeployMarks>, i: int)
    requires
        lines.len() == marks.len(),
        0 <= i < lines.len(),
        !marks[i].progress,
        marks[i].result || marks[i].stack_arn,
    ensures
        deploy_summary(lines, marks) matches Some(s) && has_infix(s, trim(lines[i])),
{
    lemma_deploy_scan_step(lines, marks, i);
    lemma_deploy_kept_in_summary(lines, marks, i);
}

/// Law: after a successful `cdk deploy` or `cdk destroy`, standard output
/// holds every stack-result line of what the command wrote (standard output
/// then standard error), trimmed, unless it is a progress line; and the
/// process exits normally.
pub proof fn law_cdk_deploy_reports_results(
    h: CdkHandler,
    out: Seq<char>,
    err: Seq<char>,
    code: Option<i32>,
    i: int,
)
    requires
        h == CdkHandler::Deploy || h == CdkHandler::Destroy,
        0 <= i < lines(out + err).len(),
        hits(STACK_RESULT@, lines(out + err)[i]),
        !hits(PROGRESS_LINE@, lines(out + err)[i]),
    ensures
        has_infix(cdk_outcome(h, out, err, true, code).0, trim(lines(out + err)[i])),
        cdk_outcome(h, out, err, true, code).2 is None,
{
    let ls = lines(out + err);
    let ms = ls.map_values(|l: Seq<char>| deploy_marks_of(l));
    assert(ms[i] == deploy_marks_of(ls[i]));
    law_deploy_lists_results(ls, ms, i);
    let s = deploy_summary(ls, ms)->0;
    lemma_infix_extend(s, "\n"@, trim(ls[i]));
}

/// Law: every header line of a diff (`Stack ...`, or a `Resources` line
/// without `{`) that is not a line of borders and not a change, and is not
/// empty once trimmed, is listed, trimmed, among the summary's headers.
pub proof fn law_diff_lists_headers(
    lines: Seq<Seq<char>>,
    separators: Seq<bool>,
    changes: Seq<Option<(Seq<char>, Seq<char>, Seq<char>)>>,
    i: int,
)
    requires
        lines.len() == separators.len() == changes.len(),
        0 <= i < lines.len(),
        !separators[i],
        changes[i] is None,
        is_diff_header(lines[i]),
        trim(lines[i]).len() > 0,
    ensures
        diff_scan(lines, separators, changes).0.contains(trim(lines[i])),
    decreases lines.len(),
{
    let pl = lines.drop_last();
    let ps = separators.drop_last();
    let pc = changes.drop_last();
    let prev = diff_scan(pl, ps, pc).0;
    let cur = diff_scan(lines, separators, changes).0;
    if i == lines.len() - 1 {
        assert(cur[cur.len() - 1] == trim(lines[i]));
    } else {
        law_diff_lists_headers(pl, ps, pc, i);
        assert(pl[i] == lines[i]);
        let k = choose|k: int| 0 <= k < prev.len() && prev[k] == trim(lines[i]);
        assert(cur[k] == prev[k]);
    }
}

proof fn lemma_indented_concat(a: Seq<Seq<char>>, b: Seq<Seq<char>>)
    ensures
        indented(a + b) == indented(a) + indented(b),
    decreases b.len(),
{
    if b.len() == 0 {
        assert(a + b =~= a);
        assert(indented(a) + indented(b) =~= indented(a));
    } else {
        lemma_indented_concat(a, b.drop_last());
        assert((a + b).drop_last() =~= a + b.drop_last());
        assert((a + b).last() == b.last());
        assert(indented(a) + indented(b) =~= indented(a) + indented(b.drop_last()) + "  "@
            + b.last() + "\n"@);
    }
}

/// Where warning `k` stands in the indented list.
proof fn lemma_indented_holds(ws: Seq<Seq<char>>, k: int)
    requires
        0 <= k < ws.len(),
    ensures
        occurs_at(indented(ws), "  "@ + ws[k], indented(ws.take(k)).len() as int),
{
    let a = ws.take(k);
    let b = ws.skip(k);
    assert(ws =~= a + b);
    lemma_indented_concat(a, b);
    let b1 = b.take(1);
    let b2 = b.skip(1);
    assert(b =~= b1 + b2);
    lemma_indented_concat(b1, b2);
    assert(b1.drop_last() =~= Seq::<Seq<char>>::empty());
    assert(b1.len() == 1);
    assert(b1.last() == ws[k]);
    assert(indented(b1.drop_last()) == Seq::<char>::empty());
    assert(indented(b1) =~= "  "@ + ws[k] + "\n"@);
    let x = "  "@ + ws[k];
    let whole = indented(a) + (x + "\n"@ + indented(b2));
    assert(indented(ws) == whole) by {
        assert(indented(ws) == indented(a) + indented(b));
        assert(indented(b) == indented(b1) + indented(b2));
        assert(whole =~= indented(a) + (indented(b1) + indented(b2)));
    }
    assert(whole.subrange(indented(a).len() as int, (indented(a).len() + x.len()) as int) =~= x);
}

/// Law: a synthesized template with resources is summarized as
/// `cdk synth: stack — <count> resources`, followed by the first five of
/// its warnings (fewer when there are fewer), each indented by two spaces.
pub proof fn law_synth_summary(count: nat, ws: Seq<Seq<char>>)
    requires
        count > 0,
        forall|k: int| 0 <= k < ws.len() ==> (#[trigger] ws[k]).len() > 0 && !is_space(ws[k].last()),
    ensures
        synth_summary(count, ws) matches Some(s) && has_prefix(
            s,
            "cdk synth: stack — "@ + decimal(count) + " resources"@,
        ),
        forall|k: int|
            0 <= k < ws.len() && k < 5 ==> (synth_summary(count, ws) matches Some(s)
                && has_infix(s, "  "@ + #[trigger] ws[k])),
{
    reveal_strlit(" resources");
    let head = "cdk synth: stack — "@ + decimal(count) + " resources"@;
    let listed = if ws.len() > 5 {
        ws.take(5)
    } else {
        ws
    };
    let full = if ws.len() == 0 {
        head
    } else {
        head + "\n"@ + indented(listed)
    };
    assert(synth_summary(count, ws) == Some(trim_end(full)));
    assert(occurs_at(head, head, 0)) by {
        assert(head.subrange(0, head.len() as int) =~= head);
    }
    assert(head.last() == 's');
    if ws.len() > 0 {
        lemma_occurs_in_concat(head, "\n"@ + indented(listed), head, 0);
        assert(head + "\n"@ + indented(listed) =~= head + ("\n"@ + indented(listed)));
    }
    lemma_trim_end_keeps(full, head, 0);
    assert forall|k: int| 0 <= k < ws.len() && k < 5 implies (synth_summary(count, ws) matches Some(
        s,
    ) && has_infix(s, "  "@ + #[trigger] ws[k])) by {
        assert(listed[k] == ws[k]);
        lemma_indented_holds(listed, k);
        let x = "  "@ + ws[k];
        let off = indented(listed.take(k)).len() as int;
        let pre = head + "\n"@;
        lemma_occurs_in_concat(indented(listed), pre, x, off);
        assert(x.last() == ws[k].last());
        lemma_trim_end_keeps(full, x, off + pre.len());
    }
}

/// The number of the first `n` lines that are warnings once trimmed.
pub open spec fn warning_count(lines: Seq<Seq<char>>, n: int) -> nat
    decreases n,
{
    if n <= 0 {
        0
    } else {
        warning_count(lines, n - 1) + if is_warning(trim(lines[n - 1])) {
            1nat
        } else {
            0nat
        }
    }
}

proof fn lemma_warning_count_monotone(lines: Seq<Seq<char>>, a: int, b: int)
    requires
        a <= b,
    ensures
        warning_count(lines, a) <= warning_count(lines, b),
    decreases b - a,
{
    if a < b {
        lemma_warning_count_monotone(lines, a, b - 1);
    }
}

proof fn lemma_warnings_prefix(lines: Seq<Seq<char>>, n: int)
    requires
        0 <= n <= lines.len(),
    ensures
        warnings(lines.take(n)).len() == warning_count(lines, n),
        forall|i: int|
            0 <= i < n && is_warning(trim(lines[i])) ==> warnings(lines.take(n))[warning_count(
                lines,
                i,
            ) as int] == trim(#[trigger] lines[i]),
    decreases n,
{
    if n > 0 {
        lemma_warnings_prefix(lines, n - 1);
        assert(lines.take(n).drop_last() =~= lines.take(n - 1));
        assert(lines.take(n).last() == lines[n - 1]);
        let prev = warnings(lines.take(n - 1));
        let cur = warnings(lines.take(n));
        assert forall|i: int|
            0 <= i < n && is_warning(trim(lines[i])) implies cur[warning_count(lines, i) as int]
            == trim(#[trigger] lines[i]) by {
            if i < n - 1 {
                lemma_warning_count_monotone(lines, i + 1, n - 1);
                assert(cur[warning_count(lines, i) as int] == prev[warning_count(lines, i) as int]);
            }
        }
    }
}

/// Law: the warnings of a synth output are exactly its lines that are
/// warnings once trimmed (`[Warning]`, `[Error]`, or holding `error`),
/// trimmed, in input order: one for each such line, the k-th such line at
/// position k; none is empty or ends in white space.
pub proof fn law_synth_warnings(lines: Seq<Seq<char>>)
    ensures
        warnings(lines).len() == warning_count(lines, lines.len() as int),
        forall|i: int|
            0 <= i < lines.len() && is_warning(trim(lines[i])) ==> warnings(lines)[warning_count(
                lines,
                i,
            ) as int] == trim(#[trigger] lines[i]),
        forall|k: int|
            0 <= k < warnings(lines).len() ==> (#[trigger] warnings(lines)[k]).len() > 0
                && !is_space(warnings(lines)[k].last()),
    decreases lines.len(),
{
    let n = lines.len() as int;
    lemma_warnings_prefix(lines, n);
    assert(lines.take(n) =~= lines);
    if n > 0 {
        law_synth_warnings(lines.drop_last());
        let prev = warnings(lines.drop_last());
        let cur = warnings(lines);
        let t = trim(lines.last());
        assert forall|k: int| 0 <= k < cur.len() implies (#[trigger] cur[k]).len() > 0 && !is_space(
            cur[k].last(),
        ) by {
            if k < prev.len() {
                assert(cur[k] == prev[k]);
            } else {
                assert(cur[k] == t);
                lemma_warning_trimmed(lines.last());
            }
        }
    }
}

proof fn lemma_warning_trimmed(l: Seq<char>)
    requires
        is_warning(trim(l)),
    ensures
        trim(l).len() > 0,
        !is_space(trim(l).last()),
{
    reveal_strlit("error");
    reveal_strlit("[Error]");
    reveal_strlit("[Warning]");
    let t = trim(l);
    if t.len() == 0 {
        assert(!occurs_at(t, "[Warning]"@, 0));
        assert(!occurs_at(t, "[Error]"@, 0));
        assert(forall|i: int| !occurs_at(t, "error"@, i));
    }
    lemma_trim_bounds(l);
}

} // verus!
