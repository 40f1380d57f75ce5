//! Terraform output, summarized.
//!
//! `terraform plan` becomes its planned changes grouped by module,
//! `terraform apply` its summary and outputs, `terraform destroy` its
//! summary, and `terraform state list` the resource types of each module.

use vstd::prelude::*;
use crate::text::{
    lines, trim, trimmed_from, join, before, has_prefix, str_chars, split_lines, trim_chars,
    join_chars, chars_to_string, push_str, push_chars, same_chars, before_char, copy_range,
    lemma_next_index_bounds, has_infix, lemma_join_holds_parts, lemma_infix_extend,
};
use crate::pattern::{compiled_from, hits, groups, Pattern, pattern_hits, pattern_groups};
use crate::grouping::{
    keys_increase, groups_nonempty, group_of, values_of, law_grouped, law_sorted_set, increasing,
    grouped, sorted_set, insert_grouped, sorted_set_of, contains_text,
};
use crate::command::{
    Invocation, Response, shown, push_shown, error_line, exit_code_of, announcement, invocation,
    error_line_chars, exit_code, response,
};

verus! {

/// A planned change: the resource address and what will happen to it.
pub const RESOURCE_WILL: &'static str =
    r"# (\S+) will be (created|updated in-place|destroyed|replaced)";

/// The summary line of a plan.
pub const PLAN_SUMMARY: &'static str = r"^Plan: \d+ to add";

/// The summary line of an apply.
pub const APPLY_SUMMARY: &'static str = r"^Apply complete!";

/// The summary line of a destroy.
pub const DESTROY_SUMMARY: &'static str = r"^Destroy complete!";

/// The header of the outputs section.
pub const OUTPUTS_SECTION: &'static str = r"^Outputs:";

/// An output value: `name = value`.
pub const OUTPUT_VALUE: &'static str = r"^\S+ = ";

/// The module an address belongs to.
pub const MODULE_PREFIX: &'static str = r"^module\.([^.]+)";

/// The first `n` capture groups that follow the whole match, when all of
/// them took part in it.
pub open spec fn captured(g: Option<Seq<Option<Seq<char>>>>, n: int) -> bool {
    g matches Some(gs) && gs.len() > n && forall|i: int| 1 <= i <= n ==> (#[trigger] gs[i]) is Some
}

/// The module (`module.<name>`) named by the capture groups of
/// `MODULE_PREFIX`; `None` when it did not match.
pub open spec fn module_of(g: Option<Seq<Option<Seq<char>>>>) -> Option<Seq<char>> {
    if captured(g, 1) {
        Some("module."@ + g->0[1]->0)
    } else {
        None
    }
}

/// The module read from capture groups.
pub fn module_from(g: &Option<Vec<Option<Vec<char>>>>) -> (r: Option<Vec<char>>)
    ensures
        r.deep_view() == module_of(g.deep_view()),
{
    match g {
        Some(gs) => {
            if gs.len() >= 2 {
                assert(gs.deep_view()[1] == gs@[1].deep_view());
                match &gs[1] {
                    Some(name) => {
                        let mut m = str_chars("module.");
                        push_chars(&mut m, name.as_slice());
                        assert(name.deep_view() =~= name@);
                        assert(m.deep_view() =~= m@);
                        Some(m)
                    },
                    None => None,
                }
            } else {
                None
            }
        },
        None => None,
    }
}

// ---------------------------------------------------------------------------
// terraform plan
// ---------------------------------------------------------------------------

/// The (address, action) named by the capture groups of `RESOURCE_WILL`.
pub open spec fn will_of(g: Option<Seq<Option<Seq<char>>>>) -> Option<(Seq<char>, Seq<char>)> {
    if captured(g, 2) {
        Some((g->0[1]->0, g->0[2]->0))
    } else {
        None
    }
}

/// The (address, action) read from capture groups.
pub fn will_from(g: &Option<Vec<Option<Vec<char>>>>) -> (r: Option<(Vec<char>, Vec<char>)>)
    ensures
        r.deep_view() == will_of(g.deep_view()),
{
    match g {
        Some(gs) => {
            if gs.len() >= 3 {
                assert(gs.deep_view()[1] == gs@[1].deep_view());
                assert(gs.deep_view()[2] == gs@[2].deep_view());
                match (&gs[1], &gs[2]) {
                    (Some(a), Some(b)) => {
                        let r = (a.clone(), b.clone());
                        assert(r.0.deep_view() =~= a.deep_view());
                        assert(r.1.deep_view() =~= b.deep_view());
                        Some(r)
                    },
                    _ => {
                        assert(!captured(g.deep_view(), 2));
                        None
                    },
                }
            } else {
                None
            }
        },
        None => None,
    }
}

/// The symbol of a planned action.
pub open spec fn symbol(action: Seq<char>) -> Seq<char> {
    if action == "created"@ {
        "[+]"@
    } else if action == "updated in-place"@ {
        "[~]"@
    } else if action == "destroyed"@ {
        "[-]"@
    } else if action == "replaced"@ {
        "[+/-]"@
    } else {
        "[?]"@
    }
}

/// The symbol of a planned action.
pub fn symbol_chars(action: &[char]) -> (r: Vec<char>)
    ensures
        r@ == symbol(action@),
{
    if same_chars(action, str_chars("created").as_slice()) {
        str_chars("[+]")
    } else if same_chars(action, str_chars("updated in-place").as_slice()) {
        str_chars("[~]")
    } else if same_chars(action, str_chars("destroyed").as_slice()) {
        str_chars("[-]")
    } else if same_chars(action, str_chars("replaced").as_slice()) {
        str_chars("[+/-]")
    } else {
        str_chars("[?]")
    }
}

/// One line of a plan read. The state is the root resources and the module
/// resources so far, each resource as (symbol, address), and the summary
/// line (empty until one is seen).
pub open spec fn plan_step(
    st: (Seq<(Seq<char>, Seq<char>)>, Seq<(Seq<char>, (Seq<char>, Seq<char>))>, Seq<char>),
    line: Seq<char>,
    will: Option<(Seq<char>, Seq<char>)>,
    module: Option<Seq<char>>,
    summary: bool,
) -> (Seq<(Seq<char>, Seq<char>)>, Seq<(Seq<char>, (Seq<char>, Seq<char>))>, Seq<char>) {
    match will {
        Some((address, action)) => {
            let item = (symbol(action), address);
            match module {
                Some(m) => (st.0, st.1.push((m, item)), st.2),
                None => (st.0.push(item), st.1, st.2),
            }
        },
        None => if summary {
            (st.0, st.1, trim(line))
        } else {
            st
        },
    }
}

/// The state after reading all of `lines`.
pub open spec fn plan_scan(
    lines: Seq<Seq<char>>,
    wills: Seq<Option<(Seq<char>, Seq<char>)>>,
    modules: Seq<Option<Seq<char>>>,
    summaries: Seq<bool>,
) -> (Seq<(Seq<char>, Seq<char>)>, Seq<(Seq<char>, (Seq<char>, Seq<char>))>, Seq<char>)
    decreases lines.len(),
{
    if lines.len() == 0 {
        (seq![], seq![], seq![])
    } else {
        plan_step(
            plan_scan(
                lines.drop_last(),
                wills.drop_last(),
                modules.drop_last(),
                summaries.drop_last(),
            ),
            lines.last(),
            wills.last(),
            modules.last(),
            summaries.last(),
        )
    }
}

/// A resource line: `  <symbol> <address>`.
pub open spec fn item_line(it: (Seq<char>, Seq<char>)) -> Seq<char> {
    "  "@ + it.0 + " "@ + it.1
}

/// The resource lines of `items`.
pub open spec fn item_lines(items: Seq<(Seq<char>, Seq<char>)>) -> Seq<Seq<char>> {
    items.map_values(|it: (Seq<char>, Seq<char>)| item_line(it))
}

/// `root:` and the root resources, when there are any.
pub open spec fn root_block(root: Seq<(Seq<char>, Seq<char>)>) -> Seq<Seq<char>> {
    if root.len() == 0 {
        seq![]
    } else {
        seq!["root:"@] + item_lines(root)
    }
}

/// For each module in turn, `<module>:` and its resources.
pub open spec fn module_blocks(gs: Seq<(Seq<char>, Seq<(Seq<char>, Seq<char>)>)>) -> Seq<Seq<char>>
    decreases gs.len(),
{
    if gs.len() == 0 {
        seq![]
    } else {
        module_blocks(gs.drop_last()) + seq![gs.last().0 + ":"@] + item_lines(gs.last().1)
    }
}

/// The summary of a plan: root resources, then each module's resources in
/// module order, then the summary line; `None` when there is none of these.
pub open spec fn plan_summary(
    lines: Seq<Seq<char>>,
    wills: Seq<Option<(Seq<char>, Seq<char>)>>,
    modules: Seq<Option<Seq<char>>>,
    summaries: Seq<bool>,
) -> Option<Seq<char>> {
    let (root, mods, sum) = plan_scan(lines, wills, modules, summaries);
    if root.len() == 0 && mods.len() == 0 && sum.len() == 0 {
        None
    } else {
        Some(
            join(
                root_block(root) + module_blocks(grouped(mods)) + if sum.len() > 0 {
                    seq![sum]
                } else {
                    seq![]
                },
                "\n"@,
            ),
        )
    }
}

/// The planned change of a line.
pub open spec fn line_will(l: Seq<char>) -> Option<(Seq<char>, Seq<char>)> {
    will_of(groups(RESOURCE_WILL@, l))
}

/// The module of a line's planned change.
pub open spec fn line_module(l: Seq<char>) -> Option<Seq<char>> {
    match line_will(l) {
        Some((address, _)) => module_of(groups(MODULE_PREFIX@, address)),
        None => None,
    }
}

/// What `filter_plan` makes of `output`.
pub open spec fn plan_filtered(output: Seq<char>) -> Option<Seq<char>> {
    let ls = lines(output);
    plan_summary(
        ls,
        ls.map_values(|l: Seq<char>| line_will(l)),
        ls.map_values(|l: Seq<char>| line_module(l)),
        ls.map_values(|l: Seq<char>| hits(PLAN_SUMMARY@, l)),
    )
}

/// Appends the resource lines of `items` to `out`.
fn push_item_lines(out: &mut Vec<Vec<char>>, items: &Vec<(Vec<char>, Vec<char>)>)
    ensures
        final(out).deep_view() == old(out).deep_view() + item_lines(items.deep_view()),
{
    let ghost o0 = out.deep_view();
    let ghost all = items.deep_view();
    let mut k: usize = 0;
    assert(item_lines(all.take(0)) =~= Seq::<Seq<char>>::empty());
    assert(out.deep_view() =~= o0 + item_lines(all.take(0)));
    while k < items.len()
        invariant
            k <= items.len(),
            all == items.deep_view(),
            out.deep_view() == o0 + item_lines(all.take(k as int)),
        decreases items.len() - k,
    {
        assert(all[k as int] == items@[k as int].deep_view());
        assert(items@[k as int].0.deep_view() =~= items@[k as int].0@);
        assert(items@[k as int].1.deep_view() =~= items@[k as int].1@);
        let mut l = str_chars("  ");
        push_chars(&mut l, items[k].0.as_slice());
        push_str(&mut l, " ");
        push_chars(&mut l, items[k].1.as_slice());
        assert(l@ =~= item_line(all[k as int]));
        let ghost before_push = out.deep_view();
        assert(l.deep_view() =~= l@);
        out.push(l);
        assert(out.deep_view() =~= before_push.push(item_line(all[k as int])));
        assert(item_lines(all.take(k + 1)) =~= item_lines(all.take(k as int)).push(
            item_line(all[k as int]),
        ));
        k = k + 1;
    }
    assert(all.take(items.len() as int) =~= all);
}

/// Appends one line to `out`.
fn push_line(out: &mut Vec<Vec<char>>, l: Vec<char>)
    ensures
        final(out).deep_view() == old(out).deep_view().push(l@),
{
    let ghost o0 = out.deep_view();
    assert(l.deep_view() =~= l@);
    out.push(l);
    assert(out.deep_view() =~= o0.push(l@));
}

/// The summary of a plan whose lines carry the given pattern results.
pub fn summarize_plan(
    lines: &Vec<Vec<char>>,
    wills: &Vec<Option<(Vec<char>, Vec<char>)>>,
    modules: &Vec<Option<Vec<char>>>,
    summaries: &Vec<bool>,
) -> (r: Option<Vec<char>>)
    requires
        lines.len() == wills.len() == modules.len() == summaries.len(),
    ensures
        r.deep_view() == plan_summary(
            lines.deep_view(),
            wills.deep_view(),
            modules.deep_view(),
            summaries@,
        ),
{
    let ghost ls = lines.deep_view();
    let ghost ws = wills.deep_view();
    let ghost ms = modules.deep_view();
    let mut root: Vec<(Vec<char>, Vec<char>)> = Vec::new();
    let mut groups: Vec<(Vec<char>, Vec<(Vec<char>, Vec<char>)>)> = Vec::new();
    let ghost mut mods: Seq<(Seq<char>, (Seq<char>, Seq<char>))> = seq![];
    let mut sum: Vec<char> = Vec::new();
    let mut i: usize = 0;
    assert(ls.take(0) =~= Seq::<Seq<char>>::empty());
    assert(ws.take(0) =~= Seq::<Option<(Seq<char>, Seq<char>)>>::empty());
    assert(ms.take(0) =~= Seq::<Option<Seq<char>>>::empty());
    assert(summaries@.take(0) =~= Seq::<bool>::empty());
    assert(root.deep_view() =~= Seq::<(Seq<char>, Seq<char>)>::empty());
    assert(groups.deep_view() =~= Seq::<(Seq<char>, Seq<(Seq<char>, Seq<char>)>)>::empty());
    while i < lines.len()
        invariant
            i <= lines.len() == wills.len() == modules.len() == summaries.len(),
            ls == lines.deep_view(),
            ws == wills.deep_view(),
            ms == modules.deep_view(),
            (root.deep_view(), mods, sum@) == plan_scan(
                ls.take(i as int),
                ws.take(i as int),
                ms.take(i as int),
                summaries@.take(i as int),
            ),
            groups.deep_view() == grouped(mods),
        decreases lines.len() - i,
    {
        assert(ls.take(i + 1).drop_last() =~= ls.take(i as int));
        assert(ws.take(i + 1).drop_last() =~= ws.take(i as int));
        assert(ms.take(i + 1).drop_last() =~= ms.take(i as int));
        assert(summaries@.take(i + 1).drop_last() =~= summaries@.take(i as int));
        assert(ls[i as int] == lines[i as int]@);
        assert(ws[i as int] == wills@[i as int].deep_view());
        assert(ms[i as int] == modules@[i as int].deep_view());
        if let Some((address, action)) = &wills[i] {
            assert(address.deep_view() =~= address@);
            assert(action.deep_view() =~= action@);
            let item = (symbol_chars(action.as_slice()), address.clone());
            assert(item.0.deep_view() =~= item.0@);
            assert(item.1.deep_view() =~= item.1@);
            match &modules[i] {
                Some(m) => {
                    assert(m.deep_view() =~= m@);
                    let ghost m0 = mods;
                    let ghost e = (m@, item.deep_view());
                    insert_grouped(&mut groups, m.clone(), item);
                    proof {
                        mods = mods.push(e);
                        assert(mods.drop_last() =~= m0);
                    }
                },
                None => {
                    let ghost r0 = root.deep_view();
                    let ghost iv = item.deep_view();
                    root.push(item);
                    assert(root.deep_view() =~= r0.push(iv));
                },
            }
        } else if summaries[i] {
            sum = trim_chars(lines[i].as_slice());
        }
        i = i + 1;
    }
    assert(ls.take(lines.len() as int) =~= ls);
    assert(ws.take(lines.len() as int) =~= ws);
    assert(ms.take(lines.len() as int) =~= ms);
    assert(summaries@.take(lines.len() as int) =~= summaries@);
    if root.len() == 0 && groups.len() == 0 && sum.len() == 0 {
        assert(mods.len() == 0) by {
            if mods.len() > 0 {
                crate::grouping::lemma_grouped_nonempty(mods);
            }
        }
        return None;
    }
    proof {
        if mods.len() == 0 {
            assert(groups.len() == 0);
        }
    }
    let mut out: Vec<Vec<char>> = Vec::new();
    if root.len() > 0 {
        push_line(&mut out, str_chars("root:"));
        push_item_lines(&mut out, &root);
        assert(out.deep_view() =~= root_block(root.deep_view()));
    } else {
        assert(out.deep_view() =~= root_block(root.deep_view()));
    }
    let ghost rb = out.deep_view();
    let ghost gs = groups.deep_view();
    let mut j: usize = 0;
    assert(gs.take(0) =~= Seq::<(Seq<char>, Seq<(Seq<char>, Seq<char>)>)>::empty());
    assert(out.deep_view() =~= rb + module_blocks(gs.take(0)));
    while j < groups.len()
        invariant
            j <= groups.len(),
            gs == groups.deep_view(),
            out.deep_view() == rb + module_blocks(gs.take(j as int)),
        decreases groups.len() - j,
    {
        assert(gs[j as int] == groups@[j as int].deep_view());
        assert(groups@[j as int].0.deep_view() =~= groups@[j as int].0@);
        assert(gs.take(j + 1).drop_last() =~= gs.take(j as int));
        let mut head = groups[j].0.clone();
        push_str(&mut head, ":");
        push_line(&mut out, head);
        push_item_lines(&mut out, &groups[j].1);
        j = j + 1;
        assert(out.deep_view() =~= rb + module_blocks(gs.take(j as int)));
    }
    assert(gs.take(groups.len() as int) =~= gs);
    if sum.len() > 0 {
        let ghost o0 = out.deep_view();
        push_line(&mut out, sum);
        assert(out.deep_view() =~= o0 + seq![sum@]);
    } else {
        assert(out.deep_view() + Seq::<Seq<char>>::empty() =~= out.deep_view());
    }
    Some(join_chars(&out, "\n"))
}

/// Summarizes `terraform plan` output: the planned changes as
/// `<symbol> <address>` (`[+]` created, `[~]` updated in place, `[-]`
/// destroyed, `[+/-]` replaced), root resources first, then each module's in
/// module order, then the `Plan:` line; `None` when there is none of these.
pub fn filter_plan(output: &str) -> (r: Option<String>)
    ensures
        r.deep_view() == plan_filtered(output@),
{
    let will_p = Pattern::compile(RESOURCE_WILL);
    let module_p = Pattern::compile(MODULE_PREFIX);
    let summary_p = Pattern::compile(PLAN_SUMMARY);
    let cs = str_chars(output);
    let ls = split_lines(cs.as_slice());
    let mut wills: Vec<Option<(Vec<char>, Vec<char>)>> = Vec::new();
    let mut modules: Vec<Option<Vec<char>>> = Vec::new();
    let mut summaries: Vec<bool> = Vec::new();
    let mut i: usize = 0;
    while i < ls.len()
        invariant
            compiled_from(will_p, RESOURCE_WILL@),
            compiled_from(module_p, MODULE_PREFIX@),
            compiled_from(summary_p, PLAN_SUMMARY@),
            i <= ls.len(),
            ls.deep_view() == lines(output@),
            wills.len() == i,
            modules.len() == i,
            summaries.len() == i,
            forall|j: int|
                0 <= j < i ==> wills@[j].deep_view() == line_will(#[trigger] ls.deep_view()[j]),
            forall|j: int|
                0 <= j < i ==> modules@[j].deep_view() == line_module(#[trigger] ls.deep_view()[j]),
            forall|j: int|
                0 <= j < i ==> summaries@[j] == hits(PLAN_SUMMARY@, #[trigger] ls.deep_view()[j]),
        decreases ls.len() - i,
    {
        assert(ls.deep_view()[i as int] == ls[i as int]@);
        let line = ls[i].as_slice();
        let w = will_from(&pattern_groups(&will_p, line));
        let m = match &w {
            Some((address, _)) => {
                assert(address.deep_view() =~= address@);
                module_from(&pattern_groups(&module_p, address.as_slice()))
            },
            None => None,
        };
        wills.push(w);
        modules.push(m);
        summaries.push(pattern_hits(&summary_p, line));
        i = i + 1;
    }
    assert(wills.deep_view() =~= ls.deep_view().map_values(|l: Seq<char>| line_will(l)));
    assert(modules.deep_view() =~= ls.deep_view().map_values(|l: Seq<char>| line_module(l)));
    assert(summaries@ =~= ls.deep_view().map_values(|l: Seq<char>| hits(PLAN_SUMMARY@, l)));
    match summarize_plan(&ls, &wills, &modules, &summaries) {
        Some(v) => Some(chars_to_string(v.as_slice())),
        None => None,
    }
}

// ---------------------------------------------------------------------------
// terraform apply
// ---------------------------------------------------------------------------

/// What the patterns of an apply log say of one line.
#[derive(Clone, Copy)]
pub struct ApplyMarks {
    /// The line starts with `Apply complete!`.
    pub summary: bool,
    /// The trimmed line starts with `Outputs:`.
    pub outputs_header: bool,
    /// The trimmed line is an output value.
    pub output_value: bool,
}

/// The marks of `line`, as the patterns decide them.
pub open spec fn apply_marks_of(line: Seq<char>) -> ApplyMarks {
    ApplyMarks {
        summary: hits(APPLY_SUMMARY@, line),
        outputs_header: hits(OUTPUTS_SECTION@, trim(line)),
        output_value: hits(OUTPUT_VALUE@, trim(line)),
    }
}

/// One line of an apply log read. The state is the trimmed lines kept,
/// whether the outputs section is open, and whether a value was seen in it.
pub open spec fn apply_step(st: (Seq<Seq<char>>, bool, bool), line: Seq<char>, m: ApplyMarks) -> (
    Seq<Seq<char>>,
    bool,
    bool,
) {
    let t = trim(line);
    if m.summary {
        (st.0.push(t), st.1, st.2)
    } else if m.outputs_header {
        (st.0.push(t), true, false)
    } else if st.1 {
        if t.len() == 0 {
            if st.2 {
                (st.0, false, st.2)
            } else {
                st
            }
        } else if m.output_value {
            (st.0.push(t), st.1, true)
        } else {
            st
        }
    } else {
        st
    }
}

/// The state after reading all of `lines`.
pub open spec fn apply_scan(lines: Seq<Seq<char>>, marks: Seq<ApplyMarks>) -> (
    Seq<Seq<char>>,
    bool,
    bool,
)
    decreases lines.len(),
{
    if lines.len() == 0 {
        (seq![], false, false)
    } else {
        apply_step(apply_scan(lines.drop_last(), marks.drop_last()), lines.last(), marks.last())
    }
}

/// The summary of an apply log: the kept lines joined by newlines; `None`
/// when none was kept.
pub open spec fn apply_summary(lines: Seq<Seq<char>>, marks: Seq<ApplyMarks>) -> Option<Seq<char>> {
    let kept = apply_scan(lines, marks).0;
    if kept.len() == 0 {
        None
    } else {
        Some(join(kept, "\n"@))
    }
}

/// What `filter_apply` makes of `output`.
pub open spec fn apply_filtered(output: Seq<char>) -> Option<Seq<char>> {
    let ls = lines(output);
    apply_summary(ls, ls.map_values(|l: Seq<char>| apply_marks_of(l)))
}

/// The summary of an apply log whose lines carry the given marks.
pub fn summarize_apply(lines: &Vec<Vec<char>>, marks: &Vec<ApplyMarks>) -> (r: Option<Vec<char>>)
    requires
        lines.len() == marks.len(),
    ensures
        r.deep_view() == apply_summary(lines.deep_view(), marks@),
{
    let ghost ls = lines.deep_view();
    let mut kept: Vec<Vec<char>> = Vec::new();
    let mut in_outputs = false;
    let mut saw_value = false;
    let mut i: usize = 0;
    assert(ls.take(0) =~= Seq::<Seq<char>>::empty());
    assert(marks@.take(0) =~= Seq::<ApplyMarks>::empty());
    assert(kept.deep_view() =~= Seq::<Seq<char>>::empty());
    while i < lines.len()
        invariant
            i <= lines.len() == marks.len(),
            ls == lines.deep_view(),
            (kept.deep_view(), in_outputs, saw_value) == apply_scan(
                ls.take(i as int),
                marks@.take(i as int),
            ),
        decreases lines.len() - i,
    {
        assert(ls.take(i + 1).drop_last() =~= ls.take(i as int));
        assert(marks@.take(i + 1).drop_last() =~= marks@.take(i as int));
        assert(ls[i as int] == lines[i as int]@);
        let m = marks[i];
        let t = trim_chars(lines[i].as_slice());
        let ghost k0 = kept.deep_view();
        assert(t.deep_view() =~= t@);
        if m.summary {
            kept.push(t);
            assert(kept.deep_view() =~= k0.push(t@));
        } else if m.outputs_header {
            kept.push(t);
            assert(kept.deep_view() =~= k0.push(t@));
            in_outputs = true;
            saw_value = false;
        } else if in_outputs {
            if t.len() == 0 {
                if saw_value {
                    in_outputs = false;
                }
            } else if m.output_value {
                kept.push(t);
                assert(kept.deep_view() =~= k0.push(t@));
                saw_value = true;
            }
        }
        i = i + 1;
    }
    assert(ls.take(lines.len() as int) =~= ls);
    assert(marks@.take(lines.len() as int) =~= marks@);
    if kept.len() == 0 {
        None
    } else {
        Some(join_chars(&kept, "\n"))
    }
}

/// Summarizes `terraform apply` output: the `Apply complete!` line and the
/// `Outputs:` section (its values, up to the first blank line after one),
/// each trimmed; `None` when neither is there.
pub fn filter_apply(output: &str) -> (r: Option<String>)
    ensures
        r.deep_view() == apply_filtered(output@),
{
    let summary_p = Pattern::compile(APPLY_SUMMARY);
    let outputs_p = Pattern::compile(OUTPUTS_SECTION);
    let value_p = Pattern::compile(OUTPUT_VALUE);
    let cs = str_chars(output);
    let ls = split_lines(cs.as_slice());
    let mut marks: Vec<ApplyMarks> = Vec::new();
    let mut i: usize = 0;
    while i < ls.len()
        invariant
            compiled_from(summary_p, APPLY_SUMMARY@),
            compiled_from(outputs_p, OUTPUTS_SECTION@),
            compiled_from(value_p, OUTPUT_VALUE@),
            i <= ls.len(),
            ls.deep_view() == lines(output@),
            marks.len() == i,
            forall|j: int| 0 <= j < i ==> marks@[j] == apply_marks_of(#[trigger] ls.deep_view()[j]),
        decreases ls.len() - i,
    {
        assert(ls.deep_view()[i as int] == ls[i as int]@);
        let line = ls[i].as_slice();
        let t = trim_chars(line);
        marks.push(
            ApplyMarks {
                summary: pattern_hits(&summary_p, line),
                outputs_header: pattern_hits(&outputs_p, t.as_slice()),
                output_value: pattern_hits(&value_p, t.as_slice()),
            },
        );
        i = i + 1;
    }
    assert(marks@ =~= ls.deep_view().map_values(|l: Seq<char>| apply_marks_of(l)));
    match summarize_apply(&ls, &marks) {
        Some(v) => Some(chars_to_string(v.as_slice())),
        None => None,
    }
}

// ---------------------------------------------------------------------------
// terraform destroy
// ---------------------------------------------------------------------------

/// The trimmed lines of `lines` marked to be kept, in order.
pub open spec fn kept_lines(lines: Seq<Seq<char>>, keep: Seq<bool>) -> Seq<Seq<char>>
    decreases lines.len(),
{
    if lines.len() == 0 {
        seq![]
    } else {
        let k = kept_lines(lines.drop_last(), keep.drop_last());
        if keep.last() {
            k.push(trim(lines.last()))
        } else {
            k
        }
    }
}

/// The summary of a destroy log: the kept lines joined by newlines; `None`
/// when none was kept.
pub open spec fn destroy_summary(lines: Seq<Seq<char>>, keep: Seq<bool>) -> Option<Seq<char>> {
    let kept = kept_lines(lines, keep);
    if kept.len() == 0 {
        None
    } else {
        Some(join(kept, "\n"@))
    }
}

/// A line of a destroy log worth keeping: a `Destroy complete!` or a `Plan:` line.
pub open spec fn destroy_keeps(l: Seq<char>) -> bool {
    hits(DESTROY_SUMMARY@, l) || hits(PLAN_SUMMARY@, l)
}

/// What `filter_destroy` makes of `output`.
pub open spec fn destroy_filtered(output: Seq<char>) -> Option<Seq<char>> {
    let ls = lines(output);
    destroy_summary(ls, ls.map_values(|l: Seq<char>| destroy_keeps(l)))
}

/// The summary of a destroy log whose lines are marked to be kept or not.
pub fn summarize_destroy(lines: &Vec<Vec<char>>, keep: &Vec<bool>) -> (r: Option<Vec<char>>)
    requires
        lines.len() == keep.len(),
    ensures
        r.deep_view() == destroy_summary(lines.deep_view(), keep@),
{
    let ghost ls = lines.deep_view();
    let mut kept: Vec<Vec<char>> = Vec::new();
    let mut i: usize = 0;
    assert(ls.take(0) =~= Seq::<Seq<char>>::empty());
    assert(keep@.take(0) =~= Seq::<bool>::empty());
    assert(kept.deep_view() =~= Seq::<Seq<char>>::empty());
    while i < lines.len()
        invariant
            i <= lines.len() == keep.len(),
            ls == lines.deep_view(),
            kept.deep_view() == kept_lines(ls.take(i as int), keep@.take(i as int)),
        decreases lines.len() - i,
    {
        assert(ls.take(i + 1).drop_last() =~= ls.take(i as int));
        assert(keep@.take(i + 1).drop_last() =~= keep@.take(i as int));
        assert(ls[i as int] == lines[i as int]@);
        if keep[i] {
            let t = trim_chars(lines[i].as_slice());
            let ghost k0 = kept.deep_view();
            assert(t.deep_view() =~= t@);
            kept.push(t);
            assert(kept.deep_view() =~= k0.push(t@));
        }
        i = i + 1;
    }
    assert(ls.take(lines.len() as int) =~= ls);
    assert(keep@.take(lines.len() as int) =~= keep@);
    if kept.len() == 0 {
        None
    } else {
        Some(join_chars(&kept, "\n"))
    }
}

/// Summarizes `terraform destroy` output: its `Destroy complete!` and
/// `Plan:` lines, trimmed; `None` when there is neither.
pub fn filter_destroy(output: &str) -> (r: Option<String>)
    ensures
        r.deep_view() == destroy_filtered(output@),
{
    let destroy_p = Pattern::compile(DESTROY_SUMMARY);
    let plan_p = Pattern::compile(PLAN_SUMMARY);
    let cs = str_chars(output);
    let ls = split_lines(cs.as_slice());
    let mut keep: Vec<bool> = Vec::new();
    let mut i: usize = 0;
    while i < ls.len()
        invariant
            compiled_from(destroy_p, DESTROY_SUMMARY@),
            compiled_from(plan_p, PLAN_SUMMARY@),
            i <= ls.len(),
            ls.deep_view() == lines(output@),
            keep.len() == i,
            forall|j: int| 0 <= j < i ==> keep@[j] == destroy_keeps(#[trigger] ls.deep_view()[j]),
        decreases ls.len() - i,
    {
        assert(ls.deep_view()[i as int] == ls[i as int]@);
        let line = ls[i].as_slice();
        let k = pattern_hits(&destroy_p, line) || pattern_hits(&plan_p, line);
        keep.push(k);
        i = i + 1;
    }
    assert(keep@ =~= ls.deep_view().map_values(|l: Seq<char>| destroy_keeps(l)));
    match summarize_destroy(&ls, &keep) {
        Some(v) => Some(chars_to_string(v.as_slice())),
        None => None,
    }
}

// ---------------------------------------------------------------------------
// terraform state list
// ---------------------------------------------------------------------------

/// A trimmed state-list line that is a module address and nothing more
/// (`module.<name>`, no `.` after the name). Such a line names no resource:
/// nothing follows the module for a type to be read from, and the state-list
/// summary is not defined on an output that holds one.
pub open spec fn bare_module_line(t: Seq<char>) -> bool {
    has_prefix(t, "module."@) && t.len() > 7 && !t.skip(7).contains('.')
}

/// Some line of `output` is a bare module address.
pub open spec fn has_bare_module(output: Seq<char>) -> bool {
    exists|i: int| 0 <= i < lines(output).len() && bare_module_line(trim(#[trigger] lines(output)[i]))
}

/// One line of a state list read. The state is the root resource types, each
/// once in the order first seen, and the module resources as (module, type).
pub open spec fn state_step(
    st: (Seq<Seq<char>>, Seq<(Seq<char>, Seq<char>)>),
    line: Seq<char>,
    module: Option<Seq<char>>,
) -> (Seq<Seq<char>>, Seq<(Seq<char>, Seq<char>)>) {
    let t = trim(line);
    if t.len() == 0 {
        st
    } else {
        match module {
            Some(m) => {
                let rest = if m.len() + 1 <= t.len() {
                    t.skip(m.len() + 1int)
                } else {
                    seq![]
                };
                (st.0, st.1.push((m, before(rest, '.'))))
            },
            None => {
                let ty = before(t, '.');
                if st.0.contains(ty) {
                    st
                } else {
                    (st.0.push(ty), st.1)
                }
            },
        }
    }
}

/// The state after reading all of `lines`.
pub open spec fn state_scan(lines: Seq<Seq<char>>, modules: Seq<Option<Seq<char>>>) -> (
    Seq<Seq<char>>,
    Seq<(Seq<char>, Seq<char>)>,
)
    decreases lines.len(),
{
    if lines.len() == 0 {
        (seq![], seq![])
    } else {
        state_step(state_scan(lines.drop_last(), modules.drop_last()), lines.last(), modules.last())
    }
}

/// `<module>: <types, sorted, each once, joined by ", ">`.
pub open spec fn module_types_line(g: (Seq<char>, Seq<Seq<char>>)) -> Seq<char> {
    g.0 + ": "@ + join(sorted_set(g.1), ", "@)
}

/// The summary of a state list: `root: <types>` when there are root
/// resources, then one line per module in module order; `None` when there is
/// no resource.
pub open spec fn state_summary(lines: Seq<Seq<char>>, modules: Seq<Option<Seq<char>>>) -> Option<
    Seq<char>,
> {
    let (root, mods) = state_scan(lines, modules);
    if root.len() == 0 && mods.len() == 0 {
        None
    } else {
        Some(
            join(
                (if root.len() > 0 {
                    seq!["root: "@ + join(root, ", "@)]
                } else {
                    seq![]
                }) + grouped(mods).map_values(
                    |g: (Seq<char>, Seq<Seq<char>>)| module_types_line(g),
                ),
                "\n"@,
            ),
        )
    }
}

/// The module of a trimmed state-list line.
pub open spec fn state_line_module(l: Seq<char>) -> Option<Seq<char>> {
    module_of(groups(MODULE_PREFIX@, trim(l)))
}

/// What `filter_state_list` makes of `output`.
pub open spec fn state_list_filtered(output: Seq<char>) -> Option<Seq<char>> {
    let ls = lines(output);
    state_summary(ls, ls.map_values(|l: Seq<char>| state_line_module(l)))
}

/// Whether some line of `output` is a bare module address, on which
/// `filter_state_list` is not defined.
pub fn has_bare_module_line(output: &str) -> (r: bool)
    ensures
        r == has_bare_module(output@),
{
    let cs = str_chars(output);
    let ls = split_lines(cs.as_slice());
    let mut i: usize = 0;
    while i < ls.len()
        invariant
            i <= ls.len(),
            ls.deep_view() == lines(output@),
            forall|j: int| 0 <= j < i ==> !bare_module_line(trim(#[trigger] ls.deep_view()[j])),
        decreases ls.len() - i,
    {
        assert(ls.deep_view()[i as int] == ls[i as int]@);
        let t = trim_chars(ls[i].as_slice());
        if crate::text::starts_with_str(t.as_slice(), "module.") && t.len() > 7 {
            let rest = copy_range(t.as_slice(), 7, t.len());
            assert(rest@ =~= t@.skip(7));
            if !crate::text::has_char(rest.as_slice(), '.') {
                return true;
            }
        }
        i = i + 1;
    }
    false
}

/// Appends `<module>: <types>` for one module group.
fn module_types_chars(g: &(Vec<char>, Vec<Vec<char>>)) -> (r: Vec<char>)
    ensures
        r@ == module_types_line(g.deep_view()),
{
    let mut r = g.0.clone();
    push_str(&mut r, ": ");
    let set = sorted_set_of(&g.1);
    let joined = join_chars(&set, ", ");
    push_chars(&mut r, joined.as_slice());
    assert(g.0.deep_view() =~= g.0@);
    r
}

/// The summary of a state list whose lines carry the given modules.
pub fn summarize_state_list(lines: &Vec<Vec<char>>, modules: &Vec<Option<Vec<char>>>) -> (r:
    Option<Vec<char>>)
    requires
        lines.len() == modules.len(),
    ensures
        r.deep_view() == state_summary(lines.deep_view(), modules.deep_view()),
{
    let ghost ls = lines.deep_view();
    let ghost ms = modules.deep_view();
    let mut root: Vec<Vec<char>> = Vec::new();
    let mut groups: Vec<(Vec<char>, Vec<Vec<char>>)> = Vec::new();
    let ghost mut mods: Seq<(Seq<char>, Seq<char>)> = seq![];
    let mut i: usize = 0;
    assert(ls.take(0) =~= Seq::<Seq<char>>::empty());
    assert(ms.take(0) =~= Seq::<Option<Seq<char>>>::empty());
    assert(root.deep_view() =~= Seq::<Seq<char>>::empty());
    assert(groups.deep_view() =~= Seq::<(Seq<char>, Seq<Seq<char>>)>::empty());
    while i < lines.len()
        invariant
            i <= lines.len() == modules.len(),
            ls == lines.deep_view(),
            ms == modules.deep_view(),
            (root.deep_view(), mods) == state_scan(ls.take(i as int), ms.take(i as int)),
            groups.deep_view() == grouped(mods),
        decreases lines.len() - i,
    {
        assert(ls.take(i + 1).drop_last() =~= ls.take(i as int));
        assert(ms.take(i + 1).drop_last() =~= ms.take(i as int));
        assert(ls[i as int] == lines[i as int]@);
        assert(ms[i as int] == modules@[i as int].deep_view());
        let t = trim_chars(lines[i].as_slice());
        if t.len() > 0 {
            match &modules[i] {
                Some(m) => {
                    assert(m.deep_view() =~= m@);
                    let rest = if m.len() < t.len() {
                        copy_range(t.as_slice(), m.len() + 1, t.len())
                    } else {
                        Vec::new()
                    };
                    assert(rest@ =~= (if m@.len() + 1 <= t@.len() {
                        t@.skip(m@.len() + 1int)
                    } else {
                        seq![]
                    }));
                    let ty = before_char(rest.as_slice(), '.');
                    assert(ty.deep_view() =~= ty@);
                    let ghost m0 = mods;
                    let ghost e = (m@, ty@);
                    insert_grouped(&mut groups, m.clone(), ty);
                    proof {
                        mods = mods.push(e);
                        assert(mods.drop_last() =~= m0);
                    }
                },
                None => {
                    let ty = before_char(t.as_slice(), '.');
                    if !contains_text(&root, ty.as_slice()) {
                        let ghost r0 = root.deep_view();
                        assert(ty.deep_view() =~= ty@);
                        root.push(ty);
                        assert(root.deep_view() =~= r0.push(ty@));
                    }
                },
            }
        }
        i = i + 1;
    }
    assert(ls.take(lines.len() as int) =~= ls);
    assert(ms.take(lines.len() as int) =~= ms);
    if root.len() == 0 && groups.len() == 0 {
        assert(mods.len() == 0) by {
            if mods.len() > 0 {
                crate::grouping::lemma_grouped_nonempty(mods);
            }
        }
        return None;
    }
    proof {
        if mods.len() == 0 {
            assert(groups.len() == 0);
        }
    }
    let mut out: Vec<Vec<char>> = Vec::new();
    if root.len() > 0 {
        let mut l = str_chars("root: ");
        let joined = join_chars(&root, ", ");
        push_chars(&mut l, joined.as_slice());
        push_line(&mut out, l);
    }
    let ghost head = out.deep_view();
    let ghost gs = groups.deep_view();
    let ghost gl = gs.map_values(|g: (Seq<char>, Seq<Seq<char>>)| module_types_line(g));
    let mut j: usize = 0;
    assert(gl.take(0) =~= Seq::<Seq<char>>::empty());
    assert(out.deep_view() =~= head + gl.take(0));
    while j < groups.len()
        invariant
            j <= groups.len(),
            gs == groups.deep_view(),
            gl == gs.map_values(|g: (Seq<char>, Seq<Seq<char>>)| module_types_line(g)),
            out.deep_view() == head + gl.take(j as int),
        decreases groups.len() - j,
    {
        assert(gs[j as int] == groups@[j as int].deep_view());
        let l = module_types_chars(&groups[j]);
        push_line(&mut out, l);
        assert(gl.take(j + 1) =~= gl.take(j as int).push(gl[j as int]));
        j = j + 1;
    }
    assert(gl.take(groups.len() as int) =~= gl);
    Some(join_chars(&out, "\n"))
}

/// Summarizes `terraform state list` output: the resource types (the
/// address without its instance name), `root: <types>` for root resources
/// in the order first seen, then `<module>: <types>` for each module in
/// module order with its types sorted; each type once. `None` when there is
/// no resource. Not defined on a line that is a bare module address.
pub fn filter_state_list(output: &str) -> (r: Option<String>)
    requires
        !has_bare_module(output@),
    ensures
        r.deep_view() == state_list_filtered(output@),
{
    let module_p = Pattern::compile(MODULE_PREFIX);
    let cs = str_chars(output);
    let ls = split_lines(cs.as_slice());
    let mut modules: Vec<Option<Vec<char>>> = Vec::new();
    let mut i: usize = 0;
    while i < ls.len()
        invariant
            compiled_from(module_p, MODULE_PREFIX@),
            i <= ls.len(),
            ls.deep_view() == lines(output@),
            modules.len() == i,
            forall|j: int|
                0 <= j < i ==> modules@[j].deep_view() == state_line_module(
                    #[trigger] ls.deep_view()[j],
                ),
        decreases ls.len() - i,
    {
        assert(ls.deep_view()[i as int] == ls[i as int]@);
        let t = trim_chars(ls[i].as_slice());
        modules.push(module_from(&pattern_groups(&module_p, t.as_slice())));
        i = i + 1;
    }
    assert(modules.deep_view() =~= ls.deep_view().map_values(
        |l: Seq<char>| state_line_module(l),
    ));
    match summarize_state_list(&ls, &modules) {
        Some(v) => Some(chars_to_string(v.as_slice())),
        None => None,
    }
}

// ---------------------------------------------------------------------------
// Running terraform
// ---------------------------------------------------------------------------

/// How the output of a terraform subcommand is handled.
#[derive(Clone, Copy, PartialEq, Eq, Structural)]
pub enum TerraformHandler {
    Plan,
    Apply,
    Destroy,
    /// `state list`.
    StateList,
    /// `state` with any other subcommand, printed as it comes.
    State,
    /// Printed as it comes (`output`, `init`, `fmt`, `validate` and every
    /// other subcommand).
    Passthrough,
}

/// The handler of `subcommand`, whose arguments are `args`.
pub open spec fn terraform_handler_of(sub: Seq<char>, args: Seq<Seq<char>>) -> TerraformHandler {
    if sub == "plan"@ {
        TerraformHandler::Plan
    } else if sub == "apply"@ {
        TerraformHandler::Apply
    } else if sub == "destroy"@ {
        TerraformHandler::Destroy
    } else if sub == "state"@ {
        if args.len() > 0 && args[0] == "list"@ {
            TerraformHandler::StateList
        } else {
            TerraformHandler::State
        }
    } else {
        TerraformHandler::Passthrough
    }
}

/// Starts `terraform subcommand args...`: the handler for its output, and
/// the command to run (announced on standard error when `verbose > 0`).
pub fn run(subcommand: &str, args: &[String], verbose: u8) -> (r: (TerraformHandler, Invocation))
    ensures
        r.0 == terraform_handler_of(subcommand@, args.deep_view()),
        r.1.program@ == "terraform"@,
        r.1.args.deep_view() == seq![subcommand@] + args.deep_view(),
        r.1.announce.deep_view() == (if verbose > 0 {
            Some(announcement("terraform"@, subcommand@, args.deep_view()))
        } else {
            None
        }),
{
    let sub = str_chars(subcommand);
    let handler = if same_chars(sub.as_slice(), str_chars("plan").as_slice()) {
        TerraformHandler::Plan
    } else if same_chars(sub.as_slice(), str_chars("apply").as_slice()) {
        TerraformHandler::Apply
    } else if same_chars(sub.as_slice(), str_chars("destroy").as_slice()) {
        TerraformHandler::Destroy
    } else if same_chars(sub.as_slice(), str_chars("state").as_slice()) {
        if args.len() > 0 && same_chars(
            str_chars(args[0].as_str()).as_slice(),
            str_chars("list").as_slice(),
        ) {
            assert(args.deep_view()[0] == args@[0]@);
            TerraformHandler::StateList
        } else {
            proof {
                if args.len() > 0 {
                    assert(args.deep_view()[0] == args@[0]@);
                }
            }
            TerraformHandler::State
        }
    } else {
        TerraformHandler::Passthrough
    };
    (handler, invocation("terraform", subcommand, args, verbose))
}

/// What to print (standard output, standard error) and exit with once
/// `terraform` has run with handler `h`, given what it wrote and how it ended.
pub open spec fn terraform_outcome(
    h: TerraformHandler,
    out: Seq<char>,
    err: Seq<char>,
    success: bool,
    code: Option<i32>,
) -> (Seq<char>, Seq<char>, Option<i32>) {
    let exit = exit_code_of(success, code);
    if h == TerraformHandler::Passthrough {
        (
            out,
            if success {
                seq![]
            } else {
                error_line(err)
            },
            exit,
        )
    } else if !success {
        (seq![], error_line(err) + error_line(err), exit)
    } else {
        let shown_out = match h {
            TerraformHandler::Plan => shown(plan_filtered(out), out),
            TerraformHandler::Apply => shown(apply_filtered(out), out),
            TerraformHandler::Destroy => shown(destroy_filtered(out), out),
            TerraformHandler::StateList => shown(state_list_filtered(out), out),
            _ => out,
        };
        (shown_out, seq![], exit)
    }
}

/// What to print and exit with once `terraform` has run with handler `h`:
/// `stdout` and `stderr` are what it wrote, `success` whether it exited
/// successfully, `code` its exit code when it has one. Not defined on a
/// successful `state list` whose output has a bare module address.
pub fn respond(h: TerraformHandler, stdout: &str, stderr: &str, success: bool, code: Option<i32>) -> (r:
    Response)
    requires
        h == TerraformHandler::StateList && success ==> !has_bare_module(stdout@),
    ensures
        (r.stdout@, r.stderr@, r.exit_code) == terraform_outcome(h, stdout@, stderr@, success, code),
{
    let exit = exit_code(success, code);
    let err = str_chars(stderr);
    let mut o: Vec<char> = Vec::new();
    let mut e: Vec<char> = Vec::new();
    if h == TerraformHandler::Passthrough {
        push_str(&mut o, stdout);
        if !success {
            let l = error_line_chars(err.as_slice());
            push_chars(&mut e, l.as_slice());
        }
    } else if !success {
        let l = error_line_chars(err.as_slice());
        push_chars(&mut e, l.as_slice());
        push_chars(&mut e, l.as_slice());
    } else {
        match h {
            TerraformHandler::Plan => push_shown(&mut o, filter_plan(stdout), stdout),
            TerraformHandler::Apply => push_shown(&mut o, filter_apply(stdout), stdout),
            TerraformHandler::Destroy => push_shown(&mut o, filter_destroy(stdout), stdout),
            TerraformHandler::StateList => push_shown(&mut o, filter_state_list(stdout), stdout),
            _ => push_str(&mut o, stdout),
        }
    }
    assert(o@ =~= terraform_outcome(h, stdout@, stderr@, success, code).0);
    assert(e@ =~= terraform_outcome(h, stdout@, stderr@, success, code).1);
    response(o.as_slice(), e.as_slice(), exit)
}

// ---------------------------------------------------------------------------
// Laws
// ---------------------------------------------------------------------------

/// A line with these marks can be kept in an apply summary.
pub open spec fn keeps_line(m: ApplyMarks) -> bool {
    m.summary || m.outputs_header || m.output_value
}

/// `t` is one of `lines`, trimmed, whose marks let it be kept.
pub open spec fn kept_apply_line(t: Seq<char>, lines: Seq<Seq<char>>, marks: Seq<ApplyMarks>) -> bool {
    exists|i: int| 0 <= i < lines.len() && keeps_line(marks[i]) && #[trigger] trimmed_from(t, lines[i])
}

/// Law: an apply summary only keeps input lines, trimmed, each of them the
/// `Apply complete!` line, an `Outputs:` header or an output value.
pub proof fn law_apply_keeps_input_lines(lines: Seq<Seq<char>>, marks: Seq<ApplyMarks>)
    requires
        lines.len() == marks.len(),
    ensures
        forall|k: int|
            0 <= k < apply_scan(lines, marks).0.len() ==> kept_apply_line(
                #[trigger] apply_scan(lines, marks).0[k],
                lines,
                marks,
            ),
    decreases lines.len(),
{
    if lines.len() > 0 {
        let pl = lines.drop_last();
        let pm = marks.drop_last();
        law_apply_keeps_input_lines(pl, pm);
        let prev = apply_scan(pl, pm).0;
        let cur = apply_scan(lines, marks).0;
        assert forall|k: int| 0 <= k < cur.len() implies kept_apply_line(
            #[trigger] cur[k],
            lines,
            marks,
        ) by {
            if k < prev.len() {
                assert(cur[k] == prev[k]);
                assert(kept_apply_line(prev[k], pl, pm));
                let i = choose|i: int|
                    0 <= i < pl.len() && keeps_line(pm[i]) && #[trigger] trimmed_from(prev[k], pl[i]);
                assert(lines[i] == pl[i] && marks[i] == pm[i]);
                assert(trimmed_from(cur[k], lines[i]));
            } else {
                let i = lines.len() - 1;
                assert(trimmed_from(cur[k], lines[i]));
                assert(keeps_line(marks[i]));
            }
        }
    }
}

/// `t` is one of `lines`, trimmed, marked to be kept.
pub open spec fn kept_marked_line(t: Seq<char>, lines: Seq<Seq<char>>, keep: Seq<bool>) -> bool {
    exists|i: int| 0 <= i < lines.len() && keep[i] && #[trigger] trimmed_from(t, lines[i])
}

/// Law: a destroy summary only keeps marked lines, trimmed, at most one per
/// input line.
pub proof fn law_destroy_keeps_marked(lines: Seq<Seq<char>>, keep: Seq<bool>)
    requires
        lines.len() == keep.len(),
    ensures
        forall|k: int|
            0 <= k < kept_lines(lines, keep).len() ==> kept_marked_line(
                #[trigger] kept_lines(lines, keep)[k],
                lines,
                keep,
            ),
        kept_lines(lines, keep).len() <= lines.len(),
    decreases lines.len(),
{
    if lines.len() > 0 {
        let pl = lines.drop_last();
        let pk = keep.drop_last();
        law_destroy_keeps_marked(pl, pk);
        let prev = kept_lines(pl, pk);
        let cur = kept_lines(lines, keep);
        assert forall|k: int| 0 <= k < cur.len() implies kept_marked_line(
            #[trigger] cur[k],
            lines,
            keep,
        ) by {
            if k < prev.len() {
                assert(cur[k] == prev[k]);
                assert(kept_marked_line(prev[k], pl, pk));
                let i = choose|i: int| 0 <= i < pl.len() && pk[i] && #[trigger] trimmed_from(prev[k], pl[i]);
                assert(lines[i] == pl[i] && keep[i] == pk[i]);
                assert(trimmed_from(cur[k], lines[i]));
            } else {
                let i = lines.len() - 1;
                assert(trimmed_from(cur[k], lines[i]));
            }
        }
    }
}

/// Law: the modules of a plan summary come in strictly increasing order (so
/// each once), each listing exactly its own resources, as (symbol, address),
/// in the order of the plan; no module is listed without a resource.
pub proof fn law_plan_modules(
    lines: Seq<Seq<char>>,
    wills: Seq<Option<(Seq<char>, Seq<char>)>>,
    modules: Seq<Option<Seq<char>>>,
    summaries: Seq<bool>,
)
    ensures
        ({
            let es = plan_scan(lines, wills, modules, summaries).1;
            &&& keys_increase(grouped(es))
            &&& groups_nonempty(grouped(es))
            &&& forall|m: Seq<char>| #[trigger] group_of(grouped(es), m) == values_of(es, m)
        }),
{
    law_grouped(plan_scan(lines, wills, modules, summaries).1);
}

/// `t` holds no `.`.
pub open spec fn dotless(t: Seq<char>) -> bool {
    !t.contains('.')
}

proof fn lemma_before_dotless(s: Seq<char>)
    ensures
        dotless(before(s, '.')),
{
    lemma_next_index_bounds(s, '.', 0);
    let b = before(s, '.');
    assert forall|i: int| 0 <= i < b.len() implies b[i] != '.' by {
        assert(b[i] == s[i]);
    }
}

/// Law: in a state-list summary the root types are each listed once, in the
/// order first seen, and every type, root or module, is a type name alone
/// (no `.`, the instance name dropped).
pub proof fn law_state_types(lines: Seq<Seq<char>>, modules: Seq<Option<Seq<char>>>)
    requires
        lines.len() == modules.len(),
    ensures
        state_scan(lines, modules).0.no_duplicates(),
        forall|k: int|
            0 <= k < state_scan(lines, modules).0.len() ==> dotless(
                #[trigger] state_scan(lines, modules).0[k],
            ),
        forall|k: int|
            0 <= k < state_scan(lines, modules).1.len() ==> dotless(
                (#[trigger] state_scan(lines, modules).1[k]).1,
            ),
    decreases lines.len(),
{
    if lines.len() > 0 {
        let pl = lines.drop_last();
        let pm = modules.drop_last();
        law_state_types(pl, pm);
        let prev = state_scan(pl, pm);
        let cur = state_scan(lines, modules);
        let t = trim(lines.last());
        lemma_before_dotless(t);
        if let Some(m) = modules.last() {
            let rest = if m.len() + 1 <= t.len() {
                t.skip(m.len() + 1int)
            } else {
                seq![]
            };
            lemma_before_dotless(rest);
        }
        assert forall|k: int| 0 <= k < cur.0.len() implies dotless(#[trigger] cur.0[k]) by {
            if k < prev.0.len() {
                assert(cur.0[k] == prev.0[k]);
            }
        }
        assert forall|k: int| 0 <= k < cur.1.len() implies dotless((#[trigger] cur.1[k]).1) by {
            if k < prev.1.len() {
                assert(cur.1[k] == prev.1[k]);
            }
        }
    }
}

/// Law: the types listed for each module of a state-list summary are sorted
/// strictly (so each once), and are exactly that module's types.
pub proof fn law_state_module_types(lines: Seq<Seq<char>>, modules: Seq<Option<Seq<char>>>)
    ensures
        ({
            let es = state_scan(lines, modules).1;
            &&& keys_increase(grouped(es))
            &&& forall|m: Seq<char>| #[trigger] group_of(grouped(es), m) == values_of(es, m)
            &&& forall|j: int|
                0 <= j < grouped(es).len() ==> increasing(sorted_set((#[trigger] grouped(es)[j]).1))
            &&& forall|j: int, t: Seq<char>|
                0 <= j < grouped(es).len() ==> (#[trigger] sorted_set(grouped(es)[j].1).contains(t)
                    <==> grouped(es)[j].1.contains(t))
        }),
{
    let es = state_scan(lines, modules).1;
    law_grouped(es);
    assert forall|j: int| 0 <= j < grouped(es).len() implies increasing(
        sorted_set((#[trigger] grouped(es)[j]).1),
    ) by {
        law_sorted_set(grouped(es)[j].1);
    }
    assert forall|j: int, t: Seq<char>| 0 <= j < grouped(es).len() implies (
    #[trigger] sorted_set(grouped(es)[j].1).contains(t) <==> grouped(es)[j].1.contains(t)) by {
        law_sorted_set(grouped(es)[j].1);
    }
}

/// Law: once terraform has run, the process exits with the command's
/// failure, and only then: with its exit code, or 1 when it has none; and a
/// successful run whose output the filter cannot summarize prints that
/// output unchanged.
pub proof fn law_terraform_outcome(
    h: TerraformHandler,
    out: Seq<char>,
    err: Seq<char>,
    success: bool,
    code: Option<i32>,
)
    ensures
        terraform_outcome(h, out, err, success, code).2 == exit_code_of(success, code),
        terraform_outcome(h, out, err, success, code).2 is None <==> success,
        !success && code is Some ==> terraform_outcome(h, out, err, success, code).2 == code,
        success && h == TerraformHandler::Plan && plan_filtered(out) is None ==> terraform_outcome(
            h,
            out,
            err,
            success,
            code,
        ).0 == out,
        success && h == TerraformHandler::StateList && state_list_filtered(out) is None
            ==> terraform_outcome(h, out, err, success, code).0 == out,
        success && (h == TerraformHandler::State || h == TerraformHandler::Passthrough)
            ==> terraform_outcome(h, out, err, success, code).0 == out,
{
}

/// Line `i` plans a change to a resource of no module.
pub open spec fn is_root_change(
    wills: Seq<Option<(Seq<char>, Seq<char>)>>,
    modules: Seq<Option<Seq<char>>>,
    i: int,
) -> bool {
    wills[i] is Some && modules[i] is None
}

/// The number of the first `n` lines that plan a change to a resource of no module.
pub open spec fn root_change_count(
    wills: Seq<Option<(Seq<char>, Seq<char>)>>,
    modules: Seq<Option<Seq<char>>>,
    n: int,
) -> nat
    decreases n,
{
    if n <= 0 {
        0
    } else {
        root_change_count(wills, modules, n - 1) + if is_root_change(wills, modules, n - 1) {
            1nat
        } else {
            0nat
        }
    }
}

proof fn lemma_plan_root_prefix(
    lines: Seq<Seq<char>>,
    wills: Seq<Option<(Seq<char>, Seq<char>)>>,
    modules: Seq<Option<Seq<char>>>,
    summaries: Seq<bool>,
    n: int,
)
    requires
        lines.len() == wills.len() == modules.len() == summaries.len(),
        0 <= n <= lines.len(),
    ensures
        ({
            let root = plan_scan(
                lines.take(n),
                wills.take(n),
                modules.take(n),
                summaries.take(n),
            ).0;
            &&& root.len() == root_change_count(wills, modules, n)
            &&& forall|i: int|
                0 <= i < n && is_root_change(wills, modules, i) ==> root[root_change_count(
                    wills,
                    modules,
                    i,
                ) as int] == (symbol((wills[i]->0).1), (wills[i]->0).0)
        }),
    decreases n,
{
    if n > 0 {
        lemma_plan_root_prefix(lines, wills, modules, summaries, n - 1);
        assert(lines.take(n).drop_last() =~= lines.take(n - 1));
        assert(wills.take(n).drop_last() =~= wills.take(n - 1));
        assert(modules.take(n).drop_last() =~= modules.take(n - 1));
        assert(summaries.take(n).drop_last() =~= summaries.take(n - 1));
        assert(wills.take(n).last() == wills[n - 1]);
        assert(modules.take(n).last() == modules[n - 1]);
        let prev = plan_scan(
            lines.take(n - 1),
            wills.take(n - 1),
            modules.take(n - 1),
            summaries.take(n - 1),
        ).0;
        let root = plan_scan(lines.take(n), wills.take(n), modules.take(n), summaries.take(n)).0;
        assert forall|i: int|
            0 <= i < n && is_root_change(wills, modules, i) implies root[root_change_count(
            wills,
            modules,
            i,
        ) as int] == (symbol((wills[i]->0).1), (wills[i]->0).0) by {
            if i < n - 1 {
                lemma_root_change_count_monotone(wills, modules, i + 1, n - 1);
                assert(root[root_change_count(wills, modules, i) as int] == prev[root_change_count(
                    wills,
                    modules,
                    i,
                ) as int]);
            }
        }
    }
}

proof fn lemma_root_change_count_monotone(
    wills: Seq<Option<(Seq<char>, Seq<char>)>>,
    modules: Seq<Option<Seq<char>>>,
    a: int,
    b: int,
)
    requires
        a <= b,
    ensures
        root_change_count(wills, modules, a) <= root_change_count(wills, modules, b),
    decreases b - a,
{
    if a < b {
        lemma_root_change_count_monotone(wills, modules, a, b - 1);
    }
}

/// Law: the root resources of a plan are exactly the changes planned for
/// resources of no module, as (symbol of the action, address), in input
/// order: one for each such line, the change of the line that is the k-th
/// such line at position k.
pub proof fn law_plan_root_resources(
    lines: Seq<Seq<char>>,
    wills: Seq<Option<(Seq<char>, Seq<char>)>>,
    modules: Seq<Option<Seq<char>>>,
    summaries: Seq<bool>,
)
    requires
        lines.len() == wills.len() == modules.len() == summaries.len(),
    ensures
        ({
            let root = plan_scan(lines, wills, modules, summaries).0;
            &&& root.len() == root_change_count(wills, modules, lines.len() as int)
            &&& forall|i: int|
                0 <= i < lines.len() && is_root_change(wills, modules, i) ==> root[root_change_count(
                    wills,
                    modules,
                    i,
                ) as int] == (symbol((wills[i]->0).1), (wills[i]->0).0)
        }),
{
    let n = lines.len() as int;
    lemma_plan_root_prefix(lines, wills, modules, summaries, n);
    assert(lines.take(n) =~= lines);
    assert(wills.take(n) =~= wills);
    assert(modules.take(n) =~= modules);
    assert(summaries.take(n) =~= summaries);
}

proof fn lemma_apply_scan_step(lines: Seq<Seq<char>>, marks: Seq<ApplyMarks>, n: int)
    requires
        lines.len() == marks.len(),
        0 <= n < lines.len(),
    ensures
        apply_scan(lines.take(n + 1), marks.take(n + 1)) == apply_step(
            apply_scan(lines.take(n), marks.take(n)),
            lines[n],
            marks[n],
        ),
{
    assert(lines.take(n + 1).drop_last() =~= lines.take(n));
    assert(marks.take(n + 1).drop_last() =~= marks.take(n));
}

/// The lines kept after `n` lines stay kept after any later line.
proof fn lemma_apply_kept_grows(lines: Seq<Seq<char>>, marks: Seq<ApplyMarks>, n: int, m: int)
    requires
        lines.len() == marks.len(),
        0 <= n <= m <= lines.len(),
    ensures
        apply_scan(lines.take(n), marks.take(n)).0 == apply_scan(
            lines.take(m),
            marks.take(m),
        ).0.take(apply_scan(lines.take(n), marks.take(n)).0.len() as int),
        apply_scan(lines.take(n), marks.take(n)).0.len() <= apply_scan(
            lines.take(m),
            marks.take(m),
        ).0.len(),
    decreases m - n,
{
    if n < m {
        lemma_apply_kept_grows(lines, marks, n, m - 1);
        lemma_apply_scan_step(lines, marks, m - 1);
        let a = apply_scan(lines.take(n), marks.take(n)).0;
        let b = apply_scan(lines.take(m - 1), marks.take(m - 1)).0;
        let c = apply_scan(lines.take(m), marks.take(m)).0;
        assert(c.take(b.len() as int) =~= b);
        assert(c.take(a.len() as int) =~= b.take(a.len() as int));
    } else {
        let a = apply_scan(lines.take(n), marks.take(n)).0;
        assert(a.take(a.len() as int) =~= a);
    }
}

/// No line empty once trimmed comes after an output value, between `j` and `i`.
pub open spec fn no_blank_after_value(lines: Seq<Seq<char>>, marks: Seq<ApplyMarks>, j: int, i: int) -> bool {
    forall|k: int, m: int|
        j < m < k < i && #[trigger] marks[m].output_value ==> trim(#[trigger] lines[k]).len() > 0
}

proof fn lemma_apply_outputs_open(lines: Seq<Seq<char>>, marks: Seq<ApplyMarks>, j: int, n: int)
    requires
        lines.len() == marks.len(),
        0 <= j < n <= lines.len(),
        marks[j].outputs_header,
        !marks[j].summary,
        no_blank_after_value(lines, marks, j, n),
    ensures
        apply_scan(lines.take(n), marks.take(n)).1,
        apply_scan(lines.take(n), marks.take(n)).2 ==> exists|m: int|
            j < m < n && #[trigger] marks[m].output_value,
    decreases n - j,
{
    lemma_apply_scan_step(lines, marks, n - 1);
    if n - 1 > j {
        assert(no_blank_after_value(lines, marks, j, n - 1));
        lemma_apply_outputs_open(lines, marks, j, n - 1);
        let st = apply_scan(lines.take(n - 1), marks.take(n - 1));
        if st.2 && trim(lines[n - 1]).len() == 0 {
            let m = choose|m: int| j < m < n - 1 && #[trigger] marks[m].output_value;
            assert(trim(lines[n - 1]).len() > 0);
        }
        if marks[n - 1].output_value {
            assert(marks[n - 1].output_value);
        }
    }
}

/// Law: in an apply log, every output-value line (not empty once trimmed)
/// that follows an `Outputs:` header, with no line empty once trimmed after
/// a value in between, is in the summary, trimmed: blank lines before the
/// first value keep the section open, and consecutive values are all listed.
pub proof fn law_apply_lists_every_output(
    lines: Seq<Seq<char>>,
    marks: Seq<ApplyMarks>,
    j: int,
    i: int,
)
    requires
        lines.len() == marks.len(),
        0 <= j < i < lines.len(),
        marks[j].outputs_header,
        !marks[j].summary,
        no_blank_after_value(lines, marks, j, i),
        marks[i].output_value,
        trim(lines[i]).len() > 0,
    ensures
        apply_summary(lines, marks) matches Some(s) && has_infix(s, trim(lines[i])),
{
    lemma_apply_outputs_open(lines, marks, j, i);
    lemma_apply_scan_step(lines, marks, i);
    lemma_apply_kept_in_summary(lines, marks, i);
}

proof fn lemma_kept_lines_hold_marked(lines: Seq<Seq<char>>, keep: Seq<bool>, i: int)
    requires
        lines.len() == keep.len(),
        0 <= i < lines.len(),
        keep[i],
    ensures
        kept_lines(lines, keep).contains(trim(lines[i])),
    decreases lines.len(),
{
    let pl = lines.drop_last();
    let pk = keep.drop_last();
    let prev = kept_lines(pl, pk);
    let cur = kept_lines(lines, keep);
    if i == lines.len() - 1 {
        assert(cur[cur.len() - 1] == trim(lines[i]));
    } else {
        lemma_kept_lines_hold_marked(pl, pk, i);
        assert(pl[i] == lines[i]);
        let k = choose|k: int| 0 <= k < prev.len() && prev[k] == trim(lines[i]);
        assert(cur[k] == prev[k]);
    }
}

/// Law: after a successful `terraform destroy`, standard output holds every
/// `Destroy complete!` line of the command's output, trimmed, and exits
/// normally.
pub proof fn law_terraform_destroy_reports_completion(
    out: Seq<char>,
    err: Seq<char>,
    code: Option<i32>,
    i: int,
)
    requires
        0 <= i < lines(out).len(),
        hits(DESTROY_SUMMARY@, lines(out)[i]),
    ensures
        has_infix(terraform_outcome(TerraformHandler::Destroy, out, err, true, code).0, trim(lines(out)[i])),
        terraform_outcome(TerraformHandler::Destroy, out, err, true, code).2 is None,
{
    let ls = lines(out);
    let keep = ls.map_values(|l: Seq<char>| destroy_keeps(l));
    assert(keep[i]);
    lemma_kept_lines_hold_marked(ls, keep, i);
    let kept = kept_lines(ls, keep);
    lemma_join_holds_parts(kept, "\n"@, trim(ls[i]));
    lemma_infix_extend(join(kept, "\n"@), "\n"@, trim(ls[i]));
}

/// A line kept when it is read is in the summary.
proof fn lemma_apply_kept_in_summary(lines: Seq<Seq<char>>, marks: Seq<ApplyMarks>, i: int)
    requires
        lines.len() == marks.len(),
        0 <= i < lines.len(),
        apply_scan(lines.take(i + 1), marks.take(i + 1)).0 == apply_scan(
            lines.take(i),
            marks.take(i),
        ).0.push(trim(lines[i])),
    ensures
        apply_summary(lines, marks) matches Some(s) && has_infix(s, trim(lines[i])),
{
    let before_i = apply_scan(lines.take(i), marks.take(i)).0;
    let after_i = apply_scan(lines.take(i + 1), marks.take(i + 1)).0;
    let n = lines.len() as int;
    lemma_apply_kept_grows(lines, marks, i + 1, n);
    assert(lines.take(n) =~= lines);
    assert(marks.take(n) =~= marks);
    let kept = apply_scan(lines, marks).0;
    assert(kept[before_i.len() as int] == after_i[before_i.len() as int]);
    assert(kept.contains(trim(lines[i])));
    lemma_join_holds_parts(kept, "\n"@, trim(lines[i]));
}

/// Law: every `Apply complete!` line of an apply log is in the summary,
/// trimmed, wherever it stands.
pub proof fn law_apply_lists_completion(lines: Seq<Seq<char>>, marks: Seq<ApplyMarks>, i: int)
    requires
        lines.len() == marks.len(),
        0 <= i < lines.len(),
        marks[i].summary,
    ensures
        apply_summary(lines, marks) matches Some(s) && has_infix(s, trim(lines[i])),
{
    lemma_apply_scan_step(lines, marks, i);
    lemma_apply_kept_in_summary(lines, marks, i);
}

/// Law: after a successful `terraform apply`, standard output holds every
/// `Apply complete!` line of the command's output, trimmed, and the process
/// exits normally.
pub proof fn law_terraform_apply_reports_completion(
    out: Seq<char>,
    err: Seq<char>,
    code: Option<i32>,
    i: int,
)
    requires
        0 <= i < lines(out).len(),
        hits(APPLY_SUMMARY@, lines(out)[i]),
    ensures
        has_infix(terraform_outcome(TerraformHandler::Apply, out, err, true, code).0, trim(lines(out)[i])),
        terraform_outcome(TerraformHandler::Apply, out, err, true, code).2 is None,
{
    let ls = lines(out);
    let ms = ls.map_values(|l: Seq<char>| apply_marks_of(l));
    assert(ms[i] == apply_marks_of(ls[i]));
    law_apply_lists_completion(ls, ms, i);
    let s = apply_summary(ls, ms)->0;
    lemma_infix_extend(s, "\n"@, trim(ls[i]));
}

/// Line `i` plans a change to a resource of module `modules[i]`.
pub open spec fn is_module_change(
    wills: Seq<Option<(Seq<char>, Seq<char>)>>,
    modules: Seq<Option<Seq<char>>>,
    i: int,
) -> bool {
    wills[i] is Some && modules[i] is Some
}

/// The number of the first `n` lines that plan a change to a module's resource.
pub open spec fn module_change_count(
    wills: Seq<Option<(Seq<char>, Seq<char>)>>,
    modules: Seq<Option<Seq<char>>>,
    n: int,
) -> nat
    decreases n,
{
    if n <= 0 {
        0
    } else {
        module_change_count(wills, modules, n - 1) + if is_module_change(wills, modules, n - 1) {
            1nat
        } else {
            0nat
        }
    }
}

proof fn lemma_module_change_count_monotone(
    wills: Seq<Option<(Seq<char>, Seq<char>)>>,
    modules: Seq<Option<Seq<char>>>,
    a: int,
    b: int,
)
    requires
        a <= b,
    ensures
        module_change_count(wills, modules, a) <= module_change_count(wills, modules, b),
    decreases b - a,
{
    if a < b {
        lemma_module_change_count_monotone(wills, modules, a, b - 1);
    }
}

proof fn lemma_plan_module_prefix(
    lines: Seq<Seq<char>>,
    wills: Seq<Option<(Seq<char>, Seq<char>)>>,
    modules: Seq<Option<Seq<char>>>,
    summaries: Seq<bool>,
    n: int,
)
    requires
        lines.len() == wills.len() == modules.len() == summaries.len(),
        0 <= n <= lines.len(),
    ensures
        ({
            let es = plan_scan(
                lines.take(n),
                wills.take(n),
                modules.take(n),
                summaries.take(n),
            ).1;
            &&& es.len() == module_change_count(wills, modules, n)
            &&& forall|i: int|
                0 <= i < n && is_module_change(wills, modules, i) ==> es[module_change_count(
                    wills,
                    modules,
                    i,
                ) as int] == (modules[i]->0, (symbol((wills[i]->0).1), (wills[i]->0).0))
        }),
    decreases n,
{
    if n > 0 {
        lemma_plan_module_prefix(lines, wills, modules, summaries, n - 1);
        assert(lines.take(n).drop_last() =~= lines.take(n - 1));
        assert(wills.take(n).drop_last() =~= wills.take(n - 1));
        assert(modules.take(n).drop_last() =~= modules.take(n - 1));
        assert(summaries.take(n).drop_last() =~= summaries.take(n - 1));
        assert(wills.take(n).last() == wills[n - 1]);
        assert(modules.take(n).last() == modules[n - 1]);
        let prev = plan_scan(
            lines.take(n - 1),
            wills.take(n - 1),
            modules.take(n - 1),
            summaries.take(n - 1),
        ).1;
        let es = plan_scan(lines.take(n), wills.take(n), modules.take(n), summaries.take(n)).1;
        assert forall|i: int|
            0 <= i < n && is_module_change(wills, modules, i) implies es[module_change_count(
            wills,
            modules,
            i,
        ) as int] == (modules[i]->0, (symbol((wills[i]->0).1), (wills[i]->0).0)) by {
            if i < n - 1 {
                lemma_module_change_count_monotone(wills, modules, i + 1, n - 1);
                assert(es[module_change_count(wills, modules, i) as int] == prev[module_change_count(
                    wills,
                    modules,
                    i,
                ) as int]);
            }
        }
    }
}

/// Law: the module resources of a plan are exactly the changes planned for
/// resources of a module, as (module, (symbol of the action, address)), in
/// input order: one for each such line, the k-th such line's at position k.
/// Grouped by module (`law_plan_modules`), each module lists exactly these.
pub proof fn law_plan_module_resources(
    lines: Seq<Seq<char>>,
    wills: Seq<Option<(Seq<char>, Seq<char>)>>,
    modules: Seq<Option<Seq<char>>>,
    summaries: Seq<bool>,
)
    requires
        lines.len() == wills.len() == modules.len() == summaries.len(),
    ensures
        ({
            let es = plan_scan(lines, wills, modules, summaries).1;
            &&& es.len() == module_change_count(wills, modules, lines.len() as int)
            &&& forall|i: int|
                0 <= i < lines.len() && is_module_change(wills, modules, i) ==> es[module_change_count(
                    wills,
                    modules,
                    i,
                ) as int] == (modules[i]->0, (symbol((wills[i]->0).1), (wills[i]->0).0))
        }),
{
    let n = lines.len() as int;
    lemma_plan_module_prefix(lines, wills, modules, summaries, n);
    assert(lines.take(n) =~= lines);
    assert(wills.take(n) =~= wills);
    assert(modules.take(n) =~= modules);
    assert(summaries.take(n) =~= summaries);
}

/// Law: the summary line of a plan is the last line marked as a plan
/// summary that plans no change, trimmed; it is empty when there is none.
pub proof fn law_plan_summary_line(
    lines: Seq<Seq<char>>,
    wills: Seq<Option<(Seq<char>, Seq<char>)>>,
    modules: Seq<Option<Seq<char>>>,
    summaries: Seq<bool>,
)
    requires
        lines.len() == wills.len() == modules.len() == summaries.len(),
    ensures
        (forall|i: int| 0 <= i < lines.len() ==> !(summaries[i] && #[trigger] wills[i] is None))
            ==> plan_scan(lines, wills, modules, summaries).2.len() == 0,
        forall|i: int|
            0 <= i < lines.len() && summaries[i] && #[trigger] wills[i] is None && (forall|k: int|
                i < k < lines.len() ==> !(summaries[k] && wills[k] is None)) ==> plan_scan(
                lines,
                wills,
                modules,
                summaries,
            ).2 == trim(lines[i]),
    decreases lines.len(),
{
    if lines.len() > 0 {
        let n = lines.len() - 1;
        let pl = lines.drop_last();
        let pw = wills.drop_last();
        let pm = modules.drop_last();
        let ps = summaries.drop_last();
        law_plan_summary_line(pl, pw, pm, ps);
        if forall|i: int| 0 <= i < lines.len() ==> !(summaries[i] && #[trigger] wills[i] is None) {
            assert forall|i: int| 0 <= i < pl.len() implies !(ps[i] && #[trigger] pw[i] is None) by {
                assert(wills[i] == pw[i]);
            }
        }
        assert forall|i: int|
            0 <= i < lines.len() && summaries[i] && #[trigger] wills[i] is None && (forall|k: int|
                i < k < lines.len() ==> !(summaries[k] && wills[k] is None)) implies plan_scan(
            lines,
            wills,
            modules,
            summaries,
        ).2 == trim(lines[i]) by {
            if i < n {
                assert(!(summaries[n] && wills[n] is None));
                assert(pw[i] == wills[i] && ps[i] == summaries[i] && pl[i] == lines[i]);
                assert forall|k: int| i < k < pl.len() implies !(ps[k] && pw[k] is None) by {
                    assert(pw[k] == wills[k] && ps[k] == summaries[k]);
                }
            }
        }
    }
}

/// Law: in a state list, the type of every line (not empty once trimmed)
/// that names no module is among the root types: the part of the trimmed
/// line before its first `.`.
pub proof fn law_state_lists_root_types(
    lines: Seq<Seq<char>>,
    modules: Seq<Option<Seq<char>>>,
    i: int,
)
    requires
        lines.len() == modules.len(),
        0 <= i < lines.len(),
        modules[i] is None,
        trim(lines[i]).len() > 0,
    ensures
        state_scan(lines, modules).0.contains(before(trim(lines[i]), '.')),
    decreases lines.len(),
{
    let pl = lines.drop_last();
    let pm = modules.drop_last();
    let prev = state_scan(pl, pm).0;
    let cur = state_scan(lines, modules).0;
    let ty = before(trim(lines[i]), '.');
    if i == lines.len() - 1 {
        if !prev.contains(ty) {
            assert(cur[cur.len() - 1] == ty);
        }
    } else {
        law_state_lists_root_types(pl, pm, i);
        assert(pl[i] == lines[i]);
    }
    assert(forall|k: int| 0 <= k < prev.len() ==> cur[k] == prev[k]);
}

/// Line `i` of a state list names a resource of a module.
pub open spec fn is_module_resource(lines: Seq<Seq<char>>, modules: Seq<Option<Seq<char>>>, i: int) -> bool {
    trim(lines[i]).len() > 0 && modules[i] is Some
}

/// The number of the first `n` lines of a state list that name a resource of a module.
pub open spec fn module_resource_count(
    lines: Seq<Seq<char>>,
    modules: Seq<Option<Seq<char>>>,
    n: int,
) -> nat
    decreases n,
{
    if n <= 0 {
        0
    } else {
        module_resource_count(lines, modules, n - 1) + if is_module_resource(lines, modules, n - 1) {
            1nat
        } else {
            0nat
        }
    }
}

/// The type named by a trimmed line of module `m`: what follows `m.` up to
/// the next `.`.
pub open spec fn module_resource_type(t: Seq<char>, m: Seq<char>) -> Seq<char> {
    before(
        if m.len() + 1 <= t.len() {
            t.skip(m.len() + 1int)
        } else {
            seq![]
        },
        '.',
    )
}

proof fn lemma_module_resource_count_monotone(
    lines: Seq<Seq<char>>,
    modules: Seq<Option<Seq<char>>>,
    a: int,
    b: int,
)
    requires
        a <= b,
    ensures
        module_resource_count(lines, modules, a) <= module_resource_count(lines, modules, b),
    decreases b - a,
{
    if a < b {
        lemma_module_resource_count_monotone(lines, modules, a, b - 1);
    }
}

proof fn lemma_state_module_prefix(lines: Seq<Seq<char>>, modules: Seq<Option<Seq<char>>>, n: int)
    requires
        lines.len() == modules.len(),
        0 <= n <= lines.len(),
    ensures
        ({
            let es = state_scan(lines.take(n), modules.take(n)).1;
            &&& es.len() == module_resource_count(lines, modules, n)
            &&& forall|i: int|
                0 <= i < n && is_module_resource(lines, modules, i) ==> es[module_resource_count(
                    lines,
                    modules,
                    i,
                ) as int] == (modules[i]->0, module_resource_type(trim(lines[i]), modules[i]->0))
        }),
    decreases n,
{
    if n > 0 {
        lemma_state_module_prefix(lines, modules, n - 1);
        assert(lines.take(n).drop_last() =~= lines.take(n - 1));
        assert(modules.take(n).drop_last() =~= modules.take(n - 1));
        assert(lines.take(n).last() == lines[n - 1]);
        assert(modules.take(n).last() == modules[n - 1]);
        let prev = state_scan(lines.take(n - 1), modules.take(n - 1)).1;
        let es = state_scan(lines.take(n), modules.take(n)).1;
        assert forall|i: int|
            0 <= i < n && is_module_resource(lines, modules, i) implies es[module_resource_count(
            lines,
            modules,
            i,
        ) as int] == (modules[i]->0, module_resource_type(trim(lines[i]), modules[i]->0)) by {
            if i < n - 1 {
                lemma_module_resource_count_monotone(lines, modules, i + 1, n - 1);
                assert(es[module_resource_count(lines, modules, i) as int] == prev[module_resource_count(
                    lines,
                    modules,
                    i,
                ) as int]);
            }
        }
    }
}

/// Law: the module resources of a state list are exactly its non-empty
/// lines that name a module, as (module, type after the module), in input
/// order: one for each such line, the k-th such line's at position k.
pub proof fn law_state_module_resources(lines: Seq<Seq<char>>, modules: Seq<Option<Seq<char>>>)
    requires
        lines.len() == modules.len(),
    ensures
        ({
            let es = state_scan(lines, modules).1;
            &&& es.len() == module_resource_count(lines, modules, lines.len() as int)
            &&& forall|i: int|
                0 <= i < lines.len() && is_module_resource(lines, modules, i) ==> es[module_resource_count(
                    lines,
                    modules,
                    i,
                ) as int] == (modules[i]->0, module_resource_type(trim(lines[i]), modules[i]->0))
        }),
{
    let n = lines.len() as int;
    lemma_state_module_prefix(lines, modules, n);
    assert(lines.take(n) =~= lines);
    assert(modules.take(n) =~= modules);
}

} // verus!
