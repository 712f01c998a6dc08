//! How blueprints are shown to the model: the catalog, the outline and the
//! loaded-blueprint context block.

use vstd::prelude::*;
use crate::model::Blueprint;
use crate::percent::{float_percent, percent_of};
use crate::text::{
    chars_of, decimal, join, join_strings, lines, push_decimal, push_str, split_lines,
    starts_with, starts_with_at, string_of, trim, trim_bounds, vec_slice, views,
};

verus! {

impl Blueprint {
    /// The success rate in whole percent, as `{:.0}` prints
    /// `times_succeeded as f64 / times_executed as f64 * 100.0` (see
    /// `percent_of`); 0 when the blueprint never ran.
    pub open spec fn percent(self) -> nat {
        percent_of(self.times_succeeded as nat, self.times_executed as nat)
    }

    /// The success rate in whole percent, as the catalog and context show it.
    pub fn success_percent(&self) -> (p: u64)
        ensures
            p == self.percent(),
    {
        float_percent(self.times_succeeded, self.times_executed)
    }
}

/// The description shown for a blueprint in the catalog: the first line of
/// its body that, trimmed, is not empty and does not start with `#`.
pub open spec fn first_description(ls: Seq<Seq<char>>) -> Option<Seq<char>>
    decreases ls.len(),
{
    if ls.len() == 0 {
        None
    } else {
        let t = trim(ls[0]);
        if t.len() > 0 && t[0] != '#' {
            Some(t)
        } else {
            first_description(ls.drop_first())
        }
    }
}

/// A blueprint's catalog description, or a placeholder.
pub open spec fn catalog_description(body: Seq<char>) -> Seq<char> {
    match first_description(lines(body)) {
        Some(d) => d,
        None => "(no description)"@,
    }
}

/// The view of an optional string.
pub open spec fn opt_view(o: Option<&str>) -> Option<Seq<char>> {
    match o {
        Some(s) => Some(s@),
        None => None,
    }
}

/// One catalog line.
pub open spec fn catalog_line(bp: Blueprint, loaded_id: Option<Seq<char>>) -> Seq<char> {
    let marker = if loaded_id == Some(bp.id@) {
        " *LOADED*"@
    } else {
        ""@
    };
    "  ["@ + bp.id@ + "] ("@ + decimal(bp.token_count as nat) + " tok, v"@ + decimal(
        bp.version as nat,
    ) + ", "@ + decimal(bp.percent()) + "% success) "@ + catalog_description(bp.body@) + marker
}

/// How many blueprints the catalog lists at most.
pub open spec fn catalog_cap() -> int {
    5
}

/// The catalog lines of the first five blueprints.
pub open spec fn catalog_lines(bps: Seq<Blueprint>, loaded_id: Option<Seq<char>>) -> Seq<
    Seq<char>,
> {
    let shown = if bps.len() > catalog_cap() {
        bps.take(catalog_cap())
    } else {
        bps
    };
    shown.map_values(|bp: Blueprint| catalog_line(bp, loaded_id))
}

/// The catalog: empty without blueprints; else a header, one line for each
/// of the first five blueprints, and a footer.
pub open spec fn catalog(bps: Seq<Blueprint>, loaded_id: Option<Seq<char>>) -> Seq<char> {
    if bps.len() == 0 {
        seq![]
    } else {
        join(
            seq![
                "=== AVAILABLE BLUEPRINTS ==="@,
                "These are proven procedures from past executions. Follow the loaded blueprint if one matches your task."@,
            ] + catalog_lines(bps, loaded_id) + seq!["=== END BLUEPRINTS ==="@],
            "\n"@,
        )
    }
}

fn description_of(body: &str) -> (d: String)
    ensures
        d@ == catalog_description(body@),
{
    let ls = split_lines(body);
    let mut i: usize = 0;
    assert(views(ls@).skip(0) =~= views(ls@));
    while i < ls.len()
        invariant
            i <= ls@.len(),
            views(ls@) == lines(body@),
            first_description(lines(body@)) == first_description(views(ls@).skip(i as int)),
        decreases ls.len() - i,
    {
        let v = chars_of(ls[i].as_str());
        let (a, b) = trim_bounds(&v, 0, v.len());
        proof {
            assert(v@.subrange(0, v@.len() as int) =~= v@);
            assert(views(ls@).skip(i as int)[0] == ls@[i as int]@);
            assert(views(ls@).skip(i as int).drop_first() =~= views(ls@).skip(i + 1));
        }
        if a < b && v[a] != '#' {
            let d = string_of(&v, a, b);
            assert(v@.subrange(a as int, b as int)[0] == v@[a as int]);
            return d;
        }
        i = i + 1;
    }
    "(no description)".to_owned()
}

/// Format a compact catalog of blueprints for injection into the system
/// prompt: id, token cost, version, success rate and a one-line description
/// of each of the first five, and a marker on the loaded one.
pub fn format_blueprint_catalog(blueprints: &[Blueprint], loaded_id: Option<&str>) -> (r: String)
    ensures
        r@ == catalog(blueprints@, opt_view(loaded_id)),
{
    if blueprints.len() == 0 {
        return String::new();
    }
    let mut out: Vec<String> = Vec::new();
    out.push("=== AVAILABLE BLUEPRINTS ===".to_owned());
    out.push(
        "These are proven procedures from past executions. Follow the loaded blueprint if one matches your task.".to_owned(),
    );
    let n = if blueprints.len() > 5 {
        5
    } else {
        blueprints.len()
    };
    let ghost head = views(out@);
    assert(head =~= seq![
        "=== AVAILABLE BLUEPRINTS ==="@,
        "These are proven procedures from past executions. Follow the loaded blueprint if one matches your task."@,
    ]);
    let ghost loaded = opt_view(loaded_id);
    let mut i: usize = 0;
    while i < n
        invariant
            n <= blueprints@.len(),
            n == (if blueprints@.len() > 5 { 5 } else { blueprints@.len() as int }),
            i <= n,
            loaded == opt_view(loaded_id),
            views(out@) == head + blueprints@.take(i as int).map_values(
                |bp: Blueprint| catalog_line(bp, loaded),
            ),
        decreases n - i,
    {
        let bp = &blueprints[i];
        let mut line = String::new();
        push_str(&mut line, "  [");
        push_str(&mut line, bp.id.as_str());
        push_str(&mut line, "] (");
        push_decimal(&mut line, bp.token_count as u64);
        push_str(&mut line, " tok, v");
        push_decimal(&mut line, bp.version as u64);
        push_str(&mut line, ", ");
        push_decimal(&mut line, bp.success_percent());
        push_str(&mut line, "% success) ");
        let desc = description_of(bp.body.as_str());
        push_str(&mut line, desc.as_str());
        let is_loaded = match loaded_id {
            Some(l) => crate::text::str_eq(l, bp.id.as_str()),
            None => false,
        };
        if is_loaded {
            push_str(&mut line, " *LOADED*");
        } else {
            push_str(&mut line, "");
        }
        assert(line@ =~= catalog_line(*bp, loaded));
        let ghost old_out = out@;
        out.push(line);
        assert(views(out@) =~= views(old_out).push(line@));
        assert(blueprints@.take(i + 1).map_values(|bp: Blueprint| catalog_line(bp, loaded))
            =~= blueprints@.take(i as int).map_values(|bp: Blueprint| catalog_line(bp, loaded)).push(
            catalog_line(blueprints@[i as int], loaded),
        ));
        i = i + 1;
    }
    let ghost before_footer = out@;
    out.push("=== END BLUEPRINTS ===".to_owned());
    proof {
        let shown = if blueprints@.len() > 5 {
            blueprints@.take(5)
        } else {
            blueprints@
        };
        assert(blueprints@.take(n as int) =~= shown);
        assert(views(out@) =~= views(before_footer).push("=== END BLUEPRINTS ==="@));
        assert(catalog_lines(blueprints@, loaded) =~= blueprints@.take(n as int).map_values(
            |bp: Blueprint| catalog_line(bp, loaded),
        ));
        assert(views(out@) =~= seq![
            "=== AVAILABLE BLUEPRINTS ==="@,
            "These are proven procedures from past executions. Follow the loaded blueprint if one matches your task."@,
        ] + catalog_lines(blueprints@, loaded) + seq!["=== END BLUEPRINTS ==="@]);
    }
    join_strings(&out, "\n")
}


/// Whether a trimmed line is kept as an outline header: a Markdown header
/// (`#`) or a bold lead-in (`**`).
pub open spec fn outline_header(t: Seq<char>) -> bool {
    starts_with(t, "#"@) || starts_with(t, "**"@)
}

/// The trimmed lines of a body that an outline keeps, and whether the scan
/// still waits for the objective sentence: every header and bold lead-in,
/// and the first non-empty line after a `## Objective` header.
pub open spec fn outline_scan(ls: Seq<Seq<char>>) -> (Seq<Seq<char>>, bool)
    decreases ls.len(),
{
    if ls.len() == 0 {
        (seq![], false)
    } else {
        let (kept, awaiting) = outline_scan(ls.drop_last());
        let t = trim(ls.last());
        if outline_header(t) {
            (kept.push(t), t == "## Objective"@)
        } else if awaiting && t.len() > 0 {
            (kept.push(t), false)
        } else {
            (kept, awaiting)
        }
    }
}

/// The trimmed lines of a body that an outline keeps: the objective sentence
/// and the headers.
pub open spec fn outline_lines(ls: Seq<Seq<char>>) -> Seq<Seq<char>> {
    outline_scan(ls).0
}

/// The outline of a blueprint, shown when its full body is over budget.
pub open spec fn outline(bp: Blueprint) -> Seq<char> {
    join(
        seq![
            "=== BLUEPRINT OUTLINE: "@ + bp.name@ + " (v"@ + decimal(bp.version as nat) + ") ==="@,
            "Full body too large ("@ + decimal(bp.token_count as nat)
                + " tokens). Showing outline only."@,
        ] + outline_lines(lines(bp.body@)) + seq!["=== END BLUEPRINT OUTLINE ==="@],
        "\n"@,
    )
}

/// Format a blueprint outline (objective sentence and headers) for when the
/// full body is too large for the token budget.
pub fn format_blueprint_outline(blueprint: &Blueprint) -> (r: String)
    ensures
        r@ == outline(*blueprint),
{
    let mut out: Vec<String> = Vec::new();
    let mut title = String::new();
    push_str(&mut title, "=== BLUEPRINT OUTLINE: ");
    push_str(&mut title, blueprint.name.as_str());
    push_str(&mut title, " (v");
    push_decimal(&mut title, blueprint.version as u64);
    push_str(&mut title, ") ===");
    out.push(title);
    let mut note = String::new();
    push_str(&mut note, "Full body too large (");
    push_decimal(&mut note, blueprint.token_count as u64);
    push_str(&mut note, " tokens). Showing outline only.");
    out.push(note);
    let ghost head = views(out@);
    assert(head =~= seq![
        "=== BLUEPRINT OUTLINE: "@ + blueprint.name@ + " (v"@ + decimal(blueprint.version as nat)
            + ") ==="@,
        "Full body too large ("@ + decimal(blueprint.token_count as nat)
            + " tokens). Showing outline only."@,
    ]);
    let hash = chars_of("#");
    let stars = chars_of("**");
    let objective = chars_of("## Objective");
    let ls = split_lines(blueprint.body.as_str());
    let mut awaiting = false;
    let mut i: usize = 0;
    while i < ls.len()
        invariant
            i <= ls@.len(),
            views(ls@) == lines(blueprint.body@),
            hash@ == "#"@,
            stars@ == "**"@,
            objective@ == "## Objective"@,
            views(out@) == head + outline_scan(views(ls@).take(i as int)).0,
            awaiting == outline_scan(views(ls@).take(i as int)).1,
        decreases ls.len() - i,
    {
        let v = chars_of(ls[i].as_str());
        let (a, b) = trim_bounds(&v, 0, v.len());
        let t = vec_slice(&v, a, b);
        proof {
            assert(v@.subrange(0, v@.len() as int) =~= v@);
            assert(views(ls@).take(i + 1).drop_last() =~= views(ls@).take(i as int));
            assert(views(ls@).take(i + 1).last() == ls@[i as int]@);
            assert(t@.skip(0) =~= t@);
        }
        if starts_with_at(&t, 0, &hash) || starts_with_at(&t, 0, &stars) {
            let kept = string_of(&t, 0, t.len());
            assert(t@.subrange(0, t@.len() as int) =~= t@);
            let ghost old_out = out@;
            out.push(kept);
            assert(views(out@) =~= views(old_out).push(kept@));
            awaiting = t.len() == objective.len() && starts_with_at(&t, 0, &objective);
            proof {
                if t@.len() == objective@.len() && starts_with(t@, objective@) {
                    assert(t@.take(objective@.len() as int) =~= t@);
                }
            }
        } else if awaiting && t.len() > 0 {
            let kept = string_of(&t, 0, t.len());
            assert(t@.subrange(0, t@.len() as int) =~= t@);
            let ghost old_out = out@;
            out.push(kept);
            assert(views(out@) =~= views(old_out).push(kept@));
            awaiting = false;
        }
        i = i + 1;
    }
    assert(views(ls@).take(i as int) =~= views(ls@));
    let ghost before_footer = out@;
    out.push("=== END BLUEPRINT OUTLINE ===".to_owned());
    assert(views(out@) =~= views(before_footer).push("=== END BLUEPRINT OUTLINE ==="@));
    assert(views(out@) =~= head + outline_lines(lines(blueprint.body@)) + seq![
        "=== END BLUEPRINT OUTLINE ==="@,
    ]);
    join_strings(&out, "\n")
}

/// The context block of a loaded blueprint.
pub open spec fn blueprint_context(bp: Blueprint) -> Seq<char> {
    "=== BLUEPRINT: "@ + bp.name@ + " (v"@ + decimal(bp.version as nat) + ") ===\nA Blueprint has been loaded for this"@
        + " task. This is a proven procedure from "@
        + decimal(bp.times_executed as nat) + " previous execution(s) (success rate: "@ + decimal(
        bp.percent(),
    )
        + "%).\nUse it as your operational guide. Follow the phases in order.\nDeviate only when conditions differ from what the blueprint describes.\nAfter completing the task, note any refinements needed.\n\n"@
        + bp.body@ + "\n\n=== END BLUEPRINT ==="@
}

/// Format a Blueprint for injection into the agent's context.
pub fn format_blueprint_context(blueprint: &Blueprint) -> (r: String)
    ensures
        r@ == blueprint_context(*blueprint),
{
    let mut s = String::new();
    push_str(&mut s, "=== BLUEPRINT: ");
    push_str(&mut s, blueprint.name.as_str());
    push_str(&mut s, " (v");
    push_decimal(&mut s, blueprint.version as u64);
    push_str(&mut s, ") ===\nA Blueprint has been loaded for this");
    push_str(&mut s, " task. This is a proven procedure from ");
    push_decimal(&mut s, blueprint.times_executed as u64);
    push_str(&mut s, " previous execution(s) (success rate: ");
    push_decimal(&mut s, blueprint.success_percent());
    push_str(
        &mut s,
        "%).\nUse it as your operational guide. Follow the phases in order.\nDeviate only when conditions differ from what the blueprint describes.\nAfter completing the task, note any refinements needed.\n\n",
    );
    push_str(&mut s, blueprint.body.as_str());
    push_str(&mut s, "\n\n=== END BLUEPRINT ===");
    assert(s@ =~= blueprint_context(*blueprint));
    s
}


/// The catalog lists one line for each of the first five blueprints, and no
/// more.
pub proof fn law_catalog_caps_at_five(bps: Seq<Blueprint>, loaded_id: Option<Seq<char>>)
    ensures
        catalog_lines(bps, loaded_id).len() == if bps.len() > catalog_cap() {
            catalog_cap()
        } else {
            bps.len() as int
        },
        forall|i: int|
            0 <= i < catalog_lines(bps, loaded_id).len() ==> #[trigger] catalog_lines(
                bps,
                loaded_id,
            )[i] == catalog_line(bps[i], loaded_id),
        bps.len() == 0 ==> catalog(bps, loaded_id).len() == 0,
{
}

/// The description is the first line of the body that, trimmed, is not
/// empty and does not start with `#`: blank lines and headers before it are
/// skipped, and there is none only when no line is such.
pub proof fn law_description_is_first_plain_line(ls: Seq<Seq<char>>)
    ensures
        first_description(ls) is None <==> forall|i: int|
            0 <= i < ls.len() ==> !(trim(#[trigger] ls[i]).len() > 0 && trim(ls[i])[0] != '#'),
        first_description(ls) matches Some(d) ==> exists|i: int|
            0 <= i < ls.len() && d == trim(#[trigger] ls[i]) && d.len() > 0 && d[0] != '#'
                && forall|j: int|
                0 <= j < i ==> !(trim(#[trigger] ls[j]).len() > 0 && trim(ls[j])[0] != '#'),
    decreases ls.len(),
{
    if ls.len() > 0 {
        let rest = ls.drop_first();
        law_description_is_first_plain_line(rest);
        assert forall|i: int| 0 <= i < rest.len() implies #[trigger] rest[i] == ls[i + 1] by {}
        let t = trim(ls[0]);
        if t.len() > 0 && t[0] != '#' {
            assert(first_description(ls) == Some(t));
        } else {
            assert(first_description(ls) == first_description(rest));
            if first_description(rest) is None {
                assert forall|i: int| 0 <= i < ls.len() implies !(trim(#[trigger] ls[i]).len() > 0
                    && trim(ls[i])[0] != '#') by {
                    if i > 0 {
                        assert(ls[i] == rest[i - 1]);
                    }
                }
            } else {
                let d = first_description(rest)->0;
                let i = choose|i: int|
                    0 <= i < rest.len() && d == trim(#[trigger] rest[i]) && d.len() > 0 && d[0]
                        != '#' && forall|j: int|
                        0 <= j < i ==> !(trim(#[trigger] rest[j]).len() > 0 && trim(rest[j])[0]
                            != '#');
                assert(ls[i + 1] == rest[i]);
                assert forall|j: int| 0 <= j < i + 1 implies !(trim(#[trigger] ls[j]).len() > 0
                    && trim(ls[j])[0] != '#') by {
                    if j > 0 {
                        assert(ls[j] == rest[j - 1]);
                    }
                }
                assert(rest[i] == ls[i + 1]);
                assert(ls[i + 1] == rest[i]);
                assert(trim(ls[i + 1]) == d);
            }
        }
    }
}

/// The catalog shows "(no description)" when no line of the body, trimmed,
/// is non-empty and free of a leading `#`; otherwise it shows the first such
/// trimmed line.
pub proof fn law_catalog_description(body: Seq<char>)
    ensures
        (forall|i: int|
            0 <= i < lines(body).len() ==> !(trim(#[trigger] lines(body)[i]).len() > 0 && trim(
                lines(body)[i],
            )[0] != '#')) ==> catalog_description(body) == "(no description)"@,
        (exists|i: int|
            0 <= i < lines(body).len() && trim(#[trigger] lines(body)[i]).len() > 0 && trim(
                lines(body)[i],
            )[0] != '#') ==> exists|i: int|
            0 <= i < lines(body).len() && catalog_description(body) == trim(
                #[trigger] lines(body)[i],
            ) && trim(lines(body)[i]).len() > 0 && trim(lines(body)[i])[0] != '#' && forall|j: int|
                0 <= j < i ==> !(trim(#[trigger] lines(body)[j]).len() > 0 && trim(
                    lines(body)[j],
                )[0] != '#'),
{
    law_description_is_first_plain_line(lines(body));
}

/// What the outline scan keeps: each kept line is a trimmed line of the
/// body; while it waits for the objective sentence the last kept line is the
/// `## Objective` header; each kept line starts with `#` or `**`, but for an
/// objective sentence right after that header; and every trimmed line that
/// starts with `#` or `**` is kept.
#[verifier::rlimit(50)]
pub proof fn law_outline_keeps_headers(ls: Seq<Seq<char>>)
    ensures
        outline_scan(ls).1 ==> outline_scan(ls).0.len() > 0 && outline_scan(ls).0.last()
            == "## Objective"@,
        forall|k: int|
            #![trigger outline_lines(ls)[k]]
            0 <= k < outline_lines(ls).len() ==> exists|i: int|
                0 <= i < ls.len() && outline_lines(ls)[k] == trim(#[trigger] ls[i]),
        forall|k: int|
            0 <= k < outline_lines(ls).len() ==> starts_with(#[trigger] outline_lines(ls)[k], "#"@)
                || starts_with(outline_lines(ls)[k], "**"@) || (k > 0 && outline_lines(ls)[k - 1]
                == "## Objective"@),
        forall|i: int|
            0 <= i < ls.len() && (starts_with(trim(#[trigger] ls[i]), "#"@) || starts_with(
                trim(ls[i]),
                "**"@,
            )) ==> outline_lines(ls).contains(trim(ls[i])),
    decreases ls.len(),
{
    if ls.len() > 0 {
        let prev = ls.drop_last();
        law_outline_keeps_headers(prev);
        let (kept, awaiting) = outline_scan(prev);
        let t = trim(ls.last());
        let n = ls.len() - 1;
        assert(ls[n] == ls.last());
        assert forall|i: int| 0 <= i < prev.len() implies #[trigger] prev[i] == ls[i] by {}
        let out = outline_lines(ls);
        if outline_header(t) || (awaiting && t.len() > 0) {
            assert(out == kept.push(t));
            assert forall|k: int| #![trigger out[k]] 0 <= k < out.len() implies exists|i: int|
                0 <= i < ls.len() && out[k] == trim(#[trigger] ls[i]) by {
                if k < kept.len() {
                    assert(out[k] == kept[k]);
                    let i = choose|i: int|
                        0 <= i < prev.len() && outline_lines(prev)[k] == trim(#[trigger] prev[i]);
                    assert(prev[i] == ls[i]);
                } else {
                    assert(out[k] == trim(ls[n]));
                }
            }
            assert forall|k: int| 0 <= k < out.len() implies starts_with(#[trigger] out[k], "#"@)
                || starts_with(out[k], "**"@) || (k > 0 && out[k - 1] == "## Objective"@) by {
                if k < kept.len() {
                    assert(out[k] == kept[k]);
                    assert(outline_lines(prev)[k] == kept[k]);
                    if k > 0 {
                        assert(out[k - 1] == kept[k - 1]);
                    }
                } else if !outline_header(t) {
                    assert(out[k - 1] == kept.last());
                }
            }
            assert forall|i: int| 0 <= i < ls.len() && (starts_with(trim(#[trigger] ls[i]), "#"@)
                || starts_with(trim(ls[i]), "**"@)) implies out.contains(trim(ls[i])) by {
                if i < n {
                    assert(prev[i] == ls[i]);
                    let k = choose|k: int| 0 <= k < kept.len() && kept[k] == trim(prev[i]);
                    assert(out[k] == kept[k]);
                } else {
                    assert(out[kept.len() as int] == t);
                }
            }
        } else {
            assert(out == kept);
            assert forall|k: int| #![trigger out[k]] 0 <= k < out.len() implies exists|i: int|
                0 <= i < ls.len() && out[k] == trim(#[trigger] ls[i]) by {
                let i = choose|i: int|
                        0 <= i < prev.len() && outline_lines(prev)[k] == trim(#[trigger] prev[i]);
                assert(prev[i] == ls[i]);
            }
            assert forall|i: int| 0 <= i < ls.len() && (starts_with(trim(#[trigger] ls[i]), "#"@)
                || starts_with(trim(ls[i]), "**"@)) implies out.contains(trim(ls[i])) by {
                if i < n {
                    assert(prev[i] == ls[i]);
                }
            }
        }
    }
}

} // verus!
