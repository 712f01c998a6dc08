//! The stored form of a blueprint: a memory entry holding its Markdown with
//! YAML frontmatter, and the metadata that matching reads back.

use vstd::prelude::*;
use crate::matching::{
    all_tags, carries_stored_counters, entry_tags, fetched_from, fetched_from_some, has_tag,
    in_category, law_in_category_restores_counters, lowercase, string_items,
};
use crate::model::{
    Blueprint, BlueprintMetadata, MemoryEntry, MemoryEntryType, StoredEntry, StoredMetadata,
};
use crate::parsing::{frontmatter_split, skip_line_breaks};
use crate::text::{
    all_ws, dedup, find_from, is_ws, join, join_strings, lemma_find_from_first, lemma_trim_after_trim_end,
    lemma_trim_end_stops, lemma_trim_start_skips_ws, occurs_at, push_str, trim, trim_end,
    trim_start, views,
};

verus! {

/// One YAML list item: `  - "<value>"`.
pub open spec fn yaml_item(value: Seq<char>) -> Seq<char> {
    "  - \""@ + value + "\""@
}

/// A YAML block list of quoted strings, one item per line.
pub open spec fn yaml_list(values: Seq<Seq<char>>) -> Seq<char> {
    join(values.map_values(|v: Seq<char>| yaml_item(v)), "\n"@)
}

/// The YAML frontmatter written for a blueprint, without its `---` lines.
pub open spec fn frontmatter_text(bp: Blueprint) -> Seq<char> {
    "id: \""@ + bp.id@ + "\"\nname: \""@ + bp.name@ + "\"\ntrigger_patterns:\n"@ + yaml_list(
        views(bp.trigger_patterns@),
    ) + "\ntask_signature: \""@ + bp.task_signature@ + "\"\nsemantic_tags:\n"@ + yaml_list(
        views(bp.semantic_tags@),
    )
}

/// The stored Markdown of a blueprint: frontmatter between `---` lines, a
/// blank line, then the body.
pub open spec fn stored_content(bp: Blueprint) -> Seq<char> {
    "---\n"@ + frontmatter_text(bp) + "\n---\n\n"@ + bp.body@
}

/// The memory entry that stores a blueprint.
pub open spec fn stored_entry(bp: Blueprint, session_id: Option<String>, entry: MemoryEntry) -> bool {
    &&& entry.id@ == "blueprint:"@ + bp.id@
    &&& entry.content@ == stored_content(bp)
    &&& entry.metadata.kind@ == "blueprint"@
    &&& entry.metadata.name == bp.name
    &&& entry.metadata.version == bp.version
    &&& entry.metadata.trigger_patterns@ == bp.trigger_patterns@
    &&& entry.metadata.task_signature == bp.task_signature
    &&& entry.metadata.semantic_tags@ == bp.semantic_tags@
    &&& entry.metadata.times_executed == bp.times_executed
    &&& entry.metadata.times_succeeded == bp.times_succeeded
    &&& entry.metadata.times_failed == bp.times_failed
    &&& entry.metadata.owner_user_id == bp.owner_user_id
    &&& entry.metadata.token_count == bp.token_count
    &&& entry.timestamp == bp.updated
    &&& entry.session_id == session_id
    &&& entry.entry_type == MemoryEntryType::Blueprint
}

fn copy_strings(v: &Vec<String>) -> (r: Vec<String>)
    ensures
        r@ == v@,
{
    let mut r: Vec<String> = Vec::new();
    let mut i: usize = 0;
    while i < v.len()
        invariant
            i <= v@.len(),
            r@ == v@.take(i as int),
        decreases v.len() - i,
    {
        r.push(v[i].clone());
        i = i + 1;
        assert(r@ =~= v@.take(i as int));
    }
    assert(v@.take(i as int) =~= v@);
    r
}

fn yaml_list_of(values: &Vec<String>) -> (r: String)
    ensures
        r@ == yaml_list(views(values@)),
{
    let mut items: Vec<String> = Vec::new();
    let mut i: usize = 0;
    while i < values.len()
        invariant
            i <= values@.len(),
            views(items@) == views(values@).take(i as int).map_values(
                |v: Seq<char>| yaml_item(v),
            ),
        decreases values.len() - i,
    {
        let mut item = String::new();
        push_str(&mut item, "  - \"");
        push_str(&mut item, values[i].as_str());
        push_str(&mut item, "\"");
        let ghost old_items = items@;
        items.push(item);
        assert(views(items@) =~= views(old_items).push(yaml_item(values@[i as int]@)));
        assert(views(values@).take(i + 1).map_values(|v: Seq<char>| yaml_item(v)) =~= views(
            values@,
        ).take(i as int).map_values(|v: Seq<char>| yaml_item(v)).push(yaml_item(values@[i as int]@)));
        i = i + 1;
    }
    assert(views(values@).take(i as int) =~= views(values@));
    join_strings(&items, "\n")
}

/// Serialize a Blueprint into a MemoryEntry for storage.
pub fn to_memory_entry(blueprint: &Blueprint, session_id: Option<String>) -> (entry: MemoryEntry)
    ensures
        stored_entry(*blueprint, session_id, entry),
        entry.metadata.semantic_tags@ == blueprint.semantic_tags@,
        entry.metadata.version == blueprint.version,
        entry.metadata.times_executed == blueprint.times_executed,
        entry.metadata.times_succeeded == blueprint.times_succeeded,
        entry.metadata.times_failed == blueprint.times_failed,
        entry.metadata.token_count == blueprint.token_count,
{
    let trigger_yaml = yaml_list_of(&blueprint.trigger_patterns);
    let tags_yaml = yaml_list_of(&blueprint.semantic_tags);
    let mut content = String::new();
    push_str(&mut content, "---\n");
    push_str(&mut content, "id: \"");
    push_str(&mut content, blueprint.id.as_str());
    push_str(&mut content, "\"\nname: \"");
    push_str(&mut content, blueprint.name.as_str());
    push_str(&mut content, "\"\ntrigger_patterns:\n");
    push_str(&mut content, trigger_yaml.as_str());
    push_str(&mut content, "\ntask_signature: \"");
    push_str(&mut content, blueprint.task_signature.as_str());
    push_str(&mut content, "\"\nsemantic_tags:\n");
    push_str(&mut content, tags_yaml.as_str());
    push_str(&mut content, "\n---\n\n");
    push_str(&mut content, blueprint.body.as_str());
    assert(content@ =~= stored_content(*blueprint));
    let mut id = String::new();
    push_str(&mut id, "blueprint:");
    push_str(&mut id, blueprint.id.as_str());
    let metadata = BlueprintMetadata {
        kind: "blueprint".to_owned(),
        name: blueprint.name.clone(),
        version: blueprint.version,
        trigger_patterns: copy_strings(&blueprint.trigger_patterns),
        task_signature: blueprint.task_signature.clone(),
        semantic_tags: copy_strings(&blueprint.semantic_tags),
        times_executed: blueprint.times_executed,
        times_succeeded: blueprint.times_succeeded,
        times_failed: blueprint.times_failed,
        owner_user_id: blueprint.owner_user_id.clone(),
        token_count: blueprint.token_count,
    };
    MemoryEntry {
        id,
        content,
        metadata,
        timestamp: blueprint.updated,
        session_id,
        entry_type: MemoryEntryType::Blueprint,
    }
}


/// The frontmatter written for `bp` holds no closing delimiter `"\n---"`
/// before its own end.
pub open spec fn delimiter_free(bp: Blueprint) -> bool {
    let f = frontmatter_text(bp);
    forall|i: int| 0 <= i < f.len() ==> !occurs_at(f + "\n---"@, "\n---"@, i)
}

proof fn lemma_split_written(f: Seq<char>, b: Seq<char>)
    requires
        f.len() > 0,
        f[0] == 'i',
        forall|i: int| 0 <= i < f.len() ==> !occurs_at(f + "\n---"@, "\n---"@, i),
    ensures
        frontmatter_split("---\n"@ + f + "\n---\n\n"@ + b) == Ok::<_, Seq<char>>((f, trim(b))),
{
    reveal_strlit("---\n");
    reveal_strlit("\n---\n\n");
    reveal_strlit("---");
    reveal_strlit("\n---");
    reveal_strlit("\n\n");
    let content = "---\n"@ + f + "\n---\n\n"@ + b;
    let x = "---\n"@ + f + "\n---"@;
    let d = "\n\n"@ + b;
    let r = trim_end(d);
    let t = trim(content);
    let after = f + "\n---"@ + r;
    let p = "\n---"@;
    assert(t == x + r) by {
        assert(content =~= x + d);
        assert(!is_ws(content[0]));
        assert(trim_start(content) == content);
        assert(x.last() == '-');
        lemma_trim_end_stops(x, d);
    }
    assert(t.take(3) =~= "---"@);
    assert(skip_line_breaks(t.skip(3)) == after) by {
        let s3 = t.skip(3);
        assert(s3 =~= seq!['\n'] + after);
        assert(s3.drop_first() =~= after);
        assert(after[0] == 'i');
        assert(skip_line_breaks(after) == after);
    }
    assert(find_from(after, p, 0) == Some(f.len() as int)) by {
        let fd = f + p;
        assert(after.subrange(f.len() as int, f.len() as int + 4) =~= p);
        assert forall|j: int| 0 <= j < f.len() implies !occurs_at(after, p, j) by {
            assert(!occurs_at(fd, p, j));
            if occurs_at(after, p, j) {
                assert(after.subrange(j, j + 4) =~= fd.subrange(j, j + 4));
                assert(occurs_at(fd, p, j));
            }
        }
        lemma_find_from_first(after, p, 0, f.len() as int);
    }
    assert(after.take(f.len() as int) =~= f);
    assert(after.skip(f.len() as int + 4) =~= r);
    assert(trim(r) == trim(b)) by {
        lemma_trim_after_trim_end(d);
        assert(all_ws("\n\n"@)) by {
            assert(is_ws('\n'));
        }
        lemma_trim_start_skips_ws("\n\n"@, b);
    }
}

/// What is stored splits back into the frontmatter that was written and the
/// trimmed body, for every blueprint whose frontmatter does not itself hold
/// the closing delimiter.
pub proof fn law_stored_content_splits_back(bp: Blueprint)
    requires
        delimiter_free(bp),
    ensures
        frontmatter_split(stored_content(bp)) == Ok::<_, Seq<char>>(
            (frontmatter_text(bp), trim(bp.body@)),
        ),
{
    reveal_strlit("id: \"");
    let f = frontmatter_text(bp);
    assert(f[0] == 'i');
    lemma_split_written(f, bp.body@);
}


/// No `'\n'` in `s` is directly followed by a `'-'`.
pub open spec fn no_dash_after_break(s: Seq<char>) -> bool {
    forall|i: int| 0 <= i < s.len() - 1 && #[trigger] s[i] == '\n' ==> s[i + 1] != '-'
}

/// `s` holds no line break.
pub open spec fn single_line(s: Seq<char>) -> bool {
    forall|i: int| 0 <= i < s.len() ==> #[trigger] s[i] != '\n'
}

proof fn lemma_ndb_concat(a: Seq<char>, b: Seq<char>)
    requires
        no_dash_after_break(a),
        no_dash_after_break(b),
        a.len() == 0 || b.len() == 0 || a.last() != '\n' || b[0] != '-',
    ensures
        no_dash_after_break(a + b),
{
    let c = a + b;
    assert forall|i: int| 0 <= i < c.len() - 1 && #[trigger] c[i] == '\n' implies c[i + 1]
        != '-' by {
        if i < a.len() - 1 {
            assert(c[i] == a[i] && c[i + 1] == a[i + 1]);
        } else if i == a.len() - 1 {
            assert(c[i] == a.last());
            assert(c[i + 1] == b[0]);
        } else {
            assert(c[i] == b[i - a.len()] && c[i + 1] == b[i + 1 - a.len()]);
        }
    }
}

proof fn lemma_single_line_ndb(s: Seq<char>)
    requires
        single_line(s),
    ensures
        no_dash_after_break(s),
        s.len() > 0 ==> s.last() != '\n',
{
    if s.len() > 0 {
        assert(s[s.len() - 1] != '\n');
    }
}

proof fn lemma_yaml_item(v: Seq<char>)
    requires
        single_line(v),
    ensures
        no_dash_after_break(yaml_item(v)),
        yaml_item(v).len() > 0,
        yaml_item(v)[0] == ' ',
        yaml_item(v).last() == '"',
{
    reveal_strlit("  - \"");
    reveal_strlit("\"");
    let a = "  - \""@;
    let q = "\""@;
    assert(single_line(a));
    assert(single_line(q));
    lemma_single_line_ndb(a);
    lemma_single_line_ndb(q);
    lemma_single_line_ndb(v);
    lemma_ndb_concat(a, v);
    assert(single_line(a + v)) by {
        assert forall|i: int| 0 <= i < (a + v).len() implies #[trigger] (a + v)[i] != '\n' by {
            if i < a.len() {
                assert((a + v)[i] == a[i]);
            } else {
                assert((a + v)[i] == v[i - a.len()]);
            }
        }
    }
    lemma_single_line_ndb(a + v);
    lemma_ndb_concat(a + v, q);
    assert((a + v + q)[0] == a[0]);
    assert((a + v + q).last() == q[0]);
}

/// Items that each start with a space and end with a quote, joined by line
/// breaks, never put a dash after a break.
proof fn lemma_join_items(items: Seq<Seq<char>>)
    requires
        forall|i: int|
            0 <= i < items.len() ==> no_dash_after_break(#[trigger] items[i]) && items[i].len() > 0
                && items[i][0] == ' ' && items[i].last() == '"',
    ensures
        no_dash_after_break(join(items, "\n"@)),
        join(items, "\n"@).len() > 0 ==> join(items, "\n"@)[0] == ' ' && join(items, "\n"@).last()
            == '"',
    decreases items.len(),
{
    reveal_strlit("\n");
    if items.len() == 1 {
        assert(join(items, "\n"@) == items[0]);
    } else if items.len() > 1 {
        let rest = items.drop_last();
        assert forall|i: int| 0 <= i < rest.len() implies no_dash_after_break(#[trigger] rest[i])
            && rest[i].len() > 0 && rest[i][0] == ' ' && rest[i].last() == '"' by {
            assert(rest[i] == items[i]);
        }
        lemma_join_items(rest);
        let j = join(rest, "\n"@);
        let nl = "\n"@;
        assert(no_dash_after_break(nl));
        lemma_ndb_concat(j, nl);
        let last = items[items.len() - 1];
        assert(items.last() == last);
        lemma_ndb_concat(j + nl, last);
        assert(join(items, "\n"@) == j + nl + last);
        if j.len() > 0 {
            assert((j + nl + last)[0] == j[0]);
        } else {
            assert(rest.len() > 0);
            assert(rest[0].len() > 0);
            assert(false) by {
                lemma_join_nonempty(rest);
            }
        }
        assert((j + nl + last).last() == last.last());
    }
}

proof fn lemma_join_nonempty(items: Seq<Seq<char>>)
    requires
        items.len() > 0,
        items[0].len() > 0,
    ensures
        join(items, "\n"@).len() > 0,
    decreases items.len(),
{
    if items.len() > 1 {
        lemma_join_nonempty(items.drop_last());
    }
}

proof fn lemma_yaml_list(values: Seq<Seq<char>>)
    requires
        forall|i: int| 0 <= i < values.len() ==> single_line(#[trigger] values[i]),
    ensures
        no_dash_after_break(yaml_list(values)),
        yaml_list(values).len() > 0 ==> yaml_list(values)[0] == ' ' && yaml_list(values).last()
            == '"',
{
    let items = values.map_values(|v: Seq<char>| yaml_item(v));
    assert forall|i: int| 0 <= i < items.len() implies no_dash_after_break(#[trigger] items[i])
        && items[i].len() > 0 && items[i][0] == ' ' && items[i].last() == '"' by {
        lemma_yaml_item(values[i]);
    }
    lemma_join_items(items);
}

/// The frontmatter of a blueprint whose id, name, signature, patterns and
/// tags are single lines never puts a dash after a line break.
proof fn lemma_frontmatter_no_dash(bp: Blueprint)
    requires
        single_line(bp.id@),
        single_line(bp.name@),
        single_line(bp.task_signature@),
        forall|i: int| 0 <= i < views(bp.trigger_patterns@).len() ==> single_line(
            #[trigger] views(bp.trigger_patterns@)[i],
        ),
        forall|i: int| 0 <= i < views(bp.semantic_tags@).len() ==> single_line(
            #[trigger] views(bp.semantic_tags@)[i],
        ),
    ensures
        no_dash_after_break(frontmatter_text(bp)),
{
    reveal_strlit("id: \"");
    reveal_strlit("\"\nname: \"");
    reveal_strlit("\"\ntrigger_patterns:\n");
    reveal_strlit("\ntask_signature: \"");
    reveal_strlit("\"\nsemantic_tags:\n");
    let l1 = "id: \""@;
    let l2 = "\"\nname: \""@;
    let l3 = "\"\ntrigger_patterns:\n"@;
    let l4 = "\ntask_signature: \""@;
    let l5 = "\"\nsemantic_tags:\n"@;
    let y1 = yaml_list(views(bp.trigger_patterns@));
    let y2 = yaml_list(views(bp.semantic_tags@));
    assert(no_dash_after_break(l1));
    assert(no_dash_after_break(l2));
    assert(no_dash_after_break(l3));
    assert(no_dash_after_break(l4));
    assert(no_dash_after_break(l5));
    lemma_yaml_list(views(bp.trigger_patterns@));
    lemma_yaml_list(views(bp.semantic_tags@));
    lemma_single_line_ndb(bp.id@);
    lemma_single_line_ndb(bp.name@);
    lemma_single_line_ndb(bp.task_signature@);
    let p1 = l1 + bp.id@;
    lemma_ndb_concat(l1, bp.id@);
    assert(p1.last() != '\n') by {
        if bp.id@.len() > 0 {
            assert(p1.last() == bp.id@.last());
        } else {
            assert(p1.last() == l1.last());
        }
    }
    let p2 = p1 + l2;
    lemma_ndb_concat(p1, l2);
    assert(p2.last() == l2.last());
    let p3 = p2 + bp.name@;
    lemma_ndb_concat(p2, bp.name@);
    assert(p3.last() != '\n') by {
        if bp.name@.len() > 0 {
            assert(p3.last() == bp.name@.last());
        } else {
            assert(p3.last() == p2.last());
        }
    }
    let p4 = p3 + l3;
    lemma_ndb_concat(p3, l3);
    let p5 = p4 + y1;
    lemma_ndb_concat(p4, y1);
    let p6 = p5 + l4;
    lemma_ndb_concat(p5, l4);
    assert(p6.last() == l4.last());
    let p7 = p6 + bp.task_signature@;
    lemma_ndb_concat(p6, bp.task_signature@);
    assert(p7.last() != '\n') by {
        if bp.task_signature@.len() > 0 {
            assert(p7.last() == bp.task_signature@.last());
        } else {
            assert(p7.last() == p6.last());
        }
    }
    let p8 = p7 + l5;
    lemma_ndb_concat(p7, l5);
    lemma_ndb_concat(p8, y2);
    assert(frontmatter_text(bp) == p8 + y2);
}

/// Every blueprint whose id, name, task signature, trigger patterns and
/// semantic tags are single lines is stored so that it splits back into the
/// frontmatter that was written and its trimmed body.
pub proof fn law_single_line_fields_split_back(bp: Blueprint)
    requires
        single_line(bp.id@),
        single_line(bp.name@),
        single_line(bp.task_signature@),
        forall|i: int| 0 <= i < bp.trigger_patterns@.len() ==> single_line(
            #[trigger] bp.trigger_patterns@[i]@,
        ),
        forall|i: int| 0 <= i < bp.semantic_tags@.len() ==> single_line(
            #[trigger] bp.semantic_tags@[i]@,
        ),
    ensures
        frontmatter_split(stored_content(bp)) == Ok::<_, Seq<char>>(
            (frontmatter_text(bp), trim(bp.body@)),
        ),
{
    assert forall|i: int| 0 <= i < views(bp.trigger_patterns@).len() implies single_line(
        #[trigger] views(bp.trigger_patterns@)[i],
    ) by {
        assert(views(bp.trigger_patterns@)[i] == bp.trigger_patterns@[i]@);
    }
    assert forall|i: int| 0 <= i < views(bp.semantic_tags@).len() implies single_line(
        #[trigger] views(bp.semantic_tags@)[i],
    ) by {
        assert(views(bp.semantic_tags@)[i] == bp.semantic_tags@[i]@);
    }
    lemma_frontmatter_no_dash(bp);
    reveal_strlit("\n---");
    let f = frontmatter_text(bp);
    let fd = f + "\n---"@;
    assert forall|i: int| 0 <= i < f.len() implies !occurs_at(fd, "\n---"@, i) by {
        if occurs_at(fd, "\n---"@, i) {
            assert(fd.subrange(i, i + 4) == "\n---"@);
            assert(fd[i] == '\n' && fd[i + 1] == '-') by {
                assert(fd.subrange(i, i + 4)[0] == fd[i]);
                assert(fd.subrange(i, i + 4)[1] == fd[i + 1]);
            }
            if i < f.len() - 1 {
                assert(f[i] == fd[i] && f[i + 1] == fd[i + 1]);
            } else {
                assert(fd[i + 1] == '\n');
            }
        }
    }
    law_stored_content_splits_back(bp);
}

/// `read` is what the matching logic reads back from the JSON form of the
/// metadata `written`: each semantic tag as a string item, in order, and the
/// version, execution counters and token count as unsigned integers.
pub open spec fn metadata_read_back(written: BlueprintMetadata, read: StoredMetadata) -> bool {
    &&& read.semantic_tags is Some
    &&& read.semantic_tags->0@.len() == written.semantic_tags@.len()
    &&& forall|j: int|
        0 <= j < written.semantic_tags@.len() ==> #[trigger] read.semantic_tags->0@[j]
            == Some(written.semantic_tags@[j])
    &&& read.version == Some(written.version as u64)
    &&& read.times_executed == Some(written.times_executed as u64)
    &&& read.times_succeeded == Some(written.times_succeeded as u64)
    &&& read.times_failed == Some(written.times_failed as u64)
    &&& read.token_count == Some(written.token_count as u64)
}

proof fn lemma_string_items_all_present(items: Seq<Option<String>>, tags: Seq<String>)
    requires
        items.len() == tags.len(),
        forall|j: int| 0 <= j < tags.len() ==> #[trigger] items[j] == Some(tags[j]),
    ensures
        string_items(items) == views(tags),
    decreases items.len(),
{
    if items.len() > 0 {
        let n = items.len() - 1;
        assert forall|j: int| 0 <= j < n implies #[trigger] items.drop_last()[j] == Some(
            tags.drop_last()[j],
        ) by {
            assert(items.drop_last()[j] == items[j]);
        }
        lemma_string_items_all_present(items.drop_last(), tags.drop_last());
        assert(items.last() == items[n]);
        assert(views(tags) =~= views(tags.drop_last()).push(tags[n]@));
    } else {
        assert(views(tags) =~= Seq::<Seq<char>>::empty());
    }
}

/// A stored blueprint's entry, read back, carries exactly the blueprint's
/// semantic tags as its categories: the category list over it is the
/// blueprint's distinct tags, and it matches a category exactly when one of
/// the blueprint's tags equals it in lowercase.
pub proof fn law_stored_tags_are_categories(
    bp: Blueprint,
    session_id: Option<String>,
    entry: MemoryEntry,
    read: StoredEntry,
)
    requires
        stored_entry(bp, session_id, entry),
        metadata_read_back(entry.metadata, read.metadata),
    ensures
        all_tags(seq![read]) == views(bp.semantic_tags@),
        dedup(all_tags(seq![read])) == dedup(views(bp.semantic_tags@)),
        forall|c: Seq<char>|
            has_tag(read.metadata, c) <==> exists|k: int|
                0 <= k < bp.semantic_tags@.len() && lowercase(#[trigger] bp.semantic_tags@[k]@)
                    == lowercase(c),
{
    let items = read.metadata.semantic_tags->0@;
    lemma_string_items_all_present(items, bp.semantic_tags@);
    assert(entry_tags(read.metadata) == views(bp.semantic_tags@));
    assert(seq![read].drop_last() =~= Seq::<StoredEntry>::empty());
    assert(all_tags(seq![read]) =~= all_tags(Seq::<StoredEntry>::empty()) + entry_tags(
        read.metadata,
    ));
    assert(all_tags(seq![read]) =~= views(bp.semantic_tags@));
    assert forall|c: Seq<char>|
        has_tag(read.metadata, c) <==> exists|k: int|
            0 <= k < bp.semantic_tags@.len() && lowercase(#[trigger] bp.semantic_tags@[k]@)
                == lowercase(c) by {
        if has_tag(read.metadata, c) {
            let k = choose|k: int|
                0 <= k < entry_tags(read.metadata).len() && lowercase(
                    #[trigger] entry_tags(read.metadata)[k],
                ) == lowercase(c);
            assert(entry_tags(read.metadata)[k] == bp.semantic_tags@[k]@);
        }
        if exists|k: int|
            0 <= k < bp.semantic_tags@.len() && lowercase(#[trigger] bp.semantic_tags@[k]@)
                == lowercase(c) {
            let k = choose|k: int|
                0 <= k < bp.semantic_tags@.len() && lowercase(#[trigger] bp.semantic_tags@[k]@)
                    == lowercase(c);
            assert(entry_tags(read.metadata)[k] == bp.semantic_tags@[k]@);
        }
    }
}

/// A blueprint stored and fetched back by one of its tags comes back once,
/// with the version, execution counters and token count it was stored with,
/// whatever its content parses to.
pub proof fn law_fetch_returns_stored_counters(
    bp: Blueprint,
    session_id: Option<String>,
    entry: MemoryEntry,
    read: StoredEntry,
    parsed: Blueprint,
    category: Seq<char>,
)
    requires
        stored_entry(bp, session_id, entry),
        metadata_read_back(entry.metadata, read.metadata),
        exists|k: int|
            0 <= k < bp.semantic_tags@.len() && lowercase(#[trigger] bp.semantic_tags@[k]@)
                == lowercase(category),
    ensures
        in_category(seq![read], seq![Ok(parsed)], category).len() == 1,
        in_category(seq![read], seq![Ok(parsed)], category)[0].id == parsed.id,
        in_category(seq![read], seq![Ok(parsed)], category)[0].body == parsed.body,
        in_category(seq![read], seq![Ok(parsed)], category)[0].version == bp.version,
        in_category(seq![read], seq![Ok(parsed)], category)[0].times_executed == bp.times_executed,
        in_category(seq![read], seq![Ok(parsed)], category)[0].times_succeeded
            == bp.times_succeeded,
        in_category(seq![read], seq![Ok(parsed)], category)[0].times_failed == bp.times_failed,
        in_category(seq![read], seq![Ok(parsed)], category)[0].token_count == bp.token_count,
{
    let entries = seq![read];
    let ps = seq![Ok::<Blueprint, String>(parsed)];
    law_stored_tags_are_categories(bp, session_id, entry, read);
    assert(has_tag(read.metadata, category));
    law_in_category_restores_counters(entries, ps, category);
    assert(entries[0] == read);
    assert(ps[0] is Ok);
    assert(entries.drop_last() =~= Seq::<StoredEntry>::empty());
    assert(ps.drop_last() =~= Seq::<Result<Blueprint, String>>::empty());
    let r = in_category(entries, ps, category);
    assert(r.len() == 1);
    assert(fetched_from_some(r[0], entries, ps, category));
    let i = choose|i: int| fetched_from(r[0], entries, ps, category, i);
    reveal(fetched_from);
    assert(i == 0);
    assert(carries_stored_counters(r[0], parsed, read.metadata));
}

} // verus!
