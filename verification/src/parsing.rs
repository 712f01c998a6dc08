//! The stored form of a blueprint: YAML frontmatter between `---` lines,
//! then the Markdown body.

use vstd::prelude::*;
use crate::clock::now_utc;
use crate::model::{Blueprint, BlueprintFrontmatter, UtcInstant};
use crate::text::{
    byte_len, chars_of, find, find_in, starts_with, starts_with_at, string_of, trim, trim_bounds,
    utf8_len, vec_slice,
};

verus! {

/// `s` without its leading `'\r'` and `'\n'` characters
/// (`trim_start_matches(['\r', '\n'])`).
pub open spec fn skip_line_breaks(s: Seq<char>) -> Seq<char>
    decreases s.len(),
{
    if s.len() > 0 && (s[0] == '\r' || s[0] == '\n') {
        skip_line_breaks(s.drop_first())
    } else {
        s
    }
}

/// The error for content without an opening `---`.
pub open spec fn no_frontmatter_error() -> Seq<char> {
    "Blueprint content does not start with YAML frontmatter"@
}

/// The error for frontmatter without a closing `---` line.
pub open spec fn no_closing_error() -> Seq<char> {
    "No closing YAML frontmatter delimiter"@
}

/// How stored content splits into its YAML frontmatter and its body: the
/// trimmed content must start with `---`; after it and any line breaks, the
/// frontmatter runs up to the first `"\n---"`, and the body is the rest after
/// that delimiter, trimmed.
pub open spec fn frontmatter_split(raw: Seq<char>) -> Result<(Seq<char>, Seq<char>), Seq<char>> {
    let t = trim(raw);
    if !starts_with(t, "---"@) {
        Err(no_frontmatter_error())
    } else {
        let after = skip_line_breaks(t.skip(3));
        match find(after, "\n---"@) {
            None => Err(no_closing_error()),
            Some(p) => Ok((after.take(p), trim(after.skip(p + 4)))),
        }
    }
}

proof fn lemma_skip_line_breaks(s: Seq<char>, k: int)
    requires
        0 <= k <= s.len(),
        forall|j: int| 0 <= j < k ==> (#[trigger] s[j] == '\r' || s[j] == '\n'),
        k == s.len() || !(s[k] == '\r' || s[k] == '\n'),
    ensures
        skip_line_breaks(s) == s.skip(k),
    decreases k,
{
    if k > 0 {
        assert(s.drop_first().skip(k - 1) =~= s.skip(k));
        lemma_skip_line_breaks(s.drop_first(), k - 1);
    } else {
        assert(s.skip(0) =~= s);
    }
}

/// Split stored blueprint content into its YAML frontmatter and its trimmed
/// body, or say why it has none.
pub fn split_frontmatter(raw: &str) -> (r: Result<(String, String), String>)
    ensures
        match r {
            Ok((yaml, body)) => frontmatter_split(raw@) == Ok::<_, Seq<char>>((yaml@, body@)),
            Err(e) => frontmatter_split(raw@) == Err::<(Seq<char>, Seq<char>), _>(e@),
        },
{
    let v = chars_of(raw);
    let (a, b) = trim_bounds(&v, 0, v.len());
    assert(v@.subrange(0, v@.len() as int) =~= v@);
    let t = vec_slice(&v, a, b);
    let dashes = chars_of("---");
    proof {
        assert(t@.skip(0) =~= t@);
        reveal_strlit("---");
        reveal_strlit("\n---");
    }
    if !starts_with_at(&t, 0, &dashes) {
        return Err("Blueprint content does not start with YAML frontmatter".to_owned());
    }
    let mut k: usize = 3;
    while k < t.len() && (t[k] == '\r' || t[k] == '\n')
        invariant
            3 <= k <= t@.len(),
            forall|j: int| 3 <= j < k ==> (#[trigger] t@[j] == '\r' || t@[j] == '\n'),
        decreases t.len() - k,
    {
        k = k + 1;
    }
    let after = vec_slice(&t, k, t.len());
    proof {
        let s3 = t@.skip(3);
        assert forall|j: int| 0 <= j < k - 3 implies (#[trigger] s3[j] == '\r' || s3[j] == '\n') by {
            assert(s3[j] == t@[j + 3]);
        }
        if k < t@.len() {
            assert(s3[k - 3] == t@[k as int]);
        }
        lemma_skip_line_breaks(s3, k - 3);
        assert(s3.skip(k - 3) =~= after@);
    }
    let closing = chars_of("\n---");
    match find_in(&after, &closing) {
        None => Err("No closing YAML frontmatter delimiter".to_owned()),
        Some(p) => {
            let yaml = string_of(&after, 0, p);
            let (c, d) = trim_bounds(&after, p + 4, after.len());
            let body = string_of(&after, c, d);
            proof {
                assert(after@.subrange(0, p as int) =~= after@.take(p as int));
                assert(after@.subrange(p + 4, after@.len() as int) =~= after@.skip(p + 4));
            }
            Ok((yaml, body))
        },
    }
}

/// `estimate_tokens`: roughly four UTF-8 bytes per token.
pub open spec fn token_estimate(text: Seq<char>) -> nat {
    utf8_len(text) / 4
}

/// A rough token count of `text`: its UTF-8 length in bytes over four.
pub fn estimate_tokens(text: &str) -> (n: usize)
    ensures
        n == token_estimate(text@),
{
    byte_len(text) / 4
}

/// A freshly parsed blueprint: frontmatter fields and body, version 1,
/// counted as one successful execution, created and updated at `now`.
pub open spec fn parsed_blueprint(
    front: BlueprintFrontmatter,
    body: Seq<char>,
    now: UtcInstant,
    bp: Blueprint,
) -> bool {
    &&& bp.id == front.id
    &&& bp.name == front.name
    &&& bp.version == 1
    &&& bp.created == now
    &&& bp.updated == now
    &&& bp.trigger_patterns == front.trigger_patterns
    &&& bp.task_signature == front.task_signature
    &&& bp.semantic_tags == front.semantic_tags
    &&& bp.times_executed == 1
    &&& bp.times_succeeded == 1
    &&& bp.times_failed == 0
    &&& bp.avg_tool_calls == 0
    &&& bp.avg_duration_secs == 0
    &&& bp.owner_user_id@ == Seq::<char>::empty()
    &&& bp.body@ == body
    &&& bp.token_count == token_estimate(body)
}

/// The blueprint made from parsed frontmatter and body, stamped at `now`.
pub fn blueprint_from_parts(front: BlueprintFrontmatter, body: String, now: UtcInstant) -> (bp: Blueprint)
    ensures
        parsed_blueprint(front, body@, now, bp),
{
    let token_count = estimate_tokens(body.as_str());
    Blueprint {
        id: front.id,
        name: front.name,
        version: 1,
        created: now,
        updated: now,
        trigger_patterns: front.trigger_patterns,
        task_signature: front.task_signature,
        semantic_tags: front.semantic_tags,
        times_executed: 1,
        times_succeeded: 1,
        times_failed: 0,
        avg_tool_calls: 0,
        avg_duration_secs: 0,
        owner_user_id: String::new(),
        body,
        token_count,
    }
}

/// The blueprint made from parsed frontmatter and body, stamped with the
/// current time.
pub fn new_parsed_blueprint(front: BlueprintFrontmatter, body: String) -> (bp: Blueprint)
    ensures
        exists|now: UtcInstant| parsed_blueprint(front, body@, now, bp),
{
    let now = now_utc();
    blueprint_from_parts(front, body, now)
}

} // verus!
