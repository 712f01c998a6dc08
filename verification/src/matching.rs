//! Category-based matching of stored blueprints, and the choice of the one
//! to load.

use vstd::prelude::*;
use crate::model::{Blueprint, StoredEntry, StoredMetadata};
use crate::percent::{
    double_at_most, double_le, lemma_double_le_total, lemma_double_le_trans, normal_or_zero,
    success_rate_double,
};
use crate::ranking::{rank_by_success_rate, ranking_of, rate_of};
use crate::text::{dedup, lemma_dedup_distinct, push_unique_string, str_eq, views};

verus! {

/// The name of what `str::to_lowercase` returns: the Unicode lowercase
/// mapping of each character, with the final-sigma rule.
pub uninterp spec fn lowercase(s: Seq<char>) -> Seq<char>;

/// `str::to_lowercase` of std. Claims only that the result is a function of
/// the argument, named `lowercase`.
#[verifier::external_body]
fn to_lowercase(s: &str) -> (r: String)
    ensures
        r@ == lowercase(s@),
{
    s.to_lowercase()
}

/// The string items of an optional JSON array, in order.
pub open spec fn string_items(items: Seq<Option<String>>) -> Seq<Seq<char>>
    decreases items.len(),
{
    if items.len() == 0 {
        seq![]
    } else {
        let rest = string_items(items.drop_last());
        match items.last() {
            Some(s) => rest.push(s@),
            None => rest,
        }
    }
}

/// The semantic tags recorded in an entry's metadata.
pub open spec fn entry_tags(meta: StoredMetadata) -> Seq<Seq<char>> {
    match meta.semantic_tags {
        Some(items) => string_items(items@),
        None => seq![],
    }
}

/// The semantic tags of all entries, in order, repeats included.
pub open spec fn all_tags(entries: Seq<StoredEntry>) -> Seq<Seq<char>>
    decreases entries.len(),
{
    if entries.len() == 0 {
        seq![]
    } else {
        all_tags(entries.drop_last()) + entry_tags(entries.last().metadata)
    }
}

/// The distinct semantic tags of stored blueprints, in the order of first
/// appearance: the grounded set of categories a classifier can pick from.
pub fn available_categories(entries: &[StoredEntry]) -> (tags: Vec<String>)
    ensures
        views(tags@) == dedup(all_tags(entries@)),
{
    let mut tags: Vec<String> = Vec::new();
    let mut i: usize = 0;
    while i < entries.len()
        invariant
            i <= entries@.len(),
            views(tags@) == dedup(all_tags(entries@.take(i as int))),
        decreases entries.len() - i,
    {
        assert(entries@.take(i + 1).drop_last() =~= entries@.take(i as int));
        let ghost before = all_tags(entries@.take(i as int));
        match &entries[i].metadata.semantic_tags {
            Some(items) => {
                let mut j: usize = 0;
                assert(before + string_items(items@.take(0)) =~= before);
                while j < items.len()
                    invariant
                        j <= items@.len(),
                        views(tags@) == dedup(before + string_items(items@.take(j as int))),
                    decreases items.len() - j,
                {
                    assert(items@.take(j + 1).drop_last() =~= items@.take(j as int));
                    match &items[j] {
                        Some(tag) => {
                            let ghost names = before + string_items(items@.take(j as int));
                            push_unique_string(&mut tags, tag.as_str());
                            assert((names.push(tag@)).drop_last() =~= names);
                            assert(before + string_items(items@.take(j + 1)) =~= names.push(
                                tag@,
                            ));
                        },
                        None => {
                            assert(before + string_items(items@.take(j + 1)) =~= before
                                + string_items(items@.take(j as int)));
                        },
                    }
                    j = j + 1;
                }
                assert(items@.take(j as int) =~= items@);
            },
            None => {
                assert(before + entry_tags(entries@[i as int].metadata) =~= before);
            },
        }
        i = i + 1;
    }
    assert(entries@.take(i as int) =~= entries@);
    tags
}

/// The category list names each category once, and exactly the tags that
/// stored blueprints carry.
pub proof fn law_categories_distinct(entries: Seq<StoredEntry>)
    ensures
        dedup(all_tags(entries)).no_duplicates(),
        forall|tag: Seq<char>|
            dedup(all_tags(entries)).contains(tag) <==> all_tags(entries).contains(tag),
{
    lemma_dedup_distinct(all_tags(entries));
}


/// Whether one of an entry's semantic tags equals `category` once both are
/// lowercased.
pub open spec fn has_tag(meta: StoredMetadata, category: Seq<char>) -> bool {
    exists|k: int|
        0 <= k < entry_tags(meta).len() && lowercase(#[trigger] entry_tags(meta)[k]) == lowercase(
            category,
        )
}

proof fn lemma_string_items_push(items: Seq<Option<String>>, x: Option<String>)
    ensures
        string_items(items.push(x)) == match x {
            Some(s) => string_items(items).push(s@),
            None => string_items(items),
        },
{
    assert(items.push(x).drop_last() =~= items);
}

/// Whether an entry's semantic tags contain `category`, compared in lowercase.
fn has_category_tag(meta: &StoredMetadata, category_lower: &str) -> (b: bool)
    requires
        exists|c: Seq<char>| category_lower@ == lowercase(c),
    ensures
        forall|c: Seq<char>| category_lower@ == lowercase(c) ==> b == has_tag(*meta, c),
{
    match &meta.semantic_tags {
        None => false,
        Some(items) => {
            let mut j: usize = 0;
            while j < items.len()
                invariant
                    j <= items@.len(),
                    meta.semantic_tags == Some(*items),
                    forall|k: int|
                        0 <= k < string_items(items@.take(j as int)).len() ==> lowercase(
                            #[trigger] string_items(items@.take(j as int))[k],
                        ) != category_lower@,
                decreases items.len() - j,
            {
                proof {
                    lemma_string_items_push(items@.take(j as int), items@[j as int]);
                    assert(items@.take(j + 1) =~= items@.take(j as int).push(items@[j as int]));
                }
                match &items[j] {
                    Some(tag) => {
                        let lower = to_lowercase(tag.as_str());
                        if str_eq(lower.as_str(), category_lower) {
                            proof {
                                lemma_string_items_prefix(items@, j + 1);
                                let k = string_items(items@.take(j as int)).len() as int;
                                assert(string_items(items@.take(j + 1))[k] == tag@);
                                assert(entry_tags(*meta)[k] == tag@);
                            }
                            return true;
                        }
                    },
                    None => {},
                }
                j = j + 1;
            }
            assert(items@.take(j as int) =~= items@);
            false
        },
    }
}

proof fn lemma_string_items_prefix(items: Seq<Option<String>>, n: int)
    requires
        0 <= n <= items.len(),
    ensures
        string_items(items.take(n)).len() <= string_items(items).len(),
        forall|k: int|
            0 <= k < string_items(items.take(n)).len() ==> #[trigger] string_items(items.take(n))[k]
                == string_items(items)[k],
    decreases items.len() - n,
{
    if n < items.len() {
        lemma_string_items_prefix(items, n + 1);
        lemma_string_items_push(items.take(n), items[n]);
        assert(items.take(n + 1) =~= items.take(n).push(items[n]));
        assert forall|k: int|
            0 <= k < string_items(items.take(n)).len() implies #[trigger] string_items(
                items.take(n),
            )[k] == string_items(items)[k] by {
            assert(string_items(items.take(n))[k] == string_items(items.take(n + 1))[k]);
        }
    } else {
        assert(items.take(n) =~= items);
    }
}

/// A parsed blueprint with the counters its stored metadata records put
/// back: each present value is narrowed to the field's width as `as` does.
pub open spec fn restored(bp: Blueprint, meta: StoredMetadata) -> Blueprint {
    Blueprint {
        version: match meta.version {
            Some(v) => v as u32,
            None => bp.version,
        },
        times_executed: match meta.times_executed {
            Some(v) => v as u32,
            None => bp.times_executed,
        },
        times_succeeded: match meta.times_succeeded {
            Some(v) => v as u32,
            None => bp.times_succeeded,
        },
        times_failed: match meta.times_failed {
            Some(v) => v as u32,
            None => bp.times_failed,
        },
        token_count: match meta.token_count {
            Some(v) => v as usize,
            None => bp.token_count,
        },
        ..bp
    }
}

/// Restore the metadata fields that parsing does not recover.
pub fn restore_metadata(bp: Blueprint, meta: &StoredMetadata) -> (r: Blueprint)
    ensures
        r == restored(bp, *meta),
{
    let mut bp = bp;
    if let Some(v) = meta.version {
        bp.version = v as u32;
    }
    if let Some(v) = meta.times_executed {
        bp.times_executed = v as u32;
    }
    if let Some(v) = meta.times_succeeded {
        bp.times_succeeded = v as u32;
    }
    if let Some(v) = meta.times_failed {
        bp.times_failed = v as u32;
    }
    if let Some(v) = meta.token_count {
        bp.token_count = v as usize;
    }
    bp
}

/// The blueprints of one category, in the order of their entries: each entry
/// whose tags contain the category (in lowercase) and whose content parsed,
/// with its stored counters restored. `parsed[i]` is the parse of entry `i`.
pub open spec fn in_category(
    entries: Seq<StoredEntry>,
    parsed: Seq<Result<Blueprint, String>>,
    category: Seq<char>,
) -> Seq<Blueprint>
    decreases entries.len(),
{
    if entries.len() == 0 || parsed.len() != entries.len() {
        seq![]
    } else {
        let rest = in_category(entries.drop_last(), parsed.drop_last(), category);
        match parsed.last() {
            Ok(bp) => if has_tag(entries.last().metadata, category) {
                rest.push(restored(bp, entries.last().metadata))
            } else {
                rest
            },
            Err(_) => rest,
        }
    }
}

/// The blueprints whose semantic tags contain `category`, from stored
/// entries and the parse of each entry's content, with their stored counters
/// restored. Entries that did not parse are skipped.
pub fn blueprints_in_category(
    entries: &[StoredEntry],
    parsed: Vec<Result<Blueprint, String>>,
    category: &str,
) -> (r: Vec<Blueprint>)
    requires
        parsed@.len() == entries@.len(),
    ensures
        r@ == in_category(entries@, parsed@, category@),
{
    let category_lower = to_lowercase(category);
    let ghost all_parsed = parsed@;
    let mut rest = parsed;
    let mut r: Vec<Blueprint> = Vec::new();
    let mut i: usize = 0;
    while i < entries.len()
        invariant
            all_parsed.len() == entries@.len(),
            i <= entries@.len(),
            category_lower@ == lowercase(category@),
            rest@ == all_parsed.skip(i as int),
            r@ == in_category(entries@.take(i as int), all_parsed.take(i as int), category@),
        decreases entries.len() - i,
    {
        let p = rest.remove(0);
        proof {
            assert(p == all_parsed[i as int]);
            assert(rest@ =~= all_parsed.skip(i + 1));
            assert(entries@.take(i + 1).drop_last() =~= entries@.take(i as int));
            assert(all_parsed.take(i + 1).drop_last() =~= all_parsed.take(i as int));
        }
        match p {
            Ok(bp) => {
                if has_category_tag(&entries[i].metadata, category_lower.as_str()) {
                    r.push(restore_metadata(bp, &entries[i].metadata));
                }
            },
            Err(_) => {},
        }
        i = i + 1;
    }
    assert(entries@.take(i as int) =~= entries@);
    assert(all_parsed.take(i as int) =~= all_parsed);
    r
}

/// The blueprints of one category (see `blueprints_in_category`), ranked
/// by success rate, best first; those of equal rate keep their entry order.
pub fn ranked_in_category(
    entries: &[StoredEntry],
    parsed: Vec<Result<Blueprint, String>>,
    category: &str,
) -> (r: Vec<Blueprint>)
    requires
        parsed@.len() == entries@.len(),
    ensures
        ranking_of(in_category(entries@, parsed@, category@), r@),
{
    rank_by_success_rate(blueprints_in_category(entries, parsed, category))
}

/// The index of the first blueprint with the highest success rate (0 for
/// an empty list).
pub open spec fn first_best(bps: Seq<Blueprint>) -> int
    decreases bps.len(),
{
    if bps.len() <= 1 {
        0
    } else {
        let j = first_best(bps.drop_last());
        if double_le(rate_of(bps.last()), rate_of(bps[j])) {
            j
        } else {
            bps.len() - 1
        }
    }
}

/// The first best blueprint has the highest success rate, and every one
/// before it has a lower one.
pub proof fn law_first_best_is_highest(bps: Seq<Blueprint>)
    requires
        bps.len() > 0,
    ensures
        0 <= first_best(bps) < bps.len(),
        forall|i: int|
            0 <= i < bps.len() ==> double_le(rate_of(#[trigger] bps[i]), rate_of(bps[first_best(bps)])),
        forall|i: int|
            0 <= i < first_best(bps) ==> !double_le(
                rate_of(bps[first_best(bps)]),
                rate_of(#[trigger] bps[i]),
            ),
    decreases bps.len(),
{
    if bps.len() > 1 {
        let rest = bps.drop_last();
        law_first_best_is_highest(rest);
        let j = first_best(rest);
        let last = bps.len() - 1;
        assert(rest[j] == bps[j]);
        if double_le(rate_of(bps.last()), rate_of(bps[j])) {
            assert forall|i: int| 0 <= i < bps.len() implies double_le(
                rate_of(#[trigger] bps[i]),
                rate_of(bps[j]),
            ) by {
                if i < last {
                    assert(rest[i] == bps[i]);
                }
            }
            assert forall|i: int| 0 <= i < j implies !double_le(
                rate_of(bps[j]),
                rate_of(#[trigger] bps[i]),
            ) by {
                assert(rest[i] == bps[i]);
            }
        } else {
            lemma_double_le_total(rate_of(bps.last()), rate_of(bps[j]));
            assert forall|i: int| 0 <= i < bps.len() implies double_le(
                rate_of(#[trigger] bps[i]),
                rate_of(bps[last]),
            ) by {
                if i < last {
                    assert(rest[i] == bps[i]);
                    lemma_double_le_trans(rate_of(bps[i]), rate_of(bps[j]), rate_of(bps[last]));
                }
            }
            assert forall|i: int| 0 <= i < last implies !double_le(
                rate_of(bps[last]),
                rate_of(#[trigger] bps[i]),
            ) by {
                assert(rest[i] == bps[i]);
                if double_le(rate_of(bps[last]), rate_of(bps[i])) {
                    lemma_double_le_trans(rate_of(bps[last]), rate_of(bps[i]), rate_of(bps[j]));
                }
            }
        }
    }
}

/// Select the blueprint to auto-load: the one with the highest success rate
/// (the first of them on a tie), unless it takes more than a quarter of the
/// total context, when only the catalog is shown. The caller decides between
/// full body and outline.
pub fn select_best_blueprint(
    blueprints: &[Blueprint],
    blueprint_budget: usize,
    total_context_limit: usize,
) -> (r: Option<&Blueprint>)
    ensures
        blueprints@.len() == 0 ==> r is None,
        blueprints@.len() > 0 ==> (r is Some <==> blueprints@[first_best(blueprints@)].token_count
            <= total_context_limit / 4),
        r matches Some(b) ==> *b == blueprints@[first_best(blueprints@)],
        r matches Some(b) ==> forall|i: int|
            0 <= i < blueprints@.len() ==> double_le(rate_of(#[trigger] blueprints@[i]), rate_of(*b)),
{
    if blueprints.len() == 0 {
        return None;
    }
    let mut best: usize = 0;
    let mut best_key = success_rate_double(blueprints[0].times_succeeded, blueprints[0].times_executed);
    let mut i: usize = 1;
    while i < blueprints.len()
        invariant
            1 <= i <= blueprints@.len(),
            best < i,
            best as int == first_best(blueprints@.take(i as int)),
            best_key.0 as nat == rate_of(blueprints@[best as int]).0,
            best_key.1 as nat == rate_of(blueprints@[best as int]).1,
            normal_or_zero((best_key.0 as nat, best_key.1 as nat)),
        decreases blueprints.len() - i,
    {
        let key = success_rate_double(blueprints[i].times_succeeded, blueprints[i].times_executed);
        proof {
            let t = blueprints@.take(i + 1);
            assert(t.drop_last() =~= blueprints@.take(i as int));
            assert(t.last() == blueprints@[i as int]);
            assert(t[best as int] == blueprints@[best as int]);
        }
        if !double_at_most(key, best_key) {
            best = i;
            best_key = key;
        }
        i = i + 1;
    }
    assert(blueprints@.take(i as int) =~= blueprints@);
    proof {
        law_first_best_is_highest(blueprints@);
    }
    let chosen = &blueprints[best];
    let hard_limit = total_context_limit / 4;
    if chosen.token_count > hard_limit {
        return None;
    }
    Some(chosen)
}

/// Counters written to storage come back unchanged: a parsed blueprint whose
/// stored metadata records `bp`'s version, execution counters and token
/// count gets them all back.
pub proof fn law_stored_counters_restored(bp: Blueprint, parsed: Blueprint, meta: StoredMetadata)
    requires
        meta.version == Some(bp.version as u64),
        meta.times_executed == Some(bp.times_executed as u64),
        meta.times_succeeded == Some(bp.times_succeeded as u64),
        meta.times_failed == Some(bp.times_failed as u64),
        meta.token_count == Some(bp.token_count as u64),
    ensures
        restored(parsed, meta).version == bp.version,
        restored(parsed, meta).times_executed == bp.times_executed,
        restored(parsed, meta).times_succeeded == bp.times_succeeded,
        restored(parsed, meta).times_failed == bp.times_failed,
        restored(parsed, meta).token_count == bp.token_count,
        restored(parsed, meta).id == parsed.id,
        restored(parsed, meta).body == parsed.body,
{
}

/// `b` is the parsed blueprint `p` (same id and body) with the version,
/// execution counters and token count that `meta` records, each narrowed as
/// `as` does, and the parsed value wherever `meta` records none.
pub open spec fn carries_stored_counters(b: Blueprint, p: Blueprint, meta: StoredMetadata) -> bool {
    &&& b.id == p.id
    &&& b.name == p.name
    &&& b.body == p.body
    &&& b.version == match meta.version {
        Some(v) => v as u32,
        None => p.version,
    }
    &&& b.times_executed == match meta.times_executed {
        Some(v) => v as u32,
        None => p.times_executed,
    }
    &&& b.times_succeeded == match meta.times_succeeded {
        Some(v) => v as u32,
        None => p.times_succeeded,
    }
    &&& b.times_failed == match meta.times_failed {
        Some(v) => v as u32,
        None => p.times_failed,
    }
    &&& b.token_count == match meta.token_count {
        Some(v) => v as usize,
        None => p.token_count,
    }
}

/// `b` is what entry `i` gives for `category`: the entry parsed, carries the
/// category, and `b` is its parse with the stored counters.
#[verifier::opaque]
pub open spec fn fetched_from(
    b: Blueprint,
    entries: Seq<StoredEntry>,
    parsed: Seq<Result<Blueprint, String>>,
    category: Seq<char>,
    i: int,
) -> bool {
    &&& 0 <= i < entries.len()
    &&& i < parsed.len()
    &&& parsed[i] is Ok
    &&& has_tag(entries[i].metadata, category)
    &&& carries_stored_counters(b, parsed[i]->Ok_0, entries[i].metadata)
}

proof fn lemma_fetched_from_last(
    entries: Seq<StoredEntry>,
    parsed: Seq<Result<Blueprint, String>>,
    category: Seq<char>,
)
    requires
        parsed.len() == entries.len(),
        entries.len() > 0,
        parsed.last() is Ok,
        has_tag(entries.last().metadata, category),
    ensures
        fetched_from(
            restored(parsed.last()->Ok_0, entries.last().metadata),
            entries,
            parsed,
            category,
            entries.len() - 1,
        ),
{
    reveal(fetched_from);
}

proof fn lemma_fetched_from_prefix(
    b: Blueprint,
    entries: Seq<StoredEntry>,
    parsed: Seq<Result<Blueprint, String>>,
    category: Seq<char>,
    i: int,
)
    requires
        parsed.len() == entries.len(),
        entries.len() > 0,
        fetched_from(b, entries.drop_last(), parsed.drop_last(), category, i),
    ensures
        fetched_from(b, entries, parsed, category, i),
{
    reveal(fetched_from);
    assert(entries.drop_last()[i] == entries[i]);
    assert(parsed.drop_last()[i] == parsed[i]);
}

/// `b` is what some entry gives for `category`.
pub open spec fn fetched_from_some(
    b: Blueprint,
    entries: Seq<StoredEntry>,
    parsed: Seq<Result<Blueprint, String>>,
    category: Seq<char>,
) -> bool {
    exists|i: int| fetched_from(b, entries, parsed, category, i)
}

/// Entry `i` gives one of the blueprints in `bps` for `category`.
pub open spec fn gives_one_of(
    bps: Seq<Blueprint>,
    entries: Seq<StoredEntry>,
    parsed: Seq<Result<Blueprint, String>>,
    category: Seq<char>,
    i: int,
) -> bool {
    exists|k: int| 0 <= k < bps.len() && fetched_from(bps[k], entries, parsed, category, i)
}

/// Every blueprint of a category comes from an entry that parsed and carries
/// the category, with the version, execution counters and token count that
/// the entry's metadata records (narrowed as `as` does) wherever it records
/// them, and the parsed values otherwise; and every such entry gives one.
pub proof fn law_in_category_restores_counters(
    entries: Seq<StoredEntry>,
    parsed: Seq<Result<Blueprint, String>>,
    category: Seq<char>,
)
    requires
        parsed.len() == entries.len(),
    ensures
        in_category(entries, parsed, category).len() <= entries.len(),
        forall|k: int|
            0 <= k < in_category(entries, parsed, category).len() ==> fetched_from_some(
                #[trigger] in_category(entries, parsed, category)[k],
                entries,
                parsed,
                category,
            ),
        forall|i: int|
            0 <= i < entries.len() && (#[trigger] parsed[i]) is Ok && has_tag(
                entries[i].metadata,
                category,
            ) ==> gives_one_of(in_category(entries, parsed, category), entries, parsed, category, i),
    decreases entries.len(),
{
    let r = in_category(entries, parsed, category);
    if entries.len() > 0 {
        let es = entries.drop_last();
        let ps = parsed.drop_last();
        let rest = in_category(es, ps, category);
        let n = entries.len() - 1;
        law_in_category_restores_counters(es, ps, category);
        assert(entries.last() == entries[n] && parsed.last() == parsed[n]);
        let grows = parsed[n] is Ok && has_tag(entries[n].metadata, category);
        if grows {
            assert(r == rest.push(restored(parsed[n]->Ok_0, entries[n].metadata)));
        } else {
            assert(r == rest);
        }
        assert forall|k: int| 0 <= k < r.len() implies fetched_from_some(
            #[trigger] r[k],
            entries,
            parsed,
            category,
        ) by {
            if k < rest.len() {
                assert(r[k] == rest[k]);
                assert(fetched_from_some(rest[k], es, ps, category));
                let i = choose|i: int| fetched_from(rest[k], es, ps, category, i);
                lemma_fetched_from_prefix(rest[k], entries, parsed, category, i);
            } else {
                assert(r[k] == restored(parsed.last()->Ok_0, entries.last().metadata));
                lemma_fetched_from_last(entries, parsed, category);
                assert(fetched_from(r[k], entries, parsed, category, n));
            }
        }
        assert forall|i: int|
            0 <= i < entries.len() && (#[trigger] parsed[i]) is Ok && has_tag(
                entries[i].metadata,
                category,
            ) implies gives_one_of(r, entries, parsed, category, i) by {
            if i < n {
                assert(es[i] == entries[i] && ps[i] == parsed[i]);
                assert(ps[i] is Ok);
                assert(gives_one_of(rest, es, ps, category, i));
                let k = choose|k: int|
                    0 <= k < rest.len() && fetched_from(rest[k], es, ps, category, i);
                assert(r[k] == rest[k]);
                lemma_fetched_from_prefix(rest[k], entries, parsed, category, i);
            } else {
                let k = rest.len() as int;
                assert(r[k] == restored(parsed[n]->Ok_0, entries[n].metadata));
                lemma_fetched_from_last(entries, parsed, category);
                assert(fetched_from(r[k], entries, parsed, category, i));
            }
        }
    } else {
        assert(r =~= Seq::<Blueprint>::empty());
    }
}
} // verus!
