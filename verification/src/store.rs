use vstd::prelude::*;
use crate::clock::{date_chars, get_current_timestamp};
use crate::digits::{u32_dec, u32_to_string};
use crate::text::{contains_str, contains_sub, trim_spec, trim_str};
use crate::thought::Thought;

verus! {

/// The largest id present, or 0 for the empty store.
pub open spec fn max_id(s: Seq<Thought>) -> int
    decreases s.len(),
{
    if s.len() == 0 {
        0
    } else {
        let rest = max_id(s.drop_last());
        if s.last().id as int > rest {
            s.last().id as int
        } else {
            rest
        }
    }
}

/// The id the store assigns to the next added record: one past the
/// largest id present, and 1 for the empty store. It is not a count of
/// records, so gaps left by removal persist.
pub open spec fn next_id(s: Seq<Thought>) -> int {
    max_id(s) + 1
}

pub proof fn lemma_max_id_bound(s: Seq<Thought>)
    ensures
        max_id(s) >= 0,
        forall|i: int| 0 <= i < s.len() ==> (#[trigger] s[i]).id as int <= max_id(s),
    decreases s.len(),
{
    if s.len() > 0 {
        lemma_max_id_bound(s.drop_last());
        assert(forall|i: int| 0 <= i < s.len() - 1 ==> #[trigger] s[i] == s.drop_last()[i]);
    }
}

/// The largest id seen from the front: the head against the rest.
pub proof fn lemma_max_id_cons(s: Seq<Thought>)
    requires
        s.len() > 0,
    ensures
        max_id(s) == if s[0].id as int > max_id(s.skip(1)) {
            s[0].id as int
        } else {
            max_id(s.skip(1))
        },
    decreases s.len(),
{
    if s.len() == 1 {
        assert(s.drop_last() =~= Seq::<Thought>::empty());
        assert(s.skip(1) =~= Seq::<Thought>::empty());
    } else {
        lemma_max_id_cons(s.drop_last());
        assert(s.drop_last().skip(1) =~= s.skip(1).drop_last());
        assert(s.skip(1).len() > 0);
        assert(s.skip(1).last() == s.last());
        assert(s.drop_last()[0] == s[0]);
    }
}

/// Computes the next id as the original does: one more than the largest
/// id seen so far, starting from 1.
pub fn get_next_id(rows: &Vec<Thought>) -> (r: u32)
    requires
        max_id(rows@) < u32::MAX as int,
    ensures
        r as int == next_id(rows@),
{
    proof {
        lemma_max_id_bound(rows@);
        assert(rows@.take(0) =~= Seq::<Thought>::empty());
    }
    let mut id: u32 = 1;
    let mut i: usize = 0;
    while i < rows.len()
        invariant
            0 <= i <= rows@.len(),
            max_id(rows@) < u32::MAX as int,
            forall|j: int| 0 <= j < rows@.len() ==> (#[trigger] rows@[j]).id as int <= max_id(
                rows@,
            ),
            id as int == max_id(rows@.take(i as int)) + 1,
        decreases rows@.len() - i,
    {
        let rid = rows[i].id;
        if rid >= id {
            id = rid + 1;
        }
        i = i + 1;
        proof {
            let t = rows@.take(i as int);
            assert(t.drop_last() =~= rows@.take(i as int - 1));
            assert(t.last() == rows@[i as int - 1]);
        }
    }
    proof {
        assert(rows@.take(rows@.len() as int) =~= rows@);
    }
    id
}

/// Appends a new record built from the given message, tags and
/// timestamp: the next id is assigned, message and tags are trimmed,
/// and every existing record is kept in place.
pub fn add_thought_at(thought: &str, tags: &str, timestamp: String, rows: Vec<Thought>) -> (r: Vec<
    Thought,
>)
    requires
        max_id(rows@) < u32::MAX as int,
    ensures
        r@.len() == rows@.len() + 1,
        r@.drop_last() == rows@,
        r@.last().id as int == next_id(rows@),
        r@.last().timestamp == timestamp,
        r@.last().message@ == trim_spec(thought@),
        r@.last().tags@ == trim_spec(tags@),
{
    let mut rows = rows;
    let id = get_next_id(&rows);
    let message = trim_str(thought);
    let tag_text = trim_str(tags);
    rows.push(Thought { id, timestamp, message, tags: tag_text });
    proof {
        assert(rows@.drop_last() =~= rows@.subrange(0, rows@.len() - 1));
    }
    rows
}

/// Appends a new record stamped with the current date from the clock.
pub fn add_thought(thought: &str, tags: &str, rows: Vec<Thought>) -> (r: Vec<Thought>)
    requires
        max_id(rows@) < u32::MAX as int,
    ensures
        r@.len() == rows@.len() + 1,
        r@.drop_last() == rows@,
        r@.last().id as int == next_id(rows@),
        date_chars(r@.last().timestamp@),
        r@.last().timestamp@.len() >= 10,
        r@.last().message@ == trim_spec(thought@),
        r@.last().tags@ == trim_spec(tags@),
{
    let timestamp = get_current_timestamp();
    add_thought_at(thought, tags, timestamp, rows)
}

/// New identifiers are monotonic: the id assigned next is strictly
/// greater than every id present, and 1 exactly when the store is empty.
pub proof fn lemma_next_id_monotonic(s: Seq<Thought>)
    ensures
        forall|i: int| 0 <= i < s.len() ==> ((#[trigger] s[i]).id as int) < next_id(s),
        s.len() == 0 ==> next_id(s) == 1,
{
    lemma_max_id_bound(s);
}

/// The store invariant: within one snapshot, no two records share an id.
pub open spec fn ids_unique(s: Seq<Thought>) -> bool {
    forall|i: int, j: int|
        0 <= i < j < s.len() ==> (#[trigger] s[i]).id != (#[trigger] s[j]).id
}

/// Adding keeps ids unique: the id assigned to the new record differs
/// from every id already present.
pub proof fn lemma_add_preserves_unique_ids(s: Seq<Thought>, t: Thought)
    requires
        ids_unique(s),
        t.id as int == next_id(s),
    ensures
        ids_unique(s.push(t)),
{
    lemma_max_id_bound(s);
    let sp = s.push(t);
    assert forall|i: int, j: int| 0 <= i < j < sp.len() implies (sp[i]).id != (sp[j]).id by {
        if j == s.len() {
            assert(sp[i] == s[i]);
            assert(sp[j] == t);
        } else {
            assert(sp[i] == s[i]);
            assert(sp[j] == s[j]);
        }
    }
}

/// True when a record's id, rendered in decimal, equals the given
/// identifier string.
pub open spec fn id_matches(t: Thought, id: Seq<char>) -> bool {
    u32_dec(t.id as nat) == id
}

/// The sequence with the first record matching the identifier removed,
/// and unchanged when none matches.
pub open spec fn remove_first(s: Seq<Thought>, id: Seq<char>) -> Seq<Thought>
    decreases s.len(),
{
    if s.len() == 0 {
        s
    } else if id_matches(s[0], id) {
        s.skip(1)
    } else {
        seq![s[0]] + remove_first(s.skip(1), id)
    }
}

/// Removing an identifier that is not present is a no-op.
pub proof fn lemma_remove_absent(s: Seq<Thought>, id: Seq<char>)
    requires
        forall|i: int| 0 <= i < s.len() ==> !id_matches(#[trigger] s[i], id),
    ensures
        remove_first(s, id) == s,
    decreases s.len(),
{
    if s.len() > 0 {
        assert(!id_matches(s[0], id));
        assert(forall|i: int| 0 <= i < s.skip(1).len() ==> #[trigger] s.skip(1)[i] == s[i + 1]);
        lemma_remove_absent(s.skip(1), id);
        assert(seq![s[0]] + s.skip(1) =~= s);
    }
}

proof fn lemma_remove_first_at(s: Seq<Thought>, id: Seq<char>, i: int)
    requires
        0 <= i < s.len(),
        id_matches(s[i], id),
        forall|j: int| 0 <= j < i ==> !id_matches(#[trigger] s[j], id),
    ensures
        remove_first(s, id) == s.remove(i),
    decreases s.len(),
{
    if i == 0 {
        assert(s.remove(0) =~= s.skip(1));
    } else {
        assert(!id_matches(s[0], id));
        assert(forall|j: int| 0 <= j < s.skip(1).len() ==> #[trigger] s.skip(1)[j] == s[j + 1]);
        lemma_remove_first_at(s.skip(1), id, i - 1);
        assert(seq![s[0]] + s.skip(1).remove(i - 1) =~= s.remove(i));
    }
}

/// Removes at most one record: the first, in stored order, whose id in
/// decimal form equals the given identifier string. Remaining ids are
/// neither renumbered nor compacted; an absent id is a silent no-op.
pub fn remove_thought(id: &String, rows: Vec<Thought>) -> (r: Vec<Thought>)
    ensures
        r@ == remove_first(rows@, id@),
{
    let mut kept = rows;
    let ghost orig = kept@;
    let mut i: usize = 0;
    while i < kept.len()
        invariant
            kept@ == orig,
            orig == rows@,
            0 <= i <= orig.len(),
            forall|j: int| 0 <= j < i ==> !id_matches(#[trigger] orig[j], id@),
        decreases orig.len() - i,
    {
        let rendered = u32_to_string(kept[i].id);
        if rendered.eq(id) {
            proof {
                assert(id_matches(orig[i as int], id@));
                lemma_remove_first_at(orig, id@, i as int);
            }
            kept.remove(i);
            return kept;
        }
        i = i + 1;
    }
    proof {
        lemma_remove_absent(orig, id@);
    }
    kept
}

proof fn lemma_remove_first_max_le(s: Seq<Thought>, id: Seq<char>)
    ensures
        max_id(remove_first(s, id)) <= max_id(s),
    decreases s.len(),
{
    if s.len() > 0 {
        lemma_max_id_cons(s);
        if id_matches(s[0], id) {
        } else {
            lemma_remove_first_max_le(s.skip(1), id);
            let rf = seq![s[0]] + remove_first(s.skip(1), id);
            assert(rf[0] == s[0]);
            assert(rf.skip(1) =~= remove_first(s.skip(1), id));
            lemma_max_id_cons(rf);
        }
    }
}

proof fn lemma_remove_first_max_eq(s: Seq<Thought>, id: Seq<char>)
    requires
        forall|k: int|
            0 <= k < s.len() && id_matches(#[trigger] s[k], id) ==> ((s[k].id as int) < max_id(s)),
    ensures
        max_id(remove_first(s, id)) == max_id(s),
    decreases s.len(),
{
    if s.len() > 0 {
        lemma_max_id_cons(s);
        lemma_max_id_bound(s);
        if id_matches(s[0], id) {
            assert((s[0].id as int) < max_id(s));
        } else {
            let rf = seq![s[0]] + remove_first(s.skip(1), id);
            assert(rf[0] == s[0]);
            assert(rf.skip(1) =~= remove_first(s.skip(1), id));
            lemma_max_id_cons(rf);
            if (s[0].id as int) == max_id(s) {
                lemma_remove_first_max_le(s.skip(1), id);
            } else {
                assert(max_id(s.skip(1)) == max_id(s));
                assert(forall|k: int|
                    0 <= k < s.skip(1).len() ==> #[trigger] s.skip(1)[k] == s[k + 1]);
                lemma_remove_first_max_eq(s.skip(1), id);
            }
        }
    }
}

/// Identifiers are not reused after removal, provided the removed id is
/// not the largest one present: the id assigned next is unchanged by
/// the removal and strictly greater than every id in the original
/// store, the removed one included.
pub proof fn lemma_id_non_reuse(s: Seq<Thought>, id: Seq<char>)
    requires
        forall|k: int|
            0 <= k < s.len() && id_matches(#[trigger] s[k], id) ==> ((s[k].id as int) < max_id(s)),
    ensures
        next_id(remove_first(s, id)) == next_id(s),
        forall|k: int|
            0 <= k < s.len() ==> ((#[trigger] s[k]).id as int) < next_id(remove_first(s, id)),
{
    lemma_remove_first_max_eq(s, id);
    lemma_max_id_bound(s);
}

/// Discards every record, whatever the contents were.
pub open spec fn cleared(s: Seq<Thought>) -> Seq<Thought> {
    Seq::empty()
}

/// Unconditionally empties the store.
pub fn remove_all_thoughts(rows: Vec<Thought>) -> (r: Vec<Thought>)
    ensures
        r@ == cleared(rows@),
        r@.len() == 0,
{
    let mut rows = rows;
    rows.clear();
    rows
}

/// Clearing is idempotent: clearing an already cleared store changes
/// nothing, and the result is the empty sequence for any store.
pub proof fn lemma_clear_idempotent(s: Seq<Thought>)
    ensures
        cleared(cleared(s)) == cleared(s),
        cleared(s).len() == 0,
{
}

/// True when a record's tags contain the filter as a substring.
pub open spec fn tag_matches(t: Thought, tag: Seq<char>) -> bool {
    contains_sub(t.tags@, tag)
}

/// The records whose tags contain the filter, in stored order.
pub open spec fn filter_by_tag(s: Seq<Thought>, tag: Seq<char>) -> Seq<Thought> {
    s.filter(|t: Thought| tag_matches(t, tag))
}

proof fn lemma_filter_tag_props(s: Seq<Thought>, tag: Seq<char>)
    ensures
        forall|i: int|
            0 <= i < filter_by_tag(s, tag).len() ==> tag_matches(
                #[trigger] filter_by_tag(s, tag)[i],
                tag,
            ),
        forall|i: int|
            0 <= i < s.len() && tag_matches(#[trigger] s[i], tag) ==> filter_by_tag(
                s,
                tag,
            ).contains(s[i]),
    decreases s.len(),
{
    reveal(Seq::filter);
    if s.len() > 0 {
        lemma_filter_tag_props(s.drop_last(), tag);
        let f = filter_by_tag(s, tag);
        let fp = filter_by_tag(s.drop_last(), tag);
        assert forall|i: int| 0 <= i < f.len() implies tag_matches(f[i], tag) by {
            if tag_matches(s.last(), tag) {
                if i < fp.len() {
                    assert(f[i] == fp[i]);
                } else {
                    assert(f[i] == s.last());
                }
            } else {
                assert(f[i] == fp[i]);
            }
        }
        assert forall|i: int| 0 <= i < s.len() && tag_matches(s[i], tag) implies f.contains(
            s[i],
        ) by {
            if i == s.len() - 1 {
                assert(f[f.len() - 1] == s.last());
            } else {
                assert(s.drop_last()[i] == s[i]);
                assert(fp.contains(s[i]));
                let j = choose|j: int| 0 <= j < fp.len() && fp[j] == s[i];
                assert(f[j] == s[i]);
            }
        }
    }
}

proof fn lemma_filter_preimage(s: Seq<Thought>, tag: Seq<char>, k: int)
    requires
        0 <= k < filter_by_tag(s, tag).len(),
    ensures
        exists|k2: int| 0 <= k2 < s.len() && #[trigger] s[k2] == filter_by_tag(s, tag)[k],
    decreases s.len(),
{
    reveal(Seq::filter);
    let f = filter_by_tag(s, tag);
    let fp = filter_by_tag(s.drop_last(), tag);
    if tag_matches(s.last(), tag) {
        if k < fp.len() {
            lemma_filter_preimage(s.drop_last(), tag, k);
            let k2 = choose|k2: int| 0 <= k2 < s.drop_last().len() && s.drop_last()[k2] == fp[k];
            assert(s[k2] == f[k]);
        } else {
            assert(f[k] == s.last());
            assert(s[s.len() - 1] == f[k]);
        }
    } else {
        lemma_filter_preimage(s.drop_last(), tag, k);
        let k2 = choose|k2: int| 0 <= k2 < s.drop_last().len() && s.drop_last()[k2] == fp[k];
        assert(s[k2] == f[k]);
    }
}

/// Filtering preserves the store's order: any two records of the
/// filtered result occur at increasing positions of the store.
pub proof fn lemma_filter_order(s: Seq<Thought>, tag: Seq<char>, i: int, j: int)
    requires
        0 <= i < j < filter_by_tag(s, tag).len(),
    ensures
        exists|i2: int, j2: int|
            #![trigger s[i2], s[j2]]
            0 <= i2 < j2 < s.len() && s[i2] == filter_by_tag(s, tag)[i] && s[j2] == filter_by_tag(
                s,
                tag,
            )[j],
    decreases s.len(),
{
    reveal(Seq::filter);
    let f = filter_by_tag(s, tag);
    let fp = filter_by_tag(s.drop_last(), tag);
    if tag_matches(s.last(), tag) && j == fp.len() {
        lemma_filter_preimage(s.drop_last(), tag, i);
        let i2 = choose|i2: int| 0 <= i2 < s.drop_last().len() && s.drop_last()[i2] == fp[i];
        assert(s[i2] == f[i]);
        assert(s[s.len() - 1] == f[j]);
    } else {
        lemma_filter_order(s.drop_last(), tag, i, j);
        let (i2, j2) = choose|i2: int, j2: int|
            0 <= i2 < j2 < s.drop_last().len() && s.drop_last()[i2] == filter_by_tag(
                s.drop_last(),
                tag,
            )[i] && s.drop_last()[j2] == filter_by_tag(s.drop_last(), tag)[j];
        assert(s[i2] == f[i]);
        assert(s[j2] == f[j]);
    }
}

/// Filtering keeps exactly the records whose tags contain the filter as
/// a substring: none that lack it, and every one that has it.
pub proof fn lemma_filter_containment(s: Seq<Thought>, tag: Seq<char>)
    ensures
        forall|i: int|
            0 <= i < filter_by_tag(s, tag).len() ==> tag_matches(
                #[trigger] filter_by_tag(s, tag)[i],
                tag,
            ),
        forall|i: int|
            0 <= i < s.len() && tag_matches(#[trigger] s[i], tag) ==> filter_by_tag(
                s,
                tag,
            ).contains(s[i]),
{
    lemma_filter_tag_props(s, tag);
}

/// Returns the records to display: all of them without a filter, and
/// exactly those whose tags contain the filter as a substring
/// otherwise. The store itself is left untouched; an empty result with
/// a nonempty store means nothing matched.
pub fn list_thoughts(rows: &Vec<Thought>, tag_filter: Option<&String>) -> (r: Vec<Thought>)
    ensures
        match tag_filter {
            Some(tag) => r@ == filter_by_tag(rows@, tag@),
            None => r@ == rows@,
        },
{
    let mut out: Vec<Thought> = Vec::new();
    match tag_filter {
        None => {
            let mut i: usize = 0;
            proof {
                assert(rows@.take(0) =~= Seq::<Thought>::empty());
            }
            while i < rows.len()
                invariant
                    0 <= i <= rows@.len(),
                    out@ == rows@.take(i as int),
                decreases rows@.len() - i,
            {
                out.push(rows[i].clone());
                i = i + 1;
                proof {
                    assert(rows@.take(i as int) =~= rows@.take(i as int - 1).push(
                        rows@[i as int - 1],
                    ));
                }
            }
            proof {
                assert(rows@.take(rows@.len() as int) =~= rows@);
            }
        },
        Some(tag) => {
            let mut i: usize = 0;
            proof {
                reveal(Seq::filter);
                assert(rows@.take(0) =~= Seq::<Thought>::empty());
            }
            while i < rows.len()
                invariant
                    0 <= i <= rows@.len(),
                    out@ == filter_by_tag(rows@.take(i as int), tag@),
                decreases rows@.len() - i,
            {
                let t = &rows[i];
                let keep = contains_str(t.tags.as_str(), tag.as_str());
                if keep {
                    out.push(t.clone());
                }
                i = i + 1;
                proof {
                    reveal(Seq::filter);
                    let pre = rows@.take(i as int - 1);
                    let post = rows@.take(i as int);
                    assert(post.drop_last() =~= pre);
                    assert(post.last() == rows@[i as int - 1]);
                }
            }
            proof {
                assert(rows@.take(rows@.len() as int) =~= rows@);
            }
        },
    }
    out
}

} // verus!
