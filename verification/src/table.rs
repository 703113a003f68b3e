//! The mathematical model of a configuration table: a map from key to value,
//! what an override text does to it, and how it is rendered.

use crate::text::{lines, split_line};
use vstd::prelude::*;

verus! {

/// The table that a list of (key, value) pairs describes. Where a key occurs
/// more than once, its last pair counts.
pub open spec fn table_of(pairs: Seq<(Seq<char>, Seq<char>)>) -> Map<Seq<char>, Seq<char>>
    decreases pairs.len(),
{
    if pairs.len() == 0 {
        Map::empty()
    } else {
        table_of(pairs.drop_last()).insert(pairs.last().0, pairs.last().1)
    }
}

/// No key occurs in two pairs.
pub open spec fn distinct_keys(pairs: Seq<(Seq<char>, Seq<char>)>) -> bool {
    forall|i: int, j: int| 0 <= i < j < pairs.len() ==> (#[trigger] pairs[i]).0 != (#[trigger] pairs[j]).0
}

/// The keys of a list of pairs, in order.
pub open spec fn keys_of(pairs: Seq<(Seq<char>, Seq<char>)>) -> Seq<Seq<char>> {
    pairs.map_values(|p: (Seq<char>, Seq<char>)| p.0)
}

/// The views of a list of (key, value) strings.
pub open spec fn pairs_of(v: Seq<(String, String)>) -> Seq<(Seq<char>, Seq<char>)> {
    v.map_values(|p: (String, String)| (p.0@, p.1@))
}

/// The (key, value) pairs of the lines that stand before the first line
/// without `delim`: the lines that an override load applies.
pub open spec fn accepted(rows: Seq<Seq<char>>, delim: char) -> Seq<(Seq<char>, Seq<char>)>
    decreases rows.len(),
{
    if rows.len() == 0 {
        Seq::empty()
    } else {
        match split_line(rows[0], delim) {
            None => Seq::empty(),
            Some(kv) => seq![kv] + accepted(rows.drop_first(), delim),
        }
    }
}

/// The first line that holds no `delim`, if there is one.
pub open spec fn first_malformed(rows: Seq<Seq<char>>, delim: char) -> Option<Seq<char>>
    decreases rows.len(),
{
    if rows.len() == 0 {
        None
    } else {
        match split_line(rows[0], delim) {
            None => Some(rows[0]),
            Some(_) => first_malformed(rows.drop_first(), delim),
        }
    }
}

/// The value of `key` after the edits: that of the last edit that names the
/// key, or `initial` where none does.
pub open spec fn resolve(key: Seq<char>, initial: Seq<char>, edits: Seq<(Seq<char>, Seq<char>)>) -> Seq<char>
    decreases edits.len(),
{
    if edits.len() == 0 {
        initial
    } else if edits.last().0 == key {
        edits.last().1
    } else {
        resolve(key, initial, edits.drop_last())
    }
}

/// The table after the edits. Its keys are those of `entries`: an edit of a
/// key that the table lacks changes nothing.
pub open spec fn overridden(
    entries: Map<Seq<char>, Seq<char>>,
    edits: Seq<(Seq<char>, Seq<char>)>,
) -> Map<Seq<char>, Seq<char>> {
    Map::new(|k: Seq<char>| entries.dom().contains(k), |k: Seq<char>| resolve(k, entries[k], edits))
}

/// The table after an override load from the text `contents`.
pub open spec fn loaded(entries: Map<Seq<char>, Seq<char>>, contents: Seq<char>, delim: char) -> Map<
    Seq<char>,
    Seq<char>,
> {
    overridden(entries, accepted(lines(contents), delim))
}

/// The message that reports `line` as lacking the delimiter.
pub open spec fn malformed_message(line: Seq<char>) -> Seq<char> {
    "No delimiter found in line: "@ + line
}

/// One rendered entry: the key, the delimiter, a space, the value, a line feed.
pub open spec fn entry_line(key: Seq<char>, delim: char, value: Seq<char>) -> Seq<char> {
    key + seq![delim, ' '] + value + seq!['\n']
}

/// The rendered entries, one after the other.
pub open spec fn render(pairs: Seq<(Seq<char>, Seq<char>)>, delim: char) -> Seq<char>
    decreases pairs.len(),
{
    if pairs.len() == 0 {
        Seq::empty()
    } else {
        render(pairs.drop_last(), delim) + entry_line(pairs.last().0, delim, pairs.last().1)
    }
}

/// A key that no pair names is not in the table.
pub proof fn lemma_table_absent(pairs: Seq<(Seq<char>, Seq<char>)>, key: Seq<char>)
    requires
        forall|i: int| 0 <= i < pairs.len() ==> (#[trigger] pairs[i]).0 != key,
    ensures
        !table_of(pairs).dom().contains(key),
    decreases pairs.len(),
{
    if pairs.len() > 0 {
        let head = pairs.drop_last();
        assert forall|i: int| 0 <= i < head.len() implies (#[trigger] head[i]).0 != key by {
            assert(head[i] == pairs[i]);
        }
        lemma_table_absent(head, key);
        assert(pairs.last() == pairs[pairs.len() - 1]);
    }
}

/// Construction keeps every default: where no key occurs twice, the table
/// holds each pair's key with that pair's value.
pub proof fn lemma_table_holds(pairs: Seq<(Seq<char>, Seq<char>)>, i: int)
    requires
        distinct_keys(pairs),
        0 <= i < pairs.len(),
    ensures
        table_of(pairs).dom().contains(pairs[i].0),
        table_of(pairs)[pairs[i].0] == pairs[i].1,
    decreases pairs.len(),
{
    let head = pairs.drop_last();
    if i < pairs.len() - 1 {
        assert forall|a: int, b: int| 0 <= a < b < head.len() implies (#[trigger] head[a]).0 != (
        #[trigger] head[b]).0 by {
            assert(head[a] == pairs[a] && head[b] == pairs[b]);
        }
        lemma_table_holds(head, i);
        assert(head[i] == pairs[i]);
        assert(pairs[i].0 != pairs[pairs.len() - 1].0);
    }
}

/// Replacing the value of one pair replaces the value of its key in the table.
pub proof fn lemma_table_update(pairs: Seq<(Seq<char>, Seq<char>)>, i: int, value: Seq<char>)
    requires
        distinct_keys(pairs),
        0 <= i < pairs.len(),
    ensures
        distinct_keys(pairs.update(i, (pairs[i].0, value))),
        table_of(pairs.update(i, (pairs[i].0, value))) == table_of(pairs).insert(pairs[i].0, value),
    decreases pairs.len(),
{
    let key = pairs[i].0;
    let next = pairs.update(i, (key, value));
    let head = pairs.drop_last();
    assert forall|a: int, b: int| 0 <= a < b < next.len() implies (#[trigger] next[a]).0 != (
    #[trigger] next[b]).0 by {
        assert(next[a].0 == pairs[a].0 && next[b].0 == pairs[b].0);
    }
    if i == pairs.len() - 1 {
        assert(next.drop_last() =~= head);
        assert(table_of(next) =~= table_of(pairs).insert(key, value));
    } else {
        assert forall|a: int, b: int| 0 <= a < b < head.len() implies (#[trigger] head[a]).0 != (
        #[trigger] head[b]).0 by {
            assert(head[a] == pairs[a] && head[b] == pairs[b]);
        }
        lemma_table_update(head, i, value);
        assert(head[i] == pairs[i]);
        assert(next.drop_last() =~= head.update(i, (key, value)));
        assert(next.last() == pairs.last());
        assert(pairs[i].0 != pairs[pairs.len() - 1].0);
        assert(table_of(next) =~= table_of(pairs).insert(key, value));
    }
}

/// One more edit sets the value of its key, if the table has that key, and
/// changes nothing otherwise.
pub proof fn lemma_overridden_push(
    entries: Map<Seq<char>, Seq<char>>,
    edits: Seq<(Seq<char>, Seq<char>)>,
    key: Seq<char>,
    value: Seq<char>,
)
    ensures
        overridden(entries, edits.push((key, value))) == if entries.dom().contains(key) {
            overridden(entries, edits).insert(key, value)
        } else {
            overridden(entries, edits)
        },
{
    let more = edits.push((key, value));
    assert(more.drop_last() =~= edits);
    assert(more.last() == (key, value));
    if entries.dom().contains(key) {
        assert(overridden(entries, more) =~= overridden(entries, edits).insert(key, value));
    } else {
        assert(overridden(entries, more) =~= overridden(entries, edits));
    }
}

/// Resolving a key twice over the same edits gives what resolving it once
/// gives.
pub proof fn lemma_resolve_twice(key: Seq<char>, initial: Seq<char>, edits: Seq<(Seq<char>, Seq<char>)>)
    ensures
        resolve(key, resolve(key, initial, edits), edits) == resolve(key, initial, edits),
{
    lemma_resolve_settled(key, initial, resolve(key, initial, edits), edits);
}

/// Edits that name the key decide its value whatever it was before; edits
/// that do not name it leave it as it was.
pub proof fn lemma_resolve_settled(
    key: Seq<char>,
    first: Seq<char>,
    second: Seq<char>,
    edits: Seq<(Seq<char>, Seq<char>)>,
)
    ensures
        resolve(key, first, edits) == resolve(key, second, edits) || (resolve(key, first, edits)
            == first && resolve(key, second, edits) == second),
    decreases edits.len(),
{
    if edits.len() > 0 && edits.last().0 != key {
        lemma_resolve_settled(key, first, second, edits.drop_last());
    }
}

/// An override load never adds or removes a key.
pub proof fn lemma_load_keeps_keys(entries: Map<Seq<char>, Seq<char>>, contents: Seq<char>, delim: char)
    ensures
        loaded(entries, contents, delim).dom() == entries.dom(),
{
    assert(loaded(entries, contents, delim).dom() =~= entries.dom());
}

/// Loading the same text a second time changes nothing: the table after two
/// loads is the table after one.
pub proof fn lemma_reload_idempotent(entries: Map<Seq<char>, Seq<char>>, contents: Seq<char>, delim: char)
    ensures
        loaded(loaded(entries, contents, delim), contents, delim) == loaded(entries, contents, delim),
{
    let edits = accepted(lines(contents), delim);
    let once = overridden(entries, edits);
    let twice = overridden(once, edits);
    assert forall|k: Seq<char>| once.dom().contains(k) implies #[trigger] twice[k] == once[k] by {
        lemma_resolve_twice(k, entries[k], edits);
    }
    assert(twice =~= once);
}

} // verus!
