//! What the merge of sorted tables is: one entry for each key, the newest.
use crate::persists::bytes::{lemma_lex_lt_total, lemma_lex_lt_transitive, lex_lt};
use crate::persists::sst::sorted_string_table::{
    find_key, lemma_find_key, lemma_find_key_concat, strictly_sorted,
};
use crate::persists::sst::table_result::EntryModel;
use vstd::prelude::*;

verus! {

/// What each of `inputs` has under `key`.
pub open spec fn candidates(inputs: Seq<Seq<EntryModel>>, key: Seq<u8>) -> Seq<Option<EntryModel>> {
    inputs.map_values(|entries: Seq<EntryModel>| find_key(entries, key))
}

/// The place of the newest of `found`: the one with the largest sequence
/// number, and of several with that number the first. It is -1 where nothing
/// was found.
pub open spec fn newest_index(found: Seq<Option<EntryModel>>) -> int
    decreases found.len(),
{
    if found.len() == 0 {
        -1
    } else {
        let before = newest_index(found.drop_last());
        match found.last() {
            None => before,
            Some(e) => if before >= 0 && found[before]->0.seq >= e.seq {
                before
            } else {
                found.len() - 1
            },
        }
    }
}

/// The newest entry that `inputs` have under `key`: the one with the largest
/// sequence number, and of several with that number the one of the first
/// input.
pub open spec fn newest(inputs: Seq<Seq<EntryModel>>, key: Seq<u8>) -> Option<EntryModel> {
    let found = candidates(inputs, key);
    if newest_index(found) >= 0 {
        found[newest_index(found)]
    } else {
        None
    }
}

/// `out` is the merge of `inputs`: it is sorted by key with no key twice, and
/// under every key it has the newest entry that the inputs have.
pub open spec fn is_merge_of(out: Seq<EntryModel>, inputs: Seq<Seq<EntryModel>>) -> bool {
    &&& strictly_sorted(out)
    &&& forall|key: Seq<u8>| #[trigger] find_key(out, key) == newest(inputs, key)
}

/// The merge of `inputs`.
pub open spec fn merged(inputs: Seq<Seq<EntryModel>>) -> Seq<EntryModel> {
    choose|out: Seq<EntryModel>| is_merge_of(out, inputs)
}

/// The entry at `winner` is the newest of `found`.
pub open spec fn wins(found: Seq<Option<EntryModel>>, winner: int) -> bool {
    &&& 0 <= winner < found.len()
    &&& found[winner] is Some
    &&& forall|t: int|
        0 <= t < found.len() && (#[trigger] found[t]) is Some ==> {
            ||| found[winner]->0.seq > found[t]->0.seq
            ||| (found[winner]->0.seq == found[t]->0.seq && winner <= t)
        }
}

/// `newest_index` gives the place of the newest, and -1 only where nothing
/// was found.
pub proof fn lemma_newest_index_wins(found: Seq<Option<EntryModel>>)
    ensures
        newest_index(found) >= 0 ==> wins(found, newest_index(found)),
        newest_index(found) < 0 ==> newest_index(found) == -1 && forall|t: int|
            0 <= t < found.len() ==> (#[trigger] found[t]) is None,
    decreases found.len(),
{
    if found.len() > 0 {
        let front = found.drop_last();
        lemma_newest_index_wins(front);
        let before = newest_index(front);
        let now = newest_index(found);
        if now >= 0 {
            assert forall|t: int| 0 <= t < found.len() && (#[trigger] found[t]) is Some implies {
                ||| found[now]->0.seq > found[t]->0.seq
                ||| (found[now]->0.seq == found[t]->0.seq && now <= t)
            } by {
                if t < front.len() {
                    assert(front[t] == found[t]);
                    if before >= 0 {
                        assert(front[before] == found[before]);
                    }
                }
            }
            if now < front.len() {
                assert(front[now] == found[now]);
            }
        } else {
            assert forall|t: int| 0 <= t < found.len() implies (#[trigger] found[t]) is None by {
                if t < front.len() {
                    assert(front[t] == found[t]);
                }
            }
        }
    }
}

/// There is one newest only.
pub proof fn lemma_wins_unique(found: Seq<Option<EntryModel>>, winner: int)
    requires
        wins(found, winner),
    ensures
        newest_index(found) == winner,
{
    lemma_newest_index_wins(found);
    let now = newest_index(found);
    if now < 0 {
        assert(found[winner] is None);
    } else {
        assert(found[now] is Some);
        assert(found[winner] is Some);
    }
}

/// In sorted entries, what comes before an entry has another key.
pub proof fn lemma_sorted_prefix_lacks_key(entries: Seq<EntryModel>, at: int)
    requires
        strictly_sorted(entries),
        0 <= at < entries.len(),
    ensures
        find_key(entries.take(at), entries[at].key) is None,
        find_key(entries.take(at + 1), entries[at].key) == Some(entries[at]),
{
    let front = entries.take(at);
    lemma_find_key(front, entries[at].key);
    if let Some(e) = find_key(front, entries[at].key) {
        let i = choose|i: int| 0 <= i < front.len() && front[i] == e;
        assert(lex_lt(entries[i].key, entries[at].key));
        lemma_lex_lt_total(entries[i].key, entries[at].key);
    }
    assert(entries.take(at + 1) =~= front + seq![entries[at]]);
    lemma_find_key_concat(front, seq![entries[at]], entries[at].key);
    assert(seq![entries[at]].drop_first() =~= Seq::<EntryModel>::empty());
}

/// One entry more changes nothing under the other keys.
pub proof fn lemma_take_step_other_key(entries: Seq<EntryModel>, at: int, key: Seq<u8>)
    requires
        0 <= at < entries.len(),
        entries[at].key != key,
    ensures
        find_key(entries.take(at + 1), key) == find_key(entries.take(at), key),
{
    let front = entries.take(at);
    assert(entries.take(at + 1) =~= front + seq![entries[at]]);
    lemma_find_key_concat(front, seq![entries[at]], key);
    assert(seq![entries[at]].drop_first() =~= Seq::<EntryModel>::empty());
    assert(find_key(Seq::<EntryModel>::empty(), key) is None);
    assert(find_key(seq![entries[at]], key) is None);
}

/// Entries whose keys are all smaller than `key` have nothing under it.
pub proof fn lemma_smaller_keys_lack_key(entries: Seq<EntryModel>, key: Seq<u8>)
    requires
        forall|j: int| 0 <= j < entries.len() ==> (#[trigger] entries[j]).key != key,
    ensures
        find_key(entries, key) is None,
{
    lemma_find_key(entries, key);
    if let Some(e) = find_key(entries, key) {
        let i = choose|i: int| 0 <= i < entries.len() && entries[i] == e;
        assert(entries[i].key == key);
    }
}

/// In sorted entries a lookup finds the entry that has the key.
pub proof fn lemma_find_in_sorted(entries: Seq<EntryModel>, at: int)
    requires
        strictly_sorted(entries),
        0 <= at < entries.len(),
    ensures
        find_key(entries, entries[at].key) == Some(entries[at]),
{
    lemma_find_key(entries, entries[at].key);
    match find_key(entries, entries[at].key) {
        Some(e) => {
            let i = choose|i: int| 0 <= i < entries.len() && entries[i] == e;
            if i < at {
                lemma_lex_lt_total(entries[i].key, entries[at].key);
            } else if at < i {
                lemma_lex_lt_total(entries[at].key, entries[i].key);
            }
        },
        None => {},
    }
}

/// Two sorted sequences that have the same entry under every key are the
/// same sequence.
pub proof fn lemma_sorted_same_lookups(a: Seq<EntryModel>, b: Seq<EntryModel>)
    requires
        strictly_sorted(a),
        strictly_sorted(b),
        forall|key: Seq<u8>| #[trigger] find_key(a, key) == find_key(b, key),
    ensures
        a == b,
    decreases a.len(),
{
    if a.len() == 0 {
        if b.len() > 0 {
            lemma_find_in_sorted(b, 0);
            assert(find_key(a, b[0].key) == find_key(b, b[0].key));
        }
        assert(a =~= b);
    } else {
        lemma_find_in_sorted(a, 0);
        assert(find_key(a, a[0].key) == find_key(b, a[0].key));
        lemma_find_key(b, a[0].key);
        let i = choose|i: int| 0 <= i < b.len() && b[i] == a[0];
        lemma_find_in_sorted(b, 0);
        assert(find_key(a, b[0].key) == find_key(b, b[0].key));
        lemma_find_key(a, b[0].key);
        let j = choose|j: int| 0 <= j < a.len() && a[j] == b[0];
        if i > 0 {
            assert(lex_lt(b[0].key, b[i].key));
            if j > 0 {
                assert(lex_lt(a[0].key, a[j].key));
            }
            lemma_lex_lt_total(a[0].key, b[0].key);
        }
        assert(a[0] == b[0]);
        let a_rest = a.drop_first();
        let b_rest = b.drop_first();
        assert(strictly_sorted(a_rest)) by {
            assert forall|x: int, y: int| 0 <= x < y < a_rest.len() implies lex_lt(
                (#[trigger] a_rest[x]).key,
                (#[trigger] a_rest[y]).key,
            ) by {
                assert(lex_lt(a[x + 1].key, a[y + 1].key));
            }
        }
        assert(strictly_sorted(b_rest)) by {
            assert forall|x: int, y: int| 0 <= x < y < b_rest.len() implies lex_lt(
                (#[trigger] b_rest[x]).key,
                (#[trigger] b_rest[y]).key,
            ) by {
                assert(lex_lt(b[x + 1].key, b[y + 1].key));
            }
        }
        assert forall|key: Seq<u8>| #[trigger] find_key(a_rest, key) == find_key(b_rest, key) by {
            assert(find_key(a, key) == find_key(b, key));
            if key == a[0].key {
                assert forall|x: int| 0 <= x < a_rest.len() implies (#[trigger] a_rest[x]).key
                    != key by {
                    assert(lex_lt(a[0].key, a[x + 1].key));
                    lemma_lex_lt_total(a[0].key, a[x + 1].key);
                }
                assert forall|x: int| 0 <= x < b_rest.len() implies (#[trigger] b_rest[x]).key
                    != key by {
                    assert(lex_lt(b[0].key, b[x + 1].key));
                    lemma_lex_lt_total(b[0].key, b[x + 1].key);
                }
                lemma_smaller_keys_lack_key(a_rest, key);
                lemma_smaller_keys_lack_key(b_rest, key);
            }
        }
        lemma_sorted_same_lookups(a_rest, b_rest);
        assert(a =~= seq![a[0]] + a_rest);
        assert(b =~= seq![b[0]] + b_rest);
    }
}

/// Inputs have one merge only.
pub proof fn lemma_merge_unique(out: Seq<EntryModel>, inputs: Seq<Seq<EntryModel>>)
    requires
        is_merge_of(out, inputs),
    ensures
        merged(inputs) == out,
{
    let other = merged(inputs);
    assert(is_merge_of(other, inputs));
    assert forall|key: Seq<u8>| #[trigger] find_key(other, key) == find_key(out, key) by {
        assert(find_key(other, key) == newest(inputs, key));
        assert(find_key(out, key) == newest(inputs, key));
    }
    lemma_sorted_same_lookups(other, out);
}

/// The order in which a merge takes the entries that stand first in their
/// inputs: `x` of input `s` before `y` of input `t`. The smaller key goes
/// first, of one key the larger sequence number, and of one version the one
/// of the earlier input.
pub open spec fn pops_before(x: EntryModel, s: int, y: EntryModel, t: int) -> bool {
    ||| lex_lt(x.key, y.key)
    ||| (x.key == y.key && x.seq > y.seq)
    ||| (x.key == y.key && x.seq == y.seq && s < t)
}

/// Of two entries of different inputs one is taken before the other.
pub proof fn lemma_pops_before_total(x: EntryModel, s: int, y: EntryModel, t: int)
    requires
        s != t,
    ensures
        pops_before(x, s, y, t) || pops_before(y, t, x, s),
{
    lemma_lex_lt_total(x.key, y.key);
}

/// The order of taking is transitive.
pub proof fn lemma_pops_before_transitive(
    x: EntryModel,
    s: int,
    y: EntryModel,
    t: int,
    z: EntryModel,
    u: int,
)
    requires
        pops_before(x, s, y, t),
        pops_before(y, t, z, u),
    ensures
        pops_before(x, s, z, u),
{
    if lex_lt(x.key, y.key) && lex_lt(y.key, z.key) {
        lemma_lex_lt_transitive(x.key, y.key, z.key);
    }
}

/// What a merge has taken of its inputs when it has taken `taken[t]` entries
/// of input `t`.
pub open spec fn consumed(inputs: Seq<Seq<EntryModel>>, taken: Seq<int>) -> Seq<Seq<EntryModel>> {
    Seq::new(inputs.len(), |t: int| inputs[t].take(taken[t]))
}

/// All inputs are sorted by key, with no key twice.
pub open spec fn inputs_sorted(inputs: Seq<Seq<EntryModel>>) -> bool {
    forall|t: int| 0 <= t < inputs.len() ==> strictly_sorted(#[trigger] inputs[t])
}

/// The number of entries that a merge has yet to take from the first `n`
/// inputs.
pub open spec fn pending(inputs: Seq<Seq<EntryModel>>, taken: Seq<int>, n: int) -> int
    decreases n,
{
    if n <= 0 {
        0
    } else {
        pending(inputs, taken, n - 1) + inputs[n - 1].len() - taken[n - 1]
    }
}

/// Taking one entry leaves one entry less to take.
pub proof fn lemma_pending_step(inputs: Seq<Seq<EntryModel>>, taken: Seq<int>, t: int, n: int)
    requires
        0 <= n <= inputs.len(),
        taken.len() == inputs.len(),
        0 <= t < inputs.len(),
        forall|u: int| 0 <= u < inputs.len() ==> 0 <= #[trigger] taken[u] <= inputs[u].len(),
    ensures
        pending(inputs, taken, n) >= 0,
        pending(inputs, taken.update(t, taken[t] + 1), n) == pending(inputs, taken, n) - (if t
            < n {
            1int
        } else {
            0int
        }),
    decreases n,
{
    if n > 0 {
        lemma_pending_step(inputs, taken, t, n - 1);
    }
}

/// What holds while a merge runs. `done` is the merge of what was taken so
/// far. The entry that was written last, if there is one, came from input
/// `last_source`; no entry that was taken has a larger key, and it is taken
/// before every entry that now stands first in its input.
pub open spec fn merge_inv(
    inputs: Seq<Seq<EntryModel>>,
    taken: Seq<int>,
    done: Seq<EntryModel>,
    last_source: int,
) -> bool {
    &&& taken.len() == inputs.len()
    &&& forall|t: int| 0 <= t < inputs.len() ==> 0 <= #[trigger] taken[t] <= inputs[t].len()
    &&& is_merge_of(done, consumed(inputs, taken))
    &&& done.len() == 0 ==> forall|t: int| 0 <= t < inputs.len() ==> #[trigger] taken[t] == 0
    &&& done.len() > 0 ==> {
        &&& 0 <= last_source < inputs.len()
        &&& 0 < taken[last_source]
        &&& done.last() == inputs[last_source][taken[last_source] - 1]
        &&& wins(candidates(consumed(inputs, taken), done.last().key), last_source)
        &&& forall|t: int, j: int|
            0 <= t < inputs.len() && 0 <= j < taken[t] ==> !lex_lt(
                done.last().key,
                (#[trigger] inputs[t][j]).key,
            )
        &&& forall|t: int|
            0 <= t < inputs.len() && taken[t] < inputs[t].len() ==> pops_before(
                done.last(),
                last_source,
                (#[trigger] inputs[t])[taken[t]],
                t,
            )
    }
}

/// A merge that has taken nothing has written nothing.
pub proof fn lemma_merge_start(inputs: Seq<Seq<EntryModel>>, taken: Seq<int>)
    requires
        taken.len() == inputs.len(),
        forall|t: int| 0 <= t < inputs.len() ==> #[trigger] taken[t] == 0,
    ensures
        merge_inv(inputs, taken, Seq::empty(), 0),
{
    let done = Seq::<EntryModel>::empty();
    let parts = consumed(inputs, taken);
    assert forall|key: Seq<u8>| #[trigger] find_key(done, key) == newest(parts, key) by {
        let found = candidates(parts, key);
        lemma_newest_index_wins(found);
        if newest_index(found) >= 0 {
            let w = newest_index(found);
            assert(parts[w] =~= Seq::<EntryModel>::empty());
            assert(found[w] == find_key(parts[w], key));
        }
    }
}

/// A merge that has taken everything has written the merge of its inputs.
pub proof fn lemma_merge_end(
    inputs: Seq<Seq<EntryModel>>,
    taken: Seq<int>,
    done: Seq<EntryModel>,
    last_source: int,
)
    requires
        merge_inv(inputs, taken, done, last_source),
        forall|t: int| 0 <= t < inputs.len() ==> #[trigger] taken[t] == inputs[t].len(),
    ensures
        is_merge_of(done, inputs),
        merged(inputs) == done,
{
    let parts = consumed(inputs, taken);
    assert(parts =~= inputs) by {
        assert forall|t: int| 0 <= t < inputs.len() implies #[trigger] parts[t] == inputs[t] by {
            assert(inputs[t].take(taken[t]) =~= inputs[t]);
        }
    }
    lemma_merge_unique(done, inputs);
}

/// Taking an entry changes nothing under the other keys.
proof fn lemma_step_other_keys(
    inputs: Seq<Seq<EntryModel>>,
    taken: Seq<int>,
    t: int,
    key: Seq<u8>,
)
    requires
        taken.len() == inputs.len(),
        0 <= t < inputs.len(),
        0 <= taken[t] < inputs[t].len(),
        inputs[t][taken[t]].key != key,
    ensures
        candidates(consumed(inputs, taken.update(t, taken[t] + 1)), key) == candidates(
            consumed(inputs, taken),
            key,
        ),
        newest(consumed(inputs, taken.update(t, taken[t] + 1)), key) == newest(
            consumed(inputs, taken),
            key,
        ),
{
    let after = consumed(inputs, taken.update(t, taken[t] + 1));
    let before = consumed(inputs, taken);
    lemma_take_step_other_key(inputs[t], taken[t], key);
    assert(candidates(after, key) =~= candidates(before, key));
}

/// Taking an entry puts it under its key, in the input it came from, and
/// changes nothing in the other inputs.
proof fn lemma_step_own_key(inputs: Seq<Seq<EntryModel>>, taken: Seq<int>, t: int)
    requires
        inputs_sorted(inputs),
        taken.len() == inputs.len(),
        0 <= t < inputs.len(),
        0 <= taken[t] < inputs[t].len(),
    ensures
        candidates(consumed(inputs, taken.update(t, taken[t] + 1)), inputs[t][taken[t]].key)
            == candidates(consumed(inputs, taken), inputs[t][taken[t]].key).update(
            t,
            Some(inputs[t][taken[t]]),
        ),
        candidates(consumed(inputs, taken), inputs[t][taken[t]].key)[t] is None,
{
    let key = inputs[t][taken[t]].key;
    let after = consumed(inputs, taken.update(t, taken[t] + 1));
    let before = consumed(inputs, taken);
    lemma_sorted_prefix_lacks_key(inputs[t], taken[t]);
    assert(candidates(after, key) =~= candidates(before, key).update(
        t,
        Some(inputs[t][taken[t]]),
    ));
}

/// One step of a merge where the entry that is taken has the key of the entry
/// that was written last: nothing is written.
pub proof fn lemma_merge_skip(
    inputs: Seq<Seq<EntryModel>>,
    taken: Seq<int>,
    done: Seq<EntryModel>,
    last_source: int,
    t: int,
)
    requires
        inputs_sorted(inputs),
        merge_inv(inputs, taken, done, last_source),
        0 <= t < inputs.len(),
        taken[t] < inputs[t].len(),
        done.len() > 0,
        done.last().key == inputs[t][taken[t]].key,
    ensures
        merge_inv(inputs, taken.update(t, taken[t] + 1), done, last_source),
{
    let e = inputs[t][taken[t]];
    let last = done.last();
    let s = last_source;
    let after_taken = taken.update(t, taken[t] + 1);
    let before = consumed(inputs, taken);
    let after = consumed(inputs, after_taken);
    lemma_lex_lt_total(last.key, e.key);
    if t == s {
        assert(lex_lt(inputs[t][taken[t] - 1].key, inputs[t][taken[t]].key));
    }
    assert(pops_before(last, s, inputs[t][taken[t]], t));
    lemma_step_own_key(inputs, taken, t);
    let found_before = candidates(before, e.key);
    let found_after = candidates(after, e.key);
    assert(wins(found_after, s)) by {
        assert(found_after[s] == found_before[s]);
        assert forall|u: int| 0 <= u < found_after.len() && (#[trigger] found_after[u])
            is Some implies {
            ||| found_after[s]->0.seq > found_after[u]->0.seq
            ||| (found_after[s]->0.seq == found_after[u]->0.seq && s <= u)
        } by {
            if u != t {
                assert(found_after[u] == found_before[u]);
            } else {
                lemma_sorted_prefix_lacks_key(inputs[s], taken[s] - 1);
                assert(inputs[s].take(taken[s] - 1 + 1) == before[s]);
                assert(found_before[s] == Some(last));
            }
        }
    }
    lemma_wins_unique(found_before, s);
    lemma_wins_unique(found_after, s);
    assert forall|key: Seq<u8>| #[trigger] find_key(done, key) == newest(after, key) by {
        assert(find_key(done, key) == newest(before, key));
        if key != e.key {
            lemma_step_other_keys(inputs, taken, t, key);
        } else {
            assert(found_after[s] == found_before[s]);
        }
    }
    assert forall|u: int, j: int| 0 <= u < inputs.len() && 0 <= j < after_taken[u] implies !lex_lt(
        last.key,
        (#[trigger] inputs[u][j]).key,
    ) by {
        if u == t && j == taken[t] {
        } else {
            assert(0 <= j < taken[u]);
        }
    }
    assert forall|u: int| 0 <= u < inputs.len() && after_taken[u] < inputs[u].len() implies pops_before(
        last,
        s,
        (#[trigger] inputs[u])[after_taken[u]],
        u,
    ) by {
        if u == t {
            assert(lex_lt(inputs[t][taken[t]].key, inputs[t][taken[t] + 1].key));
        } else {
            assert(pops_before(last, s, inputs[u][taken[u]], u));
        }
    }
}

/// One step of a merge where the entry that is taken has another key than
/// the entry that was written last, or is the first to be taken: it is
/// written.
pub proof fn lemma_merge_emit(
    inputs: Seq<Seq<EntryModel>>,
    taken: Seq<int>,
    done: Seq<EntryModel>,
    last_source: int,
    t: int,
)
    requires
        inputs_sorted(inputs),
        merge_inv(inputs, taken, done, last_source),
        0 <= t < inputs.len(),
        taken[t] < inputs[t].len(),
        done.len() > 0 ==> done.last().key != inputs[t][taken[t]].key,
        forall|u: int|
            0 <= u < inputs.len() && u != t && taken[u] < inputs[u].len() ==> pops_before(
                inputs[t][taken[t]],
                t,
                (#[trigger] inputs[u])[taken[u]],
                u,
            ),
    ensures
        merge_inv(inputs, taken.update(t, taken[t] + 1), done.push(inputs[t][taken[t]]), t),
{
    let e = inputs[t][taken[t]];
    let after_taken = taken.update(t, taken[t] + 1);
    let after_done = done.push(e);
    let before = consumed(inputs, taken);
    let after = consumed(inputs, after_taken);
    // every entry that was taken has a smaller key than `e`
    assert forall|u: int, j: int| 0 <= u < inputs.len() && 0 <= j < taken[u] implies lex_lt(
        (#[trigger] inputs[u][j]).key,
        e.key,
    ) by {
        let last = done.last();
        assert(pops_before(last, last_source, inputs[t][taken[t]], t));
        assert(!lex_lt(last.key, inputs[u][j].key));
        lemma_lex_lt_total(last.key, inputs[u][j].key);
        if last.key != inputs[u][j].key {
            lemma_lex_lt_transitive(inputs[u][j].key, last.key, e.key);
        }
    }
    if done.len() > 0 {
        assert(pops_before(done.last(), last_source, inputs[t][taken[t]], t));
    }
    assert(strictly_sorted(after_done)) by {
        assert forall|i: int, j: int| 0 <= i < j < after_done.len() implies lex_lt(
            (#[trigger] after_done[i]).key,
            (#[trigger] after_done[j]).key,
        ) by {
            if j == done.len() {
                if i < done.len() - 1 {
                    assert(lex_lt(done[i].key, done[done.len() - 1].key));
                    lemma_lex_lt_transitive(done[i].key, done.last().key, e.key);
                }
            } else {
                assert(lex_lt(done[i].key, done[j].key));
            }
        }
    }
    lemma_step_own_key(inputs, taken, t);
    let found_before = candidates(before, e.key);
    let found_after = candidates(after, e.key);
    assert forall|u: int| 0 <= u < inputs.len() implies (#[trigger] found_before[u]) is None by {
        assert forall|j: int| 0 <= j < before[u].len() implies (#[trigger] before[u][j]).key
            != e.key by {
            assert(before[u][j] == inputs[u][j]);
            lemma_lex_lt_total(inputs[u][j].key, e.key);
        }
        lemma_smaller_keys_lack_key(before[u], e.key);
    }
    assert(wins(found_after, t)) by {
        assert forall|u: int| 0 <= u < found_after.len() && (#[trigger] found_after[u])
            is Some implies {
            ||| found_after[t]->0.seq > found_after[u]->0.seq
            ||| (found_after[t]->0.seq == found_after[u]->0.seq && t <= u)
        } by {
            if u != t {
                assert(found_after[u] == found_before[u]);
            }
        }
    }
    lemma_wins_unique(found_after, t);
    assert forall|key: Seq<u8>| #[trigger] find_key(after_done, key) == newest(after, key) by {
        assert(after_done =~= done + seq![e]);
        lemma_find_key_concat(done, seq![e], key);
        assert(seq![e].drop_first() =~= Seq::<EntryModel>::empty());
        assert(find_key(Seq::<EntryModel>::empty(), key) is None);
        assert(find_key(done, key) == newest(before, key));
        if key != e.key {
            lemma_step_other_keys(inputs, taken, t, key);
        } else {
            lemma_newest_index_wins(found_before);
        }
    }
    assert forall|u: int, j: int| 0 <= u < inputs.len() && 0 <= j < after_taken[u] implies !lex_lt(
        e.key,
        (#[trigger] inputs[u][j]).key,
    ) by {
        if u == t && j == taken[t] {
            lemma_lex_lt_total(e.key, e.key);
        } else {
            assert(lex_lt(inputs[u][j].key, e.key));
            lemma_lex_lt_total(inputs[u][j].key, e.key);
        }
    }
    assert forall|u: int| 0 <= u < inputs.len() && after_taken[u] < inputs[u].len() implies pops_before(
        e,
        t,
        (#[trigger] inputs[u])[after_taken[u]],
        u,
    ) by {
        if u == t {
            assert(lex_lt(inputs[t][taken[t]].key, inputs[t][taken[t] + 1].key));
        } else {
            assert(pops_before(inputs[t][taken[t]], t, inputs[u][taken[u]], u));
        }
    }
}

/// Every entry of a merge is an entry of one of the inputs.
pub proof fn lemma_merge_entry_from_input(
    out: Seq<EntryModel>,
    inputs: Seq<Seq<EntryModel>>,
    i: int,
) -> (place: (int, int))
    requires
        is_merge_of(out, inputs),
        0 <= i < out.len(),
    ensures
        0 <= place.0 < inputs.len(),
        0 <= place.1 < inputs[place.0].len(),
        inputs[place.0][place.1] == out[i],
{
    let key = out[i].key;
    lemma_find_in_sorted(out, i);
    assert(find_key(out, key) == newest(inputs, key));
    let found = candidates(inputs, key);
    let t = newest_index(found);
    lemma_newest_index_wins(found);
    lemma_find_key(inputs[t], key);
    let j = choose|j: int| 0 <= j < inputs[t].len() && inputs[t][j] == out[i];
    (t, j)
}

/// A merge of sorted inputs has each key once, and under the key of any entry
/// of an input it has an entry whose sequence number is not smaller.
pub proof fn lemma_merge_keeps_newest(
    out: Seq<EntryModel>,
    inputs: Seq<Seq<EntryModel>>,
    t: int,
    j: int,
) -> (i: int)
    requires
        inputs_sorted(inputs),
        is_merge_of(out, inputs),
        0 <= t < inputs.len(),
        0 <= j < inputs[t].len(),
    ensures
        0 <= i < out.len(),
        out[i].key == inputs[t][j].key,
        out[i].seq >= inputs[t][j].seq,
        forall|other: int| 0 <= other < out.len() && other != i ==> (#[trigger] out[other]).key
            != out[i].key,
{
    let e = inputs[t][j];
    lemma_find_in_sorted(inputs[t], j);
    let found = candidates(inputs, e.key);
    assert(found[t] == Some(e));
    lemma_newest_index_wins(found);
    let w = newest_index(found);
    assert(w >= 0) by {
        if w < 0 {
            assert(found[t] is None);
        }
    }
    assert(find_key(out, e.key) == newest(inputs, e.key));
    lemma_find_key(out, e.key);
    let i = choose|i: int| 0 <= i < out.len() && out[i] == found[w]->0;
    assert forall|other: int| 0 <= other < out.len() && other != i implies (#[trigger] out[other]).key
        != out[i].key by {
        if other < i {
            lemma_lex_lt_total(out[other].key, out[i].key);
        } else {
            lemma_lex_lt_total(out[i].key, out[other].key);
        }
    }
    i
}

} // verus!
