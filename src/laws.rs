use vstd::prelude::*;

use crate::flatmap::{fold_entries, lemma_fold_last};
use crate::flatten::{decimal, flat_of, key_of, key_text, leaves_of, suffix_of};
use crate::value::Value;

verus! {

/// Last write wins: where two leaves of a flattening get the same key, the
/// output holds the value of the one visited later in depth-first order.
pub proof fn lemma_last_write_wins(
    sep: Seq<char>,
    prefix: Seq<char>,
    schema: bool,
    v: Value,
    j: int,
)
    requires
        leaves_of(sep, prefix, schema, Seq::empty(), Seq::empty(), v, 0) matches Some(l) && 0 <= j
            < l.len(),
    ensures
        ({
            let l = leaves_of(sep, prefix, schema, Seq::empty(), Seq::empty(), v, 0)->Some_0;
            let last = choose_last(l, l[j].0);
            &&& flat_of(sep, prefix, schema, Seq::empty(), Seq::empty(), v) matches Some(m)
            &&& m.contains_key(l[j].0)
            &&& m[l[j].0] == l[last].1
            &&& j <= last < l.len()
            &&& l[last].0 == l[j].0
            &&& forall|a: int| last < a < l.len() ==> #[trigger] l[a].0 != l[j].0
        }),
{
    let l = leaves_of(sep, prefix, schema, Seq::empty(), Seq::empty(), v, 0)->Some_0;
    let last = choose_last(l, l[j].0);
    lemma_choose_last(l, l[j].0, j);
    lemma_fold_last(l, last);
}

/// The index of the last entry of `s` under `k`, or -1 where there is none.
pub open spec fn choose_last(s: Seq<(Seq<char>, Value)>, k: Seq<char>) -> int
    decreases s.len(),
{
    if s.len() == 0 {
        -1
    } else if s.last().0 == k {
        s.len() - 1
    } else {
        choose_last(s.drop_last(), k)
    }
}

proof fn lemma_choose_last(s: Seq<(Seq<char>, Value)>, k: Seq<char>, j: int)
    requires
        0 <= j < s.len(),
        s[j].0 == k,
    ensures
        j <= choose_last(s, k) < s.len(),
        s[choose_last(s, k)].0 == k,
        forall|a: int| choose_last(s, k) < a < s.len() ==> #[trigger] s[a].0 != k,
    decreases s.len(),
{
    if s.last().0 != k {
        lemma_choose_last(s.drop_last(), k, j);
        let c = choose_last(s, k);
        assert forall|a: int| c < a < s.len() implies #[trigger] s[a].0 != k by {
            if a < s.len() - 1 {
                assert(s.drop_last()[a] == s[a]);
            }
        }
    }
}

/// A map with a key that is neither a string nor a character cannot be
/// flattened: the whole flattening fails.
pub proof fn lemma_invalid_key_rejected(
    sep: Seq<char>,
    prefix: Seq<char>,
    schema: bool,
    path: Seq<char>,
    key: Seq<char>,
    pairs: Vec<(Value, Value)>,
    j: int,
)
    requires
        0 <= j < pairs@.len(),
        key_text(pairs@[j].0) is None,
    ensures
        flat_of(sep, prefix, schema, path, key, Value::Mapping(pairs)) is None,
{
    lemma_walk_fails_from(sep, prefix, schema, path, key, pairs, j, 0);
}

proof fn lemma_walk_fails_from(
    sep: Seq<char>,
    prefix: Seq<char>,
    schema: bool,
    path: Seq<char>,
    key: Seq<char>,
    pairs: Vec<(Value, Value)>,
    j: int,
    i: int,
)
    requires
        0 <= i <= j < pairs@.len(),
        key_text(pairs@[j].0) is None,
    ensures
        leaves_of(sep, prefix, schema, path, key, Value::Mapping(pairs), i) is None,
    decreases j - i,
{
    if i < j {
        lemma_walk_fails_from(sep, prefix, schema, path, key, pairs, j, i + 1);
    }
}

/// A failure below propagates: where flattening a child of a map fails, the
/// flattening of the whole map fails.
pub proof fn lemma_map_child_failure(
    sep: Seq<char>,
    prefix: Seq<char>,
    schema: bool,
    path: Seq<char>,
    key: Seq<char>,
    pairs: Vec<(Value, Value)>,
    j: int,
)
    requires
        0 <= j < pairs@.len(),
        key_text(pairs@[j].0) matches Some(t) && leaves_of(
            sep,
            prefix,
            schema,
            key_of(sep, prefix, schema, path, key, Value::Mapping(pairs)),
            t,
            pairs@[j].1,
            0,
        ) is None,
    ensures
        flat_of(sep, prefix, schema, path, key, Value::Mapping(pairs)) is None,
{
    lemma_map_fails_from(sep, prefix, schema, path, key, pairs, j, 0);
}

proof fn lemma_map_fails_from(
    sep: Seq<char>,
    prefix: Seq<char>,
    schema: bool,
    path: Seq<char>,
    key: Seq<char>,
    pairs: Vec<(Value, Value)>,
    j: int,
    i: int,
)
    requires
        0 <= i <= j < pairs@.len(),
        key_text(pairs@[j].0) matches Some(t) && leaves_of(
            sep,
            prefix,
            schema,
            key_of(sep, prefix, schema, path, key, Value::Mapping(pairs)),
            t,
            pairs@[j].1,
            0,
        ) is None,
    ensures
        leaves_of(sep, prefix, schema, path, key, Value::Mapping(pairs), i) is None,
    decreases j - i,
{
    if i < j {
        lemma_map_fails_from(sep, prefix, schema, path, key, pairs, j, i + 1);
    }
}

/// A failure below propagates: where flattening an item of a sequence fails,
/// the flattening of the whole sequence fails.
pub proof fn lemma_sequence_item_failure(
    sep: Seq<char>,
    prefix: Seq<char>,
    schema: bool,
    path: Seq<char>,
    key: Seq<char>,
    items: Vec<Value>,
    j: int,
)
    requires
        0 <= j < items@.len(),
        leaves_of(
            sep,
            prefix,
            schema,
            key_of(sep, prefix, schema, path, key, Value::Sequence(items)),
            decimal(j as nat),
            items@[j],
            0,
        ) is None,
    ensures
        flat_of(sep, prefix, schema, path, key, Value::Sequence(items)) is None,
{
    lemma_sequence_fails_from(sep, prefix, schema, path, key, items, j, 0);
}

proof fn lemma_sequence_fails_from(
    sep: Seq<char>,
    prefix: Seq<char>,
    schema: bool,
    path: Seq<char>,
    key: Seq<char>,
    items: Vec<Value>,
    j: int,
    i: int,
)
    requires
        0 <= i <= j < items@.len(),
        leaves_of(
            sep,
            prefix,
            schema,
            key_of(sep, prefix, schema, path, key, Value::Sequence(items)),
            decimal(j as nat),
            items@[j],
            0,
        ) is None,
    ensures
        leaves_of(sep, prefix, schema, path, key, Value::Sequence(items), i) is None,
    decreases j - i,
{
    if i < j {
        lemma_sequence_fails_from(sep, prefix, schema, path, key, items, j, i + 1);
    }
}

/// The leaves of a map of text keys to leaf values, from its child `i` on.
pub open spec fn one_level(
    sep: Seq<char>,
    prefix: Seq<char>,
    schema: bool,
    pairs: Seq<(Value, Value)>,
    i: int,
) -> Seq<(Seq<char>, Value)> {
    Seq::new(
        (pairs.len() - i) as nat,
        |a: int|
            (
                prefix + key_text(pairs[i + a].0)->Some_0 + suffix_of(sep, schema, pairs[i + a].1),
                pairs[i + a].1,
            ),
    )
}

/// Flattening a map whose keys are non-empty text and whose values are all
/// leaves gives each value unchanged under the prefix followed by its key (and
/// by its type suffix, with schema).
pub proof fn lemma_flat_input(
    sep: Seq<char>,
    prefix: Seq<char>,
    schema: bool,
    pairs: Vec<(Value, Value)>,
)
    requires
        forall|a: int|
            0 <= a < pairs@.len() ==> (#[trigger] key_text(pairs@[a].0) matches Some(t) && t.len()
                > 0) && !pairs@[a].1.is_composite(),
    ensures
        leaves_of(sep, prefix, schema, Seq::empty(), Seq::empty(), Value::Mapping(pairs), 0)
            == Some(one_level(sep, prefix, schema, pairs@, 0)),
        flat_of(sep, prefix, schema, Seq::empty(), Seq::empty(), Value::Mapping(pairs)) == Some(
            fold_entries(one_level(sep, prefix, schema, pairs@, 0)),
        ),
{
    lemma_flat_input_from(sep, prefix, schema, pairs, 0);
}

proof fn lemma_flat_input_from(
    sep: Seq<char>,
    prefix: Seq<char>,
    schema: bool,
    pairs: Vec<(Value, Value)>,
    i: int,
)
    requires
        0 <= i <= pairs@.len(),
        forall|a: int|
            0 <= a < pairs@.len() ==> (#[trigger] key_text(pairs@[a].0) matches Some(t) && t.len()
                > 0) && !pairs@[a].1.is_composite(),
    ensures
        leaves_of(sep, prefix, schema, Seq::empty(), Seq::empty(), Value::Mapping(pairs), i)
            == Some(one_level(sep, prefix, schema, pairs@, i)),
    decreases pairs@.len() - i,
{
    let v = Value::Mapping(pairs);
    if i < pairs@.len() {
        lemma_flat_input_from(sep, prefix, schema, pairs, i + 1);
        let t = key_text(pairs@[i].0)->Some_0;
        let c = pairs@[i].1;
        let here = key_of(sep, prefix, schema, Seq::empty(), Seq::empty(), v);
        assert(here.len() == 0);
        let e = (prefix + t + suffix_of(sep, schema, c), c);
        assert(leaves_of(sep, prefix, schema, here, t, c, 0) == Some(seq![e]));
        assert(seq![e] + one_level(sep, prefix, schema, pairs@, i + 1) =~= one_level(
            sep,
            prefix,
            schema,
            pairs@,
            i,
        ));
    } else {
        assert(one_level(sep, prefix, schema, pairs@, i) =~= Seq::empty());
    }
}

} // verus!
