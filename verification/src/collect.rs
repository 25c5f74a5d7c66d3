//! Gathering every `--key=value` token of an argument list: tokens of any
//! other shape are passed over, and of several tokens with one key the first
//! is kept.

use crate::text::{chars_of, split, split_text};
use std::collections::HashMap;
use vstd::prelude::*;

verus! {

/// The key and value that `token` holds, if it has the shape `--key=value`:
/// it starts with `--`, and what follows splits at `=` into exactly two
/// pieces.
pub open spec fn key_value(token: Seq<char>) -> Option<(Seq<char>, Seq<char>)> {
    if token.len() >= 2 && token[0] == '-' && token[1] == '-' {
        let parts = split_text(token.skip(2), '=');
        if parts.len() == 2 {
            Some((parts[0], parts[1]))
        } else {
            None
        }
    } else {
        None
    }
}

/// `token` has the shape `--key=value` with the key `key`.
pub open spec fn brings_key(token: Seq<char>, key: Seq<char>) -> bool {
    key_value(token) matches Some(pair) && pair.0 == key
}

/// `at` is the position of the first token of `args` that brings `key`.
pub open spec fn is_first_with_key(args: Seq<Seq<char>>, key: Seq<char>, at: int) -> bool {
    &&& 0 <= at < args.len()
    &&& brings_key(args[at], key)
    &&& forall|before: int| 0 <= before < at ==> !brings_key(#[trigger] args[before], key)
}

/// The mapping gathered from `args`: a key is bound when some token brings
/// it, and it is bound to the value of the first token that does.
pub open spec fn gathered(args: Seq<Seq<char>>) -> Map<Seq<char>, Seq<char>> {
    Map::new(
        |key: Seq<char>| exists|at: int| is_first_with_key(args, key, at),
        |key: Seq<char>|
            key_value(args[choose|at: int| is_first_with_key(args, key, at)]).unwrap().1,
    )
}

/// Some pair of `pairs` has the key `key`.
pub open spec fn has_key(pairs: Seq<(Seq<char>, Seq<char>)>, key: Seq<char>) -> bool {
    exists|i: int| 0 <= i < pairs.len() && (#[trigger] pairs[i]).0 == key
}

/// The pairs gathered from `args`, in the order in which their keys first
/// appear. A token adds its pair unless it is not of the shape `--key=value`
/// or an earlier token has already brought its key.
pub open spec fn collected(args: Seq<Seq<char>>) -> Seq<(Seq<char>, Seq<char>)>
    decreases args.len(),
{
    if args.len() == 0 {
        Seq::empty()
    } else {
        let before = collected(args.drop_last());
        match key_value(args.last()) {
            Some(pair) => if has_key(before, pair.0) {
                before
            } else {
                before.push(pair)
            },
            None => before,
        }
    }
}

/// `pair` is what the first token of `args` with its key brings.
pub open spec fn first_brings(args: Seq<Seq<char>>, pair: (Seq<char>, Seq<char>)) -> bool {
    exists|at: int| is_first_with_key(args, pair.0, at) && key_value(args[at]) == Some(pair)
}

/// No key occurs twice among the collected pairs, each pair is the one of the
/// first token that brings its key, and every key that a token brings is
/// among them.
pub proof fn lemma_collected_first_wins(args: Seq<Seq<char>>)
    ensures
        forall|i: int, j: int|
            0 <= i < j < collected(args).len()
                ==> (#[trigger] collected(args)[i]).0 != (#[trigger] collected(args)[j]).0,
        forall|i: int|
            0 <= i < collected(args).len() ==> first_brings(args, #[trigger] collected(args)[i]),
        forall|at: int, key: Seq<char>|
            0 <= at < args.len() && #[trigger] brings_key(args[at], key)
                ==> has_key(collected(args), key),
    decreases args.len(),
{
    if args.len() > 0 {
        let init = args.drop_last();
        let before = collected(init);
        let pairs = collected(args);
        let last = args.len() - 1;
        lemma_collected_first_wins(init);
        assert forall|i: int| 0 <= i < before.len() implies first_brings(args, #[trigger] before[i])
        by {
            let at = choose|at: int|
                is_first_with_key(init, before[i].0, at) && key_value(init[at]) == Some(before[i]);
            assert(is_first_with_key(args, before[i].0, at)) by {
                assert forall|b: int| 0 <= b < at implies !brings_key(
                    #[trigger] args[b],
                    before[i].0,
                ) by {
                    assert(args[b] == init[b]);
                }
            }
        }
        assert forall|at: int, key: Seq<char>|
            0 <= at < last && #[trigger] brings_key(args[at], key) implies has_key(before, key) by {
            assert(brings_key(init[at], key));
        }
        if key_value(args[last]) is Some && !has_key(before, key_value(args[last]).unwrap().0) {
            let pair = key_value(args[last]).unwrap();
            assert(first_brings(args, pair)) by {
                assert(is_first_with_key(args, pair.0, last));
            }
            assert forall|at: int, key: Seq<char>|
                0 <= at < args.len() && #[trigger] brings_key(args[at], key) implies has_key(
                pairs,
                key,
            ) by {
                if at < last {
                    let i = choose|i: int| 0 <= i < before.len() && (#[trigger] before[i]).0 == key;
                    assert(pairs[i].0 == key);
                } else {
                    assert(pairs[before.len() as int].0 == key);
                }
            }
        }
    }
}

/// The collected pairs, read as a mapping, are the gathered mapping: a key
/// has a pair exactly when the mapping binds it, and the pair's value is the
/// bound value.
pub proof fn lemma_collected_is_gathered(args: Seq<Seq<char>>)
    ensures
        forall|key: Seq<char>| #[trigger]
            gathered(args).contains_key(key) <==> has_key(collected(args), key),
        forall|i: int|
            0 <= i < collected(args).len()
                ==> gathered(args)[(#[trigger] collected(args)[i]).0] == collected(args)[i].1,
{
    lemma_collected_first_wins(args);
    let pairs = collected(args);
    assert forall|i: int| 0 <= i < pairs.len() implies gathered(args)[(#[trigger] pairs[i]).0]
        == pairs[i].1 by {
        let key = pairs[i].0;
        let at = choose|at: int|
            is_first_with_key(args, key, at) && key_value(args[at]) == Some(pairs[i]);
        let chosen = choose|at: int| is_first_with_key(args, key, at);
        assert(chosen == at);
    }
}

/// The first token that brings a key binds it, whatever comes after it.
pub proof fn lemma_first_with_key_binds(args: Seq<Seq<char>>, key: Seq<char>, at: int)
    requires
        is_first_with_key(args, key, at),
    ensures
        gathered(args).contains_key(key),
        key_value(args[at]) == Some((key, gathered(args)[key])),
{
    let chosen = choose|at: int| is_first_with_key(args, key, at);
    assert(chosen == at);
}

/// A key is bound exactly when some token brings it.
pub proof fn lemma_gathered_keys(args: Seq<Seq<char>>, key: Seq<char>)
    ensures
        gathered(args).contains_key(key)
            <==> exists|at: int| 0 <= at < args.len() && #[trigger] brings_key(args[at], key),
{
    lemma_collected_first_wins(args);
    lemma_collected_is_gathered(args);
}

/// Gathering twice from one argument list gives one mapping.
pub proof fn lemma_gather_repeatable(
    args: Seq<Seq<char>>,
    first: HashMap<String, String>,
    second: HashMap<String, String>,
)
    requires
        first.deep_view() == gathered(args),
        second.deep_view() == gathered(args),
    ensures
        first.deep_view() == second.deep_view(),
{
}

/// The key and value of `token`, if it has the shape `--key=value`.
pub fn read_pair(token: &str) -> (pair: Option<(String, String)>)
    ensures
        pair.deep_view() == key_value(token@),
{
    let chars = chars_of(token);
    if chars.len() >= 2 && chars[0] == '-' && chars[1] == '-' {
        let rest = token.substring_char(2, chars.len());
        let mut parts = split(rest, '=');
        if parts.len() == 2 {
            let value = parts.pop().unwrap();
            let key = parts.pop().unwrap();
            Some((key, value))
        } else {
            None
        }
    } else {
        None
    }
}

/// Whether some pair of `pairs` has the key `key`.
pub fn holds_key(pairs: &Vec<(String, String)>, key: &String) -> (found: bool)
    ensures
        found == has_key(pairs.deep_view(), key@),
{
    let mut at: usize = 0;
    while at < pairs.len()
        invariant
            at <= pairs.len(),
            forall|i: int| 0 <= i < at ==> (#[trigger] pairs.deep_view()[i]).0 != key@,
        decreases pairs.len() - at,
    {
        if pairs[at].0 == *key {
            assert(pairs.deep_view()[at as int].0 == key@);
            return true;
        }
        at += 1;
    }
    false
}

/// Gathers the `--key=value` tokens of `args` as a list of pairs.
///
/// The list holds one pair for each key that occurs, with the value of the
/// first token that brings that key, ordered by first occurrence. Tokens that
/// are not of the shape `--key=value` are passed over in silence.
pub fn collect_pairs(args: &Vec<String>) -> (pairs: Vec<(String, String)>)
    ensures
        pairs.deep_view() == collected(args.deep_view()),
{
    let mut pairs: Vec<(String, String)> = Vec::new();
    let mut at: usize = 0;
    while at < args.len()
        invariant
            at <= args.len(),
            pairs.deep_view() == collected(args.deep_view().take(at as int)),
        decreases args.len() - at,
    {
        assert(args.deep_view().take(at + 1).drop_last() == args.deep_view().take(at as int));
        match read_pair(args[at].as_str()) {
            Some((key, value)) => {
                if !holds_key(&pairs, &key) {
                    pairs.push((key, value));
                }
            },
            None => {},
        }
        at += 1;
    }
    assert(args.deep_view().take(at as int) == args.deep_view());
    pairs
}

/// Makes a map of a list of pairs with `HashMap::from_iter`.
///
/// What that call does is not proved here but taken from its documentation:
/// the map binds exactly the keys of the list, each to a value that the list
/// pairs with it. Which of them, where a key comes more than once, the
/// documentation leaves open, and so does this contract. Keys and values are
/// compared as texts, which is how `String` compares and hashes.
#[verifier::external_body]
fn map_of(pairs: Vec<(String, String)>) -> (map: HashMap<String, String>)
    ensures
        forall|key: Seq<char>| #[trigger]
            map.deep_view().contains_key(key) <==> has_key(pairs.deep_view(), key),
        forall|key: Seq<char>| #[trigger]
            map.deep_view().contains_key(key)
                ==> pairs.deep_view().contains((key, map.deep_view()[key])),
{
    HashMap::from_iter(pairs)
}

/// Gathers the `--key=value` tokens of `args` into a map.
///
/// A key is bound exactly when some token of the shape `--key=value` brings
/// it, and it is bound to the value of the first such token: later tokens
/// with the same key change nothing, and tokens of any other shape are passed
/// over in silence.
pub fn args_to_hashmap(args: &Vec<String>) -> (map: HashMap<String, String>)
    ensures
        map.deep_view() == gathered(args.deep_view()),
{
    let pairs = collect_pairs(args);
    let ghost listed = pairs.deep_view();
    let map = map_of(pairs);
    proof {
        lemma_collected_is_gathered(args.deep_view());
        assert forall|key: Seq<char>| #[trigger]
            map.deep_view().contains_key(key) implies map.deep_view()[key]
            == gathered(args.deep_view())[key] by {
            assert(listed.contains((key, map.deep_view()[key])));
        }
    }
    map
}

} // verus!
