//! Resolving a single flag: find the first token that names it, take the
//! text after its `=`, and hand that text to the caller's parser.

use crate::text::{
    chars_of, contains, lemma_split_pieces, occurs_in, only_sep_at, split, split_text,
};
use vstd::prelude::*;

verus! {

/// Why a flag that was found could not be turned into a value.
#[derive(Debug, PartialEq)]
pub enum ParseArgumentError<T> {
    /// The token does not split at `=` into exactly a name and a value.
    BadLen,
    /// The parser rejected the value; its own error is kept.
    ParseError(T),
}

/// What a search for one flag finds in an argument list.
pub enum Located {
    /// No token names the flag.
    Absent,
    /// The first token that names the flag does not split into two pieces.
    Malformed,
    /// The text after the `=` of the first token that names the flag.
    Text(Seq<char>),
}

/// The text `--{flag}=` that a token must hold to name `flag`.
pub open spec fn flag_pattern(flag: Seq<char>) -> Seq<char> {
    seq!['-', '-'] + flag + seq!['=']
}

/// `token` names `flag`: the text `--{flag}=` stands somewhere in it.
pub open spec fn names_flag(token: Seq<char>, flag: Seq<char>) -> bool {
    occurs_in(token, flag_pattern(flag))
}

/// `at` is the position of the first token of `args` that names `flag`.
pub open spec fn is_first_naming(args: Seq<Seq<char>>, flag: Seq<char>, at: int) -> bool {
    &&& 0 <= at < args.len()
    &&& names_flag(args[at], flag)
    &&& forall|before: int| 0 <= before < at ==> !names_flag(#[trigger] args[before], flag)
}

/// What a token that names the flag yields once split at `=`.
pub open spec fn read_token(token: Seq<char>) -> Located {
    let parts = split_text(token, '=');
    if parts.len() == 2 {
        Located::Text(parts[1])
    } else {
        Located::Malformed
    }
}

/// What a search for `flag` finds in `args`: the first token that names the
/// flag decides, later ones are never looked at.
pub open spec fn locate(args: Seq<Seq<char>>, flag: Seq<char>) -> Located {
    if exists|at: int| is_first_naming(args, flag, at) {
        read_token(args[choose|at: int| is_first_naming(args, flag, at)])
    } else {
        Located::Absent
    }
}

/// A parser's outcome as `parse_argument` reports it.
pub open spec fn reported<T, E>(raw: Result<T, E>) -> Result<T, ParseArgumentError<E>> {
    match raw {
        Ok(value) => Ok(value),
        Err(error) => Err(ParseArgumentError::ParseError(error)),
    }
}

/// What `parse_argument` hands back for a search that found `located`, with
/// `parse` as the parser: nothing for an absent flag, `BadLen` for a
/// malformed token, and else what `parse` made of the value's text.
pub open spec fn answers<T, E, F: FnOnce(&str) -> Result<T, E>>(
    located: Located,
    parse: F,
    found: Option<Result<T, ParseArgumentError<E>>>,
) -> bool {
    match located {
        Located::Absent => found is None,
        Located::Malformed => found == Some(
            Err::<T, ParseArgumentError<E>>(ParseArgumentError::BadLen),
        ),
        Located::Text(value) => exists|text: &str, raw: Result<T, E>|
            text@ == value
                && call_ensures(parse, (text,), raw)
                && found == Some(reported(raw)),
    }
}

/// `parse` has one outcome for the text `value`, whenever it is asked.
pub open spec fn parses_alike<T, E, F: FnOnce(&str) -> Result<T, E>>(
    parse: F,
    value: Seq<char>,
) -> bool {
    forall|one: &str, other: &str, first: Result<T, E>, second: Result<T, E>|
        one@ == value && other@ == value
            && #[trigger] call_ensures(parse, (one,), first)
            && #[trigger] call_ensures(parse, (other,), second)
            ==> first == second
}

/// The first token that names the flag decides what is found, whatever
/// comes after it.
pub proof fn lemma_first_naming_decides(args: Seq<Seq<char>>, flag: Seq<char>, at: int)
    requires
        is_first_naming(args, flag, at),
    ensures
        locate(args, flag) == read_token(args[at]),
{
    let chosen = choose|at: int| is_first_naming(args, flag, at);
    assert(chosen == at);
}

/// A flag is absent exactly when no token of the list names it.
pub proof fn lemma_absent_iff_unnamed(args: Seq<Seq<char>>, flag: Seq<char>)
    ensures
        locate(args, flag) is Absent <==> forall|i: int|
            0 <= i < args.len() ==> !names_flag(#[trigger] args[i], flag),
{
    lemma_first_naming(args, flag, args.len() as int);
    if exists|at: int| is_first_naming(args, flag, at) {
        lemma_read_token(args[choose|at: int| is_first_naming(args, flag, at)]);
    }
}

/// If one of the first `upto` tokens names the flag, one of them is the first
/// to do so.
proof fn lemma_first_naming(args: Seq<Seq<char>>, flag: Seq<char>, upto: int)
    requires
        0 <= upto <= args.len(),
    ensures
        (exists|i: int| 0 <= i < upto && names_flag(#[trigger] args[i], flag))
            ==> exists|at: int| is_first_naming(args, flag, at),
    decreases upto,
{
    if upto > 0 {
        lemma_first_naming(args, flag, upto - 1);
        if !(exists|i: int| 0 <= i < upto - 1 && names_flag(#[trigger] args[i], flag)) {
            if names_flag(args[upto - 1], flag) {
                assert(is_first_naming(args, flag, upto - 1));
            }
        }
    }
}

/// A token that is read is never absent. It gives a text exactly when it
/// holds one `=`, and the text is what stands after that `=`; with no `=`, or
/// with more than one, it is malformed.
pub proof fn lemma_read_token(token: Seq<char>)
    ensures
        !(read_token(token) is Absent),
        read_token(token) is Text <==> exists|at: int| only_sep_at(token, '=', at),
        forall|at: int| #[trigger]
            only_sep_at(token, '=', at)
                ==> read_token(token) == Located::Text(token.skip(at + 1)),
{
    lemma_split_pieces(token, '=');
}

/// Looking a flag up twice in one argument list gives one result, as long
/// as the parser has one outcome for the value that is found.
pub proof fn lemma_lookup_repeatable<T, E, F: FnOnce(&str) -> Result<T, E>>(
    args: Seq<Seq<char>>,
    flag: Seq<char>,
    parse: F,
    first: Option<Result<T, ParseArgumentError<E>>>,
    second: Option<Result<T, ParseArgumentError<E>>>,
)
    requires
        locate(args, flag) matches Located::Text(value) ==> parses_alike(parse, value),
        answers(locate(args, flag), parse, first),
        answers(locate(args, flag), parse, second),
    ensures
        first == second,
{
}

/// Hands a parser's outcome on: a value as it is, an error inside
/// `ParseError`.
pub fn report<T, E>(raw: Result<T, E>) -> (outcome: Result<T, ParseArgumentError<E>>)
    ensures
        outcome == reported(raw),
{
    match raw {
        Ok(value) => Ok(value),
        Err(error) => Err(ParseArgumentError::ParseError(error)),
    }
}

/// The characters of `--{flag}=`.
pub fn pattern_of(flag: &str) -> (pattern: Vec<char>)
    ensures
        pattern@ == flag_pattern(flag@),
{
    let mut pattern: Vec<char> = Vec::new();
    pattern.push('-');
    pattern.push('-');
    let mut name = chars_of(flag);
    pattern.append(&mut name);
    pattern.push('=');
    pattern
}

/// The position of the first token of `args` that names `flag`, if any does.
pub fn find_token(args: &Vec<String>, flag: &str) -> (found: Option<usize>)
    ensures
        match found {
            Some(at) => is_first_naming(args.deep_view(), flag@, at as int),
            None => forall|i: int|
                0 <= i < args.len() ==> !names_flag(#[trigger] args.deep_view()[i], flag@),
        },
{
    let pattern = pattern_of(flag);
    let mut at: usize = 0;
    while at < args.len()
        invariant
            at <= args.len(),
            pattern@ == flag_pattern(flag@),
            forall|i: int| 0 <= i < at ==> !names_flag(#[trigger] args.deep_view()[i], flag@),
        decreases args.len() - at,
    {
        let token = chars_of(args[at].as_str());
        if contains(&token, &pattern) {
            return Some(at);
        }
        at += 1;
    }
    None
}

/// Looks `flag` up in `args` and converts its value with `parse`.
///
/// The result is `None` exactly when no token holds `--{flag}=`. Otherwise the
/// first such token decides: if it does not split at `=` into exactly two
/// pieces the result is `BadLen`; else `parse` is run once, on the second
/// piece, and its outcome is handed back, an error wrapped in `ParseError`.
///
/// All that is asked of `parse` is that it can be called on that piece.
pub fn parse_argument<T, E, F>(args: &Vec<String>, flag: &str, parse: F) -> (found: Option<
    Result<T, ParseArgumentError<E>>,
>) where F: FnOnce(&str) -> Result<T, E>
    requires
        forall|text: &str|
            locate(args.deep_view(), flag@) == Located::Text(text@)
                ==> call_requires(parse, (text,)),
    ensures
        found is None <==> forall|i: int|
            0 <= i < args.len() ==> !names_flag(#[trigger] args.deep_view()[i], flag@),
        answers(locate(args.deep_view(), flag@), parse, found),
{
    match find_token(args, flag) {
        None => None,
        Some(at) => {
            let parts = split(args[at].as_str(), '=');
            if parts.len() == 2 {
                Some(report(parse(parts[1].as_str())))
            } else {
                Some(Err(ParseArgumentError::BadLen))
            }
        },
    }
}

} // verus!
