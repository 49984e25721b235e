//! What a run was launched with, as text: the command line's
//! `--key value` and `--key=value`, or the page URL's `?key=value&...`.
//!
//! Both syntaxes come down to the same list of key and value pairs, and each
//! pair is then read as one setting, a scenario's name resolved against the
//! names the registry knows. Reading a speed as a number is the caller's.

use vstd::prelude::*;
use crate::text::{
    first_index_of, joined, lemma_first_index_bounds, same_text, split_once, starts_with,
    strip_prefix, trim_leading, without_leading,
};

verus! {

/// How much of the presentation to spawn.
#[derive(Debug, Clone, Copy, PartialEq, Eq, Structural)]
pub enum LaunchView {
    /// The game: board, banner, store and menu.
    Full,
    /// The board and its actors alone.
    Stage,
}

impl Default for LaunchView {
    fn default() -> (view: Self)
        ensures
            view == LaunchView::Full,
    {
        LaunchView::Full
    }
}

/// Why a launch stops before the game starts.
#[derive(Debug, Clone, PartialEq, Eq)]
pub enum LaunchError {
    /// The usage text was asked for: not an error, but it stops the launch.
    Help,
    /// The map readout was asked for, which the caller prints; a clean exit too.
    Report,
    Invalid(String),
}

/// One setting of a launch, by key, its value still text where the caller
/// reads it.
#[derive(Debug, Clone, PartialEq, Eq)]
pub enum Setting {
    Scenario(String),
    Speed(String),
    View(LaunchView),
}

// ──────────────────────────────────────────────────────── the command line

/// The message for an argument that is not an option.
pub open spec fn unexpected(arg: Seq<char>) -> Seq<char> {
    "unexpected argument `"@ + arg + "`"@
}

/// The message for an option given no value.
pub open spec fn needs_value(key: Seq<char>) -> Seq<char> {
    "`--"@ + key + "` needs a value"@
}

/// Arguments that stop the launch and print the usage text.
pub open spec fn asks_for_help(arg: Seq<char>) -> bool {
    arg == "--help"@ || arg == "-h"@ || arg == "--scenarios"@
}

/// What reading the command line from argument `i` on gives: the pairs, or
/// why the launch stops. `Err(None)` is help, `Err(Some(None))` the map
/// readout, and `Err(Some(Some(message)))` a refusal.
pub open spec fn args_from(args: Seq<Seq<char>>, i: int) -> Result<
    Seq<(Seq<char>, Seq<char>)>,
    Option<Option<Seq<char>>>,
>
    decreases args.len() - i,
{
    if i >= args.len() || i < 0 {
        Ok(seq![])
    } else {
        let arg = args[i];
        if asks_for_help(arg) {
            Err(None)
        } else if arg == "--map"@ {
            Err(Some(None))
        } else if !starts_with(arg, "--"@) {
            Err(Some(Some(unexpected(arg))))
        } else {
            let key = arg.subrange(2, arg.len() as int);
            let eq = first_index_of(key, '=');
            if eq >= 0 {
                match args_from(args, i + 1) {
                    Ok(rest) => Ok(
                        seq![(key.subrange(0, eq), key.subrange(eq + 1, key.len() as int))] + rest,
                    ),
                    Err(e) => Err(e),
                }
            } else if i + 1 < args.len() {
                match args_from(args, i + 2) {
                    Ok(rest) => Ok(seq![(key, args[i + 1])] + rest),
                    Err(e) => Err(e),
                }
            } else {
                Err(Some(Some(needs_value(key))))
            }
        }
    }
}

/// The texts of a list of strings.
pub open spec fn texts(strings: Seq<String>) -> Seq<Seq<char>> {
    strings.map_values(|s: String| s@)
}

/// The texts of a list of pairs of strings.
pub open spec fn pair_texts(pairs: Seq<(String, String)>) -> Seq<(Seq<char>, Seq<char>)> {
    pairs.map_values(|p: (String, String)| (p.0@, p.1@))
}

/// `--scenario one-worker --speed 5 --view stage`, with `--key=value` also
/// accepted, read into key and value pairs. `--help`, `-h` and `--scenarios`
/// stop with [`LaunchError::Help`], `--map` with [`LaunchError::Report`].
pub fn pairs_from_args(args: &Vec<String>) -> (pairs: Result<Vec<(String, String)>, LaunchError>)
    ensures
        match (pairs, args_from(texts(args@), 0)) {
            (Ok(found), Ok(expected)) => pair_texts(found@) == expected,
            (Err(LaunchError::Help), Err(None)) => true,
            (Err(LaunchError::Report), Err(Some(None))) => true,
            (Err(LaunchError::Invalid(message)), Err(Some(Some(expected)))) => message@ == expected,
            _ => false,
        },
{
    let ghost all = texts(args@);
    let mut pairs: Vec<(String, String)> = Vec::new();
    let mut i: usize = 0;
    while i < args.len()
        invariant
            i <= args@.len(),
            all == texts(args@),
            args_from(all, 0) == (match args_from(all, i as int) {
                Ok(rest) => Ok(pair_texts(pairs@) + rest),
                Err(e) => Err(e),
            }),
        decreases args@.len() - i,
    {
        let arg = args[i].as_str();
        proof {
            assert(arg@ == all[i as int]);
        }
        if same_text(arg, "--help") || same_text(arg, "-h") || same_text(arg, "--scenarios") {
            return Err(LaunchError::Help);
        }
        if same_text(arg, "--map") {
            proof {
                reveal_strlit("--help");
                reveal_strlit("-h");
                reveal_strlit("--scenarios");
                reveal_strlit("--map");
            }
            return Err(LaunchError::Report);
        }
        let key = match strip_prefix(arg, "--") {
            Some(key) => key,
            None => {
                return Err(LaunchError::Invalid(joined("unexpected argument `", arg, "`")));
            },
        };
        let ghost before = pairs@;
        let ghost at = i as int;
        proof {
            lemma_first_index_bounds(key@, '=');
            reveal_strlit("--");
            assert(key@ == all[at].subrange(2, all[at].len() as int));
        }
        match split_once(key, '=') {
            Some((name, value)) => {
                pairs.push((name.to_owned(), value.to_owned()));
                i = i + 1;
                proof {
                    let pair = (name@, value@);
                    assert(pair_texts(pairs@) =~= pair_texts(before) + seq![pair]);
                    match args_from(all, i as int) {
                        Ok(rest) => {
                            assert(args_from(all, at) == Ok::<Seq<(Seq<char>, Seq<char>)>, Option<Option<Seq<char>>>>(seq![pair] + rest));
                            assert(pair_texts(pairs@) + rest =~= pair_texts(before) + (seq![pair] + rest));
                        },
                        Err(e) => {
                            assert(args_from(all, at) == Err::<Seq<(Seq<char>, Seq<char>)>, Option<Option<Seq<char>>>>(e));
                        },
                    }
                }
            },
            None => {
                if i + 1 >= args.len() {
                    return Err(LaunchError::Invalid(joined("`--", key, "` needs a value")));
                }
                let value = args[i + 1].clone();
                pairs.push((key.to_owned(), value));
                i = i + 2;
                proof {
                    let pair = (key@, all[at + 1]);
                    assert(pair_texts(pairs@) =~= pair_texts(before) + seq![pair]);
                    match args_from(all, i as int) {
                        Ok(rest) => {
                            assert(args_from(all, at) == Ok::<Seq<(Seq<char>, Seq<char>)>, Option<Option<Seq<char>>>>(seq![pair] + rest));
                            assert(pair_texts(pairs@) + rest =~= pair_texts(before) + (seq![pair] + rest));
                        },
                        Err(e) => {
                            assert(args_from(all, at) == Err::<Seq<(Seq<char>, Seq<char>)>, Option<Option<Seq<char>>>>(e));
                        },
                    }
                }
            },
        }
    }
    proof {
        assert(pair_texts(pairs@) + Seq::<(Seq<char>, Seq<char>)>::empty() =~= pair_texts(pairs@));
    }
    Ok(pairs)
}


// ──────────────────────────────────────────────────────────── the page URL

/// The keys a page URL's query may set; a URL carries anything else it likes.
pub open spec fn ours(key: Seq<char>) -> bool {
    key == "scenario"@ || key == "speed"@ || key == "view"@
}

/// The pair one `&`-separated piece of a query gives: `key=value`, or a bare
/// key with an empty value; nothing for an empty piece or a key not ours.
pub open spec fn piece_pair(piece: Seq<char>) -> Seq<(Seq<char>, Seq<char>)> {
    let eq = first_index_of(piece, '=');
    let (key, value) = if eq >= 0 {
        (piece.subrange(0, eq), piece.subrange(eq + 1, piece.len() as int))
    } else {
        (piece, Seq::<char>::empty())
    };
    if piece.len() == 0 || !ours(key) {
        seq![]
    } else {
        seq![(key, value)]
    }
}

/// The pairs of the `&`-separated pieces of `text`, in order.
pub open spec fn query_pairs(text: Seq<char>) -> Seq<(Seq<char>, Seq<char>)>
    decreases text.len(),
{
    let amp = first_index_of(text, '&');
    if 0 <= amp < text.len() {
        piece_pair(text.subrange(0, amp)) + query_pairs(text.subrange(amp + 1, text.len() as int))
    } else {
        piece_pair(text)
    }
}

fn pair_of_piece(piece: &str, pairs: &mut Vec<(String, String)>)
    ensures
        pair_texts(final(pairs)@) == pair_texts(old(pairs)@) + piece_pair(piece@),
{
    proof {
        lemma_first_index_bounds(piece@, '=');
    }
    let ghost before = pairs@;
    let (key, value) = match split_once(piece, '=') {
        Some((key, value)) => (key, value),
        None => (piece, ""),
    };
    proof {
        reveal_strlit("");
    }
    if piece.is_empty() {
        proof {
            assert(pair_texts(pairs@) =~= pair_texts(before) + piece_pair(piece@));
        }
        return;
    }
    if same_text(key, "scenario") || same_text(key, "speed") || same_text(key, "view") {
        pairs.push((key.to_owned(), value.to_owned()));
        proof {
            let eq = first_index_of(piece@, '=');
            let expected = if eq >= 0 {
                (piece@.subrange(0, eq), piece@.subrange(eq + 1, piece@.len() as int))
            } else {
                (piece@, Seq::<char>::empty())
            };
            assert(key@ == expected.0);
            assert(value@ == expected.1);
            assert(ours(key@));
            assert(piece_pair(piece@) == seq![(key@, value@)]);
            assert(pairs@.last().0@ == key@);
            assert(pair_texts(pairs@) =~= pair_texts(before) + piece_pair(piece@));
        }
    } else {
        proof {
            assert(pair_texts(pairs@) =~= pair_texts(before) + piece_pair(piece@));
        }
    }
}

/// `?scenario=one-worker&speed=5&view=stage`, read into key and value pairs.
/// Keys this module does not own are dropped, since a URL can carry anything.
pub fn pairs_from_query(search: &str) -> (pairs: Vec<(String, String)>)
    ensures
        pair_texts(pairs@) == query_pairs(without_leading(search@, '?')),
{
    let mut rest = trim_leading(search, '?');
    let ghost whole = rest@;
    let mut pairs: Vec<(String, String)> = Vec::new();
    loop
        invariant
            whole == without_leading(search@, '?'),
            pair_texts(pairs@) + query_pairs(rest@) == query_pairs(whole),
        decreases rest@.len(),
    {
        proof {
            lemma_first_index_bounds(rest@, '&');
        }
        let ghost before = pairs@;
        let ghost text = rest@;
        match split_once(rest, '&') {
            Some((piece, after)) => {
                pair_of_piece(piece, &mut pairs);
                rest = after;
                proof {
                    assert(pair_texts(pairs@) + query_pairs(rest@) =~= pair_texts(before) + query_pairs(
                        text,
                    ));
                }
            },
            None => {
                pair_of_piece(rest, &mut pairs);
                proof {
                    assert(pair_texts(pairs@) =~= pair_texts(before) + query_pairs(text));
                    assert(pair_texts(pairs@) =~= query_pairs(whole));
                }
                return pairs;
            },
        }
    }
}

// ──────────────────────────────────────────────────────────────── settings

/// The refusal a pair earns: a view that is neither `full` nor `stage`, or a
/// key that is not an option.
pub open spec fn refusal(key: Seq<char>, value: Seq<char>) -> Seq<char> {
    if key == "view"@ {
        "view must be `full` or `stage`, not `"@ + value + "`"@
    } else {
        "unknown option `"@ + key + "`"@
    }
}

/// The refusal for a scenario the registry does not know.
pub open spec fn unknown_scenario(name: Seq<char>) -> Seq<char> {
    "unknown scenario `"@ + name + "`"@
}

/// `name` is one of the scenarios the registry knows.
pub open spec fn registered(scenarios: Seq<&str>, name: Seq<char>) -> bool {
    exists|i: int| 0 <= i < scenarios.len() && (#[trigger] scenarios[i])@ == name
}

/// Whether `name` is one of `scenarios`.
fn is_registered(scenarios: &[&str], name: &str) -> (known: bool)
    ensures
        known == registered(scenarios@, name@),
{
    let mut i: usize = 0;
    while i < scenarios.len()
        invariant
            i <= scenarios@.len(),
            forall|j: int| 0 <= j < i ==> (#[trigger] scenarios@[j])@ != name@,
        decreases scenarios@.len() - i,
    {
        if same_text(scenarios[i], name) {
            return true;
        }
        i = i + 1;
    }
    false
}

/// One launch pair, read as a setting: a scenario is one the registry knows
/// (`scenarios` holds its names) and is refused by name otherwise, a speed is
/// handed on as text, a view is `full` or `stage`, and any other key is
/// refused by name.
pub fn setting(key: &str, value: &str, scenarios: &[&str]) -> (read: Result<Setting, LaunchError>)
    ensures
        if key@ == "scenario"@ && registered(scenarios@, value@) {
            read matches Ok(Setting::Scenario(name)) && name@ == value@
        } else if key@ == "scenario"@ {
            read matches Err(LaunchError::Invalid(message)) && message@ == unknown_scenario(value@)
        } else if key@ == "speed"@ {
            read matches Ok(Setting::Speed(speed)) && speed@ == value@
        } else if key@ == "view"@ && value@ == "full"@ {
            read == Ok::<Setting, LaunchError>(Setting::View(LaunchView::Full))
        } else if key@ == "view"@ && value@ == "stage"@ {
            read == Ok::<Setting, LaunchError>(Setting::View(LaunchView::Stage))
        } else {
            read matches Err(LaunchError::Invalid(message)) && message@ == refusal(key@, value@)
        },
{
    if same_text(key, "scenario") {
        if is_registered(scenarios, value) {
            Ok(Setting::Scenario(value.to_owned()))
        } else {
            Err(LaunchError::Invalid(joined("unknown scenario `", value, "`")))
        }
    } else if same_text(key, "speed") {
        Ok(Setting::Speed(value.to_owned()))
    } else if same_text(key, "view") {
        if same_text(value, "full") {
            Ok(Setting::View(LaunchView::Full))
        } else if same_text(value, "stage") {
            Ok(Setting::View(LaunchView::Stage))
        } else {
            Err(LaunchError::Invalid(joined("view must be `full` or `stage`, not `", value, "`")))
        }
    } else {
        Err(LaunchError::Invalid(joined("unknown option `", key, "`")))
    }
}

} // verus!
