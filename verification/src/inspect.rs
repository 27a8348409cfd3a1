//! The arguments of the inspector.
use vstd::prelude::*;
use crate::recall::Scope;
use crate::record::opt_view;
use crate::text::{holds_text, same_text, views};

verus! {

/// What the inspector is asked.
pub struct Options {
    pub config_path: String,
    pub as_json: bool,
    pub query: Option<String>,
    pub scope: Option<String>,
}

/// The place of the first element that is `word`, from `i` on.
pub open spec fn place_of(args: Seq<Seq<char>>, word: Seq<char>, i: int) -> Option<int>
    decreases args.len() - i,
{
    if i < 0 || i >= args.len() {
        None
    } else if args[i] == word {
        Some(i)
    } else {
        place_of(args, word, i + 1)
    }
}

/// What stands behind the first element that is `word`.
pub open spec fn value_behind(args: Seq<Seq<char>>, word: Seq<char>) -> Option<Seq<char>> {
    match place_of(args, word, 0) {
        Some(i) => if i + 1 < args.len() {
            Some(args[i + 1])
        } else {
            None
        },
        None => None,
    }
}

fn find_value(args: &Vec<String>, word: &str) -> (r: Option<String>)
    ensures
        opt_view(r) == value_behind(views(args@), word@),
{
    let ghost all = views(args@);
    for i in 0..args.len()
        invariant
            all == views(args@),
            place_of(all, word@, 0) == place_of(all, word@, i as int),
    {
        assert(all[i as int] == args@[i as int]@);
        if same_text(args[i].as_str(), word) {
            assert(place_of(all, word@, 0) == Some(i as int));
            if i + 1 < args.len() {
                assert(all[i + 1] == args@[i + 1]@);
                return Some(args[i + 1].clone());
            }
            return None;
        }
    }
    None
}

/// Reads the arguments, the name of the program first. Without a path to a
/// configuration file there is nothing to do.
pub fn read_options(args: &Vec<String>) -> (r: Option<Options>)
    ensures
        r is Some <==> args.len() >= 2,
        r is Some ==> {
            let all = views(args@);
            &&& r->0.config_path@ == all[1]
            &&& r->0.as_json == all.contains("--json"@)
            &&& opt_view(r->0.query) == value_behind(all, "--search"@)
            &&& opt_view(r->0.scope) == value_behind(all, "--scope"@)
        },
{
    if args.len() < 2 {
        return None;
    }
    assert(views(args@)[1] == args@[1]@);
    Some(
        Options {
            config_path: args[1].clone(),
            as_json: holds_text(args, "--json"),
            query: find_value(args, "--search"),
            scope: find_value(args, "--scope"),
        },
    )
}

/// The scope that a word names. No word, and the word `both`, name everything.
pub fn read_scope(word: &Option<String>) -> (r: Result<Scope, String>)
    ensures
        match opt_view(*word) {
            None => r == Ok::<Scope, String>(Scope::Both),
            Some(w) => if w == "force"@ {
                r == Ok::<Scope, String>(Scope::Force)
            } else if w == "decision"@ {
                r == Ok::<Scope, String>(Scope::Decision)
            } else if w == "both"@ {
                r == Ok::<Scope, String>(Scope::Both)
            } else {
                r is Err && r->Err_0@ == w
            },
        },
{
    match word {
        None => Ok(Scope::Both),
        Some(w) => if same_text(w.as_str(), "force") {
            Ok(Scope::Force)
        } else if same_text(w.as_str(), "decision") {
            Ok(Scope::Decision)
        } else if same_text(w.as_str(), "both") {
            Ok(Scope::Both)
        } else {
            Err(w.clone())
        },
    }
}

/// The value of an option is what stands behind its first mention; there is none
/// where the option is not mentioned, or nothing stands behind it.
pub proof fn law_values_stand_behind_their_option(args: Seq<Seq<char>>, word: Seq<char>, k: int)
    requires
        0 <= k <= args.len(),
        forall|j: int| 0 <= j < k ==> #[trigger] args[j] != word,
    ensures
        k + 1 < args.len() && args[k] == word ==> value_behind(args, word) == Some(args[k + 1]),
        k + 1 == args.len() && args[k] == word ==> value_behind(args, word) is None,
        k == args.len() ==> value_behind(args, word) is None,
{
    lemma_place(args, word, 0, k);
}

proof fn lemma_place(args: Seq<Seq<char>>, word: Seq<char>, from: int, k: int)
    requires
        0 <= from <= k <= args.len(),
        forall|j: int| from <= j < k ==> #[trigger] args[j] != word,
    ensures
        k < args.len() && args[k] == word ==> place_of(args, word, from) == Some(k),
        k == args.len() ==> place_of(args, word, from) is None,
    decreases k - from,
{
    if from < k {
        assert(args[from] != word);
        lemma_place(args, word, from + 1, k);
    }
}

} // verus!
