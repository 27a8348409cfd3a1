//! How the program logs.
use vstd::prelude::*;
use crate::chars::{lowercase, to_lower};
use crate::record::opt_view;
use crate::text::same_text;

verus! {

/// Whether logs are written as JSON: as the environment says, or else as the
/// configuration says.
pub open spec fn is_json(env_value: Option<Seq<char>>, format: Seq<char>) -> bool {
    match env_value {
        Some(v) => lowercase(v) == "json"@,
        None => format == "json"@,
    }
}

/// Whether logs are written as JSON.
pub fn format_is_json(env_value: Option<String>, format: &str) -> (r: bool)
    ensures
        r == is_json(opt_view(env_value), format@),
{
    match env_value {
        Some(v) => same_text(to_lower(v.as_str()).as_str(), "json"),
        None => same_text(format, "json"),
    }
}

/// The environment comes before the configuration, and its word counts in
/// whichever case it is written.
pub proof fn law_the_environment_chooses_the_format(v: Seq<char>, format: Seq<char>)
    ensures
        is_json(None, format) <==> format == "json"@,
        is_json(Some("JSON"@), format),
        is_json(Some("json"@), format),
        lowercase(v) != "json"@ ==> !is_json(Some(v), format),
{
    reveal_strlit("JSON");
    reveal_strlit("json");
    assert(lowercase("JSON"@) =~= "json"@);
    assert(lowercase("json"@) =~= "json"@);
}

} // verus!
