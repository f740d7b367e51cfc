//! The key under which a model's tree is kept.

use vstd::prelude::*;

verus! {

/// The name of a model that is not known.
pub const UNKNOWN_MODEL: &'static str = "unknown";

/// The key of workers that do not say which model they serve.
pub const DEFAULT_MODEL: &'static str = "default";

/// The key of a model: its name, or the default key for a model without a name or with an unknown
/// one.
pub open spec fn model_key(model_id: Seq<char>) -> Seq<char> {
    if model_id.len() == 0 || model_id == UNKNOWN_MODEL@ {
        DEFAULT_MODEL@
    } else {
        model_id
    }
}

/// The key under which a model's tree is kept.
pub fn normalize_model_key(model_id: &str) -> (key: &str)
    ensures
        key@ == model_key(model_id@),
{
    proof {
        reveal_strlit("");
        assert(model_id@.len() == 0 ==> model_id@ =~= ""@);
    }
    let name = model_id.to_owned();
    if name == "".to_owned() || name == UNKNOWN_MODEL.to_owned() {
        DEFAULT_MODEL
    } else {
        model_id
    }
}

/// The key of a key is the key itself.
pub proof fn law_model_key_idempotent(model_id: Seq<char>)
    ensures
        model_key(model_key(model_id)) == model_key(model_id),
{
    reveal_strlit("unknown");
    reveal_strlit("default");
}

/// A named model keeps its name as its key.
pub proof fn law_named_model_keeps_its_name(model_id: Seq<char>)
    requires
        model_id.len() > 0,
        model_id != "unknown"@,
    ensures
        model_key(model_id) == model_id,
{
}

/// Models with different names have different keys.
pub proof fn law_names_are_kept_apart(model_id: Seq<char>, other: Seq<char>)
    requires
        model_id != other,
        model_id.len() > 0 && model_id != "unknown"@,
        other.len() > 0 && other != "unknown"@,
    ensures
        model_key(model_id) != model_key(other),
{
}

/// Models without a name, and those with an unknown one, share the key of the model "default" and of
/// no other one.
pub proof fn law_nameless_models_share_a_key(model_id: Seq<char>, other: Seq<char>)
    requires
        model_id.len() == 0 || model_id == "unknown"@,
    ensures
        model_key(model_id) == "default"@,
        model_key(other) == model_key(model_id) <==> other.len() == 0 || other == "unknown"@ || other == "default"@,
{
    reveal_strlit("unknown");
    reveal_strlit("default");
}

} // verus!
