//! Deterministic identifier casing, through heck.
use vstd::prelude::*;

use heck::ToSnakeCase;

verus! {

/// The snake_case form of a string as heck computes it: word boundaries
/// become underscores, letters become lowercase. A function of the
/// characters alone.
pub uninterp spec fn snake_of(s: Seq<char>) -> Seq<char>;

/// Relies on heck's `ToSnakeCase` for `str`: the result depends on the
/// input characters alone.
#[verifier::external_body]
pub fn to_snake_case(s: &String) -> (r: String)
    ensures
        r@ == snake_of(s@),
{
    ToSnakeCase::to_snake_case(s.as_str())
}

/// The deterministic name of the narrowing method: `into_` followed by
/// the snake_case form of the immutable source name, identical across all
/// subsets of one source.
pub fn narrowing_method_name(source: &String) -> (r: String)
    ensures
        r@ == "into_"@ + snake_of(source@),
{
    let snake = to_snake_case(source);
    let prefix: String = "into_".to_owned();
    prefix.concat(snake.as_str())
}

} // verus!
