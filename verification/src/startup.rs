//! What the start of the launcher decides.

use crate::config::text_of;
use vstd::prelude::*;

verus! {

pub open spec fn token_of(
    activation: Option<Seq<char>>,
    startup_id: Option<Seq<char>>,
) -> Option<Seq<char>> {
    match activation {
        Some(token) if token.len() > 0 => Some(token),
        _ => match startup_id {
            Some(token) if token.len() > 0 => Some(token),
            _ => None,
        },
    }
}

/// The activation token the launcher was started with: `XDG_ACTIVATION_TOKEN`,
/// as the xdg-activation protocol names it, else the older
/// `DESKTOP_STARTUP_ID`. An empty one is none.
pub fn activation_token(activation: Option<String>, startup_id: Option<String>) -> (r: Option<
    String,
>)
    ensures
        text_of(r) == token_of(text_of(activation), text_of(startup_id)),
        activation is Some && activation.unwrap()@.len() > 0 ==> r == activation,
        !(activation is Some && activation.unwrap()@.len() > 0) && startup_id is Some
            && startup_id.unwrap()@.len() > 0 ==> r == startup_id,
        !(activation is Some && activation.unwrap()@.len() > 0) && !(startup_id is Some
            && startup_id.unwrap()@.len() > 0) ==> r is None,
{
    if let Some(token) = activation {
        if !token.as_str().is_empty() {
            return Some(token);
        }
    }
    if let Some(token) = startup_id {
        if !token.as_str().is_empty() {
            return Some(token);
        }
    }
    None
}

} // verus!
