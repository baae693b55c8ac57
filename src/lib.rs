//! An event listener for a process supervisor: it decodes event frames,
//! decides which process exits deserve an alert, and frames its replies.
use vstd::prelude::*;
use vstd::string::*;

pub mod codec;
pub mod filter;
pub mod number;
pub mod protocol;
mod text;

verus! {

/// What the listener is started with.
pub struct Args {
    /// The processes to watch, as `group:process` or a bare name; empty
    /// means every process.
    pub program: Vec<String>,
    /// Where alerts are posted.
    pub webhook: Option<String>,
}

/// The webhook to post to: the one given as an argument, else a non-empty
/// one from the environment.
pub fn get_webhook_url(arg_webhook: Option<String>, env_webhook: Option<String>) -> (r: Option<
    String,
>)
    ensures
        r == (if arg_webhook is Some {
            arg_webhook
        } else if env_webhook is Some && env_webhook->0@.len() > 0 {
            env_webhook
        } else {
            None
        }),
{
    match arg_webhook {
        Some(w) => Some(w),
        None => match env_webhook {
            Some(w) => {
                if w.as_str().is_empty() {
                    None
                } else {
                    Some(w)
                }
            },
            None => None,
        },
    }
}

/// The JSON body of a text message to the webhook.
pub open spec fn webhook_body_text(msg: Seq<char>) -> Seq<char> {
    "{\"msg_type\":\"text\",\"content\":{\"text\":\""@ + msg + "\"}}"@
}

/// Writes the JSON body of a text message carrying `msg`, placed as it is.
pub fn webhook_body(msg: &str) -> (r: String)
    ensures
        r@ == webhook_body_text(msg@),
{
    String::from_str("{\"msg_type\":\"text\",\"content\":{\"text\":\"").concat(msg).concat(
        "\"}}",
    )
}

} // verus!
