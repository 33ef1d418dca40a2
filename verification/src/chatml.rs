//! The chat format of the model.
use vstd::prelude::*;

verus! {

use crate::text::{ends_with, starts_with};
use vstd::string::StringExecFns;

/// A conversation of one system text and one question, open for the answer.
pub open spec fn chat_text(system: Seq<char>, user: Seq<char>) -> Seq<char> {
    "<|im_start|>system\n"@ + system + "<|im_end|>\n<|im_start|>user\n"@ + user
        + "<|im_end|>\n<|im_start|>assistant\n"@
}

/// A prompt for the model.
pub fn chat_prompt(system: &str, user: &str) -> (s: String)
    ensures
        s@ == chat_text(system@, user@),
{
    let mut s = "<|im_start|>system\n".to_owned();
    s.append(system);
    s.append("<|im_end|>\n<|im_start|>user\n");
    s.append(user);
    s.append("<|im_end|>\n<|im_start|>assistant\n");
    s
}

/// A prompt begins with the system text in its place and ends with the question in its place,
/// open for the answer.
pub proof fn law_chat_text_holds_both(system: Seq<char>, user: Seq<char>)
    ensures
        starts_with(
            chat_text(system, user),
            "<|im_start|>system\n"@ + system + "<|im_end|>\n"@,
        ),
        ends_with(
            chat_text(system, user),
            "<|im_start|>user\n"@ + user + "<|im_end|>\n<|im_start|>assistant\n"@,
        ),
        chat_text(system, user).len() == ("<|im_start|>system\n"@ + system + "<|im_end|>\n"@
            + "<|im_start|>user\n"@ + user + "<|im_end|>\n<|im_start|>assistant\n"@).len(),
{
    reveal_strlit("<|im_end|>\n<|im_start|>user\n");
    reveal_strlit("<|im_end|>\n");
    reveal_strlit("<|im_start|>user\n");
    assert("<|im_end|>\n<|im_start|>user\n"@ =~= "<|im_end|>\n"@ + "<|im_start|>user\n"@);
    let s = chat_text(system, user);
    let a = "<|im_start|>system\n"@ + system + "<|im_end|>\n"@;
    let b = "<|im_start|>user\n"@ + user + "<|im_end|>\n<|im_start|>assistant\n"@;
    assert(s =~= a + b);
    assert(s.subrange(0, a.len() as int) =~= a);
    assert(s.subrange(s.len() - b.len(), s.len() as int) =~= b);
}

} // verus!
