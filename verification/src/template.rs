//! Chat template.
//!
//! A turn is `<|turn>role`, a newline, the content, `<turn|>` and a newline; an
//! open `<|turn>model` at the end asks for a reply. The assistant's role is
//! written `model`, and system prompts have turns of their own. The begin token
//! is the tokenizer's business.
use vstd::prelude::*;
use vstd::string::*;

use crate::text::{same_text, trim};

verus! {

#[derive(Clone, Debug, PartialEq, Eq)]
pub struct Message {
    pub role: String,
    pub content: String,
}

/// A message's two texts.
pub struct Turn {
    pub role: Seq<char>,
    pub content: Seq<char>,
}

impl View for Message {
    type V = Turn;

    open spec fn view(&self) -> Turn {
        Turn { role: self.role@, content: self.content@ }
    }
}

impl Message {
    pub fn new(role: &str, content: &str) -> (r: Message)
        ensures
            r@ == (Turn { role: role@, content: content@ }),
    {
        Message { role: role.to_owned(), content: content.to_owned() }
    }

    pub fn user(content: &str) -> (r: Message)
        ensures
            r@ == (Turn { role: "user"@, content: content@ }),
    {
        Message::new("user", content)
    }

    pub fn system(content: &str) -> (r: Message)
        ensures
            r@ == (Turn { role: "system"@, content: content@ }),
    {
        Message::new("system", content)
    }

    pub fn assistant(content: &str) -> (r: Message)
        ensures
            r@ == (Turn { role: "assistant"@, content: content@ }),
    {
        Message::new("assistant", content)
    }
}

/// A role as the model knows it.
pub open spec fn model_role(role: Seq<char>) -> Seq<char> {
    if role == "assistant"@ {
        "model"@
    } else {
        role
    }
}

/// One turn, written out.
pub open spec fn turn_text(t: Turn) -> Seq<char> {
    "<|turn>"@ + model_role(t.role) + "\n"@ + crate::text::trimmed(t.content) + "<turn|>\n"@
}

/// The first `n` turns, one after the other.
pub open spec fn turns_text(messages: Seq<Message>, n: nat) -> Seq<char>
    decreases n,
{
    if n == 0 {
        Seq::empty()
    } else {
        turns_text(messages, (n - 1) as nat) + turn_text(messages[n - 1]@)
    }
}

/// A chat, written out.
pub open spec fn chat_text(messages: Seq<Message>, add_generation_prompt: bool) -> Seq<char> {
    let all = turns_text(messages, messages.len());
    if add_generation_prompt {
        all + "<|turn>model\n"@
    } else {
        all
    }
}

/// Write a chat in the form the model was trained on.
pub fn apply_chat_template(messages: &[Message], add_generation_prompt: bool) -> (r: String)
    ensures
        r@ == chat_text(messages@, add_generation_prompt),
{
    let mut s = String::new();
    let mut i: usize = 0;
    proof {
        assert(s@ =~= Seq::empty());
    }
    while i < messages.len()
        invariant
            i <= messages@.len(),
            s@ == turns_text(messages@, i as nat),
        decreases messages@.len() - i,
    {
        let m = &messages[i];
        let ghost before = s@;
        s.append("<|turn>");
        if same_text(m.role.as_str(), "assistant") {
            s.append("model");
        } else {
            s.append(m.role.as_str());
        }
        s.append("\n");
        s.append(trim(m.content.as_str()).as_str());
        s.append("<turn|>\n");
        proof {
            assert(s@ =~= before + turn_text(m@));
        }
        i = i + 1;
    }
    if add_generation_prompt {
        s.append("<|turn>model\n");
    }
    s
}

/// Gemma-4 has turns for system prompts, so a chat stays as it is.
pub fn fold_system_prompt(messages: &[Message]) -> (r: Vec<Message>)
    ensures
        r@.len() == messages@.len(),
        forall|i: int| 0 <= i < r@.len() ==> (#[trigger] r@[i])@ == messages@[i]@,
{
    let mut out: Vec<Message> = Vec::new();
    let mut i: usize = 0;
    while i < messages.len()
        invariant
            i <= messages@.len(),
            out@.len() == i,
            forall|k: int| 0 <= k < i ==> (#[trigger] out@[k])@ == messages@[k]@,
        decreases messages@.len() - i,
    {
        out.push(Message::new(messages[i].role.as_str(), messages[i].content.as_str()));
        i = i + 1;
    }
    out
}

/// A chat depends on nothing but its turns' texts.
proof fn lemma_turns_text(a: Seq<Message>, b: Seq<Message>, n: nat)
    requires
        n <= a.len(),
        n <= b.len(),
        forall|i: int| 0 <= i < n ==> (#[trigger] a[i])@ == b[i]@,
    ensures
        turns_text(a, n) == turns_text(b, n),
    decreases n,
{
    if n > 0 {
        lemma_turns_text(a, b, (n - 1) as nat);
        assert(a[n - 1]@ == b[n - 1]@);
    }
}

/// Folding leaves what the template writes unchanged.
pub proof fn folding_keeps_the_chat(messages: Seq<Message>, folded: Seq<Message>, add_generation_prompt: bool)
    requires
        folded.len() == messages.len(),
        forall|i: int| 0 <= i < folded.len() ==> (#[trigger] folded[i])@ == messages[i]@,
    ensures
        chat_text(folded, add_generation_prompt) == chat_text(messages, add_generation_prompt),
{
    lemma_turns_text(folded, messages, messages.len());
}

} // verus!
