//! What a line of a chat session means.
use vstd::prelude::*;
use vstd::string::*;

use crate::template::Message;
use crate::text::{same_text, trim};

verus! {

/// What to do about a line.
#[derive(Clone, Debug)]
pub enum Line {
    /// There is nothing on it.
    Blank,
    Quit,
    /// Forget the conversation.
    Reset,
    /// Answer this.
    Say(String),
}

pub fn read_line(line: &str) -> (r: Line)
    ensures
        ({
            let t = crate::text::trimmed(line@);
            if t.len() == 0 {
                r is Blank
            } else if t == "/quit"@ || t == "/exit"@ {
                r is Quit
            } else if t == "/reset"@ {
                r is Reset
            } else {
                r matches Line::Say(s) && s@ == t
            }
        }),
{
    let t = trim(line);
    if same_text(t.as_str(), "") {
        proof {
            reveal_strlit("");
        }
        return Line::Blank;
    }
    proof {
        reveal_strlit("");
        if t@.len() == 0 {
            assert(t@ =~= ""@);
        }
    }
    if same_text(t.as_str(), "/quit") || same_text(t.as_str(), "/exit") {
        Line::Quit
    } else if same_text(t.as_str(), "/reset") {
        Line::Reset
    } else {
        Line::Say(t)
    }
}

/// The first messages of a conversation: the system prompt, if there is one.
pub fn opening(system: Option<&str>) -> (r: Vec<Message>)
    ensures
        match system {
            Some(s) => r@.len() == 1 && r@[0]@ == (crate::template::Turn { role: "system"@, content: s@ }),
            None => r@.len() == 0,
        },
{
    let mut v: Vec<Message> = Vec::new();
    if let Some(s) = system {
        v.push(Message::system(s));
    }
    v
}

/// The messages that remain of a conversation that is forgotten: those of the
/// system.
pub open spec fn kept(history: Seq<Message>) -> Seq<Message>
    decreases history.len(),
{
    if history.len() == 0 {
        Seq::empty()
    } else {
        let before = kept(history.drop_last());
        if history.last().role@ == "system"@ {
            before.push(history.last())
        } else {
            before
        }
    }
}

pub fn clear(history: Vec<Message>) -> (r: Vec<Message>)
    ensures
        r@.map_values(|m: Message| m@) == kept(history@).map_values(|m: Message| m@),
{
    let ghost v = |m: Message| m@;
    let len: usize = history.len();
    let mut out: Vec<Message> = Vec::new();
    let mut i: usize = 0;
    proof {
        assert(history@.take(0) =~= Seq::empty());
        assert(out@.map_values(v) =~= kept(history@.take(0)).map_values(v));
    }
    while i < len
        invariant
            len == history@.len(),
            i <= len,
            v == (|m: Message| m@),
            out@.map_values(v) == kept(history@.take(i as int)).map_values(v),
        decreases len - i,
    {
        let m = &history[i];
        proof {
            assert(history@.take(i + 1).drop_last() =~= history@.take(i as int));
            assert(history@.take(i + 1).last() == history@[i as int]);
        }
        if same_text(m.role.as_str(), "system") {
            let ghost was = out@;
            let ghost before = kept(history@.take(i as int));
            let n = Message::new(m.role.as_str(), m.content.as_str());
            out.push(n);
            proof {
                assert(n@ == m@);
                assert(out@.map_values(v) =~= was.map_values(v).push(m@));
                assert(before.push(*m).map_values(v) =~= before.map_values(v).push(m@));
            }
        }
        i = i + 1;
    }
    proof {
        assert(history@.take(len as int) =~= history@);
    }
    out
}

} // verus!
