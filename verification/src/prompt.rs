//! The messages of a request, and the part of their wording that follows from
//! where a statement stands in the tree.

use crate::text::texts;
use vstd::prelude::*;

verus! {

/// One message of a conversation with the service.
pub struct Message {
    /// Who speaks: `system`, `user` or `assistant`.
    pub role: String,
    /// What is said.
    pub content: String,
}

/// Model of a [`Message`].
pub struct MessageView {
    pub role: Seq<char>,
    pub content: Seq<char>,
}

impl View for Message {
    type V = MessageView;

    open spec fn view(&self) -> MessageView {
        MessageView { role: self.role@, content: self.content@ }
    }
}

/// The models of a sequence of messages.
pub open spec fn message_views(messages: Seq<Message>) -> Seq<MessageView> {
    Seq::new(messages.len(), |i: int| messages[i]@)
}

/// The statements in double quotes, a comma and a blank between each two.
pub open spec fn quoted_list(items: Seq<Seq<char>>) -> Seq<char>
    decreases items.len(),
{
    if items.len() == 0 {
        Seq::empty()
    } else if items.len() == 1 {
        "\""@ + items[0] + "\""@
    } else {
        quoted_list(items.drop_last()) + ", "@ + "\""@ + items.last() + "\""@
    }
}

/// The sentence that names the statements above the one to expand: empty
/// for the root, which has none above it.
pub open spec fn lineage_clause(ancestors: Seq<Seq<char>>) -> Seq<char> {
    if ancestors.len() == 0 {
        Seq::empty()
    } else {
        "The previous axioms were: "@ + quoted_list(ancestors) + "."@
    }
}

/// The sentence that tells the service which statements led to the one it is
/// to expand, from the root down; nothing where the list is empty.
pub fn ancestor_clause(ancestors: &Vec<String>) -> (clause: String)
    ensures
        clause@ == lineage_clause(texts(ancestors@)),
{
    let mut clause = String::new();
    if ancestors.len() == 0 {
        return clause;
    }
    let ghost all = texts(ancestors@);
    clause.append("The previous axioms were: ");
    let ghost head = clause@;
    let mut i: usize = 0;
    proof {
        assert(all.take(0) =~= Seq::<Seq<char>>::empty());
        assert(clause@ =~= head + quoted_list(all.take(0)));
    }
    while i < ancestors.len()
        invariant
            i <= ancestors.len(),
            all == texts(ancestors@),
            clause@ == head + quoted_list(all.take(i as int)),
        decreases ancestors.len() - i,
    {
        let ghost listed = quoted_list(all.take(i as int));
        proof {
            assert(all.take(i + 1).drop_last() =~= all.take(i as int));
            assert(all.take(i + 1).last() == ancestors@[i as int]@);
            if i == 0 {
                assert(all.take(1)[0] == ancestors@[0]@);
                assert(listed =~= Seq::<char>::empty());
            }
        }
        if i > 0 {
            clause.append(", ");
        }
        clause.append("\"");
        clause.append(ancestors[i].as_str());
        clause.append("\"");
        proof {
            assert(clause@ =~= head + quoted_list(all.take(i + 1)));
        }
        i += 1;
    }
    clause.append(".");
    proof {
        assert(all.take(i as int) =~= all);
        assert(clause@ =~= lineage_clause(all));
    }
    clause
}

/// A message with the given role.
pub fn message(role: &str, content: &str) -> (out: Message)
    ensures
        out@ == (MessageView { role: role@, content: content@ }),
{
    Message { role: role.to_owned(), content: content.to_owned() }
}

/// The conversation that asks for an expansion: the standing instructions,
/// one worked example as a question and its answer, and the question itself.
pub fn few_shot(system: &str, example: &str, answer: &str, question: &str) -> (out: Vec<Message>)
    ensures
        message_views(out@) == seq![
            MessageView { role: "system"@, content: system@ },
            MessageView { role: "user"@, content: example@ },
            MessageView { role: "assistant"@, content: answer@ },
            MessageView { role: "user"@, content: question@ },
        ],
{
    let mut out: Vec<Message> = Vec::new();
    out.push(message("system", system));
    out.push(message("user", example));
    out.push(message("assistant", answer));
    out.push(message("user", question));
    assert(message_views(out@) =~= seq![
        MessageView { role: "system"@, content: system@ },
        MessageView { role: "user"@, content: example@ },
        MessageView { role: "assistant"@, content: answer@ },
        MessageView { role: "user"@, content: question@ },
    ]);
    out
}

/// The conversation that asks one question, after the standing instructions
/// where there are any.
pub fn single_turn(system: Option<&str>, question: &str) -> (out: Vec<Message>)
    ensures
        message_views(out@) == match system {
            Some(text) => seq![
                MessageView { role: "system"@, content: text@ },
                MessageView { role: "user"@, content: question@ },
            ],
            None => seq![MessageView { role: "user"@, content: question@ }],
        },
{
    let mut out: Vec<Message> = Vec::new();
    match system {
        Some(text) => {
            out.push(message("system", text));
        },
        None => {},
    }
    out.push(message("user", question));
    proof {
        match system {
            Some(text) => {
                assert(message_views(out@) =~= seq![
                    MessageView { role: "system"@, content: text@ },
                    MessageView { role: "user"@, content: question@ },
                ]);
            },
            None => {
                assert(message_views(out@) =~= seq![
                    MessageView { role: "user"@, content: question@ },
                ]);
            },
        }
    }
    out
}

} // verus!
