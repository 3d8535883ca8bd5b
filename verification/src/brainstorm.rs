//! Brainstorming conversations: their messages, the messages sent to the
//! text service with the attached notes, and the request for a
//! requirements document written from a conversation.
use vstd::prelude::*;
use vstd::string::StrSliceExecFns;
use crate::style_guide::{spec_to_lowercase, to_lowercase};
use crate::text::{owned, push_string, spec_join, views};

verus! {

/// One message of a conversation.
#[derive(Clone, Debug)]
pub struct Message {
    pub id: i64,
    pub role: String,
    pub content: String,
    pub attachments: Vec<String>,
    pub timestamp: String,
}

/// What a message sent to the text service carries: one text, or several
/// text parts.
#[derive(Clone, Debug)]
pub enum ChatContent {
    Text(String),
    Parts(Vec<String>),
}

/// A message sent to the text service.
#[derive(Clone, Debug)]
pub struct ChatMessage {
    pub role: String,
    pub content: ChatContent,
}

pub open spec fn content_view(c: ChatContent) -> Result<Seq<char>, Seq<Seq<char>>> {
    match c {
        ChatContent::Text(t) => Ok(t@),
        ChatContent::Parts(p) => Err(views(p@)),
    }
}

pub open spec fn chat_view(m: ChatMessage) -> (Seq<char>, Result<Seq<char>, Seq<Seq<char>>>) {
    (m.role@, content_view(m.content))
}

/// An attached note as a part of the message that carries it.
pub open spec fn spec_note_part(file_name: Seq<char>, content: Seq<char>) -> Seq<char> {
    "\n\n---\n附件: "@ + file_name + "\n---\n"@ + content
}

/// The part of a message that carries an attached note.
pub fn note_part(file_name: &str, content: &str) -> (r: String)
    ensures
        r@ == spec_note_part(file_name@, content@),
{
    let mut r = owned("\n\n---\n附件: ");
    r.append(file_name);
    r.append("\n---\n");
    r.append(content);
    r
}

/// The messages sent for a new turn: the system prompt, the history (role
/// and content), and the new message, alone as text when no note is
/// attached, else as parts: its text, then one part per note.
pub open spec fn spec_chat_messages(
    system: Seq<char>,
    history: Seq<Message>,
    message: Seq<char>,
    notes: Option<Seq<Seq<char>>>,
) -> Seq<(Seq<char>, Result<Seq<char>, Seq<Seq<char>>>)> {
    seq![("system"@, Ok(system))] + history.map_values(|m: Message| (m.role@, Ok(m.content@))) + seq![
        ("user"@, match notes {
            None => Ok(message),
            Some(n) => Err(seq![message] + n),
        }),
    ]
}

/// Builds the messages sent for a new turn of a conversation. `notes` is
/// `None` when the turn has no attachments, and otherwise holds the parts
/// of the attached notes that could be read.
pub fn chat_messages(system: &str, history: &[Message], message: &str, notes: Option<Vec<String>>) -> (r: Vec<ChatMessage>)
    ensures
        r@.map_values(|m: ChatMessage| chat_view(m)) == spec_chat_messages(
            system@,
            history@,
            message@,
            match notes {
                Some(n) => Some(views(n@)),
                None => None,
            },
        ),
{
    let ghost nv = match &notes {
        Some(n) => Some(views(n@)),
        None => None::<Seq<Seq<char>>>,
    };
    let ghost target = spec_chat_messages(system@, history@, message@, nv);
    let mut r: Vec<ChatMessage> = Vec::new();
    r.push(ChatMessage { role: owned("system"), content: ChatContent::Text(owned(system)) });
    let mut i: usize = 0;
    proof {
        assert(r@.map_values(|m: ChatMessage| chat_view(m)) =~= target.take(1));
    }
    while i < history.len()
        invariant
            0 <= i <= history@.len(),
            target == spec_chat_messages(system@, history@, message@, nv),
            target.len() == history@.len() + 2,
            r@.map_values(|m: ChatMessage| chat_view(m)) == target.take(i + 1),
        decreases history@.len() - i,
    {
        let m = ChatMessage { role: owned(history[i].role.as_str()), content: ChatContent::Text(owned(history[i].content.as_str())) };
        let ghost before = r@;
        r.push(m);
        proof {
            assert(target[i + 1] == (history@[i as int].role@, Ok::<Seq<char>, Seq<Seq<char>>>(history@[i as int].content@)));
            assert(r@.map_values(|m: ChatMessage| chat_view(m)) =~= before.map_values(|m: ChatMessage| chat_view(m)).push(chat_view(m)));
            assert(target.take(i + 2) =~= target.take(i + 1).push(target[i + 1]));
        }
        i = i + 1;
    }
    let content = match notes {
        None => ChatContent::Text(owned(message)),
        Some(n) => {
            let mut parts: Vec<String> = Vec::new();
            push_string(&mut parts, owned(message));
            let mut k: usize = 0;
            proof {
                assert(views(parts@) =~= seq![message@] + views(n@).take(0));
            }
            while k < n.len()
                invariant
                    0 <= k <= n@.len(),
                    views(parts@) == seq![message@] + views(n@).take(k as int),
                decreases n@.len() - k,
            {
                let ghost before = views(parts@);
                push_string(&mut parts, owned(n[k].as_str()));
                proof {
                    assert(views(parts@) =~= seq![message@] + views(n@).take(k + 1));
                }
                k = k + 1;
            }
            proof {
                assert(views(n@).take(n@.len() as int) =~= views(n@));
            }
            ChatContent::Parts(parts)
        },
    };
    let last = ChatMessage { role: owned("user"), content };
    let ghost before = r@;
    r.push(last);
    proof {
        assert(r@.map_values(|m: ChatMessage| chat_view(m)) =~= before.map_values(|m: ChatMessage| chat_view(m)).push(chat_view(last)));
        let h = history@.len() as int;
        assert(target.take(h + 2) =~= target);
        assert(target.take(h + 2) =~= target.take(h + 1).push(target[h + 1]));
    }
    r
}

/// A conversation as one text: each message as `【role】content`, with a
/// blank line between messages.
pub open spec fn spec_conversation_summary(history: Seq<Message>) -> Seq<char> {
    spec_join(history.map_values(|m: Message| "【"@ + m.role@ + "】"@ + m.content@), "\n\n"@)
}

/// Writes a conversation as one text.
pub fn conversation_summary(history: &[Message]) -> (r: String)
    ensures
        r@ == spec_conversation_summary(history@),
{
    let mut lines: Vec<String> = Vec::new();
    let mut i: usize = 0;
    while i < history.len()
        invariant
            0 <= i <= history@.len(),
            views(lines@) == history@.take(i as int).map_values(|m: Message| "【"@ + m.role@ + "】"@ + m.content@),
        decreases history@.len() - i,
    {
        let mut line = owned("【");
        line.append(history[i].role.as_str());
        line.append("】");
        line.append(history[i].content.as_str());
        push_string(&mut lines, line);
        proof {
            assert(views(lines@) =~= history@.take(i + 1).map_values(|m: Message| "【"@ + m.role@ + "】"@ + m.content@));
        }
        i = i + 1;
    }
    proof {
        assert(history@.take(history@.len() as int) =~= history@);
    }
    crate::text::join_strings(lines.as_slice(), "\n\n")
}

/// An attached note as it goes into the requirements request.
pub open spec fn spec_note_block(file_name: Seq<char>, content: Seq<char>) -> Seq<char> {
    "\n---\n附件: "@ + file_name + "\n---\n"@ + content + "\n"@
}

/// The block of an attached note in the requirements request.
pub fn note_block(file_name: &str, content: &str) -> (r: String)
    ensures
        r@ == spec_note_block(file_name@, content@),
{
    let mut r = owned("\n---\n附件: ");
    r.append(file_name);
    r.append("\n---\n");
    r.append(content);
    r.append("\n");
    r
}

pub const REQUIREMENTS_HEAD: &'static str = "根据以下对话内容，生成一份完整的演示需求文档。\n\n对话记录：\n";
pub const REQUIREMENTS_WITH_FILES_HEAD: &'static str = "根据以下对话内容和附件信息，生成一份完整的演示需求文档。\n\n对话记录：\n";
pub const REQUIREMENTS_FILES: &'static str = "\n\n附件内容：\n";
pub const REQUIREMENTS_TAIL: &'static str = "\n\n请按照以下格式生成需求文档：\n\n【目标】\n明确演示的核心目标，包括：\n- 主要目的是什么（说服/教育/汇报/激励）\n- 希望听众在演示结束后做什么或想什么\n- 成功的标准是什么\n\n【受众】\n描述目标听众，包括：\n- 听众背景、知识水平\n- 听众的关注点和痛点\n- 可能的疑虑或反对意见\n\n【核心信息】\n提炼关键信息，包括：\n- 核心观点（一句话概括）\n- 关键论据（3-5个要点）\n- 支撑数据或案例\n\n【场景约束】\n列出演示场景和约束，包括：\n- 演示场合和时间限制\n- 品牌或视觉要求\n- 其他特殊要求\n\n注意：请直接输出需求文档内容，不要添加额外的说明或解释。";

/// The request for a requirements document: the conversation, the
/// attached notes when there are any, and the sections to write.
pub open spec fn spec_requirements_prompt(summary: Seq<char>, notes: Seq<char>) -> Seq<char> {
    if notes.len() == 0 {
        REQUIREMENTS_HEAD@ + summary + REQUIREMENTS_TAIL@
    } else {
        REQUIREMENTS_WITH_FILES_HEAD@ + summary + REQUIREMENTS_FILES@ + notes + REQUIREMENTS_TAIL@
    }
}

/// Builds the request for a requirements document.
pub fn requirements_prompt(summary: &str, notes: &str) -> (r: String)
    ensures
        r@ == spec_requirements_prompt(summary@, notes@),
{
    if notes.unicode_len() == 0 {
        let mut r = owned(REQUIREMENTS_HEAD);
        r.append(summary);
        r.append(REQUIREMENTS_TAIL);
        r
    } else {
        let mut r = owned(REQUIREMENTS_WITH_FILES_HEAD);
        r.append(summary);
        r.append(REQUIREMENTS_FILES);
        r.append(notes);
        r.append(REQUIREMENTS_TAIL);
        r
    }
}

/// The role stored for a message: its role in lower case.
pub fn stored_role(role: &str) -> (r: String)
    ensures
        r@ == spec_to_lowercase(role@),
{
    to_lowercase(role)
}

} // verus!
