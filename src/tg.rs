//! The chat platform's data: users, chats, messages, and replies.

use std::string::FromUtf16Error;
use vstd::prelude::*;
use vstd::string::StringExecFns;

verus! {

#[verifier::external_type_specification]
#[verifier::external_body]
pub struct ExFromUtf16Error(FromUtf16Error);

/// An error of the chat service, with its description.
#[derive(Debug)]
pub struct Error {
    desc: String,
}

impl Error {
    pub closed spec fn text(&self) -> Seq<char> {
        self.desc@
    }

    pub fn new(desc: String) -> (r: Error)
        ensures
            r.text() == desc@,
    {
        Error { desc }
    }

    pub fn description(&self) -> (r: &str)
        ensures
            r@ == self.text(),
    {
        self.desc.as_str()
    }
}

pub struct Chat {
    pub id: i64,
    pub title: Option<String>,
    pub username: Option<String>,
    pub first_name: Option<String>,
    pub last_name: Option<String>,
}

pub struct User {
    pub id: i64,
    pub first_name: String,
    pub last_name: Option<String>,
    pub username: Option<String>,
}

pub open spec fn opt_view(o: Option<String>) -> Option<Seq<char>> {
    match o {
        Some(s) => Some(s@),
        None => None,
    }
}

/// How a person is shown: the first name, the user name in quotes, and the
/// last name, those present, separated by spaces; `<unknown>` when none is.
pub open spec fn name_text(f: Option<Seq<char>>, u: Option<Seq<char>>, l: Option<Seq<char>>) -> Seq<
    char,
> {
    let s1 = match f {
        Some(x) => x,
        None => Seq::empty(),
    };
    let p1 = if f is Some { seq![' '] } else { Seq::empty() };
    let s2 = match u {
        Some(x) => s1 + p1 + seq!['\''] + x + seq!['\''],
        None => s1,
    };
    let p2 = if f is Some || u is Some { seq![' '] } else { Seq::empty() };
    match l {
        Some(x) => s2 + p2 + x,
        None => if f is None && u is None {
            "<unknown>"@
        } else {
            s2
        },
    }
}

impl User {
    /// Writes a person's name from the parts that are known.
    pub fn fmt_name(firstname: Option<&String>, username: Option<&String>, lastname: Option<&String>) -> (r:
        String)
        ensures
            r@ == name_text(
                match firstname {
                    Some(x) => Some(x@),
                    None => None,
                },
                match username {
                    Some(x) => Some(x@),
                    None => None,
                },
                match lastname {
                    Some(x) => Some(x@),
                    None => None,
                },
            ),
    {
        let mut s = String::new();
        let mut padded = false;
        match firstname {
            None => {},
            Some(f) => {
                s.append(f.as_str());
                padded = true;
            },
        }
        match username {
            None => {},
            Some(u) => {
                if padded {
                    s.append(" ");
                }
                s.append("'");
                s.append(u.as_str());
                s.append("'");
                padded = true;
            },
        }
        match lastname {
            None => {
                if !padded {
                    s = String::from_str("<unknown>");
                }
            },
            Some(l) => {
                if padded {
                    s.append(" ");
                }
                s.append(l.as_str());
            },
        }
        proof {
            reveal_strlit(" ");
            reveal_strlit("'");
        }
        assert(s@ =~= name_text(
            match firstname {
                Some(x) => Some(x@),
                None => None,
            },
            match username {
                Some(x) => Some(x@),
                None => None,
            },
            match lastname {
                Some(x) => Some(x@),
                None => None,
            },
        ));
        s
    }

    /// The user's name as shown.
    pub fn name(&self) -> (r: String)
        ensures
            r@ == name_text(Some(self.first_name@), opt_view(self.username), opt_view(self.last_name)),
    {
        User::fmt_name(Some(&self.first_name), self.username.as_ref(), self.last_name.as_ref())
    }
}

impl Chat {
    /// The chat's title, or else the name of its person.
    pub fn name(&self) -> (r: String)
        ensures
            r@ == match self.title {
                Some(t) => t@,
                None => name_text(
                    opt_view(self.first_name),
                    opt_view(self.username),
                    opt_view(self.last_name),
                ),
            },
    {
        match &self.title {
            Some(t) => t.clone(),
            None => User::fmt_name(
                self.first_name.as_ref(),
                self.username.as_ref(),
                self.last_name.as_ref(),
            ),
        }
    }
}

/// The UTF-16 code units of one character.
pub open spec fn utf16_char(c: char) -> Seq<u16> {
    let x = c as u32;
    if x < 0x10000 {
        seq![x as u16]
    } else {
        let y = x - 0x10000;
        seq![(0xd800 + y / 0x400) as u16, (0xdc00 + y % 0x400) as u16]
    }
}

/// The UTF-16 encoding of a string.
pub open spec fn utf16_of(s: Seq<char>) -> Seq<u16>
    decreases s.len(),
{
    if s.len() == 0 {
        Seq::empty()
    } else {
        utf16_of(s.drop_last()) + utf16_char(s.last())
    }
}

/// Relies on `str::encode_utf16`: the string's UTF-16 code units, in order.
#[verifier::external_body]
fn encode_utf16(s: &str) -> (r: Vec<u16>)
    ensures
        r@ == utf16_of(s@),
{
    s.encode_utf16().collect()
}

/// Relies on `String::from_utf16`: the string whose UTF-16 encoding the units
/// are, or an error where no string has them as its encoding.
#[verifier::external_body]
fn decode_utf16(units: &Vec<u16>) -> (r: Result<String, FromUtf16Error>)
    ensures
        r matches Ok(s) ==> utf16_of(s@) == units@,
        r is Err ==> forall|s: Seq<char>| #[trigger] utf16_of(s) != units@,
{
    String::from_utf16(units)
}

/// The code units from `offset` on, at most `length` of them, as far as `u` reaches.
pub open spec fn window(u: Seq<u16>, offset: int, length: int) -> Seq<u16> {
    let start = if offset <= u.len() { offset } else { u.len() as int };
    let end = if length <= u.len() - start { start + length } else { u.len() as int };
    u.subrange(start, end)
}

pub struct MessageEntity {
    pub entity_type: String,
    pub offset: usize,
    pub length: usize,
}

impl MessageEntity {
    /// The part of `text` that the entity marks, counted in UTF-16 code units.
    pub fn extract(&self, text: &str) -> (r: Result<String, FromUtf16Error>)
        ensures
            r matches Ok(s) ==> utf16_of(s@) == window(
                utf16_of(text@),
                self.offset as int,
                self.length as int,
            ),
            r is Err ==> forall|s: Seq<char>|
                #[trigger] utf16_of(s) != window(utf16_of(text@), self.offset as int, self.length as int),
    {
        let units = encode_utf16(text);
        let n = units.len();
        let start = if self.offset <= n { self.offset } else { n };
        let end = if self.length <= n - start { start + self.length } else { n };
        let mut part: Vec<u16> = Vec::new();
        let mut k: usize = start;
        while k < end
            invariant
                start <= k <= end <= n,
                n == units@.len(),
                part@ == units@.subrange(start as int, k as int),
            decreases end - k,
        {
            part.push(units[k]);
            k = k + 1;
            assert(part@ =~= units@.subrange(start as int, k as int));
        }
        decode_utf16(&part)
    }
}

pub struct Message {
    pub message_id: i64,
    pub chat: Chat,
    pub from: Option<User>,
    pub text: Option<String>,
    pub entities: Vec<MessageEntity>,
}

pub struct Update {
    pub update_id: i64,
    pub message: Option<Message>,
}

/// A text message to send.
pub struct OutgoingText {
    pub chat_id: i64,
    pub text: String,
    pub disable_notification: bool,
    pub parse_mode: Option<String>,
    pub reply_to_message_id: Option<i64>,
}

impl OutgoingText {
    /// Whether the flag is set; a set flag is left out when sending.
    pub fn is_true(b: &bool) -> (r: bool)
        ensures
            r == *b,
    {
        *b
    }
}

impl Message {
    /// A reply in this message's chat, pointing at this message.
    pub fn reply_text(&self, text: String) -> (r: OutgoingText)
        ensures
            r.chat_id == self.chat.id,
            r.text@ == text@,
            r.parse_mode is None,
            !r.disable_notification,
            r.reply_to_message_id == Some(self.message_id),
    {
        OutgoingText {
            chat_id: self.chat.id,
            text,
            parse_mode: None,
            disable_notification: false,
            reply_to_message_id: Some(self.message_id),
        }
    }
}

} // verus!
