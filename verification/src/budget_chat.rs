//! A chat room: who is in it, and what each of its users is told.

use crate::strings::{lemma_same_bytes_same_text, same_text, trim_end, trimmed_end};
use crate::text::{bytes_less, lemma_lex_total, lemma_lex_transitive, lex_less};
use vstd::prelude::*;
use vstd::string::StringExecFns;
use vstd::utf8::encode_utf8;

verus! {

/// What a user is asked when the connection opens.
pub const GREETING: &'static str = "Welcome to budgetchat! What shall I call you?\n";

/// What happens in the room.
#[derive(Debug, Clone)]
pub enum ChatEvent {
    Message { username: String, message: String },
    UserJoined(String),
    UserLeft(String),
}

impl ChatEvent {
    /// The user that the event is about.
    pub open spec fn subject(&self) -> Seq<char> {
        match self {
            ChatEvent::Message { username, .. } => username@,
            ChatEvent::UserJoined(username) => username@,
            ChatEvent::UserLeft(username) => username@,
        }
    }

    /// The line that tells of the event.
    pub open spec fn line(&self) -> Seq<char> {
        match self {
            ChatEvent::Message { username, message } => "["@ + username@ + "] "@ + message@
                + "\n"@,
            ChatEvent::UserJoined(username) => "* "@ + username@ + " has entered the room\n"@,
            ChatEvent::UserLeft(username) => "* "@ + username@ + " has left the room\n"@,
        }
    }

    /// The line to send to `recipient` for the event. Nobody is told of what
    /// they did themselves.
    pub fn line_for(&self, recipient: &str) -> (line: Option<String>)
        ensures
            match line {
                Some(text) => self.subject() != recipient@ && text@ == self.line(),
                None => self.subject() == recipient@,
            },
    {
        match self {
            ChatEvent::Message { username, message } => {
                if same_text(username.as_str(), recipient) {
                    None
                } else {
                    let text = String::from_str("[").concat(username.as_str()).concat(
                        "] ",
                    ).concat(message.as_str()).concat("\n");
                    Some(text)
                }
            },
            ChatEvent::UserJoined(username) => {
                if same_text(username.as_str(), recipient) {
                    None
                } else {
                    let text = String::from_str("* ").concat(username.as_str()).concat(
                        " has entered the room\n",
                    );
                    Some(text)
                }
            },
            ChatEvent::UserLeft(username) => {
                if same_text(username.as_str(), recipient) {
                    None
                } else {
                    let text = String::from_str("* ").concat(username.as_str()).concat(
                        " has left the room\n",
                    );
                    Some(text)
                }
            },
        }
    }
}

/// Why a user cannot join.
#[derive(Debug, Clone, Copy, PartialEq, Eq, Structural)]
pub enum JoinError {
    /// The name is empty.
    InvalidUsername,
    /// Somebody in the room has the name.
    UsernameTaken,
}

/// The names parted by `, `.
pub open spec fn comma_list(names: Seq<Seq<char>>) -> Seq<char>
    decreases names.len(),
{
    if names.len() == 0 {
        Seq::empty()
    } else if names.len() == 1 {
        names[0]
    } else {
        comma_list(names.drop_last()) + ", "@ + names.last()
    }
}

/// The line that tells a new user who is in the room.
pub open spec fn listing(names: Seq<Seq<char>>) -> Seq<char> {
    "* Chatting now: "@ + comma_list(names) + "\n"@
}

/// The names stand in the order of a dictionary on their bytes, and so none
/// of them twice.
pub open spec fn in_order(names: Seq<Seq<char>>) -> bool {
    forall|i: int, j: int|
        0 <= i < j < names.len() ==> lex_less(encode_utf8(names[i]), encode_utf8(names[j]))
}

/// The users of a room.
pub struct Room {
    joined_users: Vec<String>,
}

/// What a user who joined is called and told.
#[derive(Debug, Clone, PartialEq, Eq)]
pub struct Welcome {
    pub username: String,
    /// The line that names the users who were in the room before.
    pub listing: String,
}

impl View for Room {
    type V = Seq<Seq<char>>;

    closed spec fn view(&self) -> Seq<Seq<char>> {
        self.joined_users@.map_values(|name: String| name@)
    }
}

impl Room {
    pub open spec fn wf(&self) -> bool {
        in_order(self@)
    }

    /// A room without users.
    pub fn new() -> (room: Self)
        ensures
            room.wf(),
            room@ == Seq::<Seq<char>>::empty(),
    {
        let room = Room { joined_users: Vec::new() };
        proof {
            assert(room@ =~= Seq::<Seq<char>>::empty());
        }
        room
    }

    /// The place of `name` in the room: the index of the first user whose
    /// name does not come before it.
    fn place_of(&self, name: &str) -> (at: usize)
        requires
            self.wf(),
        ensures
            at <= self@.len(),
            forall|j: int| 0 <= j < at ==> lex_less(encode_utf8(self@[j]), encode_utf8(name@)),
            forall|j: int|
                at <= j < self@.len() ==> !lex_less(encode_utf8(self@[j]), encode_utf8(name@)),
    {
        let mut at: usize = 0;
        while at < self.joined_users.len() && bytes_less(
            self.joined_users[at].as_str().as_bytes(),
            name.as_bytes(),
        )
            invariant
                at <= self.joined_users.len(),
                self.wf(),
                forall|j: int| 0 <= j < at ==> lex_less(encode_utf8(self@[j]), encode_utf8(name@)),
            decreases self.joined_users.len() - at,
        {
            at += 1;
        }
        proof {
            assert forall|j: int| at <= j < self@.len() implies !lex_less(
                encode_utf8(self@[j]),
                encode_utf8(name@),
            ) by {
                if j > at && lex_less(encode_utf8(self@[j]), encode_utf8(name@)) {
                    lemma_lex_transitive(
                        encode_utf8(self@[at as int]),
                        encode_utf8(self@[j]),
                        encode_utf8(name@),
                    );
                }
            }
        }
        at
    }

    /// Whether a user of this name is in the room.
    pub fn contains(&self, name: &str) -> (found: bool)
        requires
            self.wf(),
        ensures
            found == self@.contains(name@),
    {
        let at = self.place_of(name);
        let found = at < self.joined_users.len() && same_text(
            self.joined_users[at].as_str(),
            name,
        );
        proof {
            if found {
                assert(self@[at as int] == self.joined_users@[at as int]@);
            } else if self@.contains(name@) {
                let j = choose|j: int| 0 <= j < self@.len() && self@[j] == name@;
                lemma_lex_total(encode_utf8(name@), encode_utf8(name@));
                if j < at {
                    assert(lex_less(encode_utf8(self@[j]), encode_utf8(name@)));
                } else if j == at {
                    assert(self@[at as int] == self.joined_users@[at as int]@);
                } else {
                    assert(lex_less(encode_utf8(self@[at as int]), encode_utf8(self@[j])));
                }
            }
        }
        found
    }

    /// The line that tells a new user who is in the room.
    pub fn joined_users_line(&self) -> (line: String)
        ensures
            line@ == listing(self@),
    {
        let mut list = String::new();
        let mut i: usize = 0;
        while i < self.joined_users.len()
            invariant
                i <= self.joined_users.len(),
                list@ == comma_list(self@.take(i as int)),
            decreases self.joined_users.len() - i,
        {
            proof {
                assert(self@.take(i + 1).drop_last() =~= self@.take(i as int));
            }
            if i > 0 {
                list.append(", ");
            }
            list.append(self.joined_users[i].as_str());
            proof {
                if i == 0 {
                    assert(list@ =~= self@[0]);
                }
            }
            i += 1;
        }
        proof {
            assert(self@.take(i as int) =~= self@);
        }
        String::from_str("* Chatting now: ").concat(list.as_str()).concat("\n")
    }

    /// Takes the line in which a user gave their name, and lets them in.
    ///
    /// The name is the line without the white space at its end. It must not
    /// be empty, and nobody in the room may have it. The new user is told
    /// who was in the room before.
    pub fn join(&mut self, line: &str) -> (res: Result<Welcome, JoinError>)
        requires
            old(self).wf(),
        ensures
            final(self).wf(),
            match res {
                Ok(welcome) => {
                    &&& trimmed_end(line@).len() > 0
                    &&& !old(self)@.contains(trimmed_end(line@))
                    &&& welcome.username@ == trimmed_end(line@)
                    &&& welcome.listing@ == listing(old(self)@)
                    &&& exists|at: int|
                        0 <= at <= old(self)@.len() && final(self)@ == old(self)@.insert(
                            at,
                            trimmed_end(line@),
                        )
                },
                Err(JoinError::InvalidUsername) => trimmed_end(line@).len() == 0 && final(self)@
                    == old(self)@,
                Err(JoinError::UsernameTaken) => trimmed_end(line@).len() > 0 && old(
                    self,
                )@.contains(trimmed_end(line@)) && final(self)@ == old(self)@,
            },
    {
        let name = trim_end(line);
        if name.unicode_len() == 0 {
            return Err(JoinError::InvalidUsername);
        }
        if self.contains(name) {
            return Err(JoinError::UsernameTaken);
        }
        let listing = self.joined_users_line();
        let at = self.place_of(name);
        let username = String::from_str(name);
        let ghost before = self@;
        self.joined_users.insert(at, String::from_str(name));
        proof {
            let after = self@;
            assert(after =~= before.insert(at as int, name@));
            assert forall|i: int, j: int| 0 <= i < j < after.len() implies lex_less(
                encode_utf8(after[i]),
                encode_utf8(after[j]),
            ) by {
                let bi = if i < at { i } else { i - 1 };
                let bj = if j < at { j } else { j - 1 };
                if i != at && j != at {
                    assert(after[i] == before[bi] && after[j] == before[bj]);
                } else if i == at {
                    lemma_lex_total(encode_utf8(before[bj]), encode_utf8(name@));
                    if encode_utf8(before[bj]) == encode_utf8(name@) {
                        lemma_same_bytes_same_text(before[bj], name@);
                    }
                } else {
                    assert(after[i] == before[bi]);
                }
            }
        }
        Ok(Welcome { username, listing })
    }

    /// Lets a user out of the room. Nothing changes if nobody of this name
    /// is in it.
    pub fn leave(&mut self, username: &str)
        requires
            old(self).wf(),
        ensures
            final(self).wf(),
            !final(self)@.contains(username@),
            if old(self)@.contains(username@) {
                exists|at: int|
                    0 <= at < old(self)@.len() && old(self)@[at] == username@ && final(self)@
                        == old(self)@.remove(at)
            } else {
                final(self)@ == old(self)@
            },
    {
        if !self.contains(username) {
            return ;
        }
        let at = self.place_of(username);
        let ghost before = self@;
        proof {
            let j = choose|j: int| 0 <= j < before.len() && before[j] == username@;
            lemma_lex_total(encode_utf8(username@), encode_utf8(username@));
            if j > at {
                if encode_utf8(before[at as int]) == encode_utf8(username@) {
                    lemma_same_bytes_same_text(before[at as int], username@);
                }
            }
        }
        self.joined_users.remove(at);
        proof {
            let after = self@;
            assert(after =~= before.remove(at as int));
            assert forall|i: int, j: int| 0 <= i < j < after.len() implies lex_less(
                encode_utf8(after[i]),
                encode_utf8(after[j]),
            ) by {
                let bi = if i < at { i } else { i + 1 };
                let bj = if j < at { j } else { j + 1 };
                assert(after[i] == before[bi] && after[j] == before[bj]);
            }
            if after.contains(username@) {
                let j = choose|j: int| 0 <= j < after.len() && after[j] == username@;
                let bj = if j < at { j } else { j + 1 };
                if bj < at {
                    assert(lex_less(encode_utf8(before[bj]), encode_utf8(before[at as int])));
                } else {
                    assert(lex_less(encode_utf8(before[at as int]), encode_utf8(before[bj])));
                }
            }
        }
    }
}

} // verus!
